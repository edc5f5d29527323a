use vstd::prelude::*;
use std::cmp::Ordering;
use crate::bytes::{in_bounds, read_bytes_at};
use crate::error::Error;

verus! {

/// What a region of an image is.
#[derive(Debug, Clone, Copy, PartialEq, Eq, Structural)]
pub enum SectionType {
    Header,
    Apploader,
    DOLHeader,
    FST,
    File,
    DOLSegment,
}

impl SectionType {
    /// The words by which a kind of region is shown.
    pub open spec fn label(self) -> Seq<char> {
        match self {
            SectionType::Header => "Header"@,
            SectionType::Apploader => "Apploader"@,
            SectionType::DOLHeader => "DOL Header"@,
            SectionType::DOLSegment => "DOL Segment"@,
            SectionType::FST => "File System Table"@,
            SectionType::File => "File"@,
        }
    }

    pub fn to_str(&self) -> (r: &'static str)
        ensures
            r@ == self.label(),
    {
        match self {
            SectionType::Header => "Header",
            SectionType::Apploader => "Apploader",
            SectionType::DOLHeader => "DOL Header",
            SectionType::DOLSegment => "DOL Segment",
            SectionType::FST => "File System Table",
            SectionType::File => "File",
        }
    }
}

/// The kinds of region of which an image holds exactly one.
#[derive(Debug, Clone, Copy, PartialEq, Eq, Structural)]
pub enum UniqueSectionType {
    Header,
    Apploader,
    DOLHeader,
    FST,
}

impl UniqueSectionType {
    /// The same kind among all kinds of region.
    pub open spec fn kind(self) -> SectionType {
        match self {
            UniqueSectionType::Header => SectionType::Header,
            UniqueSectionType::Apploader => SectionType::Apploader,
            UniqueSectionType::DOLHeader => SectionType::DOLHeader,
            UniqueSectionType::FST => SectionType::FST,
        }
    }

    pub fn to_str(&self) -> (r: &'static str)
        ensures
            r@ == self.kind().label(),
    {
        match self {
            UniqueSectionType::Header => "Header",
            UniqueSectionType::Apploader => "Apploader",
            UniqueSectionType::DOLHeader => "DOL Header",
            UniqueSectionType::FST => "File System Table",
        }
    }

    pub fn section_type(&self) -> (r: SectionType)
        ensures
            r == self.kind(),
    {
        match self {
            UniqueSectionType::Header => SectionType::Header,
            UniqueSectionType::Apploader => SectionType::Apploader,
            UniqueSectionType::DOLHeader => SectionType::DOLHeader,
            UniqueSectionType::FST => SectionType::FST,
        }
    }
}

/// A span of bytes of an image: where it starts, how long it is, what it is
/// called and what it is.
#[derive(Debug, Clone)]
pub struct LayoutSection {
    pub start: u64,
    pub length: u64,
    pub name: Vec<u8>,
    pub kind: SectionType,
}

/// What a region is to the contracts: its fields, the name as its bytes.
pub struct SectionView {
    pub start: u64,
    pub length: u64,
    pub name: Seq<u8>,
    pub kind: SectionType,
}

impl SectionView {
    /// Whether the byte at `offset` belongs to this region.
    pub open spec fn covers(&self, offset: u64) -> bool {
        self.start <= offset && offset < self.start + self.length
    }

    /// The first offset behind the region.
    pub open spec fn limit(&self) -> int {
        self.start + self.length
    }
}

impl View for LayoutSection {
    type V = SectionView;

    open spec fn view(&self) -> SectionView {
        SectionView { start: self.start, length: self.length, name: self.name@, kind: self.kind }
    }
}

/// The views of a list of regions, in the list's order.
pub open spec fn views_of(sections: Seq<LayoutSection>) -> Seq<SectionView> {
    Seq::new(sections.len(), |i: int| sections[i]@)
}

impl LayoutSection {
    /// Whether the byte at `offset` belongs to this region.
    pub open spec fn covers(&self, offset: u64) -> bool {
        self.start <= offset && offset < self.start + self.length
    }

    /// Whether the region lies wholly before `offset`.
    pub open spec fn ends_before(&self, offset: u64) -> bool {
        self.start + self.length <= offset
    }

    pub fn start(&self) -> (r: u64)
        ensures
            r == self.start,
    {
        self.start
    }

    pub fn len(&self) -> (r: u64)
        ensures
            r == self.length,
    {
        self.length
    }

    pub fn section_type(&self) -> (r: SectionType)
        ensures
            r == self.kind,
    {
        self.kind
    }

    pub fn name(&self) -> (r: &Vec<u8>)
        ensures
            r@ == self.name@,
    {
        &self.name
    }

    /// The offset of the region's last byte. An empty region has none, and
    /// neither has one that runs past the last offset there is.
    pub fn end(&self) -> (r: u64)
        requires
            self.length > 0,
            self.start + self.length - 1 <= u64::MAX,
        ensures
            r == self.start + self.length - 1,
    {
        self.start + (self.length - 1)
    }

    /// Where the region lies relative to `offset`: `Less` when it ends before
    /// it, `Greater` when it starts behind it, `Equal` when it covers it.
    pub fn compare_offset(&self, offset: u64) -> (r: Ordering)
        ensures
            (r == Ordering::Less) <==> self.ends_before(offset),
            (r == Ordering::Greater) <==> self.start > offset,
            (r == Ordering::Equal) <==> self.covers(offset),
    {
        if offset >= self.start && offset - self.start >= self.length {
            Ordering::Less
        } else if self.start > offset {
            Ordering::Greater
        } else {
            Ordering::Equal
        }
    }

    pub fn contains_offset(&self, offset: u64) -> (r: bool)
        ensures
            r == self.covers(offset),
    {
        match self.compare_offset(offset) {
            Ordering::Equal => true,
            _ => false,
        }
    }

    /// Appends the region's bytes, as `image` holds them, to `sink`. Fails,
    /// and leaves `sink` as it was, when the image ends before the region does.
    pub fn extract(&self, image: &[u8], sink: &mut Vec<u8>) -> (r: Result<(), Error>)
        ensures
            r.is_ok() <==> in_bounds(image@, self.start as int, self.length as int),
            r.is_ok() ==> final(sink)@ == old(sink)@ + image@.subrange(
                self.start as int,
                self.start + self.length,
            ),
            r.is_err() ==> r == Err::<(), Error>(Error::Truncated) && final(sink)@ == old(sink)@,
    {
        match read_bytes_at(image, self.start, self.length) {
            Some(mut bytes) => {
                sink.append(&mut bytes);
                Ok(())
            },
            None => Err(Error::Truncated),
        }
    }
}

/// A region of which an image holds exactly one, decoded from the image's
/// bytes.
pub trait UniqueLayoutSection: Sized {
    /// Whether `image` holds a well-formed structure of this kind at `offset`.
    spec fn decodable(image: Seq<u8>, offset: u64) -> bool;

    /// Whether `self` is what `image` spells at `offset`, field for field.
    spec fn decodes(&self, image: Seq<u8>, offset: u64) -> bool;

    /// What every decoded structure keeps: its fields are in the range that
    /// the format gives them.
    spec fn wf(&self) -> bool;

    /// The span of the image that the structure takes.
    spec fn span(&self) -> (u64, u64);

    /// Which of the unique regions this is.
    spec fn unique_kind(&self) -> UniqueSectionType;

    /// The name under which the region is stored once extracted.
    spec fn file_name(&self) -> Seq<u8>;

    fn section_type(&self) -> (r: UniqueSectionType)
        ensures
            r == self.unique_kind(),
    ;

    /// Decodes the structure that `image` holds at `offset`.
    fn with_offset(image: &[u8], offset: u64) -> (r: Result<Self, Error>)
        ensures
            r.is_ok() <==> Self::decodable(image@, offset),
            r.is_ok() ==> r.unwrap().decodes(image@, offset) && r.unwrap().wf(),
    ;

    /// The structure as a region of the layout.
    fn section(&self) -> (r: LayoutSection)
        requires
            self.wf(),
        ensures
            r@ == self.section_view(),
    ;

    /// The structure as a region of the layout.
    open spec fn section_view(&self) -> SectionView {
        SectionView {
            start: self.span().0,
            length: self.span().1,
            name: self.file_name(),
            kind: self.unique_kind().kind(),
        }
    }
}

} // verus!
