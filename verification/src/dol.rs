use vstd::prelude::*;
use crate::bytes::{in_bounds, read_bytes_at, read_u32_at, u32_at};
use crate::error::Error;
use crate::layout_section::{
    LayoutSection, SectionType, SectionView, UniqueLayoutSection, UniqueSectionType,
};
use crate::names::{dol_name, name_bytes};

verus! {

/// The size of the executable's header.
pub const DOL_HEADER_LEN: u64 = 0x100;

/// How many code segments the header has room for.
pub const TEXT_SEGMENT_COUNT: u64 = 7;

/// How many data segments the header has room for.
pub const DATA_SEGMENT_COUNT: u64 = 11;

/// Whether a segment holds code or data.
#[derive(Debug, Clone, Copy, PartialEq, Eq, Structural)]
pub enum SegmentType {
    Text,
    Data,
}

/// One segment of the executable: where it stands in the executable's file,
/// where it is loaded, and how long it is. A segment of size zero is unused.
#[derive(Debug, Clone, Copy, PartialEq, Eq, Structural)]
pub struct Segment {
    pub kind: SegmentType,
    pub index: u64,
    pub start: u64,
    pub address: u64,
    pub size: u64,
}

/// Where in the header the table of a kind of segment starts: the offsets,
/// the load addresses and the sizes.
pub open spec fn table_base(kind: SegmentType) -> (int, int, int) {
    match kind {
        SegmentType::Text => (0x00, 0x48, 0x90),
        SegmentType::Data => (0x1c, 0x64, 0xac),
    }
}

/// Segment `i` of a kind, as `raw`, the header's bytes, spells it.
pub open spec fn segment_of(raw: Seq<u8>, kind: SegmentType, i: int) -> Segment {
    let base = table_base(kind);
    Segment {
        kind,
        index: i as u64,
        start: u32_at(raw, base.0 + 4 * i) as u64,
        address: u32_at(raw, base.1 + 4 * i) as u64,
        size: u32_at(raw, base.2 + 4 * i) as u64,
    }
}

/// The first `count` segments of a kind, as `raw` spells them.
pub open spec fn segments_of(raw: Seq<u8>, kind: SegmentType, count: nat) -> Seq<Segment> {
    Seq::new(count, |i: int| segment_of(raw, kind, i))
}

/// The greatest of `floor` and the ends of the first `n` segments.
pub open spec fn extent(segments: Seq<Segment>, n: int, floor: int) -> int
    decreases n,
{
    if n <= 0 {
        floor
    } else {
        let rest = extent(segments, n - 1, floor);
        let end = segments[n - 1].start + segments[n - 1].size;
        if end > rest {
            end
        } else {
            rest
        }
    }
}

/// The name of a segment: `.text` or `.data`, and its index in decimal.
pub open spec fn segment_name(kind: SegmentType, index: u64) -> Seq<u8> {
    let word = match kind {
        SegmentType::Text => seq![0x2eu8, 0x74u8, 0x65u8, 0x78u8, 0x74u8],
        SegmentType::Data => seq![0x2eu8, 0x64u8, 0x61u8, 0x74u8, 0x61u8],
    };
    if index < 10 {
        word.push((0x30 + index) as u8)
    } else {
        word.push((0x30 + (index / 10) % 10) as u8).push((0x30 + index % 10) as u8)
    }
}

impl Segment {
    /// The segment as a region of the image, for an executable that stands
    /// at `dol_offset`.
    pub open spec fn region(&self, dol_offset: u64) -> SectionView {
        SectionView {
            start: (dol_offset + self.start) as u64,
            length: self.size,
            name: segment_name(self.kind, self.index),
            kind: SectionType::DOLSegment,
        }
    }

    /// The segment's name, as its region carries it.
    pub fn name(&self) -> (r: Vec<u8>)
        ensures
            r@ == segment_name(self.kind, self.index),
    {
        let mut out: Vec<u8> = Vec::new();
        out.push(0x2e);
        match self.kind {
            SegmentType::Text => {
                out.push(0x74);
                out.push(0x65);
                out.push(0x78);
                out.push(0x74);
            },
            SegmentType::Data => {
                out.push(0x64);
                out.push(0x61);
                out.push(0x74);
                out.push(0x61);
            },
        }
        if self.index < 10 {
            out.push((0x30 + self.index) as u8);
        } else {
            out.push((0x30 + (self.index / 10) % 10) as u8);
            out.push((0x30 + self.index % 10) as u8);
        }
        assert(out@ =~= segment_name(self.kind, self.index));
        out
    }

    /// The segment as a region of the image, for an executable that stands
    /// at `dol_offset`.
    pub fn section(&self, dol_offset: u64) -> (r: LayoutSection)
        requires
            dol_offset + self.start <= u64::MAX,
        ensures
            r@ == self.region(dol_offset),
    {
        LayoutSection {
            start: dol_offset + self.start,
            length: self.size,
            name: self.name(),
            kind: SectionType::DOLSegment,
        }
    }
}

/// The header of the executable, with its segments.
#[derive(Debug, Clone, PartialEq, Eq)]
pub struct DOLHeader {
    pub offset: u64,
    pub text_segments: Vec<Segment>,
    pub data_segments: Vec<Segment>,
    pub bss_address: u64,
    pub bss_size: u64,
    pub entry_point: u64,
    pub dol_size: u64,
}

/// Reads the `count` segments of a kind from `raw`, the header's bytes.
fn read_segments(raw: &[u8], kind: SegmentType, count: u64) -> (r: Vec<Segment>)
    requires
        raw@.len() == 0x100,
        count == 7 && kind == SegmentType::Text || count == 11 && kind == SegmentType::Data,
    ensures
        r@.len() == count,
        forall|i: int| 0 <= i < count ==> r@[i] == segment_of(raw@, kind, i),
{
    let (starts, addresses, sizes): (u64, u64, u64) = match kind {
        SegmentType::Text => (0x00, 0x48, 0x90),
        SegmentType::Data => (0x1c, 0x64, 0xac),
    };
    let mut out: Vec<Segment> = Vec::new();
    let mut i: u64 = 0;
    while i < count
        invariant
            raw@.len() == 0x100,
            count == 7 && kind == SegmentType::Text || count == 11 && kind == SegmentType::Data,
            (starts as int, addresses as int, sizes as int) == table_base(kind),
            0 <= i <= count,
            out@.len() == i,
            forall|j: int| 0 <= j < i ==> out@[j] == segment_of(raw@, kind, j),
        decreases count - i,
    {
        let start = read_u32_at(raw, starts + 4 * i).unwrap() as u64;
        let address = read_u32_at(raw, addresses + 4 * i).unwrap() as u64;
        let size = read_u32_at(raw, sizes + 4 * i).unwrap() as u64;
        out.push(Segment { kind, index: i, start, address, size });
        i = i + 1;
    }
    out
}

/// The greatest of `floor` and the ends of `segments`.
fn reach(segments: &Vec<Segment>, floor: u64) -> (r: u64)
    requires
        floor <= 0x2_0000_0000,
        forall|i: int|
            0 <= i < segments@.len() ==> segments@[i].start <= u32::MAX && segments@[i].size
                <= u32::MAX,
    ensures
        r == extent(segments@, segments@.len() as int, floor as int),
        floor <= r <= 0x2_0000_0000,
{
    let mut best: u64 = floor;
    let mut i: usize = 0;
    while i < segments.len()
        invariant
            0 <= i <= segments@.len(),
            best == extent(segments@, i as int, floor as int),
            floor <= best <= 0x2_0000_0000,
            forall|i: int|
                0 <= i < segments@.len() ==> segments@[i].start <= u32::MAX && segments@[i].size
                    <= u32::MAX,
        decreases segments@.len() - i,
    {
        let end: u64 = segments[i].start + segments[i].size;
        if end > best {
            best = end;
        }
        i = i + 1;
    }
    best
}

impl DOLHeader {
    /// Whether the fields are what `raw`, the header's bytes, spell.
    pub open spec fn spelled_by(&self, raw: Seq<u8>) -> bool {
        &&& self.text_segments@ == segments_of(raw, SegmentType::Text, 7)
        &&& self.data_segments@ == segments_of(raw, SegmentType::Data, 11)
        &&& self.bss_address == u32_at(raw, 0xd8)
        &&& self.bss_size == u32_at(raw, 0xdc)
        &&& self.entry_point == u32_at(raw, 0xe0)
        &&& self.dol_size == extent(
            self.data_segments@,
            11,
            extent(self.text_segments@, 7, 0x100),
        )
    }

    /// The size of the executable that the header in `raw` describes: the
    /// farthest end of a segment, and the header's own size at least.
    pub open spec fn declared_size(raw: Seq<u8>) -> int {
        extent(
            segments_of(raw, SegmentType::Data, 11),
            11,
            extent(segments_of(raw, SegmentType::Text, 7), 7, 0x100),
        )
    }

    /// Decodes the executable's header that `image` holds at `offset`. Fails
    /// when the image ends before the header or before the last segment does.
    pub fn new(image: &[u8], offset: u64) -> (r: Result<DOLHeader, Error>)
        ensures
            r.is_ok() <==> Self::decodable(image@, offset),
            r.is_ok() ==> r.unwrap().decodes(image@, offset) && r.unwrap().wf(),
            r matches Err(e) ==> e == Error::Truncated,
    {
        let raw = match read_bytes_at(image, offset, DOL_HEADER_LEN) {
            Some(raw) => raw,
            None => {
                return Err(Error::Truncated);
            },
        };
        let bytes = raw.as_slice();
        let text_segments = read_segments(bytes, SegmentType::Text, TEXT_SEGMENT_COUNT);
        let data_segments = read_segments(bytes, SegmentType::Data, DATA_SEGMENT_COUNT);
        let bss_address = read_u32_at(bytes, 0xd8).unwrap() as u64;
        let bss_size = read_u32_at(bytes, 0xdc).unwrap() as u64;
        let entry_point = read_u32_at(bytes, 0xe0).unwrap() as u64;
        let text_reach = reach(&text_segments, DOL_HEADER_LEN);
        let dol_size = reach(&data_segments, text_reach);
        proof {
            assert(text_segments@ =~= segments_of(raw@, SegmentType::Text, 7));
            assert(data_segments@ =~= segments_of(raw@, SegmentType::Data, 11));
        }
        if dol_size > image.len() as u64 - offset {
            return Err(Error::Truncated);
        }
        Ok(
            DOLHeader {
                offset,
                text_segments,
                data_segments,
                bss_address,
                bss_size,
                entry_point,
                dol_size,
            },
        )
    }

    /// The segment of a kind with the index `index`, if the header has room
    /// for one there and it is in use.
    pub open spec fn segment_at(&self, kind: SegmentType, index: u64) -> Option<Segment> {
        match kind {
            SegmentType::Text => if index < 7 && self.text_segments@[index as int].size != 0 {
                Some(self.text_segments@[index as int])
            } else {
                None
            },
            SegmentType::Data => if index < 11 && self.data_segments@[index as int].size != 0 {
                Some(self.data_segments@[index as int])
            } else {
                None
            },
        }
    }

    /// The segment of a kind with the index `index`, if the header has room
    /// for one there and it is in use.
    pub fn find_segment(&self, kind: SegmentType, index: u64) -> (r: Option<Segment>)
        requires
            self.wf(),
        ensures
            r == self.segment_at(kind, index),
    {
        let table = match kind {
            SegmentType::Text => &self.text_segments,
            SegmentType::Data => &self.data_segments,
        };
        if index < table.len() as u64 && table[index as usize].size != 0 {
            Some(table[index as usize])
        } else {
            None
        }
    }
}

impl UniqueLayoutSection for DOLHeader {
    open spec fn decodable(image: Seq<u8>, offset: u64) -> bool {
        in_bounds(image, offset as int, 0x100) && in_bounds(
            image,
            offset as int,
            DOLHeader::declared_size(image.subrange(offset as int, offset + 0x100)),
        )
    }

    open spec fn decodes(&self, image: Seq<u8>, offset: u64) -> bool {
        self.offset == offset && self.spelled_by(image.subrange(offset as int, offset + 0x100))
    }

    open spec fn wf(&self) -> bool {
        &&& self.text_segments@.len() == 7
        &&& self.data_segments@.len() == 11
        &&& forall|i: int|
            0 <= i < 7 ==> (#[trigger] self.text_segments@[i]).start <= u32::MAX
                && self.text_segments@[i].size <= u32::MAX
        &&& forall|i: int|
            0 <= i < 11 ==> (#[trigger] self.data_segments@[i]).start <= u32::MAX
                && self.data_segments@[i].size <= u32::MAX
    }

    open spec fn span(&self) -> (u64, u64) {
        (self.offset, 0x100u64)
    }

    open spec fn unique_kind(&self) -> UniqueSectionType {
        UniqueSectionType::DOLHeader
    }

    open spec fn file_name(&self) -> Seq<u8> {
        dol_name()
    }

    fn section_type(&self) -> (r: UniqueSectionType) {
        UniqueSectionType::DOLHeader
    }

    fn with_offset(image: &[u8], offset: u64) -> (r: Result<DOLHeader, Error>) {
        DOLHeader::new(image, offset)
    }

    fn section(&self) -> (r: LayoutSection) {
        LayoutSection {
            start: self.offset,
            length: DOL_HEADER_LEN,
            name: name_bytes("&&systemdata/Start.dol"),
            kind: SectionType::DOLHeader,
        }
    }
}

/// Two executable headers decoded from the same bytes agree in every field.
pub proof fn lemma_dol_decoding_is_a_function(a: DOLHeader, b: DOLHeader, image: Seq<u8>, offset: u64)
    requires
        a.decodes(image, offset),
        b.decodes(image, offset),
    ensures
        a.offset == b.offset,
        a.text_segments@ == b.text_segments@,
        a.data_segments@ == b.data_segments@,
        a.bss_address == b.bss_address,
        a.bss_size == b.bss_size,
        a.entry_point == b.entry_point,
        a.dol_size == b.dol_size,
{
}

} // verus!
