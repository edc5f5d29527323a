use vstd::prelude::*;
use crate::bytes::{in_bounds, read_bytes_at, read_u32_at, u32_at};
use crate::error::Error;
use crate::layout_section::{LayoutSection, SectionType, UniqueLayoutSection, UniqueSectionType};
use crate::names::{apploader_name, name_bytes};

verus! {

/// Where the apploader stands in a disc image.
pub const APPLOADER_OFFSET: u64 = 0x2440;

/// The size of the apploader's own header.
pub const APPLOADER_HEADER_SIZE: u64 = 0x20;

/// The apploader: a header, and behind it the code and the trailer whose
/// sizes the header gives.
#[derive(Debug, Clone, PartialEq, Eq)]
pub struct Apploader {
    pub offset: u64,
    pub date: Vec<u8>,
    pub entry_point: u64,
    pub code_size: u64,
    pub trailer_size: u64,
}

impl Apploader {
    /// The size of header, code and trailer together.
    pub open spec fn total(&self) -> int {
        0x20 + self.code_size + self.trailer_size
    }

    /// The size that the header at `offset` declares for the whole apploader.
    pub open spec fn declared_total(image: Seq<u8>, offset: int) -> int {
        0x20 + u32_at(image, offset + 0x14) + u32_at(image, offset + 0x18)
    }

    /// Decodes the apploader that `image` holds at `offset`. Fails when the
    /// image ends before the header, the code or the trailer does.
    pub fn new(image: &[u8], offset: u64) -> (r: Result<Apploader, Error>)
        ensures
            r.is_ok() <==> Self::decodable(image@, offset),
            r.is_ok() ==> r.unwrap().decodes(image@, offset) && r.unwrap().wf(),
            r matches Err(e) ==> e == Error::Truncated,
    {
        let raw = match read_bytes_at(image, offset, APPLOADER_HEADER_SIZE) {
            Some(raw) => raw,
            None => {
                return Err(Error::Truncated);
            },
        };
        let bytes = raw.as_slice();
        let date = read_bytes_at(bytes, 0, 0x10).unwrap();
        let entry_point = read_u32_at(bytes, 0x10).unwrap() as u64;
        let code_size = read_u32_at(bytes, 0x14).unwrap() as u64;
        let trailer_size = read_u32_at(bytes, 0x18).unwrap() as u64;
        proof {
            let at = offset as int;
            assert(image@.subrange(at, at + 0x20).subrange(0x10, 0x14) =~= image@.subrange(
                at + 0x10,
                at + 0x14,
            ));
            assert(image@.subrange(at, at + 0x20).subrange(0x14, 0x18) =~= image@.subrange(
                at + 0x14,
                at + 0x18,
            ));
            assert(image@.subrange(at, at + 0x20).subrange(0x18, 0x1c) =~= image@.subrange(
                at + 0x18,
                at + 0x1c,
            ));
            assert(image@.subrange(at, at + 0x20).subrange(0, 0x10) =~= image@.subrange(
                at,
                at + 0x10,
            ));
        }
        let total: u64 = APPLOADER_HEADER_SIZE + code_size + trailer_size;
        let len: u64 = image.len() as u64;
        if total > len - offset {
            return Err(Error::Truncated);
        }
        Ok(Apploader { offset, date, entry_point, code_size, trailer_size })
    }

    /// The size of header, code and trailer together.
    pub fn total_size(&self) -> (r: u64)
        requires
            self.total() <= u64::MAX,
        ensures
            r == self.total(),
    {
        APPLOADER_HEADER_SIZE + self.code_size + self.trailer_size
    }
}

impl UniqueLayoutSection for Apploader {
    open spec fn decodable(image: Seq<u8>, offset: u64) -> bool {
        in_bounds(image, offset as int, 0x20) && in_bounds(
            image,
            offset as int,
            Apploader::declared_total(image, offset as int),
        )
    }

    open spec fn decodes(&self, image: Seq<u8>, offset: u64) -> bool {
        &&& self.offset == offset
        &&& self.date@ == image.subrange(offset as int, offset + 0x10)
        &&& self.entry_point == u32_at(image, offset + 0x10)
        &&& self.code_size == u32_at(image, offset + 0x14)
        &&& self.trailer_size == u32_at(image, offset + 0x18)
    }

    open spec fn wf(&self) -> bool {
        self.code_size <= u32::MAX && self.trailer_size <= u32::MAX
    }

    open spec fn span(&self) -> (u64, u64) {
        (self.offset, (0x20 + self.code_size + self.trailer_size) as u64)
    }

    open spec fn unique_kind(&self) -> UniqueSectionType {
        UniqueSectionType::Apploader
    }

    open spec fn file_name(&self) -> Seq<u8> {
        apploader_name()
    }

    fn section_type(&self) -> (r: UniqueSectionType) {
        UniqueSectionType::Apploader
    }

    fn with_offset(image: &[u8], offset: u64) -> (r: Result<Apploader, Error>) {
        Apploader::new(image, offset)
    }

    fn section(&self) -> (r: LayoutSection) {
        LayoutSection {
            start: self.offset,
            length: APPLOADER_HEADER_SIZE + self.code_size + self.trailer_size,
            name: name_bytes("&&systemdata/Apploader.ldr"),
            kind: SectionType::Apploader,
        }
    }
}

/// Two apploaders decoded from the same bytes agree in every field.
pub proof fn lemma_apploader_decoding_is_a_function(
    a: Apploader,
    b: Apploader,
    image: Seq<u8>,
    offset: u64,
)
    requires
        a.decodes(image, offset),
        b.decodes(image, offset),
    ensures
        a.offset == b.offset,
        a.date@ == b.date@,
        a.entry_point == b.entry_point,
        a.code_size == b.code_size,
        a.trailer_size == b.trailer_size,
{
}

} // verus!
