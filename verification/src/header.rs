use vstd::prelude::*;
use vstd::slice::slice_subrange;
use crate::bytes::{in_bounds, read_bytes_at, read_u32_at, u32_at, write_u32_be};
use crate::error::Error;
use crate::layout_section::{LayoutSection, SectionType, UniqueLayoutSection, UniqueSectionType};
use crate::names::{header_name, name_bytes};

verus! {

/// The size of the disc header.
pub const GAME_HEADER_SIZE: u64 = 0x2440;

/// The disc header: what identifies the game, and where the executable and
/// the file-system table stand.
#[derive(Debug, Clone, PartialEq, Eq)]
pub struct Header {
    pub offset: u64,
    pub game_code: Vec<u8>,
    pub maker_code: Vec<u8>,
    pub title: Vec<u8>,
    pub dol_offset: u64,
    pub fst_offset: u64,
    pub fst_size: u64,
    pub raw: Vec<u8>,
}

impl Header {
    /// Whether the header's fields are what `raw`, the header's bytes, spell.
    pub open spec fn spelled_by(&self, raw: Seq<u8>) -> bool {
        &&& self.raw@ == raw
        &&& self.game_code@ == raw.subrange(0, 4)
        &&& self.maker_code@ == raw.subrange(4, 6)
        &&& self.title@ == raw.subrange(0x20, 0x400)
        &&& self.dol_offset == u32_at(raw, 0x420)
        &&& self.fst_offset == u32_at(raw, 0x424)
        &&& self.fst_size == u32_at(raw, 0x428)
    }

    /// Decodes the header that `image` holds at `offset`. Fails when the
    /// image ends before the header does.
    pub fn new(image: &[u8], offset: u64) -> (r: Result<Header, Error>)
        ensures
            r.is_ok() <==> in_bounds(image@, offset as int, 0x2440),
            r.is_ok() ==> r.unwrap().decodes(image@, offset) && r.unwrap().wf(),
            r matches Err(e) ==> e == Error::Truncated,
    {
        let raw = match read_bytes_at(image, offset, GAME_HEADER_SIZE) {
            Some(raw) => raw,
            None => {
                return Err(Error::Truncated);
            },
        };
        let bytes = raw.as_slice();
        let game_code = read_bytes_at(bytes, 0, 4).unwrap();
        let maker_code = read_bytes_at(bytes, 4, 2).unwrap();
        let title = read_bytes_at(bytes, 0x20, 0x3e0).unwrap();
        let dol_offset = read_u32_at(bytes, 0x420).unwrap() as u64;
        let fst_offset = read_u32_at(bytes, 0x424).unwrap() as u64;
        let fst_size = read_u32_at(bytes, 0x428).unwrap() as u64;
        Ok(Header { offset, game_code, maker_code, title, dol_offset, fst_offset, fst_size, raw })
    }

    /// The header of a rebuilt image: this header, with the places of the
    /// executable and of the file-system table, and the table's size,
    /// replaced. Everything else is carried over, byte for byte.
    pub fn rebuild(&self, dol_offset: u32, fst_offset: u32, fst_size: u32) -> (r: Header)
        requires
            self.wf(),
        ensures
            r.wf(),
            r.offset == self.offset,
            r.dol_offset == dol_offset,
            r.fst_offset == fst_offset,
            r.fst_size == fst_size,
            r.raw@.subrange(0, 0x420) == self.raw@.subrange(0, 0x420),
            r.raw@.subrange(0x42c, 0x2440) == self.raw@.subrange(0x42c, 0x2440),
    {
        let old_raw = self.raw.as_slice();
        let mut raw: Vec<u8> = Vec::new();
        raw.extend_from_slice(slice_subrange(old_raw, 0, 0x420));
        let mut dol_bytes = write_u32_be(dol_offset);
        let mut fst_bytes = write_u32_be(fst_offset);
        let mut size_bytes = write_u32_be(fst_size);
        let ghost dol_seq = dol_bytes@;
        let ghost fst_seq = fst_bytes@;
        let ghost size_seq = size_bytes@;
        raw.append(&mut dol_bytes);
        raw.append(&mut fst_bytes);
        raw.append(&mut size_bytes);
        raw.extend_from_slice(slice_subrange(old_raw, 0x42c, 0x2440));
        let game_code = self.game_code.clone();
        let maker_code = self.maker_code.clone();
        let title = self.title.clone();
        proof {
            assert(raw@ =~= self.raw@.subrange(0, 0x420) + dol_seq + fst_seq + size_seq
                + self.raw@.subrange(0x42c, 0x2440));
            assert(raw@.subrange(0x420, 0x424) =~= dol_seq);
            assert(raw@.subrange(0x424, 0x428) =~= fst_seq);
            assert(raw@.subrange(0x428, 0x42c) =~= size_seq);
            assert(raw@.subrange(0, 4) =~= self.raw@.subrange(0, 4));
            assert(raw@.subrange(4, 6) =~= self.raw@.subrange(4, 6));
            assert(raw@.subrange(0x20, 0x400) =~= self.raw@.subrange(0x20, 0x400));
            assert(raw@.subrange(0, 0x420) =~= self.raw@.subrange(0, 0x420));
            assert(raw@.subrange(0x42c, 0x2440) =~= self.raw@.subrange(0x42c, 0x2440));
        }
        Header {
            offset: self.offset,
            game_code,
            maker_code,
            title,
            dol_offset: dol_offset as u64,
            fst_offset: fst_offset as u64,
            fst_size: fst_size as u64,
            raw,
        }
    }

    /// Appends the header's bytes to `sink`: the bytes that spell its
    /// fields, and between them what the header was decoded with.
    pub fn write(&self, sink: &mut Vec<u8>)
        ensures
            final(sink)@ == old(sink)@ + self.raw@,
    {
        let ghost before = sink@;
        sink.extend_from_slice(self.raw.as_slice());
        assert(sink@ =~= before + self.raw@);
    }
}

impl UniqueLayoutSection for Header {
    open spec fn decodable(image: Seq<u8>, offset: u64) -> bool {
        in_bounds(image, offset as int, 0x2440)
    }

    open spec fn decodes(&self, image: Seq<u8>, offset: u64) -> bool {
        self.offset == offset && self.spelled_by(image.subrange(offset as int, offset + 0x2440))
    }

    open spec fn wf(&self) -> bool {
        &&& self.raw@.len() == 0x2440
        &&& self.spelled_by(self.raw@)
    }

    open spec fn span(&self) -> (u64, u64) {
        (self.offset, 0x2440u64)
    }

    open spec fn unique_kind(&self) -> UniqueSectionType {
        UniqueSectionType::Header
    }

    open spec fn file_name(&self) -> Seq<u8> {
        header_name()
    }

    fn section_type(&self) -> (r: UniqueSectionType) {
        UniqueSectionType::Header
    }

    fn with_offset(image: &[u8], offset: u64) -> (r: Result<Header, Error>) {
        Header::new(image, offset)
    }

    fn section(&self) -> (r: LayoutSection) {
        LayoutSection {
            start: self.offset,
            length: GAME_HEADER_SIZE,
            name: name_bytes("&&systemdata/ISO.hdr"),
            kind: SectionType::Header,
        }
    }
}

/// Two headers decoded from the same bytes agree in every field.
pub proof fn lemma_header_decoding_is_a_function(a: Header, b: Header, image: Seq<u8>, offset: u64)
    requires
        a.decodes(image, offset),
        b.decodes(image, offset),
    ensures
        a.offset == b.offset,
        a.raw@ == b.raw@,
        a.game_code@ == b.game_code@,
        a.maker_code@ == b.maker_code@,
        a.title@ == b.title@,
        a.dol_offset == b.dol_offset,
        a.fst_offset == b.fst_offset,
        a.fst_size == b.fst_size,
{
}

/// Writing a header and decoding what was written gives the header back:
/// a header decoded from the bytes of a well-formed header agrees with it in
/// every field.
pub proof fn lemma_header_write_round_trip(h: Header, d: Header)
    requires
        h.wf(),
        d.decodes(h.raw@, 0),
    ensures
        d.raw@ == h.raw@,
        d.game_code@ == h.game_code@,
        d.maker_code@ == h.maker_code@,
        d.title@ == h.title@,
        d.dol_offset == h.dol_offset,
        d.fst_offset == h.fst_offset,
        d.fst_size == h.fst_size,
{
    assert(h.raw@.subrange(0, 0x2440) =~= h.raw@);
}

} // verus!
