use vstd::prelude::*;
use vstd::slice::slice_subrange;
use byteorder::ByteOrder;

verus! {

/// The number that four bytes spell, most significant byte first.
pub open spec fn be_u32(b: Seq<u8>) -> int
    recommends
        b.len() >= 4,
{
    b[0] as int * 0x100_0000 + b[1] as int * 0x1_0000 + b[2] as int * 0x100 + b[3] as int
}

/// The big-endian 32-bit number that stands at `pos` in `image`.
pub open spec fn u32_at(image: Seq<u8>, pos: int) -> int
    recommends
        0 <= pos,
        pos + 4 <= image.len(),
{
    be_u32(image.subrange(pos, pos + 4))
}

/// Whether `image` holds `n` bytes from `pos` on.
pub open spec fn in_bounds(image: Seq<u8>, pos: int, n: int) -> bool {
    0 <= pos && pos + n <= image.len()
}

/// Calls `byteorder::BigEndian::read_u32`, which takes the first four bytes
/// of `buf` and returns them as one number, most significant byte first. It
/// panics on a shorter slice, which `requires` leaves out. Not proved here.
#[verifier::external_body]
pub(crate) fn read_u32_be(buf: &[u8]) -> (r: u32)
    requires
        buf@.len() >= 4,
    ensures
        r as int == be_u32(buf@),
{
    byteorder::BigEndian::read_u32(buf)
}

/// Calls `byteorder::BigEndian::write_u32` on a buffer of four bytes, which
/// it fills with the bytes of `n`, most significant first, and returns the
/// buffer. Not proved here.
#[verifier::external_body]
pub(crate) fn write_u32_be(n: u32) -> (r: Vec<u8>)
    ensures
        r@.len() == 4,
        be_u32(r@) == n as int,
{
    let mut buf = vec![0u8; 4];
    byteorder::BigEndian::write_u32(&mut buf, n);
    buf
}

/// Reads the big-endian 32-bit number at `pos`, if the image reaches that far.
pub fn read_u32_at(image: &[u8], pos: u64) -> (r: Option<u32>)
    ensures
        r.is_some() <==> in_bounds(image@, pos as int, 4),
        r.is_some() ==> r.unwrap() as int == u32_at(image@, pos as int),
{
    let n: usize = image.len();
    if n < 4 || pos > (n - 4) as u64 {
        return None;
    }
    let p: usize = pos as usize;
    Some(read_u32_be(slice_subrange(image, p, p + 4)))
}

/// Reads the byte at `pos`, if the image reaches that far.
pub fn read_u8_at(image: &[u8], pos: u64) -> (r: Option<u8>)
    ensures
        r.is_some() <==> in_bounds(image@, pos as int, 1),
        r.is_some() ==> r.unwrap() == image@[pos as int],
{
    if pos >= image.len() as u64 {
        return None;
    }
    Some(image[pos as usize])
}

/// Copies `n` bytes of `image` from `pos` on, if the image reaches that far.
pub fn read_bytes_at(image: &[u8], pos: u64, n: u64) -> (r: Option<Vec<u8>>)
    ensures
        r.is_some() <==> in_bounds(image@, pos as int, n as int),
        r.is_some() ==> r.unwrap()@ == image@.subrange(pos as int, pos + n),
{
    let len: u64 = image.len() as u64;
    if pos > len || n > len - pos {
        return None;
    }
    let mut out: Vec<u8> = Vec::new();
    out.extend_from_slice(slice_subrange(image, pos as usize, (pos + n) as usize));
    assert(out@ =~= image@.subrange(pos as int, pos + n));
    Some(out)
}

} // verus!
