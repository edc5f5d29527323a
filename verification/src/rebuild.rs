use vstd::prelude::*;
use vstd::slice::slice_subrange;
use crate::error::Error;

verus! {

/// The size of every rebuilt disc image.
pub const ROM_SIZE: usize = 0x5705_8000;

/// The most padding that is written at once.
pub const WRITE_CHUNK_SIZE: usize = 0x10_0000;

/// The bytes of one region of an image, with the offset at which they stand.
#[derive(Debug, Clone, PartialEq, Eq)]
pub struct Piece {
    pub offset: u64,
    pub data: Vec<u8>,
}

impl Piece {
    /// The first offset behind the piece.
    pub open spec fn limit(&self) -> int {
        self.offset + self.data@.len()
    }
}

/// `n` zero bytes.
pub open spec fn zeros(n: int) -> Seq<u8> {
    Seq::new(n as nat, |i: int| 0u8)
}

/// The offset behind the first `n` pieces: where the last of them ends.
pub open spec fn cursor(pieces: Seq<Piece>, n: int) -> int {
    if n <= 0 {
        0
    } else {
        pieces[n - 1].offset + pieces[n - 1].data@.len()
    }
}

/// Whether each of the first `n` pieces starts at or behind the end of the
/// one before it and ends within `total` bytes.
pub open spec fn fits(pieces: Seq<Piece>, n: int, total: int) -> bool
    decreases n,
{
    n <= 0 || (fits(pieces, n - 1, total) && cursor(pieces, n - 1) <= pieces[n - 1].offset
        && cursor(pieces, n) <= total)
}

/// The image up to the end of the first `n` pieces: each piece at its
/// offset, and zero bytes in every gap before it.
pub open spec fn image_of(pieces: Seq<Piece>, n: int) -> Seq<u8>
    decreases n,
{
    if n <= 0 {
        Seq::empty()
    } else {
        image_of(pieces, n - 1) + zeros(pieces[n - 1].offset - cursor(pieces, n - 1)) + pieces[n
            - 1].data@
    }
}

/// The whole image of `total` bytes: the pieces, and zero bytes behind the
/// last of them.
pub open spec fn rebuilt(pieces: Seq<Piece>, total: int) -> Seq<u8> {
    image_of(pieces, pieces.len() as int) + zeros(total - cursor(pieces, pieces.len() as int))
}

/// Whether every piece ends where or before each later piece starts.
pub open spec fn ordered(pieces: Seq<Piece>) -> bool {
    forall|i: int, j: int|
        0 <= i < j < pieces.len() ==> (#[trigger] pieces[i]).limit() <= (
        #[trigger] pieces[j]).offset
}

/// Whether `image` holds each piece's bytes at the piece's offset.
pub open spec fn taken_from(pieces: Seq<Piece>, image: Seq<u8>) -> bool {
    forall|k: int|
        0 <= k < pieces.len() ==> (#[trigger] pieces[k]).offset + pieces[k].data@.len()
            <= image.len() && pieces[k].data@ == image.subrange(
            pieces[k].offset as int,
            pieces[k].offset + pieces[k].data@.len(),
        )
}

/// Whether some piece holds the byte at `at`.
pub open spec fn placed(pieces: Seq<Piece>, at: int) -> bool {
    exists|k: int|
        0 <= k < pieces.len() && (#[trigger] pieces[k]).offset <= at < pieces[k].offset
            + pieces[k].data@.len()
}

/// Appends `count` zero bytes to `output`, `WRITE_CHUNK_SIZE` at a time.
pub fn write_zeros(count: usize, output: &mut Vec<u8>)
    ensures
        final(output)@ == old(output)@ + zeros(count as int),
{
    let block_size: usize = if count < WRITE_CHUNK_SIZE {
        count
    } else {
        WRITE_CHUNK_SIZE
    };
    let mut block: Vec<u8> = Vec::new();
    while block.len() < block_size
        invariant
            block@.len() <= block_size,
            forall|i: int| 0 <= i < block@.len() ==> block@[i] == 0u8,
        decreases block_size - block@.len(),
    {
        block.push(0u8);
    }
    let mut written: usize = 0;
    while written < count
        invariant
            written <= count,
            block@.len() == block_size,
            block_size == if count < WRITE_CHUNK_SIZE { count } else { WRITE_CHUNK_SIZE },
            forall|i: int| 0 <= i < block@.len() ==> block@[i] == 0u8,
            output@ == old(output)@ + zeros(written as int),
        decreases count - written,
    {
        let left: usize = count - written;
        let m: usize = if left < block_size {
            left
        } else {
            block_size
        };
        let ghost prev = output@;
        output.extend_from_slice(slice_subrange(block.as_slice(), 0, m));
        assert(output@ =~= prev + zeros(m as int));
        assert(output@ =~= old(output)@ + zeros(written + m));
        written = written + m;
    }
    assert(output@ =~= old(output)@ + zeros(count as int));
}

/// How many zero bytes come before a piece of `length` bytes at `offset`,
/// when `at` bytes of an image of `total` bytes are written: as many as lie
/// between `at` and `offset`. A piece that starts before `at`, or that ends
/// behind `total`, is refused.
pub fn next_gap(at: usize, offset: u64, length: usize, total: usize) -> (r: Result<usize, Error>)
    ensures
        r.is_ok() <==> at <= offset && offset + length <= total,
        r.is_ok() ==> r.unwrap() == offset - at,
        r.is_err() ==> r == Err::<usize, Error>(Error::Overlap),
{
    if offset < at as u64 || offset > total as u64 || length > total - (offset as usize) {
        return Err(Error::Overlap);
    }
    Ok(offset as usize - at)
}

/// Appends to `output` the image of `total` bytes that `pieces` make up:
/// before each piece the zero bytes that fill the gap since the end of the
/// one before, then the piece's bytes, and behind the last piece zero bytes
/// up to `total`. A piece that starts before the end of the one before it,
/// or that ends behind `total`, ends the rebuild with what was written so far.
pub fn rebuild_image(pieces: &Vec<Piece>, total: usize, output: &mut Vec<u8>) -> (r: Result<
    (),
    Error,
>)
    ensures
        r.is_ok() <==> fits(pieces@, pieces@.len() as int, total as int),
        r.is_ok() ==> final(output)@ == old(output)@ + rebuilt(pieces@, total as int),
        r.is_err() ==> r == Err::<(), Error>(Error::Overlap) && old(output)@.is_prefix_of(
            final(output)@,
        ),
{
    let n: usize = pieces.len();
    let mut i: usize = 0;
    let mut at: usize = 0;
    while i < n
        invariant
            n == pieces@.len(),
            0 <= i <= n,
            at == cursor(pieces@, i as int),
            at <= total,
            fits(pieces@, i as int, total as int),
            output@ == old(output)@ + image_of(pieces@, i as int),
        decreases n - i,
    {
        let p = &pieces[i];
        let gap: usize = match next_gap(at, p.offset, p.data.len(), total) {
            Ok(gap) => gap,
            Err(e) => {
                proof {
                    if fits(pieces@, n as int, total as int) {
                        lemma_fits_prefix(pieces@, i + 1, n as int, total as int);
                    }
                }
                return Err(e);
            },
        };
        let ghost prev = output@;
        write_zeros(gap, output);
        output.extend_from_slice(p.data.as_slice());
        assert(output@ =~= prev + zeros(gap as int) + p.data@);
        assert(output@ =~= old(output)@ + image_of(pieces@, i + 1));
        at = p.offset as usize + p.data.len();
        i = i + 1;
    }
    write_zeros(total - at, output);
    assert(output@ =~= old(output)@ + rebuilt(pieces@, total as int));
    Ok(())
}

/// Pieces that fit up to `m` fit up to any `n` before it.
pub proof fn lemma_fits_prefix(pieces: Seq<Piece>, n: int, m: int, total: int)
    requires
        n <= m,
        fits(pieces, m, total),
    ensures
        fits(pieces, n, total),
    decreases m - n,
{
    if n < m {
        lemma_fits_prefix(pieces, n, m - 1, total);
    }
}

/// The image of the first `n` pieces ends where the last of them ends.
pub proof fn lemma_image_len(pieces: Seq<Piece>, n: int, total: int)
    requires
        0 <= n <= pieces.len(),
        fits(pieces, n, total),
    ensures
        image_of(pieces, n).len() == cursor(pieces, n),
    decreases n,
{
    if n > 0 {
        lemma_image_len(pieces, n - 1, total);
    }
}

/// The image of the first `m` pieces begins with the image of the first `n`.
pub proof fn lemma_image_grows(pieces: Seq<Piece>, n: int, m: int)
    requires
        0 <= n <= m,
    ensures
        image_of(pieces, n).is_prefix_of(image_of(pieces, m)),
    decreases m - n,
{
    if n < m {
        lemma_image_grows(pieces, n, m - 1);
        let a = image_of(pieces, m - 1);
        let b = image_of(pieces, m);
        assert(a.is_prefix_of(b)) by {
            assert(b.subrange(0, a.len() as int) =~= a);
        }
        let c = image_of(pieces, n);
        assert(a.subrange(0, c.len() as int) =~= c);
        assert(b.subrange(0, c.len() as int) =~= c);
    } else {
        assert(image_of(pieces, n).subrange(0, image_of(pieces, n).len() as int) =~= image_of(
            pieces,
            n,
        ));
    }
}

/// What rebuilding writes around piece `k`: the rebuilt image has `total`
/// bytes; from the end of the piece before `k` (from the start of the image
/// for the first piece) to the offset of piece `k` it holds that many zero
/// bytes and nothing else; at its offset it holds the piece.
pub proof fn lemma_rebuilt_gap(pieces: Seq<Piece>, total: int, k: int)
    requires
        fits(pieces, pieces.len() as int, total),
        0 <= k < pieces.len(),
    ensures
        rebuilt(pieces, total).len() == total,
        0 <= cursor(pieces, k) <= pieces[k].offset,
        cursor(pieces, k + 1) <= total,
        rebuilt(pieces, total).subrange(cursor(pieces, k), pieces[k].offset as int) == zeros(
            pieces[k].offset - cursor(pieces, k),
        ),
        rebuilt(pieces, total).subrange(pieces[k].offset as int, cursor(pieces, k + 1))
            == pieces[k].data@,
{
    let n = pieces.len() as int;
    lemma_fits_prefix(pieces, k + 1, n, total);
    lemma_fits_prefix(pieces, k, k + 1, total);
    lemma_image_len(pieces, n, total);
    lemma_image_len(pieces, k + 1, total);
    lemma_image_len(pieces, k, total);
    lemma_image_grows(pieces, k + 1, n);
    let whole = rebuilt(pieces, total);
    let part = image_of(pieces, k + 1);
    assert(whole.subrange(0, part.len() as int) =~= part) by {
        assert(image_of(pieces, n).subrange(0, part.len() as int) =~= part);
    }
    assert(whole.subrange(cursor(pieces, k), pieces[k].offset as int) =~= zeros(
        pieces[k].offset - cursor(pieces, k),
    )) by {
        assert forall|i: int| cursor(pieces, k) <= i < pieces[k].offset implies whole[i] == 0u8 by {
            assert(whole[i] == whole.subrange(0, part.len() as int)[i]);
        }
    }
    assert(whole.subrange(pieces[k].offset as int, cursor(pieces, k + 1)) =~= pieces[k].data@) by {
        assert forall|i: int| pieces[k].offset <= i < cursor(pieces, k + 1) implies whole[i]
            == pieces[k].data@[i - pieces[k].offset] by {
            assert(whole[i] == whole.subrange(0, part.len() as int)[i]);
        }
    }
}

/// What rebuilding writes behind the last piece: zero bytes from its end to
/// the end of the image, as many as `total` leaves, and nothing else.
pub proof fn lemma_rebuilt_tail(pieces: Seq<Piece>, total: int)
    requires
        0 <= total,
        fits(pieces, pieces.len() as int, total),
    ensures
        rebuilt(pieces, total).len() == total,
        cursor(pieces, pieces.len() as int) <= total,
        rebuilt(pieces, total).subrange(cursor(pieces, pieces.len() as int), total) == zeros(
            total - cursor(pieces, pieces.len() as int),
        ),
{
    let n = pieces.len() as int;
    lemma_image_len(pieces, n, total);
    assert(rebuilt(pieces, total).subrange(cursor(pieces, n), total) =~= zeros(
        total - cursor(pieces, n),
    ));
}

/// Pieces in order, each within the image, fit.
pub proof fn lemma_ordered_fits(pieces: Seq<Piece>, n: int, total: int)
    requires
        0 <= n <= pieces.len(),
        ordered(pieces),
        forall|k: int| 0 <= k < pieces.len() ==> (#[trigger] pieces[k]).offset + pieces[k].data@.len() <= total,
    ensures
        fits(pieces, n, total),
    decreases n,
{
    if n > 0 {
        lemma_ordered_fits(pieces, n - 1, total);
        if n > 1 {
            assert(pieces[n - 2].limit() <= pieces[n - 1].offset);
        }
    }
}

/// Rebuilding what was taken out of an image gives the image back, byte for
/// byte: where the pieces stand in order without overlap, each holds the
/// bytes that the image has at its offset, and the image is zero wherever no
/// piece is placed, the rebuilt image of the same size is that image.
pub proof fn lemma_rebuild_restores(pieces: Seq<Piece>, image: Seq<u8>)
    requires
        ordered(pieces),
        taken_from(pieces, image),
        forall|at: int| 0 <= at < image.len() && !placed(pieces, at) ==> image[at] == 0u8,
    ensures
        fits(pieces, pieces.len() as int, image.len() as int),
        rebuilt(pieces, image.len() as int) == image,
{
    let total = image.len() as int;
    let n = pieces.len() as int;
    lemma_ordered_fits(pieces, n, total);
    let out = rebuilt(pieces, total);
    lemma_rebuilt_tail(pieces, total);
    assert forall|at: int| 0 <= at < total implies out[at] == image[at] by {
        if placed(pieces, at) {
            let k = choose|k: int|
                0 <= k < pieces.len() && (#[trigger] pieces[k]).offset <= at < pieces[k].offset
                    + pieces[k].data@.len();
            lemma_rebuilt_gap(pieces, total, k);
            let lo = pieces[k].offset as int;
            assert(out[at] == out.subrange(lo, cursor(pieces, k + 1))[at - lo]);
            assert(image[at] == image.subrange(lo, lo + pieces[k].data@.len())[at - lo]);
        } else {
            lemma_unplaced_is_zero(pieces, total, at, 0);
        }
    }
    assert(out =~= image);
}

/// A byte of the rebuilt image that no piece holds is zero.
pub proof fn lemma_unplaced_is_zero(pieces: Seq<Piece>, total: int, at: int, n: int)
    requires
        fits(pieces, pieces.len() as int, total),
        0 <= at < total,
        !placed(pieces, at),
        0 <= n <= pieces.len(),
        cursor(pieces, n) <= at,
    ensures
        rebuilt(pieces, total)[at] == 0u8,
    decreases pieces.len() - n,
{
    let out = rebuilt(pieces, total);
    if n == pieces.len() {
        lemma_rebuilt_tail(pieces, total);
        assert(out[at] == out.subrange(cursor(pieces, n), total)[at - cursor(pieces, n)]);
    } else {
        lemma_rebuilt_gap(pieces, total, n);
        if at < pieces[n].offset {
            assert(out[at] == out.subrange(cursor(pieces, n), pieces[n].offset as int)[at - cursor(
                pieces,
                n,
            )]);
        } else {
            assert(pieces[n].offset <= at);
            if at < cursor(pieces, n + 1) {
                assert(placed(pieces, at));
            }
            lemma_unplaced_is_zero(pieces, total, at, n + 1);
        }
    }
}

} // verus!
