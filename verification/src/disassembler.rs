use vstd::prelude::*;
use crate::error::Error;

verus! {

/// One decoded instruction of a listing: its text, its four bytes as one
/// number, and the address that the listing gives for it, if it gives one.
#[derive(Debug, Clone, PartialEq, Eq)]
pub struct Instruction {
    pub text: Vec<u8>,
    pub opcode: u32,
    pub location: Option<u64>,
}

/// Whether the six bytes of `<.data` stand at `i` in `line`.
pub open spec fn marker_at(line: Seq<u8>, i: int) -> bool {
    &&& 0 <= i
    &&& i + 6 <= line.len()
    &&& line[i] == 0x3cu8
    &&& line[i + 1] == 0x2eu8
    &&& line[i + 2] == 0x64u8
    &&& line[i + 3] == 0x61u8
    &&& line[i + 4] == 0x74u8
    &&& line[i + 5] == 0x61u8
}

/// Whether `line` holds `<.data` somewhere: the line that opens the listing
/// proper does.
pub open spec fn has_marker(line: Seq<u8>) -> bool {
    exists|i: int| marker_at(line, i)
}

/// Whether `line` holds `<.data`.
pub fn is_start_line(line: &[u8]) -> (r: bool)
    ensures
        r == has_marker(line@),
{
    let n: usize = line.len();
    if n < 6 {
        return false;
    }
    let mut i: usize = 0;
    while i <= n - 6
        invariant
            6 <= n == line@.len(),
            0 <= i <= n - 5,
            forall|j: int| 0 <= j < i ==> !marker_at(line@, j),
        decreases n - i,
    {
        if line[i] == 0x3c && line[i + 1] == 0x2e && line[i + 2] == 0x64 && line[i + 3] == 0x61
            && line[i + 4] == 0x74 && line[i + 5] == 0x61 {
            assert(marker_at(line@, i as int));
            return true;
        }
        i = i + 1;
    }
    false
}

/// The lines of a listing, and how many of them have been read.
pub struct DisasmIter {
    lines: Vec<Vec<u8>>,
    pos: usize,
}

impl DisasmIter {
    /// The lines of the listing, read or not.
    pub closed spec fn lines(&self) -> Seq<Seq<u8>> {
        Seq::new(self.lines@.len(), |i: int| self.lines@[i]@)
    }

    /// How many lines have been read.
    pub closed spec fn position(&self) -> int {
        self.pos as int
    }

    /// What every listing keeps: not more lines are read than there are.
    pub closed spec fn wf(&self) -> bool {
        self.pos <= self.lines@.len()
    }

    /// A listing of `lines`, of which none has been read.
    pub fn new(lines: Vec<Vec<u8>>) -> (r: DisasmIter)
        ensures
            r.wf(),
            r.position() == 0,
            r.lines().len() == lines@.len(),
            forall|i: int| 0 <= i < lines@.len() ==> r.lines()[i] == lines@[i]@,
    {
        DisasmIter { lines, pos: 0 }
    }

    /// Reads lines up to and with the first that holds `<.data`. Where no
    /// line left holds it, every line is read and the listing is refused.
    pub fn advance_to_start(&mut self) -> (r: Result<(), Error>)
        requires
            old(self).wf(),
        ensures
            final(self).wf(),
            final(self).lines() == old(self).lines(),
            r.is_ok() <==> exists|k: int|
                old(self).position() <= k < old(self).lines().len() && has_marker(
                    #[trigger] old(self).lines()[k],
                ),
            r.is_ok() ==> old(self).position() < final(self).position() && has_marker(
                old(self).lines()[final(self).position() - 1],
            ),
            forall|j: int|
                old(self).position() <= j < final(self).position() - 1 ==> !has_marker(
                    #[trigger] old(self).lines()[j],
                ),
            r.is_err() ==> r == Err::<(), Error>(Error::Malformed) && final(self).position()
                == old(self).lines().len(),
    {
        let n: usize = self.lines.len();
        while self.pos < n
            invariant
                n == self.lines@.len(),
                old(self).pos <= self.pos <= n,
                self.lines == old(self).lines,
                forall|j: int|
                    old(self).pos <= j < self.pos ==> !has_marker(#[trigger] self.lines()[j]),
            decreases n - self.pos,
        {
            let found = is_start_line(self.lines[self.pos].as_slice());
            assert(self.lines()[self.pos as int] == self.lines@[self.pos as int]@);
            assert(self.lines() == old(self).lines());
            self.pos = self.pos + 1;
            if found {
                return Ok(());
            }
        }
        Err(Error::Malformed)
    }

    /// Reads one line: the next that has not been read, if one is left.
    pub fn next_line(&mut self) -> (r: Option<Vec<u8>>)
        requires
            old(self).wf(),
        ensures
            final(self).wf(),
            final(self).lines() == old(self).lines(),
            r.is_some() <==> old(self).position() < old(self).lines().len(),
            r.is_some() ==> final(self).position() == old(self).position() + 1 && r.unwrap()@
                == old(self).lines()[old(self).position()],
            r.is_none() ==> final(self).position() == old(self).position(),
    {
        if self.pos < self.lines.len() {
            let line = self.lines[self.pos].clone();
            self.pos = self.pos + 1;
            Some(line)
        } else {
            None
        }
    }
}

} // verus!
