use vstd::prelude::*;
use vstd::slice::slice_subrange;
use crate::bytes::{be_u32, read_u32_be};
use vstd::string::StringSliceAdditionalSpecFns;
use crate::disassembler::{has_marker, DisasmIter, Instruction};
use crate::lookup::same_bytes;

verus! {

/// Whether `b` separates the words of a line.
pub open spec fn is_space(b: u8) -> bool {
    b == 0x20 || (0x09 <= b && b <= 0x0d)
}

/// The first place from `k` on that holds no space; the end of the line
/// when there is none.
pub open spec fn skip_spaces(s: Seq<u8>, k: int) -> int
    decreases s.len() - k,
{
    if k < 0 || k >= s.len() {
        s.len() as int
    } else if is_space(s[k]) {
        skip_spaces(s, k + 1)
    } else {
        k
    }
}

/// The first place from `k` on that holds a space; the end of the line
/// when there is none.
pub open spec fn skip_word(s: Seq<u8>, k: int) -> int
    decreases s.len() - k,
{
    if k < 0 || k >= s.len() {
        s.len() as int
    } else if is_space(s[k]) {
        k
    } else {
        skip_word(s, k + 1)
    }
}

/// The word that starts at or behind `k`: the line from the first place
/// without a space to the next space. It is empty when no word is left.
pub open spec fn word_at(s: Seq<u8>, k: int) -> Seq<u8> {
    s.subrange(skip_spaces(s, k), skip_word(s, skip_spaces(s, k)))
}

/// Where the word that starts at or behind `k` ends.
pub open spec fn word_end(s: Seq<u8>, k: int) -> int {
    skip_word(s, skip_spaces(s, k))
}

/// The value of a hexadecimal digit.
pub open spec fn hex_digit(b: u8) -> Option<int> {
    if 0x30 <= b && b <= 0x39 {
        Some(b - 0x30)
    } else if 0x61 <= b && b <= 0x66 {
        Some(b - 0x61 + 10)
    } else if 0x41 <= b && b <= 0x46 {
        Some(b - 0x41 + 10)
    } else {
        None
    }
}

/// The number that the first `n` bytes of `s` spell in hexadecimal, if
/// they are digits all.
pub open spec fn hex_value(s: Seq<u8>, n: int) -> Option<int>
    decreases n,
{
    if n <= 0 {
        Some(0)
    } else {
        match (hex_value(s, n - 1), hex_digit(s[n - 1])) {
            (Some(v), Some(d)) => Some(16 * v + d),
            _ => None,
        }
    }
}

/// The number that a word spells in hexadecimal: digits only, with or
/// without a plus sign before them, that spell `max` at most.
pub open spec fn hex_number(s: Seq<u8>, max: u64) -> Option<u64> {
    if s.len() > 0 && s[0] == 0x2bu8 {
        hex_digits(s.subrange(1, s.len() as int), max)
    } else {
        hex_digits(s, max)
    }
}

/// The number that digits spell in hexadecimal: there is a digit at least,
/// there are digits only, and they spell `max` at most.
pub open spec fn hex_digits(s: Seq<u8>, max: u64) -> Option<u64> {
    if s.len() == 0 {
        None
    } else {
        match hex_value(s, s.len() as int) {
            Some(v) => if v <= max {
                Some(v as u64)
            } else {
                None
            },
            None => None,
        }
    }
}

/// The words of the line from `k` on, behind `text`, with one space before
/// each word that is not the first of the text.
pub open spec fn joined(s: Seq<u8>, k: int, text: Seq<u8>) -> Seq<u8>
    decreases s.len() - k,
{
    let a = skip_spaces(s, k);
    let b = skip_word(s, a);
    if a >= s.len() || b <= k || b > s.len() {
        text
    } else if text.len() == 0 {
        joined(s, b, s.subrange(a, b))
    } else {
        joined(s, b, text + seq![0x20u8] + s.subrange(a, b))
    }
}

/// The three dots with which a listing stands for bytes left out.
pub open spec fn dots() -> Seq<u8> {
    seq![0x2eu8, 0x2eu8, 0x2eu8]
}

/// What a line of a listing says, to the contracts.
pub struct LineView {
    pub text: Seq<u8>,
    pub opcode: u32,
    pub location: Option<u64>,
}

/// What a line of a listing says. A line of three dots stands for bytes
/// left out. Any other line starts with an address and a colon, then come
/// four bytes in hexadecimal, the instruction's bytes from the most
/// significant on, and the rest is the instruction's text. An address that
/// is no number is left out; a line without four bytes says nothing.
pub open spec fn parsed_line(s: Seq<u8>) -> Option<LineView> {
    let first = word_at(s, 0);
    let e0 = word_end(s, 0);
    let e1 = word_end(s, e0);
    let e2 = word_end(s, e1);
    let e3 = word_end(s, e2);
    let e4 = word_end(s, e3);
    if first.len() == 0 {
        None
    } else if first == dots() {
        Some(LineView { text: dots(), opcode: 0, location: None })
    } else if first.last() != 0x3au8 {
        None
    } else {
        match (
            hex_number(word_at(s, e0), 255),
            hex_number(word_at(s, e1), 255),
            hex_number(word_at(s, e2), 255),
            hex_number(word_at(s, e3), 255),
        ) {
            (Some(b0), Some(b1), Some(b2), Some(b3)) => Some(
                LineView {
                    text: joined(s, e4, Seq::empty()),
                    opcode: be_u32(seq![b0 as u8, b1 as u8, b2 as u8, b3 as u8]) as u32,
                    location: hex_number(first.drop_last(), u64::MAX),
                },
            ),
            _ => None,
        }
    }
}

/// The first place from `k` on that holds no space.
fn after_spaces(line: &[u8], k: usize) -> (r: usize)
    requires
        k <= line@.len(),
    ensures
        r == skip_spaces(line@, k as int),
        k <= r <= line@.len(),
{
    let mut p: usize = k;
    while p < line.len() && (line[p] == 0x20 || (0x09 <= line[p] && line[p] <= 0x0d))
        invariant
            k <= p <= line@.len(),
            skip_spaces(line@, k as int) == skip_spaces(line@, p as int),
        decreases line@.len() - p,
    {
        p = p + 1;
    }
    p
}

/// The first place from `k` on that holds a space.
fn after_word(line: &[u8], k: usize) -> (r: usize)
    requires
        k <= line@.len(),
    ensures
        r == skip_word(line@, k as int),
        k <= r <= line@.len(),
        k < line@.len() && !is_space(line@[k as int]) ==> k < r,
{
    let mut p: usize = k;
    while p < line.len() && !(line[p] == 0x20 || (0x09 <= line[p] && line[p] <= 0x0d))
        invariant
            k <= p <= line@.len(),
            skip_word(line@, k as int) == skip_word(line@, p as int),
            k < line@.len() && !is_space(line@[k as int]) ==> k < p || p == k,
        decreases line@.len() - p,
    {
        p = p + 1;
    }
    p
}

/// Once the digits spell more than `max`, so does every longer run of them.
pub proof fn lemma_hex_value_grows(s: Seq<u8>, k: int, n: int)
    requires
        0 <= k <= n,
    ensures
        hex_value(s, n) matches Some(v) ==> hex_value(s, k).is_some() && hex_value(s, k).unwrap()
            <= v && 0 <= hex_value(s, k).unwrap(),
    decreases n - k,
{
    if k < n {
        lemma_hex_value_grows(s, k, n - 1);
    } else {
        lemma_hex_value_min(s, n);
    }
}

/// Digits spell no negative number.
pub proof fn lemma_hex_value_min(s: Seq<u8>, n: int)
    ensures
        hex_value(s, n) matches Some(v) ==> 0 <= v,
    decreases n,
{
    if n > 0 {
        lemma_hex_value_min(s, n - 1);
    }
}

/// Reads a word as a hexadecimal number of `max` at most.
pub fn parse_hex(word: &[u8], max: u64) -> (r: Option<u64>)
    ensures
        r == hex_number(word@, max),
{
    if word.len() > 0 && word[0] == 0x2b {
        parse_digits(slice_subrange(word, 1, word.len()), max)
    } else {
        parse_digits(word, max)
    }
}

/// Reads digits as a hexadecimal number of `max` at most.
pub fn parse_digits(word: &[u8], max: u64) -> (r: Option<u64>)
    ensures
        r == hex_digits(word@, max),
{
    let n: usize = word.len();
    if n == 0 {
        return None;
    }
    let mut value: u64 = 0;
    let mut i: usize = 0;
    while i < n
        invariant
            n == word@.len(),
            0 <= i <= n,
            hex_value(word@, i as int) == Some(value as int),
            value <= max,
        decreases n - i,
    {
        let b: u8 = word[i];
        let digit: u64 = if 0x30 <= b && b <= 0x39 {
            (b - 0x30) as u64
        } else if 0x61 <= b && b <= 0x66 {
            (b - 0x61 + 10) as u64
        } else if 0x41 <= b && b <= 0x46 {
            (b - 0x41 + 10) as u64
        } else {
            proof {
                assert(hex_value(word@, i + 1).is_none());
                lemma_hex_value_grows(word@, i + 1, n as int);
            }
            return None;
        };
        if max < digit || value > (max - digit) / 16 {
            proof {
                assert(16 * value + digit > max);
                lemma_hex_value_grows(word@, i + 1, n as int);
            }
            return None;
        }
        value = 16 * value + digit;
        i = i + 1;
    }
    Some(value)
}

impl Instruction {
    /// What the instruction is to the contracts.
    pub open spec fn line_view(&self) -> LineView {
        LineView { text: self.text@, opcode: self.opcode, location: self.location }
    }

    /// Reads one line of a listing.
    pub fn from_objdump(line: &[u8]) -> (r: Option<Instruction>)
        ensures
            r.is_some() == parsed_line(line@).is_some(),
            r.is_some() ==> r.unwrap().line_view() == parsed_line(line@).unwrap(),
    {
        let a0 = after_spaces(line, 0);
        let e0 = after_word(line, a0);
        if a0 == e0 {
            return None;
        }
        let first = slice_subrange(line, a0, e0);
        if e0 - a0 == 3 && first[0] == 0x2e && first[1] == 0x2e && first[2] == 0x2e {
            let mut text: Vec<u8> = Vec::new();
            text.push(0x2e);
            text.push(0x2e);
            text.push(0x2e);
            assert(first@ =~= dots());
            assert(text@ =~= dots());
            return Some(Instruction { text, opcode: 0, location: None });
        }
        assert(first@ != dots()) by {
            if first@ == dots() {
                assert(first@.len() == 3);
                assert(first@[0] == 0x2eu8 && first@[1] == 0x2eu8 && first@[2] == 0x2eu8);
            }
        }
        if first[e0 - a0 - 1] != 0x3a {
            return None;
        }
        let location = parse_hex(slice_subrange(first, 0, e0 - a0 - 1), u64::MAX);
        assert(first@.subrange(0, e0 - a0 - 1) =~= first@.drop_last());
        let a1 = after_spaces(line, e0);
        let e1 = after_word(line, a1);
        let b0 = parse_hex(slice_subrange(line, a1, e1), 255);
        let a2 = after_spaces(line, e1);
        let e2 = after_word(line, a2);
        let b1 = parse_hex(slice_subrange(line, a2, e2), 255);
        let a3 = after_spaces(line, e2);
        let e3 = after_word(line, a3);
        let b2 = parse_hex(slice_subrange(line, a3, e3), 255);
        let a4 = after_spaces(line, e3);
        let e4 = after_word(line, a4);
        let b3 = parse_hex(slice_subrange(line, a4, e4), 255);
        if b0.is_none() || b1.is_none() || b2.is_none() || b3.is_none() {
            return None;
        }
        let mut bytes: Vec<u8> = Vec::new();
        bytes.push(b0.unwrap() as u8);
        bytes.push(b1.unwrap() as u8);
        bytes.push(b2.unwrap() as u8);
        bytes.push(b3.unwrap() as u8);
        assert(bytes@ =~= seq![
            b0.unwrap() as u8,
            b1.unwrap() as u8,
            b2.unwrap() as u8,
            b3.unwrap() as u8,
        ]);
        let opcode = read_u32_be(bytes.as_slice());
        let mut text: Vec<u8> = Vec::new();
        let mut k: usize = e4;
        let mut a: usize = after_spaces(line, k);
        let mut b: usize = after_word(line, a);
        while a < line.len() && b > k
            invariant
                k <= a <= b <= line@.len(),
                a == skip_spaces(line@, k as int),
                b == skip_word(line@, a as int),
                joined(line@, e4 as int, Seq::empty()) == joined(line@, k as int, text@),
            decreases line@.len() - k,
        {
            let ghost before = text@;
            if text.len() > 0 {
                text.push(0x20);
            }
            text.extend_from_slice(slice_subrange(line, a, b));
            proof {
                if before.len() == 0 {
                    assert(text@ =~= line@.subrange(a as int, b as int));
                } else {
                    assert(text@ =~= before + seq![0x20u8] + line@.subrange(a as int, b as int));
                }
            }
            k = b;
            a = after_spaces(line, k);
            b = after_word(line, a);
        }
        Some(Instruction { text, opcode, location })
    }
}

impl DisasmIter {
    /// Reads one line, and says what it says: nothing when no line is left
    /// or the line says nothing.
    pub fn next(&mut self) -> (r: Option<Instruction>)
        requires
            old(self).wf(),
        ensures
            final(self).wf(),
            final(self).lines() == old(self).lines(),
            old(self).position() >= old(self).lines().len() ==> r.is_none() && final(self).position()
                == old(self).position(),
            old(self).position() < old(self).lines().len() ==> {
                let line = old(self).lines()[old(self).position()];
                &&& final(self).position() == old(self).position() + 1
                &&& r.is_some() == parsed_line(line).is_some()
                &&& r.is_some() ==> r.unwrap().line_view() == parsed_line(line).unwrap()
            },
    {
        match self.next_line() {
            Some(line) => Instruction::from_objdump(line.as_slice()),
            None => None,
        }
    }
}

/// The words with which the version text of GNU objdump starts.
pub open spec fn banner() -> Seq<u8> {
    "GNU objdump".spec_bytes()
}

/// Whether `output`, what the tool prints when asked for its version,
/// starts with the words `GNU objdump`.
pub fn is_objdump_banner(output: &[u8]) -> (r: bool)
    ensures
        r == (output@.len() >= banner().len() && output@.subrange(0, banner().len() as int)
            == banner()),
{
    let expected = "GNU objdump".as_bytes();
    let count: usize = expected.len();
    output.len() >= count && same_bytes(slice_subrange(output, 0, count), expected)
}

/// Why a run of the tool gave no listing.
#[derive(Debug, Clone, Copy, PartialEq, Eq, Structural)]
pub enum ListingError {
    /// The tool ended with this status.
    Failed(i32),
    /// The tool was ended from outside, and left no status.
    Interrupted,
    /// The tool's output holds no line that opens a listing.
    NoListing,
}

/// Where the line that starts at `k` ends: at the first line feed from `k`
/// on, or at the end of the output.
pub open spec fn line_end(s: Seq<u8>, k: int) -> int
    decreases s.len() - k,
{
    if k < 0 || k >= s.len() {
        s.len() as int
    } else if s[k] == 0x0a {
        k
    } else {
        line_end(s, k + 1)
    }
}

/// A line without the carriage return that may end it.
pub open spec fn without_cr(line: Seq<u8>) -> Seq<u8> {
    if line.len() > 0 && line.last() == 0x0d {
        line.drop_last()
    } else {
        line
    }
}

/// The lines of the output from `k` on: each runs up to a line feed or to
/// the end of the output, and is taken without the line feed and without a
/// carriage return before it.
pub open spec fn split_lines(s: Seq<u8>, k: int) -> Seq<Seq<u8>>
    decreases s.len() - k,
{
    let e = line_end(s, k);
    if k < 0 || k >= s.len() || e < k {
        Seq::empty()
    } else if e >= s.len() {
        seq![without_cr(s.subrange(k, s.len() as int))]
    } else {
        seq![without_cr(s.subrange(k, e))] + split_lines(s, e + 1)
    }
}

/// What lines are to the contracts: each line as its bytes.
pub open spec fn line_views(lines: Seq<Vec<u8>>) -> Seq<Seq<u8>> {
    Seq::new(lines.len(), |i: int| lines[i]@)
}

/// Where the line that starts at `k` ends.
fn end_of_line(output: &[u8], k: usize) -> (r: usize)
    requires
        k <= output@.len(),
    ensures
        r == line_end(output@, k as int),
        k <= r <= output@.len(),
{
    let mut p: usize = k;
    while p < output.len() && output[p] != 0x0a
        invariant
            k <= p <= output@.len(),
            line_end(output@, k as int) == line_end(output@, p as int),
        decreases output@.len() - p,
    {
        p = p + 1;
    }
    p
}

/// The lines of the tool's output.
pub fn lines_of(output: &[u8]) -> (r: Vec<Vec<u8>>)
    ensures
        line_views(r@) == split_lines(output@, 0),
{
    let n: usize = output.len();
    let mut out: Vec<Vec<u8>> = Vec::new();
    let mut k: usize = 0;
    assert(line_views(out@) + split_lines(output@, 0) =~= split_lines(output@, 0));
    while k < n
        invariant
            n == output@.len(),
            0 <= k <= n,
            split_lines(output@, 0) == line_views(out@) + split_lines(output@, k as int),
        decreases n - k,
    {
        let e: usize = end_of_line(output, k);
        let stop: usize = if e > k && output[e - 1] == 0x0d {
            e - 1
        } else {
            e
        };
        let mut line: Vec<u8> = Vec::new();
        line.extend_from_slice(slice_subrange(output, k, stop));
        let ghost before = line_views(out@);
        out.push(line);
        proof {
            let whole = output@.subrange(k as int, e as int);
            assert(line@ =~= without_cr(whole));
            assert(line_views(out@) =~= before + seq![without_cr(whole)]);
            if e == n {
                assert(split_lines(output@, n as int) =~= Seq::<Seq<u8>>::empty());
                assert(split_lines(output@, k as int) =~= seq![without_cr(whole)]
                    + split_lines(output@, n as int));
            } else {
                assert(before + (seq![without_cr(whole)] + split_lines(output@, e + 1)) =~= (
                before + seq![without_cr(whole)]) + split_lines(output@, e + 1));
            }
        }
        k = if e < n {
            e + 1
        } else {
            n
        };
    }
    assert(split_lines(output@, n as int) =~= Seq::<Seq<u8>>::empty());
    assert(line_views(out@) + Seq::<Seq<u8>>::empty() =~= line_views(out@));
    out
}

/// The listing that a run of the tool gave. A run that failed gives its
/// status, and one that was ended from outside says so. A run that went
/// well gives the lines of its output, read up to and with the first that
/// opens a listing; where no line does, there is no listing.
pub fn listing_from(code: Option<i32>, success: bool, stdout: &[u8]) -> (r: Result<
    DisasmIter,
    ListingError,
>)
    ensures
        !success ==> r == Err::<DisasmIter, ListingError>(
            match code {
                Some(c) => ListingError::Failed(c),
                None => ListingError::Interrupted,
            },
        ),
        success ==> (match r {
            Ok(it) => {
                &&& it.wf()
                &&& it.lines() == split_lines(stdout@, 0)
                &&& 0 < it.position() <= it.lines().len()
                &&& has_marker(it.lines()[it.position() - 1])
                &&& forall|j: int|
                    0 <= j < it.position() - 1 ==> !has_marker(#[trigger] it.lines()[j])
            },
            Err(e) => e == ListingError::NoListing && forall|j: int|
                0 <= j < split_lines(stdout@, 0).len() ==> !has_marker(
                    #[trigger] split_lines(stdout@, 0)[j],
                ),
        }),
{
    if !success {
        return Err(
            match code {
                Some(c) => ListingError::Failed(c),
                None => ListingError::Interrupted,
            },
        );
    }
    let lines = lines_of(stdout);
    let ghost views = line_views(lines@);
    let mut it = DisasmIter::new(lines);
    assert(it.lines() =~= views);
    match it.advance_to_start() {
        Ok(()) => Ok(it),
        Err(_) => Err(ListingError::NoListing),
    }
}

} // verus!
