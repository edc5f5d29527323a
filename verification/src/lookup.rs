use vstd::prelude::*;
use crate::dol::SegmentType;
use crate::fst::{Entry, FST};
use crate::layout_section::UniqueLayoutSection;
use crate::paths::{entry_paths, path_of};

verus! {

/// Whether `b` is a decimal digit.
pub open spec fn is_digit(b: u8) -> bool {
    0x30 <= b <= 0x39
}

/// Whether `name` starts with the five bytes of `.text` or of `.data`.
pub open spec fn has_word(name: Seq<u8>, kind: SegmentType) -> bool {
    &&& name.len() >= 5
    &&& name[0] == 0x2eu8
    &&& match kind {
        SegmentType::Text => name[1] == 0x74u8 && name[2] == 0x65u8 && name[3] == 0x78u8
            && name[4] == 0x74u8,
        SegmentType::Data => name[1] == 0x64u8 && name[2] == 0x61u8 && name[3] == 0x74u8
            && name[4] == 0x61u8,
    }
}

/// The kind that a segment's name starts with, if it starts with one.
pub open spec fn word_of(name: Seq<u8>) -> Option<SegmentType> {
    if has_word(name, SegmentType::Text) {
        Some(SegmentType::Text)
    } else if has_word(name, SegmentType::Data) {
        Some(SegmentType::Data)
    } else {
        None
    }
}

/// The segment that `name` names: `.text` or `.data`, and behind it one
/// or two decimal digits, the segment's index.
pub open spec fn named_segment(name: Seq<u8>) -> Option<(SegmentType, u64)> {
    match word_of(name) {
        Some(kind) => if name.len() == 6 && is_digit(name[5]) {
            Some((kind, (name[5] - 0x30) as u64))
        } else if name.len() == 7 && is_digit(name[5]) && is_digit(name[6]) {
            Some((kind, (10 * (name[5] - 0x30) + (name[6] - 0x30)) as u64))
        } else {
            None
        },
        None => None,
    }
}

/// The first file from entry `k` on whose path is `name`; the number of
/// entries when there is none.
pub open spec fn first_named(entries: Seq<Entry>, name: Seq<u8>, k: int) -> int
    decreases entries.len() - k,
{
    if k < 0 || k >= entries.len() {
        entries.len() as int
    } else if entries[k] is File && path_of(entries, k) == name {
        k
    } else {
        first_named(entries, name, k + 1)
    }
}

/// Whether two runs of bytes are the same.
pub fn same_bytes(a: &[u8], b: &[u8]) -> (r: bool)
    ensures
        r == (a@ == b@),
{
    if a.len() != b.len() {
        return false;
    }
    let mut i: usize = 0;
    while i < a.len()
        invariant
            a@.len() == b@.len(),
            0 <= i <= a@.len(),
            forall|j: int| 0 <= j < i ==> a@[j] == b@[j],
        decreases a@.len() - i,
    {
        if a[i] != b[i] {
            return false;
        }
        i = i + 1;
    }
    assert(a@ =~= b@);
    true
}

/// Reads a segment's name: its kind and its index.
pub fn parse_segment_name(name: &[u8]) -> (r: Option<(SegmentType, u64)>)
    ensures
        r == named_segment(name@),
{
    let n: usize = name.len();
    if n < 6 || n > 7 || name[0] != 0x2e {
        return None;
    }
    let kind = if name[1] == 0x74 && name[2] == 0x65 && name[3] == 0x78 && name[4] == 0x74 {
        SegmentType::Text
    } else if name[1] == 0x64 && name[2] == 0x61 && name[3] == 0x74 && name[4] == 0x61 {
        SegmentType::Data
    } else {
        return None;
    };
    if name[5] < 0x30 || name[5] > 0x39 {
        return None;
    }
    let high: u64 = (name[5] - 0x30) as u64;
    if n == 6 {
        return Some((kind, high));
    }
    if name[6] < 0x30 || name[6] > 0x39 {
        return None;
    }
    let low: u64 = (name[6] - 0x30) as u64;
    Some((kind, 10 * high + low))
}

/// The index of the first file of the table whose path is `name`.
pub fn entry_with_name(fst: &FST, name: &[u8]) -> (r: Option<usize>)
    requires
        fst.wf(),
    ensures
        r.is_some() <==> first_named(fst.entries@, name@, 0) < fst.entries@.len(),
        r.is_some() ==> r.unwrap() == first_named(fst.entries@, name@, 0),
{
    let paths = entry_paths(fst);
    let n: usize = fst.entries.len();
    let mut k: usize = 0;
    while k < n
        invariant
            n == fst.entries@.len(),
            paths@.len() == n,
            forall|i: int| 0 <= i < n ==> (#[trigger] paths@[i])@ == path_of(fst.entries@, i),
            0 <= k <= n,
            first_named(fst.entries@, name@, 0) == first_named(fst.entries@, name@, k as int),
        decreases n - k,
    {
        let is_file = match &fst.entries[k] {
            Entry::File(_) => true,
            Entry::Directory(_) => false,
        };
        if is_file && same_bytes(paths[k].as_slice(), name) {
            return Some(k);
        }
        k = k + 1;
    }
    None
}

} // verus!
