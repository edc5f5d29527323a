use vstd::prelude::*;
use std::collections::BTreeMap;
use crate::offset_map::{empty_paths, path_view, put_path};
use crate::apploader::APPLOADER_OFFSET;
use crate::error::Error;
use crate::fst::{
    count_files, entry_count, flag_of, lemma_directory_out_of_range_is_refused, third_word, Entry, FST,
};
use crate::game::Game;
use crate::header::Header;
use crate::layout_section::UniqueLayoutSection;
use crate::names::{apploader_name, dol_name, fst_name, header_name, name_bytes};

verus! {

/// The name of an entry.
pub open spec fn entry_name(e: Entry) -> Seq<u8> {
    match e {
        Entry::File(f) => f.name@,
        Entry::Directory(d) => d.name@,
    }
}

/// The directory to go up to from directory `p` when looking for the one
/// that holds entry `i`: the parent of `p`, if `p` is not the root and has
/// ended at or before `i`.
pub open spec fn step_up(entries: Seq<Entry>, p: int, i: int) -> Option<int> {
    if 0 < p < entries.len() {
        match entries[p] {
            Entry::Directory(d) => if d.next_index <= i && d.parent_index < p {
                Some(d.parent_index as int)
            } else {
                None
            },
            Entry::File(_) => None,
        }
    } else {
        None
    }
}

/// The nearest directory from `p` upwards that has not ended before entry
/// `i`; the root when every other has.
pub open spec fn climb(entries: Seq<Entry>, p: int, i: int) -> int
    decreases p,
{
    match step_up(entries, p, i) {
        Some(q) => climb(entries, q, i),
        None => p,
    }
}

/// The directory that holds entry `i`. It is found from the entry before:
/// that entry itself where it is a directory, else the directory that holds
/// it; and from there upwards past every directory that has ended.
pub open spec fn dir_of(entries: Seq<Entry>, i: int) -> int
    decreases i,
{
    if i <= 0 {
        0
    } else {
        let p = if entries[i - 1] is Directory {
            i - 1
        } else {
            dir_of(entries, i - 1)
        };
        climb(entries, p, i)
    }
}

/// The path of entry `i`: the names of the directories that hold it, from
/// below the root downwards, and its own name, with `/` between them.
pub open spec fn path_of(entries: Seq<Entry>, i: int) -> Seq<u8>
    decreases i,
{
    if i <= 0 {
        Seq::empty()
    } else {
        let d = dir_of(entries, i);
        if 0 < d < i {
            path_of(entries, d) + seq![0x2fu8] + entry_name(entries[i])
        } else {
            entry_name(entries[i])
        }
    }
}

/// `base` with the path of every file among the first `n` entries at the
/// file's offset. Of two files at one offset, the later stays.
pub open spec fn file_map(base: Map<u64, Seq<u8>>, entries: Seq<Entry>, n: int) -> Map<
    u64,
    Seq<u8>,
>
    decreases n,
{
    if n <= 0 {
        base
    } else {
        match entries[n - 1] {
            Entry::File(f) => file_map(base, entries, n - 1).insert(
                f.file_offset,
                path_of(entries, n - 1),
            ),
            Entry::Directory(_) => file_map(base, entries, n - 1),
        }
    }
}

/// The paths under which the four system files are stored, each at the
/// offset of its region.
pub open spec fn with_system_files(
    m: Map<u64, Seq<u8>>,
    fst_offset: u64,
    dol_offset: u64,
) -> Map<u64, Seq<u8>> {
    m.insert(0, header_name()).insert(0x2440, apploader_name()).insert(
        fst_offset,
        fst_name(),
    ).insert(dol_offset, dol_name())
}

/// One step upwards from directory `p`, as `step_up` gives it.
fn go_up(fst: &FST, p: usize, i: usize) -> (r: Option<usize>)
    requires
        fst.wf(),
        p < fst.entries@.len(),
    ensures
        r.is_some() == step_up(fst.entries@, p as int, i as int).is_some(),
        r.is_some() ==> r.unwrap() == step_up(fst.entries@, p as int, i as int).unwrap()
            && r.unwrap() < p,
{
    if p == 0 {
        return None;
    }
    match &fst.entries[p] {
        Entry::Directory(d) => {
            if d.next_index <= i as u64 {
                Some(d.parent_index as usize)
            } else {
                None
            }
        },
        Entry::File(_) => None,
    }
}

/// The path of every entry of the table, in the order of the entries.
pub fn entry_paths(fst: &FST) -> (r: Vec<Vec<u8>>)
    requires
        fst.wf(),
    ensures
        r@.len() == fst.entries@.len(),
        forall|i: int| 0 <= i < r@.len() ==> (#[trigger] r@[i])@ == path_of(fst.entries@, i),
{
    let n: usize = fst.entries.len();
    let mut out: Vec<Vec<u8>> = Vec::new();
    out.push(Vec::new());
    let mut cur: usize = 0;
    let mut i: usize = 1;
    while i < n
        invariant
            fst.wf(),
            n == fst.entries@.len(),
            1 <= i <= n,
            out@.len() == i,
            forall|j: int| 0 <= j < i ==> (#[trigger] out@[j])@ == path_of(fst.entries@, j),
            cur == dir_of(fst.entries@, i - 1),
            cur < i,
        decreases n - i,
    {
        let mut p: usize = match &fst.entries[i - 1] {
            Entry::Directory(_) => i - 1,
            Entry::File(_) => cur,
        };
        let ghost from = p;
        let mut next = go_up(fst, p, i);
        while next.is_some()
            invariant
                fst.wf(),
                n == fst.entries@.len(),
                p < i < n,
                next.is_some() == step_up(fst.entries@, p as int, i as int).is_some(),
                next.is_some() ==> next.unwrap() == step_up(
                    fst.entries@,
                    p as int,
                    i as int,
                ).unwrap() && next.unwrap() < p,
                climb(fst.entries@, p as int, i as int) == climb(
                    fst.entries@,
                    from as int,
                    i as int,
                ),
            decreases p,
        {
            p = next.unwrap();
            next = go_up(fst, p, i);
        }
        cur = p;
        assert(cur == dir_of(fst.entries@, i as int));
        let mut path: Vec<u8> = Vec::new();
        if cur > 0 {
            path.extend_from_slice(out[cur].as_slice());
            path.push(0x2f);
        }
        path.extend_from_slice(fst.entries[i].name().as_slice());
        assert(path@ =~= path_of(fst.entries@, i as int));
        out.push(path);
        i = i + 1;
    }
    out
}

/// Puts the path of every file of the table into `files`, at the file's
/// offset.
pub fn fill_files_btree(files: &mut BTreeMap<u64, Vec<u8>>, fst: &FST)
    requires
        fst.wf(),
    ensures
        path_view(final(files)@) == file_map(
            path_view(old(files)@),
            fst.entries@,
            fst.entries@.len() as int,
        ),
{
    let mut paths = entry_paths(fst);
    let mut k: usize = 0;
    let n: usize = fst.entries.len();
    while k < n
        invariant
            fst.wf(),
            n == fst.entries@.len(),
            0 <= k <= n,
            paths@.len() == n,
            forall|j: int| k <= j < n ==> (#[trigger] paths@[j])@ == path_of(fst.entries@, j),
            path_view(files@) == file_map(path_view(old(files)@), fst.entries@, k as int),
        decreases n - k,
    {
        match &fst.entries[k] {
            Entry::File(f) => {
                let mut path: Vec<u8> = Vec::new();
                path.append(&mut paths[k]);
                put_path(files, f.file_offset, path);
            },
            Entry::Directory(_) => {},
        }
        k = k + 1;
    }
}

/// The paths of the files of the table by their offsets.
pub fn make_files_btree(fst: &FST) -> (r: BTreeMap<u64, Vec<u8>>)
    requires
        fst.wf(),
    ensures
        path_view(r@) == file_map(Map::empty(), fst.entries@, fst.entries@.len() as int),
        distinct_offsets(fst.entries@) ==> path_view(r@).dom().len() == fst.file_count,
{
    let mut files = empty_paths();
    fill_files_btree(&mut files, fst);
    proof {
        if distinct_offsets(fst.entries@) {
            lemma_one_path_per_file(fst.entries@, fst.entries@.len() as int);
        }
    }
    files
}

/// The paths of everything that an image is rebuilt from, by offsets: the
/// files of the table, and the four system files, the header at the start,
/// the apploader behind it, the table and the executable where the header
/// says they stand.
pub fn make_sections_btree(header: &Header, fst: &FST) -> (r: BTreeMap<u64, Vec<u8>>)
    requires
        fst.wf(),
    ensures
        path_view(r@) == with_system_files(
            file_map(Map::empty(), fst.entries@, fst.entries@.len() as int),
            header.fst_offset,
            header.dol_offset,
        ),
{
    let mut tree = make_files_btree(fst);
    put_path(&mut tree, 0, name_bytes("&&systemdata/ISO.hdr"));
    put_path(&mut tree, APPLOADER_OFFSET, name_bytes("&&systemdata/Apploader.ldr"));
    put_path(&mut tree, header.fst_offset, name_bytes("&&systemdata/Game.toc"));
    put_path(&mut tree, header.dol_offset, name_bytes("&&systemdata/Start.dol"));
    tree
}

/// The offset of a file; 0 for a directory.
pub open spec fn file_offset_of(e: Entry) -> u64 {
    match e {
        Entry::File(f) => f.file_offset,
        Entry::Directory(_) => 0,
    }
}

/// Whether entry `i` is a file that stands at `offset`.
pub open spec fn file_at(entries: Seq<Entry>, i: int, offset: u64) -> bool {
    0 <= i < entries.len() && entries[i] is File && file_offset_of(entries[i]) == offset
}

/// Whether no two files of `entries` stand at the same offset.
pub open spec fn distinct_offsets(entries: Seq<Entry>) -> bool {
    forall|i: int, j: int, offset: u64|
        #[trigger] file_at(entries, i, offset) && #[trigger] file_at(entries, j, offset) ==> i
            == j
}

/// Where no two files stand at the same offset, the map of the files
/// among the first `n` entries holds one path for each of them and no
/// other: as many offsets as there are files, at each file's offset that
/// file's path, and no offset that is not a file's.
pub proof fn lemma_one_path_per_file(entries: Seq<Entry>, n: int)
    requires
        0 <= n <= entries.len(),
        distinct_offsets(entries),
    ensures
        file_map(Map::empty(), entries, n).dom().finite(),
        file_map(Map::empty(), entries, n).dom().len() == count_files(entries, n),
        forall|i: int, offset: u64|
            i < n && #[trigger] file_at(entries, i, offset) ==> file_map(
                Map::empty(),
                entries,
                n,
            ).contains_key(offset) && file_map(Map::empty(), entries, n)[offset] == path_of(
                entries,
                i,
            ),
        forall|offset: u64| #[trigger]
            file_map(Map::empty(), entries, n).contains_key(offset) ==> exists|i: int|
                i < n && file_at(entries, i, offset),
    decreases n,
{
    if n > 0 {
        lemma_one_path_per_file(entries, n - 1);
        let before = file_map(Map::<u64, Seq<u8>>::empty(), entries, n - 1);
        let after = file_map(Map::<u64, Seq<u8>>::empty(), entries, n);
        match entries[n - 1] {
            Entry::File(f) => {
                let key = f.file_offset;
                assert(file_at(entries, n - 1, key));
                if before.contains_key(key) {
                    let i = choose|i: int| i < n - 1 && file_at(entries, i, key);
                    assert(file_at(entries, i, key));
                    assert(false);
                }
                assert(after.dom() =~= before.dom().insert(key));
                assert forall|i: int, offset: u64|
                    i < n && #[trigger] file_at(entries, i, offset) implies after.contains_key(
                    offset,
                ) && after[offset] == path_of(entries, i) by {
                    if i < n - 1 {
                        assert(before.contains_key(offset));
                        if offset == key {
                            assert(file_at(entries, n - 1, key));
                        }
                    }
                }
                assert forall|offset: u64| #[trigger] after.contains_key(offset) implies exists|
                    i: int,
                | i < n && file_at(entries, i, offset) by {
                    if offset == key {
                        assert(file_at(entries, n - 1, offset));
                    } else {
                        assert(before.contains_key(offset));
                        let i = choose|i: int| i < n - 1 && file_at(entries, i, offset);
                        assert(i < n && file_at(entries, i, offset));
                    }
                }
            },
            Entry::Directory(_) => {
                assert forall|offset: u64| #[trigger] after.contains_key(offset) implies exists|
                    i: int,
                | i < n && file_at(entries, i, offset) by {
                    let i = choose|i: int| i < n - 1 && file_at(entries, i, offset);
                    assert(i < n && file_at(entries, i, offset));
                }
            },
        }
    } else {
        assert(file_map(Map::<u64, Seq<u8>>::empty(), entries, n).dom() =~= Set::<u64>::empty());
    }
}

impl Game {
    /// Decodes the header and the table of an extracted image from the
    /// bytes of their files, and gives with them the paths of everything
    /// that the image is rebuilt from, by offsets. Where either cannot be
    /// decoded there is no map.
    pub fn make_sections_btree(header_bytes: &[u8], fst_bytes: &[u8]) -> (r: Result<
        (Header, FST, BTreeMap<u64, Vec<u8>>),
        Error,
    >)
        ensures
            r.is_ok() <==> Header::decodable(header_bytes@, 0) && FST::decodable(fst_bytes@, 0),
            r matches Ok(made) ==> {
                &&& made.0.decodes(header_bytes@, 0)
                &&& made.1.decodes(fst_bytes@, 0)
                &&& made.1.wf()
                &&& path_view(made.2@) == with_system_files(
                    file_map(Map::empty(), made.1.entries@, made.1.entries@.len() as int),
                    made.0.fst_offset,
                    made.0.dol_offset,
                )
            },
    {
        let header = match Header::new(header_bytes, 0) {
            Ok(h) => h,
            Err(e) => {
                return Err(e);
            },
        };
        let fst = match FST::new(fst_bytes, 0) {
            Ok(f) => f,
            Err(e) => {
                return Err(e);
            },
        };
        let tree = make_sections_btree(&header, &fst);
        Ok((header, fst, tree))
    }
}

/// The files of an extraction whose table has a directory that reaches
/// behind the end of the table get no map of paths.
pub proof fn lemma_no_map_from_malformed_table(
    header_bytes: Seq<u8>,
    fst_bytes: Seq<u8>,
    i: int,
)
    requires
        0 <= i < entry_count(fst_bytes, 0),
        flag_of(fst_bytes, 0, i) == 1,
        third_word(fst_bytes, 0, i) > entry_count(fst_bytes, 0),
    ensures
        !(Header::decodable(header_bytes, 0) && FST::decodable(fst_bytes, 0)),
{
    lemma_directory_out_of_range_is_refused(fst_bytes, 0, i);
}

} // verus!
