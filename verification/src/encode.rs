use vstd::prelude::*;
use crate::bytes::{be_u32, u32_at, write_u32_be};
use crate::fst::{
    count_files, entry_count, entry_decodes, entry_ok, entry_wf, flag_of, name_end, name_of, name_start, second_word,
    table_in_bounds, third_word, DirectoryEntry, Entry, FileEntry, FST,
};
use crate::error::Error;
use crate::game::Game;
use crate::header::Header;
use crate::layout_section::UniqueLayoutSection;
use crate::paths::entry_name;

verus! {

/// How many bytes the names of the first `n` entries take, each with the
/// zero byte that ends it.
pub open spec fn names_size(entries: Seq<Entry>, n: int) -> int
    decreases n,
{
    if n <= 0 {
        0
    } else {
        names_size(entries, n - 1) + entry_name(entries[n - 1]).len() + 1
    }
}

/// Whether no byte of `s` is zero.
pub open spec fn nonzero(s: Seq<u8>) -> bool {
    forall|i: int| 0 <= i < s.len() ==> s[i] != 0
}

/// The flag that stands for an entry: 0 for a file, 1 for a directory.
pub open spec fn flag_for(e: Entry) -> u8 {
    match e {
        Entry::File(_) => 0u8,
        Entry::Directory(_) => 1u8,
    }
}

/// The second and third word of an entry.
pub open spec fn words_for(e: Entry) -> (int, int) {
    match e {
        Entry::File(f) => (f.file_offset as int, f.length as int),
        Entry::Directory(d) => (d.parent_index as int, d.next_index as int),
    }
}

/// Whether the twelve bytes `chunk` spell the entry `e`, with its name at
/// `offset` among the names.
pub open spec fn chunk_spells(chunk: Seq<u8>, e: Entry, offset: int) -> bool {
    &&& chunk.len() == 12
    &&& chunk[0] == flag_for(e)
    &&& be_u32(chunk.subrange(0, 4)) % 0x100_0000 == offset
    &&& be_u32(chunk.subrange(4, 8)) == words_for(e).0
    &&& be_u32(chunk.subrange(8, 12)) == words_for(e).1
}

/// Whether `names` holds the name of `e` at `offset`, and a zero byte
/// behind it.
pub open spec fn name_stands(names: Seq<u8>, e: Entry, offset: int) -> bool {
    &&& 0 <= offset
    &&& offset + entry_name(e).len() < names.len()
    &&& names.subrange(offset, offset + entry_name(e).len()) == entry_name(e)
    &&& names[offset + entry_name(e).len()] == 0
}

/// Whether `table` spells entry `j` where the entry stands.
pub open spec fn entry_spelled(table: Seq<u8>, entries: Seq<Entry>, j: int) -> bool {
    chunk_spells(table.subrange(12 * j, 12 * j + 12), entries[j], names_size(entries, j))
}

/// Whether `names` holds the name of entry `j` where the name stands.
pub open spec fn entry_named(names: Seq<u8>, entries: Seq<Entry>, j: int) -> bool {
    name_stands(names, entries[j], names_size(entries, j))
}

/// A name without a zero byte, with a zero byte behind it, ends at that byte.
pub proof fn lemma_name_ends_at_zero(image: Seq<u8>, pos: int, len: int)
    requires
        0 <= pos,
        0 <= len,
        pos + len < image.len(),
        forall|k: int| pos <= k < pos + len ==> image[k] != 0,
        image[pos + len] == 0,
    ensures
        name_end(image, pos) == pos + len,
    decreases len,
{
    if len > 0 {
        lemma_name_ends_at_zero(image, pos + 1, len - 1);
    }
}

impl FST {
    /// Whether the table can be written and read back: it is well formed,
    /// the root spans all entries, no name holds a zero byte, and the names
    /// fit in what three bytes can address.
    pub open spec fn writable(&self) -> bool {
        &&& self.wf()
        &&& words_for(self.entries@[0]).1 == self.entries@.len()
        &&& words_for(self.entries@[0]).0 <= u32::MAX
        &&& names_size(self.entries@, self.entries@.len() as int) <= 0x100_0000
        &&& forall|i: int|
            0 <= i < self.entries@.len() ==> nonzero(entry_name(#[trigger] self.entries@[i]))
    }

    /// Appends the table to `sink`: the entries, twelve bytes each, and
    /// behind them the names in the order of the entries, each ended by a
    /// zero byte. What is written decodes to this table again.
    pub fn write(&self, sink: &mut Vec<u8>)
        requires
            self.writable(),
        ensures
            final(sink)@.len() == old(sink)@.len() + 12 * self.entries@.len() + names_size(
                self.entries@,
                self.entries@.len() as int,
            ),
            final(sink)@.subrange(0, old(sink)@.len() as int) == old(sink)@,
            FST::decodable(
                final(sink)@.subrange(old(sink)@.len() as int, final(sink)@.len() as int),
                0,
            ),
            self.entries@.len() == entry_count(
                final(sink)@.subrange(old(sink)@.len() as int, final(sink)@.len() as int),
                0,
            ),
            forall|i: int|
                0 <= i < self.entries@.len() ==> entry_decodes(
                    #[trigger] self.entries@[i],
                    final(sink)@.subrange(old(sink)@.len() as int, final(sink)@.len() as int),
                    0,
                    i,
                ),
            spells(
                final(sink)@.subrange(old(sink)@.len() as int, final(sink)@.len() as int),
                self.entries@,
            ),
    {
        let n: usize = self.entries.len();
        let ghost entries = self.entries@;
        let mut table: Vec<u8> = Vec::new();
        let mut names: Vec<u8> = Vec::new();
        let mut i: usize = 0;
        proof {
            lemma_names_size_min(entries, n as int);
        }
        while i < n
            invariant
                self.writable(),
                entries == self.entries@,
                n == entries.len(),
                0 <= i <= n,
                table@.len() == 12 * i,
                names@.len() == names_size(entries, i as int),
                names@.len() <= names_size(entries, n as int),
                forall|j: int|
                    0 <= j < i ==> #[trigger] entry_spelled(table@, entries, j),
                forall|j: int|
                    0 <= j < i ==> #[trigger] entry_named(names@, entries, j),
            decreases n - i,
        {
            proof {
                lemma_names_size_grows(entries, i + 1, n as int);
            }
            let ghost e = entries[i as int];
            let ghost offset = names@.len() as int;
            let ghost old_table = table@;
            let ghost old_names = names@;
            let first: u32 = match &self.entries[i] {
                Entry::File(_) => names.len() as u32,
                Entry::Directory(_) => 0x100_0000u32 + names.len() as u32,
            };
            let second: u32 = match &self.entries[i] {
                Entry::File(f) => f.file_offset as u32,
                Entry::Directory(d) => d.parent_index as u32,
            };
            let third: u32 = match &self.entries[i] {
                Entry::File(f) => f.length as u32,
                Entry::Directory(d) => d.next_index as u32,
            };
            let mut w0 = write_u32_be(first);
            let mut w1 = write_u32_be(second);
            let mut w2 = write_u32_be(third);
            let ghost s0 = w0@;
            let ghost s1 = w1@;
            let ghost s2 = w2@;
            table.append(&mut w0);
            table.append(&mut w1);
            table.append(&mut w2);
            names.extend_from_slice(self.entries[i].name().as_slice());
            names.push(0);
            proof {
                assert(table@ =~= old_table + s0 + s1 + s2);
                assert(names@ =~= old_names + entry_name(e) + seq![0u8]);
                lemma_top_byte(s0, flag_for(e) as int, offset);
                lemma_entry_appended(entries, i as int, old_table, old_names, s0, s1, s2);
            }
            i = i + 1;
        }
        let ghost before = sink@;
        let ghost table_seq = table@;
        let ghost names_seq = names@;
        sink.append(&mut table);
        sink.append(&mut names);
        proof {
            let out = sink@.subrange(before.len() as int, sink@.len() as int);
            assert(out =~= table_seq + names_seq);
            assert(sink@.subrange(0, before.len() as int) =~= before);
            lemma_encoding_decodes(entries, table_seq, names_seq);
        }
    }
}

/// Whether no byte of `s` is zero.
pub fn no_zero(s: &[u8]) -> (r: bool)
    ensures
        r == nonzero(s@),
{
    let mut i: usize = 0;
    while i < s.len()
        invariant
            0 <= i <= s@.len(),
            forall|j: int| 0 <= j < i ==> s@[j] != 0,
        decreases s@.len() - i,
    {
        if s[i] == 0 {
            return false;
        }
        i = i + 1;
    }
    true
}

impl FST {
    /// Whether the table can be written and read back.
    pub fn is_writable(&self) -> (r: bool)
        ensures
            r == self.writable(),
    {
        let n: usize = self.entries.len();
        if n == 0 || n > 0xffff_ffff {
            return false;
        }
        match &self.entries[0] {
            Entry::Directory(d) => {
                if d.next_index != n as u64 || d.parent_index > 0xffff_ffff {
                    return false;
                }
            },
            Entry::File(_) => {
                return false;
            },
        }
        let ghost entries = self.entries@;
        let mut files: u64 = 0;
        let mut size: usize = 0;
        let mut i: usize = 0;
        while i < n
            invariant
                entries == self.entries@,
                n == entries.len(),
                1 <= n <= u32::MAX,
                0 <= i <= n,
                forall|j: int| 0 <= j < i ==> entry_wf(#[trigger] entries[j], j, n as int),
                forall|j: int| 0 <= j < i ==> nonzero(entry_name(#[trigger] entries[j])),
                files == count_files(entries, i as int),
                files <= i,
                size == names_size(entries, i as int),
                size <= 0x100_0000,
            decreases n - i,
        {
            let fine = match &self.entries[i] {
                Entry::File(f) => f.index == i as u64 && f.file_offset <= 0xffff_ffff && f.length
                    <= 0xffff_ffff,
                Entry::Directory(d) => d.index == i as u64 && (i as u64) < d.next_index
                    && d.next_index <= n as u64 && (i == 0 || d.parent_index < i as u64),
            };
            if !fine {
                assert(!entry_wf(entries[i as int], i as int, n as int));
                return false;
            }
            let name = self.entries[i].name();
            if !no_zero(name.as_slice()) {
                assert(!nonzero(entry_name(entries[i as int])));
                return false;
            }
            if name.len() >= 0x100_0000 - size {
                proof {
                    lemma_names_size_grows(entries, i + 1, n as int);
                }
                return false;
            }
            size = size + name.len() + 1;
            match &self.entries[i] {
                Entry::File(_) => {
                    files = files + 1;
                },
                Entry::Directory(_) => {},
            }
            i = i + 1;
        }
        files == self.file_count
    }
}

/// Four bytes that spell a flag in the highest byte and an offset in the
/// three below hold the flag first, and spell the offset without it.
pub proof fn lemma_top_byte(s: Seq<u8>, flag: int, offset: int)
    requires
        s.len() == 4,
        0 <= flag <= 255,
        0 <= offset < 0x100_0000,
        be_u32(s) == flag * 0x100_0000 + offset,
    ensures
        s[0] == flag,
        be_u32(s) % 0x100_0000 == offset,
{
}

/// The table and the names with one more entry behind them spell the
/// entries up to that one.
pub proof fn lemma_entry_appended(
    entries: Seq<Entry>,
    i: int,
    table: Seq<u8>,
    names: Seq<u8>,
    s0: Seq<u8>,
    s1: Seq<u8>,
    s2: Seq<u8>,
)
    requires
        0 <= i < entries.len(),
        table.len() == 12 * i,
        names.len() == names_size(entries, i),
        s0.len() == 4,
        s1.len() == 4,
        s2.len() == 4,
        s0[0] == flag_for(entries[i]),
        be_u32(s0) % 0x100_0000 == names_size(entries, i),
        be_u32(s1) == words_for(entries[i]).0,
        be_u32(s2) == words_for(entries[i]).1,
        forall|j: int|
            0 <= j < i ==> #[trigger] entry_spelled(table, entries, j),
        forall|j: int|
            0 <= j < i ==> #[trigger] entry_named(names, entries, j),
    ensures
        forall|j: int|
            0 <= j < i + 1 ==> #[trigger] entry_spelled(table + s0 + s1 + s2, entries, j),
        forall|j: int|
            0 <= j < i + 1 ==> #[trigger] entry_named(
                names + entry_name(entries[i]) + seq![0u8],
                entries,
                j,
            ),
{
    let new_table = table + s0 + s1 + s2;
    let new_names = names + entry_name(entries[i]) + seq![0u8];
    assert forall|j: int| 0 <= j < i + 1 implies #[trigger] entry_spelled(new_table, entries, j) by {
        let chunk = new_table.subrange(12 * j, 12 * j + 12);
        if j < i {
            assert(entry_spelled(table, entries, j));
            assert(chunk =~= table.subrange(12 * j, 12 * j + 12));
        } else {
            assert(chunk =~= s0 + s1 + s2);
            assert(chunk.subrange(0, 4) =~= s0);
            assert(chunk.subrange(4, 8) =~= s1);
            assert(chunk.subrange(8, 12) =~= s2);
        }
    }
    lemma_names_size_min(entries, i);
    assert forall|j: int| 0 <= j < i + 1 implies #[trigger] entry_named(new_names, entries, j) by {
        let o = names_size(entries, j);
        let l = entry_name(entries[j]).len() as int;
        if j < i {
            assert(entry_named(names, entries, j));
            assert(name_stands(names, entries[j], o));
            assert(new_names.subrange(o, o + l) =~= names.subrange(o, o + l));
        } else {
            assert(new_names.subrange(o, o + l) =~= entry_name(entries[i]));
        }
    }
}

/// A table and names that spell the entries of a writable table decode to
/// those entries.
pub proof fn lemma_encoding_decodes(entries: Seq<Entry>, table: Seq<u8>, names: Seq<u8>)
    requires
        entries.len() >= 1,
        entries.len() <= u32::MAX,
        table.len() == 12 * entries.len(),
        names.len() == names_size(entries, entries.len() as int),
        words_for(entries[0]).1 == entries.len(),
        entries[0] is Directory,
        forall|i: int|
            0 <= i < entries.len() ==> entry_wf(
                #[trigger] entries[i],
                i,
                entries.len() as int,
            ),
        forall|i: int| 0 <= i < entries.len() ==> nonzero(entry_name(#[trigger] entries[i])),
        forall|j: int|
            0 <= j < entries.len() ==> #[trigger] entry_spelled(table, entries, j),
        forall|j: int|
            0 <= j < entries.len() ==> #[trigger] entry_named(names, entries, j),
    ensures
        FST::decodable(table + names, 0),
        entry_count(table + names, 0) == entries.len(),
        forall|i: int|
            0 <= i < entries.len() ==> entry_decodes(#[trigger] entries[i], table + names, 0, i),
        spells(table + names, entries),
{
    let out = table + names;
    let n = entries.len() as int;
    assert(entry_spelled(table, entries, 0));
    lemma_words_decode(entries, table, names, 0);
    assert(third_word(out, 0, 0) == entry_count(out, 0));
    assert(entry_spelled(table, entries, 0));
    assert forall|j: int| 0 <= j < n implies #[trigger] entry_ok(out, 0, j) by {
        assert(entry_spelled(table, entries, j));
        assert(entry_named(names, entries, j));
        lemma_entry_decodes(entries, table, names, j);
    }
    assert forall|j: int| 0 <= j < n implies entry_decodes(#[trigger] entries[j], out, 0, j) by {
        assert(entry_spelled(table, entries, j));
        assert(entry_named(names, entries, j));
        lemma_entry_decodes(entries, table, names, j);
    }
    assert(table_in_bounds(out, 0));
    assert forall|j: int| 0 <= j < n implies #[trigger] entry_laid(out, entries, j) by {
        assert(entry_spelled(table, entries, j));
        assert(entry_named(names, entries, j));
        lemma_entry_decodes(entries, table, names, j);
        lemma_words_decode(entries, table, names, j);
        lemma_name_decodes(entries, table, names, j);
    }
}

/// The words of entry `j` are read back as they were written.
pub proof fn lemma_words_decode(entries: Seq<Entry>, table: Seq<u8>, names: Seq<u8>, j: int)
    requires
        0 <= j < entries.len(),
        table.len() == 12 * entries.len(),
        chunk_spells(table.subrange(12 * j, 12 * j + 12), entries[j], names_size(entries, j)),
    ensures
        flag_of(table + names, 0, j) == flag_for(entries[j]),
        u32_at(table + names, 12 * j) % 0x100_0000 == names_size(entries, j),
        second_word(table + names, 0, j) == words_for(entries[j]).0,
        third_word(table + names, 0, j) == words_for(entries[j]).1,
{
    let out = table + names;
    let chunk = table.subrange(12 * j, 12 * j + 12);
    assert(out.subrange(12 * j, 12 * j + 4) =~= chunk.subrange(0, 4));
    assert(out.subrange(12 * j + 4, 12 * j + 8) =~= chunk.subrange(4, 8));
    assert(out.subrange(12 * j + 8, 12 * j + 12) =~= chunk.subrange(8, 12));
    assert(out[12 * j] == chunk[0]);
}

/// Entry `j` is read back as it was written.
pub proof fn lemma_entry_decodes(entries: Seq<Entry>, table: Seq<u8>, names: Seq<u8>, j: int)
    requires
        0 <= j < entries.len(),
        table.len() == 12 * entries.len(),
        entry_count(table + names, 0) == entries.len(),
        entries[0] is Directory,
        entry_wf(entries[j], j, entries.len() as int),
        nonzero(entry_name(entries[j])),
        chunk_spells(table.subrange(12 * j, 12 * j + 12), entries[j], names_size(entries, j)),
        name_stands(names, entries[j], names_size(entries, j)),
    ensures
        entry_ok(table + names, 0, j),
        entry_decodes(entries[j], table + names, 0, j),
{
    lemma_words_decode(entries, table, names, j);
    lemma_name_decodes(entries, table, names, j);
}

/// The name of entry `j` is read back from where it was written.
pub proof fn lemma_name_decodes(entries: Seq<Entry>, table: Seq<u8>, names: Seq<u8>, j: int)
    requires
        0 <= j < entries.len(),
        table.len() == 12 * entries.len(),
        entry_count(table + names, 0) == entries.len(),
        u32_at(table + names, 12 * j) % 0x100_0000 == names_size(entries, j),
        nonzero(entry_name(entries[j])),
        name_stands(names, entries[j], names_size(entries, j)),
    ensures
        name_start(table + names, 0, j) == 12 * entries.len() + names_size(entries, j),
        name_end(table + names, name_start(table + names, 0, j)) < (table + names).len(),
        name_of(table + names, 0, j) == entry_name(entries[j]),
{
    let out = table + names;
    let n = entries.len() as int;
    let o = names_size(entries, j);
    let l = entry_name(entries[j]).len() as int;
    assert(name_start(out, 0, j) == 12 * n + o);
    assert forall|k: int| 12 * n + o <= k < 12 * n + o + l implies out[k] != 0 by {
        assert(out[k] == names.subrange(o, o + l)[k - 12 * n - o]);
    }
    lemma_name_ends_at_zero(out, 12 * n + o, l);
    assert(name_of(out, 0, j) =~= entry_name(entries[j]));
}

/// The names of more entries take no less room.
pub proof fn lemma_names_size_grows(entries: Seq<Entry>, k: int, n: int)
    requires
        0 <= k <= n,
    ensures
        0 <= names_size(entries, k) <= names_size(entries, n),
        k < n ==> names_size(entries, k) < names_size(entries, n),
    decreases n - k,
{
    if k < n {
        lemma_names_size_grows(entries, k, n - 1);
    } else {
        lemma_names_size_min(entries, n);
    }
}

/// Names take no negative room.
pub proof fn lemma_names_size_min(entries: Seq<Entry>, n: int)
    ensures
        0 <= names_size(entries, n),
    decreases n,
{
    if n > 0 {
        lemma_names_size_min(entries, n - 1);
    }
}

/// Whether `b` is `a` with `length` for its length, where it is a file,
/// and `a` itself where it is a directory.
pub open spec fn resized(a: Entry, b: Entry, length: u64) -> bool {
    match (a, b) {
        (Entry::File(f), Entry::File(g)) => g.index == f.index && g.name@ == f.name@
            && g.file_offset == f.file_offset && g.length == length,
        (Entry::Directory(d), Entry::Directory(e)) => e.index == d.index && e.name@ == d.name@
            && e.parent_index == d.parent_index && e.next_index == d.next_index,
        _ => false,
    }
}

/// Whether `lengths` gives each file of `entries` a length that the table
/// can hold.
pub open spec fn lengths_fit(entries: Seq<Entry>, lengths: Seq<u64>) -> bool {
    &&& lengths.len() == entries.len()
    &&& forall|i: int|
        0 <= i < entries.len() && (#[trigger] entries[i]) is File ==> lengths[i] <= u32::MAX
}

/// Tables whose entries are of the same kinds hold as many files.
pub proof fn lemma_count_files_resized(a: Seq<Entry>, b: Seq<Entry>, lengths: Seq<u64>, n: int)
    requires
        0 <= n <= a.len(),
        n <= b.len(),
        n <= lengths.len(),
        forall|i: int| 0 <= i < n ==> resized(a[i], #[trigger] b[i], lengths[i]),
    ensures
        count_files(a, n) == count_files(b, n),
    decreases n,
{
    if n > 0 {
        lemma_count_files_resized(a, b, lengths, n - 1);
        assert(resized(a[n - 1], b[n - 1], lengths[n - 1]));
    }
}

impl FST {
    /// The table for the same tree with the files as long as they are now:
    /// every entry keeps its place, its name and, where it is a file, its
    /// offset, and file `i` gets the length `lengths[i]`. What `lengths`
    /// holds at the place of a directory is not read.
    pub fn with_lengths(&self, lengths: &Vec<u64>) -> (r: Result<FST, Error>)
        requires
            self.wf(),
        ensures
            r.is_ok() <==> lengths_fit(self.entries@, lengths@),
            r matches Ok(t) ==> {
                &&& t.wf()
                &&& t.offset == self.offset
                &&& t.size == self.size
                &&& t.file_count == self.file_count
                &&& t.entries@.len() == self.entries@.len()
                &&& forall|i: int|
                    0 <= i < t.entries@.len() ==> resized(
                        self.entries@[i],
                        #[trigger] t.entries@[i],
                        lengths@[i],
                    )
            },
            r matches Err(e) ==> e == Error::Malformed,
    {
        let n: usize = self.entries.len();
        if lengths.len() != n {
            return Err(Error::Malformed);
        }
        let mut entries: Vec<Entry> = Vec::new();
        let mut i: usize = 0;
        while i < n
            invariant
                self.wf(),
                n == self.entries@.len(),
                n == lengths@.len(),
                0 <= i <= n,
                entries@.len() == i,
                forall|j: int|
                    0 <= j < i ==> resized(self.entries@[j], #[trigger] entries@[j], lengths@[j]),
                forall|j: int| 0 <= j < i ==> entry_wf(#[trigger] entries@[j], j, n as int),
                forall|j: int|
                    0 <= j < i && (#[trigger] self.entries@[j]) is File ==> lengths@[j]
                        <= u32::MAX,
            decreases n - i,
        {
            assert(entry_wf(self.entries@[i as int], i as int, n as int));
            match &self.entries[i] {
                Entry::File(f) => {
                    if lengths[i] > 0xffff_ffff {
                        return Err(Error::Malformed);
                    }
                    entries.push(
                        Entry::File(
                            FileEntry {
                                index: f.index,
                                name: f.name.clone(),
                                file_offset: f.file_offset,
                                length: lengths[i],
                            },
                        ),
                    );
                },
                Entry::Directory(d) => {
                    entries.push(
                        Entry::Directory(
                            DirectoryEntry {
                                index: d.index,
                                name: d.name.clone(),
                                parent_index: d.parent_index,
                                next_index: d.next_index,
                            },
                        ),
                    );
                },
            }
            i = i + 1;
        }
        proof {
            lemma_count_files_resized(self.entries@, entries@, lengths@, n as int);
            assert(resized(self.entries@[0], entries@[0], lengths@[0]));
        }
        Ok(FST { offset: self.offset, entries, file_count: self.file_count, size: self.size })
    }
}

/// Entries with the same names take the same room for their names.
pub proof fn lemma_names_size_resized(a: Seq<Entry>, b: Seq<Entry>, lengths: Seq<u64>, n: int)
    requires
        0 <= n <= a.len(),
        n <= b.len(),
        n <= lengths.len(),
        forall|i: int| 0 <= i < n ==> resized(a[i], #[trigger] b[i], lengths[i]),
    ensures
        names_size(a, n) == names_size(b, n),
    decreases n,
{
    if n > 0 {
        lemma_names_size_resized(a, b, lengths, n - 1);
        assert(resized(a[n - 1], b[n - 1], lengths[n - 1]));
    }
}

/// A table with other lengths can be written exactly when the table it
/// came from can.
pub proof fn lemma_writable_resized(a: FST, b: FST, lengths: Seq<u64>)
    requires
        a.wf(),
        b.wf(),
        a.entries@.len() == b.entries@.len(),
        lengths.len() == a.entries@.len(),
        forall|i: int|
            0 <= i < a.entries@.len() ==> resized(a.entries@[i], #[trigger] b.entries@[i], lengths[i]),
    ensures
        a.writable() == b.writable(),
{
    let n = a.entries@.len() as int;
    lemma_names_size_resized(a.entries@, b.entries@, lengths, n);
    assert(resized(a.entries@[0], b.entries@[0], lengths[0]));
    if a.writable() {
        assert forall|i: int| 0 <= i < n implies nonzero(entry_name(#[trigger] b.entries@[i])) by {
            assert(resized(a.entries@[i], b.entries@[i], lengths[i]));
            assert(nonzero(entry_name(a.entries@[i])));
        }
    }
    if b.writable() {
        assert forall|i: int| 0 <= i < n implies nonzero(entry_name(#[trigger] a.entries@[i])) by {
            assert(resized(a.entries@[i], b.entries@[i], lengths[i]));
            assert(nonzero(entry_name(b.entries@[i])));
        }
    }
}

/// Whether `bytes` holds entry `i` of `entries` where a table with the
/// names in the order of the entries holds it.
pub open spec fn entry_laid(bytes: Seq<u8>, entries: Seq<Entry>, i: int) -> bool {
    &&& entry_decodes(entries[i], bytes, 0, i)
    &&& name_start(bytes, 0, i) == 12 * entries.len() + names_size(entries, i)
    &&& name_end(bytes, name_start(bytes, 0, i)) < bytes.len()
}

/// Whether `bytes` is the table of `entries` with the names in the order
/// of the entries, each ended by a zero byte, and nothing else.
pub open spec fn spells(bytes: Seq<u8>, entries: Seq<Entry>) -> bool {
    &&& bytes.len() == 12 * entries.len() + names_size(entries, entries.len() as int)
    &&& entry_count(bytes, 0) == entries.len()
    &&& forall|i: int| 0 <= i < entries.len() ==> #[trigger] entry_laid(bytes, entries, i)
}

/// Four bytes are known by the number they spell.
pub proof fn lemma_be_u32_is_one_to_one(x: Seq<u8>, y: Seq<u8>)
    requires
        x.len() == 4,
        y.len() == 4,
        be_u32(x) == be_u32(y),
    ensures
        x == y,
{
    assert(x[3] == y[3]);
    assert(x[2] == y[2]);
    assert(x[1] == y[1]);
    assert(x[0] == y[0]);
    assert(x =~= y);
}

/// Four bytes are known by their first byte and the number that the
/// other three spell.
pub proof fn lemma_first_word_is_one_to_one(x: Seq<u8>, y: Seq<u8>)
    requires
        x.len() == 4,
        y.len() == 4,
        x[0] == y[0],
        be_u32(x) % 0x100_0000 == be_u32(y) % 0x100_0000,
    ensures
        x == y,
{
    let rx = x[1] as int * 0x1_0000 + x[2] as int * 0x100 + x[3] as int;
    let ry = y[1] as int * 0x1_0000 + y[2] as int * 0x100 + y[3] as int;
    assert(be_u32(x) == x[0] as int * 0x100_0000 + rx);
    assert(be_u32(y) == y[0] as int * 0x100_0000 + ry);
    assert(be_u32(x) % 0x100_0000 == rx);
    assert(be_u32(y) % 0x100_0000 == ry);
    lemma_be_u32_is_one_to_one(x, y);
}

/// The byte at which a name ends within the image is zero.
pub proof fn lemma_name_end_is_zero(image: Seq<u8>, pos: int)
    requires
        0 <= pos,
        name_end(image, pos) < image.len(),
    ensures
        pos <= name_end(image, pos),
        image[name_end(image, pos)] == 0,
    decreases image.len() - pos,
{
    if pos < image.len() && image[pos] != 0 {
        lemma_name_end_is_zero(image, pos + 1);
    }
}

/// The twelve bytes of entry `j` are the same in two tables that spell
/// the same entries.
pub proof fn lemma_entry_bytes_agree(a: Seq<u8>, b: Seq<u8>, entries: Seq<Entry>, j: int)
    requires
        0 <= j < entries.len(),
        spells(a, entries),
        spells(b, entries),
    ensures
        a.subrange(12 * j, 12 * j + 12) == b.subrange(12 * j, 12 * j + 12),
{
    lemma_names_size_min(entries, entries.len() as int);
    assert(entry_laid(a, entries, j));
    assert(entry_laid(b, entries, j));
    let a0 = a.subrange(12 * j, 12 * j + 4);
    let b0 = b.subrange(12 * j, 12 * j + 4);
    assert(a0[0] == a[12 * j]);
    assert(b0[0] == b[12 * j]);
    assert(flag_of(a, 0, j) == flag_of(b, 0, j));
    lemma_first_word_is_one_to_one(a0, b0);
    let a1 = a.subrange(12 * j + 4, 12 * j + 8);
    let b1 = b.subrange(12 * j + 4, 12 * j + 8);
    assert(second_word(a, 0, j) == second_word(b, 0, j));
    lemma_be_u32_is_one_to_one(a1, b1);
    let a2 = a.subrange(12 * j + 8, 12 * j + 12);
    let b2 = b.subrange(12 * j + 8, 12 * j + 12);
    assert(third_word(a, 0, j) == third_word(b, 0, j));
    lemma_be_u32_is_one_to_one(a2, b2);
    let sa = a.subrange(12 * j, 12 * j + 12);
    let sb = b.subrange(12 * j, 12 * j + 12);
    assert forall|k: int| 0 <= k < 12 implies #[trigger] sa[k] == sb[k] by {
        if k < 4 {
            assert(sa[k] == a0[k]);
            assert(sb[k] == b0[k]);
        } else if k < 8 {
            assert(sa[k] == a1[k - 4]);
            assert(sb[k] == b1[k - 4]);
        } else {
            assert(sa[k] == a2[k - 8]);
            assert(sb[k] == b2[k - 8]);
        }
    }
    assert(sa =~= sb);
}

/// A table that spells its entries holds the name of entry `j` where the
/// names before it end, and a zero byte behind it.
pub proof fn lemma_name_bytes(x: Seq<u8>, entries: Seq<Entry>, j: int)
    requires
        0 <= j < entries.len(),
        spells(x, entries),
    ensures
        0 <= names_size(entries, j),
        12 * entries.len() + names_size(entries, j + 1) <= x.len(),
        x.subrange(
            12 * entries.len() + names_size(entries, j),
            12 * entries.len() + names_size(entries, j + 1) - 1,
        ) == entry_name(entries[j]),
        x[12 * entries.len() + names_size(entries, j + 1) - 1] == 0,
{
    let n = entries.len() as int;
    let start = 12 * n + names_size(entries, j);
    lemma_names_size_min(entries, j);
    lemma_names_size_grows(entries, j + 1, n);
    assert(entry_laid(x, entries, j));
    lemma_name_end_is_zero(x, start);
    let end = name_end(x, start);
    assert(name_of(x, 0, j) == x.subrange(start, end));
    assert(x.subrange(start, end).len() == end - start);
}

/// The entry in whose name, or on the zero byte behind it, place `q` among
/// the names lies.
pub proof fn lemma_name_at(entries: Seq<Entry>, n: int, q: int) -> (j: int)
    requires
        0 <= n <= entries.len(),
        0 <= q < names_size(entries, n),
    ensures
        0 <= j < n,
        names_size(entries, j) <= q < names_size(entries, j + 1),
    decreases n,
{
    if q >= names_size(entries, n - 1) {
        n - 1
    } else {
        lemma_name_at(entries, n - 1, q)
    }
}

/// Two tables that spell the same entries, with the names in the order of
/// the entries and nothing else, are the same bytes.
pub proof fn lemma_spelling_is_unique(a: Seq<u8>, b: Seq<u8>, entries: Seq<Entry>)
    requires
        spells(a, entries),
        spells(b, entries),
    ensures
        a == b,
{
    let n = entries.len() as int;
    lemma_names_size_min(entries, n);
    assert forall|p: int| 0 <= p < a.len() implies a[p] == b[p] by {
        if p < 12 * n {
            let j = p / 12;
            assert(12 * j <= p < 12 * j + 12);
            assert(0 <= j < n);
            lemma_entry_bytes_agree(a, b, entries, j);
            assert(a[p] == a.subrange(12 * j, 12 * j + 12)[p - 12 * j]);
            assert(b[p] == b.subrange(12 * j, 12 * j + 12)[p - 12 * j]);
        } else {
            let q = p - 12 * n;
            let j = lemma_name_at(entries, n, q);
            lemma_name_bytes(a, entries, j);
            lemma_name_bytes(b, entries, j);
            let k = q - names_size(entries, j);
            let lo = 12 * n + names_size(entries, j);
            let hi = 12 * n + names_size(entries, j + 1) - 1;
            if p < hi {
                assert(a[p] == a.subrange(lo, hi)[k]);
                assert(b[p] == b.subrange(lo, hi)[k]);
            }
        }
    }
    assert(a =~= b);
}

/// Writing a table gives back the bytes it was decoded from: where `image`
/// is a table's file, holds the names in the order of the entries, each
/// ended by a zero byte, and nothing else, and `written` is what `write`
/// appends for the table decoded from it, `written` is `image`.
pub proof fn lemma_write_reproduces(fst: FST, image: Seq<u8>, written: Seq<u8>)
    requires
        FST::decodable(image, 0),
        fst.decodes(image, 0),
        image.len() == 12 * fst.entries@.len() + names_size(
            fst.entries@,
            fst.entries@.len() as int,
        ),
        forall|i: int|
            0 <= i < fst.entries@.len() ==> #[trigger] name_start(image, 0, i) == 12
                * fst.entries@.len() + names_size(fst.entries@, i),
        spells(written, fst.entries@),
    ensures
        written == image,
{
    let entries = fst.entries@;
    assert forall|i: int| 0 <= i < entries.len() implies #[trigger] entry_laid(
        image,
        entries,
        i,
    ) by {
        assert(entry_ok(image, 0, i));
        assert(entry_decodes(entries[i], image, 0, i));
        assert(name_start(image, 0, i) == 12 * entries.len() + names_size(entries, i));
    }
    lemma_spelling_is_unique(written, image, entries);
}

/// Whether table and header can be made anew for a tree whose files have
/// the lengths `lengths`: the lengths fit, the table can be written, and
/// what is written is no longer than a header can say.
pub open spec fn regenerable(fst: FST, lengths: Seq<u64>) -> bool {
    &&& lengths_fit(fst.entries@, lengths)
    &&& fst.writable()
    &&& 12 * fst.entries@.len() + names_size(fst.entries@, fst.entries@.len() as int)
        <= u32::MAX
}

impl Game {
    /// Makes the table and the header anew for a tree whose files have the
    /// lengths `lengths`. The table is made first, from the old table and the
    /// lengths, and appended to `table`. The header is made last, since it holds
    /// the size of the table: it is the old header with that size, and is
    /// appended to `header`. Where either cannot be made, nothing is appended.
    pub fn rebuild_systemdata(
        old_header: &Header,
        old_fst: &FST,
        lengths: &Vec<u64>,
        table: &mut Vec<u8>,
        header: &mut Vec<u8>,
    ) -> (r: Result<(FST, Header), Error>)
        requires
            old_header.wf(),
            old_fst.wf(),
        ensures
            r.is_ok() <==> regenerable(*old_fst, lengths@),
            r matches Ok(made) ==> {
                let written = final(table)@.subrange(
                    old(table)@.len() as int,
                    final(table)@.len() as int,
                );
                &&& made.0.wf()
                &&& made.0.entries@.len() == old_fst.entries@.len()
                &&& forall|i: int|
                    0 <= i < made.0.entries@.len() ==> resized(
                        old_fst.entries@[i],
                        #[trigger] made.0.entries@[i],
                        lengths@[i],
                    )
                &&& final(table)@.subrange(0, old(table)@.len() as int) == old(table)@
                &&& FST::decodable(written, 0)
                &&& spells(written, made.0.entries@)
                &&& forall|i: int|
                    0 <= i < made.0.entries@.len() ==> entry_decodes(
                        #[trigger] made.0.entries@[i],
                        written,
                        0,
                        i,
                    )
                &&& made.1.wf()
                &&& made.1.fst_size == written.len()
                &&& made.1.fst_offset == old_header.fst_offset
                &&& made.1.dol_offset == old_header.dol_offset
                &&& made.1.raw@.subrange(0, 0x420) == old_header.raw@.subrange(0, 0x420)
                &&& made.1.raw@.subrange(0x42c, 0x2440) == old_header.raw@.subrange(0x42c, 0x2440)
                &&& final(header)@ == old(header)@ + made.1.raw@
            },
            r matches Err(e) ==> e == Error::Malformed && final(table)@ == old(table)@,
            r.is_err() ==> final(header)@ == old(header)@,
    {
        let new_fst = match old_fst.with_lengths(lengths) {
            Ok(t) => t,
            Err(e) => {
                return Err(e);
            },
        };
        proof {
            lemma_writable_resized(*old_fst, new_fst, lengths@);
            lemma_names_size_resized(
                old_fst.entries@,
                new_fst.entries@,
                lengths@,
                old_fst.entries@.len() as int,
            );
        }
        if !new_fst.is_writable() {
            return Err(Error::Malformed);
        }
        let mut bytes: Vec<u8> = Vec::new();
        new_fst.write(&mut bytes);
        assert(bytes@.subrange(0, bytes@.len() as int) =~= bytes@);
        if bytes.len() > 0xffff_ffff {
            return Err(Error::Malformed);
        }
        let new_header = old_header.rebuild(
            old_header.dol_offset as u32,
            old_header.fst_offset as u32,
            bytes.len() as u32,
        );
        let ghost before = table@;
        let ghost enc = bytes@;
        table.append(&mut bytes);
        assert(table@.subrange(before.len() as int, table@.len() as int) =~= enc);
        assert(table@.subrange(0, before.len() as int) =~= before);
        new_header.write(header);
        Ok((new_fst, new_header))
    }
}

} // verus!
