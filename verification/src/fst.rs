use vstd::prelude::*;
use crate::bytes::{in_bounds, read_bytes_at, read_u32_at, read_u8_at, u32_at};
use crate::error::Error;
use crate::layout::{apart, pairwise_disjoint, sections_apart};
use crate::layout_section::{
    views_of, LayoutSection, SectionType, SectionView, UniqueLayoutSection, UniqueSectionType,
};
use crate::names::{fst_name, name_bytes};

verus! {

/// The size of one entry of the table.
pub const ENTRY_SIZE: u64 = 12;

/// A file of the disc: its name, and where its bytes stand in the image.
#[derive(Debug, Clone, PartialEq, Eq)]
pub struct FileEntry {
    pub index: u64,
    pub name: Vec<u8>,
    pub file_offset: u64,
    pub length: u64,
}

/// A directory of the disc: its name, the entry of the directory it lies
/// in, and the index of the first entry behind everything it holds.
#[derive(Debug, Clone, PartialEq, Eq)]
pub struct DirectoryEntry {
    pub index: u64,
    pub name: Vec<u8>,
    pub parent_index: u64,
    pub next_index: u64,
}

/// One entry of the table.
#[derive(Debug, Clone, PartialEq, Eq)]
pub enum Entry {
    File(FileEntry),
    Directory(DirectoryEntry),
}

/// The file-system table: its entries in the order in which the image
/// stores them, the root directory first.
#[derive(Debug, Clone, PartialEq, Eq)]
pub struct FST {
    pub offset: u64,
    pub entries: Vec<Entry>,
    pub file_count: u64,
    pub size: u64,
}

/// How many entries the table at `offset` declares: the root directory's
/// next index.
pub open spec fn entry_count(image: Seq<u8>, offset: int) -> int {
    u32_at(image, offset + 8)
}

/// The flag of entry `i`: 0 for a file, 1 for a directory.
pub open spec fn flag_of(image: Seq<u8>, offset: int, i: int) -> u8 {
    image[offset + 12 * i]
}

/// The second word of entry `i`: a file's offset, a directory's parent.
pub open spec fn second_word(image: Seq<u8>, offset: int, i: int) -> int {
    u32_at(image, offset + 12 * i + 4)
}

/// The third word of entry `i`: a file's length, a directory's next index.
pub open spec fn third_word(image: Seq<u8>, offset: int, i: int) -> int {
    u32_at(image, offset + 12 * i + 8)
}

/// Where the name of entry `i` starts in the image: behind the entries, as
/// far into the names as the low three bytes of the entry's first word say.
pub open spec fn name_start(image: Seq<u8>, offset: int, i: int) -> int {
    offset + 12 * entry_count(image, offset) + u32_at(image, offset + 12 * i) % 0x100_0000
}

/// Where the name that starts at `pos` ends: at the first zero byte from
/// `pos` on, or at the end of the image when there is none.
pub open spec fn name_end(image: Seq<u8>, pos: int) -> int
    decreases image.len() - pos,
{
    if pos < 0 || pos >= image.len() {
        image.len() as int
    } else if image[pos] == 0 {
        pos
    } else {
        name_end(image, pos + 1)
    }
}

/// The name of entry `i`, without the zero byte that ends it.
pub open spec fn name_of(image: Seq<u8>, offset: int, i: int) -> Seq<u8> {
    image.subrange(name_start(image, offset, i), name_end(image, name_start(image, offset, i)))
}

/// Whether the image holds the whole array of entries that the table at
/// `offset` declares.
pub open spec fn table_in_bounds(image: Seq<u8>, offset: int) -> bool {
    in_bounds(image, offset, 12) && in_bounds(image, offset, 12 * entry_count(image, offset))
}

/// Whether entry `i` is well formed: it is a file or a directory, the first
/// entry is a directory, a directory's parent stands before it and its next
/// index lies behind it and within the array, and its name ends in the image.
pub open spec fn entry_ok(image: Seq<u8>, offset: int, i: int) -> bool {
    let flag = flag_of(image, offset, i);
    &&& flag == 0 || flag == 1
    &&& i == 0 ==> flag == 1
    &&& flag == 1 ==> i < third_word(image, offset, i) <= entry_count(image, offset)
    &&& flag == 1 && i > 0 ==> second_word(image, offset, i) < i
    &&& name_end(image, name_start(image, offset, i)) < image.len()
}

/// Whether `e` is entry `i` of the table, field for field.
pub open spec fn entry_decodes(e: Entry, image: Seq<u8>, offset: int, i: int) -> bool {
    match e {
        Entry::File(f) => {
            &&& flag_of(image, offset, i) == 0
            &&& f.index == i
            &&& f.name@ == name_of(image, offset, i)
            &&& f.file_offset == second_word(image, offset, i)
            &&& f.length == third_word(image, offset, i)
        },
        Entry::Directory(d) => {
            &&& flag_of(image, offset, i) == 1
            &&& d.index == i
            &&& d.name@ == name_of(image, offset, i)
            &&& d.parent_index == second_word(image, offset, i)
            &&& d.next_index == third_word(image, offset, i)
        },
    }
}

/// Whether `e` can stand at place `i` of a table of `count` entries: it
/// knows its place, a file's offset and length fit in 32 bits, a directory's
/// next index lies behind it and within the table, and its parent before it.
pub open spec fn entry_wf(e: Entry, i: int, count: int) -> bool {
    match e {
        Entry::File(f) => f.index == i && f.file_offset <= u32::MAX && f.length <= u32::MAX,
        Entry::Directory(d) => d.index == i && i < d.next_index <= count && (i > 0
            ==> d.parent_index < i),
    }
}

/// A name ends at or behind its start, and within the image.
pub proof fn lemma_name_end_bounds(image: Seq<u8>, pos: int)
    requires
        0 <= pos,
    ensures
        pos <= image.len() ==> pos <= name_end(image, pos),
        name_end(image, pos) <= image.len(),
    decreases image.len() - pos,
{
    if pos < image.len() && image[pos] != 0 {
        lemma_name_end_bounds(image, pos + 1);
    }
}

/// How many of the first `n` entries are files.
pub open spec fn count_files(entries: Seq<Entry>, n: int) -> int
    decreases n,
{
    if n <= 0 {
        0
    } else {
        count_files(entries, n - 1) + if entries[n - 1] is File {
            1int
        } else {
            0int
        }
    }
}

/// How far the table reaches from `offset`: to the end of the farthest of
/// the first `n` names, its zero byte counted, and to the end of the entries
/// at least.
pub open spec fn names_limit(image: Seq<u8>, offset: int, n: int) -> int
    decreases n,
{
    if n <= 0 {
        12 * entry_count(image, offset)
    } else {
        let rest = names_limit(image, offset, n - 1);
        let end = name_end(image, name_start(image, offset, n - 1)) + 1 - offset;
        if end > rest {
            end
        } else {
            rest
        }
    }
}

/// The regions of the files among the first `n` entries, in the order of
/// the entries.
pub open spec fn file_sections(entries: Seq<Entry>, n: int) -> Seq<SectionView>
    decreases n,
{
    if n <= 0 {
        Seq::empty()
    } else {
        match entries[n - 1] {
            Entry::File(f) => file_sections(entries, n - 1).push(f.region()),
            Entry::Directory(_) => file_sections(entries, n - 1),
        }
    }
}

/// Reads the name that starts at `pos`: the bytes up to the first zero byte.
/// There is none when the image ends before a zero byte comes.
pub fn read_name(image: &[u8], pos: u64) -> (r: Option<Vec<u8>>)
    ensures
        r.is_some() <==> name_end(image@, pos as int) < image@.len(),
        r.is_some() ==> r.unwrap()@ == image@.subrange(pos as int, name_end(image@, pos as int)),
{
    let n: usize = image.len();
    if pos >= n as u64 {
        return None;
    }
    let mut p: usize = pos as usize;
    let mut out: Vec<u8> = Vec::new();
    while p < n
        invariant
            n == image@.len(),
            pos <= p <= n,
            name_end(image@, pos as int) == name_end(image@, p as int),
            out@ == image@.subrange(pos as int, p as int),
        decreases n - p,
    {
        let b: u8 = image[p];
        if b == 0 {
            return Some(out);
        }
        let ghost before = out@;
        out.push(b);
        assert(out@ =~= image@.subrange(pos as int, p + 1));
        p = p + 1;
    }
    None
}

impl FileEntry {
    /// The file as a region of the image.
    pub open spec fn region(&self) -> SectionView {
        SectionView {
            start: self.file_offset,
            length: self.length,
            name: self.name@,
            kind: SectionType::File,
        }
    }

    /// The file as a region of the image.
    pub fn section(&self) -> (r: LayoutSection)
        ensures
            r@ == self.region(),
    {
        LayoutSection {
            start: self.file_offset,
            length: self.length,
            name: self.name.clone(),
            kind: SectionType::File,
        }
    }
}

impl Entry {
    /// The entry's name.
    pub fn name(&self) -> (r: &Vec<u8>)
        ensures
            r@ == (match *self {
                Entry::File(f) => f.name@,
                Entry::Directory(d) => d.name@,
            }),
    {
        match self {
            Entry::File(f) => &f.name,
            Entry::Directory(d) => &d.name,
        }
    }

    /// The entry as a file, if it is one.
    pub fn as_file(&self) -> (r: Option<&FileEntry>)
        ensures
            r.is_some() <==> *self is File,
            r.is_some() ==> *self == Entry::File(*r.unwrap()),
    {
        match self {
            Entry::File(f) => Some(f),
            Entry::Directory(_) => None,
        }
    }

    /// The entry as a directory, if it is one.
    pub fn as_dir(&self) -> (r: Option<&DirectoryEntry>)
        ensures
            r.is_some() <==> *self is Directory,
            r.is_some() ==> *self == Entry::Directory(*r.unwrap()),
    {
        match self {
            Entry::File(_) => None,
            Entry::Directory(d) => Some(d),
        }
    }
}

impl FST {
    /// Decodes the table that `image` holds at `offset`. The image must hold
    /// the whole array of entries, and every entry must be well formed: a
    /// directory whose next index lies behind the end of the array, for one,
    /// is refused.
    pub fn new(image: &[u8], offset: u64) -> (r: Result<FST, Error>)
        ensures
            r.is_ok() <==> Self::decodable(image@, offset),
            r.is_ok() ==> r.unwrap().decodes(image@, offset) && r.unwrap().wf(),
            r matches Err(e) ==> (e == Error::Truncated <==> !table_in_bounds(
                image@,
                offset as int,
            )) && (e == Error::Malformed <==> table_in_bounds(image@, offset as int)),
    {
        let len: u64 = image.len() as u64;
        if offset > len || len - offset < ENTRY_SIZE {
            return Err(Error::Truncated);
        }
        let count: u64 = read_u32_at(image, offset + 8).unwrap() as u64;
        let table_len: u64 = ENTRY_SIZE * count;
        if table_len > len - offset {
            return Err(Error::Truncated);
        }
        let names: u64 = offset + table_len;
        let mut entries: Vec<Entry> = Vec::new();
        let mut file_count: u64 = 0;
        let mut size: u64 = table_len;
        let mut i: u64 = 0;
        if count == 0 {
            return Err(Error::Malformed);
        }
        while i < count
            invariant
                len == image@.len(),
                offset + 12 * count <= len,
                count == entry_count(image@, offset as int),
                count <= u32::MAX,
                names == offset + 12 * count,
                table_in_bounds(image@, offset as int),
                0 <= i <= count,
                entries@.len() == i,
                forall|j: int| 0 <= j < i ==> entry_ok(image@, offset as int, j),
                forall|j: int|
                    0 <= j < i ==> entry_decodes(#[trigger] entries@[j], image@, offset as int, j),
                forall|j: int| 0 <= j < i ==> entry_wf(#[trigger] entries@[j], j, count as int),
                i > 0 ==> entries@[0] is Directory,
                file_count == count_files(entries@, i as int),
                file_count <= i,
                size == names_limit(image@, offset as int, i as int),
                size <= len - offset,
            decreases count - i,
        {
            let at: u64 = offset + ENTRY_SIZE * i;
            let flag: u8 = read_u8_at(image, at).unwrap();
            let first: u32 = read_u32_at(image, at).unwrap();
            let second: u64 = read_u32_at(image, at + 4).unwrap() as u64;
            let third: u64 = read_u32_at(image, at + 8).unwrap() as u64;
            let name_offset: u64 = (first & 0x00ff_ffff) as u64;
            assert(first & 0x00ff_ffff == first % 0x100_0000) by (bit_vector);
            if flag > 1 || (i == 0 && flag != 1) || (flag == 1 && (third <= i || third > count))
                || (flag == 1 && i > 0 && second >= i) {
                assert(!entry_ok(image@, offset as int, i as int));
                return Err(Error::Malformed);
            }
            assert(first & 0x00ff_ffff <= 0x00ff_ffff) by (bit_vector);
            if name_offset > u64::MAX - names {
                assert(!entry_ok(image@, offset as int, i as int));
                return Err(Error::Malformed);
            }
            proof {
                lemma_name_end_bounds(image@, names + name_offset);
            }
            let name = match read_name(image, names + name_offset) {
                Some(name) => name,
                None => {
                    assert(!entry_ok(image@, offset as int, i as int));
                    return Err(Error::Malformed);
                },
            };
            let end: u64 = names + name_offset + name.len() as u64 + 1 - offset;
            if end > size {
                size = end;
            }
            let ghost before = entries@;
            if flag == 0 {
                entries.push(
                    Entry::File(FileEntry { index: i, name, file_offset: second, length: third }),
                );
                file_count = file_count + 1;
            } else {
                entries.push(
                    Entry::Directory(
                        DirectoryEntry { index: i, name, parent_index: second, next_index: third },
                    ),
                );
            }
            proof {
                assert(entries@.drop_last() =~= before);
                lemma_count_files_prefix(entries@, before, i as int);
            }
            i = i + 1;
        }
        Ok(FST { offset, entries, file_count, size })
    }

    /// The regions of the table's files, in the order of the entries.
    pub fn files(&self) -> (r: Vec<LayoutSection>)
        ensures
            views_of(r@) == file_sections(self.entries@, self.entries@.len() as int),
            self.wf() ==> r@.len() == self.file_count,
    {
        proof {
            lemma_one_region_per_file(self.entries@, self.entries@.len() as int);
        }
        let mut out: Vec<LayoutSection> = Vec::new();
        let mut i: usize = 0;
        while i < self.entries.len()
            invariant
                0 <= i <= self.entries@.len(),
                views_of(out@) =~= file_sections(self.entries@, i as int),
            decreases self.entries@.len() - i,
        {
            match &self.entries[i] {
                Entry::File(f) => {
                    out.push(f.section());
                },
                Entry::Directory(_) => {},
            }
            i = i + 1;
        }
        out
    }
}

impl FST {
    /// Whether no two files of the table have a byte of the image in common.
    pub fn files_disjoint(&self) -> (r: bool)
        ensures
            r == pairwise_disjoint(file_sections(self.entries@, self.entries@.len() as int)),
    {
        let files = self.files();
        let ghost views = views_of(files@);
        let n: usize = files.len();
        let mut j: usize = 0;
        while j < n
            invariant
                n == files@.len(),
                views == views_of(files@),
                views == file_sections(self.entries@, self.entries@.len() as int),
                0 <= j <= n,
                forall|a: int, b: int|
                    0 <= a < b < j ==> apart(#[trigger] views[a], #[trigger] views[b]),
            decreases n - j,
        {
            let mut i: usize = 0;
            while i < j
                invariant
                    n == files@.len(),
                    views == views_of(files@),
                    views == file_sections(self.entries@, self.entries@.len() as int),
                    0 <= i <= j < n,
                    forall|a: int| 0 <= a < i ==> apart(#[trigger] views[a], views[j as int]),
                decreases j - i,
            {
                if !sections_apart(&files[i], &files[j]) {
                    assert(!apart(views[i as int], views[j as int]));
                    return false;
                }
                i = i + 1;
            }
            j = j + 1;
        }
        true
    }
}

/// Counting the files among the first `n` entries looks at those entries
/// only.
pub proof fn lemma_count_files_prefix(a: Seq<Entry>, b: Seq<Entry>, n: int)
    requires
        0 <= n <= a.len(),
        n <= b.len(),
        forall|j: int| 0 <= j < n ==> a[j] == b[j],
    ensures
        count_files(a, n) == count_files(b, n),
    decreases n,
{
    if n > 0 {
        lemma_count_files_prefix(a, b, n - 1);
    }
}

/// One region comes of each file: the files among the first `n` entries
/// give as many regions as there are files among them.
pub proof fn lemma_one_region_per_file(entries: Seq<Entry>, n: int)
    requires
        0 <= n <= entries.len(),
    ensures
        file_sections(entries, n).len() == count_files(entries, n),
    decreases n,
{
    if n > 0 {
        lemma_one_region_per_file(entries, n - 1);
    }
}

/// A table with a directory whose next index lies behind the end of the
/// array of entries cannot be decoded.
pub proof fn lemma_directory_out_of_range_is_refused(image: Seq<u8>, offset: u64, i: int)
    requires
        0 <= i < entry_count(image, offset as int),
        flag_of(image, offset as int, i) == 1,
        third_word(image, offset as int, i) > entry_count(image, offset as int),
    ensures
        !FST::decodable(image, offset),
{
    assert(!entry_ok(image, offset as int, i));
}

impl UniqueLayoutSection for FST {
    open spec fn decodable(image: Seq<u8>, offset: u64) -> bool {
        &&& table_in_bounds(image, offset as int)
        &&& entry_count(image, offset as int) >= 1
        &&& forall|i: int|
            0 <= i < entry_count(image, offset as int) ==> entry_ok(image, offset as int, i)
    }

    open spec fn decodes(&self, image: Seq<u8>, offset: u64) -> bool {
        &&& self.offset == offset
        &&& self.entries@.len() == entry_count(image, offset as int)
        &&& forall|i: int|
            0 <= i < self.entries@.len() ==> entry_decodes(
                #[trigger] self.entries@[i],
                image,
                offset as int,
                i,
            )
        &&& self.file_count == count_files(self.entries@, self.entries@.len() as int)
        &&& self.size == names_limit(image, offset as int, self.entries@.len() as int)
    }

    open spec fn wf(&self) -> bool {
        &&& self.entries@.len() >= 1
        &&& self.entries@.len() <= u32::MAX
        &&& self.entries@[0] is Directory
        &&& forall|i: int|
            0 <= i < self.entries@.len() ==> entry_wf(
                #[trigger] self.entries@[i],
                i,
                self.entries@.len() as int,
            )
        &&& self.file_count == count_files(self.entries@, self.entries@.len() as int)
    }

    open spec fn span(&self) -> (u64, u64) {
        (self.offset, self.size)
    }

    open spec fn unique_kind(&self) -> UniqueSectionType {
        UniqueSectionType::FST
    }

    open spec fn file_name(&self) -> Seq<u8> {
        fst_name()
    }

    fn section_type(&self) -> (r: UniqueSectionType) {
        UniqueSectionType::FST
    }

    fn with_offset(image: &[u8], offset: u64) -> (r: Result<FST, Error>) {
        FST::new(image, offset)
    }

    fn section(&self) -> (r: LayoutSection) {
        LayoutSection {
            start: self.offset,
            length: self.size,
            name: name_bytes("&&systemdata/Game.toc"),
            kind: SectionType::FST,
        }
    }
}

/// Whether two entries agree in every field.
pub open spec fn same_entry(a: Entry, b: Entry) -> bool {
    match (a, b) {
        (Entry::File(f), Entry::File(g)) => f.index == g.index && f.name@ == g.name@
            && f.file_offset == g.file_offset && f.length == g.length,
        (Entry::Directory(d), Entry::Directory(e)) => d.index == e.index && d.name@ == e.name@
            && d.parent_index == e.parent_index && d.next_index == e.next_index,
        _ => false,
    }
}

/// Two tables decoded from the same bytes agree in every field of every
/// entry.
pub proof fn lemma_fst_decoding_is_a_function(a: FST, b: FST, image: Seq<u8>, offset: u64)
    requires
        a.decodes(image, offset),
        b.decodes(image, offset),
    ensures
        a.offset == b.offset,
        a.size == b.size,
        a.entries@.len() == b.entries@.len(),
        forall|i: int|
            0 <= i < a.entries@.len() ==> same_entry(#[trigger] a.entries@[i], b.entries@[i]),
        a.file_count == b.file_count,
{
    let n = a.entries@.len() as int;
    assert forall|i: int| 0 <= i < n implies same_entry(#[trigger] a.entries@[i], b.entries@[i]) by {
        assert(entry_decodes(a.entries@[i], image, offset as int, i));
        assert(entry_decodes(b.entries@[i], image, offset as int, i));
    }
    lemma_count_files_same(a.entries@, b.entries@, n);
}

/// Tables whose entries agree hold as many files.
pub proof fn lemma_count_files_same(a: Seq<Entry>, b: Seq<Entry>, n: int)
    requires
        0 <= n <= a.len(),
        n <= b.len(),
        forall|i: int| 0 <= i < n ==> same_entry(#[trigger] a[i], b[i]),
    ensures
        count_files(a, n) == count_files(b, n),
    decreases n,
{
    if n > 0 {
        lemma_count_files_same(a, b, n - 1);
        assert(same_entry(a[n - 1], b[n - 1]));
    }
}

} // verus!
