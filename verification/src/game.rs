use vstd::prelude::*;
use crate::apploader::{Apploader, APPLOADER_OFFSET};
use crate::bytes::{in_bounds, u32_at};
use crate::dol::{DOLHeader, Segment};
use crate::error::Error;
use crate::fst::{count_files, file_sections, table_in_bounds, Entry, FST};
use crate::lookup::{entry_with_name, first_named, named_segment, parse_segment_name, same_bytes};
use crate::names::{apploader_name, dol_name, fst_name, header_name};
use crate::paths::path_of;
use crate::header::Header;
use crate::layout::{
    files_in, lemma_files_in_concat, lemma_files_in_push, pairwise_disjoint, ROMLayout,
};
use crate::layout_section::{
    views_of, LayoutSection, SectionType, SectionView, UniqueLayoutSection, UniqueSectionType,
};
use crate::rebuild::{fits, rebuild_image, rebuilt, Piece};

verus! {

/// A disc image, decoded: its header, its apploader, its file-system table
/// and the header of its executable.
#[derive(Debug, Clone, PartialEq, Eq)]
pub struct Game {
    pub header: Header,
    pub apploader: Apploader,
    pub fst: FST,
    pub dol: DOLHeader,
}

/// The regions of the segments in use among the first `n`, in their order.
pub open spec fn live_sections(segments: Seq<Segment>, n: int, dol_offset: u64) -> Seq<
    SectionView,
>
    decreases n,
{
    if n <= 0 {
        Seq::empty()
    } else if segments[n - 1].size != 0 {
        live_sections(segments, n - 1, dol_offset).push(segments[n - 1].region(dol_offset))
    } else {
        live_sections(segments, n - 1, dol_offset)
    }
}

/// Where the executable's header stands, by the disc header at `offset`.
pub open spec fn dol_at(image: Seq<u8>, offset: u64) -> int {
    offset + u32_at(image.subrange(offset as int, offset + 0x2440), 0x420)
}

/// Where the file-system table stands, by the disc header at `offset`.
pub open spec fn fst_at(image: Seq<u8>, offset: u64) -> int {
    offset + u32_at(image.subrange(offset as int, offset + 0x2440), 0x424)
}

/// Whether header, apploader and executable header of the image that
/// starts at `offset` can be decoded, and the executable stands where every
/// segment of it has an offset.
pub open spec fn front_decodable(image: Seq<u8>, offset: u64) -> bool {
    &&& Header::decodable(image, offset)
    &&& Apploader::decodable(image, (offset + 0x2440) as u64)
    &&& dol_at(image, offset) + u32::MAX <= u64::MAX
    &&& DOLHeader::decodable(image, dol_at(image, offset) as u64)
}

/// Appends to `list` the regions of the segments in use.
fn push_live(list: &mut Vec<LayoutSection>, segments: &Vec<Segment>, dol_offset: u64)
    requires
        dol_offset + u32::MAX <= u64::MAX,
        forall|i: int| 0 <= i < segments@.len() ==> (#[trigger] segments@[i]).start <= u32::MAX,
    ensures
        views_of(final(list)@) == views_of(old(list)@) + live_sections(
            segments@,
            segments@.len() as int,
            dol_offset,
        ),
{
    let mut i: usize = 0;
    assert(views_of(list@) =~= views_of(old(list)@) + live_sections(segments@, 0, dol_offset));
    while i < segments.len()
        invariant
            0 <= i <= segments@.len(),
            dol_offset + u32::MAX <= u64::MAX,
            forall|i: int|
                0 <= i < segments@.len() ==> (#[trigger] segments@[i]).start <= u32::MAX,
            views_of(list@) == views_of(old(list)@) + live_sections(
                segments@,
                i as int,
                dol_offset,
            ),
        decreases segments@.len() - i,
    {
        let ghost before = views_of(list@);
        if segments[i].size != 0 {
            let s = segments[i].section(dol_offset);
            list.push(s);
            assert(views_of(list@) =~= before.push(s@));
        }
        assert(views_of(list@) =~= views_of(old(list)@) + live_sections(
            segments@,
            i + 1,
            dol_offset,
        ));
        i = i + 1;
    }
}

impl Game {
    /// What every decoded image keeps: each of its structures is well
    /// formed, and the executable stands where every segment has an offset.
    pub open spec fn wf(&self) -> bool {
        &&& self.header.wf()
        &&& self.apploader.wf()
        &&& self.dol.wf()
        &&& self.fst.wf()
        &&& self.dol.offset + u32::MAX <= u64::MAX
    }

    /// Whether the image that starts at `offset` can be decoded.
    pub open spec fn openable(image: Seq<u8>, offset: u64) -> bool {
        &&& front_decodable(image, offset)
        &&& fst_at(image, offset) <= u64::MAX
        &&& FST::decodable(image, fst_at(image, offset) as u64)
    }

    /// Whether `self` is the image that starts at `offset`, decoded.
    pub open spec fn decodes(&self, image: Seq<u8>, offset: u64) -> bool {
        &&& self.header.decodes(image, offset)
        &&& self.apploader.decodes(image, (offset + 0x2440) as u64)
        &&& self.dol.decodes(image, dol_at(image, offset) as u64)
        &&& self.fst.decodes(image, fst_at(image, offset) as u64)
    }

    /// Decodes the image that starts at `offset` in `image`: the header, the
    /// apploader behind it, and the executable's header and the file-system
    /// table where the header says they stand. The first of them that
    /// cannot be decoded ends the decoding with its error.
    pub fn open(image: &[u8], offset: u64) -> (r: Result<Game, Error>)
        ensures
            r.is_ok() <==> Self::openable(image@, offset),
            r.is_ok() ==> r.unwrap().decodes(image@, offset) && r.unwrap().wf(),
            r matches Err(e) ==> (e == Error::Malformed <==> front_decodable(image@, offset)
                && fst_at(image@, offset) <= u64::MAX && table_in_bounds(
                image@,
                fst_at(image@, offset),
            )) && (e == Error::Malformed || e == Error::Truncated),
    {
        let header = match Header::new(image, offset) {
            Ok(h) => h,
            Err(e) => {
                return Err(e);
            },
        };
        let len: usize = image.len();
        assert(offset + 0x2440 <= len);
        let apploader = match Apploader::new(image, offset + APPLOADER_OFFSET) {
            Ok(a) => a,
            Err(e) => {
                return Err(e);
            },
        };
        if offset as u128 + header.dol_offset as u128 + 0xffff_ffffu128 > u64::MAX as u128 {
            return Err(Error::Truncated);
        }
        let dol = match DOLHeader::new(image, offset + header.dol_offset) {
            Ok(d) => d,
            Err(e) => {
                return Err(e);
            },
        };
        if header.fst_offset > u64::MAX - offset {
            return Err(Error::Truncated);
        }
        let fst = match FST::new(image, offset + header.fst_offset) {
            Ok(f) => f,
            Err(e) => {
                return Err(e);
            },
        };
        Ok(Game { header, apploader, fst, dol })
    }

    /// Every region of the image, in the order in which they are collected:
    /// header, apploader, executable header, the segments in use, the
    /// file-system table, and the files.
    pub open spec fn section_views(&self) -> Seq<SectionView> {
        seq![self.header.section_view(), self.apploader.section_view(), self.dol.section_view()]
            + live_sections(self.dol.text_segments@, 7, self.dol.offset) + live_sections(
            self.dol.data_segments@,
            11,
            self.dol.offset,
        ) + seq![self.fst.section_view()] + file_sections(
            self.fst.entries@,
            self.fst.entries@.len() as int,
        )
    }

    /// The layout of the image: every region of it, unused segments left
    /// out, in the order of the start offsets.
    pub fn rom_layout(&self) -> (r: ROMLayout)
        requires
            self.wf(),
        ensures
            r.wf(),
            r@.to_multiset() == self.section_views().to_multiset(),
            r@.len() == self.section_views().len(),
            pairwise_disjoint(self.section_views()) ==> pairwise_disjoint(r@),
            files_in(r@) == self.fst.file_count,
    {
        let mut list: Vec<LayoutSection> = Vec::new();
        list.push(self.header.section());
        list.push(self.apploader.section());
        list.push(self.dol.section());
        assert(views_of(list@) =~= seq![
            self.header.section_view(),
            self.apploader.section_view(),
            self.dol.section_view(),
        ]);
        push_live(&mut list, &self.dol.text_segments, self.dol.offset);
        push_live(&mut list, &self.dol.data_segments, self.dol.offset);
        let ghost before = views_of(list@);
        list.push(self.fst.section());
        assert(views_of(list@) =~= before.push(self.fst.section_view()));
        let ghost before = views_of(list@);
        let mut files = self.fst.files();
        let ghost file_views = views_of(files@);
        list.append(&mut files);
        assert(views_of(list@) =~= before + file_views);
        assert(views_of(list@) =~= self.section_views());
        let layout = ROMLayout::from_sections(list);
        proof {
            layout@.to_multiset_ensures();
            self.section_views().to_multiset_ensures();
            lemma_files_of_a_game(*self);
        }
        layout
    }

    /// The region of the one structure of a kind.
    pub fn get_section_by_type(&self, section_type: &UniqueSectionType) -> (r: LayoutSection)
        requires
            self.wf(),
        ensures
            r@ == (match *section_type {
                UniqueSectionType::Header => self.header.section_view(),
                UniqueSectionType::Apploader => self.apploader.section_view(),
                UniqueSectionType::DOLHeader => self.dol.section_view(),
                UniqueSectionType::FST => self.fst.section_view(),
            }),
    {
        match section_type {
            UniqueSectionType::Header => self.header.section(),
            UniqueSectionType::Apploader => self.apploader.section(),
            UniqueSectionType::DOLHeader => self.dol.section(),
            UniqueSectionType::FST => self.fst.section(),
        }
    }

    /// Appends the disc header's bytes, as `image` holds them, to `sink`.
    pub fn extract_game_header(&self, image: &[u8], sink: &mut Vec<u8>) -> (r: Result<(), Error>)
        requires
            self.wf(),
        ensures
            r.is_ok() <==> in_bounds(image@, self.header.offset as int, 0x2440),
            r.is_ok() ==> final(sink)@ == old(sink)@ + image@.subrange(
                self.header.offset as int,
                self.header.offset + 0x2440,
            ),
            r.is_err() ==> final(sink)@ == old(sink)@,
    {
        self.header.section().extract(image, sink)
    }

    /// Appends the whole executable, header and segments, to `sink`.
    pub fn extract_dol(&self, image: &[u8], sink: &mut Vec<u8>) -> (r: Result<(), Error>)
        ensures
            r.is_ok() <==> in_bounds(image@, self.dol.offset as int, self.dol.dol_size as int),
            r.is_ok() ==> final(sink)@ == old(sink)@ + image@.subrange(
                self.dol.offset as int,
                self.dol.offset + self.dol.dol_size,
            ),
            r.is_err() ==> final(sink)@ == old(sink)@,
    {
        let span = LayoutSection {
            start: self.dol.offset,
            length: self.dol.dol_size,
            name: Vec::new(),
            kind: SectionType::DOLHeader,
        };
        span.extract(image, sink)
    }

    /// Appends the apploader, header, code and trailer, to `sink`.
    pub fn extract_apploader(&self, image: &[u8], sink: &mut Vec<u8>) -> (r: Result<(), Error>)
        requires
            self.wf(),
        ensures
            r.is_ok() <==> in_bounds(
                image@,
                self.apploader.offset as int,
                self.apploader.total(),
            ),
            r.is_ok() ==> final(sink)@ == old(sink)@ + image@.subrange(
                self.apploader.offset as int,
                self.apploader.offset + self.apploader.total(),
            ),
            r.is_err() ==> final(sink)@ == old(sink)@,
    {
        self.apploader.section().extract(image, sink)
    }

    /// Appends the file-system table, entries and names, to `sink`.
    pub fn extract_fst(&self, image: &[u8], sink: &mut Vec<u8>) -> (r: Result<(), Error>)
        requires
            self.wf(),
        ensures
            r.is_ok() <==> in_bounds(image@, self.fst.offset as int, self.fst.size as int),
            r.is_ok() ==> final(sink)@ == old(sink)@ + image@.subrange(
                self.fst.offset as int,
                self.fst.offset + self.fst.size,
            ),
            r.is_err() ==> final(sink)@ == old(sink)@,
    {
        self.fst.section().extract(image, sink)
    }

    /// The span of the image that `name` stands for: the whole of a system
    /// file under its fixed name, else the first file of the table with that
    /// path, else the segment in use with that name.
    pub open spec fn named(&self, name: Seq<u8>) -> Option<(u64, u64)> {
        let entries = self.fst.entries@;
        let k = first_named(entries, name, 0);
        if name == header_name() {
            Some((self.header.offset, 0x2440u64))
        } else if name == apploader_name() {
            Some((self.apploader.offset, self.apploader.total() as u64))
        } else if name == dol_name() {
            Some((self.dol.offset, self.dol.dol_size))
        } else if name == fst_name() {
            Some((self.fst.offset, self.fst.size))
        } else if k < entries.len() {
            match entries[k] {
                Entry::File(f) => Some((f.file_offset, f.length)),
                Entry::Directory(_) => None,
            }
        } else {
            match named_segment(name) {
                Some((kind, index)) => match self.dol.segment_at(kind, index) {
                    Some(s) => Some(((self.dol.offset + s.start) as u64, s.size)),
                    None => None,
                },
                None => None,
            }
        }
    }

    /// Finds the span of the image that `filename` stands for.
    pub fn section_with_name(&self, filename: &[u8]) -> (r: Option<(u64, u64)>)
        requires
            self.wf(),
        ensures
            r == self.named(filename@),
    {
        if same_bytes(filename, "&&systemdata/ISO.hdr".as_bytes()) {
            return Some((self.header.offset, 0x2440));
        }
        if same_bytes(filename, "&&systemdata/Apploader.ldr".as_bytes()) {
            return Some((self.apploader.offset, self.apploader.total_size()));
        }
        if same_bytes(filename, "&&systemdata/Start.dol".as_bytes()) {
            return Some((self.dol.offset, self.dol.dol_size));
        }
        if same_bytes(filename, "&&systemdata/Game.toc".as_bytes()) {
            return Some((self.fst.offset, self.fst.size));
        }
        if let Some(k) = entry_with_name(&self.fst, filename) {
            proof {
                lemma_first_named_is_file(self.fst.entries@, filename@, 0);
            }
            return match &self.fst.entries[k] {
                Entry::File(f) => Some((f.file_offset, f.length)),
                Entry::Directory(_) => None,
            };
        }
        match parse_segment_name(filename) {
            Some((kind, index)) => match self.dol.find_segment(kind, index) {
                Some(s) => Some((self.dol.offset + s.start, s.size)),
                None => None,
            },
            None => None,
        }
    }

    /// Appends to `sink` the bytes that `filename` stands for. Says `false`,
    /// and appends nothing, where the name stands for nothing.
    pub fn extract_section_with_name(
        &self,
        filename: &[u8],
        image: &[u8],
        sink: &mut Vec<u8>,
    ) -> (r: Result<bool, Error>)
        requires
            self.wf(),
        ensures
            self.named(filename@) matches Some(span) ==> {
                &&& r.is_ok() <==> in_bounds(image@, span.0 as int, span.1 as int)
                &&& r.is_ok() ==> r == Ok::<bool, Error>(true) && final(sink)@ == old(sink)@
                    + image@.subrange(span.0 as int, span.0 + span.1)
                &&& r.is_err() ==> r == Err::<bool, Error>(Error::Truncated) && final(sink)@
                    == old(sink)@
            },
            self.named(filename@).is_none() ==> r == Ok::<bool, Error>(false) && final(sink)@
                == old(sink)@,
    {
        match self.section_with_name(filename) {
            Some((start, length)) => {
                let span = LayoutSection {
                    start,
                    length,
                    name: Vec::new(),
                    kind: SectionType::File,
                };
                match span.extract(image, sink) {
                    Ok(()) => Ok(true),
                    Err(e) => Err(e),
                }
            },
            None => Ok(false),
        }
    }

    /// Appends to `output` the image of `total` bytes that `pieces` make up:
    /// each piece at its offset, zero bytes in every gap, and zero bytes
    /// behind the last piece up to `total`. A disc has `ROM_SIZE` bytes.
    pub fn rebuild(pieces: &Vec<Piece>, total: usize, output: &mut Vec<u8>) -> (r: Result<
        (),
        Error,
    >)
        ensures
            r.is_ok() <==> fits(pieces@, pieces@.len() as int, total as int),
            r.is_ok() ==> final(output)@ == old(output)@ + rebuilt(pieces@, total as int),
            r.is_err() ==> r == Err::<(), Error>(Error::Overlap) && old(output)@.is_prefix_of(
                final(output)@,
            ),
    {
        rebuild_image(pieces, total, output)
    }
}

/// What `first_named` finds is a file.
pub proof fn lemma_first_named_is_file(entries: Seq<Entry>, name: Seq<u8>, k: int)
    requires
        0 <= k <= entries.len(),
    ensures
        k <= first_named(entries, name, k) <= entries.len(),
        first_named(entries, name, k) < entries.len() ==> entries[first_named(entries, name, k)]
            is File,
    decreases entries.len() - k,
{
    if k < entries.len() && !(entries[k] is File && path_of(entries, k) == name) {
        lemma_first_named_is_file(entries, name, k + 1);
    }
}

/// No segment's region is the region of a file.
pub proof fn lemma_no_files_in_segments(segments: Seq<Segment>, n: int, dol_offset: u64)
    ensures
        files_in(live_sections(segments, n, dol_offset)) == 0,
    decreases n,
{
    if n > 0 {
        lemma_no_files_in_segments(segments, n - 1, dol_offset);
        let rest = live_sections(segments, n - 1, dol_offset);
        if segments[n - 1].size != 0 {
            assert(rest.push(segments[n - 1].region(dol_offset)).drop_last() =~= rest);
        }
    }
}

/// The regions of the files among the first `n` entries are as many as
/// those files, and files all.
pub proof fn lemma_files_in_file_sections(entries: Seq<Entry>, n: int)
    ensures
        files_in(file_sections(entries, n)) == count_files(entries, n),
    decreases n,
{
    if n > 0 {
        lemma_files_in_file_sections(entries, n - 1);
        let rest = file_sections(entries, n - 1);
        match entries[n - 1] {
            Entry::File(f) => {
                assert(rest.push(f.region()).drop_last() =~= rest);
            },
            Entry::Directory(_) => {},
        }
    }
}

/// Among the regions of a game there are as many regions of files as the
/// table counts files.
pub proof fn lemma_files_of_a_game(game: Game)
    requires
        game.wf(),
    ensures
        files_in(game.section_views()) == game.fst.file_count,
{
    let head = seq![
        game.header.section_view(),
        game.apploader.section_view(),
        game.dol.section_view(),
    ];
    let text = live_sections(game.dol.text_segments@, 7, game.dol.offset);
    let data = live_sections(game.dol.data_segments@, 11, game.dol.offset);
    let table = seq![game.fst.section_view()];
    let files = file_sections(game.fst.entries@, game.fst.entries@.len() as int);
    lemma_files_in_concat(head + text + data + table, files);
    lemma_files_in_concat(head + text + data, table);
    lemma_files_in_concat(head + text, data);
    lemma_files_in_concat(head, text);
    lemma_no_files_in_segments(game.dol.text_segments@, 7, game.dol.offset);
    lemma_no_files_in_segments(game.dol.data_segments@, 11, game.dol.offset);
    lemma_files_in_file_sections(game.fst.entries@, game.fst.entries@.len() as int);
    let none = Seq::<SectionView>::empty();
    lemma_files_in_push(none, game.fst.section_view());
    assert(table =~= none.push(game.fst.section_view()));
    let one = none.push(game.header.section_view());
    let two = one.push(game.apploader.section_view());
    lemma_files_in_push(none, game.header.section_view());
    lemma_files_in_push(one, game.apploader.section_view());
    lemma_files_in_push(two, game.dol.section_view());
    assert(head =~= two.push(game.dol.section_view()));
}

} // verus!
