use gcrom::dol::SegmentType;
use gcrom::error::Error;
use gcrom::fst::{DirectoryEntry, Entry, FileEntry, FST};
use gcrom::game::Game;
use gcrom::layout_section::UniqueSectionType;
use gcrom::lookup::{entry_with_name, parse_segment_name, same_bytes};
use gcrom::offset_map::{empty_paths, put_path};
use gcrom::paths::{entry_paths, make_files_btree, make_sections_btree};
use gcrom::unique::UniqueSection;

fn dir(index: u64, name: &str, parent_index: u64, next_index: u64) -> Entry {
    Entry::Directory(DirectoryEntry { index, name: name.as_bytes().to_vec(), parent_index, next_index })
}

fn file(index: u64, name: &str, file_offset: u64, length: u64) -> Entry {
    Entry::File(FileEntry { index, name: name.as_bytes().to_vec(), file_offset, length })
}

fn nested() -> FST {
    FST {
        offset: 0x5000,
        entries: vec![
            dir(0, "", 0, 7),
            dir(1, "d1", 0, 5),
            file(2, "f1", 0x9000, 4),
            dir(3, "d2", 1, 5),
            file(4, "f3", 0x7000, 8),
            file(5, "f2", 0x8000, 2),
            dir(6, "d3", 0, 7),
        ],
        file_count: 3,
        size: 0x80,
    }
}

fn put_u32(image: &mut [u8], at: usize, value: u32) {
    image[at..at + 4].copy_from_slice(&value.to_be_bytes());
}

fn small_image() -> Vec<u8> {
    let mut image = vec![0u8; 0x8000];
    put_u32(&mut image, 0x420, 0x3000);
    put_u32(&mut image, 0x424, 0x5000);
    put_u32(&mut image, 0x2440 + 0x14, 0x10);
    put_u32(&mut image, 0x2440 + 0x18, 0x10);
    put_u32(&mut image, 0x3000 + 0x1c, 0x100);
    put_u32(&mut image, 0x3000 + 0xac, 0x20);
    image[0x3100..0x3120].copy_from_slice(&[0xdd; 0x20]);
    image[0x5000] = 1;
    put_u32(&mut image, 0x5008, 3);
    image[0x500c] = 1;
    put_u32(&mut image, 0x500c, 0x0100_0001);
    put_u32(&mut image, 0x5010, 0);
    put_u32(&mut image, 0x5014, 3);
    put_u32(&mut image, 0x5018, 0x0000_0005);
    put_u32(&mut image, 0x501c, 0x6000);
    put_u32(&mut image, 0x5020, 3);
    image[0x5025..0x5028].copy_from_slice(b"dir");
    image[0x5029..0x502e].copy_from_slice(b"x.txt");
    image[0x6000..0x6003].copy_from_slice(b"abc");
    image
}

#[test]
fn paths_follow_the_directories() {
    let paths = entry_paths(&nested());
    let text: Vec<String> = paths.iter().map(|p| String::from_utf8(p.clone()).unwrap()).collect();
    assert_eq!(text, vec!["", "d1", "d1/f1", "d1/d2", "d1/d2/f3", "f2", "d3"]);
}

#[test]
fn files_by_offset() {
    let map = make_files_btree(&nested());
    assert_eq!(map.len(), 3);
    let all: Vec<(u64, String)> =
        map.iter().map(|(o, p)| (*o, String::from_utf8(p.clone()).unwrap())).collect();
    assert_eq!(
        all,
        vec![
            (0x7000, "d1/d2/f3".to_string()),
            (0x8000, "f2".to_string()),
            (0x9000, "d1/f1".to_string()),
        ]
    );
}

#[test]
fn sections_by_offset_hold_the_system_files() {
    let image = small_image();
    let game = Game::open(&image, 0).unwrap();
    let map = make_sections_btree(&game.header, &game.fst);
    let all: Vec<(u64, String)> =
        map.iter().map(|(o, p)| (*o, String::from_utf8(p.clone()).unwrap())).collect();
    assert_eq!(
        all,
        vec![
            (0, "&&systemdata/ISO.hdr".to_string()),
            (0x2440, "&&systemdata/Apploader.ldr".to_string()),
            (0x3000, "&&systemdata/Start.dol".to_string()),
            (0x5000, "&&systemdata/Game.toc".to_string()),
            (0x6000, "dir/x.txt".to_string()),
        ]
    );
}

#[test]
fn path_map_replaces_at_equal_offsets() {
    let mut map = empty_paths();
    assert!(map.is_empty());
    put_path(&mut map, 5, b"a".to_vec());
    put_path(&mut map, 2, b"b".to_vec());
    put_path(&mut map, 5, b"c".to_vec());
    put_path(&mut map, 9, b"d".to_vec());
    let all: Vec<(u64, Vec<u8>)> = map.iter().map(|(o, p)| (*o, p.clone())).collect();
    assert_eq!(all, vec![(2, b"b".to_vec()), (5, b"c".to_vec()), (9, b"d".to_vec())]);
}

#[test]
fn entries_by_path() {
    let fst = nested();
    assert_eq!(entry_with_name(&fst, b"d1/d2/f3"), Some(4));
    assert_eq!(entry_with_name(&fst, b"f2"), Some(5));
    assert_eq!(entry_with_name(&fst, b"d1"), None);
    assert_eq!(entry_with_name(&fst, b"f3"), None);
    assert_eq!(entry_with_name(&fst, b""), None);
}

#[test]
fn segment_names() {
    assert_eq!(parse_segment_name(b".text0"), Some((SegmentType::Text, 0)));
    assert_eq!(parse_segment_name(b".data10"), Some((SegmentType::Data, 10)));
    assert_eq!(parse_segment_name(b".data7"), Some((SegmentType::Data, 7)));
    assert_eq!(parse_segment_name(b".text"), None);
    assert_eq!(parse_segment_name(b".bss0"), None);
    assert_eq!(parse_segment_name(b".textx"), None);
    assert_eq!(parse_segment_name(b".text1x"), None);
    assert_eq!(parse_segment_name(b"text1"), None);
    assert!(same_bytes(b"abc", b"abc"));
    assert!(!same_bytes(b"abc", b"abd"));
    assert!(!same_bytes(b"abc", b"ab"));
}

#[test]
fn extraction_by_name() {
    let image = small_image();
    let game = Game::open(&image, 0).unwrap();
    let mut sink = Vec::new();
    assert_eq!(game.extract_section_with_name(b"dir/x.txt", &image, &mut sink), Ok(true));
    assert_eq!(sink, b"abc".to_vec());
    let mut sink = Vec::new();
    assert_eq!(game.extract_section_with_name(b".data0", &image, &mut sink), Ok(true));
    assert_eq!(sink, vec![0xdd; 0x20]);
    let mut sink = Vec::new();
    assert_eq!(game.extract_section_with_name(b"&&systemdata/ISO.hdr", &image, &mut sink), Ok(true));
    assert_eq!(sink.len(), 0x2440);
    let mut sink = Vec::new();
    assert_eq!(game.extract_section_with_name(b"&&systemdata/Start.dol", &image, &mut sink), Ok(true));
    assert_eq!(sink.len(), 0x120);
    let mut sink = Vec::new();
    assert_eq!(game.extract_section_with_name(b"&&systemdata/Apploader.ldr", &image, &mut sink), Ok(true));
    assert_eq!(sink.len(), 0x40);
    let mut sink = Vec::new();
    assert_eq!(game.extract_section_with_name(b"&&systemdata/Game.toc", &image, &mut sink), Ok(true));
    assert_eq!(sink.len(), 0x2f);
}

#[test]
fn extraction_by_unknown_name_finds_nothing() {
    let image = small_image();
    let game = Game::open(&image, 0).unwrap();
    let mut sink = vec![1u8];
    assert_eq!(game.extract_section_with_name(b"nothing", &image, &mut sink), Ok(false));
    assert_eq!(game.extract_section_with_name(b".text0", &image, &mut sink), Ok(false));
    assert_eq!(game.extract_section_with_name(b"dir", &image, &mut sink), Ok(false));
    assert_eq!(sink, vec![1]);
    assert_eq!(game.section_with_name(b"dir/x.txt"), Some((0x6000, 3)));
    assert_eq!(game.section_with_name(b".data0"), Some((0x3100, 0x20)));
}

#[test]
fn extraction_by_name_past_the_end_fails() {
    let image = small_image();
    let game = Game::open(&image, 0).unwrap();
    let mut sink = vec![1u8];
    assert_eq!(
        game.extract_section_with_name(b"dir/x.txt", &image[..0x6001], &mut sink),
        Err(Error::Truncated)
    );
    assert_eq!(sink, vec![1]);
}

#[test]
fn unique_sections_by_kind() {
    let image = small_image();
    match UniqueSectionType::Header.with_offset(&image, 0) {
        Ok(UniqueSection::Header(h)) => assert_eq!(h.fst_offset, 0x5000),
        other => panic!("not a header: {:?}", other),
    }
    match UniqueSectionType::Apploader.with_offset(&image, 0x2440) {
        Ok(UniqueSection::Apploader(a)) => assert_eq!(a.total_size(), 0x40),
        other => panic!("not an apploader: {:?}", other),
    }
    match UniqueSectionType::DOLHeader.with_offset(&image, 0x3000) {
        Ok(UniqueSection::DOLHeader(d)) => assert_eq!(d.dol_size, 0x120),
        other => panic!("not an executable header: {:?}", other),
    }
    match UniqueSectionType::FST.with_offset(&image, 0x5000) {
        Ok(UniqueSection::FST(f)) => assert_eq!(f.entries.len(), 3),
        other => panic!("not a table: {:?}", other),
    }
    assert_eq!(UniqueSectionType::FST.with_offset(&image, 0x7ffc).err(), Some(Error::Truncated));
}

#[test]
fn files_that_share_bytes_are_found() {
    let mut fst = nested();
    assert!(fst.files_disjoint());
    fst.entries[5] = file(5, "f2", 0x7004, 8);
    assert!(!fst.files_disjoint());
    fst.entries[5] = file(5, "f2", 0x7004, 0);
    assert!(fst.files_disjoint());
    fst.entries[5] = file(5, "f2", 0x7008, 1);
    assert!(fst.files_disjoint());
}

#[test]
fn written_table_is_the_table_of_the_image() {
    let image = small_image();
    let game = Game::open(&image, 0).unwrap();
    let mut out = vec![0xeeu8; 2];
    game.fst.write(&mut out);
    assert_eq!(&out[..2], &[0xee, 0xee]);
    assert_eq!(&out[2..], &image[0x5000..0x502f]);
}

#[test]
fn written_table_decodes_to_itself() {
    let fst = nested();
    let mut out = Vec::new();
    fst.write(&mut out);
    assert_eq!(out.len(), 7 * 12 + 1 + 3 + 3 + 3 + 3 + 3 + 3);
    let back = FST::new(&out, 0).unwrap();
    assert_eq!(back.entries, fst.entries);
    assert_eq!(back.file_count, 3);
    assert_eq!(back.size as usize, out.len());
}

#[test]
fn tables_that_cannot_be_written() {
    assert!(nested().is_writable());
    let mut zero = nested();
    zero.entries[2] = file(2, "f\u{0}1", 0x9000, 4);
    assert!(!zero.is_writable());
    let mut short = nested();
    short.entries[0] = dir(0, "", 0, 6);
    assert!(!short.is_writable());
    let mut count = nested();
    count.file_count = 2;
    assert!(!count.is_writable());
    let mut range = nested();
    range.entries[3] = dir(3, "d2", 1, 9);
    assert!(!range.is_writable());
}

#[test]
fn no_map_from_a_malformed_table() {
    let image = small_image();
    let header = image[..0x2440].to_vec();
    let mut table = image[0x5000..0x502f].to_vec();
    let (h, f, map) = Game::make_sections_btree(&header, &table).unwrap();
    assert_eq!(h.fst_offset, 0x5000);
    assert_eq!(f.file_count, 1);
    assert_eq!(map.len(), 5);
    assert_eq!(map.get(&0x6000), Some(&b"dir/x.txt".to_vec()));
    put_u32(&mut table, 0x14, 9);
    assert_eq!(Game::make_sections_btree(&header, &table).err(), Some(Error::Malformed));
    assert_eq!(Game::make_sections_btree(&header[..100], &image[0x5000..0x502f]).err(), Some(Error::Truncated));
}

#[test]
fn system_data_made_anew() {
    let image = small_image();
    let game = Game::open(&image, 0).unwrap();
    let toc = FST::new(&image[0x5000..0x502f], 0).unwrap();
    let mut table = Vec::new();
    let mut head = Vec::new();
    let (t, h) =
        Game::rebuild_systemdata(&game.header, &toc, &vec![0, 0, 3], &mut table, &mut head).unwrap();
    assert_eq!(&table[..], &image[0x5000..0x502f]);
    assert_eq!(h.fst_size, 0x2f);
    assert_eq!(h.fst_offset, 0x5000);
    assert_eq!(h.dol_offset, 0x3000);
    assert_eq!(&head[..0x428], &image[..0x428]);
    assert_eq!(&head[0x428..0x42c], &[0, 0, 0, 0x2f]);
    assert_eq!(&head[0x42c..], &image[0x42c..0x2440]);
    assert_eq!(t.entries, toc.entries);

    let mut table = Vec::new();
    let mut head = Vec::new();
    let (t, _) =
        Game::rebuild_systemdata(&game.header, &toc, &vec![7, 7, 0x20], &mut table, &mut head).unwrap();
    match &t.entries[2] {
        Entry::File(f) => assert_eq!((f.file_offset, f.length), (0x6000, 0x20)),
        Entry::Directory(_) => panic!("entry 2 is a file"),
    }
    assert_eq!(&table[0x20..0x24], &[0, 0, 0, 0x20]);
    assert_eq!(FST::new(&table, 0).unwrap().entries, t.entries);
}

#[test]
fn system_data_that_cannot_be_made() {
    let image = small_image();
    let game = Game::open(&image, 0).unwrap();
    let toc = FST::new(&image[0x5000..0x502f], 0).unwrap();
    let mut table = vec![1u8];
    let mut head = vec![2u8];
    let short = Game::rebuild_systemdata(&game.header, &toc, &vec![0, 0], &mut table, &mut head);
    assert_eq!(short.err(), Some(Error::Malformed));
    let long =
        Game::rebuild_systemdata(&game.header, &toc, &vec![0, 0, 1 << 32], &mut table, &mut head);
    assert_eq!(long.err(), Some(Error::Malformed));
    assert_eq!((table, head), (vec![1u8], vec![2u8]));
    assert!(toc.with_lengths(&vec![1 << 40, 0, 5]).is_ok());
}
