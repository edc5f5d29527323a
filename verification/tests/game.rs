use gcrom::apploader::Apploader;
use gcrom::dol::{DOLHeader, SegmentType};
use gcrom::error::Error;
use gcrom::fst::{Entry, FST};
use gcrom::game::Game;
use gcrom::header::Header;
use gcrom::layout_section::{SectionType, UniqueLayoutSection, UniqueSectionType};
use gcrom::rebuild::{rebuild_image, Piece};

fn put_u32(image: &mut [u8], at: usize, value: u32) {
    image[at..at + 4].copy_from_slice(&value.to_be_bytes());
}

fn minimal_image() -> Vec<u8> {
    let mut image = vec![0u8; 0x10000];
    image[0..4].copy_from_slice(b"GTST");
    image[4..6].copy_from_slice(b"01");
    image[0x20..0x24].copy_from_slice(b"Test");
    put_u32(&mut image, 0x420, 0x3000);
    put_u32(&mut image, 0x424, 0x5000);
    put_u32(&mut image, 0x428, 0x1f);
    for i in 0x430..0x2440 {
        image[i] = 0xee;
    }
    // apploader: 0x20 bytes of header, 0xc0 of code, 0x20 of trailer
    image[0x2440..0x244a].copy_from_slice(b"2001/01/01");
    put_u32(&mut image, 0x2440 + 0x10, 0x8120_0000);
    put_u32(&mut image, 0x2440 + 0x14, 0xc0);
    put_u32(&mut image, 0x2440 + 0x18, 0x20);
    for i in 0x2460..0x2540 {
        image[i] = 0xaa;
    }
    // executable: one code segment of 0x100 bytes behind the header
    put_u32(&mut image, 0x3000, 0x100);
    put_u32(&mut image, 0x3000 + 0x48, 0x8000_3100);
    put_u32(&mut image, 0x3000 + 0x90, 0x100);
    put_u32(&mut image, 0x3000 + 0xd8, 0x8040_0000);
    put_u32(&mut image, 0x3000 + 0xdc, 0x40);
    put_u32(&mut image, 0x3000 + 0xe0, 0x8000_3100);
    for i in 0x3100..0x3200 {
        image[i] = 0xcc;
    }
    // file-system table: the root and one file
    image[0x5000] = 1;
    put_u32(&mut image, 0x5004, 0);
    put_u32(&mut image, 0x5008, 2);
    put_u32(&mut image, 0x500c, 1);
    put_u32(&mut image, 0x5010, 0x6000);
    put_u32(&mut image, 0x5014, 0x10);
    image[0x5019..0x501e].copy_from_slice(b"a.bin");
    for i in 0x6000..0x6010 {
        image[i] = 0x10 + (i - 0x6000) as u8;
    }
    image
}

#[test]
fn open_minimal_image() {
    let image = minimal_image();
    let game = Game::open(&image, 0).unwrap();
    assert_eq!(game.header.game_code, b"GTST".to_vec());
    assert_eq!(game.header.maker_code, b"01".to_vec());
    assert_eq!(&game.header.title[..4], b"Test");
    assert_eq!(game.header.title.len(), 0x3e0);
    assert_eq!(game.header.dol_offset, 0x3000);
    assert_eq!(game.header.fst_offset, 0x5000);
    assert_eq!(game.header.fst_size, 0x1f);
    assert_eq!(game.apploader.entry_point, 0x8120_0000);
    assert_eq!(game.apploader.code_size, 0xc0);
    assert_eq!(game.apploader.trailer_size, 0x20);
    assert_eq!(game.apploader.total_size(), 0x100);
    assert_eq!(game.dol.offset, 0x3000);
    assert_eq!(game.dol.dol_size, 0x200);
    assert_eq!(game.dol.entry_point, 0x8000_3100);
    assert_eq!(game.dol.bss_address, 0x8040_0000);
    assert_eq!(game.dol.bss_size, 0x40);
    assert_eq!(game.dol.text_segments.len(), 7);
    assert_eq!(game.dol.data_segments.len(), 11);
    assert_eq!(game.dol.text_segments[0].start, 0x100);
    assert_eq!(game.dol.text_segments[0].address, 0x8000_3100);
    assert_eq!(game.dol.text_segments[0].size, 0x100);
    assert_eq!(game.dol.text_segments[1].size, 0);
    assert_eq!(game.fst.offset, 0x5000);
    assert_eq!(game.fst.entries.len(), 2);
    assert_eq!(game.fst.file_count, 1);
    assert_eq!(game.fst.size, 0x1f);
    match &game.fst.entries[1] {
        Entry::File(f) => {
            assert_eq!(f.name, b"a.bin".to_vec());
            assert_eq!(f.file_offset, 0x6000);
            assert_eq!(f.length, 0x10);
            assert_eq!(f.index, 1);
        }
        Entry::Directory(_) => panic!("entry 1 is a file"),
    }
    match &game.fst.entries[0] {
        Entry::Directory(d) => {
            assert_eq!(d.next_index, 2);
            assert_eq!(d.parent_index, 0);
            assert!(d.name.is_empty());
        }
        Entry::File(_) => panic!("entry 0 is the root"),
    }
}

#[test]
fn minimal_image_layout() {
    let image = minimal_image();
    let game = Game::open(&image, 0).unwrap();
    let layout = game.rom_layout();
    assert_eq!(layout.len(), 6);
    let spans: Vec<(u64, u64, SectionType)> = (0..layout.len())
        .map(|i| (layout.get(i).start(), layout.get(i).len(), layout.get(i).section_type()))
        .collect();
    assert_eq!(
        spans,
        vec![
            (0, 0x2440, SectionType::Header),
            (0x2440, 0x100, SectionType::Apploader),
            (0x3000, 0x100, SectionType::DOLHeader),
            (0x3100, 0x100, SectionType::DOLSegment),
            (0x5000, 0x1f, SectionType::FST),
            (0x6000, 0x10, SectionType::File),
        ]
    );
    assert_eq!(layout.get(0).name(), &b"&&systemdata/ISO.hdr".to_vec());
    assert_eq!(layout.get(1).name(), &b"&&systemdata/Apploader.ldr".to_vec());
    assert_eq!(layout.get(2).name(), &b"&&systemdata/Start.dol".to_vec());
    assert_eq!(layout.get(3).name(), &b".text0".to_vec());
    assert_eq!(layout.get(4).name(), &b"&&systemdata/Game.toc".to_vec());
    assert_eq!(layout.get(5).name(), &b"a.bin".to_vec());
    assert!(layout.is_disjoint());
    let hit = layout.find_offset(0x6005).unwrap();
    assert_eq!(hit.name(), &b"a.bin".to_vec());
    assert_eq!(hit.section_type(), SectionType::File);
    assert!(layout.find_offset(0x4000).is_none());
    assert_eq!(layout.find_offset(0x3150).unwrap().section_type(), SectionType::DOLSegment);
}

#[test]
fn extract_then_rebuild_gives_the_image_back() {
    let image = minimal_image();
    let game = Game::open(&image, 0).unwrap();
    let layout = game.rom_layout();
    let mut pieces = Vec::new();
    for i in 0..layout.len() {
        let mut data = Vec::new();
        layout.get(i).extract(&image, &mut data).unwrap();
        pieces.push(Piece { offset: layout.get(i).start(), data });
    }
    let mut out = Vec::new();
    assert!(rebuild_image(&pieces, 0x10000, &mut out).is_ok());
    assert_eq!(out.len(), 0x10000);
    assert!(out == image);
    assert!(out[0x2540..0x3000].iter().all(|b| *b == 0));
    assert!(out[0x3200..0x5000].iter().all(|b| *b == 0));
    assert!(out[0x6010..0x10000].iter().all(|b| *b == 0));
}

#[test]
fn system_data_extraction() {
    let image = minimal_image();
    let game = Game::open(&image, 0).unwrap();
    let mut header = Vec::new();
    game.extract_game_header(&image, &mut header).unwrap();
    assert!(header == image[..0x2440].to_vec());
    let mut apploader = Vec::new();
    game.extract_apploader(&image, &mut apploader).unwrap();
    assert!(apploader == image[0x2440..0x2540].to_vec());
    let mut dol = Vec::new();
    game.extract_dol(&image, &mut dol).unwrap();
    assert!(dol == image[0x3000..0x3200].to_vec());
    let mut fst = Vec::new();
    game.extract_fst(&image, &mut fst).unwrap();
    assert!(fst == image[0x5000..0x501f].to_vec());
    let mut written = Vec::new();
    game.header.write(&mut written);
    assert!(written == header);
}

#[test]
fn decoding_twice_gives_the_same_fields() {
    let image = minimal_image();
    let a = Game::open(&image, 0).unwrap();
    let b = Game::open(&image, 0).unwrap();
    assert_eq!(a, b);
    assert_eq!(Header::new(&image, 0).unwrap(), Header::new(&image, 0).unwrap());
    assert_eq!(Apploader::new(&image, 0x2440).unwrap(), Apploader::new(&image, 0x2440).unwrap());
    assert_eq!(DOLHeader::new(&image, 0x3000).unwrap(), DOLHeader::new(&image, 0x3000).unwrap());
    assert_eq!(FST::new(&image, 0x5000).unwrap(), FST::new(&image, 0x5000).unwrap());
}

#[test]
fn open_at_a_base_offset() {
    let inner = minimal_image();
    let mut image = vec![0x77u8; 0x100];
    image.extend_from_slice(&inner);
    let game = Game::open(&image, 0x100).unwrap();
    assert_eq!(game.header.offset, 0x100);
    assert_eq!(game.apploader.offset, 0x2540);
    assert_eq!(game.dol.offset, 0x3100);
    assert_eq!(game.fst.offset, 0x5100);
    assert_eq!(game.fst.file_count, 1);
}

#[test]
fn directory_past_the_table_is_malformed() {
    let mut image = minimal_image();
    // a second directory whose next index lies behind the two entries
    image[0x500c] = 1;
    put_u32(&mut image, 0x5010, 0);
    put_u32(&mut image, 0x5014, 3);
    assert_eq!(FST::new(&image, 0x5000).err(), Some(Error::Malformed));
    assert_eq!(Game::open(&image, 0).err(), Some(Error::Malformed));
}

#[test]
fn malformed_tables() {
    let mut image = minimal_image();
    image[0x5000] = 0;
    assert_eq!(FST::new(&image, 0x5000).err(), Some(Error::Malformed));
    let mut image = minimal_image();
    image[0x500c] = 2;
    assert_eq!(FST::new(&image, 0x5000).err(), Some(Error::Malformed));
    let mut image = minimal_image();
    put_u32(&mut image, 0x5008, 0);
    assert_eq!(FST::new(&image, 0x5000).err(), Some(Error::Malformed));
    let mut image = minimal_image();
    image.truncate(0x501b);
    assert_eq!(FST::new(&image, 0x5000).err(), Some(Error::Malformed));
}

#[test]
fn truncated_structures() {
    let image = minimal_image();
    assert_eq!(Header::new(&image[..0x2000], 0).err(), Some(Error::Truncated));
    assert_eq!(Header::new(&image, 0x10000).err(), Some(Error::Truncated));
    assert_eq!(Apploader::new(&image[..0x2500], 0x2440).err(), Some(Error::Truncated));
    assert_eq!(Apploader::new(&image[..0x2450], 0x2440).err(), Some(Error::Truncated));
    assert_eq!(DOLHeader::new(&image[..0x3180], 0x3000).err(), Some(Error::Truncated));
    assert_eq!(FST::new(&image[..0x5010], 0x5000).err(), Some(Error::Truncated));
    assert_eq!(FST::new(&image[..0x5004], 0x5000).err(), Some(Error::Truncated));
    assert_eq!(Game::open(&image[..0x3180], 0).err(), Some(Error::Truncated));
    assert!(Apploader::new(&image[..0x2540], 0x2440).is_ok());
    assert!(DOLHeader::new(&image[..0x3200], 0x3000).is_ok());
}

#[test]
fn sections_by_type() {
    let image = minimal_image();
    let game = Game::open(&image, 0).unwrap();
    let h = game.get_section_by_type(&UniqueSectionType::Header);
    assert_eq!((h.start(), h.len()), (0, 0x2440));
    let a = game.get_section_by_type(&UniqueSectionType::Apploader);
    assert_eq!((a.start(), a.len()), (0x2440, 0x100));
    let d = game.get_section_by_type(&UniqueSectionType::DOLHeader);
    assert_eq!((d.start(), d.len()), (0x3000, 0x100));
    let f = game.get_section_by_type(&UniqueSectionType::FST);
    assert_eq!((f.start(), f.len()), (0x5000, 0x1f));
    assert_eq!(game.fst.section_type(), UniqueSectionType::FST);
    assert_eq!(game.header.section_type(), UniqueSectionType::Header);
    assert!(<Header as UniqueLayoutSection>::with_offset(&image, 0).is_ok());
}

#[test]
fn segments_by_kind_and_index() {
    let image = minimal_image();
    let game = Game::open(&image, 0).unwrap();
    let s = game.dol.find_segment(SegmentType::Text, 0).unwrap();
    assert_eq!((s.start, s.size), (0x100, 0x100));
    assert_eq!(s.name(), b".text0".to_vec());
    assert!(game.dol.find_segment(SegmentType::Text, 1).is_none());
    assert!(game.dol.find_segment(SegmentType::Text, 7).is_none());
    assert!(game.dol.find_segment(SegmentType::Data, 0).is_none());
    assert!(game.dol.find_segment(SegmentType::Data, 11).is_none());
    assert_eq!(game.dol.data_segments[10].name(), b".data10".to_vec());
}

#[test]
fn files_of_the_table() {
    let image = minimal_image();
    let game = Game::open(&image, 0).unwrap();
    let files = game.fst.files();
    assert_eq!(files.len() as u64, game.fst.file_count);
    assert_eq!(files[0].start(), 0x6000);
    assert_eq!(files[0].len(), 0x10);
}
