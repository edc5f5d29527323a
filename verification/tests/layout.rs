use gcrom::layout::ROMLayout;
use gcrom::layout_section::{LayoutSection, SectionType, UniqueSectionType};
use std::cmp::Ordering;

fn section(start: u64, length: u64, name: &str, kind: SectionType) -> LayoutSection {
    LayoutSection { start, length, name: name.as_bytes().to_vec(), kind }
}

fn minimal_layout() -> ROMLayout {
    ROMLayout::from_sections(vec![
        section(0x6000, 0x10, "a.bin", SectionType::File),
        section(0x5000, 0x20, "&&systemdata/Game.toc", SectionType::FST),
        section(0, 0x2440, "&&systemdata/ISO.hdr", SectionType::Header),
        section(0x3000, 0x200, "&&systemdata/Start.dol", SectionType::DOLHeader),
        section(0x2440, 0x100, "&&systemdata/Apploader.ldr", SectionType::Apploader),
    ])
}

#[test]
fn section_type_names() {
    assert_eq!(SectionType::Header.to_str(), "Header");
    assert_eq!(SectionType::Apploader.to_str(), "Apploader");
    assert_eq!(SectionType::DOLHeader.to_str(), "DOL Header");
    assert_eq!(SectionType::DOLSegment.to_str(), "DOL Segment");
    assert_eq!(SectionType::FST.to_str(), "File System Table");
    assert_eq!(SectionType::File.to_str(), "File");
}

#[test]
fn unique_kind_names() {
    assert_eq!(UniqueSectionType::Header.to_str(), "Header");
    assert_eq!(UniqueSectionType::Apploader.to_str(), "Apploader");
    assert_eq!(UniqueSectionType::DOLHeader.to_str(), "DOL Header");
    assert_eq!(UniqueSectionType::FST.to_str(), "File System Table");
    assert_eq!(UniqueSectionType::FST.section_type(), SectionType::FST);
}

#[test]
fn end_is_last_byte() {
    let s = section(0x2440, 0x100, "x", SectionType::Apploader);
    assert_eq!(s.end(), 0x253f);
    assert_eq!(s.start(), 0x2440);
    assert_eq!(s.len(), 0x100);
}

#[test]
fn compare_offset_three_ways() {
    let s = section(0x100, 0x10, "x", SectionType::File);
    assert_eq!(s.compare_offset(0xff), Ordering::Greater);
    assert_eq!(s.compare_offset(0x100), Ordering::Equal);
    assert_eq!(s.compare_offset(0x10f), Ordering::Equal);
    assert_eq!(s.compare_offset(0x110), Ordering::Less);
    assert!(s.contains_offset(0x105));
    assert!(!s.contains_offset(0x110));
}

#[test]
fn empty_section_covers_nothing() {
    let s = section(0x100, 0, "x", SectionType::DOLSegment);
    assert_eq!(s.compare_offset(0xff), Ordering::Greater);
    assert_eq!(s.compare_offset(0x100), Ordering::Less);
    assert!(!s.contains_offset(0x100));
}

#[test]
fn extract_copies_the_span() {
    let image: Vec<u8> = (0u8..32).collect();
    let s = section(4, 3, "x", SectionType::File);
    let mut sink = vec![9u8];
    assert!(s.extract(&image, &mut sink).is_ok());
    assert_eq!(sink, vec![9, 4, 5, 6]);
}

#[test]
fn extract_fails_past_the_end() {
    let image = vec![0u8; 8];
    let s = section(6, 3, "x", SectionType::File);
    let mut sink = vec![1u8];
    assert_eq!(s.extract(&image, &mut sink), Err(gcrom::error::Error::Truncated));
    assert_eq!(sink, vec![1]);
}

#[test]
fn layout_is_ordered_by_start() {
    let l = minimal_layout();
    assert_eq!(l.len(), 5);
    let starts: Vec<u64> = (0..l.len()).map(|i| l.get(i).start()).collect();
    assert_eq!(starts, vec![0, 0x2440, 0x3000, 0x5000, 0x6000]);
    assert!(l.is_disjoint());
}

#[test]
fn find_offset_in_file() {
    let l = minimal_layout();
    let r = l.find_offset(0x6005).unwrap();
    assert_eq!(r.name(), &b"a.bin".to_vec());
    assert_eq!(r.section_type(), SectionType::File);
}

#[test]
fn find_offset_in_gap_is_none() {
    let l = minimal_layout();
    assert!(l.find_offset(0x4000).is_none());
    assert!(l.find_offset(0x2540).is_none());
    assert!(l.find_offset(0x6010).is_none());
    assert!(l.find_offset(0xffff_ffff).is_none());
}

#[test]
fn find_offset_every_covered_byte() {
    let l = minimal_layout();
    for i in 0..l.len() {
        let s = l.get(i);
        for o in [s.start(), s.start() + s.len() / 2, s.end()] {
            assert_eq!(l.find_offset(o).unwrap().start(), s.start());
        }
    }
}

#[test]
fn find_offset_before_first_region() {
    let l = ROMLayout::from_sections(vec![section(0x10, 4, "x", SectionType::File)]);
    assert!(l.find_offset(0).is_none());
    assert!(l.find_offset(0xf).is_none());
    assert_eq!(l.find_offset(0x10).unwrap().start(), 0x10);
}

#[test]
fn overlapping_layout_is_not_disjoint() {
    let l = ROMLayout::from_sections(vec![
        section(0, 0x10, "a", SectionType::File),
        section(8, 0, "z", SectionType::DOLSegment),
        section(0xc, 8, "b", SectionType::File),
    ]);
    assert!(!l.is_disjoint());
}

#[test]
fn insert_keeps_order() {
    let mut l = ROMLayout::new();
    l.insert(section(5, 1, "b", SectionType::File));
    l.insert(section(1, 1, "a", SectionType::File));
    l.insert(section(9, 1, "c", SectionType::File));
    l.insert(section(5, 2, "b2", SectionType::File));
    let names: Vec<Vec<u8>> = (0..l.len()).map(|i| l.get(i).name().clone()).collect();
    assert_eq!(names, vec![b"a".to_vec(), b"b".to_vec(), b"b2".to_vec(), b"c".to_vec()]);
}
