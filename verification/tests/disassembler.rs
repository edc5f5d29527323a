use gcrom::disassembler::{is_start_line, DisasmIter, Instruction};
use gcrom::objdump::{is_objdump_banner, lines_of, listing_from, parse_hex, ListingError};
use gcrom::error::Error;

fn lines(text: &[&str]) -> Vec<Vec<u8>> {
    text.iter().map(|l| l.as_bytes().to_vec()).collect()
}

#[test]
fn start_line_is_recognised() {
    assert!(is_start_line(b"00000000 <.data>:"));
    assert!(is_start_line(b"<.data"));
    assert!(!is_start_line(b"<.dat"));
    assert!(!is_start_line(b"file format binary"));
    assert!(!is_start_line(b""));
}

#[test]
fn advance_to_start_skips_the_preamble() {
    let mut it = DisasmIter::new(lines(&[
        "",
        "a.bin:     file format binary",
        "Disassembly of section .data:",
        "00000000 <.data>:",
        "   0:\t7c 08 02 a6 \tmflr    r0",
    ]));
    assert!(it.advance_to_start().is_ok());
    assert_eq!(it.next_line(), Some(b"   0:\t7c 08 02 a6 \tmflr    r0".to_vec()));
    assert_eq!(it.next_line(), None);
}

#[test]
fn advance_to_start_fails_without_marker() {
    let mut it = DisasmIter::new(lines(&["one", "two"]));
    assert_eq!(it.advance_to_start(), Err(Error::Malformed));
    assert_eq!(it.next_line(), None);
}

#[test]
fn instruction_line() {
    let i = Instruction::from_objdump(b"   8:\t7c 08 02 a6 \tmflr    r0").unwrap();
    assert_eq!(i.location, Some(8));
    assert_eq!(i.opcode, 0x7c08_02a6);
    assert_eq!(i.text, b"mflr r0".to_vec());
}

#[test]
fn instruction_line_with_long_address() {
    let i = Instruction::from_objdump(b"80003100: 94 21 FF f0  stwu r1,-16(r1)  ").unwrap();
    assert_eq!(i.location, Some(0x8000_3100));
    assert_eq!(i.opcode, 0x9421_fff0);
    assert_eq!(i.text, b"stwu r1,-16(r1)".to_vec());
}

#[test]
fn skipped_bytes_line() {
    let i = Instruction::from_objdump(b"\t...").unwrap();
    assert_eq!(i, Instruction { text: b"...".to_vec(), opcode: 0, location: None });
}

#[test]
fn address_that_is_no_number_is_left_out() {
    let i = Instruction::from_objdump(b"xyz: 00 00 00 01 nop").unwrap();
    assert_eq!(i.location, None);
    assert_eq!(i.opcode, 1);
    let j = Instruction::from_objdump(b"11111111111111111: 00 00 00 01 nop").unwrap();
    assert_eq!(j.location, None);
    let k = Instruction::from_objdump(b"ffffffffffffffff: 00 00 00 01").unwrap();
    assert_eq!(k.location, Some(u64::MAX));
    assert_eq!(k.text, Vec::<u8>::new());
}

#[test]
fn lines_that_say_nothing() {
    assert_eq!(Instruction::from_objdump(b""), None);
    assert_eq!(Instruction::from_objdump(b"   "), None);
    assert_eq!(Instruction::from_objdump(b"00000000 <.data>:x"), None);
    assert_eq!(Instruction::from_objdump(b"0: 7c 08 02"), None);
    assert_eq!(Instruction::from_objdump(b"0: 7c 08 02 1a6 mflr"), None);
    assert_eq!(Instruction::from_objdump(b"0: 7c 08 02 g6 mflr"), None);
}

#[test]
fn hexadecimal_words() {
    assert_eq!(parse_hex(b"ff", 255), Some(255));
    assert_eq!(parse_hex(b"100", 255), None);
    assert_eq!(parse_hex(b"0000000a", 255), Some(10));
    assert_eq!(parse_hex(b"", 255), None);
    assert_eq!(parse_hex(b"1G", u64::MAX), None);
    assert_eq!(parse_hex(b"Ab", u64::MAX), Some(0xab));
}

#[test]
fn listing_yields_instructions() {
    let mut it = DisasmIter::new(lines(&[
        "00000000 <.data>:",
        "   0:\t7c 08 02 a6 \tmflr    r0",
        "\t...",
        "not a line",
        "   4:\t4e 80 00 20 \tblr",
    ]));
    assert!(it.advance_to_start().is_ok());
    assert_eq!(it.next().unwrap().opcode, 0x7c08_02a6);
    assert_eq!(it.next().unwrap().text, b"...".to_vec());
    assert_eq!(it.next(), None);
    assert_eq!(it.next().unwrap().location, Some(4));
    assert_eq!(it.next(), None);
}

#[test]
fn objdump_banner() {
    assert!(is_objdump_banner(b"GNU objdump (GNU Binutils) 2.40"));
    assert!(is_objdump_banner(b"GNU objdump"));
    assert!(!is_objdump_banner(b"GNU objdum"));
    assert!(!is_objdump_banner(b"llvm-objdump"));
    assert!(!is_objdump_banner(b""));
}

#[test]
fn plus_sign_before_a_number() {
    assert_eq!(parse_hex(b"+10", u64::MAX), Some(0x10));
    assert_eq!(parse_hex(b"+", u64::MAX), None);
    assert_eq!(parse_hex(b"++1", u64::MAX), None);
    assert_eq!(parse_hex(b"-1", u64::MAX), None);
    let i = Instruction::from_objdump(b"+10: 00 00 00 +2 nop").unwrap();
    assert_eq!(i.location, Some(0x10));
    assert_eq!(i.opcode, 2);
}

#[test]
fn lines_of_the_output() {
    assert_eq!(lines_of(b"a\nbc\r\n\nd"), lines(&["a", "bc", "", "d"]));
    assert_eq!(lines_of(b"a\n"), lines(&["a"]));
    assert_eq!(lines_of(b"\n"), lines(&[""]));
    assert_eq!(lines_of(b""), Vec::<Vec<u8>>::new());
}

#[test]
fn listing_of_a_run() {
    let out = b"\nx:     file format binary\n\n00000000 <.data>:\n   0:\t7c 08 02 a6 \tmflr    r0\n";
    let mut it = listing_from(Some(0), true, out).ok().unwrap();
    assert_eq!(it.next().unwrap().opcode, 0x7c08_02a6);
    assert_eq!(it.next(), None);
    assert_eq!(listing_from(Some(0), true, b"no\nlisting\n").err(), Some(ListingError::NoListing));
    assert_eq!(listing_from(Some(2), false, out).err(), Some(ListingError::Failed(2)));
    assert_eq!(listing_from(None, false, out).err(), Some(ListingError::Interrupted));
}
