use gcrom::bytes::{read_bytes_at, read_u32_at, read_u8_at};
use gcrom::header::Header;

#[test]
fn read_u32_is_big_endian() {
    let image = [0x12u8, 0x34, 0x56, 0x78, 0x9a];
    assert_eq!(read_u32_at(&image, 0), Some(0x1234_5678));
    assert_eq!(read_u32_at(&image, 1), Some(0x3456_789a));
    assert_eq!(read_u32_at(&image, 2), None);
    assert_eq!(read_u32_at(&image, u64::MAX), None);
    assert_eq!(read_u32_at(&image[..3], 0), None);
}

#[test]
fn read_bytes_within_bounds() {
    let image = [1u8, 2, 3, 4];
    assert_eq!(read_u8_at(&image, 3), Some(4));
    assert_eq!(read_u8_at(&image, 4), None);
    assert_eq!(read_bytes_at(&image, 1, 2), Some(vec![2, 3]));
    assert_eq!(read_bytes_at(&image, 4, 0), Some(vec![]));
    assert_eq!(read_bytes_at(&image, 3, 2), None);
    assert_eq!(read_bytes_at(&image, 5, 0), None);
}

#[test]
fn rebuilt_header_carries_the_rest_over() {
    let mut image = vec![0u8; 0x2440];
    for (i, b) in image.iter_mut().enumerate() {
        *b = (i % 251) as u8;
    }
    let old = Header::new(&image, 0).unwrap();
    let new = old.rebuild(0x0001_e800, 0x0045_6e00, 0x0001_2345);
    assert_eq!(new.dol_offset, 0x1e800);
    assert_eq!(new.fst_offset, 0x456e00);
    assert_eq!(new.fst_size, 0x12345);
    assert_eq!(new.game_code, old.game_code);
    assert_eq!(new.maker_code, old.maker_code);
    assert_eq!(new.title, old.title);
    let mut written = Vec::new();
    new.write(&mut written);
    assert_eq!(written.len(), 0x2440);
    assert_eq!(&written[..0x420], &image[..0x420]);
    assert_eq!(&written[0x420..0x42c], &[0, 1, 0xe8, 0, 0, 0x45, 0x6e, 0, 0, 1, 0x23, 0x45]);
    assert_eq!(&written[0x42c..], &image[0x42c..]);
    let again = Header::new(&written, 0).unwrap();
    assert_eq!(again, new);
}
