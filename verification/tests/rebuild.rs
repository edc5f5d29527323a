use gcrom::error::Error;
use gcrom::game::Game;
use gcrom::rebuild::{next_gap, rebuild_image, write_zeros, Piece, ROM_SIZE, WRITE_CHUNK_SIZE};

#[test]
fn write_zeros_appends_exactly() {
    let mut out = vec![7u8];
    write_zeros(5, &mut out);
    assert_eq!(out, vec![7, 0, 0, 0, 0, 0]);
    write_zeros(0, &mut out);
    assert_eq!(out.len(), 6);
}

#[test]
fn write_zeros_across_chunks() {
    let mut out = Vec::new();
    write_zeros(2 * WRITE_CHUNK_SIZE + 3, &mut out);
    assert_eq!(out.len(), 2 * WRITE_CHUNK_SIZE + 3);
    assert!(out.iter().all(|b| *b == 0));
    let mut exact = Vec::new();
    write_zeros(WRITE_CHUNK_SIZE, &mut exact);
    assert_eq!(exact.len(), WRITE_CHUNK_SIZE);
}

#[test]
fn rom_size_is_fixed() {
    assert_eq!(ROM_SIZE, 0x57058000);
}

#[test]
fn rebuild_fills_gaps_with_zeros() {
    let pieces = vec![
        Piece { offset: 0, data: vec![1, 2] },
        Piece { offset: 4, data: vec![3] },
        Piece { offset: 5, data: vec![4, 5] },
    ];
    let mut out = Vec::new();
    assert!(rebuild_image(&pieces, 10, &mut out).is_ok());
    assert_eq!(out, vec![1, 2, 0, 0, 3, 4, 5, 0, 0, 0]);
}

#[test]
fn rebuild_minimal_image() {
    let pieces = vec![
        Piece { offset: 0, data: vec![0x11; 0x2440] },
        Piece { offset: 0x2440, data: vec![0x22; 0x100] },
        Piece { offset: 0x3000, data: vec![0x33; 0x200] },
        Piece { offset: 0x5000, data: vec![0x44; 0x20] },
        Piece { offset: 0x6000, data: vec![0x55; 0x10] },
    ];
    let mut out = Vec::new();
    assert!(rebuild_image(&pieces, 0x10000, &mut out).is_ok());
    assert_eq!(out.len(), 0x10000);
    assert!(out[..0x2440].iter().all(|b| *b == 0x11));
    assert!(out[0x2440..0x2540].iter().all(|b| *b == 0x22));
    assert!(out[0x2540..0x3000].iter().all(|b| *b == 0));
    assert!(out[0x3000..0x3200].iter().all(|b| *b == 0x33));
    assert!(out[0x3200..0x5000].iter().all(|b| *b == 0));
    assert!(out[0x5000..0x5020].iter().all(|b| *b == 0x44));
    assert!(out[0x5020..0x6000].iter().all(|b| *b == 0));
    assert!(out[0x6000..0x6010].iter().all(|b| *b == 0x55));
    assert!(out[0x6010..0x10000].iter().all(|b| *b == 0));
}

#[test]
fn rebuild_round_trip() {
    let mut image = vec![0u8; 64];
    for i in 3..9 {
        image[i] = i as u8;
    }
    for i in 20..28 {
        image[i] = 0xa0 + i as u8;
    }
    let pieces = vec![
        Piece { offset: 3, data: image[3..9].to_vec() },
        Piece { offset: 20, data: image[20..28].to_vec() },
    ];
    let mut out = Vec::new();
    assert!(rebuild_image(&pieces, 64, &mut out).is_ok());
    assert_eq!(out, image);
}

#[test]
fn rebuild_refuses_overlap() {
    let pieces = vec![
        Piece { offset: 0, data: vec![1, 2, 3] },
        Piece { offset: 2, data: vec![4] },
    ];
    let mut out = Vec::new();
    assert_eq!(rebuild_image(&pieces, 10, &mut out), Err(Error::Overlap));
}

#[test]
fn rebuild_refuses_piece_past_the_end() {
    let pieces = vec![Piece { offset: 8, data: vec![1, 2, 3] }];
    let mut out = Vec::new();
    assert_eq!(rebuild_image(&pieces, 10, &mut out), Err(Error::Overlap));
    let exact = vec![Piece { offset: 7, data: vec![1, 2, 3] }];
    let mut out = Vec::new();
    assert!(rebuild_image(&exact, 10, &mut out).is_ok());
    assert_eq!(out, vec![0, 0, 0, 0, 0, 0, 0, 1, 2, 3]);
}

#[test]
fn rebuild_without_pieces_is_all_zeros() {
    let mut out = vec![9u8];
    assert!(rebuild_image(&Vec::new(), 4, &mut out).is_ok());
    assert_eq!(out, vec![9, 0, 0, 0, 0]);
}

#[test]
fn next_gap_counts_the_padding() {
    assert_eq!(next_gap(0x2540, 0x3000, 0x200, 0x10000), Ok(0xac0));
    assert_eq!(next_gap(0x3200, 0x3200, 0, 0x10000), Ok(0));
    assert_eq!(next_gap(0x3201, 0x3200, 1, 0x10000), Err(Error::Overlap));
    assert_eq!(next_gap(0, 0xfff0, 0x11, 0x10000), Err(Error::Overlap));
    assert_eq!(next_gap(0, 0xfff0, 0x10, 0x10000), Ok(0xfff0));
}

#[test]
fn game_rebuild_gives_the_size_asked_for() {
    let pieces = vec![
        Piece { offset: 0, data: vec![0x11; 0x2440] },
        Piece { offset: 0x2440, data: vec![0x22; 0x100] },
        Piece { offset: 0x3000, data: vec![0x33; 0x200] },
        Piece { offset: 0x5000, data: vec![0x44; 0x1f] },
        Piece { offset: 0x6000, data: vec![0x55; 0x10] },
    ];
    let mut out = Vec::new();
    assert!(Game::rebuild(&pieces, 0x10000, &mut out).is_ok());
    assert_eq!(out.len(), 0x10000);
    assert!(out[0x6010..].iter().all(|b| *b == 0));
    let mut short = Vec::new();
    assert_eq!(Game::rebuild(&pieces, 0x6000, &mut short), Err(Error::Overlap));
}
