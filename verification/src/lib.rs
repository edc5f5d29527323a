//! Layout engine for optical-disc images of a fixed console format: decoding
//! of the disc header, the apploader, the executable header and the
//! file-system table, the offset-ordered layout of every region of an image,
//! lookup of the region that covers an offset, and the byte-exact rebuilding
//! of an image from its extracted pieces.

pub mod apploader;
pub mod bytes;
pub mod disassembler;
pub mod dol;
pub mod encode;
pub mod error;
pub mod fst;
pub mod game;
pub mod header;
pub mod layout;
pub mod layout_section;
pub mod lookup;
pub mod names;
pub mod objdump;
pub mod offset_map;
pub mod paths;
pub mod rebuild;
pub mod unique;
