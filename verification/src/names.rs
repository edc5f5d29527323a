use vstd::prelude::*;
use vstd::string::StringSliceAdditionalSpecFns;

verus! {

/// The bytes of the name under which the disc header is stored.
pub open spec fn header_name() -> Seq<u8> {
    "&&systemdata/ISO.hdr".spec_bytes()
}

/// The bytes of the name under which the apploader is stored.
pub open spec fn apploader_name() -> Seq<u8> {
    "&&systemdata/Apploader.ldr".spec_bytes()
}

/// The bytes of the name under which the executable is stored.
pub open spec fn dol_name() -> Seq<u8> {
    "&&systemdata/Start.dol".spec_bytes()
}

/// The bytes of the name under which the file-system table is stored.
pub open spec fn fst_name() -> Seq<u8> {
    "&&systemdata/Game.toc".spec_bytes()
}

/// The bytes of a piece of text, as a vector.
pub fn name_bytes(text: &str) -> (r: Vec<u8>)
    ensures
        r@ == text.spec_bytes(),
{
    let mut out: Vec<u8> = Vec::new();
    out.extend_from_slice(text.as_bytes());
    assert(out@ =~= text.spec_bytes());
    out
}

} // verus!
