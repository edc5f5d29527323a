use vstd::prelude::*;
use crate::apploader::Apploader;
use crate::dol::DOLHeader;
use crate::error::Error;
use crate::fst::FST;
use crate::header::Header;
use crate::layout_section::{UniqueLayoutSection, UniqueSectionType};

verus! {

/// One of the structures of which an image holds exactly one, decoded.
#[derive(Debug, Clone, PartialEq, Eq)]
pub enum UniqueSection {
    Header(Header),
    Apploader(Apploader),
    DOLHeader(DOLHeader),
    FST(FST),
}

impl UniqueSection {
    /// Which of the unique structures this is.
    pub open spec fn kind(&self) -> UniqueSectionType {
        match *self {
            UniqueSection::Header(_) => UniqueSectionType::Header,
            UniqueSection::Apploader(_) => UniqueSectionType::Apploader,
            UniqueSection::DOLHeader(_) => UniqueSectionType::DOLHeader,
            UniqueSection::FST(_) => UniqueSectionType::FST,
        }
    }

    /// Whether the structure is what `image` spells at `offset`.
    pub open spec fn decodes(&self, image: Seq<u8>, offset: u64) -> bool {
        match *self {
            UniqueSection::Header(h) => h.decodes(image, offset),
            UniqueSection::Apploader(a) => a.decodes(image, offset),
            UniqueSection::DOLHeader(d) => d.decodes(image, offset),
            UniqueSection::FST(f) => f.decodes(image, offset),
        }
    }
}

impl UniqueSectionType {
    /// Whether `image` holds a well-formed structure of this kind at `offset`.
    pub open spec fn decodable(&self, image: Seq<u8>, offset: u64) -> bool {
        match *self {
            UniqueSectionType::Header => Header::decodable(image, offset),
            UniqueSectionType::Apploader => Apploader::decodable(image, offset),
            UniqueSectionType::DOLHeader => DOLHeader::decodable(image, offset),
            UniqueSectionType::FST => FST::decodable(image, offset),
        }
    }

    /// Decodes the structure of this kind that `image` holds at `offset`.
    pub fn with_offset(&self, image: &[u8], offset: u64) -> (r: Result<UniqueSection, Error>)
        ensures
            r.is_ok() <==> self.decodable(image@, offset),
            r.is_ok() ==> r.unwrap().kind() == *self && r.unwrap().decodes(image@, offset),
    {
        match self {
            UniqueSectionType::Header => match Header::with_offset(image, offset) {
                Ok(s) => Ok(UniqueSection::Header(s)),
                Err(e) => Err(e),
            },
            UniqueSectionType::Apploader => match Apploader::with_offset(image, offset) {
                Ok(s) => Ok(UniqueSection::Apploader(s)),
                Err(e) => Err(e),
            },
            UniqueSectionType::DOLHeader => match DOLHeader::with_offset(image, offset) {
                Ok(s) => Ok(UniqueSection::DOLHeader(s)),
                Err(e) => Err(e),
            },
            UniqueSectionType::FST => match FST::with_offset(image, offset) {
                Ok(s) => Ok(UniqueSection::FST(s)),
                Err(e) => Err(e),
            },
        }
    }
}

} // verus!
