use vstd::prelude::*;

use crate::error::{DecodingError, EncodingError};
use crate::resource::{Resource, ResourceModel};
use crate::store::FileStore;

verus! {

/// Recognizes XML documents by handing the whole payload to an XML parser.
pub struct XmlCodec;

/// Whether the xml crate's `EventReader` walks the byte stream to the end
/// without reporting an error: a function of the bytes alone.
pub uninterp spec fn xml_well_formed(s: Seq<u8>) -> bool;

/// Relies on the xml crate's `EventReader`: pulling every event off the
/// reader and checking for errors decides well-formedness, and the outcome
/// depends only on the input bytes.
#[verifier::external_body]
fn xml_parses(data: &[u8]) -> (r: bool)
    ensures
        r == xml_well_formed(data@),
{
    let reader = xml::EventReader::new(data);
    for event in reader {
        if event.is_err() {
            return false;
        }
    }
    true
}

/// The content tag `xml`.
pub open spec fn xml_tag() -> Seq<u8> {
    seq![0x78u8, 0x6du8, 0x6cu8]
}

pub open spec fn xml_decode_score(m: ResourceModel) -> usize {
    if xml_well_formed(m.data) {
        100
    } else {
        0
    }
}

pub open spec fn xml_encode_score(m: ResourceModel) -> usize {
    if m.extension == Some(xml_tag()) {
        100
    } else {
        0
    }
}

/// Decoding only tags the resource; the payload passes through unchanged.
pub open spec fn xml_decode_model(m: ResourceModel) -> ResourceModel {
    ResourceModel { extension: Some(xml_tag()), ..m }
}

impl XmlCodec {
    pub fn matches_decoder(&self, resource: &Resource) -> (score: usize)
        ensures
            score == xml_decode_score(resource@),
    {
        if xml_parses(resource.data.as_slice()) {
            100
        } else {
            0
        }
    }

    pub fn decode(&self, resource: &mut Resource) -> (r: Result<(), DecodingError>)
        ensures
            r is Ok,
            final(resource)@ == xml_decode_model(old(resource)@),
    {
        let tag: [u8; 3] = [0x78, 0x6d, 0x6c];
        proof {
            assert(tag@ =~= xml_tag());
        }
        resource.extension = Some(vstd::slice::slice_to_vec(tag.as_slice()));
        Ok(())
    }

    pub fn matches_encoder(&self, resource: &Resource) -> (score: usize)
        ensures
            score == xml_encode_score(resource@),
    {
        let tag: [u8; 3] = [0x78, 0x6d, 0x6c];
        proof {
            assert(tag@ =~= xml_tag());
        }
        if crate::resource::opt_tag_is(&resource.extension, tag.as_slice()) {
            100
        } else {
            0
        }
    }

    pub fn load_subresources(
        &self,
        _store: &FileStore,
        _base: &[u8],
        resource: &mut Resource,
    ) -> (r: Result<(), EncodingError>)
        ensures
            r is Ok,
            *final(resource) == *old(resource),
    {
        Ok(())
    }

    pub fn encode(&self, resource: &mut Resource) -> (r: Result<(), EncodingError>)
        ensures
            r is Ok,
            *final(resource) == *old(resource),
    {
        Ok(())
    }
}

} // verus!
