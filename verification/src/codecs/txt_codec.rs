use vstd::prelude::*;

use crate::error::{DecodingError, EncodingError};
use crate::resource::{Resource, ResourceModel};
use crate::store::FileStore;
use vstd::utf8::valid_utf8;

verus! {

/// Recognizes plain text: any payload that is entirely valid UTF-8.
pub struct TxtCodec;

/// The content tag `txt`.
pub open spec fn txt_tag() -> Seq<u8> {
    seq![0x74u8, 0x78u8, 0x74u8]
}

/// A weak match: any UTF-8 payload qualifies, so signature matches outrank it.
pub open spec fn txt_decode_score(m: ResourceModel) -> usize {
    if valid_utf8(m.data) {
        20
    } else {
        0
    }
}

pub open spec fn txt_encode_score(m: ResourceModel) -> usize {
    if m.extension == Some(txt_tag()) {
        100
    } else {
        0
    }
}

/// Decoding only tags the resource; the payload passes through unchanged.
pub open spec fn txt_decode_model(m: ResourceModel) -> ResourceModel {
    ResourceModel { extension: Some(txt_tag()), ..m }
}

impl TxtCodec {
    pub fn matches_decoder(&self, resource: &Resource) -> (score: usize)
        ensures
            score == txt_decode_score(resource@),
    {
        if crate::utf8check::is_valid_utf8(resource.data.as_slice()) {
            20
        } else {
            0
        }
    }

    pub fn decode(&self, resource: &mut Resource) -> (r: Result<(), DecodingError>)
        ensures
            r is Ok,
            final(resource)@ == txt_decode_model(old(resource)@),
    {
        let tag: [u8; 3] = [0x74, 0x78, 0x74];
        proof {
            assert(tag@ =~= txt_tag());
        }
        resource.extension = Some(vstd::slice::slice_to_vec(tag.as_slice()));
        Ok(())
    }

    pub fn matches_encoder(&self, resource: &Resource) -> (score: usize)
        ensures
            score == txt_encode_score(resource@),
    {
        let tag: [u8; 3] = [0x74, 0x78, 0x74];
        proof {
            assert(tag@ =~= txt_tag());
        }
        if crate::resource::opt_tag_is(&resource.extension, tag.as_slice()) {
            100
        } else {
            0
        }
    }

    pub fn load_subresources(
        &self,
        _store: &FileStore,
        _base: &[u8],
        resource: &mut Resource,
    ) -> (r: Result<(), EncodingError>)
        ensures
            r is Ok,
            *final(resource) == *old(resource),
    {
        Ok(())
    }

    pub fn encode(&self, resource: &mut Resource) -> (r: Result<(), EncodingError>)
        ensures
            r is Ok,
            *final(resource) == *old(resource),
    {
        Ok(())
    }
}

} // verus!
