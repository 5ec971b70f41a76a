use vstd::prelude::*;

use crate::error::{DecodingError, EncodingError};
use crate::resource::{Resource, ResourceModel};
use crate::store::FileStore;
use crate::textfmt::has_prefix;

verus! {

/// Recognizes Matroska/WebM media by their EBML signature.
pub struct WebmCodec;

/// The signature bytes checked at the start of the payload.
pub open spec fn webm_magic() -> Seq<u8> {
    seq![0x1au8, 0x45u8, 0xdfu8, 0xa3u8]
}

/// The content tag `webm`.
pub open spec fn webm_tag() -> Seq<u8> {
    seq![0x77u8, 0x65u8, 0x62u8, 0x6du8]
}

pub open spec fn webm_decode_score(m: ResourceModel) -> usize {
    if has_prefix(m.data, webm_magic()) {
        100
    } else {
        0
    }
}

pub open spec fn webm_encode_score(m: ResourceModel) -> usize {
    if m.extension == Some(webm_tag()) {
        100
    } else {
        0
    }
}

/// Decoding only tags the resource; the payload passes through unchanged.
pub open spec fn webm_decode_model(m: ResourceModel) -> ResourceModel {
    ResourceModel { extension: Some(webm_tag()), ..m }
}

impl WebmCodec {
    pub fn matches_decoder(&self, resource: &Resource) -> (score: usize)
        ensures
            score == webm_decode_score(resource@),
    {
        let magic: [u8; 4] = [0x1a, 0x45, 0xdf, 0xa3];
        proof {
            assert(magic@ =~= webm_magic());
        }
        if crate::textfmt::starts_with_bytes(resource.data.as_slice(), magic.as_slice()) {
            100
        } else {
            0
        }
    }

    pub fn decode(&self, resource: &mut Resource) -> (r: Result<(), DecodingError>)
        ensures
            r is Ok,
            final(resource)@ == webm_decode_model(old(resource)@),
    {
        let tag: [u8; 4] = [0x77, 0x65, 0x62, 0x6d];
        proof {
            assert(tag@ =~= webm_tag());
        }
        resource.extension = Some(vstd::slice::slice_to_vec(tag.as_slice()));
        Ok(())
    }

    pub fn matches_encoder(&self, resource: &Resource) -> (score: usize)
        ensures
            score == webm_encode_score(resource@),
    {
        let tag: [u8; 4] = [0x77, 0x65, 0x62, 0x6d];
        proof {
            assert(tag@ =~= webm_tag());
        }
        if crate::resource::opt_tag_is(&resource.extension, tag.as_slice()) {
            100
        } else {
            0
        }
    }

    pub fn load_subresources(
        &self,
        _store: &FileStore,
        _base: &[u8],
        resource: &mut Resource,
    ) -> (r: Result<(), EncodingError>)
        ensures
            r is Ok,
            *final(resource) == *old(resource),
    {
        Ok(())
    }

    pub fn encode(&self, resource: &mut Resource) -> (r: Result<(), EncodingError>)
        ensures
            r is Ok,
            *final(resource) == *old(resource),
    {
        Ok(())
    }
}

} // verus!
