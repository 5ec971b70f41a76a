use vstd::prelude::*;

use crate::error::{DecodingError, EncodingError};
use crate::resource::{Resource, ResourceModel};
use crate::store::FileStore;
use crate::textfmt::has_prefix;

verus! {

/// Recognizes TrueType fonts by their version signature.
pub struct TtfCodec;

/// The signature bytes checked at the start of the payload.
pub open spec fn ttf_magic() -> Seq<u8> {
    seq![0x00u8, 0x01u8, 0x00u8, 0x00u8, 0x00u8]
}

/// The content tag `ttf`.
pub open spec fn ttf_tag() -> Seq<u8> {
    seq![0x74u8, 0x74u8, 0x66u8]
}

pub open spec fn ttf_decode_score(m: ResourceModel) -> usize {
    if has_prefix(m.data, ttf_magic()) {
        100
    } else {
        0
    }
}

pub open spec fn ttf_encode_score(m: ResourceModel) -> usize {
    if m.extension == Some(ttf_tag()) {
        100
    } else {
        0
    }
}

/// Decoding only tags the resource; the payload passes through unchanged.
pub open spec fn ttf_decode_model(m: ResourceModel) -> ResourceModel {
    ResourceModel { extension: Some(ttf_tag()), ..m }
}

impl TtfCodec {
    pub fn matches_decoder(&self, resource: &Resource) -> (score: usize)
        ensures
            score == ttf_decode_score(resource@),
    {
        let magic: [u8; 5] = [0x00, 0x01, 0x00, 0x00, 0x00];
        proof {
            assert(magic@ =~= ttf_magic());
        }
        if crate::textfmt::starts_with_bytes(resource.data.as_slice(), magic.as_slice()) {
            100
        } else {
            0
        }
    }

    pub fn decode(&self, resource: &mut Resource) -> (r: Result<(), DecodingError>)
        ensures
            r is Ok,
            final(resource)@ == ttf_decode_model(old(resource)@),
    {
        let tag: [u8; 3] = [0x74, 0x74, 0x66];
        proof {
            assert(tag@ =~= ttf_tag());
        }
        resource.extension = Some(vstd::slice::slice_to_vec(tag.as_slice()));
        Ok(())
    }

    pub fn matches_encoder(&self, resource: &Resource) -> (score: usize)
        ensures
            score == ttf_encode_score(resource@),
    {
        let tag: [u8; 3] = [0x74, 0x74, 0x66];
        proof {
            assert(tag@ =~= ttf_tag());
        }
        if crate::resource::opt_tag_is(&resource.extension, tag.as_slice()) {
            100
        } else {
            0
        }
    }

    pub fn load_subresources(
        &self,
        _store: &FileStore,
        _base: &[u8],
        resource: &mut Resource,
    ) -> (r: Result<(), EncodingError>)
        ensures
            r is Ok,
            *final(resource) == *old(resource),
    {
        Ok(())
    }

    pub fn encode(&self, resource: &mut Resource) -> (r: Result<(), EncodingError>)
        ensures
            r is Ok,
            *final(resource) == *old(resource),
    {
        Ok(())
    }
}

} // verus!
