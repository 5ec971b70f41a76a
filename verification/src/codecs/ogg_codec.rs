use vstd::prelude::*;

use crate::error::{DecodingError, EncodingError};
use crate::resource::{Resource, ResourceModel};
use crate::store::FileStore;
use crate::textfmt::has_prefix;

verus! {

/// Recognizes Ogg streams by their `OggS` signature.
pub struct OggCodec;

/// The signature bytes checked at the start of the payload.
pub open spec fn ogg_magic() -> Seq<u8> {
    seq![0x4fu8, 0x67u8, 0x67u8, 0x53u8]
}

/// The content tag `ogg`.
pub open spec fn ogg_tag() -> Seq<u8> {
    seq![0x6fu8, 0x67u8, 0x67u8]
}

pub open spec fn ogg_decode_score(m: ResourceModel) -> usize {
    if has_prefix(m.data, ogg_magic()) {
        100
    } else {
        0
    }
}

pub open spec fn ogg_encode_score(m: ResourceModel) -> usize {
    if m.extension == Some(ogg_tag()) {
        100
    } else {
        0
    }
}

/// Decoding only tags the resource; the payload passes through unchanged.
pub open spec fn ogg_decode_model(m: ResourceModel) -> ResourceModel {
    ResourceModel { extension: Some(ogg_tag()), ..m }
}

impl OggCodec {
    pub fn matches_decoder(&self, resource: &Resource) -> (score: usize)
        ensures
            score == ogg_decode_score(resource@),
    {
        let magic: [u8; 4] = [0x4f, 0x67, 0x67, 0x53];
        proof {
            assert(magic@ =~= ogg_magic());
        }
        if crate::textfmt::starts_with_bytes(resource.data.as_slice(), magic.as_slice()) {
            100
        } else {
            0
        }
    }

    pub fn decode(&self, resource: &mut Resource) -> (r: Result<(), DecodingError>)
        ensures
            r is Ok,
            final(resource)@ == ogg_decode_model(old(resource)@),
    {
        let tag: [u8; 3] = [0x6f, 0x67, 0x67];
        proof {
            assert(tag@ =~= ogg_tag());
        }
        resource.extension = Some(vstd::slice::slice_to_vec(tag.as_slice()));
        Ok(())
    }

    pub fn matches_encoder(&self, resource: &Resource) -> (score: usize)
        ensures
            score == ogg_encode_score(resource@),
    {
        let tag: [u8; 3] = [0x6f, 0x67, 0x67];
        proof {
            assert(tag@ =~= ogg_tag());
        }
        if crate::resource::opt_tag_is(&resource.extension, tag.as_slice()) {
            100
        } else {
            0
        }
    }

    pub fn load_subresources(
        &self,
        _store: &FileStore,
        _base: &[u8],
        resource: &mut Resource,
    ) -> (r: Result<(), EncodingError>)
        ensures
            r is Ok,
            *final(resource) == *old(resource),
    {
        Ok(())
    }

    pub fn encode(&self, resource: &mut Resource) -> (r: Result<(), EncodingError>)
        ensures
            r is Ok,
            *final(resource) == *old(resource),
    {
        Ok(())
    }
}

} // verus!
