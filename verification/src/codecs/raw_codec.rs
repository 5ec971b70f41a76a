use vstd::prelude::*;

use crate::error::{DecodingError, EncodingError};
use crate::resource::{Resource, ResourceModel};
use crate::store::FileStore;

verus! {

/// The catch-all codec: matches everything with the lowest nonzero score, so
/// unknown data always decodes, tagged `raw` and hidden from default
/// materialization.
pub struct RawCodec;

/// The content tag `raw`.
pub open spec fn raw_tag() -> Seq<u8> {
    seq![0x72u8, 0x61u8, 0x77u8]
}

pub open spec fn raw_decode_score(m: ResourceModel) -> usize {
    10
}

pub open spec fn raw_encode_score(m: ResourceModel) -> usize {
    10
}

/// Decoding tags the resource `raw` and marks it invisible; the payload
/// passes through unchanged.
pub open spec fn raw_decode_model(m: ResourceModel) -> ResourceModel {
    ResourceModel { extension: Some(raw_tag()), hidden: true, ..m }
}

impl RawCodec {
    pub fn matches_decoder(&self, resource: &Resource) -> (score: usize)
        ensures
            score == raw_decode_score(resource@),
    {
        10
    }

    pub fn decode(&self, resource: &mut Resource) -> (r: Result<(), DecodingError>)
        ensures
            r is Ok,
            final(resource)@ == raw_decode_model(old(resource)@),
    {
        let tag: [u8; 3] = [0x72, 0x61, 0x77];
        proof {
            assert(tag@ =~= raw_tag());
        }
        resource.extension = Some(vstd::slice::slice_to_vec(tag.as_slice()));
        resource.hidden = true;
        Ok(())
    }

    pub fn matches_encoder(&self, resource: &Resource) -> (score: usize)
        ensures
            score == raw_encode_score(resource@),
    {
        10
    }

    pub fn load_subresources(
        &self,
        _store: &FileStore,
        _base: &[u8],
        resource: &mut Resource,
    ) -> (r: Result<(), EncodingError>)
        ensures
            r is Ok,
            *final(resource) == *old(resource),
    {
        Ok(())
    }

    pub fn encode(&self, resource: &mut Resource) -> (r: Result<(), EncodingError>)
        ensures
            r is Ok,
            *final(resource) == *old(resource),
    {
        Ok(())
    }
}

} // verus!
