use vstd::prelude::*;

use crate::error::{DecodingError, EncodingError};
use crate::resource::{Resource, ResourceModel};
use crate::store::FileStore;
use crate::textfmt::has_prefix;

verus! {

/// Recognizes WebP images: a RIFF container whose form type is `WEBP`.
pub struct WebpCodec;

/// The bytes `RIFF`.
pub open spec fn riff_magic() -> Seq<u8> {
    seq![0x52u8, 0x49u8, 0x46u8, 0x46u8]
}

/// The bytes `WEBP`, expected at offset 8.
pub open spec fn webp_form() -> Seq<u8> {
    seq![0x57u8, 0x45u8, 0x42u8, 0x50u8]
}

/// The content tag `webp`.
pub open spec fn webp_tag() -> Seq<u8> {
    seq![0x77u8, 0x65u8, 0x62u8, 0x70u8]
}

pub open spec fn webp_decode_score(m: ResourceModel) -> usize {
    if m.data.len() >= 12 && has_prefix(m.data, riff_magic()) && m.data.subrange(8, 12)
        == webp_form() {
        100
    } else {
        0
    }
}

pub open spec fn webp_encode_score(m: ResourceModel) -> usize {
    if m.extension == Some(webp_tag()) {
        100
    } else {
        0
    }
}

/// Decoding only tags the resource; the payload passes through unchanged.
pub open spec fn webp_decode_model(m: ResourceModel) -> ResourceModel {
    ResourceModel { extension: Some(webp_tag()), ..m }
}

impl WebpCodec {
    pub fn matches_decoder(&self, resource: &Resource) -> (score: usize)
        ensures
            score == webp_decode_score(resource@),
    {
        let riff: [u8; 4] = [0x52, 0x49, 0x46, 0x46];
        let form: [u8; 4] = [0x57, 0x45, 0x42, 0x50];
        proof {
            assert(riff@ =~= riff_magic());
            assert(form@ =~= webp_form());
        }
        let data = resource.data.as_slice();
        if data.len() < 12 {
            return 0;
        }
        if !crate::textfmt::starts_with_bytes(data, riff.as_slice()) {
            return 0;
        }
        let part = vstd::slice::slice_subrange(data, 8, 12);
        if crate::textfmt::eq_bytes(part, form.as_slice()) {
            100
        } else {
            0
        }
    }

    pub fn decode(&self, resource: &mut Resource) -> (r: Result<(), DecodingError>)
        ensures
            r is Ok,
            final(resource)@ == webp_decode_model(old(resource)@),
    {
        let tag: [u8; 4] = [0x77, 0x65, 0x62, 0x70];
        proof {
            assert(tag@ =~= webp_tag());
        }
        resource.extension = Some(vstd::slice::slice_to_vec(tag.as_slice()));
        Ok(())
    }

    pub fn matches_encoder(&self, resource: &Resource) -> (score: usize)
        ensures
            score == webp_encode_score(resource@),
    {
        let tag: [u8; 4] = [0x77, 0x65, 0x62, 0x70];
        proof {
            assert(tag@ =~= webp_tag());
        }
        if crate::resource::opt_tag_is(&resource.extension, tag.as_slice()) {
            100
        } else {
            0
        }
    }

    pub fn load_subresources(
        &self,
        _store: &FileStore,
        _base: &[u8],
        resource: &mut Resource,
    ) -> (r: Result<(), EncodingError>)
        ensures
            r is Ok,
            *final(resource) == *old(resource),
    {
        Ok(())
    }

    pub fn encode(&self, resource: &mut Resource) -> (r: Result<(), EncodingError>)
        ensures
            r is Ok,
            *final(resource) == *old(resource),
    {
        Ok(())
    }
}

} // verus!
