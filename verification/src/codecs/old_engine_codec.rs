use vstd::prelude::*;

use crate::error::{DecodeFailure, DecodingError, EncodingError};
use crate::resource::{Resource, ResourceModel};
use crate::store::FileStore;
use crate::textfmt::{dec_digits, has_prefix, trim_spaces};
use vstd::bytes::spec_u16_from_le_bytes;

verus! {

use vstd::string::StringExecFns;

/// Recognizes assets of the older engine generation by one of five
/// six-character type headers followed by a 16-bit version.
pub struct OldEngineCodec;

/// `ChrTxt`
pub open spec fn hdr_chrtxt() -> Seq<u8> {
    seq![0x43u8, 0x68u8, 0x72u8, 0x54u8, 0x78u8, 0x74u8]
}

/// `Script`
pub open spec fn hdr_script() -> Seq<u8> {
    seq![0x53u8, 0x63u8, 0x72u8, 0x69u8, 0x70u8, 0x74u8]
}

/// `LyrIdx`
pub open spec fn hdr_lyridx() -> Seq<u8> {
    seq![0x4cu8, 0x79u8, 0x72u8, 0x49u8, 0x64u8, 0x78u8]
}

/// `Compat`
pub open spec fn hdr_compat() -> Seq<u8> {
    seq![0x43u8, 0x6fu8, 0x6du8, 0x70u8, 0x61u8, 0x74u8]
}

/// `Sprite`
pub open spec fn hdr_sprite() -> Seq<u8> {
    seq![0x53u8, 0x70u8, 0x72u8, 0x69u8, 0x74u8, 0x65u8]
}

/// The content tag `oldengine`.
pub open spec fn old_engine_tag() -> Seq<u8> {
    seq![0x6fu8, 0x6cu8, 0x64u8, 0x65u8, 0x6eu8, 0x67u8, 0x69u8, 0x6eu8, 0x65u8]
}

pub open spec fn old_engine_decode_score(m: ResourceModel) -> usize {
    if has_prefix(m.data, hdr_chrtxt()) || has_prefix(m.data, hdr_script()) || has_prefix(
        m.data,
        hdr_lyridx(),
    ) || has_prefix(m.data, hdr_compat()) || has_prefix(m.data, hdr_sprite()) {
        100
    } else {
        0
    }
}

pub open spec fn old_engine_encode_score(m: ResourceModel) -> usize {
    if m.extension == Some(old_engine_tag()) {
        100
    } else {
        0
    }
}

/// The format tag: the six header characters, trimmed, then the decimal
/// version read little-endian from bytes 6 and 7.
pub open spec fn old_engine_format_of(data: Seq<u8>) -> Seq<u8> {
    trim_spaces(data.subrange(0, 6)) + dec_digits(
        spec_u16_from_le_bytes(data.subrange(6, 8)) as nat,
    )
}

/// Decoding tags the resource and derives its format from the header; a
/// payload too short for the version field is a parse error.
pub open spec fn old_engine_decode_model(m: ResourceModel) -> Result<
    ResourceModel,
    DecodeFailure,
> {
    if m.data.len() < 8 {
        Err(DecodeFailure::Parse)
    } else {
        Ok(
            ResourceModel {
                extension: Some(old_engine_tag()),
                format: Some(old_engine_format_of(m.data)),
                ..m
            },
        )
    }
}

impl OldEngineCodec {
    pub fn matches_decoder(&self, resource: &Resource) -> (score: usize)
        ensures
            score == old_engine_decode_score(resource@),
    {
        let h0: [u8; 6] = [0x43, 0x68, 0x72, 0x54, 0x78, 0x74];
        let h1: [u8; 6] = [0x53, 0x63, 0x72, 0x69, 0x70, 0x74];
        let h2: [u8; 6] = [0x4c, 0x79, 0x72, 0x49, 0x64, 0x78];
        let h3: [u8; 6] = [0x43, 0x6f, 0x6d, 0x70, 0x61, 0x74];
        let h4: [u8; 6] = [0x53, 0x70, 0x72, 0x69, 0x74, 0x65];
        proof {
            assert(h0@ =~= hdr_chrtxt());
            assert(h1@ =~= hdr_script());
            assert(h2@ =~= hdr_lyridx());
            assert(h3@ =~= hdr_compat());
            assert(h4@ =~= hdr_sprite());
        }
        let data = resource.data.as_slice();
        if crate::textfmt::starts_with_bytes(data, h0.as_slice())
            || crate::textfmt::starts_with_bytes(data, h1.as_slice())
            || crate::textfmt::starts_with_bytes(data, h2.as_slice())
            || crate::textfmt::starts_with_bytes(data, h3.as_slice())
            || crate::textfmt::starts_with_bytes(data, h4.as_slice()) {
            100
        } else {
            0
        }
    }

    pub fn decode(&self, resource: &mut Resource) -> (r: Result<(), DecodingError>)
        ensures
            match old_engine_decode_model(old(resource)@) {
                Ok(m) => r is Ok && final(resource)@ == m,
                Err(k) => (r matches Err(e) && e.kind() == k) && *final(resource) == *old(
                    resource,
                ),
            },
    {
        if resource.data.len() < 8 {
            return Err(
                DecodingError::ParsingError(
                    String::from_str("header is too short for a version field"),
                ),
            );
        }
        let head = vstd::slice::slice_subrange(resource.data.as_slice(), 0, 6);
        let mut format = crate::textfmt::trim_spaces_bytes(head);
        let version = crate::textfmt::read_u16_le(resource.data.as_slice(), 6);
        let mut digits = crate::textfmt::u32_to_dec(version as u32);
        format.append(&mut digits);
        let tag: [u8; 9] = [0x6f, 0x6c, 0x64, 0x65, 0x6e, 0x67, 0x69, 0x6e, 0x65];
        proof {
            assert(tag@ =~= old_engine_tag());
            assert(format@ == old_engine_format_of(resource.data@));
        }
        resource.format = Some(format);
        resource.extension = Some(vstd::slice::slice_to_vec(tag.as_slice()));
        Ok(())
    }

    pub fn matches_encoder(&self, resource: &Resource) -> (score: usize)
        ensures
            score == old_engine_encode_score(resource@),
    {
        let tag: [u8; 9] = [0x6f, 0x6c, 0x64, 0x65, 0x6e, 0x67, 0x69, 0x6e, 0x65];
        proof {
            assert(tag@ =~= old_engine_tag());
        }
        if crate::resource::opt_tag_is(&resource.extension, tag.as_slice()) {
            100
        } else {
            0
        }
    }

    pub fn load_subresources(
        &self,
        _store: &FileStore,
        _base: &[u8],
        resource: &mut Resource,
    ) -> (r: Result<(), EncodingError>)
        ensures
            r is Ok,
            *final(resource) == *old(resource),
    {
        Ok(())
    }

    pub fn encode(&self, resource: &mut Resource) -> (r: Result<(), EncodingError>)
        ensures
            r is Ok,
            *final(resource) == *old(resource),
    {
        Ok(())
    }
}

} // verus!
