use vstd::prelude::*;

use crate::base64::{b64_decode, b64_encode};
use crate::codecs::{json_tag, matched_count};
use crate::compression::{spec_compress, spec_decompress, CompressionFormat};
use crate::error::{DecodeFailure, DecodingError, EncodeFailure, EncodingError};
use crate::json::{colon_sp, comma_nl, concat_all, emit_bool, emit_opt_string, emit_string,
    expect_ws_byte, expect_ws_byte_exec, ind2, ind4, kq_compressed, kq_filename, kq_identifier,
    kq_original_data, nl, parse_bool_field, parse_opt_string_field, parse_string_field,
    parse_u32_field, skip_ws};
use crate::resource::{lemma_models_from, Resource, ResourceModel};
use crate::store::{store_lookup, FileEntryModel, FileStore};
use crate::textfmt::{clamped_slice, dec_digits, has_prefix, spec_u32_at};
use vstd::bytes::spec_u32_to_le_bytes;

verus! {

/// The versioned archive: `VT7A` magic, a version selecting the compression
/// algorithm, a tree identifier, and a directory with per-entry optional
/// compression.
pub struct Vt7aCodec;

/// The archive versions this codec understands.
#[derive(Clone, Copy, Debug)]
pub enum Vt7aVersion {
    Two,
    Three,
}

/// One manifest record of a decoded archive of this format.
pub struct Vt7aItem {
    pub identifier: u32,
    pub compressed: bool,
    pub filename: Vec<u8>,
    pub original_data: Option<Vec<u8>>,
}

/// The manifest record, with its bytes abstracted.
pub struct Vt7aItemModel {
    pub identifier: u32,
    pub compressed: bool,
    pub filename: Seq<u8>,
    pub original_data: Option<Seq<u8>>,
}

impl View for Vt7aItem {
    type V = Vt7aItemModel;

    open spec fn view(&self) -> Vt7aItemModel {
        Vt7aItemModel {
            identifier: self.identifier,
            compressed: self.compressed,
            filename: self.filename@,
            original_data: crate::resource::opt_bytes_view(self.original_data),
        }
    }
}

/// The bytes `VT7A`.
pub open spec fn vt7a_magic() -> Seq<u8> {
    seq![0x56u8, 0x54u8, 0x37u8, 0x41u8]
}

/// The extension tag `vt7a` given to re-encoded archives.
pub open spec fn vt7a_tag() -> Seq<u8> {
    seq![0x76u8, 0x74u8, 0x37u8, 0x61u8]
}

/// The format tag `vt7a2`.
pub open spec fn vt7a2_tag() -> Seq<u8> {
    seq![0x76u8, 0x74u8, 0x37u8, 0x61u8, 0x32u8]
}

/// The format tag `vt7a3`.
pub open spec fn vt7a3_tag() -> Seq<u8> {
    seq![0x76u8, 0x74u8, 0x37u8, 0x61u8, 0x33u8]
}

pub open spec fn vt7a_decode_score(m: ResourceModel) -> usize {
    if has_prefix(m.data, vt7a_magic()) {
        100
    } else {
        0
    }
}

pub open spec fn vt7a_encode_score(m: ResourceModel) -> usize {
    if m.extension == Some(json_tag()) && (m.format == Some(vt7a_tag()) || m.format == Some(
        vt7a2_tag(),
    ) || m.format == Some(vt7a3_tag())) {
        100
    } else {
        0
    }
}


/// The models of a vector of manifest records.
pub open spec fn vt7a_items_view(v: Vec<Vt7aItem>) -> Seq<Vt7aItemModel> {
    Seq::new(v@.len(), |i: int| v@[i]@)
}

/// The inline fallback value as it appears in JSON: base64 text, or null.
pub open spec fn vt7a_item_b64(it: Vt7aItemModel) -> Option<Seq<u8>> {
    match it.original_data {
        Some(d) => Some(b64_encode(d)),
        None => None,
    }
}

// ---------------------------------------------------------------------------
// Manifest emission
// ---------------------------------------------------------------------------
/// The emission chunks of one manifest record.
pub open spec fn vt7a_item_chunks(it: Vt7aItemModel) -> Seq<Seq<u8>> {
    seq![
        ind2(),
        seq![0x7bu8],
        nl(),
        ind4(),
        kq_identifier(),
        colon_sp(),
        dec_digits(it.identifier as nat),
        comma_nl(),
        ind4(),
        kq_compressed(),
        colon_sp(),
        emit_bool(it.compressed),
        comma_nl(),
        ind4(),
        kq_filename(),
        colon_sp(),
        emit_string(it.filename),
        comma_nl(),
        ind4(),
        kq_original_data(),
        colon_sp(),
        emit_opt_string(vt7a_item_b64(it)),
        nl(),
        ind2(),
        seq![0x7du8],
    ]
}

/// One manifest record as JSON text.
pub open spec fn vt7a_item_json(it: Vt7aItemModel) -> Seq<u8> {
    concat_all(vt7a_item_chunks(it))
}

/// The records from `k` on, joined with `,\n`.
pub open spec fn vt7a_items_json(items: Seq<Vt7aItemModel>, k: int) -> Seq<u8>
    decreases items.len() - k,
{
    if k < 0 || k >= items.len() {
        Seq::empty()
    } else if k == items.len() - 1 {
        vt7a_item_json(items[k])
    } else {
        vt7a_item_json(items[k]) + comma_nl() + vt7a_items_json(items, k + 1)
    }
}

/// The whole manifest: a JSON array of records.
pub open spec fn vt7a_manifest_json(items: Seq<Vt7aItemModel>) -> Seq<u8> {
    if items.len() == 0 {
        seq![0x5bu8, 0x5du8]
    } else {
        seq![0x5bu8, 0x0au8] + vt7a_items_json(items, 0) + seq![0x0au8, 0x5du8]
    }
}

/// Append one record's JSON text.
fn emit_vt7a_item(out: &mut Vec<u8>, it: &Vt7aItem)
    ensures
        final(out)@ == old(out)@ + vt7a_item_json(it@),
{
    let mut chunks: Vec<Vec<u8>> = Vec::new();
    let sp2: [u8; 2] = [0x20, 0x20];
    let sp4: [u8; 4] = [0x20, 0x20, 0x20, 0x20];
    let kid: [u8; 12] = [
        0x22,
        0x69,
        0x64,
        0x65,
        0x6e,
        0x74,
        0x69,
        0x66,
        0x69,
        0x65,
        0x72,
        0x22,
    ];
    let kcp: [u8; 12] = [
        0x22,
        0x63,
        0x6f,
        0x6d,
        0x70,
        0x72,
        0x65,
        0x73,
        0x73,
        0x65,
        0x64,
        0x22,
    ];
    let kfn: [u8; 10] = [0x22, 0x66, 0x69, 0x6c, 0x65, 0x6e, 0x61, 0x6d, 0x65, 0x22];
    let kod: [u8; 15] = [
        0x22,
        0x6f,
        0x72,
        0x69,
        0x67,
        0x69,
        0x6e,
        0x61,
        0x6c,
        0x5f,
        0x64,
        0x61,
        0x74,
        0x61,
        0x22,
    ];
    let csp: [u8; 2] = [0x3a, 0x20];
    let cnl: [u8; 2] = [0x2c, 0x0a];
    let tru: [u8; 4] = [0x74, 0x72, 0x75, 0x65];
    let fal: [u8; 5] = [0x66, 0x61, 0x6c, 0x73, 0x65];
    let nul: [u8; 4] = [0x6e, 0x75, 0x6c, 0x6c];
    chunks.push(vstd::slice::slice_to_vec(sp2.as_slice()));
    let mut one: Vec<u8> = Vec::new();
    one.push(0x7b);
    chunks.push(one);
    let mut one: Vec<u8> = Vec::new();
    one.push(0x0a);
    chunks.push(one);
    chunks.push(vstd::slice::slice_to_vec(sp4.as_slice()));
    chunks.push(vstd::slice::slice_to_vec(kid.as_slice()));
    chunks.push(vstd::slice::slice_to_vec(csp.as_slice()));
    chunks.push(crate::textfmt::u32_to_dec(it.identifier));
    chunks.push(vstd::slice::slice_to_vec(cnl.as_slice()));
    chunks.push(vstd::slice::slice_to_vec(sp4.as_slice()));
    chunks.push(vstd::slice::slice_to_vec(kcp.as_slice()));
    chunks.push(vstd::slice::slice_to_vec(csp.as_slice()));
    if it.compressed {
        chunks.push(vstd::slice::slice_to_vec(tru.as_slice()));
    } else {
        chunks.push(vstd::slice::slice_to_vec(fal.as_slice()));
    }
    chunks.push(vstd::slice::slice_to_vec(cnl.as_slice()));
    chunks.push(vstd::slice::slice_to_vec(sp4.as_slice()));
    chunks.push(vstd::slice::slice_to_vec(kfn.as_slice()));
    chunks.push(vstd::slice::slice_to_vec(csp.as_slice()));
    let mut strv: Vec<u8> = Vec::new();
    crate::json::push_json_string(&mut strv, it.filename.as_slice());
    chunks.push(strv);
    chunks.push(vstd::slice::slice_to_vec(cnl.as_slice()));
    chunks.push(vstd::slice::slice_to_vec(sp4.as_slice()));
    chunks.push(vstd::slice::slice_to_vec(kod.as_slice()));
    chunks.push(vstd::slice::slice_to_vec(csp.as_slice()));
    match &it.original_data {
        Some(d) => {
            let b64 = crate::base64::b64_encode_bytes(d.as_slice());
            let mut strv: Vec<u8> = Vec::new();
            crate::json::push_json_string(&mut strv, b64.as_slice());
            chunks.push(strv);
        },
        None => {
            chunks.push(vstd::slice::slice_to_vec(nul.as_slice()));
        },
    }
    let mut one: Vec<u8> = Vec::new();
    one.push(0x0a);
    chunks.push(one);
    chunks.push(vstd::slice::slice_to_vec(sp2.as_slice()));
    let mut one: Vec<u8> = Vec::new();
    one.push(0x7d);
    chunks.push(one);
    proof {
        let cs = vt7a_item_chunks(it@);
        let pv = crate::resource::parts_view(chunks);
        assert(pv[0] =~= cs[0]);
        assert(pv[1] =~= cs[1]);
        assert(pv[2] =~= cs[2]);
        assert(pv[3] =~= cs[3]);
        assert(pv[4] =~= cs[4]);
        assert(pv[5] =~= cs[5]);
        assert(pv[6] =~= cs[6]);
        assert(pv[7] =~= cs[7]);
        assert(pv[8] =~= cs[8]);
        assert(pv[9] =~= cs[9]);
        assert(pv[10] =~= cs[10]);
        assert(pv[11] =~= cs[11]);
        assert(pv[12] =~= cs[12]);
        assert(pv[13] =~= cs[13]);
        assert(pv[14] =~= cs[14]);
        assert(pv[15] =~= cs[15]);
        assert(pv[16] =~= cs[16]);
        assert(pv[17] =~= cs[17]);
        assert(pv[18] =~= cs[18]);
        assert(pv[19] =~= cs[19]);
        assert(pv[20] =~= cs[20]);
        assert(pv[21] =~= cs[21]);
        assert(pv[22] =~= cs[22]);
        assert(pv[23] =~= cs[23]);
        assert(pv[24] =~= cs[24]);
        assert(pv =~~= cs);
    }
    crate::json::push_concat(out, &chunks);
}

/// Serialize the whole manifest.
pub fn emit_vt7a_manifest(items: &Vec<Vt7aItem>) -> (r: Vec<u8>)
    ensures
        r@ == vt7a_manifest_json(vt7a_items_view(*items)),
{
    let ghost iv = vt7a_items_view(*items);
    let mut out: Vec<u8> = Vec::new();
    if items.len() == 0 {
        out.push(0x5b);
        out.push(0x5d);
        proof {
            assert(out@ =~= vt7a_manifest_json(iv));
        }
        return out;
    }
    out.push(0x5b);
    out.push(0x0a);
    let mut k: usize = 0;
    while k < items.len()
        invariant
            0 <= k <= items@.len(),
            items@.len() >= 1,
            iv == vt7a_items_view(*items),
            iv.len() == items@.len(),
            k < items@.len() ==> out@ + vt7a_items_json(iv, k as int) + seq![0x0au8, 0x5du8]
                == vt7a_manifest_json(iv),
            k == items@.len() ==> out@ + seq![0x0au8, 0x5du8] == vt7a_manifest_json(iv),
        decreases items@.len() - k,
    {
        let ghost before = out@;
        emit_vt7a_item(&mut out, &items[k]);
        proof {
            assert(items@[k as int]@ == iv[k as int]);
        }
        if k + 1 < items.len() {
            out.push(0x2c);
            out.push(0x0a);
            proof {
                assert(out@ =~= before + vt7a_item_json(iv[k as int]) + comma_nl());
                assert(vt7a_items_json(iv, k as int) == vt7a_item_json(iv[k as int]) + comma_nl()
                    + vt7a_items_json(iv, k as int + 1));
                assert(out@ + vt7a_items_json(iv, k as int + 1) =~= before + vt7a_items_json(
                    iv,
                    k as int,
                ));
                assert(out@ + vt7a_items_json(iv, k as int + 1) + seq![0x0au8, 0x5du8]
                    =~= before + vt7a_items_json(iv, k as int) + seq![0x0au8, 0x5du8]);
            }
        } else {
            proof {
                assert(vt7a_items_json(iv, k as int) == vt7a_item_json(iv[k as int]));
                assert(out@ + seq![0x0au8, 0x5du8] =~= before + vt7a_items_json(iv, k as int)
                    + seq![0x0au8, 0x5du8]);
            }
        }
        k += 1;
    }
    out.push(0x0a);
    out.push(0x5d);
    proof {
        assert(out@ =~= vt7a_manifest_json(iv));
    }
    out
}

// ---------------------------------------------------------------------------
// Manifest parsing
// ---------------------------------------------------------------------------
/// `{` then the identifier field then the separating comma.
pub open spec fn parse_vt7a_item_head(s: Seq<u8>, i: int) -> Option<(int, u32)> {
    match expect_ws_byte(s, i, 0x7b) {
        None => None,
        Some(i1) => match parse_u32_field(s, i1, kq_identifier()) {
            None => None,
            Some((i2, id)) => match expect_ws_byte(s, i2, 0x2c) {
                None => None,
                Some(i3) => Some((i3, id)),
            },
        },
    }
}

/// The compressed flag then the separating comma.
pub open spec fn parse_vt7a_item_mid(s: Seq<u8>, i: int) -> Option<(int, bool)> {
    match parse_bool_field(s, i, kq_compressed()) {
        None => None,
        Some((i2, c)) => match expect_ws_byte(s, i2, 0x2c) {
            None => None,
            Some(i3) => Some((i3, c)),
        },
    }
}

/// The filename then the separating comma.
pub open spec fn parse_vt7a_item_name(s: Seq<u8>, i: int) -> Option<(int, Seq<u8>)> {
    match parse_string_field(s, i, kq_filename()) {
        None => None,
        Some((i2, f)) => match expect_ws_byte(s, i2, 0x2c) {
            None => None,
            Some(i3) => Some((i3, f)),
        },
    }
}

/// The inline fallback (base64 text or null, decoded) then the closing brace.
pub open spec fn parse_vt7a_item_tail(s: Seq<u8>, i: int) -> Option<(int, Option<Seq<u8>>)> {
    match parse_opt_string_field(s, i, kq_original_data()) {
        None => None,
        Some((i2, o)) => {
            let decoded = match o {
                Some(t) => match b64_decode(t) {
                    Some(d) => Some(Some(d)),
                    None => None,
                },
                None => Some(None),
            };
            match decoded {
                None => None,
                Some(d) => match expect_ws_byte(s, i2, 0x7d) {
                    None => None,
                    Some(i3) => Some((i3, d)),
                },
            }
        },
    }
}

/// One manifest record.
pub open spec fn parse_vt7a_item(s: Seq<u8>, i: int) -> Option<(int, Vt7aItemModel)> {
    match parse_vt7a_item_head(s, i) {
        None => None,
        Some((i3, id)) => match parse_vt7a_item_mid(s, i3) {
            None => None,
            Some((i4, c)) => match parse_vt7a_item_name(s, i4) {
                None => None,
                Some((i5, f)) => match parse_vt7a_item_tail(s, i5) {
                    None => None,
                    Some((i6, d)) => Some(
                        (
                            i6,
                            Vt7aItemModel {
                                identifier: id,
                                compressed: c,
                                filename: f,
                                original_data: d,
                            },
                        ),
                    ),
                },
            },
        },
    }
}

/// The records of a nonempty array from position `i` up to and including the
/// closing bracket.
pub open spec fn parse_vt7a_items_rest(s: Seq<u8>, i: int) -> Option<(int, Seq<Vt7aItemModel>)>
    decreases s.len() - i,
{
    match parse_vt7a_item(s, i) {
        None => None,
        Some((j, it)) => {
            let k = skip_ws(s, j);
            if !(i < k && k < s.len()) {
                None
            } else if s[k] == 0x2c {
                match parse_vt7a_items_rest(s, k + 1) {
                    None => None,
                    Some((e, rest)) => Some((e, seq![it] + rest)),
                }
            } else if s[k] == 0x5d {
                Some((k + 1, seq![it]))
            } else {
                None
            }
        },
    }
}

/// The whole manifest: a strict JSON array of records.
pub open spec fn parse_vt7a_manifest(s: Seq<u8>) -> Option<Seq<Vt7aItemModel>> {
    match expect_ws_byte(s, 0, 0x5b) {
        None => None,
        Some(i1) => {
            let k = skip_ws(s, i1);
            if k < s.len() && s[k] == 0x5d {
                if skip_ws(s, k + 1) == s.len() {
                    Some(Seq::empty())
                } else {
                    None
                }
            } else {
                match parse_vt7a_items_rest(s, i1) {
                    None => None,
                    Some((e, items)) => if skip_ws(s, e) == s.len() {
                        Some(items)
                    } else {
                        None
                    },
                }
            }
        },
    }
}

/// Parse one record.
fn parse_vt7a_item_exec(s: &[u8], i: usize) -> (r: Option<(usize, Vt7aItem)>)
    requires
        i <= s@.len(),
    ensures
        match r {
            Some(p) => (parse_vt7a_item(s@, i as int) matches Some(q) && q.0 == p.0 && q.1 == p.1@)
                && i < p.0 <= s@.len(),
            None => parse_vt7a_item(s@, i as int) is None,
        },
{
    let i1 = match expect_ws_byte_exec(s, i, 0x7b) {
        Some(v) => v,
        None => {
            return None;
        },
    };
    let kid: [u8; 12] = [
        0x22,
        0x69,
        0x64,
        0x65,
        0x6e,
        0x74,
        0x69,
        0x66,
        0x69,
        0x65,
        0x72,
        0x22,
    ];
    proof {
        assert(kid@ =~= kq_identifier());
    }
    let (i2, id) = match crate::json::parse_u32_field_exec(s, i1, kid.as_slice()) {
        Some(p) => p,
        None => {
            return None;
        },
    };
    let i3 = match expect_ws_byte_exec(s, i2, 0x2c) {
        Some(v) => v,
        None => {
            return None;
        },
    };
    let kcp: [u8; 12] = [
        0x22,
        0x63,
        0x6f,
        0x6d,
        0x70,
        0x72,
        0x65,
        0x73,
        0x73,
        0x65,
        0x64,
        0x22,
    ];
    proof {
        assert(kcp@ =~= kq_compressed());
    }
    let (i4, comp) = match crate::json::parse_bool_field_exec(s, i3, kcp.as_slice()) {
        Some(p) => p,
        None => {
            return None;
        },
    };
    let i5 = match expect_ws_byte_exec(s, i4, 0x2c) {
        Some(v) => v,
        None => {
            return None;
        },
    };
    let kfn: [u8; 10] = [0x22, 0x66, 0x69, 0x6c, 0x65, 0x6e, 0x61, 0x6d, 0x65, 0x22];
    proof {
        assert(kfn@ =~= kq_filename());
    }
    let (i6, fname) = match crate::json::parse_string_field_exec(s, i5, kfn.as_slice()) {
        Some(p) => p,
        None => {
            return None;
        },
    };
    let i7 = match expect_ws_byte_exec(s, i6, 0x2c) {
        Some(v) => v,
        None => {
            return None;
        },
    };
    let kod: [u8; 15] = [
        0x22,
        0x6f,
        0x72,
        0x69,
        0x67,
        0x69,
        0x6e,
        0x61,
        0x6c,
        0x5f,
        0x64,
        0x61,
        0x74,
        0x61,
        0x22,
    ];
    proof {
        assert(kod@ =~= kq_original_data());
    }
    let (i8, odata) = match crate::json::parse_opt_string_field_exec(s, i7, kod.as_slice()) {
        Some(p) => p,
        None => {
            return None;
        },
    };
    let decoded: Option<Vec<u8>> = match odata {
        Some(t) => {
            match crate::base64::b64_decode_bytes(t.as_slice()) {
                Some(d) => Some(d),
                None => {
                    return None;
                },
            }
        },
        None => None,
    };
    let i9 = match expect_ws_byte_exec(s, i8, 0x7d) {
        Some(v) => v,
        None => {
            return None;
        },
    };
    Some(
        (
            i9,
            Vt7aItem { identifier: id, compressed: comp, filename: fname, original_data: decoded },
        ),
    )
}

/// Parse the records of a nonempty array.
fn parse_vt7a_items_rest_exec(s: &[u8], i: usize) -> (r: Option<(usize, Vec<Vt7aItem>)>)
    requires
        i <= s@.len(),
    ensures
        match r {
            Some(p) => (parse_vt7a_items_rest(s@, i as int) matches Some(q) && q.0 == p.0 && q.1
                == vt7a_items_view(p.1)) && i < p.0 <= s@.len(),
            None => parse_vt7a_items_rest(s@, i as int) is None,
        },
    decreases s@.len() - i,
{
    let (j, it) = match parse_vt7a_item_exec(s, i) {
        Some(p) => p,
        None => {
            return None;
        },
    };
    let k = crate::json::ws(s, j);
    if !(k < s.len()) {
        return None;
    }
    let b = s[k];
    if b == 0x2c {
        match parse_vt7a_items_rest_exec(s, k + 1) {
            Some((e, rest)) => {
                let mut all = rest;
                all.insert(0, it);
                proof {
                    let q = parse_vt7a_items_rest(s@, i as int)->Some_0;
                    assert(vt7a_items_view(all) =~~= q.1);
                }
                Some((e, all))
            },
            None => None,
        }
    } else if b == 0x5d {
        let mut one: Vec<Vt7aItem> = Vec::new();
        one.push(it);
        proof {
            let q = parse_vt7a_items_rest(s@, i as int)->Some_0;
            assert(vt7a_items_view(one) =~~= q.1);
        }
        Some((k + 1, one))
    } else {
        None
    }
}

/// Parse the whole manifest.
pub fn parse_vt7a_manifest_exec(s: &[u8]) -> (r: Option<Vec<Vt7aItem>>)
    ensures
        match r {
            Some(v) => parse_vt7a_manifest(s@) == Some(vt7a_items_view(v)),
            None => parse_vt7a_manifest(s@) is None,
        },
{
    let i1 = match expect_ws_byte_exec(s, 0, 0x5b) {
        Some(v) => v,
        None => {
            return None;
        },
    };
    let k = crate::json::ws(s, i1);
    if k < s.len() {
        let b = s[k];
        if b == 0x5d {
            if crate::json::ws(s, k + 1) == s.len() {
                let empty: Vec<Vt7aItem> = Vec::new();
                proof {
                    assert(vt7a_items_view(empty) =~~= Seq::<Vt7aItemModel>::empty());
                }
                return Some(empty);
            }
            return None;
        }
    }
    match parse_vt7a_items_rest_exec(s, i1) {
        Some((e, items)) => {
            if crate::json::ws(s, e) == s.len() {
                Some(items)
            } else {
                None
            }
        },
        None => None,
    }
}


// ---------------------------------------------------------------------------
// Manifest round trip
// ---------------------------------------------------------------------------
/// The first half of a record: the brace, the identifier and the flag.
#[verifier::rlimit(100)]
#[verifier::spinoff_prover]
proof fn lemma_parse_emit_vt7a_item_head(s: Seq<u8>, i: int, a: int, it: Vt7aItemModel)
    requires
        0 <= i <= a,
        forall|k: int| i <= k < a ==> crate::json::is_json_ws(#[trigger] s[k]),
        a + vt7a_item_json(it).len() <= s.len(),
        s.subrange(a, a + vt7a_item_json(it).len() as int) == vt7a_item_json(it),
    ensures
        parse_vt7a_item_head(s, i) == Some(
            (a + crate::json::offset_of(vt7a_item_chunks(it), 7) + 1, it.identifier),
        ),
        parse_vt7a_item_mid(s, a + crate::json::offset_of(vt7a_item_chunks(it), 7) + 1) == Some(
            (a + crate::json::offset_of(vt7a_item_chunks(it), 12) + 1, it.compressed),
        ),
        skip_ws(s, i) == a + 2,
        s[a + 2] == 0x7b,
{
    let cs = vt7a_item_chunks(it);
    let whole = vt7a_item_json(it);
    crate::json::lemma_concat_all_len(cs);
    let o0 = a + crate::json::offset_of(cs, 0);
    let o1 = a + crate::json::offset_of(cs, 1);
    let o2 = a + crate::json::offset_of(cs, 2);
    let o3 = a + crate::json::offset_of(cs, 3);
    let o4 = a + crate::json::offset_of(cs, 4);
    let o5 = a + crate::json::offset_of(cs, 5);
    let o6 = a + crate::json::offset_of(cs, 6);
    let o7 = a + crate::json::offset_of(cs, 7);
    let o8 = a + crate::json::offset_of(cs, 8);
    let o9 = a + crate::json::offset_of(cs, 9);
    let o10 = a + crate::json::offset_of(cs, 10);
    let o11 = a + crate::json::offset_of(cs, 11);
    let o12 = a + crate::json::offset_of(cs, 12);
    let o13 = a + crate::json::offset_of(cs, 13);
    let o14 = a + crate::json::offset_of(cs, 14);
    let o15 = a + crate::json::offset_of(cs, 15);
    let o16 = a + crate::json::offset_of(cs, 16);
    let o17 = a + crate::json::offset_of(cs, 17);
    let o18 = a + crate::json::offset_of(cs, 18);
    let o19 = a + crate::json::offset_of(cs, 19);
    let o20 = a + crate::json::offset_of(cs, 20);
    let o21 = a + crate::json::offset_of(cs, 21);
    let o22 = a + crate::json::offset_of(cs, 22);
    let o23 = a + crate::json::offset_of(cs, 23);
    let o24 = a + crate::json::offset_of(cs, 24);
    assert(crate::json::offset_of(cs, 1) == crate::json::offset_of(cs, 0) + cs[0].len());
    assert(crate::json::offset_of(cs, 2) == crate::json::offset_of(cs, 1) + cs[1].len());
    assert(crate::json::offset_of(cs, 3) == crate::json::offset_of(cs, 2) + cs[2].len());
    assert(crate::json::offset_of(cs, 4) == crate::json::offset_of(cs, 3) + cs[3].len());
    assert(crate::json::offset_of(cs, 5) == crate::json::offset_of(cs, 4) + cs[4].len());
    assert(crate::json::offset_of(cs, 6) == crate::json::offset_of(cs, 5) + cs[5].len());
    assert(crate::json::offset_of(cs, 7) == crate::json::offset_of(cs, 6) + cs[6].len());
    assert(crate::json::offset_of(cs, 8) == crate::json::offset_of(cs, 7) + cs[7].len());
    assert(crate::json::offset_of(cs, 9) == crate::json::offset_of(cs, 8) + cs[8].len());
    assert(crate::json::offset_of(cs, 10) == crate::json::offset_of(cs, 9) + cs[9].len());
    assert(crate::json::offset_of(cs, 11) == crate::json::offset_of(cs, 10) + cs[10].len());
    assert(crate::json::offset_of(cs, 12) == crate::json::offset_of(cs, 11) + cs[11].len());
    assert(crate::json::offset_of(cs, 13) == crate::json::offset_of(cs, 12) + cs[12].len());
    assert(crate::json::offset_of(cs, 14) == crate::json::offset_of(cs, 13) + cs[13].len());
    assert(crate::json::offset_of(cs, 15) == crate::json::offset_of(cs, 14) + cs[14].len());
    assert(crate::json::offset_of(cs, 16) == crate::json::offset_of(cs, 15) + cs[15].len());
    assert(crate::json::offset_of(cs, 17) == crate::json::offset_of(cs, 16) + cs[16].len());
    assert(crate::json::offset_of(cs, 18) == crate::json::offset_of(cs, 17) + cs[17].len());
    assert(crate::json::offset_of(cs, 19) == crate::json::offset_of(cs, 18) + cs[18].len());
    assert(crate::json::offset_of(cs, 20) == crate::json::offset_of(cs, 19) + cs[19].len());
    assert(crate::json::offset_of(cs, 21) == crate::json::offset_of(cs, 20) + cs[20].len());
    assert(crate::json::offset_of(cs, 22) == crate::json::offset_of(cs, 21) + cs[21].len());
    assert(crate::json::offset_of(cs, 23) == crate::json::offset_of(cs, 22) + cs[22].len());
    assert(crate::json::offset_of(cs, 24) == crate::json::offset_of(cs, 23) + cs[23].len());
    assert(crate::json::offset_of(cs, 25) == crate::json::offset_of(cs, 24) + cs[24].len());
    crate::json::lemma_concat_all_chunk(s, a, cs, 0);
    crate::json::lemma_concat_all_chunk(s, a, cs, 1);
    crate::json::lemma_concat_all_chunk(s, a, cs, 2);
    crate::json::lemma_concat_all_chunk(s, a, cs, 3);
    crate::json::lemma_concat_all_chunk(s, a, cs, 4);
    crate::json::lemma_concat_all_chunk(s, a, cs, 5);
    crate::json::lemma_concat_all_chunk(s, a, cs, 6);
    crate::json::lemma_concat_all_chunk(s, a, cs, 7);
    crate::json::lemma_concat_all_chunk(s, a, cs, 8);
    crate::json::lemma_concat_all_chunk(s, a, cs, 9);
    crate::json::lemma_concat_all_chunk(s, a, cs, 10);
    crate::json::lemma_concat_all_chunk(s, a, cs, 11);
    crate::json::lemma_concat_all_chunk(s, a, cs, 12);
    // the opening brace
    crate::json::lemma_ws_ind2(cs[0]);
    crate::json::lemma_ws_chunk(s, o0, cs[0]);
    crate::json::lemma_chunk_byte_at(s, o1, cs[1], 0);
    assert(s[o1] == 0x7b);
    crate::json::lemma_skip_ws_run(s, i, o1);
    assert(expect_ws_byte(s, i, 0x7b) == Some(o1 + 1));
    assert(o1 + 1 == o2);
    // the identifier field
    crate::json::lemma_ws_nl(cs[2]);
    crate::json::lemma_ws_chunk(s, o2, cs[2]);
    crate::json::lemma_ws_ind4(cs[3]);
    crate::json::lemma_ws_chunk(s, o3, cs[3]);
    crate::json::lemma_chunk_byte_at(s, o5, cs[5], 0);
    crate::json::lemma_chunk_byte_at(s, o5, cs[5], 1);
    assert(s[o4 + kq_identifier().len()] == 0x3a);
    assert(s[o4 + kq_identifier().len() + 1] == 0x20);
    crate::json::lemma_chunk_byte_at(s, o7, cs[7], 0);
    assert(s[o7] == 0x2c);
    assert(!crate::textfmt::is_ascii_digit(0x2cu8));
    assert(kq_identifier()[0] == 0x22);
    crate::json::lemma_u32_field_at(s, o2, o4, kq_identifier(), it.identifier);
    assert(parse_u32_field(s, o2, kq_identifier()) == Some((o7, it.identifier)));
    crate::json::lemma_skip_ws_run(s, o7, o7);
    assert(expect_ws_byte(s, o7, 0x2c) == Some(o7 + 1));
    assert(parse_vt7a_item_head(s, i) == Some((o7 + 1, it.identifier)));
    // the compressed field
    crate::json::lemma_chunk_byte_at(s, o7, cs[7], 1);
    assert(crate::json::is_json_ws(s[o7 + 1]));
    crate::json::lemma_ws_ind4(cs[8]);
    crate::json::lemma_ws_chunk(s, o8, cs[8]);
    crate::json::lemma_chunk_byte_at(s, o10, cs[10], 0);
    crate::json::lemma_chunk_byte_at(s, o10, cs[10], 1);
    assert(s[o9 + kq_compressed().len()] == 0x3a);
    assert(s[o9 + kq_compressed().len() + 1] == 0x20);
    assert(kq_compressed()[0] == 0x22);
    crate::json::lemma_bool_field_at(s, o7 + 1, o9, kq_compressed(), it.compressed);
    assert(parse_bool_field(s, o7 + 1, kq_compressed()) == Some((o12, it.compressed)));
    crate::json::lemma_chunk_byte_at(s, o12, cs[12], 0);
    assert(s[o12] == 0x2c);
    crate::json::lemma_skip_ws_run(s, o12, o12);
    assert(expect_ws_byte(s, o12, 0x2c) == Some(o12 + 1));
    assert(parse_vt7a_item_mid(s, o7 + 1) == Some((o12 + 1, it.compressed)));
}

/// The second half of a record: the filename, the fallback, the brace.
#[verifier::rlimit(100)]
#[verifier::spinoff_prover]
proof fn lemma_parse_emit_vt7a_item_tail(s: Seq<u8>, a: int, it: Vt7aItemModel)
    requires
        0 <= a,
        a + vt7a_item_json(it).len() <= s.len(),
        s.subrange(a, a + vt7a_item_json(it).len() as int) == vt7a_item_json(it),
    ensures
        parse_vt7a_item_name(s, a + crate::json::offset_of(vt7a_item_chunks(it), 12) + 1) == Some(
            (a + crate::json::offset_of(vt7a_item_chunks(it), 17) + 1, it.filename),
        ),
        parse_vt7a_item_tail(s, a + crate::json::offset_of(vt7a_item_chunks(it), 17) + 1) == Some(
            (a + vt7a_item_json(it).len() as int, it.original_data),
        ),
{
    let cs = vt7a_item_chunks(it);
    let whole = vt7a_item_json(it);
    crate::json::lemma_concat_all_len(cs);
    let o0 = a + crate::json::offset_of(cs, 0);
    let o1 = a + crate::json::offset_of(cs, 1);
    let o2 = a + crate::json::offset_of(cs, 2);
    let o3 = a + crate::json::offset_of(cs, 3);
    let o4 = a + crate::json::offset_of(cs, 4);
    let o5 = a + crate::json::offset_of(cs, 5);
    let o6 = a + crate::json::offset_of(cs, 6);
    let o7 = a + crate::json::offset_of(cs, 7);
    let o8 = a + crate::json::offset_of(cs, 8);
    let o9 = a + crate::json::offset_of(cs, 9);
    let o10 = a + crate::json::offset_of(cs, 10);
    let o11 = a + crate::json::offset_of(cs, 11);
    let o12 = a + crate::json::offset_of(cs, 12);
    let o13 = a + crate::json::offset_of(cs, 13);
    let o14 = a + crate::json::offset_of(cs, 14);
    let o15 = a + crate::json::offset_of(cs, 15);
    let o16 = a + crate::json::offset_of(cs, 16);
    let o17 = a + crate::json::offset_of(cs, 17);
    let o18 = a + crate::json::offset_of(cs, 18);
    let o19 = a + crate::json::offset_of(cs, 19);
    let o20 = a + crate::json::offset_of(cs, 20);
    let o21 = a + crate::json::offset_of(cs, 21);
    let o22 = a + crate::json::offset_of(cs, 22);
    let o23 = a + crate::json::offset_of(cs, 23);
    let o24 = a + crate::json::offset_of(cs, 24);
    assert(crate::json::offset_of(cs, 1) == crate::json::offset_of(cs, 0) + cs[0].len());
    assert(crate::json::offset_of(cs, 2) == crate::json::offset_of(cs, 1) + cs[1].len());
    assert(crate::json::offset_of(cs, 3) == crate::json::offset_of(cs, 2) + cs[2].len());
    assert(crate::json::offset_of(cs, 4) == crate::json::offset_of(cs, 3) + cs[3].len());
    assert(crate::json::offset_of(cs, 5) == crate::json::offset_of(cs, 4) + cs[4].len());
    assert(crate::json::offset_of(cs, 6) == crate::json::offset_of(cs, 5) + cs[5].len());
    assert(crate::json::offset_of(cs, 7) == crate::json::offset_of(cs, 6) + cs[6].len());
    assert(crate::json::offset_of(cs, 8) == crate::json::offset_of(cs, 7) + cs[7].len());
    assert(crate::json::offset_of(cs, 9) == crate::json::offset_of(cs, 8) + cs[8].len());
    assert(crate::json::offset_of(cs, 10) == crate::json::offset_of(cs, 9) + cs[9].len());
    assert(crate::json::offset_of(cs, 11) == crate::json::offset_of(cs, 10) + cs[10].len());
    assert(crate::json::offset_of(cs, 12) == crate::json::offset_of(cs, 11) + cs[11].len());
    assert(crate::json::offset_of(cs, 13) == crate::json::offset_of(cs, 12) + cs[12].len());
    assert(crate::json::offset_of(cs, 14) == crate::json::offset_of(cs, 13) + cs[13].len());
    assert(crate::json::offset_of(cs, 15) == crate::json::offset_of(cs, 14) + cs[14].len());
    assert(crate::json::offset_of(cs, 16) == crate::json::offset_of(cs, 15) + cs[15].len());
    assert(crate::json::offset_of(cs, 17) == crate::json::offset_of(cs, 16) + cs[16].len());
    assert(crate::json::offset_of(cs, 18) == crate::json::offset_of(cs, 17) + cs[17].len());
    assert(crate::json::offset_of(cs, 19) == crate::json::offset_of(cs, 18) + cs[18].len());
    assert(crate::json::offset_of(cs, 20) == crate::json::offset_of(cs, 19) + cs[19].len());
    assert(crate::json::offset_of(cs, 21) == crate::json::offset_of(cs, 20) + cs[20].len());
    assert(crate::json::offset_of(cs, 22) == crate::json::offset_of(cs, 21) + cs[21].len());
    assert(crate::json::offset_of(cs, 23) == crate::json::offset_of(cs, 22) + cs[22].len());
    assert(crate::json::offset_of(cs, 24) == crate::json::offset_of(cs, 23) + cs[23].len());
    assert(crate::json::offset_of(cs, 25) == crate::json::offset_of(cs, 24) + cs[24].len());
    crate::json::lemma_concat_all_chunk(s, a, cs, 12);
    crate::json::lemma_concat_all_chunk(s, a, cs, 13);
    crate::json::lemma_concat_all_chunk(s, a, cs, 14);
    crate::json::lemma_concat_all_chunk(s, a, cs, 15);
    crate::json::lemma_concat_all_chunk(s, a, cs, 16);
    crate::json::lemma_concat_all_chunk(s, a, cs, 17);
    crate::json::lemma_concat_all_chunk(s, a, cs, 18);
    crate::json::lemma_concat_all_chunk(s, a, cs, 19);
    crate::json::lemma_concat_all_chunk(s, a, cs, 20);
    crate::json::lemma_concat_all_chunk(s, a, cs, 21);
    crate::json::lemma_concat_all_chunk(s, a, cs, 22);
    crate::json::lemma_concat_all_chunk(s, a, cs, 23);
    crate::json::lemma_concat_all_chunk(s, a, cs, 24);
    // the filename field
    crate::json::lemma_chunk_byte_at(s, o12, cs[12], 1);
    assert(crate::json::is_json_ws(s[o12 + 1]));
    crate::json::lemma_ws_ind4(cs[13]);
    crate::json::lemma_ws_chunk(s, o13, cs[13]);
    crate::json::lemma_chunk_byte_at(s, o15, cs[15], 0);
    crate::json::lemma_chunk_byte_at(s, o15, cs[15], 1);
    assert(s[o14 + kq_filename().len()] == 0x3a);
    assert(s[o14 + kq_filename().len() + 1] == 0x20);
    assert(kq_filename()[0] == 0x22);
    crate::json::lemma_string_field_at(s, o12 + 1, o14, kq_filename(), it.filename);
    assert(parse_string_field(s, o12 + 1, kq_filename()) == Some((o17, it.filename)));
    crate::json::lemma_chunk_byte_at(s, o17, cs[17], 0);
    assert(s[o17] == 0x2c);
    crate::json::lemma_skip_ws_run(s, o17, o17);
    assert(expect_ws_byte(s, o17, 0x2c) == Some(o17 + 1));
    assert(parse_vt7a_item_name(s, o12 + 1) == Some((o17 + 1, it.filename)));
    // the inline fallback field
    crate::json::lemma_chunk_byte_at(s, o17, cs[17], 1);
    assert(crate::json::is_json_ws(s[o17 + 1]));
    crate::json::lemma_ws_ind4(cs[18]);
    crate::json::lemma_ws_chunk(s, o18, cs[18]);
    crate::json::lemma_chunk_byte_at(s, o20, cs[20], 0);
    crate::json::lemma_chunk_byte_at(s, o20, cs[20], 1);
    assert(s[o19 + kq_original_data().len()] == 0x3a);
    assert(s[o19 + kq_original_data().len() + 1] == 0x20);
    assert(kq_original_data()[0] == 0x22);
    crate::json::lemma_opt_string_field_at(s, o17 + 1, o19, kq_original_data(), vt7a_item_b64(it));
    assert(parse_opt_string_field(s, o17 + 1, kq_original_data()) == Some(
        (o22, vt7a_item_b64(it)),
    ));
    match it.original_data {
        Some(d) => {
            crate::base64::lemma_b64_round_trip(d);
            assert(b64_decode(b64_encode(d)) == Some(d));
        },
        None => {},
    }
    // the closing brace
    crate::json::lemma_ws_nl(cs[22]);
    crate::json::lemma_ws_chunk(s, o22, cs[22]);
    crate::json::lemma_ws_ind2(cs[23]);
    crate::json::lemma_ws_chunk(s, o23, cs[23]);
    crate::json::lemma_chunk_byte_at(s, o24, cs[24], 0);
    assert(s[o24] == 0x7d);
    crate::json::lemma_skip_ws_run(s, o22, o24);
    assert(expect_ws_byte(s, o22, 0x7d) == Some(o24 + 1));
    assert(parse_vt7a_item_tail(s, o17 + 1) == Some((o24 + 1, it.original_data)));
    assert(o24 + 1 == a + whole.len());
}

/// An emitted record, preceded by whitespace, parses back to itself.
proof fn lemma_parse_emit_vt7a_item(s: Seq<u8>, i: int, a: int, it: Vt7aItemModel)
    requires
        0 <= i <= a,
        forall|k: int| i <= k < a ==> crate::json::is_json_ws(#[trigger] s[k]),
        a + vt7a_item_json(it).len() <= s.len(),
        s.subrange(a, a + vt7a_item_json(it).len() as int) == vt7a_item_json(it),
    ensures
        parse_vt7a_item(s, i) == Some((a + vt7a_item_json(it).len() as int, it)),
        skip_ws(s, i) == a + 2,
        s[a + 2] == 0x7b,
{
    lemma_parse_emit_vt7a_item_head(s, i, a, it);
    lemma_parse_emit_vt7a_item_tail(s, a, it);
    assert(Vt7aItemModel {
        identifier: it.identifier,
        compressed: it.compressed,
        filename: it.filename,
        original_data: it.original_data,
    } == it);
}

/// An emitted record list followed by `\n]` parses back to the records.
#[verifier::rlimit(100)]
#[verifier::spinoff_prover]
proof fn lemma_parse_emit_vt7a_items(s: Seq<u8>, i: int, a: int, items: Seq<Vt7aItemModel>, k: int)
    requires
        0 <= i <= a,
        0 <= k < items.len(),
        forall|j: int| i <= j < a ==> crate::json::is_json_ws(#[trigger] s[j]),
        a + vt7a_items_json(items, k).len() + 2 <= s.len(),
        s.subrange(a, a + vt7a_items_json(items, k).len() + 2) == vt7a_items_json(items, k) + seq![
            0x0au8,
            0x5du8,
        ],
    ensures
        parse_vt7a_items_rest(s, i) == Some(
            (a + vt7a_items_json(items, k).len() + 2, items.subrange(k, items.len() as int)),
        ),
        skip_ws(s, i) == a + 2,
        s[a + 2] == 0x7b,
    decreases items.len() - k,
{
    let body = vt7a_items_json(items, k);
    let whole = body + seq![0x0au8, 0x5du8];
    let itj = vt7a_item_json(items[k]);
    if k == items.len() - 1 {
        assert(body == itj);
        assert forall|j: int| 0 <= j < itj.len() implies s.subrange(a, a + itj.len() as int)[j]
            == itj[j] by {
            assert(s.subrange(a, a + whole.len() as int)[j] == whole[j]);
            assert(whole[j] == itj[j]);
        }
        assert(s.subrange(a, a + itj.len() as int) =~= itj);
        lemma_parse_emit_vt7a_item(s, i, a, items[k]);
        let j = a + itj.len() as int;
        assert(s.subrange(a, a + whole.len() as int)[itj.len() as int] == whole[itj.len() as int]);
        assert(s[j + 0] == 0x0a);
        assert(s.subrange(a, a + whole.len() as int)[itj.len() as int + 1] == whole[itj.len() as int
            + 1]);
        assert(s[j + 1] == 0x5d);
        assert(crate::json::is_json_ws(s[j + 0]));
        assert(!crate::json::is_json_ws(s[j + 1]));
        crate::json::lemma_skip_ws_run(s, j, j + 1);
        assert(skip_ws(s, j) == j + 1);
        assert(parse_vt7a_items_rest(s, i) == Some((j + 2, seq![items[k]])));
        assert(items.subrange(k, items.len() as int) =~= seq![items[k]]);
    } else {
        assert(body == itj + comma_nl() + vt7a_items_json(items, k + 1));
        assert forall|j: int| 0 <= j < itj.len() implies s.subrange(a, a + itj.len() as int)[j]
            == itj[j] by {
            assert(s.subrange(a, a + whole.len() as int)[j] == whole[j]);
            assert(whole[j] == (itj + comma_nl() + vt7a_items_json(items, k + 1))[j]);
        }
        assert(s.subrange(a, a + itj.len() as int) =~= itj);
        lemma_parse_emit_vt7a_item(s, i, a, items[k]);
        let j = a + itj.len() as int;
        assert(s.subrange(a, a + whole.len() as int)[itj.len() as int] == whole[itj.len() as int]);
        assert(s[j + 0] == 0x2c);
        assert(s.subrange(a, a + whole.len() as int)[itj.len() as int + 1] == whole[itj.len() as int
            + 1]);
        assert(s[j + 1] == 0x0a);
        assert(!crate::json::is_json_ws(s[j + 0]));
        crate::json::lemma_skip_ws_run(s, j, j);
        assert(skip_ws(s, j) == j);
        let rest_len = vt7a_items_json(items, k + 1).len() as int;
        assert forall|j2: int| 0 <= j2 < rest_len + 2 implies (#[trigger] s.subrange(
            j + 2,
            j + 2 + rest_len + 2,
        )[j2]) == (vt7a_items_json(items, k + 1) + seq![0x0au8, 0x5du8])[j2] by {
            assert(s.subrange(a, a + whole.len() as int)[itj.len() as int + 2 + j2] == whole[
                itj.len() as int + 2 + j2]);
        }
        assert(s.subrange(j + 2, j + 2 + rest_len + 2) =~= vt7a_items_json(items, k + 1) + seq![
            0x0au8,
            0x5du8,
        ]);
        assert(crate::json::is_json_ws(s[j + 1]));
        lemma_parse_emit_vt7a_items(s, j + 1, j + 2, items, k + 1);
        assert(parse_vt7a_items_rest(s, j + 1) == Some(
            (j + 2 + rest_len + 2, items.subrange(k + 1, items.len() as int)),
        ));
        assert(i < j);
        assert(parse_vt7a_items_rest(s, i) == Some(
            (j + 2 + rest_len + 2, seq![items[k]] + items.subrange(k + 1, items.len() as int)),
        ));
        assert(seq![items[k]] + items.subrange(k + 1, items.len() as int) =~= items.subrange(
            k,
            items.len() as int,
        ));
        assert(a + body.len() + 2 == j + 2 + rest_len + 2);
    }
}

/// The manifest round trip: parsing an emitted manifest yields the records.
#[verifier::rlimit(100)]
#[verifier::spinoff_prover]
pub proof fn lemma_vt7a_manifest_round_trip(items: Seq<Vt7aItemModel>)
    ensures
        parse_vt7a_manifest(vt7a_manifest_json(items)) == Some(items),
{
    let s = vt7a_manifest_json(items);
    if items.len() == 0 {
        assert(s[0] == 0x5b && s[1] == 0x5d);
        assert(!crate::json::is_json_ws(s[0]));
        crate::json::lemma_skip_ws_run(s, 0, 0);
        assert(expect_ws_byte(s, 0, 0x5b) == Some(1int));
        assert(!crate::json::is_json_ws(s[1]));
        crate::json::lemma_skip_ws_run(s, 1, 1);
        crate::json::lemma_skip_ws_run(s, 2, 2);
        assert(parse_vt7a_manifest(s) == Some(Seq::<Vt7aItemModel>::empty()));
        assert(Seq::<Vt7aItemModel>::empty() =~= items);
    } else {
        let body = vt7a_items_json(items, 0);
        assert(s == seq![0x5bu8, 0x0au8] + body + seq![0x0au8, 0x5du8]);
        assert(s[0] == 0x5b);
        assert(!crate::json::is_json_ws(s[0]));
        crate::json::lemma_skip_ws_run(s, 0, 0);
        assert(expect_ws_byte(s, 0, 0x5b) == Some(1int));
        assert(s[1] == 0x0a);
        assert(crate::json::is_json_ws(s[1]));
        assert forall|j2: int| 0 <= j2 < body.len() + 2 implies (#[trigger] s.subrange(
            2,
            2 + body.len() as int + 2,
        )[j2]) == (body + seq![0x0au8, 0x5du8])[j2] by {
            assert(s[2 + j2] == (seq![0x5bu8, 0x0au8] + body + seq![0x0au8, 0x5du8])[2 + j2]);
        }
        assert(s.subrange(2, 2 + body.len() as int + 2) =~= body + seq![0x0au8, 0x5du8]);
        lemma_parse_emit_vt7a_items(s, 1, 2, items, 0);
        assert(parse_vt7a_items_rest(s, 1) == Some(
            (2 + body.len() as int + 2, items.subrange(0, items.len() as int)),
        ));
        assert(2 + body.len() + 2 == s.len());
        crate::json::lemma_skip_ws_run(s, s.len() as int, s.len() as int);
        assert(skip_ws(s, 1) == 4);
        assert(s[4] == 0x7b);
        assert(s[4] != 0x5d);
        assert(items.subrange(0, items.len() as int) =~= items);
    }
}


// ---------------------------------------------------------------------------
// The binary container
// ---------------------------------------------------------------------------
/// The version field maps to an archive generation, or fails.
pub open spec fn vt7a_version_of(v: u32) -> Option<Vt7aVersion> {
    if v == 2 {
        Some(Vt7aVersion::Two)
    } else if v == 3 {
        Some(Vt7aVersion::Three)
    } else {
        None
    }
}

/// Which compression algorithm each archive generation uses.
pub open spec fn vt7a_version_format(ver: Vt7aVersion) -> CompressionFormat {
    match ver {
        Vt7aVersion::Two => CompressionFormat::Zlib,
        Vt7aVersion::Three => CompressionFormat::Zstd,
    }
}

/// The stored bytes of entry `k`: the compressed size when nonzero selects
/// the slice length, else the uncompressed size. The slice is exact: the
/// decoder rejects an entry whose slice would run past the buffer end
/// before this is taken.
pub open spec fn vt7a_entry_slice(data: Seq<u8>, k: int) -> Seq<u8> {
    let off = spec_u32_at(data, 20 + 16 * k);
    let usz = spec_u32_at(data, 24 + 16 * k);
    let csz = spec_u32_at(data, 28 + 16 * k);
    clamped_slice(
        data,
        off as int,
        if csz != 0 {
            csz as int
        } else {
            usz as int
        },
    )
}

/// The fully decoded children of entries `k ..`, paired with their
/// compressed flags: each sliced out, decompressed with the
/// version-selected algorithm when the compressed size is nonzero, and run
/// through the whole dispatch pipeline. A slice that would run past the
/// buffer end is an I/O bounds error.
pub open spec fn vt7a_children_model(
    data: Seq<u8>,
    ver: Vt7aVersion,
    count: int,
    k: int,
    fuel: nat,
) -> Result<Seq<(ResourceModel, bool)>, DecodeFailure>
    decreases fuel, 0int, count - k,
{
    if k >= count {
        Ok(Seq::empty())
    } else if data.len() < 16 + 16 * (k + 1) {
        Err(DecodeFailure::Io)
    } else if fuel == 0 {
        Err(DecodeFailure::Parse)
    } else if spec_u32_at(data, 20 + 16 * k) as int + vt7a_entry_len(data, k) > data.len() {
        Err(DecodeFailure::Io)
    } else {
        let id = spec_u32_at(data, 16 + 16 * k);
        let off = spec_u32_at(data, 20 + 16 * k);
        let csz = spec_u32_at(data, 28 + 16 * k);
        let fmt0 = if csz != 0 {
            vt7a_version_format(ver)
        } else {
            CompressionFormat::Stored
        };
        match spec_decompress(vt7a_entry_slice(data, k), fmt0) {
            None => Err(DecodeFailure::Decompress { identifier: id, offset: off }),
            Some(payload) => {
                let child0 = ResourceModel {
                    identifier: id,
                    format: None,
                    extension: None,
                    data: payload,
                    hidden: false,
                    subresources: Seq::empty(),
                };
                match crate::codecs::decode_model(child0, (fuel - 1) as nat) {
                    Err(e) => Err(e),
                    Ok(child) => match vt7a_children_model(data, ver, count, k + 1, fuel) {
                        Err(e) => Err(e),
                        Ok(rest) => Ok(seq![(child, csz != 0)] + rest),
                    },
                }
            },
        }
    }
}

/// The manifest records for the decoded children; only children that stayed
/// unrecognized carry their bytes inline.
pub open spec fn vt7a_items_of(pairs: Seq<(ResourceModel, bool)>) -> Seq<Vt7aItemModel> {
    Seq::new(
        pairs.len(),
        |i: int|
            Vt7aItemModel {
                identifier: pairs[i].0.identifier,
                compressed: pairs[i].1,
                filename: crate::resource::spec_filename(pairs[i].0),
                original_data: if pairs[i].0.extension == Some(super::raw_codec::raw_tag()) {
                    Some(pairs[i].0.data)
                } else {
                    None
                },
            },
    )
}

pub open spec fn vt7a_children_of(pairs: Seq<(ResourceModel, bool)>) -> Seq<ResourceModel> {
    Seq::new(pairs.len(), |i: int| pairs[i].0)
}

/// Decoding: validate magic and version, take the tree identifier from the
/// header, expand every entry, and replace the payload with the manifest.
pub open spec fn vt7a_decode_model(m: ResourceModel, fuel: nat) -> Result<
    ResourceModel,
    DecodeFailure,
>
    decreases fuel, 1int, 0int,
{
    if m.data.len() < 4 {
        Err(DecodeFailure::Io)
    } else if !has_prefix(m.data, vt7a_magic()) {
        Err(DecodeFailure::Parse)
    } else if m.data.len() < 8 {
        Err(DecodeFailure::Io)
    } else {
        match vt7a_version_of(spec_u32_at(m.data, 4)) {
            None => Err(DecodeFailure::Parse),
            Some(ver) => {
                if m.data.len() < 16 {
                    Err(DecodeFailure::Io)
                } else {
                    match vt7a_children_model(m.data, ver, spec_u32_at(m.data, 12) as int, 0, fuel) {
                        Err(e) => Err(e),
                        Ok(pairs) => Ok(
                            ResourceModel {
                                identifier: spec_u32_at(m.data, 8),
                                format: Some(
                                    match ver {
                                        Vt7aVersion::Two => vt7a2_tag(),
                                        Vt7aVersion::Three => vt7a3_tag(),
                                    },
                                ),
                                extension: Some(json_tag()),
                                data: vt7a_manifest_json(vt7a_items_of(pairs)),
                                hidden: m.hidden,
                                subresources: vt7a_children_of(pairs),
                            },
                        ),
                    }
                }
            },
        }
    }
}

/// The container format tag named by the resource, or a parse failure.
pub open spec fn vt7a_format_version(m: ResourceModel) -> Option<Vt7aVersion> {
    if m.format == Some(vt7a_tag()) || m.format == Some(vt7a2_tag()) {
        Some(Vt7aVersion::Two)
    } else if m.format == Some(vt7a3_tag()) {
        Some(Vt7aVersion::Three)
    } else {
        None
    }
}

/// The directory and payload regions built in manifest order. Records with
/// no matching child are skipped; a compression failure is an I/O error and
/// a field that cannot fit its 32-bit slot is a parse error.
pub open spec fn vt7a_entries_model(
    items: Seq<Vt7aItemModel>,
    children: Seq<ResourceModel>,
    fmt: CompressionFormat,
    k: int,
    off: int,
) -> Result<(Seq<u8>, Seq<u8>), EncodeFailure>
    decreases items.len() - k,
{
    if k < 0 || k >= items.len() {
        Ok((Seq::empty(), Seq::empty()))
    } else {
        match crate::codecs::find_child(children, items[k].identifier, 0) {
            None => vt7a_entries_model(items, children, fmt, k + 1, off),
            Some(ci) => {
                let child = children[ci];
                let fmt0 = if items[k].compressed {
                    fmt
                } else {
                    CompressionFormat::Stored
                };
                match spec_compress(child.data, fmt0) {
                    None => Err(EncodeFailure::Io),
                    Some(comp) => {
                        if child.data.len() > u32::MAX || off + comp.len() > u32::MAX {
                            Err(EncodeFailure::Parse)
                        } else {
                            match vt7a_entries_model(items, children, fmt, k + 1, off + comp.len()) {
                                Err(e) => Err(e),
                                Ok(dp) => Ok(
                                    (
                                        spec_u32_to_le_bytes(child.identifier)
                                            + spec_u32_to_le_bytes(off as u32)
                                            + spec_u32_to_le_bytes(child.data.len() as u32)
                                            + spec_u32_to_le_bytes(
                                            if items[k].compressed {
                                                comp.len() as u32
                                            } else {
                                                0
                                            },
                                        ) + dp.0,
                                        comp + dp.1,
                                    ),
                                ),
                            }
                        }
                    },
                }
            },
        }
    }
}

pub open spec fn vt7a_item_ids(items: Seq<Vt7aItemModel>) -> Seq<u32> {
    Seq::new(items.len(), |i: int| items[i].identifier)
}

/// Encoding: resolve the version from the format tag, encode every child
/// post-order, then rebuild the container in manifest order; compression is
/// applied exactly where the manifest marks it.
pub open spec fn vt7a_encode_model(m: ResourceModel, fuel: nat) -> Result<
    ResourceModel,
    EncodeFailure,
>
    decreases fuel, 1int, 0int,
{
    match vt7a_format_version(m) {
        None => Err(EncodeFailure::Parse),
        Some(ver) => {
            match crate::codecs::encode_children_model(m.subresources, 0, fuel) {
                Err(e) => Err(e),
                Ok(children) => match parse_vt7a_manifest(m.data) {
                    None => Err(EncodeFailure::Deserialize),
                    Some(items) => {
                        let cnt = matched_count(vt7a_item_ids(items), children, 0);
                        if 16 + 16 * cnt > u32::MAX {
                            Err(EncodeFailure::Parse)
                        } else {
                            match vt7a_entries_model(
                                items,
                                children,
                                vt7a_version_format(ver),
                                0,
                                16 + 16 * (cnt as int),
                            ) {
                                Err(e) => Err(e),
                                Ok(dp) => Ok(
                                    ResourceModel {
                                        data: vt7a_magic() + spec_u32_to_le_bytes(
                                            match ver {
                                                Vt7aVersion::Two => 2,
                                                Vt7aVersion::Three => 3,
                                            },
                                        ) + spec_u32_to_le_bytes(m.identifier)
                                            + spec_u32_to_le_bytes(cnt as u32) + dp.0 + dp.1,
                                        extension: Some(vt7a_tag()),
                                        format: None,
                                        subresources: Seq::empty(),
                                        ..m
                                    },
                                ),
                            }
                        }
                    },
                },
            }
        },
    }
}

/// Loading: a record's extracted file is preferred; a missing file falls
/// back to the manifest's inline bytes, and only a record with neither
/// fails. Each child recursively loads its own children.
pub open spec fn vt7a_load_children(
    store: Seq<FileEntryModel>,
    dir: Seq<u8>,
    items: Seq<Vt7aItemModel>,
    k: int,
    fuel: nat,
) -> Result<Seq<ResourceModel>, EncodeFailure>
    decreases fuel, 0int, items.len() - k,
{
    if k < 0 || k >= items.len() {
        Ok(Seq::empty())
    } else if fuel == 0 {
        Err(EncodeFailure::Parse)
    } else {
        match crate::resource::spec_parse_filename(items[k].filename) {
            None => Err(EncodeFailure::Parse),
            Some(t) => {
                let found = store_lookup(store, dir + seq![0x2fu8] + items[k].filename);
                let bytes = if found is Some {
                    Some(found->0)
                } else {
                    items[k].original_data
                };
                match bytes {
                    None => Err(EncodeFailure::Io),
                    Some(d) => {
                        let child0 = ResourceModel {
                            identifier: t.0,
                            format: t.1,
                            extension: t.2,
                            data: d,
                            hidden: false,
                            subresources: Seq::empty(),
                        };
                        match crate::codecs::load_model(store, dir, child0, (fuel - 1) as nat) {
                            Err(e) => Err(e),
                            Ok(child) => match vt7a_load_children(store, dir, items, k + 1, fuel) {
                                Err(e) => Err(e),
                                Ok(rest) => Ok(seq![child] + rest),
                            },
                        }
                    },
                }
            },
        }
    }
}

pub open spec fn vt7a_load_model(
    store: Seq<FileEntryModel>,
    base: Seq<u8>,
    m: ResourceModel,
    fuel: nat,
) -> Result<ResourceModel, EncodeFailure>
    decreases fuel, 1int, 0int,
{
    match parse_vt7a_manifest(m.data) {
        None => Err(EncodeFailure::Deserialize),
        Some(items) => {
            let dir = base + seq![0x2fu8] + crate::resource::spec_dirname(m);
            match vt7a_load_children(store, dir, items, 0, fuel) {
                Err(e) => Err(e),
                Ok(children) => Ok(ResourceModel { subresources: m.subresources + children, ..m }),
            }
        },
    }
}


/// The models of decoded children paired with their compressed flags.
pub open spec fn pairs_of(children: Vec<Resource>, flags: Seq<bool>) -> Seq<(ResourceModel, bool)> {
    Seq::new(children@.len(), |i: int| (children@[i]@, flags[i]))
}

/// Decode an archive of this format in place, with a nesting budget for the
/// recursive expansion of its entries.
#[verifier::rlimit(100)]
#[verifier::spinoff_prover]
pub(crate) fn vt7a_decode_at_depth(resource: &mut Resource, depth: u64) -> (r: Result<
    (),
    DecodingError,
>)
    requires
        depth >= 1,
    ensures
        match vt7a_decode_model(old(resource)@, depth as nat) {
            Ok(mm) => r is Ok && final(resource)@ == mm,
            Err(k) => (r matches Err(e) && e.kind() == k) && *final(resource) == *old(resource),
        },
        (old(resource)@.data.len() >= 8 && has_prefix(old(resource)@.data, vt7a_magic())
            && vt7a_version_of(spec_u32_at(old(resource)@.data, 4)) is None) ==> (r matches Err(e)
            && (e matches DecodingError::ParsingError(msg) && vstd::utf8::encode_utf8(msg@)
            == vt7a_version_error_text(spec_u32_at(old(resource)@.data, 4)))),
    decreases depth, 1int, 0int,
{
    let n = resource.data.len();
    if n < 4 {
        return Err(DecodingError::IOError(String::from_str("archive header is truncated")));
    }
    let magic: [u8; 4] = [0x56, 0x54, 0x37, 0x41];
    proof {
        assert(magic@ =~= vt7a_magic());
    }
    if !crate::textfmt::starts_with_bytes(resource.data.as_slice(), magic.as_slice()) {
        return Err(
            DecodingError::ParsingError(String::from_str("archive header is missing its magic")),
        );
    }
    if n < 8 {
        return Err(DecodingError::IOError(String::from_str("archive header is truncated")));
    }
    let vraw = crate::textfmt::read_u32_le(resource.data.as_slice(), 4);
    let ver = if vraw == 2 {
        Vt7aVersion::Two
    } else if vraw == 3 {
        Vt7aVersion::Three
    } else {
        return Err(DecodingError::ParsingError(vt7a_version_error(vraw)));
    };
    proof {
        assert(vt7a_version_of(vraw) == Some(ver));
    }
    if n < 16 {
        return Err(DecodingError::IOError(String::from_str("archive header is truncated")));
    }
    let tree_id = crate::textfmt::read_u32_le(resource.data.as_slice(), 8);
    let count = crate::textfmt::read_u32_le(resource.data.as_slice(), 12);
    let ghost md = resource.data@;
    let mut children: Vec<Resource> = Vec::new();
    let mut items: Vec<Vt7aItem> = Vec::new();
    let ghost mut flags: Seq<bool> = Seq::empty();
    let mut k: u32 = 0;
    proof {
        assert(pairs_of(children, flags) =~= Seq::<(ResourceModel, bool)>::empty());
        if vt7a_children_model(md, ver, count as int, 0, depth as nat) is Ok {
            let all = vt7a_children_model(md, ver, count as int, 0, depth as nat)->Ok_0;
            assert(Seq::<(ResourceModel, bool)>::empty() + all =~= all);
        }
        assert(vt7a_items_view(items) =~~= vt7a_items_of(pairs_of(children, flags)));
    }
    while k < count
        invariant
            0 <= k <= count,
            depth >= 1,
            *resource == *old(resource),
            md == old(resource)@.data,
            n == md.len(),
            n >= 16,
            has_prefix(md, vt7a_magic()),
            count == spec_u32_at(md, 12),
            tree_id == spec_u32_at(md, 8),
            vt7a_version_of(spec_u32_at(md, 4)) == Some(ver),
            children@.len() == k,
            items@.len() == k,
            flags.len() == k,
            match vt7a_children_model(md, ver, count as int, k as int, depth as nat) {
                Ok(rest) => vt7a_children_model(md, ver, count as int, 0, depth as nat) == Ok::<
                    Seq<(ResourceModel, bool)>,
                    DecodeFailure,
                >(pairs_of(children, flags) + rest),
                Err(e) => vt7a_children_model(md, ver, count as int, 0, depth as nat) == Err::<
                    Seq<(ResourceModel, bool)>,
                    DecodeFailure,
                >(e),
            },
            vt7a_items_view(items) == vt7a_items_of(pairs_of(children, flags)),
        decreases count - k,
    {
        let need: u64 = 16 + 16 * (k as u64 + 1);
        if (n as u64) < need {
            proof {
                assert(md.len() < 16 + 16 * (k as int + 1));
            }
            return Err(
                DecodingError::IOError(String::from_str("archive directory is truncated")),
            );
        }
        let base: usize = 16 + 16 * (k as usize);
        let id = crate::textfmt::read_u32_le(resource.data.as_slice(), base);
        let off = crate::textfmt::read_u32_le(resource.data.as_slice(), base + 4);
        let usz = crate::textfmt::read_u32_le(resource.data.as_slice(), base + 8);
        let csz = crate::textfmt::read_u32_le(resource.data.as_slice(), base + 12);
        let size_to_read = if csz != 0 {
            csz
        } else {
            usz
        };
        if (off as u64) + (size_to_read as u64) > (n as u64) {
            proof {
                assert(vt7a_entry_len(md, k as int) == size_to_read as int);
            }
            return Err(
                DecodingError::IOError(
                    String::from_str("entry payload runs past the end of the archive"),
                ),
            );
        }
        let fmt0 = if csz != 0 {
            vt7a_version_format_exec(ver)
        } else {
            crate::compression::CompressionFormat::Stored
        };
        let raw = crate::textfmt::read_clamped(resource.data.as_slice(), off, size_to_read);
        proof {
            assert(base as int == 16 + 16 * (k as int));
            assert(raw@ == vt7a_entry_slice(md, k as int));
        }
        let payload = match crate::compression::decompress(raw.as_slice(), fmt0) {
            Ok(p) => p,
            Err(_) => {
                return Err(DecodingError::DecompressError { identifier: id, offset: off });
            },
        };
        let mut child: Resource = Default::default();
        child.identifier = id;
        child.data = payload;
        proof {
            assert(child@.subresources =~= Seq::<ResourceModel>::empty());
        }
        let ghost before_pairs = pairs_of(children, flags);
        match crate::codecs::decode_at_depth(&mut child, depth - 1) {
            Err(e) => {
                proof {
                    assert(vt7a_children_model(md, ver, count as int, k as int, depth as nat)
                        == Err::<Seq<(ResourceModel, bool)>, DecodeFailure>(e.kind()));
                }
                return Err(e);
            },
            Ok(_) => {},
        }
        let fname = child.get_filename();
        let rawtag: [u8; 3] = [0x72, 0x61, 0x77];
        proof {
            assert(rawtag@ =~= super::raw_codec::raw_tag());
        }
        let odata: Option<Vec<u8>> = if crate::resource::opt_tag_is(
            &child.extension,
            rawtag.as_slice(),
        ) {
            Some(vstd::slice::slice_to_vec(child.data.as_slice()))
        } else {
            None
        };
        let ghost iold = items;
        items.push(
            Vt7aItem {
                identifier: child.identifier,
                compressed: csz != 0,
                filename: fname,
                original_data: odata,
            },
        );
        let ghost childm = child@;
        let ghost cold = children;
        children.push(child);
        proof {
            flags = flags.push(csz != 0);
        }
        proof {
            lemma_models_from(cold, 0);
            lemma_models_from(children, 0);
            assert(pairs_of(children, flags) =~~= before_pairs + seq![(childm, csz != 0)]);
            let pn = pairs_of(children, flags);
            assert(pn[k as int].0 == childm);
            assert(items@[k as int]@.filename == crate::resource::spec_filename(childm));
            assert(items@[k as int]@.original_data == (if childm.extension == Some(
                super::raw_codec::raw_tag(),
            ) {
                Some(childm.data)
            } else {
                None
            }));
            assert forall|j: int| 0 <= j < k as int implies #[trigger] vt7a_items_view(items)[j]
                == vt7a_items_of(pairs_of(children, flags))[j] by {
                assert(items@[j] == iold@[j]);
                assert(vt7a_items_view(iold)[j] == vt7a_items_of(before_pairs)[j]);
                assert(pairs_of(children, flags)[j] == before_pairs[j]);
            }
            assert(vt7a_items_view(items) =~~= vt7a_items_of(pairs_of(children, flags)));
            if vt7a_children_model(md, ver, count as int, k as int + 1, depth as nat) is Ok {
                let rest = vt7a_children_model(md, ver, count as int, k as int + 1, depth as nat)->Ok_0;
                assert(before_pairs + (seq![(childm, csz != 0)] + rest) =~= (before_pairs + seq![
                    (childm, csz != 0),
                ]) + rest);
            }
        }
        k += 1;
    }
    let ghost pairs = pairs_of(children, flags);
    proof {
        assert(vt7a_children_model(md, ver, count as int, count as int, depth as nat) == Ok::<
            Seq<(ResourceModel, bool)>,
            DecodeFailure,
        >(Seq::<(ResourceModel, bool)>::empty()));
        assert(pairs + Seq::<(ResourceModel, bool)>::empty() =~= pairs);
        assert(vt7a_children_of(pairs) =~~= Resource::models_from(children, 0)) by {
            lemma_models_from(children, 0);
        }
    }
    let manifest = emit_vt7a_manifest(&items);
    let jt: [u8; 4] = [0x6a, 0x73, 0x6f, 0x6e];
    proof {
        assert(jt@ =~= json_tag());
    }
    let ftag: Vec<u8> = match ver {
        Vt7aVersion::Two => {
            let t: [u8; 5] = [0x76, 0x74, 0x37, 0x61, 0x32];
            proof {
                assert(t@ =~= vt7a2_tag());
            }
            vstd::slice::slice_to_vec(t.as_slice())
        },
        Vt7aVersion::Three => {
            let t: [u8; 5] = [0x76, 0x74, 0x37, 0x61, 0x33];
            proof {
                assert(t@ =~= vt7a3_tag());
            }
            vstd::slice::slice_to_vec(t.as_slice())
        },
    };
    resource.identifier = tree_id;
    resource.data = manifest;
    resource.subresources = children;
    resource.extension = Some(vstd::slice::slice_to_vec(jt.as_slice()));
    resource.format = Some(ftag);
    Ok(())
}

/// The compression algorithm selected by the archive version.
fn vt7a_version_format_exec(ver: Vt7aVersion) -> (f: crate::compression::CompressionFormat)
    ensures
        f == vt7a_version_format(ver),
{
    match ver {
        Vt7aVersion::Two => crate::compression::CompressionFormat::Zlib,
        Vt7aVersion::Three => crate::compression::CompressionFormat::Zstd,
    }
}


impl Vt7aCodec {
    pub fn matches_decoder(&self, resource: &Resource) -> (score: usize)
        ensures
            score == vt7a_decode_score(resource@),
    {
        let magic: [u8; 4] = [0x56, 0x54, 0x37, 0x41];
        proof {
            assert(magic@ =~= vt7a_magic());
        }
        if crate::textfmt::starts_with_bytes(resource.data.as_slice(), magic.as_slice()) {
            100
        } else {
            0
        }
    }

    pub fn matches_encoder(&self, resource: &Resource) -> (score: usize)
        ensures
            score == vt7a_encode_score(resource@),
    {
        let jt: [u8; 4] = [0x6a, 0x73, 0x6f, 0x6e];
        let t1: [u8; 4] = [0x76, 0x74, 0x37, 0x61];
        let t2: [u8; 5] = [0x76, 0x74, 0x37, 0x61, 0x32];
        let t3: [u8; 5] = [0x76, 0x74, 0x37, 0x61, 0x33];
        proof {
            assert(jt@ =~= json_tag());
            assert(t1@ =~= vt7a_tag());
            assert(t2@ =~= vt7a2_tag());
            assert(t3@ =~= vt7a3_tag());
        }
        if crate::resource::opt_tag_is(&resource.extension, jt.as_slice())
            && (crate::resource::opt_tag_is(&resource.format, t1.as_slice())
            || crate::resource::opt_tag_is(&resource.format, t2.as_slice())
            || crate::resource::opt_tag_is(&resource.format, t3.as_slice())) {
            100
        } else {
            0
        }
    }
}


/// Encode an archive of this format in place: resolve the version from the
/// format tag, encode children first, then rebuild directory and payload in
/// manifest order with per-record compression.
#[verifier::rlimit(100)]
#[verifier::spinoff_prover]
pub(crate) fn vt7a_encode_at_depth(resource: &mut Resource, depth: u64) -> (r: Result<
    (),
    EncodingError,
>)
    requires
        depth >= 1,
    ensures
        match vt7a_encode_model(old(resource)@, depth as nat) {
            Ok(mm) => r is Ok && final(resource)@ == mm,
            Err(k) => r matches Err(e) && e.kind() == k,
        },
        r is Err ==> final(resource).data == old(resource).data && final(resource).identifier
            == old(resource).identifier && final(resource).format == old(resource).format
            && final(resource).extension == old(resource).extension && final(resource).hidden
            == old(resource).hidden && final(resource).subresources@.len() == old(
            resource,
        ).subresources@.len(),
        (r is Err && vt7a_format_version(old(resource)@) is None) ==> *final(resource) == *old(
            resource,
        ),
    decreases depth, 1int, 0int,
{
    let t1: [u8; 4] = [0x76, 0x74, 0x37, 0x61];
    let t2: [u8; 5] = [0x76, 0x74, 0x37, 0x61, 0x32];
    let t3: [u8; 5] = [0x76, 0x74, 0x37, 0x61, 0x33];
    proof {
        assert(t1@ =~= vt7a_tag());
        assert(t2@ =~= vt7a2_tag());
        assert(t3@ =~= vt7a3_tag());
    }
    let ver: Vt7aVersion = if crate::resource::opt_tag_is(&resource.format, t1.as_slice())
        || crate::resource::opt_tag_is(&resource.format, t2.as_slice()) {
        Vt7aVersion::Two
    } else if crate::resource::opt_tag_is(&resource.format, t3.as_slice()) {
        Vt7aVersion::Three
    } else {
        return Err(EncodingError::ParsingError(String::from_str("wrong archive format")));
    };
    proof {
        assert(vt7a_format_version(resource@) == Some(ver));
    }
    match crate::codecs::encode_children_at_depth(&mut resource.subresources, depth) {
        Err(e) => {
            return Err(e);
        },
        Ok(_) => {},
    }
    let ghost cms = Resource::models_from(resource.subresources, 0);
    proof {
        crate::resource::lemma_models_from(resource.subresources, 0);
    }
    let items = match parse_vt7a_manifest_exec(resource.data.as_slice()) {
        Some(v) => v,
        None => {
            return Err(
                EncodingError::DeserializeError(
                    String::from_str("manifest is not a well-formed record array"),
                ),
            );
        },
    };
    let ghost iv = vt7a_items_view(items);
    let ghost ids = vt7a_item_ids(iv);
    proof {
        assert(ids.len() == items@.len());
    }
    let mut cnt: u64 = 0;
    let mut k: usize = 0;
    while k < items.len()
        invariant
            0 <= k <= items@.len(),
            iv == vt7a_items_view(items),
            ids == vt7a_item_ids(iv),
            ids.len() == items@.len(),
            cms == Resource::models_from(resource.subresources, 0),
            cnt <= k,
            cnt as nat + matched_count(ids, cms, k as int) == matched_count(ids, cms, 0),
            resource.data == old(resource).data,
            resource.identifier == old(resource).identifier,
            resource.hidden == old(resource).hidden,
            resource.format == old(resource).format,
            resource.extension == old(resource).extension,
            resource.subresources@.len() == old(resource).subresources@.len(),
            vt7a_format_version(old(resource)@) == Some(ver),
            crate::codecs::encode_children_model(
                old(resource)@.subresources,
                0,
                depth as nat,
            ) == Ok::<Seq<ResourceModel>, EncodeFailure>(cms),
            parse_vt7a_manifest(old(resource)@.data) == Some(iv),
            depth >= 1,
        decreases items@.len() - k,
    {
        proof {
            assert(ids[k as int] == items@[k as int]@.identifier);
        }
        match crate::codecs::find_child_exec(&resource.subresources, items[k].identifier) {
            Some(_) => {
                cnt = cnt + 1;
            },
            None => {},
        }
        k += 1;
    }
    let ghost total = matched_count(ids, cms, 0);
    proof {
        assert(cnt as nat == total);
    }
    if cnt > (0xffff_ffffu64 - 16) / 16 {
        proof {
            assert(16 + 16 * total > u32::MAX);
        }
        return Err(
            EncodingError::ParsingError(
                String::from_str("archive directory does not fit the format"),
            ),
        );
    }
    let dir_base: u64 = 16 + 16 * cnt;
    let fmt = vt7a_version_format_exec(ver);
    let dp = match vt7a_assemble(&items, &resource.subresources, fmt, dir_base) {
        Ok(p) => p,
        Err(e) => {
            return Err(e);
        },
    };
    let dir = dp.0;
    let pay = dp.1;
    let mut out: Vec<u8> = Vec::new();
    let magic: [u8; 4] = [0x56, 0x54, 0x37, 0x41];
    proof {
        assert(magic@ =~= vt7a_magic());
    }
    crate::textfmt::push_bytes(&mut out, magic.as_slice());
    let vnum: u32 = match ver {
        Vt7aVersion::Two => 2,
        Vt7aVersion::Three => 3,
    };
    crate::textfmt::push_u32_le(&mut out, vnum);
    crate::textfmt::push_u32_le(&mut out, resource.identifier);
    crate::textfmt::push_u32_le(&mut out, cnt as u32);
    crate::textfmt::push_bytes(&mut out, dir.as_slice());
    let mut pay2 = pay;
    out.append(&mut pay2);
    let et: [u8; 4] = [0x76, 0x74, 0x37, 0x61];
    proof {
        assert(et@ =~= vt7a_tag());
    }
    resource.data = out;
    resource.extension = Some(vstd::slice::slice_to_vec(et.as_slice()));
    resource.format = None;
    resource.subresources = Vec::new();
    proof {
        assert(final(resource)@.subresources =~= Seq::<ResourceModel>::empty());
    }
    Ok(())
}

/// Load every child this archive's manifest names: the extracted file when
/// present, else the manifest's inline fallback bytes.
#[verifier::rlimit(100)]
#[verifier::spinoff_prover]
pub(crate) fn vt7a_load_at_depth(
    store: &FileStore,
    base: &[u8],
    resource: &mut Resource,
    depth: u64,
) -> (r: Result<(), EncodingError>)
    requires
        depth >= 1,
    ensures
        match vt7a_load_model(store@, base@, old(resource)@, depth as nat) {
            Ok(mm) => r is Ok && final(resource)@ == mm,
            Err(k) => r matches Err(e) && e.kind() == k,
        },
    decreases depth, 1int, 0int,
{
    let items = match parse_vt7a_manifest_exec(resource.data.as_slice()) {
        Some(v) => v,
        None => {
            return Err(
                EncodingError::DeserializeError(
                    String::from_str("manifest is not a well-formed record array"),
                ),
            );
        },
    };
    let ghost iv = vt7a_items_view(items);
    let mut dirpath: Vec<u8> = vstd::slice::slice_to_vec(base);
    dirpath.push(0x2f);
    let mut dn = resource.get_dirname();
    dirpath.append(&mut dn);
    let ghost dirv = dirpath@;
    proof {
        assert(dirv =~= base@ + seq![0x2fu8] + crate::resource::spec_dirname(resource@));
    }
    let ghost n0 = resource.subresources@.len();
    let ghost vsubs0 = resource.subresources;
    let ghost subs0 = resource.subresources@;
    let mut k: usize = 0;
    proof {
        crate::resource::lemma_models_from(resource.subresources, 0);
        if vt7a_load_children(store@, dirv, iv, 0, depth as nat) is Ok {
            let all = vt7a_load_children(store@, dirv, iv, 0, depth as nat)->Ok_0;
            assert(Seq::<ResourceModel>::empty() + all =~= all);
        }
    }
    while k < items.len()
        invariant
            0 <= k <= items@.len(),
            depth >= 1,
            iv == vt7a_items_view(items),
            iv.len() == items@.len(),
            resource.identifier == old(resource).identifier,
            resource.format == old(resource).format,
            resource.extension == old(resource).extension,
            resource.data == old(resource).data,
            resource.hidden == old(resource).hidden,
            resource.subresources@.len() == n0 + k,
            subs0 == old(resource).subresources@,
            forall|j: int| 0 <= j < n0 ==> #[trigger] resource.subresources@[j] == subs0[j],
            dirpath@ == dirv,
            dirv == base@ + seq![0x2fu8] + crate::resource::spec_dirname(old(resource)@),
            parse_vt7a_manifest(old(resource)@.data) == Some(iv),
            match vt7a_load_children(store@, dirv, iv, k as int, depth as nat) {
                Ok(rest) => vt7a_load_children(store@, dirv, iv, 0, depth as nat) == Ok::<
                    Seq<ResourceModel>,
                    EncodeFailure,
                >(
                    Resource::models_from(resource.subresources, 0).subrange(
                        n0 as int,
                        (n0 + k) as int,
                    ) + rest,
                ),
                Err(e) => vt7a_load_children(store@, dirv, iv, 0, depth as nat) == Err::<
                    Seq<ResourceModel>,
                    EncodeFailure,
                >(e),
            },
        decreases items@.len() - k,
    {
        proof {
            assert(iv[k as int] == items@[k as int]@);
        }
        let mut child: Resource = Default::default();
        match child.parse_filename(items[k].filename.as_slice()) {
            Err(_) => {
                return Err(
                    EncodingError::ParsingError(
                        String::from_str("manifest filename does not parse"),
                    ),
                );
            },
            Ok(_) => {},
        }
        let mut path: Vec<u8> = vstd::slice::slice_to_vec(dirpath.as_slice());
        path.push(0x2f);
        crate::textfmt::push_bytes(&mut path, items[k].filename.as_slice());
        proof {
            assert(path@ =~= dirv + seq![0x2fu8] + iv[k as int].filename);
        }
        let bytes: Vec<u8> = match store.lookup(path.as_slice()) {
            Some(b) => b,
            None => {
                match &items[k].original_data {
                    Some(d) => vstd::slice::slice_to_vec(d.as_slice()),
                    None => {
                        let prelit: [u8; 5] = [0x66, 0x69, 0x6c, 0x65, 0x20];
                        let suflit: [u8; 10] = [
                            0x20,
                            0x6e,
                            0x6f,
                            0x74,
                            0x20,
                            0x66,
                            0x6f,
                            0x75,
                            0x6e,
                            0x64,
                        ];
                        let mut msg: Vec<u8> = Vec::new();
                        crate::textfmt::push_bytes(&mut msg, prelit.as_slice());
                        crate::textfmt::push_bytes(&mut msg, items[k].filename.as_slice());
                        crate::textfmt::push_bytes(&mut msg, suflit.as_slice());
                        return Err(
                            EncodingError::IOError(
                                crate::textfmt::bytes_to_string(msg.as_slice()),
                            ),
                        );
                    },
                }
            },
        };
        child.data = bytes;
        proof {
            assert(child@.subresources =~= Seq::<ResourceModel>::empty());
            let t = crate::resource::spec_parse_filename(iv[k as int].filename)->Some_0;
            assert(child@.identifier == t.0);
            assert(child@.format == t.1);
            assert(child@.extension == t.2);
        }
        match crate::codecs::load_at_depth(store, dirpath.as_slice(), &mut child, depth - 1) {
            Err(e) => {
                return Err(e);
            },
            Ok(_) => {},
        }
        let ghost childm = child@;
        let ghost cold = resource.subresources;
        resource.subresources.push(child);
        proof {
            crate::resource::lemma_models_from(cold, 0);
            crate::resource::lemma_models_from(resource.subresources, 0);
            let loaded = Resource::models_from(resource.subresources, 0).subrange(
                n0 as int,
                (n0 + k + 1) as int,
            );
            let before = Resource::models_from(cold, 0).subrange(n0 as int, (n0 + k) as int);
            assert(loaded =~= before + seq![childm]);
            if vt7a_load_children(store@, dirv, iv, k as int + 1, depth as nat) is Ok {
                let rest = vt7a_load_children(store@, dirv, iv, k as int + 1, depth as nat)->Ok_0;
                assert(before + (seq![childm] + rest) =~= (before + seq![childm]) + rest);
            }
        }
        k += 1;
    }
    proof {
        assert(vt7a_load_children(store@, dirv, iv, iv.len() as int, depth as nat) == Ok::<
            Seq<ResourceModel>,
            EncodeFailure,
        >(Seq::<ResourceModel>::empty()));
        let loaded = Resource::models_from(resource.subresources, 0).subrange(
            n0 as int,
            (n0 + items@.len()) as int,
        );
        assert(loaded + Seq::<ResourceModel>::empty() =~= loaded);
        crate::resource::lemma_models_from(resource.subresources, 0);
        crate::resource::lemma_models_from(vsubs0, 0);
        assert(Resource::models_from(resource.subresources, 0) =~= old(
            resource,
        )@.subresources + loaded);
    }
    Ok(())
}


/// Build the directory and payload regions in manifest order, compressing
/// exactly where the manifest says so and skipping orphan records.
#[verifier::rlimit(100)]
#[verifier::spinoff_prover]
fn vt7a_assemble(
    items: &Vec<Vt7aItem>,
    children: &Vec<Resource>,
    fmt: crate::compression::CompressionFormat,
    dir_base: u64,
) -> (r: Result<(Vec<u8>, Vec<u8>), EncodingError>)
    requires
        dir_base <= 0xffff_ffff,
    ensures
        match r {
            Ok(dp) => vt7a_entries_model(
                vt7a_items_view(*items),
                Resource::models_from(*children, 0),
                fmt,
                0,
                dir_base as int,
            ) == Ok::<(Seq<u8>, Seq<u8>), EncodeFailure>((dp.0@, dp.1@)),
            Err(e) => (vt7a_entries_model(
                vt7a_items_view(*items),
                Resource::models_from(*children, 0),
                fmt,
                0,
                dir_base as int,
            ) matches Err(k) && e.kind() == k),
        },
{
    let ghost iv = vt7a_items_view(*items);
    let ghost cms = Resource::models_from(*children, 0);
    proof {
        crate::resource::lemma_models_from(*children, 0);
    }
    let mut dir: Vec<u8> = Vec::new();
    let mut pay: Vec<u8> = Vec::new();
    let mut k2: usize = 0;
    proof {
        if vt7a_entries_model(iv, cms, fmt, 0, dir_base as int) is Ok {
            let dp = vt7a_entries_model(iv, cms, fmt, 0, dir_base as int)->Ok_0;
            assert(Seq::<u8>::empty() + dp.0 =~= dp.0);
            assert(Seq::<u8>::empty() + dp.1 =~= dp.1);
        }
    }
    while k2 < items.len()
        invariant
            0 <= k2 <= items@.len(),
            iv == vt7a_items_view(*items),
            iv.len() == items@.len(),
            cms == Resource::models_from(*children, 0),
            cms.len() == children@.len(),
            forall|j: int| 0 <= j < cms.len() ==> #[trigger] cms[j] == children@[j].model(),
            dir_base <= 0xffff_ffff,
            dir_base + pay@.len() <= 0xffff_ffff,
            match vt7a_entries_model(iv, cms, fmt, k2 as int, dir_base as int + pay@.len()) {
                Ok(dp) => vt7a_entries_model(iv, cms, fmt, 0, dir_base as int) == Ok::<
                    (Seq<u8>, Seq<u8>),
                    EncodeFailure,
                >((dir@ + dp.0, pay@ + dp.1)),
                Err(e) => vt7a_entries_model(iv, cms, fmt, 0, dir_base as int) == Err::<
                    (Seq<u8>, Seq<u8>),
                    EncodeFailure,
                >(e),
            },
        decreases items@.len() - k2,
    {
        match crate::codecs::find_child_exec(children, items[k2].identifier) {
            None => {},
            Some(ci) => {
                let fmt0 = if items[k2].compressed {
                    fmt
                } else {
                    crate::compression::CompressionFormat::Stored
                };
                let comp = match crate::compression::compress(children[ci].data.as_slice(), fmt0) {
                    Ok(c) => c,
                    Err(e) => {
                        return Err(e);
                    },
                };
                let clen = children[ci].data.len();
                if (clen as u64) > 0xffff_ffff {
                    return Err(
                        EncodingError::ParsingError(
                            String::from_str("entry size does not fit the format"),
                        ),
                    );
                }
                let off_now: u64 = dir_base + (pay.len() as u64);
                if (0xffff_ffffu64 - off_now) < (comp.len() as u64) {
                    return Err(
                        EncodingError::ParsingError(
                            String::from_str("archive payload does not fit the format"),
                        ),
                    );
                }
                let ghost dir0 = dir@;
                let ghost pay0 = pay@;
                crate::textfmt::push_u32_le(&mut dir, children[ci].identifier);
                crate::textfmt::push_u32_le(&mut dir, off_now as u32);
                crate::textfmt::push_u32_le(&mut dir, clen as u32);
                let csz32: u32 = if items[k2].compressed {
                    comp.len() as u32
                } else {
                    0
                };
                crate::textfmt::push_u32_le(&mut dir, csz32);
                crate::textfmt::push_bytes(&mut pay, comp.as_slice());
                proof {
                    let child = cms[ci as int];
                    assert(child.data == children@[ci as int]@.data);
                    assert(child.identifier == children@[ci as int]@.identifier);
                    let entry = vstd::bytes::spec_u32_to_le_bytes(child.identifier)
                        + vstd::bytes::spec_u32_to_le_bytes(off_now as u32)
                        + vstd::bytes::spec_u32_to_le_bytes(child.data.len() as u32)
                        + vstd::bytes::spec_u32_to_le_bytes(csz32);
                    assert(dir@ =~= dir0 + entry);
                    assert(pay@ =~= pay0 + comp@);
                    if vt7a_entries_model(iv, cms, fmt, k2 as int + 1, dir_base as int + pay@.len())
                        is Ok {
                        let dp = vt7a_entries_model(
                            iv,
                            cms,
                            fmt,
                            k2 as int + 1,
                            dir_base as int + pay@.len(),
                        )->Ok_0;
                        assert(dir0 + (entry + dp.0) =~= dir@ + dp.0);
                        assert(pay0 + (comp@ + dp.1) =~= pay@ + dp.1);
                    }
                }
            },
        }
        k2 += 1;
    }
    proof {
        assert(vt7a_entries_model(iv, cms, fmt, iv.len() as int, dir_base as int + pay@.len())
            == Ok::<(Seq<u8>, Seq<u8>), EncodeFailure>((Seq::<u8>::empty(), Seq::<u8>::empty())));
        assert(dir@ + Seq::<u8>::empty() =~= dir@);
        assert(pay@ + Seq::<u8>::empty() =~= pay@);
    }
    Ok((dir, pay))
}


// ---------------------------------------------------------------------------
// The diagnostic message for an unknown version number
// ---------------------------------------------------------------------------
/// `archive header has wrong version number `
pub open spec fn vt7a_version_err_pre() -> Seq<u8> {
    seq![0x61u8, 0x72u8, 0x63u8, 0x68u8, 0x69u8, 0x76u8, 0x65u8, 0x20u8, 0x68u8, 0x65u8, 0x61u8, 0x64u8, 0x65u8, 0x72u8, 0x20u8, 0x68u8, 0x61u8, 0x73u8, 0x20u8, 0x77u8, 0x72u8, 0x6fu8, 0x6eu8, 0x67u8, 0x20u8, 0x76u8, 0x65u8, 0x72u8, 0x73u8, 0x69u8, 0x6fu8, 0x6eu8, 0x20u8, 0x6eu8, 0x75u8, 0x6du8, 0x62u8, 0x65u8, 0x72u8, 0x20u8]
}

proof fn lemma_vt7a_version_err_pre_ascii()
    ensures
        forall|k: int|
            0 <= k < vt7a_version_err_pre().len() ==> #[trigger] vt7a_version_err_pre()[k] < 0x80,
{
    assert forall|k: int| 0 <= k < vt7a_version_err_pre().len() implies #[trigger] vt7a_version_err_pre()[k]
        < 0x80 by {
        if k == 0 {
            assert(vt7a_version_err_pre()[0] == 0x61);
        } else if k == 1 {
            assert(vt7a_version_err_pre()[1] == 0x72);
        } else if k == 2 {
            assert(vt7a_version_err_pre()[2] == 0x63);
        } else if k == 3 {
            assert(vt7a_version_err_pre()[3] == 0x68);
        } else if k == 4 {
            assert(vt7a_version_err_pre()[4] == 0x69);
        } else if k == 5 {
            assert(vt7a_version_err_pre()[5] == 0x76);
        } else if k == 6 {
            assert(vt7a_version_err_pre()[6] == 0x65);
        } else if k == 7 {
            assert(vt7a_version_err_pre()[7] == 0x20);
        } else if k == 8 {
            assert(vt7a_version_err_pre()[8] == 0x68);
        } else if k == 9 {
            assert(vt7a_version_err_pre()[9] == 0x65);
        } else if k == 10 {
            assert(vt7a_version_err_pre()[10] == 0x61);
        } else if k == 11 {
            assert(vt7a_version_err_pre()[11] == 0x64);
        } else if k == 12 {
            assert(vt7a_version_err_pre()[12] == 0x65);
        } else if k == 13 {
            assert(vt7a_version_err_pre()[13] == 0x72);
        } else if k == 14 {
            assert(vt7a_version_err_pre()[14] == 0x20);
        } else if k == 15 {
            assert(vt7a_version_err_pre()[15] == 0x68);
        } else if k == 16 {
            assert(vt7a_version_err_pre()[16] == 0x61);
        } else if k == 17 {
            assert(vt7a_version_err_pre()[17] == 0x73);
        } else if k == 18 {
            assert(vt7a_version_err_pre()[18] == 0x20);
        } else if k == 19 {
            assert(vt7a_version_err_pre()[19] == 0x77);
        } else if k == 20 {
            assert(vt7a_version_err_pre()[20] == 0x72);
        } else if k == 21 {
            assert(vt7a_version_err_pre()[21] == 0x6f);
        } else if k == 22 {
            assert(vt7a_version_err_pre()[22] == 0x6e);
        } else if k == 23 {
            assert(vt7a_version_err_pre()[23] == 0x67);
        } else if k == 24 {
            assert(vt7a_version_err_pre()[24] == 0x20);
        } else if k == 25 {
            assert(vt7a_version_err_pre()[25] == 0x76);
        } else if k == 26 {
            assert(vt7a_version_err_pre()[26] == 0x65);
        } else if k == 27 {
            assert(vt7a_version_err_pre()[27] == 0x72);
        } else if k == 28 {
            assert(vt7a_version_err_pre()[28] == 0x73);
        } else if k == 29 {
            assert(vt7a_version_err_pre()[29] == 0x69);
        } else if k == 30 {
            assert(vt7a_version_err_pre()[30] == 0x6f);
        } else if k == 31 {
            assert(vt7a_version_err_pre()[31] == 0x6e);
        } else if k == 32 {
            assert(vt7a_version_err_pre()[32] == 0x20);
        } else if k == 33 {
            assert(vt7a_version_err_pre()[33] == 0x6e);
        } else if k == 34 {
            assert(vt7a_version_err_pre()[34] == 0x75);
        } else if k == 35 {
            assert(vt7a_version_err_pre()[35] == 0x6d);
        } else if k == 36 {
            assert(vt7a_version_err_pre()[36] == 0x62);
        } else if k == 37 {
            assert(vt7a_version_err_pre()[37] == 0x65);
        } else if k == 38 {
            assert(vt7a_version_err_pre()[38] == 0x72);
        } else {
            assert(vt7a_version_err_pre()[39] == 0x20);
        }
    }
}

/// The message bytes reported for an unrecognized version field: the prose
/// followed by the offending number in decimal.
pub open spec fn vt7a_version_error_text(v: u32) -> Seq<u8> {
    vt7a_version_err_pre() + dec_digits(v as nat)
}

/// Build the diagnostic message for an unrecognized version field.
fn vt7a_version_error(v: u32) -> (r: String)
    ensures
        vstd::utf8::encode_utf8(r@) == vt7a_version_error_text(v),
{
    let prelit: [u8; 40] = [0x61, 0x72, 0x63, 0x68, 0x69, 0x76, 0x65, 0x20, 0x68, 0x65, 0x61, 0x64, 0x65, 0x72, 0x20, 0x68, 0x61, 0x73, 0x20, 0x77, 0x72, 0x6f, 0x6e, 0x67, 0x20, 0x76, 0x65, 0x72, 0x73, 0x69, 0x6f, 0x6e, 0x20, 0x6e, 0x75, 0x6d, 0x62, 0x65, 0x72, 0x20];
    proof {
        assert(prelit@ =~= vt7a_version_err_pre());
    }
    let mut msg: Vec<u8> = Vec::new();
    crate::textfmt::push_bytes(&mut msg, prelit.as_slice());
    let mut digits = crate::textfmt::u32_to_dec(v);
    msg.append(&mut digits);
    proof {
        assert(msg@ =~= vt7a_version_error_text(v));
        lemma_vt7a_version_err_pre_ascii();
        crate::textfmt::lemma_dec_digits(v as nat);
        assert forall|k: int| 0 <= k < msg@.len() implies msg@[k] < 0x80 by {
            let p = vt7a_version_err_pre().len() as int;
            if k < p {
                assert(msg@[k] == vt7a_version_err_pre()[k]);
            } else {
                assert(msg@[k] == dec_digits(v as nat)[k - p]);
                assert(crate::textfmt::is_ascii_digit(dec_digits(v as nat)[k - p]));
            }
        }
        crate::textfmt::lemma_ascii_bytes_valid_utf8(msg@);
    }
    crate::textfmt::bytes_to_string(msg.as_slice())
}


// ---------------------------------------------------------------------------
// The archive round trip
// ---------------------------------------------------------------------------
/// The stored length of entry `k`: the compressed size when nonzero, else
/// the uncompressed size.
pub open spec fn vt7a_entry_len(data: Seq<u8>, k: int) -> int {
    if spec_u32_at(data, 28 + 16 * k) != 0 {
        spec_u32_at(data, 28 + 16 * k) as int
    } else {
        spec_u32_at(data, 24 + 16 * k) as int
    }
}

/// Where entry `k`'s stored bytes begin: the end of the directory plus
/// every earlier entry's stored length.
pub open spec fn vt7a_payload_end(data: Seq<u8>, k: int) -> int
    decreases k,
{
    if k <= 0 {
        16 + 16 * (spec_u32_at(data, 12) as int)
    } else {
        vt7a_payload_end(data, k - 1) + vt7a_entry_len(data, k - 1)
    }
}

proof fn lemma_vt7a_payload_end_mono(data: Seq<u8>, a: int, b: int)
    requires
        a <= b,
    ensures
        vt7a_payload_end(data, a) <= vt7a_payload_end(data, b),
    decreases b - a,
{
    if a < b {
        lemma_vt7a_payload_end_mono(data, a, b - 1);
    }
}

/// A canonical archive: magic and a known version, a directory that fits,
/// stored entries laid out sequentially and gaplessly after the directory,
/// ending exactly at the end of the buffer, with a total size the 32-bit
/// fields can express.
pub open spec fn vt7a_canonical(data: Seq<u8>) -> bool {
    let count = spec_u32_at(data, 12) as int;
    &&& data.len() >= 16
    &&& has_prefix(data, vt7a_magic())
    &&& vt7a_version_of(spec_u32_at(data, 4)) is Some
    &&& data.len() <= u32::MAX
    &&& 16 + 16 * count <= data.len()
    &&& vt7a_payload_end(data, count) == data.len()
    &&& forall|k: int|
        0 <= k < count ==> spec_u32_at(data, 20 + 16 * k) as int == #[trigger] vt7a_payload_end(
            data,
            k,
        )
}

/// A decoded entry list has exactly one pair per directory entry, and each
/// pair's flag is the directory's compressed-size test.
proof fn lemma_vt7a_pairs_flags(data: Seq<u8>, ver: Vt7aVersion, count: int, k: int, fuel: nat)
    requires
        vt7a_children_model(data, ver, count, k, fuel) is Ok,
        0 <= k <= count,
    ensures
        vt7a_children_model(data, ver, count, k, fuel)->Ok_0.len() == count - k,
        forall|j: int|
            0 <= j < count - k ==> #[trigger] vt7a_children_model(data, ver, count, k, fuel)->Ok_0[j].1
                == (spec_u32_at(data, 28 + 16 * (k + j)) != 0),
    decreases count - k,
{
    if k < count {
        lemma_vt7a_pairs_flags(data, ver, count, k + 1, fuel);
    }
}

/// The rebuilt directory and payload regions of entries `k ..` are exactly
/// the corresponding regions of a canonical original.
#[verifier::rlimit(100)]
#[verifier::spinoff_prover]
proof fn lemma_vt7a_entries_rebuild(
    data: Seq<u8>,
    ver: Vt7aVersion,
    items: Seq<Vt7aItemModel>,
    encoded: Seq<ResourceModel>,
    k: int,
)
    requires
        vt7a_canonical(data),
        items.len() == spec_u32_at(data, 12) as int,
        encoded.len() == items.len(),
        0 <= k <= items.len(),
        forall|j: int|
            0 <= j < items.len() ==> (#[trigger] items[j].identifier) == encoded[j].identifier,
        forall|j: int|
            0 <= j < items.len() ==> (#[trigger] encoded[j].identifier) == spec_u32_at(
                data,
                16 + 16 * j,
            ),
        forall|j: int|
            0 <= j < items.len() ==> (#[trigger] items[j].compressed) == (spec_u32_at(
                data,
                28 + 16 * j,
            ) != 0),
        forall|j: int|
            0 <= j < items.len() ==> (#[trigger] encoded[j].data).len() == spec_u32_at(
                data,
                24 + 16 * j,
            ),
        forall|j: int|
            0 <= j < items.len() ==> crate::compression::spec_compress(
                (#[trigger] encoded[j]).data,
                if items[j].compressed {
                    vt7a_version_format(ver)
                } else {
                    crate::compression::CompressionFormat::Stored
                },
            ) == Some(data.subrange(vt7a_payload_end(data, j), vt7a_payload_end(data, j + 1))),
        forall|a: int, b: int|
            0 <= a < b < encoded.len() ==> (#[trigger] encoded[a].identifier) != (
            #[trigger] encoded[b].identifier),
    ensures
        vt7a_entries_model(items, encoded, vt7a_version_format(ver), k, vt7a_payload_end(data, k))
            == Ok::<(Seq<u8>, Seq<u8>), EncodeFailure>(
            (
                data.subrange(16 + 16 * k, 16 + 16 * (items.len() as int)),
                data.subrange(vt7a_payload_end(data, k), data.len() as int),
            ),
        ),
    decreases items.len() - k,
{
    let count = items.len() as int;
    let fmt = vt7a_version_format(ver);
    if k == count {
        assert(data.subrange(16 + 16 * k, 16 + 16 * count) =~= Seq::<u8>::empty());
        assert(data.subrange(vt7a_payload_end(data, k), data.len() as int)
            =~= Seq::<u8>::empty());
        assert(vt7a_entries_model(items, encoded, fmt, k, vt7a_payload_end(data, k)) == Ok::<
            (Seq<u8>, Seq<u8>),
            EncodeFailure,
        >((Seq::<u8>::empty(), Seq::<u8>::empty())));
    } else {
        super::osa_codec::lemma_find_child_distinct(encoded, k, 0);
        let child = encoded[k];
        let off = vt7a_payload_end(data, k);
        let off1 = vt7a_payload_end(data, k + 1);
        lemma_vt7a_payload_end_mono(data, k + 1, count);
        lemma_vt7a_payload_end_mono(data, 0, k);
        assert(off1 <= data.len());
        let slice = data.subrange(off, off1);
        let fmt0 = if items[k].compressed {
            fmt
        } else {
            crate::compression::CompressionFormat::Stored
        };
        assert(crate::compression::spec_compress(child.data, fmt0) == Some(slice));
        assert(slice.len() == off1 - off);
        assert(off1 - off == vt7a_entry_len(data, k));
        lemma_vt7a_entries_rebuild(data, ver, items, encoded, k + 1);
        vstd::bytes::lemma_auto_spec_u32_to_from_le_bytes();
        let p = 16 + 16 * k;
        assert(spec_u32_to_le_bytes(spec_u32_at(data, p)) == data.subrange(p, p + 4));
        assert(spec_u32_to_le_bytes(spec_u32_at(data, p + 4)) == data.subrange(p + 4, p + 8));
        assert(spec_u32_to_le_bytes(spec_u32_at(data, p + 8)) == data.subrange(p + 8, p + 12));
        assert(spec_u32_to_le_bytes(spec_u32_at(data, p + 12)) == data.subrange(p + 12, p + 16));
        assert(child.identifier == spec_u32_at(data, p));
        assert(spec_u32_at(data, p + 4) as int == off);
        assert((off as u32) == spec_u32_at(data, p + 4));
        assert((child.data.len() as u32) == spec_u32_at(data, p + 8));
        let csz32: u32 = if items[k].compressed {
            slice.len() as u32
        } else {
            0u32
        };
        assert(csz32 == spec_u32_at(data, p + 12)) by {
            if items[k].compressed {
                assert(spec_u32_at(data, 28 + 16 * k) != 0);
                assert(vt7a_entry_len(data, k) == spec_u32_at(data, 28 + 16 * k) as int);
            } else {
                assert(spec_u32_at(data, 28 + 16 * k) == 0);
            }
        }
        let entry = spec_u32_to_le_bytes(child.identifier) + spec_u32_to_le_bytes(off as u32)
            + spec_u32_to_le_bytes(child.data.len() as u32) + spec_u32_to_le_bytes(csz32);
        assert(entry =~= data.subrange(p, p + 16));
        assert(entry + data.subrange(16 + 16 * (k + 1), 16 + 16 * count) =~= data.subrange(
            p,
            16 + 16 * count,
        ));
        assert(slice + data.subrange(off1, data.len() as int) =~= data.subrange(
            off,
            data.len() as int,
        ));
    }
}

/// The children of a decoded canonical archive all re-encode, pointwise,
/// under the round-trip hypotheses.
#[verifier::rlimit(100)]
#[verifier::spinoff_prover]
proof fn lemma_vt7a_round_trip_children(m: ResourceModel, fuel: nat, dm: ResourceModel) -> (encoded:
    Seq<ResourceModel>)
    requires
        fuel > 0,
        vt7a_canonical(m.data),
        vt7a_decode_model(m, fuel) == Ok::<ResourceModel, DecodeFailure>(dm),
        forall|k: int|
            0 <= k < dm.subresources.len() ==> match crate::codecs::encode_model(
                #[trigger] dm.subresources[k],
                (fuel - 1) as nat,
            ) {
                Ok(c) => c.identifier == dm.subresources[k].identifier && c.data.len()
                    == spec_u32_at(m.data, 24 + 16 * k) && crate::compression::spec_compress(
                    c.data,
                    if spec_u32_at(m.data, 28 + 16 * k) != 0 {
                        vt7a_version_format(vt7a_version_of(spec_u32_at(m.data, 4))->Some_0)
                    } else {
                        crate::compression::CompressionFormat::Stored
                    },
                ) == Some(
                    m.data.subrange(vt7a_payload_end(m.data, k), vt7a_payload_end(m.data, k + 1)),
                ),
                Err(_) => false,
            },
        forall|k: int|
            0 <= k < dm.subresources.len() ==> (#[trigger] dm.subresources[k].identifier)
                == spec_u32_at(m.data, 16 + 16 * k),
        forall|a: int, b: int|
            0 <= a < b < dm.subresources.len() ==> (#[trigger] dm.subresources[a].identifier) != (
            #[trigger] dm.subresources[b].identifier),
    ensures
        ({
            let data = m.data;
            let ver = vt7a_version_of(spec_u32_at(data, 4))->Some_0;
            let pairs = vt7a_children_model(data, ver, spec_u32_at(data, 12) as int, 0, fuel)->Ok_0;
            let items = vt7a_items_of(pairs);
            &&& dm.subresources == vt7a_children_of(pairs)
            &&& dm.subresources.len() == spec_u32_at(data, 12) as int
            &&& dm.data == vt7a_manifest_json(items)
            &&& parse_vt7a_manifest(dm.data) == Some(items)
            &&& vt7a_format_version(dm) == Some(ver)
            &&& dm.identifier == spec_u32_at(data, 8)
            &&& crate::codecs::encode_children_model(dm.subresources, 0, fuel) == Ok::<
                Seq<ResourceModel>,
                crate::error::EncodeFailure,
            >(encoded)
            &&& encoded.len() == items.len()
            &&& items.len() == spec_u32_at(data, 12) as int
            &&& matched_count(vt7a_item_ids(items), encoded, 0) == items.len()
            &&& forall|j: int|
                0 <= j < items.len() ==> (#[trigger] items[j].identifier) == encoded[j].identifier
            &&& forall|j: int|
                0 <= j < items.len() ==> (#[trigger] encoded[j].identifier) == spec_u32_at(
                    data,
                    16 + 16 * j,
                )
            &&& forall|j: int|
                0 <= j < items.len() ==> (#[trigger] items[j].compressed) == (spec_u32_at(
                    data,
                    28 + 16 * j,
                ) != 0)
            &&& forall|j: int|
                0 <= j < items.len() ==> (#[trigger] encoded[j].data).len() == spec_u32_at(
                    data,
                    24 + 16 * j,
                )
            &&& forall|j: int|
                0 <= j < items.len() ==> crate::compression::spec_compress(
                    (#[trigger] encoded[j]).data,
                    if items[j].compressed {
                        vt7a_version_format(ver)
                    } else {
                        crate::compression::CompressionFormat::Stored
                    },
                ) == Some(
                    data.subrange(vt7a_payload_end(data, j), vt7a_payload_end(data, j + 1)),
                )
            &&& forall|a: int, b: int|
                0 <= a < b < encoded.len() ==> (#[trigger] encoded[a].identifier) != (
                #[trigger] encoded[b].identifier)
        }),
{
    let data = m.data;
    let count = spec_u32_at(data, 12) as int;
    let ver = vt7a_version_of(spec_u32_at(data, 4))->Some_0;
    let pairs = vt7a_children_model(data, ver, count, 0, fuel)->Ok_0;
    let children = vt7a_children_of(pairs);
    assert(dm.subresources == children);
    lemma_vt7a_pairs_flags(data, ver, count, 0, fuel);
    assert(pairs.len() == count);
    assert(children.len() == count);
    let items = vt7a_items_of(pairs);
    assert(items.len() == count);
    let encoded = Seq::new(
        children.len(),
        |k: int| crate::codecs::encode_model(children[k], (fuel - 1) as nat)->Ok_0,
    );
    assert forall|k: int| 0 <= k < children.len() implies #[trigger] crate::codecs::encode_model(
        children[k],
        (fuel - 1) as nat,
    ) == Ok::<ResourceModel, crate::error::EncodeFailure>(encoded[k - 0]) by {
        assert(children[k] == dm.subresources[k]);
        assert(crate::codecs::encode_model(children[k], (fuel - 1) as nat) is Ok);
    }
    crate::codecs::lemma_encode_children_pointwise(children, encoded, 0, fuel);
    lemma_vt7a_manifest_round_trip(items);
    assert forall|j: int| 0 <= j < items.len() implies (#[trigger] items[j].identifier)
        == encoded[j].identifier by {
        assert(items[j].identifier == pairs[j].0.identifier);
        assert(children[j] == pairs[j].0);
    }
    assert forall|j: int| 0 <= j < items.len() implies #[trigger] vt7a_item_ids(items)[j]
        == encoded[j].identifier by {
        assert(items[j].identifier == encoded[j].identifier);
    }
    assert forall|j: int| 0 <= j < items.len() implies (#[trigger] encoded[j].identifier)
        == spec_u32_at(data, 16 + 16 * j) by {
        assert(children[j] == pairs[j].0);
    }
    assert forall|a: int, b: int|
        0 <= a < b < encoded.len() implies (#[trigger] encoded[a].identifier) != (
    #[trigger] encoded[b].identifier) by {
        assert(encoded[a].identifier == dm.subresources[a].identifier);
        assert(encoded[b].identifier == dm.subresources[b].identifier);
    }
    super::osa_codec::lemma_matched_count_all(vt7a_item_ids(items), encoded, 0);
    assert forall|j: int| 0 <= j < items.len() implies (#[trigger] items[j].compressed) == (
    spec_u32_at(data, 28 + 16 * j) != 0) by {
        assert(items[j].compressed == pairs[j].1);
    }
    assert forall|j: int| 0 <= j < items.len() implies (#[trigger] encoded[j].data).len()
        == spec_u32_at(data, 24 + 16 * j) by {
        assert(crate::codecs::encode_model(children[j], (fuel - 1) as nat) == Ok::<
            ResourceModel,
            crate::error::EncodeFailure,
        >(encoded[j]));
    }
    assert forall|j: int| 0 <= j < items.len() implies crate::compression::spec_compress(
        (#[trigger] encoded[j]).data,
        if items[j].compressed {
            vt7a_version_format(ver)
        } else {
            crate::compression::CompressionFormat::Stored
        },
    ) == Some(data.subrange(vt7a_payload_end(data, j), vt7a_payload_end(data, j + 1))) by {
        assert(crate::codecs::encode_model(children[j], (fuel - 1) as nat) == Ok::<
            ResourceModel,
            crate::error::EncodeFailure,
        >(encoded[j]));
        assert(items[j].compressed == (spec_u32_at(data, 28 + 16 * j) != 0));
    }
    assert(dm.format == Some(
        match ver {
            Vt7aVersion::Two => vt7a2_tag(),
            Vt7aVersion::Three => vt7a3_tag(),
        },
    ));
    assert(vt7a2_tag().len() == 5 && vt7a3_tag().len() == 5 && vt7a_tag().len() == 4);
    assert(vt7a2_tag()[4] == 0x32 && vt7a3_tag()[4] == 0x33);
    encoded
}

/// Round trip for the versioned archive: decoding a canonical archive and
/// re-encoding the decoded tree reproduces the original bytes, as long as
/// every decoded child re-encodes, with its identifier kept, to bytes whose
/// compression under the manifest's flag is exactly the stored slice it was
/// cut from (for a stored entry that is the slice itself; for a compressed
/// entry it is the recompression promise the compression subsystem's
/// contracts give for streams this library wrote), and the entries'
/// identifiers are pairwise distinct as the data model demands of siblings.
#[verifier::rlimit(100)]
#[verifier::spinoff_prover]
pub proof fn lemma_vt7a_round_trip(m: ResourceModel, fuel: nat, dm: ResourceModel)
    requires
        fuel > 0,
        vt7a_canonical(m.data),
        vt7a_decode_model(m, fuel) == Ok::<ResourceModel, DecodeFailure>(dm),
        forall|k: int|
            0 <= k < dm.subresources.len() ==> match crate::codecs::encode_model(
                #[trigger] dm.subresources[k],
                (fuel - 1) as nat,
            ) {
                Ok(c) => c.identifier == dm.subresources[k].identifier && c.data.len()
                    == spec_u32_at(m.data, 24 + 16 * k) && crate::compression::spec_compress(
                    c.data,
                    if spec_u32_at(m.data, 28 + 16 * k) != 0 {
                        vt7a_version_format(vt7a_version_of(spec_u32_at(m.data, 4))->Some_0)
                    } else {
                        crate::compression::CompressionFormat::Stored
                    },
                ) == Some(
                    m.data.subrange(vt7a_payload_end(m.data, k), vt7a_payload_end(m.data, k + 1)),
                ),
                Err(_) => false,
            },
        forall|k: int|
            0 <= k < dm.subresources.len() ==> (#[trigger] dm.subresources[k].identifier)
                == spec_u32_at(m.data, 16 + 16 * k),
        forall|a: int, b: int|
            0 <= a < b < dm.subresources.len() ==> (#[trigger] dm.subresources[a].identifier) != (
            #[trigger] dm.subresources[b].identifier),
    ensures
        vt7a_encode_model(dm, fuel) matches Ok(em) && em.data == m.data,
{
    let data = m.data;
    let count = spec_u32_at(data, 12) as int;
    let ver = vt7a_version_of(spec_u32_at(data, 4))->Some_0;
    let pairs = vt7a_children_model(data, ver, count, 0, fuel)->Ok_0;
    let items = vt7a_items_of(pairs);
    let encoded = lemma_vt7a_round_trip_children(m, fuel, dm);
    lemma_vt7a_payload_end_mono(data, 0, count);
    assert(vt7a_payload_end(data, 0) == 16 + 16 * count);
    assert(16 + 16 * count <= data.len() <= u32::MAX);
    lemma_vt7a_entries_rebuild(data, ver, items, encoded, 0);
    let cnt = matched_count(vt7a_item_ids(items), encoded, 0);
    assert(cnt == count);
    assert((cnt as u32) == spec_u32_at(data, 12));
    assert((match ver {
        Vt7aVersion::Two => 2u32,
        Vt7aVersion::Three => 3u32,
    }) == spec_u32_at(data, 4));
    assert(dm.identifier == spec_u32_at(data, 8));
    assert(vt7a_encode_model(dm, fuel) is Ok);
    let em = vt7a_encode_model(dm, fuel)->Ok_0;
    let dp = vt7a_entries_model(items, encoded, vt7a_version_format(ver), 0, 16 + 16 * count)->Ok_0;
    assert(em.data == vt7a_magic() + spec_u32_to_le_bytes(spec_u32_at(data, 4))
        + spec_u32_to_le_bytes(spec_u32_at(data, 8)) + spec_u32_to_le_bytes(spec_u32_at(data, 12))
        + dp.0 + dp.1);
    lemma_vt7a_bytes_reassemble(data, dp.0, dp.1);
}

/// The six regions of a canonical archive concatenate back to the archive.
proof fn lemma_vt7a_bytes_reassemble(data: Seq<u8>, dir: Seq<u8>, pay: Seq<u8>)
    requires
        data.len() >= 16,
        has_prefix(data, vt7a_magic()),
        16 + 16 * (spec_u32_at(data, 12) as int) <= data.len(),
        dir == data.subrange(16, 16 + 16 * (spec_u32_at(data, 12) as int)),
        pay == data.subrange(16 + 16 * (spec_u32_at(data, 12) as int), data.len() as int),
    ensures
        vt7a_magic() + spec_u32_to_le_bytes(spec_u32_at(data, 4)) + spec_u32_to_le_bytes(
            spec_u32_at(data, 8),
        ) + spec_u32_to_le_bytes(spec_u32_at(data, 12)) + dir + pay == data,
{
    vstd::bytes::lemma_auto_spec_u32_to_from_le_bytes();
    assert(spec_u32_to_le_bytes(spec_u32_at(data, 4)) == data.subrange(4, 8));
    assert(spec_u32_to_le_bytes(spec_u32_at(data, 8)) == data.subrange(8, 12));
    assert(spec_u32_to_le_bytes(spec_u32_at(data, 12)) == data.subrange(12, 16));
    assert(vt7a_magic() =~= data.subrange(0, 4));
    assert(vt7a_magic() + spec_u32_to_le_bytes(spec_u32_at(data, 4)) + spec_u32_to_le_bytes(
        spec_u32_at(data, 8),
    ) + spec_u32_to_le_bytes(spec_u32_at(data, 12)) + dir + pay =~= data);
}

} // verus!
