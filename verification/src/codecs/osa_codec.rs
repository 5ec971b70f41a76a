use vstd::prelude::*;

use crate::codecs::{json_tag, matched_count};
use crate::error::{DecodeFailure, DecodingError, EncodeFailure, EncodingError};
use crate::json::{colon_sp, comma_nl, concat_all, emit_string, expect_ws_byte,
    expect_ws_byte_exec, ind2, ind4, kq_filename, kq_identifier, nl, parse_string_field,
    parse_u32_field, skip_ws};
use crate::resource::{lemma_models_from, Resource, ResourceModel};
use crate::store::{store_lookup, FileEntryModel, FileStore};
use crate::textfmt::{clamped_slice, dec_digits, has_prefix, spec_u32_at};
use vstd::bytes::spec_u32_to_le_bytes;

verus! {

/// The simple directory archive: `AUFS` magic, an entry count, and a
/// directory of identifier/offset/length records, no compression.
pub struct OsaCodec;

/// One manifest record of a decoded archive of this format.
pub struct ResourceItem {
    pub identifier: u32,
    pub filename: Vec<u8>,
}

/// The manifest record, with its bytes abstracted.
pub struct OsaItemModel {
    pub identifier: u32,
    pub filename: Seq<u8>,
}

impl View for ResourceItem {
    type V = OsaItemModel;

    open spec fn view(&self) -> OsaItemModel {
        OsaItemModel { identifier: self.identifier, filename: self.filename@ }
    }
}

/// The bytes `AUFS`.
pub open spec fn osa_magic() -> Seq<u8> {
    seq![0x41u8, 0x55u8, 0x46u8, 0x53u8]
}

/// The format tag `osa`.
pub open spec fn osa_tag() -> Seq<u8> {
    seq![0x6fu8, 0x73u8, 0x61u8]
}

pub open spec fn osa_decode_score(m: ResourceModel) -> usize {
    if has_prefix(m.data, osa_magic()) {
        100
    } else {
        0
    }
}

pub open spec fn osa_encode_score(m: ResourceModel) -> usize {
    if m.extension == Some(json_tag()) && m.format == Some(osa_tag()) {
        100
    } else {
        0
    }
}


/// The models of a vector of manifest records.
pub open spec fn osa_items_view(v: Vec<ResourceItem>) -> Seq<OsaItemModel> {
    Seq::new(v@.len(), |i: int| v@[i]@)
}

// ---------------------------------------------------------------------------
// Manifest emission
// ---------------------------------------------------------------------------
/// The emission chunks of one manifest record.
pub open spec fn osa_item_chunks(it: OsaItemModel) -> Seq<Seq<u8>> {
    seq![
        ind2(),
        seq![0x7bu8],
        nl(),
        ind4(),
        kq_identifier(),
        colon_sp(),
        dec_digits(it.identifier as nat),
        comma_nl(),
        ind4(),
        kq_filename(),
        colon_sp(),
        emit_string(it.filename),
        nl(),
        ind2(),
        seq![0x7du8],
    ]
}

/// One manifest record as JSON text.
pub open spec fn osa_item_json(it: OsaItemModel) -> Seq<u8> {
    concat_all(osa_item_chunks(it))
}

/// The records from `k` on, joined with `,\n`.
pub open spec fn osa_items_json(items: Seq<OsaItemModel>, k: int) -> Seq<u8>
    decreases items.len() - k,
{
    if k < 0 || k >= items.len() {
        Seq::empty()
    } else if k == items.len() - 1 {
        osa_item_json(items[k])
    } else {
        osa_item_json(items[k]) + comma_nl() + osa_items_json(items, k + 1)
    }
}

/// The whole manifest: a JSON array of records.
pub open spec fn osa_manifest_json(items: Seq<OsaItemModel>) -> Seq<u8> {
    if items.len() == 0 {
        seq![0x5bu8, 0x5du8]
    } else {
        seq![0x5bu8, 0x0au8] + osa_items_json(items, 0) + seq![0x0au8, 0x5du8]
    }
}

/// Append one record's JSON text.
fn emit_osa_item(out: &mut Vec<u8>, it: &ResourceItem)
    ensures
        final(out)@ == old(out)@ + osa_item_json(it@),
{
    let mut chunks: Vec<Vec<u8>> = Vec::new();
    let sp2: [u8; 2] = [0x20, 0x20];
    let sp4: [u8; 4] = [0x20, 0x20, 0x20, 0x20];
    let kid: [u8; 12] = [
        0x22,
        0x69,
        0x64,
        0x65,
        0x6e,
        0x74,
        0x69,
        0x66,
        0x69,
        0x65,
        0x72,
        0x22,
    ];
    let kfn: [u8; 10] = [0x22, 0x66, 0x69, 0x6c, 0x65, 0x6e, 0x61, 0x6d, 0x65, 0x22];
    let csp: [u8; 2] = [0x3a, 0x20];
    let cnl: [u8; 2] = [0x2c, 0x0a];
    chunks.push(vstd::slice::slice_to_vec(sp2.as_slice()));
    let mut one: Vec<u8> = Vec::new();
    one.push(0x7b);
    chunks.push(one);
    let mut one: Vec<u8> = Vec::new();
    one.push(0x0a);
    chunks.push(one);
    chunks.push(vstd::slice::slice_to_vec(sp4.as_slice()));
    chunks.push(vstd::slice::slice_to_vec(kid.as_slice()));
    chunks.push(vstd::slice::slice_to_vec(csp.as_slice()));
    chunks.push(crate::textfmt::u32_to_dec(it.identifier));
    chunks.push(vstd::slice::slice_to_vec(cnl.as_slice()));
    chunks.push(vstd::slice::slice_to_vec(sp4.as_slice()));
    chunks.push(vstd::slice::slice_to_vec(kfn.as_slice()));
    chunks.push(vstd::slice::slice_to_vec(csp.as_slice()));
    let mut strv: Vec<u8> = Vec::new();
    crate::json::push_json_string(&mut strv, it.filename.as_slice());
    chunks.push(strv);
    let mut one: Vec<u8> = Vec::new();
    one.push(0x0a);
    chunks.push(one);
    chunks.push(vstd::slice::slice_to_vec(sp2.as_slice()));
    let mut one: Vec<u8> = Vec::new();
    one.push(0x7d);
    chunks.push(one);
    proof {
        let cs = osa_item_chunks(it@);
        let pv = crate::resource::parts_view(chunks);
        assert(pv[0] =~= cs[0]);
        assert(pv[1] =~= cs[1]);
        assert(pv[2] =~= cs[2]);
        assert(pv[3] =~= cs[3]);
        assert(pv[4] =~= cs[4]);
        assert(pv[5] =~= cs[5]);
        assert(pv[6] =~= cs[6]);
        assert(pv[7] =~= cs[7]);
        assert(pv[8] =~= cs[8]);
        assert(pv[9] =~= cs[9]);
        assert(pv[10] =~= cs[10]);
        assert(pv[11] =~= cs[11]);
        assert(pv[12] =~= cs[12]);
        assert(pv[13] =~= cs[13]);
        assert(pv[14] =~= cs[14]);
        assert(pv =~~= cs);
    }
    crate::json::push_concat(out, &chunks);
}

/// Serialize the whole manifest.
pub fn emit_osa_manifest(items: &Vec<ResourceItem>) -> (r: Vec<u8>)
    ensures
        r@ == osa_manifest_json(osa_items_view(*items)),
{
    let ghost iv = osa_items_view(*items);
    let mut out: Vec<u8> = Vec::new();
    if items.len() == 0 {
        out.push(0x5b);
        out.push(0x5d);
        proof {
            assert(out@ =~= osa_manifest_json(iv));
        }
        return out;
    }
    out.push(0x5b);
    out.push(0x0a);
    let mut k: usize = 0;
    while k < items.len()
        invariant
            0 <= k <= items@.len(),
            items@.len() >= 1,
            iv == osa_items_view(*items),
            iv.len() == items@.len(),
            k < items@.len() ==> out@ + osa_items_json(iv, k as int) + seq![0x0au8, 0x5du8]
                == osa_manifest_json(iv),
            k == items@.len() ==> out@ + seq![0x0au8, 0x5du8] == osa_manifest_json(iv),
        decreases items@.len() - k,
    {
        let ghost before = out@;
        emit_osa_item(&mut out, &items[k]);
        proof {
            assert(items@[k as int]@ == iv[k as int]);
        }
        if k + 1 < items.len() {
            out.push(0x2c);
            out.push(0x0a);
            proof {
                assert(out@ =~= before + osa_item_json(iv[k as int]) + comma_nl());
                assert(osa_items_json(iv, k as int) == osa_item_json(iv[k as int]) + comma_nl()
                    + osa_items_json(iv, k as int + 1));
                assert(out@ + osa_items_json(iv, k as int + 1) =~= before + osa_items_json(
                    iv,
                    k as int,
                ));
                assert(out@ + osa_items_json(iv, k as int + 1) + seq![0x0au8, 0x5du8]
                    =~= before + osa_items_json(iv, k as int) + seq![0x0au8, 0x5du8]);
            }
        } else {
            proof {
                assert(osa_items_json(iv, k as int) == osa_item_json(iv[k as int]));
                assert(out@ + seq![0x0au8, 0x5du8] =~= before + osa_items_json(iv, k as int)
                    + seq![0x0au8, 0x5du8]);
            }
        }
        k += 1;
    }
    out.push(0x0a);
    out.push(0x5d);
    proof {
        assert(out@ =~= osa_manifest_json(iv));
    }
    out
}

// ---------------------------------------------------------------------------
// Manifest parsing
// ---------------------------------------------------------------------------
/// `{` then the identifier field then the separating comma.
pub open spec fn parse_osa_item_head(s: Seq<u8>, i: int) -> Option<(int, u32)> {
    match expect_ws_byte(s, i, 0x7b) {
        None => None,
        Some(i1) => match parse_u32_field(s, i1, kq_identifier()) {
            None => None,
            Some((i2, id)) => match expect_ws_byte(s, i2, 0x2c) {
                None => None,
                Some(i3) => Some((i3, id)),
            },
        },
    }
}

/// One manifest record.
pub open spec fn parse_osa_item(s: Seq<u8>, i: int) -> Option<(int, OsaItemModel)> {
    match parse_osa_item_head(s, i) {
        None => None,
        Some((i3, id)) => match parse_string_field(s, i3, kq_filename()) {
            None => None,
            Some((i4, f)) => match expect_ws_byte(s, i4, 0x7d) {
                None => None,
                Some(i5) => Some((i5, OsaItemModel { identifier: id, filename: f })),
            },
        },
    }
}

/// The records of a nonempty array from position `i` up to and including the
/// closing bracket.
pub open spec fn parse_osa_items_rest(s: Seq<u8>, i: int) -> Option<(int, Seq<OsaItemModel>)>
    decreases s.len() - i,
{
    match parse_osa_item(s, i) {
        None => None,
        Some((j, it)) => {
            let k = skip_ws(s, j);
            if !(i < k && k < s.len()) {
                None
            } else if s[k] == 0x2c {
                match parse_osa_items_rest(s, k + 1) {
                    None => None,
                    Some((e, rest)) => Some((e, seq![it] + rest)),
                }
            } else if s[k] == 0x5d {
                Some((k + 1, seq![it]))
            } else {
                None
            }
        },
    }
}

/// The whole manifest: a strict JSON array of records with nothing but
/// whitespace after it.
pub open spec fn parse_osa_manifest(s: Seq<u8>) -> Option<Seq<OsaItemModel>> {
    match expect_ws_byte(s, 0, 0x5b) {
        None => None,
        Some(i1) => {
            let k = skip_ws(s, i1);
            if k < s.len() && s[k] == 0x5d {
                if skip_ws(s, k + 1) == s.len() {
                    Some(Seq::empty())
                } else {
                    None
                }
            } else {
                match parse_osa_items_rest(s, i1) {
                    None => None,
                    Some((e, items)) => if skip_ws(s, e) == s.len() {
                        Some(items)
                    } else {
                        None
                    },
                }
            }
        },
    }
}

/// Parse one record.
fn parse_osa_item_exec(s: &[u8], i: usize) -> (r: Option<(usize, ResourceItem)>)
    requires
        i <= s@.len(),
    ensures
        match r {
            Some(p) => (parse_osa_item(s@, i as int) matches Some(q) && q.0 == p.0 && q.1 == p.1@)
                && i < p.0 <= s@.len(),
            None => parse_osa_item(s@, i as int) is None,
        },
{
    let i1 = match expect_ws_byte_exec(s, i, 0x7b) {
        Some(v) => v,
        None => {
            return None;
        },
    };
    let kid: [u8; 12] = [
        0x22,
        0x69,
        0x64,
        0x65,
        0x6e,
        0x74,
        0x69,
        0x66,
        0x69,
        0x65,
        0x72,
        0x22,
    ];
    proof {
        assert(kid@ =~= kq_identifier());
    }
    let (i2, id) = match crate::json::parse_u32_field_exec(s, i1, kid.as_slice()) {
        Some(p) => p,
        None => {
            return None;
        },
    };
    let i3 = match expect_ws_byte_exec(s, i2, 0x2c) {
        Some(v) => v,
        None => {
            return None;
        },
    };
    let kfn: [u8; 10] = [0x22, 0x66, 0x69, 0x6c, 0x65, 0x6e, 0x61, 0x6d, 0x65, 0x22];
    proof {
        assert(kfn@ =~= kq_filename());
    }
    let (i4, fname) = match crate::json::parse_string_field_exec(s, i3, kfn.as_slice()) {
        Some(p) => p,
        None => {
            return None;
        },
    };
    let i5 = match expect_ws_byte_exec(s, i4, 0x7d) {
        Some(v) => v,
        None => {
            return None;
        },
    };
    Some((i5, ResourceItem { identifier: id, filename: fname }))
}

/// Parse the records of a nonempty array.
fn parse_osa_items_rest_exec(s: &[u8], i: usize) -> (r: Option<(usize, Vec<ResourceItem>)>)
    requires
        i <= s@.len(),
    ensures
        match r {
            Some(p) => (parse_osa_items_rest(s@, i as int) matches Some(q) && q.0 == p.0 && q.1
                == osa_items_view(p.1)) && i < p.0 <= s@.len(),
            None => parse_osa_items_rest(s@, i as int) is None,
        },
    decreases s@.len() - i,
{
    let (j, it) = match parse_osa_item_exec(s, i) {
        Some(p) => p,
        None => {
            return None;
        },
    };
    let k = crate::json::ws(s, j);
    if !(k < s.len()) {
        return None;
    }
    let b = s[k];
    if b == 0x2c {
        match parse_osa_items_rest_exec(s, k + 1) {
            Some((e, rest)) => {
                let mut all = rest;
                all.insert(0, it);
                proof {
                    let q = parse_osa_items_rest(s@, i as int)->Some_0;
                    assert(osa_items_view(all) =~~= q.1);
                }
                Some((e, all))
            },
            None => None,
        }
    } else if b == 0x5d {
        let mut one: Vec<ResourceItem> = Vec::new();
        one.push(it);
        proof {
            let q = parse_osa_items_rest(s@, i as int)->Some_0;
            assert(osa_items_view(one) =~~= q.1);
        }
        Some((k + 1, one))
    } else {
        None
    }
}

/// Parse the whole manifest.
pub fn parse_osa_manifest_exec(s: &[u8]) -> (r: Option<Vec<ResourceItem>>)
    ensures
        match r {
            Some(v) => parse_osa_manifest(s@) == Some(osa_items_view(v)),
            None => parse_osa_manifest(s@) is None,
        },
{
    let i1 = match expect_ws_byte_exec(s, 0, 0x5b) {
        Some(v) => v,
        None => {
            return None;
        },
    };
    let k = crate::json::ws(s, i1);
    if k < s.len() {
        let b = s[k];
        if b == 0x5d {
            if crate::json::ws(s, k + 1) == s.len() {
                let empty: Vec<ResourceItem> = Vec::new();
                proof {
                    assert(osa_items_view(empty) =~~= Seq::<OsaItemModel>::empty());
                }
                return Some(empty);
            }
            return None;
        }
    }
    match parse_osa_items_rest_exec(s, i1) {
        Some((e, items)) => {
            if crate::json::ws(s, e) == s.len() {
                Some(items)
            } else {
                None
            }
        },
        None => None,
    }
}


// ---------------------------------------------------------------------------
// Manifest round trip
// ---------------------------------------------------------------------------
/// An emitted record, preceded by whitespace, parses back to itself.
#[verifier::rlimit(100)]
#[verifier::spinoff_prover]
proof fn lemma_parse_emit_osa_item(s: Seq<u8>, i: int, a: int, it: OsaItemModel)
    requires
        0 <= i <= a,
        forall|k: int| i <= k < a ==> crate::json::is_json_ws(#[trigger] s[k]),
        a + osa_item_json(it).len() <= s.len(),
        s.subrange(a, a + osa_item_json(it).len() as int) == osa_item_json(it),
    ensures
        parse_osa_item(s, i) == Some((a + osa_item_json(it).len() as int, it)),
{
    let cs = osa_item_chunks(it);
    let whole = osa_item_json(it);
    crate::json::lemma_concat_all_len(cs);
    let o0 = a + crate::json::offset_of(cs, 0);
    let o1 = a + crate::json::offset_of(cs, 1);
    let o2 = a + crate::json::offset_of(cs, 2);
    let o3 = a + crate::json::offset_of(cs, 3);
    let o4 = a + crate::json::offset_of(cs, 4);
    let o5 = a + crate::json::offset_of(cs, 5);
    let o6 = a + crate::json::offset_of(cs, 6);
    let o7 = a + crate::json::offset_of(cs, 7);
    let o8 = a + crate::json::offset_of(cs, 8);
    let o9 = a + crate::json::offset_of(cs, 9);
    let o10 = a + crate::json::offset_of(cs, 10);
    let o11 = a + crate::json::offset_of(cs, 11);
    let o12 = a + crate::json::offset_of(cs, 12);
    let o13 = a + crate::json::offset_of(cs, 13);
    let o14 = a + crate::json::offset_of(cs, 14);
    assert(crate::json::offset_of(cs, 1) == crate::json::offset_of(cs, 0) + cs[0].len());
    assert(crate::json::offset_of(cs, 2) == crate::json::offset_of(cs, 1) + cs[1].len());
    assert(crate::json::offset_of(cs, 3) == crate::json::offset_of(cs, 2) + cs[2].len());
    assert(crate::json::offset_of(cs, 4) == crate::json::offset_of(cs, 3) + cs[3].len());
    assert(crate::json::offset_of(cs, 5) == crate::json::offset_of(cs, 4) + cs[4].len());
    assert(crate::json::offset_of(cs, 6) == crate::json::offset_of(cs, 5) + cs[5].len());
    assert(crate::json::offset_of(cs, 7) == crate::json::offset_of(cs, 6) + cs[6].len());
    assert(crate::json::offset_of(cs, 8) == crate::json::offset_of(cs, 7) + cs[7].len());
    assert(crate::json::offset_of(cs, 9) == crate::json::offset_of(cs, 8) + cs[8].len());
    assert(crate::json::offset_of(cs, 10) == crate::json::offset_of(cs, 9) + cs[9].len());
    assert(crate::json::offset_of(cs, 11) == crate::json::offset_of(cs, 10) + cs[10].len());
    assert(crate::json::offset_of(cs, 12) == crate::json::offset_of(cs, 11) + cs[11].len());
    assert(crate::json::offset_of(cs, 13) == crate::json::offset_of(cs, 12) + cs[12].len());
    assert(crate::json::offset_of(cs, 14) == crate::json::offset_of(cs, 13) + cs[13].len());
    assert(crate::json::offset_of(cs, 15) == crate::json::offset_of(cs, 14) + cs[14].len());
    crate::json::lemma_concat_all_chunk(s, a, cs, 0);
    crate::json::lemma_concat_all_chunk(s, a, cs, 1);
    crate::json::lemma_concat_all_chunk(s, a, cs, 2);
    crate::json::lemma_concat_all_chunk(s, a, cs, 3);
    crate::json::lemma_concat_all_chunk(s, a, cs, 4);
    crate::json::lemma_concat_all_chunk(s, a, cs, 5);
    crate::json::lemma_concat_all_chunk(s, a, cs, 6);
    crate::json::lemma_concat_all_chunk(s, a, cs, 7);
    crate::json::lemma_concat_all_chunk(s, a, cs, 8);
    crate::json::lemma_concat_all_chunk(s, a, cs, 9);
    crate::json::lemma_concat_all_chunk(s, a, cs, 10);
    crate::json::lemma_concat_all_chunk(s, a, cs, 11);
    crate::json::lemma_concat_all_chunk(s, a, cs, 12);
    crate::json::lemma_concat_all_chunk(s, a, cs, 13);
    crate::json::lemma_concat_all_chunk(s, a, cs, 14);
    // the opening brace
    crate::json::lemma_ws_ind2(cs[0]);
    crate::json::lemma_ws_chunk(s, o0, cs[0]);
    crate::json::lemma_chunk_byte_at(s, o1, cs[1], 0);
    assert(s[o1] == 0x7b);
    crate::json::lemma_skip_ws_run(s, i, o1);
    assert(expect_ws_byte(s, i, 0x7b) == Some(o1 + 1));
    assert(o1 + 1 == o2);
    // the identifier field
    crate::json::lemma_ws_nl(cs[2]);
    crate::json::lemma_ws_chunk(s, o2, cs[2]);
    crate::json::lemma_ws_ind4(cs[3]);
    crate::json::lemma_ws_chunk(s, o3, cs[3]);
    crate::json::lemma_chunk_byte_at(s, o5, cs[5], 0);
    crate::json::lemma_chunk_byte_at(s, o5, cs[5], 1);
    assert(s[o4 + kq_identifier().len()] == 0x3a);
    assert(s[o4 + kq_identifier().len() + 1] == 0x20);
    crate::json::lemma_chunk_byte_at(s, o7, cs[7], 0);
    assert(s[o7] == 0x2c);
    assert(!crate::textfmt::is_ascii_digit(0x2cu8));
    assert(kq_identifier()[0] == 0x22);
    crate::json::lemma_u32_field_at(s, o2, o4, kq_identifier(), it.identifier);
    assert(parse_u32_field(s, o2, kq_identifier()) == Some((o7, it.identifier)));
    // the separating comma
    crate::json::lemma_skip_ws_run(s, o7, o7);
    assert(expect_ws_byte(s, o7, 0x2c) == Some(o7 + 1));
    assert(parse_osa_item_head(s, i) == Some((o7 + 1, it.identifier)));
    // the filename field
    crate::json::lemma_chunk_byte_at(s, o7, cs[7], 1);
    assert(crate::json::is_json_ws(s[o7 + 1]));
    crate::json::lemma_ws_ind4(cs[8]);
    crate::json::lemma_ws_chunk(s, o8, cs[8]);
    crate::json::lemma_chunk_byte_at(s, o10, cs[10], 0);
    crate::json::lemma_chunk_byte_at(s, o10, cs[10], 1);
    assert(s[o9 + kq_filename().len()] == 0x3a);
    assert(s[o9 + kq_filename().len() + 1] == 0x20);
    assert(kq_filename()[0] == 0x22);
    crate::json::lemma_string_field_at(s, o7 + 1, o9, kq_filename(), it.filename);
    assert(parse_string_field(s, o7 + 1, kq_filename()) == Some((o12, it.filename)));
    // the closing brace
    crate::json::lemma_ws_nl(cs[12]);
    crate::json::lemma_ws_chunk(s, o12, cs[12]);
    crate::json::lemma_ws_ind2(cs[13]);
    crate::json::lemma_ws_chunk(s, o13, cs[13]);
    crate::json::lemma_chunk_byte_at(s, o14, cs[14], 0);
    assert(s[o14] == 0x7d);
    crate::json::lemma_skip_ws_run(s, o12, o14);
    assert(expect_ws_byte(s, o12, 0x7d) == Some(o14 + 1));
    assert(o14 + 1 == a + whole.len());
    assert(OsaItemModel { identifier: it.identifier, filename: it.filename } == it);
}

/// An emitted record list followed by `\n]` parses back to the records.
#[verifier::rlimit(100)]
#[verifier::spinoff_prover]
proof fn lemma_parse_emit_osa_items(s: Seq<u8>, i: int, a: int, items: Seq<OsaItemModel>, k: int)
    requires
        0 <= i <= a,
        0 <= k < items.len(),
        forall|j: int| i <= j < a ==> crate::json::is_json_ws(#[trigger] s[j]),
        a + osa_items_json(items, k).len() + 2 <= s.len(),
        s.subrange(a, a + osa_items_json(items, k).len() + 2) == osa_items_json(items, k) + seq![
            0x0au8,
            0x5du8,
        ],
    ensures
        parse_osa_items_rest(s, i) == Some(
            (a + osa_items_json(items, k).len() + 2, items.subrange(k, items.len() as int)),
        ),
    decreases items.len() - k,
{
    let body = osa_items_json(items, k);
    let whole = body + seq![0x0au8, 0x5du8];
    let itj = osa_item_json(items[k]);
    if k == items.len() - 1 {
        assert(body == itj);
        assert forall|j: int| 0 <= j < itj.len() implies s.subrange(a, a + itj.len() as int)[j]
            == itj[j] by {
            assert(s.subrange(a, a + whole.len() as int)[j] == whole[j]);
            assert(whole[j] == itj[j]);
        }
        assert(s.subrange(a, a + itj.len() as int) =~= itj);
        lemma_parse_emit_osa_item(s, i, a, items[k]);
        let j = a + itj.len() as int;
        assert(s.subrange(a, a + whole.len() as int)[itj.len() as int] == whole[itj.len() as int]);
        assert(s[j + 0] == 0x0a);
        assert(s.subrange(a, a + whole.len() as int)[itj.len() as int + 1] == whole[itj.len() as int + 1]);
        assert(s[j + 1] == 0x5d);
        assert(crate::json::is_json_ws(s[j + 0]));
        assert(!crate::json::is_json_ws(s[j + 1]));
        crate::json::lemma_skip_ws_run(s, j, j + 1);
        assert(skip_ws(s, j) == j + 1);
        assert(i < j + 1 < s.len() || i < j + 1 == s.len());
        assert(parse_osa_items_rest(s, i) == Some((j + 2, seq![items[k]])));
        assert(items.subrange(k, items.len() as int) =~= seq![items[k]]);
    } else {
        assert(body == itj + comma_nl() + osa_items_json(items, k + 1));
        assert forall|j: int| 0 <= j < itj.len() implies s.subrange(a, a + itj.len() as int)[j]
            == itj[j] by {
            assert(s.subrange(a, a + whole.len() as int)[j] == whole[j]);
            assert(whole[j] == (itj + comma_nl() + osa_items_json(items, k + 1))[j]);
        }
        assert(s.subrange(a, a + itj.len() as int) =~= itj);
        lemma_parse_emit_osa_item(s, i, a, items[k]);
        let j = a + itj.len() as int;
        assert(s.subrange(a, a + whole.len() as int)[itj.len() as int] == whole[itj.len() as int]);
        assert(s[j + 0] == 0x2c);
        assert(s.subrange(a, a + whole.len() as int)[itj.len() as int + 1] == whole[itj.len() as int + 1]);
        assert(s[j + 1] == 0x0a);
        assert(!crate::json::is_json_ws(s[j + 0]));
        crate::json::lemma_skip_ws_run(s, j, j);
        assert(skip_ws(s, j) == j);
        let rest_len = osa_items_json(items, k + 1).len() as int;
        assert forall|j2: int| 0 <= j2 < rest_len + 2 implies (#[trigger] s.subrange(
            j + 2,
            j + 2 + rest_len + 2,
        )[j2]) == (osa_items_json(items, k + 1) + seq![0x0au8, 0x5du8])[j2] by {
            assert(s.subrange(a, a + whole.len() as int)[itj.len() as int + 2 + j2] == whole[
                itj.len() as int + 2 + j2]);
        }
        assert(s.subrange(j + 2, j + 2 + rest_len + 2) =~= osa_items_json(items, k + 1) + seq![
            0x0au8,
            0x5du8,
        ]);
        assert(crate::json::is_json_ws(s[j + 1]));
        lemma_parse_emit_osa_items(s, j + 1, j + 2, items, k + 1);
        assert(parse_osa_items_rest(s, j + 1) == Some(
            (j + 2 + rest_len + 2, items.subrange(k + 1, items.len() as int)),
        ));
        assert(i < j);
        assert(parse_osa_items_rest(s, i) == Some(
            (j + 2 + rest_len + 2, seq![items[k]] + items.subrange(k + 1, items.len() as int)),
        ));
        assert(seq![items[k]] + items.subrange(k + 1, items.len() as int) =~= items.subrange(
            k,
            items.len() as int,
        ));
        assert(a + body.len() + 2 == j + 2 + rest_len + 2);
    }
}

/// The manifest round trip: parsing an emitted manifest yields the records.
#[verifier::rlimit(100)]
#[verifier::spinoff_prover]
pub proof fn lemma_osa_manifest_round_trip(items: Seq<OsaItemModel>)
    ensures
        parse_osa_manifest(osa_manifest_json(items)) == Some(items),
{
    let s = osa_manifest_json(items);
    if items.len() == 0 {
        assert(s[0] == 0x5b && s[1] == 0x5d);
        assert(!crate::json::is_json_ws(s[0]));
        crate::json::lemma_skip_ws_run(s, 0, 0);
        assert(expect_ws_byte(s, 0, 0x5b) == Some(1int));
        assert(!crate::json::is_json_ws(s[1]));
        crate::json::lemma_skip_ws_run(s, 1, 1);
        crate::json::lemma_skip_ws_run(s, 2, 2);
        assert(parse_osa_manifest(s) == Some(Seq::<OsaItemModel>::empty()));
        assert(Seq::<OsaItemModel>::empty() =~= items);
    } else {
        let body = osa_items_json(items, 0);
        assert(s == seq![0x5bu8, 0x0au8] + body + seq![0x0au8, 0x5du8]);
        assert(s[0] == 0x5b);
        assert(!crate::json::is_json_ws(s[0]));
        crate::json::lemma_skip_ws_run(s, 0, 0);
        assert(expect_ws_byte(s, 0, 0x5b) == Some(1int));
        assert(s[1] == 0x0a);
        assert(crate::json::is_json_ws(s[1]));
        assert forall|j2: int| 0 <= j2 < body.len() + 2 implies s.subrange(
            2,
            2 + body.len() as int + 2,
        )[j2] == (body + seq![0x0au8, 0x5du8])[j2] by {
            assert(s[2 + j2] == (seq![0x5bu8, 0x0au8] + body + seq![0x0au8, 0x5du8])[2 + j2]);
        }
        assert(s.subrange(2, 2 + body.len() as int + 2) =~= body + seq![0x0au8, 0x5du8]);
        lemma_parse_emit_osa_items(s, 1, 2, items, 0);
        assert(parse_osa_items_rest(s, 1) == Some(
            (2 + body.len() as int + 2, items.subrange(0, items.len() as int)),
        ));
        assert(2 + body.len() + 2 == s.len());
        crate::json::lemma_skip_ws_run(s, s.len() as int, s.len() as int);
        // the branch on an immediate closing bracket is not taken: the first
        // non-whitespace byte after the opening bracket is a brace
        let itj = osa_item_json(items[0]);
        let cs = osa_item_chunks(items[0]);
        crate::json::lemma_concat_all_len(cs);
        assert(crate::json::offset_of(cs, 1) == crate::json::offset_of(cs, 0) + cs[0].len());
        assert(crate::json::offset_of(cs, 2) == crate::json::offset_of(cs, 1) + cs[1].len());
        assert forall|j: int| 0 <= j < itj.len() implies s.subrange(2, 2 + itj.len() as int)[j]
            == itj[j] by {
            assert(s.subrange(2, 2 + body.len() as int + 2)[j] == (body + seq![0x0au8, 0x5du8])[j]);
            if items.len() == 1 {
                assert(body == itj);
            } else {
                assert(body == itj + comma_nl() + osa_items_json(items, 1));
            }
        }
        assert(s.subrange(2, 2 + itj.len() as int) =~= itj);
        crate::json::lemma_concat_all_chunk(s, 2, cs, 0);
        crate::json::lemma_concat_all_chunk(s, 2, cs, 1);
        crate::json::lemma_ws_ind2(cs[0]);
        crate::json::lemma_ws_chunk(s, 2, cs[0]);
        crate::json::lemma_chunk_byte_at(s, 2 + crate::json::offset_of(cs, 1), cs[1], 0);
        assert(s[4] == 0x7b);
        crate::json::lemma_skip_ws_run(s, 1, 4);
        assert(skip_ws(s, 1) == 4);
        assert(s[4] != 0x5d);
        assert(items.subrange(0, items.len() as int) =~= items);
    }
}


// ---------------------------------------------------------------------------
// The binary container
// ---------------------------------------------------------------------------
/// One child as sliced out of the payload region, before classification.
/// The slice is exact: the decoder rejects an entry whose slice would run
/// past the buffer end before this is taken.
pub open spec fn osa_child_raw(data: Seq<u8>, k: int) -> ResourceModel {
    ResourceModel {
        identifier: spec_u32_at(data, 8 + 12 * k),
        format: None,
        extension: None,
        data: clamped_slice(
            data,
            spec_u32_at(data, 12 + 12 * k) as int,
            spec_u32_at(data, 16 + 12 * k) as int,
        ),
        hidden: false,
        subresources: Seq::empty(),
    }
}

/// The fully decoded children of entries `k ..`: each sliced out and run
/// through the whole dispatch pipeline. A slice that would run past the
/// buffer end is an I/O bounds error.
pub open spec fn osa_children_model(data: Seq<u8>, count: int, k: int, fuel: nat) -> Result<
    Seq<ResourceModel>,
    DecodeFailure,
>
    decreases fuel, 0int, count - k,
{
    if k >= count {
        Ok(Seq::empty())
    } else if data.len() < 8 + 12 * (k + 1) {
        Err(DecodeFailure::Io)
    } else if fuel == 0 {
        Err(DecodeFailure::Parse)
    } else if spec_u32_at(data, 12 + 12 * k) as int + spec_u32_at(data, 16 + 12 * k) as int
        > data.len() {
        Err(DecodeFailure::Io)
    } else {
        match crate::codecs::decode_model(osa_child_raw(data, k), (fuel - 1) as nat) {
            Err(e) => Err(e),
            Ok(child) => match osa_children_model(data, count, k + 1, fuel) {
                Err(e) => Err(e),
                Ok(rest) => Ok(seq![child] + rest),
            },
        }
    }
}

/// The manifest records for the decoded children.
pub open spec fn osa_items_of(children: Seq<ResourceModel>) -> Seq<OsaItemModel> {
    Seq::new(
        children.len(),
        |i: int|
            OsaItemModel {
                identifier: children[i].identifier,
                filename: crate::resource::spec_filename(children[i]),
            },
    )
}

/// Decoding: validate the magic, read the count, expand every entry, and
/// replace the payload with the manifest.
pub open spec fn osa_decode_model(m: ResourceModel, fuel: nat) -> Result<
    ResourceModel,
    DecodeFailure,
>
    decreases fuel, 1int, 0int,
{
    if m.data.len() < 4 {
        Err(DecodeFailure::Io)
    } else if !has_prefix(m.data, osa_magic()) {
        Err(DecodeFailure::Parse)
    } else if m.data.len() < 8 {
        Err(DecodeFailure::Io)
    } else {
        match osa_children_model(m.data, spec_u32_at(m.data, 4) as int, 0, fuel) {
            Err(e) => Err(e),
            Ok(children) => Ok(
                ResourceModel {
                    data: osa_manifest_json(osa_items_of(children)),
                    extension: Some(json_tag()),
                    format: Some(osa_tag()),
                    subresources: children,
                    ..m
                },
            ),
        }
    }
}

/// The directory and payload regions built in manifest order; records whose
/// identifier has no matching child are skipped. `off` is the absolute
/// offset the next payload byte would land at; `None` reports an offset or
/// length that cannot be represented in the 32-bit directory fields.
pub open spec fn osa_entries_model(
    items: Seq<OsaItemModel>,
    children: Seq<ResourceModel>,
    k: int,
    off: int,
) -> Option<(Seq<u8>, Seq<u8>)>
    decreases items.len() - k,
{
    if k < 0 || k >= items.len() {
        Some((Seq::empty(), Seq::empty()))
    } else {
        match crate::codecs::find_child(children, items[k].identifier, 0) {
            None => osa_entries_model(items, children, k + 1, off),
            Some(ci) => {
                let child = children[ci];
                if off + child.data.len() > u32::MAX {
                    None
                } else {
                    match osa_entries_model(items, children, k + 1, off + child.data.len()) {
                        None => None,
                        Some((dir, pay)) => Some(
                            (
                                spec_u32_to_le_bytes(child.identifier) + spec_u32_to_le_bytes(
                                    off as u32,
                                ) + spec_u32_to_le_bytes(child.data.len() as u32) + dir,
                                child.data + pay,
                            ),
                        ),
                    }
                }
            },
        }
    }
}

/// The identifiers named by the manifest.
pub open spec fn osa_item_ids(items: Seq<OsaItemModel>) -> Seq<u32> {
    Seq::new(items.len(), |i: int| items[i].identifier)
}

/// Encoding: encode every child post-order, then rebuild the container in
/// manifest order, skipping records with no matching child; the declared
/// count is the number of records actually matched.
pub open spec fn osa_encode_model(m: ResourceModel, fuel: nat) -> Result<
    ResourceModel,
    EncodeFailure,
>
    decreases fuel, 1int, 0int,
{
    match crate::codecs::encode_children_model(m.subresources, 0, fuel) {
        Err(e) => Err(e),
        Ok(children) => match parse_osa_manifest(m.data) {
            None => Err(EncodeFailure::Deserialize),
            Some(items) => {
                let cnt = matched_count(osa_item_ids(items), children, 0);
                if 8 + 12 * cnt > u32::MAX {
                    Err(EncodeFailure::Parse)
                } else {
                    match osa_entries_model(items, children, 0, 8 + 12 * (cnt as int)) {
                        None => Err(EncodeFailure::Parse),
                        Some(dp) => Ok(
                            ResourceModel {
                                data: osa_magic() + spec_u32_to_le_bytes(cnt as u32) + dp.0 + dp.1,
                                extension: Some(osa_tag()),
                                format: None,
                                subresources: Seq::empty(),
                                ..m
                            },
                        ),
                    }
                }
            },
        },
    }
}

/// Loading: every record must have its extracted file present; each child is
/// named by its filename and recursively loads its own children.
pub open spec fn osa_load_children(
    store: Seq<FileEntryModel>,
    dir: Seq<u8>,
    items: Seq<OsaItemModel>,
    k: int,
    fuel: nat,
) -> Result<Seq<ResourceModel>, EncodeFailure>
    decreases fuel, 0int, items.len() - k,
{
    if k < 0 || k >= items.len() {
        Ok(Seq::empty())
    } else if fuel == 0 {
        Err(EncodeFailure::Parse)
    } else {
        match store_lookup(store, dir + seq![0x2fu8] + items[k].filename) {
            None => Err(EncodeFailure::Io),
            Some(bytes) => match crate::resource::spec_parse_filename(items[k].filename) {
                None => Err(EncodeFailure::Parse),
                Some(t) => {
                    let child0 = ResourceModel {
                        identifier: t.0,
                        format: t.1,
                        extension: t.2,
                        data: bytes,
                        hidden: false,
                        subresources: Seq::empty(),
                    };
                    match crate::codecs::load_model(store, dir, child0, (fuel - 1) as nat) {
                        Err(e) => Err(e),
                        Ok(child) => match osa_load_children(store, dir, items, k + 1, fuel) {
                            Err(e) => Err(e),
                            Ok(rest) => Ok(seq![child] + rest),
                        },
                    }
                },
            },
        }
    }
}

pub open spec fn osa_load_model(
    store: Seq<FileEntryModel>,
    base: Seq<u8>,
    m: ResourceModel,
    fuel: nat,
) -> Result<ResourceModel, EncodeFailure>
    decreases fuel, 1int, 0int,
{
    match parse_osa_manifest(m.data) {
        None => Err(EncodeFailure::Deserialize),
        Some(items) => {
            let dir = base + seq![0x2fu8] + crate::resource::spec_dirname(m);
            match osa_load_children(store, dir, items, 0, fuel) {
                Err(e) => Err(e),
                Ok(children) => Ok(ResourceModel { subresources: m.subresources + children, ..m }),
            }
        },
    }
}


/// Decode an archive of this format in place, with a nesting budget for the
/// recursive expansion of its entries.
#[verifier::rlimit(100)]
#[verifier::spinoff_prover]
pub(crate) fn osa_decode_at_depth(resource: &mut Resource, depth: u64) -> (r: Result<
    (),
    DecodingError,
>)
    requires
        depth >= 1,
    ensures
        match osa_decode_model(old(resource)@, depth as nat) {
            Ok(mm) => r is Ok && final(resource)@ == mm,
            Err(k) => (r matches Err(e) && e.kind() == k) && *final(resource) == *old(resource),
        },
    decreases depth, 1int, 0int,
{
    let n = resource.data.len();
    if n < 4 {
        return Err(DecodingError::IOError(String::from_str("archive header is truncated")));
    }
    let magic: [u8; 4] = [0x41, 0x55, 0x46, 0x53];
    proof {
        assert(magic@ =~= osa_magic());
    }
    if !crate::textfmt::starts_with_bytes(resource.data.as_slice(), magic.as_slice()) {
        return Err(
            DecodingError::ParsingError(String::from_str("archive header is missing its magic")),
        );
    }
    if n < 8 {
        return Err(DecodingError::IOError(String::from_str("archive header is truncated")));
    }
    let count = crate::textfmt::read_u32_le(resource.data.as_slice(), 4);
    let ghost md = resource.data@;
    let mut children: Vec<Resource> = Vec::new();
    let mut items: Vec<ResourceItem> = Vec::new();
    let mut k: u32 = 0;
    proof {
        assert(Resource::models_from(children, 0) =~= Seq::<ResourceModel>::empty());
        if osa_children_model(md, count as int, 0, depth as nat) is Ok {
            let all = osa_children_model(md, count as int, 0, depth as nat)->Ok_0;
            assert(Seq::<ResourceModel>::empty() + all =~= all);
        }
        assert(osa_items_view(items) =~~= osa_items_of(Resource::models_from(children, 0)));
    }
    while k < count
        invariant
            0 <= k <= count,
            depth >= 1,
            *resource == *old(resource),
            md == old(resource)@.data,
            n == md.len(),
            n >= 8,
            has_prefix(md, osa_magic()),
            count == spec_u32_at(md, 4),
            children@.len() == k,
            items@.len() == k,
            match osa_children_model(md, count as int, k as int, depth as nat) {
                Ok(rest) => osa_children_model(md, count as int, 0, depth as nat) == Ok::<
                    Seq<ResourceModel>,
                    DecodeFailure,
                >(Resource::models_from(children, 0) + rest),
                Err(e) => osa_children_model(md, count as int, 0, depth as nat) == Err::<
                    Seq<ResourceModel>,
                    DecodeFailure,
                >(e),
            },
            osa_items_view(items) == osa_items_of(Resource::models_from(children, 0)),
        decreases count - k,
    {
        let need: u64 = 8 + 12 * (k as u64 + 1);
        if (n as u64) < need {
            proof {
                assert(md.len() < 8 + 12 * (k as int + 1));
            }
            return Err(
                DecodingError::IOError(String::from_str("archive directory is truncated")),
            );
        }
        let base: usize = 8 + 12 * (k as usize);
        let id = crate::textfmt::read_u32_le(resource.data.as_slice(), base);
        let off = crate::textfmt::read_u32_le(resource.data.as_slice(), base + 4);
        let len = crate::textfmt::read_u32_le(resource.data.as_slice(), base + 8);
        if (off as u64) + (len as u64) > (n as u64) {
            return Err(
                DecodingError::IOError(
                    String::from_str("entry payload runs past the end of the archive"),
                ),
            );
        }
        let mut child: Resource = Default::default();
        child.identifier = id;
        child.data = crate::textfmt::read_clamped(resource.data.as_slice(), off, len);
        proof {
            assert(base as int == 8 + 12 * (k as int));
            assert(child@.subresources =~= Seq::<ResourceModel>::empty());
            assert(child@ == osa_child_raw(md, k as int));
        }
        let ghost before_models = Resource::models_from(children, 0);
        match crate::codecs::decode_at_depth(&mut child, depth - 1) {
            Err(e) => {
                proof {
                    assert(osa_children_model(md, count as int, k as int, depth as nat) == Err::<
                        Seq<ResourceModel>,
                        DecodeFailure,
                    >(e.kind()));
                }
                return Err(e);
            },
            Ok(_) => {},
        }
        let fname = child.get_filename();
        let ghost iold = items;
        items.push(ResourceItem { identifier: child.identifier, filename: fname });
        let ghost childm = child@;
        let ghost cold = children;
        children.push(child);
        proof {
            lemma_models_from(cold, 0);
            lemma_models_from(children, 0);
            assert(Resource::models_from(children, 0) =~~= before_models + seq![childm]);
            assert(items@[k as int]@.identifier == childm.identifier);
            assert(items@[k as int]@.filename == crate::resource::spec_filename(childm));
            assert forall|j: int| 0 <= j < k as int implies #[trigger] osa_items_view(items)[j]
                == osa_items_of(Resource::models_from(children, 0))[j] by {
                assert(items@[j] == iold@[j]);
                assert(osa_items_view(iold)[j] == osa_items_of(before_models)[j]);
                assert(Resource::models_from(children, 0)[j] == before_models[j]);
            }
            assert(osa_items_view(items) =~~= osa_items_of(Resource::models_from(children, 0)));
            if osa_children_model(md, count as int, k as int + 1, depth as nat) is Ok {
                let rest = osa_children_model(md, count as int, k as int + 1, depth as nat)->Ok_0;
                assert(before_models + (seq![childm] + rest) =~= (before_models + seq![childm])
                    + rest);
            }
        }
        k += 1;
    }
    let ghost models = Resource::models_from(children, 0);
    proof {
        assert(osa_children_model(md, count as int, count as int, depth as nat) == Ok::<
            Seq<ResourceModel>,
            DecodeFailure,
        >(Seq::<ResourceModel>::empty()));
        assert(models + Seq::<ResourceModel>::empty() =~= models);
    }
    let manifest = emit_osa_manifest(&items);
    let jt: [u8; 4] = [0x6a, 0x73, 0x6f, 0x6e];
    let ot: [u8; 3] = [0x6f, 0x73, 0x61];
    proof {
        assert(jt@ =~= json_tag());
        assert(ot@ =~= osa_tag());
    }
    resource.data = manifest;
    resource.subresources = children;
    resource.extension = Some(vstd::slice::slice_to_vec(jt.as_slice()));
    resource.format = Some(vstd::slice::slice_to_vec(ot.as_slice()));
    Ok(())
}


impl OsaCodec {
    pub fn matches_decoder(&self, resource: &Resource) -> (score: usize)
        ensures
            score == osa_decode_score(resource@),
    {
        let magic: [u8; 4] = [0x41, 0x55, 0x46, 0x53];
        proof {
            assert(magic@ =~= osa_magic());
        }
        if crate::textfmt::starts_with_bytes(resource.data.as_slice(), magic.as_slice()) {
            100
        } else {
            0
        }
    }

    pub fn matches_encoder(&self, resource: &Resource) -> (score: usize)
        ensures
            score == osa_encode_score(resource@),
    {
        let jt: [u8; 4] = [0x6a, 0x73, 0x6f, 0x6e];
        let ot: [u8; 3] = [0x6f, 0x73, 0x61];
        proof {
            assert(jt@ =~= json_tag());
            assert(ot@ =~= osa_tag());
        }
        if crate::resource::opt_tag_is(&resource.extension, jt.as_slice())
            && crate::resource::opt_tag_is(&resource.format, ot.as_slice()) {
            100
        } else {
            0
        }
    }
}


/// Encode an archive of this format in place: children first, then the
/// directory and payload in manifest order.
#[verifier::rlimit(100)]
#[verifier::spinoff_prover]
pub(crate) fn osa_encode_at_depth(resource: &mut Resource, depth: u64) -> (r: Result<
    (),
    EncodingError,
>)
    requires
        depth >= 1,
    ensures
        match osa_encode_model(old(resource)@, depth as nat) {
            Ok(mm) => r is Ok && final(resource)@ == mm,
            Err(k) => r matches Err(e) && e.kind() == k,
        },
        r is Err ==> final(resource).data == old(resource).data && final(resource).identifier
            == old(resource).identifier && final(resource).format == old(resource).format
            && final(resource).extension == old(resource).extension && final(resource).hidden
            == old(resource).hidden && final(resource).subresources@.len() == old(
            resource,
        ).subresources@.len(),
    decreases depth, 1int, 0int,
{
    match crate::codecs::encode_children_at_depth(&mut resource.subresources, depth) {
        Err(e) => {
            return Err(e);
        },
        Ok(_) => {},
    }
    let ghost cms = Resource::models_from(resource.subresources, 0);
    proof {
        crate::resource::lemma_models_from(resource.subresources, 0);
    }
    let items = match parse_osa_manifest_exec(resource.data.as_slice()) {
        Some(v) => v,
        None => {
            return Err(
                EncodingError::DeserializeError(
                    String::from_str("manifest is not a well-formed record array"),
                ),
            );
        },
    };
    let ghost iv = osa_items_view(items);
    let ghost ids = osa_item_ids(iv);
    proof {
        assert(ids.len() == items@.len());
    }
    let mut cnt: u64 = 0;
    let mut k: usize = 0;
    while k < items.len()
        invariant
            0 <= k <= items@.len(),
            iv == osa_items_view(items),
            ids == osa_item_ids(iv),
            ids.len() == items@.len(),
            cms == Resource::models_from(resource.subresources, 0),
            cnt <= k,
            cnt as nat + matched_count(ids, cms, k as int) == matched_count(ids, cms, 0),
            resource.data == old(resource).data,
            resource.identifier == old(resource).identifier,
            resource.hidden == old(resource).hidden,
            resource.format == old(resource).format,
            resource.extension == old(resource).extension,
            resource.subresources@.len() == old(resource).subresources@.len(),
            crate::codecs::encode_children_model(
                old(resource)@.subresources,
                0,
                depth as nat,
            ) == Ok::<Seq<ResourceModel>, EncodeFailure>(cms),
            parse_osa_manifest(old(resource)@.data) == Some(iv),
            depth >= 1,
        decreases items@.len() - k,
    {
        proof {
            assert(ids[k as int] == items@[k as int]@.identifier);
        }
        match crate::codecs::find_child_exec(&resource.subresources, items[k].identifier) {
            Some(_) => {
                cnt = cnt + 1;
            },
            None => {},
        }
        k += 1;
    }
    let ghost total = matched_count(ids, cms, 0);
    proof {
        assert(cnt as nat == total);
    }
    if cnt > (0xffff_ffffu64 - 8) / 12 {
        proof {
            assert(8 + 12 * total > u32::MAX);
        }
        return Err(
            EncodingError::ParsingError(
                String::from_str("archive directory does not fit the format"),
            ),
        );
    }
    let dir_base: u64 = 8 + 12 * cnt;
    let mut dir: Vec<u8> = Vec::new();
    let mut pay: Vec<u8> = Vec::new();
    let mut k2: usize = 0;
    proof {
        if osa_entries_model(iv, cms, 0, dir_base as int) is Some {
            let dp = osa_entries_model(iv, cms, 0, dir_base as int)->Some_0;
            assert(Seq::<u8>::empty() + dp.0 =~= dp.0);
            assert(Seq::<u8>::empty() + dp.1 =~= dp.1);
        }
    }
    while k2 < items.len()
        invariant
            0 <= k2 <= items@.len(),
            iv == osa_items_view(items),
            iv.len() == items@.len(),
            cms == Resource::models_from(resource.subresources, 0),
            cms.len() == resource.subresources@.len(),
            forall|j: int|
                0 <= j < cms.len() ==> #[trigger] cms[j] == resource.subresources@[j].model(),
            dir_base <= 0xffff_ffff,
            dir_base + pay@.len() <= 0xffff_ffff,
            dir_base as int == 8 + 12 * (total as int),
            total == matched_count(ids, cms, 0),
            ids == osa_item_ids(iv),
            resource.data == old(resource).data,
            resource.identifier == old(resource).identifier,
            resource.hidden == old(resource).hidden,
            resource.format == old(resource).format,
            resource.extension == old(resource).extension,
            resource.subresources@.len() == old(resource).subresources@.len(),
            crate::codecs::encode_children_model(
                old(resource)@.subresources,
                0,
                depth as nat,
            ) == Ok::<Seq<ResourceModel>, EncodeFailure>(cms),
            parse_osa_manifest(old(resource)@.data) == Some(iv),
            depth >= 1,

            match osa_entries_model(iv, cms, k2 as int, dir_base as int + pay@.len()) {
                Some(dp) => osa_entries_model(iv, cms, 0, dir_base as int) == Some(
                    (dir@ + dp.0, pay@ + dp.1),
                ),
                None => osa_entries_model(iv, cms, 0, dir_base as int) is None,
            },
        decreases items@.len() - k2,
    {
        proof {
            crate::resource::lemma_models_from(resource.subresources, 0);
        }
        match crate::codecs::find_child_exec(&resource.subresources, items[k2].identifier) {
            None => {},
            Some(ci) => {
                let clen = resource.subresources[ci].data.len();
                let off_now: u64 = dir_base + (pay.len() as u64);
                if (0xffff_ffffu64 - off_now) < (clen as u64) {
                    proof {
                        assert(osa_entries_model(iv, cms, k2 as int, dir_base as int + pay@.len())
                            is None);
                    }
                    return Err(
                        EncodingError::ParsingError(
                            String::from_str("archive payload does not fit the format"),
                        ),
                    );
                }
                let ghost dir0 = dir@;
                let ghost pay0 = pay@;
                crate::textfmt::push_u32_le(&mut dir, resource.subresources[ci].identifier);
                crate::textfmt::push_u32_le(&mut dir, off_now as u32);
                crate::textfmt::push_u32_le(&mut dir, clen as u32);
                crate::textfmt::push_bytes(&mut pay, resource.subresources[ci].data.as_slice());
                proof {
                    let child = cms[ci as int];
                    assert(child.data == resource.subresources@[ci as int]@.data);
                    assert(child.identifier == resource.subresources@[ci as int]@.identifier);
                    let entry = vstd::bytes::spec_u32_to_le_bytes(child.identifier)
                        + vstd::bytes::spec_u32_to_le_bytes(off_now as u32)
                        + vstd::bytes::spec_u32_to_le_bytes(child.data.len() as u32);
                    assert(dir@ =~= dir0 + entry);
                    assert(pay@ =~= pay0 + child.data);
                    if osa_entries_model(iv, cms, k2 as int + 1, dir_base as int + pay@.len())
                        is Some {
                        let dp = osa_entries_model(
                            iv,
                            cms,
                            k2 as int + 1,
                            dir_base as int + pay@.len(),
                        )->Some_0;
                        assert(dir0 + (entry + dp.0) =~= dir@ + dp.0);
                        assert(pay0 + (child.data + dp.1) =~= pay@ + dp.1);
                    }
                }
            },
        }
        k2 += 1;
    }
    proof {
        assert(osa_entries_model(iv, cms, iv.len() as int, dir_base as int + pay@.len()) == Some(
            (Seq::<u8>::empty(), Seq::<u8>::empty()),
        ));
        assert(dir@ + Seq::<u8>::empty() =~= dir@);
        assert(pay@ + Seq::<u8>::empty() =~= pay@);
    }
    let mut out: Vec<u8> = Vec::new();
    let magic: [u8; 4] = [0x41, 0x55, 0x46, 0x53];
    proof {
        assert(magic@ =~= osa_magic());
    }
    crate::textfmt::push_bytes(&mut out, magic.as_slice());
    crate::textfmt::push_u32_le(&mut out, cnt as u32);
    crate::textfmt::push_bytes(&mut out, dir.as_slice());
    let mut pay2 = pay;
    out.append(&mut pay2);
    let ot: [u8; 3] = [0x6f, 0x73, 0x61];
    proof {
        assert(ot@ =~= osa_tag());
    }
    resource.data = out;
    resource.extension = Some(vstd::slice::slice_to_vec(ot.as_slice()));
    resource.format = None;
    resource.subresources = Vec::new();
    proof {
        assert(final(resource)@.subresources =~= Seq::<ResourceModel>::empty());
    }
    Ok(())
}

/// Load every child this archive's manifest names; a missing extracted file
/// is an error for this format.
#[verifier::rlimit(100)]
#[verifier::spinoff_prover]
pub(crate) fn osa_load_at_depth(
    store: &FileStore,
    base: &[u8],
    resource: &mut Resource,
    depth: u64,
) -> (r: Result<(), EncodingError>)
    requires
        depth >= 1,
    ensures
        match osa_load_model(store@, base@, old(resource)@, depth as nat) {
            Ok(mm) => r is Ok && final(resource)@ == mm,
            Err(k) => r matches Err(e) && e.kind() == k,
        },
    decreases depth, 1int, 0int,
{
    let items = match parse_osa_manifest_exec(resource.data.as_slice()) {
        Some(v) => v,
        None => {
            return Err(
                EncodingError::DeserializeError(
                    String::from_str("manifest is not a well-formed record array"),
                ),
            );
        },
    };
    let ghost iv = osa_items_view(items);
    let mut dirpath: Vec<u8> = vstd::slice::slice_to_vec(base);
    dirpath.push(0x2f);
    let mut dn = resource.get_dirname();
    dirpath.append(&mut dn);
    let ghost dirv = dirpath@;
    proof {
        assert(dirv =~= base@ + seq![0x2fu8] + crate::resource::spec_dirname(resource@));
    }
    let ghost n0 = resource.subresources@.len();
    let ghost vsubs0 = resource.subresources;
    let ghost subs0 = resource.subresources@;
    let mut k: usize = 0;
    proof {
        crate::resource::lemma_models_from(resource.subresources, 0);
        if osa_load_children(store@, dirv, iv, 0, depth as nat) is Ok {
            let all = osa_load_children(store@, dirv, iv, 0, depth as nat)->Ok_0;
            assert(Seq::<ResourceModel>::empty() + all =~= all);
        }
    }
    while k < items.len()
        invariant
            0 <= k <= items@.len(),
            depth >= 1,
            iv == osa_items_view(items),
            iv.len() == items@.len(),
            resource.identifier == old(resource).identifier,
            resource.format == old(resource).format,
            resource.extension == old(resource).extension,
            resource.data == old(resource).data,
            resource.hidden == old(resource).hidden,
            resource.subresources@.len() == n0 + k,
            subs0 == old(resource).subresources@,
            forall|j: int| 0 <= j < n0 ==> #[trigger] resource.subresources@[j] == subs0[j],
            dirpath@ == dirv,
            dirv == base@ + seq![0x2fu8] + crate::resource::spec_dirname(old(resource)@),
            parse_osa_manifest(old(resource)@.data) == Some(iv),
            match osa_load_children(store@, dirv, iv, k as int, depth as nat) {
                Ok(rest) => osa_load_children(store@, dirv, iv, 0, depth as nat) == Ok::<
                    Seq<ResourceModel>,
                    EncodeFailure,
                >(
                    Resource::models_from(resource.subresources, 0).subrange(
                        n0 as int,
                        (n0 + k) as int,
                    ) + rest,
                ),
                Err(e) => osa_load_children(store@, dirv, iv, 0, depth as nat) == Err::<
                    Seq<ResourceModel>,
                    EncodeFailure,
                >(e),
            },
        decreases items@.len() - k,
    {
        proof {
            assert(iv[k as int] == items@[k as int]@);
        }
        let mut path: Vec<u8> = vstd::slice::slice_to_vec(dirpath.as_slice());
        path.push(0x2f);
        crate::textfmt::push_bytes(&mut path, items[k].filename.as_slice());
        proof {
            assert(path@ =~= dirv + seq![0x2fu8] + iv[k as int].filename);
        }
        let bytes = match store.lookup(path.as_slice()) {
            Some(b) => b,
            None => {
                return Err(
                    EncodingError::IOError(String::from_str("extracted file is missing")),
                );
            },
        };
        let mut child: Resource = Default::default();
        match child.parse_filename(items[k].filename.as_slice()) {
            Err(_) => {
                return Err(
                    EncodingError::ParsingError(
                        String::from_str("manifest filename does not parse"),
                    ),
                );
            },
            Ok(_) => {},
        }
        child.data = bytes;
        proof {
            assert(child@.subresources =~= Seq::<ResourceModel>::empty());
            let t = crate::resource::spec_parse_filename(iv[k as int].filename)->Some_0;
            assert(child@.identifier == t.0);
            assert(child@.format == t.1);
            assert(child@.extension == t.2);
        }
        match crate::codecs::load_at_depth(store, dirpath.as_slice(), &mut child, depth - 1) {
            Err(e) => {
                return Err(e);
            },
            Ok(_) => {},
        }
        let ghost childm = child@;
        let ghost cold = resource.subresources;
        resource.subresources.push(child);
        proof {
            crate::resource::lemma_models_from(cold, 0);
            crate::resource::lemma_models_from(resource.subresources, 0);
            let loaded = Resource::models_from(resource.subresources, 0).subrange(
                n0 as int,
                (n0 + k + 1) as int,
            );
            let before = Resource::models_from(cold, 0).subrange(n0 as int, (n0 + k) as int);
            assert(loaded =~= before + seq![childm]);
            if osa_load_children(store@, dirv, iv, k as int + 1, depth as nat) is Ok {
                let rest = osa_load_children(store@, dirv, iv, k as int + 1, depth as nat)->Ok_0;
                assert(before + (seq![childm] + rest) =~= (before + seq![childm]) + rest);
            }
        }
        k += 1;
    }
    proof {
        assert(osa_load_children(store@, dirv, iv, iv.len() as int, depth as nat) == Ok::<
            Seq<ResourceModel>,
            EncodeFailure,
        >(Seq::<ResourceModel>::empty()));
        let loaded = Resource::models_from(resource.subresources, 0).subrange(
            n0 as int,
            (n0 + items@.len()) as int,
        );
        assert(loaded + Seq::<ResourceModel>::empty() =~= loaded);
        crate::resource::lemma_models_from(resource.subresources, 0);
        crate::resource::lemma_models_from(vsubs0, 0);
        assert(Resource::models_from(resource.subresources, 0) =~= old(
            resource,
        )@.subresources + loaded);
    }
    Ok(())
}


// ---------------------------------------------------------------------------
// The archive round trip
// ---------------------------------------------------------------------------
/// Where entry `k`'s payload begins: the end of the directory plus every
/// earlier entry's length. `osa_payload_end(data, count)` is the end of the
/// whole payload region.
pub open spec fn osa_payload_end(data: Seq<u8>, k: int) -> int
    decreases k,
{
    if k <= 0 {
        8 + 12 * (spec_u32_at(data, 4) as int)
    } else {
        osa_payload_end(data, k - 1) + spec_u32_at(data, 16 + 12 * (k - 1)) as int
    }
}

proof fn lemma_osa_payload_end_mono(data: Seq<u8>, a: int, b: int)
    requires
        a <= b,
    ensures
        osa_payload_end(data, a) <= osa_payload_end(data, b),
    decreases b - a,
{
    if a < b {
        lemma_osa_payload_end_mono(data, a, b - 1);
    }
}

/// A canonical archive: the magic, a directory that fits, offsets laid out
/// sequentially after the directory with a gapless payload region that ends
/// exactly at the end of the buffer, and a total size the 32-bit directory
/// fields can express.
pub open spec fn osa_canonical(data: Seq<u8>) -> bool {
    let count = spec_u32_at(data, 4) as int;
    &&& data.len() >= 8
    &&& has_prefix(data, osa_magic())
    &&& data.len() <= u32::MAX
    &&& 8 + 12 * count <= data.len()
    &&& osa_payload_end(data, count) == data.len()
    &&& forall|k: int|
        0 <= k < count ==> spec_u32_at(data, 12 + 12 * k) as int == #[trigger] osa_payload_end(
            data,
            k,
        )
}

/// A decoded entry list has exactly one model per directory entry.
proof fn lemma_osa_children_len(data: Seq<u8>, count: int, k: int, fuel: nat)
    requires
        osa_children_model(data, count, k, fuel) is Ok,
        0 <= k <= count,
    ensures
        osa_children_model(data, count, k, fuel)->Ok_0.len() == count - k,
    decreases count - k,
{
    if k < count {
        lemma_osa_children_len(data, count, k + 1, fuel);
    }
}

/// With pairwise distinct identifiers, searching for the `k`-th child's
/// identifier finds exactly index `k`.
pub(crate) proof fn lemma_find_child_distinct(children: Seq<ResourceModel>, k: int, i: int)
    requires
        0 <= i <= k < children.len(),
        forall|a: int, b: int|
            0 <= a < b < children.len() ==> (#[trigger] children[a].identifier) != (
            #[trigger] children[b].identifier),
    ensures
        crate::codecs::find_child(children, children[k].identifier, i) == Some(k),
    decreases k - i,
{
    if i < k {
        lemma_find_child_distinct(children, k, i + 1);
    }
}

/// With pairwise distinct identifiers, every record is matched.
pub(crate) proof fn lemma_matched_count_all(ids: Seq<u32>, children: Seq<ResourceModel>, k: int)
    requires
        ids.len() == children.len(),
        0 <= k <= ids.len(),
        forall|j: int| 0 <= j < ids.len() ==> #[trigger] ids[j] == children[j].identifier,
        forall|a: int, b: int|
            0 <= a < b < children.len() ==> (#[trigger] children[a].identifier) != (
            #[trigger] children[b].identifier),
    ensures
        matched_count(ids, children, k) == ids.len() - k,
    decreases ids.len() - k,
{
    if k < ids.len() {
        lemma_find_child_distinct(children, k, 0);
        lemma_matched_count_all(ids, children, k + 1);
    }
}

/// The rebuilt directory and payload regions of entries `k ..` are exactly
/// the corresponding regions of a canonical original.
proof fn lemma_osa_entries_rebuild(
    data: Seq<u8>,
    items: Seq<OsaItemModel>,
    encoded: Seq<ResourceModel>,
    k: int,
)
    requires
        osa_canonical(data),
        items.len() == spec_u32_at(data, 4) as int,
        encoded.len() == items.len(),
        0 <= k <= items.len(),
        forall|j: int|
            0 <= j < items.len() ==> (#[trigger] items[j].identifier) == encoded[j].identifier,
        forall|j: int|
            0 <= j < items.len() ==> (#[trigger] encoded[j].identifier) == spec_u32_at(
                data,
                8 + 12 * j,
            ),
        forall|j: int|
            0 <= j < items.len() ==> (#[trigger] encoded[j].data) == data.subrange(
                osa_payload_end(data, j),
                osa_payload_end(data, j + 1),
            ),
        forall|a: int, b: int|
            0 <= a < b < encoded.len() ==> (#[trigger] encoded[a].identifier) != (
            #[trigger] encoded[b].identifier),
    ensures
        osa_entries_model(items, encoded, k, osa_payload_end(data, k)) == Some(
            (
                data.subrange(8 + 12 * k, 8 + 12 * (items.len() as int)),
                data.subrange(osa_payload_end(data, k), data.len() as int),
            ),
        ),
    decreases items.len() - k,
{
    let count = items.len() as int;
    if k == count {
        assert(data.subrange(8 + 12 * k, 8 + 12 * count) =~= Seq::<u8>::empty());
        assert(data.subrange(osa_payload_end(data, k), data.len() as int) =~= Seq::<u8>::empty());
        assert(osa_entries_model(items, encoded, k, osa_payload_end(data, k)) == Some(
            (Seq::<u8>::empty(), Seq::<u8>::empty()),
        ));
    } else {
        lemma_find_child_distinct(encoded, k, 0);
        let child = encoded[k];
        let off = osa_payload_end(data, k);
        let off1 = osa_payload_end(data, k + 1);
        lemma_osa_payload_end_mono(data, k + 1, count);
        lemma_osa_payload_end_mono(data, 0, k);
        assert(off1 <= data.len());
        assert(child.data == data.subrange(off, off1));
        assert(child.data.len() == off1 - off);
        assert(off + child.data.len() <= u32::MAX);
        lemma_osa_entries_rebuild(data, items, encoded, k + 1);
        // the three directory fields of entry k are the bytes already there
        vstd::bytes::lemma_auto_spec_u32_to_from_le_bytes();
        let p = 8 + 12 * k;
        assert(spec_u32_to_le_bytes(spec_u32_at(data, p)) == data.subrange(p, p + 4));
        assert(spec_u32_to_le_bytes(spec_u32_at(data, p + 4)) == data.subrange(p + 4, p + 8));
        assert(spec_u32_to_le_bytes(spec_u32_at(data, p + 8)) == data.subrange(p + 8, p + 12));
        assert(child.identifier == spec_u32_at(data, p));
        assert(spec_u32_at(data, p + 4) as int == off);
        assert((off as u32) == spec_u32_at(data, p + 4));
        assert(spec_u32_at(data, p + 8) as int == off1 - off);
        assert((child.data.len() as u32) == spec_u32_at(data, p + 8));
        let entry = spec_u32_to_le_bytes(child.identifier) + spec_u32_to_le_bytes(off as u32)
            + spec_u32_to_le_bytes(child.data.len() as u32);
        assert(entry =~= data.subrange(p, p + 12));
        assert(entry + data.subrange(8 + 12 * (k + 1), 8 + 12 * count) =~= data.subrange(
            p,
            8 + 12 * count,
        ));
        assert(child.data + data.subrange(off1, data.len() as int) =~= data.subrange(
            off,
            data.len() as int,
        ));
    }
}

/// The children of a decoded canonical archive all re-encode, pointwise,
/// under the round-trip hypotheses.
#[verifier::rlimit(100)]
#[verifier::spinoff_prover]
proof fn lemma_osa_round_trip_children(m: ResourceModel, fuel: nat, dm: ResourceModel) -> (encoded:
    Seq<ResourceModel>)
    requires
        fuel > 0,
        osa_canonical(m.data),
        osa_decode_model(m, fuel) == Ok::<ResourceModel, DecodeFailure>(dm),
        forall|k: int|
            0 <= k < dm.subresources.len() ==> match crate::codecs::encode_model(
                #[trigger] dm.subresources[k],
                (fuel - 1) as nat,
            ) {
                Ok(c) => c.data == m.data.subrange(
                    osa_payload_end(m.data, k),
                    osa_payload_end(m.data, k + 1),
                ) && c.identifier == dm.subresources[k].identifier,
                Err(_) => false,
            },
        forall|k: int|
            0 <= k < dm.subresources.len() ==> (#[trigger] dm.subresources[k].identifier)
                == spec_u32_at(m.data, 8 + 12 * k),
        forall|a: int, b: int|
            0 <= a < b < dm.subresources.len() ==> (#[trigger] dm.subresources[a].identifier) != (
            #[trigger] dm.subresources[b].identifier),
    ensures
        ({
            let items = osa_items_of(dm.subresources);
            &&& dm.subresources.len() == spec_u32_at(m.data, 4) as int
            &&& dm.data == osa_manifest_json(items)
            &&& parse_osa_manifest(dm.data) == Some(items)
            &&& crate::codecs::encode_children_model(dm.subresources, 0, fuel) == Ok::<
                Seq<ResourceModel>,
                crate::error::EncodeFailure,
            >(encoded)
            &&& encoded.len() == items.len()
            &&& matched_count(osa_item_ids(items), encoded, 0) == items.len()
            &&& forall|j: int|
                0 <= j < items.len() ==> (#[trigger] items[j].identifier) == encoded[j].identifier
            &&& forall|j: int|
                0 <= j < items.len() ==> (#[trigger] encoded[j].identifier) == spec_u32_at(
                    m.data,
                    8 + 12 * j,
                )
            &&& forall|j: int|
                0 <= j < items.len() ==> (#[trigger] encoded[j].data) == m.data.subrange(
                    osa_payload_end(m.data, j),
                    osa_payload_end(m.data, j + 1),
                )
            &&& forall|a: int, b: int|
                0 <= a < b < encoded.len() ==> (#[trigger] encoded[a].identifier) != (
                #[trigger] encoded[b].identifier)
        }),
{
    let data = m.data;
    let count = spec_u32_at(data, 4) as int;
    let children = osa_children_model(data, count, 0, fuel)->Ok_0;
    assert(dm.subresources == children);
    lemma_osa_children_len(data, count, 0, fuel);
    assert(children.len() == count);
    let encoded = Seq::new(
        children.len(),
        |k: int| crate::codecs::encode_model(children[k], (fuel - 1) as nat)->Ok_0,
    );
    assert forall|k: int| 0 <= k < children.len() implies #[trigger] crate::codecs::encode_model(
        children[k],
        (fuel - 1) as nat,
    ) == Ok::<ResourceModel, crate::error::EncodeFailure>(encoded[k - 0]) by {
        assert(crate::codecs::encode_model(children[k], (fuel - 1) as nat) is Ok);
    }
    crate::codecs::lemma_encode_children_pointwise(children, encoded, 0, fuel);
    let items = osa_items_of(children);
    lemma_osa_manifest_round_trip(items);
    assert forall|j: int| 0 <= j < items.len() implies #[trigger] osa_item_ids(items)[j]
        == encoded[j].identifier by {
        assert(items[j].identifier == children[j].identifier);
    }
    assert forall|a: int, b: int|
        0 <= a < b < encoded.len() implies (#[trigger] encoded[a].identifier) != (
    #[trigger] encoded[b].identifier) by {
        assert(encoded[a].identifier == children[a].identifier);
        assert(encoded[b].identifier == children[b].identifier);
    }
    lemma_matched_count_all(osa_item_ids(items), encoded, 0);
    assert forall|j: int| 0 <= j < items.len() implies (#[trigger] items[j].identifier)
        == encoded[j].identifier by {
        assert(items[j].identifier == children[j].identifier);
    }
    assert forall|j: int| 0 <= j < items.len() implies (#[trigger] encoded[j].identifier)
        == spec_u32_at(data, 8 + 12 * j) by {
        assert(encoded[j].identifier == children[j].identifier);
    }
    assert forall|j: int| 0 <= j < items.len() implies (#[trigger] encoded[j].data)
        == data.subrange(osa_payload_end(data, j), osa_payload_end(data, j + 1)) by {
        assert(crate::codecs::encode_model(children[j], (fuel - 1) as nat) == Ok::<
            ResourceModel,
            crate::error::EncodeFailure,
        >(encoded[j]));
    }
    encoded
}

/// Round trip for the simple directory archive: decoding a canonical
/// archive and re-encoding the decoded tree reproduces the original bytes,
/// as long as every decoded child re-encodes to exactly the bytes it was
/// sliced from with its identifier kept (a leaf does both trivially; a
/// nested canonical container does by this same argument, one level down),
/// and the entries' identifiers are pairwise distinct as the data model
/// demands of siblings.
#[verifier::rlimit(100)]
#[verifier::spinoff_prover]
pub proof fn lemma_osa_round_trip(m: ResourceModel, fuel: nat, dm: ResourceModel)
    requires
        fuel > 0,
        osa_canonical(m.data),
        osa_decode_model(m, fuel) == Ok::<ResourceModel, DecodeFailure>(dm),
        forall|k: int|
            0 <= k < dm.subresources.len() ==> match crate::codecs::encode_model(
                #[trigger] dm.subresources[k],
                (fuel - 1) as nat,
            ) {
                Ok(c) => c.data == m.data.subrange(
                    osa_payload_end(m.data, k),
                    osa_payload_end(m.data, k + 1),
                ) && c.identifier == dm.subresources[k].identifier,
                Err(_) => false,
            },
        forall|k: int|
            0 <= k < dm.subresources.len() ==> (#[trigger] dm.subresources[k].identifier)
                == spec_u32_at(m.data, 8 + 12 * k),
        forall|a: int, b: int|
            0 <= a < b < dm.subresources.len() ==> (#[trigger] dm.subresources[a].identifier) != (
            #[trigger] dm.subresources[b].identifier),
    ensures
        osa_encode_model(dm, fuel) matches Ok(em) && em.data == m.data,
{
    let data = m.data;
    let count = spec_u32_at(data, 4) as int;
    let items = osa_items_of(dm.subresources);
    let encoded = lemma_osa_round_trip_children(m, fuel, dm);
    lemma_osa_payload_end_mono(data, 0, count);
    assert(osa_payload_end(data, 0) == 8 + 12 * count);
    assert(8 + 12 * count <= data.len() <= u32::MAX);
    lemma_osa_entries_rebuild(data, items, encoded, 0);
    let cnt = matched_count(osa_item_ids(items), encoded, 0);
    assert(cnt == count);
    assert((cnt as u32) == spec_u32_at(data, 4));
    assert(osa_encode_model(dm, fuel) is Ok);
    let em = osa_encode_model(dm, fuel)->Ok_0;
    let dp = osa_entries_model(items, encoded, 0, 8 + 12 * count)->Some_0;
    assert(em.data == osa_magic() + spec_u32_to_le_bytes(spec_u32_at(data, 4)) + dp.0 + dp.1);
    lemma_osa_bytes_reassemble(data, dp.0, dp.1);
}

/// The four regions of a canonical archive concatenate back to the archive.
proof fn lemma_osa_bytes_reassemble(data: Seq<u8>, dir: Seq<u8>, pay: Seq<u8>)
    requires
        data.len() >= 8,
        has_prefix(data, osa_magic()),
        8 + 12 * (spec_u32_at(data, 4) as int) <= data.len(),
        dir == data.subrange(8, 8 + 12 * (spec_u32_at(data, 4) as int)),
        pay == data.subrange(8 + 12 * (spec_u32_at(data, 4) as int), data.len() as int),
    ensures
        osa_magic() + spec_u32_to_le_bytes(spec_u32_at(data, 4)) + dir + pay == data,
{
    vstd::bytes::lemma_auto_spec_u32_to_from_le_bytes();
    assert(spec_u32_to_le_bytes(spec_u32_at(data, 4)) == data.subrange(4, 8));
    assert(osa_magic() =~= data.subrange(0, 4));
    assert(osa_magic() + spec_u32_to_le_bytes(spec_u32_at(data, 4)) + dir + pay =~= data);
}

} // verus!
