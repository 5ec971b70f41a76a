use vstd::prelude::*;

use crate::codecs::json_tag;
use crate::json::{colon_sp, comma_nl, concat_all, emit_string, expect_ws_byte,
    expect_ws_byte_exec, ind2, ind4, kq_identifier, kq_offset, kq_text, nl, parse_string_field,
    parse_u32_field, skip_ws};
use crate::error::{DecodeFailure, DecodingError, EncodeFailure, EncodingError};
use crate::resource::{Resource, ResourceModel};
use crate::textfmt::{dec_digits, has_prefix, spec_u32_at, trim_nul};
use vstd::bytes::spec_u32_to_le_bytes;
use vstd::utf8::valid_utf8;

verus! {

/// The line-table format: `TEXT` magic, a line count, and a directory of
/// identifier/offset pairs pointing at NUL-terminated strings.
pub struct SwordTextCodec;

/// One manifest record of a decoded line table.
pub struct TextLine {
    pub identifier: u32,
    pub offset: u32,
    pub text: Vec<u8>,
}

/// The manifest record, with its bytes abstracted.
pub struct TextLineModel {
    pub identifier: u32,
    pub offset: u32,
    pub text: Seq<u8>,
}

impl View for TextLine {
    type V = TextLineModel;

    open spec fn view(&self) -> TextLineModel {
        TextLineModel { identifier: self.identifier, offset: self.offset, text: self.text@ }
    }
}

/// The bytes `TEXT`.
pub open spec fn sword_magic() -> Seq<u8> {
    seq![0x54u8, 0x45u8, 0x58u8, 0x54u8]
}

/// The format tag `sword_text` carried by the decoded manifest.
pub open spec fn sword_text_tag() -> Seq<u8> {
    seq![0x73u8, 0x77u8, 0x6fu8, 0x72u8, 0x64u8, 0x5fu8, 0x74u8, 0x65u8, 0x78u8, 0x74u8]
}

/// The extension tag `swordtext` given to re-encoded line tables.
pub open spec fn swordtext_tag() -> Seq<u8> {
    seq![0x73u8, 0x77u8, 0x6fu8, 0x72u8, 0x64u8, 0x74u8, 0x65u8, 0x78u8, 0x74u8]
}

pub open spec fn sword_decode_score(m: ResourceModel) -> usize {
    if has_prefix(m.data, sword_magic()) {
        100
    } else {
        0
    }
}

pub open spec fn sword_encode_score(m: ResourceModel) -> usize {
    if m.extension == Some(json_tag()) && m.format == Some(sword_text_tag()) {
        100
    } else {
        0
    }
}


/// The models of a vector of manifest records.
pub open spec fn sword_items_view(v: Vec<TextLine>) -> Seq<TextLineModel> {
    Seq::new(v@.len(), |i: int| v@[i]@)
}

// ---------------------------------------------------------------------------
// Manifest emission
// ---------------------------------------------------------------------------
/// The emission chunks of one line record.
pub open spec fn sword_item_chunks(it: TextLineModel) -> Seq<Seq<u8>> {
    seq![
        ind2(),
        seq![0x7bu8],
        nl(),
        ind4(),
        kq_identifier(),
        colon_sp(),
        dec_digits(it.identifier as nat),
        comma_nl(),
        ind4(),
        kq_offset(),
        colon_sp(),
        dec_digits(it.offset as nat),
        comma_nl(),
        ind4(),
        kq_text(),
        colon_sp(),
        emit_string(it.text),
        nl(),
        ind2(),
        seq![0x7du8],
    ]
}

/// One line record as JSON text.
pub open spec fn sword_item_json(it: TextLineModel) -> Seq<u8> {
    concat_all(sword_item_chunks(it))
}

/// The records from `k` on, joined with `,\n`.
pub open spec fn sword_items_json(items: Seq<TextLineModel>, k: int) -> Seq<u8>
    decreases items.len() - k,
{
    if k < 0 || k >= items.len() {
        Seq::empty()
    } else if k == items.len() - 1 {
        sword_item_json(items[k])
    } else {
        sword_item_json(items[k]) + comma_nl() + sword_items_json(items, k + 1)
    }
}

/// The whole manifest: a JSON array of line records.
pub open spec fn sword_manifest_json(items: Seq<TextLineModel>) -> Seq<u8> {
    if items.len() == 0 {
        seq![0x5bu8, 0x5du8]
    } else {
        seq![0x5bu8, 0x0au8] + sword_items_json(items, 0) + seq![0x0au8, 0x5du8]
    }
}

/// Append one line record's JSON text.
fn emit_sword_item(out: &mut Vec<u8>, it: &TextLine)
    ensures
        final(out)@ == old(out)@ + sword_item_json(it@),
{
    let mut chunks: Vec<Vec<u8>> = Vec::new();
    let sp2: [u8; 2] = [0x20, 0x20];
    let sp4: [u8; 4] = [0x20, 0x20, 0x20, 0x20];
    let kid: [u8; 12] = [
        0x22,
        0x69,
        0x64,
        0x65,
        0x6e,
        0x74,
        0x69,
        0x66,
        0x69,
        0x65,
        0x72,
        0x22,
    ];
    let kof: [u8; 8] = [0x22, 0x6f, 0x66, 0x66, 0x73, 0x65, 0x74, 0x22];
    let ktx: [u8; 6] = [0x22, 0x74, 0x65, 0x78, 0x74, 0x22];
    let csp: [u8; 2] = [0x3a, 0x20];
    let cnl: [u8; 2] = [0x2c, 0x0a];
    chunks.push(vstd::slice::slice_to_vec(sp2.as_slice()));
    let mut one: Vec<u8> = Vec::new();
    one.push(0x7b);
    chunks.push(one);
    let mut one: Vec<u8> = Vec::new();
    one.push(0x0a);
    chunks.push(one);
    chunks.push(vstd::slice::slice_to_vec(sp4.as_slice()));
    chunks.push(vstd::slice::slice_to_vec(kid.as_slice()));
    chunks.push(vstd::slice::slice_to_vec(csp.as_slice()));
    chunks.push(crate::textfmt::u32_to_dec(it.identifier));
    chunks.push(vstd::slice::slice_to_vec(cnl.as_slice()));
    chunks.push(vstd::slice::slice_to_vec(sp4.as_slice()));
    chunks.push(vstd::slice::slice_to_vec(kof.as_slice()));
    chunks.push(vstd::slice::slice_to_vec(csp.as_slice()));
    chunks.push(crate::textfmt::u32_to_dec(it.offset));
    chunks.push(vstd::slice::slice_to_vec(cnl.as_slice()));
    chunks.push(vstd::slice::slice_to_vec(sp4.as_slice()));
    chunks.push(vstd::slice::slice_to_vec(ktx.as_slice()));
    chunks.push(vstd::slice::slice_to_vec(csp.as_slice()));
    let mut strv: Vec<u8> = Vec::new();
    crate::json::push_json_string(&mut strv, it.text.as_slice());
    chunks.push(strv);
    let mut one: Vec<u8> = Vec::new();
    one.push(0x0a);
    chunks.push(one);
    chunks.push(vstd::slice::slice_to_vec(sp2.as_slice()));
    let mut one: Vec<u8> = Vec::new();
    one.push(0x7d);
    chunks.push(one);
    proof {
        let cs = sword_item_chunks(it@);
        let pv = crate::resource::parts_view(chunks);
        assert(pv[0] =~= cs[0]);
        assert(pv[1] =~= cs[1]);
        assert(pv[2] =~= cs[2]);
        assert(pv[3] =~= cs[3]);
        assert(pv[4] =~= cs[4]);
        assert(pv[5] =~= cs[5]);
        assert(pv[6] =~= cs[6]);
        assert(pv[7] =~= cs[7]);
        assert(pv[8] =~= cs[8]);
        assert(pv[9] =~= cs[9]);
        assert(pv[10] =~= cs[10]);
        assert(pv[11] =~= cs[11]);
        assert(pv[12] =~= cs[12]);
        assert(pv[13] =~= cs[13]);
        assert(pv[14] =~= cs[14]);
        assert(pv[15] =~= cs[15]);
        assert(pv[16] =~= cs[16]);
        assert(pv[17] =~= cs[17]);
        assert(pv[18] =~= cs[18]);
        assert(pv[19] =~= cs[19]);
        assert(pv =~~= cs);
    }
    crate::json::push_concat(out, &chunks);
}

/// Serialize the whole manifest.
pub fn emit_sword_manifest(items: &Vec<TextLine>) -> (r: Vec<u8>)
    ensures
        r@ == sword_manifest_json(sword_items_view(*items)),
{
    let ghost iv = sword_items_view(*items);
    let mut out: Vec<u8> = Vec::new();
    if items.len() == 0 {
        out.push(0x5b);
        out.push(0x5d);
        proof {
            assert(out@ =~= sword_manifest_json(iv));
        }
        return out;
    }
    out.push(0x5b);
    out.push(0x0a);
    let mut k: usize = 0;
    while k < items.len()
        invariant
            0 <= k <= items@.len(),
            items@.len() >= 1,
            iv == sword_items_view(*items),
            iv.len() == items@.len(),
            k < items@.len() ==> out@ + sword_items_json(iv, k as int) + seq![0x0au8, 0x5du8]
                == sword_manifest_json(iv),
            k == items@.len() ==> out@ + seq![0x0au8, 0x5du8] == sword_manifest_json(iv),
        decreases items@.len() - k,
    {
        let ghost before = out@;
        emit_sword_item(&mut out, &items[k]);
        proof {
            assert(items@[k as int]@ == iv[k as int]);
        }
        if k + 1 < items.len() {
            out.push(0x2c);
            out.push(0x0a);
            proof {
                assert(out@ =~= before + sword_item_json(iv[k as int]) + comma_nl());
                assert(sword_items_json(iv, k as int) == sword_item_json(iv[k as int]) + comma_nl()
                    + sword_items_json(iv, k as int + 1));
                assert(out@ + sword_items_json(iv, k as int + 1) =~= before + sword_items_json(
                    iv,
                    k as int,
                ));
                assert(out@ + sword_items_json(iv, k as int + 1) + seq![0x0au8, 0x5du8]
                    =~= before + sword_items_json(iv, k as int) + seq![0x0au8, 0x5du8]);
            }
        } else {
            proof {
                assert(sword_items_json(iv, k as int) == sword_item_json(iv[k as int]));
                assert(out@ + seq![0x0au8, 0x5du8] =~= before + sword_items_json(iv, k as int)
                    + seq![0x0au8, 0x5du8]);
            }
        }
        k += 1;
    }
    out.push(0x0a);
    out.push(0x5d);
    proof {
        assert(out@ =~= sword_manifest_json(iv));
    }
    out
}

// ---------------------------------------------------------------------------
// Manifest parsing
// ---------------------------------------------------------------------------
/// `{` then the identifier field then the separating comma.
pub open spec fn parse_sword_item_head(s: Seq<u8>, i: int) -> Option<(int, u32)> {
    match expect_ws_byte(s, i, 0x7b) {
        None => None,
        Some(i1) => match parse_u32_field(s, i1, kq_identifier()) {
            None => None,
            Some((i2, id)) => match expect_ws_byte(s, i2, 0x2c) {
                None => None,
                Some(i3) => Some((i3, id)),
            },
        },
    }
}

/// The offset field then the separating comma.
pub open spec fn parse_sword_item_mid(s: Seq<u8>, i: int) -> Option<(int, u32)> {
    match parse_u32_field(s, i, kq_offset()) {
        None => None,
        Some((i2, off)) => match expect_ws_byte(s, i2, 0x2c) {
            None => None,
            Some(i3) => Some((i3, off)),
        },
    }
}

/// One line record.
pub open spec fn parse_sword_item(s: Seq<u8>, i: int) -> Option<(int, TextLineModel)> {
    match parse_sword_item_head(s, i) {
        None => None,
        Some((i3, id)) => match parse_sword_item_mid(s, i3) {
            None => None,
            Some((i4, off)) => match parse_string_field(s, i4, kq_text()) {
                None => None,
                Some((i5, t)) => match expect_ws_byte(s, i5, 0x7d) {
                    None => None,
                    Some(i6) => Some((i6, TextLineModel { identifier: id, offset: off, text: t })),
                },
            },
        },
    }
}

/// The records of a nonempty array from position `i` up to and including the
/// closing bracket.
pub open spec fn parse_sword_items_rest(s: Seq<u8>, i: int) -> Option<(int, Seq<TextLineModel>)>
    decreases s.len() - i,
{
    match parse_sword_item(s, i) {
        None => None,
        Some((j, it)) => {
            let k = skip_ws(s, j);
            if !(i < k && k < s.len()) {
                None
            } else if s[k] == 0x2c {
                match parse_sword_items_rest(s, k + 1) {
                    None => None,
                    Some((e, rest)) => Some((e, seq![it] + rest)),
                }
            } else if s[k] == 0x5d {
                Some((k + 1, seq![it]))
            } else {
                None
            }
        },
    }
}

/// The whole manifest: a strict JSON array of line records.
pub open spec fn parse_sword_manifest(s: Seq<u8>) -> Option<Seq<TextLineModel>> {
    match expect_ws_byte(s, 0, 0x5b) {
        None => None,
        Some(i1) => {
            let k = skip_ws(s, i1);
            if k < s.len() && s[k] == 0x5d {
                if skip_ws(s, k + 1) == s.len() {
                    Some(Seq::empty())
                } else {
                    None
                }
            } else {
                match parse_sword_items_rest(s, i1) {
                    None => None,
                    Some((e, items)) => if skip_ws(s, e) == s.len() {
                        Some(items)
                    } else {
                        None
                    },
                }
            }
        },
    }
}

/// Parse one line record.
fn parse_sword_item_exec(s: &[u8], i: usize) -> (r: Option<(usize, TextLine)>)
    requires
        i <= s@.len(),
    ensures
        match r {
            Some(p) => (parse_sword_item(s@, i as int) matches Some(q) && q.0 == p.0 && q.1
                == p.1@) && i < p.0 <= s@.len(),
            None => parse_sword_item(s@, i as int) is None,
        },
{
    let i1 = match expect_ws_byte_exec(s, i, 0x7b) {
        Some(v) => v,
        None => {
            return None;
        },
    };
    let kid: [u8; 12] = [
        0x22,
        0x69,
        0x64,
        0x65,
        0x6e,
        0x74,
        0x69,
        0x66,
        0x69,
        0x65,
        0x72,
        0x22,
    ];
    proof {
        assert(kid@ =~= kq_identifier());
    }
    let (i2, id) = match crate::json::parse_u32_field_exec(s, i1, kid.as_slice()) {
        Some(p) => p,
        None => {
            return None;
        },
    };
    let i3 = match expect_ws_byte_exec(s, i2, 0x2c) {
        Some(v) => v,
        None => {
            return None;
        },
    };
    let kof: [u8; 8] = [0x22, 0x6f, 0x66, 0x66, 0x73, 0x65, 0x74, 0x22];
    proof {
        assert(kof@ =~= kq_offset());
    }
    let (i4, off) = match crate::json::parse_u32_field_exec(s, i3, kof.as_slice()) {
        Some(p) => p,
        None => {
            return None;
        },
    };
    let i5 = match expect_ws_byte_exec(s, i4, 0x2c) {
        Some(v) => v,
        None => {
            return None;
        },
    };
    let ktx: [u8; 6] = [0x22, 0x74, 0x65, 0x78, 0x74, 0x22];
    proof {
        assert(ktx@ =~= kq_text());
    }
    let (i6, text) = match crate::json::parse_string_field_exec(s, i5, ktx.as_slice()) {
        Some(p) => p,
        None => {
            return None;
        },
    };
    let i7 = match expect_ws_byte_exec(s, i6, 0x7d) {
        Some(v) => v,
        None => {
            return None;
        },
    };
    Some((i7, TextLine { identifier: id, offset: off, text }))
}

/// Parse the records of a nonempty array.
fn parse_sword_items_rest_exec(s: &[u8], i: usize) -> (r: Option<(usize, Vec<TextLine>)>)
    requires
        i <= s@.len(),
    ensures
        match r {
            Some(p) => (parse_sword_items_rest(s@, i as int) matches Some(q) && q.0 == p.0 && q.1
                == sword_items_view(p.1)) && i < p.0 <= s@.len(),
            None => parse_sword_items_rest(s@, i as int) is None,
        },
    decreases s@.len() - i,
{
    let (j, it) = match parse_sword_item_exec(s, i) {
        Some(p) => p,
        None => {
            return None;
        },
    };
    let k = crate::json::ws(s, j);
    if !(k < s.len()) {
        return None;
    }
    let b = s[k];
    if b == 0x2c {
        match parse_sword_items_rest_exec(s, k + 1) {
            Some((e, rest)) => {
                let mut all = rest;
                all.insert(0, it);
                proof {
                    let q = parse_sword_items_rest(s@, i as int)->Some_0;
                    assert(sword_items_view(all) =~~= q.1);
                }
                Some((e, all))
            },
            None => None,
        }
    } else if b == 0x5d {
        let mut one: Vec<TextLine> = Vec::new();
        one.push(it);
        proof {
            let q = parse_sword_items_rest(s@, i as int)->Some_0;
            assert(sword_items_view(one) =~~= q.1);
        }
        Some((k + 1, one))
    } else {
        None
    }
}

/// Parse the whole manifest.
pub fn parse_sword_manifest_exec(s: &[u8]) -> (r: Option<Vec<TextLine>>)
    ensures
        match r {
            Some(v) => parse_sword_manifest(s@) == Some(sword_items_view(v)),
            None => parse_sword_manifest(s@) is None,
        },
{
    let i1 = match expect_ws_byte_exec(s, 0, 0x5b) {
        Some(v) => v,
        None => {
            return None;
        },
    };
    let k = crate::json::ws(s, i1);
    if k < s.len() {
        let b = s[k];
        if b == 0x5d {
            if crate::json::ws(s, k + 1) == s.len() {
                let empty: Vec<TextLine> = Vec::new();
                proof {
                    assert(sword_items_view(empty) =~~= Seq::<TextLineModel>::empty());
                }
                return Some(empty);
            }
            return None;
        }
    }
    match parse_sword_items_rest_exec(s, i1) {
        Some((e, items)) => {
            if crate::json::ws(s, e) == s.len() {
                Some(items)
            } else {
                None
            }
        },
        None => None,
    }
}


// ---------------------------------------------------------------------------
// Manifest round trip
// ---------------------------------------------------------------------------
/// An emitted line record, preceded by whitespace, parses back to itself.
#[verifier::rlimit(100)]
#[verifier::spinoff_prover]
proof fn lemma_parse_emit_sword_item(s: Seq<u8>, i: int, a: int, it: TextLineModel)
    requires
        0 <= i <= a,
        forall|k: int| i <= k < a ==> crate::json::is_json_ws(#[trigger] s[k]),
        a + sword_item_json(it).len() <= s.len(),
        s.subrange(a, a + sword_item_json(it).len() as int) == sword_item_json(it),
    ensures
        parse_sword_item(s, i) == Some((a + sword_item_json(it).len() as int, it)),
        skip_ws(s, i) == a + 2,
        s[a + 2] == 0x7b,
{
    let cs = sword_item_chunks(it);
    let whole = sword_item_json(it);
    crate::json::lemma_concat_all_len(cs);
    let o0 = a + crate::json::offset_of(cs, 0);
    let o1 = a + crate::json::offset_of(cs, 1);
    let o2 = a + crate::json::offset_of(cs, 2);
    let o3 = a + crate::json::offset_of(cs, 3);
    let o4 = a + crate::json::offset_of(cs, 4);
    let o5 = a + crate::json::offset_of(cs, 5);
    let o6 = a + crate::json::offset_of(cs, 6);
    let o7 = a + crate::json::offset_of(cs, 7);
    let o8 = a + crate::json::offset_of(cs, 8);
    let o9 = a + crate::json::offset_of(cs, 9);
    let o10 = a + crate::json::offset_of(cs, 10);
    let o11 = a + crate::json::offset_of(cs, 11);
    let o12 = a + crate::json::offset_of(cs, 12);
    let o13 = a + crate::json::offset_of(cs, 13);
    let o14 = a + crate::json::offset_of(cs, 14);
    let o15 = a + crate::json::offset_of(cs, 15);
    let o16 = a + crate::json::offset_of(cs, 16);
    let o17 = a + crate::json::offset_of(cs, 17);
    let o18 = a + crate::json::offset_of(cs, 18);
    let o19 = a + crate::json::offset_of(cs, 19);
    assert(crate::json::offset_of(cs, 1) == crate::json::offset_of(cs, 0) + cs[0].len());
    assert(crate::json::offset_of(cs, 2) == crate::json::offset_of(cs, 1) + cs[1].len());
    assert(crate::json::offset_of(cs, 3) == crate::json::offset_of(cs, 2) + cs[2].len());
    assert(crate::json::offset_of(cs, 4) == crate::json::offset_of(cs, 3) + cs[3].len());
    assert(crate::json::offset_of(cs, 5) == crate::json::offset_of(cs, 4) + cs[4].len());
    assert(crate::json::offset_of(cs, 6) == crate::json::offset_of(cs, 5) + cs[5].len());
    assert(crate::json::offset_of(cs, 7) == crate::json::offset_of(cs, 6) + cs[6].len());
    assert(crate::json::offset_of(cs, 8) == crate::json::offset_of(cs, 7) + cs[7].len());
    assert(crate::json::offset_of(cs, 9) == crate::json::offset_of(cs, 8) + cs[8].len());
    assert(crate::json::offset_of(cs, 10) == crate::json::offset_of(cs, 9) + cs[9].len());
    assert(crate::json::offset_of(cs, 11) == crate::json::offset_of(cs, 10) + cs[10].len());
    assert(crate::json::offset_of(cs, 12) == crate::json::offset_of(cs, 11) + cs[11].len());
    assert(crate::json::offset_of(cs, 13) == crate::json::offset_of(cs, 12) + cs[12].len());
    assert(crate::json::offset_of(cs, 14) == crate::json::offset_of(cs, 13) + cs[13].len());
    assert(crate::json::offset_of(cs, 15) == crate::json::offset_of(cs, 14) + cs[14].len());
    assert(crate::json::offset_of(cs, 16) == crate::json::offset_of(cs, 15) + cs[15].len());
    assert(crate::json::offset_of(cs, 17) == crate::json::offset_of(cs, 16) + cs[16].len());
    assert(crate::json::offset_of(cs, 18) == crate::json::offset_of(cs, 17) + cs[17].len());
    assert(crate::json::offset_of(cs, 19) == crate::json::offset_of(cs, 18) + cs[18].len());
    assert(crate::json::offset_of(cs, 20) == crate::json::offset_of(cs, 19) + cs[19].len());
    crate::json::lemma_concat_all_chunk(s, a, cs, 0);
    crate::json::lemma_concat_all_chunk(s, a, cs, 1);
    crate::json::lemma_concat_all_chunk(s, a, cs, 2);
    crate::json::lemma_concat_all_chunk(s, a, cs, 3);
    crate::json::lemma_concat_all_chunk(s, a, cs, 4);
    crate::json::lemma_concat_all_chunk(s, a, cs, 5);
    crate::json::lemma_concat_all_chunk(s, a, cs, 6);
    crate::json::lemma_concat_all_chunk(s, a, cs, 7);
    crate::json::lemma_concat_all_chunk(s, a, cs, 8);
    crate::json::lemma_concat_all_chunk(s, a, cs, 9);
    crate::json::lemma_concat_all_chunk(s, a, cs, 10);
    crate::json::lemma_concat_all_chunk(s, a, cs, 11);
    crate::json::lemma_concat_all_chunk(s, a, cs, 12);
    crate::json::lemma_concat_all_chunk(s, a, cs, 13);
    crate::json::lemma_concat_all_chunk(s, a, cs, 14);
    crate::json::lemma_concat_all_chunk(s, a, cs, 15);
    crate::json::lemma_concat_all_chunk(s, a, cs, 16);
    crate::json::lemma_concat_all_chunk(s, a, cs, 17);
    crate::json::lemma_concat_all_chunk(s, a, cs, 18);
    crate::json::lemma_concat_all_chunk(s, a, cs, 19);
    // the opening brace
    crate::json::lemma_ws_ind2(cs[0]);
    crate::json::lemma_ws_chunk(s, o0, cs[0]);
    crate::json::lemma_chunk_byte_at(s, o1, cs[1], 0);
    assert(s[o1] == 0x7b);
    crate::json::lemma_skip_ws_run(s, i, o1);
    assert(expect_ws_byte(s, i, 0x7b) == Some(o1 + 1));
    assert(o1 + 1 == o2);
    // the identifier field
    crate::json::lemma_ws_nl(cs[2]);
    crate::json::lemma_ws_chunk(s, o2, cs[2]);
    crate::json::lemma_ws_ind4(cs[3]);
    crate::json::lemma_ws_chunk(s, o3, cs[3]);
    crate::json::lemma_chunk_byte_at(s, o5, cs[5], 0);
    crate::json::lemma_chunk_byte_at(s, o5, cs[5], 1);
    assert(s[o4 + kq_identifier().len()] == 0x3a);
    assert(s[o4 + kq_identifier().len() + 1] == 0x20);
    crate::json::lemma_chunk_byte_at(s, o7, cs[7], 0);
    assert(s[o7] == 0x2c);
    assert(!crate::textfmt::is_ascii_digit(0x2cu8));
    assert(kq_identifier()[0] == 0x22);
    crate::json::lemma_u32_field_at(s, o2, o4, kq_identifier(), it.identifier);
    assert(parse_u32_field(s, o2, kq_identifier()) == Some((o7, it.identifier)));
    // the separating comma
    crate::json::lemma_skip_ws_run(s, o7, o7);
    assert(expect_ws_byte(s, o7, 0x2c) == Some(o7 + 1));
    assert(parse_sword_item_head(s, i) == Some((o7 + 1, it.identifier)));
    // the offset field
    crate::json::lemma_chunk_byte_at(s, o7, cs[7], 1);
    assert(crate::json::is_json_ws(s[o7 + 1]));
    crate::json::lemma_ws_ind4(cs[8]);
    crate::json::lemma_ws_chunk(s, o8, cs[8]);
    crate::json::lemma_chunk_byte_at(s, o10, cs[10], 0);
    crate::json::lemma_chunk_byte_at(s, o10, cs[10], 1);
    assert(s[o9 + kq_offset().len()] == 0x3a);
    assert(s[o9 + kq_offset().len() + 1] == 0x20);
    crate::json::lemma_chunk_byte_at(s, o12, cs[12], 0);
    assert(s[o12] == 0x2c);
    assert(kq_offset()[0] == 0x22);
    crate::json::lemma_u32_field_at(s, o7 + 1, o9, kq_offset(), it.offset);
    assert(parse_u32_field(s, o7 + 1, kq_offset()) == Some((o12, it.offset)));
    crate::json::lemma_skip_ws_run(s, o12, o12);
    assert(expect_ws_byte(s, o12, 0x2c) == Some(o12 + 1));
    assert(parse_sword_item_mid(s, o7 + 1) == Some((o12 + 1, it.offset)));
    // the text field
    crate::json::lemma_chunk_byte_at(s, o12, cs[12], 1);
    assert(crate::json::is_json_ws(s[o12 + 1]));
    crate::json::lemma_ws_ind4(cs[13]);
    crate::json::lemma_ws_chunk(s, o13, cs[13]);
    crate::json::lemma_chunk_byte_at(s, o15, cs[15], 0);
    crate::json::lemma_chunk_byte_at(s, o15, cs[15], 1);
    assert(s[o14 + kq_text().len()] == 0x3a);
    assert(s[o14 + kq_text().len() + 1] == 0x20);
    assert(kq_text()[0] == 0x22);
    crate::json::lemma_string_field_at(s, o12 + 1, o14, kq_text(), it.text);
    assert(parse_string_field(s, o12 + 1, kq_text()) == Some((o17, it.text)));
    // the closing brace
    crate::json::lemma_ws_nl(cs[17]);
    crate::json::lemma_ws_chunk(s, o17, cs[17]);
    crate::json::lemma_ws_ind2(cs[18]);
    crate::json::lemma_ws_chunk(s, o18, cs[18]);
    crate::json::lemma_chunk_byte_at(s, o19, cs[19], 0);
    assert(s[o19] == 0x7d);
    crate::json::lemma_skip_ws_run(s, o17, o19);
    assert(expect_ws_byte(s, o17, 0x7d) == Some(o19 + 1));
    assert(o19 + 1 == a + whole.len());
    assert(TextLineModel { identifier: it.identifier, offset: it.offset, text: it.text } == it);
}

/// An emitted record list followed by `\n]` parses back to the records.
#[verifier::rlimit(100)]
#[verifier::spinoff_prover]
proof fn lemma_parse_emit_sword_items(s: Seq<u8>, i: int, a: int, items: Seq<TextLineModel>, k: int)
    requires
        0 <= i <= a,
        0 <= k < items.len(),
        forall|j: int| i <= j < a ==> crate::json::is_json_ws(#[trigger] s[j]),
        a + sword_items_json(items, k).len() + 2 <= s.len(),
        s.subrange(a, a + sword_items_json(items, k).len() + 2) == sword_items_json(items, k)
            + seq![0x0au8, 0x5du8],
    ensures
        parse_sword_items_rest(s, i) == Some(
            (a + sword_items_json(items, k).len() + 2, items.subrange(k, items.len() as int)),
        ),
        skip_ws(s, i) == a + 2,
        s[a + 2] == 0x7b,
    decreases items.len() - k,
{
    let body = sword_items_json(items, k);
    let whole = body + seq![0x0au8, 0x5du8];
    let itj = sword_item_json(items[k]);
    if k == items.len() - 1 {
        assert(body == itj);
        assert forall|j: int| 0 <= j < itj.len() implies s.subrange(a, a + itj.len() as int)[j]
            == itj[j] by {
            assert(s.subrange(a, a + whole.len() as int)[j] == whole[j]);
            assert(whole[j] == itj[j]);
        }
        assert(s.subrange(a, a + itj.len() as int) =~= itj);
        lemma_parse_emit_sword_item(s, i, a, items[k]);
        let j = a + itj.len() as int;
        assert(s.subrange(a, a + whole.len() as int)[itj.len() as int] == whole[itj.len() as int]);
        assert(s[j + 0] == 0x0a);
        assert(s.subrange(a, a + whole.len() as int)[itj.len() as int + 1] == whole[itj.len() as int
            + 1]);
        assert(s[j + 1] == 0x5d);
        assert(crate::json::is_json_ws(s[j + 0]));
        assert(!crate::json::is_json_ws(s[j + 1]));
        crate::json::lemma_skip_ws_run(s, j, j + 1);
        assert(skip_ws(s, j) == j + 1);
        assert(parse_sword_items_rest(s, i) == Some((j + 2, seq![items[k]])));
        assert(items.subrange(k, items.len() as int) =~= seq![items[k]]);
    } else {
        assert(body == itj + comma_nl() + sword_items_json(items, k + 1));
        assert forall|j: int| 0 <= j < itj.len() implies s.subrange(a, a + itj.len() as int)[j]
            == itj[j] by {
            assert(s.subrange(a, a + whole.len() as int)[j] == whole[j]);
            assert(whole[j] == (itj + comma_nl() + sword_items_json(items, k + 1))[j]);
        }
        assert(s.subrange(a, a + itj.len() as int) =~= itj);
        lemma_parse_emit_sword_item(s, i, a, items[k]);
        let j = a + itj.len() as int;
        assert(s.subrange(a, a + whole.len() as int)[itj.len() as int] == whole[itj.len() as int]);
        assert(s[j + 0] == 0x2c);
        assert(s.subrange(a, a + whole.len() as int)[itj.len() as int + 1] == whole[itj.len() as int
            + 1]);
        assert(s[j + 1] == 0x0a);
        assert(!crate::json::is_json_ws(s[j + 0]));
        crate::json::lemma_skip_ws_run(s, j, j);
        assert(skip_ws(s, j) == j);
        let rest_len = sword_items_json(items, k + 1).len() as int;
        assert forall|j2: int| 0 <= j2 < rest_len + 2 implies (#[trigger] s.subrange(
            j + 2,
            j + 2 + rest_len + 2,
        )[j2]) == (sword_items_json(items, k + 1) + seq![0x0au8, 0x5du8])[j2] by {
            assert(s.subrange(a, a + whole.len() as int)[itj.len() as int + 2 + j2] == whole[
                itj.len() as int + 2 + j2]);
        }
        assert(s.subrange(j + 2, j + 2 + rest_len + 2) =~= sword_items_json(items, k + 1) + seq![
            0x0au8,
            0x5du8,
        ]);
        assert(crate::json::is_json_ws(s[j + 1]));
        lemma_parse_emit_sword_items(s, j + 1, j + 2, items, k + 1);
        assert(parse_sword_items_rest(s, j + 1) == Some(
            (j + 2 + rest_len + 2, items.subrange(k + 1, items.len() as int)),
        ));
        assert(i < j);
        assert(parse_sword_items_rest(s, i) == Some(
            (j + 2 + rest_len + 2, seq![items[k]] + items.subrange(k + 1, items.len() as int)),
        ));
        assert(seq![items[k]] + items.subrange(k + 1, items.len() as int) =~= items.subrange(
            k,
            items.len() as int,
        ));
        assert(a + body.len() + 2 == j + 2 + rest_len + 2);
    }
}

/// The manifest round trip: parsing an emitted manifest yields the records.
#[verifier::rlimit(100)]
#[verifier::spinoff_prover]
pub proof fn lemma_sword_manifest_round_trip(items: Seq<TextLineModel>)
    ensures
        parse_sword_manifest(sword_manifest_json(items)) == Some(items),
{
    let s = sword_manifest_json(items);
    if items.len() == 0 {
        assert(s[0] == 0x5b && s[1] == 0x5d);
        assert(!crate::json::is_json_ws(s[0]));
        crate::json::lemma_skip_ws_run(s, 0, 0);
        assert(expect_ws_byte(s, 0, 0x5b) == Some(1int));
        assert(!crate::json::is_json_ws(s[1]));
        crate::json::lemma_skip_ws_run(s, 1, 1);
        crate::json::lemma_skip_ws_run(s, 2, 2);
        assert(parse_sword_manifest(s) == Some(Seq::<TextLineModel>::empty()));
        assert(Seq::<TextLineModel>::empty() =~= items);
    } else {
        let body = sword_items_json(items, 0);
        assert(s == seq![0x5bu8, 0x0au8] + body + seq![0x0au8, 0x5du8]);
        assert(s[0] == 0x5b);
        assert(!crate::json::is_json_ws(s[0]));
        crate::json::lemma_skip_ws_run(s, 0, 0);
        assert(expect_ws_byte(s, 0, 0x5b) == Some(1int));
        assert(s[1] == 0x0a);
        assert(crate::json::is_json_ws(s[1]));
        assert forall|j2: int| 0 <= j2 < body.len() + 2 implies (#[trigger] s.subrange(
            2,
            2 + body.len() as int + 2,
        )[j2]) == (body + seq![0x0au8, 0x5du8])[j2] by {
            assert(s[2 + j2] == (seq![0x5bu8, 0x0au8] + body + seq![0x0au8, 0x5du8])[2 + j2]);
        }
        assert(s.subrange(2, 2 + body.len() as int + 2) =~= body + seq![0x0au8, 0x5du8]);
        lemma_parse_emit_sword_items(s, 1, 2, items, 0);
        assert(parse_sword_items_rest(s, 1) == Some(
            (2 + body.len() as int + 2, items.subrange(0, items.len() as int)),
        ));
        assert(2 + body.len() + 2 == s.len());
        crate::json::lemma_skip_ws_run(s, s.len() as int, s.len() as int);
        assert(skip_ws(s, 1) == 4);
        assert(s[4] == 0x7b);
        assert(s[4] != 0x5d);
        assert(items.subrange(0, items.len() as int) =~= items);
    }
}


// ---------------------------------------------------------------------------
// The binary line table
// ---------------------------------------------------------------------------
/// The position of the first NUL byte at or after `i`, or the end.
pub open spec fn find_nul(data: Seq<u8>, i: int) -> int
    decreases data.len() - i,
{
    if i < 0 || i >= data.len() {
        i
    } else if data[i] == 0 {
        i
    } else {
        find_nul(data, i + 1)
    }
}

/// The raw bytes of one line: from its offset up to and including the first
/// NUL, or to the end of the buffer.
pub open spec fn sword_line_raw(data: Seq<u8>, off: u32) -> Seq<u8> {
    let start = if off <= data.len() {
        off as int
    } else {
        data.len() as int
    };
    let e = find_nul(data, start);
    let stop = if e < data.len() {
        e + 1
    } else {
        e
    };
    data.subrange(start, stop)
}

/// The decoded lines of entries `k ..`: each line's bytes must be valid
/// UTF-8, and the stored text is stripped of NUL terminators.
pub open spec fn sword_lines_model(data: Seq<u8>, count: int, k: int) -> Result<
    Seq<TextLineModel>,
    DecodeFailure,
>
    decreases count - k,
{
    if k >= count {
        Ok(Seq::empty())
    } else if data.len() < 12 + 8 * (k + 1) {
        Err(DecodeFailure::Io)
    } else {
        let id = spec_u32_at(data, 12 + 8 * k);
        let off = spec_u32_at(data, 16 + 8 * k);
        let raw = sword_line_raw(data, off);
        if !valid_utf8(raw) {
            Err(DecodeFailure::Parse)
        } else {
            match sword_lines_model(data, count, k + 1) {
                Err(e) => Err(e),
                Ok(rest) => Ok(
                    seq![TextLineModel { identifier: id, offset: off, text: trim_nul(raw) }] + rest,
                ),
            }
        }
    }
}

/// Decoding: skip the header, read the line count, extract every line, and
/// replace the payload with the manifest.
pub open spec fn sword_decode_model(m: ResourceModel) -> Result<ResourceModel, DecodeFailure> {
    if m.data.len() < 12 {
        Err(DecodeFailure::Io)
    } else {
        match sword_lines_model(m.data, spec_u32_at(m.data, 8) as int, 0) {
            Err(e) => Err(e),
            Ok(lines) => Ok(
                ResourceModel {
                    data: sword_manifest_json(lines),
                    extension: Some(json_tag()),
                    format: Some(sword_text_tag()),
                    ..m
                },
            ),
        }
    }
}

/// The directory and payload regions rebuilt from the manifest: offsets are
/// assigned sequentially, each line NUL-terminated; `None` reports an offset
/// that cannot fit its 32-bit directory field.
pub open spec fn sword_lines_bin(lines: Seq<TextLineModel>, k: int, off: int) -> Option<
    (Seq<u8>, Seq<u8>),
>
    decreases lines.len() - k,
{
    if k < 0 || k >= lines.len() {
        Some((Seq::empty(), Seq::empty()))
    } else if off > u32::MAX {
        None
    } else {
        match sword_lines_bin(lines, k + 1, off + lines[k].text.len() + 1) {
            None => None,
            Some(dp) => Some(
                (
                    spec_u32_to_le_bytes(lines[k].identifier) + spec_u32_to_le_bytes(off as u32)
                        + dp.0,
                    lines[k].text + seq![0u8] + dp.1,
                ),
            ),
        }
    }
}

/// Encoding: rebuild the line table in manifest order with freshly computed
/// offsets; the stored offsets in the manifest are not consulted.
pub open spec fn sword_encode_model(m: ResourceModel) -> Result<ResourceModel, EncodeFailure> {
    match parse_sword_manifest(m.data) {
        None => Err(EncodeFailure::Deserialize),
        Some(lines) => {
            if 12 + 8 * lines.len() > u32::MAX {
                Err(EncodeFailure::Parse)
            } else {
                match sword_lines_bin(lines, 0, 12 + 8 * (lines.len() as int)) {
                    None => Err(EncodeFailure::Parse),
                    Some(dp) => Ok(
                        ResourceModel {
                            data: sword_magic() + seq![0u8, 0u8, 0u8, 0u8] + spec_u32_to_le_bytes(
                                lines.len() as u32,
                            ) + dp.0 + dp.1,
                            extension: Some(swordtext_tag()),
                            format: None,
                            subresources: Seq::empty(),
                            ..m
                        },
                    ),
                }
            }
        },
    }
}


proof fn lemma_find_nul_run(data: Seq<u8>, i: int, j: int)
    requires
        0 <= i <= j <= data.len(),
        forall|k: int| i <= k < j ==> data[k] != 0,
        j == data.len() || data[j] == 0,
    ensures
        find_nul(data, i) == j,
    decreases j - i,
{
    if i < j {
        lemma_find_nul_run(data, i + 1, j);
    }
}

/// Extract one line's raw bytes, NUL terminator included when present.
fn sword_line_bytes(data: &[u8], off: u32) -> (r: Vec<u8>)
    ensures
        r@ == sword_line_raw(data@, off),
{
    let n = data.len();
    let start: usize = if (off as usize) <= n {
        off as usize
    } else {
        n
    };
    let mut e: usize = start;
    while e < n && data[e] != 0
        invariant
            start <= e <= n,
            n == data@.len(),
            forall|j: int| start <= j < e ==> data@[j] != 0,
        decreases n - e,
    {
        e += 1;
    }
    proof {
        lemma_find_nul_run(data@, start as int, e as int);
    }
    let stop: usize = if e < n {
        e + 1
    } else {
        e
    };
    crate::textfmt::slice_to_vec_range(data, start, stop)
}

/// Decode a line table in place: extract every line into the manifest.
pub(crate) fn sword_decode(resource: &mut Resource) -> (r: Result<(), DecodingError>)
    ensures
        match sword_decode_model(old(resource)@) {
            Ok(mm) => r is Ok && final(resource)@ == mm,
            Err(k) => (r matches Err(e) && e.kind() == k) && *final(resource) == *old(resource),
        },
        match sword_bad_line(old(resource)@.data) {
            Some(t) => r matches Err(e) && (e matches DecodingError::ParsingError(msg)
                && vstd::utf8::encode_utf8(msg@) == sword_text_error_text(t.0, t.1)),
            None => true,
        },
{
    let n = resource.data.len();
    if n < 12 {
        return Err(DecodingError::IOError(String::from_str("line table header is truncated")));
    }
    let count = crate::textfmt::read_u32_le(resource.data.as_slice(), 8);
    let ghost md = resource.data@;
    let mut lines: Vec<TextLine> = Vec::new();
    let mut k: u32 = 0;
    proof {
        if sword_lines_model(md, count as int, 0) is Ok {
            let all = sword_lines_model(md, count as int, 0)->Ok_0;
            assert(Seq::<TextLineModel>::empty() + all =~= all);
        }
        assert(sword_items_view(lines) =~= Seq::<TextLineModel>::empty());
    }
    while k < count
        invariant
            0 <= k <= count,
            *resource == *old(resource),
            md == old(resource)@.data,
            n == md.len(),
            n >= 12,
            count == spec_u32_at(md, 8),
            sword_bad_line(old(resource)@.data) == sword_bad_line_from(md, count as int, k as int),
            lines@.len() == k,
            match sword_lines_model(md, count as int, k as int) {
                Ok(rest) => sword_lines_model(md, count as int, 0) == Ok::<
                    Seq<TextLineModel>,
                    DecodeFailure,
                >(sword_items_view(lines) + rest),
                Err(e) => sword_lines_model(md, count as int, 0) == Err::<
                    Seq<TextLineModel>,
                    DecodeFailure,
                >(e),
            },
        decreases count - k,
    {
        let need: u64 = 12 + 8 * (k as u64 + 1);
        if (n as u64) < need {
            proof {
                assert(md.len() < 12 + 8 * (k as int + 1));
            }
            return Err(
                DecodingError::IOError(String::from_str("line table directory is truncated")),
            );
        }
        let base: usize = 12 + 8 * (k as usize);
        let id = crate::textfmt::read_u32_le(resource.data.as_slice(), base);
        let off = crate::textfmt::read_u32_le(resource.data.as_slice(), base + 4);
        let raw = sword_line_bytes(resource.data.as_slice(), off);
        proof {
            assert(base as int == 12 + 8 * (k as int));
            assert(raw@ == sword_line_raw(md, off));
        }
        if !crate::utf8check::is_valid_utf8(raw.as_slice()) {
            proof {
                assert(sword_bad_line_from(md, count as int, k as int) == Some((id, off)));
            }
            return Err(DecodingError::ParsingError(sword_text_error(id, off)));
        }
        let text = crate::textfmt::trim_nul_bytes(raw.as_slice());
        let ghost before = sword_items_view(lines);
        lines.push(TextLine { identifier: id, offset: off, text });
        proof {
            let lm = TextLineModel { identifier: id, offset: off, text: trim_nul(raw@) };
            assert(sword_items_view(lines) =~~= before + seq![lm]);
            if sword_lines_model(md, count as int, k as int + 1) is Ok {
                let rest = sword_lines_model(md, count as int, k as int + 1)->Ok_0;
                assert(before + (seq![lm] + rest) =~= (before + seq![lm]) + rest);
            }
        }
        k += 1;
    }
    proof {
        assert(sword_lines_model(md, count as int, count as int) == Ok::<
            Seq<TextLineModel>,
            DecodeFailure,
        >(Seq::<TextLineModel>::empty()));
        assert(sword_items_view(lines) + Seq::<TextLineModel>::empty() =~= sword_items_view(
            lines,
        ));
    }
    let manifest = emit_sword_manifest(&lines);
    let jt: [u8; 4] = [0x6a, 0x73, 0x6f, 0x6e];
    let st: [u8; 10] = [0x73, 0x77, 0x6f, 0x72, 0x64, 0x5f, 0x74, 0x65, 0x78, 0x74];
    proof {
        assert(jt@ =~= json_tag());
        assert(st@ =~= sword_text_tag());
    }
    resource.data = manifest;
    resource.extension = Some(vstd::slice::slice_to_vec(jt.as_slice()));
    resource.format = Some(vstd::slice::slice_to_vec(st.as_slice()));
    Ok(())
}


impl SwordTextCodec {
    pub fn matches_decoder(&self, resource: &Resource) -> (score: usize)
        ensures
            score == sword_decode_score(resource@),
    {
        let magic: [u8; 4] = [0x54, 0x45, 0x58, 0x54];
        proof {
            assert(magic@ =~= sword_magic());
        }
        if crate::textfmt::starts_with_bytes(resource.data.as_slice(), magic.as_slice()) {
            100
        } else {
            0
        }
    }

    pub fn matches_encoder(&self, resource: &Resource) -> (score: usize)
        ensures
            score == sword_encode_score(resource@),
    {
        let jt: [u8; 4] = [0x6a, 0x73, 0x6f, 0x6e];
        let st: [u8; 10] = [0x73, 0x77, 0x6f, 0x72, 0x64, 0x5f, 0x74, 0x65, 0x78, 0x74];
        proof {
            assert(jt@ =~= json_tag());
            assert(st@ =~= sword_text_tag());
        }
        if crate::resource::opt_tag_is(&resource.extension, jt.as_slice())
            && crate::resource::opt_tag_is(&resource.format, st.as_slice()) {
            100
        } else {
            0
        }
    }
}


/// Encode a line table in place from its manifest; offsets are recomputed.
#[verifier::rlimit(100)]
#[verifier::spinoff_prover]
pub(crate) fn sword_encode(resource: &mut Resource) -> (r: Result<(), EncodingError>)
    ensures
        match sword_encode_model(old(resource)@) {
            Ok(mm) => r is Ok && final(resource)@ == mm,
            Err(k) => (r matches Err(e) && e.kind() == k) && *final(resource) == *old(resource),
        },
{
    let lines = match parse_sword_manifest_exec(resource.data.as_slice()) {
        Some(v) => v,
        None => {
            return Err(
                EncodingError::DeserializeError(
                    String::from_str("manifest is not a well-formed record array"),
                ),
            );
        },
    };
    let ghost lv = sword_items_view(lines);
    let nlines = lines.len();
    if (nlines as u64) > (0xffff_ffffu64 - 12) / 8 {
        proof {
            assert(12 + 8 * lv.len() > u32::MAX);
        }
        return Err(
            EncodingError::ParsingError(
                String::from_str("line directory does not fit the format"),
            ),
        );
    }
    let base_u64: u64 = 12 + 8 * (nlines as u64);
    let mut dir: Vec<u8> = Vec::new();
    let mut pay: Vec<u8> = Vec::new();
    let mut k: usize = 0;
    proof {
        if sword_lines_bin(lv, 0, base_u64 as int) is Some {
            let dp = sword_lines_bin(lv, 0, base_u64 as int)->Some_0;
            assert(Seq::<u8>::empty() + dp.0 =~= dp.0);
            assert(Seq::<u8>::empty() + dp.1 =~= dp.1);
        }
    }
    while k < nlines
        invariant
            0 <= k <= nlines,
            nlines == lines@.len(),
            lv == sword_items_view(lines),
            lv.len() == nlines,
            base_u64 <= 0xffff_ffff,
            base_u64 as int == 12 + 8 * (lv.len() as int),
            *resource == *old(resource),
            parse_sword_manifest(old(resource)@.data) == Some(lv),
            match sword_lines_bin(lv, k as int, base_u64 as int + pay@.len()) {
                Some(dp) => sword_lines_bin(lv, 0, base_u64 as int) == Some(
                    (dir@ + dp.0, pay@ + dp.1),
                ),
                None => sword_lines_bin(lv, 0, base_u64 as int) is None,
            },
        decreases nlines - k,
    {
        if (pay.len() as u64) > 0xffff_ffffu64 - base_u64 {
            proof {
                assert(sword_lines_bin(lv, k as int, base_u64 as int + pay@.len()) is None);
            }
            return Err(
                EncodingError::ParsingError(
                    String::from_str("line offset does not fit the format"),
                ),
            );
        }
        let off_now: u64 = base_u64 + (pay.len() as u64);
        let ghost dir0 = dir@;
        let ghost pay0 = pay@;
        crate::textfmt::push_u32_le(&mut dir, lines[k].identifier);
        crate::textfmt::push_u32_le(&mut dir, off_now as u32);
        crate::textfmt::push_bytes(&mut pay, lines[k].text.as_slice());
        pay.push(0);
        proof {
            let lm = lv[k as int];
            let entry = vstd::bytes::spec_u32_to_le_bytes(lm.identifier)
                + vstd::bytes::spec_u32_to_le_bytes(off_now as u32);
            assert(dir@ =~= dir0 + entry);
            assert(pay@ =~= pay0 + (lm.text + seq![0u8]));
            if sword_lines_bin(lv, k as int + 1, base_u64 as int + pay@.len()) is Some {
                let dp = sword_lines_bin(lv, k as int + 1, base_u64 as int + pay@.len())->Some_0;
                assert(dir0 + (entry + dp.0) =~= dir@ + dp.0);
                assert(pay0 + ((lm.text + seq![0u8]) + dp.1) =~= pay@ + dp.1);
            }
        }
        k += 1;
    }
    proof {
        assert(sword_lines_bin(lv, nlines as int, base_u64 as int + pay@.len()) == Some(
            (Seq::<u8>::empty(), Seq::<u8>::empty()),
        ));
        assert(dir@ + Seq::<u8>::empty() =~= dir@);
        assert(pay@ + Seq::<u8>::empty() =~= pay@);
    }
    let mut out: Vec<u8> = Vec::new();
    let header: [u8; 8] = [0x54, 0x45, 0x58, 0x54, 0x00, 0x00, 0x00, 0x00];
    proof {
        assert(header@ =~= sword_magic() + seq![0u8, 0u8, 0u8, 0u8]);
    }
    crate::textfmt::push_bytes(&mut out, header.as_slice());
    crate::textfmt::push_u32_le(&mut out, nlines as u32);
    crate::textfmt::push_bytes(&mut out, dir.as_slice());
    let mut pay2 = pay;
    out.append(&mut pay2);
    let st: [u8; 9] = [0x73, 0x77, 0x6f, 0x72, 0x64, 0x74, 0x65, 0x78, 0x74];
    proof {
        assert(st@ =~= swordtext_tag());
    }
    resource.data = out;
    resource.extension = Some(vstd::slice::slice_to_vec(st.as_slice()));
    resource.format = None;
    resource.subresources = Vec::new();
    proof {
        assert(final(resource)@.subresources =~= Seq::<ResourceModel>::empty());
    }
    Ok(())
}


// ---------------------------------------------------------------------------
// The diagnostic message for a line that is not valid text
// ---------------------------------------------------------------------------
/// `parsing text error with identifier `
pub open spec fn sword_err_pre() -> Seq<u8> {
    seq![0x70u8, 0x61u8, 0x72u8, 0x73u8, 0x69u8, 0x6eu8, 0x67u8, 0x20u8, 0x74u8, 0x65u8, 0x78u8, 0x74u8, 0x20u8, 0x65u8, 0x72u8, 0x72u8, 0x6fu8, 0x72u8, 0x20u8, 0x77u8, 0x69u8, 0x74u8, 0x68u8, 0x20u8, 0x69u8, 0x64u8, 0x65u8, 0x6eu8, 0x74u8, 0x69u8, 0x66u8, 0x69u8, 0x65u8, 0x72u8, 0x20u8]
}

/// ` at offset 0x`
pub open spec fn sword_err_mid() -> Seq<u8> {
    seq![0x20u8, 0x61u8, 0x74u8, 0x20u8, 0x6fu8, 0x66u8, 0x66u8, 0x73u8, 0x65u8, 0x74u8, 0x20u8, 0x30u8, 0x78u8]
}

proof fn lemma_sword_err_pre_ascii()
    ensures
        forall|k: int| 0 <= k < sword_err_pre().len() ==> #[trigger] sword_err_pre()[k] < 0x80,
{
    assert forall|k: int| 0 <= k < sword_err_pre().len() implies #[trigger] sword_err_pre()[k]
        < 0x80 by {
        if k == 0 {
            assert(sword_err_pre()[0] == 0x70);
        } else if k == 1 {
            assert(sword_err_pre()[1] == 0x61);
        } else if k == 2 {
            assert(sword_err_pre()[2] == 0x72);
        } else if k == 3 {
            assert(sword_err_pre()[3] == 0x73);
        } else if k == 4 {
            assert(sword_err_pre()[4] == 0x69);
        } else if k == 5 {
            assert(sword_err_pre()[5] == 0x6e);
        } else if k == 6 {
            assert(sword_err_pre()[6] == 0x67);
        } else if k == 7 {
            assert(sword_err_pre()[7] == 0x20);
        } else if k == 8 {
            assert(sword_err_pre()[8] == 0x74);
        } else if k == 9 {
            assert(sword_err_pre()[9] == 0x65);
        } else if k == 10 {
            assert(sword_err_pre()[10] == 0x78);
        } else if k == 11 {
            assert(sword_err_pre()[11] == 0x74);
        } else if k == 12 {
            assert(sword_err_pre()[12] == 0x20);
        } else if k == 13 {
            assert(sword_err_pre()[13] == 0x65);
        } else if k == 14 {
            assert(sword_err_pre()[14] == 0x72);
        } else if k == 15 {
            assert(sword_err_pre()[15] == 0x72);
        } else if k == 16 {
            assert(sword_err_pre()[16] == 0x6f);
        } else if k == 17 {
            assert(sword_err_pre()[17] == 0x72);
        } else if k == 18 {
            assert(sword_err_pre()[18] == 0x20);
        } else if k == 19 {
            assert(sword_err_pre()[19] == 0x77);
        } else if k == 20 {
            assert(sword_err_pre()[20] == 0x69);
        } else if k == 21 {
            assert(sword_err_pre()[21] == 0x74);
        } else if k == 22 {
            assert(sword_err_pre()[22] == 0x68);
        } else if k == 23 {
            assert(sword_err_pre()[23] == 0x20);
        } else if k == 24 {
            assert(sword_err_pre()[24] == 0x69);
        } else if k == 25 {
            assert(sword_err_pre()[25] == 0x64);
        } else if k == 26 {
            assert(sword_err_pre()[26] == 0x65);
        } else if k == 27 {
            assert(sword_err_pre()[27] == 0x6e);
        } else if k == 28 {
            assert(sword_err_pre()[28] == 0x74);
        } else if k == 29 {
            assert(sword_err_pre()[29] == 0x69);
        } else if k == 30 {
            assert(sword_err_pre()[30] == 0x66);
        } else if k == 31 {
            assert(sword_err_pre()[31] == 0x69);
        } else if k == 32 {
            assert(sword_err_pre()[32] == 0x65);
        } else if k == 33 {
            assert(sword_err_pre()[33] == 0x72);
        } else {
            assert(sword_err_pre()[34] == 0x20);
        }
    }
}

proof fn lemma_sword_err_mid_ascii()
    ensures
        forall|k: int| 0 <= k < sword_err_mid().len() ==> #[trigger] sword_err_mid()[k] < 0x80,
{
    assert forall|k: int| 0 <= k < sword_err_mid().len() implies #[trigger] sword_err_mid()[k]
        < 0x80 by {
        if k == 0 {
            assert(sword_err_mid()[0] == 0x20);
        } else if k == 1 {
            assert(sword_err_mid()[1] == 0x61);
        } else if k == 2 {
            assert(sword_err_mid()[2] == 0x74);
        } else if k == 3 {
            assert(sword_err_mid()[3] == 0x20);
        } else if k == 4 {
            assert(sword_err_mid()[4] == 0x6f);
        } else if k == 5 {
            assert(sword_err_mid()[5] == 0x66);
        } else if k == 6 {
            assert(sword_err_mid()[6] == 0x66);
        } else if k == 7 {
            assert(sword_err_mid()[7] == 0x73);
        } else if k == 8 {
            assert(sword_err_mid()[8] == 0x65);
        } else if k == 9 {
            assert(sword_err_mid()[9] == 0x74);
        } else if k == 10 {
            assert(sword_err_mid()[10] == 0x20);
        } else if k == 11 {
            assert(sword_err_mid()[11] == 0x30);
        } else {
            assert(sword_err_mid()[12] == 0x78);
        }
    }
}

/// The message bytes reported for a line that is not valid text: the
/// offending line's identifier and offset, hex-rendered as the on-disk
/// names are.
pub open spec fn sword_text_error_text(id: u32, off: u32) -> Seq<u8> {
    sword_err_pre() + crate::textfmt::hex8(id) + sword_err_mid() + crate::textfmt::hex8(off)
}

/// Build the diagnostic message for a line that is not valid text.
fn sword_text_error(id: u32, off: u32) -> (r: String)
    ensures
        vstd::utf8::encode_utf8(r@) == sword_text_error_text(id, off),
{
    let prelit: [u8; 35] = [0x70, 0x61, 0x72, 0x73, 0x69, 0x6e, 0x67, 0x20, 0x74, 0x65, 0x78, 0x74, 0x20, 0x65, 0x72, 0x72, 0x6f, 0x72, 0x20, 0x77, 0x69, 0x74, 0x68, 0x20, 0x69, 0x64, 0x65, 0x6e, 0x74, 0x69, 0x66, 0x69, 0x65, 0x72, 0x20];
    let midlit: [u8; 13] = [0x20, 0x61, 0x74, 0x20, 0x6f, 0x66, 0x66, 0x73, 0x65, 0x74, 0x20, 0x30, 0x78];
    proof {
        assert(prelit@ =~= sword_err_pre());
        assert(midlit@ =~= sword_err_mid());
    }
    let mut msg: Vec<u8> = Vec::new();
    crate::textfmt::push_bytes(&mut msg, prelit.as_slice());
    let mut a = crate::textfmt::u32_to_hex8(id);
    msg.append(&mut a);
    crate::textfmt::push_bytes(&mut msg, midlit.as_slice());
    let mut b = crate::textfmt::u32_to_hex8(off);
    msg.append(&mut b);
    proof {
        assert(msg@ =~= sword_text_error_text(id, off));
        lemma_sword_err_pre_ascii();
        lemma_sword_err_mid_ascii();
        crate::textfmt::lemma_hex8_round_trip(id);
        crate::textfmt::lemma_hex8_round_trip(off);
        assert forall|k: int| 0 <= k < msg@.len() implies msg@[k] < 0x80 by {
            let p = sword_err_pre().len() as int;
            let q = p + 8;
            let t = q + sword_err_mid().len() as int;
            if k < p {
                assert(msg@[k] == sword_err_pre()[k]);
            } else if k < q {
                assert(msg@[k] == crate::textfmt::hex8(id)[k - p]);
                assert(crate::textfmt::is_lower_hex_digit(crate::textfmt::hex8(id)[k - p]));
            } else if k < t {
                assert(msg@[k] == sword_err_mid()[k - q]);
            } else {
                assert(msg@[k] == crate::textfmt::hex8(off)[k - t]);
                assert(crate::textfmt::is_lower_hex_digit(crate::textfmt::hex8(off)[k - t]));
            }
        }
        crate::textfmt::lemma_ascii_bytes_valid_utf8(msg@);
    }
    crate::textfmt::bytes_to_string(msg.as_slice())
}

/// The identifier and offset of the first line whose bytes are not valid
/// text, walking the directory in order and stopping at any earlier
/// truncation, or `None` when no such line is hit.
pub open spec fn sword_bad_line_from(data: Seq<u8>, count: int, k: int) -> Option<(u32, u32)>
    decreases count - k,
{
    if k >= count {
        None
    } else if data.len() < 12 + 8 * (k + 1) {
        None
    } else {
        let id = spec_u32_at(data, 12 + 8 * k);
        let off = spec_u32_at(data, 16 + 8 * k);
        if !valid_utf8(sword_line_raw(data, off)) {
            Some((id, off))
        } else {
            sword_bad_line_from(data, count, k + 1)
        }
    }
}

pub open spec fn sword_bad_line(data: Seq<u8>) -> Option<(u32, u32)> {
    if data.len() < 12 {
        None
    } else {
        sword_bad_line_from(data, spec_u32_at(data, 8) as int, 0)
    }
}


// ---------------------------------------------------------------------------
// The line-table round trip
// ---------------------------------------------------------------------------
/// Where the line after `k` starts: the next directory offset, or the end of
/// the buffer after the last line.
pub open spec fn sword_next_start(data: Seq<u8>, k: int) -> int {
    let count = spec_u32_at(data, 8) as int;
    if k + 1 < count {
        spec_u32_at(data, 16 + 8 * (k + 1)) as int
    } else {
        data.len() as int
    }
}

/// A canonical line table: the magic and a zero pad, a directory that fits,
/// and NUL-terminated lines laid out sequentially and gaplessly from the end
/// of the directory to the end of the buffer, with no interior NULs.
pub open spec fn sword_canonical(data: Seq<u8>) -> bool {
    let count = spec_u32_at(data, 8) as int;
    &&& data.len() >= 12
    &&& has_prefix(data, sword_magic())
    &&& data.subrange(4, 8) == seq![0u8, 0u8, 0u8, 0u8]
    &&& data.len() <= u32::MAX
    &&& 12 + 8 * count <= data.len()
    &&& (count > 0 ==> spec_u32_at(data, 16) as int == 12 + 8 * count)
    &&& (count == 0 ==> data.len() == 12)
    &&& forall|k: int|
        0 <= k < count ==> {
            let off = spec_u32_at(data, 16 + 8 * k) as int;
            let e = #[trigger] sword_next_start(data, k);
            &&& off < e <= data.len()
            &&& data[e - 1] == 0
            &&& forall|j: int| off <= j < e - 1 ==> data[j] != 0
        }
}

/// Stripping the one terminating NUL from a NUL-free body gives the body.
proof fn lemma_trim_nul_terminated(body: Seq<u8>)
    requires
        forall|j: int| 0 <= j < body.len() ==> body[j] != 0,
    ensures
        trim_nul(body + seq![0u8]) == body,
{
    let raw = body + seq![0u8];
    if body.len() == 0 {
        assert(raw[0] == 0);
        assert(raw.drop_first() =~= Seq::<u8>::empty());
        assert(crate::textfmt::trim_start_nul(Seq::<u8>::empty()) =~= Seq::<u8>::empty());
        assert(crate::textfmt::trim_start_nul(raw) =~= Seq::<u8>::empty());
        assert(crate::textfmt::trim_end_nul(Seq::<u8>::empty()) =~= Seq::<u8>::empty());
        assert(trim_nul(raw) =~= body);
    } else {
        assert(raw[0] == body[0]);
        assert(raw[0] != 0);
        assert(crate::textfmt::trim_start_nul(raw) == raw);
        assert(raw.last() == 0);
        assert(raw.drop_last() =~= body);
        assert(body.last() != 0);
        assert(crate::textfmt::trim_end_nul(raw) == crate::textfmt::trim_end_nul(body));
        assert(crate::textfmt::trim_end_nul(body) == body);
        assert(trim_nul(raw) =~= body);
    }
}

/// In a canonical table, line `k`'s raw bytes run from its offset up to and
/// including the NUL before the next line.
proof fn lemma_sword_canonical_line(data: Seq<u8>, k: int)
    requires
        sword_canonical(data),
        0 <= k < spec_u32_at(data, 8) as int,
    ensures
        sword_line_raw(data, spec_u32_at(data, 16 + 8 * k)) == data.subrange(
            spec_u32_at(data, 16 + 8 * k) as int,
            sword_next_start(data, k),
        ),
{
    let off = spec_u32_at(data, 16 + 8 * k) as int;
    let e = sword_next_start(data, k);
    assert(off < e <= data.len());
    assert(data[e - 1] == 0);
    lemma_find_nul_run(data, off, e - 1);
    assert(find_nul(data, off) == e - 1);
}

/// The decoded lines of a canonical table, pointwise.
proof fn lemma_sword_lines_pointwise(data: Seq<u8>, count: int, k: int)
    requires
        sword_lines_model(data, count, k) is Ok,
        0 <= k <= count,
    ensures
        sword_lines_model(data, count, k)->Ok_0.len() == count - k,
        forall|j: int|
            0 <= j < count - k ==> #[trigger] sword_lines_model(data, count, k)->Ok_0[j]
                == (TextLineModel {
                identifier: spec_u32_at(data, 12 + 8 * (k + j)),
                offset: spec_u32_at(data, 16 + 8 * (k + j)),
                text: trim_nul(sword_line_raw(data, spec_u32_at(data, 16 + 8 * (k + j)))),
            }),
    decreases count - k,
{
    if k < count {
        lemma_sword_lines_pointwise(data, count, k + 1);
    }
}

/// The rebuilt directory and text regions of lines `k ..` are exactly the
/// corresponding regions of a canonical original.
#[verifier::rlimit(100)]
#[verifier::spinoff_prover]
proof fn lemma_sword_lines_rebuild(data: Seq<u8>, lines: Seq<TextLineModel>, k: int)
    requires
        sword_canonical(data),
        lines.len() == spec_u32_at(data, 8) as int,
        0 <= k <= lines.len(),
        forall|j: int|
            0 <= j < lines.len() ==> #[trigger] lines[j] == (TextLineModel {
                identifier: spec_u32_at(data, 12 + 8 * j),
                offset: spec_u32_at(data, 16 + 8 * j),
                text: trim_nul(sword_line_raw(data, spec_u32_at(data, 16 + 8 * j))),
            }),
        k < lines.len() ==> spec_u32_at(data, 16 + 8 * k) as int == sword_start(data, k),
    ensures
        sword_lines_bin(lines, k, sword_start(data, k)) == Some(
            (
                data.subrange(12 + 8 * k, 12 + 8 * (lines.len() as int)),
                data.subrange(sword_start(data, k), data.len() as int),
            ),
        ),
    decreases lines.len() - k,
{
    let count = lines.len() as int;
    if k == count {
        assert(data.subrange(12 + 8 * k, 12 + 8 * count) =~= Seq::<u8>::empty());
        assert(data.subrange(sword_start(data, k), data.len() as int) =~= Seq::<u8>::empty());
    } else {
        let off = sword_start(data, k);
        assert(off == spec_u32_at(data, 16 + 8 * k) as int);
        let e = sword_next_start(data, k);
        lemma_sword_canonical_line(data, k);
        let raw = data.subrange(off, e);
        assert(raw.len() == e - off);
        let body = raw.subrange(0, raw.len() - 1);
        assert forall|j: int| 0 <= j < body.len() implies body[j] != 0 by {
            assert(body[j] == data[off + j]);
        }
        assert(body + seq![0u8] =~= raw);
        lemma_trim_nul_terminated(body);
        assert(lines[k].text == trim_nul(raw));
        assert(lines[k].text == body);
        assert(lines[k].text + seq![0u8] =~= raw);
        assert(off <= u32::MAX);
        assert(sword_start(data, k + 1) == e) by {
            if k + 1 < count {
                assert(spec_u32_at(data, 16 + 8 * (k + 1)) as int == sword_next_start(data, k));
            }
        }
        assert(off + lines[k].text.len() + 1 == e);
        lemma_sword_lines_rebuild(data, lines, k + 1);
        vstd::bytes::lemma_auto_spec_u32_to_from_le_bytes();
        let p = 12 + 8 * k;
        assert(spec_u32_to_le_bytes(spec_u32_at(data, p)) == data.subrange(p, p + 4));
        assert(spec_u32_to_le_bytes(spec_u32_at(data, p + 4)) == data.subrange(p + 4, p + 8));
        assert(lines[k].identifier == spec_u32_at(data, p));
        assert((off as u32) == spec_u32_at(data, p + 4));
        let entry = spec_u32_to_le_bytes(lines[k].identifier) + spec_u32_to_le_bytes(off as u32);
        assert(entry =~= data.subrange(p, p + 8));
        assert(entry + data.subrange(12 + 8 * (k + 1), 12 + 8 * count) =~= data.subrange(
            p,
            12 + 8 * count,
        ));
        assert((lines[k].text + seq![0u8]) + data.subrange(e, data.len() as int) =~= data.subrange(
            off,
            data.len() as int,
        ));
    }
}

/// Where line `k` starts in a canonical table: its stored offset, or the end
/// of the directory for the first line, or the end of the buffer past the
/// last.
pub open spec fn sword_start(data: Seq<u8>, k: int) -> int {
    let count = spec_u32_at(data, 8) as int;
    if k < count {
        spec_u32_at(data, 16 + 8 * k) as int
    } else {
        data.len() as int
    }
}

/// Round trip for the line table: decoding a canonical table and re-encoding
/// the decoded manifest reproduces the original bytes. No hypotheses beyond
/// canonical layout are needed: the lines are plain text and carry no
/// children.
#[verifier::rlimit(100)]
#[verifier::spinoff_prover]
pub proof fn lemma_sword_round_trip(m: ResourceModel, dm: ResourceModel)
    requires
        sword_canonical(m.data),
        sword_decode_model(m) == Ok::<ResourceModel, DecodeFailure>(dm),
    ensures
        sword_encode_model(dm) matches Ok(em) && em.data == m.data,
{
    let data = m.data;
    let count = spec_u32_at(data, 8) as int;
    let lines = sword_lines_model(data, count, 0)->Ok_0;
    assert(dm.data == sword_manifest_json(lines));
    lemma_sword_manifest_round_trip(lines);
    lemma_sword_lines_pointwise(data, count, 0);
    assert(lines.len() == count);
    assert forall|j: int| 0 <= j < lines.len() implies #[trigger] lines[j] == (TextLineModel {
        identifier: spec_u32_at(data, 12 + 8 * j),
        offset: spec_u32_at(data, 16 + 8 * j),
        text: trim_nul(sword_line_raw(data, spec_u32_at(data, 16 + 8 * j))),
    }) by {
        assert(sword_lines_model(data, count, 0)->Ok_0[j] == lines[j]);
    }
    assert(sword_start(data, 0) == 12 + 8 * count);
    lemma_sword_lines_rebuild(data, lines, 0);
    assert(12 + 8 * count <= data.len() <= u32::MAX);
    assert(sword_encode_model(dm) is Ok);
    let em = sword_encode_model(dm)->Ok_0;
    let dp = sword_lines_bin(lines, 0, 12 + 8 * count)->Some_0;
    assert((lines.len() as u32) == spec_u32_at(data, 8));
    assert(em.data == sword_magic() + seq![0u8, 0u8, 0u8, 0u8] + spec_u32_to_le_bytes(
        spec_u32_at(data, 8),
    ) + dp.0 + dp.1);
    lemma_sword_bytes_reassemble(data, dp.0, dp.1);
}

/// The regions of a canonical table concatenate back to the table.
proof fn lemma_sword_bytes_reassemble(data: Seq<u8>, dir: Seq<u8>, pay: Seq<u8>)
    requires
        data.len() >= 12,
        has_prefix(data, sword_magic()),
        data.subrange(4, 8) == seq![0u8, 0u8, 0u8, 0u8],
        12 + 8 * (spec_u32_at(data, 8) as int) <= data.len(),
        dir == data.subrange(12, 12 + 8 * (spec_u32_at(data, 8) as int)),
        pay == data.subrange(12 + 8 * (spec_u32_at(data, 8) as int), data.len() as int),
    ensures
        sword_magic() + seq![0u8, 0u8, 0u8, 0u8] + spec_u32_to_le_bytes(spec_u32_at(data, 8)) + dir
            + pay == data,
{
    vstd::bytes::lemma_auto_spec_u32_to_from_le_bytes();
    assert(spec_u32_to_le_bytes(spec_u32_at(data, 8)) == data.subrange(8, 12));
    assert(sword_magic() =~= data.subrange(0, 4));
    assert(sword_magic() + seq![0u8, 0u8, 0u8, 0u8] + spec_u32_to_le_bytes(spec_u32_at(data, 8))
        + dir + pay =~= data);
}

} // verus!
