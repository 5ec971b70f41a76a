use vstd::prelude::*;

use crate::textfmt::{dec_digits, dec_value, is_ascii_digit, lemma_dec_digits,
    lemma_dec_value_prefix_mono};

verus! {

// ---------------------------------------------------------------------------
// Whitespace
// ---------------------------------------------------------------------------
pub open spec fn is_json_ws(b: u8) -> bool {
    b == 0x20 || b == 0x09 || b == 0x0a || b == 0x0d
}

/// The first position at or after `i` holding a non-whitespace byte.
pub open spec fn skip_ws(s: Seq<u8>, i: int) -> int
    decreases s.len() - i,
{
    if 0 <= i < s.len() && is_json_ws(s[i]) {
        skip_ws(s, i + 1)
    } else {
        i
    }
}

pub proof fn lemma_skip_ws_bounds(s: Seq<u8>, i: int)
    requires
        0 <= i <= s.len(),
    ensures
        i <= skip_ws(s, i) <= s.len(),
        skip_ws(s, i) < s.len() ==> !is_json_ws(s[skip_ws(s, i)]),
    decreases s.len() - i,
{
    if i < s.len() && is_json_ws(s[i]) {
        lemma_skip_ws_bounds(s, i + 1);
    }
}

/// Skipping over a known whitespace run lands exactly at its end.
pub proof fn lemma_skip_ws_run(s: Seq<u8>, i: int, j: int)
    requires
        0 <= i <= j <= s.len(),
        forall|k: int| i <= k < j ==> is_json_ws(#[trigger] s[k]),
        j == s.len() || !is_json_ws(s[j]),
    ensures
        skip_ws(s, i) == j,
    decreases j - i,
{
    if i < j {
        lemma_skip_ws_run(s, i + 1, j);
    }
}

fn is_ws_byte(b: u8) -> (r: bool)
    ensures
        r == is_json_ws(b),
{
    b == 0x20 || b == 0x09 || b == 0x0a || b == 0x0d
}

/// Advance past whitespace.
pub fn ws(s: &[u8], i: usize) -> (r: usize)
    requires
        i <= s@.len(),
    ensures
        r == skip_ws(s@, i as int),
        i <= r <= s@.len(),
        r < s@.len() ==> !is_json_ws(s@[r as int]),
{
    let mut j = i;
    while j < s.len() && is_ws_byte(s[j])
        invariant
            i <= j <= s@.len(),
            skip_ws(s@, i as int) == skip_ws(s@, j as int),
        decreases s@.len() - j,
    {
        j += 1;
    }
    proof {
        assert(skip_ws(s@, j as int) == j);
    }
    j
}

// ---------------------------------------------------------------------------
// Fixed literals
// ---------------------------------------------------------------------------
/// `lit` occurs in `s` at position `i`.
pub open spec fn at_lit(s: Seq<u8>, i: int, lit: Seq<u8>) -> bool {
    0 <= i && i + lit.len() <= s.len() && s.subrange(i, i + lit.len()) == lit
}

/// Does `lit` occur at position `i` of `s`?
pub fn at_lit_exec(s: &[u8], i: usize, lit: &[u8]) -> (r: bool)
    requires
        i <= s@.len(),
    ensures
        r == at_lit(s@, i as int, lit@),
{
    if s.len() - i < lit.len() {
        return false;
    }
    let part = vstd::slice::slice_subrange(s, i, i + lit.len());
    crate::textfmt::eq_bytes(part, lit)
}

pub open spec fn lit_true() -> Seq<u8> {
    seq![0x74u8, 0x72u8, 0x75u8, 0x65u8]
}

pub open spec fn lit_false() -> Seq<u8> {
    seq![0x66u8, 0x61u8, 0x6cu8, 0x73u8, 0x65u8]
}

pub open spec fn lit_null() -> Seq<u8> {
    seq![0x6eu8, 0x75u8, 0x6cu8, 0x6cu8]
}

// ---------------------------------------------------------------------------
// Numbers
// ---------------------------------------------------------------------------
/// The first position at or after `i` holding a non-digit byte.
pub open spec fn digit_run_end(s: Seq<u8>, i: int) -> int
    decreases s.len() - i,
{
    if 0 <= i < s.len() && is_ascii_digit(s[i]) {
        digit_run_end(s, i + 1)
    } else {
        i
    }
}

pub proof fn lemma_digit_run_bounds(s: Seq<u8>, i: int)
    requires
        0 <= i <= s.len(),
    ensures
        i <= digit_run_end(s, i) <= s.len(),
        forall|k: int| i <= k < digit_run_end(s, i) ==> is_ascii_digit(#[trigger] s[k]),
        digit_run_end(s, i) < s.len() ==> !is_ascii_digit(s[digit_run_end(s, i)]),
    decreases s.len() - i,
{
    if i < s.len() && is_ascii_digit(s[i]) {
        lemma_digit_run_bounds(s, i + 1);
    }
}

pub proof fn lemma_digit_run(s: Seq<u8>, i: int, j: int)
    requires
        0 <= i <= j <= s.len(),
        forall|k: int| i <= k < j ==> is_ascii_digit(#[trigger] s[k]),
        j == s.len() || !is_ascii_digit(s[j]),
    ensures
        digit_run_end(s, i) == j,
    decreases j - i,
{
    if i < j {
        lemma_digit_run(s, i + 1, j);
    }
}

/// Parse a decimal number that must fit in a `u32`: the maximal digit run at
/// `i`, rejected when empty or too large.
pub open spec fn spec_parse_u32(s: Seq<u8>, i: int) -> Option<(int, u32)> {
    let j = digit_run_end(s, i);
    if j == i {
        None
    } else if dec_value(s.subrange(i, j)) > u32::MAX {
        None
    } else {
        Some((j, dec_value(s.subrange(i, j)) as u32))
    }
}

fn is_digit_byte(b: u8) -> (r: bool)
    ensures
        r == is_ascii_digit(b),
{
    0x30 <= b && b <= 0x39
}

/// Parse a decimal `u32` at position `i`.
pub fn parse_u32(s: &[u8], i: usize) -> (r: Option<(usize, u32)>)
    requires
        i <= s@.len(),
    ensures
        match r {
            Some((j, x)) => spec_parse_u32(s@, i as int) == Some((j as int, x)) && i < j
                <= s@.len(),
            None => spec_parse_u32(s@, i as int) is None,
        },
{
    proof {
        lemma_digit_run_bounds(s@, i as int);
    }
    let ghost j_end = digit_run_end(s@, i as int);
    let mut j = i;
    let mut acc: u64 = 0;
    while j < s.len() && is_digit_byte(s[j])
        invariant
            i <= j <= s@.len(),
            j <= j_end,
            j_end == digit_run_end(s@, i as int),
            i <= j_end <= s@.len(),
            forall|k: int| i <= k < j_end ==> is_ascii_digit(#[trigger] s@[k]),
            j_end < s@.len() ==> !is_ascii_digit(s@[j_end as int]),
            acc == dec_value(s@.subrange(i as int, j as int)),
            acc <= u32::MAX,
        decreases s@.len() - j,
    {
        let b = s[j];
        proof {
            if j == j_end {
                assert(is_ascii_digit(s@[j as int]));
                assert(false);
            }
        }
        let next: u64 = acc * 10 + ((b - 0x30) as u64);
        proof {
            let t = s@.subrange(i as int, j as int + 1);
            assert(t.drop_last() =~= s@.subrange(i as int, j as int));
            assert(t.last() == s@[j as int]);
            assert(next == dec_value(t));
        }
        if next > 0xffff_ffff {
            proof {
                let run = s@.subrange(i as int, j_end);
                assert(run.subrange(0, j + 1 - i) =~= s@.subrange(i as int, j as int + 1));
                lemma_dec_value_prefix_mono(run, j + 1 - i);
            }
            return None;
        }
        acc = next;
        j += 1;
    }
    proof {
        assert(j == j_end) by {
            if j < j_end {
                assert(is_ascii_digit(s@[j as int]));
            }
        }
    }
    if j == i {
        return None;
    }
    Some((j, acc as u32))
}

/// An emitted decimal parses back to the same value when followed by a
/// non-digit (or the end of input).
pub proof fn lemma_parse_u32_emit(s: Seq<u8>, i: int, x: u32)
    requires
        0 <= i,
        i + dec_digits(x as nat).len() <= s.len(),
        s.subrange(i, i + dec_digits(x as nat).len() as int) == dec_digits(x as nat),
        i + dec_digits(x as nat).len() == s.len() || !is_ascii_digit(
            s[i + dec_digits(x as nat).len()],
        ),
    ensures
        spec_parse_u32(s, i) == Some((i + dec_digits(x as nat).len() as int, x)),
{
    let d = dec_digits(x as nat);
    lemma_dec_digits(x as nat);
    let j = i + d.len() as int;
    assert forall|k: int| i <= k < j implies is_ascii_digit(#[trigger] s[k]) by {
        assert(s[k] == d[k - i]);
    }
    lemma_digit_run(s, i, j);
    assert(dec_value(s.subrange(i, j)) == x);
}

// ---------------------------------------------------------------------------
// Booleans and null
// ---------------------------------------------------------------------------
pub open spec fn spec_parse_bool(s: Seq<u8>, i: int) -> Option<(int, bool)> {
    if at_lit(s, i, lit_true()) {
        Some((i + 4, true))
    } else if at_lit(s, i, lit_false()) {
        Some((i + 5, false))
    } else {
        None
    }
}

pub fn parse_bool(s: &[u8], i: usize) -> (r: Option<(usize, bool)>)
    requires
        i <= s@.len(),
    ensures
        match r {
            Some((j, x)) => spec_parse_bool(s@, i as int) == Some((j as int, x)) && i < j
                <= s@.len(),
            None => spec_parse_bool(s@, i as int) is None,
        },
{
    let n = s.len();
    let t: [u8; 4] = [0x74, 0x72, 0x75, 0x65];
    let f: [u8; 5] = [0x66, 0x61, 0x6c, 0x73, 0x65];
    proof {
        assert(t@ =~= lit_true());
        assert(f@ =~= lit_false());
    }
    if at_lit_exec(s, i, t.as_slice()) {
        Some((i + 4, true))
    } else if at_lit_exec(s, i, f.as_slice()) {
        Some((i + 5, false))
    } else {
        None
    }
}

/// The bytes of `true`/`false`, as emitted.
pub open spec fn emit_bool(x: bool) -> Seq<u8> {
    if x {
        lit_true()
    } else {
        lit_false()
    }
}

pub proof fn lemma_parse_bool_emit(s: Seq<u8>, i: int, x: bool)
    requires
        0 <= i,
        i + emit_bool(x).len() <= s.len(),
        s.subrange(i, i + emit_bool(x).len() as int) == emit_bool(x),
    ensures
        spec_parse_bool(s, i) == Some((i + emit_bool(x).len() as int, x)),
{
    if x {
    } else {
        assert(!at_lit(s, i, lit_true())) by {
            if at_lit(s, i, lit_true()) {
                assert(s.subrange(i, i + 4)[0] == 0x74);
                assert(s.subrange(i, i + 5)[0] == 0x66);
                assert(s[i] == 0x74 && s[i] == 0x66);
            }
        }
    }
}

// ---------------------------------------------------------------------------
// Strings
// ---------------------------------------------------------------------------
/// How one content byte is written inside a JSON string.
pub open spec fn esc_byte(b: u8) -> Seq<u8> {
    if b == 0x22 {
        seq![0x5cu8, 0x22u8]
    } else if b == 0x5c {
        seq![0x5cu8, 0x5cu8]
    } else if b == 0x0a {
        seq![0x5cu8, 0x6eu8]
    } else if b == 0x0d {
        seq![0x5cu8, 0x72u8]
    } else if b == 0x09 {
        seq![0x5cu8, 0x74u8]
    } else if b < 0x20 {
        seq![
            0x5cu8,
            0x75u8,
            0x30u8,
            0x30u8,
            crate::textfmt::hex_digit_byte(b / 16),
            crate::textfmt::hex_digit_byte(b % 16),
        ]
    } else {
        seq![b]
    }
}

/// The escaped body of a JSON string holding the bytes `t`.
pub open spec fn emit_str_body(t: Seq<u8>) -> Seq<u8>
    decreases t.len(),
{
    if t.len() == 0 {
        Seq::empty()
    } else {
        esc_byte(t[0]) + emit_str_body(t.drop_first())
    }
}

/// A whole JSON string: quote, escaped body, quote.
pub open spec fn emit_string(t: Seq<u8>) -> Seq<u8> {
    seq![0x22u8] + emit_str_body(t) + seq![0x22u8]
}

/// A hex digit as JSON accepts it in `\u` escapes: either case.
pub open spec fn is_json_hex(b: u8) -> bool {
    (0x30 <= b <= 0x39) || (0x61 <= b <= 0x66) || (0x41 <= b <= 0x46)
}

pub open spec fn json_hex_val(b: u8) -> nat
    recommends
        is_json_hex(b),
{
    if 0x30 <= b <= 0x39 {
        (b - 0x30) as nat
    } else if 0x61 <= b <= 0x66 {
        ((b - 0x61) + 10) as nat
    } else {
        ((b - 0x41) + 10) as nat
    }
}

/// Parse the remainder of a JSON string after the opening quote: unescape
/// bytes up to and including the closing quote. Escaped code points above
/// `\u007f` are not accepted; the emitter never writes them.
pub open spec fn spec_parse_str_body(s: Seq<u8>, i: int) -> Option<(int, Seq<u8>)>
    decreases s.len() - i,
{
    if i < 0 || i >= s.len() {
        None
    } else if s[i] == 0x22 {
        Some((i + 1, Seq::empty()))
    } else if s[i] == 0x5c {
        if i + 2 > s.len() {
            None
        } else {
            let e = s[i + 1];
            if e == 0x22 || e == 0x5c || e == 0x2f {
                match spec_parse_str_body(s, i + 2) {
                    Some((j, t)) => Some((j, seq![e] + t)),
                    None => None,
                }
            } else if e == 0x6e {
                match spec_parse_str_body(s, i + 2) {
                    Some((j, t)) => Some((j, seq![0x0au8] + t)),
                    None => None,
                }
            } else if e == 0x72 {
                match spec_parse_str_body(s, i + 2) {
                    Some((j, t)) => Some((j, seq![0x0du8] + t)),
                    None => None,
                }
            } else if e == 0x74 {
                match spec_parse_str_body(s, i + 2) {
                    Some((j, t)) => Some((j, seq![0x09u8] + t)),
                    None => None,
                }
            } else if e == 0x62 {
                match spec_parse_str_body(s, i + 2) {
                    Some((j, t)) => Some((j, seq![0x08u8] + t)),
                    None => None,
                }
            } else if e == 0x66 {
                match spec_parse_str_body(s, i + 2) {
                    Some((j, t)) => Some((j, seq![0x0cu8] + t)),
                    None => None,
                }
            } else if e == 0x75 {
                if i + 6 > s.len() {
                    None
                } else if is_json_hex(s[i + 2]) && is_json_hex(s[i + 3]) && is_json_hex(s[i + 4])
                    && is_json_hex(s[i + 5]) {
                    let v = ((json_hex_val(s[i + 2]) * 16 + json_hex_val(s[i + 3])) * 16
                        + json_hex_val(s[i + 4])) * 16 + json_hex_val(s[i + 5]);
                    if v < 0x80 {
                        match spec_parse_str_body(s, i + 6) {
                            Some((j, t)) => Some((j, seq![v as u8] + t)),
                            None => None,
                        }
                    } else {
                        None
                    }
                } else {
                    None
                }
            } else {
                None
            }
        }
    } else {
        match spec_parse_str_body(s, i + 1) {
            Some((j, t)) => Some((j, seq![s[i]] + t)),
            None => None,
        }
    }
}

/// Parse a whole JSON string at `i`, opening quote included.
pub open spec fn spec_parse_string(s: Seq<u8>, i: int) -> Option<(int, Seq<u8>)> {
    if 0 <= i < s.len() && s[i] == 0x22 {
        spec_parse_str_body(s, i + 1)
    } else {
        None
    }
}

pub proof fn lemma_parse_str_body_bounds(s: Seq<u8>, i: int)
    ensures
        match spec_parse_str_body(s, i) {
            Some((j, _)) => i < j <= s.len(),
            None => true,
        },
    decreases s.len() - i,
{
    if 0 <= i < s.len() {
        if s[i] == 0x22 {
        } else if s[i] == 0x5c {
            if i + 2 <= s.len() {
                lemma_parse_str_body_bounds(s, i + 2);
            }
            if i + 6 <= s.len() {
                lemma_parse_str_body_bounds(s, i + 6);
            }
        } else {
            lemma_parse_str_body_bounds(s, i + 1);
        }
    }
}

/// Append the escaped form of one byte.
fn push_esc_byte(out: &mut Vec<u8>, b: u8)
    ensures
        final(out)@ == old(out)@ + esc_byte(b),
{
    if b == 0x22 {
        out.push(0x5c);
        out.push(0x22);
    } else if b == 0x5c {
        out.push(0x5c);
        out.push(0x5c);
    } else if b == 0x0a {
        out.push(0x5c);
        out.push(0x6e);
    } else if b == 0x0d {
        out.push(0x5c);
        out.push(0x72);
    } else if b == 0x09 {
        out.push(0x5c);
        out.push(0x74);
    } else if b < 0x20 {
        out.push(0x5c);
        out.push(0x75);
        out.push(0x30);
        out.push(0x30);
        let hi = b / 16;
        let lo = b % 16;
        let hb: u8 = if hi < 10 {
            0x30 + hi
        } else {
            0x61 + (hi - 10)
        };
        let lb: u8 = if lo < 10 {
            0x30 + lo
        } else {
            0x61 + (lo - 10)
        };
        out.push(hb);
        out.push(lb);
        proof {
            assert(hb == crate::textfmt::hex_digit_byte(b / 16));
            assert(lb == crate::textfmt::hex_digit_byte(b % 16));
        }
    } else {
        out.push(b);
    }
    proof {
        assert(out@ =~= old(out)@ + esc_byte(b));
    }
}

/// Append the JSON string holding the bytes `t`, quotes included.
pub fn push_json_string(out: &mut Vec<u8>, t: &[u8])
    ensures
        final(out)@ == old(out)@ + emit_string(t@),
{
    out.push(0x22);
    let mut k: usize = 0;
    while k < t.len()
        invariant
            0 <= k <= t@.len(),
            out@ == old(out)@ + seq![0x22u8] + emit_str_body(t@.subrange(0, k as int)),
        decreases t@.len() - k,
    {
        let ghost before = t@.subrange(0, k as int);
        push_esc_byte(out, t[k]);
        proof {
            let after = t@.subrange(0, k as int + 1);
            lemma_emit_str_body_snoc(t@, k as int);
            assert(out@ =~= old(out)@ + seq![0x22u8] + emit_str_body(after));
        }
        k += 1;
    }
    out.push(0x22);
    proof {
        assert(t@.subrange(0, t@.len() as int) =~= t@);
        assert(out@ =~= old(out)@ + emit_string(t@));
    }
}

/// Extending the plaintext by one byte extends the escaped body at the end.
proof fn lemma_emit_str_body_snoc(t: Seq<u8>, k: int)
    requires
        0 <= k < t.len(),
    ensures
        emit_str_body(t.subrange(0, k + 1)) == emit_str_body(t.subrange(0, k)) + esc_byte(t[k]),
    decreases k,
{
    if k == 0 {
        assert(t.subrange(0, 1).drop_first() =~= Seq::<u8>::empty());
        assert(t.subrange(0, 0) =~= Seq::<u8>::empty());
        assert(t.subrange(0, 1)[0] == t[0]);
        assert(emit_str_body(t.subrange(0, 1)) =~= emit_str_body(t.subrange(0, 0)) + esc_byte(
            t[0],
        ));
    } else {
        lemma_emit_str_body_snoc(t.drop_first(), k - 1);
        let a = t.subrange(0, k + 1);
        let b = t.subrange(0, k);
        assert(a[0] == t[0] && b[0] == t[0]);
        assert(a.drop_first() =~= t.drop_first().subrange(0, k));
        assert(b.drop_first() =~= t.drop_first().subrange(0, k - 1));
        assert(t.drop_first()[k - 1] == t[k]);
        assert(emit_str_body(a) == esc_byte(t[0]) + emit_str_body(t.drop_first().subrange(0, k)));
        assert(emit_str_body(b) == esc_byte(t[0]) + emit_str_body(
            t.drop_first().subrange(0, k - 1),
        ));
        assert(emit_str_body(a) =~= emit_str_body(b) + esc_byte(t[k]));
    }
}

/// Parse a JSON string at `i`; opening quote expected at `i`.
pub fn parse_string(s: &[u8], i: usize) -> (r: Option<(usize, Vec<u8>)>)
    requires
        i <= s@.len(),
    ensures
        match r {
            Some(p) => spec_parse_string(s@, i as int) == Some((p.0 as int, p.1@)) && i < p.0
                <= s@.len(),
            None => spec_parse_string(s@, i as int) is None,
        },
{
    if i >= s.len() || s[i] != 0x22 {
        return None;
    }
    let mut out: Vec<u8> = Vec::new();
    let mut j = i + 1;
    proof {
        if spec_parse_str_body(s@, i as int + 1) is Some {
            let t = spec_parse_str_body(s@, i as int + 1)->Some_0.1;
            assert(Seq::<u8>::empty() + t =~= t);
        }
    }
    loop
        invariant
            i + 1 <= j <= s@.len(),
            i < s@.len(),
            s@[i as int] == 0x22,
            match spec_parse_str_body(s@, i as int + 1) {
                Some((e, t)) => spec_parse_str_body(s@, j as int) matches Some((e2, t2)) && e2 == e
                    && t == out@ + t2,
                None => spec_parse_str_body(s@, j as int) is None,
            },
        decreases s@.len() - j,
    {
        if j >= s.len() {
            return None;
        }
        let ghost j0 = j as int;
        let ghost out0 = out@;
        let b = s[j];
        if b == 0x22 {
            proof {
                assert(spec_parse_str_body(s@, j as int) == Some(
                    (j as int + 1, Seq::<u8>::empty()),
                ));
                assert(out@ + Seq::<u8>::empty() =~= out@);
            }
            return Some((j + 1, out));
        }
        let step: usize;
        let c: u8;
        if b == 0x5c {
            if s.len() - j < 2 {
                return None;
            }
            let e = s[j + 1];
            if e == 0x22 || e == 0x5c || e == 0x2f {
                c = e;
                step = 2;
            } else if e == 0x6e {
                c = 0x0a;
                step = 2;
            } else if e == 0x72 {
                c = 0x0d;
                step = 2;
            } else if e == 0x74 {
                c = 0x09;
                step = 2;
            } else if e == 0x62 {
                c = 0x08;
                step = 2;
            } else if e == 0x66 {
                c = 0x0c;
                step = 2;
            } else if e == 0x75 {
                if s.len() - j < 6 {
                    return None;
                }
                let h0 = json_hex_digit(s[j + 2]);
                let h1 = json_hex_digit(s[j + 3]);
                let h2 = json_hex_digit(s[j + 4]);
                let h3 = json_hex_digit(s[j + 5]);
                match (h0, h1, h2, h3) {
                    (Some(a0), Some(a1), Some(a2), Some(a3)) => {
                        let v: u32 = ((a0 as u32 * 16 + a1 as u32) * 16 + a2 as u32) * 16
                            + a3 as u32;
                        if v >= 0x80 {
                            return None;
                        }
                        c = v as u8;
                        step = 6;
                    },
                    _ => {
                        return None;
                    },
                }
            } else {
                return None;
            }
        } else {
            c = b;
            step = 1;
        }
        out.push(c);
        j += step;
        proof {
            assert(spec_parse_str_body(s@, j0) == (match spec_parse_str_body(s@, j as int) {
                Some((e2, t2)) => Some((e2, seq![c] + t2)),
                None => None::<(int, Seq<u8>)>,
            }));
            if spec_parse_str_body(s@, j as int) is Some {
                let t2 = spec_parse_str_body(s@, j as int)->Some_0.1;
                assert(out@ + t2 =~= out0 + (seq![c] + t2));
            }
        }
    }
}

/// The bytes that the remainder of the string body parses to, when it parses.
pub open spec fn spec_parse_str_body_rest(s: Seq<u8>, i: int) -> Seq<u8> {
    match spec_parse_str_body(s, i) {
        Some((_, t)) => t,
        None => Seq::empty(),
    }
}

/// Map a hex digit byte (either case) to its value.
fn json_hex_digit(b: u8) -> (r: Option<u8>)
    ensures
        match r {
            Some(v) => is_json_hex(b) && v == json_hex_val(b) && v < 16,
            None => !is_json_hex(b),
        },
{
    if 0x30 <= b && b <= 0x39 {
        Some(b - 0x30)
    } else if 0x61 <= b && b <= 0x66 {
        Some(b - 0x61 + 10)
    } else if 0x41 <= b && b <= 0x46 {
        Some(b - 0x41 + 10)
    } else {
        None
    }
}

// ---------------------------------------------------------------------------
// Round trip for strings
// ---------------------------------------------------------------------------
/// A byte is written without escaping exactly when it is none of quote,
/// backslash, or a control byte.
pub open spec fn plain_json_byte(b: u8) -> bool {
    b != 0x22 && b != 0x5c && b >= 0x20
}

/// Parsing an emitted string body (followed by its closing quote and then
/// anything) recovers the plaintext.
pub proof fn lemma_parse_emit_str_body(s: Seq<u8>, i: int, t: Seq<u8>)
    requires
        0 <= i,
        i + emit_str_body(t).len() + 1 <= s.len(),
        s.subrange(i, i + emit_str_body(t).len() as int) == emit_str_body(t),
        s[i + emit_str_body(t).len()] == 0x22,
    ensures
        spec_parse_str_body(s, i) == Some((i + emit_str_body(t).len() + 1, t)),
    decreases t.len(),
{
    let body = emit_str_body(t);
    if t.len() == 0 {
        assert(s[i] == 0x22);
    } else {
        let b = t[0];
        let e = esc_byte(b);
        let rest_body = emit_str_body(t.drop_first());
        assert(body == e + rest_body);
        assert forall|k: int| 0 <= k < e.len() implies s[i + k] == e[k] by {
            assert(s.subrange(i, i + body.len() as int)[k] == body[k]);
        }
        let i2 = i + e.len() as int;
        assert(s.subrange(i2, i2 + rest_body.len() as int) =~= rest_body) by {
            assert forall|k: int| 0 <= k < rest_body.len() implies s.subrange(
                i2,
                i2 + rest_body.len() as int,
            )[k] == rest_body[k] by {
                assert(s.subrange(i, i + body.len() as int)[e.len() + k] == body[e.len() + k]);
            }
        }
        lemma_parse_emit_str_body(s, i2, t.drop_first());
        if b == 0x22 || b == 0x5c {
            assert(s[i + 0] == e[0] && s[i + 1] == e[1]);
            assert(s[i] == 0x5c && s[i + 1] == b);
            assert(seq![b] + t.drop_first() =~= t);
        } else if b == 0x0a || b == 0x0d || b == 0x09 {
            assert(s[i + 0] == e[0] && s[i + 1] == e[1]);
            assert(s[i] == 0x5c);
            assert(seq![b] + t.drop_first() =~= t);
        } else if b < 0x20 {
            assert(s[i + 0] == e[0] && s[i + 1] == e[1] && s[i + 2] == e[2] && s[i + 3] == e[3]
                && s[i + 4] == e[4] && s[i + 5] == e[5]);
            assert(s[i] == 0x5c && s[i + 1] == 0x75 && s[i + 2] == 0x30 && s[i + 3] == 0x30);
            let hb = crate::textfmt::hex_digit_byte(b / 16);
            let lb = crate::textfmt::hex_digit_byte(b % 16);
            assert(s[i + 4] == hb && s[i + 5] == lb);
            assert(b / 16 < 16 && b % 16 < 16);
            assert(is_json_hex(hb) && json_hex_val(hb) == b / 16);
            assert(is_json_hex(lb) && json_hex_val(lb) == b % 16);
            assert(is_json_hex(0x30u8) && json_hex_val(0x30u8) == 0);
            let v = ((json_hex_val(s[i + 2]) * 16 + json_hex_val(s[i + 3])) * 16 + json_hex_val(
                s[i + 4],
            )) * 16 + json_hex_val(s[i + 5]);
            assert(v == (b / 16) * 16 + (b % 16));
            assert((b / 16) * 16 + (b % 16) == b) by (nonlinear_arith);
            assert(seq![v as u8] + t.drop_first() =~= t);
        } else {
            assert(s[i + 0] == e[0]);
            assert(s[i] == b);
            assert(seq![b] + t.drop_first() =~= t);
        }
    }
}

/// Parsing an emitted string (with anything after it) recovers the plaintext.
pub proof fn lemma_parse_emit_string(s: Seq<u8>, i: int, t: Seq<u8>)
    requires
        0 <= i,
        i + emit_string(t).len() <= s.len(),
        s.subrange(i, i + emit_string(t).len() as int) == emit_string(t),
    ensures
        spec_parse_string(s, i) == Some((i + emit_string(t).len() as int, t)),
{
    let whole = emit_string(t);
    let body = emit_str_body(t);
    assert forall|k: int| 0 <= k < whole.len() implies s[i + k] == whole[k] by {
        assert(s.subrange(i, i + whole.len() as int)[k] == whole[k]);
    }
    assert(s[i + 0] == whole[0]);
    assert(s[i] == 0x22);
    assert(s.subrange(i + 1, i + 1 + body.len() as int) =~= body) by {
        assert forall|k: int| 0 <= k < body.len() implies s.subrange(
            i + 1,
            i + 1 + body.len() as int,
        )[k] == body[k] by {
            assert(whole[1 + k] == body[k]);
        }
    }
    assert(s[i + (1 + body.len() as int)] == whole[1 + body.len() as int]);
    assert(whole[1 + body.len() as int] == 0x22) by {
        assert((seq![0x22u8] + body + seq![0x22u8])[1 + body.len() as int] == 0x22);
    }
    assert(s[i + 1 + body.len()] == 0x22);
    lemma_parse_emit_str_body(s, i + 1, t);
}

// ---------------------------------------------------------------------------
// Concatenation of emission chunks
// ---------------------------------------------------------------------------
/// All chunks joined in order.
pub open spec fn concat_all(cs: Seq<Seq<u8>>) -> Seq<u8>
    decreases cs.len(),
{
    if cs.len() == 0 {
        Seq::empty()
    } else {
        cs[0] + concat_all(cs.drop_first())
    }
}

/// The byte offset of chunk `j` within the joined sequence.
pub open spec fn offset_of(cs: Seq<Seq<u8>>, j: int) -> int
    decreases j,
{
    if j <= 0 {
        0
    } else {
        offset_of(cs, j - 1) + cs[j - 1].len()
    }
}

pub proof fn lemma_concat_all_len(cs: Seq<Seq<u8>>)
    ensures
        concat_all(cs).len() == offset_of(cs, cs.len() as int),
    decreases cs.len(),
{
    if cs.len() > 0 {
        lemma_concat_all_len(cs.drop_first());
        lemma_offset_shift(cs, cs.len() as int);
    }
}

/// Offsets in `cs` and in its tail line up.
proof fn lemma_offset_shift(cs: Seq<Seq<u8>>, j: int)
    requires
        cs.len() > 0,
        1 <= j <= cs.len(),
    ensures
        offset_of(cs, j) == cs[0].len() + offset_of(cs.drop_first(), j - 1),
    decreases j,
{
    if j == 1 {
        assert(offset_of(cs, 0) == 0);
        assert(offset_of(cs.drop_first(), 0) == 0);
    } else {
        lemma_offset_shift(cs, j - 1);
        assert(cs.drop_first()[j - 2] == cs[j - 1]);
    }
}

/// Appending one more chunk extends the joined bytes at the end.
pub proof fn lemma_concat_all_snoc(cs: Seq<Seq<u8>>, j: int)
    requires
        0 <= j < cs.len(),
    ensures
        concat_all(cs.subrange(0, j + 1)) == concat_all(cs.subrange(0, j)) + cs[j],
    decreases j,
{
    if j == 0 {
        assert(cs.subrange(0, 1).drop_first() =~= Seq::<Seq<u8>>::empty());
        assert(cs.subrange(0, 1)[0] == cs[0]);
        assert(cs.subrange(0, 0).len() == 0);
        assert(concat_all(cs.subrange(0, 0)) =~= Seq::<u8>::empty());
        assert(concat_all(cs.subrange(0, 1)) == cs.subrange(0, 1)[0] + concat_all(
            cs.subrange(0, 1).drop_first(),
        ));
        assert(concat_all(cs.subrange(0, 1)) =~= concat_all(cs.subrange(0, 0)) + cs[0]);
    } else {
        lemma_concat_all_snoc(cs.drop_first(), j - 1);
        let a = cs.subrange(0, j + 1);
        let b = cs.subrange(0, j);
        assert(a[0] == cs[0] && b[0] == cs[0]);
        assert(a.drop_first() =~= cs.drop_first().subrange(0, j));
        assert(b.drop_first() =~= cs.drop_first().subrange(0, j - 1));
        assert(cs.drop_first()[j - 1] == cs[j]);
        assert(concat_all(a) == cs[0] + concat_all(cs.drop_first().subrange(0, j)));
        assert(concat_all(b) == cs[0] + concat_all(cs.drop_first().subrange(0, j - 1)));
        assert(concat_all(a) =~= concat_all(b) + cs[j]);
    }
}

/// Within a region of `s` holding the joined chunks, each chunk stands at its
/// offset.
pub proof fn lemma_concat_all_chunk(s: Seq<u8>, i: int, cs: Seq<Seq<u8>>, j: int)
    requires
        0 <= i,
        i + concat_all(cs).len() <= s.len(),
        s.subrange(i, i + concat_all(cs).len() as int) == concat_all(cs),
        0 <= j < cs.len(),
    ensures
        0 <= offset_of(cs, j),
        offset_of(cs, j) + cs[j].len() <= concat_all(cs).len(),
        s.subrange(i + offset_of(cs, j), i + offset_of(cs, j) + cs[j].len() as int) == cs[j],
    decreases j,
{
    let whole = concat_all(cs);
    lemma_concat_all_len(cs);
    lemma_offsets_bounds(cs, j + 1);
    if j == 0 {
        assert(whole == cs[0] + concat_all(cs.drop_first()));
        assert forall|k: int| 0 <= k < cs[0].len() implies s.subrange(
            i,
            i + cs[0].len() as int,
        )[k] == cs[0][k] by {
            assert(s.subrange(i, i + whole.len() as int)[k] == whole[k]);
            assert(whole[k] == cs[0][k]);
        }
        assert(s.subrange(i, i + cs[0].len() as int) =~= cs[0]);
    } else {
        let rest = cs.drop_first();
        assert(whole == cs[0] + concat_all(rest));
        assert forall|k: int| 0 <= k < concat_all(rest).len() implies s.subrange(
            i + cs[0].len() as int,
            i + cs[0].len() + concat_all(rest).len() as int,
        )[k] == concat_all(rest)[k] by {
            assert(s.subrange(i, i + whole.len() as int)[cs[0].len() + k] == whole[cs[0].len()
                + k]);
            assert(whole[cs[0].len() + k] == concat_all(rest)[k]);
        }
        assert(s.subrange(i + cs[0].len() as int, i + cs[0].len() + concat_all(rest).len() as int)
            =~= concat_all(rest));
        lemma_concat_all_chunk(s, i + cs[0].len() as int, rest, j - 1);
        lemma_offset_shift(cs, j);
        assert(rest[j - 1] == cs[j]);
    }
}

/// Chunk offsets are monotone and bounded by the total length.
pub proof fn lemma_offsets_bounds(cs: Seq<Seq<u8>>, j: int)
    requires
        0 <= j <= cs.len(),
    ensures
        0 <= offset_of(cs, j) <= concat_all(cs).len(),
        forall|j2: int| 0 <= j2 <= j ==> #[trigger] offset_of(cs, j2) <= offset_of(cs, j),
    decreases j,
{
    lemma_concat_all_len(cs);
    if j > 0 {
        lemma_offsets_bounds(cs, j - 1);
        lemma_offsets_mono(cs, j, cs.len() as int);
    }
}

proof fn lemma_offsets_mono(cs: Seq<Seq<u8>>, a: int, b: int)
    requires
        0 <= a <= b <= cs.len(),
    ensures
        offset_of(cs, a) <= offset_of(cs, b),
    decreases b - a,
{
    if a < b {
        lemma_offsets_mono(cs, a + 1, b);
    }
}

// ---------------------------------------------------------------------------
// Manifest scaffolding chunks
// ---------------------------------------------------------------------------
/// Two spaces of indentation.
pub open spec fn ind2() -> Seq<u8> {
    seq![0x20u8, 0x20u8]
}

/// Four spaces of indentation.
pub open spec fn ind4() -> Seq<u8> {
    seq![0x20u8, 0x20u8, 0x20u8, 0x20u8]
}

pub open spec fn nl() -> Seq<u8> {
    seq![0x0au8]
}

pub open spec fn comma_nl() -> Seq<u8> {
    seq![0x2cu8, 0x0au8]
}

pub open spec fn colon_sp() -> Seq<u8> {
    seq![0x3au8, 0x20u8]
}

/// `"identifier"` with quotes.
pub open spec fn kq_identifier() -> Seq<u8> {
    seq![
        0x22u8,
        0x69u8,
        0x64u8,
        0x65u8,
        0x6eu8,
        0x74u8,
        0x69u8,
        0x66u8,
        0x69u8,
        0x65u8,
        0x72u8,
        0x22u8,
    ]
}

/// `"filename"` with quotes.
pub open spec fn kq_filename() -> Seq<u8> {
    seq![0x22u8, 0x66u8, 0x69u8, 0x6cu8, 0x65u8, 0x6eu8, 0x61u8, 0x6du8, 0x65u8, 0x22u8]
}

/// `"compressed"` with quotes.
pub open spec fn kq_compressed() -> Seq<u8> {
    seq![
        0x22u8,
        0x63u8,
        0x6fu8,
        0x6du8,
        0x70u8,
        0x72u8,
        0x65u8,
        0x73u8,
        0x73u8,
        0x65u8,
        0x64u8,
        0x22u8,
    ]
}

/// `"original_data"` with quotes.
pub open spec fn kq_original_data() -> Seq<u8> {
    seq![
        0x22u8,
        0x6fu8,
        0x72u8,
        0x69u8,
        0x67u8,
        0x69u8,
        0x6eu8,
        0x61u8,
        0x6cu8,
        0x5fu8,
        0x64u8,
        0x61u8,
        0x74u8,
        0x61u8,
        0x22u8,
    ]
}

/// `"offset"` with quotes.
pub open spec fn kq_offset() -> Seq<u8> {
    seq![0x22u8, 0x6fu8, 0x66u8, 0x66u8, 0x73u8, 0x65u8, 0x74u8, 0x22u8]
}

/// `"text"` with quotes.
pub open spec fn kq_text() -> Seq<u8> {
    seq![0x22u8, 0x74u8, 0x65u8, 0x78u8, 0x74u8, 0x22u8]
}

// ---------------------------------------------------------------------------
// Field combinators: `"key": value` with arbitrary whitespace around tokens
// ---------------------------------------------------------------------------
/// Position of the value after `"key" :`, starting at `i` (whitespace
/// allowed before the key and around the colon).
pub open spec fn after_key(s: Seq<u8>, i: int, key: Seq<u8>) -> Option<int> {
    let i1 = skip_ws(s, i);
    if at_lit(s, i1, key) {
        let i2 = skip_ws(s, i1 + key.len());
        if i2 < s.len() && s[i2] == 0x3a {
            Some(skip_ws(s, i2 + 1))
        } else {
            None
        }
    } else {
        None
    }
}

/// Skip whitespace and demand one structural byte.
pub open spec fn expect_ws_byte(s: Seq<u8>, i: int, b: u8) -> Option<int> {
    let j = skip_ws(s, i);
    if j < s.len() && s[j] == b {
        Some(j + 1)
    } else {
        None
    }
}

pub open spec fn parse_u32_field(s: Seq<u8>, i: int, key: Seq<u8>) -> Option<(int, u32)> {
    match after_key(s, i, key) {
        Some(j) => spec_parse_u32(s, j),
        None => None,
    }
}

pub open spec fn parse_bool_field(s: Seq<u8>, i: int, key: Seq<u8>) -> Option<(int, bool)> {
    match after_key(s, i, key) {
        Some(j) => spec_parse_bool(s, j),
        None => None,
    }
}

pub open spec fn parse_string_field(s: Seq<u8>, i: int, key: Seq<u8>) -> Option<(int, Seq<u8>)> {
    match after_key(s, i, key) {
        Some(j) => spec_parse_string(s, j),
        None => None,
    }
}

/// A field holding either `null` or a string.
pub open spec fn parse_opt_string_field(s: Seq<u8>, i: int, key: Seq<u8>) -> Option<
    (int, Option<Seq<u8>>),
> {
    match after_key(s, i, key) {
        Some(j) => {
            if at_lit(s, j, lit_null()) {
                Some((j + 4, None))
            } else {
                match spec_parse_string(s, j) {
                    Some((j2, t)) => Some((j2, Some(t))),
                    None => None,
                }
            }
        },
        None => None,
    }
}

/// Exec mirror of `after_key`.
pub fn after_key_exec(s: &[u8], i: usize, key: &[u8]) -> (r: Option<usize>)
    requires
        i <= s@.len(),
    ensures
        match r {
            Some(j) => after_key(s@, i as int, key@) == Some(j as int) && i <= j <= s@.len(),
            None => after_key(s@, i as int, key@) is None,
        },
{
    let n = s.len();
    let i1 = ws(s, i);
    if at_lit_exec(s, i1, key) {
        let i2 = ws(s, i1 + key.len());
        if i2 < s.len() {
            let b = s[i2];
            if b == 0x3a {
                return Some(ws(s, i2 + 1));
            }
        }
        None
    } else {
        None
    }
}

/// Exec mirror of `expect_ws_byte`.
pub fn expect_ws_byte_exec(s: &[u8], i: usize, b: u8) -> (r: Option<usize>)
    requires
        i <= s@.len(),
    ensures
        match r {
            Some(j) => expect_ws_byte(s@, i as int, b) == Some(j as int) && i < j <= s@.len(),
            None => expect_ws_byte(s@, i as int, b) is None,
        },
{
    let j = ws(s, i);
    if j < s.len() {
        if s[j] == b {
            return Some(j + 1);
        }
    }
    None
}

pub fn parse_u32_field_exec(s: &[u8], i: usize, key: &[u8]) -> (r: Option<(usize, u32)>)
    requires
        i <= s@.len(),
    ensures
        match r {
            Some((j, x)) => parse_u32_field(s@, i as int, key@) == Some((j as int, x)) && i <= j
                <= s@.len(),
            None => parse_u32_field(s@, i as int, key@) is None,
        },
{
    match after_key_exec(s, i, key) {
        Some(j) => parse_u32(s, j),
        None => None,
    }
}

pub fn parse_bool_field_exec(s: &[u8], i: usize, key: &[u8]) -> (r: Option<(usize, bool)>)
    requires
        i <= s@.len(),
    ensures
        match r {
            Some((j, x)) => parse_bool_field(s@, i as int, key@) == Some((j as int, x)) && i <= j
                <= s@.len(),
            None => parse_bool_field(s@, i as int, key@) is None,
        },
{
    match after_key_exec(s, i, key) {
        Some(j) => parse_bool(s, j),
        None => None,
    }
}

pub fn parse_string_field_exec(s: &[u8], i: usize, key: &[u8]) -> (r: Option<(usize, Vec<u8>)>)
    requires
        i <= s@.len(),
    ensures
        match r {
            Some(p) => parse_string_field(s@, i as int, key@) == Some((p.0 as int, p.1@)) && i
                <= p.0 <= s@.len(),
            None => parse_string_field(s@, i as int, key@) is None,
        },
{
    match after_key_exec(s, i, key) {
        Some(j) => parse_string(s, j),
        None => None,
    }
}

pub fn parse_opt_string_field_exec(s: &[u8], i: usize, key: &[u8]) -> (r: Option<
    (usize, Option<Vec<u8>>),
>)
    requires
        i <= s@.len(),
    ensures
        match r {
            Some(p) => parse_opt_string_field(s@, i as int, key@) matches Some(q) && q.0 == p.0
                && (match p.1 {
                Some(v) => q.1 == Some(v@),
                None => q.1 is None,
            }) && i <= p.0 <= s@.len(),
            None => parse_opt_string_field(s@, i as int, key@) is None,
        },
{
    let n = s.len();
    match after_key_exec(s, i, key) {
        Some(j) => {
            let nul: [u8; 4] = [0x6e, 0x75, 0x6c, 0x6c];
            proof {
                assert(nul@ =~= lit_null());
            }
            if at_lit_exec(s, j, nul.as_slice()) {
                Some((j + 4, None))
            } else {
                match parse_string(s, j) {
                    Some((j2, t)) => Some((j2, Some(t))),
                    None => None,
                }
            }
        },
        None => None,
    }
}


// ---------------------------------------------------------------------------
// Round-trip helpers for emitted fields
// ---------------------------------------------------------------------------
/// One byte of a chunk known to stand at position `p`.
pub proof fn lemma_chunk_byte_at(s: Seq<u8>, p: int, c: Seq<u8>, k: int)
    requires
        0 <= p,
        p + c.len() <= s.len(),
        s.subrange(p, p + c.len() as int) == c,
        0 <= k < c.len(),
    ensures
        s[p + k] == c[k],
{
    assert(s.subrange(p, p + c.len() as int)[k] == c[k]);
}

/// A chunk of known whitespace bytes makes a whitespace run.
pub proof fn lemma_ws_chunk(s: Seq<u8>, p: int, c: Seq<u8>)
    requires
        0 <= p,
        p + c.len() <= s.len(),
        s.subrange(p, p + c.len() as int) == c,
        forall|k: int| 0 <= k < c.len() ==> is_json_ws(#[trigger] c[k]),
    ensures
        forall|k: int| p <= k < p + c.len() ==> is_json_ws(#[trigger] s[k]),
{
    assert forall|k: int| p <= k < p + c.len() implies is_json_ws(s[k]) by {
        assert(s.subrange(p, p + c.len() as int)[k - p] == c[k - p]);
    }
}

pub proof fn lemma_ws_ind2(c: Seq<u8>)
    requires
        c == ind2(),
    ensures
        forall|k: int| 0 <= k < c.len() ==> is_json_ws(#[trigger] c[k]),
{
    assert forall|k: int| 0 <= k < c.len() implies is_json_ws(c[k]) by {
        if k == 0 {
            assert(c[0] == 0x20);
        } else {
            assert(c[1] == 0x20);
        }
    }
}

pub proof fn lemma_ws_ind4(c: Seq<u8>)
    requires
        c == ind4(),
    ensures
        forall|k: int| 0 <= k < c.len() ==> is_json_ws(#[trigger] c[k]),
{
    assert forall|k: int| 0 <= k < c.len() implies is_json_ws(c[k]) by {
        if k == 0 {
            assert(c[0] == 0x20);
        } else if k == 1 {
            assert(c[1] == 0x20);
        } else if k == 2 {
            assert(c[2] == 0x20);
        } else {
            assert(c[3] == 0x20);
        }
    }
}

pub proof fn lemma_ws_nl(c: Seq<u8>)
    requires
        c == nl(),
    ensures
        forall|k: int| 0 <= k < c.len() ==> is_json_ws(#[trigger] c[k]),
{
    assert forall|k: int| 0 <= k < c.len() implies is_json_ws(c[k]) by {
        assert(c[0] == 0x0a);
    }
}

/// After leading whitespace, a key at `a`, a colon and one space, `after_key`
/// lands exactly on the value.
pub proof fn lemma_after_key_at(s: Seq<u8>, i: int, a: int, key: Seq<u8>)
    requires
        0 <= i <= a,
        a + key.len() + 2 <= s.len(),
        forall|k: int| i <= k < a ==> is_json_ws(#[trigger] s[k]),
        s.subrange(a, a + key.len() as int) == key,
        key.len() > 0,
        !is_json_ws(key[0]),
        s[a + key.len()] == 0x3a,
        s[a + key.len() + 1] == 0x20,
        a + key.len() + 2 < s.len() ==> !is_json_ws(s[a + key.len() + 2]),
    ensures
        after_key(s, i, key) == Some(a + key.len() + 2),
{
    assert(s.subrange(a, a + key.len() as int)[0] == key[0]);
    lemma_skip_ws_run(s, i, a);
    assert(at_lit(s, a, key));
    assert(!is_json_ws(s[a + key.len()]));
    lemma_skip_ws_run(s, a + key.len(), a + key.len());
    lemma_skip_ws_run(s, a + key.len() + 1, a + key.len() + 2);
}

/// A `"key": 123` field, emitted, parses back to its number.
pub proof fn lemma_u32_field_at(s: Seq<u8>, i: int, a: int, key: Seq<u8>, x: u32)
    requires
        0 <= i <= a,
        a + key.len() + 2 + crate::textfmt::dec_digits(x as nat).len() <= s.len(),
        forall|k: int| i <= k < a ==> is_json_ws(#[trigger] s[k]),
        s.subrange(a, a + key.len() as int) == key,
        key.len() > 0,
        !is_json_ws(key[0]),
        s[a + key.len()] == 0x3a,
        s[a + key.len() + 1] == 0x20,
        s.subrange(
            a + key.len() + 2,
            a + key.len() + 2 + crate::textfmt::dec_digits(x as nat).len() as int,
        ) == crate::textfmt::dec_digits(x as nat),
        a + key.len() + 2 + crate::textfmt::dec_digits(x as nat).len() == s.len() || !is_ascii_digit(
            s[a + key.len() + 2 + crate::textfmt::dec_digits(x as nat).len()],
        ),
    ensures
        parse_u32_field(s, i, key) == Some(
            (a + key.len() + 2 + crate::textfmt::dec_digits(x as nat).len() as int, x),
        ),
{
    let v = a + key.len() + 2;
    let d = crate::textfmt::dec_digits(x as nat);
    crate::textfmt::lemma_dec_digits(x as nat);
    assert(s.subrange(v, v + d.len() as int)[0] == d[0]);
    assert(is_ascii_digit(s[v + 0]));
    assert(!is_json_ws(s[v]));
    lemma_after_key_at(s, i, a, key);
    lemma_parse_u32_emit(s, v, x);
}

/// A `"key": true/false` field, emitted, parses back to its boolean.
pub proof fn lemma_bool_field_at(s: Seq<u8>, i: int, a: int, key: Seq<u8>, x: bool)
    requires
        0 <= i <= a,
        a + key.len() + 2 + emit_bool(x).len() <= s.len(),
        forall|k: int| i <= k < a ==> is_json_ws(#[trigger] s[k]),
        s.subrange(a, a + key.len() as int) == key,
        key.len() > 0,
        !is_json_ws(key[0]),
        s[a + key.len()] == 0x3a,
        s[a + key.len() + 1] == 0x20,
        s.subrange(a + key.len() + 2, a + key.len() + 2 + emit_bool(x).len() as int) == emit_bool(
            x,
        ),
    ensures
        parse_bool_field(s, i, key) == Some((a + key.len() + 2 + emit_bool(x).len() as int, x)),
{
    let v = a + key.len() + 2;
    let e = emit_bool(x);
    assert(s.subrange(v, v + e.len() as int)[0] == e[0]);
    assert(!is_json_ws(s[v]));
    lemma_after_key_at(s, i, a, key);
    lemma_parse_bool_emit(s, v, x);
}

/// A `"key": "..."` field, emitted, parses back to its plaintext.
pub proof fn lemma_string_field_at(s: Seq<u8>, i: int, a: int, key: Seq<u8>, t: Seq<u8>)
    requires
        0 <= i <= a,
        a + key.len() + 2 + emit_string(t).len() <= s.len(),
        forall|k: int| i <= k < a ==> is_json_ws(#[trigger] s[k]),
        s.subrange(a, a + key.len() as int) == key,
        key.len() > 0,
        !is_json_ws(key[0]),
        s[a + key.len()] == 0x3a,
        s[a + key.len() + 1] == 0x20,
        s.subrange(a + key.len() + 2, a + key.len() + 2 + emit_string(t).len() as int)
            == emit_string(t),
    ensures
        parse_string_field(s, i, key) == Some((a + key.len() + 2 + emit_string(t).len() as int, t)),
{
    let v = a + key.len() + 2;
    let e = emit_string(t);
    assert(s.subrange(v, v + e.len() as int)[0] == e[0]);
    assert(e[0] == 0x22);
    assert(!is_json_ws(s[v]));
    lemma_after_key_at(s, i, a, key);
    lemma_parse_emit_string(s, v, t);
}

/// The emitted bytes of an optional string value: `null` or a JSON string.
pub open spec fn emit_opt_string(o: Option<Seq<u8>>) -> Seq<u8> {
    match o {
        Some(t) => emit_string(t),
        None => lit_null(),
    }
}

/// A `"key": null-or-string` field, emitted, parses back.
pub proof fn lemma_opt_string_field_at(s: Seq<u8>, i: int, a: int, key: Seq<u8>, o: Option<Seq<u8>>)
    requires
        0 <= i <= a,
        a + key.len() + 2 + emit_opt_string(o).len() <= s.len(),
        forall|k: int| i <= k < a ==> is_json_ws(#[trigger] s[k]),
        s.subrange(a, a + key.len() as int) == key,
        key.len() > 0,
        !is_json_ws(key[0]),
        s[a + key.len()] == 0x3a,
        s[a + key.len() + 1] == 0x20,
        s.subrange(a + key.len() + 2, a + key.len() + 2 + emit_opt_string(o).len() as int)
            == emit_opt_string(o),
    ensures
        parse_opt_string_field(s, i, key) == Some(
            (a + key.len() + 2 + emit_opt_string(o).len() as int, o),
        ),
{
    let v = a + key.len() + 2;
    let e = emit_opt_string(o);
    assert(s.subrange(v, v + e.len() as int)[0] == e[0]);
    match o {
        Some(t) => {
            assert(e[0] == 0x22);
            assert(!is_json_ws(s[v]));
            lemma_after_key_at(s, i, a, key);
            assert(!at_lit(s, v, lit_null())) by {
                if at_lit(s, v, lit_null()) {
                    assert(s.subrange(v, v + 4)[0] == 0x6e);
                }
            }
            lemma_parse_emit_string(s, v, t);
        },
        None => {
            assert(e[0] == 0x6e);
            assert(!is_json_ws(s[v]));
            lemma_after_key_at(s, i, a, key);
            assert(at_lit(s, v, lit_null()));
        },
    }
}


/// Append every chunk of `chunks` to `out`, in order.
pub fn push_concat(out: &mut Vec<u8>, chunks: &Vec<Vec<u8>>)
    ensures
        final(out)@ == old(out)@ + concat_all(crate::resource::parts_view(*chunks)),
{
    let ghost cs = crate::resource::parts_view(*chunks);
    proof {
        assert(concat_all(cs.subrange(0, 0)) =~= Seq::<u8>::empty());
        assert(out@ + concat_all(cs.subrange(0, 0)) =~= out@);
    }
    let mut j: usize = 0;
    while j < chunks.len()
        invariant
            0 <= j <= chunks@.len(),
            cs == crate::resource::parts_view(*chunks),
            out@ == old(out)@ + concat_all(cs.subrange(0, j as int)),
        decreases chunks@.len() - j,
    {
        crate::textfmt::push_bytes(out, chunks[j].as_slice());
        proof {
            lemma_concat_all_snoc(cs, j as int);
            assert(cs[j as int] == chunks@[j as int]@);
        }
        j += 1;
    }
    proof {
        assert(cs.subrange(0, cs.len() as int) =~= cs);
    }
}

} // verus!
