use vstd::prelude::*;

verus! {

// ---------------------------------------------------------------------------
// Generic byte-sequence helpers
// ---------------------------------------------------------------------------
/// `p` is a prefix of `s`.
pub open spec fn has_prefix(s: Seq<u8>, p: Seq<u8>) -> bool {
    p.len() <= s.len() && s.subrange(0, p.len() as int) == p
}

/// Compare two byte slices for equality.
pub fn eq_bytes(a: &[u8], b: &[u8]) -> (r: bool)
    ensures
        r == (a@ == b@),
{
    if a.len() != b.len() {
        return false;
    }
    let mut i: usize = 0;
    while i < a.len()
        invariant
            0 <= i <= a@.len(),
            a@.len() == b@.len(),
            forall|j: int| 0 <= j < i ==> a@[j] == b@[j],
        decreases a@.len() - i,
    {
        if a[i] != b[i] {
            return false;
        }
        i += 1;
    }
    proof {
        assert(a@ =~= b@);
    }
    true
}

/// Does `data` start with `prefix`?
pub fn starts_with_bytes(data: &[u8], prefix: &[u8]) -> (r: bool)
    ensures
        r == has_prefix(data@, prefix@),
{
    if data.len() < prefix.len() {
        return false;
    }
    let head = vstd::slice::slice_subrange(data, 0, prefix.len());
    eq_bytes(head, prefix)
}

/// Append every byte of `s` to `out`.
pub fn push_bytes(out: &mut Vec<u8>, s: &[u8])
    ensures
        final(out)@ == old(out)@ + s@,
{
    let mut i: usize = 0;
    while i < s.len()
        invariant
            0 <= i <= s@.len(),
            out@ == old(out)@ + s@.subrange(0, i as int),
        decreases s@.len() - i,
    {
        out.push(s[i]);
        proof {
            assert(old(out)@ + s@.subrange(0, i as int + 1) =~= (old(out)@ + s@.subrange(
                0,
                i as int,
            )).push(s@[i as int]));
        }
        i += 1;
    }
    proof {
        assert(s@.subrange(0, s@.len() as int) =~= s@);
    }
}

/// Read a little-endian `u32` at byte offset `pos`.
pub fn read_u32_le(data: &[u8], pos: usize) -> (x: u32)
    requires
        pos + 4 <= data@.len(),
    ensures
        x == vstd::bytes::spec_u32_from_le_bytes(data@.subrange(pos as int, pos as int + 4)),
{
    let n = data.len();
    let quad = vstd::slice::slice_subrange(data, pos, pos + 4);
    vstd::bytes::u32_from_le_bytes(quad)
}

/// Read a little-endian `u16` at byte offset `pos`.
pub fn read_u16_le(data: &[u8], pos: usize) -> (x: u16)
    requires
        pos + 2 <= data@.len(),
    ensures
        x == vstd::bytes::spec_u16_from_le_bytes(data@.subrange(pos as int, pos as int + 2)),
{
    let n = data.len();
    let pair = vstd::slice::slice_subrange(data, pos, pos + 2);
    vstd::bytes::u16_from_le_bytes(pair)
}

/// Append a `u32` in little-endian order.
pub fn push_u32_le(out: &mut Vec<u8>, x: u32)
    ensures
        final(out)@ == old(out)@ + vstd::bytes::spec_u32_to_le_bytes(x),
{
    let mut quad = vstd::bytes::u32_to_le_bytes(x);
    out.append(&mut quad);
}

// ---------------------------------------------------------------------------
// Decimal rendering of unsigned integers
// ---------------------------------------------------------------------------
pub open spec fn is_ascii_digit(b: u8) -> bool {
    0x30 <= b <= 0x39
}

/// The shortest decimal rendering of `x` in ASCII digits.
pub open spec fn dec_digits(x: nat) -> Seq<u8>
    decreases x,
{
    if x < 10 {
        seq![(0x30 + x) as u8]
    } else {
        dec_digits(x / 10).push((0x30 + x % 10) as u8)
    }
}

/// The value of a string of ASCII digits.
pub open spec fn dec_value(s: Seq<u8>) -> nat
    decreases s.len(),
{
    if s.len() == 0 {
        0
    } else {
        dec_value(s.drop_last()) * 10 + ((s.last() - 0x30) as nat)
    }
}

pub proof fn lemma_dec_digits(x: nat)
    ensures
        dec_digits(x).len() >= 1,
        forall|i: int| 0 <= i < dec_digits(x).len() ==> is_ascii_digit(#[trigger] dec_digits(x)[i]),
        dec_value(dec_digits(x)) == x,
    decreases x,
{
    if x < 10 {
        assert(dec_digits(x) =~= seq![(0x30 + x) as u8]);
        assert(dec_value(dec_digits(x)) == dec_value(dec_digits(x).drop_last()) * 10 + ((dec_digits(
            x,
        ).last() - 0x30) as nat));
        assert(dec_digits(x).drop_last() =~= Seq::<u8>::empty());
    } else {
        lemma_dec_digits(x / 10);
        let s = dec_digits(x / 10).push((0x30 + x % 10) as u8);
        assert(s.drop_last() =~= dec_digits(x / 10));
        assert(dec_value(s) == dec_value(dec_digits(x / 10)) * 10 + (x % 10));
        assert((x / 10) * 10 + x % 10 == x) by (nonlinear_arith);
    }
}

/// Every extension of a digit string on the right can only grow its value.
pub proof fn lemma_dec_value_prefix_mono(s: Seq<u8>, i: int)
    requires
        0 <= i <= s.len(),
    ensures
        dec_value(s.subrange(0, i)) <= dec_value(s),
    decreases s.len() - i,
{
    if i == s.len() {
        assert(s.subrange(0, i) =~= s);
    } else {
        let t = s.subrange(0, i + 1);
        assert(t.drop_last() =~= s.subrange(0, i));
        assert(dec_value(t) == dec_value(s.subrange(0, i)) * 10 + ((t.last() - 0x30) as nat));
        assert(dec_value(s.subrange(0, i)) <= dec_value(s.subrange(0, i)) * 10) by (nonlinear_arith);
        lemma_dec_value_prefix_mono(s, i + 1);
    }
}

/// Render `x` as ASCII decimal digits.
pub fn u32_to_dec(x: u32) -> (r: Vec<u8>)
    ensures
        r@ == dec_digits(x as nat),
    decreases x,
{
    if x < 10 {
        let mut v: Vec<u8> = Vec::new();
        v.push(0x30 + (x as u8));
        proof {
            assert(v@ =~= dec_digits(x as nat));
        }
        v
    } else {
        let mut v = u32_to_dec(x / 10);
        v.push(0x30 + ((x % 10) as u8));
        v
    }
}

// ---------------------------------------------------------------------------
// Lowercase hexadecimal rendering and parsing of identifiers
// ---------------------------------------------------------------------------
pub open spec fn is_lower_hex_digit(b: u8) -> bool {
    (0x30 <= b <= 0x39) || (0x61 <= b <= 0x66)
}

pub open spec fn hex_digit_value(b: u8) -> nat
    recommends
        is_lower_hex_digit(b),
{
    if b <= 0x39 {
        (b - 0x30) as nat
    } else {
        ((b - 0x61) + 10) as nat
    }
}

/// The ASCII byte for the hex digit `n`, lowercase.
pub open spec fn hex_digit_byte(n: u8) -> u8
    recommends
        n < 16,
{
    if n < 10 {
        (0x30 + n) as u8
    } else {
        (0x61 + (n - 10)) as u8
    }
}

/// The value of a string of lowercase hex digits.
pub open spec fn hex_value(s: Seq<u8>) -> nat
    decreases s.len(),
{
    if s.len() == 0 {
        0
    } else {
        hex_value(s.drop_last()) * 16 + hex_digit_value(s.last())
    }
}

/// The eight-digit, zero-padded, lowercase hex rendering of `x`.
pub open spec fn hex8(x: u32) -> Seq<u8> {
    Seq::new(8, |i: int| hex_digit_byte(((x >> (((7 - i) * 4) as u32)) & 0xf) as u8))
}

/// Identifier parsing: lowercase hex digits only, value must fit in `u32`.
pub open spec fn spec_parse_hex_u32(s: Seq<u8>) -> Option<u32> {
    if s.len() >= 1 && (forall|i: int| 0 <= i < s.len() ==> is_lower_hex_digit(#[trigger] s[i]))
        && hex_value(s) <= u32::MAX {
        Some(hex_value(s) as u32)
    } else {
        None
    }
}

pub proof fn lemma_hex_value_prefix_mono(s: Seq<u8>, i: int)
    requires
        0 <= i <= s.len(),
    ensures
        hex_value(s.subrange(0, i)) <= hex_value(s),
    decreases s.len() - i,
{
    if i == s.len() {
        assert(s.subrange(0, i) =~= s);
    } else {
        let t = s.subrange(0, i + 1);
        assert(t.drop_last() =~= s.subrange(0, i));
        assert(hex_value(t) == hex_value(s.subrange(0, i)) * 16 + hex_digit_value(t.last()));
        assert(hex_value(s.subrange(0, i)) <= hex_value(s.subrange(0, i)) * 16)
            by (nonlinear_arith);
        lemma_hex_value_prefix_mono(s, i + 1);
    }
}

/// Render `x` as eight lowercase hex digits.
pub fn u32_to_hex8(x: u32) -> (r: Vec<u8>)
    ensures
        r@ == hex8(x),
{
    let mut out: Vec<u8> = Vec::new();
    let mut i: usize = 0;
    while i < 8
        invariant
            0 <= i <= 8,
            out@ == hex8(x).subrange(0, i as int),
        decreases 8 - i,
    {
        let shift: u32 = ((7 - i) * 4) as u32;
        assert(((x >> shift) & 0xf) < 16) by (bit_vector);
        let nib: u8 = ((x >> shift) & 0xf) as u8;
        let b: u8 = if nib < 10 {
            0x30 + nib
        } else {
            0x61 + (nib - 10)
        };
        out.push(b);
        proof {
            assert(b == hex_digit_byte(nib));
            assert(hex8(x)[i as int] == b);
            assert(out@ =~= hex8(x).subrange(0, i as int + 1));
        }
        i += 1;
    }
    proof {
        assert(out@ =~= hex8(x));
    }
    out
}

/// Round trip: the eight-digit rendering of `x` parses back to `x`.
pub proof fn lemma_hex8_round_trip(x: u32)
    ensures
        spec_parse_hex_u32(hex8(x)) == Some(x),
{
    let s = hex8(x);
    let n0 = (x >> 28) & 0xf;
    let n1 = (x >> 24) & 0xf;
    let n2 = (x >> 20) & 0xf;
    let n3 = (x >> 16) & 0xf;
    let n4 = (x >> 12) & 0xf;
    let n5 = (x >> 8) & 0xf;
    let n6 = (x >> 4) & 0xf;
    let n7 = (x >> 0) & 0xf;
    assert forall|i: int| 0 <= i < s.len() implies is_lower_hex_digit(#[trigger] s[i]) by {
        let sh = ((7 - i) * 4) as u32;
        assert(((x >> sh) & 0xf) < 16) by (bit_vector);
    }
    assert(((x >> 28u32) & 0xf) < 16 && ((x >> 24u32) & 0xf) < 16 && ((x >> 20u32) & 0xf) < 16 && ((
    x >> 16u32) & 0xf) < 16 && ((x >> 12u32) & 0xf) < 16 && ((x >> 8u32) & 0xf) < 16 && ((x >> 4u32)
        & 0xf) < 16 && ((x >> 0u32) & 0xf) < 16) by (bit_vector);
    assert(hex_digit_value(hex_digit_byte(n0 as u8)) == n0);
    assert(hex_digit_value(hex_digit_byte(n1 as u8)) == n1);
    assert(hex_digit_value(hex_digit_byte(n2 as u8)) == n2);
    assert(hex_digit_value(hex_digit_byte(n3 as u8)) == n3);
    assert(hex_digit_value(hex_digit_byte(n4 as u8)) == n4);
    assert(hex_digit_value(hex_digit_byte(n5 as u8)) == n5);
    assert(hex_digit_value(hex_digit_byte(n6 as u8)) == n6);
    assert(hex_digit_value(hex_digit_byte(n7 as u8)) == n7);
    assert(s.len() == 8);
    assert(s[0] == hex_digit_byte(n0 as u8));
    assert(s[1] == hex_digit_byte(n1 as u8));
    assert(s[2] == hex_digit_byte(n2 as u8));
    assert(s[3] == hex_digit_byte(n3 as u8));
    assert(s[4] == hex_digit_byte(n4 as u8));
    assert(s[5] == hex_digit_byte(n5 as u8));
    assert(s[6] == hex_digit_byte(n6 as u8));
    assert(s[7] == hex_digit_byte(n7 as u8));
    assert(s.subrange(0, 0) =~= Seq::<u8>::empty());
    assert forall|k: int| 1 <= k <= 8 implies #[trigger] hex_value(s.subrange(0, k)) == hex_value(
        s.subrange(0, k - 1),
    ) * 16 + hex_digit_value(s[k - 1]) by {
        let t = s.subrange(0, k);
        assert(t.drop_last() =~= s.subrange(0, k - 1));
        assert(t.last() == s[k - 1]);
    }
    assert(hex_value(s.subrange(0, 0)) == 0);
    assert(hex_value(s.subrange(0, 1)) == n0);
    assert(hex_value(s.subrange(0, 2)) == hex_value(s.subrange(0, 1)) * 16 + n1);
    assert(hex_value(s.subrange(0, 3)) == hex_value(s.subrange(0, 2)) * 16 + n2);
    assert(hex_value(s.subrange(0, 4)) == hex_value(s.subrange(0, 3)) * 16 + n3);
    assert(hex_value(s.subrange(0, 5)) == hex_value(s.subrange(0, 4)) * 16 + n4);
    assert(hex_value(s.subrange(0, 6)) == hex_value(s.subrange(0, 5)) * 16 + n5);
    assert(hex_value(s.subrange(0, 7)) == hex_value(s.subrange(0, 6)) * 16 + n6);
    assert(hex_value(s.subrange(0, 8)) == hex_value(s.subrange(0, 7)) * 16 + n7);
    assert(s.subrange(0, 8) =~= s);
    assert(((x >> 28) & 0xf) == x >> 28) by (bit_vector);
    assert((x >> 28) * 16 + ((x >> 24) & 0xf) == x >> 24) by (bit_vector);
    assert((x >> 24) * 16 + ((x >> 20) & 0xf) == x >> 20) by (bit_vector);
    assert((x >> 20) * 16 + ((x >> 16) & 0xf) == x >> 16) by (bit_vector);
    assert((x >> 16) * 16 + ((x >> 12) & 0xf) == x >> 12) by (bit_vector);
    assert((x >> 12) * 16 + ((x >> 8) & 0xf) == x >> 8) by (bit_vector);
    assert((x >> 8) * 16 + ((x >> 4) & 0xf) == x >> 4) by (bit_vector);
    assert((x >> 4) * 16 + ((x >> 0) & 0xf) == x) by (bit_vector);
}

/// Parse a lowercase-hex identifier token into a `u32`.
pub fn parse_hex_u32(s: &[u8]) -> (r: Option<u32>)
    ensures
        r == spec_parse_hex_u32(s@),
{
    if s.len() == 0 {
        return None;
    }
    let mut acc: u64 = 0;
    let mut i: usize = 0;
    while i < s.len()
        invariant
            0 <= i <= s@.len(),
            acc == hex_value(s@.subrange(0, i as int)),
            acc <= u32::MAX,
            forall|j: int| 0 <= j < i ==> is_lower_hex_digit(#[trigger] s@[j]),
        decreases s@.len() - i,
    {
        let b = s[i];
        let d: u8 = if 0x30 <= b && b <= 0x39 {
            b - 0x30
        } else if 0x61 <= b && b <= 0x66 {
            b - 0x61 + 10
        } else {
            return None;
        };
        let next: u64 = acc * 16 + (d as u64);
        proof {
            let t = s@.subrange(0, i as int + 1);
            assert(t.drop_last() =~= s@.subrange(0, i as int));
            assert(t.last() == s@[i as int]);
            assert(next == hex_value(t));
        }
        if next > 0xffff_ffff {
            proof {
                lemma_hex_value_prefix_mono(s@, i as int + 1);
            }
            return None;
        }
        acc = next;
        i += 1;
    }
    proof {
        assert(s@.subrange(0, s@.len() as int) =~= s@);
    }
    Some(acc as u32)
}

// ---------------------------------------------------------------------------
// Trimming
// ---------------------------------------------------------------------------
pub open spec fn is_ascii_space(b: u8) -> bool {
    b == 0x20 || (0x09 <= b <= 0x0d)
}

pub open spec fn trim_start_spaces(s: Seq<u8>) -> Seq<u8>
    decreases s.len(),
{
    if s.len() > 0 && is_ascii_space(s[0]) {
        trim_start_spaces(s.drop_first())
    } else {
        s
    }
}

pub open spec fn trim_end_spaces(s: Seq<u8>) -> Seq<u8>
    decreases s.len(),
{
    if s.len() > 0 && is_ascii_space(s.last()) {
        trim_end_spaces(s.drop_last())
    } else {
        s
    }
}

/// ASCII whitespace stripped from both ends.
pub open spec fn trim_spaces(s: Seq<u8>) -> Seq<u8> {
    trim_end_spaces(trim_start_spaces(s))
}

pub open spec fn trim_start_nul(s: Seq<u8>) -> Seq<u8>
    decreases s.len(),
{
    if s.len() > 0 && s[0] == 0 {
        trim_start_nul(s.drop_first())
    } else {
        s
    }
}

pub open spec fn trim_end_nul(s: Seq<u8>) -> Seq<u8>
    decreases s.len(),
{
    if s.len() > 0 && s.last() == 0 {
        trim_end_nul(s.drop_last())
    } else {
        s
    }
}

/// NUL bytes stripped from both ends.
pub open spec fn trim_nul(s: Seq<u8>) -> Seq<u8> {
    trim_end_nul(trim_start_nul(s))
}

proof fn lemma_trim_start_spaces_range(s: Seq<u8>, lo: int)
    requires
        0 <= lo <= s.len(),
        forall|j: int| 0 <= j < lo ==> is_ascii_space(#[trigger] s[j]),
        lo == s.len() || !is_ascii_space(s[lo]),
    ensures
        trim_start_spaces(s) =~= s.subrange(lo, s.len() as int),
    decreases s.len(),
{
    if s.len() > 0 && is_ascii_space(s[0]) {
        lemma_trim_start_spaces_range(s.drop_first(), lo - 1);
        assert(s.drop_first().subrange(lo - 1, s.drop_first().len() as int) =~= s.subrange(
            lo,
            s.len() as int,
        ));
    } else {
        assert(s.subrange(0, s.len() as int) =~= s);
    }
}

proof fn lemma_trim_end_spaces_range(s: Seq<u8>, hi: int)
    requires
        0 <= hi <= s.len(),
        forall|j: int| hi <= j < s.len() ==> is_ascii_space(#[trigger] s[j]),
        hi == 0 || !is_ascii_space(s[hi - 1]),
    ensures
        trim_end_spaces(s) =~= s.subrange(0, hi),
    decreases s.len(),
{
    if s.len() > 0 && is_ascii_space(s.last()) {
        lemma_trim_end_spaces_range(s.drop_last(), hi);
        assert(s.drop_last().subrange(0, hi) =~= s.subrange(0, hi));
    } else {
        assert(s.subrange(0, s.len() as int) =~= s);
    }
}

/// Strip ASCII whitespace from both ends of `s`.
fn is_space_byte(b: u8) -> (r: bool)
    ensures
        r == is_ascii_space(b),
{
    b == 0x20 || (0x09 <= b && b <= 0x0d)
}

pub fn trim_spaces_bytes(s: &[u8]) -> (r: Vec<u8>)
    ensures
        r@ == trim_spaces(s@),
{
    let mut lo: usize = 0;
    while lo < s.len() && is_space_byte(s[lo])
        invariant
            0 <= lo <= s@.len(),
            forall|j: int| 0 <= j < lo ==> is_ascii_space(#[trigger] s@[j]),
        decreases s@.len() - lo,
    {
        lo += 1;
    }
    let mut hi: usize = s.len();
    while hi > lo && is_space_byte(s[hi - 1])
        invariant
            lo <= hi <= s@.len(),
            forall|j: int| 0 <= j < lo ==> is_ascii_space(#[trigger] s@[j]),
            lo == s@.len() || !is_ascii_space(s@[lo as int]),
            forall|j: int| hi <= j < s@.len() ==> is_ascii_space(#[trigger] s@[j]),
        decreases hi,
    {
        hi -= 1;
    }
    proof {
        lemma_trim_start_spaces_range(s@, lo as int);
        let t = s@.subrange(lo as int, s@.len() as int);
        lemma_trim_end_spaces_range(t, hi - lo);
        assert(t.subrange(0, hi - lo) =~= s@.subrange(lo as int, hi as int));
    }
    slice_to_vec_range(s, lo, hi)
}

proof fn lemma_trim_start_nul_range(s: Seq<u8>, lo: int)
    requires
        0 <= lo <= s.len(),
        forall|j: int| 0 <= j < lo ==> s[j] == 0,
        lo == s.len() || s[lo] != 0,
    ensures
        trim_start_nul(s) =~= s.subrange(lo, s.len() as int),
    decreases s.len(),
{
    if s.len() > 0 && s[0] == 0 {
        lemma_trim_start_nul_range(s.drop_first(), lo - 1);
        assert(s.drop_first().subrange(lo - 1, s.drop_first().len() as int) =~= s.subrange(
            lo,
            s.len() as int,
        ));
    } else {
        assert(s.subrange(0, s.len() as int) =~= s);
    }
}

proof fn lemma_trim_end_nul_range(s: Seq<u8>, hi: int)
    requires
        0 <= hi <= s.len(),
        forall|j: int| hi <= j < s.len() ==> s[j] == 0,
        hi == 0 || s[hi - 1] != 0,
    ensures
        trim_end_nul(s) =~= s.subrange(0, hi),
    decreases s.len(),
{
    if s.len() > 0 && s.last() == 0 {
        lemma_trim_end_nul_range(s.drop_last(), hi);
        assert(s.drop_last().subrange(0, hi) =~= s.subrange(0, hi));
    } else {
        assert(s.subrange(0, s.len() as int) =~= s);
    }
}

/// Strip NUL bytes from both ends of `s`.
pub fn trim_nul_bytes(s: &[u8]) -> (r: Vec<u8>)
    ensures
        r@ == trim_nul(s@),
{
    let mut lo: usize = 0;
    while lo < s.len() && s[lo] == 0
        invariant
            0 <= lo <= s@.len(),
            forall|j: int| 0 <= j < lo ==> s@[j] == 0,
        decreases s@.len() - lo,
    {
        lo += 1;
    }
    let mut hi: usize = s.len();
    while hi > lo && s[hi - 1] == 0
        invariant
            lo <= hi <= s@.len(),
            forall|j: int| 0 <= j < lo ==> s@[j] == 0,
            lo == s@.len() || s@[lo as int] != 0,
            forall|j: int| hi <= j < s@.len() ==> s@[j] == 0,
        decreases hi,
    {
        hi -= 1;
    }
    proof {
        lemma_trim_start_nul_range(s@, lo as int);
        let t = s@.subrange(lo as int, s@.len() as int);
        lemma_trim_end_nul_range(t, hi - lo);
        assert(t.subrange(0, hi - lo) =~= s@.subrange(lo as int, hi as int));
    }
    slice_to_vec_range(s, lo, hi)
}

/// Copy `s[lo..hi]` into a fresh vector.
pub fn slice_to_vec_range(s: &[u8], lo: usize, hi: usize) -> (r: Vec<u8>)
    requires
        0 <= lo <= hi <= s@.len(),
    ensures
        r@ == s@.subrange(lo as int, hi as int),
{
    let part = vstd::slice::slice_subrange(s, lo, hi);
    vstd::slice::slice_to_vec(part)
}


/// The little-endian `u32` at byte offset `p`.
pub open spec fn spec_u32_at(data: Seq<u8>, p: int) -> u32 {
    vstd::bytes::spec_u32_from_le_bytes(data.subrange(p, p + 4))
}

/// The slice `data[off .. off + len]`, clamped to the buffer: reading past
/// the end yields the bytes that are there, as a cursor-and-take read does.
pub open spec fn clamped_slice(data: Seq<u8>, off: int, len: int) -> Seq<u8>
    recommends
        0 <= off,
        0 <= len,
{
    let lo = if off <= data.len() {
        off
    } else {
        data.len() as int
    };
    let hi = if off + len <= data.len() {
        off + len
    } else {
        data.len() as int
    };
    data.subrange(lo, hi)
}

/// Copy out a clamped slice.
pub fn read_clamped(data: &[u8], off: u32, len: u32) -> (r: Vec<u8>)
    ensures
        r@ == clamped_slice(data@, off as int, len as int),
{
    let n = data.len();
    if (off as usize) >= n {
        let r: Vec<u8> = Vec::new();
        proof {
            assert(r@ =~= clamped_slice(data@, off as int, len as int));
        }
        return r;
    }
    let lo = off as usize;
    let avail = n - lo;
    let take: usize = if (len as usize) <= avail {
        len as usize
    } else {
        avail
    };
    let r = slice_to_vec_range(data, lo, lo + take);
    proof {
        assert(r@ =~= clamped_slice(data@, off as int, len as int));
    }
    r
}


/// Every byte below `0x80` encodes itself, so an all-ASCII byte string is
/// well-formed UTF-8.
pub proof fn lemma_ascii_bytes_valid_utf8(s: Seq<u8>)
    requires
        forall|i: int| 0 <= i < s.len() ==> s[i] < 0x80,
    ensures
        vstd::utf8::valid_utf8(s),
    decreases s.len(),
{
    if s.len() > 0 {
        let b = s[0];
        assert(b < 0x80);
        assert(vstd::utf8::is_leading_byte_width_1(b));
        assert((b & 0x7f) < 0x80) by (bit_vector);
        assert(vstd::utf8::valid_first_scalar(s));
        assert(vstd::utf8::length_of_first_scalar(s) == 1);
        assert(vstd::utf8::pop_first_scalar(s) =~= s.drop_first());
        lemma_ascii_bytes_valid_utf8(s.drop_first());
    }
}

/// Relies on std's `String::from_utf8_lossy`: the call is total, and a
/// well-formed UTF-8 input comes through as exactly that text.
#[verifier::external_body]
pub fn bytes_to_string(v: &[u8]) -> (r: String)
    ensures
        vstd::utf8::valid_utf8(v@) ==> vstd::utf8::encode_utf8(r@) == v@,
{
    String::from_utf8_lossy(v).into_owned()
}

} // verus!
