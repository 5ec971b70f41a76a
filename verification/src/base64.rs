use vstd::prelude::*;

verus! {

/// The standard base64 alphabet character for a 6-bit value.
pub open spec fn b64_char(n: u8) -> u8
    recommends
        n < 64,
{
    if n < 26 {
        (0x41 + n) as u8
    } else if n < 52 {
        (0x61 + (n - 26)) as u8
    } else if n < 62 {
        (0x30 + (n - 52)) as u8
    } else if n == 62 {
        0x2b
    } else {
        0x2f
    }
}

pub open spec fn is_b64_char(b: u8) -> bool {
    (0x41 <= b <= 0x5a) || (0x61 <= b <= 0x7a) || (0x30 <= b <= 0x39) || b == 0x2b || b == 0x2f
}

pub open spec fn b64_val(b: u8) -> u8
    recommends
        is_b64_char(b),
{
    if 0x41 <= b <= 0x5a {
        (b - 0x41) as u8
    } else if 0x61 <= b <= 0x7a {
        (b - 0x61 + 26) as u8
    } else if 0x30 <= b <= 0x39 {
        (b - 0x30 + 52) as u8
    } else if b == 0x2b {
        62
    } else {
        63
    }
}

pub proof fn lemma_b64_char_val(n: u8)
    requires
        n < 64,
    ensures
        is_b64_char(b64_char(n)),
        b64_val(b64_char(n)) == n,
        b64_char(n) != 0x3d,
{
}

/// The four 6-bit groups of a 3-byte chunk.
pub open spec fn enc0(b0: u8) -> u8 {
    b0 >> 2
}

pub open spec fn enc1(b0: u8, b1: u8) -> u8 {
    ((b0 & 3) << 4) | (b1 >> 4)
}

pub open spec fn enc2(b1: u8, b2: u8) -> u8 {
    ((b1 & 0xf) << 2) | (b2 >> 6)
}

pub open spec fn enc3(b2: u8) -> u8 {
    b2 & 0x3f
}

/// The three bytes reassembled from four 6-bit groups.
pub open spec fn dec0(n0: u8, n1: u8) -> u8 {
    (n0 << 2) | (n1 >> 4)
}

pub open spec fn dec1(n1: u8, n2: u8) -> u8 {
    ((n1 & 0xf) << 4) | (n2 >> 2)
}

pub open spec fn dec2(n2: u8, n3: u8) -> u8 {
    ((n2 & 3) << 6) | n3
}

pub proof fn lemma_chunk_ranges(b0: u8, b1: u8, b2: u8)
    ensures
        enc0(b0) < 64,
        enc1(b0, b1) < 64,
        enc2(b1, b2) < 64,
        enc3(b2) < 64,
{
    assert(b0 >> 2 < 64) by (bit_vector);
    assert(((b0 & 3) << 4) | (b1 >> 4) < 64) by (bit_vector);
    assert(((b1 & 0xf) << 2) | (b2 >> 6) < 64) by (bit_vector);
    assert(b2 & 0x3f < 64) by (bit_vector);
}

pub proof fn lemma_chunk_round(b0: u8, b1: u8, b2: u8)
    ensures
        dec0(enc0(b0), enc1(b0, b1)) == b0,
        dec1(enc1(b0, b1), enc2(b1, b2)) == b1,
        dec2(enc2(b1, b2), enc3(b2)) == b2,
        (enc1(b0, 0) & 0xf) == 0,
        (enc2(b1, 0) & 3) == 0,
{
    let n0 = enc0(b0);
    let n1 = enc1(b0, b1);
    let n2 = enc2(b1, b2);
    let n3 = enc3(b2);
    assert((n0 << 2) | (n1 >> 4) == b0) by (bit_vector)
        requires
            n0 == b0 >> 2,
            n1 == ((b0 & 3) << 4) | (b1 >> 4),
    ;
    assert(((n1 & 0xf) << 4) | (n2 >> 2) == b1) by (bit_vector)
        requires
            n1 == ((b0 & 3) << 4) | (b1 >> 4),
            n2 == ((b1 & 0xf) << 2) | (b2 >> 6),
    ;
    assert(((n2 & 3) << 6) | n3 == b2) by (bit_vector)
        requires
            n2 == ((b1 & 0xf) << 2) | (b2 >> 6),
            n3 == b2 & 0x3f,
    ;
    assert((((b0 & 3) << 4) | (0u8 >> 4)) & 0xf == 0) by (bit_vector);
    assert((((b1 & 0xf) << 2) | (0u8 >> 6)) & 3 == 0) by (bit_vector);
}

/// Standard base64 with `=` padding.
pub open spec fn b64_encode(s: Seq<u8>) -> Seq<u8>
    decreases s.len(),
{
    if s.len() == 0 {
        Seq::empty()
    } else if s.len() == 1 {
        seq![b64_char(enc0(s[0])), b64_char(enc1(s[0], 0)), 0x3du8, 0x3du8]
    } else if s.len() == 2 {
        seq![b64_char(enc0(s[0])), b64_char(enc1(s[0], s[1])), b64_char(enc2(s[1], 0)), 0x3du8]
    } else {
        seq![
            b64_char(enc0(s[0])),
            b64_char(enc1(s[0], s[1])),
            b64_char(enc2(s[1], s[2])),
            b64_char(enc3(s[2])),
        ] + b64_encode(s.skip(3))
    }
}

/// Decode canonical base64: `None` for anything the encoder cannot produce.
pub open spec fn b64_decode(s: Seq<u8>) -> Option<Seq<u8>>
    decreases s.len(),
{
    if s.len() == 0 {
        Some(Seq::empty())
    } else if s.len() < 4 {
        None
    } else if !is_b64_char(s[0]) || !is_b64_char(s[1]) {
        None
    } else {
        let n0 = b64_val(s[0]);
        let n1 = b64_val(s[1]);
        if s.len() == 4 && s[2] == 0x3d && s[3] == 0x3d {
            if (n1 & 0xf) == 0 {
                Some(seq![dec0(n0, n1)])
            } else {
                None
            }
        } else if s.len() == 4 && s[3] == 0x3d {
            if !is_b64_char(s[2]) {
                None
            } else {
                let n2 = b64_val(s[2]);
                if (n2 & 3) == 0 {
                    Some(seq![dec0(n0, n1), dec1(n1, n2)])
                } else {
                    None
                }
            }
        } else if !is_b64_char(s[2]) || !is_b64_char(s[3]) {
            None
        } else {
            let n2 = b64_val(s[2]);
            let n3 = b64_val(s[3]);
            match b64_decode(s.skip(4)) {
                Some(t) => Some(seq![dec0(n0, n1), dec1(n1, n2), dec2(n2, n3)] + t),
                None => None,
            }
        }
    }
}

/// Round trip: decoding an encoding recovers the input exactly.
pub proof fn lemma_b64_round_trip(s: Seq<u8>)
    ensures
        b64_decode(b64_encode(s)) == Some(s),
    decreases s.len(),
{
    let e = b64_encode(s);
    if s.len() == 0 {
    } else if s.len() == 1 {
        lemma_chunk_ranges(s[0], 0, 0);
        lemma_chunk_round(s[0], 0, 0);
        lemma_b64_char_val(enc0(s[0]));
        lemma_b64_char_val(enc1(s[0], 0));
        assert(enc1(s[0], 0) == ((s[0] & 3) << 4) | (0u8 >> 4));
        assert(b64_decode(e) == Some(seq![dec0(enc0(s[0]), enc1(s[0], 0))]));
        assert(dec0(enc0(s[0]), enc1(s[0], 0)) == s[0]) by {
            let b0 = s[0];
            let n0 = enc0(b0);
            let n1 = enc1(b0, 0);
            assert((n0 << 2) | (n1 >> 4) == b0) by (bit_vector)
                requires
                    n0 == b0 >> 2,
                    n1 == ((b0 & 3) << 4) | (0u8 >> 4),
            ;
        }
        assert(seq![s[0]] =~= s);
    } else if s.len() == 2 {
        lemma_chunk_ranges(s[0], s[1], 0);
        lemma_chunk_round(s[0], s[1], 0);
        lemma_b64_char_val(enc0(s[0]));
        lemma_b64_char_val(enc1(s[0], s[1]));
        lemma_b64_char_val(enc2(s[1], 0));
        assert(b64_decode(e) == Some(
            seq![dec0(enc0(s[0]), enc1(s[0], s[1])), dec1(enc1(s[0], s[1]), enc2(s[1], 0))],
        ));
        assert(dec1(enc1(s[0], s[1]), enc2(s[1], 0)) == s[1]) by {
            let b0 = s[0];
            let b1 = s[1];
            let n1 = enc1(b0, b1);
            let n2 = enc2(b1, 0);
            assert(((n1 & 0xf) << 4) | (n2 >> 2) == b1) by (bit_vector)
                requires
                    n1 == ((b0 & 3) << 4) | (b1 >> 4),
                    n2 == ((b1 & 0xf) << 2) | (0u8 >> 6),
            ;
        }
        assert(seq![s[0], s[1]] =~= s);
    } else {
        let rest = b64_encode(s.skip(3));
        lemma_b64_round_trip(s.skip(3));
        lemma_chunk_ranges(s[0], s[1], s[2]);
        lemma_chunk_round(s[0], s[1], s[2]);
        lemma_b64_char_val(enc0(s[0]));
        lemma_b64_char_val(enc1(s[0], s[1]));
        lemma_b64_char_val(enc2(s[1], s[2]));
        lemma_b64_char_val(enc3(s[2]));
        assert(e.len() == 4 + rest.len());
        assert(e[0] == b64_char(enc0(s[0])));
        assert(e[1] == b64_char(enc1(s[0], s[1])));
        assert(e[2] == b64_char(enc2(s[1], s[2])));
        assert(e[3] == b64_char(enc3(s[2])));
        assert(e.skip(4) =~= rest);
        assert(b64_decode(e) == Some(seq![s[0], s[1], s[2]] + s.skip(3)));
        assert(seq![s[0], s[1], s[2]] + s.skip(3) =~= s);
    }
}

fn b64_char_exec(n: u8) -> (r: u8)
    requires
        n < 64,
    ensures
        r == b64_char(n),
{
    if n < 26 {
        0x41 + n
    } else if n < 52 {
        0x61 + (n - 26)
    } else if n < 62 {
        0x30 + (n - 52)
    } else if n == 62 {
        0x2b
    } else {
        0x2f
    }
}

fn b64_digit(b: u8) -> (r: Option<u8>)
    ensures
        match r {
            Some(v) => is_b64_char(b) && v == b64_val(b) && v < 64,
            None => !is_b64_char(b),
        },
{
    if 0x41 <= b && b <= 0x5a {
        Some(b - 0x41)
    } else if 0x61 <= b && b <= 0x7a {
        Some(b - 0x61 + 26)
    } else if 0x30 <= b && b <= 0x39 {
        Some(b - 0x30 + 52)
    } else if b == 0x2b {
        Some(62)
    } else if b == 0x2f {
        Some(63)
    } else {
        None
    }
}

/// Encode bytes as standard padded base64.
pub fn b64_encode_bytes(s: &[u8]) -> (r: Vec<u8>)
    ensures
        r@ == b64_encode(s@),
{
    let mut out: Vec<u8> = Vec::new();
    let mut k: usize = 0;
    proof {
        assert(s@.skip(0) =~= s@);
        assert(Seq::<u8>::empty() + b64_encode(s@) =~= b64_encode(s@));
    }
    while s.len() - k >= 3
        invariant
            0 <= k <= s@.len(),
            b64_encode(s@) == out@ + b64_encode(s@.skip(k as int)),
        decreases s@.len() - k,
    {
        let b0 = s[k];
        let b1 = s[k + 1];
        let b2 = s[k + 2];
        proof {
            lemma_chunk_ranges(b0, b1, b2);
        }
        out.push(b64_char_exec(b0 >> 2));
        out.push(b64_char_exec(((b0 & 3) << 4) | (b1 >> 4)));
        out.push(b64_char_exec(((b1 & 0xf) << 2) | (b2 >> 6)));
        out.push(b64_char_exec(b2 & 0x3f));
        proof {
            let t = s@.skip(k as int);
            assert(t[0] == s@[k as int] && t[1] == s@[k as int + 1] && t[2] == s@[k as int + 2]);
            assert(t.skip(3) =~= s@.skip(k as int + 3));
            assert(b64_encode(s@) =~= out@ + b64_encode(s@.skip(k as int + 3)));
        }
        k += 3;
    }
    let rem = s.len() - k;
    if rem == 1 {
        let b0 = s[k];
        proof {
            lemma_chunk_ranges(b0, 0, 0);
            assert(0u8 >> 4 == 0) by (bit_vector);
            assert(((b0 & 3) << 4) | 0u8 == (b0 & 3) << 4) by (bit_vector);
            assert(((b0 & 3) << 4) == enc1(b0, 0));
        }
        out.push(b64_char_exec(b0 >> 2));
        out.push(b64_char_exec((b0 & 3) << 4));
        out.push(0x3d);
        out.push(0x3d);
        proof {
            let t = s@.skip(k as int);
            assert(t.len() == 1 && t[0] == s@[k as int]);
            assert(((b0 & 3) << 4) | 0u8 == (b0 & 3) << 4) by (bit_vector);
            assert(b64_encode(s@) =~= out@);
        }
    } else if rem == 2 {
        let b0 = s[k];
        let b1 = s[k + 1];
        proof {
            lemma_chunk_ranges(b0, b1, 0);
            assert(0u8 >> 6 == 0) by (bit_vector);
            assert(((b1 & 0xf) << 2) | 0u8 == (b1 & 0xf) << 2) by (bit_vector);
            assert(((b1 & 0xf) << 2) == enc2(b1, 0));
        }
        out.push(b64_char_exec(b0 >> 2));
        out.push(b64_char_exec(((b0 & 3) << 4) | (b1 >> 4)));
        out.push(b64_char_exec((b1 & 0xf) << 2));
        out.push(0x3d);
        proof {
            let t = s@.skip(k as int);
            assert(t.len() == 2 && t[0] == s@[k as int] && t[1] == s@[k as int + 1]);
            assert(((b1 & 0xf) << 2) | 0u8 == (b1 & 0xf) << 2) by (bit_vector);
            assert(b64_encode(s@) =~= out@);
        }
    } else {
        proof {
            let t = s@.skip(k as int);
            assert(t.len() == 0);
            assert(b64_encode(s@) =~= out@);
        }
    }
    out
}

/// Decode standard padded base64; `None` on any malformed input.
pub fn b64_decode_bytes(s: &[u8]) -> (r: Option<Vec<u8>>)
    ensures
        match r {
            Some(v) => b64_decode(s@) == Some(v@),
            None => b64_decode(s@) is None,
        },
{
    let mut out: Vec<u8> = Vec::new();
    let mut k: usize = 0;
    proof {
        assert(s@.skip(0) =~= s@);
        if b64_decode(s@) is Some {
            let t = b64_decode(s@)->Some_0;
            assert(Seq::<u8>::empty() + t =~= t);
        }
    }
    while s.len() - k >= 4
        invariant
            0 <= k <= s@.len(),
            match b64_decode(s@.skip(k as int)) {
                Some(t) => b64_decode(s@) matches Some(w) && w == out@ + t,
                None => b64_decode(s@) is None,
            },
        decreases s@.len() - k,
    {
        let ghost t = s@.skip(k as int);
        let c0 = s[k];
        let c1 = s[k + 1];
        let c2 = s[k + 2];
        let c3 = s[k + 3];
        proof {
            assert(t.len() == s@.len() - k);
            assert(t[0] == c0 && t[1] == c1 && t[2] == c2 && t[3] == c3);
        }
        let n0 = match b64_digit(c0) {
            Some(v) => v,
            None => {
                return None;
            },
        };
        let n1 = match b64_digit(c1) {
            Some(v) => v,
            None => {
                return None;
            },
        };
        if s.len() - k == 4 && c2 == 0x3d && c3 == 0x3d {
            if (n1 & 0xf) != 0 {
                return None;
            }
            out.push((n0 << 2) | (n1 >> 4));
            proof {
                assert(b64_decode(t) == Some(seq![dec0(n0, n1)]));
                if b64_decode(s@) is Some {
                    assert(out@ =~= b64_decode(s@)->Some_0);
                }
            }
            return Some(out);
        } else if s.len() - k == 4 && c3 == 0x3d {
            let n2 = match b64_digit(c2) {
                Some(v) => v,
                None => {
                    return None;
                },
            };
            if (n2 & 3) != 0 {
                return None;
            }
            out.push((n0 << 2) | (n1 >> 4));
            out.push(((n1 & 0xf) << 4) | (n2 >> 2));
            proof {
                assert(b64_decode(t) == Some(seq![dec0(n0, n1), dec1(n1, n2)]));
                if b64_decode(s@) is Some {
                    assert(out@ =~= b64_decode(s@)->Some_0);
                }
            }
            return Some(out);
        } else {
            let n2 = match b64_digit(c2) {
                Some(v) => v,
                None => {
                    return None;
                },
            };
            let n3 = match b64_digit(c3) {
                Some(v) => v,
                None => {
                    return None;
                },
            };
            let ghost out0 = out@;
            out.push((n0 << 2) | (n1 >> 4));
            out.push(((n1 & 0xf) << 4) | (n2 >> 2));
            out.push(((n2 & 3) << 6) | n3);
            proof {
                assert(t.skip(4) =~= s@.skip(k as int + 4));
                let chunk = seq![dec0(n0, n1), dec1(n1, n2), dec2(n2, n3)];
                assert(out@ =~= out0 + chunk);
                if b64_decode(s@.skip(k as int + 4)) is Some {
                    let t2 = b64_decode(s@.skip(k as int + 4))->Some_0;
                    assert(out0 + (chunk + t2) =~= out@ + t2);
                }
            }
            k += 4;
        }
    }
    if k == s.len() {
        proof {
            assert(s@.skip(k as int).len() == 0);
            assert(out@ + Seq::<u8>::empty() =~= out@);
        }
        Some(out)
    } else {
        proof {
            assert(s@.skip(k as int).len() == s@.len() - k);
        }
        None
    }
}

} // verus!
