use vstd::prelude::*;

use vstd::utf8::{codepoint_width_2, codepoint_width_3, codepoint_width_4, continuation_bits,
    is_continuation_byte, is_leading_byte_width_1, is_leading_byte_width_2,
    is_leading_byte_width_3, is_leading_byte_width_4, leading_bits_width_2, leading_bits_width_3,
    leading_bits_width_4, length_of_first_scalar, pop_first_scalar, valid_first_scalar,
    valid_leading_and_continuation_bytes_first_codepoint, valid_utf8};

verus! {

/// Whether the bytes are a well-formed UTF-8 encoding, checked against the
/// UTF-8 model of the standard library specifications.
pub fn is_valid_utf8(s: &[u8]) -> (r: bool)
    ensures
        r == valid_utf8(s@),
{
    let n = s.len();
    let mut k: usize = 0;
    proof {
        assert(s@.skip(0) =~= s@);
    }
    while k < n
        invariant
            0 <= k <= n,
            n == s@.len(),
            valid_utf8(s@) == valid_utf8(s@.skip(k as int)),
        decreases n - k,
    {
        let ghost t = s@.skip(k as int);
        proof {
            assert(t.len() == n - k);
            assert(t[0] == s@[k as int]);
        }
        let b = s[k];
        let width: usize;
        if b < 0x80 {
            proof {
                assert(valid_first_scalar(t));
                assert(length_of_first_scalar(t) == 1);
            }
            width = 1;
        } else if 0xc0 <= b && b <= 0xdf {
            if n - k < 2 {
                proof {
                    lemma_invalid(t);
                }
                return false;
            }
            let c1 = s[k + 1];
            proof {
                assert(t[1] == s@[k as int + 1]);
            }
            if !(0x80 <= c1 && c1 <= 0xbf) {
                proof {
                    lemma_invalid(t);
                }
                return false;
            }
            let cp: u32 = (((b & 0x1f) as u32) << 6) | ((c1 & 0x3f) as u32);
            proof {
                assert(cp == codepoint_width_2(b, c1));
            }
            if cp < 0x80 {
                proof {
                    lemma_invalid(t);
                }
                return false;
            }
            proof {
                assert(cp < 0x800) by (bit_vector)
                    requires
                        cp == (((b & 0x1f) as u32) << 6) | ((c1 & 0x3f) as u32),
                ;
                assert(valid_first_scalar(t));
                assert(length_of_first_scalar(t) == 2);
            }
            width = 2;
        } else if 0xe0 <= b && b <= 0xef {
            if n - k < 3 {
                proof {
                    lemma_invalid(t);
                }
                return false;
            }
            let c1 = s[k + 1];
            let c2 = s[k + 2];
            proof {
                assert(t[1] == s@[k as int + 1] && t[2] == s@[k as int + 2]);
            }
            if !(0x80 <= c1 && c1 <= 0xbf) || !(0x80 <= c2 && c2 <= 0xbf) {
                proof {
                    lemma_invalid(t);
                }
                return false;
            }
            let cp: u32 = (((b & 0x0f) as u32) << 12) | (((c1 & 0x3f) as u32) << 6) | ((c2
                & 0x3f) as u32);
            proof {
                assert(cp == codepoint_width_3(b, c1, c2));
            }
            if cp < 0x800 || (0xd800 <= cp && cp <= 0xdfff) {
                proof {
                    lemma_invalid(t);
                }
                return false;
            }
            proof {
                assert(valid_first_scalar(t));
                assert(length_of_first_scalar(t) == 3);
            }
            width = 3;
        } else if 0xf0 <= b && b <= 0xf7 {
            if n - k < 4 {
                proof {
                    lemma_invalid(t);
                }
                return false;
            }
            let c1 = s[k + 1];
            let c2 = s[k + 2];
            let c3 = s[k + 3];
            proof {
                assert(t[1] == s@[k as int + 1] && t[2] == s@[k as int + 2] && t[3] == s@[k as int
                    + 3]);
            }
            if !(0x80 <= c1 && c1 <= 0xbf) || !(0x80 <= c2 && c2 <= 0xbf) || !(0x80 <= c3 && c3
                <= 0xbf) {
                proof {
                    lemma_invalid(t);
                }
                return false;
            }
            let cp: u32 = (((b & 0x07) as u32) << 18) | (((c1 & 0x3f) as u32) << 12) | (((c2
                & 0x3f) as u32) << 6) | ((c3 & 0x3f) as u32);
            proof {
                assert(cp == codepoint_width_4(b, c1, c2, c3));
            }
            if cp < 0x10000 || cp > 0x10ffff {
                proof {
                    lemma_invalid(t);
                }
                return false;
            }
            proof {
                assert(valid_first_scalar(t));
                assert(length_of_first_scalar(t) == 4);
            }
            width = 4;
        } else {
            proof {
                assert(!valid_leading_and_continuation_bytes_first_codepoint(t));
                lemma_invalid(t);
            }
            return false;
        }
        proof {
            assert(pop_first_scalar(t) =~= s@.skip(k as int + width));
        }
        k += width;
    }
    proof {
        assert(s@.skip(k as int).len() == 0);
    }
    true
}

/// A nonempty byte sequence whose head is not a well-formed scalar is not
/// valid UTF-8.
proof fn lemma_invalid(t: Seq<u8>)
    requires
        t.len() > 0,
        !valid_first_scalar(t),
    ensures
        !valid_utf8(t),
{
}

} // verus!
