//! Byte-level UTF-8 validity.
//!
//! A byte string is valid UTF-8 when it decomposes into well-formed scalar
//! encodings: one byte below 0x80, or a lead byte followed by continuation
//! bytes, with the over-long, surrogate and out-of-range encodings excluded
//! by the ranges on the second byte.
use vstd::prelude::*;

verus! {

/// A UTF-8 continuation byte (0x80..=0xBF).
pub open spec fn is_cont(b: u8) -> bool {
    128 <= b && b <= 191
}

/// Valid lead pair of a three-byte encoding.
pub open spec fn valid3(b0: u8, b1: u8) -> bool {
    (b0 == 224 && 160 <= b1 && b1 <= 191) || (225 <= b0 && b0 <= 236 && is_cont(b1)) || (b0 == 237
        && 128 <= b1 && b1 <= 159) || (238 <= b0 && b0 <= 239 && is_cont(b1))
}

/// Valid lead pair of a four-byte encoding.
pub open spec fn valid4(b0: u8, b1: u8) -> bool {
    (b0 == 240 && 144 <= b1 && b1 <= 191) || (241 <= b0 && b0 <= 243 && is_cont(b1)) || (b0 == 244
        && 128 <= b1 && b1 <= 143)
}

/// Length of the well-formed scalar encoding at the head of `s`, or 0 when
/// the head is not one.
pub open spec fn utf8_step(s: Seq<u8>) -> int {
    if s.len() >= 1 && s[0] < 128 {
        1
    } else if s.len() >= 2 && 194 <= s[0] && s[0] <= 223 && is_cont(s[1]) {
        2
    } else if s.len() >= 3 && valid3(s[0], s[1]) && is_cont(s[2]) {
        3
    } else if s.len() >= 4 && valid4(s[0], s[1]) && is_cont(s[2]) && is_cont(s[3]) {
        4
    } else {
        0
    }
}

/// Whether `s` is entirely made of well-formed scalar encodings.
pub open spec fn is_utf8(s: Seq<u8>) -> bool
    decreases s.len(),
{
    if s.len() == 0 {
        true
    } else {
        let n = utf8_step(s);
        n > 0 && is_utf8(s.skip(n))
    }
}

/// Decides UTF-8 validity of a byte vector.
pub fn is_utf8_bytes(v: &Vec<u8>) -> (r: bool)
    ensures
        r == is_utf8(v@),
{
    let len = v.len();
    let mut i: usize = 0;
    proof {
        assert(v@.skip(0) =~= v@);
    }
    loop
        invariant
            i <= len,
            len == v@.len(),
            is_utf8(v@) == is_utf8(v@.skip(i as int)),
        decreases len - i,
    {
        if i == len {
            return true;
        }
        let ghost w = v@.skip(i as int);
        let b0 = v[i];
        let n: usize = if b0 < 128 {
            1
        } else if 194 <= b0 && b0 <= 223 && len - i >= 2 && 128 <= v[i + 1] && v[i + 1] <= 191 {
            2
        } else if len - i >= 3 && ((b0 == 224 && 160 <= v[i + 1] && v[i + 1] <= 191) || (225 <= b0
            && b0 <= 236 && 128 <= v[i + 1] && v[i + 1] <= 191) || (b0 == 237 && 128 <= v[i + 1]
            && v[i + 1] <= 159) || (238 <= b0 && b0 <= 239 && 128 <= v[i + 1] && v[i + 1] <= 191))
            && 128 <= v[i + 2] && v[i + 2] <= 191 {
            3
        } else if len - i >= 4 && ((b0 == 240 && 144 <= v[i + 1] && v[i + 1] <= 191) || (241 <= b0
            && b0 <= 243 && 128 <= v[i + 1] && v[i + 1] <= 191) || (b0 == 244 && 128 <= v[i + 1]
            && v[i + 1] <= 143)) && 128 <= v[i + 2] && v[i + 2] <= 191 && 128 <= v[i + 3] && v[i
            + 3] <= 191 {
            4
        } else {
            0
        };
        proof {
            assert(w.len() == len - i);
            assert(n as int == utf8_step(w));
        }
        if n == 0 {
            return false;
        }
        proof {
            assert(w.skip(n as int) =~= v@.skip(i + n));
        }
        i = i + n;
    }
}

} // verus!
