//! An executable UTF-8 validator, proved equivalent to `vstd::utf8::valid_utf8`.

use vstd::prelude::*;
use vstd::utf8::{
    is_continuation_byte, is_leading_byte_width_1, is_leading_byte_width_2,
    is_leading_byte_width_3, is_leading_byte_width_4, pop_first_scalar, valid_first_scalar,
    valid_utf8,
};

verus! {

/// Decides whether `bytes` is a valid UTF-8 encoding: every scalar must use
/// the expected leading and continuation byte patterns, must not be an
/// overlong encoding, and must not fall in the surrogate range.
pub fn is_valid_utf8(bytes: &[u8]) -> (r: bool)
    ensures
        r == valid_utf8(bytes@),
{
    let n = bytes.len();
    let mut pos: usize = 0;
    proof {
        assert(bytes@.skip(0) =~= bytes@);
    }
    while pos < n
        invariant
            pos <= n,
            n == bytes@.len(),
            valid_utf8(bytes@) <==> valid_utf8(bytes@.skip(pos as int)),
        decreases n - pos,
    {
        let ghost sp = bytes@.skip(pos as int);
        proof {
            assert(sp.len() == n - pos);
            assert(forall|k: int| 0 <= k < sp.len() ==> sp[k] == bytes@[pos + k]);
        }
        let b0 = bytes[pos];
        if b0 <= 0x7f {
            // One-byte scalar. Its codepoint is at most 0x7f, so it is
            // neither overlong nor a surrogate.
            proof {
                assert((b0 & 0x7f) as u32 <= 0x7f) by (bit_vector);
                assert(valid_first_scalar(sp));
                assert(pop_first_scalar(sp) =~= bytes@.skip(pos + 1));
            }
            pos = pos + 1;
        } else if 0xc0 <= b0 && b0 <= 0xdf {
            // Two-byte scalar: one continuation byte, codepoint 0x80..=0x7ff.
            if n - pos < 2 {
                return false;
            }
            let b1 = bytes[pos + 1];
            if !(0x80 <= b1 && b1 <= 0xbf) {
                return false;
            }
            let cp = (((b0 & 0x1f) as u32) << 6) | ((b1 & 0x3f) as u32);
            if cp < 0x80 {
                return false;
            }
            proof {
                assert((((b0 & 0x1f) as u32) << 6) | ((b1 & 0x3f) as u32) <= 0x7ff)
                    by (bit_vector);
                assert(valid_first_scalar(sp));
                assert(pop_first_scalar(sp) =~= bytes@.skip(pos + 2));
            }
            pos = pos + 2;
        } else if 0xe0 <= b0 && b0 <= 0xef {
            // Three-byte scalar: two continuation bytes, codepoint
            // 0x800..=0xffff, excluding the surrogate range.
            if n - pos < 3 {
                return false;
            }
            let b1 = bytes[pos + 1];
            let b2 = bytes[pos + 2];
            if !(0x80 <= b1 && b1 <= 0xbf) || !(0x80 <= b2 && b2 <= 0xbf) {
                return false;
            }
            let cp = (((b0 & 0x0f) as u32) << 12) | (((b1 & 0x3f) as u32) << 6) | ((b2
                & 0x3f) as u32);
            if cp < 0x800 {
                return false;
            }
            if 0xd800 <= cp && cp <= 0xdfff {
                return false;
            }
            proof {
                assert(valid_first_scalar(sp));
                assert(pop_first_scalar(sp) =~= bytes@.skip(pos + 3));
            }
            pos = pos + 3;
        } else if 0xf0 <= b0 && b0 <= 0xf7 {
            // Four-byte scalar: three continuation bytes, codepoint
            // 0x10000..=0x10ffff, which is above the surrogate range.
            if n - pos < 4 {
                return false;
            }
            let b1 = bytes[pos + 1];
            let b2 = bytes[pos + 2];
            let b3 = bytes[pos + 3];
            if !(0x80 <= b1 && b1 <= 0xbf) || !(0x80 <= b2 && b2 <= 0xbf) || !(0x80 <= b3 && b3
                <= 0xbf) {
                return false;
            }
            let cp = (((b0 & 0x07) as u32) << 18) | (((b1 & 0x3f) as u32) << 12) | (((b2
                & 0x3f) as u32) << 6) | ((b3 & 0x3f) as u32);
            if cp < 0x10000 || 0x10ffff < cp {
                return false;
            }
            proof {
                assert(valid_first_scalar(sp));
                assert(pop_first_scalar(sp) =~= bytes@.skip(pos + 4));
            }
            pos = pos + 4;
        } else {
            // A continuation byte (0x80..=0xbf) or an out-of-range byte
            // (0xf8..=0xff) in leading position.
            proof {
                assert(!is_leading_byte_width_1(sp[0]));
                assert(!is_leading_byte_width_2(sp[0]));
                assert(!is_leading_byte_width_3(sp[0]));
                assert(!is_leading_byte_width_4(sp[0]));
            }
            return false;
        }
    }
    proof {
        assert(bytes@.skip(n as int) =~= Seq::<u8>::empty());
    }
    true
}

} // verus!
