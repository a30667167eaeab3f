//! UTF-8 validity of text payloads. Simple and error frames carry text, so
//! a byte sequence that no UTF-8 text can contain is a protocol error on
//! the wire; this module defines well-formed UTF-8 over plain bytes and
//! decides it.

use vstd::prelude::*;

verus! {

/// A UTF-8 continuation byte.
pub open spec fn utf8_cont(b: u8) -> bool {
    0x80 <= b <= 0xbf
}

/// The bytes of `s` from `i` on are a run of well-formed UTF-8 scalar
/// encodings: one byte up to `0x7f`, or a two-, three- or four-byte
/// sequence whose lead and continuation ranges exclude overlong forms,
/// surrogates, and values beyond the last scalar.
pub open spec fn utf8_from(s: Seq<u8>, i: int) -> bool
    decreases s.len() - i,
{
    if i < 0 {
        false
    } else if i >= s.len() {
        true
    } else {
        let b0 = s[i];
        if b0 <= 0x7f {
            utf8_from(s, i + 1)
        } else if 0xc2 <= b0 <= 0xdf {
            if i + 2 <= s.len() {
                utf8_cont(s[i + 1]) && utf8_from(s, i + 2)
            } else {
                false
            }
        } else if b0 == 0xe0 {
            if i + 3 <= s.len() {
                0xa0 <= s[i + 1] <= 0xbf && utf8_cont(s[i + 2]) && utf8_from(s, i + 3)
            } else {
                false
            }
        } else if 0xe1 <= b0 <= 0xec {
            if i + 3 <= s.len() {
                utf8_cont(s[i + 1]) && utf8_cont(s[i + 2]) && utf8_from(s, i + 3)
            } else {
                false
            }
        } else if b0 == 0xed {
            if i + 3 <= s.len() {
                0x80 <= s[i + 1] <= 0x9f && utf8_cont(s[i + 2]) && utf8_from(s, i + 3)
            } else {
                false
            }
        } else if 0xee <= b0 <= 0xef {
            if i + 3 <= s.len() {
                utf8_cont(s[i + 1]) && utf8_cont(s[i + 2]) && utf8_from(s, i + 3)
            } else {
                false
            }
        } else if b0 == 0xf0 {
            if i + 4 <= s.len() {
                0x90 <= s[i + 1] <= 0xbf && utf8_cont(s[i + 2]) && utf8_cont(s[i + 3])
                    && utf8_from(s, i + 4)
            } else {
                false
            }
        } else if 0xf1 <= b0 <= 0xf3 {
            if i + 4 <= s.len() {
                utf8_cont(s[i + 1]) && utf8_cont(s[i + 2]) && utf8_cont(s[i + 3]) && utf8_from(
                    s,
                    i + 4,
                )
            } else {
                false
            }
        } else if b0 == 0xf4 {
            if i + 4 <= s.len() {
                0x80 <= s[i + 1] <= 0x8f && utf8_cont(s[i + 2]) && utf8_cont(s[i + 3])
                    && utf8_from(s, i + 4)
            } else {
                false
            }
        } else {
            false
        }
    }
}

/// Whether `s` is well-formed UTF-8 from start to end.
pub open spec fn is_utf8(s: Seq<u8>) -> bool {
    utf8_from(s, 0)
}

/// Whether `s[k]` is a continuation byte.
fn cont_at(s: &[u8], k: usize) -> (r: bool)
    requires
        k < s@.len(),
    ensures
        r == utf8_cont(s@[k as int]),
{
    let b = s[k];
    0x80 <= b && b <= 0xbf
}

/// Decides whether a byte span is well-formed UTF-8, without allocating.
pub fn is_utf8_slice(s: &[u8]) -> (r: bool)
    ensures
        r == is_utf8(s@),
{
    let n = s.len();
    let mut i: usize = 0;
    while i < n
        invariant
            i <= n == s@.len(),
            is_utf8(s@) == utf8_from(s@, i as int),
        decreases n - i,
    {
        let b0 = s[i];
        if b0 <= 0x7f {
            i = i + 1;
        } else if 0xc2 <= b0 && b0 <= 0xdf {
            if n - i < 2 || !cont_at(s, i + 1) {
                return false;
            }
            i = i + 2;
        } else if b0 == 0xe0 {
            if n - i < 3 || s[i + 1] < 0xa0 || s[i + 1] > 0xbf || !cont_at(s, i + 2) {
                return false;
            }
            i = i + 3;
        } else if 0xe1 <= b0 && b0 <= 0xec {
            if n - i < 3 || !cont_at(s, i + 1) || !cont_at(s, i + 2) {
                return false;
            }
            i = i + 3;
        } else if b0 == 0xed {
            if n - i < 3 || s[i + 1] < 0x80 || s[i + 1] > 0x9f || !cont_at(s, i + 2) {
                return false;
            }
            i = i + 3;
        } else if 0xee <= b0 && b0 <= 0xef {
            if n - i < 3 || !cont_at(s, i + 1) || !cont_at(s, i + 2) {
                return false;
            }
            i = i + 3;
        } else if b0 == 0xf0 {
            if n - i < 4 || s[i + 1] < 0x90 || s[i + 1] > 0xbf || !cont_at(s, i + 2) || !cont_at(
                s,
                i + 3,
            ) {
                return false;
            }
            i = i + 4;
        } else if 0xf1 <= b0 && b0 <= 0xf3 {
            if n - i < 4 || !cont_at(s, i + 1) || !cont_at(s, i + 2) || !cont_at(s, i + 3) {
                return false;
            }
            i = i + 4;
        } else if b0 == 0xf4 {
            if n - i < 4 || s[i + 1] < 0x80 || s[i + 1] > 0x8f || !cont_at(s, i + 2) || !cont_at(
                s,
                i + 3,
            ) {
                return false;
            }
            i = i + 4;
        } else {
            return false;
        }
    }
    true
}

} // verus!
