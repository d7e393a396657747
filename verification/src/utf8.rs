//! A verified UTF-8 validity check.
//!
//! An extension whose bytes do not form valid UTF-8 text cannot be compared
//! against the configured extension strings; such a file is excluded and the
//! exclusion is reported as a decode failure. The predicate here follows the
//! UTF-8 coding rules: continuation bytes, the restricted ranges of the
//! second byte after `0xE0`, `0xED`, `0xF0` and `0xF4` (which rule out
//! overlong forms, surrogates and code points past `0x10FFFF`), and lead
//! bytes `0xC0`, `0xC1` and `0xF5..=0xFF` never valid.

use vstd::prelude::*;

verus! {

/// A UTF-8 continuation byte: `10xxxxxx`.
pub open spec fn is_cont_byte(b: u8) -> bool {
    0x80 <= b && b <= 0xBF
}

/// The bytes of `s` from position `i` on form valid UTF-8.
pub open spec fn utf8_valid_from(s: Seq<u8>, i: int) -> bool
    decreases s.len() - i,
{
    if i < 0 || i >= s.len() {
        true
    } else {
        let b = s[i];
        if b <= 0x7F {
            utf8_valid_from(s, i + 1)
        } else if 0xC2 <= b && b <= 0xDF {
            if i + 1 < s.len() {
                is_cont_byte(s[i + 1]) && utf8_valid_from(s, i + 2)
            } else {
                false
            }
        } else if b == 0xE0 {
            if i + 2 < s.len() {
                0xA0 <= s[i + 1] && s[i + 1] <= 0xBF && is_cont_byte(s[i + 2])
                    && utf8_valid_from(s, i + 3)
            } else {
                false
            }
        } else if (0xE1 <= b && b <= 0xEC) || b == 0xEE || b == 0xEF {
            if i + 2 < s.len() {
                is_cont_byte(s[i + 1]) && is_cont_byte(s[i + 2]) && utf8_valid_from(s, i + 3)
            } else {
                false
            }
        } else if b == 0xED {
            if i + 2 < s.len() {
                0x80 <= s[i + 1] && s[i + 1] <= 0x9F && is_cont_byte(s[i + 2])
                    && utf8_valid_from(s, i + 3)
            } else {
                false
            }
        } else if b == 0xF0 {
            if i + 3 < s.len() {
                0x90 <= s[i + 1] && s[i + 1] <= 0xBF && is_cont_byte(s[i + 2])
                    && is_cont_byte(s[i + 3]) && utf8_valid_from(s, i + 4)
            } else {
                false
            }
        } else if 0xF1 <= b && b <= 0xF3 {
            if i + 3 < s.len() {
                is_cont_byte(s[i + 1]) && is_cont_byte(s[i + 2]) && is_cont_byte(s[i + 3])
                    && utf8_valid_from(s, i + 4)
            } else {
                false
            }
        } else if b == 0xF4 {
            if i + 3 < s.len() {
                0x80 <= s[i + 1] && s[i + 1] <= 0x8F && is_cont_byte(s[i + 2])
                    && is_cont_byte(s[i + 3]) && utf8_valid_from(s, i + 4)
            } else {
                false
            }
        } else {
            false
        }
    }
}

/// The byte sequence `s` is valid UTF-8.
pub open spec fn utf8_valid(s: Seq<u8>) -> bool {
    utf8_valid_from(s, 0)
}

/// Checks that a continuation byte follows.
fn check_cont(s: &Vec<u8>, i: usize) -> (r: bool)
    requires
        i < s.len(),
    ensures
        r == is_cont_byte(s@[i as int]),
{
    0x80 <= s[i] && s[i] <= 0xBF
}

/// Decides whether a byte sequence is valid UTF-8.
pub fn is_utf8(s: &Vec<u8>) -> (r: bool)
    ensures
        r == utf8_valid(s@),
{
    let n = s.len();
    let mut i: usize = 0;
    while i < n
        invariant
            i <= n,
            n == s.len(),
            utf8_valid(s@) == utf8_valid_from(s@, i as int),
        decreases n - i,
    {
        let b = s[i];
        if b <= 0x7F {
            i = i + 1;
        } else if 0xC2 <= b && b <= 0xDF {
            if n - i >= 2 && check_cont(s, i + 1) {
                i = i + 2;
            } else {
                return false;
            }
        } else if b == 0xE0 {
            if n - i >= 3 && 0xA0 <= s[i + 1] && s[i + 1] <= 0xBF && check_cont(s, i + 2) {
                i = i + 3;
            } else {
                return false;
            }
        } else if (0xE1 <= b && b <= 0xEC) || b == 0xEE || b == 0xEF {
            if n - i >= 3 && check_cont(s, i + 1) && check_cont(s, i + 2) {
                i = i + 3;
            } else {
                return false;
            }
        } else if b == 0xED {
            if n - i >= 3 && 0x80 <= s[i + 1] && s[i + 1] <= 0x9F && check_cont(s, i + 2) {
                i = i + 3;
            } else {
                return false;
            }
        } else if b == 0xF0 {
            if n - i >= 4 && 0x90 <= s[i + 1] && s[i + 1] <= 0xBF && check_cont(s, i + 2)
                && check_cont(s, i + 3) {
                i = i + 4;
            } else {
                return false;
            }
        } else if 0xF1 <= b && b <= 0xF3 {
            if n - i >= 4 && check_cont(s, i + 1) && check_cont(s, i + 2) && check_cont(s, i + 3) {
                i = i + 4;
            } else {
                return false;
            }
        } else if b == 0xF4 {
            if n - i >= 4 && 0x80 <= s[i + 1] && s[i + 1] <= 0x8F && check_cont(s, i + 2)
                && check_cont(s, i + 3) {
                i = i + 4;
            } else {
                return false;
            }
        } else {
            return false;
        }
    }
    true
}

} // verus!
