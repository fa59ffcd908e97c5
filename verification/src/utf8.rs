//! UTF-8 validity, specified byte-by-byte and checked by a verified scanner.
//!
//! The specification follows the shortest-form encoding rules: one-byte
//! values below 128; two-byte sequences led by 194..=223; three-byte
//! sequences led by 224..=239 with the surrogate range and overlong forms
//! excluded by the bounds on the first continuation byte; four-byte
//! sequences led by 240..=244 likewise bounded.

use vstd::prelude::*;

verus! {

/// Whether a byte is a UTF-8 continuation byte.
pub open spec fn is_cont(b: u8) -> bool {
    128 <= b <= 191
}

/// The length of the well-formed UTF-8 character starting at `i`, if the
/// bytes there begin one.
pub open spec fn utf8_step(s: Seq<u8>, i: int) -> Option<int> {
    let b0 = s[i];
    if b0 < 128 {
        Some(1)
    } else if 194 <= b0 <= 223 {
        if i + 2 <= s.len() && is_cont(s[i + 1]) {
            Some(2)
        } else {
            None
        }
    } else if b0 == 224 {
        if i + 3 <= s.len() && 160 <= s[i + 1] <= 191 && is_cont(s[i + 2]) {
            Some(3)
        } else {
            None
        }
    } else if 225 <= b0 <= 236 || 238 <= b0 <= 239 {
        if i + 3 <= s.len() && is_cont(s[i + 1]) && is_cont(s[i + 2]) {
            Some(3)
        } else {
            None
        }
    } else if b0 == 237 {
        if i + 3 <= s.len() && 128 <= s[i + 1] <= 159 && is_cont(s[i + 2]) {
            Some(3)
        } else {
            None
        }
    } else if b0 == 240 {
        if i + 4 <= s.len() && 144 <= s[i + 1] <= 191 && is_cont(s[i + 2]) && is_cont(s[i + 3]) {
            Some(4)
        } else {
            None
        }
    } else if 241 <= b0 <= 243 {
        if i + 4 <= s.len() && is_cont(s[i + 1]) && is_cont(s[i + 2]) && is_cont(s[i + 3]) {
            Some(4)
        } else {
            None
        }
    } else if b0 == 244 {
        if i + 4 <= s.len() && 128 <= s[i + 1] <= 143 && is_cont(s[i + 2]) && is_cont(s[i + 3]) {
            Some(4)
        } else {
            None
        }
    } else {
        None
    }
}

/// Whether the bytes from `i` to the end form a sequence of well-formed
/// UTF-8 characters.
pub open spec fn is_utf8_from(s: Seq<u8>, i: int) -> bool
    decreases s.len() - i,
{
    if i >= s.len() {
        true
    } else {
        match utf8_step(s, i) {
            Some(k) => {
                if 1 <= k {
                    is_utf8_from(s, i + k)
                } else {
                    false
                }
            },
            None => false,
        }
    }
}

/// Whether a byte sequence is valid UTF-8.
pub open spec fn is_utf8(s: Seq<u8>) -> bool {
    is_utf8_from(s, 0)
}

/// Decides UTF-8 validity of a byte slice.
pub fn check_utf8(s: &[u8]) -> (r: bool)
    ensures
        r == is_utf8(s@),
{
    let n = s.len();
    let mut i: usize = 0;
    loop
        invariant
            0 <= i <= n,
            n == s@.len(),
            is_utf8(s@) == is_utf8_from(s@, i as int),
        decreases n - i,
    {
        if i >= n {
            return true;
        }
        let b0 = s[i];
        if b0 < 128 {
            i = i + 1;
        } else if 194 <= b0 && b0 <= 223 {
            if n - i >= 2 && 128 <= s[i + 1] && s[i + 1] <= 191 {
                i = i + 2;
            } else {
                return false;
            }
        } else if b0 == 224 {
            if n - i >= 3 && 160 <= s[i + 1] && s[i + 1] <= 191 && 128 <= s[i + 2] && s[i + 2]
                <= 191 {
                i = i + 3;
            } else {
                return false;
            }
        } else if (225 <= b0 && b0 <= 236) || (238 <= b0 && b0 <= 239) {
            if n - i >= 3 && 128 <= s[i + 1] && s[i + 1] <= 191 && 128 <= s[i + 2] && s[i + 2]
                <= 191 {
                i = i + 3;
            } else {
                return false;
            }
        } else if b0 == 237 {
            if n - i >= 3 && 128 <= s[i + 1] && s[i + 1] <= 159 && 128 <= s[i + 2] && s[i + 2]
                <= 191 {
                i = i + 3;
            } else {
                return false;
            }
        } else if b0 == 240 {
            if n - i >= 4 && 144 <= s[i + 1] && s[i + 1] <= 191 && 128 <= s[i + 2] && s[i + 2]
                <= 191 && 128 <= s[i + 3] && s[i + 3] <= 191 {
                i = i + 4;
            } else {
                return false;
            }
        } else if 241 <= b0 && b0 <= 243 {
            if n - i >= 4 && 128 <= s[i + 1] && s[i + 1] <= 191 && 128 <= s[i + 2] && s[i + 2]
                <= 191 && 128 <= s[i + 3] && s[i + 3] <= 191 {
                i = i + 4;
            } else {
                return false;
            }
        } else if b0 == 244 {
            if n - i >= 4 && 128 <= s[i + 1] && s[i + 1] <= 143 && 128 <= s[i + 2] && s[i + 2]
                <= 191 && 128 <= s[i + 3] && s[i + 3] <= 191 {
                i = i + 4;
            } else {
                return false;
            }
        } else {
            return false;
        }
    }
}

} // verus!
