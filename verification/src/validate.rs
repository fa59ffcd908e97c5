//! Deciding well-formedness: an executable check, proved to agree exactly
//! with the `wf` predicate that the codec's laws are stated over. A caller
//! holding an arbitrary value can decide whether the round-trip guarantee
//! applies to it.

use vstd::prelude::*;

use crate::decode::parse_digit_run;
use crate::laws::lemma_digit_run;
use crate::utf8::check_utf8;
use crate::value::{RespValue, ValModel};
use crate::wire::{
    all_digits_range, is_ascii_digit, line_safe, valid_big_number_token, valid_double_token,
    valid_exp_from, DIGIT_NINE, DIGIT_ZERO, DOT, LOWER_E, MINUS, PLUS, UPPER_E,
};

verus! {

/// Decides whether a byte string is free of line terminators.
fn check_line_safe(s: &Vec<u8>) -> (r: bool)
    ensures
        r == line_safe(s@),
{
    let n = s.len();
    let mut i: usize = 0;
    loop
        invariant
            0 <= i <= n,
            n == s@.len(),
            forall|k: int| 0 <= k < i ==> s@[k] != crate::data_type::CR && s@[k]
                != crate::data_type::LF,
        decreases n - i,
    {
        if i >= n {
            return true;
        }
        let b = s[i];
        if b == crate::data_type::CR || b == crate::data_type::LF {
            return false;
        }
        i = i + 1;
    }
}

/// Decides whether every byte from `a` to the end is a digit.
fn check_all_digits_to_end(t: &[u8], a: usize) -> (r: bool)
    requires
        a <= t@.len(),
    ensures
        r == all_digits_range(t@, a as int, t@.len() as int),
{
    let run = parse_digit_run(t, a);
    proof {
        lemma_digit_run(t@, a as int);
        if a + crate::wire::digit_run(t@, a as int) == t@.len() {
            assert(all_digits_range(t@, a as int, t@.len() as int));
        } else {
            assert(!is_ascii_digit(t@[a + crate::wire::digit_run(t@, a as int)]));
        }
    }
    run == t.len() - a
}

/// Decides whether the bytes of `t` from `j` on form a valid exponent.
fn check_exp_from(t: &[u8], j: usize) -> (r: bool)
    requires
        j <= t@.len(),
    ensures
        r == valid_exp_from(t@, j as int),
{
    let n = t.len();
    if j >= n {
        return false;
    }
    let b = t[j];
    if b != LOWER_E && b != UPPER_E {
        return false;
    }
    let j2 = if j + 1 < n && (t[j + 1] == PLUS || t[j + 1] == MINUS) {
        j + 2
    } else {
        j + 1
    };
    if j2 >= n {
        return false;
    }
    check_all_digits_to_end(t, j2)
}

/// Decides whether `t` fits the double token grammar.
fn check_double_token(t: &Vec<u8>) -> (r: bool)
    ensures
        r == valid_double_token(t@),
{
    let s = t.as_slice();
    let n = s.len();
    let i1: usize = if n > 0 && (s[0] == PLUS || s[0] == MINUS) {
        1
    } else {
        0
    };
    if i1 >= n {
        return false;
    }
    let first = s[i1];
    if first < DIGIT_ZERO || first > DIGIT_NINE {
        return false;
    }
    let i2 = i1 + parse_digit_run(s, i1);
    proof {
        lemma_digit_run(s@, i1 as int);
    }
    if i2 >= n {
        return true;
    }
    if s[i2] == DOT {
        if i2 + 1 >= n {
            return false;
        }
        let frac_first = s[i2 + 1];
        if frac_first < DIGIT_ZERO || frac_first > DIGIT_NINE {
            return false;
        }
        let i3 = i2 + 1 + parse_digit_run(s, i2 + 1);
        if i3 >= n {
            return true;
        }
        check_exp_from(s, i3)
    } else {
        check_exp_from(s, i2)
    }
}

/// Decides whether `t` fits the big-number token grammar.
fn check_big_number_token(t: &Vec<u8>) -> (r: bool)
    ensures
        r == valid_big_number_token(t@),
{
    let s = t.as_slice();
    let n = s.len();
    let i1: usize = if n > 0 && (s[0] == PLUS || s[0] == MINUS) {
        1
    } else {
        0
    };
    if i1 >= n {
        return false;
    }
    check_all_digits_to_end(s, i1)
}

/// Decides whether every value in a vector is well formed.
fn check_all_well_formed(elems: &Vec<RespValue>) -> (r: bool)
    ensures
        r == (forall|k: int|
            0 <= k < elems@.len() ==> (#[trigger] RespValue::model_seq(elems@)[k]).wf()),
    decreases elems,
{
    let n = elems.len();
    let mut i: usize = 0;
    loop
        invariant
            0 <= i <= n,
            n == elems@.len(),
            forall|k: int| 0 <= k < i ==> (#[trigger] RespValue::model_seq(elems@)[k]).wf(),
        decreases n - i,
    {
        if i >= n {
            return true;
        }
        if !elems[i].is_well_formed() {
            proof {
                assert(RespValue::model_seq(elems@)[i as int] == elems@[i as int].model());
            }
            return false;
        }
        proof {
            assert(RespValue::model_seq(elems@)[i as int] == elems@[i as int].model());
        }
        i = i + 1;
    }
}

/// Decides whether every key and value in an entry vector is well formed.
fn check_pairs_well_formed(entries: &Vec<(RespValue, RespValue)>) -> (r: bool)
    ensures
        r == (forall|k: int|
            0 <= k < entries@.len() ==> (#[trigger] RespValue::model_pairs(entries@)[k]).0.wf()
                && (#[trigger] RespValue::model_pairs(entries@)[k]).1.wf()),
    decreases entries,
{
    let n = entries.len();
    let mut i: usize = 0;
    loop
        invariant
            0 <= i <= n,
            n == entries@.len(),
            forall|k: int|
                0 <= k < i ==> (#[trigger] RespValue::model_pairs(entries@)[k]).0.wf() && (
                #[trigger] RespValue::model_pairs(entries@)[k]).1.wf(),
        decreases n - i,
    {
        if i >= n {
            return true;
        }
        let ok = entries[i].0.is_well_formed() && entries[i].1.is_well_formed();
        proof {
            assert(RespValue::model_pairs(entries@)[i as int] == (
                entries@[i as int].0.model(),
                entries@[i as int].1.model(),
            ));
        }
        if !ok {
            return false;
        }
        i = i + 1;
    }
}

/// Decides whether the members of a set are pairwise distinct.
fn check_members_distinct(elems: &Vec<RespValue>) -> (r: bool)
    ensures
        r == (forall|a: int, b: int|
            0 <= a < b < elems@.len() ==> RespValue::model_seq(elems@)[a]
                != RespValue::model_seq(elems@)[b]),
{
    let ghost ms = RespValue::model_seq(elems@);
    let n = elems.len();
    let mut i: usize = 0;
    loop
        invariant
            0 <= i <= n,
            n == elems@.len(),
            ms == RespValue::model_seq(elems@),
            forall|a: int, b: int| 0 <= a < b < i ==> ms[a] != ms[b],
        decreases n - i,
    {
        if i >= n {
            return true;
        }
        let mut j: usize = 0;
        loop
            invariant
                0 <= j <= i < n,
                n == elems@.len(),
                ms == RespValue::model_seq(elems@),
                forall|a: int| 0 <= a < j ==> ms[a] != ms[i as int],
            ensures
                forall|a: int| 0 <= a < i ==> ms[a] != ms[i as int],
            decreases i - j,
        {
            if j >= i {
                break ;
            }
            if elems[j].eq(&elems[i]) {
                proof {
                    assert(ms[j as int] == elems@[j as int].model());
                    assert(ms[i as int] == elems@[i as int].model());
                }
                return false;
            }
            proof {
                assert(ms[j as int] == elems@[j as int].model());
                assert(ms[i as int] == elems@[i as int].model());
            }
            j = j + 1;
        }
        i = i + 1;
    }
}

/// Decides whether the keys of a map are pairwise distinct.
fn check_keys_distinct(entries: &Vec<(RespValue, RespValue)>) -> (r: bool)
    ensures
        r == (forall|a: int, b: int|
            0 <= a < b < entries@.len() ==> RespValue::model_pairs(entries@)[a].0
                != RespValue::model_pairs(entries@)[b].0),
{
    let ghost ms = RespValue::model_pairs(entries@);
    let n = entries.len();
    let mut i: usize = 0;
    loop
        invariant
            0 <= i <= n,
            n == entries@.len(),
            ms == RespValue::model_pairs(entries@),
            forall|a: int, b: int| 0 <= a < b < i ==> ms[a].0 != ms[b].0,
        decreases n - i,
    {
        if i >= n {
            return true;
        }
        let mut j: usize = 0;
        loop
            invariant
                0 <= j <= i < n,
                n == entries@.len(),
                ms == RespValue::model_pairs(entries@),
                forall|a: int| 0 <= a < j ==> ms[a].0 != ms[i as int].0,
            ensures
                forall|a: int| 0 <= a < i ==> ms[a].0 != ms[i as int].0,
            decreases i - j,
        {
            if j >= i {
                break ;
            }
            if entries[j].0.eq(&entries[i].0) {
                proof {
                    assert(ms[j as int].0 == entries@[j as int].0.model());
                    assert(ms[i as int].0 == entries@[i as int].0.model());
                }
                return false;
            }
            proof {
                assert(ms[j as int].0 == entries@[j as int].0.model());
                assert(ms[i as int].0 == entries@[i as int].0.model());
            }
            j = j + 1;
        }
        i = i + 1;
    }
}

impl RespValue {
    /// Decides whether this value is well formed: whether its tokens fit
    /// their grammars, its text is valid UTF-8 with no stray line
    /// terminators, and its sets and maps hold no structural duplicates —
    /// exactly the premise under which the codec's laws guarantee a
    /// faithful round trip over the wire.
    pub fn is_well_formed(&self) -> (r: bool)
        ensures
            r == self.model().wf(),
        decreases self,
    {
        match self {
            RespValue::Null => true,
            RespValue::Boolean(_) => true,
            RespValue::Integer(_) => true,
            RespValue::Double(t) => check_double_token(t),
            RespValue::BigNumber(t) => check_big_number_token(t),
            RespValue::SimpleString(s) => check_line_safe(s) && check_utf8(s.as_slice()),
            RespValue::SimpleError(s) => check_line_safe(s) && check_utf8(s.as_slice()),
            RespValue::BulkString(s) => {
                let len = s.len();
                proof {
                    assert(len == s@.len() && len <= usize::MAX);
                }
                check_utf8(s.as_slice())
            },
            RespValue::BulkError(s) => {
                let len = s.len();
                proof {
                    assert(len == s@.len() && len <= usize::MAX);
                }
                check_utf8(s.as_slice())
            },
            RespValue::VerbatimString(f, t) => {
                let tl = t.len();
                proof {
                    assert(tl == t@.len() && tl <= usize::MAX);
                }
                f.len() == 3 && check_utf8(f.as_slice()) && check_utf8(t.as_slice()) && tl
                    <= usize::MAX - 4
            },
            RespValue::Array(elems) => {
                let len = elems.len();
                proof {
                    assert(len == elems@.len() && RespValue::model_seq(elems@).len()
                        <= usize::MAX);
                }
                check_all_well_formed(elems)
            },
            RespValue::Push(elems) => {
                let len = elems.len();
                proof {
                    assert(len == elems@.len() && RespValue::model_seq(elems@).len()
                        <= usize::MAX);
                }
                check_all_well_formed(elems)
            },
            RespValue::ValueSet(elems) => {
                let len = elems.len();
                proof {
                    assert(len == elems@.len() && RespValue::model_seq(elems@).len()
                        <= usize::MAX);
                }
                check_all_well_formed(elems) && check_members_distinct(elems)
            },
            RespValue::Mapping(entries) => {
                let len = entries.len();
                proof {
                    assert(len == entries@.len() && RespValue::model_pairs(entries@).len()
                        <= usize::MAX);
                }
                check_pairs_well_formed(entries) && check_keys_distinct(entries)
            },
        }
    }
}

} // verus!
