//! The laws of the codec, proved once and for all: a well-formed value's
//! wire rendering decodes back to exactly that value, and no proper prefix
//! of it decodes to anything — the decoder asks for more bytes — so
//! incremental delivery, split at any byte boundary, yields the same value
//! as one delivery.

use vstd::prelude::*;

use crate::data_type::{spec_data_type_of, spec_tag_of, RespDataType, CR, LF};
use crate::value::ValModel;
use crate::wire::{
    dec_bulk_payload, dec_elems, dec_pairs, dec_val, digit_run, digits_of, enc, enc_pairs,
    enc_seq, int_token_of, is_ascii_digit, is_sign, map_fold, map_has_key, scan_big_number,
    scan_digits, scan_double, scan_double_exp, scan_integer, scan_length, scan_line,
    scan_token_end, set_contains, set_fold, valid_big_number_token, valid_double_token,
    valid_exp_from, ScanOutcome, COLON, DIGIT_ZERO, DOT, LOWER_E, LOWER_F, LOWER_T, MINUS,
    UPPER_E,
};

verus! {

/// The value of a digit string folded onto an accumulator, left to right.
pub open spec fn digits_val_from(acc: int, ds: Seq<u8>) -> int
    decreases ds.len(),
{
    if ds.len() == 0 {
        acc
    } else {
        digits_val_from(acc * 10 + (ds[0] - DIGIT_ZERO), ds.drop_first())
    }
}

/// Folding digits never shrinks a nonnegative accumulator.
proof fn lemma_digits_val_from_lb(acc: int, ds: Seq<u8>)
    requires
        acc >= 0,
        forall|t: int| 0 <= t < ds.len() ==> is_ascii_digit(ds[t]),
    ensures
        digits_val_from(acc, ds) >= acc,
    decreases ds.len(),
{
    if ds.len() > 0 {
        assert(is_ascii_digit(ds[0]));
        assert(forall|t: int|
            0 <= t < ds.drop_first().len() ==> is_ascii_digit(ds.drop_first()[t]));
        lemma_digits_val_from_lb(acc * 10 + (ds[0] - DIGIT_ZERO), ds.drop_first());
    }
}

/// Folding one more digit multiplies by ten and adds it.
proof fn lemma_digits_val_from_push(acc: int, ds: Seq<u8>, d: u8)
    ensures
        digits_val_from(acc, ds.push(d)) == digits_val_from(acc, ds) * 10 + (d - DIGIT_ZERO),
    decreases ds.len(),
{
    if ds.len() == 0 {
        assert(ds.push(d).drop_first() =~= Seq::<u8>::empty());
        assert(ds.push(d)[0] == d);
        assert(digits_val_from(acc, ds.push(d)) == digits_val_from(
            acc * 10 + (d - DIGIT_ZERO),
            Seq::<u8>::empty(),
        ));
        assert(digits_val_from(acc, ds) == acc);
    } else {
        let acc2 = acc * 10 + (ds[0] - DIGIT_ZERO);
        assert(ds.push(d)[0] == ds[0]);
        assert(ds.push(d).drop_first() =~= ds.drop_first().push(d));
        lemma_digits_val_from_push(acc2, ds.drop_first(), d);
        assert(digits_val_from(acc, ds.push(d)) == digits_val_from(
            acc2,
            ds.drop_first().push(d),
        ));
        assert(digits_val_from(acc, ds) == digits_val_from(acc2, ds.drop_first()));
    }
}

/// The decimal rendering of `n` holds only digits, at least one, and folds
/// back to `n`.
proof fn lemma_digits_of(n: nat)
    ensures
        digits_of(n).len() >= 1,
        forall|t: int| 0 <= t < digits_of(n).len() ==> is_ascii_digit(#[trigger] digits_of(n)[t]),
        digits_val_from(0, digits_of(n)) == n,
    decreases n,
{
    if n < 10 {
        let ds = seq![(DIGIT_ZERO + n) as u8];
        assert(digits_of(n) == ds);
        assert(ds[0] == DIGIT_ZERO + n);
        assert(ds.drop_first() =~= Seq::<u8>::empty());
        assert(digits_val_from(0, ds) == digits_val_from(
            0 * 10 + (ds[0] - DIGIT_ZERO),
            Seq::<u8>::empty(),
        ));
    } else {
        lemma_digits_of(n / 10);
        let d = (DIGIT_ZERO + n % 10) as u8;
        lemma_digits_val_from_push(0, digits_of(n / 10), d);
        assert(forall|t: int|
            0 <= t < digits_of(n / 10).len() ==> digits_of(n)[t] == digits_of(n / 10)[t]);
        assert(digits_of(n).last() == d);
    }
}

/// A digit window ending in the terminator scans to its folded value.
proof fn lemma_scan_digits_done(s: Seq<u8>, i: int, k: int, acc: int, bound: int)
    requires
        0 <= i,
        k >= 0,
        i + k + 2 <= s.len(),
        forall|t: int| i <= t < i + k ==> is_ascii_digit(#[trigger] s[t]),
        s[i + k] == CR,
        s[i + k + 1] == LF,
        0 <= acc,
        digits_val_from(acc, s.subrange(i, i + k)) <= bound,
    ensures
        scan_digits(s, i, acc, bound) == (ScanOutcome::Done {
            next: i + k + 2,
            val: digits_val_from(acc, s.subrange(i, i + k)),
        }),
    decreases k,
{
    let w = s.subrange(i, i + k);
    if k == 0 {
        assert(!is_ascii_digit(CR));
        assert(w =~= Seq::empty());
    } else {
        assert(is_ascii_digit(s[i]));
        assert(w[0] == s[i]);
        let acc2 = acc * 10 + (s[i] - DIGIT_ZERO);
        assert(w.drop_first() =~= s.subrange(i + 1, i + 1 + (k - 1)));
        assert(digits_val_from(acc, w) == digits_val_from(acc2, w.drop_first()));
        assert(forall|t: int|
            0 <= t < w.drop_first().len() ==> is_ascii_digit(w.drop_first()[t]));
        lemma_digits_val_from_lb(acc2, w.drop_first());
        lemma_scan_digits_done(s, i + 1, k - 1, acc2, bound);
    }
}

/// A byte window equality, stated pointwise.
proof fn lemma_window(s: Seq<u8>, i: int, w: Seq<u8>)
    requires
        0 <= i,
        i + w.len() <= s.len(),
        s.subrange(i, i + w.len()) == w,
    ensures
        forall|u: int| 0 <= u < w.len() ==> s[i + u] == #[trigger] w[u],
{
    assert forall|u: int| 0 <= u < w.len() implies s[i + u] == #[trigger] w[u] by {
        assert(w[u] == s.subrange(i, i + w.len())[u]);
    }
}

/// A line of safe bytes ending in the terminator scans to its content.
proof fn lemma_scan_line_done(s: Seq<u8>, start: int, i: int, k: int)
    requires
        0 <= start <= i,
        k >= 0,
        i + k + 2 <= s.len(),
        forall|t: int| i <= t < i + k ==> #[trigger] s[t] != CR && s[t] != LF,
        s[i + k] == CR,
        s[i + k + 1] == LF,
    ensures
        scan_line(s, start, i) == (ScanOutcome::Done {
            next: i + k + 2,
            val: s.subrange(start, i + k),
        }),
    decreases k,
{
    if k == 0 {
    } else {
        lemma_scan_line_done(s, start, i + 1, k - 1);
    }
}

/// The run of digits starting anywhere is within bounds, holds only
/// digits, and stops at the first non-digit.
pub proof fn lemma_digit_run(s: Seq<u8>, i: int)
    requires
        0 <= i <= s.len(),
    ensures
        0 <= digit_run(s, i),
        i + digit_run(s, i) <= s.len(),
        forall|t: int| i <= t < i + digit_run(s, i) ==> is_ascii_digit(#[trigger] s[t]),
        i + digit_run(s, i) == s.len() || !is_ascii_digit(s[i + digit_run(s, i)]),
    decreases s.len() - i,
{
    if i < s.len() && is_ascii_digit(s[i]) {
        lemma_digit_run(s, i + 1);
    }
}

/// A maximal digit run determines `digit_run` exactly.
proof fn lemma_digit_run_window(s: Seq<u8>, i: int, k: int)
    requires
        0 <= i,
        k >= 0,
        i + k <= s.len(),
        forall|t: int| i <= t < i + k ==> is_ascii_digit(#[trigger] s[t]),
        i + k == s.len() || !is_ascii_digit(s[i + k]),
    ensures
        digit_run(s, i) == k,
    decreases k,
{
    if k == 0 {
    } else {
        lemma_digit_run_window(s, i + 1, k - 1);
    }
}

/// The rendering of an unsigned length followed by the terminator scans
/// back to that length.
proof fn lemma_scan_length_done(s: Seq<u8>, i: int, n: nat)
    requires
        0 <= i,
        n <= usize::MAX,
        i + digits_of(n).len() + 2 <= s.len(),
        s.subrange(i, i + digits_of(n).len()) == digits_of(n),
        s[i + digits_of(n).len()] == CR,
        s[i + digits_of(n).len() + 1] == LF,
    ensures
        scan_length(s, i) == (ScanOutcome::Done {
            next: i + digits_of(n).len() + 2,
            val: n as int,
        }),
{
    let d = digits_of(n).len() as int;
    lemma_digits_of(n);
    lemma_window(s, i, digits_of(n));
    assert(forall|t: int| i <= t < i + d ==> is_ascii_digit(#[trigger] s[t])) by {
        assert(forall|t: int|
            i <= t < i + d ==> #[trigger] s[t] == digits_of(n)[t - i] && is_ascii_digit(
                digits_of(n)[t - i],
            ));
    }
    assert(s.subrange(i, i + d) =~= digits_of(n));
    lemma_scan_digits_done(s, i, d, 0, usize::MAX as int);
    assert(s[i] == digits_of(n)[0]);
}

/// The rendering of a 64-bit integer followed by the terminator scans back
/// to its value.
proof fn lemma_scan_integer_done(s: Seq<u8>, i: int, v: int)
    requires
        0 <= i,
        i64::MIN <= v <= i64::MAX,
        i + int_token_of(v).len() + 2 <= s.len(),
        s.subrange(i, i + int_token_of(v).len()) == int_token_of(v),
        s[i + int_token_of(v).len()] == CR,
        s[i + int_token_of(v).len() + 1] == LF,
    ensures
        scan_integer(s, i) == (ScanOutcome::Done {
            next: i + int_token_of(v).len() + 2,
            val: v,
        }),
{
    let w = int_token_of(v);
    lemma_window(s, i, w);
    if v < 0 {
        let mag = (-v) as nat;
        lemma_digits_of(mag);
        let d = digits_of(mag).len() as int;
        assert(w[0] == MINUS);
        assert(s[i] == MINUS);
        assert(!is_ascii_digit(MINUS) && is_sign(MINUS));
        assert(forall|t: int|
            0 <= t < d ==> #[trigger] digits_of(mag)[t] == w[t + 1]);
        assert(forall|t: int| i + 1 <= t < i + 1 + d ==> is_ascii_digit(#[trigger] s[t])) by {
            assert(forall|t: int|
                i + 1 <= t < i + 1 + d ==> #[trigger] s[t] == w[t - i] && w[t - i] == digits_of(
                    mag,
                )[t - i - 1]);
        }
        assert(s.subrange(i + 1, i + 1 + d) =~= digits_of(mag));
        assert(s[i + 1 + d] == CR && s[i + 1 + d + 1] == LF);
        lemma_scan_digits_done(s, i + 1, d, 0, 0x8000000000000000);
        assert(s[i + 1] == digits_of(mag)[0]);
        assert(is_ascii_digit(s[i + 1]));
    } else {
        let mag = v as nat;
        lemma_digits_of(mag);
        let d = digits_of(mag).len() as int;
        assert(w =~= digits_of(mag));
        assert(s[i] == digits_of(mag)[0]);
        assert(is_ascii_digit(s[i]) && !is_sign(s[i]));
        assert(forall|t: int| i <= t < i + d ==> is_ascii_digit(#[trigger] s[t])) by {
            assert(forall|t: int|
                i <= t < i + d ==> #[trigger] s[t] == w[t - i]);
        }
        assert(s.subrange(i, i + d) =~= digits_of(mag));
        lemma_scan_digits_done(s, i, d, 0, 0x7fffffffffffffff);
    }
}

/// A big-number token followed by the terminator scans back to itself.
proof fn lemma_scan_big_number_done(s: Seq<u8>, i: int, t: Seq<u8>)
    requires
        0 <= i,
        valid_big_number_token(t),
        i + t.len() + 2 <= s.len(),
        s.subrange(i, i + t.len()) == t,
        s[i + t.len()] == CR,
        s[i + t.len() + 1] == LF,
    ensures
        scan_big_number(s, i) == (ScanOutcome::Done { next: i + t.len() + 2, val: t }),
{
    let l = t.len() as int;
    lemma_window(s, i, t);
    let i1: int = if is_sign(t[0]) {
        1
    } else {
        0
    };
    assert(s[i] == t[0]);
    assert(forall|u: int| i + i1 <= u < i + l ==> is_ascii_digit(#[trigger] s[u])) by {
        assert(forall|u: int| i + i1 <= u < i + l ==> #[trigger] s[u] == t[u - i]);
    }
    assert(!is_ascii_digit(CR));
    lemma_digit_run_window(s, i + i1, l - i1);
    assert(s[i + i1] == t[i1]);
    assert(s.subrange(i, i + l) == t);
}

/// A double token followed by the terminator scans back to itself.
proof fn lemma_scan_double_done(s: Seq<u8>, i: int, t: Seq<u8>)
    requires
        0 <= i,
        valid_double_token(t),
        i + t.len() + 2 <= s.len(),
        s.subrange(i, i + t.len()) == t,
        s[i + t.len()] == CR,
        s[i + t.len() + 1] == LF,
    ensures
        scan_double(s, i) == (ScanOutcome::Done { next: i + t.len() + 2, val: t }),
{
    let l = t.len() as int;
    lemma_window(s, i, t);
    assert(forall|u: int| 0 <= u < l ==> s[i + u] == #[trigger] t[u]);
    let i1: int = if is_sign(t[0]) {
        1
    } else {
        0
    };
    assert(s[i] == t[0]);
    lemma_digit_run(t, i1);
    let i2 = i1 + digit_run(t, i1);
    assert(forall|u: int| i + i1 <= u < i + i2 ==> is_ascii_digit(#[trigger] s[u])) by {
        assert(forall|u: int|
            i + i1 <= u < i + i2 ==> #[trigger] s[u] == t[u - i] && is_ascii_digit(t[u - i]));
    }
    assert(!is_ascii_digit(CR));
    assert(i2 == l || !is_ascii_digit(t[i2]));
    if i2 < l {
        assert(s[i + i2] == t[i2]);
    }
    lemma_digit_run_window(s, i + i1, i2 - i1);
    assert(s[i + i1] == t[i1]);
    assert(s.subrange(i, i + l) == t);
    if i2 == l {
        // the token ends after the integral digits
        assert(scan_double(s, i) == scan_double_exp(s, i, i + l));
    } else if t[i2] == DOT && i2 + 1 < l && is_ascii_digit(t[i2 + 1]) {
        // a fraction follows
        lemma_digit_run(t, i2 + 1);
        let i3 = i2 + 1 + digit_run(t, i2 + 1);
        assert(forall|u: int| i + i2 + 1 <= u < i + i3 ==> is_ascii_digit(#[trigger] s[u])) by {
            assert(forall|u: int|
                i + i2 + 1 <= u < i + i3 ==> #[trigger] s[u] == t[u - i] && is_ascii_digit(
                    t[u - i],
                ));
        }
        assert(i3 == l || !is_ascii_digit(t[i3]));
        if i3 < l {
            assert(s[i + i3] == t[i3]);
        }
        lemma_digit_run_window(s, i + i2 + 1, i3 - (i2 + 1));
        assert(s[i + i2 + 1] == t[i2 + 1]);
        if i3 == l {
            assert(scan_double(s, i) == scan_double_exp(s, i, i + l));
        } else {
            assert(valid_exp_from(t, i3));
            lemma_scan_double_exp_done(s, i, t, i3);
        }
    } else {
        assert(valid_exp_from(t, i2));
        lemma_scan_double_exp_done(s, i, t, i2);
    }
}

/// A valid exponent at `j` followed by the terminator completes the token.
proof fn lemma_scan_double_exp_done(s: Seq<u8>, i: int, t: Seq<u8>, j: int)
    requires
        0 <= i,
        0 <= j,
        valid_exp_from(t, j),
        i + t.len() + 2 <= s.len(),
        s.subrange(i, i + t.len()) == t,
        s[i + t.len()] == CR,
        s[i + t.len() + 1] == LF,
    ensures
        scan_double_exp(s, i, i + j) == (ScanOutcome::Done { next: i + t.len() + 2, val: t }),
{
    let l = t.len() as int;
    lemma_window(s, i, t);
    assert(s[i + j] == t[j]);
    let j2: int = if j + 1 < l && is_sign(t[j + 1]) {
        j + 2
    } else {
        j + 1
    };
    assert(j + 1 < l ==> s[i + j + 1] == t[j + 1]);
    assert(j2 < l);
    assert(s[i + j2] == t[j2]);
    assert(forall|u: int| i + j2 <= u < i + l ==> is_ascii_digit(#[trigger] s[u])) by {
        assert(forall|u: int| i + j2 <= u < i + l ==> #[trigger] s[u] == t[u - i]);
    }
    assert(!is_ascii_digit(CR));
    lemma_digit_run_window(s, i + j2, l - j2);
    assert(s.subrange(i, i + l) == t);
}

/// A window over a concatenation splits into windows over the parts.
proof fn lemma_window_concat(s: Seq<u8>, i: int, a: Seq<u8>, b: Seq<u8>)
    requires
        0 <= i,
        i + a.len() + b.len() <= s.len(),
        s.subrange(i, i + a.len() + b.len()) == a + b,
    ensures
        s.subrange(i, i + a.len()) == a,
        s.subrange(i + a.len(), i + a.len() + b.len()) == b,
{
    let w = a + b;
    lemma_window(s, i, w);
    assert forall|u: int| 0 <= u < a.len() implies s.subrange(i, i + a.len())[u] == a[u] by {
        assert(s[i + u] == w[u]);
    }
    assert(s.subrange(i, i + a.len()) =~= a);
    assert forall|u: int| 0 <= u < b.len() implies s.subrange(
        i + a.len(),
        i + a.len() + b.len(),
    )[u] == b[u] by {
        assert(s[i + a.len() + u] == w[a.len() + u]);
    }
    assert(s.subrange(i + a.len(), i + a.len() + b.len()) =~= b);
}

/// Every rendering carries at least its tag and terminator.
proof fn lemma_enc_len(m: ValModel)
    ensures
        enc(m).len() >= 3,
{
    match m {
        ValModel::Null => {},
        ValModel::Boolean(_) => {},
        ValModel::Integer(_) => {},
        ValModel::Double(_) => {},
        ValModel::BigNumber(_) => {},
        ValModel::SimpleString(_) => {},
        ValModel::SimpleError(_) => {},
        ValModel::BulkString(_) => {},
        ValModel::BulkError(_) => {},
        ValModel::VerbatimString(_, _) => {},
        ValModel::Array(_) => {},
        ValModel::Push(_) => {},
        ValModel::Mapping(_) => {},
        ValModel::ValueSet(_) => {},
    }
}

/// Folding pairwise distinct members into a set rebuilds them unchanged.
proof fn lemma_set_fold_distinct(elems: Seq<ValModel>)
    requires
        forall|i: int, j: int| 0 <= i < j < elems.len() ==> elems[i] != elems[j],
    ensures
        set_fold(elems) == elems,
    decreases elems.len(),
{
    if elems.len() > 0 {
        let front = elems.drop_last();
        assert(forall|i: int, j: int| 0 <= i < j < front.len() ==> front[i] != front[j]) by {
            assert(forall|i: int| 0 <= i < front.len() ==> front[i] == elems[i]);
        }
        lemma_set_fold_distinct(front);
        assert(!set_contains(front, elems.last())) by {
            if set_contains(front, elems.last()) {
                let w = choose|i: int| 0 <= i < front.len() && front[i] == elems.last();
                assert(elems[w] == elems[elems.len() - 1]);
            }
        }
        assert(front.push(elems.last()) =~= elems);
    }
}

/// Folding entries with pairwise distinct keys into a map rebuilds them
/// unchanged.
proof fn lemma_map_fold_distinct(entries: Seq<(ValModel, ValModel)>)
    requires
        forall|i: int, j: int| 0 <= i < j < entries.len() ==> entries[i].0 != entries[j].0,
    ensures
        map_fold(entries) == entries,
    decreases entries.len(),
{
    if entries.len() > 0 {
        let front = entries.drop_last();
        assert(forall|i: int, j: int| 0 <= i < j < front.len() ==> front[i].0 != front[j].0) by {
            assert(forall|i: int| 0 <= i < front.len() ==> front[i] == entries[i]);
        }
        lemma_map_fold_distinct(front);
        assert(!map_has_key(front, entries.last().0)) by {
            if map_has_key(front, entries.last().0) {
                let w = choose|i: int|
                    0 <= i < front.len() && front[i].0 == entries.last().0;
                assert(entries[w].0 == entries[entries.len() - 1].0);
            }
        }
        assert((entries.last().0, entries.last().1) == entries.last());
        assert(front.push(entries.last()) =~= entries);
    }
}

/// A well-formed value's rendering, wherever it stands in a buffer, decodes
/// back to exactly that value, consuming exactly its bytes.
#[verifier::rlimit(100)]
pub proof fn lemma_dec_at(s: Seq<u8>, i: int, m: ValModel)
    requires
        m.wf(),
        0 <= i,
        i + enc(m).len() <= s.len(),
        s.subrange(i, i + enc(m).len()) == enc(m),
    ensures
        dec_val(s, i) == (ScanOutcome::Done { next: i + enc(m).len(), val: m }),
    decreases m, 0int, 1int,
{
    let e = enc(m);
    lemma_window(s, i, e);
    assert(s[i] == e[0]);
    crate::data_type::lemma_tag_table_injective(m.data_type(), m.data_type());
    match m {
        ValModel::Null => {
            assert(e[0] == spec_tag_of(RespDataType::Null) && e[1] == CR && e[2] == LF);
            assert(s[i + 1] == e[1] && s[i + 2] == e[2]);
        },
        ValModel::Boolean(b) => {
            assert(e[1] == (if b {
                LOWER_T
            } else {
                LOWER_F
            }) && e[2] == CR && e[3] == LF);
            assert(s[i + 1] == e[1] && s[i + 2] == e[2] && s[i + 3] == e[3]);
        },
        ValModel::Integer(v) => {
            let tok = int_token_of(v as int);
            assert(e =~= seq![e[0]] + (tok + crate::wire::crlf()));
            lemma_window_concat(s, i, seq![e[0]], tok + crate::wire::crlf());
            lemma_window_concat(s, i + 1, tok, crate::wire::crlf());
            lemma_window(s, i + 1 + tok.len(), crate::wire::crlf());
            assert(s[i + 1 + tok.len()] == CR && s[i + 1 + tok.len() + 1] == LF);
            lemma_scan_integer_done(s, i + 1, v as int);
        },
        ValModel::Double(t) => {
            assert(e =~= seq![e[0]] + (t + crate::wire::crlf()));
            lemma_window_concat(s, i, seq![e[0]], t + crate::wire::crlf());
            lemma_window_concat(s, i + 1, t, crate::wire::crlf());
            lemma_window(s, i + 1 + t.len(), crate::wire::crlf());
            assert(s[i + 1 + t.len()] == CR && s[i + 1 + t.len() + 1] == LF);
            lemma_scan_double_done(s, i + 1, t);
        },
        ValModel::BigNumber(t) => {
            assert(e =~= seq![e[0]] + (t + crate::wire::crlf()));
            lemma_window_concat(s, i, seq![e[0]], t + crate::wire::crlf());
            lemma_window_concat(s, i + 1, t, crate::wire::crlf());
            lemma_window(s, i + 1 + t.len(), crate::wire::crlf());
            assert(s[i + 1 + t.len()] == CR && s[i + 1 + t.len() + 1] == LF);
            lemma_scan_big_number_done(s, i + 1, t);
        },
        ValModel::SimpleString(c) => {
            assert(e =~= seq![e[0]] + (c + crate::wire::crlf()));
            lemma_window_concat(s, i, seq![e[0]], c + crate::wire::crlf());
            lemma_window_concat(s, i + 1, c, crate::wire::crlf());
            lemma_window(s, i + 1, c);
            lemma_window(s, i + 1 + c.len(), crate::wire::crlf());
            assert(s[i + 1 + c.len()] == CR && s[i + 1 + c.len() + 1] == LF);
            assert(forall|u: int|
                i + 1 <= u < i + 1 + c.len() ==> #[trigger] s[u] != CR && s[u] != LF) by {
                assert(forall|u: int|
                    i + 1 <= u < i + 1 + c.len() ==> #[trigger] s[u] == c[u - i - 1]
                        && crate::wire::line_safe(c));
            }
            lemma_scan_line_done(s, i + 1, i + 1, c.len() as int);
            assert(s.subrange(i + 1, i + 1 + c.len()) == c);
        },
        ValModel::SimpleError(c) => {
            assert(e =~= seq![e[0]] + (c + crate::wire::crlf()));
            lemma_window_concat(s, i, seq![e[0]], c + crate::wire::crlf());
            lemma_window_concat(s, i + 1, c, crate::wire::crlf());
            lemma_window(s, i + 1, c);
            lemma_window(s, i + 1 + c.len(), crate::wire::crlf());
            assert(s[i + 1 + c.len()] == CR && s[i + 1 + c.len() + 1] == LF);
            assert(forall|u: int|
                i + 1 <= u < i + 1 + c.len() ==> #[trigger] s[u] != CR && s[u] != LF) by {
                assert(forall|u: int|
                    i + 1 <= u < i + 1 + c.len() ==> #[trigger] s[u] == c[u - i - 1]
                        && crate::wire::line_safe(c));
            }
            lemma_scan_line_done(s, i + 1, i + 1, c.len() as int);
            assert(s.subrange(i + 1, i + 1 + c.len()) == c);
        },
        ValModel::BulkString(p) => {
            assert(e =~= seq![e[0]] + digits_of(p.len()) + crate::wire::crlf() + p
                + crate::wire::crlf());
            lemma_dec_bulk_window(s, i, p, e[0]);
        },
        ValModel::BulkError(p) => {
            assert(e =~= seq![e[0]] + digits_of(p.len()) + crate::wire::crlf() + p
                + crate::wire::crlf());
            lemma_dec_bulk_window(s, i, p, e[0]);
        },
        ValModel::VerbatimString(f, t) => {
            let p = f + seq![COLON] + t;
            assert(e =~= seq![e[0]] + digits_of(p.len()) + crate::wire::crlf() + p
                + crate::wire::crlf()) by {
                assert(p.len() == f.len() + 1 + t.len());
            }
            lemma_dec_bulk_window(s, i, p, e[0]);
            assert(p.len() >= 4);
            assert(p[3] == COLON);
            assert(p.subrange(0, 3) =~= f);
            assert(p.subrange(4, p.len() as int) =~= t);
        },
        ValModel::Array(elems) => {
            lemma_dec_aggregate_at(s, i, m, elems);
        },
        ValModel::Push(elems) => {
            lemma_dec_aggregate_at(s, i, m, elems);
        },
        ValModel::ValueSet(elems) => {
            lemma_dec_aggregate_at(s, i, m, elems);
            lemma_set_fold_distinct(elems);
        },
        ValModel::Mapping(entries) => {
            let d = digits_of(entries.len()).len() as int;
            assert(e =~= (seq![e[0]] + digits_of(entries.len()) + crate::wire::crlf())
                + enc_pairs(entries));
            lemma_window_concat(
                s,
                i,
                seq![e[0]] + digits_of(entries.len()) + crate::wire::crlf(),
                enc_pairs(entries),
            );
            let head = seq![e[0]] + digits_of(entries.len()) + crate::wire::crlf();
            assert(head =~= (seq![e[0]] + digits_of(entries.len())) + crate::wire::crlf());
            lemma_window_concat(
                s,
                i,
                seq![e[0]] + digits_of(entries.len()),
                crate::wire::crlf(),
            );
            lemma_window_concat(s, i, seq![e[0]], digits_of(entries.len()));
            lemma_window(s, i + 1 + d, crate::wire::crlf());
            assert(s[i + 1 + d] == CR && s[i + 1 + d + 1] == LF);
            lemma_scan_length_done(s, i + 1, entries.len());
            let j = i + 1 + d + 2;
            lemma_dec_pairs_at(s, j, entries);
            lemma_map_fold_distinct(entries);
        },
    }
}

/// The shared bulk argument: tag, declared length, payload, terminator.
proof fn lemma_dec_bulk_window(s: Seq<u8>, i: int, p: Seq<u8>, tag: u8)
    requires
        0 <= i,
        p.len() <= usize::MAX,
        i + 1 + digits_of(p.len()).len() + 2 + p.len() + 2 <= s.len(),
        s.subrange(i, i + 1 + digits_of(p.len()).len() + 2 + p.len() + 2) == seq![tag]
            + digits_of(p.len()) + crate::wire::crlf() + p + crate::wire::crlf(),
    ensures
        dec_bulk_payload(s, i + 1) == (ScanOutcome::Done {
            next: i + 1 + digits_of(p.len()).len() + 2 + p.len() + 2,
            val: p,
        }),
{
    let d = digits_of(p.len()).len() as int;
    let e = seq![tag] + digits_of(p.len()) + crate::wire::crlf() + p + crate::wire::crlf();
    assert(e =~= (seq![tag] + digits_of(p.len()) + crate::wire::crlf() + p)
        + crate::wire::crlf());
    lemma_window_concat(
        s,
        i,
        seq![tag] + digits_of(p.len()) + crate::wire::crlf() + p,
        crate::wire::crlf(),
    );
    assert(seq![tag] + digits_of(p.len()) + crate::wire::crlf() + p =~= (seq![tag] + digits_of(
        p.len(),
    ) + crate::wire::crlf()) + p);
    lemma_window_concat(s, i, seq![tag] + digits_of(p.len()) + crate::wire::crlf(), p);
    assert(seq![tag] + digits_of(p.len()) + crate::wire::crlf() =~= (seq![tag] + digits_of(
        p.len(),
    )) + crate::wire::crlf());
    lemma_window_concat(s, i, seq![tag] + digits_of(p.len()), crate::wire::crlf());
    lemma_window_concat(s, i, seq![tag], digits_of(p.len()));
    lemma_window(s, i + 1 + d, crate::wire::crlf());
    assert(s[i + 1 + d] == CR && s[i + 1 + d + 1] == LF);
    lemma_scan_length_done(s, i + 1, p.len());
    let j = i + 1 + d + 2;
    lemma_window(s, i + 1 + d + 2 + p.len(), crate::wire::crlf());
    assert(s[j + p.len()] == CR && s[j + p.len() + 1] == LF);
    assert(s.subrange(j, j + p.len()) == p);
}

/// The shared aggregate argument: tag, element count, elements in order.
proof fn lemma_dec_aggregate_at(s: Seq<u8>, i: int, m: ValModel, elems: Seq<ValModel>)
    requires
        0 <= i,
        elems.len() <= usize::MAX,
        forall|k: int| 0 <= k < elems.len() ==> (#[trigger] elems[k]).wf(),
        enc(m) == seq![enc(m)[0]] + digits_of(elems.len()) + crate::wire::crlf() + enc_seq(elems),
        i + enc(m).len() <= s.len(),
        s.subrange(i, i + enc(m).len()) == enc(m),
    ensures
        scan_length(s, i + 1) == (ScanOutcome::Done {
            next: i + 1 + digits_of(elems.len()).len() + 2,
            val: elems.len() as int,
        }),
        dec_elems(s, i + 1 + digits_of(elems.len()).len() + 2, elems.len() as int)
            == (ScanOutcome::Done { next: i + enc(m).len(), val: elems }),
    decreases elems, 1int, 0int,
{
    let e = enc(m);
    let d = digits_of(elems.len()).len() as int;
    assert(e =~= (seq![e[0]] + digits_of(elems.len()) + crate::wire::crlf()) + enc_seq(elems));
    lemma_window_concat(
        s,
        i,
        seq![e[0]] + digits_of(elems.len()) + crate::wire::crlf(),
        enc_seq(elems),
    );
    assert(seq![e[0]] + digits_of(elems.len()) + crate::wire::crlf() =~= (seq![e[0]] + digits_of(
        elems.len(),
    )) + crate::wire::crlf());
    lemma_window_concat(s, i, seq![e[0]] + digits_of(elems.len()), crate::wire::crlf());
    lemma_window_concat(s, i, seq![e[0]], digits_of(elems.len()));
    lemma_window(s, i + 1 + d, crate::wire::crlf());
    assert(s[i + 1 + d] == CR && s[i + 1 + d + 1] == LF);
    lemma_scan_length_done(s, i + 1, elems.len());
    let j = i + 1 + d + 2;
    lemma_dec_elems_at(s, j, elems);
}

/// Consecutive well-formed renderings decode back element by element.
proof fn lemma_dec_elems_at(s: Seq<u8>, i: int, ms: Seq<ValModel>)
    requires
        forall|k: int| 0 <= k < ms.len() ==> (#[trigger] ms[k]).wf(),
        0 <= i,
        i + enc_seq(ms).len() <= s.len(),
        s.subrange(i, i + enc_seq(ms).len()) == enc_seq(ms),
    ensures
        dec_elems(s, i, ms.len() as int) == (ScanOutcome::Done {
            next: i + enc_seq(ms).len(),
            val: ms,
        }),
    decreases ms, 0int, 0int,
{
    if ms.len() == 0 {
        assert(ms =~= Seq::<ValModel>::empty());
    } else {
        let e0 = enc(ms[0]);
        let rest = ms.drop_first();
        assert(enc_seq(ms) == e0 + enc_seq(rest));
        lemma_window_concat(s, i, e0, enc_seq(rest));
        lemma_enc_len(ms[0]);
        lemma_dec_at(s, i, ms[0]);
        let j = i + e0.len();
        assert(forall|k: int| 0 <= k < rest.len() ==> (#[trigger] rest[k]).wf()) by {
            assert(forall|k: int| 0 <= k < rest.len() ==> rest[k] == ms[k + 1]);
        }
        lemma_dec_elems_at(s, j, rest);
        assert(seq![ms[0]] + rest =~= ms);
    }
}

/// Consecutive well-formed key-value renderings decode back pair by pair.
proof fn lemma_dec_pairs_at(s: Seq<u8>, i: int, ps: Seq<(ValModel, ValModel)>)
    requires
        forall|k: int|
            0 <= k < ps.len() ==> (#[trigger] ps[k]).0.wf() && (#[trigger] ps[k]).1.wf(),
        0 <= i,
        i + enc_pairs(ps).len() <= s.len(),
        s.subrange(i, i + enc_pairs(ps).len()) == enc_pairs(ps),
    ensures
        dec_pairs(s, i, ps.len() as int) == (ScanOutcome::Done {
            next: i + enc_pairs(ps).len(),
            val: ps,
        }),
    decreases ps, 0int, 0int,
{
    if ps.len() == 0 {
        assert(ps =~= Seq::<(ValModel, ValModel)>::empty());
    } else {
        let ek = enc(ps[0].0);
        let ev = enc(ps[0].1);
        let rest = ps.drop_first();
        assert(enc_pairs(ps) == ek + ev + enc_pairs(rest));
        assert(ek + ev + enc_pairs(rest) =~= (ek + ev) + enc_pairs(rest));
        lemma_window_concat(s, i, ek + ev, enc_pairs(rest));
        lemma_window_concat(s, i, ek, ev);
        lemma_enc_len(ps[0].0);
        lemma_enc_len(ps[0].1);
        lemma_dec_at(s, i, ps[0].0);
        let jk = i + ek.len();
        lemma_dec_at(s, jk, ps[0].1);
        let jv = jk + ev.len();
        assert(dec_elems(s, jv as int, 0) == (ScanOutcome::Done {
            next: jv as int,
            val: Seq::<ValModel>::empty(),
        }));
        assert(dec_elems(s, jk as int, 1) == (ScanOutcome::Done {
            next: jv as int,
            val: seq![ps[0].1] + Seq::<ValModel>::empty(),
        }));
        assert(dec_elems(s, i, 2) == (ScanOutcome::Done {
            next: jv as int,
            val: seq![ps[0].0] + (seq![ps[0].1] + Seq::<ValModel>::empty()),
        }));
        let two = seq![ps[0].0] + (seq![ps[0].1] + Seq::<ValModel>::empty());
        assert(two.len() == 2 && two[0] == ps[0].0 && two[1] == ps[0].1);
        assert(forall|k: int|
            0 <= k < rest.len() ==> (#[trigger] rest[k]).0.wf() && (#[trigger] rest[k]).1.wf())
            by {
            assert(forall|k: int| 0 <= k < rest.len() ==> rest[k] == ps[k + 1]);
        }
        lemma_dec_pairs_at(s, jv, rest);
        assert((two[0], two[1]) == ps[0]);
        assert(seq![(two[0], two[1])] + rest =~= ps);
    }
}

// ---------------------------------------------------------------------------
// Stability under appended bytes: a settled outcome never changes when more
// of the stream arrives; only "need more bytes" can be revised.
// ---------------------------------------------------------------------------

/// A settled digit scan is unchanged by appended bytes and ends within the
/// bytes it has seen.
proof fn lemma_scan_digits_ext(s: Seq<u8>, ext: Seq<u8>, i: int, acc: int, bound: int)
    requires
        0 <= i <= s.len(),
        0 <= acc,
    ensures
        match scan_digits(s, i, acc, bound) {
            ScanOutcome::Done { next, val } => i <= next <= s.len() && acc <= val && scan_digits(
                s + ext,
                i,
                acc,
                bound,
            ) == (ScanOutcome::Done { next, val }),
            ScanOutcome::Need => true,
            ScanOutcome::Fail(e) => scan_digits(s + ext, i, acc, bound) == ScanOutcome::<
                int,
            >::Fail(e),
        },
    decreases s.len() - i,
{
    if i >= s.len() {
    } else {
        assert((s + ext)[i] == s[i]);
        if is_ascii_digit(s[i]) {
            let acc2 = acc * 10 + (s[i] - DIGIT_ZERO);
            if acc2 > bound {
            } else {
                lemma_scan_digits_ext(s, ext, i + 1, acc2, bound);
            }
        } else if s[i] == CR {
            if i + 1 >= s.len() {
            } else {
                assert((s + ext)[i + 1] == s[i + 1]);
            }
        }
    }
}

/// A settled line scan is unchanged by appended bytes.
proof fn lemma_scan_line_ext(s: Seq<u8>, ext: Seq<u8>, start: int, i: int)
    requires
        0 <= start <= i <= s.len(),
    ensures
        match scan_line(s, start, i) {
            ScanOutcome::Done { next, val } => i <= next <= s.len() && scan_line(
                s + ext,
                start,
                i,
            ) == (ScanOutcome::Done { next, val }),
            ScanOutcome::Need => true,
            ScanOutcome::Fail(e) => scan_line(s + ext, start, i) == ScanOutcome::<
                Seq<u8>,
            >::Fail(e),
        },
    decreases s.len() - i,
{
    if i >= s.len() {
    } else {
        assert((s + ext)[i] == s[i]);
        if s[i] == CR {
            if i + 1 >= s.len() {
            } else {
                assert((s + ext)[i + 1] == s[i + 1]);
                if s[i + 1] == LF {
                    assert((s + ext).subrange(start, i) =~= s.subrange(start, i));
                }
            }
        } else if s[i] == LF {
        } else {
            lemma_scan_line_ext(s, ext, start, i + 1);
        }
    }
}

/// A settled length scan is unchanged by appended bytes.
proof fn lemma_scan_length_ext(s: Seq<u8>, ext: Seq<u8>, i: int)
    requires
        0 <= i <= s.len(),
    ensures
        match scan_length(s, i) {
            ScanOutcome::Done { next, val } => i <= next <= s.len() && 0 <= val && scan_length(
                s + ext,
                i,
            ) == (ScanOutcome::Done { next, val }),
            ScanOutcome::Need => true,
            ScanOutcome::Fail(e) => scan_length(s + ext, i) == ScanOutcome::<int>::Fail(e),
        },
{
    if i < s.len() {
        assert((s + ext)[i] == s[i]);
        if is_ascii_digit(s[i]) {
            lemma_scan_digits_ext(s, ext, i, 0, usize::MAX as int);
        }
    }
}

/// A settled integer scan is unchanged by appended bytes.
proof fn lemma_scan_integer_ext(s: Seq<u8>, ext: Seq<u8>, i: int)
    requires
        0 <= i <= s.len(),
    ensures
        match scan_integer(s, i) {
            ScanOutcome::Done { next, val } => i <= next <= s.len() && scan_integer(s + ext, i)
                == (ScanOutcome::Done { next, val }),
            ScanOutcome::Need => true,
            ScanOutcome::Fail(e) => scan_integer(s + ext, i) == ScanOutcome::<int>::Fail(e),
        },
{
    if i < s.len() {
        assert((s + ext)[i] == s[i]);
        let i1 = if is_sign(s[i]) {
            i + 1
        } else {
            i
        };
        if i1 < s.len() {
            assert((s + ext)[i1] == s[i1]);
            if is_ascii_digit(s[i1]) {
                let bound = if s[i] == MINUS {
                    0x8000000000000000
                } else {
                    0x7fffffffffffffff
                };
                lemma_scan_digits_ext(s, ext, i1, 0, bound);
            }
        }
    }
}

/// A digit run bounded by a non-digit inside the seen bytes is unchanged by
/// appended bytes.
proof fn lemma_digit_run_ext(s: Seq<u8>, ext: Seq<u8>, i: int)
    requires
        0 <= i <= s.len(),
        i + digit_run(s, i) < s.len(),
    ensures
        digit_run(s + ext, i) == digit_run(s, i),
{
    lemma_digit_run(s, i);
    let k = digit_run(s, i);
    assert(forall|t: int| i <= t < i + k ==> is_ascii_digit(#[trigger] (s + ext)[t])) by {
        assert(forall|t: int|
            i <= t < i + k ==> #[trigger] (s + ext)[t] == s[t] && is_ascii_digit(s[t]));
    }
    assert((s + ext)[i + k] == s[i + k]);
    lemma_digit_run_window(s + ext, i, k);
}

/// A settled token terminator is unchanged by appended bytes.
proof fn lemma_scan_token_end_ext(s: Seq<u8>, ext: Seq<u8>, start: int, j: int)
    requires
        0 <= start <= j,
    ensures
        match scan_token_end(s, start, j) {
            ScanOutcome::Done { next, val } => j <= next <= s.len() && scan_token_end(
                s + ext,
                start,
                j,
            ) == (ScanOutcome::Done { next, val }),
            ScanOutcome::Need => true,
            ScanOutcome::Fail(e) => j < s.len() && scan_token_end(s + ext, start, j)
                == ScanOutcome::<Seq<u8>>::Fail(e),
        },
{
    if j < s.len() {
        assert((s + ext)[j] == s[j]);
        if s[j] == CR && j + 1 < s.len() {
            assert((s + ext)[j + 1] == s[j + 1]);
            if s[j + 1] == LF {
                assert((s + ext).subrange(start, j) =~= s.subrange(start, j));
            }
        }
    }
}

/// A settled big-number scan is unchanged by appended bytes.
proof fn lemma_scan_big_number_ext(s: Seq<u8>, ext: Seq<u8>, i: int)
    requires
        0 <= i <= s.len(),
    ensures
        match scan_big_number(s, i) {
            ScanOutcome::Done { next, val } => i <= next <= s.len() && scan_big_number(
                s + ext,
                i,
            ) == (ScanOutcome::Done { next, val }),
            ScanOutcome::Need => true,
            ScanOutcome::Fail(e) => scan_big_number(s + ext, i) == ScanOutcome::<
                Seq<u8>,
            >::Fail(e),
        },
{
    if i < s.len() {
        assert((s + ext)[i] == s[i]);
        let i1 = if is_sign(s[i]) {
            i + 1
        } else {
            i
        };
        if i1 < s.len() {
            assert((s + ext)[i1] == s[i1]);
            if is_ascii_digit(s[i1]) {
                lemma_digit_run(s, i1);
                let j = i1 + digit_run(s, i1);
                if j < s.len() {
                    lemma_digit_run_ext(s, ext, i1);
                    lemma_scan_token_end_ext(s, ext, i, j);
                } else {
                    // the run reaches the end of the seen bytes, so the
                    // terminator is out of reach and the scan is unsettled
                    assert(scan_token_end(s, i, j) is Need);
                }
            }
        }
    }
}

/// A settled exponent scan is unchanged by appended bytes.
proof fn lemma_scan_double_exp_ext(s: Seq<u8>, ext: Seq<u8>, start: int, j: int)
    requires
        0 <= start <= j <= s.len(),
    ensures
        match scan_double_exp(s, start, j) {
            ScanOutcome::Done { next, val } => j <= next <= s.len() && scan_double_exp(
                s + ext,
                start,
                j,
            ) == (ScanOutcome::Done { next, val }),
            ScanOutcome::Need => true,
            ScanOutcome::Fail(e) => scan_double_exp(s + ext, start, j) == ScanOutcome::<
                Seq<u8>,
            >::Fail(e),
        },
{
    if j < s.len() {
        assert((s + ext)[j] == s[j]);
        if s[j] == LOWER_E || s[j] == UPPER_E {
            let j1 = j + 1;
            if j1 < s.len() {
                assert((s + ext)[j1] == s[j1]);
                let j2 = if is_sign(s[j1]) {
                    j1 + 1
                } else {
                    j1
                };
                if j2 < s.len() {
                    assert((s + ext)[j2] == s[j2]);
                    if is_ascii_digit(s[j2]) {
                        lemma_digit_run(s, j2);
                        let j3 = j2 + digit_run(s, j2);
                        if j3 < s.len() {
                            lemma_digit_run_ext(s, ext, j2);
                            lemma_scan_token_end_ext(s, ext, start, j3);
                        } else {
                            assert(scan_token_end(s, start, j3) is Need);
                        }
                    }
                }
            }
        } else {
            lemma_scan_token_end_ext(s, ext, start, j);
        }
    }
}

/// A settled double scan is unchanged by appended bytes.
proof fn lemma_scan_double_ext(s: Seq<u8>, ext: Seq<u8>, i: int)
    requires
        0 <= i <= s.len(),
    ensures
        match scan_double(s, i) {
            ScanOutcome::Done { next, val } => i <= next <= s.len() && scan_double(s + ext, i)
                == (ScanOutcome::Done { next, val }),
            ScanOutcome::Need => true,
            ScanOutcome::Fail(e) => scan_double(s + ext, i) == ScanOutcome::<Seq<u8>>::Fail(e),
        },
{
    if i < s.len() {
        assert((s + ext)[i] == s[i]);
        let i1 = if is_sign(s[i]) {
            i + 1
        } else {
            i
        };
        if i1 < s.len() {
            assert((s + ext)[i1] == s[i1]);
            if is_ascii_digit(s[i1]) {
                lemma_digit_run(s, i1);
                let i2 = i1 + digit_run(s, i1);
                if i2 < s.len() {
                    lemma_digit_run_ext(s, ext, i1);
                    assert((s + ext)[i2] == s[i2]);
                    if s[i2] == DOT {
                        if i2 + 1 < s.len() {
                            assert((s + ext)[i2 + 1] == s[i2 + 1]);
                            if is_ascii_digit(s[i2 + 1]) {
                                lemma_digit_run(s, i2 + 1);
                                let i3 = i2 + 1 + digit_run(s, i2 + 1);
                                if i3 <= s.len() {
                                    if i3 < s.len() {
                                        lemma_digit_run_ext(s, ext, i2 + 1);
                                        lemma_scan_double_exp_ext(s, ext, i, i3);
                                    } else {
                                        assert(scan_double_exp(s, i, i3) is Need);
                                    }
                                }
                            }
                        }
                    } else {
                        lemma_scan_double_exp_ext(s, ext, i, i2);
                    }
                }
            }
        }
    }
}

/// A settled bulk payload is unchanged by appended bytes.
proof fn lemma_dec_bulk_ext(s: Seq<u8>, ext: Seq<u8>, i: int)
    requires
        0 <= i <= s.len(),
    ensures
        match dec_bulk_payload(s, i) {
            ScanOutcome::Done { next, val } => i <= next <= s.len() && dec_bulk_payload(
                s + ext,
                i,
            ) == (ScanOutcome::Done { next, val }),
            ScanOutcome::Need => true,
            ScanOutcome::Fail(e) => dec_bulk_payload(s + ext, i) == ScanOutcome::<
                Seq<u8>,
            >::Fail(e),
        },
{
    lemma_scan_length_ext(s, ext, i);
    match scan_length(s, i) {
        ScanOutcome::Done { next: j, val: n } => {
            if j + n < s.len() {
                assert((s + ext)[j + n] == s[j + n]);
                if s[j + n] == CR {
                    if j + n + 1 < s.len() {
                        assert((s + ext)[j + n + 1] == s[j + n + 1]);
                        if s[j + n + 1] == LF {
                            assert((s + ext).subrange(j, j + n) =~= s.subrange(j, j + n));
                        }
                    }
                }
            }
        },
        _ => {},
    }
}

/// A settled decode of one value is unchanged by appended bytes and ends
/// within the bytes it has seen.
proof fn lemma_dec_val_ext(s: Seq<u8>, ext: Seq<u8>, i: int)
    requires
        0 <= i <= s.len(),
    ensures
        match dec_val(s, i) {
            ScanOutcome::Done { next, val } => i < next <= s.len() && dec_val(s + ext, i)
                == (ScanOutcome::Done { next, val }),
            ScanOutcome::Need => true,
            ScanOutcome::Fail(e) => dec_val(s + ext, i) == ScanOutcome::<ValModel>::Fail(e),
        },
    decreases s.len() - i, 0int, 0int,
{
    if i >= s.len() {
        return ;
    }
    assert((s + ext)[i] == s[i]);
    match spec_data_type_of(s[i]) {
        None => {},
        Some(RespDataType::Null) => {
            if i + 1 < s.len() {
                assert((s + ext)[i + 1] == s[i + 1]);
                if s[i + 1] == CR && i + 2 < s.len() {
                    assert((s + ext)[i + 2] == s[i + 2]);
                }
            }
        },
        Some(RespDataType::Boolean) => {
            if i + 1 < s.len() {
                assert((s + ext)[i + 1] == s[i + 1]);
                if i + 2 < s.len() {
                    assert((s + ext)[i + 2] == s[i + 2]);
                    if i + 3 < s.len() {
                        assert((s + ext)[i + 3] == s[i + 3]);
                    }
                }
            }
        },
        Some(RespDataType::Integer) => {
            lemma_scan_integer_ext(s, ext, i + 1);
        },
        Some(RespDataType::Double) => {
            lemma_scan_double_ext(s, ext, i + 1);
        },
        Some(RespDataType::BigNumber) => {
            lemma_scan_big_number_ext(s, ext, i + 1);
        },
        Some(RespDataType::SimpleString) => {
            lemma_scan_line_ext(s, ext, i + 1, i + 1);
        },
        Some(RespDataType::SimpleError) => {
            lemma_scan_line_ext(s, ext, i + 1, i + 1);
        },
        Some(RespDataType::BulkString) => {
            lemma_dec_bulk_ext(s, ext, i + 1);
        },
        Some(RespDataType::BulkError) => {
            lemma_dec_bulk_ext(s, ext, i + 1);
        },
        Some(RespDataType::VerbatimString) => {
            lemma_dec_bulk_ext(s, ext, i + 1);
        },
        Some(RespDataType::Array) => {
            lemma_scan_length_ext(s, ext, i + 1);
            match scan_length(s, i + 1) {
                ScanOutcome::Done { next, val } => {
                    if next > i && next <= s.len() {
                        lemma_dec_elems_ext(s, ext, next, val);
                    }
                },
                _ => {},
            }
        },
        Some(RespDataType::Push) => {
            lemma_scan_length_ext(s, ext, i + 1);
            match scan_length(s, i + 1) {
                ScanOutcome::Done { next, val } => {
                    if next > i && next <= s.len() {
                        lemma_dec_elems_ext(s, ext, next, val);
                    }
                },
                _ => {},
            }
        },
        Some(RespDataType::ValueSet) => {
            lemma_scan_length_ext(s, ext, i + 1);
            match scan_length(s, i + 1) {
                ScanOutcome::Done { next, val } => {
                    if next > i && next <= s.len() {
                        lemma_dec_elems_ext(s, ext, next, val);
                    }
                },
                _ => {},
            }
        },
        Some(RespDataType::Mapping) => {
            lemma_scan_length_ext(s, ext, i + 1);
            match scan_length(s, i + 1) {
                ScanOutcome::Done { next, val } => {
                    if next > i && next <= s.len() {
                        lemma_dec_pairs_ext(s, ext, next, val);
                    }
                },
                _ => {},
            }
        },
    }
}

/// A settled decode of several values is unchanged by appended bytes.
proof fn lemma_dec_elems_ext(s: Seq<u8>, ext: Seq<u8>, i: int, n: int)
    requires
        0 <= i <= s.len(),
    ensures
        match dec_elems(s, i, n) {
            ScanOutcome::Done { next, val } => i <= next <= s.len() && dec_elems(s + ext, i, n)
                == (ScanOutcome::Done { next, val }),
            ScanOutcome::Need => true,
            ScanOutcome::Fail(e) => dec_elems(s + ext, i, n) == ScanOutcome::<
                Seq<ValModel>,
            >::Fail(e),
        },
    decreases s.len() - i, 1int, n,
{
    if n <= 0 {
    } else {
        lemma_dec_val_ext(s, ext, i);
        match dec_val(s, i) {
            ScanOutcome::Done { next, val } => {
                if next > i && next <= s.len() {
                    lemma_dec_elems_ext(s, ext, next, n - 1);
                }
            },
            _ => {},
        }
    }
}

/// A settled decode of several pairs is unchanged by appended bytes.
proof fn lemma_dec_pairs_ext(s: Seq<u8>, ext: Seq<u8>, i: int, n: int)
    requires
        0 <= i <= s.len(),
    ensures
        match dec_pairs(s, i, n) {
            ScanOutcome::Done { next, val } => i <= next <= s.len() && dec_pairs(s + ext, i, n)
                == (ScanOutcome::Done { next, val }),
            ScanOutcome::Need => true,
            ScanOutcome::Fail(e) => dec_pairs(s + ext, i, n) == ScanOutcome::<
                Seq<(ValModel, ValModel)>,
            >::Fail(e),
        },
    decreases s.len() - i, 2int, n,
{
    if n <= 0 {
    } else {
        lemma_dec_elems_ext(s, ext, i, 2);
        match dec_elems(s, i, 2) {
            ScanOutcome::Done { next, val } => {
                if next > i && next <= s.len() && val.len() == 2 {
                    lemma_dec_pairs_ext(s, ext, next, n - 1);
                }
            },
            _ => {},
        }
    }
}

/// *Round trip*: a well-formed protocol value decoded from its own wire
/// rendering is exactly itself, with every byte consumed.
pub proof fn lemma_round_trip(m: ValModel)
    requires
        m.wf(),
    ensures
        dec_val(enc(m), 0) == (ScanOutcome::Done { next: enc(m).len() as int, val: m }),
{
    assert(enc(m).subrange(0, enc(m).len() as int) =~= enc(m));
    lemma_dec_at(enc(m), 0, m);
}

/// *Incremental delivery*, at any stream position: while the unread bytes
/// of a buffer form a proper prefix of a well-formed value's wire
/// rendering, decoding there asks for more bytes — it never settles on a
/// value and never errs. A decoder fed the rendering split at any byte
/// boundary therefore waits until the last byte and then yields the same
/// value as one fed all bytes at once.
pub proof fn lemma_incremental_delivery_at(m: ValModel, s: Seq<u8>, i: int, k: int)
    requires
        m.wf(),
        0 <= i <= s.len(),
        0 <= k < enc(m).len(),
        s.len() == i + k,
        s.subrange(i, s.len() as int) == enc(m).take(k),
    ensures
        dec_val(s, i) is Need,
{
    let full = enc(m);
    let l = full.len() as int;
    let ext = full.skip(k);
    assert((s + ext).subrange(i, i + l) =~= full) by {
        assert forall|u: int| 0 <= u < l implies (s + ext).subrange(i, i + l)[u] == full[u] by {
            if u < k {
                assert((s + ext)[i + u] == s[i + u]);
                assert(s[i + u] == s.subrange(i, s.len() as int)[u]);
                assert(full.take(k)[u] == full[u]);
            } else {
                assert((s + ext)[i + u] == ext[u - k]);
            }
        }
    }
    lemma_dec_at(s + ext, i, m);
    match dec_val(s, i) {
        ScanOutcome::Done { next, val } => {
            lemma_dec_val_ext(s, ext, i);
            assert(dec_val(s + ext, i) == (ScanOutcome::Done { next, val }));
            assert(next <= s.len());
            assert(false);
        },
        ScanOutcome::Need => {},
        ScanOutcome::Fail(e) => {
            lemma_dec_val_ext(s, ext, i);
            assert(dec_val(s + ext, i) == ScanOutcome::<ValModel>::Fail(e));
            assert(false);
        },
    }
}

/// *Incremental delivery* from a fresh buffer: every proper prefix of a
/// well-formed value's wire rendering decodes to a request for more bytes.
pub proof fn lemma_incremental_delivery(m: ValModel, k: int)
    requires
        m.wf(),
        0 <= k < enc(m).len(),
    ensures
        dec_val(enc(m).take(k), 0) is Need,
{
    let p = enc(m).take(k);
    assert(p.subrange(0, p.len() as int) =~= enc(m).take(k));
    lemma_incremental_delivery_at(m, p, 0, k);
}

/// *Double identity*: two doubles are equal exactly when their stored
/// payloads are identical byte for byte, and a double never equals an
/// integer, whatever numeric values the two spell.
pub proof fn lemma_double_identity(t1: Seq<u8>, t2: Seq<u8>, i: i64)
    ensures
        (ValModel::Double(t1) == ValModel::Double(t2)) <==> (t1 == t2),
        ValModel::Double(t1) != ValModel::Integer(i),
{
}

} // verus!
