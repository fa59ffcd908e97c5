//! The wire format, stated mathematically: what bytes a protocol value
//! renders to, and what value (or error) a byte sequence decodes to.
//!
//! `enc` is the single source of truth for serialization. `dec_val` is the
//! single source of truth for decoding: it distinguishes three outcomes —
//! a decoded value with the position after it, "need more bytes" (the input
//! ends before the value does), and a protocol error. The executable encoder
//! and decoder are proved against these functions.

use vstd::prelude::*;

use crate::data_type::{spec_data_type_of, spec_tag_of, RespDataType, CR, LF};
use crate::error::RespReaderError;
use crate::utf8::is_utf8;
use crate::value::ValModel;

verus! {

/// ASCII `0`.
pub const DIGIT_ZERO: u8 = 48;

/// ASCII `9`.
pub const DIGIT_NINE: u8 = 57;

/// ASCII `+`.
pub const PLUS: u8 = 43;

/// ASCII `-`.
pub const MINUS: u8 = 45;

/// ASCII `.`.
pub const DOT: u8 = 46;

/// ASCII `e`.
pub const LOWER_E: u8 = 101;

/// ASCII `E`.
pub const UPPER_E: u8 = 69;

/// ASCII `t`.
pub const LOWER_T: u8 = 116;

/// ASCII `f`.
pub const LOWER_F: u8 = 102;

/// ASCII `:`.
pub const COLON: u8 = 58;

/// Whether a byte is an ASCII decimal digit.
pub open spec fn is_ascii_digit(b: u8) -> bool {
    DIGIT_ZERO <= b <= DIGIT_NINE
}

/// Whether a byte is an ASCII sign.
pub open spec fn is_sign(b: u8) -> bool {
    b == PLUS || b == MINUS
}

// ---------------------------------------------------------------------------
// Encoding
// ---------------------------------------------------------------------------

/// The ASCII decimal digits of `n`, most significant first.
pub open spec fn digits_of(n: nat) -> Seq<u8>
    decreases n,
{
    if n < 10 {
        seq![(DIGIT_ZERO + n) as u8]
    } else {
        digits_of(n / 10).push((DIGIT_ZERO + n % 10) as u8)
    }
}

/// The ASCII rendering of a signed 64-bit integer: a minus sign for negative
/// values, then the decimal digits of the magnitude.
pub open spec fn int_token_of(i: int) -> Seq<u8> {
    if i < 0 {
        seq![MINUS] + digits_of((-i) as nat)
    } else {
        digits_of(i as nat)
    }
}

/// The universal record terminator.
pub open spec fn crlf() -> Seq<u8> {
    seq![CR, LF]
}

/// The wire rendering of a protocol value.
pub open spec fn enc(m: ValModel) -> Seq<u8>
    decreases m, 0int, 0int,
{
    let tag = seq![spec_tag_of(m.data_type())];
    match m {
        ValModel::Null => tag + crlf(),
        ValModel::Boolean(b) => tag + seq![if b { LOWER_T } else { LOWER_F }] + crlf(),
        ValModel::Integer(i) => tag + int_token_of(i as int) + crlf(),
        ValModel::Double(t) => tag + t + crlf(),
        ValModel::BigNumber(t) => tag + t + crlf(),
        ValModel::SimpleString(s) => tag + s + crlf(),
        ValModel::SimpleError(s) => tag + s + crlf(),
        ValModel::BulkString(s) => tag + digits_of(s.len()) + crlf() + s + crlf(),
        ValModel::BulkError(s) => tag + digits_of(s.len()) + crlf() + s + crlf(),
        ValModel::VerbatimString(f, t) => tag + digits_of((f.len() + 1 + t.len()) as nat) + crlf()
            + f + seq![COLON] + t + crlf(),
        ValModel::Array(elems) => tag + digits_of(elems.len()) + crlf() + enc_seq(elems),
        ValModel::Push(elems) => tag + digits_of(elems.len()) + crlf() + enc_seq(elems),
        ValModel::ValueSet(elems) => tag + digits_of(elems.len()) + crlf() + enc_seq(elems),
        ValModel::Mapping(entries) => tag + digits_of(entries.len()) + crlf() + enc_pairs(entries),
    }
}

/// The concatenated renderings of a sequence of values.
pub open spec fn enc_seq(elems: Seq<ValModel>) -> Seq<u8>
    decreases elems, 1int, elems.len(),
{
    if elems.len() == 0 {
        Seq::empty()
    } else {
        enc(elems[0]) + enc_seq(elems.drop_first())
    }
}

/// The concatenated renderings of a sequence of key-value pairs: each key
/// immediately followed by its value.
pub open spec fn enc_pairs(entries: Seq<(ValModel, ValModel)>) -> Seq<u8>
    decreases entries, 1int, entries.len(),
{
    if entries.len() == 0 {
        Seq::empty()
    } else {
        enc(entries[0].0) + enc(entries[0].1) + enc_pairs(entries.drop_first())
    }
}

/// Concatenation distributes over rendering a sequence of values.
pub proof fn lemma_enc_seq_append(a: Seq<ValModel>, b: Seq<ValModel>)
    ensures
        enc_seq(a + b) == enc_seq(a) + enc_seq(b),
    decreases a.len(),
{
    if a.len() == 0 {
        assert(a + b =~= b);
        assert(enc_seq(a) =~= Seq::empty());
        assert(enc_seq(a) + enc_seq(b) =~= enc_seq(b));
    } else {
        assert((a + b).len() > 0);
        assert((a + b)[0] == a[0]);
        assert((a + b).drop_first() =~= a.drop_first() + b);
        lemma_enc_seq_append(a.drop_first(), b);
        assert(enc(a[0]) + (enc_seq(a.drop_first()) + enc_seq(b)) =~= (enc(a[0]) + enc_seq(
            a.drop_first(),
        )) + enc_seq(b));
    }
}

/// A single value renders as itself.
pub proof fn lemma_enc_seq_single(m: ValModel)
    ensures
        enc_seq(seq![m]) == enc(m),
{
    assert(seq![m][0] == m);
    assert(seq![m].drop_first() =~= Seq::<ValModel>::empty());
    assert(enc_seq(Seq::<ValModel>::empty()) =~= Seq::<u8>::empty());
    assert(enc_seq(seq![m]) =~= enc(m) + Seq::<u8>::empty());
    assert(enc(m) + Seq::<u8>::empty() =~= enc(m));
}

/// Concatenation distributes over rendering a sequence of pairs.
pub proof fn lemma_enc_pairs_append(a: Seq<(ValModel, ValModel)>, b: Seq<(ValModel, ValModel)>)
    ensures
        enc_pairs(a + b) == enc_pairs(a) + enc_pairs(b),
    decreases a.len(),
{
    if a.len() == 0 {
        assert(a + b =~= b);
        assert(enc_pairs(a) =~= Seq::empty());
        assert(enc_pairs(a) + enc_pairs(b) =~= enc_pairs(b));
    } else {
        assert((a + b).len() > 0);
        assert((a + b)[0] == a[0]);
        assert((a + b).drop_first() =~= a.drop_first() + b);
        lemma_enc_pairs_append(a.drop_first(), b);
        assert(enc(a[0].0) + enc(a[0].1) + (enc_pairs(a.drop_first()) + enc_pairs(b)) =~= (enc(
            a[0].0,
        ) + enc(a[0].1) + enc_pairs(a.drop_first())) + enc_pairs(b));
    }
}

/// A single pair renders as its key followed by its value.
pub proof fn lemma_enc_pairs_single(k: ValModel, v: ValModel)
    ensures
        enc_pairs(seq![(k, v)]) == enc(k) + enc(v),
{
    assert(seq![(k, v)][0] == (k, v));
    assert(seq![(k, v)].drop_first() =~= Seq::<(ValModel, ValModel)>::empty());
    assert(enc_pairs(Seq::<(ValModel, ValModel)>::empty()) =~= Seq::<u8>::empty());
    assert(enc_pairs(seq![(k, v)]) =~= enc(k) + enc(v) + Seq::<u8>::empty());
    assert(enc(k) + enc(v) + Seq::<u8>::empty() =~= enc(k) + enc(v));
}

// ---------------------------------------------------------------------------
// Token grammars
// ---------------------------------------------------------------------------

/// Whether a byte sequence holds neither carriage return nor line feed, so
/// that it can stand on a single line.
pub open spec fn line_safe(s: Seq<u8>) -> bool {
    forall|k: int| 0 <= k < s.len() ==> s[k] != CR && s[k] != LF
}

/// Whether every byte in `[a, b)` is an ASCII digit.
pub open spec fn all_digits_range(s: Seq<u8>, a: int, b: int) -> bool {
    forall|k: int| a <= k < b ==> is_ascii_digit(s[k])
}

/// Whether `t` is a big-number token: an optional sign, then at least one
/// digit and nothing else.
pub open spec fn valid_big_number_token(t: Seq<u8>) -> bool {
    let i1: int = if t.len() > 0 && is_sign(t[0]) {
        1
    } else {
        0
    };
    i1 < t.len() && all_digits_range(t, i1, t.len() as int)
}

/// Whether the bytes of `t` from `j` on form an exponent: `e` or `E`, an
/// optional sign, then at least one digit and nothing else.
pub open spec fn valid_exp_from(t: Seq<u8>, j: int) -> bool {
    j < t.len() && (t[j] == LOWER_E || t[j] == UPPER_E) && {
        let j2 = if j + 1 < t.len() && is_sign(t[j + 1]) {
            j + 2
        } else {
            j + 1
        };
        j2 < t.len() && all_digits_range(t, j2, t.len() as int)
    }
}

/// Whether `t` is a double token: an optional sign, an integral digit run,
/// an optional fraction, and an optional exponent.
pub open spec fn valid_double_token(t: Seq<u8>) -> bool {
    let i1: int = if t.len() > 0 && is_sign(t[0]) {
        1
    } else {
        0
    };
    i1 < t.len() && is_ascii_digit(t[i1]) && {
        let i2 = i1 + digit_run(t, i1);
        ||| i2 == t.len()
        ||| (i2 < t.len() && t[i2] == DOT && i2 + 1 < t.len() && is_ascii_digit(t[i2 + 1]) && {
            let i3 = i2 + 1 + digit_run(t, i2 + 1);
            i3 == t.len() || valid_exp_from(t, i3)
        })
        ||| valid_exp_from(t, i2)
    }
}

// ---------------------------------------------------------------------------
// Deduplicating aggregates
// ---------------------------------------------------------------------------

/// Whether a sequence of set members already holds `v`.
pub open spec fn set_contains(elems: Seq<ValModel>, v: ValModel) -> bool {
    exists|i: int| 0 <= i < elems.len() && elems[i] == v
}

/// Inserting into a set: a later structural duplicate is silently merged.
pub open spec fn set_insert(elems: Seq<ValModel>, v: ValModel) -> Seq<ValModel> {
    if set_contains(elems, v) {
        elems
    } else {
        elems.push(v)
    }
}

/// The set built by inserting the given members in order.
pub open spec fn set_fold(elems: Seq<ValModel>) -> Seq<ValModel>
    decreases elems.len(),
{
    if elems.len() == 0 {
        Seq::empty()
    } else {
        set_insert(set_fold(elems.drop_last()), elems.last())
    }
}

/// The position of the first entry under the given key.
pub open spec fn first_key_index(entries: Seq<(ValModel, ValModel)>, k: ValModel) -> int
    decreases entries.len(),
{
    if entries.len() == 0 {
        0
    } else if entries[0].0 == k {
        0
    } else {
        1 + first_key_index(entries.drop_first(), k)
    }
}

/// Whether a sequence of map entries holds the given key.
pub open spec fn map_has_key(entries: Seq<(ValModel, ValModel)>, k: ValModel) -> bool {
    exists|i: int| 0 <= i < entries.len() && entries[i].0 == k
}

/// Inserting into a map: a later duplicate key replaces the value in place.
pub open spec fn map_insert(
    entries: Seq<(ValModel, ValModel)>,
    k: ValModel,
    v: ValModel,
) -> Seq<(ValModel, ValModel)> {
    if map_has_key(entries, k) {
        entries.update(first_key_index(entries, k), (k, v))
    } else {
        entries.push((k, v))
    }
}

/// The first entry under a present key stands at `first_key_index`: it
/// carries the key, and no earlier entry does.
pub proof fn lemma_first_key_index(entries: Seq<(ValModel, ValModel)>, k: ValModel)
    requires
        map_has_key(entries, k),
    ensures
        0 <= first_key_index(entries, k) < entries.len(),
        entries[first_key_index(entries, k)].0 == k,
        forall|j: int| 0 <= j < first_key_index(entries, k) ==> entries[j].0 != k,
    decreases entries.len(),
{
    if entries.len() == 0 {
    } else if entries[0].0 == k {
    } else {
        let rest = entries.drop_first();
        assert(map_has_key(rest, k)) by {
            let w = choose|i: int| 0 <= i < entries.len() && entries[i].0 == k;
            assert(rest[w - 1] == entries[w]);
        }
        lemma_first_key_index(rest, k);
        let f = first_key_index(rest, k);
        assert(entries[1 + f] == rest[f]);
        assert(forall|j: int| 1 <= j < 1 + f ==> entries[j] == rest[j - 1]);
    }
}

/// The map built by inserting the given entries in order.
pub open spec fn map_fold(entries: Seq<(ValModel, ValModel)>) -> Seq<(ValModel, ValModel)>
    decreases entries.len(),
{
    if entries.len() == 0 {
        Seq::empty()
    } else {
        map_insert(map_fold(entries.drop_last()), entries.last().0, entries.last().1)
    }
}

// ---------------------------------------------------------------------------
// Decoding
// ---------------------------------------------------------------------------

/// The outcome of scanning part of the input from some position: the scanned
/// result with the position just after it, a request for more bytes, or a
/// protocol error.
#[verifier::ext_equal]
pub enum ScanOutcome<T> {
    Done { next: int, val: T },
    Need,
    Fail(RespReaderError),
}

/// Scans a line: the bytes from `start` up to the first carriage return,
/// which must be followed by a line feed. A bare line feed, or a carriage
/// return followed by anything else, is a malformed terminator.
pub open spec fn scan_line(s: Seq<u8>, start: int, i: int) -> ScanOutcome<Seq<u8>>
    decreases s.len() - i,
{
    if i >= s.len() {
        ScanOutcome::Need
    } else if s[i] == CR {
        if i + 1 >= s.len() {
            ScanOutcome::Need
        } else if s[i + 1] == LF {
            ScanOutcome::Done { next: i + 2, val: s.subrange(start, i) }
        } else {
            ScanOutcome::Fail(RespReaderError::MissingNewline)
        }
    } else if s[i] == LF {
        ScanOutcome::Fail(RespReaderError::MissingNewline)
    } else {
        scan_line(s, start, i + 1)
    }
}

/// Accumulates decimal digits already begun at `i` into `acc`, up to a
/// carriage-return-line-feed terminator, failing on any other byte and
/// failing with `LengthOverflowed` on the first digit that would push the
/// value past `bound`.
pub open spec fn scan_digits(s: Seq<u8>, i: int, acc: int, bound: int) -> ScanOutcome<int>
    decreases s.len() - i,
{
    if i >= s.len() {
        ScanOutcome::Need
    } else if is_ascii_digit(s[i]) {
        let acc2 = acc * 10 + (s[i] - DIGIT_ZERO);
        if acc2 > bound {
            ScanOutcome::Fail(RespReaderError::LengthOverflowed)
        } else {
            scan_digits(s, i + 1, acc2, bound)
        }
    } else if s[i] == CR {
        if i + 1 >= s.len() {
            ScanOutcome::Need
        } else if s[i + 1] == LF {
            ScanOutcome::Done { next: i + 2, val: acc }
        } else {
            ScanOutcome::Fail(RespReaderError::MissingNewline)
        }
    } else {
        ScanOutcome::Fail(RespReaderError::InvalidCharInLength(s[i] as char))
    }
}

/// Scans an unsigned length token: at least one digit, then the terminator,
/// bounded by the machine's length type.
pub open spec fn scan_length(s: Seq<u8>, i: int) -> ScanOutcome<int> {
    if i >= s.len() {
        ScanOutcome::Need
    } else if !is_ascii_digit(s[i]) {
        ScanOutcome::Fail(RespReaderError::InvalidCharInLength(s[i] as char))
    } else {
        scan_digits(s, i, 0, usize::MAX as int)
    }
}

/// Scans a signed 64-bit integer token: an optional sign, at least one
/// digit, then the terminator, bounded by the 64-bit signed range.
pub open spec fn scan_integer(s: Seq<u8>, i: int) -> ScanOutcome<int> {
    if i >= s.len() {
        ScanOutcome::Need
    } else {
        let neg = s[i] == MINUS;
        let i1 = if is_sign(s[i]) {
            i + 1
        } else {
            i
        };
        if i1 >= s.len() {
            ScanOutcome::Need
        } else if !is_ascii_digit(s[i1]) {
            ScanOutcome::Fail(RespReaderError::InvalidCharInLength(s[i1] as char))
        } else {
            let bound = if neg {
                0x8000000000000000
            } else {
                0x7fffffffffffffff
            };
            match scan_digits(s, i1, 0, bound) {
                ScanOutcome::Done { next, val } => ScanOutcome::Done {
                    next,
                    val: if neg {
                        -val
                    } else {
                        val
                    },
                },
                o => o,
            }
        }
    }
}

/// The number of consecutive ASCII digits starting at `i`.
pub open spec fn digit_run(s: Seq<u8>, i: int) -> int
    decreases s.len() - i,
{
    if i >= s.len() || !is_ascii_digit(s[i]) {
        0
    } else {
        1 + digit_run(s, i + 1)
    }
}

/// Scans past the terminator expected at `j`, yielding the token that began
/// at `start`.
pub open spec fn scan_token_end(s: Seq<u8>, start: int, j: int) -> ScanOutcome<Seq<u8>> {
    if j >= s.len() {
        ScanOutcome::Need
    } else if s[j] == CR {
        if j + 1 >= s.len() {
            ScanOutcome::Need
        } else if s[j + 1] == LF {
            ScanOutcome::Done { next: j + 2, val: s.subrange(start, j) }
        } else {
            ScanOutcome::Fail(RespReaderError::MissingNewline)
        }
    } else {
        ScanOutcome::Fail(RespReaderError::InvalidCharInLength(s[j] as char))
    }
}

/// Scans a big-number token: an optional sign and at least one digit.
pub open spec fn scan_big_number(s: Seq<u8>, i: int) -> ScanOutcome<Seq<u8>> {
    if i >= s.len() {
        ScanOutcome::Need
    } else {
        let i1 = if is_sign(s[i]) {
            i + 1
        } else {
            i
        };
        if i1 >= s.len() {
            ScanOutcome::Need
        } else if !is_ascii_digit(s[i1]) {
            ScanOutcome::Fail(RespReaderError::InvalidCharInLength(s[i1] as char))
        } else {
            scan_token_end(s, i, i1 + digit_run(s, i1))
        }
    }
}

/// Scans a double token: an optional sign, an integral digit run, an
/// optional fractional part, and an optional exponent.
pub open spec fn scan_double(s: Seq<u8>, i: int) -> ScanOutcome<Seq<u8>> {
    if i >= s.len() {
        ScanOutcome::Need
    } else {
        let i1 = if is_sign(s[i]) {
            i + 1
        } else {
            i
        };
        if i1 >= s.len() {
            ScanOutcome::Need
        } else if !is_ascii_digit(s[i1]) {
            ScanOutcome::Fail(RespReaderError::InvalidCharInLength(s[i1] as char))
        } else {
            let i2 = i1 + digit_run(s, i1);
            if i2 >= s.len() {
                ScanOutcome::Need
            } else if s[i2] == DOT {
                if i2 + 1 >= s.len() {
                    ScanOutcome::Need
                } else if !is_ascii_digit(s[i2 + 1]) {
                    ScanOutcome::Fail(RespReaderError::InvalidCharInLength(s[i2 + 1] as char))
                } else {
                    scan_double_exp(s, i, i2 + 1 + digit_run(s, i2 + 1))
                }
            } else {
                scan_double_exp(s, i, i2)
            }
        }
    }
}

/// Scans the optional exponent of a double token beginning at `j`, then the
/// terminator, yielding the token that began at `start`.
pub open spec fn scan_double_exp(s: Seq<u8>, start: int, j: int) -> ScanOutcome<Seq<u8>> {
    if j >= s.len() {
        ScanOutcome::Need
    } else if s[j] == LOWER_E || s[j] == UPPER_E {
        let j1 = j + 1;
        if j1 >= s.len() {
            ScanOutcome::Need
        } else {
            let j2 = if is_sign(s[j1]) {
                j1 + 1
            } else {
                j1
            };
            if j2 >= s.len() {
                ScanOutcome::Need
            } else if !is_ascii_digit(s[j2]) {
                ScanOutcome::Fail(RespReaderError::InvalidCharInLength(s[j2] as char))
            } else {
                scan_token_end(s, start, j2 + digit_run(s, j2))
            }
        }
    } else {
        scan_token_end(s, start, j)
    }
}

/// Decodes one protocol value at `i`: reads the tag byte and dispatches on
/// the wire type, recursively for aggregates.
pub open spec fn dec_val(s: Seq<u8>, i: int) -> ScanOutcome<ValModel>
    decreases s.len() - i, 0int, 0int,
{
    if i >= s.len() {
        ScanOutcome::Need
    } else {
        match spec_data_type_of(s[i]) {
            None => ScanOutcome::Fail(RespReaderError::UnknownDataType(s[i] as char)),
            Some(RespDataType::Null) => {
                if i + 1 >= s.len() {
                    ScanOutcome::Need
                } else if s[i + 1] != CR {
                    ScanOutcome::Fail(RespReaderError::MissingNewline)
                } else if i + 2 >= s.len() {
                    ScanOutcome::Need
                } else if s[i + 2] != LF {
                    ScanOutcome::Fail(RespReaderError::MissingNewline)
                } else {
                    ScanOutcome::Done { next: i + 3, val: ValModel::Null }
                }
            },
            Some(RespDataType::Boolean) => {
                if i + 1 >= s.len() {
                    ScanOutcome::Need
                } else if s[i + 1] != LOWER_T && s[i + 1] != LOWER_F {
                    ScanOutcome::Fail(RespReaderError::InvalidCharInLength(s[i + 1] as char))
                } else if i + 2 >= s.len() {
                    ScanOutcome::Need
                } else if s[i + 2] != CR {
                    ScanOutcome::Fail(RespReaderError::MissingNewline)
                } else if i + 3 >= s.len() {
                    ScanOutcome::Need
                } else if s[i + 3] != LF {
                    ScanOutcome::Fail(RespReaderError::MissingNewline)
                } else {
                    ScanOutcome::Done { next: i + 4, val: ValModel::Boolean(s[i + 1] == LOWER_T) }
                }
            },
            Some(RespDataType::Integer) => {
                match scan_integer(s, i + 1) {
                    ScanOutcome::Done { next, val } => ScanOutcome::Done {
                        next,
                        val: ValModel::Integer(val as i64),
                    },
                    ScanOutcome::Need => ScanOutcome::Need,
                    ScanOutcome::Fail(e) => ScanOutcome::Fail(e),
                }
            },
            Some(RespDataType::Double) => {
                match scan_double(s, i + 1) {
                    ScanOutcome::Done { next, val } => ScanOutcome::Done {
                        next,
                        val: ValModel::Double(val),
                    },
                    ScanOutcome::Need => ScanOutcome::Need,
                    ScanOutcome::Fail(e) => ScanOutcome::Fail(e),
                }
            },
            Some(RespDataType::BigNumber) => {
                match scan_big_number(s, i + 1) {
                    ScanOutcome::Done { next, val } => ScanOutcome::Done {
                        next,
                        val: ValModel::BigNumber(val),
                    },
                    ScanOutcome::Need => ScanOutcome::Need,
                    ScanOutcome::Fail(e) => ScanOutcome::Fail(e),
                }
            },
            Some(RespDataType::SimpleString) => {
                match scan_line(s, i + 1, i + 1) {
                    ScanOutcome::Done { next, val } => {
                        if is_utf8(val) {
                            ScanOutcome::Done { next, val: ValModel::SimpleString(val) }
                        } else {
                            ScanOutcome::Fail(RespReaderError::NonUtf8String)
                        }
                    },
                    ScanOutcome::Need => ScanOutcome::Need,
                    ScanOutcome::Fail(e) => ScanOutcome::Fail(e),
                }
            },
            Some(RespDataType::SimpleError) => {
                match scan_line(s, i + 1, i + 1) {
                    ScanOutcome::Done { next, val } => {
                        if is_utf8(val) {
                            ScanOutcome::Done { next, val: ValModel::SimpleError(val) }
                        } else {
                            ScanOutcome::Fail(RespReaderError::NonUtf8String)
                        }
                    },
                    ScanOutcome::Need => ScanOutcome::Need,
                    ScanOutcome::Fail(e) => ScanOutcome::Fail(e),
                }
            },
            Some(RespDataType::BulkString) => {
                match dec_bulk_payload(s, i + 1) {
                    ScanOutcome::Done { next, val } => {
                        if is_utf8(val) {
                            ScanOutcome::Done { next, val: ValModel::BulkString(val) }
                        } else {
                            ScanOutcome::Fail(RespReaderError::NonUtf8String)
                        }
                    },
                    ScanOutcome::Need => ScanOutcome::Need,
                    ScanOutcome::Fail(e) => ScanOutcome::Fail(e),
                }
            },
            Some(RespDataType::BulkError) => {
                match dec_bulk_payload(s, i + 1) {
                    ScanOutcome::Done { next, val } => {
                        if is_utf8(val) {
                            ScanOutcome::Done { next, val: ValModel::BulkError(val) }
                        } else {
                            ScanOutcome::Fail(RespReaderError::NonUtf8String)
                        }
                    },
                    ScanOutcome::Need => ScanOutcome::Need,
                    ScanOutcome::Fail(e) => ScanOutcome::Fail(e),
                }
            },
            Some(RespDataType::VerbatimString) => {
                match dec_bulk_payload(s, i + 1) {
                    ScanOutcome::Done { next, val } => dec_verbatim_split(next, val),
                    ScanOutcome::Need => ScanOutcome::Need,
                    ScanOutcome::Fail(e) => ScanOutcome::Fail(e),
                }
            },
            Some(RespDataType::Array) => {
                match scan_length(s, i + 1) {
                    ScanOutcome::Done { next, val } => {
                        if next > i && next <= s.len() {
                            match dec_elems(s, next, val) {
                                ScanOutcome::Done { next: end, val: elems } => ScanOutcome::Done {
                                    next: end,
                                    val: ValModel::Array(elems),
                                },
                                ScanOutcome::Need => ScanOutcome::Need,
                                ScanOutcome::Fail(e) => ScanOutcome::Fail(e),
                            }
                        } else {
                            ScanOutcome::Need
                        }
                    },
                    ScanOutcome::Need => ScanOutcome::Need,
                    ScanOutcome::Fail(e) => ScanOutcome::Fail(e),
                }
            },
            Some(RespDataType::Push) => {
                match scan_length(s, i + 1) {
                    ScanOutcome::Done { next, val } => {
                        if next > i && next <= s.len() {
                            match dec_elems(s, next, val) {
                                ScanOutcome::Done { next: end, val: elems } => ScanOutcome::Done {
                                    next: end,
                                    val: ValModel::Push(elems),
                                },
                                ScanOutcome::Need => ScanOutcome::Need,
                                ScanOutcome::Fail(e) => ScanOutcome::Fail(e),
                            }
                        } else {
                            ScanOutcome::Need
                        }
                    },
                    ScanOutcome::Need => ScanOutcome::Need,
                    ScanOutcome::Fail(e) => ScanOutcome::Fail(e),
                }
            },
            Some(RespDataType::ValueSet) => {
                match scan_length(s, i + 1) {
                    ScanOutcome::Done { next, val } => {
                        if next > i && next <= s.len() {
                            match dec_elems(s, next, val) {
                                ScanOutcome::Done { next: end, val: elems } => ScanOutcome::Done {
                                    next: end,
                                    val: ValModel::ValueSet(set_fold(elems)),
                                },
                                ScanOutcome::Need => ScanOutcome::Need,
                                ScanOutcome::Fail(e) => ScanOutcome::Fail(e),
                            }
                        } else {
                            ScanOutcome::Need
                        }
                    },
                    ScanOutcome::Need => ScanOutcome::Need,
                    ScanOutcome::Fail(e) => ScanOutcome::Fail(e),
                }
            },
            Some(RespDataType::Mapping) => {
                match scan_length(s, i + 1) {
                    ScanOutcome::Done { next, val } => {
                        if next > i && next <= s.len() {
                            match dec_pairs(s, next, val) {
                                ScanOutcome::Done { next: end, val: entries } => ScanOutcome::Done {
                                    next: end,
                                    val: ValModel::Mapping(map_fold(entries)),
                                },
                                ScanOutcome::Need => ScanOutcome::Need,
                                ScanOutcome::Fail(e) => ScanOutcome::Fail(e),
                            }
                        } else {
                            ScanOutcome::Need
                        }
                    },
                    ScanOutcome::Need => ScanOutcome::Need,
                    ScanOutcome::Fail(e) => ScanOutcome::Fail(e),
                }
            },
        }
    }
}

/// Decodes the length-prefixed payload shared by the bulk wire types: the
/// declared length is authoritative, and the terminator must stand exactly
/// at its end.
pub open spec fn dec_bulk_payload(s: Seq<u8>, i: int) -> ScanOutcome<Seq<u8>> {
    match scan_length(s, i) {
        ScanOutcome::Done { next: j, val: n } => {
            if j + n >= s.len() {
                ScanOutcome::Need
            } else if s[j + n] != CR {
                ScanOutcome::Fail(RespReaderError::MissingNewline)
            } else if j + n + 1 >= s.len() {
                ScanOutcome::Need
            } else if s[j + n + 1] != LF {
                ScanOutcome::Fail(RespReaderError::MissingNewline)
            } else {
                ScanOutcome::Done { next: j + n + 2, val: s.subrange(j, j + n) }
            }
        },
        ScanOutcome::Need => ScanOutcome::Need,
        ScanOutcome::Fail(e) => ScanOutcome::Fail(e),
    }
}

/// Splits a decoded verbatim payload into its three-byte format code, the
/// colon separator, and the text.
pub open spec fn dec_verbatim_split(next: int, payload: Seq<u8>) -> ScanOutcome<ValModel> {
    if payload.len() < 4 {
        ScanOutcome::Fail(RespReaderError::MissingNewline)
    } else if payload[3] != COLON {
        ScanOutcome::Fail(RespReaderError::InvalidCharInLength(payload[3] as char))
    } else {
        let f = payload.subrange(0, 3);
        let t = payload.subrange(4, payload.len() as int);
        if !is_utf8(f) {
            ScanOutcome::Fail(RespReaderError::NonUtf8String)
        } else if !is_utf8(t) {
            ScanOutcome::Fail(RespReaderError::NonUtf8String)
        } else {
            ScanOutcome::Done { next, val: ValModel::VerbatimString(f, t) }
        }
    }
}

/// Decodes `n` consecutive values starting at `i`, in order.
pub open spec fn dec_elems(s: Seq<u8>, i: int, n: int) -> ScanOutcome<Seq<ValModel>>
    decreases s.len() - i, 1int, n,
{
    if n <= 0 {
        ScanOutcome::Done { next: i, val: Seq::empty() }
    } else {
        match dec_val(s, i) {
            ScanOutcome::Done { next, val } => {
                if next > i && next <= s.len() {
                    match dec_elems(s, next, n - 1) {
                        ScanOutcome::Done { next: end, val: rest } => ScanOutcome::Done {
                            next: end,
                            val: seq![val] + rest,
                        },
                        ScanOutcome::Need => ScanOutcome::Need,
                        ScanOutcome::Fail(e) => ScanOutcome::Fail(e),
                    }
                } else {
                    ScanOutcome::Need
                }
            },
            ScanOutcome::Need => ScanOutcome::Need,
            ScanOutcome::Fail(e) => ScanOutcome::Fail(e),
        }
    }
}

/// Decodes `n` consecutive key-value pairs starting at `i`, in order.
pub open spec fn dec_pairs(s: Seq<u8>, i: int, n: int) -> ScanOutcome<Seq<(ValModel, ValModel)>>
    decreases s.len() - i, 2int, n,
{
    if n <= 0 {
        ScanOutcome::Done { next: i, val: Seq::empty() }
    } else {
        match dec_elems(s, i, 2) {
            ScanOutcome::Done { next, val } => {
                if next > i && next <= s.len() && val.len() == 2 {
                    match dec_pairs(s, next, n - 1) {
                        ScanOutcome::Done { next: end, val: rest } => ScanOutcome::Done {
                            next: end,
                            val: seq![(val[0], val[1])] + rest,
                        },
                        ScanOutcome::Need => ScanOutcome::Need,
                        ScanOutcome::Fail(e) => ScanOutcome::Fail(e),
                    }
                } else {
                    ScanOutcome::Need
                }
            },
            ScanOutcome::Need => ScanOutcome::Need,
            ScanOutcome::Fail(e) => ScanOutcome::Fail(e),
        }
    }
}

} // verus!
