//! The incremental decoder over a byte slice: one protocol value per call,
//! recursively for aggregates.
//!
//! Every function here is proved against the wire-format specification in
//! `wire`: on success it returns exactly the value and end position that
//! `dec_val` gives, it asks for more bytes exactly when `dec_val` does, and
//! it fails with exactly the error `dec_val` gives. "Incomplete" is a
//! dedicated outcome distinct from both success and hard failure, so a
//! caller can keep its unconsumed bytes and retry the same parse once more
//! input has arrived.

use vstd::prelude::*;
use vstd::slice::{slice_subrange, slice_to_vec};

use crate::data_type::{CR, LF};
use crate::error::RespReaderError;
use crate::utf8::check_utf8;
use crate::value::{RespValue, ValModel};
use crate::wire::{
    digit_run, scan_big_number, scan_digits, scan_double, scan_double_exp, scan_integer,
    scan_length, scan_line, scan_token_end, ScanOutcome, DIGIT_NINE, DIGIT_ZERO, DOT, LOWER_E,
    LOWER_F, LOWER_T, MINUS, PLUS, UPPER_E,
};

verus! {

/// Why a parse call did not produce a value: the input ended before the
/// value did, or the input violates the protocol.
#[derive(Debug, PartialEq)]
pub enum ParseError {
    /// More bytes are needed; retry the same parse with a longer input.
    Incomplete,
    /// The input is malformed; the byte stream can no longer be trusted.
    Protocol(RespReaderError),
}

impl ParseError {
    /// Whether this outcome asks the caller to wait for more bytes rather
    /// than abandon the stream.
    pub fn incomplete(&self) -> (r: bool)
        ensures
            r == (self is Incomplete),
    {
        match self {
            ParseError::Incomplete => true,
            ParseError::Protocol(_) => false,
        }
    }
}

/// Scans a line beginning at `pos`: its bytes up to the carriage return,
/// and the position after the line feed.
fn parse_line(input: &[u8], pos: usize) -> (r: Result<(usize, Vec<u8>), ParseError>)
    requires
        pos <= input@.len(),
    ensures
        match r {
            Ok((next, content)) => scan_line(input@, pos as int, pos as int) == (ScanOutcome::Done {
                next: next as int,
                val: content@,
            }) && pos < next <= input@.len(),
            Err(ParseError::Incomplete) => scan_line(input@, pos as int, pos as int) is Need,
            Err(ParseError::Protocol(e)) => scan_line(input@, pos as int, pos as int)
                == ScanOutcome::<Seq<u8>>::Fail(e),
        },
{
    let n = input.len();
    let mut j = pos;
    loop
        invariant
            pos <= j <= n,
            n == input@.len(),
            scan_line(input@, pos as int, pos as int) == scan_line(input@, pos as int, j as int),
        decreases n - j,
    {
        if j >= n {
            return Err(ParseError::Incomplete);
        }
        let b = input[j];
        if b == CR {
            if j + 1 >= n {
                return Err(ParseError::Incomplete);
            }
            if input[j + 1] == LF {
                let content = slice_to_vec(slice_subrange(input, pos, j));
                return Ok((j + 2, content));
            }
            return Err(ParseError::Protocol(RespReaderError::MissingNewline));
        }
        if b == LF {
            return Err(ParseError::Protocol(RespReaderError::MissingNewline));
        }
        j = j + 1;
    }
}

/// Parses an unsigned, base-10 length token that must end with the
/// terminator, using checked arithmetic.
fn parse_length(input: &[u8], pos: usize) -> (r: Result<(usize, usize), ParseError>)
    requires
        pos <= input@.len(),
    ensures
        match r {
            Ok((next, len)) => scan_length(input@, pos as int) == (ScanOutcome::Done {
                next: next as int,
                val: len as int,
            }) && pos < next <= input@.len(),
            Err(ParseError::Incomplete) => scan_length(input@, pos as int) is Need,
            Err(ParseError::Protocol(e)) => scan_length(input@, pos as int)
                == ScanOutcome::<int>::Fail(e),
        },
{
    let n = input.len();
    if pos >= n {
        return Err(ParseError::Incomplete);
    }
    let first = input[pos];
    if first < DIGIT_ZERO || first > DIGIT_NINE {
        return Err(
            ParseError::Protocol(RespReaderError::InvalidCharInLength(first as char)),
        );
    }
    let mut j = pos;
    let mut acc: usize = 0;
    loop
        invariant
            pos <= j <= n,
            n == input@.len(),
            scan_length(input@, pos as int) == scan_digits(
                input@,
                j as int,
                acc as int,
                usize::MAX as int,
            ),
        decreases n - j,
    {
        if j >= n {
            return Err(ParseError::Incomplete);
        }
        let b = input[j];
        if DIGIT_ZERO <= b && b <= DIGIT_NINE {
            let d = (b - DIGIT_ZERO) as usize;
            if acc > (usize::MAX - d) / 10 {
                return Err(ParseError::Protocol(RespReaderError::LengthOverflowed));
            }
            acc = acc * 10 + d;
            j = j + 1;
        } else if b == CR {
            if j + 1 >= n {
                return Err(ParseError::Incomplete);
            }
            if input[j + 1] == LF {
                return Ok((j + 2, acc));
            }
            return Err(ParseError::Protocol(RespReaderError::MissingNewline));
        } else {
            return Err(
                ParseError::Protocol(RespReaderError::InvalidCharInLength(b as char)),
            );
        }
    }
}

/// Counts the consecutive ASCII digits starting at `pos`.
pub(crate) fn parse_digit_run(input: &[u8], pos: usize) -> (k: usize)
    requires
        pos <= input@.len(),
    ensures
        k as int == digit_run(input@, pos as int),
        pos + k <= input@.len(),
{
    let n = input.len();
    let mut j = pos;
    loop
        invariant
            pos <= j <= n,
            n == input@.len(),
            digit_run(input@, pos as int) == j - pos + digit_run(input@, j as int),
        decreases n - j,
    {
        if j >= n {
            return j - pos;
        }
        let b = input[j];
        if DIGIT_ZERO <= b && b <= DIGIT_NINE {
            j = j + 1;
        } else {
            return j - pos;
        }
    }
}

/// Parses a signed 64-bit integer token ending with the terminator, using
/// checked arithmetic.
fn parse_integer(input: &[u8], pos: usize) -> (r: Result<(usize, i64), ParseError>)
    requires
        pos <= input@.len(),
    ensures
        match r {
            Ok((next, v)) => scan_integer(input@, pos as int) == (ScanOutcome::Done {
                next: next as int,
                val: v as int,
            }) && pos < next <= input@.len(),
            Err(ParseError::Incomplete) => scan_integer(input@, pos as int) is Need,
            Err(ParseError::Protocol(e)) => scan_integer(input@, pos as int)
                == ScanOutcome::<int>::Fail(e),
        },
{
    let n = input.len();
    if pos >= n {
        return Err(ParseError::Incomplete);
    }
    let b0 = input[pos];
    let neg = b0 == MINUS;
    let i1 = if b0 == MINUS || b0 == PLUS {
        pos + 1
    } else {
        pos
    };
    if i1 >= n {
        return Err(ParseError::Incomplete);
    }
    let first = input[i1];
    if first < DIGIT_ZERO || first > DIGIT_NINE {
        return Err(
            ParseError::Protocol(RespReaderError::InvalidCharInLength(first as char)),
        );
    }
    let bound: u64 = if neg {
        0x8000000000000000
    } else {
        0x7fffffffffffffff
    };
    let mut j = i1;
    let mut acc: u64 = 0;
    loop
        invariant
            i1 <= j <= n,
            pos <= i1 <= pos + 1,
            n == input@.len(),
            acc <= bound,
            bound == if neg {
                0x8000000000000000u64
            } else {
                0x7fffffffffffffffu64
            },
            scan_integer(input@, pos as int) == match scan_digits(
                input@,
                j as int,
                acc as int,
                bound as int,
            ) {
                ScanOutcome::Done { next, val } => ScanOutcome::<int>::Done {
                    next,
                    val: if neg {
                        -val
                    } else {
                        val
                    },
                },
                o => o,
            },
        decreases n - j,
    {
        if j >= n {
            return Err(ParseError::Incomplete);
        }
        let b = input[j];
        if DIGIT_ZERO <= b && b <= DIGIT_NINE {
            let d = (b - DIGIT_ZERO) as u64;
            if acc > (bound - d) / 10 {
                return Err(ParseError::Protocol(RespReaderError::LengthOverflowed));
            }
            acc = acc * 10 + d;
            j = j + 1;
        } else if b == CR {
            if j + 1 >= n {
                return Err(ParseError::Incomplete);
            }
            if input[j + 1] == LF {
                let v: i64 = if neg {
                    if acc == 0x8000000000000000 {
                        i64::MIN
                    } else {
                        -(acc as i64)
                    }
                } else {
                    acc as i64
                };
                return Ok((j + 2, v));
            }
            return Err(ParseError::Protocol(RespReaderError::MissingNewline));
        } else {
            return Err(
                ParseError::Protocol(RespReaderError::InvalidCharInLength(b as char)),
            );
        }
    }
}

/// Consumes the terminator expected at `j` and yields the token that began
/// at `start`.
fn parse_token_end(input: &[u8], start: usize, j: usize) -> (r: Result<(usize, Vec<u8>), ParseError>)
    requires
        start <= j <= input@.len(),
    ensures
        match r {
            Ok((next, tok)) => scan_token_end(input@, start as int, j as int) == (ScanOutcome::Done {
                next: next as int,
                val: tok@,
            }) && start < next <= input@.len(),
            Err(ParseError::Incomplete) => scan_token_end(input@, start as int, j as int) is Need,
            Err(ParseError::Protocol(e)) => scan_token_end(input@, start as int, j as int)
                == ScanOutcome::<Seq<u8>>::Fail(e),
        },
{
    let n = input.len();
    if j >= n {
        return Err(ParseError::Incomplete);
    }
    let b = input[j];
    if b == CR {
        if j + 1 >= n {
            return Err(ParseError::Incomplete);
        }
        if input[j + 1] == LF {
            let tok = slice_to_vec(slice_subrange(input, start, j));
            return Ok((j + 2, tok));
        }
        return Err(ParseError::Protocol(RespReaderError::MissingNewline));
    }
    Err(ParseError::Protocol(RespReaderError::InvalidCharInLength(b as char)))
}

/// Parses a big-number token: an optional sign, at least one digit, then
/// the terminator. The token is kept as its wire bytes.
fn parse_big_number(input: &[u8], pos: usize) -> (r: Result<(usize, Vec<u8>), ParseError>)
    requires
        pos <= input@.len(),
    ensures
        match r {
            Ok((next, tok)) => scan_big_number(input@, pos as int) == (ScanOutcome::Done {
                next: next as int,
                val: tok@,
            }) && pos < next <= input@.len(),
            Err(ParseError::Incomplete) => scan_big_number(input@, pos as int) is Need,
            Err(ParseError::Protocol(e)) => scan_big_number(input@, pos as int)
                == ScanOutcome::<Seq<u8>>::Fail(e),
        },
{
    let n = input.len();
    if pos >= n {
        return Err(ParseError::Incomplete);
    }
    let b0 = input[pos];
    let i1 = if b0 == MINUS || b0 == PLUS {
        pos + 1
    } else {
        pos
    };
    if i1 >= n {
        return Err(ParseError::Incomplete);
    }
    let first = input[i1];
    if first < DIGIT_ZERO || first > DIGIT_NINE {
        return Err(
            ParseError::Protocol(RespReaderError::InvalidCharInLength(first as char)),
        );
    }
    let run = parse_digit_run(input, i1);
    parse_token_end(input, pos, i1 + run)
}

/// Parses the exponent, if any, of a double token that began at `start`,
/// then the terminator.
fn parse_double_exp(input: &[u8], start: usize, j: usize) -> (r: Result<
    (usize, Vec<u8>),
    ParseError,
>)
    requires
        start <= j <= input@.len(),
    ensures
        match r {
            Ok((next, tok)) => scan_double_exp(input@, start as int, j as int) == (ScanOutcome::Done {
                next: next as int,
                val: tok@,
            }) && start < next <= input@.len(),
            Err(ParseError::Incomplete) => scan_double_exp(input@, start as int, j as int) is Need,
            Err(ParseError::Protocol(e)) => scan_double_exp(input@, start as int, j as int)
                == ScanOutcome::<Seq<u8>>::Fail(e),
        },
{
    let n = input.len();
    if j >= n {
        return Err(ParseError::Incomplete);
    }
    let b = input[j];
    if b == LOWER_E || b == UPPER_E {
        let j1 = j + 1;
        if j1 >= n {
            return Err(ParseError::Incomplete);
        }
        let b1 = input[j1];
        let j2 = if b1 == MINUS || b1 == PLUS {
            j1 + 1
        } else {
            j1
        };
        if j2 >= n {
            return Err(ParseError::Incomplete);
        }
        let first = input[j2];
        if first < DIGIT_ZERO || first > DIGIT_NINE {
            return Err(
                ParseError::Protocol(RespReaderError::InvalidCharInLength(first as char)),
            );
        }
        let run = parse_digit_run(input, j2);
        parse_token_end(input, start, j2 + run)
    } else {
        parse_token_end(input, start, j)
    }
}

/// Parses a double token: an optional sign, an integral digit run, an
/// optional fraction, and an optional exponent, then the terminator. The
/// token is kept as its wire bytes.
fn parse_double(input: &[u8], pos: usize) -> (r: Result<(usize, Vec<u8>), ParseError>)
    requires
        pos <= input@.len(),
    ensures
        match r {
            Ok((next, tok)) => scan_double(input@, pos as int) == (ScanOutcome::Done {
                next: next as int,
                val: tok@,
            }) && pos < next <= input@.len(),
            Err(ParseError::Incomplete) => scan_double(input@, pos as int) is Need,
            Err(ParseError::Protocol(e)) => scan_double(input@, pos as int)
                == ScanOutcome::<Seq<u8>>::Fail(e),
        },
{
    let n = input.len();
    if pos >= n {
        return Err(ParseError::Incomplete);
    }
    let b0 = input[pos];
    let i1 = if b0 == MINUS || b0 == PLUS {
        pos + 1
    } else {
        pos
    };
    if i1 >= n {
        return Err(ParseError::Incomplete);
    }
    let first = input[i1];
    if first < DIGIT_ZERO || first > DIGIT_NINE {
        return Err(
            ParseError::Protocol(RespReaderError::InvalidCharInLength(first as char)),
        );
    }
    let run = parse_digit_run(input, i1);
    let i2 = i1 + run;
    if i2 >= n {
        return Err(ParseError::Incomplete);
    }
    if input[i2] == DOT {
        if i2 + 1 >= n {
            return Err(ParseError::Incomplete);
        }
        let frac_first = input[i2 + 1];
        if frac_first < DIGIT_ZERO || frac_first > DIGIT_NINE {
            return Err(
                ParseError::Protocol(RespReaderError::InvalidCharInLength(frac_first as char)),
            );
        }
        let frac_run = parse_digit_run(input, i2 + 1);
        parse_double_exp(input, pos, i2 + 1 + frac_run)
    } else {
        parse_double_exp(input, pos, i2)
    }
}

/// Parses the length-prefixed payload shared by the bulk wire types: the
/// declared length is authoritative, and the terminator must stand exactly
/// at its end.
fn parse_bulk_payload(input: &[u8], pos: usize) -> (r: Result<(usize, Vec<u8>), ParseError>)
    requires
        pos <= input@.len(),
    ensures
        match r {
            Ok((next, payload)) => crate::wire::dec_bulk_payload(input@, pos as int)
                == (ScanOutcome::Done { next: next as int, val: payload@ }) && pos < next
                <= input@.len(),
            Err(ParseError::Incomplete) => crate::wire::dec_bulk_payload(input@, pos as int)
                is Need,
            Err(ParseError::Protocol(e)) => crate::wire::dec_bulk_payload(input@, pos as int)
                == ScanOutcome::<Seq<u8>>::Fail(e),
        },
{
    let n = input.len();
    let (j, len) = match parse_length(input, pos) {
        Ok(x) => x,
        Err(e) => {
            return Err(e);
        },
    };
    if len >= n - j {
        return Err(ParseError::Incomplete);
    }
    if input[j + len] != CR {
        return Err(ParseError::Protocol(RespReaderError::MissingNewline));
    }
    if j + len + 1 >= n {
        return Err(ParseError::Incomplete);
    }
    if input[j + len + 1] != LF {
        return Err(ParseError::Protocol(RespReaderError::MissingNewline));
    }
    let payload = slice_to_vec(slice_subrange(input, j, j + len));
    Ok((j + len + 2, payload))
}

/// Decides whether a set under construction already holds a structurally
/// equal member.
fn set_has(acc: &Vec<RespValue>, e: &RespValue) -> (r: bool)
    ensures
        r == crate::wire::set_contains(RespValue::model_seq(acc@), e.model()),
{
    let n = acc.len();
    let mut j: usize = 0;
    loop
        invariant
            0 <= j <= n,
            n == acc@.len(),
            forall|k: int| 0 <= k < j ==> RespValue::model_seq(acc@)[k] != e.model(),
        decreases n - j,
    {
        if j >= n {
            proof {
                assert(forall|k: int|
                    0 <= k < acc@.len() ==> RespValue::model_seq(acc@)[k] != e.model());
            }
            return false;
        }
        if acc[j].eq(e) {
            proof {
                assert(RespValue::model_seq(acc@)[j as int] == e.model());
            }
            return true;
        }
        j = j + 1;
    }
}

/// Builds a set from decoded members in order, silently merging later
/// structural duplicates.
#[verifier::loop_isolation(false)]
fn build_set(elems: Vec<RespValue>) -> (r: Vec<RespValue>)
    ensures
        RespValue::model_seq(r@) == crate::wire::set_fold(RespValue::model_seq(elems@)),
{
    let ghost ms = RespValue::model_seq(elems@);
    let mut rest = elems;
    let mut acc: Vec<RespValue> = Vec::new();
    proof {
        assert(ms.take(0) =~= Seq::empty());
        assert(RespValue::model_seq(acc@) =~= Seq::empty());
        assert(RespValue::model_seq(rest@) =~= ms.skip(0));
    }
    loop
        invariant
            rest@.len() <= ms.len(),
            RespValue::model_seq(rest@) == ms.skip(ms.len() - rest@.len()),
            RespValue::model_seq(acc@) == crate::wire::set_fold(
                ms.take(ms.len() - rest@.len()),
            ),
        decreases rest@.len(),
    {
        let ghost i = ms.len() - rest@.len();
        if rest.len() == 0 {
            proof {
                assert(rest@.len() == 0);
                assert(ms.take(ms.len() - rest@.len()) =~= ms);
                assert(RespValue::model_seq(acc@) == crate::wire::set_fold(ms));
            }
            return acc;
        }
        let ghost old_rest = rest@;
        let e = rest.remove(0);
        proof {
            assert(RespValue::model_seq(old_rest)[0] == old_rest[0].model());
            assert(ms.skip(i)[0] == ms[i]);
            assert(e.model() == ms[i]);
            assert forall|k: int| 0 <= k < rest@.len() implies RespValue::model_seq(rest@)[k]
                == ms.skip(i + 1)[k] by {
                assert(rest@[k] == old_rest[k + 1]);
                assert(RespValue::model_seq(old_rest)[k + 1] == old_rest[k + 1].model());
                assert(RespValue::model_seq(rest@)[k] == rest@[k].model());
                assert(ms.skip(i)[k + 1] == ms.skip(i + 1)[k]);
            }
            assert(RespValue::model_seq(rest@) =~= ms.skip(i + 1));
        }
        let ghost old_acc = acc@;
        let present = set_has(&acc, &e);
        if !present {
            acc.push(e);
        }
        proof {
            assert(ms.take(i + 1).drop_last() =~= ms.take(i));
            assert(ms.take(i + 1).last() == ms[i]);
            if !present {
                assert(RespValue::model_seq(acc@) =~= RespValue::model_seq(old_acc).push(ms[i]));
            }
        }
    }
}

/// Finds the position of the first entry whose key is structurally equal
/// to `k`, if any.
fn map_find(acc: &Vec<(RespValue, RespValue)>, k: &RespValue) -> (r: Option<usize>)
    ensures
        match r {
            Some(idx) => crate::wire::map_has_key(RespValue::model_pairs(acc@), k.model())
                && idx < acc@.len() && idx as int == crate::wire::first_key_index(
                RespValue::model_pairs(acc@),
                k.model(),
            ),
            None => !crate::wire::map_has_key(RespValue::model_pairs(acc@), k.model()),
        },
{
    let n = acc.len();
    let mut j: usize = 0;
    loop
        invariant
            0 <= j <= n,
            n == acc@.len(),
            forall|t: int| 0 <= t < j ==> RespValue::model_pairs(acc@)[t].0 != k.model(),
        decreases n - j,
    {
        if j >= n {
            proof {
                assert(forall|t: int|
                    0 <= t < acc@.len() ==> RespValue::model_pairs(acc@)[t].0 != k.model());
            }
            return None;
        }
        if acc[j].0.eq(k) {
            proof {
                assert(RespValue::model_pairs(acc@)[j as int].0 == k.model());
                crate::wire::lemma_first_key_index(RespValue::model_pairs(acc@), k.model());
            }
            return Some(j);
        }
        j = j + 1;
    }
}

/// Builds a map from decoded entries in order: a later duplicate key
/// replaces the value at the key's first position.
#[verifier::loop_isolation(false)]
fn build_map(entries: Vec<(RespValue, RespValue)>) -> (r: Vec<(RespValue, RespValue)>)
    ensures
        RespValue::model_pairs(r@) == crate::wire::map_fold(RespValue::model_pairs(entries@)),
{
    let ghost ms = RespValue::model_pairs(entries@);
    let mut rest = entries;
    let mut acc: Vec<(RespValue, RespValue)> = Vec::new();
    proof {
        assert(ms.take(0) =~= Seq::empty());
        assert(RespValue::model_pairs(acc@) =~= Seq::empty());
        assert(RespValue::model_pairs(rest@) =~= ms.skip(0));
    }
    loop
        invariant
            rest@.len() <= ms.len(),
            RespValue::model_pairs(rest@) == ms.skip(ms.len() - rest@.len()),
            RespValue::model_pairs(acc@) == crate::wire::map_fold(
                ms.take(ms.len() - rest@.len()),
            ),
        decreases rest@.len(),
    {
        let ghost i = ms.len() - rest@.len();
        if rest.len() == 0 {
            proof {
                assert(rest@.len() == 0);
                assert(ms.take(ms.len() - rest@.len()) =~= ms);
                assert(RespValue::model_pairs(acc@) == crate::wire::map_fold(ms));
            }
            return acc;
        }
        let ghost old_rest = rest@;
        let kv = rest.remove(0);
        proof {
            assert(RespValue::model_pairs(old_rest)[0] == (
                old_rest[0].0.model(),
                old_rest[0].1.model(),
            ));
            assert(ms.skip(i)[0] == ms[i]);
            assert((kv.0.model(), kv.1.model()) == ms[i]);
            assert forall|k: int| 0 <= k < rest@.len() implies RespValue::model_pairs(rest@)[k]
                == ms.skip(i + 1)[k] by {
                assert(rest@[k] == old_rest[k + 1]);
                assert(RespValue::model_pairs(old_rest)[k + 1] == (
                    old_rest[k + 1].0.model(),
                    old_rest[k + 1].1.model(),
                ));
                assert(RespValue::model_pairs(rest@)[k] == (
                    rest@[k].0.model(),
                    rest@[k].1.model(),
                ));
                assert(ms.skip(i)[k + 1] == ms.skip(i + 1)[k]);
            }
            assert(RespValue::model_pairs(rest@) =~= ms.skip(i + 1));
        }
        let ghost old_acc = acc@;
        let found = map_find(&acc, &kv.0);
        match found {
            Some(idx) => {
                acc[idx] = kv;
                proof {
                    assert(RespValue::model_pairs(acc@) =~= RespValue::model_pairs(
                        old_acc,
                    ).update(idx as int, (ms[i].0, ms[i].1)));
                }
            },
            None => {
                acc.push(kv);
                proof {
                    assert(RespValue::model_pairs(acc@) =~= RespValue::model_pairs(old_acc).push(
                        (ms[i].0, ms[i].1),
                    ));
                }
            },
        }
        proof {
            assert(ms.take(i + 1).drop_last() =~= ms.take(i));
            assert(ms.take(i + 1).last() == ms[i]);
            assert((ms[i].0, ms[i].1) == ms[i]);
        }
    }
}

/// Decodes `n` consecutive values starting at `pos`, in order.
fn parse_elems(input: &[u8], pos: usize, n: usize) -> (r: Result<(usize, Vec<RespValue>), ParseError>)
    requires
        pos <= input@.len(),
    ensures
        match r {
            Ok((next, vs)) => crate::wire::dec_elems(input@, pos as int, n as int)
                == (ScanOutcome::Done { next: next as int, val: RespValue::model_seq(vs@) })
                && pos <= next <= input@.len(),
            Err(ParseError::Incomplete) => crate::wire::dec_elems(input@, pos as int, n as int)
                is Need,
            Err(ParseError::Protocol(e)) => crate::wire::dec_elems(input@, pos as int, n as int)
                == ScanOutcome::<Seq<ValModel>>::Fail(e),
        },
    decreases input@.len() - pos, 1int, n as int,
{
    if n == 0 {
        let vs: Vec<RespValue> = Vec::new();
        proof {
            assert(RespValue::model_seq(vs@) =~= Seq::empty());
        }
        return Ok((pos, vs));
    }
    let (p1, v) = match parse_resp_value_at(input, pos) {
        Ok(x) => x,
        Err(e) => {
            return Err(e);
        },
    };
    let (end, mut rest) = match parse_elems(input, p1, n - 1) {
        Ok(x) => x,
        Err(e) => {
            return Err(e);
        },
    };
    let ghost old_rest = rest@;
    rest.insert(0, v);
    proof {
        assert forall|k: int| 0 <= k < rest@.len() implies RespValue::model_seq(rest@)[k] == (
        seq![v.model()] + RespValue::model_seq(old_rest))[k] by {
            if k == 0 {
                assert(rest@[0] == v);
            } else {
                assert(rest@[k] == old_rest[k - 1]);
                assert(RespValue::model_seq(old_rest)[k - 1] == old_rest[k - 1].model());
            }
        }
        assert(RespValue::model_seq(rest@) =~= seq![v.model()] + RespValue::model_seq(old_rest));
    }
    Ok((end, rest))
}

/// Decodes `n` consecutive key-value pairs starting at `pos`, in order.
fn parse_pairs(input: &[u8], pos: usize, n: usize) -> (r: Result<
    (usize, Vec<(RespValue, RespValue)>),
    ParseError,
>)
    requires
        pos <= input@.len(),
    ensures
        match r {
            Ok((next, vs)) => crate::wire::dec_pairs(input@, pos as int, n as int)
                == (ScanOutcome::Done { next: next as int, val: RespValue::model_pairs(vs@) })
                && pos <= next <= input@.len(),
            Err(ParseError::Incomplete) => crate::wire::dec_pairs(input@, pos as int, n as int)
                is Need,
            Err(ParseError::Protocol(e)) => crate::wire::dec_pairs(input@, pos as int, n as int)
                == ScanOutcome::<Seq<(ValModel, ValModel)>>::Fail(e),
        },
    decreases input@.len() - pos, 3int, n as int,
{
    let ghost s = input@;
    if n == 0 {
        let vs: Vec<(RespValue, RespValue)> = Vec::new();
        proof {
            assert(RespValue::model_pairs(vs@) =~= Seq::empty());
        }
        return Ok((pos, vs));
    }
    let (p1, k) = match parse_resp_value_at(input, pos) {
        Ok(x) => x,
        Err(e) => {
            return Err(e);
        },
    };
    let (p2, v) = match parse_resp_value_at(input, p1) {
        Ok(x) => x,
        Err(e) => {
            return Err(e);
        },
    };
    proof {
        assert(crate::wire::dec_elems(s, p2 as int, 0) == (ScanOutcome::Done {
            next: p2 as int,
            val: Seq::<ValModel>::empty(),
        }));
        assert(crate::wire::dec_elems(s, p1 as int, 1) == (ScanOutcome::Done {
            next: p2 as int,
            val: seq![v.model()] + Seq::<ValModel>::empty(),
        }));
        assert(crate::wire::dec_elems(s, pos as int, 2) == (ScanOutcome::Done {
            next: p2 as int,
            val: seq![k.model()] + (seq![v.model()] + Seq::<ValModel>::empty()),
        }));
        assert((seq![k.model()] + (seq![v.model()] + Seq::<ValModel>::empty())).len() == 2);
        assert((seq![k.model()] + (seq![v.model()] + Seq::<ValModel>::empty()))[0] == k.model());
        assert((seq![k.model()] + (seq![v.model()] + Seq::<ValModel>::empty()))[1] == v.model());
    }
    let (end, mut rest) = match parse_pairs(input, p2, n - 1) {
        Ok(x) => x,
        Err(e) => {
            return Err(e);
        },
    };
    let ghost old_rest = rest@;
    rest.insert(0, (k, v));
    proof {
        assert forall|t: int| 0 <= t < rest@.len() implies RespValue::model_pairs(rest@)[t] == (
        seq![(k.model(), v.model())] + RespValue::model_pairs(old_rest))[t] by {
            if t == 0 {
                assert(rest@[0] == (k, v));
            } else {
                assert(rest@[t] == old_rest[t - 1]);
                assert(RespValue::model_pairs(old_rest)[t - 1] == (
                    old_rest[t - 1].0.model(),
                    old_rest[t - 1].1.model(),
                ));
            }
        }
        assert(RespValue::model_pairs(rest@) =~= seq![(k.model(), v.model())]
            + RespValue::model_pairs(old_rest));
    }
    Ok((end, rest))
}

/// Decodes one protocol value at `pos`: reads the tag byte and dispatches
/// on the wire type, recursively for aggregates.
pub fn parse_resp_value_at(input: &[u8], pos: usize) -> (r: Result<
    (usize, RespValue),
    ParseError,
>)
    requires
        pos <= input@.len(),
    ensures
        match r {
            Ok((next, v)) => crate::wire::dec_val(input@, pos as int) == (ScanOutcome::Done {
                next: next as int,
                val: v.model(),
            }) && pos < next <= input@.len(),
            Err(ParseError::Incomplete) => crate::wire::dec_val(input@, pos as int) is Need,
            Err(ParseError::Protocol(e)) => crate::wire::dec_val(input@, pos as int)
                == ScanOutcome::<ValModel>::Fail(e),
        },
    decreases input@.len() - pos, 0int, 0int,
{
    let ghost s = input@;
    let n = input.len();
    if pos >= n {
        return Err(ParseError::Incomplete);
    }
    let tag = input[pos];
    let dt = match crate::data_type::RespDataType::try_from(tag) {
        Some(dt) => dt,
        None => {
            return Err(
                ParseError::Protocol(RespReaderError::UnknownDataType(tag as char)),
            );
        },
    };
    match dt {
        crate::data_type::RespDataType::Null => {
            if pos + 1 >= n {
                return Err(ParseError::Incomplete);
            }
            if input[pos + 1] != CR {
                return Err(ParseError::Protocol(RespReaderError::MissingNewline));
            }
            if pos + 2 >= n {
                return Err(ParseError::Incomplete);
            }
            if input[pos + 2] != LF {
                return Err(ParseError::Protocol(RespReaderError::MissingNewline));
            }
            Ok((pos + 3, RespValue::Null))
        },
        crate::data_type::RespDataType::Boolean => {
            if pos + 1 >= n {
                return Err(ParseError::Incomplete);
            }
            let b = input[pos + 1];
            if b != LOWER_T && b != LOWER_F {
                return Err(
                    ParseError::Protocol(RespReaderError::InvalidCharInLength(b as char)),
                );
            }
            if pos + 2 >= n {
                return Err(ParseError::Incomplete);
            }
            if input[pos + 2] != CR {
                return Err(ParseError::Protocol(RespReaderError::MissingNewline));
            }
            if pos + 3 >= n {
                return Err(ParseError::Incomplete);
            }
            if input[pos + 3] != LF {
                return Err(ParseError::Protocol(RespReaderError::MissingNewline));
            }
            Ok((pos + 4, RespValue::Boolean(b == LOWER_T)))
        },
        crate::data_type::RespDataType::Integer => {
            match parse_integer(input, pos + 1) {
                Ok((next, v)) => Ok((next, RespValue::Integer(v))),
                Err(e) => Err(e),
            }
        },
        crate::data_type::RespDataType::Double => {
            match parse_double(input, pos + 1) {
                Ok((next, tok)) => Ok((next, RespValue::Double(tok))),
                Err(e) => Err(e),
            }
        },
        crate::data_type::RespDataType::BigNumber => {
            match parse_big_number(input, pos + 1) {
                Ok((next, tok)) => Ok((next, RespValue::BigNumber(tok))),
                Err(e) => Err(e),
            }
        },
        crate::data_type::RespDataType::SimpleString => {
            match parse_line(input, pos + 1) {
                Ok((next, content)) => {
                    if check_utf8(content.as_slice()) {
                        Ok((next, RespValue::SimpleString(content)))
                    } else {
                        Err(ParseError::Protocol(RespReaderError::NonUtf8String))
                    }
                },
                Err(e) => Err(e),
            }
        },
        crate::data_type::RespDataType::SimpleError => {
            match parse_line(input, pos + 1) {
                Ok((next, content)) => {
                    if check_utf8(content.as_slice()) {
                        Ok((next, RespValue::SimpleError(content)))
                    } else {
                        Err(ParseError::Protocol(RespReaderError::NonUtf8String))
                    }
                },
                Err(e) => Err(e),
            }
        },
        crate::data_type::RespDataType::BulkString => {
            match parse_bulk_payload(input, pos + 1) {
                Ok((next, payload)) => {
                    if check_utf8(payload.as_slice()) {
                        Ok((next, RespValue::BulkString(payload)))
                    } else {
                        Err(ParseError::Protocol(RespReaderError::NonUtf8String))
                    }
                },
                Err(e) => Err(e),
            }
        },
        crate::data_type::RespDataType::BulkError => {
            match parse_bulk_payload(input, pos + 1) {
                Ok((next, payload)) => {
                    if check_utf8(payload.as_slice()) {
                        Ok((next, RespValue::BulkError(payload)))
                    } else {
                        Err(ParseError::Protocol(RespReaderError::NonUtf8String))
                    }
                },
                Err(e) => Err(e),
            }
        },
        crate::data_type::RespDataType::VerbatimString => {
            match parse_bulk_payload(input, pos + 1) {
                Ok((next, payload)) => {
                    if payload.len() < 4 {
                        return Err(ParseError::Protocol(RespReaderError::MissingNewline));
                    }
                    let sep = payload[3];
                    if sep != crate::wire::COLON {
                        return Err(
                            ParseError::Protocol(
                                RespReaderError::InvalidCharInLength(sep as char),
                            ),
                        );
                    }
                    let f = slice_to_vec(slice_subrange(payload.as_slice(), 0, 3));
                    let t = slice_to_vec(
                        slice_subrange(payload.as_slice(), 4, payload.len()),
                    );
                    if !check_utf8(f.as_slice()) {
                        return Err(ParseError::Protocol(RespReaderError::NonUtf8String));
                    }
                    if !check_utf8(t.as_slice()) {
                        return Err(ParseError::Protocol(RespReaderError::NonUtf8String));
                    }
                    Ok((next, RespValue::VerbatimString(f, t)))
                },
                Err(e) => Err(e),
            }
        },
        crate::data_type::RespDataType::Array => {
            match parse_length(input, pos + 1) {
                Ok((j, cnt)) => {
                    match parse_elems(input, j, cnt) {
                        Ok((end, vs)) => Ok((end, RespValue::Array(vs))),
                        Err(e) => Err(e),
                    }
                },
                Err(e) => Err(e),
            }
        },
        crate::data_type::RespDataType::Push => {
            match parse_length(input, pos + 1) {
                Ok((j, cnt)) => {
                    match parse_elems(input, j, cnt) {
                        Ok((end, vs)) => Ok((end, RespValue::Push(vs))),
                        Err(e) => Err(e),
                    }
                },
                Err(e) => Err(e),
            }
        },
        crate::data_type::RespDataType::ValueSet => {
            match parse_length(input, pos + 1) {
                Ok((j, cnt)) => {
                    match parse_elems(input, j, cnt) {
                        Ok((end, vs)) => {
                            let members = build_set(vs);
                            Ok((end, RespValue::ValueSet(members)))
                        },
                        Err(e) => Err(e),
                    }
                },
                Err(e) => Err(e),
            }
        },
        crate::data_type::RespDataType::Mapping => {
            match parse_length(input, pos + 1) {
                Ok((j, cnt)) => {
                    match parse_pairs(input, j, cnt) {
                        Ok((end, vs)) => {
                            let entries = build_map(vs);
                            Ok((end, RespValue::Mapping(entries)))
                        },
                        Err(e) => Err(e),
                    }
                },
                Err(e) => Err(e),
            }
        },
    }
}

/// Decodes one protocol value from the front of `input`, returning the
/// unconsumed remainder beside it. "Incomplete" is a dedicated outcome: the
/// caller keeps its bytes and retries once more input has arrived.
pub fn parse_resp_value<'a>(input: &'a [u8]) -> (r: Result<(&'a [u8], RespValue), ParseError>)
    ensures
        match r {
            Ok((rest, v)) => crate::wire::dec_val(input@, 0) == (ScanOutcome::Done {
                next: input@.len() - rest@.len(),
                val: v.model(),
            }) && rest@ == input@.subrange(input@.len() - rest@.len(), input@.len() as int),
            Err(ParseError::Incomplete) => crate::wire::dec_val(input@, 0) is Need,
            Err(ParseError::Protocol(e)) => crate::wire::dec_val(input@, 0)
                == ScanOutcome::<ValModel>::Fail(e),
        },
{
    match parse_resp_value_at(input, 0) {
        Ok((next, v)) => {
            let rest = slice_subrange(input, next, input.len());
            Ok((rest, v))
        },
        Err(e) => Err(e),
    }
}

} // verus!
