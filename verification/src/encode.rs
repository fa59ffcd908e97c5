//! The encoder: renders any protocol value to wire bytes, recursively, with
//! the tag table as the single source of truth for the leading byte.
//!
//! Encoding is total and is proved to produce exactly the bytes that the
//! wire-format specification `enc` gives for the value's model.

use vstd::prelude::*;

use crate::data_type::{CR, LF};
use crate::value::RespValue;
use crate::wire::{
    digits_of, enc, enc_pairs, enc_seq, lemma_enc_pairs_append, lemma_enc_pairs_single,
    lemma_enc_seq_append, lemma_enc_seq_single, COLON, DIGIT_ZERO, LOWER_F, LOWER_T, MINUS,
};

verus! {

/// Appends the ASCII decimal digits of `n`, most significant first.
#[verifier::loop_isolation(false)]
fn push_digits(out: &mut Vec<u8>, n: u128)
    ensures
        final(out)@ == old(out)@ + digits_of(n as nat),
    decreases n,
{
    if n < 10 {
        out.push(DIGIT_ZERO + (n as u8));
        proof {
            assert(out@ =~= old(out)@ + digits_of(n as nat));
        }
    } else {
        push_digits(out, n / 10);
        out.push(DIGIT_ZERO + ((n % 10) as u8));
        proof {
            assert(out@ =~= old(out)@ + digits_of((n / 10) as nat).push(
                (DIGIT_ZERO + (n as nat) % 10) as u8,
            ));
            assert(digits_of(n as nat) == digits_of((n / 10) as nat).push(
                (DIGIT_ZERO + (n as nat) % 10) as u8,
            ));
            assert(old(out)@ + digits_of((n / 10) as nat).push(
                (DIGIT_ZERO + (n as nat) % 10) as u8,
            ) =~= old(out)@ + digits_of(n as nat));
        }
    }
}

/// Appends a byte payload.
#[verifier::loop_isolation(false)]
fn push_bytes(out: &mut Vec<u8>, bytes: &Vec<u8>)
    ensures
        final(out)@ == old(out)@ + bytes@,
{
    let n = bytes.len();
    let mut i: usize = 0;
    loop
        invariant
            0 <= i <= n,
            n == bytes@.len(),
            out@ == old(out)@ + bytes@.take(i as int),
        decreases n - i,
    {
        if i >= n {
            proof {
                assert(bytes@.take(n as int) =~= bytes@);
            }
            return ;
        }
        out.push(bytes[i]);
        proof {
            assert(bytes@.take(i + 1) =~= bytes@.take(i as int).push(bytes@[i as int]));
            assert(out@ =~= old(out)@ + bytes@.take(i + 1));
        }
        i = i + 1;
    }
}

/// Appends the universal terminator.
fn push_crlf(out: &mut Vec<u8>)
    ensures
        final(out)@ == old(out)@ + crate::wire::crlf(),
{
    out.push(CR);
    out.push(LF);
    proof {
        assert(out@ =~= old(out)@ + crate::wire::crlf());
    }
}

/// Renders one protocol value onto the end of `out`.
#[verifier::loop_isolation(false)]
pub fn encode_into(v: &RespValue, out: &mut Vec<u8>)
    ensures
        final(out)@ == old(out)@ + enc(v.model()),
    decreases v,
{
    match v {
        RespValue::Null => {
            out.push(crate::data_type::TAG_NULL);
            push_crlf(out);
            proof {
                assert(out@ =~= old(out)@ + enc(v.model()));
            }
        },
        RespValue::Boolean(b) => {
            out.push(crate::data_type::TAG_BOOLEAN);
            out.push(if *b {
                LOWER_T
            } else {
                LOWER_F
            });
            push_crlf(out);
            proof {
                assert(out@ =~= old(out)@ + enc(v.model()));
            }
        },
        RespValue::Integer(i) => {
            out.push(crate::data_type::TAG_INTEGER);
            let iv = *i;
            if iv < 0 {
                out.push(MINUS);
                let mag: u64 = ((-(iv + 1)) as u64) + 1;
                proof {
                    assert(mag as int == -(iv as int));
                }
                push_digits(out, mag as u128);
            } else {
                push_digits(out, iv as u128);
            }
            push_crlf(out);
            proof {
                assert(out@ =~= old(out)@ + enc(v.model()));
            }
        },
        RespValue::Double(t) => {
            out.push(crate::data_type::TAG_DOUBLE);
            push_bytes(out, t);
            push_crlf(out);
            proof {
                assert(out@ =~= old(out)@ + enc(v.model()));
            }
        },
        RespValue::BigNumber(t) => {
            out.push(crate::data_type::TAG_BIG_NUMBER);
            push_bytes(out, t);
            push_crlf(out);
            proof {
                assert(out@ =~= old(out)@ + enc(v.model()));
            }
        },
        RespValue::SimpleString(s) => {
            out.push(crate::data_type::TAG_SIMPLE_STRING);
            push_bytes(out, s);
            push_crlf(out);
            proof {
                assert(out@ =~= old(out)@ + enc(v.model()));
            }
        },
        RespValue::SimpleError(s) => {
            out.push(crate::data_type::TAG_SIMPLE_ERROR);
            push_bytes(out, s);
            push_crlf(out);
            proof {
                assert(out@ =~= old(out)@ + enc(v.model()));
            }
        },
        RespValue::BulkString(s) => {
            out.push(crate::data_type::TAG_BULK_STRING);
            push_digits(out, s.len() as u128);
            push_crlf(out);
            push_bytes(out, s);
            push_crlf(out);
            proof {
                assert(out@ =~= old(out)@ + enc(v.model()));
            }
        },
        RespValue::BulkError(s) => {
            out.push(crate::data_type::TAG_BULK_ERROR);
            push_digits(out, s.len() as u128);
            push_crlf(out);
            push_bytes(out, s);
            push_crlf(out);
            proof {
                assert(out@ =~= old(out)@ + enc(v.model()));
            }
        },
        RespValue::VerbatimString(f, t) => {
            out.push(crate::data_type::TAG_VERBATIM_STRING);
            let total: u128 = (f.len() as u128) + 1 + (t.len() as u128);
            push_digits(out, total);
            push_crlf(out);
            push_bytes(out, f);
            out.push(COLON);
            push_bytes(out, t);
            push_crlf(out);
            proof {
                assert(out@ =~= old(out)@ + enc(v.model()));
            }
        },
        RespValue::Array(elems) => {
            out.push(crate::data_type::TAG_ARRAY);
            push_digits(out, elems.len() as u128);
            push_crlf(out);
            encode_elems(elems, out);
            proof {
                assert(out@ =~= old(out)@ + enc(v.model()));
            }
        },
        RespValue::Push(elems) => {
            out.push(crate::data_type::TAG_PUSH);
            push_digits(out, elems.len() as u128);
            push_crlf(out);
            encode_elems(elems, out);
            proof {
                assert(out@ =~= old(out)@ + enc(v.model()));
            }
        },
        RespValue::ValueSet(elems) => {
            out.push(crate::data_type::TAG_VALUE_SET);
            push_digits(out, elems.len() as u128);
            push_crlf(out);
            encode_elems(elems, out);
            proof {
                assert(out@ =~= old(out)@ + enc(v.model()));
            }
        },
        RespValue::Mapping(entries) => {
            out.push(crate::data_type::TAG_MAPPING);
            push_digits(out, entries.len() as u128);
            push_crlf(out);
            encode_entries(entries, out);
            proof {
                assert(out@ =~= old(out)@ + enc(v.model()));
            }
        },
    }
}

/// Renders each value of a sequence in order.
#[verifier::loop_isolation(false)]
fn encode_elems(elems: &Vec<RespValue>, out: &mut Vec<u8>)
    ensures
        final(out)@ == old(out)@ + enc_seq(RespValue::model_seq(elems@)),
    decreases elems,
{
    let ghost ms = RespValue::model_seq(elems@);
    let n = elems.len();
    let mut i: usize = 0;
    proof {
        assert(ms.take(0) =~= Seq::empty());
        assert(enc_seq(Seq::empty()) =~= Seq::empty());
        assert(out@ =~= out@ + enc_seq(ms.take(0)));
    }
    loop
        invariant
            0 <= i <= n,
            n == elems@.len(),
            ms == RespValue::model_seq(elems@),
            out@ == old(out)@ + enc_seq(ms.take(i as int)),
        decreases n - i,
    {
        if i >= n {
            proof {
                assert(ms.take(n as int) =~= ms);
            }
            return ;
        }
        encode_into(&elems[i], out);
        proof {
            assert(RespValue::model_seq(elems@)[i as int] == elems@[i as int].model());
            assert(ms.take(i + 1) =~= ms.take(i as int) + seq![ms[i as int]]);
            lemma_enc_seq_append(ms.take(i as int), seq![ms[i as int]]);
            lemma_enc_seq_single(ms[i as int]);
            assert(out@ =~= old(out)@ + enc_seq(ms.take(i + 1)));
        }
        i = i + 1;
    }
}

/// Renders each entry of a sequence in order: key immediately followed by
/// value.
#[verifier::loop_isolation(false)]
fn encode_entries(entries: &Vec<(RespValue, RespValue)>, out: &mut Vec<u8>)
    ensures
        final(out)@ == old(out)@ + enc_pairs(RespValue::model_pairs(entries@)),
    decreases entries,
{
    let ghost ms = RespValue::model_pairs(entries@);
    let n = entries.len();
    let mut i: usize = 0;
    proof {
        assert(ms.take(0) =~= Seq::empty());
        assert(enc_pairs(Seq::empty()) =~= Seq::empty());
        assert(out@ =~= out@ + enc_pairs(ms.take(0)));
    }
    loop
        invariant
            0 <= i <= n,
            n == entries@.len(),
            ms == RespValue::model_pairs(entries@),
            out@ == old(out)@ + enc_pairs(ms.take(i as int)),
        decreases n - i,
    {
        if i >= n {
            proof {
                assert(ms.take(n as int) =~= ms);
            }
            return ;
        }
        encode_into(&entries[i].0, out);
        encode_into(&entries[i].1, out);
        proof {
            assert(RespValue::model_pairs(entries@)[i as int] == (
                entries@[i as int].0.model(),
                entries@[i as int].1.model(),
            ));
            assert(ms.take(i + 1) =~= ms.take(i as int) + seq![ms[i as int]]);
            lemma_enc_pairs_append(ms.take(i as int), seq![ms[i as int]]);
            lemma_enc_pairs_single(ms[i as int].0, ms[i as int].1);
            assert(out@ =~= old(out)@ + enc_pairs(ms.take(i + 1)));
        }
        i = i + 1;
    }
}

/// Renders a protocol value to its wire bytes.
pub fn encode_resp_value(v: &RespValue) -> (out: Vec<u8>)
    ensures
        out@ == enc(v.model()),
{
    let mut out: Vec<u8> = Vec::new();
    encode_into(v, &mut out);
    proof {
        assert(Seq::<u8>::empty() + enc(v.model()) =~= enc(v.model()));
    }
    out
}

} // verus!
