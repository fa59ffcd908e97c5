//! The protocol value model: the tagged union of every RESP wire value,
//! its mathematical model, and the structural equality the protocol defines.
//!
//! Text payloads are held as their wire bytes. A Double is held as its ASCII
//! numeric token exactly as it stands on the wire, so that equality and
//! hashing are over the token's bytes (bit-identical payloads are equal) and
//! no floating-point arithmetic enters the verified code. Maps and sets are
//! held as ordered entry vectors whose invariant forbids structural
//! duplicates; equality over them is equality of the stored entry order,
//! a documented choice where the wire leaves the order open.

use vstd::prelude::*;

use crate::data_type::RespDataType;

verus! {

broadcast use vstd::seq::axiom_seq_index_decreases;

/// The mathematical model of a protocol value: payloads as byte sequences,
/// aggregates as sequences of models.
#[verifier::ext_equal]
pub enum ValModel {
    Null,
    Boolean(bool),
    Integer(i64),
    Double(Seq<u8>),
    BigNumber(Seq<u8>),
    SimpleString(Seq<u8>),
    SimpleError(Seq<u8>),
    BulkString(Seq<u8>),
    BulkError(Seq<u8>),
    VerbatimString(Seq<u8>, Seq<u8>),
    Array(Seq<ValModel>),
    Push(Seq<ValModel>),
    Mapping(Seq<(ValModel, ValModel)>),
    ValueSet(Seq<ValModel>),
}

/// A decoded RESP value. Owns its payload bytes.
#[derive(Debug, Hash)]
pub enum RespValue {
    Null,
    Boolean(bool),
    Integer(i64),
    Double(Vec<u8>),
    BigNumber(Vec<u8>),
    SimpleString(Vec<u8>),
    SimpleError(Vec<u8>),
    BulkString(Vec<u8>),
    BulkError(Vec<u8>),
    VerbatimString(Vec<u8>, Vec<u8>),
    Array(Vec<RespValue>),
    Push(Vec<RespValue>),
    Mapping(Vec<(RespValue, RespValue)>),
    ValueSet(Vec<RespValue>),
}

impl RespValue {
    /// The mathematical model of this value.
    pub open spec fn model(self) -> ValModel
        decreases self,
    {
        match self {
            RespValue::Null => ValModel::Null,
            RespValue::Boolean(b) => ValModel::Boolean(b),
            RespValue::Integer(i) => ValModel::Integer(i),
            RespValue::Double(t) => ValModel::Double(t@),
            RespValue::BigNumber(t) => ValModel::BigNumber(t@),
            RespValue::SimpleString(t) => ValModel::SimpleString(t@),
            RespValue::SimpleError(t) => ValModel::SimpleError(t@),
            RespValue::BulkString(t) => ValModel::BulkString(t@),
            RespValue::BulkError(t) => ValModel::BulkError(t@),
            RespValue::VerbatimString(f, t) => ValModel::VerbatimString(f@, t@),
            RespValue::Array(elems) => ValModel::Array(Self::model_seq(elems@)),
            RespValue::Push(elems) => ValModel::Push(Self::model_seq(elems@)),
            RespValue::Mapping(entries) => ValModel::Mapping(Self::model_pairs(entries@)),
            RespValue::ValueSet(elems) => ValModel::ValueSet(Self::model_seq(elems@)),
        }
    }

    /// The models of a sequence of values, in order.
    pub open spec fn model_seq(elems: Seq<RespValue>) -> Seq<ValModel>
        decreases elems,
    {
        Seq::new(
            elems.len(),
            |i: int|
                if 0 <= i < elems.len() {
                    elems[i].model()
                } else {
                    ValModel::Null
                },
        )
    }

    /// The models of a sequence of key-value pairs, in order.
    pub open spec fn model_pairs(entries: Seq<(RespValue, RespValue)>) -> Seq<
        (ValModel, ValModel),
    >
        decreases entries,
    {
        Seq::new(
            entries.len(),
            |i: int|
                if 0 <= i < entries.len() {
                    (entries[i].0.model(), entries[i].1.model())
                } else {
                    (ValModel::Null, ValModel::Null)
                },
        )
    }
    /// The wire type this value renders as.
    pub fn data_type(&self) -> (dt: RespDataType)
        ensures
            dt == self.model().data_type(),
    {
        match self {
            RespValue::Null => RespDataType::Null,
            RespValue::Boolean(_) => RespDataType::Boolean,
            RespValue::Integer(_) => RespDataType::Integer,
            RespValue::Double(_) => RespDataType::Double,
            RespValue::BigNumber(_) => RespDataType::BigNumber,
            RespValue::SimpleString(_) => RespDataType::SimpleString,
            RespValue::SimpleError(_) => RespDataType::SimpleError,
            RespValue::BulkString(_) => RespDataType::BulkString,
            RespValue::BulkError(_) => RespDataType::BulkError,
            RespValue::VerbatimString(_, _) => RespDataType::VerbatimString,
            RespValue::Array(_) => RespDataType::Array,
            RespValue::Push(_) => RespDataType::Push,
            RespValue::Mapping(_) => RespDataType::Mapping,
            RespValue::ValueSet(_) => RespDataType::ValueSet,
        }
    }
}

/// The model of a value picks the same constructor as the value itself.
pub proof fn lemma_model_variant(v: RespValue)
    ensures
        (v is Null <==> v.model() is Null),
        (v is Boolean <==> v.model() is Boolean),
        (v is Integer <==> v.model() is Integer),
        (v is Double <==> v.model() is Double),
        (v is BigNumber <==> v.model() is BigNumber),
        (v is SimpleString <==> v.model() is SimpleString),
        (v is SimpleError <==> v.model() is SimpleError),
        (v is BulkString <==> v.model() is BulkString),
        (v is BulkError <==> v.model() is BulkError),
        (v is VerbatimString <==> v.model() is VerbatimString),
        (v is Array <==> v.model() is Array),
        (v is Push <==> v.model() is Push),
        (v is Mapping <==> v.model() is Mapping),
        (v is ValueSet <==> v.model() is ValueSet),
{
    match v {
        RespValue::Null => {},
        RespValue::Boolean(_) => {},
        RespValue::Integer(_) => {},
        RespValue::Double(_) => {},
        RespValue::BigNumber(_) => {},
        RespValue::SimpleString(_) => {},
        RespValue::SimpleError(_) => {},
        RespValue::BulkString(_) => {},
        RespValue::BulkError(_) => {},
        RespValue::VerbatimString(_, _) => {},
        RespValue::Array(_) => {},
        RespValue::Push(_) => {},
        RespValue::Mapping(_) => {},
        RespValue::ValueSet(_) => {},
    }
}

/// Decides equality of two byte payloads, stated over their views.
pub fn bytes_eq(a: &Vec<u8>, b: &Vec<u8>) -> (r: bool)
    ensures
        r == (a@ == b@),
{
    let r = a == b;
    proof {
        if r {
            assert(a@.len() == b@.len());
            assert(forall|i: int| 0 <= i < a@.len() ==> a@[i] == b@[i]);
            assert(a@ =~= b@);
        } else {
            if a@ == b@ {
                assert(a@.len() == b@.len());
                assert(forall|i: int| 0 <= i < a@.len() ==> a@[i] == b@[i]);
            }
        }
    }
    r
}

/// Decides elementwise structural equality of two value vectors, stated
/// over their models.
pub fn values_eq(a: &Vec<RespValue>, b: &Vec<RespValue>) -> (r: bool)
    ensures
        r == (RespValue::model_seq(a@) == RespValue::model_seq(b@)),
    decreases a,
{
    let n = a.len();
    if n != b.len() {
        proof {
            assert(RespValue::model_seq(a@).len() != RespValue::model_seq(b@).len());
        }
        return false;
    }
    let mut i: usize = 0;
    loop
        invariant
            0 <= i <= n,
            n == a@.len() == b@.len(),
            forall|k: int| 0 <= k < i ==> RespValue::model_seq(a@)[k] == RespValue::model_seq(
                b@,
            )[k],
        decreases n - i,
    {
        if i >= n {
            proof {
                assert(RespValue::model_seq(a@) =~= RespValue::model_seq(b@));
            }
            return true;
        }
        if !a[i].eq(&b[i]) {
            proof {
                assert(RespValue::model_seq(a@)[i as int] == a@[i as int].model());
                assert(RespValue::model_seq(b@)[i as int] == b@[i as int].model());
            }
            return false;
        }
        i = i + 1;
    }
}

/// Decides elementwise structural equality of two entry vectors, stated
/// over their models.
pub fn pairs_eq(a: &Vec<(RespValue, RespValue)>, b: &Vec<(RespValue, RespValue)>) -> (r: bool)
    ensures
        r == (RespValue::model_pairs(a@) == RespValue::model_pairs(b@)),
    decreases a,
{
    let n = a.len();
    if n != b.len() {
        proof {
            assert(RespValue::model_pairs(a@).len() != RespValue::model_pairs(b@).len());
        }
        return false;
    }
    let mut i: usize = 0;
    loop
        invariant
            0 <= i <= n,
            n == a@.len() == b@.len(),
            forall|k: int| 0 <= k < i ==> RespValue::model_pairs(a@)[k] == RespValue::model_pairs(
                b@,
            )[k],
        decreases n - i,
    {
        if i >= n {
            proof {
                assert(RespValue::model_pairs(a@) =~= RespValue::model_pairs(b@));
            }
            return true;
        }
        let ka = &a[i].0;
        let kb = &b[i].0;
        let va = &a[i].1;
        let vb = &b[i].1;
        if !ka.eq(kb) || !va.eq(vb) {
            proof {
                assert(RespValue::model_pairs(a@)[i as int] == (
                    a@[i as int].0.model(),
                    a@[i as int].1.model(),
                ));
                assert(RespValue::model_pairs(b@)[i as int] == (
                    b@[i as int].0.model(),
                    b@[i as int].1.model(),
                ));
            }
            return false;
        }
        i = i + 1;
    }
}

impl PartialEq for RespValue {
    /// Structural equality: defined within one variant only; values of
    /// different variants are never equal.
    fn eq(&self, other: &RespValue) -> (r: bool)
        decreases self,
    {
        match (self, other) {
            (RespValue::Null, RespValue::Null) => true,
            (RespValue::Boolean(a), RespValue::Boolean(b)) => a == b,
            (RespValue::Integer(a), RespValue::Integer(b)) => a == b,
            (RespValue::Double(a), RespValue::Double(b)) => bytes_eq(a, b),
            (RespValue::BigNumber(a), RespValue::BigNumber(b)) => bytes_eq(a, b),
            (RespValue::SimpleString(a), RespValue::SimpleString(b)) => bytes_eq(a, b),
            (RespValue::SimpleError(a), RespValue::SimpleError(b)) => bytes_eq(a, b),
            (RespValue::BulkString(a), RespValue::BulkString(b)) => bytes_eq(a, b),
            (RespValue::BulkError(a), RespValue::BulkError(b)) => bytes_eq(a, b),
            (RespValue::VerbatimString(f1, t1), RespValue::VerbatimString(f2, t2)) => bytes_eq(
                f1,
                f2,
            ) && bytes_eq(t1, t2),
            (RespValue::Array(a), RespValue::Array(b)) => values_eq(a, b),
            (RespValue::Push(a), RespValue::Push(b)) => values_eq(a, b),
            (RespValue::Mapping(a), RespValue::Mapping(b)) => pairs_eq(a, b),
            (RespValue::ValueSet(a), RespValue::ValueSet(b)) => values_eq(a, b),
            _ => {
                proof {
                    lemma_model_variant(*self);
                    lemma_model_variant(*other);
                }
                false
            },
        }
    }
}

impl vstd::std_specs::cmp::PartialEqSpecImpl for RespValue {
    open spec fn obeys_eq_spec() -> bool {
        true
    }

    open spec fn eq_spec(&self, other: &RespValue) -> bool {
        self.model() == other.model()
    }
}

impl ValModel {
    /// Whether a modelled value is well formed: its tokens fit their
    /// grammars, its text is valid UTF-8 with no stray line terminators, its
    /// lengths fit the machine, and its sets and maps hold no structural
    /// duplicates.
    pub open spec fn wf(self) -> bool
        decreases self,
    {
        match self {
            ValModel::Null => true,
            ValModel::Boolean(_) => true,
            ValModel::Integer(_) => true,
            ValModel::Double(t) => crate::wire::valid_double_token(t),
            ValModel::BigNumber(t) => crate::wire::valid_big_number_token(t),
            ValModel::SimpleString(s) => crate::wire::line_safe(s) && crate::utf8::is_utf8(s),
            ValModel::SimpleError(s) => crate::wire::line_safe(s) && crate::utf8::is_utf8(s),
            ValModel::BulkString(s) => crate::utf8::is_utf8(s) && s.len() <= usize::MAX,
            ValModel::BulkError(s) => crate::utf8::is_utf8(s) && s.len() <= usize::MAX,
            ValModel::VerbatimString(f, t) => f.len() == 3 && crate::utf8::is_utf8(f)
                && crate::utf8::is_utf8(t) && 4 + t.len() <= usize::MAX,
            ValModel::Array(elems) => elems.len() <= usize::MAX && (forall|i: int|
                0 <= i < elems.len() ==> (#[trigger] elems[i]).wf()),
            ValModel::Push(elems) => elems.len() <= usize::MAX && (forall|i: int|
                0 <= i < elems.len() ==> (#[trigger] elems[i]).wf()),
            ValModel::ValueSet(elems) => elems.len() <= usize::MAX && (forall|i: int|
                0 <= i < elems.len() ==> (#[trigger] elems[i]).wf()) && (forall|i: int, j: int|
                0 <= i < j < elems.len() ==> elems[i] != elems[j]),
            ValModel::Mapping(entries) => entries.len() <= usize::MAX && (forall|i: int|
                0 <= i < entries.len() ==> (#[trigger] entries[i]).0.wf() && (
                #[trigger] entries[i]).1.wf()) && (forall|i: int, j: int|
                0 <= i < j < entries.len() ==> entries[i].0 != entries[j].0),
        }
    }

    /// The wire type of a modelled value.
    pub open spec fn data_type(self) -> RespDataType {
        match self {
            ValModel::Null => RespDataType::Null,
            ValModel::Boolean(_) => RespDataType::Boolean,
            ValModel::Integer(_) => RespDataType::Integer,
            ValModel::Double(_) => RespDataType::Double,
            ValModel::BigNumber(_) => RespDataType::BigNumber,
            ValModel::SimpleString(_) => RespDataType::SimpleString,
            ValModel::SimpleError(_) => RespDataType::SimpleError,
            ValModel::BulkString(_) => RespDataType::BulkString,
            ValModel::BulkError(_) => RespDataType::BulkError,
            ValModel::VerbatimString(_, _) => RespDataType::VerbatimString,
            ValModel::Array(_) => RespDataType::Array,
            ValModel::Push(_) => RespDataType::Push,
            ValModel::Mapping(_) => RespDataType::Mapping,
            ValModel::ValueSet(_) => RespDataType::ValueSet,
        }
    }
}

} // verus!
