//! The closed set of RESP wire types and the single-byte tag that introduces
//! each of them on the wire.

use vstd::prelude::*;

verus! {

/// ASCII `+`, the SimpleString tag.
pub const TAG_SIMPLE_STRING: u8 = 43;

/// ASCII `-`, the SimpleError tag.
pub const TAG_SIMPLE_ERROR: u8 = 45;

/// ASCII `:`, the Integer tag.
pub const TAG_INTEGER: u8 = 58;

/// ASCII `$`, the BulkString tag.
pub const TAG_BULK_STRING: u8 = 36;

/// ASCII `*`, the Array tag.
pub const TAG_ARRAY: u8 = 42;

/// ASCII `_`, the Null tag.
pub const TAG_NULL: u8 = 95;

/// ASCII `#`, the Boolean tag.
pub const TAG_BOOLEAN: u8 = 35;

/// ASCII `,`, the Double tag.
pub const TAG_DOUBLE: u8 = 44;

/// ASCII `(`, the BigNumber tag.
pub const TAG_BIG_NUMBER: u8 = 40;

/// ASCII `!`, the BulkError tag.
pub const TAG_BULK_ERROR: u8 = 33;

/// ASCII `=`, the VerbatimString tag.
pub const TAG_VERBATIM_STRING: u8 = 61;

/// ASCII `%`, the map tag.
pub const TAG_MAPPING: u8 = 37;

/// ASCII `~`, the set tag.
pub const TAG_VALUE_SET: u8 = 126;

/// ASCII `>`, the Push tag.
pub const TAG_PUSH: u8 = 62;

/// ASCII carriage return, first byte of the universal terminator.
pub const CR: u8 = 13;

/// ASCII line feed, second byte of the universal terminator.
pub const LF: u8 = 10;

/// One of the fourteen RESP wire types.
#[derive(PartialEq, Eq, Structural, Debug, Clone, Copy, Hash)]
pub enum RespDataType {
    SimpleString,
    SimpleError,
    Integer,
    BulkString,
    Array,
    Null,
    Boolean,
    Double,
    BigNumber,
    BulkError,
    VerbatimString,
    Mapping,
    ValueSet,
    Push,
}

/// The wire tag byte that introduces a value of the given type.
pub open spec fn spec_tag_of(dt: RespDataType) -> u8 {
    match dt {
        RespDataType::SimpleString => TAG_SIMPLE_STRING,
        RespDataType::SimpleError => TAG_SIMPLE_ERROR,
        RespDataType::Integer => TAG_INTEGER,
        RespDataType::BulkString => TAG_BULK_STRING,
        RespDataType::Array => TAG_ARRAY,
        RespDataType::Null => TAG_NULL,
        RespDataType::Boolean => TAG_BOOLEAN,
        RespDataType::Double => TAG_DOUBLE,
        RespDataType::BigNumber => TAG_BIG_NUMBER,
        RespDataType::BulkError => TAG_BULK_ERROR,
        RespDataType::VerbatimString => TAG_VERBATIM_STRING,
        RespDataType::Mapping => TAG_MAPPING,
        RespDataType::ValueSet => TAG_VALUE_SET,
        RespDataType::Push => TAG_PUSH,
    }
}

/// The wire type introduced by the given tag byte, if the byte is a
/// registered tag.
pub open spec fn spec_data_type_of(b: u8) -> Option<RespDataType> {
    if b == TAG_SIMPLE_STRING {
        Some(RespDataType::SimpleString)
    } else if b == TAG_SIMPLE_ERROR {
        Some(RespDataType::SimpleError)
    } else if b == TAG_INTEGER {
        Some(RespDataType::Integer)
    } else if b == TAG_BULK_STRING {
        Some(RespDataType::BulkString)
    } else if b == TAG_ARRAY {
        Some(RespDataType::Array)
    } else if b == TAG_NULL {
        Some(RespDataType::Null)
    } else if b == TAG_BOOLEAN {
        Some(RespDataType::Boolean)
    } else if b == TAG_DOUBLE {
        Some(RespDataType::Double)
    } else if b == TAG_BIG_NUMBER {
        Some(RespDataType::BigNumber)
    } else if b == TAG_BULK_ERROR {
        Some(RespDataType::BulkError)
    } else if b == TAG_VERBATIM_STRING {
        Some(RespDataType::VerbatimString)
    } else if b == TAG_MAPPING {
        Some(RespDataType::Mapping)
    } else if b == TAG_VALUE_SET {
        Some(RespDataType::ValueSet)
    } else if b == TAG_PUSH {
        Some(RespDataType::Push)
    } else {
        None
    }
}

impl RespDataType {
    /// The tag byte of this wire type.
    pub fn tag_byte(self) -> (b: u8)
        ensures
            b == spec_tag_of(self),
    {
        match self {
            RespDataType::SimpleString => TAG_SIMPLE_STRING,
            RespDataType::SimpleError => TAG_SIMPLE_ERROR,
            RespDataType::Integer => TAG_INTEGER,
            RespDataType::BulkString => TAG_BULK_STRING,
            RespDataType::Array => TAG_ARRAY,
            RespDataType::Null => TAG_NULL,
            RespDataType::Boolean => TAG_BOOLEAN,
            RespDataType::Double => TAG_DOUBLE,
            RespDataType::BigNumber => TAG_BIG_NUMBER,
            RespDataType::BulkError => TAG_BULK_ERROR,
            RespDataType::VerbatimString => TAG_VERBATIM_STRING,
            RespDataType::Mapping => TAG_MAPPING,
            RespDataType::ValueSet => TAG_VALUE_SET,
            RespDataType::Push => TAG_PUSH,
        }
    }

    /// Maps a tag byte back to its wire type; an unregistered byte yields
    /// `None`.
    pub fn try_from(b: u8) -> (r: Option<RespDataType>)
        ensures
            r == spec_data_type_of(b),
    {
        if b == TAG_SIMPLE_STRING {
            Some(RespDataType::SimpleString)
        } else if b == TAG_SIMPLE_ERROR {
            Some(RespDataType::SimpleError)
        } else if b == TAG_INTEGER {
            Some(RespDataType::Integer)
        } else if b == TAG_BULK_STRING {
            Some(RespDataType::BulkString)
        } else if b == TAG_ARRAY {
            Some(RespDataType::Array)
        } else if b == TAG_NULL {
            Some(RespDataType::Null)
        } else if b == TAG_BOOLEAN {
            Some(RespDataType::Boolean)
        } else if b == TAG_DOUBLE {
            Some(RespDataType::Double)
        } else if b == TAG_BIG_NUMBER {
            Some(RespDataType::BigNumber)
        } else if b == TAG_BULK_ERROR {
            Some(RespDataType::BulkError)
        } else if b == TAG_VERBATIM_STRING {
            Some(RespDataType::VerbatimString)
        } else if b == TAG_MAPPING {
            Some(RespDataType::Mapping)
        } else if b == TAG_VALUE_SET {
            Some(RespDataType::ValueSet)
        } else if b == TAG_PUSH {
            Some(RespDataType::Push)
        } else {
            None
        }
    }
}

/// The tag table is injective: distinct wire types never share a tag byte,
/// and reading a type's own tag back yields that type.
pub proof fn lemma_tag_table_injective(a: RespDataType, b: RespDataType)
    ensures
        spec_tag_of(a) == spec_tag_of(b) ==> a == b,
        spec_data_type_of(spec_tag_of(a)) == Some(a),
{
}

} // verus!
