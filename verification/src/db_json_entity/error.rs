use vstd::prelude::*;

verus! {

/// Why the bytes are no JSON object of fields.
#[derive(Debug, Clone, Copy, PartialEq, Eq, Structural)]
pub enum JsonParseError {
    /// An object does not start with `{`.
    ObjectExpected,
    /// The first byte that is no space is not `[`.
    ArrayExpected,
    /// A field does not start with a quoted name.
    NameExpected,
    /// No `:` follows a field's name.
    ColonExpected,
    /// Nothing that can be a value follows the `:`.
    ValueExpected,
    /// Neither `,` nor `}` follows a value.
    SeparatorExpected,
    /// The bytes end inside the object.
    UnexpectedEnd,
    /// A key's value is neither a string nor `null`.
    StringExpected,
    /// A key's value is not UTF-8.
    InvalidUtf8,
}

/// Why a row was refused.
#[derive(Debug, Clone, Copy, PartialEq, Eq, Structural)]
pub enum DbEntityParseFail {
    FieldPartitionKeyIsRequired,
    FieldPartitionKeyCanNotBeNull,
    FieldRowKeyIsRequired,
    FieldRowKeyCanNotBeNull,
    PartitionKeyIsTooLong,
    JsonParseError(JsonParseError),
}

} // verus!
