use vstd::prelude::*;
use vstd::string::StringSliceAdditionalSpecFns;
use vstd::utf8::is_ascii_chars_encode_utf8;

verus! {

/// The bytes of `PartitionKey`.
pub open spec fn partition_key_name() -> Seq<u8> {
    seq![80u8, 97, 114, 116, 105, 116, 105, 111, 110, 75, 101, 121]
}

/// The bytes of `RowKey`.
pub open spec fn row_key_name() -> Seq<u8> {
    seq![82u8, 111, 119, 75, 101, 121]
}

/// The bytes of `Expires`.
pub open spec fn expires_name() -> Seq<u8> {
    seq![69u8, 120, 112, 105, 114, 101, 115]
}

/// The bytes of `TimeStamp`.
pub open spec fn time_stamp_name() -> Seq<u8> {
    seq![84u8, 105, 109, 101, 83, 116, 97, 109, 112]
}

/// The bytes of `timestamp`.
pub open spec fn time_stamp_lower_case_name() -> Seq<u8> {
    seq![116u8, 105, 109, 101, 115, 116, 97, 109, 112]
}

/// The bytes of `null`.
pub open spec fn null_literal() -> Seq<u8> {
    seq![110u8, 117, 108, 108]
}

pub fn partition_key_bytes() -> (r: &'static [u8])
    ensures
        r@ == partition_key_name(),
{
    proof {
        reveal_strlit("PartitionKey");
        is_ascii_chars_encode_utf8("PartitionKey"@);
        assert("PartitionKey".spec_bytes() =~= partition_key_name());
    }
    "PartitionKey".as_bytes()
}

pub fn row_key_bytes() -> (r: &'static [u8])
    ensures
        r@ == row_key_name(),
{
    proof {
        reveal_strlit("RowKey");
        is_ascii_chars_encode_utf8("RowKey"@);
        assert("RowKey".spec_bytes() =~= row_key_name());
    }
    "RowKey".as_bytes()
}

pub fn expires_bytes() -> (r: &'static [u8])
    ensures
        r@ == expires_name(),
{
    proof {
        reveal_strlit("Expires");
        is_ascii_chars_encode_utf8("Expires"@);
        assert("Expires".spec_bytes() =~= expires_name());
    }
    "Expires".as_bytes()
}

pub fn time_stamp_bytes() -> (r: &'static [u8])
    ensures
        r@ == time_stamp_name(),
{
    proof {
        reveal_strlit("TimeStamp");
        is_ascii_chars_encode_utf8("TimeStamp"@);
        assert("TimeStamp".spec_bytes() =~= time_stamp_name());
    }
    "TimeStamp".as_bytes()
}

pub fn time_stamp_lower_case_bytes() -> (r: &'static [u8])
    ensures
        r@ == time_stamp_lower_case_name(),
{
    proof {
        reveal_strlit("timestamp");
        is_ascii_chars_encode_utf8("timestamp"@);
        assert("timestamp".spec_bytes() =~= time_stamp_lower_case_name());
    }
    "timestamp".as_bytes()
}

pub fn null_bytes() -> (r: &'static [u8])
    ensures
        r@ == null_literal(),
{
    proof {
        reveal_strlit("null");
        is_ascii_chars_encode_utf8("null"@);
        assert("null".spec_bytes() =~= null_literal());
    }
    "null".as_bytes()
}

} // verus!
