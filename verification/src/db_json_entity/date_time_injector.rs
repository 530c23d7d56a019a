use vstd::prelude::*;
use crate::db_json_entity::consts::{time_stamp_bytes, time_stamp_name};
use crate::db_json_entity::expires_update::{
    append, append_range, first_field_place, open_brace_from,
};
use crate::db_json_entity::first_line_reader::{COLON, COMMA, OPEN_BRACE, QUOTE};
use crate::db_json_entity::json_key_value_position::{FieldSpan, JsonKeyValuePosition};
use crate::db_json_entity::json_time_stamp::JsonTimeStamp;

verus! {

/// `"TimeStamp":"`, the text, and `",`.
pub open spec fn time_stamp_field(text: Seq<u8>) -> Seq<u8> {
    seq![QUOTE] + time_stamp_name() + seq![QUOTE, COLON, QUOTE] + text + seq![QUOTE, COMMA]
}

/// The bytes with a `TimeStamp` field put in as the first field.
pub open spec fn data_with_time_stamp_injected(raw: Seq<u8>, text: Seq<u8>) -> Seq<u8> {
    raw.subrange(0, first_field_place(raw)) + time_stamp_field(text) + raw.subrange(
        first_field_place(raw),
        raw.len() as int,
    )
}

/// The bytes with the value of the field at `position` written anew, as a
/// string.
pub open spec fn data_with_time_stamp_replaced(
    raw: Seq<u8>,
    position: FieldSpan,
    text: Seq<u8>,
) -> Seq<u8> {
    raw.subrange(0, position.value_start) + seq![QUOTE] + text + seq![QUOTE] + raw.subrange(
        position.value_end,
        raw.len() as int,
    )
}

/// The bytes of a row that is written at the time stamp `text`: its
/// `TimeStamp` field gets that value, and is put in front where the row has
/// none.
pub open spec fn row_content(raw: Seq<u8>, position: Option<FieldSpan>, text: Seq<u8>) -> Seq<
    u8,
> {
    match position {
        Some(p) => data_with_time_stamp_replaced(raw, p, text),
        None => data_with_time_stamp_injected(raw, text),
    }
}

/// By how many bytes the time stamp moves what stands behind it.
pub open spec fn time_stamp_shift(position: Option<FieldSpan>, text_len: int) -> int {
    match position {
        Some(p) => text_len + 2 - (p.value_end - p.value_start),
        None => text_len + 15,
    }
}

/// Where a field of `raw` stands in `row_content`.
pub open spec fn moved_span(
    span: FieldSpan,
    raw: Seq<u8>,
    position: Option<FieldSpan>,
    text_len: int,
) -> FieldSpan {
    let edited_at = match position {
        Some(p) => p.value_end,
        None => first_field_place(raw),
    };
    if span.key_start >= edited_at {
        span.shifted(time_stamp_shift(position, text_len))
    } else {
        span
    }
}

/// Puts a `TimeStamp` field in front of the fields of the object.
pub fn inject(raw: &[u8], time_stamp: &JsonTimeStamp) -> (r: Vec<u8>)
    ensures
        r@ == data_with_time_stamp_injected(raw@, time_stamp.text()),
{
    let mut place: usize = 0;
    while place < raw.len() && raw[place] != OPEN_BRACE
        invariant
            place <= raw.len(),
            open_brace_from(raw@, 0) == open_brace_from(raw@, place as int),
        decreases raw.len() - place,
    {
        place = place + 1;
    }
    if place < raw.len() {
        place = place + 1;
    }
    let mut result: Vec<u8> = Vec::new();
    append_range(&mut result, raw, 0, place);
    let ghost head = result@;
    result.push(QUOTE);
    append(&mut result, time_stamp_bytes());
    result.push(QUOTE);
    result.push(COLON);
    result.push(QUOTE);
    append(&mut result, time_stamp.as_slice());
    result.push(QUOTE);
    result.push(COMMA);
    assert(result@ =~= head + time_stamp_field(time_stamp.text()));
    append_range(&mut result, raw, place, raw.len());
    result
}

/// Writes the time stamp over the value of the field at
/// `time_stamp_value_position`.
pub fn replace_timestamp_value(
    raw: &[u8],
    time_stamp_value_position: &JsonKeyValuePosition,
    time_stamp: &JsonTimeStamp,
) -> (r: Vec<u8>)
    requires
        time_stamp_value_position@.fits(raw@.len() as int),
    ensures
        r@ == data_with_time_stamp_replaced(
            raw@,
            time_stamp_value_position@,
            time_stamp.text(),
        ),
{
    let mut result: Vec<u8> = Vec::new();
    append_range(&mut result, raw, 0, time_stamp_value_position.value_start);
    result.push(QUOTE);
    append(&mut result, time_stamp.as_slice());
    result.push(QUOTE);
    append_range(&mut result, raw, time_stamp_value_position.value_end, raw.len());
    result
}

} // verus!
