use vstd::prelude::*;
use vstd::slice::slice_subrange;
use vstd::string::StringSliceAdditionalSpecFns;
use crate::db::DbRow;
use crate::db_json_entity::consts::{expires_bytes, expires_name};
use crate::db_json_entity::db_json_entity::span_of;
use crate::db_json_entity::first_line_reader::{
    is_space, skip_spaces, COLON, COMMA, OPEN_BRACE, QUOTE,
};
use crate::db_json_entity::json_key_value_position::{FieldSpan, JsonKeyValuePosition};

verus! {

/// The first place from `from` on that holds `{`; the length of the text
/// where none follows.
pub open spec fn open_brace_from(s: Seq<u8>, from: int) -> int
    decreases s.len() - from,
{
    if 0 <= from < s.len() && s[from] != OPEN_BRACE {
        open_brace_from(s, from + 1)
    } else {
        from
    }
}

pub proof fn lemma_open_brace_range(s: Seq<u8>, from: int)
    requires
        0 <= from <= s.len(),
    ensures
        from <= open_brace_from(s, from) <= s.len(),
    decreases s.len() - from,
{
    if from < s.len() && s[from] != OPEN_BRACE {
        lemma_open_brace_range(s, from + 1);
    }
}

/// A `{` with none before it is the first.
pub proof fn lemma_open_brace_is(s: Seq<u8>, from: int, at: int)
    requires
        0 <= from <= at < s.len(),
        s[at] == OPEN_BRACE,
        forall|i: int| from <= i < at ==> #[trigger] s[i] != OPEN_BRACE,
    ensures
        open_brace_from(s, from) == at,
    decreases at - from,
{
    if from < at {
        lemma_open_brace_is(s, from + 1, at);
    }
}

/// Where a new first field goes: behind the first `{`, or at the end of a
/// text that has none.
pub open spec fn first_field_place(s: Seq<u8>) -> int {
    if open_brace_from(s, 0) < s.len() {
        open_brace_from(s, 0) + 1
    } else {
        s.len() as int
    }
}

/// The last place before `before` that holds no space; -1 where only
/// spaces stand there.
pub open spec fn last_mark_before(s: Seq<u8>, before: int) -> int
    decreases before,
{
    if 0 < before <= s.len() && is_space(s[before - 1]) {
        last_mark_before(s, before - 1)
    } else {
        before - 1
    }
}

pub proof fn lemma_last_mark_before_range(s: Seq<u8>, before: int)
    requires
        0 <= before <= s.len(),
    ensures
        -1 <= last_mark_before(s, before) < before,
    decreases before,
{
    if 0 < before && is_space(s[before - 1]) {
        lemma_last_mark_before_range(s, before - 1);
    }
}

/// `"Expires":"` and the value and `"`.
pub open spec fn expires_field(value: Seq<u8>) -> Seq<u8> {
    seq![QUOTE] + expires_name() + seq![QUOTE, COLON, QUOTE] + value + seq![QUOTE]
}

/// The place of an `Expires` field that starts at `key_start` and has a
/// value of `value_len` bytes between its quotes.
pub open spec fn expires_span_at(key_start: int, value_len: int) -> FieldSpan {
    FieldSpan {
        key_start,
        key_end: key_start + 9,
        value_start: key_start + 10,
        value_end: key_start + 12 + value_len,
    }
}

/// The bytes with the `Expires` field at `position` written anew.
pub open spec fn data_with_expires_replaced(
    data: Seq<u8>,
    position: FieldSpan,
    value: Seq<u8>,
) -> Seq<u8> {
    data.subrange(0, position.key_start) + expires_field(value) + data.subrange(
        position.value_end,
        data.len() as int,
    )
}

/// The bytes with an `Expires` field and a comma put in as the first field.
pub open spec fn data_with_expires_injected(data: Seq<u8>, value: Seq<u8>) -> Seq<u8> {
    data.subrange(0, first_field_place(data)) + expires_field(value) + seq![COMMA]
        + data.subrange(first_field_place(data), data.len() as int)
}

/// The bytes of a row whose expiration becomes `value`: the field is
/// written anew where the row has one, and put in front where it has none.
pub open spec fn data_with_expires(
    data: Seq<u8>,
    position: Option<FieldSpan>,
    value: Seq<u8>,
) -> Seq<u8> {
    match position {
        Some(p) => data_with_expires_replaced(data, p, value),
        None => data_with_expires_injected(data, value),
    }
}

/// Where the `Expires` field stands in `data_with_expires`.
pub open spec fn expires_span_in(
    data: Seq<u8>,
    position: Option<FieldSpan>,
    value: Seq<u8>,
) -> FieldSpan {
    match position {
        Some(p) => expires_span_at(p.key_start, value.len() as int),
        None => expires_span_at(first_field_place(data), value.len() as int),
    }
}

/// The bytes of a row that loses its expiration: the field goes, and with
/// it the comma behind it, or else the comma before it.
pub open spec fn data_without_expires(data: Seq<u8>, position: Option<FieldSpan>) -> Seq<u8> {
    match position {
        None => data,
        Some(p) => {
            let behind = skip_spaces(data, p.value_end);
            let before = last_mark_before(data, p.key_start);
            if behind < data.len() && data[behind] == COMMA {
                data.subrange(0, p.key_start) + data.subrange(behind + 1, data.len() as int)
            } else if 0 <= before && data[before] == COMMA {
                data.subrange(0, before) + data.subrange(p.value_end, data.len() as int)
            } else {
                data.subrange(0, p.key_start) + data.subrange(p.value_end, data.len() as int)
            }
        },
    }
}

pub(crate) fn append(out: &mut Vec<u8>, bytes: &[u8])
    ensures
        final(out)@ == old(out)@ + bytes@,
{
    let ghost before = out@;
    out.extend_from_slice(bytes);
    assert(out@ =~= before + bytes@);
}

pub(crate) fn append_range(out: &mut Vec<u8>, bytes: &[u8], from: usize, to: usize)
    requires
        from <= to <= bytes.len(),
    ensures
        final(out)@ == old(out)@ + bytes@.subrange(from as int, to as int),
{
    append(out, slice_subrange(bytes, from, to));
}

/// Writes `"Expires":"`, the value and `"`, and tells where the value's
/// opening quote stands and where the field ends.
fn append_expires_field(out: &mut Vec<u8>, value: &[u8]) -> (r: JsonKeyValuePosition)
    ensures
        final(out)@ == old(out)@ + expires_field(value@),
        r@ == expires_span_at(old(out)@.len() as int, value@.len() as int),
{
    let ghost before = out@;
    let key_start: usize = out.len();
    out.push(QUOTE);
    append(out, expires_bytes());
    out.push(QUOTE);
    let key_end: usize = out.len();
    out.push(COLON);
    let value_start: usize = out.len();
    out.push(QUOTE);
    append(out, value);
    out.push(QUOTE);
    assert(out@ =~= before + expires_field(value@));
    JsonKeyValuePosition { key_start, key_end, value_start, value_end: out.len() }
}

/// The bytes of the row with the expiration `value`, and the place of the
/// `Expires` field in them.
pub fn compile_data_with_new_expires(db_row: &DbRow, value: &str) -> (r: (
    Vec<u8>,
    JsonKeyValuePosition,
))
    requires
        db_row.wf(),
    ensures
        r.0@ == data_with_expires(
            db_row.data@,
            span_of(db_row.expires_json_position),
            value.spec_bytes(),
        ),
        r.1@ == expires_span_in(
            db_row.data@,
            span_of(db_row.expires_json_position),
            value.spec_bytes(),
        ),
        r.1@.fits(r.0@.len() as int),
        (db_row.parses_back() && crate::db_json_entity::rewriting_laws::is_plain(
            value.spec_bytes(),
        )) ==> {
            let read = crate::db_json_entity::db_json_entity::parse_entity(r.0@);
            &&& read is Ok
            &&& read->Ok_0.partition_key == db_row.partition()
            &&& read->Ok_0.row_key == db_row.key()
            &&& read->Ok_0.expires == crate::date_time::iso_text::iso_instant(value.spec_bytes())
            &&& read->Ok_0.expires_value_position == Some(r.1@)
        },
{
    proof {
        if db_row.parses_back() && crate::db_json_entity::rewriting_laws::is_plain(
            value.spec_bytes(),
        ) {
            crate::db_json_entity::rewriting_laws::lemma_expires_is_read_back(
                db_row.data@,
                value.spec_bytes(),
            );
        }
    }
    match &db_row.expires_json_position {
        Some(expires_position) => replace_expires(db_row, expires_position, value),
        None => inject_expires_at_the_end_of_content(db_row, value),
    }
}

/// The bytes of the row without its `Expires` field.
pub fn remove_expiration_time(db_row: &DbRow) -> (r: Vec<u8>)
    requires
        db_row.wf(),
    ensures
        r@ == data_without_expires(db_row.data@, span_of(db_row.expires_json_position)),
        (db_row.parses_back() && crate::db_json_entity::rewriting_laws::has_one_expires_at_most(
            db_row.data@,
        )) ==> {
            let read = crate::db_json_entity::db_json_entity::parse_entity(r@);
            &&& read is Ok
            &&& read->Ok_0.partition_key == db_row.partition()
            &&& read->Ok_0.row_key == db_row.key()
            &&& read->Ok_0.expires is None
            &&& read->Ok_0.expires_value_position is None
        },
{
    proof {
        if db_row.parses_back() && crate::db_json_entity::rewriting_laws::has_one_expires_at_most(
            db_row.data@,
        ) {
            crate::db_json_entity::rewriting_laws::lemma_expires_removed_is_read_back(
                db_row.data@,
            );
        }
    }
    let data = db_row.data.as_slice();
    let mut result: Vec<u8> = Vec::new();
    match &db_row.expires_json_position {
        Some(expires_position) => {
            let mut behind: usize = expires_position.value_end;
            while behind < data.len() && data[behind] <= 32
                invariant
                    expires_position.value_end <= behind <= data.len(),
                    skip_spaces(data@, expires_position.value_end as int) == skip_spaces(
                        data@,
                        behind as int,
                    ),
                decreases data.len() - behind,
            {
                behind = behind + 1;
            }
            if behind < data.len() && data[behind] == COMMA {
                append_range(&mut result, data, 0, expires_position.key_start);
                append_range(&mut result, data, behind + 1, data.len());
                return result;
            }
            let mut before: usize = expires_position.key_start;
            while before > 0 && data[before - 1] <= 32
                invariant
                    before <= expires_position.key_start <= data.len(),
                    last_mark_before(data@, expires_position.key_start as int) == last_mark_before(
                        data@,
                        before as int,
                    ),
                decreases before,
            {
                before = before - 1;
            }
            if before > 0 && data[before - 1] == COMMA {
                append_range(&mut result, data, 0, before - 1);
            } else {
                append_range(&mut result, data, 0, expires_position.key_start);
            }
            append_range(&mut result, data, expires_position.value_end, data.len());
            result
        },
        None => {
            append(&mut result, data);
            assert(result@ =~= data@);
            result
        },
    }
}

fn replace_expires(db_row: &DbRow, expires_position: &JsonKeyValuePosition, value: &str) -> (r: (
    Vec<u8>,
    JsonKeyValuePosition,
))
    requires
        expires_position@.fits(db_row.data@.len() as int),
    ensures
        r.0@ == data_with_expires_replaced(db_row.data@, expires_position@, value.spec_bytes()),
        r.1@ == expires_span_at(
            expires_position.key_start as int,
            value.spec_bytes().len() as int,
        ),
        r.1@.fits(r.0@.len() as int),
{
    let data = db_row.data.as_slice();
    let mut result: Vec<u8> = Vec::new();
    append_range(&mut result, data, 0, expires_position.key_start);
    let json_key_value_position = append_expires_field(&mut result, value.as_bytes());
    append_range(&mut result, data, expires_position.value_end, data.len());
    (result, json_key_value_position)
}

fn inject_expires_at_the_end_of_content(db_row: &DbRow, value: &str) -> (r: (
    Vec<u8>,
    JsonKeyValuePosition,
))
    ensures
        r.0@ == data_with_expires_injected(db_row.data@, value.spec_bytes()),
        r.1@ == expires_span_at(
            first_field_place(db_row.data@),
            value.spec_bytes().len() as int,
        ),
        r.1@.fits(r.0@.len() as int),
{
    let data = db_row.data.as_slice();
    let mut i: usize = 0;
    while i < data.len() && data[i] != OPEN_BRACE
        invariant
            i <= data.len(),
            open_brace_from(data@, 0) == open_brace_from(data@, i as int),
        decreases data.len() - i,
    {
        i = i + 1;
    }
    if i < data.len() {
        i = i + 1;
    }
    let mut result: Vec<u8> = Vec::new();
    append_range(&mut result, data, 0, i);
    let json_key_value_position = append_expires_field(&mut result, value.as_bytes());
    result.push(COMMA);
    append_range(&mut result, data, i, data.len());
    (result, json_key_value_position)
}

} // verus!
