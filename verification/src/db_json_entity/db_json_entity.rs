use vstd::prelude::*;
use vstd::slice::{slice_subrange, slice_to_vec};
use vstd::string::StringSliceAdditionalSpecFns;
use vstd::utf8::{encode_utf8, valid_utf8};
use crate::date_time::iso_text::{iso_instant, iso_text};
use crate::date_time::DateTimeAsMicroseconds;
use crate::db_json_entity::consts::{
    expires_bytes, expires_name, null_bytes, null_literal, partition_key_bytes,
    partition_key_name, row_key_bytes, row_key_name, time_stamp_lower_case_bytes,
    time_stamp_lower_case_name,
};
use std::sync::Arc;
use crate::db::db_row::share;
use crate::db::DbRow;
use crate::key_order::bytes_less;
use crate::ordered_map::{
    has_key, is_sorted, lemma_put, lemma_rank, lemma_rank_is, put, rank, value_at, OrderedMap,
};
use crate::db_json_entity::array_parser::{
    array_objects, lemma_array_objects_fit, ranges_of, split_array_json_to_objects,
};
use crate::db_json_entity::date_time_injector::{
    inject, moved_span, replace_timestamp_value, row_content, time_stamp_shift,
};
use crate::db_json_entity::error::{DbEntityParseFail, JsonParseError};
use crate::db_json_entity::consts::time_stamp_name;
use crate::db_json_entity::expires_update::{
    first_field_place, lemma_open_brace_is, lemma_open_brace_range,
};
use crate::db_json_entity::json_time_stamp::{nearest_with_text, JsonTimeStamp};
use crate::db_json_entity::first_line_reader::{
    is_field, lemma_fields_fit, lemma_fields_from_are_fields, lemma_skip_spaces_range,
    lemma_string_value_has_quotes, object_fields, scan_fields, skip_spaces, spans_of, QUOTE,
};
use crate::db_json_entity::json_key_value_position::{FieldSpan, JsonKeyValuePosition};
use crate::text::utf8_text;

verus! {

/// The longest partition key, in bytes.
pub const MAX_PARTITION_KEY_LEN: usize = 255;

/// The fields of a row that have a meaning of their own.
pub enum FieldKind {
    PartitionKey,
    RowKey,
    Expires,
    TimeStamp,
}

/// A letter `A` to `Z` as `a` to `z`, any other byte as it is.
pub open spec fn lower_case(b: u8) -> u8 {
    if 65 <= b <= 90 {
        (b + 32) as u8
    } else {
        b
    }
}

/// Whether two byte sequences differ at most in the case of their letters.
pub open spec fn same_letters(a: Seq<u8>, b: Seq<u8>) -> bool {
    a.len() == b.len() && forall|i: int| 0 <= i < a.len() ==> lower_case(#[trigger] a[i]) == lower_case(b[i])
}

/// Whether a field of that name is the field of that kind. `TimeStamp` is
/// taken in any case of its letters, the others as they are written.
pub open spec fn is_name_of(name: Seq<u8>, kind: FieldKind) -> bool {
    match kind {
        FieldKind::PartitionKey => name == partition_key_name(),
        FieldKind::RowKey => name == row_key_name(),
        FieldKind::Expires => name == expires_name(),
        FieldKind::TimeStamp => same_letters(name, time_stamp_lower_case_name()),
    }
}

/// A field's name, without its quotes.
pub open spec fn field_name(s: Seq<u8>, field: FieldSpan) -> Seq<u8> {
    s.subrange(field.key_start + 1, field.key_end - 1)
}

/// The bytes of a field's value, with its quotes where it is a string.
pub open spec fn field_value(s: Seq<u8>, field: FieldSpan) -> Seq<u8> {
    s.subrange(field.value_start, field.value_end)
}

pub open spec fn is_string_value(s: Seq<u8>, field: FieldSpan) -> bool {
    s[field.value_start] == QUOTE
}

pub open spec fn is_null_value(s: Seq<u8>, field: FieldSpan) -> bool {
    field_value(s, field) == null_literal()
}

/// What stands between the quotes of a string value. Escapes are left as
/// they are written.
pub open spec fn string_content(s: Seq<u8>, field: FieldSpan) -> Seq<u8> {
    s.subrange(field.value_start + 1, field.value_end - 1)
}

/// The last of the fields that has the name of that kind.
pub open spec fn last_field(s: Seq<u8>, fields: Seq<FieldSpan>, kind: FieldKind) -> Option<
    FieldSpan,
>
    decreases fields.len(),
{
    if fields.len() == 0 {
        None
    } else if is_name_of(field_name(s, fields.last()), kind) {
        Some(fields.last())
    } else {
        last_field(s, fields.drop_last(), kind)
    }
}

/// What a row's bytes say of the row.
pub struct ParsedEntity {
    pub partition_key: Seq<u8>,
    pub row_key: Seq<u8>,
    pub expires: Option<int>,
    pub time_stamp: Option<Seq<u8>>,
    pub timestamp_value_position: Option<FieldSpan>,
    pub expires_value_position: Option<FieldSpan>,
}

/// The instant of an `Expires` field: that of its text where the value is
/// a string that names one, else none.
pub open spec fn expires_of(s: Seq<u8>, field: Option<FieldSpan>) -> Option<int> {
    match field {
        Some(f) => if is_string_value(s, f) {
            iso_instant(string_content(s, f))
        } else {
            None
        },
        None => None,
    }
}

/// The text of a `TimeStamp` field, where the value is a string of UTF-8.
pub open spec fn time_stamp_of(s: Seq<u8>, field: Option<FieldSpan>) -> Option<Seq<u8>> {
    match field {
        Some(f) => if is_string_value(s, f) && valid_utf8(string_content(s, f)) {
            Some(string_content(s, f))
        } else {
            None
        },
        None => None,
    }
}

/// The text of a key, or why the field cannot be one.
pub open spec fn key_of(s: Seq<u8>, field: FieldSpan) -> Result<Seq<u8>, JsonParseError> {
    if !is_string_value(s, field) {
        Err(JsonParseError::StringExpected)
    } else if !valid_utf8(string_content(s, field)) {
        Err(JsonParseError::InvalidUtf8)
    } else {
        Ok(string_content(s, field))
    }
}

/// What the fields of an object say of a row, or why they are no row.
pub open spec fn entity_of_fields(s: Seq<u8>, fields: Seq<FieldSpan>) -> Result<
    ParsedEntity,
    DbEntityParseFail,
> {
    match last_field(s, fields, FieldKind::PartitionKey) {
        None => Err(DbEntityParseFail::FieldPartitionKeyIsRequired),
        Some(pk) => if is_null_value(s, pk) {
            Err(DbEntityParseFail::FieldPartitionKeyCanNotBeNull)
        } else {
            match key_of(s, pk) {
                Err(e) => Err(DbEntityParseFail::JsonParseError(e)),
                Ok(partition_key) => if partition_key.len() > MAX_PARTITION_KEY_LEN {
                    Err(DbEntityParseFail::PartitionKeyIsTooLong)
                } else {
                    match last_field(s, fields, FieldKind::RowKey) {
                        None => Err(DbEntityParseFail::FieldRowKeyIsRequired),
                        Some(rk) => if is_null_value(s, rk) {
                            Err(DbEntityParseFail::FieldRowKeyCanNotBeNull)
                        } else {
                            match key_of(s, rk) {
                                Err(e) => Err(DbEntityParseFail::JsonParseError(e)),
                                Ok(row_key) => {
                                    let expires = last_field(s, fields, FieldKind::Expires);
                                    let time_stamp = last_field(s, fields, FieldKind::TimeStamp);
                                    Ok(
                                        ParsedEntity {
                                            partition_key,
                                            row_key,
                                            expires: expires_of(s, expires),
                                            time_stamp: time_stamp_of(s, time_stamp),
                                            timestamp_value_position: time_stamp,
                                            expires_value_position: expires,
                                        },
                                    )
                                },
                            }
                        },
                    }
                },
            }
        },
    }
}

/// What the bytes of a JSON object say of a row, or why they are no row.
pub open spec fn parse_entity(s: Seq<u8>) -> Result<ParsedEntity, DbEntityParseFail> {
    match object_fields(s) {
        Err(e) => Err(DbEntityParseFail::JsonParseError(e)),
        Ok(fields) => entity_of_fields(s, fields),
    }
}

/// A row as its JSON bytes state it: the keys, the expiration and the
/// time stamp, and where the last two stand in the bytes.
pub struct DbJsonEntity<'s> {
    pub partition_key: &'s str,
    pub row_key: &'s str,
    pub expires: Option<DateTimeAsMicroseconds>,
    pub time_stamp: Option<&'s str>,
    pub timestamp_value_position: Option<JsonKeyValuePosition>,
    pub expires_value_position: Option<JsonKeyValuePosition>,
    pub raw: &'s [u8],
}

pub open spec fn span_of(position: Option<JsonKeyValuePosition>) -> Option<FieldSpan> {
    match position {
        Some(p) => Some(p@),
        None => None,
    }
}

pub open spec fn instant_value(moment: Option<DateTimeAsMicroseconds>) -> Option<int> {
    match moment {
        Some(m) => Some(m.unix_microseconds as int),
        None => None,
    }
}

impl<'s> View for DbJsonEntity<'s> {
    type V = ParsedEntity;

    open spec fn view(&self) -> ParsedEntity {
        ParsedEntity {
            partition_key: self.partition_key.spec_bytes(),
            row_key: self.row_key.spec_bytes(),
            expires: instant_value(self.expires),
            time_stamp: match self.time_stamp {
                Some(text) => Some(text.spec_bytes()),
                None => None,
            },
            timestamp_value_position: span_of(self.timestamp_value_position),
            expires_value_position: span_of(self.expires_value_position),
        }
    }
}

fn same_bytes(a: &[u8], b: &[u8]) -> (r: bool)
    ensures
        r == (a@ == b@),
{
    if a.len() != b.len() {
        return false;
    }
    let mut i: usize = 0;
    while i < a.len()
        invariant
            a.len() == b.len(),
            i <= a.len(),
            forall|j: int| 0 <= j < i ==> a@[j] == b@[j],
        decreases a.len() - i,
    {
        if a[i] != b[i] {
            return false;
        }
        i = i + 1;
    }
    assert(a@ =~= b@);
    true
}

fn to_lower_case(b: u8) -> (r: u8)
    ensures
        r == lower_case(b),
{
    if 65 <= b && b <= 90 {
        b + 32
    } else {
        b
    }
}

fn same_letters_in(a: &[u8], b: &[u8]) -> (r: bool)
    ensures
        r == same_letters(a@, b@),
{
    if a.len() != b.len() {
        return false;
    }
    let mut i: usize = 0;
    while i < a.len()
        invariant
            a.len() == b.len(),
            i <= a.len(),
            forall|j: int| 0 <= j < i ==> lower_case(#[trigger] a@[j]) == lower_case(b@[j]),
        decreases a.len() - i,
    {
        if to_lower_case(a[i]) != to_lower_case(b[i]) {
            return false;
        }
        i = i + 1;
    }
    true
}

fn has_name(raw: &[u8], field: &JsonKeyValuePosition, kind: FieldKind) -> (r: bool)
    requires
        field@.fits(raw@.len() as int),
    ensures
        r == is_name_of(field_name(raw@, field@), kind),
{
    let name = slice_subrange(raw, field.key_start + 1, field.key_end - 1);
    match kind {
        FieldKind::PartitionKey => same_bytes(name, partition_key_bytes()),
        FieldKind::RowKey => same_bytes(name, row_key_bytes()),
        FieldKind::Expires => same_bytes(name, expires_bytes()),
        FieldKind::TimeStamp => same_letters_in(name, time_stamp_lower_case_bytes()),
    }
}

/// The last of the fields with the name of that kind.
fn find_last_field(raw: &[u8], fields: &Vec<JsonKeyValuePosition>, kind: FieldKind) -> (r: Option<
    JsonKeyValuePosition,
>)
    requires
        forall|i: int| 0 <= i < fields@.len() ==> is_field(raw@, (#[trigger] fields@[i])@),
    ensures
        span_of(r) == last_field(raw@, spans_of(fields@), kind),
        r matches Some(p) ==> is_field(raw@, p@),
{
    let mut i: usize = fields.len();
    assert(spans_of(fields@).take(i as int) =~= spans_of(fields@));
    while i > 0
        invariant
            i <= fields.len(),
            forall|j: int| 0 <= j < fields@.len() ==> is_field(raw@, (#[trigger] fields@[j])@),
            last_field(raw@, spans_of(fields@), kind) == last_field(
                raw@,
                spans_of(fields@).take(i as int),
                kind,
            ),
        decreases i,
    {
        i = i - 1;
        let ghost upto = spans_of(fields@).take(i + 1);
        assert(upto.last() == fields@[i as int]@);
        assert(upto.drop_last() =~= spans_of(fields@).take(i as int));
        let kind_here = match kind {
            FieldKind::PartitionKey => FieldKind::PartitionKey,
            FieldKind::RowKey => FieldKind::RowKey,
            FieldKind::Expires => FieldKind::Expires,
            FieldKind::TimeStamp => FieldKind::TimeStamp,
        };
        if has_name(raw, &fields[i], kind_here) {
            return Some(fields[i]);
        }
    }
    assert(spans_of(fields@).take(0).len() == 0);
    None
}

/// The text between the quotes of a string value, where it is UTF-8.
fn string_value<'s>(raw: &'s [u8], field: &JsonKeyValuePosition) -> (r: Option<&'s str>)
    requires
        field@.fits(raw@.len() as int),
        field.value_start + 2 <= field.value_end,
    ensures
        r is Some <==> valid_utf8(string_content(raw@, field@)),
        r matches Some(text) ==> text.spec_bytes() == string_content(raw@, field@),
{
    utf8_text(slice_subrange(raw, field.value_start + 1, field.value_end - 1))
}

impl<'s> DbJsonEntity<'s> {
    /// Reads a row from the bytes of a JSON object.
    pub fn parse(raw: &'s [u8]) -> (r: Result<Self, DbEntityParseFail>)
        ensures
            match r {
                Ok(entity) => parse_entity(raw@) == Ok::<ParsedEntity, DbEntityParseFail>(entity@)
                    && entity.raw@ == raw@,
                Err(fail) => parse_entity(raw@) == Err::<ParsedEntity, DbEntityParseFail>(fail),
            },
    {
        let fields = match scan_fields(raw) {
            Ok(fields) => fields,
            Err(e) => {
                return Err(DbEntityParseFail::JsonParseError(e));
            },
        };
        proof {
            lemma_fields_fit(raw@);
            assert forall|i: int| 0 <= i < fields@.len() implies is_field(
                raw@,
                (#[trigger] fields@[i])@,
            ) by {
                assert(spans_of(fields@)[i] == fields@[i]@);
            }
        }
        let partition_key_field = match find_last_field(raw, &fields, FieldKind::PartitionKey) {
            Some(field) => field,
            None => {
                return Err(DbEntityParseFail::FieldPartitionKeyIsRequired);
            },
        };
        let partition_key = match Self::key_text(raw, &partition_key_field) {
            Ok(Some(text)) => text,
            Ok(None) => {
                return Err(DbEntityParseFail::FieldPartitionKeyCanNotBeNull);
            },
            Err(e) => {
                return Err(DbEntityParseFail::JsonParseError(e));
            },
        };
        proof {
            lemma_string_value_has_quotes(raw@, partition_key_field@);
        }
        if partition_key.len() > MAX_PARTITION_KEY_LEN {
            return Err(DbEntityParseFail::PartitionKeyIsTooLong);
        }
        let row_key_field = match find_last_field(raw, &fields, FieldKind::RowKey) {
            Some(field) => field,
            None => {
                return Err(DbEntityParseFail::FieldRowKeyIsRequired);
            },
        };
        let row_key = match Self::key_text(raw, &row_key_field) {
            Ok(Some(text)) => text,
            Ok(None) => {
                return Err(DbEntityParseFail::FieldRowKeyCanNotBeNull);
            },
            Err(e) => {
                return Err(DbEntityParseFail::JsonParseError(e));
            },
        };
        let expires_value_position = find_last_field(raw, &fields, FieldKind::Expires);
        let timestamp_value_position = find_last_field(raw, &fields, FieldKind::TimeStamp);
        let expires = match &expires_value_position {
            Some(field) => Self::expires_at(raw, field),
            None => None,
        };
        let time_stamp = match &timestamp_value_position {
            Some(field) => if raw[field.value_start] == QUOTE {
                proof {
                    lemma_string_value_has_quotes(raw@, field@);
                }
                string_value(raw, field)
            } else {
                None
            },
            None => None,
        };
        Ok(
            DbJsonEntity {
                partition_key,
                row_key,
                expires,
                time_stamp,
                timestamp_value_position,
                expires_value_position,
                raw,
            },
        )
    }

    /// The text of a key; `None` where the value is `null`.
    fn key_text(raw: &'s [u8], field: &JsonKeyValuePosition) -> (r: Result<
        Option<&'s str>,
        JsonParseError,
    >)
        requires
            is_field(raw@, field@),
        ensures
            match r {
                Ok(None) => is_null_value(raw@, field@),
                Ok(Some(text)) => !is_null_value(raw@, field@) && key_of(raw@, field@) == Ok::<
                    Seq<u8>,
                    JsonParseError,
                >(text.spec_bytes()),
                Err(e) => !is_null_value(raw@, field@) && key_of(raw@, field@) == Err::<
                    Seq<u8>,
                    JsonParseError,
                >(e),
            },
    {
        if same_bytes(slice_subrange(raw, field.value_start, field.value_end), null_bytes()) {
            return Ok(None);
        }
        if raw[field.value_start] != QUOTE {
            return Err(JsonParseError::StringExpected);
        }
        proof {
            lemma_string_value_has_quotes(raw@, field@);
        }
        match string_value(raw, field) {
            Some(text) => Ok(Some(text)),
            None => Err(JsonParseError::InvalidUtf8),
        }
    }

    /// The instant that an `Expires` field names.
    fn expires_at(raw: &[u8], field: &JsonKeyValuePosition) -> (r: Option<DateTimeAsMicroseconds>)
        requires
            is_field(raw@, field@),
        ensures
            instant_value(r) == expires_of(raw@, Some(field@)),
    {
        if raw[field.value_start] != QUOTE {
            return None;
        }
        proof {
            lemma_string_value_has_quotes(raw@, field@);
        }
        DateTimeAsMicroseconds::parse_iso_string(
            slice_subrange(raw, field.value_start + 1, field.value_end - 1),
        )
    }
}

/// The last field of a kind is one of the fields.
pub proof fn lemma_last_field_is_one(s: Seq<u8>, fields: Seq<FieldSpan>, kind: FieldKind)
    ensures
        last_field(s, fields, kind) matches Some(field) ==> exists|i: int|
            0 <= i < fields.len() && fields[i] == field && is_name_of(field_name(s, field), kind),
    decreases fields.len(),
{
    if fields.len() > 0 {
        if is_name_of(field_name(s, fields.last()), kind) {
            assert(fields[fields.len() - 1] == fields.last());
        } else {
            lemma_last_field_is_one(s, fields.drop_last(), kind);
            if let Some(field) = last_field(s, fields, kind) {
                let i = choose|i: int|
                    0 <= i < fields.drop_last().len() && fields.drop_last()[i] == field;
                assert(fields[i] == field);
            }
        }
    }
}

/// The places that reading a row gives are places of fields, and the two
/// fields do not overlap.
pub proof fn lemma_parsed_places_are_fields(s: Seq<u8>)
    ensures
        parse_entity(s) matches Ok(entity) ==> {
            &&& entity.expires_value_position matches Some(p) ==> is_field(s, p)
            &&& entity.timestamp_value_position matches Some(p) ==> is_field(s, p)
            &&& entity.expires_value_position matches Some(p) ==> (
            entity.timestamp_value_position matches Some(q) ==> (p.value_end < q.key_start
                || q.value_end < p.key_start))
        },
{
    if let Ok(fields) = object_fields(s) {
        lemma_fields_fit(s);
        lemma_last_field_is_one(s, fields, FieldKind::Expires);
        lemma_last_field_is_one(s, fields, FieldKind::TimeStamp);
        if let Ok(entity) = parse_entity(s) {
            if let Some(p) = entity.expires_value_position {
                if let Some(q) = entity.timestamp_value_position {
                    let i = choose|i: int|
                        0 <= i < fields.len() && fields[i] == p && is_name_of(
                            field_name(s, p),
                            FieldKind::Expires,
                        );
                    let j = choose|j: int|
                        0 <= j < fields.len() && fields[j] == q && is_name_of(
                            field_name(s, q),
                            FieldKind::TimeStamp,
                        );
                    assert(expires_name().len() == 7);
                    assert(time_stamp_lower_case_name().len() == 9);
                    assert(i != j);
                }
            }
        }
    }
}

/// The fields that reading a row gives stand behind the first `{`.
pub proof fn lemma_parsed_places_behind_brace(s: Seq<u8>)
    ensures
        parse_entity(s) matches Ok(entity) ==> {
            &&& first_field_place(s) == skip_spaces(s, 0) + 1
            &&& entity.expires_value_position matches Some(p) ==> first_field_place(s)
                <= p.key_start
            &&& entity.timestamp_value_position matches Some(p) ==> first_field_place(s)
                <= p.key_start
        },
{
    if let Ok(fields) = object_fields(s) {
        lemma_skip_spaces_range(s, 0);
        lemma_open_brace_is(s, 0, skip_spaces(s, 0));
        lemma_fields_from_are_fields(s, skip_spaces(s, 0) + 1);
        lemma_last_field_is_one(s, fields, FieldKind::Expires);
        lemma_last_field_is_one(s, fields, FieldKind::TimeStamp);
    }
}

/// The bytes of a row with the time stamp written into them.
pub fn compile_row_content(
    raw: &[u8],
    time_stamp_value_position: &Option<JsonKeyValuePosition>,
    time_stamp: &JsonTimeStamp,
) -> (r: Vec<u8>)
    requires
        time_stamp_value_position matches Some(p) ==> p@.fits(raw@.len() as int),
    ensures
        r@ == row_content(raw@, span_of(*time_stamp_value_position), time_stamp.text()),
{
    match time_stamp_value_position {
        Some(position) => replace_timestamp_value(raw, position, time_stamp),
        None => inject(raw, time_stamp),
    }
}

/// Whether `row` is the row that `entity`, read from `raw`, makes when it
/// is written with the time stamp `text`.
pub open spec fn is_new_row_of(row: DbRow, raw: Seq<u8>, entity: ParsedEntity, text: Seq<u8>) -> bool {
    &&& row.wf()
    &&& row.partition() == entity.partition_key
    &&& row.key() == entity.row_key
    &&& instant_value(row.expires) == entity.expires
    &&& encode_utf8(row.time_stamp@) == text
    &&& row.data@ == row_content(raw, entity.timestamp_value_position, text)
    &&& span_of(row.expires_json_position) == match entity.expires_value_position {
        Some(p) => Some(moved_span(p, raw, entity.timestamp_value_position, text.len() as int)),
        None => None,
    }
}

/// The text of the time stamp that a stored row keeps, where its
/// `TimeStamp` field names an instant: the text of that instant, or of
/// the nearest one that has a text.
pub open spec fn restored_time_stamp(entity: ParsedEntity) -> Option<Seq<u8>> {
    match entity.time_stamp {
        Some(text) => match iso_instant(text) {
            Some(moment) => Some(iso_text(nearest_with_text(moment))),
            None => None,
        },
        None => None,
    }
}

/// Whether `row` is the row that `entity`, read from `raw`, makes when it
/// is taken as it stands. Where the `TimeStamp` field names no instant,
/// the row's time stamp is that of the clock, and nothing is said of it.
pub open spec fn is_restored_row_of(row: DbRow, raw: Seq<u8>, entity: ParsedEntity) -> bool {
    &&& row.wf()
    &&& row.partition() == entity.partition_key
    &&& row.key() == entity.row_key
    &&& instant_value(row.expires) == entity.expires
    &&& row.data@ == raw
    &&& span_of(row.expires_json_position) == entity.expires_value_position
    &&& restored_time_stamp(entity) matches Some(text) ==> encode_utf8(row.time_stamp@) == text
}

/// The bytes of an object of an array.
pub open spec fn object_bytes(s: Seq<u8>, range: (int, int)) -> Seq<u8> {
    s.subrange(range.0, range.1)
}

/// Why the first of the objects from the `from`-th on that is no row is
/// none.
pub open spec fn first_failure(s: Seq<u8>, objects: Seq<(int, int)>, from: int) -> Option<
    DbEntityParseFail,
>
    decreases objects.len() - from,
{
    if from < 0 || from >= objects.len() {
        None
    } else {
        match parse_entity(object_bytes(s, objects[from])) {
            Err(fail) => Some(fail),
            Ok(_) => first_failure(s, objects, from + 1),
        }
    }
}

/// Why the text is no array of rows: it is no array of objects, or else
/// the first object that is no row tells.
pub open spec fn array_failure(s: Seq<u8>) -> Option<DbEntityParseFail> {
    match array_objects(s) {
        Err(e) => Some(DbEntityParseFail::JsonParseError(e)),
        Ok(objects) => first_failure(s, objects, 0),
    }
}

/// Whether the object at `range` is a row, and `row` the row that it
/// makes when it is written with the time stamp `text`.
#[verifier::opaque]
pub open spec fn is_new_row_of_object(
    row: Arc<DbRow>,
    s: Seq<u8>,
    range: (int, int),
    text: Seq<u8>,
) -> bool {
    parse_entity(object_bytes(s, range)) is Ok && is_new_row_of(
        *row,
        object_bytes(s, range),
        parse_entity(object_bytes(s, range))->Ok_0,
        text,
    )
}

/// Whether the object at `range` is a row, and `row` the row that it
/// makes when it is taken as it stands.
#[verifier::opaque]
pub open spec fn is_restored_row_of_object(row: Arc<DbRow>, s: Seq<u8>, range: (int, int)) -> bool {
    parse_entity(object_bytes(s, range)) is Ok && is_restored_row_of(
        *row,
        object_bytes(s, range),
        parse_entity(object_bytes(s, range))->Ok_0,
    )
}

/// Each row is the row that the object at its place makes when it is
/// written with the time stamp `text`.
pub open spec fn are_new_rows_of(
    rows: Seq<Arc<DbRow>>,
    s: Seq<u8>,
    objects: Seq<(int, int)>,
    text: Seq<u8>,
) -> bool {
    &&& rows.len() == objects.len()
    &&& forall|i: int|
        0 <= i < rows.len() ==> is_new_row_of_object(#[trigger] rows[i], s, objects[i], text)
}

/// Each row is the row that the object at its place makes when it is
/// taken as it stands.
pub open spec fn are_restored_rows_of(
    rows: Seq<Arc<DbRow>>,
    s: Seq<u8>,
    objects: Seq<(int, int)>,
) -> bool {
    &&& rows.len() == objects.len()
    &&& forall|i: int|
        0 <= i < rows.len() ==> is_restored_row_of_object(#[trigger] rows[i], s, objects[i])
}

/// The row of one object of an array; with a time stamp it is written at
/// it, without one it is taken as it stands.
fn row_of_object(src: &[u8], start: usize, end: usize, time_stamp: Option<&JsonTimeStamp>) -> (r:
    Result<Arc<DbRow>, DbEntityParseFail>)
    requires
        start < end <= src@.len(),
    ensures
        match r {
            Ok(row) => match time_stamp {
                Some(stamp) => is_new_row_of_object(
                    row,
                    src@,
                    (start as int, end as int),
                    stamp.text(),
                ),
                None => is_restored_row_of_object(row, src@, (start as int, end as int)),
            },
            Err(fail) => parse_entity(object_bytes(src@, (start as int, end as int))) == Err::<
                ParsedEntity,
                DbEntityParseFail,
            >(fail),
        },
{
    reveal(is_new_row_of_object);
    reveal(is_restored_row_of_object);
    let json = slice_subrange(src, start, end);
    let db_entity = match DbJsonEntity::parse(json) {
        Ok(db_entity) => db_entity,
        Err(fail) => {
            return Err(fail);
        },
    };
    match time_stamp {
        Some(stamp) => Ok(Arc::new(db_entity.new_db_row(stamp))),
        None => Ok(Arc::new(db_entity.restore_db_row())),
    }
}

/// The rows of the objects of an array.
fn rows_of_array(src: &[u8], time_stamp: Option<&JsonTimeStamp>) -> (r: Result<
    Vec<Arc<DbRow>>,
    DbEntityParseFail,
>)
    ensures
        match r {
            Ok(rows) => array_objects(src@) is Ok && match time_stamp {
                Some(stamp) => are_new_rows_of(
                    rows@,
                    src@,
                    array_objects(src@)->Ok_0,
                    stamp.text(),
                ),
                None => are_restored_rows_of(rows@, src@, array_objects(src@)->Ok_0),
            },
            Err(fail) => array_failure(src@) == Some(fail),
        },
{
    let objects = match split_array_json_to_objects(src) {
        Ok(objects) => objects,
        Err(e) => {
            return Err(DbEntityParseFail::JsonParseError(e));
        },
    };
    proof {
        lemma_array_objects_fit(src@);
    }
    let ghost ranges = ranges_of(objects@);
    let mut result: Vec<Arc<DbRow>> = Vec::new();
    let mut at: usize = 0;
    while at < objects.len()
        invariant
            at <= objects.len(),
            result@.len() == at,
            ranges == ranges_of(objects@),
            array_objects(src@) == Ok::<Seq<(int, int)>, JsonParseError>(ranges),
            forall|i: int|
                0 <= i < ranges.len() ==> 0 <= (#[trigger] ranges[i]).0 < ranges[i].1
                    <= src@.len(),
            first_failure(src@, ranges, 0) == first_failure(src@, ranges, at as int),
            time_stamp matches Some(stamp) ==> forall|i: int|
                0 <= i < at ==> is_new_row_of_object(
                    #[trigger] result@[i],
                    src@,
                    ranges[i],
                    stamp.text(),
                ),
            time_stamp is None ==> forall|i: int|
                0 <= i < at ==> is_restored_row_of_object(#[trigger] result@[i], src@, ranges[i]),
        decreases objects.len() - at,
    {
        let (start, end) = objects[at];
        assert(ranges[at as int] == (start as int, end as int));
        let row = match row_of_object(src, start, end, time_stamp) {
            Ok(row) => row,
            Err(fail) => {
                return Err(fail);
            },
        };
        assert(parse_entity(object_bytes(src@, ranges[at as int])) is Ok) by {
            reveal(is_new_row_of_object);
            reveal(is_restored_row_of_object);
        }
        result.push(row);
        at = at + 1;
    }
    Ok(result)
}

/// The rows of each key, as lists.
pub open spec fn groups_of(m: Seq<(Seq<u8>, Vec<Arc<DbRow>>)>) -> Seq<(Seq<u8>, Seq<Arc<DbRow>>)> {
    m.map_values(|entry: (Seq<u8>, Vec<Arc<DbRow>>)| (entry.0, entry.1@))
}

/// The first `count` rows by partition key: under each key the rows of
/// that partition, in the order in which they stand.
pub open spec fn grouped(rows: Seq<Arc<DbRow>>, count: int) -> Seq<(Seq<u8>, Seq<Arc<DbRow>>)>
    decreases count,
{
    if count <= 0 {
        Seq::empty()
    } else {
        let before = grouped(rows, count - 1);
        let row = rows[count - 1];
        put(
            before,
            row.partition(),
            match value_at(before, row.partition()) {
                Some(list) => list.push(row),
                None => seq![row],
            },
        )
    }
}

/// The lists stand in the order of the keys as the vectors do, and a key
/// has its place among them where it has it among the vectors.
proof fn lemma_groups_keep_places(m: Seq<(Seq<u8>, Vec<Arc<DbRow>>)>, key: Seq<u8>)
    requires
        is_sorted(m),
    ensures
        is_sorted(groups_of(m)),
        rank(groups_of(m), key) == rank(m, key),
        has_key(groups_of(m), key) == has_key(m, key),
{
    let g = groups_of(m);
    assert forall|i: int, j: int| 0 <= i < j < g.len() implies bytes_less(
        #[trigger] g[i].0,
        #[trigger] g[j].0,
    ) by {
        assert(bytes_less(m[i].0, m[j].0));
    }
    lemma_rank(m, key);
    assert forall|j: int| 0 <= j < rank(m, key) implies bytes_less(#[trigger] g[j].0, key) by {
        assert(bytes_less(m[j].0, key));
    }
    lemma_rank_is(g, key, rank(m, key));
}

/// The rows by partition key.
fn group_rows(rows: &Vec<Arc<DbRow>>) -> (r: OrderedMap<Vec<Arc<DbRow>>>)
    ensures
        r.wf(),
        groups_of(r@) == grouped(rows@, rows@.len() as int),
{
    let mut result: OrderedMap<Vec<Arc<DbRow>>> = OrderedMap::new();
    let mut at: usize = 0;
    assert(groups_of(result@) =~= grouped(rows@, 0));
    while at < rows.len()
        invariant
            at <= rows@.len(),
            result.wf(),
            groups_of(result@) == grouped(rows@, at as int),
        decreases rows@.len() - at,
    {
        let row = &rows[at];
        let ghost before = result@;
        let ghost key = row.partition();
        proof {
            lemma_groups_keep_places(before, key);
            lemma_rank(before, key);
        }
        let (place, found) = result.find(row.partition_key.as_str());
        if found {
            let list = result.value_mut(place);
            list.push(share(row));
            proof {
                let list_before = before[place as int].1@;
                assert(result@ == before.update(place as int, (key, result@[place as int].1)));
                assert(groups_of(result@) =~= put(
                    groups_of(before),
                    key,
                    list_before.push(*row),
                ));
                assert forall|i: int, j: int| 0 <= i < j < result@.len() implies bytes_less(
                    #[trigger] result@[i].0,
                    #[trigger] result@[j].0,
                ) by {
                    assert(bytes_less(before[i].0, before[j].0));
                }
            }
        } else {
            let mut list: Vec<Arc<DbRow>> = Vec::new();
            list.push(share(row));
            proof {
                assert(list@ =~= seq![*row]);
                lemma_put(before, key, list);
            }
            result.insert(row.partition_key.clone(), list);
            proof {
                assert(groups_of(result@) =~= put(groups_of(before), key, seq![*row]));
            }
        }
        at = at + 1;
    }
    result
}

impl<'s> DbJsonEntity<'s> {
    /// The rows of a JSON array of objects by partition key, each written
    /// at the time stamp. The first object that is no row makes the whole
    /// fail.
    pub fn parse_as_btreemap(src: &'s [u8], inject_time_stamp: &JsonTimeStamp) -> (r: Result<
        OrderedMap<Vec<Arc<DbRow>>>,
        DbEntityParseFail,
    >)
        ensures
            match r {
                Ok(by_partition) => by_partition.wf() && array_objects(src@) is Ok && exists|
                    rows: Seq<Arc<DbRow>>,
                |
                    are_new_rows_of(
                        rows,
                        src@,
                        array_objects(src@)->Ok_0,
                        inject_time_stamp.text(),
                    ) && #[trigger] grouped(rows, rows.len() as int) == groups_of(by_partition@),
                Err(fail) => array_failure(src@) == Some(fail),
            },
    {
        match rows_of_array(src, Some(inject_time_stamp)) {
            Ok(rows) => Ok(group_rows(&rows)),
            Err(fail) => Err(fail),
        }
    }

    /// The rows of a JSON array of objects by partition key, each taken as
    /// it stands. The first object that is no row makes the whole fail.
    pub fn restore_as_btreemap(src: &'s [u8]) -> (r: Result<
        OrderedMap<Vec<Arc<DbRow>>>,
        DbEntityParseFail,
    >)
        ensures
            match r {
                Ok(by_partition) => by_partition.wf() && array_objects(src@) is Ok && exists|
                    rows: Seq<Arc<DbRow>>,
                |
                    are_restored_rows_of(rows, src@, array_objects(src@)->Ok_0)
                        && #[trigger] grouped(rows, rows.len() as int) == groups_of(
                        by_partition@,
                    ),
                Err(fail) => array_failure(src@) == Some(fail),
            },
    {
        match rows_of_array(src, None) {
            Ok(rows) => Ok(group_rows(&rows)),
            Err(fail) => Err(fail),
        }
    }

    /// The rows of a JSON array of objects, each written at the time
    /// stamp. The first object that is no row makes the whole fail.
    pub fn parse_as_vec(src: &'s [u8], inject_time_stamp: &JsonTimeStamp) -> (r: Result<
        Vec<Arc<DbRow>>,
        DbEntityParseFail,
    >)
        ensures
            match r {
                Ok(rows) => array_objects(src@) is Ok && are_new_rows_of(
                    rows@,
                    src@,
                    array_objects(src@)->Ok_0,
                    inject_time_stamp.text(),
                ),
                Err(fail) => array_failure(src@) == Some(fail),
            },
    {
        rows_of_array(src, Some(inject_time_stamp))
    }

    /// The rows of a JSON array of objects, each taken as it stands. The
    /// first object that is no row makes the whole fail.
    pub fn restore_as_vec(src: &'s [u8]) -> (r: Result<Vec<Arc<DbRow>>, DbEntityParseFail>)
        ensures
            match r {
                Ok(rows) => array_objects(src@) is Ok && are_restored_rows_of(
                    rows@,
                    src@,
                    array_objects(src@)->Ok_0,
                ),
                Err(fail) => array_failure(src@) == Some(fail),
            },
    {
        rows_of_array(src, None)
    }

    /// The entity is what its bytes say.
    pub open spec fn wf(&self) -> bool {
        parse_entity(self.raw@) == Ok::<ParsedEntity, DbEntityParseFail>(self@)
    }

    /// Where the `Expires` field stands once the time stamp is written.
    fn moved_expires_position(&self, data: &Vec<u8>, time_stamp: &JsonTimeStamp) -> (r: Option<
        JsonKeyValuePosition,
    >)
        requires
            self.wf(),
            data@ == row_content(
                self.raw@,
                span_of(self.timestamp_value_position),
                time_stamp.text(),
            ),
        ensures
            span_of(r) == match self.expires_value_position {
                Some(p) => Some(
                    moved_span(
                        p@,
                        self.raw@,
                        span_of(self.timestamp_value_position),
                        time_stamp.text().len() as int,
                    ),
                ),
                None => None,
            },
            r matches Some(p) ==> p@.fits(data@.len() as int),
    {
        proof {
            lemma_parsed_places_are_fields(self.raw@);
            lemma_parsed_places_behind_brace(self.raw@);
        }
        let position = match self.expires_value_position {
            Some(position) => position,
            None => {
                return None;
            },
        };
        let ghost shift = time_stamp_shift(
            span_of(self.timestamp_value_position),
            time_stamp.text().len() as int,
        );
        assert(data@.len() == self.raw@.len() + shift) by {
            lemma_open_brace_range(self.raw@, 0);
            assert(time_stamp_name().len() == 9);
        }
        match &self.timestamp_value_position {
            Some(p) => {
                if position.key_start < p.value_end {
                    return Some(position);
                }
                let old_len: usize = p.value_end - p.value_start;
                let text_len: usize = time_stamp.as_slice().len();
                assert(text_len + 2 <= data.len());
                assert(position.value_end - old_len + text_len + 2 <= data.len());
                let new_len: usize = text_len + 2;
                Some(
                    JsonKeyValuePosition {
                        key_start: position.key_start - old_len + new_len,
                        key_end: position.key_end - old_len + new_len,
                        value_start: position.value_start - old_len + new_len,
                        value_end: position.value_end - old_len + new_len,
                    },
                )
            },
            None => {
                let behind: usize = data.len() - self.raw.len();
                Some(
                    JsonKeyValuePosition {
                        key_start: position.key_start + behind,
                        key_end: position.key_end + behind,
                        value_start: position.value_start + behind,
                        value_end: position.value_end + behind,
                    },
                )
            },
        }
    }

    /// The row that is written at the time stamp: the bytes get the time
    /// stamp as their `TimeStamp` field.
    pub fn new_db_row(&self, inject_time_stamp: &JsonTimeStamp) -> (r: DbRow)
        requires
            self.wf(),
        ensures
            is_new_row_of(r, self.raw@, self@, inject_time_stamp.text()),
            inject_time_stamp.wf() ==> r.parses_back() && (parse_entity(r.data@)->Ok_0).time_stamp
                == Some(inject_time_stamp.text()),
    {
        proof {
            lemma_parsed_places_are_fields(self.raw@);
            if inject_time_stamp.wf() {
                crate::db_json_entity::rewriting_laws::lemma_iso_text_is_plain(
                    inject_time_stamp.date_time.unix_microseconds as int,
                );
                crate::db_json_entity::rewriting_laws::lemma_time_stamp_is_read_back(
                    self.raw@,
                    inject_time_stamp.text(),
                );
            }
        }
        let data = compile_row_content(self.raw, &self.timestamp_value_position, inject_time_stamp);
        let expires_json_position = self.moved_expires_position(&data, inject_time_stamp);
        let mut row = DbRow::new(self, data, inject_time_stamp);
        row.expires_json_position = expires_json_position;
        row
    }

    /// The row as it was stored: the bytes stay as they are. Its time
    /// stamp is that of the `TimeStamp` field where it names an instant,
    /// else the instant that the machine's clock shows.
    pub fn restore_db_row(&self) -> (r: DbRow)
        requires
            self.wf(),
        ensures
            is_restored_row_of(r, self.raw@, self@),
            r.parses_back(),
    {
        proof {
            lemma_parsed_places_are_fields(self.raw@);
        }
        let time_stamp = match self.time_stamp {
            Some(text) => JsonTimeStamp::parse_or_now(text),
            None => JsonTimeStamp::now(),
        };
        let data = slice_to_vec(self.raw);
        DbRow::new(self, data, &time_stamp)
    }
}

} // verus!
