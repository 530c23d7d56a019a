use vstd::prelude::*;
use vstd::utf8::valid_utf8;
use crate::date_time::iso_text::iso_instant;
use crate::db_json_entity::consts::{
    expires_name, partition_key_name, row_key_name, time_stamp_lower_case_name, time_stamp_name,
};
use crate::db_json_entity::db_json_entity::{
    entity_of_fields, expires_of, field_name, field_value, is_name_of, is_null_value,
    is_string_value, key_of, last_field, lower_case, parse_entity, same_letters, string_content,
    time_stamp_of, FieldKind, ParsedEntity,
};
use crate::db_json_entity::error::DbEntityParseFail;
use crate::db_json_entity::error::JsonParseError;
use crate::db_json_entity::db_json_entity::lemma_parsed_places_behind_brace;
use crate::db_json_entity::first_line_reader::{
    fields_from, is_field, is_space, lemma_fields_fit, lemma_fields_from_are_fields,
    lemma_skip_spaces_range, lemma_string_value_has_quotes, object_fields, skip_spaces,
    string_end, value_end, with_field_in_front, BACKSLASH, COLON, COMMA, OPEN_BRACE, QUOTE,
};
use crate::db_json_entity::json_key_value_position::FieldSpan;
use crate::db_json_entity::date_time_injector::{
    data_with_time_stamp_injected, data_with_time_stamp_replaced, moved_span, row_content,
};
use crate::db_json_entity::expires_update::{
    data_with_expires, data_with_expires_injected, data_with_expires_replaced,
    data_without_expires, expires_field, expires_span_at, expires_span_in, first_field_place,
    last_mark_before,
};
use crate::db_json_entity::first_line_reader::CLOSE_BRACE;
use crate::db_json_entity::scanning_laws::{
    behind_field, byte_at, lemma_field_removed_with_comma_behind, lemma_field_rewritten,
    lemma_fields_from_tail, lemma_fields_up_to, lemma_first_field,
    lemma_last_field_removed_with_comma_before, lemma_only_field_removed,
    lemma_skip_spaces_alike, lemma_skip_spaces_is, lemma_string_end_alike, lemma_window_part,
    lemma_window_self, moved, same_tail, same_window, with_field_removed, with_field_rewritten,
};

verus! {

/// Whether the text holds neither a quote nor a backslash.
pub open spec fn is_plain(text: Seq<u8>) -> bool {
    forall|i: int| 0 <= i < text.len() ==> #[trigger] text[i] != QUOTE && text[i] != BACKSLASH
}

/// `"`, the name, `":"`, the value and `"`.
pub open spec fn field_text(name: Seq<u8>, value: Seq<u8>) -> Seq<u8> {
    seq![QUOTE] + name + seq![QUOTE, COLON, QUOTE] + value + seq![QUOTE]
}

/// The place of a field written by `field_text` at `at`.
pub open spec fn field_text_span(at: int, name_len: int, value_len: int) -> FieldSpan {
    FieldSpan {
        key_start: at,
        key_end: at + name_len + 2,
        value_start: at + name_len + 3,
        value_end: at + name_len + 5 + value_len,
    }
}

/// Whether `s` holds `part` at `at`.
pub open spec fn holds_at(s: Seq<u8>, at: int, part: Seq<u8>) -> bool {
    &&& 0 <= at
    &&& at + part.len() <= s.len()
    &&& forall|k: int| 0 <= k < part.len() ==> s[at + k] == #[trigger] part[k]
}

/// The text of an instant holds neither a quote nor a backslash, and is
/// UTF-8.
pub proof fn lemma_iso_text_is_plain(instant: int)
    ensures
        is_plain(crate::date_time::iso_text::iso_text(instant)),
        valid_utf8(crate::date_time::iso_text::iso_text(instant)),
{
    crate::date_time::iso_text::lemma_iso_text_bytes(instant);
    crate::text::lemma_ascii_is_utf8(crate::date_time::iso_text::iso_text(instant));
}

/// A string without quotes and backslashes ends at the first quote.
pub proof fn lemma_plain_string_end(s: Seq<u8>, at: int, text: Seq<u8>)
    requires
        is_plain(text),
        holds_at(s, at, text),
        at + text.len() < s.len(),
        s[at + text.len()] == QUOTE,
    ensures
        string_end(s, at) == Some(at + text.len() + 1),
    decreases text.len(),
{
    if text.len() > 0 {
        assert(s[at + 0] == text[0]);
        let rest = text.drop_first();
        assert forall|k: int| 0 <= k < rest.len() implies s[at + 1 + k] == #[trigger] rest[k] by {
            assert(s[at + (k + 1)] == text[k + 1]);
        }
        assert forall|i: int| 0 <= i < rest.len() implies #[trigger] rest[i] != QUOTE && rest[i]
            != BACKSLASH by {
            assert(text[i + 1] != QUOTE);
        }
        lemma_plain_string_end(s, at + 1, rest);
    }
}

/// How a field written by `field_text` is read.
pub proof fn lemma_field_text_is_read(s: Seq<u8>, at: int, name: Seq<u8>, value: Seq<u8>)
    requires
        is_plain(name),
        is_plain(value),
        holds_at(s, at, field_text(name, value)),
    ensures
        ({
            let span = field_text_span(at, name.len() as int, value.len() as int);
            &&& s[at] == QUOTE
            &&& string_end(s, at + 1) == Some(span.key_end)
            &&& skip_spaces(s, span.key_end) == span.key_end
            &&& s[span.key_end] == COLON
            &&& skip_spaces(s, span.key_end + 1) == span.value_start
            &&& s[span.value_start] == QUOTE
            &&& value_end(s, span.value_start) == Some(span.value_end)
            &&& span.value_end == at + field_text(name, value).len()
            &&& s.subrange(span.key_start + 1, span.key_end - 1) == name
            &&& s.subrange(span.value_start + 1, span.value_end - 1) == value
        }),
{
    let text = field_text(name, value);
    let span = field_text_span(at, name.len() as int, value.len() as int);
    let n = name.len() as int;
    let v = value.len() as int;
    assert(text.len() == n + v + 5);
    assert(s[at + 0] == text[0]);
    assert(s[at + (n + 1)] == text[n + 1]);
    assert(s[at + (n + 2)] == text[n + 2]);
    assert(s[at + (n + 3)] == text[n + 3]);
    assert(s[at + (n + v + 4)] == text[n + v + 4]);
    assert forall|k: int| 0 <= k < n implies s[at + 1 + k] == #[trigger] name[k] by {
        assert(s[at + (k + 1)] == text[k + 1]);
    }
    assert forall|k: int| 0 <= k < v implies s[at + n + 4 + k] == #[trigger] value[k] by {
        assert(s[at + (k + n + 4)] == text[k + n + 4]);
    }
    lemma_plain_string_end(s, at + 1, name);
    lemma_plain_string_end(s, at + n + 4, value);
    assert(s.subrange(span.key_start + 1, span.key_end - 1) =~= name);
    assert(s.subrange(span.value_start + 1, span.value_end - 1) =~= value);
}

/// The text with a field and a comma put in behind its first `{`.
pub open spec fn with_first_field(s: Seq<u8>, name: Seq<u8>, value: Seq<u8>) -> Seq<u8> {
    let at = skip_spaces(s, 0) + 1;
    s.subrange(0, at) + field_text(name, value) + seq![COMMA] + s.subrange(at, s.len() as int)
}

/// A field with a comma behind it is read, and then what stands behind
/// the comma.
pub proof fn lemma_field_then_rest(s: Seq<u8>, at: int, name: Seq<u8>, value: Seq<u8>)
    requires
        is_plain(name),
        is_plain(value),
        holds_at(s, at, field_text(name, value)),
        at + field_text(name, value).len() < s.len(),
        s[at + field_text(name, value).len()] == COMMA,
    ensures
        fields_from(s, at) == with_field_in_front(
            field_text_span(at, name.len() as int, value.len() as int),
            fields_from(s, at + field_text(name, value).len() + 1),
        ),
{
    let span = field_text_span(at, name.len() as int, value.len() as int);
    lemma_field_text_is_read(s, at, name, value);
    assert(skip_spaces(s, at) == at);
    assert(skip_spaces(s, span.value_end) == span.value_end);
}

/// What `with_first_field` holds where.
pub proof fn lemma_with_first_field_holds(s: Seq<u8>, name: Seq<u8>, value: Seq<u8>)
    requires
        0 <= skip_spaces(s, 0) < s.len(),
    ensures
        ({
            let at = skip_spaces(s, 0) + 1;
            let text = field_text(name, value);
            let new = with_first_field(s, name, value);
            &&& new.len() == s.len() + text.len() + 1
            &&& holds_at(new, 0, s.subrange(0, at))
            &&& holds_at(new, at, text)
            &&& new[at + text.len()] == COMMA
            &&& same_tail(s, at, new, at + text.len() + 1)
        }),
{
    let at = skip_spaces(s, 0) + 1;
    let text = field_text(name, value);
    let new = with_first_field(s, name, value);
    let head = s.subrange(0, at);
    assert forall|k: int| 0 <= k < head.len() implies new[0 + k] == #[trigger] head[k] by {}
    assert forall|k: int| 0 <= k < text.len() implies new[at + k] == #[trigger] text[k] by {}
    assert forall|k: int| 0 <= k < s.len() - at implies s[at + k] == #[trigger] new[at
        + text.len() + 1 + k] by {}
}

/// A field put in behind the `{` of an object is read as its first field,
/// and the fields that were there are read behind it as before.
pub proof fn lemma_first_field_is_read(s: Seq<u8>, name: Seq<u8>, value: Seq<u8>)
    requires
        object_fields(s) is Ok,
        is_plain(name),
        is_plain(value),
    ensures
        ({
            let at = skip_spaces(s, 0) + 1;
            let by = field_text(name, value).len() as int + 1;
            object_fields(with_first_field(s, name, value)) == Ok::<
                Seq<FieldSpan>,
                JsonParseError,
            >(
                seq![field_text_span(at, name.len() as int, value.len() as int)] + moved(
                    object_fields(s)->Ok_0,
                    by,
                ),
            )
        }),
{
    let open = skip_spaces(s, 0);
    let at = open + 1;
    let text = field_text(name, value);
    let by = text.len() as int + 1;
    let new = with_first_field(s, name, value);
    lemma_skip_spaces_range(s, 0);
    lemma_with_first_field_holds(s, name, value);
    assert(same_window(s, 0, new, 0, at)) by {
        assert forall|k: int| 0 <= k < at implies byte_at(s, 0 + k) == #[trigger] byte_at(
            new,
            0 + k,
        ) by {
            assert(new[0 + k] == s.subrange(0, at)[k]);
        }
    }
    lemma_skip_spaces_alike(s, 0, new, 0, at);
    assert(new[0 + open] == s.subrange(0, at)[open]);
    assert(object_fields(new) == fields_from(new, at));
    lemma_field_then_rest(new, at, name, value);
    lemma_fields_from_tail(s, at, new, at + by);
}

/// A place that may be there, moved by `by`.
pub open spec fn moved_place(place: Option<FieldSpan>, by: int) -> Option<FieldSpan> {
    match place {
        Some(p) => Some(p.shifted(by)),
        None => None,
    }
}

/// Whether the field `g` of `b` holds the bytes of the field `f` of `a`,
/// name and value.
pub open spec fn same_field(a: Seq<u8>, f: FieldSpan, b: Seq<u8>, g: FieldSpan) -> bool {
    &&& f.fits(a.len() as int)
    &&& g.fits(b.len() as int)
    &&& field_name(b, g) == field_name(a, f)
    &&& field_value(b, g) == field_value(a, f)
}

/// Fields that hold the same bytes say the same.
pub proof fn lemma_same_field_says_the_same(a: Seq<u8>, f: FieldSpan, b: Seq<u8>, g: FieldSpan)
    requires
        same_field(a, f, b, g),
        is_string_value(a, f) ==> f.value_start + 2 <= f.value_end,
    ensures
        is_string_value(b, g) == is_string_value(a, f),
        is_null_value(b, g) == is_null_value(a, f),
        is_string_value(a, f) ==> string_content(b, g) == string_content(a, f),
        key_of(b, g) == key_of(a, f),
        expires_of(b, Some(g)) == expires_of(a, Some(f)),
        time_stamp_of(b, Some(g)) == time_stamp_of(a, Some(f)),
        forall|kind: FieldKind| is_name_of(field_name(b, g), kind) == is_name_of(field_name(a, f), kind),
{
    let va = field_value(a, f);
    let vb = field_value(b, g);
    assert(va.len() == f.value_end - f.value_start);
    assert(vb.len() == g.value_end - g.value_start);
    assert(va[0] == a[f.value_start] && vb[0] == b[g.value_start]);
    if f.value_start + 2 <= f.value_end {
        assert(string_content(a, f) =~= va.subrange(1, va.len() - 1));
        assert(string_content(b, g) =~= vb.subrange(1, vb.len() - 1));
    }
}

/// A field that is moved along with its bytes holds the same bytes.
pub proof fn lemma_moved_field_is_same(a: Seq<u8>, f: FieldSpan, b: Seq<u8>, by: int)
    requires
        f.fits(a.len() as int),
        f.shifted(by).fits(b.len() as int),
        forall|k: int| f.key_start <= k < f.value_end ==> #[trigger] a[k] == b[k + by],
    ensures
        same_field(a, f, b, f.shifted(by)),
{
    let g = f.shifted(by);
    assert(field_name(b, g) =~= field_name(a, f)) by {
        assert forall|k: int| 0 <= k < field_name(a, f).len() implies field_name(b, g)[k]
            == field_name(a, f)[k] by {
            assert(a[f.key_start + 1 + k] == b[f.key_start + 1 + k + by]);
        }
    }
    assert(field_value(b, g) =~= field_value(a, f)) by {
        assert forall|k: int| 0 <= k < field_value(a, f).len() implies field_value(b, g)[k]
            == field_value(a, f)[k] by {
            assert(a[f.value_start + k] == b[f.value_start + k + by]);
        }
    }
}

/// Whether the fields `gs` of `b` hold, one by one, the bytes of the
/// fields `fs` of `a`, which are fields.
pub open spec fn same_fields(a: Seq<u8>, fs: Seq<FieldSpan>, b: Seq<u8>, gs: Seq<FieldSpan>) -> bool {
    &&& fs.len() == gs.len()
    &&& forall|i: int|
        0 <= i < fs.len() ==> same_field(a, #[trigger] fs[i], b, gs[i]) && (is_string_value(
            a,
            fs[i],
        ) ==> fs[i].value_start + 2 <= fs[i].value_end)
}

/// The place of the last field of a kind among the fields; -1 where there
/// is none.
pub open spec fn last_place(s: Seq<u8>, fields: Seq<FieldSpan>, kind: FieldKind) -> int
    decreases fields.len(),
{
    if fields.len() == 0 {
        -1
    } else if is_name_of(field_name(s, fields.last()), kind) {
        fields.len() - 1
    } else {
        last_place(s, fields.drop_last(), kind)
    }
}

/// The last field of a kind stands at its place.
pub proof fn lemma_last_place(s: Seq<u8>, fields: Seq<FieldSpan>, kind: FieldKind)
    ensures
        -1 <= last_place(s, fields, kind) < fields.len(),
        last_field(s, fields, kind) == if last_place(s, fields, kind) < 0 {
            None
        } else {
            Some(fields[last_place(s, fields, kind)])
        },
        last_place(s, fields, kind) >= 0 ==> is_name_of(
            field_name(s, fields[last_place(s, fields, kind)]),
            kind,
        ),
        forall|i: int|
            last_place(s, fields, kind) < i < fields.len() ==> !is_name_of(
                field_name(s, #[trigger] fields[i]),
                kind,
            ),
    decreases fields.len(),
{
    if fields.len() > 0 {
        if !is_name_of(field_name(s, fields.last()), kind) {
            lemma_last_place(s, fields.drop_last(), kind);
            assert forall|i: int| last_place(s, fields, kind) < i < fields.len() implies !is_name_of(
                field_name(s, #[trigger] fields[i]),
                kind,
            ) by {
                if i < fields.len() - 1 {
                    assert(fields.drop_last()[i] == fields[i]);
                }
            }
        }
    }
}

/// A place with a field of the kind at it and none behind it is the last
/// place of the kind.
pub proof fn lemma_last_place_is(s: Seq<u8>, fields: Seq<FieldSpan>, kind: FieldKind, at: int)
    requires
        -1 <= at < fields.len(),
        at >= 0 ==> is_name_of(field_name(s, fields[at]), kind),
        forall|i: int| at < i < fields.len() ==> !is_name_of(field_name(s, #[trigger] fields[i]), kind),
    ensures
        last_place(s, fields, kind) == at,
    decreases fields.len(),
{
    if fields.len() > 0 {
        if at < fields.len() - 1 {
            assert(!is_name_of(field_name(s, fields[fields.len() - 1]), kind));
            assert forall|i: int| at < i < fields.drop_last().len() implies !is_name_of(
                field_name(s, #[trigger] fields.drop_last()[i]),
                kind,
            ) by {
                assert(fields.drop_last()[i] == fields[i]);
            }
            if at >= 0 {
                assert(fields.drop_last()[at] == fields[at]);
            }
            lemma_last_place_is(s, fields.drop_last(), kind, at);
        }
    }
}

/// Fields that hold the same bytes have their last field of a kind at the
/// same place.
pub proof fn lemma_same_fields_same_place(
    a: Seq<u8>,
    fs: Seq<FieldSpan>,
    b: Seq<u8>,
    gs: Seq<FieldSpan>,
    kind: FieldKind,
)
    requires
        same_fields(a, fs, b, gs),
    ensures
        last_place(b, gs, kind) == last_place(a, fs, kind),
{
    lemma_last_place(a, fs, kind);
    let at = last_place(a, fs, kind);
    if at >= 0 {
        lemma_same_field_says_the_same(a, fs[at], b, gs[at]);
    }
    assert forall|i: int| at < i < gs.len() implies !is_name_of(
        field_name(b, #[trigger] gs[i]),
        kind,
    ) by {
        lemma_same_field_says_the_same(a, fs[i], b, gs[i]);
    }
    lemma_last_place_is(b, gs, kind, at);
}

/// With one more field in front, the last field of a kind is the one it
/// was, or else the one in front where that is of the kind.
pub proof fn lemma_last_place_behind_first(
    s: Seq<u8>,
    first: FieldSpan,
    rest: Seq<FieldSpan>,
    kind: FieldKind,
)
    ensures
        last_place(s, seq![first] + rest, kind) == if last_place(s, rest, kind) >= 0 {
            last_place(s, rest, kind) + 1
        } else if is_name_of(field_name(s, first), kind) {
            0int
        } else {
            -1int
        },
{
    let all = seq![first] + rest;
    lemma_last_place(s, rest, kind);
    let at = last_place(s, rest, kind);
    let wanted = if at >= 0 {
        at + 1
    } else if is_name_of(field_name(s, first), kind) {
        0int
    } else {
        -1int
    };
    assert forall|i: int| wanted < i < all.len() implies !is_name_of(
        field_name(s, #[trigger] all[i]),
        kind,
    ) by {
        if i > 0 {
            assert(all[i] == rest[i - 1]);
        }
    }
    if at >= 0 {
        assert(all[at + 1] == rest[at]);
    }
    lemma_last_place_is(s, all, kind, wanted);
}

/// The names of the four fields differ, whatever the case of their
/// letters.
pub proof fn lemma_names_differ()
    ensures
        !is_name_of(expires_name(), FieldKind::PartitionKey),
        !is_name_of(expires_name(), FieldKind::RowKey),
        is_name_of(expires_name(), FieldKind::Expires),
        !is_name_of(expires_name(), FieldKind::TimeStamp),
        !is_name_of(time_stamp_name(), FieldKind::PartitionKey),
        !is_name_of(time_stamp_name(), FieldKind::RowKey),
        !is_name_of(time_stamp_name(), FieldKind::Expires),
        is_name_of(time_stamp_name(), FieldKind::TimeStamp),
        is_plain(expires_name()),
        is_plain(time_stamp_name()),
{
    assert(expires_name().len() == 7);
    assert(time_stamp_name().len() == 9);
    assert(partition_key_name().len() == 12);
    assert(row_key_name().len() == 6);
    assert(time_stamp_lower_case_name().len() == 9);
    assert(same_letters(time_stamp_name(), time_stamp_lower_case_name())) by {
        let a = time_stamp_name();
        let b = time_stamp_lower_case_name();
        assert(lower_case(a[0]) == lower_case(b[0]));
        assert(lower_case(a[1]) == lower_case(b[1]));
        assert(lower_case(a[2]) == lower_case(b[2]));
        assert(lower_case(a[3]) == lower_case(b[3]));
        assert(lower_case(a[4]) == lower_case(b[4]));
        assert(lower_case(a[5]) == lower_case(b[5]));
        assert(lower_case(a[6]) == lower_case(b[6]));
        assert(lower_case(a[7]) == lower_case(b[7]));
        assert(lower_case(a[8]) == lower_case(b[8]));
    }
    assert(is_plain(expires_name())) by {
        let a = expires_name();
        assert forall|i: int| 0 <= i < a.len() implies #[trigger] a[i] != QUOTE && a[i]
            != BACKSLASH by {
            assert(a[i] >= 65);
            assert(a[i] != 92 && a[i] != 34) by {
                if i == 0 {
                } else if i == 1 {
                } else if i == 2 {
                } else if i == 3 {
                } else if i == 4 {
                } else if i == 5 {
                } else {
                }
            }
        }
    }
    assert(is_plain(time_stamp_name())) by {
        let a = time_stamp_name();
        assert forall|i: int| 0 <= i < a.len() implies #[trigger] a[i] != QUOTE && a[i]
            != BACKSLASH by {
            if i == 0 {
            } else if i == 1 {
            } else if i == 2 {
            } else if i == 3 {
            } else if i == 4 {
            } else if i == 5 {
            } else if i == 6 {
            } else if i == 7 {
            } else {
            }
        }
    }
}

/// What a field of `a` says, said of the field of `b` at the same place
/// among fields that hold the same bytes.
pub proof fn lemma_same_fields_say_the_same(
    a: Seq<u8>,
    fs: Seq<FieldSpan>,
    b: Seq<u8>,
    gs: Seq<FieldSpan>,
    kind: FieldKind,
)
    requires
        same_fields(a, fs, b, gs),
    ensures
        last_field(a, fs, kind) is Some == last_field(b, gs, kind) is Some,
        last_field(a, fs, kind) matches Some(f) ==> {
            let g = last_field(b, gs, kind).unwrap();
            &&& g == gs[last_place(a, fs, kind)]
            &&& f == fs[last_place(a, fs, kind)]
            &&& is_null_value(b, g) == is_null_value(a, f)
            &&& key_of(b, g) == key_of(a, f)
            &&& expires_of(b, Some(g)) == expires_of(a, Some(f))
            &&& time_stamp_of(b, Some(g)) == time_stamp_of(a, Some(f))
        },
{
    lemma_same_fields_same_place(a, fs, b, gs, kind);
    lemma_last_place(a, fs, kind);
    lemma_last_place(b, gs, kind);
    let at = last_place(a, fs, kind);
    if at >= 0 {
        lemma_same_field_says_the_same(a, fs[at], b, gs[at]);
    }
}

/// The fields of an object, moved along with their bytes, hold the same
/// bytes.
pub proof fn lemma_moved_fields_are_same(s: Seq<u8>, from: int, new: Seq<u8>, by: int)
    requires
        0 <= from,
        fields_from(s, from) is Ok,
        same_tail(s, from, new, from + by),
    ensures
        same_fields(s, fields_from(s, from)->Ok_0, new, moved(fields_from(s, from)->Ok_0, by)),
{
    let fs = fields_from(s, from)->Ok_0;
    let gs = moved(fs, by);
    lemma_fields_from_are_fields(s, from);
    assert forall|i: int| 0 <= i < fs.len() implies same_field(s, #[trigger] fs[i], new, gs[i]) && (
    is_string_value(s, fs[i]) ==> fs[i].value_start + 2 <= fs[i].value_end) by {
        let f = fs[i];
        assert(is_field(s, f));
        if is_string_value(s, f) {
            lemma_string_value_has_quotes(s, f);
        }
        assert forall|k: int| f.key_start <= k < f.value_end implies #[trigger] s[k] == new[k
            + by] by {
            assert(s[from + (k - from)] == new[from + by + (k - from)]);
        }
        lemma_moved_field_is_same(s, f, new, by);
    }
}

/// What the last field of a kind is once a field was put in front.
pub proof fn lemma_last_field_behind_first(
    s: Seq<u8>,
    fs: Seq<FieldSpan>,
    new: Seq<u8>,
    first: FieldSpan,
    gs: Seq<FieldSpan>,
    kind: FieldKind,
)
    requires
        same_fields(s, fs, new, gs),
    ensures
        last_field(new, seq![first] + gs, kind) == match last_field(new, gs, kind) {
            Some(g) => Some(g),
            None => if is_name_of(field_name(new, first), kind) {
                Some(first)
            } else {
                None
            },
        },
{
    let all = seq![first] + gs;
    lemma_last_place_behind_first(new, first, gs, kind);
    lemma_last_place(new, gs, kind);
    lemma_last_place(new, all, kind);
    let at = last_place(new, gs, kind);
    if at >= 0 {
        assert(all[at + 1] == gs[at]);
    } else {
        assert(all[0] == first);
    }
}

/// What an object says of a row once a field named `Expires` or
/// `TimeStamp` was put in behind its `{`: the keys as before, and the
/// expiration and the time stamp as before where the object had the field
/// already, else as the new field says.
pub proof fn lemma_entity_with_first_field(s: Seq<u8>, name: Seq<u8>, value: Seq<u8>)
    requires
        parse_entity(s) is Ok,
        is_plain(name),
        is_plain(value),
        !is_name_of(name, FieldKind::PartitionKey),
        !is_name_of(name, FieldKind::RowKey),
    ensures
        ({
            let entity = parse_entity(s)->Ok_0;
            let at = skip_spaces(s, 0) + 1;
            let by = field_text(name, value).len() as int + 1;
            let span = field_text_span(at, name.len() as int, value.len() as int);
            parse_entity(with_first_field(s, name, value)) == Ok::<
                ParsedEntity,
                DbEntityParseFail,
            >(
                ParsedEntity {
                    partition_key: entity.partition_key,
                    row_key: entity.row_key,
                    expires: if entity.expires_value_position is Some {
                        entity.expires
                    } else if is_name_of(name, FieldKind::Expires) {
                        iso_instant(value)
                    } else {
                        None
                    },
                    time_stamp: if entity.timestamp_value_position is Some {
                        entity.time_stamp
                    } else if is_name_of(name, FieldKind::TimeStamp) && valid_utf8(value) {
                        Some(value)
                    } else {
                        None
                    },
                    timestamp_value_position: if entity.timestamp_value_position is Some {
                        moved_place(entity.timestamp_value_position, by)
                    } else if is_name_of(name, FieldKind::TimeStamp) {
                        Some(span)
                    } else {
                        None
                    },
                    expires_value_position: if entity.expires_value_position is Some {
                        moved_place(entity.expires_value_position, by)
                    } else if is_name_of(name, FieldKind::Expires) {
                        Some(span)
                    } else {
                        None
                    },
                },
            )
        }),
{
    let fs = object_fields(s)->Ok_0;
    let at = skip_spaces(s, 0) + 1;
    let by = field_text(name, value).len() as int + 1;
    let span = field_text_span(at, name.len() as int, value.len() as int);
    let new = with_first_field(s, name, value);
    let gs = moved(fs, by);
    lemma_skip_spaces_range(s, 0);
    lemma_first_field_is_read(s, name, value);
    lemma_with_first_field_holds(s, name, value);
    lemma_field_text_is_read(new, at, name, value);
    lemma_moved_fields_are_same(s, at, new, by);
    assert(field_name(new, span) == name);
    assert(string_content(new, span) == value);
    assert(is_string_value(new, span));
    lemma_last_field_behind_first(s, fs, new, span, gs, FieldKind::PartitionKey);
    lemma_last_field_behind_first(s, fs, new, span, gs, FieldKind::RowKey);
    lemma_last_field_behind_first(s, fs, new, span, gs, FieldKind::Expires);
    lemma_last_field_behind_first(s, fs, new, span, gs, FieldKind::TimeStamp);
    lemma_same_fields_say_the_same(s, fs, new, gs, FieldKind::PartitionKey);
    lemma_same_fields_say_the_same(s, fs, new, gs, FieldKind::RowKey);
    lemma_same_fields_say_the_same(s, fs, new, gs, FieldKind::Expires);
    lemma_same_fields_say_the_same(s, fs, new, gs, FieldKind::TimeStamp);
    lemma_last_place(s, fs, FieldKind::Expires);
    lemma_last_place(s, fs, FieldKind::TimeStamp);
    assert(gs[last_place(s, fs, FieldKind::Expires)] == fs[last_place(
        s,
        fs,
        FieldKind::Expires,
    )].shifted(by) || last_place(s, fs, FieldKind::Expires) < 0);
    assert(gs[last_place(s, fs, FieldKind::TimeStamp)] == fs[last_place(
        s,
        fs,
        FieldKind::TimeStamp,
    )].shifted(by) || last_place(s, fs, FieldKind::TimeStamp) < 0);
    assert(parse_entity(new) == entity_of_fields(new, seq![span] + gs));
}

/// Whether the fields `gs` of `b` hold, one by one, the bytes of the
/// fields `fs` of `a`, but for the value of the one at `at`.
pub open spec fn same_fields_but(
    a: Seq<u8>,
    fs: Seq<FieldSpan>,
    b: Seq<u8>,
    gs: Seq<FieldSpan>,
    at: int,
) -> bool {
    &&& fs.len() == gs.len()
    &&& 0 <= at < fs.len()
    &&& field_name(b, gs[at]) == field_name(a, fs[at])
    &&& forall|i: int|
        0 <= i < fs.len() && i != at ==> same_field(a, #[trigger] fs[i], b, gs[i]) && (
        is_string_value(a, fs[i]) ==> fs[i].value_start + 2 <= fs[i].value_end)
}

/// Fields with the same names have their last field of a kind at the same
/// place.
pub proof fn lemma_same_names_same_place(
    a: Seq<u8>,
    fs: Seq<FieldSpan>,
    b: Seq<u8>,
    gs: Seq<FieldSpan>,
    kind: FieldKind,
)
    requires
        fs.len() == gs.len(),
        forall|i: int| 0 <= i < fs.len() ==> field_name(b, #[trigger] gs[i]) == field_name(a, fs[i]),
    ensures
        last_place(b, gs, kind) == last_place(a, fs, kind),
{
    lemma_last_place(a, fs, kind);
    let at = last_place(a, fs, kind);
    lemma_last_place_is(b, gs, kind, at);
}

/// A place among the rewritten fields.
pub open spec fn place_or_none(fields: Seq<FieldSpan>, at: int) -> Option<FieldSpan> {
    if 0 <= at < fields.len() {
        Some(fields[at])
    } else {
        None
    }
}

/// What an object says of a row once the value of its `Expires` or its
/// `TimeStamp` field was written anew: the keys and the other of the two
/// as before, and of the one what its new value says.
pub proof fn lemma_entity_with_field_rewritten(
    s: Seq<u8>,
    b: Seq<u8>,
    gs: Seq<FieldSpan>,
    kind: FieldKind,
)
    requires
        parse_entity(s) is Ok,
        kind is Expires || kind is TimeStamp,
        last_place(s, object_fields(s)->Ok_0, kind) >= 0,
        object_fields(b) == Ok::<Seq<FieldSpan>, JsonParseError>(gs),
        same_fields_but(
            s,
            object_fields(s)->Ok_0,
            b,
            gs,
            last_place(s, object_fields(s)->Ok_0, kind),
        ),
    ensures
        ({
            let entity = parse_entity(s)->Ok_0;
            let fs = object_fields(s)->Ok_0;
            let field = gs[last_place(s, fs, kind)];
            parse_entity(b) == Ok::<ParsedEntity, DbEntityParseFail>(
                ParsedEntity {
                    partition_key: entity.partition_key,
                    row_key: entity.row_key,
                    expires: if kind is Expires {
                        expires_of(b, Some(field))
                    } else {
                        entity.expires
                    },
                    time_stamp: if kind is TimeStamp {
                        time_stamp_of(b, Some(field))
                    } else {
                        entity.time_stamp
                    },
                    timestamp_value_position: place_or_none(
                        gs,
                        last_place(s, fs, FieldKind::TimeStamp),
                    ),
                    expires_value_position: place_or_none(
                        gs,
                        last_place(s, fs, FieldKind::Expires),
                    ),
                },
            )
        }),
{
    let fs = object_fields(s)->Ok_0;
    let at = last_place(s, fs, kind);
    assert forall|i: int| 0 <= i < fs.len() implies field_name(b, #[trigger] gs[i]) == field_name(
        s,
        fs[i],
    ) by {
        if i != at {
            assert(same_field(s, fs[i], b, gs[i]));
        }
    }
    lemma_same_names_same_place(s, fs, b, gs, FieldKind::PartitionKey);
    lemma_same_names_same_place(s, fs, b, gs, FieldKind::RowKey);
    lemma_same_names_same_place(s, fs, b, gs, FieldKind::Expires);
    lemma_same_names_same_place(s, fs, b, gs, FieldKind::TimeStamp);
    lemma_last_place(s, fs, FieldKind::PartitionKey);
    lemma_last_place(s, fs, FieldKind::RowKey);
    lemma_last_place(s, fs, FieldKind::Expires);
    lemma_last_place(s, fs, FieldKind::TimeStamp);
    lemma_last_place(b, gs, FieldKind::PartitionKey);
    lemma_last_place(b, gs, FieldKind::RowKey);
    lemma_last_place(b, gs, FieldKind::Expires);
    lemma_last_place(b, gs, FieldKind::TimeStamp);
    lemma_names_of_kinds_differ(field_name(s, fs[at]));
    let pk = last_place(s, fs, FieldKind::PartitionKey);
    let rk = last_place(s, fs, FieldKind::RowKey);
    let ex = last_place(s, fs, FieldKind::Expires);
    let ts = last_place(s, fs, FieldKind::TimeStamp);
    assert(pk != at && rk != at);
    lemma_same_field_says_the_same(s, fs[pk], b, gs[pk]);
    lemma_same_field_says_the_same(s, fs[rk], b, gs[rk]);
    if ex >= 0 && ex != at {
        lemma_same_field_says_the_same(s, fs[ex], b, gs[ex]);
    }
    if ts >= 0 && ts != at {
        lemma_same_field_says_the_same(s, fs[ts], b, gs[ts]);
    }
    if kind is Expires {
        assert(ex == at);
        if ts >= 0 {
            lemma_names_of_kinds_differ(field_name(s, fs[ts]));
        }
    } else {
        assert(ts == at);
        if ex >= 0 {
            lemma_names_of_kinds_differ(field_name(s, fs[ex]));
        }
    }
    assert(parse_entity(b) == entity_of_fields(b, gs));
}

/// A name is that of one kind of field at most.
pub proof fn lemma_names_of_kinds_differ(name: Seq<u8>)
    ensures
        !(is_name_of(name, FieldKind::PartitionKey) && is_name_of(name, FieldKind::RowKey)),
        !(is_name_of(name, FieldKind::PartitionKey) && is_name_of(name, FieldKind::Expires)),
        !(is_name_of(name, FieldKind::PartitionKey) && is_name_of(name, FieldKind::TimeStamp)),
        !(is_name_of(name, FieldKind::RowKey) && is_name_of(name, FieldKind::Expires)),
        !(is_name_of(name, FieldKind::RowKey) && is_name_of(name, FieldKind::TimeStamp)),
        !(is_name_of(name, FieldKind::Expires) && is_name_of(name, FieldKind::TimeStamp)),
{
    assert(expires_name().len() == 7);
    assert(time_stamp_lower_case_name().len() == 9);
    assert(partition_key_name().len() == 12);
    assert(row_key_name().len() == 6);
}

/// What a text holds in which the bytes from `from` to `to` gave way to
/// `part`.
pub proof fn lemma_part_replaced(s: Seq<u8>, from: int, to: int, part: Seq<u8>)
    requires
        0 <= from <= to <= s.len(),
    ensures
        ({
            let b = s.subrange(0, from) + part + s.subrange(to, s.len() as int);
            &&& b.len() == s.len() - (to - from) + part.len()
            &&& same_window(s, 0, b, 0, from)
            &&& holds_at(b, from, part)
            &&& same_tail(s, to, b, from + part.len())
        }),
{
    let b = s.subrange(0, from) + part + s.subrange(to, s.len() as int);
    assert forall|k: int| 0 <= k < from implies byte_at(s, 0 + k) == #[trigger] byte_at(b, 0 + k) by {
        assert(b[k] == s[k]);
    }
    assert forall|k: int| 0 <= k < part.len() implies b[from + k] == #[trigger] part[k] by {}
    assert forall|k: int| 0 <= k < s.len() - to implies s[to + k] == #[trigger] b[from
        + part.len() + k] by {}
}

/// A place behind an edit moves with it; a place before it stays.
pub open spec fn place_after_edit(place: Option<FieldSpan>, edited_from: int, by: int) -> Option<
    FieldSpan,
> {
    match place {
        Some(p) => if p.key_start >= edited_from {
            Some(p.shifted(by))
        } else {
            Some(p)
        },
        None => None,
    }
}

/// The fields of `s` and those of a text in which the field at `at` was
/// written anew hold the same bytes, but for that field's value.
pub proof fn lemma_rewritten_fields_are_same(
    s: Seq<u8>,
    b: Seq<u8>,
    at: int,
    field: FieldSpan,
    kept: int,
)
    requires
        object_fields(s) matches Ok(fields) && 0 <= at < fields.len(),
        (object_fields(s)->Ok_0)[at].key_start <= kept <= (object_fields(s)->Ok_0)[at].value_end,
        same_window(s, 0, b, 0, kept),
        field.key_start == (object_fields(s)->Ok_0)[at].key_start,
        field.fits(b.len() as int),
        same_tail(s, (object_fields(s)->Ok_0)[at].value_end, b, field.value_end),
        field_name(b, field) == field_name(s, (object_fields(s)->Ok_0)[at]),
    ensures
        same_fields_but(
            s,
            object_fields(s)->Ok_0,
            b,
            with_field_rewritten(
                object_fields(s)->Ok_0,
                at,
                field,
                field.value_end - (object_fields(s)->Ok_0)[at].value_end,
            ),
            at,
        ),
{
    let fs = object_fields(s)->Ok_0;
    let old = fs[at];
    let by = field.value_end - old.value_end;
    let gs = with_field_rewritten(fs, at, field, by);
    lemma_fields_fit(s);
    assert(gs[at] == field);
    assert forall|i: int| 0 <= i < fs.len() && i != at implies same_field(
        s,
        #[trigger] fs[i],
        b,
        gs[i],
    ) && (is_string_value(s, fs[i]) ==> fs[i].value_start + 2 <= fs[i].value_end) by {
        let f = fs[i];
        assert(is_field(s, f));
        if is_string_value(s, f) {
            lemma_string_value_has_quotes(s, f);
        }
        if i < at {
            assert(gs[i] == f);
            assert(f.value_end < old.key_start);
            assert forall|k: int| f.key_start <= k < f.value_end implies #[trigger] s[k] == b[k
                + 0] by {
                assert(byte_at(s, 0 + k) == byte_at(b, 0 + k));
            }
            assert(f.shifted(0) == f);
            lemma_moved_field_is_same(s, f, b, 0);
        } else {
            assert(gs[i] == fs.skip(at + 1)[i - at - 1].shifted(by));
            assert(old.value_end < f.key_start);
            assert forall|k: int| f.key_start <= k < f.value_end implies #[trigger] s[k] == b[k
                + by] by {
                assert(s[old.value_end + (k - old.value_end)] == b[field.value_end + (k
                    - old.value_end)]);
            }
            lemma_moved_field_is_same(s, f, b, by);
        }
    }
}

/// Where the last field of a kind stands once the field at `at` was
/// written anew.
pub proof fn lemma_place_among_rewritten(
    s: Seq<u8>,
    at: int,
    field: FieldSpan,
    by: int,
    kind: FieldKind,
)
    requires
        object_fields(s) matches Ok(fields) && 0 <= at < fields.len(),
        last_place(s, object_fields(s)->Ok_0, kind) != at,
    ensures
        place_or_none(
            with_field_rewritten(object_fields(s)->Ok_0, at, field, by),
            last_place(s, object_fields(s)->Ok_0, kind),
        ) == place_after_edit(
            last_field(s, object_fields(s)->Ok_0, kind),
            (object_fields(s)->Ok_0)[at].value_end,
            by,
        ),
{
    let fs = object_fields(s)->Ok_0;
    let gs = with_field_rewritten(fs, at, field, by);
    lemma_last_place(s, fs, kind);
    lemma_fields_fit(s);
    let p = last_place(s, fs, kind);
    if p >= 0 {
        assert(is_field(s, fs[p]));
        assert(is_field(s, fs[at]));
        if p < at {
            assert(gs[p] == fs[p]);
            assert(fs[p].value_end < fs[at].key_start);
        } else {
            assert(gs[p] == fs.skip(at + 1)[p - at - 1].shifted(by));
            assert(fs[at].value_end < fs[p].key_start);
        }
    }
}

/// How the fields are read once the `Expires` field was written anew.
proof fn lemma_expires_replaced_fields(data: Seq<u8>, value: Seq<u8>)
    requires
        object_fields(data) is Ok,
        last_place(data, object_fields(data)->Ok_0, FieldKind::Expires) >= 0,
        is_plain(value),
    ensures
        ({
            let fs = object_fields(data)->Ok_0;
            let at = last_place(data, fs, FieldKind::Expires);
            let old = fs[at];
            let place = expires_span_at(old.key_start, value.len() as int);
            let b = data_with_expires_replaced(data, old, value);
            let gs = with_field_rewritten(fs, at, place, place.value_end - old.value_end);
            &&& object_fields(b) == Ok::<Seq<FieldSpan>, JsonParseError>(gs)
            &&& same_fields_but(data, fs, b, gs, at)
            &&& gs[at] == place
            &&& is_string_value(b, place)
            &&& string_content(b, place) == value
        }),
{
    let fs = object_fields(data)->Ok_0;
    lemma_names_differ();
    lemma_last_place(data, fs, FieldKind::Expires);
    let at = last_place(data, fs, FieldKind::Expires);
    let old = fs[at];
    let text = field_text(expires_name(), value);
    let b = data_with_expires_replaced(data, old, value);
    let place = expires_span_at(old.key_start, value.len() as int);
    lemma_fields_fit(data);
    assert(is_field(data, old));
    assert(expires_name().len() == 7);
    assert(expires_field(value) =~= text);
    assert(text.len() == value.len() + 12);
    lemma_part_replaced(data, old.key_start, old.value_end, text);
    lemma_field_text_is_read(b, old.key_start, expires_name(), value);
    assert(place == field_text_span(old.key_start, 7, value.len() as int));
    assert(is_field(b, place));
    lemma_field_rewritten(data, b, at, place);
    assert(field_name(b, place) == expires_name());
    lemma_rewritten_fields_are_same(data, b, at, place, old.key_start);
}

/// What a row's bytes say once their `Expires` field was written anew.
proof fn lemma_expires_replaced_is_read_back(data: Seq<u8>, value: Seq<u8>)
    requires
        parse_entity(data) is Ok,
        (parse_entity(data)->Ok_0).expires_value_position is Some,
        is_plain(value),
    ensures
        ({
            let entity = parse_entity(data)->Ok_0;
            let old = entity.expires_value_position->Some_0;
            let place = expires_span_at(old.key_start, value.len() as int);
            parse_entity(data_with_expires_replaced(data, old, value)) == Ok::<
                ParsedEntity,
                DbEntityParseFail,
            >(
                ParsedEntity {
                    partition_key: entity.partition_key,
                    row_key: entity.row_key,
                    expires: iso_instant(value),
                    time_stamp: entity.time_stamp,
                    timestamp_value_position: place_after_edit(
                        entity.timestamp_value_position,
                        old.value_end,
                        place.value_end - old.value_end,
                    ),
                    expires_value_position: Some(place),
                },
            )
        }),
{
    let fs = object_fields(data)->Ok_0;
    lemma_last_place(data, fs, FieldKind::Expires);
    lemma_last_place(data, fs, FieldKind::TimeStamp);
    let at = last_place(data, fs, FieldKind::Expires);
    let old = fs[at];
    let b = data_with_expires_replaced(data, old, value);
    let place = expires_span_at(old.key_start, value.len() as int);
    let by = place.value_end - old.value_end;
    let gs = with_field_rewritten(fs, at, place, by);
    lemma_expires_replaced_fields(data, value);
    lemma_entity_with_field_rewritten(data, b, gs, FieldKind::Expires);
    lemma_names_of_kinds_differ(field_name(data, fs[at]));
    lemma_place_among_rewritten(data, at, place, by, FieldKind::TimeStamp);
}

/// What a row's bytes say once an `Expires` field was put in front of
/// their fields.
proof fn lemma_expires_injected_is_read_back(data: Seq<u8>, value: Seq<u8>)
    requires
        parse_entity(data) is Ok,
        (parse_entity(data)->Ok_0).expires_value_position is None,
        is_plain(value),
    ensures
        ({
            let entity = parse_entity(data)->Ok_0;
            parse_entity(data_with_expires_injected(data, value)) == Ok::<
                ParsedEntity,
                DbEntityParseFail,
            >(
                ParsedEntity {
                    partition_key: entity.partition_key,
                    row_key: entity.row_key,
                    expires: iso_instant(value),
                    time_stamp: entity.time_stamp,
                    timestamp_value_position: moved_place(
                        entity.timestamp_value_position,
                        value.len() as int + 13,
                    ),
                    expires_value_position: Some(
                        expires_span_at(first_field_place(data), value.len() as int),
                    ),
                },
            )
        }),
{
    lemma_names_differ();
    assert(expires_name().len() == 7);
    lemma_parsed_places_behind_brace(data);
    lemma_entity_with_first_field(data, expires_name(), value);
    assert(data_with_expires_injected(data, value) =~= with_first_field(
        data,
        expires_name(),
        value,
    ));
    assert(expires_field(value) =~= field_text(expires_name(), value));
}

/// What a row's bytes say once an expiration was written into them: the
/// keys and the time stamp as before, and the expiration that the text
/// names, at the place that `expires_span_in` tells.
pub proof fn lemma_expires_is_read_back(data: Seq<u8>, value: Seq<u8>)
    requires
        parse_entity(data) is Ok,
        is_plain(value),
    ensures
        ({
            let entity = parse_entity(data)->Ok_0;
            let new = parse_entity(
                data_with_expires(data, entity.expires_value_position, value),
            );
            &&& new is Ok
            &&& new->Ok_0.partition_key == entity.partition_key
            &&& new->Ok_0.row_key == entity.row_key
            &&& new->Ok_0.expires == iso_instant(value)
            &&& new->Ok_0.time_stamp == entity.time_stamp
            &&& new->Ok_0.expires_value_position == Some(
                expires_span_in(data, entity.expires_value_position, value),
            )
        }),
{
    let entity = parse_entity(data)->Ok_0;
    match entity.expires_value_position {
        None => {
            lemma_expires_injected_is_read_back(data, value);
        },
        Some(old) => {
            lemma_expires_replaced_is_read_back(data, value);
        },
    }
}

/// How a field is read whose value was written anew as a string, the
/// bytes before the value left as they were.
pub proof fn lemma_value_rewritten_is_read(
    s: Seq<u8>,
    b: Seq<u8>,
    old: FieldSpan,
    text: Seq<u8>,
)
    requires
        is_field(s, old),
        is_plain(text),
        same_window(s, 0, b, 0, old.value_start),
        holds_at(b, old.value_start, seq![QUOTE] + text + seq![QUOTE]),
    ensures
        ({
            let place = FieldSpan {
                key_start: old.key_start,
                key_end: old.key_end,
                value_start: old.value_start,
                value_end: old.value_start + text.len() + 2,
            };
            &&& is_field(b, place)
            &&& field_name(b, place) == field_name(s, old)
            &&& is_string_value(b, place)
            &&& string_content(b, place) == text
        }),
{
    let place = FieldSpan {
        key_start: old.key_start,
        key_end: old.key_end,
        value_start: old.value_start,
        value_end: old.value_start + text.len() + 2,
    };
    let n = old.value_start;
    let part = seq![QUOTE] + text + seq![QUOTE];
    let colon = skip_spaces(s, old.key_end);
    lemma_skip_spaces_range(s, old.key_end);
    lemma_skip_spaces_range(s, colon + 1);
    assert(b[old.value_start + 0] == part[0]);
    let last = text.len() as int + 1;
    assert(b[old.value_start + last] == part[last]);
    assert forall|k: int| 0 <= k < text.len() implies b[old.value_start + 1 + k]
        == #[trigger] text[k] by {
        assert(b[old.value_start + (k + 1)] == part[k + 1]);
    }
    assert(byte_at(s, 0 + old.key_start) == byte_at(b, 0 + old.key_start));
    lemma_window_part(s, 0, b, 0, n, old.key_start + 1, n - (old.key_start + 1));
    lemma_string_end_alike(s, old.key_start + 1, b, old.key_start + 1, n - (old.key_start + 1));
    lemma_window_part(s, 0, b, 0, n, old.key_end, n - old.key_end);
    lemma_skip_spaces_alike(s, old.key_end, b, old.key_end, n - old.key_end);
    assert(byte_at(s, 0 + colon) == byte_at(b, 0 + colon));
    assert forall|k: int| colon + 1 <= k < old.value_start implies is_space(#[trigger] b[k]) by {
        assert(byte_at(s, 0 + k) == byte_at(b, 0 + k));
        assert(is_space(s[k]));
    }
    lemma_skip_spaces_is(b, colon + 1, old.value_start);
    lemma_plain_string_end(b, old.value_start + 1, text);
    assert(field_name(b, place) =~= field_name(s, old)) by {
        assert forall|k: int| 0 <= k < field_name(s, old).len() implies field_name(b, place)[k]
            == field_name(s, old)[k] by {
            assert(byte_at(s, 0 + (old.key_start + 1 + k)) == byte_at(
                b,
                0 + (old.key_start + 1 + k),
            ));
        }
    }
    assert(string_content(b, place) =~= text);
}

/// What a row's bytes say once a time stamp was put in front of their
/// fields.
proof fn lemma_time_stamp_injected_is_read_back(raw: Seq<u8>, text: Seq<u8>)
    requires
        parse_entity(raw) is Ok,
        (parse_entity(raw)->Ok_0).timestamp_value_position is None,
        is_plain(text),
        valid_utf8(text),
    ensures
        ({
            let entity = parse_entity(raw)->Ok_0;
            let new = parse_entity(data_with_time_stamp_injected(raw, text));
            &&& new is Ok
            &&& new->Ok_0.partition_key == entity.partition_key
            &&& new->Ok_0.row_key == entity.row_key
            &&& new->Ok_0.expires == entity.expires
            &&& new->Ok_0.time_stamp == Some(text)
            &&& new->Ok_0.timestamp_value_position is Some
            &&& new->Ok_0.expires_value_position == moved_place(
                entity.expires_value_position,
                text.len() as int + 15,
            )
        }),
{
    lemma_names_differ();
    assert(time_stamp_name().len() == 9);
    lemma_parsed_places_behind_brace(raw);
    lemma_entity_with_first_field(raw, time_stamp_name(), text);
    assert(data_with_time_stamp_injected(raw, text) =~= with_first_field(
        raw,
        time_stamp_name(),
        text,
    ));
}

/// The place of a field whose value was written anew as a string of
/// `text_len` bytes.
pub open spec fn with_value_len(old: FieldSpan, text_len: int) -> FieldSpan {
    FieldSpan {
        key_start: old.key_start,
        key_end: old.key_end,
        value_start: old.value_start,
        value_end: old.value_start + text_len + 2,
    }
}

/// How the fields are read once the value of the time stamp was written
/// anew.
proof fn lemma_time_stamp_replaced_fields(raw: Seq<u8>, text: Seq<u8>)
    requires
        object_fields(raw) is Ok,
        last_place(raw, object_fields(raw)->Ok_0, FieldKind::TimeStamp) >= 0,
        is_plain(text),
    ensures
        ({
            let fs = object_fields(raw)->Ok_0;
            let at = last_place(raw, fs, FieldKind::TimeStamp);
            let old = fs[at];
            let place = with_value_len(old, text.len() as int);
            let b = data_with_time_stamp_replaced(raw, old, text);
            let gs = with_field_rewritten(fs, at, place, place.value_end - old.value_end);
            &&& object_fields(b) == Ok::<Seq<FieldSpan>, JsonParseError>(gs)
            &&& same_fields_but(raw, fs, b, gs, at)
            &&& gs[at] == place
            &&& is_string_value(b, place)
            &&& string_content(b, place) == text
        }),
{
    let fs = object_fields(raw)->Ok_0;
    lemma_last_place(raw, fs, FieldKind::TimeStamp);
    let at = last_place(raw, fs, FieldKind::TimeStamp);
    let old = fs[at];
    let part = seq![QUOTE] + text + seq![QUOTE];
    let b = data_with_time_stamp_replaced(raw, old, text);
    let place = with_value_len(old, text.len() as int);
    let by = place.value_end - old.value_end;
    lemma_fields_fit(raw);
    assert(is_field(raw, old));
    assert(b =~= raw.subrange(0, old.value_start) + part + raw.subrange(
        old.value_end,
        raw.len() as int,
    ));
    lemma_part_replaced(raw, old.value_start, old.value_end, part);
    lemma_value_rewritten_is_read(raw, b, old, text);
    lemma_window_part(raw, 0, b, 0, old.value_start, 0, old.key_start);
    lemma_field_rewritten(raw, b, at, place);
    lemma_rewritten_fields_are_same(raw, b, at, place, old.value_start);
}

/// What a row's bytes say once the value of their time stamp was written
/// anew.
#[verifier::rlimit(30)]
proof fn lemma_time_stamp_replaced_is_read_back(raw: Seq<u8>, text: Seq<u8>)
    requires
        parse_entity(raw) is Ok,
        (parse_entity(raw)->Ok_0).timestamp_value_position is Some,
        is_plain(text),
        valid_utf8(text),
    ensures
        ({
            let entity = parse_entity(raw)->Ok_0;
            let old = entity.timestamp_value_position->Some_0;
            let new = parse_entity(data_with_time_stamp_replaced(raw, old, text));
            &&& new is Ok
            &&& new->Ok_0.partition_key == entity.partition_key
            &&& new->Ok_0.row_key == entity.row_key
            &&& new->Ok_0.expires == entity.expires
            &&& new->Ok_0.time_stamp == Some(text)
            &&& new->Ok_0.timestamp_value_position is Some
            &&& new->Ok_0.expires_value_position == place_after_edit(
                entity.expires_value_position,
                old.value_end,
                text.len() as int + 2 - (old.value_end - old.value_start),
            )
        }),
{
    let entity = parse_entity(raw)->Ok_0;
    let fs = object_fields(raw)->Ok_0;
    lemma_last_place(raw, fs, FieldKind::Expires);
    lemma_last_place(raw, fs, FieldKind::TimeStamp);
    let at = last_place(raw, fs, FieldKind::TimeStamp);
    let old = fs[at];
    let b = data_with_time_stamp_replaced(raw, old, text);
    let place = with_value_len(old, text.len() as int);
    let by = place.value_end - old.value_end;
    let gs = with_field_rewritten(fs, at, place, by);
    lemma_time_stamp_replaced_fields(raw, text);
    lemma_entity_with_field_rewritten(raw, b, gs, FieldKind::TimeStamp);
    lemma_names_of_kinds_differ(field_name(raw, fs[at]));
    lemma_place_among_rewritten(raw, at, place, by, FieldKind::Expires);
}

/// What a row's bytes say once a time stamp was written into them: the
/// keys and the expiration as before, the expiration at the place that
/// `moved_span` tells, and the time stamp that was written.
pub proof fn lemma_time_stamp_is_read_back(raw: Seq<u8>, text: Seq<u8>)
    requires
        parse_entity(raw) is Ok,
        is_plain(text),
        valid_utf8(text),
    ensures
        ({
            let entity = parse_entity(raw)->Ok_0;
            let new = parse_entity(row_content(raw, entity.timestamp_value_position, text));
            &&& new is Ok
            &&& new->Ok_0.partition_key == entity.partition_key
            &&& new->Ok_0.row_key == entity.row_key
            &&& new->Ok_0.expires == entity.expires
            &&& new->Ok_0.time_stamp == Some(text)
            &&& new->Ok_0.timestamp_value_position is Some
            &&& new->Ok_0.expires_value_position == match entity.expires_value_position {
                Some(p) => Some(
                    moved_span(p, raw, entity.timestamp_value_position, text.len() as int),
                ),
                None => None,
            }
        }),
{
    let entity = parse_entity(raw)->Ok_0;
    lemma_parsed_places_behind_brace(raw);
    match entity.timestamp_value_position {
        None => {
            lemma_time_stamp_injected_is_read_back(raw, text);
        },
        Some(old) => {
            lemma_time_stamp_replaced_is_read_back(raw, text);
        },
    }
}

/// A byte that is no space, with only spaces between it and a place, is
/// the last mark before the place.
pub proof fn lemma_last_mark_before_is(s: Seq<u8>, before: int, mark: int)
    requires
        0 <= mark < before <= s.len(),
        !is_space(s[mark]),
        forall|k: int| mark < k < before ==> is_space(#[trigger] s[k]),
    ensures
        last_mark_before(s, before) == mark,
    decreases before - mark,
{
    if mark + 1 < before {
        lemma_last_mark_before_is(s, before - 1, mark);
    }
}

/// Whether the fields `gs` of `b` hold, one by one, the bytes of the
/// fields `fs` of `a` without the one at `at`.
pub open spec fn same_fields_without(
    a: Seq<u8>,
    fs: Seq<FieldSpan>,
    b: Seq<u8>,
    gs: Seq<FieldSpan>,
    at: int,
) -> bool {
    &&& gs.len() == fs.len() - 1
    &&& 0 <= at < fs.len()
    &&& forall|i: int|
        0 <= i < at ==> same_field(a, #[trigger] fs[i], b, gs[i]) && (is_string_value(a, fs[i])
            ==> fs[i].value_start + 2 <= fs[i].value_end)
    &&& forall|i: int|
        at < i < fs.len() ==> same_field(a, #[trigger] fs[i], b, gs[i - 1]) && (is_string_value(
            a,
            fs[i],
        ) ==> fs[i].value_start + 2 <= fs[i].value_end)
}

/// By how many bytes the fields behind an `Expires` field move when it is
/// taken out.
pub open spec fn move_by_removal(data: Seq<u8>, old: FieldSpan) -> int {
    let behind = skip_spaces(data, old.value_end);
    if behind < data.len() && data[behind] == COMMA {
        old.key_start - (behind + 1)
    } else {
        0
    }
}

/// The fields before the one at `at` hold their bytes in a text that holds
/// the same bytes up to `kept`.
proof fn lemma_fields_before_are_same(s: Seq<u8>, b: Seq<u8>, at: int, kept: int)
    requires
        object_fields(s) matches Ok(fields) && 0 <= at < fields.len(),
        same_window(s, 0, b, 0, kept),
        kept <= b.len(),
        kept <= s.len(),
        at > 0 ==> (object_fields(s)->Ok_0)[at - 1].value_end <= kept,
    ensures
        forall|i: int|
            0 <= i < at ==> same_field(
                s,
                #[trigger] (object_fields(s)->Ok_0)[i],
                b,
                (object_fields(s)->Ok_0)[i],
            ) && (is_string_value(s, (object_fields(s)->Ok_0)[i]) ==> (object_fields(
                s,
            )->Ok_0)[i].value_start + 2 <= (object_fields(s)->Ok_0)[i].value_end),
{
    let fs = object_fields(s)->Ok_0;
    lemma_fields_fit(s);
    assert forall|i: int| 0 <= i < at implies same_field(s, #[trigger] fs[i], b, fs[i]) && (
    is_string_value(s, fs[i]) ==> fs[i].value_start + 2 <= fs[i].value_end) by {
        let f = fs[i];
        assert(is_field(s, f));
        assert(is_field(s, fs[at - 1]));
        if i < at - 1 {
            assert(f.value_end < fs[at - 1].key_start);
        }
        if is_string_value(s, f) {
            lemma_string_value_has_quotes(s, f);
        }
        assert forall|k: int| f.key_start <= k < f.value_end implies #[trigger] s[k] == b[k
            + 0] by {
            assert(byte_at(s, 0 + k) == byte_at(b, 0 + k));
        }
        assert(f.shifted(0) == f);
        lemma_moved_field_is_same(s, f, b, 0);
    }
}

/// Where reading of the field at `at` begins: behind the `{` for the first
/// field, behind the comma of the field before it for another.
pub open spec fn reading_start(s: Seq<u8>, fields: Seq<FieldSpan>, at: int) -> int {
    if at == 0 {
        skip_spaces(s, 0) + 1
    } else {
        behind_field(s, fields[at - 1])
    }
}

/// What stands around a field of an object.
pub proof fn lemma_field_surroundings(s: Seq<u8>, at: int)
    requires
        object_fields(s) matches Ok(fields) && 0 <= at < fields.len(),
    ensures
        ({
            let fs = object_fields(s)->Ok_0;
            let old = fs[at];
            let open = skip_spaces(s, 0);
            let start = reading_start(s, fs, at);
            let behind = skip_spaces(s, old.value_end);
            &&& 0 <= open < start <= old.key_start
            &&& s[open] == OPEN_BRACE
            &&& forall|k: int| 0 <= k < open ==> is_space(#[trigger] s[k])
            &&& is_field(s, old)
            &&& forall|k: int| start <= k < old.key_start ==> is_space(#[trigger] s[k])
            &&& at > 0 ==> s[start - 1] == COMMA && is_field(s, fs[at - 1]) && fs[at
                - 1].value_end <= start - 1 && start - 1 == skip_spaces(s, fs[at - 1].value_end)
            &&& old.value_end <= behind < s.len()
            &&& forall|k: int| old.value_end <= k < behind ==> is_space(#[trigger] s[k])
            &&& (s[behind] == COMMA || s[behind] == CLOSE_BRACE)
            &&& s[behind] == CLOSE_BRACE ==> at == fs.len() - 1
            &&& s[behind] == COMMA ==> fields_from(s, behind + 1) == Ok::<
                Seq<FieldSpan>,
                JsonParseError,
            >(fs.skip(at + 1)) && forall|i: int|
                at < i < fs.len() ==> behind + 1 <= (#[trigger] fs[i]).key_start
        }),
{
    let fs = object_fields(s)->Ok_0;
    let old = fs[at];
    let open = skip_spaces(s, 0);
    let from = open + 1;
    lemma_skip_spaces_range(s, 0);
    lemma_fields_fit(s);
    lemma_fields_from_are_fields(s, from);
    lemma_window_self(s, from, old.key_start - from);
    lemma_fields_up_to(s, s, from, at);
    let start = reading_start(s, fs, at);
    lemma_first_field(s, start);
    assert(fs.skip(at)[0] == old);
    lemma_skip_spaces_range(s, start);
    lemma_skip_spaces_range(s, old.value_end);
    let behind = skip_spaces(s, old.value_end);
    if at > 0 {
        assert(is_field(s, fs[at - 1]));
    }
    if s[behind] == COMMA {
        assert(fs.skip(at).skip(1) =~= fs.skip(at + 1));
        lemma_fields_from_are_fields(s, behind + 1);
        assert forall|i: int| at < i < fs.len() implies behind + 1 <= (
        #[trigger] fs[i]).key_start by {
            assert(fs.skip(at + 1)[i - at - 1] == fs[i]);
        }
    } else {
        assert(fs.skip(at).len() == 1);
    }
}

/// How the fields are read once a field was taken out with the comma
/// behind it.
proof fn lemma_removed_with_comma_behind(data: Seq<u8>, at: int)
    requires
        object_fields(data) matches Ok(fields) && 0 <= at < fields.len(),
        data[skip_spaces(data, (object_fields(data)->Ok_0)[at].value_end)] == COMMA,
    ensures
        ({
            let fs = object_fields(data)->Ok_0;
            let old = fs[at];
            let behind = skip_spaces(data, old.value_end);
            let b = data.subrange(0, old.key_start) + data.subrange(
                behind + 1,
                data.len() as int,
            );
            let gs = with_field_removed(fs, at, old.key_start - (behind + 1));
            &&& object_fields(b) == Ok::<Seq<FieldSpan>, JsonParseError>(gs)
            &&& same_fields_without(data, fs, b, gs, at)
        }),
{
    let fs = object_fields(data)->Ok_0;
    let old = fs[at];
    let behind = skip_spaces(data, old.value_end);
    let by = old.key_start - (behind + 1);
    let b = data.subrange(0, old.key_start) + data.subrange(behind + 1, data.len() as int);
    let gs = with_field_removed(fs, at, by);
    let open = skip_spaces(data, 0);
    let from = open + 1;
    let none = Seq::<u8>::empty();
    lemma_field_surroundings(data, at);
    lemma_fields_fit(data);
    assert(b =~= data.subrange(0, old.key_start) + none + data.subrange(
        behind + 1,
        data.len() as int,
    ));
    lemma_part_replaced(data, old.key_start, behind + 1, none);
    lemma_skip_spaces_alike(data, 0, b, 0, old.key_start);
    assert(byte_at(data, 0 + open) == byte_at(b, 0 + open));
    lemma_window_part(data, 0, b, 0, old.key_start, from, old.key_start - from);
    lemma_field_removed_with_comma_behind(data, b, from, at);
    lemma_fields_before_are_same(data, b, at, old.key_start);
    assert forall|i: int| at < i < fs.len() implies same_field(data, #[trigger] fs[i], b, gs[i - 1])
        && (is_string_value(data, fs[i]) ==> fs[i].value_start + 2 <= fs[i].value_end) by {
        let f = fs[i];
        assert(is_field(data, f));
        if is_string_value(data, f) {
            lemma_string_value_has_quotes(data, f);
        }
        assert(gs[i - 1] == fs.skip(at + 1)[i - at - 1].shifted(by));
        assert forall|k: int| f.key_start <= k < f.value_end implies #[trigger] data[k] == b[k
            + by] by {
            assert(data[behind + 1 + (k - behind - 1)] == b[old.key_start + (k - behind - 1)]);
        }
        lemma_moved_field_is_same(data, f, b, by);
    }
}

/// How the fields are read once the last field was taken out with the
/// comma before it.
proof fn lemma_removed_with_comma_before(data: Seq<u8>, at: int)
    requires
        object_fields(data) matches Ok(fields) && 1 <= at < fields.len(),
        data[skip_spaces(data, (object_fields(data)->Ok_0)[at].value_end)] != COMMA,
    ensures
        ({
            let fs = object_fields(data)->Ok_0;
            let old = fs[at];
            let comma = last_mark_before(data, old.key_start);
            let b = data.subrange(0, comma) + data.subrange(old.value_end, data.len() as int);
            let gs = with_field_removed(fs, at, 0);
            &&& 0 <= comma
            &&& data[comma] == COMMA
            &&& object_fields(b) == Ok::<Seq<FieldSpan>, JsonParseError>(gs)
            &&& same_fields_without(data, fs, b, gs, at)
        }),
{
    let fs = object_fields(data)->Ok_0;
    let old = fs[at];
    let b = data.subrange(0, reading_start(data, fs, at) - 1) + data.subrange(
        old.value_end,
        data.len() as int,
    );
    let gs = with_field_removed(fs, at, 0);
    let open = skip_spaces(data, 0);
    let from = open + 1;
    let none = Seq::<u8>::empty();
    lemma_field_surroundings(data, at);
    lemma_fields_fit(data);
    let comma = reading_start(data, fs, at) - 1;
    lemma_last_mark_before_is(data, old.key_start, comma);
    assert(fs.skip(at + 1) =~= Seq::empty());
    assert(gs =~= fs.take(at));
    assert(b =~= data.subrange(0, comma) + none + data.subrange(
        old.value_end,
        data.len() as int,
    ));
    lemma_part_replaced(data, comma, old.value_end, none);
    lemma_fields_from_are_fields(data, from);
    assert(from <= fs[at - 1].key_start);
    lemma_skip_spaces_alike(data, 0, b, 0, comma);
    assert(byte_at(data, 0 + open) == byte_at(b, 0 + open));
    lemma_window_part(data, 0, b, 0, comma, from, comma - from);
    lemma_last_field_removed_with_comma_before(data, b, from, at);
    lemma_fields_before_are_same(data, b, at, comma);
}

/// How the fields are read once the only field was taken out.
proof fn lemma_removed_alone(data: Seq<u8>)
    requires
        object_fields(data) matches Ok(fields) && 1 <= fields.len(),
        data[skip_spaces(data, (object_fields(data)->Ok_0)[0].value_end)] != COMMA,
    ensures
        ({
            let fs = object_fields(data)->Ok_0;
            let old = fs[0];
            let b = data.subrange(0, old.key_start) + data.subrange(
                old.value_end,
                data.len() as int,
            );
            let gs = with_field_removed(fs, 0, 0);
            &&& last_mark_before(data, old.key_start) == skip_spaces(data, 0)
            &&& data[skip_spaces(data, 0)] != COMMA
            &&& object_fields(b) == Ok::<Seq<FieldSpan>, JsonParseError>(gs)
            &&& same_fields_without(data, fs, b, gs, 0)
        }),
{
    let fs = object_fields(data)->Ok_0;
    let old = fs[0];
    let b = data.subrange(0, old.key_start) + data.subrange(old.value_end, data.len() as int);
    let gs = with_field_removed(fs, 0, 0);
    let open = skip_spaces(data, 0);
    let from = open + 1;
    let none = Seq::<u8>::empty();
    lemma_field_surroundings(data, 0);
    lemma_last_mark_before_is(data, old.key_start, open);
    assert(fs.skip(1) =~= Seq::empty());
    assert(gs =~= Seq::empty());
    assert(b =~= data.subrange(0, old.key_start) + none + data.subrange(
        old.value_end,
        data.len() as int,
    ));
    lemma_part_replaced(data, old.key_start, old.value_end, none);
    lemma_skip_spaces_alike(data, 0, b, 0, old.key_start);
    assert(byte_at(data, 0 + open) == byte_at(b, 0 + open));
    lemma_window_part(data, 0, b, 0, old.key_start, from, old.key_start - from);
    lemma_only_field_removed(data, b, from);
}

/// How the fields are read once the `Expires` field was taken out.
pub proof fn lemma_expires_removed_fields(data: Seq<u8>)
    requires
        object_fields(data) is Ok,
        last_place(data, object_fields(data)->Ok_0, FieldKind::Expires) >= 0,
    ensures
        ({
            let fs = object_fields(data)->Ok_0;
            let at = last_place(data, fs, FieldKind::Expires);
            let old = fs[at];
            let b = data_without_expires(data, Some(old));
            let gs = with_field_removed(fs, at, move_by_removal(data, old));
            &&& object_fields(b) == Ok::<Seq<FieldSpan>, JsonParseError>(gs)
            &&& same_fields_without(data, fs, b, gs, at)
        }),
{
    let fs = object_fields(data)->Ok_0;
    lemma_last_place(data, fs, FieldKind::Expires);
    let at = last_place(data, fs, FieldKind::Expires);
    let old = fs[at];
    lemma_field_surroundings(data, at);
    let behind = skip_spaces(data, old.value_end);
    if data[behind] == COMMA {
        lemma_removed_with_comma_behind(data, at);
    } else if at > 0 {
        lemma_removed_with_comma_before(data, at);
    } else {
        lemma_removed_alone(data);
    }
}

/// Whether an object has one `Expires` field at most.
pub open spec fn has_one_expires_at_most(data: Seq<u8>) -> bool {
    object_fields(data) matches Ok(fields) && forall|i: int|
        0 <= i < last_place(data, fields, FieldKind::Expires) ==> !is_name_of(
            field_name(data, #[trigger] fields[i]),
            FieldKind::Expires,
        )
}

/// Where the last field of a kind stands once another field was taken out.
pub proof fn lemma_last_place_without(
    a: Seq<u8>,
    fs: Seq<FieldSpan>,
    b: Seq<u8>,
    gs: Seq<FieldSpan>,
    at: int,
    kind: FieldKind,
)
    requires
        same_fields_without(a, fs, b, gs, at),
        last_place(a, fs, kind) != at,
        !is_name_of(field_name(a, fs[at]), kind),
    ensures
        last_place(b, gs, kind) == if last_place(a, fs, kind) < at {
            last_place(a, fs, kind)
        } else {
            last_place(a, fs, kind) - 1
        },
        last_place(a, fs, kind) >= 0 ==> same_field(
            a,
            fs[last_place(a, fs, kind)],
            b,
            gs[last_place(b, gs, kind)],
        ) && (is_string_value(a, fs[last_place(a, fs, kind)]) ==> fs[last_place(
            a,
            fs,
            kind,
        )].value_start + 2 <= fs[last_place(a, fs, kind)].value_end),
{
    lemma_last_place(a, fs, kind);
    let p = last_place(a, fs, kind);
    let q = if p < at {
        p
    } else {
        p - 1
    };
    if p >= 0 {
        assert(same_field(a, fs[p], b, gs[q]));
        lemma_same_field_says_the_same(a, fs[p], b, gs[q]);
    }
    assert forall|j: int| q < j < gs.len() implies !is_name_of(
        field_name(b, #[trigger] gs[j]),
        kind,
    ) by {
        let i = if j < at {
            j
        } else {
            j + 1
        };
        assert(same_field(a, fs[i], b, gs[j]));
        lemma_same_field_says_the_same(a, fs[i], b, gs[j]);
        assert(i > p);
    }
    lemma_last_place_is(b, gs, kind, q);
}

/// What a row's bytes say once their one `Expires` field was taken out:
/// the keys and the time stamp as before, and no expiration.
pub proof fn lemma_expires_removed_is_read_back(data: Seq<u8>)
    requires
        parse_entity(data) is Ok,
        has_one_expires_at_most(data),
    ensures
        ({
            let entity = parse_entity(data)->Ok_0;
            let new = parse_entity(data_without_expires(data, entity.expires_value_position));
            &&& new is Ok
            &&& new->Ok_0.partition_key == entity.partition_key
            &&& new->Ok_0.row_key == entity.row_key
            &&& new->Ok_0.time_stamp == entity.time_stamp
            &&& new->Ok_0.expires is None
            &&& new->Ok_0.expires_value_position is None
            &&& has_one_expires_at_most(
                data_without_expires(data, entity.expires_value_position),
            )
        }),
{
    let entity = parse_entity(data)->Ok_0;
    let fs = object_fields(data)->Ok_0;
    lemma_last_place(data, fs, FieldKind::Expires);
    let at = last_place(data, fs, FieldKind::Expires);
    if at >= 0 {
        let old = fs[at];
        let b = data_without_expires(data, Some(old));
        let gs = with_field_removed(fs, at, move_by_removal(data, old));
        lemma_expires_removed_fields(data);
        lemma_names_of_kinds_differ(field_name(data, old));
        lemma_last_place(data, fs, FieldKind::PartitionKey);
        lemma_last_place(data, fs, FieldKind::RowKey);
        lemma_last_place(data, fs, FieldKind::TimeStamp);
        lemma_last_place_without(data, fs, b, gs, at, FieldKind::PartitionKey);
        lemma_last_place_without(data, fs, b, gs, at, FieldKind::RowKey);
        lemma_last_place_without(data, fs, b, gs, at, FieldKind::TimeStamp);
        lemma_last_place(b, gs, FieldKind::PartitionKey);
        lemma_last_place(b, gs, FieldKind::RowKey);
        lemma_last_place(b, gs, FieldKind::TimeStamp);
        let pk = last_place(data, fs, FieldKind::PartitionKey);
        let rk = last_place(data, fs, FieldKind::RowKey);
        let ts = last_place(data, fs, FieldKind::TimeStamp);
        lemma_same_field_says_the_same(
            data,
            fs[pk],
            b,
            gs[last_place(b, gs, FieldKind::PartitionKey)],
        );
        lemma_same_field_says_the_same(data, fs[rk], b, gs[last_place(b, gs, FieldKind::RowKey)]);
        if ts >= 0 {
            lemma_same_field_says_the_same(
                data,
                fs[ts],
                b,
                gs[last_place(b, gs, FieldKind::TimeStamp)],
            );
        }
        assert forall|j: int| 0 <= j < gs.len() implies !is_name_of(
            field_name(b, #[trigger] gs[j]),
            FieldKind::Expires,
        ) by {
            let i = if j < at {
                j
            } else {
                j + 1
            };
            assert(same_field(data, fs[i], b, gs[j]));
            lemma_same_field_says_the_same(data, fs[i], b, gs[j]);
        }
        lemma_last_place_is(b, gs, FieldKind::Expires, -1);
        lemma_last_place(b, gs, FieldKind::Expires);
        assert(parse_entity(b) == entity_of_fields(b, gs));
    }
}

} // verus!
