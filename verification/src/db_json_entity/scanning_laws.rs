use vstd::prelude::*;
use crate::db_json_entity::error::JsonParseError;
use crate::db_json_entity::first_line_reader::{
    ends_literal, fields_from, is_field, is_space, lemma_fields_from_are_fields,
    lemma_literal_end_range,
    lemma_nested_end_range, lemma_skip_spaces_range, lemma_string_end_range,
    lemma_value_end_range, literal_end, nested_end, skip_spaces, string_end, value_end,
    object_fields, with_field_in_front, with_fields_in_front, BACKSLASH, CLOSE_BRACE,
    CLOSE_BRACKET, COLON, COMMA, OPEN_BRACE, OPEN_BRACKET, QUOTE,
};
use crate::db_json_entity::json_key_value_position::FieldSpan;

verus! {

/// The byte at a place, or -1 where the text has none there.
pub open spec fn byte_at(s: Seq<u8>, at: int) -> int {
    if 0 <= at < s.len() {
        s[at] as int
    } else {
        -1
    }
}

/// Whether `a` from `i` on and `b` from `j` on hold the same `n` bytes;
/// the end of a text counts as a byte of its own.
pub open spec fn same_window(a: Seq<u8>, i: int, b: Seq<u8>, j: int, n: int) -> bool {
    &&& 0 <= i
    &&& 0 <= j
    &&& forall|k: int| 0 <= k < n ==> byte_at(a, i + k) == #[trigger] byte_at(b, j + k)
}

/// A window within a window.
pub proof fn lemma_window_part(a: Seq<u8>, i: int, b: Seq<u8>, j: int, n: int, from: int, m: int)
    requires
        same_window(a, i, b, j, n),
        0 <= from,
        from + m <= n,
    ensures
        same_window(a, i + from, b, j + from, m),
{
    assert forall|k: int| 0 <= k < m implies byte_at(a, i + from + k) == #[trigger] byte_at(
        b,
        j + from + k,
    ) by {
        assert(byte_at(a, i + (from + k)) == byte_at(b, j + (from + k)));
    }
}

/// Spaces are skipped alike in windows that hold the same bytes.
pub proof fn lemma_skip_spaces_alike(a: Seq<u8>, i: int, b: Seq<u8>, j: int, n: int)
    requires
        same_window(a, i, b, j, n),
        skip_spaces(a, i) < i + n,
    ensures
        skip_spaces(b, j) == skip_spaces(a, i) - i + j,
    decreases n,
{
    if i <= a.len() {
        lemma_skip_spaces_range(a, i);
    }
    assert(byte_at(a, i + 0) == byte_at(b, j + 0));
    if 0 <= i < a.len() && is_space(a[i]) {
        lemma_window_part(a, i, b, j, n, 1, n - 1);
        lemma_skip_spaces_alike(a, i + 1, b, j + 1, n - 1);
    }
}

/// Strings end alike in windows that hold the same bytes.
pub proof fn lemma_string_end_alike(a: Seq<u8>, i: int, b: Seq<u8>, j: int, n: int)
    requires
        same_window(a, i, b, j, n),
        string_end(a, i) matches Some(end) && end <= i + n,
    ensures
        string_end(b, j) == Some(string_end(a, i).unwrap() - i + j),
    decreases n,
{
    lemma_string_end_range(a, i);
    assert(byte_at(a, i + 0) == byte_at(b, j + 0));
    if a[i] == QUOTE {
    } else if a[i] == BACKSLASH {
        lemma_string_end_range(a, i + 2);
        assert(byte_at(a, i + 1) == byte_at(b, j + 1));
        lemma_window_part(a, i, b, j, n, 2, n - 2);
        lemma_string_end_alike(a, i + 2, b, j + 2, n - 2);
    } else {
        lemma_string_end_range(a, i + 1);
        lemma_window_part(a, i, b, j, n, 1, n - 1);
        lemma_string_end_alike(a, i + 1, b, j + 1, n - 1);
    }
}

/// Objects and arrays end alike in windows that hold the same bytes.
pub proof fn lemma_nested_end_alike(a: Seq<u8>, i: int, b: Seq<u8>, j: int, n: int, depth: nat)
    requires
        same_window(a, i, b, j, n),
        nested_end(a, i, depth) matches Some(end) && end <= i + n,
    ensures
        nested_end(b, j, depth) == Some(nested_end(a, i, depth).unwrap() - i + j),
    decreases n,
{
    lemma_nested_end_range(a, i, depth);
    assert(byte_at(a, i + 0) == byte_at(b, j + 0));
    if a[i] == QUOTE {
        lemma_string_end_range(a, i + 1);
        let behind = string_end(a, i + 1).unwrap();
        lemma_nested_end_range(a, behind, depth);
        lemma_window_part(a, i, b, j, n, 1, n - 1);
        lemma_string_end_alike(a, i + 1, b, j + 1, n - 1);
        lemma_string_end_range(b, j + 1);
        lemma_window_part(a, i, b, j, n, behind - i, n - (behind - i));
        lemma_nested_end_alike(a, behind, b, behind - i + j, n - (behind - i), depth);
    } else if a[i] == OPEN_BRACE || a[i] == OPEN_BRACKET {
        lemma_nested_end_range(a, i + 1, depth + 1);
        lemma_window_part(a, i, b, j, n, 1, n - 1);
        lemma_nested_end_alike(a, i + 1, b, j + 1, n - 1, depth + 1);
    } else if a[i] == CLOSE_BRACE || a[i] == CLOSE_BRACKET {
        if depth > 1 {
            lemma_nested_end_range(a, i + 1, (depth - 1) as nat);
            lemma_window_part(a, i, b, j, n, 1, n - 1);
            lemma_nested_end_alike(a, i + 1, b, j + 1, n - 1, (depth - 1) as nat);
        }
    } else {
        lemma_nested_end_range(a, i + 1, depth);
        lemma_window_part(a, i, b, j, n, 1, n - 1);
        lemma_nested_end_alike(a, i + 1, b, j + 1, n - 1, depth);
    }
}

/// Numbers and words end alike in windows that hold the same bytes.
pub proof fn lemma_literal_end_alike(a: Seq<u8>, i: int, b: Seq<u8>, j: int, n: int)
    requires
        same_window(a, i, b, j, n),
        literal_end(a, i) < i + n,
    ensures
        literal_end(b, j) == literal_end(a, i) - i + j,
    decreases n,
{
    if i <= a.len() {
        lemma_literal_end_range(a, i);
    }
    assert(byte_at(a, i + 0) == byte_at(b, j + 0));
    if 0 <= i < a.len() && !ends_literal(a[i]) {
        lemma_window_part(a, i, b, j, n, 1, n - 1);
        lemma_literal_end_alike(a, i + 1, b, j + 1, n - 1);
    }
}

/// Whether the value that starts at a place is a number or a word.
pub open spec fn is_literal_at(s: Seq<u8>, at: int) -> bool {
    0 <= at < s.len() && s[at] != QUOTE && s[at] != OPEN_BRACE && s[at] != OPEN_BRACKET
}

/// Values end alike in windows that hold the same bytes. A number or a
/// word ends with the byte behind it, so the window holds that one too.
pub proof fn lemma_value_end_alike(a: Seq<u8>, i: int, b: Seq<u8>, j: int, n: int)
    requires
        same_window(a, i, b, j, n),
        value_end(a, i) matches Some(end) && end <= i + n && (is_literal_at(a, i) ==> end < i
            + n),
    ensures
        value_end(b, j) == Some(value_end(a, i).unwrap() - i + j),
{
    lemma_value_end_range(a, i);
    assert(byte_at(a, i + 0) == byte_at(b, j + 0));
    lemma_window_part(a, i, b, j, n, 1, n - 1);
    if a[i] == QUOTE {
        lemma_string_end_alike(a, i + 1, b, j + 1, n - 1);
    } else if a[i] == OPEN_BRACE || a[i] == OPEN_BRACKET {
        lemma_nested_end_alike(a, i + 1, b, j + 1, n - 1, 1);
    } else {
        lemma_literal_end_alike(a, i + 1, b, j + 1, n - 1);
    }
}

/// The fields, each moved by `by`.
pub open spec fn moved(fields: Seq<FieldSpan>, by: int) -> Seq<FieldSpan> {
    fields.map_values(|field: FieldSpan| field.shifted(by))
}

/// Whether `a` from `i` on and `b` from `j` on hold the same bytes up to
/// their ends.
pub open spec fn same_tail(a: Seq<u8>, i: int, b: Seq<u8>, j: int) -> bool {
    &&& 0 <= i <= a.len()
    &&& 0 <= j <= b.len()
    &&& a.len() - i == b.len() - j
    &&& forall|k: int| 0 <= k < a.len() - i ==> a[i + k] == #[trigger] b[j + k]
}

pub proof fn lemma_tail_is_window(a: Seq<u8>, i: int, b: Seq<u8>, j: int, n: int)
    requires
        same_tail(a, i, b, j),
    ensures
        same_window(a, i, b, j, n),
{
    assert forall|k: int| 0 <= k < n implies byte_at(a, i + k) == #[trigger] byte_at(b, j + k) by {
        if i + k < a.len() {
            assert(a[i + k] == b[j + k]);
        }
    }
}

pub proof fn lemma_tail_part(a: Seq<u8>, i: int, b: Seq<u8>, j: int, from: int)
    requires
        same_tail(a, i, b, j),
        0 <= from <= a.len() - i,
    ensures
        same_tail(a, i + from, b, j + from),
{
    assert forall|k: int| 0 <= k < a.len() - (i + from) implies a[i + from + k] == #[trigger] b[j
        + from + k] by {
        assert(a[i + (from + k)] == b[j + (from + k)]);
    }
}

/// The fields of texts that hold the same bytes from two places on are
/// the same, moved by the distance of the places.
pub proof fn lemma_fields_from_tail(a: Seq<u8>, i: int, b: Seq<u8>, j: int)
    requires
        same_tail(a, i, b, j),
        fields_from(a, i) is Ok,
    ensures
        fields_from(b, j) == Ok::<Seq<FieldSpan>, JsonParseError>(
            moved(fields_from(a, i)->Ok_0, j - i),
        ),
    decreases a.len() - i,
{
    let n = a.len() - i + 1;
    let by = j - i;
    lemma_tail_is_window(a, i, b, j, n);
    lemma_skip_spaces_range(a, i);
    let key_start = skip_spaces(a, i);
    lemma_skip_spaces_alike(a, i, b, j, n);
    assert(byte_at(a, i + (key_start - i)) == byte_at(b, j + (key_start - i)));
    let fields = fields_from(a, i)->Ok_0;
    if a[key_start] == CLOSE_BRACE {
        assert(moved(fields, by) =~= Seq::empty());
    } else {
        lemma_string_end_range(a, key_start + 1);
        let key_end = string_end(a, key_start + 1).unwrap();
        lemma_window_part(a, i, b, j, n, key_start + 1 - i, n - (key_start + 1 - i));
        lemma_string_end_alike(a, key_start + 1, b, key_start + 1 + by, n - (key_start + 1 - i));
        lemma_skip_spaces_range(a, key_end);
        let colon = skip_spaces(a, key_end);
        lemma_window_part(a, i, b, j, n, key_end - i, n - (key_end - i));
        lemma_skip_spaces_alike(a, key_end, b, key_end + by, n - (key_end - i));
        assert(byte_at(a, i + (colon - i)) == byte_at(b, j + (colon - i)));
        lemma_skip_spaces_range(a, colon + 1);
        let value_start = skip_spaces(a, colon + 1);
        lemma_window_part(a, i, b, j, n, colon + 1 - i, n - (colon + 1 - i));
        lemma_skip_spaces_alike(a, colon + 1, b, colon + 1 + by, n - (colon + 1 - i));
        lemma_value_end_range(a, value_start);
        let value_end = value_end(a, value_start).unwrap();
        lemma_window_part(a, i, b, j, n, value_start - i, n - (value_start - i));
        lemma_value_end_alike(a, value_start, b, value_start + by, n - (value_start - i));
        lemma_skip_spaces_range(a, value_end);
        let next = skip_spaces(a, value_end);
        lemma_window_part(a, i, b, j, n, value_end - i, n - (value_end - i));
        lemma_skip_spaces_alike(a, value_end, b, value_end + by, n - (value_end - i));
        assert(byte_at(a, i + (next - i)) == byte_at(b, j + (next - i)));
        let field = FieldSpan { key_start, key_end, value_start, value_end };
        if a[next] == CLOSE_BRACE {
            assert(moved(fields, by) =~= seq![field.shifted(by)]);
        } else {
            lemma_tail_part(a, i, b, j, next + 1 - i);
            lemma_fields_from_tail(a, next + 1, b, next + 1 + by);
            let rest = fields_from(a, next + 1)->Ok_0;
            assert(moved(fields, by) =~= seq![field.shifted(by)] + moved(rest, by));
        }
    }
}

/// Spaces up to a byte that is none, or up to the end, are skipped up to
/// there.
pub proof fn lemma_skip_spaces_is(s: Seq<u8>, from: int, to: int)
    requires
        0 <= from <= to <= s.len(),
        forall|k: int| from <= k < to ==> is_space(#[trigger] s[k]),
        to < s.len() ==> !is_space(s[to]),
    ensures
        skip_spaces(s, from) == to,
    decreases to - from,
{
    if from < to {
        lemma_skip_spaces_is(s, from + 1, to);
    }
}

/// A number or a word runs up to the first byte that ends one, or up to
/// the end.
pub proof fn lemma_literal_end_is(s: Seq<u8>, from: int, to: int)
    requires
        0 <= from <= to <= s.len(),
        forall|k: int| from <= k < to ==> !ends_literal(#[trigger] s[k]),
        to < s.len() ==> ends_literal(s[to]),
    ensures
        literal_end(s, from) == to,
    decreases to - from,
{
    if from < to {
        lemma_literal_end_is(s, from + 1, to);
    }
}

/// The bytes of a number or a word end none.
pub proof fn lemma_literal_end_bytes(s: Seq<u8>, from: int)
    requires
        0 <= from <= s.len(),
    ensures
        forall|k: int| from <= k < literal_end(s, from) ==> !ends_literal(#[trigger] s[k]),
        literal_end(s, from) < s.len() ==> ends_literal(s[literal_end(s, from)]),
    decreases s.len() - from,
{
    if from < s.len() && !ends_literal(s[from]) {
        lemma_literal_end_bytes(s, from + 1);
    }
}

/// Where reading goes on behind a field: behind the comma that follows
/// its value.
pub open spec fn behind_field(s: Seq<u8>, field: FieldSpan) -> int {
    skip_spaces(s, field.value_end) + 1
}

/// What the first of the fields that are read from a place on is, and
/// where reading goes on.
pub proof fn lemma_first_field(s: Seq<u8>, from: int)
    requires
        0 <= from,
        fields_from(s, from) matches Ok(fields) && fields.len() > 0,
    ensures
        ({
            let fields = fields_from(s, from)->Ok_0;
            let first = fields[0];
            let next = skip_spaces(s, first.value_end);
            &&& from <= first.key_start == skip_spaces(s, from)
            &&& s[first.key_start] == QUOTE
            &&& string_end(s, first.key_start + 1) == Some(first.key_end)
            &&& skip_spaces(s, first.key_end) < s.len()
            &&& s[skip_spaces(s, first.key_end)] == COLON
            &&& first.value_start == skip_spaces(s, skip_spaces(s, first.key_end) + 1)
            &&& value_end(s, first.value_start) == Some(first.value_end)
            &&& first.key_start + 2 <= first.key_end <= skip_spaces(s, first.key_end)
                < first.value_start < first.value_end <= next < s.len()
            &&& (s[next] == COMMA || s[next] == CLOSE_BRACE)
            &&& s[next] == CLOSE_BRACE ==> fields.len() == 1
            &&& s[next] == COMMA ==> fields_from(s, next + 1) == Ok::<
                Seq<FieldSpan>,
                JsonParseError,
            >(fields.skip(1))
        }),
{
    if from <= s.len() {
        lemma_skip_spaces_range(s, from);
    }
    let key_start = skip_spaces(s, from);
    lemma_string_end_range(s, key_start + 1);
    let key_end = string_end(s, key_start + 1).unwrap();
    lemma_skip_spaces_range(s, key_end);
    let colon = skip_spaces(s, key_end);
    lemma_skip_spaces_range(s, colon + 1);
    let value_start = skip_spaces(s, colon + 1);
    lemma_value_end_range(s, value_start);
    let value_end = value_end(s, value_start).unwrap();
    lemma_skip_spaces_range(s, value_end);
    let next = skip_spaces(s, value_end);
    let fields = fields_from(s, from)->Ok_0;
    let field = FieldSpan { key_start, key_end, value_start, value_end };
    if s[next] == CLOSE_BRACE {
        assert(fields =~= seq![field]);
    } else {
        let rest = fields_from(s, next + 1)->Ok_0;
        assert(fields =~= seq![field] + rest);
        assert(fields.skip(1) =~= rest);
    }
}

/// Fields that are read from a place on are read alike from a text that
/// holds the same bytes from there up to some field: the fields before that
/// one are the same, and reading goes on alike behind the one before it.
pub proof fn lemma_fields_up_to(s: Seq<u8>, b: Seq<u8>, from: int, upto: int)
    requires
        0 <= from,
        fields_from(s, from) matches Ok(fields) && 0 <= upto < fields.len(),
        same_window(s, from, b, from, (fields_from(s, from)->Ok_0)[upto].key_start - from),
    ensures
        ({
            let fields = fields_from(s, from)->Ok_0;
            let start = if upto == 0 {
                from
            } else {
                behind_field(s, fields[upto - 1])
            };
            &&& from <= start <= fields[upto].key_start
            &&& skip_spaces(s, start) == fields[upto].key_start
            &&& fields_from(s, start) == Ok::<Seq<FieldSpan>, JsonParseError>(fields.skip(upto))
            &&& fields_from(b, from) == with_fields_in_front(
                fields.take(upto),
                fields_from(b, start),
            )
            &&& upto > 0 ==> s[start - 1] == COMMA && fields[upto - 1].value_end <= start - 1
        }),
    decreases upto,
{
    let fields = fields_from(s, from)->Ok_0;
    lemma_first_field(s, from);
    if upto == 0 {
        assert(fields.skip(0) =~= fields);
        assert(fields.take(0) =~= Seq::empty());
        match fields_from(b, from) {
            Ok(more) => {
                assert(Seq::<FieldSpan>::empty() + more =~= more);
            },
            Err(_) => {},
        }
    } else {
        let first = fields[0];
        let limit = fields[upto].key_start;
        let n = limit - from;
        let next = skip_spaces(s, first.value_end);
        let rest = fields.skip(1);
        lemma_fields_from_are_fields(s, next + 1);
        assert(rest[upto - 1] == fields[upto]);
        assert(next + 1 <= limit);
        let colon = skip_spaces(s, first.key_end);
        // The first field is read alike in `b`.
        lemma_skip_spaces_alike(s, from, b, from, n);
        assert(byte_at(s, from + (first.key_start - from)) == byte_at(
            b,
            from + (first.key_start - from),
        ));
        lemma_window_part(s, from, b, from, n, first.key_start + 1 - from, limit - (
        first.key_start + 1));
        lemma_string_end_alike(s, first.key_start + 1, b, first.key_start + 1, limit - (
        first.key_start + 1));
        lemma_window_part(s, from, b, from, n, first.key_end - from, limit - first.key_end);
        lemma_skip_spaces_alike(s, first.key_end, b, first.key_end, limit - first.key_end);
        assert(byte_at(s, from + (colon - from)) == byte_at(b, from + (colon - from)));
        lemma_window_part(s, from, b, from, n, colon + 1 - from, limit - (colon + 1));
        lemma_skip_spaces_alike(s, colon + 1, b, colon + 1, limit - (colon + 1));
        lemma_window_part(s, from, b, from, n, first.value_start - from, limit
            - first.value_start);
        lemma_value_end_alike(s, first.value_start, b, first.value_start, limit
            - first.value_start);
        lemma_window_part(s, from, b, from, n, first.value_end - from, limit - first.value_end);
        lemma_skip_spaces_alike(s, first.value_end, b, first.value_end, limit - first.value_end);
        assert(byte_at(s, from + (next - from)) == byte_at(b, from + (next - from)));
        assert(fields_from(b, from) == with_field_in_front(first, fields_from(b, next + 1)));
        // The fields behind it, by induction.
        lemma_window_part(s, from, b, from, n, next + 1 - from, limit - (next + 1));
        lemma_fields_up_to(s, b, next + 1, upto - 1);
        let start = if upto == 1 {
            next + 1
        } else {
            behind_field(s, rest[upto - 2])
        };
        if upto > 1 {
            assert(rest[upto - 2] == fields[upto - 1]);
        }
        assert(rest.skip(upto - 1) =~= fields.skip(upto));
        assert(seq![first] + rest.take(upto - 1) =~= fields.take(upto));
        match fields_from(b, start) {
            Ok(more) => {
                assert(seq![first] + (rest.take(upto - 1) + more) =~= (seq![first] + rest.take(
                    upto - 1,
                )) + more);
            },
            Err(_) => {},
        }
    }
}

/// The fields with the one at `at` written anew as `field`, and those
/// behind it moved by `by`.
pub open spec fn with_field_rewritten(
    fields: Seq<FieldSpan>,
    at: int,
    field: FieldSpan,
    by: int,
) -> Seq<FieldSpan> {
    fields.take(at) + seq![field] + moved(fields.skip(at + 1), by)
}

/// A text in which one field of an object was written anew, the bytes
/// before and behind it left as they were, is read as before but for that
/// field.
pub proof fn lemma_field_rewritten_from(
    s: Seq<u8>,
    b: Seq<u8>,
    from: int,
    at: int,
    field: FieldSpan,
)
    requires
        0 <= from,
        fields_from(s, from) matches Ok(fields) && 0 <= at < fields.len(),
        same_window(s, from, b, from, (fields_from(s, from)->Ok_0)[at].key_start - from),
        field.key_start == (fields_from(s, from)->Ok_0)[at].key_start,
        is_field(b, field),
        same_tail(s, (fields_from(s, from)->Ok_0)[at].value_end, b, field.value_end),
    ensures
        fields_from(b, from) == Ok::<Seq<FieldSpan>, JsonParseError>(
            with_field_rewritten(
                fields_from(s, from)->Ok_0,
                at,
                field,
                field.value_end - (fields_from(s, from)->Ok_0)[at].value_end,
            ),
        ),
{
    let fields = fields_from(s, from)->Ok_0;
    let old = fields[at];
    let by = field.value_end - old.value_end;
    lemma_fields_up_to(s, b, from, at);
    let start = if at == 0 {
        from
    } else {
        behind_field(s, fields[at - 1])
    };
    lemma_first_field(s, start);
    assert(fields.skip(at)[0] == old);
    // Up to the field only spaces stand, in `b` as in `s`.
    lemma_skip_spaces_range(s, start);
    assert forall|k: int| start <= k < old.key_start implies is_space(#[trigger] b[k]) by {
        assert(byte_at(s, from + (k - from)) == byte_at(b, from + (k - from)));
        assert(is_space(s[k]));
    }
    lemma_skip_spaces_is(b, start, old.key_start);
    // Behind the field the texts hold the same bytes.
    let next = skip_spaces(s, old.value_end);
    lemma_tail_is_window(s, old.value_end, b, field.value_end, s.len() - old.value_end + 1);
    lemma_skip_spaces_alike(s, old.value_end, b, field.value_end, s.len() - old.value_end + 1);
    assert(s[old.value_end + (next - old.value_end)] == b[field.value_end + (next
        - old.value_end)]);
    let rest = fields.skip(at + 1);
    if s[next] == CLOSE_BRACE {
        assert(rest =~= Seq::empty());
        assert(moved(rest, by) =~= Seq::empty());
        assert(fields_from(b, start) == Ok::<Seq<FieldSpan>, JsonParseError>(seq![field]));
    } else {
        lemma_tail_part(s, old.value_end, b, field.value_end, next + 1 - old.value_end);
        assert(fields.skip(at).skip(1) =~= rest);
        lemma_fields_from_tail(s, next + 1, b, next + 1 + by);
        assert(fields_from(b, start) == Ok::<Seq<FieldSpan>, JsonParseError>(
            seq![field] + moved(rest, by),
        ));
    }
    assert(fields.take(at) + (seq![field] + moved(rest, by)) =~= with_field_rewritten(
        fields,
        at,
        field,
        by,
    ));
}

/// The same of a whole object.
pub proof fn lemma_field_rewritten(s: Seq<u8>, b: Seq<u8>, at: int, field: FieldSpan)
    requires
        object_fields(s) matches Ok(fields) && 0 <= at < fields.len(),
        same_window(s, 0, b, 0, (object_fields(s)->Ok_0)[at].key_start),
        field.key_start == (object_fields(s)->Ok_0)[at].key_start,
        is_field(b, field),
        same_tail(s, (object_fields(s)->Ok_0)[at].value_end, b, field.value_end),
    ensures
        object_fields(b) == Ok::<Seq<FieldSpan>, JsonParseError>(
            with_field_rewritten(
                object_fields(s)->Ok_0,
                at,
                field,
                field.value_end - (object_fields(s)->Ok_0)[at].value_end,
            ),
        ),
{
    let fields = object_fields(s)->Ok_0;
    let old = fields[at];
    lemma_skip_spaces_range(s, 0);
    let open = skip_spaces(s, 0);
    lemma_fields_from_are_fields(s, open + 1);
    assert(open + 1 <= old.key_start);
    lemma_skip_spaces_alike(s, 0, b, 0, old.key_start);
    assert(byte_at(s, 0 + open) == byte_at(b, 0 + open));
    lemma_window_part(s, 0, b, 0, old.key_start, open + 1, old.key_start - (open + 1));
    lemma_field_rewritten_from(s, b, open + 1, at, field);
}

/// Skipping spaces from a place or from behind some of them comes to the
/// same.
pub proof fn lemma_skip_spaces_behind_spaces(s: Seq<u8>, from: int, to: int)
    requires
        0 <= from <= to <= s.len(),
        forall|k: int| from <= k < to ==> is_space(#[trigger] s[k]),
    ensures
        skip_spaces(s, from) == skip_spaces(s, to),
    decreases to - from,
{
    if from < to {
        lemma_skip_spaces_behind_spaces(s, from + 1, to);
    }
}

/// Reading fields from a place or from behind spaces that stand there
/// comes to the same.
pub proof fn lemma_fields_from_behind_spaces(s: Seq<u8>, from: int, to: int)
    requires
        0 <= from <= to <= s.len(),
        forall|k: int| from <= k < to ==> is_space(#[trigger] s[k]),
    ensures
        fields_from(s, from) == fields_from(s, to),
{
    lemma_skip_spaces_behind_spaces(s, from, to);
    lemma_skip_spaces_range(s, to);
    let key_start = skip_spaces(s, to);
    if key_start < s.len() && s[key_start] == QUOTE {
        lemma_string_end_range(s, key_start + 1);
        if let Some(key_end) = string_end(s, key_start + 1) {
            lemma_skip_spaces_range(s, key_end);
            let colon = skip_spaces(s, key_end);
            if colon < s.len() {
                lemma_skip_spaces_range(s, colon + 1);
                let value_start = skip_spaces(s, colon + 1);
                lemma_value_end_range(s, value_start);
                if let Some(value_end) = value_end(s, value_start) {
                    lemma_skip_spaces_range(s, value_end);
                }
            }
        }
    }
}

/// The fields without the one at `at`, those behind it moved by `by`.
pub open spec fn with_field_removed(fields: Seq<FieldSpan>, at: int, by: int) -> Seq<FieldSpan> {
    fields.take(at) + moved(fields.skip(at + 1), by)
}

/// A text from which one field of an object was taken with the comma
/// behind it is read as before, without that field.
pub proof fn lemma_field_removed_with_comma_behind(s: Seq<u8>, b: Seq<u8>, from: int, at: int)
    requires
        0 <= from,
        fields_from(s, from) matches Ok(fields) && 0 <= at < fields.len(),
        s[skip_spaces(s, (fields_from(s, from)->Ok_0)[at].value_end)] == COMMA,
        same_window(s, from, b, from, (fields_from(s, from)->Ok_0)[at].key_start - from),
        same_tail(
            s,
            behind_field(s, (fields_from(s, from)->Ok_0)[at]),
            b,
            (fields_from(s, from)->Ok_0)[at].key_start,
        ),
    ensures
        fields_from(b, from) == Ok::<Seq<FieldSpan>, JsonParseError>(
            with_field_removed(
                fields_from(s, from)->Ok_0,
                at,
                (fields_from(s, from)->Ok_0)[at].key_start - behind_field(
                    s,
                    (fields_from(s, from)->Ok_0)[at],
                ),
            ),
        ),
{
    let fields = fields_from(s, from)->Ok_0;
    let old = fields[at];
    let behind = behind_field(s, old);
    let by = old.key_start - behind;
    lemma_fields_up_to(s, b, from, at);
    let start = if at == 0 {
        from
    } else {
        behind_field(s, fields[at - 1])
    };
    lemma_first_field(s, start);
    assert(fields.skip(at)[0] == old);
    lemma_skip_spaces_range(s, start);
    assert forall|k: int| start <= k < old.key_start implies is_space(#[trigger] b[k]) by {
        assert(byte_at(s, from + (k - from)) == byte_at(b, from + (k - from)));
        assert(is_space(s[k]));
    }
    lemma_fields_from_behind_spaces(b, start, old.key_start);
    let rest = fields.skip(at + 1);
    assert(fields.skip(at).skip(1) =~= rest);
    lemma_fields_from_tail(s, behind, b, old.key_start);
    assert(fields.take(at) + moved(rest, by) =~= with_field_removed(fields, at, by));
}

/// A text from which the only field of an object was taken is read as an
/// object without fields.
pub proof fn lemma_only_field_removed(s: Seq<u8>, b: Seq<u8>, from: int)
    requires
        0 <= from,
        fields_from(s, from) matches Ok(fields) && fields.len() >= 1,
        s[skip_spaces(s, (fields_from(s, from)->Ok_0)[0].value_end)] != COMMA,
        same_window(s, from, b, from, (fields_from(s, from)->Ok_0)[0].key_start - from),
        same_tail(
            s,
            (fields_from(s, from)->Ok_0)[0].value_end,
            b,
            (fields_from(s, from)->Ok_0)[0].key_start,
        ),
    ensures
        fields_from(b, from) == Ok::<Seq<FieldSpan>, JsonParseError>(Seq::empty()),
{
    let fields = fields_from(s, from)->Ok_0;
    let old = fields[0];
    lemma_first_field(s, from);
    let next = skip_spaces(s, old.value_end);
    assert(s[next] == CLOSE_BRACE);
    lemma_skip_spaces_range(s, from);
    lemma_skip_spaces_range(s, old.value_end);
    let end = old.key_start + (next - old.value_end);
    assert forall|k: int| from <= k < end implies is_space(#[trigger] b[k]) by {
        if k < old.key_start {
            assert(byte_at(s, from + (k - from)) == byte_at(b, from + (k - from)));
            assert(is_space(s[k]));
        } else {
            assert(s[old.value_end + (k - old.key_start)] == b[old.key_start + (k
                - old.key_start)]);
            assert(is_space(s[old.value_end + (k - old.key_start)]));
        }
    }
    assert(s[old.value_end + (next - old.value_end)] == b[old.key_start + (next
        - old.value_end)]);
    lemma_skip_spaces_is(b, from, end);
}

/// A text from which the last field of an object was taken with the comma
/// before it is read as before, without that field.
#[verifier::rlimit(30)]
pub proof fn lemma_last_field_removed_with_comma_before(
    s: Seq<u8>,
    b: Seq<u8>,
    from: int,
    at: int,
)
    requires
        0 <= from,
        fields_from(s, from) matches Ok(fields) && 1 <= at < fields.len(),
        s[skip_spaces(s, (fields_from(s, from)->Ok_0)[at].value_end)] != COMMA,
        same_window(
            s,
            from,
            b,
            from,
            skip_spaces(s, (fields_from(s, from)->Ok_0)[at - 1].value_end) - from,
        ),
        same_tail(
            s,
            (fields_from(s, from)->Ok_0)[at].value_end,
            b,
            skip_spaces(s, (fields_from(s, from)->Ok_0)[at - 1].value_end),
        ),
    ensures
        fields_from(b, from) == Ok::<Seq<FieldSpan>, JsonParseError>(
            (fields_from(s, from)->Ok_0).take(at),
        ),
{
    let fields = fields_from(s, from)->Ok_0;
    let old = fields[at];
    let kept = fields[at - 1];
    let comma = skip_spaces(s, kept.value_end);
    lemma_fields_from_are_fields(s, from);
    assert(is_field(s, kept));
    lemma_skip_spaces_range(s, kept.value_end);
    // How `s` is read up to the field that goes.
    lemma_window_self(s, from, old.key_start - from);
    lemma_fields_up_to(s, s, from, at);
    lemma_first_field(s, comma + 1);
    assert(fields.skip(at)[0] == old);
    let close = skip_spaces(s, old.value_end);
    assert(s[close] == CLOSE_BRACE);
    assert(fields.skip(at).len() == 1);
    lemma_skip_spaces_range(s, old.value_end);
    // How `b` is read up to the field that stays last.
    lemma_window_part(s, from, b, from, comma - from, 0, kept.key_start - from);
    lemma_fields_up_to(s, b, from, at - 1);
    let start = if at == 1 {
        from
    } else {
        behind_field(s, fields[at - 2])
    };
    lemma_first_field(s, start);
    assert(fields.skip(at - 1)[0] == kept);
    let n = comma - start;
    let colon = skip_spaces(s, kept.key_end);
    lemma_window_part(s, from, b, from, comma - from, start - from, n);
    lemma_skip_spaces_alike(s, start, b, start, n);
    assert(byte_at(s, start + (kept.key_start - start)) == byte_at(
        b,
        start + (kept.key_start - start),
    ));
    lemma_window_part(s, start, b, start, n, kept.key_start + 1 - start, comma - (kept.key_start
        + 1));
    lemma_string_end_alike(s, kept.key_start + 1, b, kept.key_start + 1, comma - (kept.key_start
        + 1));
    lemma_window_part(s, start, b, start, n, kept.key_end - start, comma - kept.key_end);
    lemma_skip_spaces_alike(s, kept.key_end, b, kept.key_end, comma - kept.key_end);
    assert(byte_at(s, start + (colon - start)) == byte_at(b, start + (colon - start)));
    lemma_window_part(s, start, b, start, n, colon + 1 - start, comma - (colon + 1));
    lemma_skip_spaces_alike(s, colon + 1, b, colon + 1, comma - (colon + 1));
    lemma_window_part(s, start, b, start, n, kept.value_start - start, comma - kept.value_start);
    assert(byte_at(s, start + (kept.value_start - start)) == byte_at(
        b,
        start + (kept.value_start - start),
    ));
    // Behind the field that stays, `b` holds what `s` holds behind the one that goes.
    let end = comma + (close - old.value_end);
    assert(b.len() == comma + (s.len() - old.value_end));
    assert forall|k: int| comma <= k <= end implies #[trigger] b[k] == s[old.value_end + (k
        - comma)] by {
        assert(s[old.value_end + (k - comma)] == b[comma + (k - comma)]);
    }
    assert(b[comma] == s[old.value_end]);
    if is_literal_at(s, kept.value_start) && kept.value_end == comma {
        lemma_literal_end_bytes(s, kept.value_start + 1);
        assert forall|k: int| kept.value_start + 1 <= k < comma implies !ends_literal(
            #[trigger] b[k],
        ) by {
            assert(byte_at(s, start + (k - start)) == byte_at(b, start + (k - start)));
            assert(!ends_literal(s[k]));
        }
        assert(ends_literal(b[comma]));
        lemma_literal_end_is(b, kept.value_start + 1, comma);
    } else {
        lemma_value_end_alike(s, kept.value_start, b, kept.value_start, comma
            - kept.value_start);
    }
    lemma_skip_spaces_range(s, kept.value_end);
    assert forall|k: int| kept.value_end <= k < end implies is_space(#[trigger] b[k]) by {
        if k < comma {
            assert(byte_at(s, start + (k - start)) == byte_at(b, start + (k - start)));
            assert(is_space(s[k]));
        } else {
            assert(is_space(s[old.value_end + (k - comma)]));
        }
    }
    assert(b[end] == CLOSE_BRACE);
    lemma_skip_spaces_is(b, kept.value_end, end);
    assert(fields_from(b, start) == Ok::<Seq<FieldSpan>, JsonParseError>(seq![kept]));
    assert(fields.take(at - 1) + seq![kept] =~= fields.take(at));
}

/// A text holds the same bytes as itself.
pub proof fn lemma_window_self(s: Seq<u8>, from: int, n: int)
    requires
        0 <= from,
    ensures
        same_window(s, from, s, from, n),
{
}

} // verus!
