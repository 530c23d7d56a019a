use vstd::prelude::*;
use crate::db_json_entity::error::JsonParseError;
use crate::db_json_entity::json_key_value_position::{FieldSpan, JsonKeyValuePosition};

verus! {

pub const QUOTE: u8 = 34;

pub const BACKSLASH: u8 = 92;

pub const COMMA: u8 = 44;

pub const COLON: u8 = 58;

pub const OPEN_BRACE: u8 = 123;

pub const CLOSE_BRACE: u8 = 125;

pub const OPEN_BRACKET: u8 = 91;

pub const CLOSE_BRACKET: u8 = 93;

/// Blanks, line ends and the other bytes up to 32 stand between tokens.
pub open spec fn is_space(b: u8) -> bool {
    b <= 32
}

/// The bytes that end a number, `true`, `false` or `null`.
pub open spec fn ends_literal(b: u8) -> bool {
    is_space(b) || b == COMMA || b == CLOSE_BRACE || b == CLOSE_BRACKET
}

/// The first place from `from` on that holds no space; the length of the
/// text where only spaces follow.
pub open spec fn skip_spaces(s: Seq<u8>, from: int) -> int
    decreases s.len() - from,
{
    if 0 <= from < s.len() && is_space(s[from]) {
        skip_spaces(s, from + 1)
    } else {
        from
    }
}

/// Behind the quote that closes a string, `at` being a place inside it. A
/// backslash takes the byte behind it along. `None` where no quote closes.
pub open spec fn string_end(s: Seq<u8>, at: int) -> Option<int>
    decreases s.len() - at,
{
    if at < 0 || at >= s.len() {
        None
    } else if s[at] == QUOTE {
        Some(at + 1)
    } else if s[at] == BACKSLASH {
        if at + 1 < s.len() {
            string_end(s, at + 2)
        } else {
            None
        }
    } else {
        string_end(s, at + 1)
    }
}

/// Behind the bracket that closes an object or array, `at` being a place
/// inside it and `depth` the number of brackets open there. Brackets inside
/// strings do not count.
pub open spec fn nested_end(s: Seq<u8>, at: int, depth: nat) -> Option<int>
    decreases s.len() - at,
{
    if at < 0 || at >= s.len() || depth == 0 {
        None
    } else if s[at] == QUOTE {
        match string_end(s, at + 1) {
            Some(behind) => if at < behind <= s.len() {
                nested_end(s, behind, depth)
            } else {
                None
            },
            None => None,
        }
    } else if s[at] == OPEN_BRACE || s[at] == OPEN_BRACKET {
        nested_end(s, at + 1, depth + 1)
    } else if s[at] == CLOSE_BRACE || s[at] == CLOSE_BRACKET {
        if depth == 1 {
            Some(at + 1)
        } else {
            nested_end(s, at + 1, (depth - 1) as nat)
        }
    } else {
        nested_end(s, at + 1, depth)
    }
}

/// The end of a number, `true`, `false` or `null`, `at` being a place
/// inside it.
pub open spec fn literal_end(s: Seq<u8>, at: int) -> int
    decreases s.len() - at,
{
    if 0 <= at < s.len() && !ends_literal(s[at]) {
        literal_end(s, at + 1)
    } else {
        at
    }
}

/// Behind the value that starts at `at`; `None` where none starts there or
/// it does not end.
pub open spec fn value_end(s: Seq<u8>, at: int) -> Option<int> {
    if at < 0 || at >= s.len() {
        None
    } else if s[at] == QUOTE {
        string_end(s, at + 1)
    } else if s[at] == OPEN_BRACE || s[at] == OPEN_BRACKET {
        nested_end(s, at + 1, 1)
    } else if ends_literal(s[at]) || s[at] == COLON {
        None
    } else {
        Some(literal_end(s, at + 1))
    }
}

/// One more field in front of what was read behind it.
pub open spec fn with_field_in_front(
    field: FieldSpan,
    rest: Result<Seq<FieldSpan>, JsonParseError>,
) -> Result<Seq<FieldSpan>, JsonParseError> {
    match rest {
        Ok(fields) => Ok(seq![field] + fields),
        Err(e) => Err(e),
    }
}

/// The fields of an object from `from` on, a place behind its `{` or
/// behind a `,`, up to the `}` that closes it. A `,` may stand before the
/// `}`.
pub open spec fn fields_from(s: Seq<u8>, from: int) -> Result<Seq<FieldSpan>, JsonParseError>
    decreases s.len() - from,
{
    let key_start = skip_spaces(s, from);
    if from < 0 || key_start >= s.len() {
        Err(JsonParseError::UnexpectedEnd)
    } else if s[key_start] == CLOSE_BRACE {
        Ok(Seq::empty())
    } else if s[key_start] != QUOTE {
        Err(JsonParseError::NameExpected)
    } else {
        match string_end(s, key_start + 1) {
            None => Err(JsonParseError::UnexpectedEnd),
            Some(key_end) => {
                let colon = skip_spaces(s, key_end);
                if colon >= s.len() {
                    Err(JsonParseError::UnexpectedEnd)
                } else if s[colon] != COLON {
                    Err(JsonParseError::ColonExpected)
                } else {
                    let value_start = skip_spaces(s, colon + 1);
                    match value_end(s, value_start) {
                        None => if value_start >= s.len() {
                            Err(JsonParseError::UnexpectedEnd)
                        } else if s[value_start] == QUOTE || s[value_start] == OPEN_BRACE
                            || s[value_start] == OPEN_BRACKET {
                            Err(JsonParseError::UnexpectedEnd)
                        } else {
                            Err(JsonParseError::ValueExpected)
                        },
                        Some(value_end) => {
                            let field = FieldSpan { key_start, key_end, value_start, value_end };
                            let next = skip_spaces(s, value_end);
                            if next >= s.len() {
                                Err(JsonParseError::UnexpectedEnd)
                            } else if s[next] == CLOSE_BRACE {
                                Ok(seq![field])
                            } else if s[next] != COMMA {
                                Err(JsonParseError::SeparatorExpected)
                            } else if next < from {
                                Err(JsonParseError::UnexpectedEnd)
                            } else {
                                with_field_in_front(field, fields_from(s, next + 1))
                            }
                        },
                    }
                }
            },
        }
    }
}

/// The fields of the object that the text holds, in the order in which they
/// stand. Nested objects and arrays are values, and are not looked into.
pub open spec fn object_fields(s: Seq<u8>) -> Result<Seq<FieldSpan>, JsonParseError> {
    let open = skip_spaces(s, 0);
    if open >= s.len() {
        Err(JsonParseError::UnexpectedEnd)
    } else if s[open] != OPEN_BRACE {
        Err(JsonParseError::ObjectExpected)
    } else {
        fields_from(s, open + 1)
    }
}

pub proof fn lemma_skip_spaces_range(s: Seq<u8>, from: int)
    requires
        0 <= from <= s.len(),
    ensures
        from <= skip_spaces(s, from) <= s.len(),
        skip_spaces(s, from) < s.len() ==> !is_space(s[skip_spaces(s, from)]),
        forall|i: int| from <= i < skip_spaces(s, from) ==> is_space(#[trigger] s[i]),
    decreases s.len() - from,
{
    if from < s.len() && is_space(s[from]) {
        lemma_skip_spaces_range(s, from + 1);
    }
}

pub proof fn lemma_string_end_range(s: Seq<u8>, at: int)
    requires
        0 <= at,
    ensures
        string_end(s, at) matches Some(behind) ==> at < behind <= s.len() && s[behind - 1]
            == QUOTE,
    decreases s.len() - at,
{
    if at < s.len() {
        if s[at] == QUOTE {
        } else if s[at] == BACKSLASH {
            if at + 1 < s.len() {
                lemma_string_end_range(s, at + 2);
            }
        } else {
            lemma_string_end_range(s, at + 1);
        }
    }
}

pub proof fn lemma_nested_end_range(s: Seq<u8>, at: int, depth: nat)
    requires
        0 <= at,
    ensures
        nested_end(s, at, depth) matches Some(behind) ==> at < behind <= s.len(),
    decreases s.len() - at,
{
    if at < s.len() && depth > 0 {
        if s[at] == QUOTE {
            lemma_string_end_range(s, at + 1);
            match string_end(s, at + 1) {
                Some(behind) => {
                    lemma_nested_end_range(s, behind, depth);
                },
                None => {},
            }
        } else if s[at] == OPEN_BRACE || s[at] == OPEN_BRACKET {
            lemma_nested_end_range(s, at + 1, depth + 1);
        } else if s[at] == CLOSE_BRACE || s[at] == CLOSE_BRACKET {
            if depth > 1 {
                lemma_nested_end_range(s, at + 1, (depth - 1) as nat);
            }
        } else {
            lemma_nested_end_range(s, at + 1, depth);
        }
    }
}

pub proof fn lemma_literal_end_range(s: Seq<u8>, at: int)
    requires
        0 <= at <= s.len(),
    ensures
        at <= literal_end(s, at) <= s.len(),
    decreases s.len() - at,
{
    if at < s.len() && !ends_literal(s[at]) {
        lemma_literal_end_range(s, at + 1);
    }
}

pub proof fn lemma_value_end_range(s: Seq<u8>, at: int)
    requires
        0 <= at,
    ensures
        value_end(s, at) matches Some(behind) ==> at < behind <= s.len(),
{
    if at < s.len() {
        lemma_string_end_range(s, at + 1);
        lemma_nested_end_range(s, at + 1, 1);
        lemma_literal_end_range(s, at + 1);
    }
}

/// What holds of every field that reading finds: a quoted name, a `:`
/// behind it, and a value that ends.
pub open spec fn is_field(s: Seq<u8>, field: FieldSpan) -> bool {
    &&& field.fits(s.len() as int)
    &&& s[field.key_start] == QUOTE
    &&& string_end(s, field.key_start + 1) == Some(field.key_end)
    &&& skip_spaces(s, field.key_end) < s.len()
    &&& s[skip_spaces(s, field.key_end)] == COLON
    &&& field.value_start == skip_spaces(s, skip_spaces(s, field.key_end) + 1)
    &&& value_end(s, field.value_start) == Some(field.value_end)
}

/// The fields that reading finds are fields, and stand behind the place
/// where reading began.
pub proof fn lemma_fields_from_are_fields(s: Seq<u8>, from: int)
    requires
        0 <= from,
    ensures
        fields_from(s, from) matches Ok(fields) ==> {
            &&& forall|i: int|
                0 <= i < fields.len() ==> is_field(s, #[trigger] fields[i]) && from
                    <= fields[i].key_start
            &&& forall|i: int, j: int|
                0 <= i < j < fields.len() ==> (#[trigger] fields[i]).value_end < (
                #[trigger] fields[j]).key_start
        },
    decreases s.len() - from,
{
    if from <= s.len() {
        lemma_skip_spaces_range(s, from);
    }
    let key_start = skip_spaces(s, from);
    if let Ok(fields) = fields_from(s, from) {
        if s[key_start] == CLOSE_BRACE {
        } else {
            lemma_string_end_range(s, key_start + 1);
            let key_end = string_end(s, key_start + 1).unwrap();
            lemma_skip_spaces_range(s, key_end);
            let colon = skip_spaces(s, key_end);
            lemma_skip_spaces_range(s, colon + 1);
            let value_start = skip_spaces(s, colon + 1);
            lemma_value_end_range(s, value_start);
            let value_end = value_end(s, value_start).unwrap();
            lemma_skip_spaces_range(s, value_end);
            let next = skip_spaces(s, value_end);
            let field = FieldSpan { key_start, key_end, value_start, value_end };
            assert(is_field(s, field));
            if s[next] == CLOSE_BRACE {
                assert(fields =~= seq![field]);
            } else {
                lemma_fields_from_are_fields(s, next + 1);
                let rest = fields_from(s, next + 1).unwrap();
                assert(fields =~= seq![field] + rest);
                assert forall|i: int| 0 <= i < fields.len() implies is_field(
                    s,
                    #[trigger] fields[i],
                ) && from <= fields[i].key_start by {
                    if i > 0 {
                        assert(fields[i] == rest[i - 1]);
                    }
                }
                assert forall|i: int, j: int| 0 <= i < j < fields.len() implies (
                #[trigger] fields[i]).value_end < (#[trigger] fields[j]).key_start by {
                    assert(fields[j] == rest[j - 1]);
                    if i > 0 {
                        assert(fields[i] == rest[i - 1]);
                    }
                }
            }
        }
    }
}

/// The fields of an object are fields, and stand one behind the other.
pub proof fn lemma_fields_fit(s: Seq<u8>)
    ensures
        object_fields(s) matches Ok(fields) ==> {
            &&& forall|i: int| 0 <= i < fields.len() ==> is_field(s, #[trigger] fields[i])
            &&& forall|i: int, j: int|
                0 <= i < j < fields.len() ==> (#[trigger] fields[i]).value_end < (
                #[trigger] fields[j]).key_start
        },
{
    lemma_skip_spaces_range(s, 0);
    lemma_fields_from_are_fields(s, skip_spaces(s, 0) + 1);
}

/// A string value has its two quotes.
pub proof fn lemma_string_value_has_quotes(s: Seq<u8>, field: FieldSpan)
    requires
        is_field(s, field),
        s[field.value_start] == QUOTE,
    ensures
        field.value_start + 2 <= field.value_end,
        s[field.value_end - 1] == QUOTE,
        string_end(s, field.value_start + 1) == Some(field.value_end),
{
    lemma_string_end_range(s, field.value_start + 1);
}

pub(crate) fn skip_spaces_from(s: &[u8], from: usize) -> (r: usize)
    requires
        from <= s.len(),
    ensures
        r == skip_spaces(s@, from as int),
        from <= r <= s.len(),
{
    let mut i: usize = from;
    while i < s.len() && s[i] <= 32
        invariant
            from <= i <= s.len(),
            skip_spaces(s@, from as int) == skip_spaces(s@, i as int),
        decreases s.len() - i,
    {
        i = i + 1;
    }
    i
}

fn find_string_end(s: &[u8], at: usize) -> (r: Option<usize>)
    requires
        at <= s.len(),
    ensures
        r is Some <==> string_end(s@, at as int) is Some,
        r matches Some(behind) ==> string_end(s@, at as int) == Some(behind as int) && at < behind
            <= s.len(),
{
    let mut i: usize = at;
    while i < s.len()
        invariant
            at <= i,
            string_end(s@, at as int) == string_end(s@, i as int),
        decreases s.len() - i,
    {
        if s[i] == QUOTE {
            return Some(i + 1);
        }
        if s[i] == BACKSLASH {
            if i + 1 >= s.len() {
                return None;
            }
            i = i + 2;
        } else {
            i = i + 1;
        }
    }
    None
}

pub(crate) fn find_nested_end(s: &[u8], at: usize) -> (r: Option<usize>)
    requires
        1 <= at <= s.len(),
    ensures
        r is Some <==> nested_end(s@, at as int, 1) is Some,
        r matches Some(behind) ==> nested_end(s@, at as int, 1) == Some(behind as int) && at
            < behind <= s.len(),
{
    let mut i: usize = at;
    let mut depth: usize = 1;
    while i < s.len()
        invariant
            1 <= at <= i,
            1 <= depth <= i - at + 1,
            nested_end(s@, at as int, 1) == nested_end(s@, i as int, depth as nat),
        decreases s.len() - i,
    {
        let b: u8 = s[i];
        if b == QUOTE {
            match find_string_end(s, i + 1) {
                Some(behind) => {
                    i = behind;
                },
                None => {
                    return None;
                },
            }
        } else if b == OPEN_BRACE || b == OPEN_BRACKET {
            depth = depth + 1;
            i = i + 1;
        } else if b == CLOSE_BRACE || b == CLOSE_BRACKET {
            if depth == 1 {
                return Some(i + 1);
            }
            depth = depth - 1;
            i = i + 1;
        } else {
            i = i + 1;
        }
    }
    None
}

fn find_literal_end(s: &[u8], at: usize) -> (r: usize)
    requires
        at <= s.len(),
    ensures
        r == literal_end(s@, at as int),
        at <= r <= s.len(),
{
    let mut i: usize = at;
    while i < s.len() && !(s[i] <= 32 || s[i] == COMMA || s[i] == CLOSE_BRACE || s[i]
        == CLOSE_BRACKET)
        invariant
            at <= i <= s.len(),
            literal_end(s@, at as int) == literal_end(s@, i as int),
        decreases s.len() - i,
    {
        i = i + 1;
    }
    i
}

fn find_value_end(s: &[u8], at: usize) -> (r: Option<usize>)
    requires
        at <= s.len(),
    ensures
        r is Some <==> value_end(s@, at as int) is Some,
        r matches Some(behind) ==> value_end(s@, at as int) == Some(behind as int) && at < behind
            <= s.len(),
{
    if at >= s.len() {
        return None;
    }
    let b: u8 = s[at];
    if b == QUOTE {
        find_string_end(s, at + 1)
    } else if b == OPEN_BRACE || b == OPEN_BRACKET {
        find_nested_end(s, at + 1)
    } else if b <= 32 || b == COMMA || b == CLOSE_BRACE || b == CLOSE_BRACKET || b == COLON {
        None
    } else {
        Some(find_literal_end(s, at + 1))
    }
}

/// The places as mathematical integers.
pub open spec fn spans_of(fields: Seq<JsonKeyValuePosition>) -> Seq<FieldSpan> {
    fields.map_values(|p: JsonKeyValuePosition| p@)
}

/// What was read so far, in front of what is read from there on.
pub open spec fn with_fields_in_front(
    fields: Seq<FieldSpan>,
    rest: Result<Seq<FieldSpan>, JsonParseError>,
) -> Result<Seq<FieldSpan>, JsonParseError> {
    match rest {
        Ok(more) => Ok(fields + more),
        Err(e) => Err(e),
    }
}

/// Reads the places of the fields of the JSON object that `raw` holds.
pub fn scan_fields(raw: &[u8]) -> (r: Result<Vec<JsonKeyValuePosition>, JsonParseError>)
    ensures
        match r {
            Ok(fields) => object_fields(raw@) == Ok::<Seq<FieldSpan>, JsonParseError>(
                spans_of(fields@),
            ),
            Err(e) => object_fields(raw@) == Err::<Seq<FieldSpan>, JsonParseError>(e),
        },
{
    let n: usize = raw.len();
    let open: usize = skip_spaces_from(raw, 0);
    if open >= n {
        return Err(JsonParseError::UnexpectedEnd);
    }
    if raw[open] != OPEN_BRACE {
        return Err(JsonParseError::ObjectExpected);
    }
    let mut fields: Vec<JsonKeyValuePosition> = Vec::new();
    let mut from: usize = open + 1;
    assert(with_fields_in_front(spans_of(fields@), fields_from(raw@, from as int)) == fields_from(
        raw@,
        from as int,
    )) by {
        match fields_from(raw@, from as int) {
            Ok(more) => {
                assert(spans_of(fields@) + more =~= more);
            },
            Err(_) => {},
        }
    }
    loop
        invariant
            n == raw.len(),
            from <= n,
            object_fields(raw@) == with_fields_in_front(
                spans_of(fields@),
                fields_from(raw@, from as int),
            ),
        decreases n - from,
    {
        let key_start: usize = skip_spaces_from(raw, from);
        if key_start >= n {
            return Err(JsonParseError::UnexpectedEnd);
        }
        if raw[key_start] == CLOSE_BRACE {
            assert(spans_of(fields@) + Seq::<FieldSpan>::empty() =~= spans_of(fields@));
            return Ok(fields);
        }
        if raw[key_start] != QUOTE {
            return Err(JsonParseError::NameExpected);
        }
        let key_end: usize = match find_string_end(raw, key_start + 1) {
            Some(behind) => behind,
            None => {
                return Err(JsonParseError::UnexpectedEnd);
            },
        };
        let colon: usize = skip_spaces_from(raw, key_end);
        if colon >= n {
            return Err(JsonParseError::UnexpectedEnd);
        }
        if raw[colon] != COLON {
            return Err(JsonParseError::ColonExpected);
        }
        let value_start: usize = skip_spaces_from(raw, colon + 1);
        let value_end: usize = match find_value_end(raw, value_start) {
            Some(behind) => behind,
            None => {
                if value_start >= n {
                    return Err(JsonParseError::UnexpectedEnd);
                }
                let b: u8 = raw[value_start];
                if b == QUOTE || b == OPEN_BRACE || b == OPEN_BRACKET {
                    return Err(JsonParseError::UnexpectedEnd);
                }
                return Err(JsonParseError::ValueExpected);
            },
        };
        let field = JsonKeyValuePosition { key_start, key_end, value_start, value_end };
        let next: usize = skip_spaces_from(raw, value_end);
        if next >= n {
            return Err(JsonParseError::UnexpectedEnd);
        }
        let ghost before = spans_of(fields@);
        fields.push(field);
        assert(spans_of(fields@) =~= before + seq![field@]);
        if raw[next] == CLOSE_BRACE {
            return Ok(fields);
        }
        if raw[next] != COMMA {
            return Err(JsonParseError::SeparatorExpected);
        }
        proof {
            match fields_from(raw@, next + 1) {
                Ok(more) => {
                    assert(before + (seq![field@] + more) =~= (before + seq![field@]) + more);
                },
                Err(_) => {},
            }
        }
        from = next + 1;
    }
}

} // verus!
