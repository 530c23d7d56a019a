use vstd::prelude::*;
use crate::db_json_entity::error::JsonParseError;
use crate::db_json_entity::first_line_reader::{
    find_nested_end, lemma_nested_end_range, lemma_skip_spaces_range, nested_end, skip_spaces,
    skip_spaces_from, CLOSE_BRACKET, COMMA, OPEN_BRACE, OPEN_BRACKET,
};

verus! {

/// One more object in front of what was read behind it.
pub open spec fn with_object_in_front(
    object: (int, int),
    rest: Result<Seq<(int, int)>, JsonParseError>,
) -> Result<Seq<(int, int)>, JsonParseError> {
    match rest {
        Ok(objects) => Ok(seq![object] + objects),
        Err(e) => Err(e),
    }
}

/// The objects of an array from `from` on, a place behind its `[` or
/// behind a `,`, up to the `]` that closes it: for each, where it starts
/// and where it ends. A `,` may stand before the `]`.
pub open spec fn objects_from(s: Seq<u8>, from: int) -> Result<Seq<(int, int)>, JsonParseError>
    decreases s.len() - from,
{
    let start = skip_spaces(s, from);
    if from < 0 || start >= s.len() {
        Err(JsonParseError::UnexpectedEnd)
    } else if s[start] == CLOSE_BRACKET {
        Ok(Seq::empty())
    } else if s[start] != OPEN_BRACE {
        Err(JsonParseError::ObjectExpected)
    } else {
        match nested_end(s, start + 1, 1) {
            None => Err(JsonParseError::UnexpectedEnd),
            Some(end) => {
                let next = skip_spaces(s, end);
                if next >= s.len() {
                    Err(JsonParseError::UnexpectedEnd)
                } else if s[next] == CLOSE_BRACKET {
                    Ok(seq![(start, end)])
                } else if s[next] != COMMA {
                    Err(JsonParseError::SeparatorExpected)
                } else if next < from {
                    Err(JsonParseError::UnexpectedEnd)
                } else {
                    with_object_in_front((start, end), objects_from(s, next + 1))
                }
            },
        }
    }
}

/// The objects of the array that the text holds, in the order in which
/// they stand.
pub open spec fn array_objects(s: Seq<u8>) -> Result<Seq<(int, int)>, JsonParseError> {
    let open = skip_spaces(s, 0);
    if open >= s.len() {
        Err(JsonParseError::UnexpectedEnd)
    } else if s[open] != OPEN_BRACKET {
        Err(JsonParseError::ArrayExpected)
    } else {
        objects_from(s, open + 1)
    }
}

/// The objects that reading finds lie within the text.
pub proof fn lemma_objects_from_fit(s: Seq<u8>, from: int)
    requires
        0 <= from,
    ensures
        objects_from(s, from) matches Ok(objects) ==> forall|i: int|
            0 <= i < objects.len() ==> 0 <= (#[trigger] objects[i]).0 < objects[i].1 <= s.len(),
    decreases s.len() - from,
{
    if from <= s.len() {
        lemma_skip_spaces_range(s, from);
    }
    let start = skip_spaces(s, from);
    if let Ok(objects) = objects_from(s, from) {
        if s[start] != CLOSE_BRACKET {
            lemma_nested_end_range(s, start + 1, 1);
            let end = nested_end(s, start + 1, 1).unwrap();
            lemma_skip_spaces_range(s, end);
            let next = skip_spaces(s, end);
            if s[next] == CLOSE_BRACKET {
                assert(objects =~= seq![(start, end)]);
            } else {
                lemma_objects_from_fit(s, next + 1);
                let rest = objects_from(s, next + 1).unwrap();
                assert(objects =~= seq![(start, end)] + rest);
                assert forall|i: int| 0 <= i < objects.len() implies 0 <= (
                #[trigger] objects[i]).0 < objects[i].1 <= s.len() by {
                    if i > 0 {
                        assert(objects[i] == rest[i - 1]);
                    }
                }
            }
        }
    }
}

/// The objects of an array lie within the text.
pub proof fn lemma_array_objects_fit(s: Seq<u8>)
    ensures
        array_objects(s) matches Ok(objects) ==> forall|i: int|
            0 <= i < objects.len() ==> 0 <= (#[trigger] objects[i]).0 < objects[i].1 <= s.len(),
{
    lemma_skip_spaces_range(s, 0);
    lemma_objects_from_fit(s, skip_spaces(s, 0) + 1);
}

/// The places as mathematical integers.
pub open spec fn ranges_of(objects: Seq<(usize, usize)>) -> Seq<(int, int)> {
    objects.map_values(|p: (usize, usize)| (p.0 as int, p.1 as int))
}

pub open spec fn with_objects_in_front(
    objects: Seq<(int, int)>,
    rest: Result<Seq<(int, int)>, JsonParseError>,
) -> Result<Seq<(int, int)>, JsonParseError> {
    match rest {
        Ok(more) => Ok(objects + more),
        Err(e) => Err(e),
    }
}

/// Reads where the objects of the JSON array stand that `src` holds.
pub fn split_array_json_to_objects(src: &[u8]) -> (r: Result<Vec<(usize, usize)>, JsonParseError>)
    ensures
        match r {
            Ok(objects) => array_objects(src@) == Ok::<Seq<(int, int)>, JsonParseError>(
                ranges_of(objects@),
            ),
            Err(e) => array_objects(src@) == Err::<Seq<(int, int)>, JsonParseError>(e),
        },
{
    let n: usize = src.len();
    let open: usize = skip_spaces_from(src, 0);
    if open >= n {
        return Err(JsonParseError::UnexpectedEnd);
    }
    if src[open] != OPEN_BRACKET {
        return Err(JsonParseError::ArrayExpected);
    }
    let mut objects: Vec<(usize, usize)> = Vec::new();
    let mut from: usize = open + 1;
    assert(with_objects_in_front(ranges_of(objects@), objects_from(src@, from as int))
        == objects_from(src@, from as int)) by {
        match objects_from(src@, from as int) {
            Ok(more) => {
                assert(ranges_of(objects@) + more =~= more);
            },
            Err(_) => {},
        }
    }
    loop
        invariant
            n == src.len(),
            from <= n,
            array_objects(src@) == with_objects_in_front(
                ranges_of(objects@),
                objects_from(src@, from as int),
            ),
        decreases n - from,
    {
        let start: usize = skip_spaces_from(src, from);
        if start >= n {
            return Err(JsonParseError::UnexpectedEnd);
        }
        if src[start] == CLOSE_BRACKET {
            assert(ranges_of(objects@) + Seq::<(int, int)>::empty() =~= ranges_of(objects@));
            return Ok(objects);
        }
        if src[start] != OPEN_BRACE {
            return Err(JsonParseError::ObjectExpected);
        }
        let end: usize = match find_nested_end(src, start + 1) {
            Some(behind) => behind,
            None => {
                return Err(JsonParseError::UnexpectedEnd);
            },
        };
        let next: usize = skip_spaces_from(src, end);
        if next >= n {
            return Err(JsonParseError::UnexpectedEnd);
        }
        let ghost before = ranges_of(objects@);
        objects.push((start, end));
        assert(ranges_of(objects@) =~= before + seq![(start as int, end as int)]);
        if src[next] == CLOSE_BRACKET {
            return Ok(objects);
        }
        if src[next] != COMMA {
            return Err(JsonParseError::SeparatorExpected);
        }
        proof {
            match objects_from(src@, next + 1) {
                Ok(more) => {
                    assert(before + (seq![(start as int, end as int)] + more) =~= (before
                        + seq![(start as int, end as int)]) + more);
                },
                Err(_) => {},
            }
        }
        from = next + 1;
    }
}

} // verus!
