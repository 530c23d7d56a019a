use vstd::prelude::*;
use crate::db_json_entity::expires_update::append;
use crate::db_json_entity::first_line_reader::{CLOSE_BRACKET, COMMA, OPEN_BRACKET};

verus! {

/// The elements one behind the other, with a comma between each two.
pub open spec fn joined(elements: Seq<Seq<u8>>) -> Seq<u8>
    decreases elements.len(),
{
    if elements.len() == 0 {
        Seq::empty()
    } else if elements.len() == 1 {
        elements[0]
    } else {
        joined(elements.drop_last()) + seq![COMMA] + elements.last()
    }
}

/// The text of the JSON array of the elements: `[`, the elements with
/// commas between them, and `]`.
pub open spec fn json_array_text(elements: Seq<Seq<u8>>) -> Seq<u8> {
    seq![OPEN_BRACKET] + joined(elements) + seq![CLOSE_BRACKET]
}

/// Writes a JSON array element by element.
pub struct JsonArrayWriter {
    pub raw: Vec<u8>,
    pub first_element: bool,
    pub elements: Ghost<Seq<Seq<u8>>>,
}

impl JsonArrayWriter {
    /// What was written so far is `[` and the elements with their commas.
    pub open spec fn wf(&self) -> bool {
        &&& self.raw@ == seq![OPEN_BRACKET] + joined(self.elements@)
        &&& self.first_element == (self.elements@.len() == 0)
    }

    pub fn new() -> (r: Self)
        ensures
            r.wf(),
            r.elements@.len() == 0,
    {
        let mut raw: Vec<u8> = Vec::new();
        raw.push(OPEN_BRACKET);
        let r = JsonArrayWriter { raw, first_element: true, elements: Ghost(Seq::empty()) };
        assert(r.raw@ =~= seq![OPEN_BRACKET] + joined(r.elements@));
        r
    }

    /// Writes the bytes as the next element, as they are.
    pub fn write_raw_element(&mut self, raw: &[u8])
        requires
            old(self).wf(),
        ensures
            final(self).wf(),
            final(self).elements@ == old(self).elements@.push(raw@),
    {
        let ghost before = self.elements@;
        if self.first_element {
            self.first_element = false;
        } else {
            self.raw.push(COMMA);
        }
        append(&mut self.raw, raw);
        self.elements = Ghost(before.push(raw@));
        proof {
            let after = before.push(raw@);
            assert(after.drop_last() =~= before);
            assert(self.raw@ =~= seq![OPEN_BRACKET] + joined(after));
        }
    }

    /// The text of the array.
    pub fn build(self) -> (r: Vec<u8>)
        requires
            self.wf(),
        ensures
            r@ == json_array_text(self.elements@),
    {
        let mut raw = self.raw;
        raw.push(CLOSE_BRACKET);
        raw
    }
}

} // verus!
