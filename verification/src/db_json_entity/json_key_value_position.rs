use vstd::prelude::*;

verus! {

/// Where a field stands in the bytes of a JSON object: its name from the
/// opening quote to behind the closing one, and its value from its first
/// byte to behind its last (for a string, the quotes included).
#[derive(Debug, Clone, Copy, PartialEq, Eq, Structural)]
pub struct JsonKeyValuePosition {
    pub key_start: usize,
    pub key_end: usize,
    pub value_start: usize,
    pub value_end: usize,
}

/// A field's place as mathematical integers.
pub struct FieldSpan {
    pub key_start: int,
    pub key_end: int,
    pub value_start: int,
    pub value_end: int,
}

impl FieldSpan {
    /// The same place in a text that has `by` more bytes in front.
    pub open spec fn shifted(self, by: int) -> FieldSpan {
        FieldSpan {
            key_start: self.key_start + by,
            key_end: self.key_end + by,
            value_start: self.value_start + by,
            value_end: self.value_end + by,
        }
    }

    /// A name of at least two bytes, then a value of at least one, all
    /// within `len` bytes.
    pub open spec fn fits(self, len: int) -> bool {
        0 <= self.key_start && self.key_start + 2 <= self.key_end <= self.value_start
            < self.value_end <= len
    }
}

impl View for JsonKeyValuePosition {
    type V = FieldSpan;

    open spec fn view(&self) -> FieldSpan {
        FieldSpan {
            key_start: self.key_start as int,
            key_end: self.key_end as int,
            value_start: self.value_start as int,
            value_end: self.value_end as int,
        }
    }
}

} // verus!
