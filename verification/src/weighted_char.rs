use vstd::prelude::*;

verus! {

/// A single character paired with the number of times it has been observed
/// after some predecessor.
///
/// Identity is the character alone: two weighted characters are equal exactly
/// when their characters are equal, whatever their weights, so that a
/// collection of them can act as a character-to-weight map.
#[derive(Clone, Copy, Debug)]
pub struct WeightedChar {
    data: char,
    weight: u32,
}

impl WeightedChar {
    /// The character this entry stands for.
    pub closed spec fn spec_char(self) -> char {
        self.data
    }

    /// The observation count this entry carries.
    pub closed spec fn spec_weight(self) -> u32 {
        self.weight
    }

    /// A fresh entry with weight zero.
    pub fn new(data: char) -> (r: Self)
        ensures
            r.spec_char() == data,
            r.spec_weight() == 0,
    {
        WeightedChar { data, weight: 0 }
    }

    /// A fresh entry with the given weight.
    pub fn new_with_weight(data: char, weight: u32) -> (r: Self)
        ensures
            r.spec_char() == data,
            r.spec_weight() == weight,
    {
        WeightedChar { data, weight }
    }

    pub fn get_char(&self) -> (c: char)
        ensures
            c == self.spec_char(),
    {
        self.data
    }

    pub fn get_weight(&self) -> (w: u32)
        ensures
            w == self.spec_weight(),
    {
        self.weight
    }
}

impl PartialEq for WeightedChar {
    fn eq(&self, other: &Self) -> (r: bool) {
        self.data == other.data
    }
}

impl Eq for WeightedChar {

}

impl vstd::std_specs::cmp::PartialEqSpecImpl for WeightedChar {
    open spec fn obeys_eq_spec() -> bool {
        true
    }

    open spec fn eq_spec(&self, other: &Self) -> bool {
        self.spec_char() == other.spec_char()
    }
}

} // verus!
