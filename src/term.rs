use vstd::prelude::*;

verus! {

/// The abstract value of a name: its text and the byte offset of its occurrence.
pub struct NameV {
    pub text: Seq<char>,
    pub at: nat,
}

/// An identifier together with the byte offset at which it was read.
///
/// Two names are equal when their texts are; the offset only serves diagnostics.
#[derive(Clone, Debug)]
pub struct Term(pub String, pub usize);

impl View for Term {
    type V = NameV;

    open spec fn view(&self) -> NameV {
        NameV { text: self.0@, at: self.1 as nat }
    }
}

impl Term {
    /// A copy of this name with the same text and offset.
    pub fn dup(&self) -> (r: Term)
        ensures
            r@ == self@,
    {
        Term(self.0.clone(), self.1)
    }

    /// Whether the two names have the same text.
    pub fn same_name(&self, other: &Term) -> (r: bool)
        ensures
            r == (self.0@ == other.0@),
    {
        self.0 == other.0
    }

    /// The text of the name.
    pub fn text(&self) -> (r: &str)
        ensures
            r@ == self.0@,
    {
        self.0.as_str()
    }
}

impl PartialEq for Term {
    fn eq(&self, other: &Term) -> (r: bool) {
        self.0 == other.0
    }
}

impl vstd::std_specs::cmp::PartialEqSpecImpl for Term {
    open spec fn obeys_eq_spec() -> bool {
        true
    }

    open spec fn eq_spec(&self, other: &Term) -> bool {
        self.0@ == other.0@
    }
}

impl Eq for Term {
}

} // verus!
