use vstd::prelude::*;

verus! {

/// The single error kind of the scanner, carrying the exact text that could
/// not be classified: a single unrecognized character, or the full digit run
/// whose value does not fit a 32-bit signed integer.
#[derive(Debug)]
pub struct SyntaxError {
    /// The offending lexeme.
    pub offending: String,
}

impl View for SyntaxError {
    type V = Seq<char>;

    open spec fn view(&self) -> Seq<char> {
        self.offending@
    }
}

impl PartialEq for SyntaxError {
    /// Two errors are equal iff they carry the same offending text.
    fn eq(&self, other: &Self) -> (r: bool) {
        self.offending == other.offending
    }
}

impl vstd::std_specs::cmp::PartialEqSpecImpl for SyntaxError {
    open spec fn obeys_eq_spec() -> bool {
        true
    }

    open spec fn eq_spec(&self, other: &SyntaxError) -> bool {
        self@ == other@
    }
}

} // verus!
