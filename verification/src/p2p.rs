//! What the peer-to-peer layer reports when it fails.

use vstd::prelude::*;

verus! {

/// A failure of the peer-to-peer layer, with its description.
#[derive(Debug)]
pub struct P2pErr {
    text: String,
}

impl View for P2pErr {
    type V = Seq<char>;

    /// The description.
    closed spec fn view(&self) -> Seq<char> {
        self.text@
    }
}

impl P2pErr {
    /// A failure described by `message`.
    pub fn new(message: String) -> (error: Self)
        ensures
            error@ == message@,
    {
        P2pErr { text: message }
    }

    /// The description of the failure.
    pub fn text(&self) -> (text: &str)
        ensures
            text@ == self@,
    {
        self.text.as_str()
    }
}

} // verus!
