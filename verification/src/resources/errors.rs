//! The one error the service reports: an internal failure with a message.
use vstd::prelude::*;
use vstd::string::*;

verus! {

/// An internal failure, with the message of what went wrong.
#[derive(Debug)]
pub struct Internal(pub String);

impl Internal {
    /// `INTERNAL(message)`.
    pub open spec fn text_spec(&self) -> Seq<char> {
        "INTERNAL("@ + self.0@ + ")"@
    }

    /// The failure as text: `INTERNAL(message)`.
    pub fn to_string(&self) -> (res: String)
        ensures
            res@ == self.text_spec(),
    {
        let mut text = String::from_str("INTERNAL(");
        text.append(self.0.as_str());
        text.append(")");
        text
    }
}

} // verus!
