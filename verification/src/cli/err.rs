//! The command line's error: a message for the user.

use vstd::prelude::*;
use vstd::string::StringExecFns;

use crate::draw::err::DrawErr;
use crate::err::layout_msg;

verus! {

/// An error reported by the command line; it reads as its message.
#[derive(Debug)]
pub struct CliErr(String);

impl View for CliErr {
    type V = Seq<char>;

    /// The message.
    closed spec fn view(&self) -> Seq<char> {
        self.0@
    }
}

impl CliErr {
    /// An error with the message `msg`.
    pub fn new(msg: String) -> (e: CliErr)
        ensures
            e@ == msg@,
    {
        CliErr(msg)
    }

    /// The message.
    pub fn message(&self) -> (m: &String)
        ensures
            m@ == self@,
    {
        &self.0
    }
}

/// How a drawing error reads on the command line: a layout failure says
/// that the graph could not be laid out and why; invalid data reads as its
/// own message.
pub open spec fn draw_err_msg(err: DrawErr) -> Seq<char> {
    match err {
        DrawErr::Layout(e) => "could not lay out graph: "@ + layout_msg(e),
        DrawErr::Invalid(m) => m@,
    }
}

/// Turns a drawing error into the command line's error.
pub fn draw_err(err: DrawErr) -> (r: CliErr)
    ensures
        r@ == draw_err_msg(err),
{
    match err {
        DrawErr::Layout(e) => {
            let mut msg = String::from_str("could not lay out graph: ");
            let m = e.message();
            msg.append(m.as_str());
            CliErr::new(msg)
        },
        DrawErr::Invalid(m) => CliErr::new(m),
    }
}

} // verus!
