//! Errors raised while drawing a diagram.

use vstd::prelude::*;

use crate::err::LayoutErr;

verus! {

/// An error raised while drawing a diagram.
#[derive(Debug)]
pub enum DrawErr {
    /// The graph could not be laid out.
    Layout(LayoutErr),
    /// The diagram contains invalid data.
    Invalid(String),
}

impl DrawErr {
    /// An error for invalid diagram data, carrying `msg`.
    pub fn new(msg: String) -> (e: DrawErr)
        ensures
            e == DrawErr::Invalid(msg),
    {
        DrawErr::Invalid(msg)
    }
}

impl From<LayoutErr> for DrawErr {
    fn from(e: LayoutErr) -> (r: DrawErr) {
        DrawErr::Layout(e)
    }
}

impl vstd::std_specs::convert::FromSpecImpl<LayoutErr> for DrawErr {
    open spec fn obeys_from_spec() -> bool {
        true
    }

    open spec fn from_spec(e: LayoutErr) -> DrawErr {
        DrawErr::Layout(e)
    }
}

} // verus!
