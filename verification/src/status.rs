//! Completion status of a task.

use vstd::prelude::*;

verus! {

/// Whether a task has been finished or is still to be done.
#[derive(Clone, Copy, Debug, PartialEq, Eq, Structural)]
pub enum Status {
    Complete,
    Todo,
}

/// A status counts as complete exactly when it is `Complete`.
pub open spec fn spec_is_complete(s: Status) -> bool {
    s == Status::Complete
}

impl Status {
    /// Textual marker used when a task is rendered: a ticked box for a
    /// complete task, an empty box for one still to do.
    pub fn to_string(&self) -> (r: String)
        ensures
            r@ == (match *self {
                Status::Complete => "(\u{2714})"@,
                Status::Todo => "( )"@,
            }),
    {
        match self {
            Status::Complete => String::from_str("(\u{2714})"),
            Status::Todo => String::from_str("( )"),
        }
    }
}

} // verus!
