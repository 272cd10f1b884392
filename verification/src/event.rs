//! What the sender and the receiver report to the front end.

use vstd::prelude::*;

verus! {

/// One event for the event sink.
#[derive(Debug, Clone, PartialEq, Eq)]
pub enum Action {
    /// A line of text for the log.
    Log(String),
    /// The request to begin a send.
    TempSend,
}

/// An event with its text as a sequence of characters.
pub enum ActionView {
    Log(Seq<char>),
    TempSend,
}

impl View for Action {
    type V = ActionView;

    open spec fn view(&self) -> ActionView {
        match self {
            Action::Log(line) => ActionView::Log(line@),
            Action::TempSend => ActionView::TempSend,
        }
    }
}

/// The events of a list, each by its view.
pub open spec fn views(events: Seq<Action>) -> Seq<ActionView> {
    Seq::new(events.len(), |i: int| events[i]@)
}

} // verus!
