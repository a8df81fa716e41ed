//! The words commands are made of.
use vstd::prelude::*;

use crate::chooser::SessionId;
use crate::layout::PaneId;

verus! {

/// A direction, as `select-pane` and `resize-pane` take one.
#[derive(Clone, Copy, Debug, PartialEq, Eq, Structural)]
pub enum Dir {
    Left,
    Right,
    Up,
    Down,
}

/// An entry of a `display-menu`: its label, the key that picks it, and the
/// command line it runs. Without a key or a command it is a label nobody can
/// pick.
pub struct MenuItem {
    pub name: String,
    pub key: Option<String>,
    pub cmd: Option<String>,
}

/// What a command is about: a session, one of its windows, one of the panes
/// of that window; or a pane by its number.
#[derive(Debug, PartialEq, Eq)]
pub struct Target {
    pub session: Option<String>,
    pub window: Option<String>,
    pub pane: Option<usize>,
    pub pane_id: Option<PaneId>,
}

/// How a command ended.
#[derive(Debug, PartialEq, Eq)]
pub enum Outcome {
    Done,
    Text(String),
    Attach(SessionId),
    Error(String),
    /// The result arrives later; nothing to send yet.
    Pending,
}

/// How a command ended, as mathematics.
pub ghost enum Ended {
    Done,
    Text(Seq<char>),
    Attach(SessionId),
    Error(Seq<char>),
    Pending,
}

impl View for Outcome {
    type V = Ended;

    open spec fn view(&self) -> Ended {
        match *self {
            Outcome::Done => Ended::Done,
            Outcome::Text(t) => Ended::Text(t@),
            Outcome::Attach(s) => Ended::Attach(s),
            Outcome::Error(e) => Ended::Error(e@),
            Outcome::Pending => Ended::Pending,
        }
    }
}

impl Outcome {
    /// A result without a value.
    pub fn of(r: Result<(), String>) -> (out: Outcome)
        ensures
            out@ == match r {
                Ok(_) => Ended::Done,
                Err(e) => Ended::Error(e@),
            },
    {
        match r {
            Ok(_) => Outcome::Done,
            Err(e) => Outcome::Error(e),
        }
    }
}

} // verus!
