//! Where else a pane's output goes: a `pipe-pane` command, and a recording.
use vstd::prelude::*;

use crate::command::{Ended, Outcome};
use crate::observe::opt_text;
use crate::pane::{Pane, Pipe};
use crate::text::{decimal, joined2, joined3, number_text};

verus! {

impl Pane {
    /// The command that a `pipe-pane` starts: none without one, and with `-o`
    /// (`toggle`) none while one is running, which only stops then.
    pub fn pipe_wanted(&self, command: Option<String>, toggle: bool) -> (wanted: Option<String>)
        ensures
            wanted == if toggle && self.pipe is Some {
                None
            } else {
                command
            },
    {
        if toggle && self.pipe.is_some() {
            None
        } else {
            command
        }
    }

    /// The pane's output goes to another command from now on, or to none. The
    /// old one stops first, whatever became of the new one: `started` is why
    /// that did not start, if it did not.
    pub fn pipe_to(&mut self, command: Option<String>, output: bool, started: Result<(), String>) -> (out: Outcome)
        ensures
            *final(self) == (Pane { pipe: final(self).pipe, ..*old(self) }),
            match (command, started) {
                (None, _) => final(self).pipe is None && out@ == Ended::Done,
                (Some(_), Err(e)) => final(self).pipe is None && out@ == Ended::Error(e@),
                (Some(c), Ok(_)) => final(self).pipe == Some(Pipe { command: c, output, dropped: 0 }) && out@
                    == Ended::Done,
            },
    {
        self.pipe = None;
        match command {
            None => Outcome::Done,
            Some(command) => match started {
                Err(e) => Outcome::Error(e),
                Ok(()) => {
                    self.pipe = Some(Pipe { command, output, dropped: 0 });
                    Outcome::Done
                },
            },
        }
    }

    /// The pane's output is recorded in a file from now on; what was recorded
    /// before ends. `opened` is why the file could not be made, if it could
    /// not.
    pub fn record_to(&mut self, path: &str, opened: Result<(), String>) -> (out: Outcome)
        ensures
            *final(self) == (Pane { recording: final(self).recording, ..*old(self) }),
            match opened {
                Err(e) => final(self).recording is None && out@ == Ended::Error(e@),
                Ok(_) => opt_text(final(self).recording) == Some(path@) && out@ == Ended::Text(
                    "recording %"@ + decimal(old(self).id as nat) + " to "@ + path@,
                ),
            },
    {
        self.recording = None;
        match opened {
            Err(e) => Outcome::Error(e),
            Ok(()) => {
                self.recording = Some(path.to_string());
                let id = number_text(self.id as u64);
                let head = joined3("recording %", id.as_str(), " to ");
                Outcome::Text(joined2(head.as_str(), path))
            },
        }
    }

    /// A recording ends, and the file that was closed is told.
    pub fn stop_recording(&mut self) -> (out: Outcome)
        ensures
            *final(self) == (Pane { recording: None, ..*old(self) }),
            out@ == match old(self).recording {
                Some(was) => Ended::Text("recording stopped: "@ + was@),
                None => Ended::Error("not recording"@),
            },
    {
        match self.recording.take() {
            Some(was) => Outcome::Text(joined2("recording stopped: ", was.as_str())),
            None => Outcome::Error("not recording".to_owned()),
        }
    }
}

} // verus!
