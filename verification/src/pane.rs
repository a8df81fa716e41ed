//! A pane: what the server knows of a program running in a terminal.
use std::collections::VecDeque;

use vstd::prelude::*;
use vstd::utf8::encode_utf8;

use crate::actor::{Actor, ActorState};
use crate::announce::Callbacks;
use crate::copy_mode::{copy_search, enter_copy_mode, entered, search_from, searched, CopyMode};
use crate::display::{text_columns, text_width};
use crate::history::{gathered, held, mark_dated, writable, written, PaneLog, HOLD_FOR, HOLD_LINES};
use crate::input::{encode_paste, paste_text};
use crate::layout::PaneId;
use crate::marks::{after_marks, apply_marks, in_line_order, pinned, reachable, Mark, MAX_MARKS};
use crate::observe::opt_text;
use crate::screen::Screen;
use crate::tasks::words_it;
use crate::text::{joined2, lower, same_text, texts_of};
use crate::time::Time;

verus! {

/// A `pipe-pane` command that a pane's output goes to.
#[derive(Debug, PartialEq, Eq)]
pub struct Pipe {
    pub command: String,
    /// Whether the pane's output goes to the command.
    pub output: bool,
    /// Bytes the command did not take.
    pub dropped: u64,
}

/// What became of bytes handed to a pipe.
#[derive(Clone, Copy, Debug, PartialEq, Eq, Structural)]
pub enum Handed {
    Taken,
    Full,
    Closed,
}

#[derive(Debug)]
pub struct Pane {
    pub id: PaneId,
    /// Bumped by `respawn`; events from an older generation are ignored.
    pub generation: u32,
    pub title: String,
    /// The last title the program itself sent. Sending the same one again
    /// is not a new title and does not undo a title given by hand; a
    /// different one does.
    pub program_title: Option<String>,
    pub command: String,
    /// The command line this pane was started with.
    pub argv: Vec<String>,
    pub cwd: Option<String>,
    /// `cwd` came from the shell itself, not from where the pane was
    /// started; from then on the shell's word is final.
    pub announced: bool,
    /// A resumed pane's saved output has all been printed.
    pub replay_done: bool,
    pub exit_code: Option<u32>,
    /// A clock is drawn over this pane until a key arrives.
    pub clock: bool,
    pub copy: Option<CopyMode>,
    pub bell: bool,
    pub cols: u16,
    pub rows: u16,
    pub pipe: Option<Pipe>,
    /// Where the pane's output is being recorded.
    pub recording: Option<String>,
    /// Process id of the pane's program.
    pub pid: Option<u32>,
    /// When the current program was started, and when it last printed
    /// anything, in milliseconds of the server's clock.
    pub spawned_at: u64,
    pub last_output: u64,
    /// How many times it has printed.
    pub output_count: u64,
    /// The commands its shell ran, oldest first.
    pub marks: VecDeque<Mark>,
    /// Whether what scrolls off goes to a history log, and how far it has.
    pub logging: bool,
    pub log: PaneLog,
    /// When its program exited, while the pane is kept.
    pub died_at: Option<u64>,
    pub actor: Actor,
    /// The server's own prompt came through since it last looked.
    pub prompted: bool,
    /// Where the message delivered last was typed, and the first line after
    /// it as typed.
    pub delivered_line: Option<(u64, u64)>,
    /// The prompt came and the server waits a moment before taking the
    /// command as done; nothing is typed in meanwhile.
    pub settle: bool,
}

/// `n`, or one when it is nothing.
pub open spec fn at_least_one(n: u16) -> u16 {
    if n == 0 {
        1
    } else {
        n
    }
}

/// The copy cursor kept on a screen of `cols` by `rows`.
pub open spec fn copy_kept_on(c: CopyMode, cols: u16, rows: u16) -> CopyMode {
    CopyMode {
        cx: if c.cx < cols {
            c.cx
        } else {
            (cols - 1) as u16
        },
        cy: if c.cy < rows {
            c.cy
        } else {
            (rows - 1) as u16
        },
        ..c
    }
}

/// Pane `p` at a size: never less than one cell, and the copy cursor stays
/// on it.
pub open spec fn sized(p: Pane, cols: u16, rows: u16) -> Pane {
    let cols = at_least_one(cols);
    let rows = at_least_one(rows);
    if p.cols == cols && p.rows == rows {
        p
    } else {
        Pane {
            cols,
            rows,
            copy: match p.copy {
                Some(c) => Some(copy_kept_on(c, cols, rows)),
                None => None,
            },
            ..p
        }
    }
}

/// The rows a text of `width` columns takes as typed from column `col` in a
/// pane `cols` wide: one that ends exactly at the right edge moves the cursor
/// to the next row, and its Enter one more.
pub open spec fn rows_typed(col: int, width: int, cols: u16) -> int {
    (col + width) / (at_least_one(cols) as int) + 1
}

impl Pane {
    /// A pane whose program was just started. `command` is the program's
    /// name, `now` the server's clock.
    pub fn started(
        id: PaneId,
        command: String,
        argv: Vec<String>,
        cwd: Option<String>,
        cols: u16,
        rows: u16,
        now: u64,
    ) -> (p: Pane)
        ensures
            p.id == id && p.generation == 0,
            p.title@.len() == 0 && p.program_title is None,
            p.command == command && p.argv == argv && p.cwd == cwd,
            !p.announced && !p.replay_done && p.exit_code is None && !p.clock && p.copy is None && !p.bell,
            p.cols == cols && p.rows == rows,
            p.pipe is None && p.recording is None && p.pid is None,
            p.spawned_at == now && p.last_output == now && p.output_count == 0,
            p.marks@.len() == 0 && !p.logging && p.died_at is None,
            p.log.logged == 0 && p.log.hold@.len() == 0 && p.log.hold_since is None && p.log.buf@.len() == 0,
            p.actor@.inbox.len() == 0 && p.actor.mode is Normal && p.actor.name is None && p.actor.creator is None,
            p.actor.current is None && p.actor.last_read is None && p.actor.status is None,
            !p.actor.at_prompt && !p.actor.ready && !p.actor.typed_while_working,
            !p.prompted && p.delivered_line is None && !p.settle,
    {
        Pane {
            id,
            generation: 0,
            title: String::new(),
            program_title: None,
            command,
            argv,
            cwd,
            announced: false,
            replay_done: false,
            exit_code: None,
            clock: false,
            copy: None,
            bell: false,
            cols,
            rows,
            pipe: None,
            recording: None,
            pid: None,
            spawned_at: now,
            last_output: now,
            output_count: 0,
            marks: VecDeque::new(),
            logging: false,
            log: PaneLog { logged: 0, hold: VecDeque::new(), hold_since: None, buf: String::new() },
            died_at: None,
            actor: Actor::default(),
            prompted: false,
            delivered_line: None,
            settle: false,
        }
    }
}

impl Pane {
    /// Another program starts in the pane: the one given, or else the one it
    /// had. The pane is as new but for its number, size and directory, and a
    /// generation on. `command` is the name of the program.
    pub fn respawn(&mut self, argv: Option<Vec<String>>, command: String, now: u64) -> (r: Result<(), String>)
        ensures
            ({
                let run = texts_of(
                    match argv {
                        Some(a) => a@,
                        None => old(self).argv@,
                    },
                );
                let p = *final(self);
                if run.len() == 0 {
                    r is Err && r->Err_0@ == "pane has no command to respawn"@ && p == *old(self)
                } else {
                    &&& r is Ok
                    &&& p.id == old(self).id
                    &&& p.generation == if old(self).generation == u32::MAX {
                        0
                    } else {
                        old(self).generation + 1
                    }
                    &&& p.command == command && texts_of(p.argv@) == run && p.cwd == old(self).cwd
                    &&& p.cols == old(self).cols && p.rows == old(self).rows
                    &&& p.title@.len() == 0 && p.program_title is None
                    &&& !p.announced && !p.replay_done && p.exit_code is None && !p.clock && p.copy is None && !p.bell
                    &&& p.pipe is None && p.recording is None && p.pid is None
                    &&& p.spawned_at == now && p.last_output == now && p.output_count == 0
                    &&& p.marks@.len() == 0 && !p.logging && p.died_at is None
                    &&& p.log.logged == 0 && p.log.hold@.len() == 0 && p.log.hold_since is None && p.log.buf@.len() == 0
                    &&& p.actor@.inbox.len() == 0 && p.actor.mode is Normal && p.actor.name is None
                    &&& p.actor.creator is None && p.actor.current is None && p.actor.last_read is None
                    &&& p.actor.status is None
                    &&& !p.actor.at_prompt && !p.actor.ready && !p.actor.typed_while_working
                    &&& !p.prompted && p.delivered_line is None && !p.settle
                }
            }),
    {
        let run: Vec<String> = match argv {
            Some(a) => a,
            None => copied(&self.argv),
        };
        if run.len() == 0 {
            return Err("pane has no command to respawn".to_owned());
        }
        let next: u32 = if self.generation == u32::MAX { 0 } else { self.generation + 1 };
        let cwd: Option<String> = match &self.cwd {
            Some(d) => Some(d.clone()),
            None => None,
        };
        let mut p = Pane::started(self.id, command, run, cwd, self.cols, self.rows, now);
        p.generation = next;
        *self = p;
        Ok(())
    }

    /// The program of a resumed pane starts, its saved output printed.
    pub fn start_pending(&mut self, pid: Option<u32>, now: u64)
        ensures
            *final(self) == (Pane { pid, exit_code: None, died_at: None, spawned_at: now, ..*old(self) }),
    {
        self.pid = pid;
        self.exit_code = None;
        self.died_at = None;
        self.spawned_at = now;
    }

    /// `clear-history`: the scrollback that copy mode and the marks refer to
    /// is gone, and lines are counted anew from `scrolled`.
    pub fn clear_history(&mut self, scrolled: u64)
        ensures
            final(self).copy is None && final(self).marks@.len() == 0 && final(self).log.logged == scrolled,
            *final(self) == (Pane {
                copy: None,
                marks: final(self).marks,
                log: PaneLog { logged: scrolled, ..old(self).log },
                ..*old(self)
            }),
    {
        self.copy = None;
        self.marks = VecDeque::new();
        self.log.logged = scrolled;
    }

    /// Once a second, whether the pane's output is logged: what is written now
    /// to the file it had. When logging ends, what was held back still goes
    /// out, and nothing from now on is kept; when it begins, it is from what
    /// scrolls next.
    pub fn history_turn<F: Fn(i64) -> String>(
        &mut self,
        on: bool,
        turned_on: bool,
        screen: &Screen,
        clock: u64,
        now: Time,
        say: &F,
    ) -> (batch: Option<String>)
        requires
            screen.wf(),
            now.valid(),
            old(self).log.hold_since is Some ==> old(self).log.hold_since->0 <= clock,
            forall|i: int| 0 <= i < pinned(old(self).marks@).len() ==> mark_dated(#[trigger] pinned(old(self).marks@)[i]),
            forall|ms: i64| #[trigger] call_requires(*say, (ms,)),
        ensures
            *final(self) == (Pane { logging: on, log: final(self).log, ..*old(self) }),
            ({
                let a = old(self).log;
                let b = final(self).log;
                let (hold, logged) = gathered(held(a.hold@), a.logged as int, *screen, false);
                let since = match a.hold_since {
                    Some(t) => t,
                    None => clock,
                };
                let give_up = hold.len() > HOLD_LINES || clock - since > HOLD_FOR;
                let n = writable(hold, pinned(old(self).marks@), give_up, 0);
                if on {
                    &&& b.logged == if turned_on && a.logged < screen.scrolled {
                        screen.scrolled
                    } else {
                        a.logged
                    }
                    &&& b.hold == a.hold && b.hold_since == a.hold_since && b.buf@.len() == 0
                    &&& is_batch(batch, a.buf@)
                } else if old(self).logging {
                    &&& b.logged == if logged < screen.scrolled {
                        screen.scrolled as int
                    } else {
                        logged
                    }
                    &&& held(b.hold@) == hold.skip(n) && b.buf@.len() == 0
                    &&& forall|words: spec_fn(i64) -> Seq<char>| #[trigger]
                        words_it(*say, words) ==> is_batch(
                            batch,
                            a.buf@ + written(hold, pinned(old(self).marks@), now, words, 0, n),
                        )
                } else {
                    &&& batch is None
                    &&& b == (PaneLog {
                        logged: if a.logged < screen.scrolled {
                            screen.scrolled
                        } else {
                            a.logged
                        },
                        ..a
                    })
                }
            }),
    {
        let was: bool = self.logging;
        self.logging = on;
        if !on {
            let mut batch: Option<String> = None;
            if was {
                batch = self.log.log_take(screen, &self.marks, false, clock, now, say);
                let rest = self.log.flush_log();
                if batch.is_none() {
                    batch = rest;
                }
            }
            if self.log.logged < screen.scrolled {
                self.log.logged = screen.scrolled;
            }
            return batch;
        }
        if turned_on && self.log.logged < screen.scrolled {
            self.log.logged = screen.scrolled;
        }
        self.log.flush_log()
    }
}

impl Pane {
    /// A search in copy mode, which is entered for it: what is told when
    /// nothing was found. An empty pattern is not searched for.
    pub fn search(&mut self, screen: &Screen, pattern: &str, back: bool, fresh: bool) -> (told: Option<String>)
        requires
            screen.live(),
        ensures
            *final(self) == (Pane { copy: final(self).copy, ..*old(self) }),
            if pattern@.len() == 0 {
                told is None && *final(self) == *old(self)
            } else {
                exists|c: CopyMode| #[trigger]
                    in_copy(*old(self), c, *screen) && final(self).copy is Some && searched(
                        c,
                        final(self).copy->0,
                        *screen,
                        pattern@,
                        back,
                        fresh,
                    ) && opt_text(told) == if search_from(
                        *screen,
                        c.search_start(*screen, back, fresh),
                        lower(pattern@),
                        back,
                    ) is Some {
                        None
                    } else {
                        Some("no match: "@ + pattern@)
                    }
            },
    {
        if pattern.is_empty() {
            return None;
        }
        let mut c: CopyMode = match self.copy.take() {
            Some(c) => c,
            None => enter_copy_mode(screen),
        };
        assert(in_copy(*old(self), c, *screen));
        let ghost from = c;
        let found: bool = copy_search(&mut c, screen, pattern, back, fresh);
        self.copy = Some(c);
        if found {
            None
        } else {
            Some(joined2("no match: ", pattern))
        }
    }
}

/// `c` is the copy mode of pane `p`, or one just entered when it is in none.
pub open spec fn in_copy(p: Pane, c: CopyMode, s: Screen) -> bool {
    match p.copy {
        Some(own) => c == own,
        None => entered(c, s),
    }
}

/// What goes to a file of `text`: nothing, when there is none.
pub open spec fn is_batch(batch: Option<String>, text: Seq<char>) -> bool {
    match batch {
        Some(b) => b@ == text && text.len() > 0,
        None => text.len() == 0,
    }
}

pub(crate) fn copied(v: &Vec<String>) -> (out: Vec<String>)
    ensures
        texts_of(out@) == texts_of(v@),
{
    let mut out: Vec<String> = Vec::new();
    let mut i: usize = 0;
    while i < v.len()
        invariant
            i <= v@.len(),
            out@.len() == i,
            forall|j: int| 0 <= j < i ==> (#[trigger] out@[j])@ == v@[j]@,
        decreases v.len() - i,
    {
        out.push(v[i].clone());
        i = i + 1;
    }
    assert(texts_of(out@) =~= texts_of(v@));
    out
}

impl Pane {
    /// What the title line shows: the title, or the command when there is
    /// none.
    pub open spec fn shown_title(self) -> Seq<char> {
        if self.title@.len() == 0 {
            self.command@
        } else {
            self.title@
        }
    }

    /// Display name for the status line.
    pub fn display_title(&self) -> (s: &str)
        ensures
            s@ == self.shown_title(),
    {
        if self.title.as_str().is_empty() {
            self.command.as_str()
        } else {
            self.title.as_str()
        }
    }

    /// The directory the pane is in: what its shell announced, else the
    /// program's own current directory (`process`, as the system gives it
    /// for a process that runs), else where it was started.
    pub fn current_path(&self, process: Option<String>) -> (dir: Option<String>)
        ensures
            opt_text(dir) == if !self.announced && self.pid is Some && self.exit_code is None && process is Some {
                opt_text(process)
            } else {
                opt_text(self.cwd)
            },
    {
        if !self.announced && self.pid.is_some() && self.exit_code.is_none() && process.is_some() {
            return process;
        }
        match &self.cwd {
            Some(d) => Some(d.as_str().to_owned()),
            None => None,
        }
    }

    /// Give the pane a size. True when that is a change, which the terminal
    /// and the program have to be told.
    pub fn resize(&mut self, cols: u16, rows: u16) -> (changed: bool)
        ensures
            *final(self) == sized(*old(self), cols, rows),
            changed == (at_least_one(cols) != old(self).cols || at_least_one(rows) != old(self).rows),
    {
        let cols: u16 = if cols == 0 { 1 } else { cols };
        let rows: u16 = if rows == 0 { 1 } else { rows };
        if cols == self.cols && rows == self.rows {
            return false;
        }
        self.cols = cols;
        self.rows = rows;
        if let Some(c) = &mut self.copy {
            if c.cx >= cols {
                c.cx = cols - 1;
            }
            if c.cy >= rows {
                c.cy = rows - 1;
            }
        }
        true
    }

    /// Whether bytes written to the pane reach a program.
    pub fn takes_input(&self) -> (b: bool)
        ensures
            b == (self.exit_code is None),
    {
        self.exit_code.is_none()
    }

    /// Input from a person or a command acting for one (keys, a paste,
    /// `send-keys`): it also makes the pane busy for its messages. True when
    /// the bytes go to a program.
    pub fn type_input(&mut self) -> (write: bool)
        ensures
            write == (old(self).exit_code is None),
            final(self).actor@ == (ActorState {
                at_prompt: false,
                ready: false,
                typed: old(self).actor@.typed || old(self).actor@.current is Some,
                ..old(self).actor@
            }),
            *final(self) == (Pane { actor: final(self).actor, ..*old(self) }),
    {
        self.actor.input();
        self.exit_code.is_none()
    }

    /// Type a message into the pane and press Enter: as a paste when the
    /// program asked for bracketed paste, so a text of several lines arrives
    /// as one. The bytes to write come back.
    pub fn deliver(&mut self, text: &str, screen: &Screen) -> (bytes: Vec<u8>)
        requires
            screen.wf(),
            screen.scrolled + screen.cursor_row + screen.cursor_col + text_columns(text@) + 1 <= u64::MAX,
            screen.cursor_col + text_columns(text@) <= usize::MAX,
        ensures
            bytes@ == encode_utf8(paste_text(text@, screen.bracketed)).push(13u8),
            *final(self) == (Pane {
                delivered_line: Some(
                    (
                        (screen.scrolled + screen.cursor_row) as u64,
                        (screen.scrolled + screen.cursor_row + rows_typed(
                            screen.cursor_col as int,
                            text_columns(text@) as int,
                            old(self).cols,
                        )) as u64,
                    ),
                ),
                ..*old(self)
            }),
    {
        let col: usize = screen.cursor_col as usize;
        let width: usize = text_width(text);
        let cols: usize = if self.cols == 0 { 1 } else { self.cols as usize };
        let full: usize = (col + width) / cols;
        assert(full <= col + width) by (nonlinear_arith)
            requires
                full == (col + width) / cols as int,
                cols >= 1,
        ;
        let rows: u64 = full as u64 + 1;
        let line: u64 = screen.cursor_line();
        self.delivered_line = Some((line, line + rows));
        let mut bytes = encode_paste(text, screen.bracketed);
        bytes.push(13u8);
        bytes
    }

    /// As `deliver`, when the text's width is one that a row count can hold;
    /// nothing otherwise.
    pub fn deliver_checked(&mut self, text: &str, screen: &Screen) -> (bytes: Option<Vec<u8>>)
        requires
            screen.wf(),
        ensures
            ({
                let fits = screen.cursor_col + text_columns(text@) <= usize::MAX && screen.scrolled
                    + screen.cursor_row + screen.cursor_col + text_columns(text@) + 1 <= u64::MAX;
                &&& bytes is Some <==> fits
                &&& !fits ==> *final(self) == *old(self)
                &&& fits ==> bytes->0@ == encode_utf8(paste_text(text@, screen.bracketed)).push(13u8)
                &&& fits ==> *final(self) == (Pane {
                    delivered_line: Some(
                        (
                            (screen.scrolled + screen.cursor_row) as u64,
                            (screen.scrolled + screen.cursor_row + rows_typed(
                                screen.cursor_col as int,
                                text_columns(text@) as int,
                                old(self).cols,
                            )) as u64,
                        ),
                    ),
                    ..*old(self)
                })
            }),
    {
        let width: usize = text_width(text);
        let sum: u128 = screen.scrolled as u128 + screen.cursor_row as u128 + screen.cursor_col as u128 + width as u128
            + 1;
        if width > usize::MAX - screen.cursor_col as usize || sum > u64::MAX as u128 {
            None
        } else {
            Some(self.deliver(text, screen))
        }
    }

    /// Take the title the program sent, unless it is the one it sent last.
    fn entitle(&mut self, title: Option<String>)
        ensures
            ({
                let new_title = title is Some && opt_text(title) != opt_text(old(self).program_title);
                &&& final(self).title@ == if new_title {
                    title->0@
                } else {
                    old(self).title@
                }
                &&& opt_text(final(self).program_title) == if new_title {
                    opt_text(title)
                } else {
                    opt_text(old(self).program_title)
                }
            }),
            *final(self) == (Pane {
                title: final(self).title,
                program_title: final(self).program_title,
                ..*old(self)
            }),
    {
        if let Some(t) = title {
            let same: bool = match &self.program_title {
                Some(p) => same_text(p.as_str(), t.as_str()),
                None => false,
            };
            if !same {
                self.title = t.as_str().to_owned();
                self.program_title = Some(t);
            }
        }
    }

    /// Take in what the terminal model found in the pane's output; the
    /// answers the program waits for come back.
    #[verifier::spinoff_prover]
    #[verifier::rlimit(40)]
    pub fn process_output(&mut self, cb: &mut Callbacks, screen: &Screen) -> (responses: Vec<u8>)
        requires
            screen.wf(),
            in_line_order(pinned(old(self).marks@)),
        ensures
            responses@ == old(cb)@.responses,
            final(cb)@ == (crate::announce::Told {
                responses: Seq::empty(),
                title: None,
                bell: false,
                cwd: None,
                replayed: false,
                marks: Seq::empty(),
                prompted: false,
            }),
            ({
                let told = old(cb)@;
                let new_title = told.title is Some && told.title != opt_text(old(self).program_title);
                &&& final(self).title@ == if new_title {
                    told.title->0
                } else {
                    old(self).title@
                }
                &&& opt_text(final(self).program_title) == if new_title {
                    told.title
                } else {
                    opt_text(old(self).program_title)
                }
                &&& opt_text(final(self).cwd) == if told.cwd is Some {
                    told.cwd
                } else {
                    opt_text(old(self).cwd)
                }
                &&& final(self).announced == (old(self).announced || told.cwd is Some)
                &&& final(self).bell == (old(self).bell || told.bell)
                &&& final(self).prompted == (old(self).prompted || told.prompted)
                &&& final(self).replay_done == (old(self).replay_done || told.replayed)
                &&& final(self).log == (PaneLog {
                    logged: if told.replayed && old(self).log.logged < screen.scrolled + screen.cursor_row {
                        (screen.scrolled + screen.cursor_row) as u64
                    } else {
                        old(self).log.logged
                    },
                    ..old(self).log
                })
                &&& pinned(final(self).marks@) == if told.marks.len() == 0 {
                    pinned(old(self).marks@)
                } else {
                    reachable(
                        after_marks(pinned(old(self).marks@), *screen, told.marks, 0),
                        screen.oldest(),
                        MAX_MARKS as int,
                    )
                }
                &&& in_line_order(pinned(final(self).marks@))
            }),
            *final(self) == (Pane {
                title: final(self).title,
                program_title: final(self).program_title,
                cwd: final(self).cwd,
                announced: final(self).announced,
                bell: final(self).bell,
                prompted: final(self).prompted,
                replay_done: final(self).replay_done,
                log: final(self).log,
                marks: final(self).marks,
                ..*old(self)
            }),
    {
        let title = cb.title.take();
        self.entitle(title);
        let dir = cb.cwd.take();
        if let Some(d) = dir {
            self.cwd = Some(d);
            self.announced = true;
        }
        let replayed: bool = cb.replayed;
        cb.replayed = false;
        if cb.bell {
            cb.bell = false;
            self.bell = true;
        }
        let mut events: Vec<crate::marks::MarkEvent> = Vec::new();
        std::mem::swap(&mut events, &mut cb.marks);
        if cb.prompted {
            cb.prompted = false;
            self.prompted = true;
        }
        let mut responses: Vec<u8> = Vec::new();
        std::mem::swap(&mut responses, &mut cb.responses);
        if events.len() > 0 {
            apply_marks(&mut self.marks, screen, &events);
        }
        if replayed {
            self.replay_done = true;
            // What a resumed pane printed back is in the log already, from
            // before: its log starts where the program does.
            let line: u64 = screen.cursor_line();
            if self.log.logged < line {
                self.log.logged = line;
            }
        }
        responses
    }

    /// Take note of what became of `len` bytes of output handed to the
    /// pane's pipe. A command that has stopped reading loses bytes instead of
    /// holding the pane up, and one that has exited ends the pipe. The
    /// command comes back the first time output is lost.
    pub fn pipe_write(&mut self, len: u64, handed: Handed) -> (lossy: Option<String>)
        requires
            old(self).pipe matches Some(p) ==> p.dropped + len <= u64::MAX,
        ensures
            match old(self).pipe {
                None => lossy is None && *final(self) == *old(self),
                Some(p) => if !p.output || handed is Taken {
                    lossy is None && *final(self) == *old(self)
                } else if handed is Closed {
                    lossy is None && *final(self) == (Pane { pipe: None, ..*old(self) })
                } else {
                    &&& opt_text(lossy) == if p.dropped == 0 {
                        Some(p.command@)
                    } else {
                        None
                    }
                    &&& *final(self) == (Pane {
                        pipe: Some(Pipe { dropped: (p.dropped + len) as u64, ..p }),
                        ..*old(self)
                    })
                },
            },
    {
        let mut ends: bool = false;
        let mut lossy: Option<String> = None;
        if let Some(p) = &mut self.pipe {
            if p.output {
                match handed {
                    Handed::Taken => {},
                    Handed::Full => {
                        if p.dropped == 0 {
                            lossy = Some(p.command.as_str().to_owned());
                        }
                        p.dropped = p.dropped + len;
                    },
                    Handed::Closed => {
                        ends = true;
                    },
                }
            }
        }
        if ends {
            self.pipe = None;
        }
        lossy
    }
}

/// Giving a pane the same size again changes nothing.
pub proof fn lemma_sized_twice(p: Pane, cols: u16, rows: u16)
    ensures
        sized(sized(p, cols, rows), cols, rows) == sized(p, cols, rows),
{
}

} // verus!
