//! What clients are told: the outcomes of their commands, messages, and the
//! alerts of windows they do not look at.
use vstd::prelude::*;

use crate::chooser::{ClientId, SessionId};
use crate::client::{Client, Outbox, ServerMsg};
use crate::client_commands::client_set;
use crate::command::{Ended, Outcome};
use crate::config::{lines_of, split_lines};
use crate::layout::PaneId;
use crate::listings::{remembered, Messages};
use crate::pane::Pane;
use crate::server::{client_place, session_place, session_with, Options, Server};
use crate::server_edit::{at, edited, fitted_session, lemma_clients_stay, put_window};
use crate::session::{window_with, SessionState};
use crate::session_commands::{is_attached, touched};
use crate::tasks::clock;
use crate::text::{chars_of, decimal, joined2, push_sum, texts_of};
use crate::time::Time;
use crate::window::{ids, Window, WindowState};
use crate::window_commands::lemma_window_set;

verus! {

/// `s` with each `a` as `b`.
pub open spec fn replaced(s: Seq<char>, a: char, b: char) -> Seq<char> {
    Seq::new(
        s.len(),
        |i: int|
            if s[i] == a {
                b
            } else {
                s[i]
            },
    )
}

fn replace(s: &str, a: char, b: char) -> (out: String)
    ensures
        out@ == replaced(s@, a, b),
{
    let chars = chars_of(s);
    let mut out = String::new();
    let mut i: usize = 0;
    assert(out@ =~= replaced(s@, a, b).take(0));
    while i < chars.len()
        invariant
            i <= chars@.len(),
            chars@ == s@,
            out@ == replaced(s@, a, b).take(i as int),
        decreases chars.len() - i,
    {
        out.push(if chars[i] == a { b } else { chars[i] });
        assert(replaced(s@, a, b).take(i + 1) =~= replaced(s@, a, b).take(i as int).push(replaced(s@, a, b)[i as int]));
        i = i + 1;
    }
    assert(out@ =~= replaced(s@, a, b));
    out
}

/// A text was shown to a client: one line of it at the status line, more as an
/// overlay that stays until a key is pressed.
pub open spec fn is_shown(before: Client, after: Client, text: Seq<char>, at: u64) -> bool {
    if text.contains('\n') {
        &&& after == (Client { overlay: after.overlay, ..before })
        &&& after.overlay is Some
        &&& texts_of(after.overlay->0@) == lines_of(text, 0)
    } else {
        &&& after == (Client { message: after.message, ..before })
        &&& after.message is Some
        &&& (after.message->0).0@ == replaced(text, '\r', ' ')
        &&& (after.message->0).1 == at
    }
}

/// The messages remembered after a text was shown.
pub open spec fn shown_too(all: Seq<Seq<char>>, text: Seq<char>, now: Time) -> Seq<Seq<char>> {
    remembered(all, clock(now) + " "@ + replaced(text, '\n', ' '))
}

/// The clients are in order, whatever else changed of client `k`.
proof fn lemma_client_told(before: Server, after: Server, k: int)
    requires
        before.wf(),
        0 <= k < before.clients@.len(),
        client_set(before, after, k),
        after.clients@[k].id == before.clients@[k].id,
        after.clients@[k].session == before.clients@[k].session,
    ensures
        after.wf(),
{
    crate::client_commands::lemma_client_set(before, after, k);
}

fn holds_break(s: &Vec<char>) -> (b: bool)
    ensures
        b == s@.contains('\n'),
{
    let mut i: usize = 0;
    while i < s.len()
        invariant
            i <= s@.len(),
            forall|j: int| 0 <= j < i ==> s@[j] != '\n',
        decreases s.len() - i,
    {
        if s[i] == '\n' {
            assert(s@[i as int] == '\n');
            return true;
        }
        i = i + 1;
    }
    false
}

impl Server {
    fn show_at(&mut self, k: usize, text: &str, at: u64)
        requires
            old(self).wf(),
            k < old(self).clients@.len(),
        ensures
            final(self).wf(),
            client_set(*old(self), *final(self), k as int),
            is_shown(old(self).clients@[k as int], final(self).clients@[k as int], text@, at),
    {
        let ghost before = *self;
        if holds_break(&chars_of(text)) {
            let lines = split_lines(text);
            assert(texts_of(lines@) =~= lines_of(text@, 0));
            self.clients[k].overlay = Some(lines);
        } else {
            self.clients[k].message = Some((replace(text, '\r', ' '), at));
        }
        proof {
            assert(self.clients@ =~= before.clients@.update(k as int, self.clients@[k as int]));
            lemma_client_told(before, *self, k as int);
        }
    }

    /// One-line text goes to the status line for `display-time`; text of
    /// several lines becomes an overlay that stays until a key is pressed.
    pub fn show(&mut self, messages: &mut Messages, cid: ClientId, text: &str, at: u64, now: Time)
        requires
            old(self).wf(),
            now.valid(),
        ensures
            final(self).wf(),
            texts_of(final(messages).texts@) == shown_too(texts_of(old(messages).texts@), text@, now),
            ({
                let k = client_place(old(self).clients@, cid, 0);
                if k < old(self).clients@.len() {
                    client_set(*old(self), *final(self), k) && is_shown(
                        old(self).clients@[k],
                        final(self).clients@[k],
                        text@,
                        at,
                    )
                } else {
                    *final(self) == *old(self)
                }
            }),
    {
        messages.note(replace(text, '\n', ' ').as_str(), now);
        let k: usize = self.client_at(cid);
        if k < self.clients.len() {
            self.show_at(k, text, at);
        }
    }

    fn tell(&mut self, k: usize, first: Option<ServerMsg>, code: i32)
        requires
            old(self).wf(),
            k < old(self).clients@.len(),
        ensures
            final(self).wf(),
            client_set(*old(self), *final(self), k as int),
            is_told(old(self).clients@[k as int], final(self).clients@[k as int], first, code),
    {
        let ghost before = *self;
        if let Some(m) = first {
            self.clients[k].outbox.post(m);
        }
        self.clients[k].outbox.post(ServerMsg::Done { code });
        proof {
            assert(self.clients@ =~= before.clients@.update(k as int, self.clients@[k as int]));
            lemma_client_told(before, *self, k as int);
        }
    }

    /// Deliver a command's outcome to a client: one that is attached sees it,
    /// one that ran a command from a terminal gets it and ends. `errors` are
    /// shown to a client that attaches.
    #[verifier::spinoff_prover]
    #[verifier::rlimit(60)]
    pub fn reply(
        &mut self,
        messages: &mut Messages,
        cid: ClientId,
        out: Outcome,
        errors: Option<Vec<String>>,
        at: u64,
        now: Time,
    )
        requires
            old(self).wf(),
            now.valid(),
            match out {
                Outcome::Attach(sid) => session_place(old(self).states(), sid, 0) < old(self).states().len(),
                _ => true,
            },
        ensures
            final(self).wf(),
            ({
                let cs = old(self).clients@;
                let k = client_place(cs, cid, 0);
                let same = texts_of(final(messages).texts@) == texts_of(old(messages).texts@);
                if k >= cs.len() {
                    same && *final(self) == *old(self)
                } else {
                    let attached = cs[k].session is Some;
                    let after = final(self).clients@[k];
                    match out {
                        Outcome::Done => if attached {
                            same && *final(self) == *old(self)
                        } else {
                            same && client_set(*old(self), *final(self), k) && is_told(cs[k], after, None, 0)
                        },
                        Outcome::Text(t) => if attached {
                            &&& client_set(*old(self), *final(self), k)
                            &&& is_shown(cs[k], after, t@, at)
                            &&& texts_of(final(messages).texts@) == shown_too(texts_of(old(messages).texts@), t@, now)
                        } else {
                            same && client_set(*old(self), *final(self), k) && is_told(
                                cs[k],
                                after,
                                Some(ServerMsg::Text(t)),
                                0,
                            )
                        },
                        Outcome::Error(e) => if attached {
                            &&& client_set(*old(self), *final(self), k)
                            &&& is_shown(cs[k], after, e@, at)
                            &&& texts_of(final(messages).texts@) == shown_too(texts_of(old(messages).texts@), e@, now)
                        } else {
                            same && client_set(*old(self), *final(self), k) && is_told(
                                cs[k],
                                after,
                                Some(ServerMsg::Error(e)),
                                1,
                            )
                        },
                        Outcome::Pending => same && *final(self) == *old(self),
                        Outcome::Attach(sid) => {
                            let ss = old(self).states();
                            &&& same
                            &&& final(self).clients@ == cs.update(k, after)
                            &&& is_attached(
                                cs[k],
                                after,
                                sid,
                                ss[session_place(ss, sid, 0)].name,
                                old(self).opts.mouse,
                                errors,
                            )
                            &&& final(self).states() == touched(
                                fitted_session(ss, old(self).opts, final(self).clients@, sid, Some(cid)),
                                sid,
                                at,
                            )
                            &&& *final(self) == (Server {
                                sessions: final(self).sessions,
                                clients: final(self).clients,
                                ..*old(self)
                            })
                        },
                    }
                }
            }),
    {
        let k: usize = self.client_at(cid);
        if k >= self.clients.len() {
            return;
        }
        let attached: bool = self.clients[k].session.is_some();
        match out {
            Outcome::Done => {
                if !attached {
                    self.tell(k, None, 0);
                }
            },
            Outcome::Text(t) => {
                if attached {
                    self.show(messages, cid, t.as_str(), at, now);
                } else {
                    self.tell(k, Some(ServerMsg::Text(t)), 0);
                }
            },
            Outcome::Error(e) => {
                if attached {
                    self.show(messages, cid, e.as_str(), at, now);
                } else {
                    self.tell(k, Some(ServerMsg::Error(e)), 1);
                }
            },
            Outcome::Pending => {},
            Outcome::Attach(sid) => {
                let _ = self.attach(cid, sid, errors, at);
            },
        }
    }
}

/// A client that ran a command got its outcome and how it ended.
pub open spec fn is_told(before: Client, after: Client, first: Option<ServerMsg>, code: i32) -> bool {
    let sent = match first {
        Some(m) => before.outbox.pending@.push(m),
        None => before.outbox.pending@,
    };
    &&& after == (Client { outbox: after.outbox, ..before })
    &&& after.outbox == (Outbox { pending: after.outbox.pending, ..before.outbox })
    &&& after.outbox.pending@ == sent.push(ServerMsg::Done { code })
}

/// What a `run-shell` that ended leads to.
pub fn shell_outcome(output: &str, code: i32) -> (out: Outcome)
    ensures
        ({
            let text = crate::text::trim_end(output@);
            out@ == if code == 0 {
                if text.len() == 0 {
                    Ended::Done
                } else {
                    Ended::Text(text)
                }
            } else if text.len() == 0 {
                Ended::Error("shell exited with "@ + crate::marks::signed(code as int))
            } else {
                Ended::Error(text)
            }
        }),
{
    let text = crate::screen::without_blanks(output);
    if text.as_str().is_empty() {
        if code == 0 {
            return Outcome::Done;
        }
        let mut e = "shell exited with ".to_owned();
        crate::marks::push_signed(&mut e, code as i64);
        return Outcome::Error(e);
    }
    if code == 0 {
        Outcome::Text(text)
    } else {
        Outcome::Error(text)
    }
}

/// A pane after it, or another of its window, printed.
pub open spec fn printed_pane(p: Pane, id: PaneId, quiet: bool, now: u64) -> Pane {
    Pane {
        last_output: if p.id == id {
            now
        } else {
            p.last_output
        },
        output_count: if p.id == id {
            p.output_count.wrapping_add(1)
        } else {
            p.output_count
        },
        bell: p.bell && !quiet,
        ..p
    }
}

/// One of the first `k` panes rang its bell.
pub open spec fn rang(v: Seq<Pane>, k: int) -> bool
    decreases k,
{
    k > 0 && (v[k - 1].bell || rang(v, k - 1))
}

/// A window after one of its panes printed.
pub open spec fn after_output(w: WindowState, id: PaneId, current: bool, opts: Options, now: u64) -> WindowState {
    let bell = rang(w.panes, w.panes.len() as int);
    WindowState {
        last_output: now,
        panes: Seq::new(w.panes.len(), |k: int| printed_pane(w.panes[k], id, !current, now)),
        silence: false,
        activity: w.activity || (!current && opts.monitor_activity),
        bell: w.bell || (!current && opts.monitor_bell && bell),
        ..w
    }
}

/// The alerts that a pane's output raises: of activity, and of a bell.
pub open spec fn raised(w: WindowState, current: bool, opts: Options) -> (bool, bool) {
    (
        !current && opts.monitor_activity && !w.activity,
        !current && opts.monitor_bell && rang(w.panes, w.panes.len() as int) && !w.bell,
    )
}

/// The text of an alert.
pub open spec fn alert_text(what: Seq<char>, index: nat, name: Seq<char>) -> Seq<char> {
    what + " in window "@ + decimal(index) + " ("@ + name + ")"@
}

fn text_of_alert(what: &str, j: usize, base: usize, name: &str) -> (out: String)
    ensures
        out@ == alert_text(what@, (j + base) as nat, name@),
{
    let mut out = joined2(what, " in window ");
    push_sum(&mut out, j as u64, base as u64);
    out.push_str(" (");
    out.push_str(name);
    out.push_str(")");
    out
}

fn note_printed(p: &mut Pane, id: PaneId, quiet: bool, now: u64)
    ensures
        *final(p) == printed_pane(*old(p), id, quiet, now),
{
    if p.id == id {
        p.last_output = now;
        p.output_count = p.output_count.wrapping_add(1);
    }
    if quiet {
        p.bell = false;
    }
}

impl Window {
    /// One of the panes printed: the window is not silent, and what it has to
    /// tell when nobody looks is noted. The alerts that are new.
    fn note_output(&mut self, id: PaneId, current: bool, opts: &Options, now: u64) -> (fresh: (bool, bool))
        ensures
            final(self)@ == after_output(old(self)@, id, current, *opts, now),
            fresh == raised(old(self)@, current, *opts),
    {
        let ghost before = self@;
        let mut bell: bool = false;
        let mut k: usize = 0;
        while k < self.panes.len()
            invariant
                k <= self.panes@.len() == before.panes.len(),
                before == old(self)@,
                *self == (Window { panes: self.panes, ..*old(self) }),
                bell == rang(before.panes, k as int),
                forall|i: int|
                    0 <= i < k ==> #[trigger] self.panes@[i] == printed_pane(before.panes[i], id, !current, now),
                forall|i: int| k <= i < before.panes.len() ==> #[trigger] self.panes@[i] == before.panes[i],
            decreases self.panes.len() - k,
        {
            if self.panes[k].bell {
                bell = true;
            }
            note_printed(&mut self.panes[k], id, !current, now);
            k = k + 1;
        }
        self.last_output = now;
        self.alert_silence = false;
        let activity: bool = !current && opts.monitor_activity && !self.alert_activity;
        let ringing: bool = !current && opts.monitor_bell && bell && !self.alert_bell;
        if activity {
            self.alert_activity = true;
        }
        if ringing {
            self.alert_bell = true;
        }
        assert(self@ =~= after_output(before, id, current, *opts, now));
        (activity, ringing)
    }
}

/// Alerts as mathematics.
pub open spec fn alert_values(v: Seq<(String, bool)>) -> Seq<(Seq<char>, bool)> {
    Seq::new(v.len(), |i: int| (v[i].0@, v[i].1))
}

/// The alerts of a window, where they are new.
pub open spec fn alerts_of(w: WindowState, fresh: (bool, bool), index: nat) -> Seq<(Seq<char>, bool)> {
    (if fresh.0 {
        seq![(alert_text("Activity"@, index, w.name), false)]
    } else {
        Seq::empty()
    }) + (if fresh.1 {
        seq![(alert_text("Bell"@, index, w.name), true)]
    } else {
        Seq::empty()
    })
}

impl Server {
    /// A pane printed something: keep its window's silence timer fresh and,
    /// when it is not the window being looked at, raise the alerts the
    /// `monitor-*` options ask for. What the clients are to be told: a text,
    /// and whether it is of a bell.
    pub fn note_output(&mut self, id: PaneId, now: u64) -> (alerts: Vec<(String, bool)>)
        requires
            old(self).wf(),
        ensures
            final(self).wf(),
            *final(self) == (Server { sessions: final(self).sessions, ..*old(self) }),
            ({
                let ss = old(self).states();
                let i = session_with(ss, id, 0);
                if i >= ss.len() {
                    alerts@.len() == 0 && final(self).states() == ss
                } else {
                    let j = window_with(ss[i].windows, id, 0);
                    let w = ss[i].windows[j];
                    &&& final(self).states() == edited(
                        ss,
                        i,
                        j,
                        after_output(w, id, ss[i].cur == j, old(self).opts, now),
                    )
                    &&& alert_values(alerts@) == alerts_of(
                        w,
                        raised(w, ss[i].cur == j, old(self).opts),
                        (j + old(self).opts.base_index) as nat,
                    )
                }
            }),
    {
        let mut alerts: Vec<(String, bool)> = Vec::new();
        let (i, j) = match self.place_of_pane(id) {
            Some(p) => p,
            None => {
                return alerts;
            },
        };
        let ghost before = *self;
        let ghost w = self.states()[i as int].windows[j as int];
        proof {
            assert(self.states()[i as int] == self.sessions@[i as int]@);
            assert(self.states()[i as int].wf());
            assert(w == self.sessions@[i as int].windows@[j as int]@);
            assert(w.settled());
        }
        let current: bool = self.sessions[i].cur == j;
        let fresh = self.sessions[i].windows[j].note_output(id, current, &self.opts, now);
        let ghost after = after_output(w, id, current, before.opts, now);
        proof {
            assert(ids(after.panes) =~= ids(w.panes));
            assert(after.settled()) by {
                assert forall|k: int| 0 <= k < after.rects.len() implies after.has((#[trigger] after.rects[k]).0) by {
                    assert(w.has(w.rects[k].0));
                }
                assert forall|k: int| 0 <= k < after.cells.len() implies after.has((#[trigger] after.cells[k]).0) by {
                    assert(w.has(w.cells[k].0));
                }
            }
            assert(self.sessions@[i as int]@ =~= put_window(before.states()[i as int], j as int, after));
            assert forall|p: PaneId| #[trigger] after.has(p) implies w.has(p) by {}
            lemma_window_set(before, *self, i as int, j as int, after);
        }
        let base: usize = self.opts.base_index;
        let name = self.sessions[i].windows[j].name.as_str();
        if fresh.0 {
            alerts.push((text_of_alert("Activity", j, base, name), false));
        }
        if fresh.1 {
            alerts.push((text_of_alert("Bell", j, base, name), true));
        }
        assert(alert_values(alerts@) =~= alerts_of(w, fresh, (j + base) as nat));
        alerts
    }
}

/// A client after an alert of the session it looks at: a message when those
/// are wanted, else the terminal's bell.
pub open spec fn is_alerted(before: Client, after: Client, text: Seq<char>, visual: bool, bell: bool, at: u64) -> bool {
    if visual {
        is_shown(before, after, text, at)
    } else {
        after == (Client { pending_bell: before.pending_bell || bell, ..before })
    }
}

/// The messages remembered after a text was shown to the clients of a session
/// among the first `k`.
pub open spec fn told_all(all: Seq<Seq<char>>, cs: Seq<Client>, sid: SessionId, text: Seq<char>, now: Time, k: int) -> Seq<
    Seq<char>,
>
    decreases k,
{
    if k <= 0 {
        all
    } else {
        let before = told_all(all, cs, sid, text, now, k - 1);
        if cs[k - 1].session == Some(sid) {
            shown_too(before, text, now)
        } else {
            before
        }
    }
}

impl Server {
    /// Tell the clients of a session about an alert: a status-line message
    /// when `visual-bell` or `visual-activity` is on, the terminal bell
    /// otherwise.
    pub fn alert(&mut self, messages: &mut Messages, sid: SessionId, text: &str, is_bell: bool, at: u64, now: Time)
        requires
            old(self).wf(),
            now.valid(),
        ensures
            final(self).wf(),
            *final(self) == (Server { clients: final(self).clients, ..*old(self) }),
            ({
                let visual = if is_bell {
                    old(self).opts.visual_bell
                } else {
                    old(self).opts.visual_activity
                };
                let cs = old(self).clients@;
                &&& final(self).clients@.len() == cs.len()
                &&& forall|c: int|
                    0 <= c < cs.len() ==> if cs[c].session == Some(sid) {
                        is_alerted(cs[c], #[trigger] final(self).clients@[c], text@, visual, is_bell, at)
                    } else {
                        final(self).clients@[c] == cs[c]
                    }
                &&& texts_of(final(messages).texts@) == if visual {
                    told_all(texts_of(old(messages).texts@), cs, sid, text@, now, cs.len() as int)
                } else {
                    texts_of(old(messages).texts@)
                }
            }),
    {
        let visual: bool = if is_bell { self.opts.visual_bell } else { self.opts.visual_activity };
        let ghost cs = self.clients@;
        let ghost said = texts_of(messages.texts@);
        let mut k: usize = 0;
        while k < self.clients.len()
            invariant
                self.wf(),
                now.valid(),
                k <= self.clients@.len() == cs.len(),
                cs == old(self).clients@,
                *self == (Server { clients: self.clients, ..*old(self) }),
                forall|c: int|
                    0 <= c < k ==> if cs[c].session == Some(sid) {
                        is_alerted(cs[c], #[trigger] self.clients@[c], text@, visual, is_bell, at)
                    } else {
                        self.clients@[c] == cs[c]
                    },
                forall|c: int| k <= c < cs.len() ==> #[trigger] self.clients@[c] == cs[c],
                texts_of(messages.texts@) == if visual {
                    told_all(said, cs, sid, text@, now, k as int)
                } else {
                    said
                },
            decreases self.clients.len() - k,
        {
            let here: bool = match self.clients[k].session {
                Some(s) => s == sid,
                None => false,
            };
            if here {
                let ghost before = *self;
                if visual {
                    messages.note(replace(text, '\n', ' ').as_str(), now);
                    self.show_at(k, text, at);
                } else if is_bell {
                    self.clients[k].pending_bell = true;
                    proof {
                        assert(self.clients@ =~= before.clients@.update(k as int, self.clients@[k as int]));
                        lemma_client_told(before, *self, k as int);
                    }
                }
                assert forall|c: int| 0 <= c < k implies if cs[c].session == Some(sid) {
                    is_alerted(cs[c], #[trigger] self.clients@[c], text@, visual, is_bell, at)
                } else {
                    self.clients@[c] == cs[c]
                } by {
                    assert(self.clients@[c] == before.clients@[c]);
                }
            }
            k = k + 1;
        }
    }
}

/// Whether a window has gone quiet, and nobody was told.
pub open spec fn is_quiet(w: WindowState, opts: Options, now: u64) -> bool {
    opts.monitor_silence > 0 && !w.silence && now >= w.last_output && now - w.last_output >= opts.monitor_silence * 1000
}

/// A window after the sweep: the one in view has nothing to tell.
pub open spec fn swept_window(w: WindowState, current: bool, opts: Options, now: u64) -> WindowState {
    if current {
        WindowState { activity: false, bell: false, silence: false, ..w }
    } else if is_quiet(w, opts, now) {
        WindowState { silence: true, ..w }
    } else {
        w
    }
}

/// A session after the sweep.
pub open spec fn swept_session(s: SessionState, opts: Options, now: u64) -> SessionState {
    SessionState {
        windows: Seq::new(s.windows.len(), |j: int| swept_window(s.windows[j], j == s.cur, opts, now)),
        ..s
    }
}

/// The sessions after the sweep.
pub open spec fn swept(ss: Seq<SessionState>, opts: Options, now: u64) -> Seq<SessionState> {
    Seq::new(ss.len(), |i: int| swept_session(ss[i], opts, now))
}

/// The alerts of silence in the first `k` windows of a session.
pub open spec fn silences(s: SessionState, opts: Options, now: u64, k: int) -> Seq<(SessionId, PaneId, Seq<char>)>
    decreases k,
{
    if k <= 0 {
        Seq::empty()
    } else {
        let before = silences(s, opts, now, k - 1);
        let w = s.windows[k - 1];
        if k - 1 != s.cur && is_quiet(w, opts, now) {
            before.push((s.id, w.active, alert_text("Silence"@, (k - 1 + opts.base_index) as nat, w.name)))
        } else {
            before
        }
    }
}

/// The alerts of silence in the first `k` sessions.
pub open spec fn all_silences(ss: Seq<SessionState>, opts: Options, now: u64, k: int) -> Seq<
    (SessionId, PaneId, Seq<char>),
>
    decreases k,
{
    if k <= 0 {
        Seq::empty()
    } else {
        all_silences(ss, opts, now, k - 1) + silences(ss[k - 1], opts, now, ss[k - 1].windows.len() as int)
    }
}

/// Alerts of silence as mathematics.
pub open spec fn silence_values(v: Seq<(SessionId, PaneId, String)>) -> Seq<(SessionId, PaneId, Seq<char>)> {
    Seq::new(v.len(), |i: int| (v[i].0, v[i].1, v[i].2@))
}

impl Window {
    /// Sweep the alerts of a window; whether it has just gone quiet.
    fn sweep(&mut self, current: bool, opts: &Options, now: u64) -> (quiet: bool)
        ensures
            final(self)@ == swept_window(old(self)@, current, *opts, now),
            quiet == (!current && is_quiet(old(self)@, *opts, now)),
    {
        let ghost before = self@;
        if current {
            self.alert_activity = false;
            self.alert_bell = false;
            self.alert_silence = false;
            assert(self@ =~= swept_window(before, current, *opts, now));
            return false;
        }
        let long: bool = now >= self.last_output && ((now - self.last_output) as u128) >= (opts.monitor_silence as u128)
            * 1000;
        if opts.monitor_silence > 0 && !self.alert_silence && long {
            self.alert_silence = true;
            assert(self@ =~= swept_window(before, current, *opts, now));
            return true;
        }
        false
    }
}

impl crate::session::Session {
    fn sweep(&mut self, opts: &Options, now: u64, alerts: &mut Vec<(SessionId, PaneId, String)>)
        ensures
            final(self)@ == swept_session(old(self)@, *opts, now),
            silence_values(final(alerts)@) == silence_values(old(alerts)@) + silences(
                old(self)@,
                *opts,
                now,
                old(self)@.windows.len() as int,
            ),
    {
        let ghost s = self@;
        let ghost start = silence_values(alerts@);
        let mut j: usize = 0;
        assert(start + Seq::<(SessionId, PaneId, Seq<char>)>::empty() =~= start);
        while j < self.windows.len()
            invariant
                s == old(self)@,
                j <= self.windows@.len() == s.windows.len(),
                *self == (crate::session::Session { windows: self.windows, ..*old(self) }),
                forall|k: int|
                    0 <= k < j ==> (#[trigger] self.windows@[k])@ == swept_window(s.windows[k], k == s.cur, *opts, now),
                forall|k: int| j <= k < s.windows.len() ==> (#[trigger] self.windows@[k])@ == s.windows[k],
                silence_values(alerts@) == start + silences(s, *opts, now, j as int),
            decreases self.windows.len() - j,
        {
            let ghost w = s.windows[j as int];
            assert(self.windows@[j as int]@ == w);
            let current: bool = self.cur == j;
            let quiet: bool = self.windows[j].sweep(current, opts, now);
            if quiet {
                let text = text_of_alert("Silence", j, opts.base_index, self.windows[j].name.as_str());
                let ghost before = silence_values(alerts@);
                let ghost row = (s.id, w.active, text@);
                let ghost so_far = silences(s, *opts, now, j as int);
                alerts.push((self.id, self.windows[j].active, text));
                assert(silence_values(alerts@) =~= before.push(row));
                assert((start + so_far).push(row) =~= start + so_far.push(row));
            }
            j = j + 1;
        }
        assert(self@ =~= swept_session(s, *opts, now));
    }
}

impl Server {
    /// The current window of a session never holds an alert, so no path that
    /// changes the current window has to remember it; and `monitor-silence`
    /// flags a background window that has gone quiet. What the clients of
    /// which session are to be told, and the pane it is about.
    pub fn sweep_alerts(&mut self, now: u64) -> (alerts: Vec<(SessionId, PaneId, String)>)
        requires
            old(self).wf(),
        ensures
            final(self).wf(),
            final(self).states() == swept(old(self).states(), old(self).opts, now),
            *final(self) == (Server { sessions: final(self).sessions, ..*old(self) }),
            silence_values(alerts@) == all_silences(
                old(self).states(),
                old(self).opts,
                now,
                old(self).states().len() as int,
            ),
    {
        let mut alerts: Vec<(SessionId, PaneId, String)> = Vec::new();
        let ghost ss = self.states();
        let mut i: usize = 0;
        assert(silence_values(alerts@) =~= Seq::empty());
        while i < self.sessions.len()
            invariant
                ss == old(self).states(),
                i <= self.sessions@.len() == ss.len(),
                *self == (Server { sessions: self.sessions, ..*old(self) }),
                forall|k: int|
                    0 <= k < i ==> (#[trigger] self.sessions@[k])@ == swept_session(ss[k], old(self).opts, now),
                forall|k: int| i <= k < ss.len() ==> (#[trigger] self.sessions@[k])@ == ss[k],
                silence_values(alerts@) == all_silences(ss, old(self).opts, now, i as int),
            decreases self.sessions.len() - i,
        {
            assert(self.sessions@[i as int]@ == ss[i as int]);
            self.sessions[i].sweep(&self.opts, now, &mut alerts);
            i = i + 1;
        }
        proof {
            assert(self.states() =~= swept(ss, old(self).opts, now));
            lemma_swept(ss, old(self).opts, now, self.next_id, self.killed_list());
            lemma_clients_stay(self.clients@, ss, self.states());
        }
        alerts
    }
}

proof fn lemma_swept(
    ss: Seq<SessionState>,
    opts: Options,
    now: u64,
    next: u32,
    ks: Seq<crate::server::KilledState>,
)
    requires
        crate::server::sessions_wf(ss),
        crate::server::apart(ss),
        crate::server::numbered_below(ss, next),
        crate::server::killed_wf(ks, ss, next),
    ensures
        ({
            let tt = swept(ss, opts, now);
            &&& crate::server::sessions_wf(tt)
            &&& crate::server::apart(tt)
            &&& crate::server::numbered_below(tt, next)
            &&& crate::server::killed_wf(ks, tt, next)
        }),
{
    let tt = swept(ss, opts, now);
    let from = |i: int, j: int| (i, j);
    crate::moves::lemma_sound_of_wf(ss);
    assert forall|i: int, j: int| #[trigger] at(tt, i, j) implies at(ss, i, j) && tt[i].windows[j].id
        == ss[i].windows[j].id && forall|id: PaneId| #[trigger]
        tt[i].windows[j].has(id) ==> ss[i].windows[j].has(id) by {
        assert(tt[i].windows[j] == swept_window(ss[i].windows[j], j == ss[i].cur, opts, now));
    }
    assert forall|i: int| 0 <= i < tt.len() implies (#[trigger] tt[i]).wf() by {
        assert(ss[i].wf());
        assert forall|j: int| 0 <= j < tt[i].windows.len() implies (#[trigger] tt[i].windows[j]).settled() by {
            let w = ss[i].windows[j];
            assert(w.settled());
            let v = tt[i].windows[j];
            assert forall|k: int| 0 <= k < v.rects.len() implies v.has((#[trigger] v.rects[k]).0) by {
                assert(w.has(w.rects[k].0));
            }
            assert forall|k: int| 0 <= k < v.cells.len() implies v.has((#[trigger] v.cells[k]).0) by {
                assert(w.has(w.cells[k].0));
            }
        }
        assert forall|j: int, k: int| 0 <= j < k < tt[i].windows.len() implies (#[trigger] tt[i].windows[j]).id != (
        #[trigger] tt[i].windows[k]).id by {
            assert(ss[i].windows[j].id != ss[i].windows[k].id);
        }
    }
    assert(crate::server_edit::descends(ss, tt, from)) by {
        assert forall|k: int| 0 <= k < tt.len() implies exists|m: int|
            0 <= m < ss.len() && (#[trigger] ss[m]).id == (#[trigger] tt[k]).id by {
            assert(ss[k].id == tt[k].id);
        }
        assert forall|k: int, l: int| 0 <= k < l < tt.len() implies (#[trigger] tt[k]).id != (#[trigger] tt[l]).id by {
            assert(ss[k].id != ss[l].id);
        }
    }
    crate::server_edit::lemma_descends(ss, tt, from, next, ks);
}

/// After a sweep no window in view has anything to tell.
pub proof fn lemma_in_view_is_told(ss: Seq<SessionState>, opts: Options, now: u64, i: int)
    requires
        0 <= i < ss.len(),
        0 <= ss[i].cur < ss[i].windows.len(),
    ensures
        !swept(ss, opts, now)[i].windows[ss[i].cur].alerting(),
        swept(ss, opts, now)[i].cur == ss[i].cur,
{
}

} // verus!
