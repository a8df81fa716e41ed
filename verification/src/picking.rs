//! Keys at a client's prompt, and what is done to the lines of a picker.
use vstd::prelude::*;

use crate::arrange::place_in;
use crate::chooser::{Chooser, ChooserItem, ChooserKind, ClientId, SessionId, WindowId};
use crate::chooser_keys::{chooser_key, keyed, ChooserAction};
use crate::client::Client;
use crate::command::Target;
use crate::keys::Key;
use crate::layout::{panes, PaneId};
use crate::observe::opt_text;
use crate::prompt::{edited, prompt_key, prompted, Prompt, PromptAction, PromptKind};
use crate::server::{area_of, client_place, session_place, Server};
use crate::session::{window_place, SessionState};
use crate::text::{chars_of, decimal, push_sum};

verus! {

/// A prompt after a key that did `action`.
pub open spec fn is_edited(before: Prompt, after: Prompt, k: Key, action: PromptAction) -> bool {
    &&& after.wf()
    &&& after.kind == before.kind
    &&& after.label == before.label
    // Tab's candidates stay up for one key only.
    &&& after.hint == if k.code is Tab {
        before.hint
    } else {
        None
    }
    &&& (after.input@, after.cursor as int) == if action is Stay && !(before.kind is Confirm) {
        edited(before.input@, before.cursor as int, k)
    } else {
        (before.input@, before.cursor as int)
    }
}

/// The filter of a picker after a key at prompt `p`: a filter prompt drives it
/// as it is typed, and puts the old one back when it is cancelled.
pub open spec fn filter_after(p: Prompt, left: Option<Prompt>, action: PromptAction, filter: Seq<char>) -> Seq<char> {
    match p.kind {
        PromptKind::Filter { prev } => match action {
            PromptAction::Cancel => prev@,
            PromptAction::Accept => filter,
            _ => left->0.input@,
        },
        _ => filter,
    }
}

impl Client {
    /// A key at the client's prompt: what is to be done, and the prompt that
    /// was answered.
    pub fn key_at_prompt(&mut self, k: Key) -> (r: (PromptAction, Option<Prompt>))
        requires
            old(self).prompt matches Some(p) ==> p.wf(),
        ensures
            *final(self) == (Client { prompt: final(self).prompt, chooser: final(self).chooser, ..*old(self) }),
            match old(self).prompt {
                None => r.0 is Stay && r.1 is None && *final(self) == *old(self),
                Some(p) => {
                    &&& r.0 == prompted(p, k)
                    &&& match r.0 {
                        PromptAction::Cancel => final(self).prompt is None && r.1 is None,
                        PromptAction::Accept => final(self).prompt is None && r.1 is Some && is_edited(p, r.1->0, k, r.0),
                        _ => final(self).prompt is Some && r.1 is None && is_edited(p, final(self).prompt->0, k, r.0),
                    }
                    &&& match old(self).chooser {
                        None => final(self).chooser is None,
                        Some(ch) => {
                            &&& final(self).chooser is Some
                            &&& final(self).chooser->0 == (Chooser { filter: final(self).chooser->0.filter, ..ch })
                            &&& final(self).chooser->0.filter@ == filter_after(p, final(self).prompt, r.0, ch.filter@)
                        },
                    }
                },
            },
    {
        let mut p = match self.prompt.take() {
            None => return (PromptAction::Stay, None),
            Some(p) => p,
        };
        let action = prompt_key(&mut p, k);
        match action {
            PromptAction::Cancel => {
                if let PromptKind::Filter { prev } = p.kind {
                    if let Some(ch) = &mut self.chooser {
                        ch.filter = prev;
                    }
                }
                (action, None)
            },
            PromptAction::Accept => (action, Some(p)),
            _ => {
                if let PromptKind::Filter { .. } = &p.kind {
                    if let Some(ch) = &mut self.chooser {
                        ch.filter = p.input.clone();
                    }
                }
                self.prompt = Some(p);
                (action, None)
            },
        }
    }
}

/// What is to be done after a key in a picker.
#[derive(Debug, PartialEq, Eq)]
pub enum Picked {
    Nothing,
    /// A command line of a menu runs.
    Run(String),
    /// Lines are acted on: their panes or windows killed, or restarted.
    Act { restart: bool, targets: Vec<ChooserItem> },
    /// A line was chosen.
    Go(ChooserItem),
    /// A day of the history log is shown: the file it is in.
    View(String),
}

/// The command line of entry `n` of a menu.
pub open spec fn entry_line(ch: Chooser, n: int) -> Option<Seq<char>> {
    match ch.kind {
        ChooserKind::Menu(entries) => if 0 <= n < entries@.len() {
            opt_text(entries@[n].cmd)
        } else {
            None
        },
        _ => None,
    }
}

/// The file of day `d` of position `i` of a history picker.
pub open spec fn day_path(ch: Chooser, i: int, d: int) -> Option<Seq<char>> {
    match ch.kind {
        ChooserKind::History { kept, .. } => if 0 <= i < kept@.len() && 0 <= d < kept@[i].days@.len() {
            Some(kept@[i].days@[d].path@)
        } else {
            None
        },
        _ => None,
    }
}

/// A prompt for the filter of a picker, which begins with the one it has.
pub open spec fn asks_filter(p: Prompt, filter: Seq<char>) -> bool {
    &&& p.kind is Filter && p.kind->prev@ == filter
    &&& p.label@ == "(filter) "@
    &&& p.input@ == filter
    &&& p.cursor == filter.len()
    &&& p.hint is None
}

/// The client `after` a key in its picker, which did `action` and left the
/// picker as `left`, and what is to be done.
pub open spec fn is_picked_by(before: Client, after: Client, left: Chooser, action: ChooserAction, r: Picked) -> bool {
    &&& after == (Client { chooser: after.chooser, prompt: after.prompt, ..before })
    &&& if action is AskFilter {
        after.prompt is Some && asks_filter(after.prompt->0, left.filter@)
    } else {
        after.prompt == before.prompt
    }
    &&& after.chooser == if action is Stay || action is AskFilter || action is Act {
        Some(left)
    } else {
        None
    }
    &&& match action {
        ChooserAction::Stay | ChooserAction::Close | ChooserAction::AskFilter => r is Nothing,
        ChooserAction::Menu(n) => match entry_line(left, n as int) {
            Some(l) => r is Run && r->Run_0@ == l,
            None => r is Nothing,
        },
        ChooserAction::Act { restart, targets } => r == (Picked::Act { restart, targets }),
        ChooserAction::Choose(item) => match item {
            Some(it) => r == Picked::Go(it),
            None => r is Nothing,
        },
        ChooserAction::View(i, d) => match day_path(left, i as int, d as int) {
            Some(l) => r is View && r->View_0@ == l,
            None => r is Nothing,
        },
    }
}

impl Client {
    /// A key in the client's picker, whose page is `page` lines.
    pub fn key_in_picker(&mut self, page: i64, k: Key) -> (r: Picked)
        requires
            1 <= page <= u16::MAX,
        ensures
            match old(self).chooser {
                None => r is Nothing && *final(self) == *old(self),
                Some(ch) => exists|left: Chooser, action: ChooserAction| #[trigger]
                    keyed(ch, left, action, page as int, k) && is_picked_by(*old(self), *final(self), left, action, r),
            },
    {
        let mut ch = match self.chooser.take() {
            None => return Picked::Nothing,
            Some(ch) => ch,
        };
        let ghost start = ch;
        let action = chooser_key(&mut ch, page, k);
        let ghost left = ch;
        let ghost did = action;
        assert(keyed(start, left, did, page as int, k));
        let r = match action {
            ChooserAction::Stay => {
                self.chooser = Some(ch);
                Picked::Nothing
            },
            ChooserAction::Close => Picked::Nothing,
            ChooserAction::AskFilter => {
                let cursor: usize = chars_of(ch.filter.as_str()).len();
                self.prompt = Some(
                    Prompt {
                        kind: PromptKind::Filter { prev: ch.filter.clone() },
                        label: "(filter) ".to_owned(),
                        input: ch.filter.clone(),
                        cursor,
                        hint: None,
                    },
                );
                self.chooser = Some(ch);
                Picked::Nothing
            },
            ChooserAction::Act { restart, targets } => {
                self.chooser = Some(ch);
                Picked::Act { restart, targets }
            },
            ChooserAction::Menu(n) => match &ch.kind {
                ChooserKind::Menu(entries) => if n < entries.len() {
                    match &entries[n].cmd {
                        Some(line) => Picked::Run(line.clone()),
                        None => Picked::Nothing,
                    }
                } else {
                    Picked::Nothing
                },
                _ => Picked::Nothing,
            },
            ChooserAction::Choose(item) => match item {
                Some(it) => Picked::Go(it),
                None => Picked::Nothing,
            },
            ChooserAction::View(i, d) => match &ch.kind {
                ChooserKind::History { kept, .. } => if i < kept.len() && d < kept[i].days.len() {
                    Picked::View(kept[i].days[d].path.clone())
                } else {
                    Picked::Nothing
                },
                _ => Picked::Nothing,
            },
        };
        assert(is_picked_by(*old(self), *self, left, did, r));
        r
    }
}

impl Server {
    /// How many lines a client's picker shows.
    pub fn picker_page(&self, cid: ClientId) -> (page: i64)
        ensures
            1 <= page <= u16::MAX,
            ({
                let c = client_place(self.clients@, cid, 0);
                let h = area_of(self.opts, self.clients@[c].cols, self.clients@[c].rows).h;
                page == if c < self.clients@.len() && h > 2 {
                    h - 1
                } else {
                    1
                }
            }),
    {
        let c: usize = self.client_at(cid);
        if c >= self.clients.len() {
            return 1;
        }
        let h: u16 = self.window_area(self.clients[c].cols, self.clients[c].rows).h;
        if h > 2 {
            h as i64 - 1
        } else {
            1
        }
    }
}

/// What an action key does to one line of a picker.
#[derive(Debug, PartialEq, Eq)]
pub enum Act {
    Nothing,
    KillPane(Target),
    RestartPane(Target),
    KillWindow(Target),
    KillSession(Target),
}

/// A target that names a session, and a window and a pane of it.
pub open spec fn aims_at(t: Target, session: Seq<char>, window: Option<Seq<char>>, pane: Option<usize>) -> bool {
    opt_text(t.session) == Some(session) && opt_text(t.window) == window && t.pane == pane && t.pane_id is None
}

/// Where a pane is found by its session's and its window's number, if it is.
pub open spec fn job_at(ss: Seq<SessionState>, sid: SessionId, wid: WindowId, pid: PaneId) -> Option<(int, int, int)> {
    let i = session_place(ss, sid, 0);
    let j = window_place(ss[i].windows, wid, 0);
    let k = place_in(panes(ss[i].windows[j].tree), pid, 0);
    if i < ss.len() && j < ss[i].windows.len() && k < panes(ss[i].windows[j].tree).len() {
        Some((i, j, k))
    } else {
        None
    }
}

impl Server {
    /// What `x`, or `r` with `restart`, does to a line of a picker. It is
    /// looked up by identity: what was killed before it renumbers the rest.
    pub fn picker_act(&self, item: &ChooserItem, restart: bool) -> (r: Result<Act, String>)
        requires
            self.opts.pane_base_index <= usize::MAX - u16::MAX,
            self.wf(),
        ensures
            ({
                let ss = self.states();
                match *item {
                    ChooserItem::Job(sid, wid, pid) => match job_at(ss, sid, wid, pid) {
                        None => r is Err && r->Err_0@ == "pane is gone"@,
                        Some((i, j, k)) => {
                            let window = Some(decimal((j + self.opts.base_index) as nat));
                            let pane = Some((k + self.opts.pane_base_index) as usize);
                            match r {
                                Ok(Act::KillPane(t)) => !restart && aims_at(t, ss[i].name, window, pane),
                                Ok(Act::RestartPane(t)) => restart && aims_at(t, ss[i].name, window, pane),
                                _ => false,
                            }
                        },
                    },
                    ChooserItem::Tree(sid, wid) => {
                        let i = session_place(ss, sid, 0);
                        let j = window_place(ss[i].windows, wid->0, 0);
                        if i >= ss.len() {
                            r is Err && r->Err_0@ == "session is gone"@
                        } else if wid is None {
                            r matches Ok(Act::KillSession(t)) && aims_at(t, ss[i].name, None, None)
                        } else if j >= ss[i].windows.len() {
                            r is Err && r->Err_0@ == "window is gone"@
                        } else {
                            r matches Ok(Act::KillWindow(t)) && aims_at(
                                t,
                                ss[i].name,
                                Some(decimal((j + self.opts.base_index) as nat)),
                                None,
                            )
                        }
                    },
                    _ => r == Ok::<Act, String>(Act::Nothing),
                }
            }),
    {
        match *item {
            ChooserItem::Job(sid, wid, pid) => {
                proof {
                    self.lemma_place_fits(sid, wid, pid);
                }
                match self.pane_target(sid, wid, pid) {
                    Some(t) => Ok(
                        if restart {
                            Act::RestartPane(t)
                        } else {
                            Act::KillPane(t)
                        },
                    ),
                    None => Err("pane is gone".to_owned()),
                }
            },
            ChooserItem::Tree(sid, wid) => {
                let i: usize = self.session_at(sid);
                if i >= self.sessions.len() {
                    return Err("session is gone".to_owned());
                }
                assert(self.states()[i as int] == self.sessions@[i as int]@);
                let s = &self.sessions[i];
                let mut t = Target { session: Some(s.name.clone()), window: None, pane: None, pane_id: None };
                match wid {
                    None => Ok(Act::KillSession(t)),
                    Some(w) => {
                        let j: usize = s.place(w);
                        if j >= s.windows.len() {
                            return Err("window is gone".to_owned());
                        }
                        let mut number = String::new();
                        push_sum(&mut number, j as u64, self.opts.base_index as u64);
                        assert(number@ =~= decimal((j + self.opts.base_index) as nat));
                        t.window = Some(number);
                        Ok(Act::KillWindow(t))
                    },
                }
            },
            _ => Ok(Act::Nothing),
        }
    }

    proof fn lemma_place_fits(&self, sid: SessionId, wid: WindowId, pid: PaneId)
        requires
            self.wf(),
        ensures
            job_at(self.states(), sid, wid, pid) matches Some((i, j, k)) ==> 0 <= k < u16::MAX,
    {
        let ss = self.states();
        if let Some((i, j, k)) = job_at(ss, sid, wid, pid) {
            crate::server::lemma_session_place(ss, sid, 0);
            crate::session::lemma_window_place(ss[i].windows, wid, 0);
            assert(ss[i].wf());
            assert(ss[i].windows[j].wf());
            crate::arrange::lemma_place_in(panes(ss[i].windows[j].tree), pid, 0);
        }
    }
}

} // verus!
