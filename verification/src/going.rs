//! Taking a client to a window or a pane that it picked.
use vstd::prelude::*;

use crate::callers::home_of;
use crate::chooser::{ClientId, SessionId, WindowId};
use crate::client::Client;
use crate::layout::PaneId;
use crate::server::{client_place, session_place, session_with, Options, Server};
use crate::server_edit::{at, edited, fitted_session, put_window, relaid};
use crate::session::{window_place, SessionState};
use crate::session_commands::{moved_client, touched};
use crate::text::{decimal, number_text, push_decimal};
use crate::window_commands::lemma_window_set;

verus! {

/// The clients after the one at `c` went to session `sid`.
pub open spec fn clients_gone(cs: Seq<Client>, c: int, sid: SessionId) -> Seq<Client> {
    if cs[c].session == Some(sid) {
        cs
    } else {
        cs.update(c, moved_client(cs[c], sid))
    }
}

/// The sessions after the client at `c` went to session `sid`.
pub open spec fn sessions_gone(ss: Seq<SessionState>, opts: Options, cs: Seq<Client>, c: int, sid: SessionId, now: u64) -> Seq<
    SessionState,
> {
    if cs[c].session == Some(sid) {
        ss
    } else {
        let after = clients_gone(cs, c, sid);
        touched(
            fitted_session(
                fitted_session(ss, opts, after, sid, Some(cs[c].id)),
                opts,
                after,
                cs[c].session->0,
                None,
            ),
            sid,
            now,
        )
    }
}

/// The sessions with window `wid` the current one of session `sid`, where it
/// is there.
pub open spec fn with_window_shown(ss: Seq<SessionState>, sid: SessionId, wid: WindowId) -> Seq<SessionState> {
    let i = session_place(ss, sid, 0);
    let j = window_place(ss[i].windows, wid, 0);
    if i < ss.len() && j < ss[i].windows.len() {
        ss.update(i, ss[i].with_current(j))
    } else {
        ss
    }
}

/// The sessions with pane `pid` the active one of its window, where it is
/// there and was not: a zoomed window zooms the pane gone to, or unzooms.
pub open spec fn with_pane_shown(ss: Seq<SessionState>, opts: Options, sid: SessionId, wid: WindowId, pid: PaneId) -> Seq<
    SessionState,
> {
    let i = session_place(ss, sid, 0);
    let j = window_place(ss[i].windows, wid, 0);
    let w = ss[i].windows[j];
    if i < ss.len() && j < ss[i].windows.len() && w.active != pid && w.has(pid) {
        let set = edited(ss, i, j, w.selected(pid, opts.keep_zoom));
        if w.zoomed {
            relaid(set, i, opts)
        } else {
            set
        }
    } else {
        ss
    }
}

/// Why a client is not taken to a window: it is not there.
pub open spec fn lost(ss: Seq<SessionState>, sid: SessionId, wid: Option<WindowId>) -> Option<Seq<char>> {
    let i = session_place(ss, sid, 0);
    if i >= ss.len() {
        Some("session is gone"@)
    } else if wid is Some && window_place(ss[i].windows, wid->0, 0) >= ss[i].windows.len() {
        Some("window is gone"@)
    } else {
        None
    }
}

impl Server {
    /// Make a window the current one of its session, where both are there.
    fn show_window(&mut self, sid: SessionId, wid: WindowId)
        requires
            old(self).wf(),
        ensures
            final(self).wf(),
            final(self).states() == with_window_shown(old(self).states(), sid, wid),
            *final(self) == (Server { sessions: final(self).sessions, ..*old(self) }),
    {
        let i: usize = self.session_at(sid);
        if i >= self.sessions.len() {
            return;
        }
        assert(self.states()[i as int] == self.sessions@[i as int]@);
        let j: usize = self.sessions[i].place(wid);
        if j < self.sessions[i].windows.len() {
            assert(at(self.states(), i as int, j as int));
            self.make_current(i, j);
        }
    }

    /// Take a client to a session and, when given, make a window its current
    /// one. What the client is told when they are gone.
    #[verifier::spinoff_prover]
    pub fn chooser_go(&mut self, cid: ClientId, sid: SessionId, wid: Option<WindowId>, now: u64) -> (r: Result<(), String>)
        requires
            old(self).wf(),
        ensures
            final(self).wf(),
            ({
                let ss = old(self).states();
                let cs = old(self).clients@;
                let c = client_place(cs, cid, 0);
                if lost(ss, sid, wid) is Some {
                    r is Err && r->Err_0@ == lost(ss, sid, wid)->0 && *final(self) == *old(self)
                } else if c >= cs.len() || cs[c].session is None {
                    r is Err && r->Err_0@ == "client not attached"@ && *final(self) == *old(self)
                } else {
                    let mid = sessions_gone(ss, old(self).opts, cs, c, sid, now);
                    &&& r is Ok
                    &&& final(self).clients@ == clients_gone(cs, c, sid)
                    &&& final(self).states() == match wid {
                        Some(w) => with_window_shown(mid, sid, w),
                        None => mid,
                    }
                    &&& *final(self) == (Server {
                        sessions: final(self).sessions,
                        clients: final(self).clients,
                        ..*old(self)
                    })
                }
            }),
    {
        let i: usize = self.session_at(sid);
        if i >= self.sessions.len() {
            return Err("session is gone".to_owned());
        }
        assert(self.states()[i as int] == self.sessions@[i as int]@);
        if let Some(w) = wid {
            if self.sessions[i].place(w) >= self.sessions[i].windows.len() {
                return Err("window is gone".to_owned());
            }
        }
        let c: usize = self.client_at(cid);
        if c >= self.clients.len() {
            return Err("client not attached".to_owned());
        }
        let cur: SessionId = match self.clients[c].session {
            Some(s) => s,
            None => {
                return Err("client not attached".to_owned());
            },
        };
        if cur != sid {
            proof {
                crate::server::lemma_client_place(self.clients@, cid, 0);
            }
            self.go_to(c, cid, cur, sid, now);
        }
        if let Some(w) = wid {
            self.show_window(sid, w);
        }
        Ok(())
    }

    /// Take a client to a pane: its session, its window, then the pane.
    #[verifier::spinoff_prover]
    pub fn chooser_go_pane(&mut self, cid: ClientId, sid: SessionId, wid: WindowId, pid: PaneId, now: u64) -> (r: Result<
        (),
        String,
    >)
        requires
            old(self).wf(),
        ensures
            final(self).wf(),
            ({
                let ss = old(self).states();
                let cs = old(self).clients@;
                let c = client_place(cs, cid, 0);
                let i = session_place(ss, sid, 0);
                let j = window_place(ss[i].windows, wid, 0);
                if i >= ss.len() || j >= ss[i].windows.len() || !ss[i].windows[j].has(pid) {
                    r is Err && r->Err_0@ == "pane is gone"@ && *final(self) == *old(self)
                } else if c >= cs.len() || cs[c].session is None {
                    &&& r is Err && r->Err_0@ == "client not attached"@
                    &&& final(self).clients@ == cs
                    &&& final(self).states() == with_pane_shown(ss, old(self).opts, sid, wid, pid)
                } else {
                    &&& r is Ok
                    &&& final(self).clients@ == clients_gone(cs, c, sid)
                    &&& final(self).states() == with_pane_shown(
                        with_window_shown(sessions_gone(ss, old(self).opts, cs, c, sid, now), sid, wid),
                        old(self).opts,
                        sid,
                        wid,
                        pid,
                    )
                }
            }),
            *final(self) == (Server { sessions: final(self).sessions, clients: final(self).clients, ..*old(self) }),
    {
        let i: usize = self.session_at(sid);
        if i >= self.sessions.len() {
            return Err("pane is gone".to_owned());
        }
        assert(self.states()[i as int] == self.sessions@[i as int]@);
        let j: usize = self.sessions[i].place(wid);
        if j >= self.sessions[i].windows.len() {
            return Err("pane is gone".to_owned());
        }
        assert(self.states()[i as int].windows[j as int] == self.sessions@[i as int].windows@[j as int]@);
        if !self.sessions[i].windows[j].has(pid) {
            return Err("pane is gone".to_owned());
        }
        let r = self.chooser_go(cid, sid, Some(wid), now);
        self.show_pane(sid, wid, pid);
        r
    }

    /// Make a pane the active one of its window.
    fn show_pane(&mut self, sid: SessionId, wid: WindowId, pid: PaneId)
        requires
            old(self).wf(),
        ensures
            final(self).wf(),
            final(self).states() == with_pane_shown(old(self).states(), old(self).opts, sid, wid, pid),
            *final(self) == (Server { sessions: final(self).sessions, ..*old(self) }),
    {
        let i: usize = self.session_at(sid);
        if i >= self.sessions.len() {
            return;
        }
        assert(self.states()[i as int] == self.sessions@[i as int]@);
        let j: usize = self.sessions[i].place(wid);
        if j >= self.sessions[i].windows.len() {
            return;
        }
        let ghost w = self.states()[i as int].windows[j as int];
        proof {
            assert(self.states()[i as int].wf());
            assert(w == self.sessions@[i as int].windows@[j as int]@);
            assert(w.settled());
        }
        let active: PaneId = self.sessions[i].windows[j].active;
        if active == pid || !self.sessions[i].windows[j].has(pid) {
            return;
        }
        let ghost before = *self;
        let zoomed: bool = self.sessions[i].windows[j].zoomed;
        let keep: bool = self.opts.keep_zoom;
        self.sessions[i].windows[j].last_pane = Some(active);
        self.sessions[i].windows[j].active = pid;
        self.sessions[i].windows[j].zoomed = zoomed && keep;
        proof {
            let after = w.selected(pid, keep);
            assert(self.sessions@[i as int].windows@[j as int]@ =~= after);
            assert(self.sessions@[i as int]@ =~= put_window(before.states()[i as int], j as int, after));
            assert forall|id: PaneId| #[trigger] after.has(id) implies w.has(id) by {}
            lemma_window_set(before, *self, i as int, j as int, after);
        }
        if zoomed {
            self.relayout_at(i);
        }
    }
}

/// The terminals among the first `k` clients that are attached somewhere.
pub open spec fn lookers(cs: Seq<Client>, k: int) -> Seq<ClientId>
    decreases k,
{
    if k <= 0 {
        Seq::empty()
    } else if cs[k - 1].interactive && cs[k - 1].session is Some {
        lookers(cs, k - 1).push(cs[k - 1].id)
    } else {
        lookers(cs, k - 1)
    }
}

impl Server {
    /// `focus-pane`: where the pane is, and the clients that are taken to it:
    /// every terminal that is attached anywhere.
    pub fn focus_plan(&self, pane: PaneId) -> (r: Result<(SessionId, WindowId, Vec<ClientId>), String>)
        ensures
            ({
                let ss = self.states();
                let i = session_with(ss, pane, 0);
                let all = lookers(self.clients@, self.clients@.len() as int);
                if i >= ss.len() {
                    r is Err && r->Err_0@ == "focus-pane: no pane %"@ + decimal(pane as nat)
                } else if all.len() == 0 {
                    r is Err && r->Err_0@ == "focus-pane: no client attached (`wmux attach` first)"@
                } else {
                    &&& r is Ok
                    &&& r->Ok_0.0 == ss[i].id
                    &&& r->Ok_0.1 == home_of(ss, pane).id
                    &&& r->Ok_0.2@ == all
                }
            }),
    {
        let (i, j) = match self.place_of_pane(pane) {
            Some(at) => at,
            None => {
                let mut e = "focus-pane: no pane %".to_owned();
                push_decimal(&mut e, pane as u64);
                return Err(e);
            },
        };
        let mut out: Vec<ClientId> = Vec::new();
        let mut k: usize = 0;
        while k < self.clients.len()
            invariant
                k <= self.clients@.len(),
                out@ == lookers(self.clients@, k as int),
            decreases self.clients.len() - k,
        {
            if self.clients[k].interactive && self.clients[k].session.is_some() {
                out.push(self.clients[k].id);
            }
            k = k + 1;
        }
        if out.len() == 0 {
            return Err("focus-pane: no client attached (`wmux attach` first)".to_owned());
        }
        assert(self.states()[i as int] == self.sessions@[i as int]@);
        assert(self.states()[i as int].windows[j as int] == self.sessions@[i as int].windows@[j as int]@);
        Ok((self.sessions[i].id, self.sessions[i].windows[j].id, out))
    }
}

/// What `focus-pane` answers.
pub fn focus_text(clients: usize, pane: PaneId) -> (out: String)
    ensures
        out@ == decimal(clients as nat) + " client(s) switched to pane %"@ + decimal(pane as nat),
{
    let mut out = number_text(clients as u64);
    out.push_str(" client(s) switched to pane %");
    push_decimal(&mut out, pane as u64);
    out
}

} // verus!
