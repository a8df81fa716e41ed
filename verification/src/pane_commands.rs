//! Changes of a single pane, and what output and silence mean for its window.
use vstd::prelude::*;

use crate::actor::ActorState;
use crate::chooser::{ClientId, SessionId};
use crate::client::Client;
use crate::copy_mode::CopyMode;
use crate::endings::pane_named;
use crate::key_flow::{is_keyed, keyed, Around, KeyAction, KeyRules, KeyTables};
use crate::keys::{Key, KeyRecord};
use crate::layout::PaneId;
use crate::moves::lemma_sound_of_wf;
use crate::pane::Pane;
use crate::server::{client_place, session_has, lemma_session_with, session_place, session_with, Server};
use crate::server_edit::{edited, fitted_session, lemma_clients_stay, lemma_edited, put_window};
use crate::session::{lemma_window_with, window_with, SessionState};
use crate::text::same_text;
use crate::window::{ids, lemma_place_of, place_of, WindowState};

verus! {

impl WindowState {
    /// With `p` in the place of the pane of its number.
    pub open spec fn with_pane(self, p: Pane) -> WindowState {
        WindowState { panes: self.panes.update(place_of(self.panes, p.id, 0), p), ..self }
    }
}

/// The sessions with `p` in the place of the pane of its number.
pub open spec fn pane_set(ss: Seq<SessionState>, p: Pane) -> Seq<SessionState> {
    let i = session_with(ss, p.id, 0);
    let j = window_with(ss[i].windows, p.id, 0);
    edited(ss, i, j, ss[i].windows[j].with_pane(p))
}

proof fn lemma_with_pane(w: WindowState, p: Pane)
    requires
        w.settled(),
        w.has(p.id),
    ensures
        w.with_pane(p).settled(),
        ids(w.with_pane(p).panes) == ids(w.panes),
{
    let k = place_of(w.panes, p.id, 0);
    lemma_place_of(w.panes, p.id, 0);
    let after = w.with_pane(p);
    assert(ids(after.panes) =~= ids(w.panes));
    assert forall|i: int| 0 <= i < after.rects.len() implies after.has((#[trigger] after.rects[i]).0) by {
        assert(w.has(w.rects[i].0));
    }
    assert forall|i: int| 0 <= i < after.cells.len() implies after.has((#[trigger] after.cells[i]).0) by {
        assert(w.has(w.cells[i].0));
    }
}

/// A change of one pane that keeps its number.
proof fn lemma_pane_set(before: Server, after: Server, i: int, j: int, p: Pane)
    requires
        before.wf(),
        i == session_with(before.states(), p.id, 0),
        i < before.states().len(),
        j == window_with(before.states()[i].windows, p.id, 0),
        after == (Server { sessions: after.sessions, ..before }),
        after.sessions@.len() == before.sessions@.len(),
        forall|k: int| 0 <= k < before.sessions@.len() && k != i ==> after.sessions@[k] == before.sessions@[k],
        after.sessions@[i]@ == put_window(before.states()[i], j, before.states()[i].windows[j].with_pane(p)),
    ensures
        after.states() == pane_set(before.states(), p),
        after.wf(),
        session_with(after.states(), p.id, 0) < after.states().len(),
        pane_named(after.states(), p.id) == p,
{
    let ss = before.states();
    lemma_sound_of_wf(ss);
    lemma_session_with(ss, p.id, 0);
    lemma_window_with(ss[i].windows, p.id, 0);
    let w = ss[i].windows[j];
    assert(ss[i].wf());
    assert(w.settled());
    lemma_with_pane(w, p);
    assert forall|id: PaneId| #[trigger] w.with_pane(p).has(id) implies w.has(id) by {}
    lemma_edited(ss, i, j, w.with_pane(p), before.next_id, before.killed_list());
    assert(after.states() =~= edited(ss, i, j, w.with_pane(p)));
    lemma_clients_stay(after.clients@, ss, after.states());
    lemma_reads_back(ss, i, j, p);
}

/// A pane that was set is the one found.
pub proof fn lemma_reads_back(ss: Seq<SessionState>, i: int, j: int, p: Pane)
    requires
        i == session_with(ss, p.id, 0),
        i < ss.len(),
        j == window_with(ss[i].windows, p.id, 0),
    ensures
        session_with(pane_set(ss, p), p.id, 0) == i,
        pane_named(pane_set(ss, p), p.id) == p,
{
    lemma_session_with(ss, p.id, 0);
    lemma_window_with(ss[i].windows, p.id, 0);
    let w = ss[i].windows[j];
    lemma_place_of(w.panes, p.id, 0);
    let tt = pane_set(ss, p);
    let v = w.with_pane(p);
    assert(ids(v.panes) =~= ids(w.panes));
    lemma_place_of(v.panes, p.id, 0);
    assert(tt[i].windows[j] == v);
    assert forall|l: int| 0 <= l < ss[i].windows.len() implies (#[trigger] tt[i].windows[l]).has(p.id)
        == ss[i].windows[l].has(p.id) by {}
    lemma_window_with(tt[i].windows, p.id, 0);
    lemma_session_with(tt, p.id, 0);
    assert(tt[i].windows[j].has(p.id));
    let i2 = session_with(tt, p.id, 0);
    assert(session_has(tt[i], p.id));
    assert(i2 <= i);
    if i2 < i {
        assert(tt[i2] == ss[i2]);
        assert(session_has(ss[i2], p.id));
    }
    let j2 = window_with(tt[i].windows, p.id, 0);
    assert(j2 <= j);
    if j2 < j {
        assert(tt[i].windows[j2] == ss[i].windows[j2]);
    }
    let k = place_of(w.panes, p.id, 0);
    let k2 = place_of(v.panes, p.id, 0);
    assert(v.panes[k].id == p.id);
    assert(ids(v.panes)[k2] == ids(w.panes)[k2]);
    if k2 < k {
        assert(w.panes[k2].id == p.id);
    }
}

/// Nothing but the actor of pane `id` changed, to `a`.
pub open spec fn actor_set(before: Seq<SessionState>, after: Seq<SessionState>, id: PaneId, a: ActorState) -> bool {
    let p = pane_named(after, id);
    &&& p.actor@ == a
    &&& p == (Pane { actor: p.actor, ..pane_named(before, id) })
    &&& after == pane_set(before, p)
}

/// The servers differ at most in pane `k` of window `j` of session `i`.
spec fn set_in(before: Server, after: Server, i: int, j: int, k: int) -> bool {
    let s = before.sessions@[i];
    let t = after.sessions@[i];
    let w = s.windows@[j];
    let v = t.windows@[j];
    &&& after == (Server { sessions: after.sessions, ..before })
    &&& after.sessions@ =~= before.sessions@.update(i, t)
    &&& t == (crate::session::Session { windows: t.windows, ..s })
    &&& t.windows@ =~= s.windows@.update(j, v)
    &&& v == (crate::window::Window { panes: v.panes, ..w })
    &&& v.panes@ =~= w.panes@.update(k, v.panes@[k])
}

spec fn pane_in(server: Server, i: int, j: int, k: int) -> Pane {
    server.sessions@[i].windows@[j].panes@[k]
}

impl Server {
    /// A pane, to change: nothing else changes with it.
    pub fn find_pane_mut(&mut self, id: PaneId) -> (found: Option<&mut Pane>)
        requires
            old(self).wf(),
        ensures
            match found {
                None => session_with(old(self).states(), id, 0) >= old(self).states().len() && *final(self) == *old(
                    self,
                ),
                Some(p) => {
                    &&& session_with(old(self).states(), id, 0) < old(self).states().len()
                    &&& *p == pane_named(old(self).states(), id)
                    &&& p.id == id
                    &&& *final(self) == (Server { sessions: final(self).sessions, ..*old(self) })
                    &&& final(p).id == id ==> {
                        &&& final(self).wf()
                        &&& final(self).states() == pane_set(old(self).states(), *final(p))
                        &&& session_with(final(self).states(), id, 0) < final(self).states().len()
                        &&& pane_named(final(self).states(), id) == *final(p)
                    }
                },
            },
    {
        let (i, j) = match self.place_of_pane(id) {
            Some(p) => p,
            None => {
                return None;
            },
        };
        let ghost before = *self;
        let ghost w = self.states()[i as int].windows[j as int];
        proof {
            assert(self.states()[i as int] == self.sessions@[i as int]@);
            assert(w == self.sessions@[i as int].windows@[j as int]@);
            lemma_place_of(w.panes, id, 0);
        }
        let k: usize = self.sessions[i].windows[j].place(id);
        assert forall|after: Server|
            #![trigger after.wf()]
            #![trigger after.states()]
            set_in(before, after, i as int, j as int, k as int) && pane_in(after, i as int, j as int, k as int).id
                == id implies after.wf() && after.states() == pane_set(
            before.states(),
            pane_in(after, i as int, j as int, k as int),
        ) && session_with(after.states(), id, 0) < after.states().len() && pane_named(after.states(), id) == pane_in(
            after,
            i as int,
            j as int,
            k as int,
        ) by {
            let p = pane_in(after, i as int, j as int, k as int);
            let set = w.with_pane(p);
            assert(after.sessions@[i as int].windows@[j as int]@ =~= set);
            assert(after.sessions@[i as int]@ =~= put_window(before.states()[i as int], j as int, set));
            lemma_pane_set(before, after, i as int, j as int, p);
        }
        let p = &mut self.sessions[i].windows[j].panes[k];
        Some(p)
    }
}

impl Server {
    /// Give a pane a title.
    pub fn set_title(&mut self, id: PaneId, title: String) -> (done: bool)
        requires
            old(self).wf(),
        ensures
            final(self).wf(),
            done == (session_with(old(self).states(), id, 0) < old(self).states().len()),
            !done ==> *final(self) == *old(self),
            done ==> {
                &&& final(self).states() == pane_set(
                    old(self).states(),
                    (Pane { title, ..pane_named(old(self).states(), id) }),
                )
                &&& *final(self) == (Server { sessions: final(self).sessions, ..*old(self) })
            },
    {
        match self.find_pane_mut(id) {
            None => false,
            Some(p) => {
                p.title = title;
                true
            },
        }
    }

    /// Show a clock over a pane, or put it away.
    pub fn set_clock(&mut self, id: PaneId, on: bool) -> (done: bool)
        requires
            old(self).wf(),
        ensures
            final(self).wf(),
            done == (session_with(old(self).states(), id, 0) < old(self).states().len()),
            !done ==> *final(self) == *old(self),
            done ==> {
                &&& final(self).states() == pane_set(
                    old(self).states(),
                    (Pane { clock: on, ..pane_named(old(self).states(), id) }),
                )
                &&& *final(self) == (Server { sessions: final(self).sessions, ..*old(self) })
            },
    {
        match self.find_pane_mut(id) {
            None => false,
            Some(p) => {
                p.clock = on;
                true
            },
        }
    }

    /// Put a pane in copy mode, at a cursor, or out of it.
    pub fn set_copy(&mut self, id: PaneId, copy: Option<CopyMode>) -> (done: bool)
        requires
            old(self).wf(),
        ensures
            final(self).wf(),
            done == (session_with(old(self).states(), id, 0) < old(self).states().len()),
            !done ==> *final(self) == *old(self),
            done ==> {
                &&& final(self).states() == pane_set(
                    old(self).states(),
                    (Pane { copy, ..pane_named(old(self).states(), id) }),
                )
                &&& *final(self) == (Server { sessions: final(self).sessions, ..*old(self) })
            },
    {
        match self.find_pane_mut(id) {
            None => false,
            Some(p) => {
                p.copy = copy;
                true
            },
        }
    }

    /// `set-cwd`: a directory said by the user is final, like a shell's own
    /// report.
    pub fn set_cwd(&mut self, id: PaneId, dir: String) -> (done: bool)
        requires
            old(self).wf(),
        ensures
            final(self).wf(),
            done == (session_with(old(self).states(), id, 0) < old(self).states().len()),
            !done ==> *final(self) == *old(self),
            done ==> {
                &&& final(self).states() == pane_set(
                    old(self).states(),
                    (Pane { cwd: Some(dir), announced: true, ..pane_named(old(self).states(), id) }),
                )
                &&& *final(self) == (Server { sessions: final(self).sessions, ..*old(self) })
            },
    {
        match self.find_pane_mut(id) {
            None => false,
            Some(p) => {
                p.cwd = Some(dir);
                p.announced = true;
                true
            },
        }
    }

    /// A pane kept after its program ended: how, and when.
    pub fn mark_dead(&mut self, id: PaneId, code: u32, now: u64) -> (done: bool)
        requires
            old(self).wf(),
        ensures
            final(self).wf(),
            done == (session_with(old(self).states(), id, 0) < old(self).states().len()),
            !done ==> *final(self) == *old(self),
            done ==> {
                &&& final(self).states() == pane_set(
                    old(self).states(),
                    (Pane { exit_code: Some(code), died_at: Some(now), ..pane_named(old(self).states(), id) }),
                )
                &&& *final(self) == (Server { sessions: final(self).sessions, ..*old(self) })
            },
    {
        match self.find_pane_mut(id) {
            None => false,
            Some(p) => {
                p.exit_code = Some(code);
                p.died_at = Some(now);
                true
            },
        }
    }
}

/// The active pane of the current window of session `s`.
pub open spec fn active_of(s: SessionState) -> Pane {
    let w = s.windows[s.cur];
    w.panes[place_of(w.panes, w.active, 0)]
}

/// The sessions as a key of a client finds them: the client typing is the one
/// used last, so the session takes its size when another had set it.
pub open spec fn before_key(server: Server, c: Client, down: bool) -> Seq<SessionState> {
    let ss = server.states();
    let s = ss[session_place(ss, c.session->0, 0)];
    if down && server.opts.window_size@ == "latest"@ && (s.cols != c.cols || s.rows != c.rows) {
        fitted_session(ss, server.opts, server.clients@, c.session->0, Some(c.id))
    } else {
        ss
    }
}

impl Server {
    /// A key of a client: what it changes here, and what is to be done.
    #[verifier::spinoff_prover]
    #[verifier::rlimit(40)]
    pub fn handle_key(&mut self, cid: ClientId, key: Option<Key>, rec: &KeyRecord, t: &KeyTables, rules: &KeyRules) -> (
        action: KeyAction)
        requires
            old(self).wf(),
            t.wf(),
        ensures
            final(self).wf(),
            ({
                let c = client_place(old(self).clients@, cid, 0);
                let cs = old(self).clients@;
                if c >= cs.len() || cs[c].session is None {
                    action is Nothing && *final(self) == *old(self)
                } else {
                    let ss = before_key(*old(self), cs[c], rec.down);
                    let s = ss[session_place(ss, cs[c].session->0, 0)];
                    let p = active_of(s);
                    let around = Around { clock: p.clock, in_copy: p.copy is Some };
                    &&& if !rec.down && cs[c].swallow_up@.contains(rec.vk) {
                        // The key-up of a key that was taken here.
                        let after = final(self).clients@[c];
                        &&& action is Nothing
                        &&& after == (Client { last_activity: rules.now, swallow_up: after.swallow_up, ..cs[c] })
                        &&& forall|v: u16| #[trigger]
                            after.swallow_up@.contains(v) <==> cs[c].swallow_up@.contains(v) && v != rec.vk
                    } else {
                        let d = keyed(cs[c], key, *rec, *t, *rules, around);
                        action == d.action && is_keyed(cs[c], final(self).clients@[c], key, *rec, *rules, d)
                    }
                    &&& final(self).clients@ == cs.update(c, final(self).clients@[c])
                    &&& final(self).states() == if action is StopClock {
                        pane_set(ss, Pane { clock: false, ..p })
                    } else {
                        ss
                    }
                    &&& *final(self) == (Server {
                        sessions: final(self).sessions,
                        clients: final(self).clients,
                        ..*old(self)
                    })
                }
            }),
    {
        let c: usize = self.client_at(cid);
        if c >= self.clients.len() {
            return KeyAction::Nothing;
        }
        let sid: SessionId = match self.clients[c].session {
            Some(s) => s,
            None => {
                return KeyAction::Nothing;
            },
        };
        let ghost cs = self.clients@;
        let ghost ss0 = self.states();
        let i: usize = self.session_at(sid);
        proof {
            assert(session_place(ss0, cs[c as int].session->0, 0) < ss0.len());
            assert(ss0[i as int] == self.sessions@[i as int]@);
        }
        let other: bool = self.sessions[i].cols != self.clients[c].cols || self.sessions[i].rows
            != self.clients[c].rows;
        if rec.down && same_text(self.opts.window_size.as_str(), "latest") && other {
            self.fit_session(sid, Some(cid));
        }
        let ghost ss = self.states();
        let i: usize = self.session_at(sid);
        proof {
            assert(ss == before_key(*old(self), cs[c as int], rec.down));
            assert(session_place(ss, cs[c as int].session->0, 0) < ss.len());
            assert(ss[i as int] == self.sessions@[i as int]@);
            assert(ss[i as int].wf());
        }
        let cur: usize = self.sessions[i].cur;
        let ghost w = ss[i as int].windows[cur as int];
        proof {
            assert(w == self.sessions@[i as int].windows@[cur as int]@);
            assert(w.settled());
            lemma_place_of(w.panes, w.active, 0);
        }
        let pid: PaneId = self.sessions[i].windows[cur].active;
        let k: usize = self.sessions[i].windows[cur].place(pid);
        let around = Around {
            clock: self.sessions[i].windows[cur].panes[k].clock,
            in_copy: self.sessions[i].windows[cur].panes[k].copy.is_some(),
        };
        let action = self.clients[c].key(key, rec, t, rules, &around);
        proof {
            let after = self.clients@;
            assert(after =~= cs.update(c as int, after[c as int]));
            assert(after[c as int].session == cs[c as int].session && after[c as int].id == cs[c as int].id);
            assert forall|x: int| 0 <= x < after.len() && (#[trigger] after[x]).session is Some implies session_place(
                ss,
                after[x].session->0,
                0,
            ) < ss.len() by {
                assert(cs[x].session is Some);
                lemma_still_there(*old(self), cs[c as int], rec.down, cs[x].session->0);
            }
            assert forall|d: int, e: int| 0 <= d < e < after.len() implies (#[trigger] after[d]).id != (
            #[trigger] after[e]).id by {
                assert(cs[d].id != cs[e].id);
            }
        }
        if let KeyAction::StopClock = action {
            proof {
                crate::join::lemma_found(ss, i as int, cur as int, pid);
            }
            let _ = self.set_clock(pid, false);
        }
        action
    }
}

/// No session goes when one takes another size.
proof fn lemma_still_there(server: Server, c: Client, down: bool, id: SessionId)
    requires
        session_place(server.states(), id, 0) < server.states().len(),
    ensures
        session_place(before_key(server, c, down), id, 0) < before_key(server, c, down).len(),
{
    let a = server.states();
    let b = before_key(server, c, down);
    crate::server_edit::lemma_same_sessions(a, b, id, 0);
}

} // verus!
