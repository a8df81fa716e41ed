//! Panes, windows and sessions that end, and what is kept of those that a
//! command killed.
use vstd::prelude::*;

use crate::chooser::SessionId;
use crate::client::Client;
use crate::layout::{panes, PaneId};
use crate::pane::Pane;
use crate::server::{apart, clients_wf, kept, killed_wf, lemma_session_place, lemma_session_with, lives, numbered_below, session_place, session_with, sessions_wf, KilledState, Options, Server};
use crate::server_edit::{all_detached, at, descends, edited, lemma_clients_stay, lemma_descends, lemma_edited, put_window, relaid, sessions_sound};
use crate::session::{lemma_less_window, lemma_window_with, window_with, SessionState};
use crate::window::{ids, lemma_place_of, place_of};
use crate::window_edit::lemma_without;

verus! {

/// The most kills that are kept.
pub const KILLS_KEPT: usize = 20;

/// The sessions without pane `id`, which has ended: its window goes with its
/// last pane, and the session with its last window.
pub open spec fn pane_closed(ss: Seq<SessionState>, opts: Options, id: PaneId) -> Seq<SessionState> {
    let i = session_with(ss, id, 0);
    let j = window_with(ss[i].windows, id, 0);
    let w = ss[i].windows[j];
    if w.panes.len() > 1 {
        relaid(edited(ss, i, j, w.closed(id)), i, opts)
    } else if ss[i].windows.len() > 1 {
        relaid(ss.update(i, ss[i].less_window(j)), i, opts)
    } else {
        ss.remove(i)
    }
}

/// Pane `id` is the only one of its session.
pub open spec fn is_all_of_a_session(ss: Seq<SessionState>, id: PaneId) -> bool {
    let i = session_with(ss, id, 0);
    ss[i].windows.len() == 1 && ss[i].windows[0].panes.len() == 1
}

/// The pane `id`, wherever it is.
pub open spec fn pane_named(ss: Seq<SessionState>, id: PaneId) -> Pane {
    let i = session_with(ss, id, 0);
    let w = ss[i].windows[window_with(ss[i].windows, id, 0)];
    w.panes[place_of(w.panes, id, 0)]
}

/// The newest of what is kept.
pub open spec fn trimmed_kills(ks: Seq<KilledState>) -> Seq<KilledState> {
    if ks.len() > KILLS_KEPT {
        ks.skip(ks.len() - KILLS_KEPT)
    } else {
        ks
    }
}

/// A session that goes leaves the others as they were.
pub proof fn lemma_session_gone(ss: Seq<SessionState>, i: int, next: u32, ks: Seq<KilledState>)
    requires
        sessions_sound(ss),
        apart(ss),
        numbered_below(ss, next),
        killed_wf(ks, ss, next),
        0 <= i < ss.len(),
    ensures
        sessions_sound(ss.remove(i)),
        apart(ss.remove(i)),
        numbered_below(ss.remove(i), next),
        killed_wf(ks, ss.remove(i), next),
        sessions_wf(ss) ==> sessions_wf(ss.remove(i)),
{
    let b = ss.remove(i);
    let from = |k: int, l: int|
        (
            if k < i {
                k
            } else {
                k + 1
            },
            l,
        );
    assert forall|k: int| 0 <= k < b.len() implies b[k] == #[trigger] ss[from(k, 0).0] by {}
    assert(descends(ss, b, from)) by {
        assert forall|k: int| 0 <= k < b.len() implies exists|m: int|
            0 <= m < ss.len() && (#[trigger] ss[m]).id == (#[trigger] b[k]).id by {
            assert(ss[from(k, 0).0].id == b[k].id);
        }
        assert forall|k: int, l: int| 0 <= k < l < b.len() implies (#[trigger] b[k]).id != (#[trigger] b[l]).id by {
            assert(ss[from(k, 0).0].id != ss[from(l, 0).0].id);
        }
    }
    lemma_descends(ss, b, from, next, ks);
    assert forall|k: int| 0 <= k < b.len() implies (#[trigger] b[k]).sound() by {
        assert(ss[from(k, 0).0].sound());
    }
    if sessions_wf(ss) {
        assert forall|k: int| 0 <= k < b.len() implies (#[trigger] b[k]).wf() by {
            assert(ss[from(k, 0).0].wf());
        }
    }
}

/// The clients that stay look at sessions that stay.
pub proof fn lemma_clients_left(
    cs: Seq<Client>,
    after: Seq<Client>,
    ss: Seq<SessionState>,
    i: int,
    reason: Seq<char>,
)
    requires
        clients_wf(cs, ss),
        0 <= i < ss.len(),
        all_detached(cs, after, ss[i].id, reason),
    ensures
        clients_wf(after, ss.remove(i)),
{
    let b = ss.remove(i);
    assert forall|c: int| 0 <= c < after.len() && (#[trigger] after[c]).session is Some implies session_place(
        b,
        after[c].session->0,
        0,
    ) < b.len() by {
        let id = cs[c].session->0;
        assert(after[c] == cs[c]);
        lemma_session_place(ss, id, 0);
        let k = session_place(ss, id, 0);
        assert(k != i);
        lemma_session_place(b, id, 0);
        let m = if k < i {
            k
        } else {
            k - 1
        };
        assert(b[m].id == id);
    }
    assert forall|c: int, d: int| 0 <= c < d < after.len() implies (#[trigger] after[c]).id != (#[trigger] after[d]).id by {
        assert(cs[c].id != cs[d].id);
        assert(after[c].id == cs[c].id && after[d].id == cs[d].id);
    }
}

/// A window that goes leaves the other windows where they belong.
pub proof fn lemma_window_gone(ss: Seq<SessionState>, i: int, j: int, s: SessionState, next: u32, ks: Seq<KilledState>)
    requires
        sessions_sound(ss),
        apart(ss),
        numbered_below(ss, next),
        killed_wf(ks, ss, next),
        at(ss, i, j),
        ss[i].windows.len() > 1,
        s == ss[i].less_window(j) || s == ss[i].given_window(j),
    ensures
        sessions_sound(ss.update(i, s)),
        apart(ss.update(i, s)),
        numbered_below(ss.update(i, s), next),
        killed_wf(ks, ss.update(i, s), next),
        sessions_wf(ss) ==> sessions_wf(ss.update(i, s)),
{
    lemma_less_window(ss[i], j);
    let b = ss.update(i, s);
    assert(s.windows == ss[i].windows.remove(j));
    let from = |k: int, l: int|
        (
            k,
            if k == i && l >= j {
                l + 1
            } else {
                l
            },
        );
    assert forall|k: int, l: int| #[trigger] at(b, k, l) implies at(ss, from(k, l).0, from(k, l).1) && b[k].windows[l]
        == ss[from(k, l).0].windows[from(k, l).1] by {}
    assert(descends(ss, b, from)) by {
        assert forall|k: int| 0 <= k < b.len() implies exists|m: int|
            0 <= m < ss.len() && (#[trigger] ss[m]).id == (#[trigger] b[k]).id by {
            assert(ss[k].id == b[k].id);
        }
        assert forall|k: int, l: int| 0 <= k < l < b.len() implies (#[trigger] b[k]).id != (#[trigger] b[l]).id by {
            assert(ss[k].id != ss[l].id);
        }
    }
    lemma_descends(ss, b, from, next, ks);
    assert(ss[i].sound());
    if sessions_wf(ss) {
        assert(ss[i].wf());
    }
}

/// A pane that ended is in no window any more, and the others are where they
/// were or nowhere.
pub proof fn lemma_pane_closed(ss: Seq<SessionState>, opts: Options, id: PaneId, next: u32, ks: Seq<KilledState>)
    requires
        sessions_wf(ss),
        apart(ss),
        numbered_below(ss, next),
        killed_wf(ks, ss, next),
        session_with(ss, id, 0) < ss.len(),
    ensures
        forall|i: int, j: int| !#[trigger] lives(pane_closed(ss, opts, id), i, j, id),
        forall|i: int, j: int, p: PaneId| #[trigger]
            lives(pane_closed(ss, opts, id), i, j, p) ==> exists|k: int, l: int| #[trigger] lives(ss, k, l, p),
{
    let i = session_with(ss, id, 0);
    lemma_session_with(ss, id, 0);
    lemma_window_with(ss[i].windows, id, 0);
    let j = window_with(ss[i].windows, id, 0);
    let w = ss[i].windows[j];
    let b = pane_closed(ss, opts, id);
    assert(ss[i].wf());
    assert(w.settled());
    assert(lives(ss, i, j, id));
    let area = crate::server::area_of(
        opts,
        crate::pane::at_least_one(ss[i].cols),
        crate::pane::at_least_one(ss[i].rows),
    );
    let border = crate::server::border_of(opts);
    if w.panes.len() > 1 {
        lemma_without(w, id);
        let mid = edited(ss, i, j, w.closed(id));
        lemma_edited(ss, i, j, w.closed(id), next, ks);
        assert(mid[i].sound());
        crate::session::lemma_fitted_to(mid[i], mid[i].cols, mid[i].rows, area, border);
        assert forall|k: int, l: int, p: PaneId| #[trigger] lives(b, k, l, p) implies lives(ss, k, l, p) && p != id by {
            if k == i {
                assert(ids(b[i].windows[l].panes) == ids(mid[i].windows[l].panes));
                if l == j {
                    assert(w.closed(id).has(p));
                    assert(w.without(id).has(p));
                }
            }
            assert(lives(ss, k, l, p));
        }
    } else if ss[i].windows.len() > 1 {
        let mid = ss.update(i, ss[i].less_window(j));
        lemma_window_gone(ss, i, j, ss[i].less_window(j), next, ks);
        assert(mid[i].sound());
        crate::session::lemma_fitted_to(mid[i], mid[i].cols, mid[i].rows, area, border);
        assert forall|k: int, l: int, p: PaneId| #[trigger] lives(b, k, l, p) implies (exists|x: int, y: int| #[trigger]
            lives(ss, x, y, p)) && p != id by {
            let y = if k == i && l >= j {
                l + 1
            } else {
                l
            };
            if k == i {
                assert(ids(b[i].windows[l].panes) == ids(mid[i].windows[l].panes));
            }
            assert(lives(ss, k, y, p));
            if p == id {
                assert(lives(ss, i, j, p));
            }
        }
    } else {
        assert forall|k: int, l: int, p: PaneId| #[trigger] lives(b, k, l, p) implies (exists|x: int, y: int| #[trigger]
            lives(ss, x, y, p)) && p != id by {
            let x = if k < i {
                k
            } else {
                k + 1
            };
            assert(b[k] == ss[x]);
            assert(lives(ss, x, l, p));
            if p == id {
                assert(lives(ss, i, j, p));
            }
        }
    }
}

impl Server {
    /// End a session: its clients are told why.
    pub fn kill_session(&mut self, sid: SessionId, reason: &str)
        requires
            old(self).wf(),
        ensures
            final(self).wf(),
            ({
                let i = session_place(old(self).states(), sid, 0);
                if i < old(self).states().len() {
                    &&& final(self).states() == old(self).states().remove(i)
                    &&& all_detached(old(self).clients@, final(self).clients@, sid, reason@)
                    &&& *final(self) == (Server {
                        clients: final(self).clients,
                        sessions: final(self).sessions,
                        ..*old(self)
                    })
                } else {
                    *final(self) == *old(self)
                }
            }),
    {
        let i: usize = self.session_at(sid);
        if i >= self.sessions.len() {
            return;
        }
        let _ = self.end_session(i, reason);
    }

    pub fn end_session(&mut self, i: usize, reason: &str) -> (s: crate::session::Session)
        requires
            old(self).wf(),
            i < old(self).states().len(),
        ensures
            final(self).wf(),
            final(self).states() == old(self).states().remove(i as int),
            all_detached(old(self).clients@, final(self).clients@, old(self).states()[i as int].id, reason@),
            *final(self) == (Server { clients: final(self).clients, sessions: final(self).sessions, ..*old(self) }),
            s@ == old(self).states()[i as int],
    {
        let ghost ss = self.states();
        let ghost cs = self.clients@;
        proof {
            assert(ss[i as int] == self.sessions@[i as int]@);
            assert(ss[i as int].wf());
            assert(sessions_sound(ss)) by {
                assert forall|k: int| 0 <= k < ss.len() implies (#[trigger] ss[k]).sound() by {
                    assert(ss[k].wf());
                }
            }
            lemma_session_gone(ss, i as int, self.next_id, self.killed_list());
        }
        let s = self.sessions.remove(i);
        assert(self.states() =~= ss.remove(i as int));
        let sid: SessionId = s.id;
        self.detach_all(sid, reason);
        proof {
            lemma_clients_left(cs, self.clients@, ss, i as int, reason@);
        }
        s
    }

    /// Take a pane out of its window (the window out of its session when it
    /// was the last, the session off the server when that was the last) and
    /// hand it back, marked as ended.
    pub fn remove_pane(&mut self, id: PaneId, exit_code: Option<u32>) -> (pane: Option<Pane>)
        requires
            old(self).wf(),
        ensures
            final(self).wf(),
            pane is Some <==> session_with(old(self).states(), id, 0) < old(self).states().len(),
            pane is None ==> *final(self) == *old(self),
            pane is Some ==> {
                &&& pane->0 == (Pane {
                    exit_code: Some(
                        match exit_code {
                            Some(c) => c,
                            None => 0,
                        },
                    ),
                    ..pane_named(old(self).states(), id)
                })
                &&& final(self).states() == pane_closed(old(self).states(), old(self).opts, id)
                &&& *final(self) == (Server {
                    clients: final(self).clients,
                    sessions: final(self).sessions,
                    ..*old(self)
                })
                &&& if is_all_of_a_session(old(self).states(), id) {
                    all_detached(
                        old(self).clients@,
                        final(self).clients@,
                        old(self).states()[session_with(old(self).states(), id, 0)].id,
                        "exited"@,
                    )
                } else {
                    final(self).clients == old(self).clients
                }
            },
    {
        let ghost ss = self.states();
        let i: usize = match self.place_of_pane(id) {
            Some((i, _)) => i,
            None => {
                return None;
            },
        };
        let j: usize = self.sessions[i].place_with(id);
        proof {
            assert(ss[i as int] == self.sessions@[i as int]@);
            assert(ss[i as int].wf());
            lemma_window_with(ss[i as int].windows, id, 0);
            assert(ss[i as int].windows[j as int] == self.sessions@[i as int].windows@[j as int]@);
            assert(ss[i as int].windows[j as int].settled());
            lemma_place_of(ss[i as int].windows[j as int].panes, id, 0);
            assert(sessions_sound(ss)) by {
                assert forall|k: int| 0 <= k < ss.len() implies (#[trigger] ss[k]).sound() by {
                    assert(ss[k].wf());
                }
            }
        }
        let code: u32 = match exit_code {
            Some(c) => c,
            None => 0,
        };
        let ghost w = ss[i as int].windows[j as int];
        if self.sessions[i].windows[j].panes.len() > 1 {
            let mut pane = self.sessions[i].windows[j].close(id);
            proof {
                lemma_without(w, id);
                lemma_edited(ss, i as int, j as int, w.closed(id), self.next_id, self.killed_list());
                let s = self.sessions@[i as int]@;
                assert(s.windows =~= ss[i as int].windows.update(j as int, w.closed(id)));
                assert(s =~= put_window(ss[i as int], j as int, w.closed(id)));
                assert(self.states() =~= edited(ss, i as int, j as int, w.closed(id)));
                lemma_clients_stay(self.clients@, ss, self.states());
            }
            self.relayout_at(i);
            pane.exit_code = Some(code);
            return Some(pane);
        }
        if self.sessions[i].windows.len() > 1 {
            let mut window = self.sessions[i].take_window(j);
            proof {
                lemma_window_gone(ss, i as int, j as int, ss[i as int].less_window(j as int), self.next_id, self.killed_list());
                assert(self.states() =~= ss.update(i as int, ss[i as int].less_window(j as int)));
                lemma_clients_stay(self.clients@, ss, self.states());
            }
            self.relayout_at(i);
            let mut pane = window.panes.remove(0);
            pane.exit_code = Some(code);
            return Some(pane);
        }
        let mut s = self.end_session(i, "exited");
        assert(s@.windows[0] == s.windows@[0]@);
        let mut window = s.windows.remove(0);
        let mut pane = window.panes.remove(0);
        pane.exit_code = Some(code);
        Some(pane)
    }

    /// The places of the session and the window that have a pane.
    pub fn place_of_pane(&self, id: PaneId) -> (found: Option<(usize, usize)>)
        ensures
            match found {
                Some((i, j)) => {
                    &&& i == session_with(self.states(), id, 0)
                    &&& i < self.states().len()
                    &&& j == window_with(self.states()[i as int].windows, id, 0)
                    &&& j < self.states()[i as int].windows.len()
                    &&& self.states()[i as int].windows[j as int].has(id)
                },
                None => session_with(self.states(), id, 0) >= self.states().len(),
            },
    {
        match self.window_of_pane(id) {
            None => None,
            Some((_, j)) => {
                let i: usize = self.session_with_pane(id);
                proof {
                    lemma_session_with(self.states(), id, 0);
                    lemma_window_with(self.states()[i as int].windows, id, 0);
                }
                Some((i, j))
            },
        }
    }

    /// Keep no more than so many kills; older ones end now.
    pub fn trim_killed(&mut self)
        requires
            old(self).wf(),
        ensures
            final(self).wf(),
            final(self).killed_list() == trimmed_kills(old(self).killed_list()),
            *final(self) == (Server { killed: final(self).killed, ..*old(self) }),
    {
        let ghost all = self.killed_list();
        assert(all.skip(0) =~= all);
        let ghost mut gone: int = 0;
        while self.killed.len() > KILLS_KEPT
            invariant
                0 <= gone,
                gone + self.killed@.len() == all.len(),
                gone > 0 ==> self.killed@.len() >= KILLS_KEPT,
                self.killed_list() == all.skip(gone),
                self.wf(),
                *self == (Server { killed: self.killed, ..*old(self) }),
            decreases self.killed.len(),
        {
            let ghost before = self.killed_list();
            let _ = self.killed.remove(0);
            proof {
                assert(self.killed_list() =~= before.skip(1));
                lemma_kills_skipped(before, self.states(), self.next_id);
                gone = gone + 1;
                assert(self.killed_list() =~= all.skip(gone));
            }
        }
        assert(self.killed_list() =~= trimmed_kills(all));
    }
}

/// Without the oldest, what is kept is in order.
proof fn lemma_kills_skipped(ks: Seq<KilledState>, ss: Seq<SessionState>, next: u32)
    requires
        ks.len() > 0,
        killed_wf(ks, ss, next),
    ensures
        killed_wf(ks.skip(1), ss, next),
{
    let b = ks.skip(1);
    assert forall|k: int| 0 <= k < b.len() implies #[trigger] b[k] == ks[k + 1] by {}
    assert forall|k: int, id: PaneId| #[trigger] kept(b, k, id) implies kept(ks, k + 1, id) by {}
    assert forall|k: int, l: int, id: PaneId| #[trigger] kept(b, k, id) && #[trigger] kept(b, l, id) implies k == l by {
        assert(kept(ks, k + 1, id) && kept(ks, l + 1, id));
    }
    assert forall|k: int, i: int, j: int, id: PaneId| #[trigger] kept(b, k, id) implies !#[trigger] lives(ss, i, j, id) by {
        assert(kept(ks, k + 1, id));
    }
    assert forall|k: int, l: int| 0 <= k < l < b.len() implies match (#[trigger] b[k], #[trigger] b[l]) {
        (KilledState::Window { window: a, .. }, KilledState::Window { window: c, .. }) => a.id != c.id,
        _ => true,
    } by {
        assert(ks[k + 1] == b[k] && ks[l + 1] == b[l]);
    }
}

} // verus!
