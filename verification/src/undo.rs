//! Killing panes and windows, and taking it back.
use vstd::prelude::*;

use crate::chooser::{SessionId, WindowId};
use crate::client::Client;
use crate::command::{Ended, Outcome};
use crate::edit::{lemma_others, others, split_tree};
use crate::endings::{is_all_of_a_session, lemma_pane_closed, lemma_window_gone, pane_closed, pane_named, trimmed_kills};
use crate::layout::{panes, shape, PaneId, Rect, Tree};
use crate::pane::Pane;
use crate::server::{apart, area_of, border_of, kept, killed_wf, lives, numbered_below, session_place, session_with, sessions_wf, stands, Killed, KilledState, Options, Server};
use crate::server_edit::{all_detached, at, edited, lemma_clients_stay, put_window, relaid, sessions_sound};
use crate::session::{window_place, window_with, SessionState};
use crate::window::{ids, lemma_place_of, rect_in, Window, WindowState};
use crate::window_edit::{fresh, lemma_fresh, lemma_joined, lemma_without};

verus! {

/// One more thing kept, that is nowhere else.
proof fn lemma_one_more_kept(ks: Seq<KilledState>, ss: Seq<SessionState>, next: u32, new: KilledState)
    requires
        killed_wf(ks, ss, next),
        match new {
            KilledState::Window { window, .. } => window.wf() && window.id < next && forall|i: int, j: int|
                !#[trigger] stands(ss, i, j, window.id),
            KilledState::Pane { pane, tree, .. } => shape(tree) && panes(tree).no_duplicates() && panes(tree).contains(
                pane.id,
            ),
        },
        forall|id: PaneId| #[trigger] new.has(id) ==> id < next,
        forall|id: PaneId, i: int, j: int| #[trigger] new.has(id) ==> !#[trigger] lives(ss, i, j, id),
        forall|id: PaneId, k: int| #[trigger] new.has(id) ==> !#[trigger] kept(ks, k, id),
        forall|k: int|
            0 <= k < ks.len() ==> match (#[trigger] ks[k], new) {
                (KilledState::Window { window: a, .. }, KilledState::Window { window: b, .. }) => a.id != b.id,
                _ => true,
            },
    ensures
        killed_wf(ks.push(new), ss, next),
{
    let b = ks.push(new);
    let n = ks.len() as int;
    assert forall|k: int, id: PaneId| #[trigger] kept(b, k, id) implies (if k < n {
        kept(ks, k, id)
    } else {
        new.has(id)
    }) by {}
    assert forall|k: int, l: int, id: PaneId| #[trigger] kept(b, k, id) && #[trigger] kept(b, l, id) implies k == l by {
        if k < n && l < n {
            assert(kept(ks, k, id) && kept(ks, l, id));
        } else if k < n {
            assert(kept(ks, k, id) && new.has(id));
        } else if l < n {
            assert(kept(ks, l, id) && new.has(id));
        }
    }
    assert forall|k: int, i: int, j: int, id: PaneId| #[trigger] kept(b, k, id) implies !#[trigger] lives(ss, i, j, id) by {
        if k < n {
            assert(kept(ks, k, id));
        } else {
            assert(new.has(id));
        }
    }
    assert forall|k: int, i: int, j: int|
        0 <= k < b.len() && 0 <= i < ss.len() && 0 <= j < ss[i].windows.len() implies match #[trigger] b[k] {
        KilledState::Window { window, .. } => (#[trigger] ss[i].windows[j]).id != window.id,
        _ => true,
    } by {
        if k < n {
            assert(b[k] == ks[k]);
        } else if let KilledState::Window { window, .. } = new {
            assert(!stands(ss, i, j, window.id));
        }
    }
    assert forall|k: int, l: int| 0 <= k < l < b.len() implies match (#[trigger] b[k], #[trigger] b[l]) {
        (KilledState::Window { window: a, .. }, KilledState::Window { window: c, .. }) => a.id != c.id,
        _ => true,
    } by {
        assert(b[k] == ks[k]);
        if l < n {
            assert(b[l] == ks[l]);
        }
    }
}

/// What is kept after pane `id` was killed: the pane, or the window it was
/// the last of, unless that is all of its session.
pub open spec fn kept_after(
    ss: Seq<SessionState>,
    ks: Seq<KilledState>,
    opts: Options,
    id: PaneId,
    now: u64,
) -> Seq<KilledState> {
    let i = session_with(ss, id, 0);
    let j = window_with(ss[i].windows, id, 0);
    let w = ss[i].windows[j];
    if opts.undo_kill_time == 0 || i >= ss.len() || is_all_of_a_session(ss, id) {
        ks
    } else if w.panes.len() > 1 {
        trimmed_kills(
            ks.push(
                KilledState::Pane {
                    pane: Pane { exit_code: None, ..pane_named(ss, id) },
                    session: ss[i].id,
                    home: w.id,
                    tree: w.tree,
                    at: now,
                },
            ),
        )
    } else {
        trimmed_kills(ks.push(KilledState::Window { window: w, session: ss[i].id, index: j, at: now }))
    }
}

/// The sessions after pane `id` was killed, if it is there.
pub open spec fn sessions_after(ss: Seq<SessionState>, opts: Options, id: PaneId) -> Seq<SessionState> {
    if session_with(ss, id, 0) < ss.len() {
        pane_closed(ss, opts, id)
    } else {
        ss
    }
}

/// The clients of sessions that went are sent away, and the others stay as
/// they were.
pub open spec fn only_lost_detached(before: Seq<Client>, after: Seq<Client>, ss: Seq<SessionState>, reason: Seq<
    char,
>) -> bool {
    &&& after.len() == before.len()
    &&& forall|c: int|
        0 <= c < before.len() ==> if before[c].session is Some && session_place(ss, before[c].session->0, 0)
            >= ss.len() {
            crate::server_edit::is_detached(before[c], #[trigger] after[c], reason)
        } else {
            after[c] == before[c]
        }
}

impl Server {
    /// Take window `j` of session `i` out but keep it, panes running. A
    /// session's only window is not kept. False when nothing was kept.
    pub fn keep_killed_window(&mut self, i: usize, j: usize, now: u64) -> (done: bool)
        requires
            old(self).wf(),
            i < old(self).states().len(),
        ensures
            final(self).wf(),
            done == (old(self).states()[i as int].windows.len() >= 2 && j < old(self).states()[i as int].windows.len()),
            !done ==> *final(self) == *old(self),
            done ==> {
                &&& final(self).states() == relaid(
                    old(self).states().update(i as int, old(self).states()[i as int].less_window(j as int)),
                    i as int,
                    old(self).opts,
                )
                &&& final(self).killed_list() == trimmed_kills(
                    old(self).killed_list().push(
                        KilledState::Window {
                            window: old(self).states()[i as int].windows[j as int],
                            session: old(self).states()[i as int].id,
                            index: j as int,
                            at: now,
                        },
                    ),
                )
                &&& *final(self) == (Server {
                    sessions: final(self).sessions,
                    killed: final(self).killed,
                    ..*old(self)
                })
            },
    {
        let ghost ss = self.states();
        let ghost ks = self.killed_list();
        proof {
            assert(ss[i as int] == self.sessions@[i as int]@);
            assert(ss[i as int].wf());
            assert(sessions_sound(ss)) by {
                assert forall|k: int| 0 <= k < ss.len() implies (#[trigger] ss[k]).sound() by {
                    assert(ss[k].wf());
                }
            }
        }
        if self.sessions[i].windows.len() < 2 || j >= self.sessions[i].windows.len() {
            return false;
        }
        let ghost w = ss[i as int].windows[j as int];
        let sid: SessionId = self.sessions[i].id;
        let window = self.sessions[i].take_window(j);
        let ghost mid = ss.update(i as int, ss[i as int].less_window(j as int));
        proof {
            lemma_window_gone(ss, i as int, j as int, ss[i as int].less_window(j as int), self.next_id, ks);
            assert(self.states() =~= mid);
            lemma_clients_stay(self.clients@, ss, mid);
        }
        self.relayout_at(i);
        proof {
            let new = KilledState::Window { window: w, session: sid, index: j as int, at: now };
            let now_ss = self.states();
            assert(stands(ss, i as int, j as int, w.id));
            assert forall|k: int, l: int| #[trigger] at(now_ss, k, l) implies ({
                let m = if k == i && l >= j {
                    l + 1
                } else {
                    l
                };
                &&& at(ss, k, m)
                &&& now_ss[k].windows[l].id == ss[k].windows[m].id
                &&& ids(now_ss[k].windows[l].panes) == ids(ss[k].windows[m].panes)
                &&& !(k == i && m == j)
            }) by {
                if k == i {
                    crate::session::lemma_fitted_to(
                        mid[k],
                        mid[k].cols,
                        mid[k].rows,
                        area_of(
                            self.opts,
                            crate::pane::at_least_one(mid[k].cols),
                            crate::pane::at_least_one(mid[k].rows),
                        ),
                        border_of(self.opts),
                    );
                }
            }
            assert forall|k: int, l: int| !#[trigger] stands(now_ss, k, l, w.id) by {
                if stands(now_ss, k, l, w.id) {
                    assert(at(now_ss, k, l));
                    let m = if k == i && l >= j {
                        l + 1
                    } else {
                        l
                    };
                    assert(stands(ss, k, m, w.id));
                }
            }
            assert(w.settled());
            assert forall|id: PaneId| #[trigger] new.has(id) implies id < self.next_id by {
                assert(lives(ss, i as int, j as int, id));
            }
            assert forall|id: PaneId, k: int, l: int| #[trigger] new.has(id) implies !#[trigger] lives(
                now_ss,
                k,
                l,
                id,
            ) by {
                if lives(now_ss, k, l, id) {
                    assert(at(now_ss, k, l));
                    let m = if k == i && l >= j {
                        l + 1
                    } else {
                        l
                    };
                    assert(lives(ss, k, m, id) && lives(ss, i as int, j as int, id));
                }
            }
            assert forall|id: PaneId, k: int| #[trigger] new.has(id) implies !#[trigger] kept(ks, k, id) by {
                assert(lives(ss, i as int, j as int, id));
            }
            assert forall|k: int| 0 <= k < ks.len() implies match (#[trigger] ks[k], new) {
                (KilledState::Window { window: a, .. }, KilledState::Window { window: b, .. }) => a.id != b.id,
                _ => true,
            } by {
                assert(ss[i as int].windows[j as int].id == w.id);
            }
            lemma_one_more_kept(ks, now_ss, self.next_id, new);
        }
        self.killed.push(Killed::Window { window, session: sid, index: j, at: now });
        proof {
            assert(self.killed_list() =~= ks.push(
                KilledState::Window { window: w, session: sid, index: j as int, at: now },
            ));
        }
        self.trim_killed();
        true
    }

    /// Take a pane out of its window but keep it, running. The last pane of a
    /// window keeps the whole window instead; the last one of a session is
    /// not kept. False when nothing was kept.
    pub fn keep_killed_pane(&mut self, id: PaneId, now: u64) -> (done: bool)
        requires
            old(self).wf(),
            old(self).opts.undo_kill_time > 0,
        ensures
            final(self).wf(),
            done == (session_with(old(self).states(), id, 0) < old(self).states().len() && !is_all_of_a_session(
                old(self).states(),
                id,
            )),
            !done ==> *final(self) == *old(self),
            done ==> {
                &&& final(self).states() == pane_closed(old(self).states(), old(self).opts, id)
                &&& final(self).killed_list() == kept_after(
                    old(self).states(),
                    old(self).killed_list(),
                    old(self).opts,
                    id,
                    now,
                )
                &&& *final(self) == (Server {
                    sessions: final(self).sessions,
                    killed: final(self).killed,
                    ..*old(self)
                })
            },
    {
        let ghost ss = self.states();
        let ghost ks = self.killed_list();
        let (i, j) = match self.place_of_pane(id) {
            Some(p) => p,
            None => {
                return false;
            },
        };
        proof {
            assert(ss[i as int] == self.sessions@[i as int]@);
            assert(ss[i as int].wf());
            assert(ss[i as int].windows[j as int] == self.sessions@[i as int].windows@[j as int]@);
            assert(ss[i as int].windows[j as int].settled());
        }
        let ghost w = ss[i as int].windows[j as int];
        if self.sessions[i].windows[j].panes.len() == 1 {
            return self.keep_killed_window(i, j, now);
        }
        proof {
            lemma_place_of(w.panes, id, 0);
            assert(w.panes.len() > 1);
        }
        let home: WindowId = self.sessions[i].windows[j].id;
        let layout = self.sessions[i].windows[j].layout.clone();
        let sid: SessionId = self.sessions[i].id;
        match self.remove_pane(id, None) {
            None => false,
            Some(p) => {
                let mut pane = p;
                // Still running: if it is never brought back, its program
                // has to be ended.
                pane.exit_code = None;
                let ghost new = KilledState::Pane { pane, session: sid, home, tree: w.tree, at: now };
                proof {
                    lemma_pane_closed(ss, self.opts, id, self.next_id, ks);
                    assert(lives(ss, i as int, j as int, id));
                    assert(panes(w.tree).contains(id));
                    assert forall|q: PaneId, k: int| #[trigger] new.has(q) implies !#[trigger] kept(ks, k, q) by {
                        assert(lives(ss, i as int, j as int, q));
                    }
                    lemma_one_more_kept(ks, self.states(), self.next_id, new);
                }
                self.killed.push(Killed::Pane { pane, session: sid, home, layout, at: now });
                assert(self.killed_list() =~= ks.push(new));
                self.trim_killed();
                true
            },
        }
    }

    /// Kill a pane, keeping it a while when that is asked for. True when it
    /// was kept.
    pub fn kill_one(&mut self, id: PaneId, now: u64) -> (done: bool)
        requires
            old(self).wf(),
        ensures
            final(self).wf(),
            final(self).states() == sessions_after(old(self).states(), old(self).opts, id),
            final(self).killed_list() == kept_after(
                old(self).states(),
                old(self).killed_list(),
                old(self).opts,
                id,
                now,
            ),
            done == (old(self).opts.undo_kill_time > 0 && session_with(old(self).states(), id, 0) < old(
                self,
            ).states().len() && !is_all_of_a_session(old(self).states(), id)),
            if session_with(old(self).states(), id, 0) < old(self).states().len() && is_all_of_a_session(
                old(self).states(),
                id,
            ) {
                all_detached(
                    old(self).clients@,
                    final(self).clients@,
                    old(self).states()[session_with(old(self).states(), id, 0)].id,
                    "exited"@,
                )
            } else {
                final(self).clients == old(self).clients
            },
            *final(self) == (Server {
                sessions: final(self).sessions,
                clients: final(self).clients,
                killed: final(self).killed,
                ..*old(self)
            }),
    {
        if self.opts.undo_kill_time > 0 {
            if self.keep_killed_pane(id, now) {
                return true;
            }
        }
        let _ = self.remove_pane(id, Some(0));
        false
    }
}

/// A window that is nowhere yet, with panes that are nowhere yet, may come in
/// anywhere.
pub proof fn lemma_window_added(
    ss: Seq<SessionState>,
    i: int,
    s: SessionState,
    k: int,
    w: WindowState,
    next: u32,
    ks: Seq<KilledState>,
)
    requires
        sessions_sound(ss),
        apart(ss),
        numbered_below(ss, next),
        killed_wf(ks, ss, next),
        0 <= i < ss.len(),
        0 <= k <= ss[i].windows.len(),
        s.windows == ss[i].windows.insert(k, w),
        s.id == ss[i].id,
        s.cols == ss[i].cols && s.rows == ss[i].rows,
        0 <= s.cur < s.windows.len(),
        w.wf(),
        w.id < next,
        forall|a: int, b: int| !#[trigger] stands(ss, a, b, w.id),
        forall|id: PaneId| #[trigger] w.has(id) ==> id < next,
        forall|id: PaneId, a: int, b: int| #[trigger] w.has(id) ==> !#[trigger] lives(ss, a, b, id),
        forall|id: PaneId, a: int| #[trigger] w.has(id) ==> !#[trigger] kept(ks, a, id),
        forall|a: int|
            0 <= a < ks.len() ==> match #[trigger] ks[a] {
                KilledState::Window { window, .. } => window.id != w.id,
                _ => true,
            },
    ensures
        sessions_sound(ss.update(i, s)),
        apart(ss.update(i, s)),
        numbered_below(ss.update(i, s), next),
        killed_wf(ks, ss.update(i, s), next),
        sessions_wf(ss) && w.settled() ==> sessions_wf(ss.update(i, s)),
{
    let b = ss.update(i, s);
    let was = |x: int, y: int|
        if x == i && y > k {
            y - 1
        } else {
            y
        };
    assert forall|x: int, y: int| #[trigger] at(b, x, y) && !(x == i && y == k) implies at(ss, x, was(x, y))
        && b[x].windows[y] == ss[x].windows[was(x, y)] by {}
    assert forall|x: int, y: int, id: PaneId| #[trigger] lives(b, x, y, id) implies (if x == i && y == k {
        w.has(id)
    } else {
        lives(ss, x, was(x, y), id)
    }) by {
        assert(at(b, x, y));
    }
    assert forall|x: int, y: int, id: WindowId| #[trigger] stands(b, x, y, id) implies (if x == i && y == k {
        w.id == id
    } else {
        stands(ss, x, was(x, y), id)
    }) by {
        assert(at(b, x, y));
    }
    assert forall|x: int, y: int, u: int, v: int, id: PaneId| #[trigger] lives(b, x, y, id) && #[trigger] lives(
        b,
        u,
        v,
        id,
    ) implies x == u && y == v by {
        if x == i && y == k {
            assert(w.has(id));
            if !(u == i && v == k) {
                assert(lives(ss, u, was(u, v), id));
            }
        } else {
            assert(lives(ss, x, was(x, y), id));
            if u == i && v == k {
                assert(w.has(id));
            } else {
                assert(lives(ss, u, was(u, v), id));
            }
        }
    }
    assert forall|x: int, y: int, u: int, v: int, id: WindowId| #[trigger] stands(b, x, y, id) && #[trigger] stands(
        b,
        u,
        v,
        id,
    ) implies x == u && y == v by {
        if x == i && y == k {
            if !(u == i && v == k) {
                assert(stands(ss, u, was(u, v), w.id));
            }
        } else {
            assert(stands(ss, x, was(x, y), id));
            if !(u == i && v == k) {
                assert(stands(ss, u, was(u, v), id));
            }
        }
    }
    assert forall|x: int, y: int| 0 <= x < y < b.len() implies (#[trigger] b[x]).id != (#[trigger] b[y]).id by {
        assert(ss[x].id != ss[y].id);
    }
    assert forall|x: int| 0 <= x < b.len() implies (#[trigger] b[x]).id < next by {
        assert(ss[x].id < next);
    }
    assert forall|a: int, x: int, y: int, id: PaneId| #[trigger] kept(ks, a, id) implies !#[trigger] lives(b, x, y, id) by {
        if lives(b, x, y, id) {
            if x == i && y == k {
                assert(w.has(id));
            } else {
                assert(lives(ss, x, was(x, y), id));
            }
        }
    }
    assert forall|a: int, x: int, y: int|
        0 <= a < ks.len() && 0 <= x < b.len() && 0 <= y < b[x].windows.len() implies match #[trigger] ks[a] {
        KilledState::Window { window, .. } => (#[trigger] b[x].windows[y]).id != window.id,
        _ => true,
    } by {
        assert(at(b, x, y));
        if !(x == i && y == k) {
            assert(b[x].windows[y] == ss[x].windows[was(x, y)]);
        }
    }
    assert(ss[i].sound());
    assert(s.sound()) by {
        assert forall|y: int| 0 <= y < s.windows.len() implies (#[trigger] s.windows[y]).wf() by {
            if y != k {
                assert(at(b, i, y));
                assert(s.windows[y] == ss[i].windows[was(i, y)]);
            }
        }
        assert forall|x: int, y: int| 0 <= x < y < s.windows.len() implies (#[trigger] s.windows[x]).id != (
        #[trigger] s.windows[y]).id by {
            assert(stands(b, i, x, s.windows[x].id));
            assert(stands(b, i, y, s.windows[y].id));
        }
    }
    if sessions_wf(ss) && w.settled() {
        assert(ss[i].wf());
        assert forall|y: int| 0 <= y < s.windows.len() implies (#[trigger] s.windows[y]).settled() by {
            if y != k {
                assert(at(b, i, y));
                assert(s.windows[y] == ss[i].windows[was(i, y)]);
            }
        }
    }
}

/// A pane that is nowhere yet may come into a window.
pub proof fn lemma_pane_added(
    ss: Seq<SessionState>,
    i: int,
    j: int,
    w: WindowState,
    id: PaneId,
    next: u32,
    ks: Seq<KilledState>,
)
    requires
        sessions_sound(ss),
        apart(ss),
        numbered_below(ss, next),
        killed_wf(ks, ss, next),
        at(ss, i, j),
        w.wf(),
        w.id == ss[i].windows[j].id,
        forall|q: PaneId| #[trigger] w.has(q) ==> ss[i].windows[j].has(q) || q == id,
        id < next,
        forall|a: int, b: int| !#[trigger] lives(ss, a, b, id),
        forall|a: int| !#[trigger] kept(ks, a, id),
    ensures
        sessions_sound(edited(ss, i, j, w)),
        apart(edited(ss, i, j, w)),
        numbered_below(edited(ss, i, j, w), next),
        killed_wf(ks, edited(ss, i, j, w), next),
{
    let b = edited(ss, i, j, w);
    assert forall|x: int, y: int, q: PaneId| #[trigger] lives(b, x, y, q) implies lives(ss, x, y, q) || (q == id && x == i
        && y == j) by {}
    assert forall|x: int, y: int, q: WindowId| #[trigger] stands(b, x, y, q) implies stands(ss, x, y, q) by {}
    assert forall|x: int, y: int, u: int, v: int, q: PaneId| #[trigger] lives(b, x, y, q) && #[trigger] lives(
        b,
        u,
        v,
        q,
    ) implies x == u && y == v by {
        if q == id {
            assert(!lives(ss, x, y, q) && !lives(ss, u, v, q));
        } else {
            assert(lives(ss, x, y, q) && lives(ss, u, v, q));
        }
    }
    assert forall|x: int, y: int, u: int, v: int, q: WindowId| #[trigger] stands(b, x, y, q) && #[trigger] stands(
        b,
        u,
        v,
        q,
    ) implies x == u && y == v by {
        assert(stands(ss, x, y, q) && stands(ss, u, v, q));
    }
    assert forall|x: int, y: int| 0 <= x < y < b.len() implies (#[trigger] b[x]).id != (#[trigger] b[y]).id by {
        assert(ss[x].id != ss[y].id);
    }
    assert forall|x: int| 0 <= x < b.len() implies (#[trigger] b[x]).id < next by {
        assert(ss[x].id < next);
    }
    assert forall|a: int, x: int, y: int, q: PaneId| #[trigger] kept(ks, a, q) implies !#[trigger] lives(b, x, y, q) by {
        assert(!lives(ss, x, y, q));
    }
    assert forall|a: int, x: int, y: int|
        0 <= a < ks.len() && 0 <= x < b.len() && 0 <= y < b[x].windows.len() implies match #[trigger] ks[a] {
        KilledState::Window { window, .. } => (#[trigger] b[x].windows[y]).id != window.id,
        _ => true,
    } by {
        assert(b[x].windows[y].id == ss[x].windows[y].id);
    }
    assert(ss[i].sound());
    assert(put_window(ss[i], j, w).sound());
}

/// Without the newest, what is kept is in order, and the newest is nowhere
/// else.
proof fn lemma_last_kill(ks: Seq<KilledState>, ss: Seq<SessionState>, next: u32)
    requires
        ks.len() > 0,
        killed_wf(ks, ss, next),
    ensures
        killed_wf(ks.drop_last(), ss, next),
        forall|id: PaneId| #[trigger] ks.last().has(id) ==> id < next,
        forall|id: PaneId, a: int, b: int| #[trigger] ks.last().has(id) ==> !#[trigger] lives(ss, a, b, id),
        forall|id: PaneId, a: int| #[trigger] ks.last().has(id) ==> !#[trigger] kept(ks.drop_last(), a, id),
{
    let b = ks.drop_last();
    let n = ks.len() - 1;
    assert forall|k: int, id: PaneId| #[trigger] kept(b, k, id) implies kept(ks, k, id) by {}
    assert forall|k: int, l: int, id: PaneId| #[trigger] kept(b, k, id) && #[trigger] kept(b, l, id) implies k == l by {
        assert(kept(ks, k, id) && kept(ks, l, id));
    }
    assert forall|k: int, i: int, j: int, id: PaneId| #[trigger] kept(b, k, id) implies !#[trigger] lives(ss, i, j, id) by {
        assert(kept(ks, k, id));
    }
    assert forall|id: PaneId| #[trigger] ks.last().has(id) implies kept(ks, n, id) by {}
    assert forall|k: int, l: int| 0 <= k < l < b.len() implies match (#[trigger] b[k], #[trigger] b[l]) {
        (KilledState::Window { window: x, .. }, KilledState::Window { window: y, .. }) => x.id != y.id,
        _ => true,
    } by {
        assert(b[k] == ks[k] && b[l] == ks[l]);
    }
    assert forall|id: PaneId, a: int, c: int| #[trigger] ks.last().has(id) implies !#[trigger] lives(ss, a, c, id) by {
        assert(kept(ks, n, id));
    }
    assert forall|id: PaneId, a: int| #[trigger] ks.last().has(id) implies !#[trigger] kept(b, a, id) by {
        assert(kept(ks, n, id));
        if kept(b, a, id) {
            assert(kept(ks, a, id));
        }
    }
}

impl WindowState {
    /// The rectangle of the active pane; nothing at all when it has none.
    pub open spec fn active_rect(self) -> Rect {
        match rect_in(self.rects, self.active, 0) {
            Some(r) => r,
            None => Rect { x: 0, y: 0, w: 0, h: 0 },
        }
    }

    /// With pane `p` put back: where it was in `tree` when nothing else
    /// changed since, and beside the active pane otherwise.
    pub open spec fn restored(self, p: Pane, tree: Tree) -> WindowState {
        let r = self.active_rect();
        let horizontal = r.w >= r.h * 2;
        WindowState {
            tree: if panes(self.tree) == others(panes(tree), p.id) {
                tree
            } else {
                split_tree(self.tree, self.active, horizontal, p.id, r.extent(horizontal), false)
            },
            panes: self.panes.push(p),
            zoomed: false,
            last_pane: Some(self.active),
            active: p.id,
            ..self
        }
    }
}

proof fn lemma_restored(w: WindowState, p: Pane, tree: Tree)
    requires
        w.wf(),
        !w.has(p.id),
        w.panes.len() < u16::MAX,
        shape(tree),
        panes(tree).no_duplicates(),
        panes(tree).contains(p.id),
    ensures
        w.restored(p, tree).wf(),
        forall|q: PaneId| #[trigger] w.restored(p, tree).has(q) <==> w.has(q) || q == p.id,
{
    let after = w.restored(p, tree);
    let r = w.active_rect();
    let horizontal = r.w >= r.h * 2;
    let joined = w.joined(w.active, horizontal, p, r.extent(horizontal), false);
    lemma_joined(w, w.active, horizontal, p, r.extent(horizontal), false);
    assert(after.panes == joined.panes);
    assert forall|q: PaneId| #[trigger] after.has(q) <==> w.has(q) || q == p.id by {
        assert(joined.has(q) <==> w.has(q) || q == p.id);
    }
    if panes(w.tree) == others(panes(tree), p.id) {
        lemma_others(panes(tree), p.id);
        assert forall|q: PaneId| #[trigger] panes(tree).contains(q) <==> ids(after.panes).contains(q) by {
            assert(others(panes(tree), p.id).contains(q) <==> panes(tree).contains(q) && q != p.id);
            assert(panes(w.tree).contains(q) <==> ids(w.panes).contains(q));
            assert(after.has(q) <==> w.has(q) || q == p.id);
        }
        assert(after.tidy());
    }
    assert(after.has(p.id));
}

impl SessionState {
    /// With `w` at the end of the list and current.
    pub open spec fn with_window(self, w: WindowState) -> SessionState {
        SessionState { windows: self.windows.push(w), ..self }.with_current(self.windows.len() as int)
    }

    /// With `w` at place `k`, as far as the list goes, and current.
    pub open spec fn with_window_at(self, k: int, w: WindowState) -> SessionState {
        let at = if k < self.windows.len() {
            k
        } else {
            self.windows.len() as int
        };
        SessionState { windows: self.windows.insert(at, w), ..self }.with_current(at)
    }
}

/// The window that a pane gets around it in session `s`.
pub open spec fn window_around(s: SessionState, opts: Options, id: WindowId, name: Seq<char>, p: Pane, now: u64) -> WindowState {
    fresh(id, name, p, now).laid_out(area_of(opts, s.cols, s.rows), border_of(opts))
}

/// What taking the last kill back makes of the sessions.
pub open spec fn undone(ss: Seq<SessionState>, opts: Options, k: KilledState, next: u32, now: u64) -> Seq<SessionState> {
    match k {
        KilledState::Window { window, session, index, .. } => {
            let i = session_place(ss, session, 0);
            if i < ss.len() {
                relaid(ss.update(i, ss[i].with_window_at(index, window)), i, opts)
            } else {
                ss
            }
        },
        KilledState::Pane { pane, session, home, tree, .. } => {
            let i = session_place(ss, session, 0);
            if i >= ss.len() {
                ss
            } else {
                let j = window_place(ss[i].windows, home, 0);
                if j < ss[i].windows.len() {
                    relaid(
                        ss.update(
                            i,
                            put_window(ss[i], j, ss[i].windows[j].restored(pane, tree)).with_current(j),
                        ),
                        i,
                        opts,
                    )
                } else {
                    relaid(
                        ss.update(i, ss[i].with_window(window_around(ss[i], opts, next, pane.command@, pane, now))),
                        i,
                        opts,
                    )
                }
            }
        },
    }
}

/// The session that what was killed was in.
pub open spec fn session_of(k: KilledState) -> SessionId {
    match k {
        KilledState::Window { session, .. } => session,
        KilledState::Pane { session, .. } => session,
    }
}

/// The window has room for a pane more.
pub open spec fn roomy(ss: Seq<SessionState>, i: int, j: int) -> bool {
    ss[i].windows[j].panes.len() < u16::MAX
}

/// Taking a kill back makes a window: the pane's own is gone.
pub open spec fn opens_window(ss: Seq<SessionState>, k: KilledState) -> bool {
    match k {
        KilledState::Window { .. } => false,
        KilledState::Pane { session, home, .. } => {
            let i = session_place(ss, session, 0);
            i < ss.len() && window_place(ss[i].windows, home, 0) >= ss[i].windows.len()
        },
    }
}

/// A pane that goes back to its window has room there.
pub open spec fn has_place(ss: Seq<SessionState>, k: KilledState) -> bool {
    match k {
        KilledState::Window { .. } => true,
        KilledState::Pane { session, home, .. } => {
            let i = session_place(ss, session, 0);
            let j = window_place(ss[i].windows, home, 0);
            i < ss.len() && j < ss[i].windows.len() ==> roomy(ss, i, j)
        },
    }
}

impl Server {
    /// A new window around `pane`, at the end of the session's list, made
    /// current. Its place comes back.
    pub fn add_window(&mut self, i: usize, pane: Pane, name: Option<String>, now: u64) -> (idx: usize)
        requires
            old(self).wf(),
            i < old(self).states().len(),
            old(self).next_id < u32::MAX,
            pane.id < old(self).next_id,
            forall|a: int, b: int| !#[trigger] lives(old(self).states(), a, b, pane.id),
            forall|a: int| !#[trigger] kept(old(self).killed_list(), a, pane.id),
        ensures
            final(self).wf(),
            idx == old(self).states()[i as int].windows.len(),
            final(self).states() == old(self).states().update(
                i as int,
                old(self).states()[i as int].with_window(
                    window_around(
                        old(self).states()[i as int],
                        old(self).opts,
                        old(self).next_id,
                        match name {
                            Some(n) => n@,
                            None => pane.command@,
                        },
                        pane,
                        now,
                    ),
                ),
            ),
            final(self).next_id == old(self).next_id + 1,
            *final(self) == (Server { sessions: final(self).sessions, next_id: final(self).next_id, ..*old(self) }),
    {
        let ghost ss = self.states();
        let ghost ks = self.killed_list();
        assert(ss[i as int] == self.sessions@[i as int]@);
        let area = self.window_area(self.sessions[i].cols, self.sessions[i].rows);
        let border = self.border_rows();
        let wid: WindowId = self.next_id;
        self.next_id = self.next_id + 1;
        let name = match name {
            Some(n) => n,
            None => pane.command.as_str().to_owned(),
        };
        let ghost p = pane;
        let mut w = Window::around(wid, name, pane, now);
        proof {
            lemma_fresh(wid, name@, p, now);
            crate::window::lemma_laid_out(w@, area, border);
        }
        w.relayout(area, border);
        let ghost added = w@;
        let n: usize = self.sessions[i].windows.len();
        self.sessions[i].windows.push(w);
        self.sessions[i].select_window(n);
        proof {
            let s = self.sessions@[i as int]@;
            assert(s.windows =~= ss[i as int].windows.push(added));
            assert(s.windows =~= ss[i as int].windows.insert(n as int, added));
            assert(s =~= ss[i as int].with_window(added));
            assert(self.states() =~= ss.update(i as int, s));
            assert forall|k: int| 0 <= k < ss.len() implies (#[trigger] ss[k]).sound() by {
                assert(ss[k].wf());
            }
            assert forall|q: PaneId| #[trigger] added.has(q) implies q == p.id by {
                assert(fresh(wid, name@, p, now).has(q));
            }
            assert forall|a: int, b: int| !#[trigger] stands(ss, a, b, wid) by {
                if stands(ss, a, b, wid) {
                    assert(wid < old(self).next_id);
                }
            }
            lemma_window_added(ss, i as int, s, n as int, added, self.next_id, ks);
            lemma_clients_stay(self.clients@, ss, self.states());
        }
        n
    }

    /// `undo-kill`: put back the pane or window killed last, where it was.
    pub fn undo_kill(&mut self, now: u64) -> (out: Outcome)
        requires
            old(self).wf(),
            old(self).killed_list().len() > 0 ==> has_place(old(self).states(), old(self).killed_list().last()),
            old(self).killed_list().len() > 0 && opens_window(old(self).states(), old(self).killed_list().last()) ==> old(
                self,
            ).next_id < u32::MAX,
        ensures
            final(self).wf(),
            ({
                let ks = old(self).killed_list();
                if ks.len() == 0 {
                    out@ == Ended::Error("nothing to undo: no pane or window killed lately"@) && *final(self) == *old(
                        self,
                    )
                } else {
                    &&& out@ == if session_place(old(self).states(), session_of(ks.last()), 0) < old(
                        self,
                    ).states().len() {
                        Ended::Done
                    } else {
                        Ended::Error("its session is gone"@)
                    }
                    &&& final(self).states() == undone(
                        old(self).states(),
                        old(self).opts,
                        ks.last(),
                        old(self).next_id,
                        now,
                    )
                    &&& final(self).killed_list() == ks.drop_last()
                    &&& final(self).next_id == if opens_window(old(self).states(), ks.last()) {
                        old(self).next_id + 1
                    } else {
                        old(self).next_id as int
                    }
                    &&& *final(self) == (Server {
                        sessions: final(self).sessions,
                        killed: final(self).killed,
                        next_id: final(self).next_id,
                        ..*old(self)
                    })
                }
            }),
    {
        let ghost ss = self.states();
        let ghost ks = self.killed_list();
        let n: usize = self.killed.len();
        if n == 0 {
            return Outcome::Error("nothing to undo: no pane or window killed lately".to_owned());
        }
        let last = self.killed.remove(n - 1);
        proof {
            assert(self.killed_list() =~= ks.drop_last());
            assert(ks.last() == last@);
            lemma_last_kill(ks, ss, self.next_id);
            assert forall|k: int| 0 <= k < ss.len() implies (#[trigger] ss[k]).sound() by {
                assert(ss[k].wf());
            }
        }
        match last {
            Killed::Window { window, session, index, at } => {
                proof {
                    assert forall|id: PaneId| #[trigger] window@.has(id) implies ks.last().has(id) by {}
                    assert forall|a: int, b: int| !#[trigger] stands(ss, a, b, window@.id) by {
                        if stands(ss, a, b, window@.id) {
                            assert(ks[ks.len() - 1] == last@);
                            assert(ss[a].windows[b].id == window@.id);
                        }
                    }
                }
                self.put_window_back(window, session, index)
            },
            Killed::Pane { pane, session, home, layout, at } => {
                assert(ks.last().has(pane.id));
                self.put_pane_back(pane, session, home, layout, now)
            },
        }
    }

    fn put_window_back(&mut self, window: Window, session: SessionId, index: usize) -> (out: Outcome)
        requires
            old(self).wf(),
            window@.wf(),
            window@.id < old(self).next_id,
            forall|a: int, b: int| !#[trigger] stands(old(self).states(), a, b, window@.id),
            forall|id: PaneId| #[trigger] window@.has(id) ==> id < old(self).next_id,
            forall|id: PaneId, a: int, b: int| #[trigger]
                window@.has(id) ==> !#[trigger] lives(old(self).states(), a, b, id),
            forall|id: PaneId, a: int| #[trigger] window@.has(id) ==> !#[trigger] kept(old(self).killed_list(), a, id),
            forall|a: int|
                0 <= a < old(self).killed_list().len() ==> match #[trigger] old(self).killed_list()[a] {
                    KilledState::Window { window: w, .. } => w.id != window@.id,
                    _ => true,
                },
        ensures
            final(self).wf(),
            out@ == if session_place(old(self).states(), session, 0) < old(self).states().len() {
                Ended::Done
            } else {
                Ended::Error("its session is gone"@)
            },
            final(self).states() == undone(
                old(self).states(),
                old(self).opts,
                KilledState::Window { window: window@, session, index: index as int, at: 0 },
                0,
                0,
            ),
            *final(self) == (Server { sessions: final(self).sessions, ..*old(self) }),
    {
        let ghost ss = self.states();
        let ghost ks = self.killed_list();
        let i: usize = self.session_at(session);
        if i >= self.sessions.len() {
            return Outcome::Error("its session is gone".to_owned());
        }
        assert(ss[i as int] == self.sessions@[i as int]@);
        let n: usize = self.sessions[i].windows.len();
        let k: usize = if index < n { index } else { n };
        let ghost w = window@;
        self.sessions[i].windows.insert(k, window);
        self.sessions[i].select_window(k);
        proof {
            let s = self.sessions@[i as int]@;
            assert(s.windows =~= ss[i as int].windows.insert(k as int, w));
            assert(s =~= ss[i as int].with_window_at(index as int, w));
            assert(self.states() =~= ss.update(i as int, s));
            assert forall|q: int| 0 <= q < ss.len() implies (#[trigger] ss[q]).sound() by {
                assert(ss[q].wf());
            }
            lemma_window_added(ss, i as int, s, k as int, w, self.next_id, ks);
            lemma_clients_stay(self.clients@, ss, self.states());
        }
        self.relayout_at(i);
        Outcome::Done
    }

    #[verifier::spinoff_prover]
    fn put_pane_back(
        &mut self,
        pane: Pane,
        session: SessionId,
        home: WindowId,
        layout: crate::layout::Node,
        now: u64,
    ) -> (out: Outcome)
        requires
            old(self).wf(),
            has_place(old(self).states(), KilledState::Pane { pane, session, home, tree: layout@, at: 0 }),
            opens_window(old(self).states(), KilledState::Pane { pane, session, home, tree: layout@, at: 0 }) ==> old(
                self,
            ).next_id < u32::MAX,
            pane.id < old(self).next_id,
            forall|a: int, b: int| !#[trigger] lives(old(self).states(), a, b, pane.id),
            forall|a: int| !#[trigger] kept(old(self).killed_list(), a, pane.id),
            shape(layout@),
            panes(layout@).no_duplicates(),
            panes(layout@).contains(pane.id),
        ensures
            final(self).wf(),
            out@ == if session_place(old(self).states(), session, 0) < old(self).states().len() {
                Ended::Done
            } else {
                Ended::Error("its session is gone"@)
            },
            final(self).states() == undone(
                old(self).states(),
                old(self).opts,
                KilledState::Pane { pane, session, home, tree: layout@, at: 0 },
                old(self).next_id,
                now,
            ),
            final(self).next_id == if opens_window(
                old(self).states(),
                KilledState::Pane { pane, session, home, tree: layout@, at: 0 },
            ) {
                old(self).next_id + 1
            } else {
                old(self).next_id as int
            },
            *final(self) == (Server { sessions: final(self).sessions, next_id: final(self).next_id, ..*old(self) }),
    {
        let ghost ss = self.states();
        let ghost ks = self.killed_list();
        let i: usize = self.session_at(session);
        if i >= self.sessions.len() {
            return Outcome::Error("its session is gone".to_owned());
        }
        proof {
            assert(ss[i as int] == self.sessions@[i as int]@);
            assert(ss[i as int].wf());
            assert forall|q: int| 0 <= q < ss.len() implies (#[trigger] ss[q]).sound() by {
                assert(ss[q].wf());
            }
        }
        let j: usize = self.sessions[i].place(home);
        if j >= self.sessions[i].windows.len() {
            // Its window went since: a window of its own.
            let _ = self.add_window(i, pane, None, now);
            self.relayout_at(i);
            return Outcome::Done;
        }
        let ghost w = ss[i as int].windows[j as int];
        let ghost p = pane;
        let ghost tree = layout@;
        proof {
            assert(w == self.sessions@[i as int].windows@[j as int]@);
            assert(w.settled());
            assert(at(ss, i as int, j as int));
            assert(!lives(ss, i as int, j as int, p.id));
            lemma_restored(w, p, tree);
            lemma_pane_added(ss, i as int, j as int, w.restored(p, tree), p.id, self.next_id, ks);
        }
        self.sessions[i].windows[j].put_back(pane, layout);
        let ghost mid = edited(ss, i as int, j as int, w.restored(p, tree));
        proof {
            let s = self.sessions@[i as int]@;
            assert(s.windows =~= ss[i as int].windows.update(j as int, w.restored(p, tree)));
            assert(s =~= put_window(ss[i as int], j as int, w.restored(p, tree)));
            assert(self.states() =~= mid);
        }
        self.sessions[i].select_window(j);
        proof {
            let s = self.sessions@[i as int]@;
            assert(self.states() =~= mid.update(i as int, mid[i as int].with_current(j as int)));
            lemma_selected(mid, i as int, j as int, self.next_id, ks);
            assert(self.states() =~= ss.update(
                i as int,
                put_window(ss[i as int], j as int, w.restored(p, tree)).with_current(j as int),
            ));
            lemma_clients_stay(self.clients@, ss, self.states());
        }
        self.relayout_at(i);
        Outcome::Done
    }
}

/// Another current window leaves everything where it is.
pub proof fn lemma_selected(ss: Seq<SessionState>, i: int, j: int, next: u32, ks: Seq<KilledState>)
    requires
        sessions_sound(ss),
        apart(ss),
        numbered_below(ss, next),
        killed_wf(ks, ss, next),
        at(ss, i, j),
    ensures
        sessions_sound(ss.update(i, ss[i].with_current(j))),
        apart(ss.update(i, ss[i].with_current(j))),
        numbered_below(ss.update(i, ss[i].with_current(j)), next),
        killed_wf(ks, ss.update(i, ss[i].with_current(j)), next),
        sessions_wf(ss) ==> sessions_wf(ss.update(i, ss[i].with_current(j))),
{
    let b = ss.update(i, ss[i].with_current(j));
    let from = |k: int, l: int| (k, l);
    assert(ss[i].sound());
    assert(crate::server_edit::descends(ss, b, from)) by {
        assert forall|k: int| 0 <= k < b.len() implies exists|m: int|
            0 <= m < ss.len() && (#[trigger] ss[m]).id == (#[trigger] b[k]).id by {
            assert(ss[k].id == b[k].id);
        }
        assert forall|k: int, l: int| 0 <= k < l < b.len() implies (#[trigger] b[k]).id != (#[trigger] b[l]).id by {
            assert(ss[k].id != ss[l].id);
        }
        assert forall|k: int, l: int| #[trigger] at(b, k, l) implies at(ss, k, l) && b[k].windows[l]
            == ss[k].windows[l] by {}
    }
    crate::server_edit::lemma_descends(ss, b, from, next, ks);
    if sessions_wf(ss) {
        assert(ss[i].wf());
    }
}

/// The panes of a layout but one.
fn all_but(order: &Vec<PaneId>, id: PaneId) -> (out: Vec<PaneId>)
    ensures
        out@ == others(order@, id),
{
    let mut out: Vec<PaneId> = Vec::new();
    let mut i: usize = 0;
    proof {
        reveal(others);
        reveal(Seq::filter);
    }
    while i < order.len()
        invariant
            i <= order@.len(),
            out@ == others(order@.take(i as int), id),
        decreases order.len() - i,
    {
        proof {
            reveal(others);
            reveal(Seq::filter);
            assert(order@.take(i + 1).drop_last() =~= order@.take(i as int));
        }
        if order[i] != id {
            out.push(order[i]);
        }
        i = i + 1;
    }
    assert(order@.take(i as int) =~= order@);
    out
}

fn same_order(a: &Vec<PaneId>, b: &Vec<PaneId>) -> (r: bool)
    ensures
        r == (a@ == b@),
{
    if a.len() != b.len() {
        return false;
    }
    let mut i: usize = 0;
    while i < a.len()
        invariant
            i <= a@.len() == b@.len(),
            forall|j: int| 0 <= j < i ==> a@[j] == b@[j],
        decreases a.len() - i,
    {
        if a[i] != b[i] {
            assert(a@[i as int] != b@[i as int]);
            return false;
        }
        i = i + 1;
    }
    assert(a@ =~= b@);
    true
}

impl Window {
    /// Put a pane back where it was in `layout`, when nothing else changed
    /// since; otherwise it splits the active pane.
    pub fn put_back(&mut self, pane: Pane, layout: crate::layout::Node)
        requires
            old(self)@.wf(),
            !old(self)@.has(pane.id),
            old(self)@.panes.len() < u16::MAX,
            shape(layout@),
            panes(layout@).no_duplicates(),
            panes(layout@).contains(pane.id),
        ensures
            final(self)@ == old(self)@.restored(pane, layout@),
            final(self)@.wf(),
    {
        let ghost w = self@;
        proof {
            lemma_restored(w, pane, layout@);
        }
        let order = layout.panes();
        let before = all_but(&order, pane.id);
        let here = self.layout.panes();
        if same_order(&here, &before) {
            self.layout = layout;
        } else {
            let rect: Rect = match self.rect_of(self.active) {
                Some(r) => r,
                None => Rect { x: 0, y: 0, w: 0, h: 0 },
            };
            let horizontal: bool = rect.w as u32 >= rect.h as u32 * 2;
            self.layout.split(self.active, horizontal, pane.id, rect);
        }
        self.zoomed = false;
        self.last_pane = Some(self.active);
        self.active = pane.id;
        self.panes.push(pane);
        assert(self@ =~= w.restored(pane, layout@));
    }
}

/// A pane that was killed and brought back at once stands where it stood, in
/// the layout there was, and is the active one.
pub proof fn lemma_undo_restores_pane(w: WindowState, id: PaneId, p: Pane, area: Rect, border: Option<bool>)
    requires
        w.wf(),
        w.has(id),
        w.panes.len() > 1,
        p.id == id,
        area.fits(),
    ensures
        ({
            let back = w.closed(id).laid_out(area, border).restored(p, w.tree);
            &&& back.tree == w.tree
            &&& back.active == id
            &&& back.wf()
            &&& forall|q: PaneId| #[trigger] back.has(q) <==> w.has(q)
        }),
{
    lemma_without(w, id);
    let gone = w.closed(id);
    crate::window::lemma_laid_out(gone, area, border);
    let laid = gone.laid_out(area, border);
    assert(panes(laid.tree) == others(panes(w.tree), id));
    assert(ids(laid.panes) == ids(gone.panes));
    assert(!laid.has(id)) by {
        assert(laid.has(id) == gone.has(id));
    }
    assert(panes(w.tree).contains(id));
    assert(laid.panes.len() < u16::MAX) by {
        assert(ids(laid.panes).len() == ids(gone.panes).len());
        lemma_place_of(w.panes, id, 0);
    }
    lemma_restored(laid, p, w.tree);
    assert forall|q: PaneId| #[trigger] laid.restored(p, w.tree).has(q) <==> w.has(q) by {
        assert(laid.has(q) == gone.has(q));
        assert(gone.has(q) <==> w.has(q) && q != id);
    }
}

/// A window that was killed and brought back at once stands at its place in
/// the list, and is the current one.
pub proof fn lemma_undo_restores_window(s: SessionState, j: int)
    requires
        s.sound(),
        0 <= j < s.windows.len(),
        s.windows.len() > 1,
    ensures
        ({
            let back = s.less_window(j).with_window_at(j, s.windows[j]);
            &&& back.windows == s.windows
            &&& back.cur == j
        }),
{
    let gone = s.less_window(j);
    assert(gone.windows.insert(j, s.windows[j]) =~= s.windows);
}

} // verus!
