//! The commands that take a pane to another place: a window of its own, a
//! window that is there, or the place of another pane.
use vstd::prelude::*;

use crate::chooser::{ClientId, WindowId};
use crate::command::{Ended, Outcome, Target};
use crate::edit::swapped;
use crate::layout::{panes, PaneId};
use crate::pane::Pane;
use crate::resize::{assigned, lemma_assigned_panes, lemma_shapes_kept};
use crate::server::{aimed, apart, kept, killed_wf, lives, numbered_below, place_for, sessions_wf, stands, KilledState, Place, Server};
use crate::server_edit::{at, edited, lemma_clients_stay, lemma_edited, put_window, relaid, sessions_sound};
use crate::session::SessionState;
use crate::undo::lemma_window_added;
use crate::window::{ids, lemma_place_of, place_of, Window, WindowState};
use crate::window_edit::{fresh, lemma_fresh, lemma_without};

verus! {

pub proof fn lemma_sound_of_wf(ss: Seq<SessionState>)
    requires
        sessions_wf(ss),
    ensures
        sessions_sound(ss),
{
    assert forall|k: int| 0 <= k < ss.len() implies (#[trigger] ss[k]).sound() by {
        assert(ss[k].wf());
    }
}

/// A pane taken out of its window is nowhere.
pub proof fn lemma_taken_nowhere(ss: Seq<SessionState>, i: int, j: int, w: WindowState, id: PaneId)
    requires
        apart(ss),
        at(ss, i, j),
        ss[i].windows[j].has(id),
        !w.has(id),
    ensures
        forall|a: int, b: int| !#[trigger] lives(edited(ss, i, j, w), a, b, id),
{
    let after = edited(ss, i, j, w);
    assert(lives(ss, i, j, id));
    assert forall|a: int, b: int| !#[trigger] lives(after, a, b, id) by {
        if lives(after, a, b, id) {
            if !(a == i && b == j) {
                assert(lives(ss, a, b, id));
            }
        }
    }
}

/// Session `s` after pane `id` of window `j` broke off into a window of its
/// own, which is the current one.
pub open spec fn broken_off(s: SessionState, j: int, id: PaneId, wid: WindowId, now: u64) -> SessionState {
    let w = s.windows[j];
    let p = w.panes[place_of(w.panes, id, 0)];
    SessionState {
        windows: s.windows.update(j, w.broken(id)).push(fresh(wid, p.command@, p, now)),
        ..s
    }.with_current(s.windows.len() as int)
}

impl Server {
    /// `break-pane`: a pane becomes a window of its own.
    pub fn break_pane(&mut self, target: Option<&Target>, cid: Option<ClientId>, now: u64) -> (out: Outcome)
        requires
            old(self).wf(),
            old(self).next_id < u32::MAX,
        ensures
            final(self).wf(),
            match place_for(old(self).states(), old(self).clients@, old(self).opts, aimed(target), cid) {
                Err(e) => out@ == Ended::Error(e) && *final(self) == *old(self),
                Ok(p) => {
                    let ss = old(self).states();
                    if ss[p.session].windows[p.window].panes.len() < 2 {
                        out@ == Ended::Error("can't break with only one pane"@) && *final(self) == *old(self)
                    } else {
                        &&& out@ == Ended::Done
                        &&& final(self).states() == relaid(
                            ss.update(
                                p.session,
                                broken_off(ss[p.session], p.window, p.pane, old(self).next_id, now),
                            ),
                            p.session,
                            old(self).opts,
                        )
                        &&& final(self).next_id == old(self).next_id + 1
                        &&& *final(self) == (Server {
                            sessions: final(self).sessions,
                            next_id: final(self).next_id,
                            ..*old(self)
                        })
                    }
                },
            },
    {
        let (i, j, pid) = match self.find_place(target, cid) {
            Ok(p) => p,
            Err(e) => {
                return Outcome::Error(e);
            },
        };
        let ghost ss = self.states();
        let ghost ks = self.killed_list();
        let ghost w = ss[i as int].windows[j as int];
        proof {
            assert(ss[i as int] == self.sessions@[i as int]@);
            assert(ss[i as int].wf());
            assert(w == self.sessions@[i as int].windows@[j as int]@);
            assert(w.settled());
            lemma_sound_of_wf(ss);
        }
        if self.sessions[i].windows[j].panes.len() < 2 {
            return Outcome::Error("can't break with only one pane".to_owned());
        }
        proof {
            lemma_without(w, pid);
            lemma_place_of(w.panes, pid, 0);
            lemma_edited(ss, i as int, j as int, w.broken(pid), self.next_id, ks);
            lemma_taken_nowhere(ss, i as int, j as int, w.broken(pid), pid);
            assert(lives(ss, i as int, j as int, pid));
        }
        let ghost mid = edited(ss, i as int, j as int, w.broken(pid));
        let pane = self.sessions[i].windows[j].break_off(pid);
        let wid: WindowId = self.next_id;
        self.next_id = self.next_id + 1;
        let name = pane.command.as_str().to_owned();
        let ghost p = pane;
        let n: usize = self.sessions[i].windows.len();
        let window = Window::around(wid, name, pane, now);
        let ghost added = window@;
        self.sessions[i].windows.push(window);
        self.sessions[i].select_window(n);
        proof {
            lemma_fresh(wid, p.command@, p, now);
            let s = self.sessions@[i as int]@;
            assert(s.windows =~= ss[i as int].windows.update(j as int, w.broken(pid)).push(added));
            assert(s.windows =~= mid[i as int].windows.insert(n as int, added));
            assert(s =~= broken_off(ss[i as int], j as int, pid, wid, now));
            assert(self.states() =~= mid.update(i as int, s));
            assert(self.states() =~= ss.update(i as int, s));
            assert forall|a: int, b: int| !#[trigger] stands(mid, a, b, wid) by {
                if stands(mid, a, b, wid) {
                    assert(wid < old(self).next_id);
                }
            }
            lemma_window_added(mid, i as int, s, n as int, added, self.next_id, ks);
            lemma_clients_stay(self.clients@, ss, self.states());
        }
        self.relayout_at(i);
        Outcome::Done
    }
}

/// A row with `b` in the place of `a`.
pub open spec fn replaced(s: Seq<PaneId>, a: PaneId, b: PaneId) -> Seq<PaneId> {
    Seq::new(
        s.len(),
        |i: int|
            if s[i] == a {
                b
            } else {
                s[i]
            },
    )
}

impl WindowState {
    /// With pane `p` in the place of pane `a`: it stands there in the layout
    /// and is active when `a` was.
    pub open spec fn traded(self, a: PaneId, p: Pane) -> WindowState {
        WindowState {
            tree: assigned(self.tree, replaced(panes(self.tree), a, p.id)),
            panes: self.panes.remove(place_of(self.panes, a, 0)).push(p),
            active: if self.active == a {
                p.id
            } else {
                self.active
            },
            last_pane: if self.last_pane == Some(a) {
                None
            } else {
                self.last_pane
            },
            ..self
        }
    }
}

proof fn lemma_traded(w: WindowState, a: PaneId, p: Pane)
    requires
        w.wf(),
        w.has(a),
        !w.has(p.id),
    ensures
        w.traded(a, p).wf(),
        forall|q: PaneId| #[trigger] w.traded(a, p).has(q) <==> (w.has(q) && q != a) || q == p.id,
{
    let after = w.traded(a, p);
    let order = panes(w.tree);
    let swapped_order = replaced(order, a, p.id);
    lemma_shapes_kept(w.tree, a, a, swapped_order, true, true, 0);
    lemma_assigned_panes(w.tree, swapped_order);
    assert(panes(after.tree) =~= swapped_order);
    let all = ids(w.panes);
    let k = place_of(w.panes, a, 0);
    lemma_place_of(w.panes, a, 0);
    assert(ids(after.panes) =~= all.remove(k).push(p.id));
    assert(!order.contains(p.id));
    assert forall|q: PaneId| #[trigger] after.has(q) <==> (w.has(q) && q != a) || q == p.id by {
        let now = ids(after.panes);
        assert(now[now.len() - 1] == p.id);
        if now.contains(q) && q != p.id {
            let j = choose|j: int| 0 <= j < now.len() && now[j] == q;
            let i = if j < k {
                j
            } else {
                j + 1
            };
            assert(all[i] == q);
            assert(all[k] == a);
        }
        if all.contains(q) && q != a {
            let i = choose|i: int| 0 <= i < all.len() && all[i] == q;
            let j = if i < k {
                i
            } else {
                i - 1
            };
            assert(now[j] == q);
        }
    }
    assert forall|q: PaneId| #[trigger] panes(after.tree).contains(q) <==> ids(after.panes).contains(q) by {
        assert(after.has(q) <==> (w.has(q) && q != a) || q == p.id);
        assert(order.contains(q) <==> all.contains(q));
        assert(order.contains(a));
        let ia = choose|i: int| 0 <= i < order.len() && order[i] == a;
        assert(swapped_order[ia] == p.id);
        if swapped_order.contains(q) && q != p.id {
            let i = choose|i: int| 0 <= i < order.len() && swapped_order[i] == q;
            assert(order[i] == q);
        }
        if order.contains(q) && q != a {
            let i = choose|i: int| 0 <= i < order.len() && order[i] == q;
            assert(swapped_order[i] == q);
        }
    }
    assert forall|x: int, y: int| 0 <= x < y < swapped_order.len() implies swapped_order[x] != swapped_order[y] by {
        assert(order[x] != order[y]);
        assert(order.contains(order[x]) && order.contains(order[y]));
    }
    let now = ids(after.panes);
    assert forall|x: int, y: int| 0 <= x < y < now.len() implies now[x] != now[y] by {
        let i = if x < k {
            x
        } else {
            x + 1
        };
        if y < now.len() - 1 {
            let j = if y < k {
                y
            } else {
                y + 1
            };
            assert(all[i] != all[j]);
        } else {
            assert(all.contains(all[i]));
        }
    }
    assert(after.has(after.active));
}

/// Two panes of two windows in each other's place.
pub open spec fn swapped_across(ss: Seq<SessionState>, a: Place, b: Place) -> Seq<SessionState> {
    let wa = ss[a.session].windows[a.window];
    let wb = ss[b.session].windows[b.window];
    let pa = wa.panes[place_of(wa.panes, a.pane, 0)];
    let pb = wb.panes[place_of(wb.panes, b.pane, 0)];
    edited(
        edited(ss, a.session, a.window, wa.traded(a.pane, pb)),
        b.session,
        b.window,
        wb.traded(b.pane, pa),
    )
}

#[verifier::spinoff_prover]
proof fn lemma_swapped_across(ss: Seq<SessionState>, a: Place, b: Place, next: u32, ks: Seq<KilledState>)
    requires
        sessions_sound(ss),
        apart(ss),
        numbered_below(ss, next),
        killed_wf(ks, ss, next),
        lives(ss, a.session, a.window, a.pane),
        lives(ss, b.session, b.window, b.pane),
        a.session != b.session || a.window != b.window,
    ensures
        sessions_sound(swapped_across(ss, a, b)),
        apart(swapped_across(ss, a, b)),
        numbered_below(swapped_across(ss, a, b), next),
        killed_wf(ks, swapped_across(ss, a, b), next),
        swapped_across(ss, a, b).len() == ss.len(),
        forall|k: int| 0 <= k < ss.len() ==> (#[trigger] ss[k]).id == swapped_across(ss, a, b)[k].id,
{
    let wa = ss[a.session].windows[a.window];
    let wb = ss[b.session].windows[b.window];
    let pa = wa.panes[place_of(wa.panes, a.pane, 0)];
    let pb = wb.panes[place_of(wb.panes, b.pane, 0)];
    lemma_place_of(wa.panes, a.pane, 0);
    lemma_place_of(wb.panes, b.pane, 0);
    assert(ss[a.session].sound() && ss[b.session].sound());
    assert(!wa.has(b.pane)) by {
        if wa.has(b.pane) {
            assert(lives(ss, a.session, a.window, b.pane));
        }
    }
    assert(!wb.has(a.pane)) by {
        if wb.has(a.pane) {
            assert(lives(ss, b.session, b.window, a.pane));
        }
    }
    lemma_traded(wa, a.pane, pb);
    lemma_traded(wb, b.pane, pa);
    let na = wa.traded(a.pane, pb);
    let nb = wb.traded(b.pane, pa);
    let t = swapped_across(ss, a, b);
    assert forall|x: int, y: int| #[trigger] at(t, x, y) implies at(ss, x, y) && t[x].windows[y] == (if x == a.session
        && y == a.window {
        na
    } else if x == b.session && y == b.window {
        nb
    } else {
        ss[x].windows[y]
    }) by {}
    assert forall|x: int, y: int, q: WindowId| #[trigger] stands(t, x, y, q) implies stands(ss, x, y, q) by {
        assert(at(t, x, y));
    }
    // Where a pane of the new sessions was.
    let was = |q: PaneId, x: int, y: int|
        if q == a.pane {
            (a.session, a.window)
        } else if q == b.pane {
            (b.session, b.window)
        } else {
            (x, y)
        };
    assert forall|x: int, y: int, q: PaneId| #[trigger] lives(t, x, y, q) implies lives(
        ss,
        was(q, x, y).0,
        was(q, x, y).1,
        q,
    ) && (q == a.pane ==> x == b.session && y == b.window) && (q == b.pane ==> x == a.session && y == a.window) by {
        assert(at(t, x, y));
        if x == a.session && y == a.window {
            assert(na.has(q));
        } else if x == b.session && y == b.window {
            assert(nb.has(q));
        } else {
            assert(lives(ss, x, y, q));
        }
    }
    assert forall|x: int, y: int, u: int, v: int, q: PaneId| #[trigger] lives(t, x, y, q) && #[trigger] lives(
        t,
        u,
        v,
        q,
    ) implies x == u && y == v by {
        if q != a.pane && q != b.pane {
            assert(lives(ss, x, y, q) && lives(ss, u, v, q));
        }
    }
    assert forall|x: int, y: int, u: int, v: int, q: WindowId| #[trigger] stands(t, x, y, q) && #[trigger] stands(
        t,
        u,
        v,
        q,
    ) implies x == u && y == v by {
        assert(stands(ss, x, y, q) && stands(ss, u, v, q));
    }
    assert forall|k: int| 0 <= k < ss.len() implies (#[trigger] ss[k]).id == t[k].id by {}
    assert forall|x: int, y: int| 0 <= x < y < t.len() implies (#[trigger] t[x]).id != (#[trigger] t[y]).id by {
        assert(ss[x].id != ss[y].id);
        assert(ss[x].id == t[x].id && ss[y].id == t[y].id);
    }
    assert forall|x: int| 0 <= x < t.len() implies (#[trigger] t[x]).id < next by {
        assert(ss[x].id == t[x].id);
    }
    assert forall|k: int, x: int, y: int, q: PaneId| #[trigger] kept(ks, k, q) implies !#[trigger] lives(t, x, y, q) by {
        if lives(t, x, y, q) {
            assert(lives(ss, was(q, x, y).0, was(q, x, y).1, q));
        }
    }
    assert forall|k: int, x: int, y: int|
        0 <= k < ks.len() && 0 <= x < t.len() && 0 <= y < t[x].windows.len() implies match #[trigger] ks[k] {
        KilledState::Window { window, .. } => (#[trigger] t[x].windows[y]).id != window.id,
        _ => true,
    } by {
        assert(at(t, x, y));
        assert(t[x].windows[y].id == ss[x].windows[y].id);
    }
    assert forall|x: int| 0 <= x < t.len() implies (#[trigger] t[x]).sound() by {
        assert(ss[x].sound());
        assert forall|y: int| 0 <= y < t[x].windows.len() implies (#[trigger] t[x].windows[y]).wf() && t[x].windows[y].id
            == ss[x].windows[y].id by {
            assert(at(t, x, y));
            assert(ss[x].windows[y].wf());
        }
    }
}

/// Two windows may be put in place in either order.
proof fn lemma_edits(
    ss: Seq<SessionState>,
    ai: int,
    aj: int,
    ha: WindowState,
    na: WindowState,
    bi: int,
    bj: int,
    nb: WindowState,
)
    requires
        at(ss, ai, aj),
        at(ss, bi, bj),
        ai != bi || aj != bj,
    ensures
        edited(edited(edited(ss, ai, aj, ha), bi, bj, nb), ai, aj, na) == edited(edited(ss, ai, aj, na), bi, bj, nb),
{
    let x = edited(edited(edited(ss, ai, aj, ha), bi, bj, nb), ai, aj, na);
    let y = edited(edited(ss, ai, aj, na), bi, bj, nb);
    assert forall|k: int| 0 <= k < ss.len() implies x[k] == y[k] by {
        assert(x[k].windows =~= y[k].windows);
    }
    assert(x =~= y);
}

fn replace_in(order: &Vec<PaneId>, a: PaneId, b: PaneId) -> (out: Vec<PaneId>)
    ensures
        out@ == replaced(order@, a, b),
{
    let mut out: Vec<PaneId> = Vec::new();
    let mut i: usize = 0;
    while i < order.len()
        invariant
            i <= order@.len(),
            out@.len() == i,
            forall|j: int| 0 <= j < i ==> out@[j] == replaced(order@, a, b)[j],
        decreases order.len() - i,
    {
        out.push(if order[i] == a { b } else { order[i] });
        i = i + 1;
    }
    assert(out@ =~= replaced(order@, a, b));
    out
}

impl Window {
    /// Take pane `a` out, with pane `b` in its place in the layout; the list
    /// waits for it.
    fn trade(&mut self, a: PaneId, b: PaneId) -> (pane: Pane)
        requires
            old(self)@.wf(),
            old(self)@.has(a),
        ensures
            pane == old(self)@.panes[place_of(old(self)@.panes, a, 0)],
            forall|p: Pane|
                p.id == b ==> (#[trigger] old(self)@.traded(a, p)) == (WindowState {
                    panes: final(self)@.panes.push(p),
                    ..final(self)@
                }),
    {
        let ghost w = self@;
        proof {
            lemma_place_of(w.panes, a, 0);
        }
        let order = self.layout.panes();
        let next = replace_in(&order, a, b);
        self.layout.set_panes(next.as_slice());
        if self.active == a {
            self.active = b;
        }
        if let Some(l) = self.last_pane {
            if l == a {
                self.last_pane = None;
            }
        }
        let k: usize = self.place(a);
        let pane = self.panes.remove(k);
        proof {
            assert forall|p: Pane| p.id == b implies (#[trigger] w.traded(a, p)) == (WindowState {
                panes: self@.panes.push(p),
                ..self@
            }) by {
                assert(w.traded(a, p) =~= WindowState { panes: self@.panes.push(p), ..self@ });
            }
        }
        pane
    }
}

impl Server {
    /// Two panes of two windows change places: each takes the other's place
    /// in the other's layout, the active pane of each window follows the
    /// place, and both sessions are laid out again.
    pub fn swap_panes_across(&mut self, ai: usize, aj: usize, a: PaneId, bi: usize, bj: usize, b: PaneId)
        requires
            old(self).wf(),
            lives(old(self).states(), ai as int, aj as int, a),
            lives(old(self).states(), bi as int, bj as int, b),
            ai != bi || aj != bj,
        ensures
            final(self).wf(),
            final(self).states() == relaid(
                relaid(
                    swapped_across(
                        old(self).states(),
                        (Place { session: ai as int, window: aj as int, pane: a }),
                        (Place { session: bi as int, window: bj as int, pane: b }),
                    ),
                    ai as int,
                    old(self).opts,
                ),
                bi as int,
                old(self).opts,
            ),
            *final(self) == (Server { sessions: final(self).sessions, ..*old(self) }),
    {
        let ghost ss = self.states();
        let ghost pa = Place { session: ai as int, window: aj as int, pane: a };
        let ghost pb = Place { session: bi as int, window: bj as int, pane: b };
        proof {
            lemma_sound_of_wf(ss);
            lemma_swapped_across(ss, pa, pb, self.next_id, self.killed_list());
        }
        self.trade_places(ai, aj, a, bi, bj, b);
        let ghost mid = self.states();
        proof {
            lemma_clients_stay(self.clients@, ss, mid);
        }
        self.relayout_at(ai);
        let ghost one = self.states();
        proof {
            assert forall|k: int| 0 <= k < one.len() && k != bi implies (#[trigger] one[k]).wf() by {
                if k != ai {
                    assert(one[k] == mid[k]);
                    assert(mid[k] == ss[k]);
                    assert(ss[k].wf());
                }
            }
        }
        self.relayout_at(bi);
    }

    #[verifier::spinoff_prover]
    #[verifier::rlimit(60)]
    fn trade_places(&mut self, ai: usize, aj: usize, a: PaneId, bi: usize, bj: usize, b: PaneId)
        requires
            sessions_wf(old(self).states()),
            lives(old(self).states(), ai as int, aj as int, a),
            lives(old(self).states(), bi as int, bj as int, b),
            ai != bi || aj != bj,
        ensures
            final(self).states() == swapped_across(
                old(self).states(),
                (Place { session: ai as int, window: aj as int, pane: a }),
                (Place { session: bi as int, window: bj as int, pane: b }),
            ),
            *final(self) == (Server { sessions: final(self).sessions, ..*old(self) }),
    {
        let ghost ss = self.states();
        let ghost wa = ss[ai as int].windows[aj as int];
        let ghost wb = ss[bi as int].windows[bj as int];
        proof {
            assert(ss[ai as int] == self.sessions@[ai as int]@);
            assert(ss[bi as int] == self.sessions@[bi as int]@);
            assert(wa == self.sessions@[ai as int].windows@[aj as int]@);
            assert(wb == self.sessions@[bi as int].windows@[bj as int]@);
            assert(ss[ai as int].wf() && ss[bi as int].wf());
            assert(wa.settled() && wb.settled());
            lemma_place_of(wa.panes, a, 0);
            lemma_place_of(wb.panes, b, 0);
        }
        let pane_a = self.sessions[ai].windows[aj].trade(a, b);
        let ghost ha = self.sessions@[ai as int].windows@[aj as int]@;
        let ghost one = self.states();
        proof {
            assert(self.sessions@[ai as int]@ =~= put_window(ss[ai as int], aj as int, ha));
            assert(one =~= edited(ss, ai as int, aj as int, ha));
            assert(one[bi as int].windows[bj as int] == wb);
            assert(one[bi as int] == self.sessions@[bi as int]@);
            assert(wb == self.sessions@[bi as int].windows@[bj as int]@);
        }
        let pane_b = self.sessions[bi].windows[bj].trade(b, a);
        let ghost xa = pane_a;
        let ghost xb = pane_b;
        self.sessions[bi].windows[bj].panes.push(pane_a);
        let ghost nb = wb.traded(b, xa);
        let ghost two = self.states();
        proof {
            assert(self.sessions@[bi as int].windows@[bj as int]@ =~= nb);
            assert(self.sessions@[bi as int]@ =~= put_window(one[bi as int], bj as int, nb));
            assert(two =~= edited(one, bi as int, bj as int, nb));
            assert(two[ai as int].windows[aj as int] == ha);
            assert(two[ai as int] == self.sessions@[ai as int]@);
            assert(ha == self.sessions@[ai as int].windows@[aj as int]@);
        }
        self.sessions[ai].windows[aj].panes.push(pane_b);
        let ghost na = wa.traded(a, xb);
        proof {
            assert(self.sessions@[ai as int].windows@[aj as int]@ =~= na);
            assert(self.sessions@[ai as int]@ =~= put_window(two[ai as int], aj as int, na));
            assert(self.states() =~= edited(two, ai as int, aj as int, na));
            lemma_edits(ss, ai as int, aj as int, ha, na, bi as int, bj as int, nb);
        }
    }

    /// `swap-pane` with both panes named: they change places, in one window
    /// or across windows and sessions.
    pub fn swap_pane(&mut self, source: &Target, target: Option<&Target>, cid: Option<ClientId>) -> (out: Outcome)
        requires
            old(self).wf(),
        ensures
            final(self).wf(),
            match place_for(old(self).states(), old(self).clients@, old(self).opts, aimed(target), cid) {
                Err(e) => out@ == Ended::Error(e) && *final(self) == *old(self),
                Ok(d) => match place_for(
                    old(self).states(),
                    old(self).clients@,
                    old(self).opts,
                    Some(*source),
                    cid,
                ) {
                    Err(e) => out@ == Ended::Error(e) && *final(self) == *old(self),
                    Ok(s) => {
                        let ss = old(self).states();
                        &&& out@ == Ended::Done
                        &&& final(self).states() == if s.pane == d.pane {
                            ss
                        } else if s.session == d.session && s.window == d.window {
                            let w = ss[d.session].windows[d.window];
                            relaid(
                                edited(
                                    ss,
                                    d.session,
                                    d.window,
                                    WindowState { tree: swapped(w.tree, s.pane, d.pane), ..w },
                                ),
                                d.session,
                                old(self).opts,
                            )
                        } else {
                            relaid(
                                relaid(swapped_across(ss, s, d), s.session, old(self).opts),
                                d.session,
                                old(self).opts,
                            )
                        }
                        &&& *final(self) == (Server { sessions: final(self).sessions, ..*old(self) })
                    },
                },
            },
    {
        let (i, j, pid) = match self.find_place(target, cid) {
            Ok(p) => p,
            Err(e) => {
                return Outcome::Error(e);
            },
        };
        let (si, sj, spid) = match self.find_place(Some(source), cid) {
            Ok(p) => p,
            Err(e) => {
                return Outcome::Error(e);
            },
        };
        if spid == pid {
            return Outcome::Done;
        }
        if si == i && sj == j {
            let ghost ss = self.states();
            let ghost w = ss[i as int].windows[j as int];
            let ghost after = WindowState { tree: swapped(w.tree, spid, pid), ..w };
            proof {
                lemma_sound_of_wf(ss);
                assert(ss[i as int] == self.sessions@[i as int]@);
                assert(ss[i as int].wf());
                assert(w == self.sessions@[i as int].windows@[j as int]@);
                assert(w.settled());
            }
            self.sessions[i].windows[j].swap_panes(spid, pid);
            proof {
                assert(self.sessions@[i as int]@ =~= put_window(ss[i as int], j as int, after));
                assert forall|id: PaneId| #[trigger] after.has(id) implies w.has(id) by {}
                lemma_edited(ss, i as int, j as int, after, self.next_id, self.killed_list());
                assert(self.states() =~= edited(ss, i as int, j as int, after));
                lemma_clients_stay(self.clients@, ss, self.states());
            }
            self.relayout_at(i);
        } else {
            self.swap_panes_across(si, sj, spid, i, j, pid);
        }
        Outcome::Done
    }
}

} // verus!
