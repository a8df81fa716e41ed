//! `join-pane`: a pane moves into another window, beside one of its panes.
use vstd::prelude::*;

use crate::chooser::SessionId;
use crate::command::{Ended, Outcome};
use crate::endings::{lemma_session_gone, lemma_window_gone};
use crate::layout::{PaneId, Rect};
use crate::moves::{lemma_sound_of_wf, lemma_taken_nowhere};
use crate::pane::Pane;
use crate::server::{apart, area_of, border_of, kept, killed_wf, lemma_session_place, lemma_session_with, lives, numbered_below, session_has, session_place, session_with, sessions_wf, KilledState, Options, Place, Server};
use crate::server_edit::{all_detached, at, edited, lemma_clients_stay, lemma_edited, put_window, relaid, sessions_sound};
use crate::session::{lemma_window_with, window_with, SessionState};
use crate::undo::{lemma_pane_added, roomy};
use crate::window::{ids, lemma_laid_out, lemma_place_of, place_of, rect_in, WindowState};
use crate::window_edit::{lemma_joined, lemma_without};

verus! {

/// The sessions with the window of place `d` laid out as it is when nothing
/// is zoomed.
pub open spec fn cleared(ss: Seq<SessionState>, opts: Options, d: Place) -> Seq<SessionState> {
    let s = ss[d.session];
    let w = s.windows[d.window];
    if w.zoomed {
        edited(
            ss,
            d.session,
            d.window,
            WindowState { zoomed: false, ..w }.laid_out(area_of(opts, s.cols, s.rows), border_of(opts)),
        )
    } else {
        ss
    }
}

/// The sessions without the pane of place `s`, which moves elsewhere.
pub open spec fn taken_out(ss: Seq<SessionState>, s: Place) -> Seq<SessionState> {
    let w = ss[s.session].windows[s.window];
    if w.panes.len() > 1 {
        edited(ss, s.session, s.window, w.given(s.pane))
    } else if ss[s.session].windows.len() > 1 {
        ss.update(s.session, ss[s.session].given_window(s.window))
    } else {
        ss.remove(s.session)
    }
}

/// The sessions with `p` beside pane `beside`, and active.
pub open spec fn taken_in(
    ss: Seq<SessionState>,
    beside: PaneId,
    p: Pane,
    horizontal: bool,
    extent: int,
    before: bool,
) -> Seq<SessionState> {
    let i = session_with(ss, beside, 0);
    let j = window_with(ss[i].windows, beside, 0);
    let w = ss[i].windows[j];
    edited(
        ss,
        i,
        j,
        WindowState { preset: None, ..w.joined(beside, horizontal, p, extent, before).focused(p.id) },
    )
}

/// A cell is too small to be split that way.
pub open spec fn too_small(r: Rect, horizontal: bool, border: Option<bool>) -> bool {
    (horizontal && r.w < 3) || (!horizontal && r.h < (if border is Some {
        5int
    } else {
        3int
    }))
}

/// What is wrong with moving pane `s` beside pane `d`, before anything is
/// done.
pub open spec fn join_fault(ss: Seq<SessionState>, s: Place, d: Place) -> Option<Seq<char>> {
    if s.pane == d.pane {
        Some("join-pane: source and target are the same pane"@)
    } else if s.session == d.session && s.window == d.window && ss[s.session].windows[s.window].panes.len() < 2 {
        Some("join-pane: the pane is already there"@)
    } else {
        None
    }
}

/// The sessions after a pane moved and both its sessions were laid out.
pub open spec fn joined_sessions(
    ss: Seq<SessionState>,
    opts: Options,
    s: Place,
    d: Place,
    horizontal: bool,
    extent: int,
    before: bool,
) -> Seq<SessionState> {
    let w = ss[s.session].windows[s.window];
    let p = w.panes[place_of(w.panes, s.pane, 0)];
    let sid = ss[s.session].id;
    let did = ss[d.session].id;
    let a = taken_in(taken_out(ss, s), d.pane, p, horizontal, extent, before);
    let b = relaid(a, session_with(a, d.pane, 0), opts);
    if sid != did && session_place(b, sid, 0) < b.len() {
        relaid(b, session_place(b, sid, 0), opts)
    } else {
        b
    }
}

/// A pane that is somewhere is found.
pub proof fn lemma_found(ss: Seq<SessionState>, i: int, j: int, id: PaneId)
    requires
        apart(ss),
        lives(ss, i, j, id),
    ensures
        session_with(ss, id, 0) == i,
        window_with(ss[i].windows, id, 0) == j,
{
    lemma_session_with(ss, id, 0);
    lemma_window_with(ss[i].windows, id, 0);
    let k = window_with(ss[i].windows, id, 0);
    assert(k < ss[i].windows.len()) by {
        if k >= ss[i].windows.len() {
            assert(!ss[i].windows[j].has(id));
        }
    }
    assert(lives(ss, i, k, id));
    assert(session_has(ss[i], id));
    let m = session_with(ss, id, 0);
    assert(m <= i);
    lemma_window_with(ss[m].windows, id, 0);
    assert(lives(ss, m, window_with(ss[m].windows, id, 0), id));
}

/// A pane taken out is nowhere, and what is left is in order.
#[verifier::spinoff_prover]
#[verifier::rlimit(50)]
proof fn lemma_taken_out(ss: Seq<SessionState>, s: Place, next: u32, ks: Seq<KilledState>)
    requires
        sessions_sound(ss),
        apart(ss),
        numbered_below(ss, next),
        killed_wf(ks, ss, next),
        lives(ss, s.session, s.window, s.pane),
    ensures
        sessions_sound(taken_out(ss, s)),
        apart(taken_out(ss, s)),
        numbered_below(taken_out(ss, s), next),
        killed_wf(ks, taken_out(ss, s), next),
        forall|a: int, b: int| !#[trigger] lives(taken_out(ss, s), a, b, s.pane),
        forall|i: int, j: int, id: PaneId| #[trigger]
            lives(ss, i, j, id) && id != s.pane ==> session_with(taken_out(ss, s), id, 0) < taken_out(ss, s).len() && (
            taken_out(ss, s).len() == ss.len() ==> session_with(taken_out(ss, s), id, 0) == i),
{
    let w = ss[s.session].windows[s.window];
    let t = taken_out(ss, s);
    assert(ss[s.session].sound());
    assert(w.wf());
    if w.panes.len() > 1 {
        lemma_without(w, s.pane);
        lemma_edited(ss, s.session, s.window, w.given(s.pane), next, ks);
        lemma_taken_nowhere(ss, s.session, s.window, w.given(s.pane), s.pane);
        assert forall|i: int, j: int, id: PaneId| #[trigger] lives(ss, i, j, id) && id != s.pane implies session_with(
            t,
            id,
            0,
        ) < t.len() && (t.len() == ss.len() ==> session_with(t, id, 0) == i) by {
            if i == s.session && j == s.window {
                assert(w.given(s.pane).has(id));
            }
            assert(lives(t, i, j, id));
            lemma_found(t, i, j, id);
        }
    } else if ss[s.session].windows.len() > 1 {
        lemma_window_gone(ss, s.session, s.window, ss[s.session].given_window(s.window), next, ks);
        assert forall|a: int, b: int| !#[trigger] lives(t, a, b, s.pane) by {
            if lives(t, a, b, s.pane) {
                let c = if a == s.session && b >= s.window {
                    b + 1
                } else {
                    b
                };
                assert(lives(ss, a, c, s.pane));
            }
        }
        assert forall|i: int, j: int, id: PaneId| #[trigger] lives(ss, i, j, id) && id != s.pane implies session_with(
            t,
            id,
            0,
        ) < t.len() && (t.len() == ss.len() ==> session_with(t, id, 0) == i) by {
            if i == s.session && j == s.window {
                lemma_only_one(w, s.pane, id);
            }
            let c = if i == s.session && j > s.window {
                j - 1
            } else {
                j
            };
            assert(lives(t, i, c, id));
            lemma_found(t, i, c, id);
        }
    } else {
        lemma_session_gone(ss, s.session, next, ks);
        assert forall|a: int, b: int| !#[trigger] lives(t, a, b, s.pane) by {
            if lives(t, a, b, s.pane) {
                let c = if a >= s.session {
                    a + 1
                } else {
                    a
                };
                assert(t[a] == ss[c]);
                assert(lives(ss, c, b, s.pane));
            }
        }
        assert forall|i: int, j: int, id: PaneId| #[trigger] lives(ss, i, j, id) && id != s.pane implies session_with(
            t,
            id,
            0,
        ) < t.len() && (t.len() == ss.len() ==> session_with(t, id, 0) == i) by {
            if i == s.session {
                lemma_only_one(w, s.pane, id);
            }
            let c = if i > s.session {
                i - 1
            } else {
                i
            };
            assert(t[c] == ss[i]);
            assert(lives(t, c, j, id));
            lemma_found(t, c, j, id);
        }
    }
}

/// A window with one pane has no other.
proof fn lemma_only_one(w: WindowState, a: PaneId, b: PaneId)
    requires
        w.panes.len() <= 1,
        w.has(a),
        w.has(b),
    ensures
        a == b,
{
    let i = choose|i: int| 0 <= i < ids(w.panes).len() && ids(w.panes)[i] == a;
    let j = choose|j: int| 0 <= j < ids(w.panes).len() && ids(w.panes)[j] == b;
    assert(i == j);
}

impl Server {
    /// Take a live pane out of its window without ending it; the window goes
    /// with its last pane, and the session with its last window.
    pub fn take_pane(&mut self, i: usize, j: usize, pid: PaneId) -> (pane: Pane)
        requires
            old(self).wf(),
            lives(old(self).states(), i as int, j as int, pid),
        ensures
            final(self).sound(),
            final(self).states() == taken_out(
                old(self).states(),
                (Place { session: i as int, window: j as int, pane: pid }),
            ),
            pane == old(self).states()[i as int].windows[j as int].panes[place_of(
                old(self).states()[i as int].windows[j as int].panes,
                pid,
                0,
            )],
            if old(self).states()[i as int].windows.len() == 1 && old(
                self,
            ).states()[i as int].windows[j as int].panes.len() == 1 {
                all_detached(
                    old(self).clients@,
                    final(self).clients@,
                    old(self).states()[i as int].id,
                    "exited"@,
                )
            } else {
                final(self).clients == old(self).clients
            },
            *final(self) == (Server { sessions: final(self).sessions, clients: final(self).clients, ..*old(self) }),
    {
        let ghost ss = self.states();
        let ghost w = ss[i as int].windows[j as int];
        proof {
            lemma_sound_of_wf(ss);
            lemma_taken_out(
                ss,
                Place { session: i as int, window: j as int, pane: pid },
                self.next_id,
                self.killed_list(),
            );
            assert(ss[i as int] == self.sessions@[i as int]@);
            assert(ss[i as int].wf());
            assert(w == self.sessions@[i as int].windows@[j as int]@);
            assert(w.settled());
            lemma_place_of(w.panes, pid, 0);
        }
        if self.sessions[i].windows[j].panes.len() > 1 {
            let pane = self.sessions[i].windows[j].give(pid);
            proof {
                assert(self.sessions@[i as int]@ =~= put_window(ss[i as int], j as int, w.given(pid)));
                assert(self.states() =~= edited(ss, i as int, j as int, w.given(pid)));
                lemma_clients_stay(self.clients@, ss, self.states());
            }
            return pane;
        }
        if self.sessions[i].windows.len() > 1 {
            let mut window = self.sessions[i].give_window(j);
            proof {
                assert(self.states() =~= ss.update(i as int, ss[i as int].given_window(j as int)));
                lemma_clients_stay(self.clients@, ss, self.states());
            }
            return window.panes.remove(0);
        }
        let mut s = self.end_session(i, "exited");
        proof {
            assert(s@.windows[0] == s.windows@[0]@);
            let after = self.states();
            lemma_sound_of_wf(after);
        }
        let mut window = s.windows.remove(0);
        window.panes.remove(0)
    }

    /// Lay the window of a place out as it is when nothing is zoomed.
    pub fn clear_zoom(&mut self, i: usize, j: usize)
        requires
            old(self).wf(),
            at(old(self).states(), i as int, j as int),
        ensures
            final(self).wf(),
            final(self).states() == cleared(
                old(self).states(),
                old(self).opts,
                (Place { session: i as int, window: j as int, pane: 0 }),
            ),
            *final(self) == (Server { sessions: final(self).sessions, ..*old(self) }),
    {
        let ghost ss = self.states();
        let ghost w = ss[i as int].windows[j as int];
        proof {
            lemma_sound_of_wf(ss);
            assert(ss[i as int] == self.sessions@[i as int]@);
            assert(ss[i as int].wf());
            assert(w == self.sessions@[i as int].windows@[j as int]@);
            assert(w.settled());
        }
        if self.sessions[i].windows[j].zoomed {
            let area = self.window_area(self.sessions[i].cols, self.sessions[i].rows);
            let border = self.border_rows();
            let ghost flat = WindowState { zoomed: false, ..w };
            proof {
                assert(flat.wf());
                lemma_laid_out(flat, area, border);
            }
            self.sessions[i].windows[j].zoomed = false;
            self.sessions[i].windows[j].relayout(area, border);
            proof {
                let after = flat.laid_out(area, border);
                assert(self.sessions@[i as int]@ =~= put_window(ss[i as int], j as int, after));
                assert forall|id: PaneId| #[trigger] after.has(id) implies w.has(id) by {}
                lemma_edited(ss, i as int, j as int, after, self.next_id, self.killed_list());
                assert(self.states() =~= edited(ss, i as int, j as int, after));
                lemma_clients_stay(self.clients@, ss, self.states());
            }
        }
    }

    /// Put a pane that is nowhere beside pane `beside`, and make it active.
    #[verifier::spinoff_prover]
    fn take_in(&mut self, beside: PaneId, pane: Pane, horizontal: bool, rect: Rect, before: bool) -> (i: usize)
        requires
            old(self).sound(),
            forall|a: int, b: int| #[trigger] lives(old(self).states(), a, b, beside) ==> roomy(old(self).states(), a, b),
            session_with(old(self).states(), beside, 0) < old(self).states().len(),
            pane.id < old(self).next_id,
            forall|a: int, b: int| !#[trigger] lives(old(self).states(), a, b, pane.id),
            forall|a: int| !#[trigger] kept(old(self).killed_list(), a, pane.id),
        ensures
            final(self).sound(),
            final(self).states() == taken_in(
                old(self).states(),
                beside,
                pane,
                horizontal,
                rect.extent(horizontal),
                before,
            ),
            i == session_with(old(self).states(), beside, 0),
            i == session_with(final(self).states(), beside, 0),
            i < final(self).states().len(),
            *final(self) == (Server { sessions: final(self).sessions, ..*old(self) }),
    {
        let ghost ss = self.states();
        let (i, j) = match self.place_of_pane(beside) {
            Some(p) => p,
            None => (0, 0),
        };
        let ghost w = ss[i as int].windows[j as int];
        let ghost joined = w.joined(beside, horizontal, pane, rect.extent(horizontal), before);
        let ghost after = WindowState { preset: None, ..joined.focused(pane.id) };
        proof {
            assert(ss[i as int] == self.sessions@[i as int]@);
            assert(ss[i as int].sound());
            assert(w == self.sessions@[i as int].windows@[j as int]@);
            assert(at(ss, i as int, j as int));
            assert(lives(ss, i as int, j as int, beside));
            assert(!lives(ss, i as int, j as int, pane.id));
            lemma_joined(w, beside, horizontal, pane, rect.extent(horizontal), before);
            assert(joined.has(pane.id));
            assert(joined.focused(pane.id).panes == joined.panes);
            assert(after.wf());
            assert forall|q: PaneId| #[trigger] after.has(q) implies w.has(q) || q == pane.id by {
                assert(joined.has(q));
            }
            lemma_pane_added(ss, i as int, j as int, after, pane.id, self.next_id, self.killed_list());
        }
        let pid: PaneId = pane.id;
        self.sessions[i].windows[j].join(beside, horizontal, pane, rect, before);
        self.sessions[i].windows[j].focus(pid);
        self.sessions[i].windows[j].layout_preset = None;
        proof {
            assert(self.sessions@[i as int].windows@[j as int]@ =~= after);
            assert(self.sessions@[i as int]@ =~= put_window(ss[i as int], j as int, after));
            assert(self.states() =~= edited(ss, i as int, j as int, after));
            lemma_clients_stay(self.clients@, ss, self.states());
            assert(after.has(beside)) by {
                assert(joined.has(beside));
            }
            assert(lives(self.states(), i as int, j as int, beside));
            lemma_found(self.states(), i as int, j as int, beside);
        }
        i
    }

    /// `join-pane`: the pane at place `s` (session, window, pane) moves
    /// beside the pane at place `d`. Room is made in the destination before
    /// the pane is taken out, so a refused split leaves everything where it
    /// was.
    #[verifier::spinoff_prover]
    #[verifier::rlimit(50)]
    pub fn join_pane(&mut self, s: (usize, usize, PaneId), d: (usize, usize, PaneId), horizontal: bool, before: bool) -> (
        out: Outcome)
        requires
            old(self).wf(),
            lives(old(self).states(), s.0 as int, s.1 as int, s.2),
            lives(old(self).states(), d.0 as int, d.1 as int, d.2),
            s.0 == d.0 && s.1 == d.1 || roomy(old(self).states(), d.0 as int, d.1 as int),
        ensures
            final(self).wf(),
            ({
                let ss = old(self).states();
                let opts = old(self).opts;
                let from = Place { session: s.0 as int, window: s.1 as int, pane: s.2 };
                let to = Place { session: d.0 as int, window: d.1 as int, pane: d.2 };
                match join_fault(ss, from, to) {
                    Some(e) => out@ == Ended::Error(e) && *final(self) == *old(self),
                    None => {
                        let flat = cleared(ss, opts, to);
                        match rect_in(flat[to.session].windows[to.window].cells, to.pane, 0) {
                            None => {
                                &&& out@ == Ended::Error("pane has no layout"@)
                                &&& final(self).states() == flat
                                &&& *final(self) == (Server { sessions: final(self).sessions, ..*old(self) })
                            },
                            Some(r) => if too_small(r, horizontal, border_of(opts)) {
                                &&& out@ == Ended::Error("pane too small to split"@)
                                &&& final(self).states() == flat
                                &&& *final(self) == (Server { sessions: final(self).sessions, ..*old(self) })
                            } else {
                                &&& out@ == Ended::Done
                                &&& final(self).states() == joined_sessions(
                                    flat,
                                    opts,
                                    from,
                                    to,
                                    horizontal,
                                    r.extent(horizontal),
                                    before,
                                )
                                &&& if ss[from.session].windows.len() == 1 && ss[from.session].windows[0].panes.len()
                                    == 1 {
                                    all_detached(
                                        old(self).clients@,
                                        final(self).clients@,
                                        ss[from.session].id,
                                        "exited"@,
                                    )
                                } else {
                                    final(self).clients == old(self).clients
                                }
                                &&& *final(self) == (Server {
                                    sessions: final(self).sessions,
                                    clients: final(self).clients,
                                    marked: None,
                                    ..*old(self)
                                })
                            },
                        }
                    },
                }
            }),
    {
        let (si, sj, spid) = s;
        let (di, dj, dpid) = d;
        let ghost ss = self.states();
        proof {
            assert(ss[si as int] == self.sessions@[si as int]@);
            assert(ss[di as int] == self.sessions@[di as int]@);
            assert(ss[si as int].windows[sj as int] == self.sessions@[si as int].windows@[sj as int]@);
        }
        if spid == dpid {
            return Outcome::Error("join-pane: source and target are the same pane".to_owned());
        }
        if si == di && sj == dj && self.sessions[si].windows[sj].panes.len() < 2 {
            return Outcome::Error("join-pane: the pane is already there".to_owned());
        }
        self.clear_zoom(di, dj);
        let ghost flat = self.states();
        proof {
            lemma_cleared(ss, self.opts, Place { session: di as int, window: dj as int, pane: 0 });
            assert(flat[di as int] == self.sessions@[di as int]@);
            assert(flat[di as int].windows[dj as int] == self.sessions@[di as int].windows@[dj as int]@);
            assert(flat[si as int].windows[sj as int].panes.len() == ss[si as int].windows[sj as int].panes.len());
            assert(lives(flat, si as int, sj as int, spid));
            assert(lives(flat, di as int, dj as int, dpid));
        }
        let rect = match self.sessions[di].windows[dj].layout_rect(dpid) {
            Some(r) => r,
            None => {
                return Outcome::Error("pane has no layout".to_owned());
            },
        };
        let least: u16 = if self.border_rows().is_some() { 5 } else { 3 };
        if (horizontal && rect.w < 3) || (!horizontal && rect.h < least) {
            return Outcome::Error("pane too small to split".to_owned());
        }
        proof {
            assert(flat[si as int] == self.sessions@[si as int]@);
            lemma_sound_of_wf(flat);
            lemma_taken_out(
                flat,
                Place { session: si as int, window: sj as int, pane: spid },
                self.next_id,
                self.killed_list(),
            );
            assert(flat[si as int].wf());
            lemma_place_of(flat[si as int].windows[sj as int].panes, spid, 0);
            lemma_taken_roomy(
                flat,
                Place { session: si as int, window: sj as int, pane: spid },
                Place { session: di as int, window: dj as int, pane: dpid },
            );
        }
        let sid: SessionId = self.sessions[si].id;
        let did: SessionId = self.sessions[di].id;
        let pane = self.take_pane(si, sj, spid);
        let ghost out = self.states();
        let i: usize = self.take_in(dpid, pane, horizontal, rect, before);
        let ghost one = self.states();
        self.relayout_at(i);
        let ghost two = self.states();
        proof {
            lemma_others_settled(
                flat,
                out,
                one,
                two,
                Place { session: si as int, window: sj as int, pane: spid },
                dpid,
                i as int,
                sid,
            );
        }
        proof {
            lemma_session_place(two, sid, 0);
            if sid == did {
                assert(si == di);
                assert(out.len() == flat.len());
                assert(i == si);
                assert forall|x: int| 0 <= x < two.len() implies (#[trigger] two[x]).wf() by {
                    if x != i {
                        assert(two[x].id != two[i as int].id);
                    }
                }
            }
        }
        if sid != did {
            let k: usize = self.session_at(sid);
            if k < self.sessions.len() {
                proof {
                    assert forall|x: int| 0 <= x < two.len() && x != k implies (#[trigger] two[x]).wf() by {
                        assert(two[x].id != two[k as int].id);
                    }
                }
                self.relayout_at(k);
            }
        }
        self.marked = None;
        Outcome::Done
    }
}

/// Clearing a zoom leaves the panes where they are.
pub proof fn lemma_cleared(ss: Seq<SessionState>, opts: Options, d: Place)
    requires
        sessions_wf(ss),
        at(ss, d.session, d.window),
    ensures
        cleared(ss, opts, d).len() == ss.len(),
        forall|i: int| 0 <= i < ss.len() ==> (#[trigger] cleared(ss, opts, d)[i]).id == ss[i].id,
        forall|i: int, j: int| #[trigger] at(cleared(ss, opts, d), i, j) <==> at(ss, i, j),
        forall|i: int, j: int| #[trigger]
            at(ss, i, j) ==> cleared(ss, opts, d)[i].windows.len() == ss[i].windows.len() && ids(
                cleared(ss, opts, d)[i].windows[j].panes,
            ) == ids(ss[i].windows[j].panes) && cleared(ss, opts, d)[i].windows[j].panes.len()
                == ss[i].windows[j].panes.len(),
        forall|i: int, j: int, id: PaneId| #[trigger] lives(cleared(ss, opts, d), i, j, id) <==> lives(ss, i, j, id),
{
    let s = ss[d.session];
    let w = s.windows[d.window];
    let t = cleared(ss, opts, d);
    let area = area_of(opts, s.cols, s.rows);
    assert(ss[d.session].wf());
    assert(w.settled());
    if w.zoomed {
        let flat = WindowState { zoomed: false, ..w };
        lemma_laid_out(flat, area, border_of(opts));
    }
    assert forall|i: int, j: int| #[trigger] at(ss, i, j) implies at(t, i, j) && t[i].windows.len()
        == ss[i].windows.len() && ids(t[i].windows[j].panes) == ids(ss[i].windows[j].panes)
        && t[i].windows[j].panes.len() == ss[i].windows[j].panes.len() by {
        if i == d.session && j == d.window && w.zoomed {
            assert(ids(t[i].windows[j].panes).len() == ids(ss[i].windows[j].panes).len());
        }
    }
    assert forall|i: int, j: int| #[trigger] at(t, i, j) implies at(ss, i, j) by {}
    assert forall|i: int, j: int, id: PaneId| #[trigger] lives(t, i, j, id) <==> lives(ss, i, j, id) by {
        if lives(t, i, j, id) {
            assert(at(t, i, j));
            assert(at(ss, i, j));
        }
        if lives(ss, i, j, id) {
            assert(at(ss, i, j));
        }
    }
}

/// Where a pane is moved to there is room after it was taken out, if there was
/// or it comes from there.
proof fn lemma_taken_roomy(ss: Seq<SessionState>, s: Place, d: Place)
    requires
        sessions_wf(ss),
        apart(ss),
        lives(ss, s.session, s.window, s.pane),
        lives(ss, d.session, d.window, d.pane),
        s.session == d.session && s.window == d.window || roomy(ss, d.session, d.window),
    ensures
        forall|i: int, j: int| #[trigger] lives(taken_out(ss, s), i, j, d.pane) ==> roomy(taken_out(ss, s), i, j),
{
    let w = ss[s.session].windows[s.window];
    let t = taken_out(ss, s);
    assert(ss[s.session].wf());
    assert(w.settled());
    lemma_place_of(w.panes, s.pane, 0);
    assert forall|i: int, j: int| #[trigger] lives(t, i, j, d.pane) implies roomy(t, i, j) by {
        if w.panes.len() > 1 {
            if i == s.session && j == s.window {
                assert(t[i].windows[j].panes.len() == w.panes.len() - 1);
            } else {
                assert(t[i].windows[j] == ss[i].windows[j]);
                assert(lives(ss, i, j, d.pane));
            }
        } else if ss[s.session].windows.len() > 1 {
            let c = if i == s.session && j >= s.window {
                j + 1
            } else {
                j
            };
            assert(t[i].windows[j] == ss[i].windows[c]);
            assert(lives(ss, i, c, d.pane));
        } else {
            let c = if i >= s.session {
                i + 1
            } else {
                i
            };
            assert(t[i] == ss[c]);
            assert(lives(ss, c, j, d.pane));
        }
    }
}

/// After a pane moved and its new session was laid out, only the session it
/// came from may be out of date.
proof fn lemma_others_settled(
    ss: Seq<SessionState>,
    out: Seq<SessionState>,
    one: Seq<SessionState>,
    two: Seq<SessionState>,
    s: Place,
    beside: PaneId,
    i: int,
    sid: SessionId,
)
    requires
        sessions_wf(ss),
        apart(ss),
        lives(ss, s.session, s.window, s.pane),
        sid == ss[s.session].id,
        out == taken_out(ss, s),
        i == session_with(out, beside, 0),
        0 <= i < out.len(),
        one.len() == out.len(),
        forall|k: int| 0 <= k < out.len() && k != i ==> one[k] == out[k],
        two.len() == one.len(),
        forall|k: int| 0 <= k < one.len() && k != i ==> two[k] == one[k],
        two[i].wf(),
    ensures
        forall|k: int| 0 <= k < two.len() && (#[trigger] two[k]).id != sid ==> two[k].wf(),
        out.len() < ss.len() ==> forall|k: int| 0 <= k < two.len() ==> (#[trigger] two[k]).wf(),
{
    assert forall|k: int| 0 <= k < two.len() && ((#[trigger] two[k]).id != sid || out.len() < ss.len()) implies two[k].wf() by {
        if k != i {
            assert(two[k] == out[k]);
            if out.len() < ss.len() {
                let c = if k >= s.session {
                    k + 1
                } else {
                    k
                };
                assert(out[k] == ss[c]);
                assert(ss[c].wf());
            } else {
                assert(k != s.session);
                assert(out[k] == ss[k]);
                assert(ss[k].wf());
            }
        }
    }
}

} // verus!
