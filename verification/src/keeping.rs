//! What is kept of windows and panes beyond their life: the places of their
//! history logs, how much of their output is saved, and windows that come
//! back.
use vstd::prelude::*;

use crate::chooser::ClientId;
use crate::command::Target;
use crate::layout::{panes, shape, Node, PaneId};
use crate::pane::Pane;
use crate::screen::{capture_from, lines_from, row_values, string_values, without_blank_tail, Row};
use crate::server::{aimed, apart, kept, killed_wf, lives, numbered_below, place_for, session_with, stands, KilledState, Options, Server};
use crate::server_edit::{at, edited, lemma_clients_stay, put_window, relaid, sessions_sound};
use crate::session::{window_with, SessionState};
use crate::window::{ids, Window, WindowState};

verus! {

/// The place of a pane's history log: its session's name, and the numbers of
/// its window and of its place there.
#[derive(Debug)]
pub struct LogPlace {
    pub pane: PaneId,
    pub session: String,
    pub window: u128,
    pub place: u128,
}

/// Log places as mathematics.
pub open spec fn log_values(v: Seq<LogPlace>) -> Seq<(PaneId, Seq<char>, int, int)> {
    Seq::new(v.len(), |i: int| (v[i].pane, v[i].session@, v[i].window as int, v[i].place as int))
}

/// The log places of a window's panes.
pub open spec fn window_logs(s: SessionState, j: int, opts: Options, k: int) -> Seq<(PaneId, Seq<char>, int, int)> {
    Seq::new(
        k as nat,
        |i: int| (panes(s.windows[j].tree)[i], s.name, j + opts.base_index, i + opts.pane_base_index),
    )
}

/// The log places of the first `k` windows of a session.
pub open spec fn session_logs(s: SessionState, opts: Options, k: int) -> Seq<(PaneId, Seq<char>, int, int)>
    decreases k,
{
    if k <= 0 {
        Seq::empty()
    } else {
        session_logs(s, opts, k - 1) + window_logs(s, k - 1, opts, panes(s.windows[k - 1].tree).len() as int)
    }
}

/// The log places of the first `k` sessions.
pub open spec fn all_logs(ss: Seq<SessionState>, opts: Options, k: int) -> Seq<(PaneId, Seq<char>, int, int)>
    decreases k,
{
    if k <= 0 {
        Seq::empty()
    } else {
        all_logs(ss, opts, k - 1) + session_logs(ss[k - 1], opts, ss[k - 1].windows.len() as int)
    }
}

impl Server {
    fn push_logs(&self, out: &mut Vec<LogPlace>, i: usize, j: usize)
        requires
            i < self.sessions@.len(),
            j < self.states()[i as int].windows.len(),
        ensures
            log_values(final(out)@) == log_values(old(out)@) + window_logs(
                self.states()[i as int],
                j as int,
                self.opts,
                panes(self.states()[i as int].windows[j as int].tree).len() as int,
            ),
    {
        let ghost s = self.states()[i as int];
        let ghost start = log_values(out@);
        assert(s == self.sessions@[i as int]@);
        assert(s.windows[j as int] == self.sessions@[i as int].windows@[j as int]@);
        let order = self.sessions[i].windows[j].layout.panes();
        let mut k: usize = 0;
        assert(start + window_logs(s, j as int, self.opts, 0) =~= start);
        while k < order.len()
            invariant
                k <= order@.len(),
                i < self.sessions@.len(),
                s == self.sessions@[i as int]@,
                order@ == panes(s.windows[j as int].tree),
                log_values(out@) == start + window_logs(s, j as int, self.opts, k as int),
            decreases order.len() - k,
        {
            let ghost before = log_values(out@);
            out.push(
                LogPlace {
                    pane: order[k],
                    session: self.sessions[i].name.as_str().to_owned(),
                    window: j as u128 + self.opts.base_index as u128,
                    place: k as u128 + self.opts.pane_base_index as u128,
                },
            );
            let ghost row = (order@[k as int], s.name, j + self.opts.base_index, k + self.opts.pane_base_index);
            assert(log_values(out@) =~= before.push(row));
            k = k + 1;
            assert(window_logs(s, j as int, self.opts, k as int) =~= window_logs(s, j as int, self.opts, k - 1).push(row));
            assert(log_values(out@) =~= start + window_logs(s, j as int, self.opts, k as int));
        }
    }

    /// Where the history log of every pane is.
    pub fn history_places(&self) -> (out: Vec<LogPlace>)
        ensures
            log_values(out@) == all_logs(self.states(), self.opts, self.states().len() as int),
    {
        let mut out: Vec<LogPlace> = Vec::new();
        let ghost ss = self.states();
        let mut i: usize = 0;
        assert(log_values(out@) =~= Seq::empty());
        while i < self.sessions.len()
            invariant
                i <= self.sessions@.len(),
                ss == self.states(),
                log_values(out@) == all_logs(ss, self.opts, i as int),
            decreases self.sessions.len() - i,
        {
            let ghost start = log_values(out@);
            let ghost s = ss[i as int];
            assert(s == self.sessions@[i as int]@);
            let mut j: usize = 0;
            assert(start + Seq::<(PaneId, Seq<char>, int, int)>::empty() =~= start);
            while j < self.sessions[i].windows.len()
                invariant
                    i < self.sessions@.len(),
                    s == self.sessions@[i as int]@,
                    s == self.states()[i as int],
                    j <= self.sessions@[i as int].windows@.len() == s.windows.len(),
                    log_values(out@) == start + session_logs(s, self.opts, j as int),
                decreases self.sessions@[i as int].windows@.len() - j,
            {
                let ghost so_far = session_logs(s, self.opts, j as int);
                let ghost more = window_logs(s, j as int, self.opts, panes(s.windows[j as int].tree).len() as int);
                self.push_logs(&mut out, i, j);
                assert((start + so_far) + more =~= start + (so_far + more));
                j = j + 1;
            }
            i = i + 1;
        }
        out
    }
}

/// The last `want` rows of a pane, as they are saved with its session.
pub fn saved_lines(rows: &Vec<Row>, want: usize) -> (out: Vec<String>)
    ensures
        string_values(out@) == if want == 0 {
            Seq::empty()
        } else {
            without_blank_tail(
                capture_from(
                    row_values(rows@),
                    if rows@.len() > want {
                        rows@.len() - want
                    } else {
                        0
                    },
                    false,
                    Seq::empty(),
                    false,
                ),
            )
        },
{
    if want == 0 {
        let out: Vec<String> = Vec::new();
        assert(string_values(out@) =~= Seq::empty());
        return out;
    }
    let from: usize = if rows.len() > want { rows.len() - want } else { 0 };
    lines_from(rows, from, false)
}

/// Whether the output of panes is saved again now: on a slow beat, rather
/// than whenever something printed.
pub fn saves_history(want: usize, last: Option<u64>, now: u64) -> (b: bool)
    ensures
        b == (want > 0 && match last {
            Some(t) => now > t && now - t > 30_000,
            None => true,
        }),
{
    want > 0 && match last {
        Some(t) => now > t && now - t > 30_000,
        None => true,
    }
}

/// Whether what clears out old logs runs now: once a day.
pub fn prunes(on: bool, last: Option<u64>, now: u64) -> (b: bool)
    ensures
        b == (on && match last {
            Some(t) => now >= t && now - t >= 86_400_000,
            None => true,
        }),
{
    on && match last {
        Some(t) => now >= t && now - t >= 86_400_000,
        None => true,
    }
}

/// Whether a command of the status line runs now: not while it runs, and
/// again only when the interval is over.
pub fn runs_status_shell(running: bool, known: bool, last: Option<u64>, interval: u64, now: u64) -> (b: bool)
    ensures
        b == (!running && (!known || match last {
            Some(t) => now >= t && now - t >= 1000 * (if interval > 1 {
                interval as int
            } else {
                1
            }),
            None => true,
        })),
{
    let every: u64 = if interval > 1 { interval } else { 1 };
    let due: bool = match last {
        Some(t) => now >= t && (now - t) as u128 >= 1000 * (every as u128),
        None => true,
    };
    !running && (!known || due)
}

/// A window with other panes, as a saved one comes back.
pub open spec fn rebuilt(w: WindowState, v: Seq<Pane>, tree: crate::layout::Tree, active: usize, zoomed: bool) -> WindowState {
    WindowState {
        panes: v,
        tree,
        active: if active < panes(tree).len() {
            panes(tree)[active as int]
        } else {
            panes(tree)[0]
        },
        last_pane: None,
        zoomed: zoomed && v.len() > 1,
        ..w
    }
}

proof fn lemma_window_replaced(
    ss: Seq<SessionState>,
    i: int,
    j: int,
    w: WindowState,
    next: u32,
    ks: Seq<KilledState>,
)
    requires
        sessions_sound(ss),
        apart(ss),
        numbered_below(ss, next),
        killed_wf(ks, ss, next),
        at(ss, i, j),
        w.wf(),
        w.id == ss[i].windows[j].id,
        forall|q: PaneId| #[trigger] w.has(q) ==> q < next,
        forall|q: PaneId, a: int, b: int| #[trigger] w.has(q) ==> !#[trigger] lives(ss, a, b, q),
        forall|q: PaneId, a: int| #[trigger] w.has(q) ==> !#[trigger] kept(ks, a, q),
    ensures
        sessions_sound(edited(ss, i, j, w)),
        apart(edited(ss, i, j, w)),
        numbered_below(edited(ss, i, j, w), next),
        killed_wf(ks, edited(ss, i, j, w), next),
{
    let b = edited(ss, i, j, w);
    assert forall|x: int, y: int, q: PaneId| #[trigger] lives(b, x, y, q) implies (lives(ss, x, y, q) && !(x == i && y
        == j)) || (w.has(q) && x == i && y == j) by {}
    assert forall|x: int, y: int, q: crate::chooser::WindowId| #[trigger] stands(b, x, y, q) implies stands(ss, x, y, q) by {}
    assert forall|x: int, y: int, u: int, v: int, q: PaneId| #[trigger] lives(b, x, y, q) && #[trigger] lives(
        b,
        u,
        v,
        q,
    ) implies x == u && y == v by {
        if w.has(q) {
            assert(!lives(ss, x, y, q) && !lives(ss, u, v, q));
        } else {
            assert(lives(ss, x, y, q) && lives(ss, u, v, q));
        }
    }
    assert forall|x: int, y: int, u: int, v: int, q: crate::chooser::WindowId| #[trigger] stands(b, x, y, q) && #[trigger] stands(
        b,
        u,
        v,
        q,
    ) implies x == u && y == v by {
        assert(stands(ss, x, y, q) && stands(ss, u, v, q));
    }
    assert forall|x: int, y: int| 0 <= x < y < b.len() implies (#[trigger] b[x]).id != (#[trigger] b[y]).id by {
        assert(ss[x].id != ss[y].id);
    }
    assert forall|x: int| 0 <= x < b.len() implies (#[trigger] b[x]).id < next by {
        assert(ss[x].id < next);
    }
    assert forall|x: int, y: int, q: PaneId| #[trigger] lives(b, x, y, q) implies q < next by {
        if !w.has(q) {
            assert(lives(ss, x, y, q));
        } else {
            assert(w.has(q));
        }
    }
    assert forall|a: int, x: int, y: int, q: PaneId| #[trigger] kept(ks, a, q) implies !#[trigger] lives(b, x, y, q) by {
        assert(!lives(ss, x, y, q));
        if lives(b, x, y, q) && w.has(q) {
            assert(!kept(ks, a, q));
        }
    }
    assert forall|a: int, x: int, y: int|
        0 <= a < ks.len() && 0 <= x < b.len() && 0 <= y < b[x].windows.len() implies match #[trigger] ks[a] {
        KilledState::Window { window, .. } => (#[trigger] b[x].windows[y]).id != window.id,
        _ => true,
    } by {
        assert(ss[x].windows[y].id == b[x].windows[y].id);
    }
    assert forall|x: int| 0 <= x < b.len() implies (#[trigger] b[x]).sound() by {
        assert(ss[x].sound());
        if x == i {
            let s = b[i];
            assert forall|y: int| 0 <= y < s.windows.len() implies (#[trigger] s.windows[y]).wf() by {
                if y != j {
                    assert(ss[i].windows[y].wf());
                }
            }
            assert forall|y: int, z: int| 0 <= y < z < s.windows.len() implies (#[trigger] s.windows[y]).id != (
            #[trigger] s.windows[z]).id by {
                assert(ss[i].windows[y].id != ss[i].windows[z].id);
            }
        }
    }
}

impl Server {
    /// A saved window comes back in place of one that was just made: its
    /// panes, its layout, and which pane is active.
    #[verifier::spinoff_prover]
    pub fn rebuild_window(
        &mut self,
        i: usize,
        j: usize,
        list: Vec<Pane>,
        layout: Node,
        active: usize,
        zoomed: bool,
    ) -> (before: Vec<Pane>)
        requires
            old(self).wf(),
            at(old(self).states(), i as int, j as int),
            0 < list@.len() <= u16::MAX,
            shape(layout@),
            panes(layout@) == ids(list@),
            ids(list@).no_duplicates(),
            forall|k: int| 0 <= k < list@.len() ==> (#[trigger] list@[k]).id < old(self).next_id,
            forall|k: int, a: int, b: int|
                0 <= k < list@.len() ==> !#[trigger] lives(old(self).states(), a, b, (#[trigger] list@[k]).id),
            forall|k: int, a: int|
                0 <= k < list@.len() ==> !#[trigger] kept(old(self).killed_list(), a, (#[trigger] list@[k]).id),
        ensures
            final(self).wf(),
            before@ == old(self).states()[i as int].windows[j as int].panes,
            final(self).states() == relaid(
                edited(
                    old(self).states(),
                    i as int,
                    j as int,
                    rebuilt(
                        old(self).states()[i as int].windows[j as int],
                        list@,
                        layout@,
                        active,
                        zoomed,
                    ),
                ),
                i as int,
                old(self).opts,
            ),
            *final(self) == (Server { sessions: final(self).sessions, ..*old(self) }),
    {
        let ghost ss = self.states();
        let ghost w = ss[i as int].windows[j as int];
        let ghost v = list@;
        let ghost tree = layout@;
        let ghost after = rebuilt(w, v, tree, active, zoomed);
        let order = layout.panes();
        proof {
            assert(ids(v).len() == v.len());
            assert(order@.len() == v.len());
        }
        let first: PaneId = if active < order.len() { order[active] } else { order[0] };
        proof {
            crate::moves::lemma_sound_of_wf(ss);
            assert(ss[i as int] == self.sessions@[i as int]@);
            assert(w == self.sessions@[i as int].windows@[j as int]@);
            assert(first == after.active);
            assert(ids(v).contains(first)) by {
                let k = if active < order@.len() {
                    active as int
                } else {
                    0
                };
                assert(ids(v)[k] == first);
            }
            assert(after.wf());
            assert forall|q: PaneId| #[trigger] after.has(q) implies q < self.next_id by {
                let k = choose|k: int| 0 <= k < ids(v).len() && ids(v)[k] == q;
                assert(v[k].id == q);
            }
            assert forall|q: PaneId, a: int, b: int| #[trigger] after.has(q) implies !#[trigger] lives(ss, a, b, q) by {
                let k = choose|k: int| 0 <= k < ids(v).len() && ids(v)[k] == q;
                assert(v[k].id == q);
            }
            assert forall|q: PaneId, a: int| #[trigger] after.has(q) implies !#[trigger] kept(self.killed_list(), a, q) by {
                let k = choose|k: int| 0 <= k < ids(v).len() && ids(v)[k] == q;
                assert(v[k].id == q);
            }
            lemma_window_replaced(ss, i as int, j as int, after, self.next_id, self.killed_list());
        }
        let zoom: bool = zoomed && list.len() > 1;
        let mut gone: Vec<Pane> = list;
        std::mem::swap(&mut self.sessions[i].windows[j].panes, &mut gone);
        self.sessions[i].windows[j].layout = layout;
        self.sessions[i].windows[j].active = first;
        self.sessions[i].windows[j].last_pane = None;
        self.sessions[i].windows[j].zoomed = zoom;
        proof {
            assert(self.sessions@[i as int].windows@[j as int]@ =~= after);
            assert(self.sessions@[i as int]@ =~= put_window(ss[i as int], j as int, after));
            assert(self.states() =~= edited(ss, i as int, j as int, after));
            lemma_clients_stay(self.clients@, ss, self.states());
        }
        self.relayout_at(i);
        gone
    }

    /// Which pane `join-pane` moves: the one named, else the one marked.
    pub fn join_source(&self, src: Option<&Target>, cid: Option<ClientId>) -> (r: Result<(usize, usize, PaneId), String>)
        requires
            self.wf(),
        ensures
            ({
                let ss = self.states();
                let marked = self.marked is Some && session_with(ss, self.marked->0, 0) < ss.len();
                if src is None && marked {
                    let id = self.marked->0;
                    let i = session_with(ss, id, 0);
                    r is Ok && r->Ok_0 == (i as usize, window_with(ss[i].windows, id, 0) as usize, id) && lives(
                        ss,
                        i,
                        window_with(ss[i].windows, id, 0),
                        id,
                    )
                } else {
                    match (r, place_for(ss, self.clients@, self.opts, aimed(src), cid)) {
                        (Ok(a), Ok(b)) => a.0 == b.session && a.1 == b.window && a.2 == b.pane && lives(
                            ss,
                            b.session,
                            b.window,
                            b.pane,
                        ),
                        (Err(a), Err(b)) => a@ == b,
                        _ => false,
                    }
                }
            }),
    {
        if src.is_none() {
            if let Some(id) = self.marked {
                if let Some((i, j)) = self.place_of_pane(id) {
                    return Ok((i, j, id));
                }
            }
        }
        self.find_place(src, cid)
    }
}

} // verus!
