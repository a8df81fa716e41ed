//! New panes, windows and sessions. The program of a pane is started between
//! the two halves of each: what size it gets, and where it goes.
use vstd::prelude::*;

use crate::chooser::{SessionId, WindowId};
use crate::join::{cleared, lemma_cleared, too_small};
use crate::layout::{panes, PaneId, Rect};
use crate::moves::lemma_sound_of_wf;
use crate::pane::{at_least_one, Pane};
use crate::server::{apart, area_of, border_of, kept, killed_wf, lemma_session_place, lives, numbered_below, session_place, sessions_wf, stands, KilledState, Options, Place, Server};
use crate::server_edit::{at, edited, lemma_clients_stay, put_window, relaid};
use crate::session::{Session, SessionState};
use crate::text::{chars_of, decimal, joined2, number_text, same_text};
use crate::undo::{lemma_pane_added, roomy, window_around};
use crate::window::{lemma_laid_out, rect_in, Window, WindowState};
use crate::window_edit::{fresh, lemma_bounded_by, lemma_fresh, lemma_joined};

verus! {

/// The size of the new half of a cell.
pub open spec fn half_size(r: Rect, horizontal: bool) -> (u16, u16) {
    if horizontal {
        (at_least_one(((r.w - 1) / 2) as u16), at_least_one(r.h))
    } else {
        (at_least_one(r.w), at_least_one(((r.h - 1) / 2) as u16))
    }
}

/// The cell that a split divides: that of the pane, or with `full` all of the
/// window.
pub open spec fn split_cell(flat: Seq<SessionState>, opts: Options, p: Place, full: bool) -> Option<Rect> {
    let s = flat[p.session];
    if full {
        Some(area_of(opts, s.cols, s.rows))
    } else {
        rect_in(s.windows[p.window].cells, p.pane, 0)
    }
}

/// The window of place `p` with `new` split off.
pub open spec fn split_window(
    w: WindowState,
    pane: PaneId,
    horizontal: bool,
    full: bool,
    new: Pane,
    extent: int,
    before: bool,
) -> WindowState {
    if full {
        w.bounded_by(horizontal, new, extent, before)
    } else {
        w.joined(pane, horizontal, new, extent, before)
    }
}

/// The size on the screen of pane `id`, in cells.
pub open spec fn surface(w: WindowState, id: PaneId) -> int {
    match rect_in(w.cells, id, 0) {
        Some(r) => r.w * r.h,
        None => 0,
    }
}

/// The largest of the first `k` panes of a layout; of two as large the later
/// one.
pub open spec fn largest(w: WindowState, k: int) -> PaneId
    decreases k,
{
    let order = panes(w.tree);
    if k <= 1 {
        order[0]
    } else {
        let best = largest(w, k - 1);
        if surface(w, order[k - 1]) >= surface(w, best) {
            order[k - 1]
        } else {
            best
        }
    }
}

/// Whether a session's name is one that a target could not name.
pub open spec fn is_bad_name(name: Seq<char>) -> bool {
    name.len() == 0 || name.contains(':') || name.contains('.')
}

pub open spec fn name_taken(ss: Seq<SessionState>, name: Seq<char>) -> bool {
    exists|i: int| 0 <= i < ss.len() && (#[trigger] ss[i]).name == name
}

/// `i` is the first number that is no session's name.
pub open spec fn is_first_free(ss: Seq<SessionState>, i: nat) -> bool {
    &&& !name_taken(ss, decimal(i))
    &&& forall|j: nat| j < i ==> #[trigger] name_taken(ss, decimal(j))
}

/// A number written down and read again is that number.
proof fn lemma_decimals_apart(a: nat, b: nat)
    requires
        decimal(a) == decimal(b),
    ensures
        a == b,
{
    crate::text::lemma_decimal(a);
    crate::text::lemma_decimal(b);
}

/// The first `n` numbers, written down.
spec fn numerals(n: nat) -> Set<Seq<char>>
    decreases n,
{
    if n == 0 {
        Set::empty()
    } else {
        numerals((n - 1) as nat).insert(decimal((n - 1) as nat))
    }
}

proof fn lemma_numerals(n: nat)
    ensures
        numerals(n).finite(),
        numerals(n).len() == n,
        forall|s: Seq<char>| #[trigger] numerals(n).contains(s) ==> exists|j: nat| j < n && s == #[trigger] decimal(j),
    decreases n,
{
    if n > 0 {
        let m = (n - 1) as nat;
        lemma_numerals(m);
        assert(!numerals(m).contains(decimal(m))) by {
            if numerals(m).contains(decimal(m)) {
                let j = choose|j: nat| j < m && decimal(m) == #[trigger] decimal(j);
                lemma_decimals_apart(m, j);
            }
        }
        assert forall|s: Seq<char>| #[trigger] numerals(n).contains(s) implies exists|j: nat|
            j < n && s == #[trigger] decimal(j) by {
            if s != decimal(m) {
                assert(numerals(m).contains(s));
            }
        }
    }
}

/// There are more numbers than sessions.
proof fn lemma_some_number_free(ss: Seq<SessionState>)
    ensures
        exists|j: nat| j <= ss.len() && !#[trigger] name_taken(ss, decimal(j)),
{
    let names = ss.map_values(|s: SessionState| s.name);
    let n = (ss.len() + 1) as nat;
    lemma_numerals(n);
    names.lemma_cardinality_of_set();
    vstd::seq_lib::seq_to_set_is_finite(names);
    if forall|j: nat| j <= ss.len() ==> #[trigger] name_taken(ss, decimal(j)) {
        assert(numerals(n).subset_of(names.to_set())) by {
            assert forall|s: Seq<char>| #[trigger] numerals(n).contains(s) implies names.to_set().contains(s) by {
                let j = choose|j: nat| j < n && s == #[trigger] decimal(j);
                assert(name_taken(ss, decimal(j)));
                let i = choose|i: int| 0 <= i < ss.len() && (#[trigger] ss[i]).name == decimal(j);
                assert(names[i] == s);
            }
        }
        vstd::set_lib::lemma_len_subset(numerals(n), names.to_set());
        assert(false);
    }
}

/// A session with one window around `p`.
pub open spec fn fresh_session(
    opts: Options,
    id: SessionId,
    name: Seq<char>,
    wid: WindowId,
    window_name: Seq<char>,
    p: Pane,
    cols: u16,
    rows: u16,
    now: u64,
    created_at: i64,
) -> SessionState {
    let cols = at_least_one(cols);
    let rows = at_least_one(rows);
    SessionState {
        id,
        name,
        windows: seq![fresh(wid, window_name, p, now).laid_out(area_of(opts, cols, rows), border_of(opts))],
        cur: 0,
        last: None,
        cols,
        rows,
        created: now,
        last_used: now,
        created_at,
    }
}

/// A session that is new, with a window and a pane that are, may come last.
proof fn lemma_session_added(ss: Seq<SessionState>, s: SessionState, next: u32, ks: Seq<KilledState>)
    requires
        sessions_wf(ss),
        apart(ss),
        numbered_below(ss, next),
        killed_wf(ks, ss, next),
        s.wf(),
        s.windows.len() == 1,
        s.id < next,
        s.windows[0].id < next,
        forall|i: int| 0 <= i < ss.len() ==> (#[trigger] ss[i]).id != s.id,
        forall|a: int, b: int| !#[trigger] stands(ss, a, b, s.windows[0].id),
        forall|q: PaneId| #[trigger] s.windows[0].has(q) ==> q < next,
        forall|q: PaneId, a: int, b: int| #[trigger] s.windows[0].has(q) ==> !#[trigger] lives(ss, a, b, q),
        forall|q: PaneId, a: int| #[trigger] s.windows[0].has(q) ==> !#[trigger] kept(ks, a, q),
        forall|a: int|
            0 <= a < ks.len() ==> match #[trigger] ks[a] {
                KilledState::Window { window, .. } => window.id != s.windows[0].id,
                _ => true,
            },
    ensures
        sessions_wf(ss.push(s)),
        apart(ss.push(s)),
        numbered_below(ss.push(s), next),
        killed_wf(ks, ss.push(s), next),
{
    let t = ss.push(s);
    let n = ss.len() as int;
    let w = s.windows[0];
    assert forall|x: int, y: int, q: PaneId| #[trigger] lives(t, x, y, q) implies (if x == n {
        y == 0 && w.has(q)
    } else {
        lives(ss, x, y, q)
    }) by {}
    assert forall|x: int, y: int, q: WindowId| #[trigger] stands(t, x, y, q) implies (if x == n {
        y == 0 && w.id == q
    } else {
        stands(ss, x, y, q)
    }) by {}
    assert forall|x: int, y: int, u: int, v: int, q: PaneId| #[trigger] lives(t, x, y, q) && #[trigger] lives(
        t,
        u,
        v,
        q,
    ) implies x == u && y == v by {
        if x == n && u != n {
            assert(w.has(q) && lives(ss, u, v, q));
        } else if x != n && u == n {
            assert(w.has(q) && lives(ss, x, y, q));
        } else if x != n {
            assert(lives(ss, x, y, q) && lives(ss, u, v, q));
        }
    }
    assert forall|x: int, y: int, u: int, v: int, q: WindowId| #[trigger] stands(t, x, y, q) && #[trigger] stands(
        t,
        u,
        v,
        q,
    ) implies x == u && y == v by {
        if x == n && u != n {
            assert(stands(ss, u, v, w.id));
        } else if x != n && u == n {
            assert(stands(ss, x, y, w.id));
        } else if x != n {
            assert(stands(ss, x, y, q) && stands(ss, u, v, q));
        }
    }
    assert forall|x: int, y: int| 0 <= x < y < t.len() implies (#[trigger] t[x]).id != (#[trigger] t[y]).id by {
        assert(t[x] == ss[x]);
        if y < n {
            assert(ss[x].id != ss[y].id);
        }
    }
    assert forall|k: int, x: int, y: int, q: PaneId| #[trigger] kept(ks, k, q) implies !#[trigger] lives(t, x, y, q) by {
        if lives(t, x, y, q) {
            if x == n {
                assert(w.has(q));
            } else {
                assert(lives(ss, x, y, q));
            }
        }
    }
    assert forall|k: int, x: int, y: int|
        0 <= k < ks.len() && 0 <= x < t.len() && 0 <= y < t[x].windows.len() implies match #[trigger] ks[k] {
        KilledState::Window { window, .. } => (#[trigger] t[x].windows[y]).id != window.id,
        _ => true,
    } by {
        if x < n {
            assert(t[x] == ss[x]);
            assert(ss[x].windows[y].id == t[x].windows[y].id);
        }
    }
}

impl Server {
    /// The next number.
    pub fn alloc_id(&mut self) -> (id: u32)
        requires
            old(self).next_id < u32::MAX,
        ensures
            id == old(self).next_id,
            final(self).next_id == old(self).next_id + 1,
            *final(self) == (Server { next_id: final(self).next_id, ..*old(self) }),
            old(self).wf() ==> final(self).wf(),
    {
        let id: u32 = self.next_id;
        self.next_id = id + 1;
        id
    }

    /// Where and how large the new half is when pane `pid` of a window (or,
    /// with `full`, the whole window) is split: the cell that is divided, and
    /// the new pane's columns and rows. A zoomed window is unzoomed first so
    /// the cells are real.
    pub fn plan_split(&mut self, i: usize, j: usize, pid: PaneId, horizontal: bool, full: bool) -> (r: Result<
        (Rect, u16, u16),
        String,
    >)
        requires
            old(self).wf(),
            at(old(self).states(), i as int, j as int),
        ensures
            final(self).wf(),
            ({
                let p = Place { session: i as int, window: j as int, pane: pid };
                let flat = cleared(old(self).states(), old(self).opts, p);
                &&& final(self).states() == flat
                &&& *final(self) == (Server { sessions: final(self).sessions, ..*old(self) })
                &&& match split_cell(flat, old(self).opts, p, full) {
                    None => r is Err && r->Err_0@ == "pane has no layout"@,
                    Some(c) => if too_small(c, horizontal, border_of(old(self).opts)) {
                        r is Err && r->Err_0@ == "pane too small to split"@
                    } else {
                        r is Ok && (r->Ok_0).0 == c && (r->Ok_0).1 == half_size(c, horizontal).0 && (r->Ok_0).2
                            == half_size(c, horizontal).1
                    },
                }
            }),
    {
        let ghost ss = self.states();
        self.clear_zoom(i, j);
        proof {
            lemma_cleared(ss, self.opts, Place { session: i as int, window: j as int, pane: 0 });
            assert(at(self.states(), i as int, j as int)) by {
                assert(at(ss, i as int, j as int));
            }
            assert(self.states()[i as int] == self.sessions@[i as int]@);
            assert(self.states()[i as int].windows[j as int] == self.sessions@[i as int].windows@[j as int]@);
        }
        let cell: Rect = if full {
            self.window_area(self.sessions[i].cols, self.sessions[i].rows)
        } else {
            match self.sessions[i].windows[j].layout_rect(pid) {
                Some(r) => r,
                None => {
                    return Err("pane has no layout".to_owned());
                },
            }
        };
        // Each half needs a row of content, plus its border row.
        let least: u16 = if self.border_rows().is_some() { 5 } else { 3 };
        if (horizontal && cell.w < 3) || (!horizontal && cell.h < least) {
            return Err("pane too small to split".to_owned());
        }
        let w: u16 = if horizontal { (cell.w - 1) / 2 } else { cell.w };
        let h: u16 = if horizontal { cell.h } else { (cell.h - 1) / 2 };
        Ok((cell, if w == 0 { 1 } else { w }, if h == 0 { 1 } else { h }))
    }

    /// Put a new pane where a split was planned. Focus is the caller's.
    pub fn place_split(
        &mut self,
        i: usize,
        j: usize,
        pid: PaneId,
        horizontal: bool,
        full: bool,
        before: bool,
        cell: Rect,
        pane: Pane,
    )
        requires
            old(self).wf(),
            lives(old(self).states(), i as int, j as int, pid),
            roomy(old(self).states(), i as int, j as int),
            pane.id < old(self).next_id,
            forall|a: int, b: int| !#[trigger] lives(old(self).states(), a, b, pane.id),
            forall|a: int| !#[trigger] kept(old(self).killed_list(), a, pane.id),
        ensures
            final(self).wf(),
            final(self).states() == relaid(
                edited(
                    old(self).states(),
                    i as int,
                    j as int,
                    split_window(
                        old(self).states()[i as int].windows[j as int],
                        pid,
                        horizontal,
                        full,
                        pane,
                        cell.extent(horizontal),
                        before,
                    ),
                ),
                i as int,
                old(self).opts,
            ),
            *final(self) == (Server { sessions: final(self).sessions, ..*old(self) }),
    {
        let ghost ss = self.states();
        let ghost w = ss[i as int].windows[j as int];
        let ghost after = split_window(w, pid, horizontal, full, pane, cell.extent(horizontal), before);
        proof {
            lemma_sound_of_wf(ss);
            assert(ss[i as int] == self.sessions@[i as int]@);
            assert(ss[i as int].wf());
            assert(w == self.sessions@[i as int].windows@[j as int]@);
            assert(w.settled());
            assert(at(ss, i as int, j as int));
            assert(!lives(ss, i as int, j as int, pane.id));
            lemma_joined(w, pid, horizontal, pane, cell.extent(horizontal), before);
            lemma_bounded_by(w, horizontal, pane, cell.extent(horizontal), before);
            lemma_pane_added(ss, i as int, j as int, after, pane.id, self.next_id, self.killed_list());
        }
        if full {
            self.sessions[i].windows[j].bound(horizontal, pane, cell, before);
        } else {
            self.sessions[i].windows[j].join(pid, horizontal, pane, cell, before);
        }
        proof {
            assert(self.sessions@[i as int]@ =~= put_window(ss[i as int], j as int, after));
            assert(self.states() =~= edited(ss, i as int, j as int, after));
            lemma_clients_stay(self.clients@, ss, self.states());
        }
        self.relayout_at(i);
    }

    /// The pane of a window that a further split divides: the largest.
    pub fn largest_pane(&self, i: usize, j: usize) -> (id: PaneId)
        requires
            self.wf(),
            at(self.states(), i as int, j as int),
        ensures
            id == largest(
                self.states()[i as int].windows[j as int],
                panes(self.states()[i as int].windows[j as int].tree).len() as int,
            ),
            lives(self.states(), i as int, j as int, id),
    {
        let ghost w = self.states()[i as int].windows[j as int];
        proof {
            assert(self.states()[i as int] == self.sessions@[i as int]@);
            assert(self.states()[i as int].wf());
            assert(w == self.sessions@[i as int].windows@[j as int]@);
            assert(w.settled());
            assert(panes(w.tree).contains(w.active));
        }
        let order = self.sessions[i].windows[j].layout.panes();
        let mut best: PaneId = order[0];
        let mut size: u32 = self.cells_of(i, j, best);
        let mut k: usize = 1;
        assert(panes(w.tree).contains(best)) by {
            assert(order@[0] == best);
        }
        while k < order.len()
            invariant
                1 <= k <= order@.len(),
                i < self.sessions@.len(),
                j < self.sessions@[i as int].windows@.len(),
                w == self.sessions@[i as int].windows@[j as int]@,
                w.settled(),
                order@ == panes(w.tree),
                best == largest(w, k as int),
                size == surface(w, best),
                panes(w.tree).contains(best),
            decreases order.len() - k,
        {
            let s: u32 = self.cells_of(i, j, order[k]);
            if s >= size {
                best = order[k];
                size = s;
                assert(panes(w.tree).contains(best)) by {
                    assert(order@[k as int] == best);
                }
            }
            k = k + 1;
        }
        best
    }

    fn cells_of(&self, i: usize, j: usize, id: PaneId) -> (n: u32)
        requires
            i < self.sessions@.len(),
            j < self.sessions@[i as int].windows@.len(),
        ensures
            n == surface(self.sessions@[i as int].windows@[j as int]@, id),
    {
        match self.sessions[i].windows[j].layout_rect(id) {
            Some(r) => {
                assert(r.w * r.h <= 65535 * 65535) by (nonlinear_arith)
                    requires
                        r.w <= 65535,
                        r.h <= 65535,
                ;
                r.w as u32 * r.h as u32
            },
            None => 0,
        }
    }

    /// `new-window`: a window around `pane` in session `i`; with `detached`
    /// the session keeps looking where it looked.
    pub fn new_window(&mut self, i: usize, pane: Pane, name: Option<String>, detached: bool, now: u64) -> (idx: usize)
        requires
            old(self).wf(),
            i < old(self).states().len(),
            old(self).next_id < u32::MAX,
            pane.id < old(self).next_id,
            forall|a: int, b: int| !#[trigger] lives(old(self).states(), a, b, pane.id),
            forall|a: int| !#[trigger] kept(old(self).killed_list(), a, pane.id),
        ensures
            final(self).wf(),
            idx == old(self).states()[i as int].windows.len(),
            ({
                let s = old(self).states()[i as int];
                let w = window_around(
                    s,
                    old(self).opts,
                    old(self).next_id,
                    match name {
                        Some(n) => n@,
                        None => pane.command@,
                    },
                    pane,
                    now,
                );
                final(self).states() == old(self).states().update(
                    i as int,
                    if detached {
                        SessionState { windows: s.windows.push(w), ..s }
                    } else {
                        s.with_window(w)
                    },
                )
            }),
            final(self).next_id == old(self).next_id + 1,
            *final(self) == (Server { sessions: final(self).sessions, next_id: final(self).next_id, ..*old(self) }),
    {
        let ghost ss = self.states();
        assert(ss[i as int] == self.sessions@[i as int]@);
        let cur: usize = self.sessions[i].cur;
        let last: Option<WindowId> = self.sessions[i].last;
        let idx: usize = self.add_window(i, pane, name, now);
        if detached {
            let ghost mid = self.states();
            proof {
                assert(mid[i as int] == self.sessions@[i as int]@);
                assert(mid[i as int].wf());
                lemma_sound_of_wf(mid);
            }
            self.sessions[i].cur = cur;
            self.sessions[i].last = last;
            proof {
                let s = self.sessions@[i as int]@;
                assert(ss[i as int].wf());
                assert(s =~= (SessionState { cur: cur as int, last, ..mid[i as int] }));
                assert(self.states() =~= mid.update(i as int, s));
                assert(s.wf());
                crate::server_edit::lemma_relaid(mid, i as int, s, self.next_id, self.killed_list());
                lemma_clients_stay(self.clients@, mid, self.states());
            }
        }
        idx
    }

    /// The name a new session gets: the one given, unless it is bad or taken,
    /// or the first number that is no session's name.
    pub fn session_name(&self, name: Option<String>) -> (r: Result<String, String>)
        ensures
            match name {
                Some(n) => if is_bad_name(n@) {
                    r is Err && r->Err_0@ == "bad session name: "@ + n@
                } else if name_taken(self.states(), n@) {
                    r is Err && r->Err_0@ == "duplicate session: "@ + n@
                } else {
                    r is Ok && r->Ok_0@ == n@
                },
                None => r is Ok && exists|i: nat| #[trigger] is_first_free(self.states(), i) && r->Ok_0@ == decimal(i),
            },
    {
        match name {
            Some(n) => {
                if bad_name(n.as_str()) {
                    return Err(joined2("bad session name: ", n.as_str()));
                }
                if self.taken(n.as_str()) {
                    return Err(joined2("duplicate session: ", n.as_str()));
                }
                Ok(n)
            },
            None => {
                let n: usize = self.sessions.len();
                let mut i: usize = 0;
                while i < n
                    invariant
                        i <= n == self.sessions@.len(),
                        name is None,
                        forall|j: nat| j < i ==> #[trigger] name_taken(self.states(), decimal(j)),
                    decreases n - i,
                {
                    let word = number_text(i as u64);
                    if !self.taken(word.as_str()) {
                        assert(is_first_free(self.states(), i as nat));
                        return Ok(word);
                    }
                    i = i + 1;
                }
                proof {
                    lemma_some_number_free(self.states());
                    assert(is_first_free(self.states(), i as nat));
                }
                Ok(number_text(i as u64))
            },
        }
    }

    pub fn taken(&self, name: &str) -> (b: bool)
        ensures
            b == name_taken(self.states(), name@),
    {
        let mut i: usize = 0;
        while i < self.sessions.len()
            invariant
                i <= self.sessions@.len(),
                forall|j: int| 0 <= j < i ==> (#[trigger] self.states()[j]).name != name@,
            decreases self.sessions.len() - i,
        {
            assert(self.states()[i as int] == self.sessions@[i as int]@);
            if same_text(self.sessions[i].name.as_str(), name) {
                assert(self.states()[i as int].name == name@);
                return true;
            }
            i = i + 1;
        }
        false
    }

    /// A new session with number `id`, whose first window is around `pane`.
    pub fn add_session(
        &mut self,
        id: SessionId,
        name: String,
        window_name: Option<String>,
        pane: Pane,
        cols: u16,
        rows: u16,
        now: u64,
        created_at: i64,
    )
        requires
            old(self).wf(),
            old(self).next_id < u32::MAX,
            id < old(self).next_id,
            session_place(old(self).states(), id, 0) >= old(self).states().len(),
            pane.id < old(self).next_id,
            forall|a: int, b: int| !#[trigger] lives(old(self).states(), a, b, pane.id),
            forall|a: int| !#[trigger] kept(old(self).killed_list(), a, pane.id),
        ensures
            final(self).wf(),
            final(self).states() == old(self).states().push(
                fresh_session(
                    old(self).opts,
                    id,
                    name@,
                    old(self).next_id,
                    match window_name {
                        Some(n) => n@,
                        None => pane.command@,
                    },
                    pane,
                    cols,
                    rows,
                    now,
                    created_at,
                ),
            ),
            final(self).next_id == old(self).next_id + 1,
            *final(self) == (Server {
                sessions: final(self).sessions,
                next_id: final(self).next_id,
                had_session: true,
                ..*old(self)
            }),
    {
        let ghost ss = self.states();
        let ghost ks = self.killed_list();
        let cols: u16 = if cols == 0 { 1 } else { cols };
        let rows: u16 = if rows == 0 { 1 } else { rows };
        let area = self.window_area(cols, rows);
        let border = self.border_rows();
        let wid: WindowId = self.next_id;
        self.next_id = self.next_id + 1;
        let window_name = match window_name {
            Some(n) => n,
            None => pane.command.as_str().to_owned(),
        };
        let ghost p = pane;
        let mut w = Window::around(wid, window_name, pane, now);
        proof {
            lemma_fresh(wid, window_name@, p, now);
            lemma_laid_out(w@, area, border);
        }
        w.relayout(area, border);
        let ghost added = w@;
        let mut windows: Vec<Window> = Vec::new();
        windows.push(w);
        let s = Session {
            id,
            name,
            windows,
            cur: 0,
            last: None,
            cols,
            rows,
            created: now,
            last_used: now,
            created_at,
        };
        let ghost new = s@;
        self.sessions.push(s);
        self.had_session = true;
        proof {
            assert(new.windows =~= seq![added]);
            assert(self.states() =~= ss.push(new));
            assert(new.wf());
            assert forall|q: PaneId| #[trigger] added.has(q) implies q == p.id by {
                assert(fresh(wid, window_name@, p, now).has(q));
            }
            assert forall|a: int, b: int| !#[trigger] stands(ss, a, b, wid) by {
                if stands(ss, a, b, wid) {
                    assert(wid < old(self).next_id);
                }
            }
            lemma_session_place(ss, id, 0);
            lemma_session_added(ss, new, self.next_id, ks);
            assert forall|c: int| 0 <= c < self.clients@.len() && (#[trigger] self.clients@[c]).session is Some implies
                session_place(self.states(), self.clients@[c].session->0, 0) < self.states().len() by {
                let sid = self.clients@[c].session->0;
                lemma_session_place(ss, sid, 0);
                lemma_session_place(self.states(), sid, 0);
                let k = session_place(ss, sid, 0);
                assert(self.states()[k].id == sid);
            }
        }
    }
}

pub fn bad_name(name: &str) -> (b: bool)
    ensures
        b == is_bad_name(name@),
{
    let s = chars_of(name);
    if s.len() == 0 {
        return true;
    }
    let mut i: usize = 0;
    while i < s.len()
        invariant
            i <= s@.len(),
            s@ == name@,
            forall|j: int| 0 <= j < i ==> s@[j] != ':' && s@[j] != '.',
        decreases s.len() - i,
    {
        if s[i] == ':' || s[i] == '.' {
            assert(name@[i as int] == s@[i as int]);
            return true;
        }
        i = i + 1;
    }
    false
}

} // verus!
