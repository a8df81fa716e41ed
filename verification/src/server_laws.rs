//! What commands find, move, kill and bring back.
use vstd::prelude::*;

use crate::client::Client;
use crate::chooser::{ClientId, SessionId, WindowId};
use crate::command::{Dir, Target};
use crate::edit::others;
use crate::endings::trimmed_kills;
use crate::kills::{sessions_left, victims, window_victims};
use crate::layout::{panes, PaneId, Rect, Tree};
use crate::moves::broken_off;
use crate::openings::{half_size, largest};
use crate::pane::Pane;
use crate::server::{area_of, border_of, pane_for, session_called, session_for, sessions_begun, KilledState, Options};
use crate::session::SessionState;
use crate::session_commands::{asked_size, switch_to};
use crate::text::decimal;
use crate::undo::undone;
use crate::window::{rect_in, WindowState};
use crate::window_commands::resized_window;
use crate::window_laws::lemma_around;
use crate::window_moves::{moved_to, rearranged, traded_places};

verus! {

/// The status line takes one row of the terminal, the first or the last, and
/// windows have the rest; without one they have all.
pub proof fn lemma_area(opts: Options, cols: u16, rows: u16)
    ensures
        ({
            let a = area_of(opts, cols, rows);
            &&& a.x == 0 && a.w == cols
            &&& !opts.status ==> a.y == 0 && a.h == rows
            &&& opts.status && rows > 1 ==> a.h == rows - 1
            &&& opts.status && rows > 1 && opts.status_top ==> a.y == 1
            &&& opts.status && rows > 1 && !opts.status_top ==> a.y == 0
            &&& rows <= 1 ==> a.h == rows
        }),
        opts.pane_border_status@ == "top"@ ==> border_of(opts) == Some(true),
        opts.pane_border_status@ == "bottom"@ ==> border_of(opts) == Some(false),
        opts.pane_border_status@ == "off"@ ==> border_of(opts) is None,
{
    reveal_strlit("top");
    reveal_strlit("bottom");
    reveal_strlit("off");
    assert("top"@.len() == 3 && "top"@[0] == 't');
    assert("bottom"@.len() == 6);
    assert("off"@.len() == 3 && "off"@[0] == 'o');
}

proof fn lemma_session_called(ss: Seq<SessionState>, name: Seq<char>, from: int)
    requires
        0 <= from <= ss.len(),
    ensures
        ({
            let k = session_called(ss, name, from);
            &&& from <= k <= ss.len()
            &&& k < ss.len() && name.len() > 0 && name[0] != '$' ==> ss[k].name == name
            &&& forall|j: int| from <= j < k ==> (#[trigger] ss[j]).name != name && name != seq!['$'] + decimal(
                ss[j].id as nat,
            )
        }),
    decreases ss.len() - from,
{
    if from < ss.len() {
        let own = seq!['$'] + decimal(ss[from].id as nat);
        assert(own.skip(1) =~= decimal(ss[from].id as nat));
        crate::text_laws::lemma_number_read(ss[from].id as nat, u32::MAX as int);
        if !(ss[from].name == name || crate::session::id_behind(name, '$') == Some(ss[from].id as int)) {
            lemma_session_called(ss, name, from + 1);
        }
    }
}

proof fn lemma_sessions_begun(ss: Seq<SessionState>, name: Seq<char>, from: int)
    requires
        0 <= from <= ss.len(),
    ensures
        forall|x: int|
            0 <= x < sessions_begun(ss, name, from).len() ==> from <= #[trigger] sessions_begun(ss, name, from)[x]
                < ss.len() && name.is_prefix_of(ss[sessions_begun(ss, name, from)[x]].name),
        forall|j: int|
            from <= j < ss.len() && name.is_prefix_of((#[trigger] ss[j]).name) ==> sessions_begun(ss, name, from).contains(
                j,
            ),
    decreases ss.len() - from,
{
    if from < ss.len() {
        lemma_sessions_begun(ss, name, from + 1);
        let rest = sessions_begun(ss, name, from + 1);
        let all = sessions_begun(ss, name, from);
        assert forall|j: int| from <= j < ss.len() && name.is_prefix_of((#[trigger] ss[j]).name) implies all.contains(
            j,
        ) by {
            if j == from {
                assert(all[0] == j);
            } else {
                let x = choose|x: int| 0 <= x < rest.len() && rest[x] == j;
                if name.is_prefix_of(ss[from].name) {
                    assert(all[x + 1] == j);
                } else {
                    assert(all[x] == j);
                }
            }
        }
    }
}

/// The session a name stands for: the first of that name; else the only one
/// whose name begins so; else none.
pub proof fn lemma_session_by_name(ss: Seq<SessionState>, cs: Seq<Client>, name: Seq<char>, cid: Option<ClientId>)
    requires
        name.len() > 0,
        name[0] != '$',
    ensures
        ({
            let r = session_for(ss, cs, None, Some(name), cid);
            let exact = exists|i: int| 0 <= i < ss.len() && (#[trigger] ss[i]).name == name;
            &&& exact ==> r is Ok && 0 <= r->Ok_0 < ss.len() && ss[r->Ok_0].name == name && forall|j: int|
                0 <= j < r->Ok_0 ==> (#[trigger] ss[j]).name != name
            &&& !exact && r is Ok ==> 0 <= r->Ok_0 < ss.len() && name.is_prefix_of(ss[r->Ok_0].name) && forall|j: int|
                0 <= j < ss.len() && name.is_prefix_of((#[trigger] ss[j]).name) ==> j == r->Ok_0
            &&& (forall|j: int| 0 <= j < ss.len() ==> !name.is_prefix_of((#[trigger] ss[j]).name)) && !exact ==> r is Err
        }),
{
    lemma_session_called(ss, name, 0);
    lemma_sessions_begun(ss, name, 0);
    let all = sessions_begun(ss, name, 0);
    if session_called(ss, name, 0) >= ss.len() && all.len() == 1 {
        assert forall|j: int| 0 <= j < ss.len() && name.is_prefix_of((#[trigger] ss[j]).name) implies j == all[0] by {
            assert(all.contains(j));
        }
    }
    if session_called(ss, name, 0) >= ss.len() && all.len() >= 1 {
        assert(name.is_prefix_of(ss[all[0]].name));
    }
}

/// Without a name it is the session of the client; for one that has none, the
/// one used last.
pub proof fn lemma_session_of_client(ss: Seq<SessionState>, cs: Seq<Client>, cid: ClientId, k: int, i: int)
    requires
        0 <= k < cs.len(),
        cs[k].id == cid,
        forall|j: int| 0 <= j < k ==> (#[trigger] cs[j]).id != cid,
        0 <= i < ss.len(),
        forall|a: int, b: int| 0 <= a < b < ss.len() ==> (#[trigger] ss[a]).id != (#[trigger] ss[b]).id,
    ensures
        cs[k].session == Some(ss[i].id) ==> session_for(ss, cs, None, None, Some(cid)) == Ok::<int, Seq<char>>(i),
        cs[k].session is None && cs[k].pane_env is None ==> {
            let r = session_for(ss, cs, None, None, Some(cid));
            r is Ok && 0 <= r->Ok_0 < ss.len() && ss[i].last_used <= ss[r->Ok_0].last_used
        },
{
    crate::server::lemma_client_place(cs, cid, 0);
    assert(crate::server::client_place(cs, cid, 0) == k) by {
        if crate::server::client_place(cs, cid, 0) < k {
            assert(cs[crate::server::client_place(cs, cid, 0)].id == cid);
        }
    }
    crate::server::lemma_session_place(ss, ss[i].id, 0);
    crate::server::lemma_latest_used(ss, ss.len() as int);
}

/// The pane a target stands for in a window: that of the number, counted from
/// the base in the order of the layout; without one the active pane.
pub proof fn lemma_pane_targets(w: WindowState, base: usize, k: int)
    requires
        0 <= k < panes(w.tree).len(),
        base + k <= usize::MAX,
    ensures
        pane_for(w, None, Some((base + k) as usize), base) == Ok::<PaneId, Seq<char>>(panes(w.tree)[k]),
        pane_for(w, None, None, base) == Ok::<PaneId, Seq<char>>(w.active),
        forall|id: PaneId| #[trigger] w.has(id) ==> pane_for(w, Some(id), None, base) == Ok::<PaneId, Seq<char>>(id),
{
}

/// `switch-client -n` goes to the session after that of the client and `-p` to
/// the one before, going round; `-l` to the one it was at before.
pub proof fn lemma_switches(ss: Seq<SessionState>, cs: Seq<Client>, c: Client, pos: int, target: Option<Target>)
    requires
        0 <= pos < ss.len(),
        c.session == Some(ss[pos].id),
        forall|a: int, b: int| 0 <= a < b < ss.len() ==> (#[trigger] ss[a]).id != (#[trigger] ss[b]).id,
    ensures
        ({
            let n = ss.len() as int;
            &&& switch_to(ss, cs, c, true, false, false, target) == Ok::<SessionId, Seq<char>>(
                ss[if pos == n - 1 {
                    0
                } else {
                    pos + 1
                }].id,
            )
            &&& switch_to(ss, cs, c, false, true, false, target) == Ok::<SessionId, Seq<char>>(
                ss[if pos == 0 {
                    n - 1
                } else {
                    pos - 1
                }].id,
            )
            &&& forall|i: int|
                0 <= i < n && c.last_session == Some((#[trigger] ss[i]).id) ==> switch_to(
                    ss,
                    cs,
                    c,
                    false,
                    false,
                    true,
                    target,
                ) == Ok::<SessionId, Seq<char>>(ss[i].id)
            &&& c.last_session is None ==> switch_to(ss, cs, c, false, false, true, target) is Err
        }),
{
    crate::server::lemma_session_place(ss, ss[pos].id, 0);
    lemma_around(pos, ss.len() as int);
    if let Some(l) = c.last_session {
        crate::server::lemma_session_place(ss, l, 0);
    }
}

/// `resize-window`: the size that is told, or else of the client, or else the
/// one it has; to the right and down it grows, to the left and up it shrinks.
pub proof fn lemma_asked_size(cols: u16, rows: u16, n: u16)
    ensures
        asked_size(cols, rows, None, None, None, None) == (cols, rows),
        forall|w: u16, h: u16| #[trigger] asked_size(cols, rows, None, Some(w), Some(h), None) == (w, h),
        forall|w: u16, h: u16| #[trigger] asked_size(cols, rows, Some((w, h)), None, None, None) == (w, h),
        cols + n <= u16::MAX ==> asked_size(cols, rows, None, None, None, Some((Dir::Right, n))) == (
            (cols + n) as u16,
            rows,
        ),
        cols >= n ==> asked_size(cols, rows, None, None, None, Some((Dir::Left, n))) == ((cols - n) as u16, rows),
        rows + n <= u16::MAX ==> asked_size(cols, rows, None, None, None, Some((Dir::Down, n))) == (
            cols,
            (rows + n) as u16,
        ),
        rows >= n ==> asked_size(cols, rows, None, None, None, Some((Dir::Up, n))) == (cols, (rows - n) as u16),
{
}

/// `resize-pane -Z` zooms a window that is not, and ends the zoom of one that
/// is; a window of one pane is not zoomed. Nothing else changes. Moving an
/// edge ends a zoom.
pub proof fn lemma_zoom_toggles(w: WindowState, id: PaneId, area: Rect, border: Option<bool>, d: Dir, amount: u16)
    ensures
        ({
            let (b, fault) = resized_window(w, id, true, None, amount, None, None, area, border);
            &&& fault is None
            &&& b.zoomed == (!w.zoomed && w.panes.len() > 1)
            &&& b.tree == w.tree && b.panes == w.panes && b.active == w.active
        }),
        !resized_window(w, id, false, Some(d), amount, None, None, area, border).0.zoomed,
        amount >= 1 ==> resized_window(w, id, false, Some(d), amount, None, None, area, border).0.tree == w.nudged(
            id,
            d,
            amount,
        ).tree,
{
}

/// Windows that trade places are each where the other was; a window that
/// moves is at the place it was moved to, and the others keep their order.
pub proof fn lemma_windows_change_places(ws: Seq<WindowState>, a: int, b: int)
    requires
        0 <= a < ws.len(),
        0 <= b < ws.len(),
    ensures
        traded_places(ws, a, b).len() == ws.len(),
        traded_places(ws, a, b)[a] == ws[b],
        traded_places(ws, a, b)[b] == ws[a],
        forall|i: int| 0 <= i < ws.len() && i != a && i != b ==> #[trigger] traded_places(ws, a, b)[i] == ws[i],
        moved_to(ws, a, b).len() == ws.len(),
        moved_to(ws, a, b)[b] == ws[a],
        a < b ==> forall|i: int| a <= i < b ==> #[trigger] moved_to(ws, a, b)[i] == ws[i + 1],
        b < a ==> forall|i: int| b < i <= a ==> #[trigger] moved_to(ws, a, b)[i] == ws[i - 1],
        forall|i: int|
            0 <= i < ws.len() && (i < a && i < b || i > a && i > b) ==> #[trigger] moved_to(ws, a, b)[i] == ws[i],
{
}

/// The window that is current stays so, wherever it moves to.
pub proof fn lemma_current_follows(s: SessionState, a: int, b: int, move_it: bool)
    requires
        s.sound(),
        0 <= a < s.windows.len(),
        0 <= b < s.windows.len(),
    ensures
        rearranged(s, a, b, move_it).windows[rearranged(s, a, b, move_it).cur].id == s.windows[s.cur].id,
        rearranged(s, a, b, move_it).windows == if move_it {
            moved_to(s.windows, a, b)
        } else {
            traded_places(s.windows, a, b)
        },
{
    let ws = if move_it {
        moved_to(s.windows, a, b)
    } else {
        traded_places(s.windows, a, b)
    };
    let id = s.windows[s.cur].id;
    lemma_windows_change_places(s.windows, a, b);
    crate::session::lemma_window_place(ws, id, 0);
    let c = s.cur;
    let at = if c == a {
        b
    } else if !move_it {
        if c == b {
            a
        } else {
            c
        }
    } else if a < c <= b {
        c - 1
    } else if b <= c < a {
        c + 1
    } else {
        c
    };
    assert(ws[at].id == id) by {
        if move_it && c != a {
            if a < c <= b {
                assert(moved_to(s.windows, a, b)[c - 1] == s.windows[c]);
            } else if b <= c < a {
                assert(moved_to(s.windows, a, b)[c + 1] == s.windows[c]);
            } else {
                assert(moved_to(s.windows, a, b)[c] == s.windows[c]);
            }
        }
    }
}

/// A pane that is broken off is alone in a new window, the last of the
/// session and the current one, and no longer in the one it was in.
pub proof fn lemma_broken_off(s: SessionState, j: int, id: PaneId, wid: WindowId, now: u64)
    requires
        s.sound(),
        0 <= j < s.windows.len(),
        s.windows[j].has(id),
        s.windows[j].panes.len() > 1,
    ensures
        ({
            let b = broken_off(s, j, id, wid, now);
            let n = s.windows.len() as int;
            &&& b.windows.len() == n + 1
            &&& b.cur == n
            &&& b.windows[n].id == wid && panes(b.windows[n].tree) =~= seq![id] && b.windows[n].active == id
            &&& panes(b.windows[j].tree) == others(panes(s.windows[j].tree), id)
            &&& b.last == Some(s.windows[s.cur].id)
            &&& forall|i: int| 0 <= i < n && i != j ==> #[trigger] b.windows[i] == s.windows[i]
        }),
{
    let w = s.windows[j];
    crate::window_edit::lemma_without(w, id);
    crate::window::lemma_place_of(w.panes, id, 0);
    assert(w.wf());
    assert(s.windows[s.cur].id == s.windows.update(j, w.broken(id))[s.cur].id);
}

/// `kill-pane` kills the pane, and with `-a` all the others.
pub proof fn lemma_pane_victims(w: WindowState, id: PaneId, all_but: bool, k: int)
    requires
        0 <= k <= w.panes.len(),
    ensures
        forall|p: PaneId| #[trigger]
            victims(w, id, all_but, k).contains(p) <==> (exists|i: int| 0 <= i < k && (#[trigger] w.panes[i]).id == p)
                && (if all_but {
                p != id
            } else {
                p == id
            }),
    decreases k,
{
    if k > 0 {
        lemma_pane_victims(w, id, all_but, k - 1);
        let before = victims(w, id, all_but, k - 1);
        let last = w.panes[k - 1].id;
        assert forall|p: PaneId| #[trigger]
            victims(w, id, all_but, k).contains(p) <==> (exists|i: int| 0 <= i < k && (#[trigger] w.panes[i]).id == p)
                && (if all_but {
                p != id
            } else {
                p == id
            }) by {
            if (last == id) != all_but {
                assert(before.push(last).contains(p) <==> before.contains(p) || p == last) by {
                    if before.contains(p) {
                        let x = choose|x: int| 0 <= x < before.len() && before[x] == p;
                        assert(before.push(last)[x] == p);
                    }
                    assert(before.push(last)[before.len() as int] == last);
                }
            }
            if p == last {
                assert(w.panes[k - 1].id == p);
            }
        }
    }
}

/// `kill-window` kills the window, and with `-a` all the others.
pub proof fn lemma_window_victims(s: SessionState, j: int, all_but: bool, k: int)
    requires
        0 <= k <= s.windows.len(),
    ensures
        forall|x: int|
            0 <= x < window_victims(s, j, all_but, k).len() ==> exists|i: int|
                0 <= i < k && #[trigger] window_victims(s, j, all_but, k)[x] == (#[trigger] s.windows[i]).id && (if all_but {
                    i != j
                } else {
                    i == j
                }),
        forall|i: int|
            0 <= i < k && (if all_but {
                i != j
            } else {
                i == j
            }) ==> window_victims(s, j, all_but, k).contains((#[trigger] s.windows[i]).id),
    decreases k,
{
    if k > 0 {
        lemma_window_victims(s, j, all_but, k - 1);
        let before = window_victims(s, j, all_but, k - 1);
        let after = window_victims(s, j, all_but, k);
        let last = s.windows[k - 1].id;
        assert forall|i: int|
            0 <= i < k && (if all_but {
                i != j
            } else {
                i == j
            }) implies after.contains((#[trigger] s.windows[i]).id) by {
            if i == k - 1 {
                assert(after[before.len() as int] == last);
            } else {
                let x = choose|x: int| 0 <= x < before.len() && before[x] == s.windows[i].id;
                assert(after[x] == s.windows[i].id);
            }
        }
        assert forall|x: int| 0 <= x < after.len() implies exists|i: int|
            0 <= i < k && #[trigger] after[x] == (#[trigger] s.windows[i]).id && (if all_but {
                i != j
            } else {
                i == j
            }) by {
            if x < before.len() {
                assert(after[x] == before[x]);
                let i = choose|i: int|
                    0 <= i < k - 1 && before[x] == (#[trigger] s.windows[i]).id && (if all_but {
                        i != j
                    } else {
                        i == j
                    });
                assert(after[x] == s.windows[i].id);
            } else {
                assert(after[x] == s.windows[k - 1].id);
            }
        }
    }
}

/// `kill-session` takes the session away and leaves the others, in their
/// order; with `-a` it leaves that one alone.
pub proof fn lemma_sessions_left(ss: Seq<SessionState>, sid: SessionId, all_but: bool, k: int)
    requires
        0 <= k <= ss.len(),
    ensures
        forall|x: int|
            0 <= x < sessions_left(ss, sid, all_but, k).len() ==> (if all_but {
                (#[trigger] sessions_left(ss, sid, all_but, k)[x]).id == sid
            } else {
                sessions_left(ss, sid, all_but, k)[x].id != sid
            }),
        forall|i: int|
            0 <= i < k && (if all_but {
                ss[i].id == sid
            } else {
                ss[i].id != sid
            }) ==> sessions_left(ss, sid, all_but, k).contains(#[trigger] ss[i]),
    decreases k,
{
    if k > 0 {
        lemma_sessions_left(ss, sid, all_but, k - 1);
        let before = sessions_left(ss, sid, all_but, k - 1);
        let after = sessions_left(ss, sid, all_but, k);
        assert forall|i: int|
            0 <= i < k && (if all_but {
                ss[i].id == sid
            } else {
                ss[i].id != sid
            }) implies after.contains(#[trigger] ss[i]) by {
            if i == k - 1 {
                assert(after[before.len() as int] == ss[k - 1]);
            } else {
                let x = choose|x: int| 0 <= x < before.len() && before[x] == ss[i];
                assert(after[x] == ss[i]);
            }
        }
    }
}

/// Of what was killed the newest twenty are kept, in their order.
pub proof fn lemma_kills_kept(ks: Seq<KilledState>)
    ensures
        ks.len() <= 20 ==> trimmed_kills(ks) == ks,
        ks.len() > 20 ==> trimmed_kills(ks).len() == 20 && forall|i: int|
            0 <= i < 20 ==> #[trigger] trimmed_kills(ks)[i] == ks[ks.len() - 20 + i],
{
}

/// A window that was killed comes back at its place, and is current.
pub proof fn lemma_window_brought_back(
    ss: Seq<SessionState>,
    opts: Options,
    i: int,
    w: WindowState,
    index: int,
    at: u64,
    next: u32,
    now: u64,
)
    requires
        0 <= i < ss.len(),
        ss[i].sound(),
        forall|a: int, b: int| 0 <= a < b < ss.len() ==> (#[trigger] ss[a]).id != (#[trigger] ss[b]).id,
        0 <= index <= ss[i].windows.len(),
    ensures
        ({
            let b = undone(ss, opts, KilledState::Window { window: w, session: ss[i].id, index, at }, next, now)[i];
            &&& b.windows.len() == ss[i].windows.len() + 1
            &&& b.windows[index].id == w.id && b.windows[index].name == w.name
            &&& forall|j: int| 0 <= j < index ==> (#[trigger] b.windows[j]).id == ss[i].windows[j].id
            &&& forall|j: int| index < j < b.windows.len() ==> (#[trigger] b.windows[j]).id == ss[i].windows[j - 1].id
            &&& b.cur == index
        }),
{
    crate::server::lemma_session_place(ss, ss[i].id, 0);
}

/// A pane that was killed comes back into its window, which is current then,
/// with the layout of before when the panes beside it are the same, and is
/// the active one.
pub proof fn lemma_pane_brought_back(
    ss: Seq<SessionState>,
    opts: Options,
    i: int,
    j: int,
    p: Pane,
    tree: Tree,
    at: u64,
    next: u32,
    now: u64,
)
    requires
        0 <= i < ss.len(),
        ss[i].sound(),
        forall|a: int, b: int| 0 <= a < b < ss.len() ==> (#[trigger] ss[a]).id != (#[trigger] ss[b]).id,
        0 <= j < ss[i].windows.len(),
    ensures
        ({
            let w = ss[i].windows[j];
            let k = KilledState::Pane { pane: p, session: ss[i].id, home: w.id, tree, at };
            let b = undone(ss, opts, k, next, now)[i];
            &&& b.cur == j
            &&& b.windows.len() == ss[i].windows.len()
            &&& b.windows[j].active == p.id
            &&& b.windows[j].last_pane == Some(w.active)
            &&& b.windows[j].panes.len() == w.panes.len() + 1
            &&& panes(w.tree) == others(panes(tree), p.id) ==> b.windows[j].tree == crate::layout::refitted(
                tree,
                area_of(opts, ss[i].cols, ss[i].rows),
            )
        }),
{
    crate::server::lemma_session_place(ss, ss[i].id, 0);
    crate::session::lemma_window_place(ss[i].windows, ss[i].windows[j].id, 0);
    let w = ss[i].windows[j].restored(p, tree);
    let s = crate::server_edit::put_window(ss[i], j, w).with_current(j);
    assert(s.windows[j] == w);
}

/// Of several splits each takes the pane that has the most cells.
pub proof fn lemma_largest(w: WindowState, k: int)
    requires
        1 <= k <= panes(w.tree).len(),
    ensures
        exists|i: int| 0 <= i < k && largest(w, k) == #[trigger] panes(w.tree)[i],
        forall|i: int|
            0 <= i < k ==> match #[trigger] rect_in(w.cells, panes(w.tree)[i], 0) {
                Some(r) => r.w * r.h > 0 ==> {
                    let most = rect_in(w.cells, largest(w, k), 0);
                    most is Some && most->0.w * most->0.h >= r.w * r.h
                },
                None => true,
            },
    decreases k,
{
    let all = panes(w.tree);
    if k > 1 {
        lemma_largest(w, k - 1);
        let best = largest(w, k - 1);
        let i = choose|i: int| 0 <= i < k - 1 && best == #[trigger] all[i];
        assert(largest(w, k) == all[k - 1] || largest(w, k) == all[i]);
        assert forall|x: int| 0 <= x < k implies match #[trigger] rect_in(w.cells, all[x], 0) {
            Some(r) => r.w * r.h > 0 ==> {
                let most = rect_in(w.cells, largest(w, k), 0);
                most is Some && most->0.w * most->0.h >= r.w * r.h
            },
            None => true,
        } by {
            lemma_surface(w, all[x]);
            lemma_surface(w, all[k - 1]);
            lemma_surface(w, best);
            if x < k - 1 {
                assert(match rect_in(w.cells, all[x], 0) {
                    Some(r) => r.w * r.h > 0 ==> rect_in(w.cells, best, 0) is Some,
                    None => true,
                });
            }
        }
        lemma_surface(w, all[k - 1]);
        lemma_surface(w, best);
    } else {
        assert(largest(w, k) == all[0]);
        lemma_surface(w, all[0]);
    }
}

proof fn lemma_surface(w: WindowState, id: PaneId)
    ensures
        crate::openings::surface(w, id) >= 0,
        match rect_in(w.cells, id, 0) {
            Some(r) => crate::openings::surface(w, id) == r.w * r.h,
            None => crate::openings::surface(w, id) == 0,
        },
{
    if let Some(r) = rect_in(w.cells, id, 0) {
        assert(r.w * r.h >= 0) by (nonlinear_arith);
    }
}

/// A new pane starts at half the size of the one it is split from: half as
/// wide, or half as high.
pub proof fn lemma_half_size(r: Rect, horizontal: bool)
    requires
        r.w >= 3,
        r.h >= 3,
    ensures
        horizontal ==> half_size(r, horizontal) == (((r.w - 1) / 2) as u16, r.h),
        !horizontal ==> half_size(r, horizontal) == (r.w, ((r.h - 1) / 2) as u16),
{
}

} // verus!
