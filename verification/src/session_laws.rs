//! The size of sessions, windows and panes that change places between them,
//! alerts, and what the mouse does to them.
use vstd::prelude::*;

use crate::alerts::{after_output, alerts_of, raised, rang, silences, swept_window};
use crate::arrange::lemma_assigned_same;
use crate::chooser::{ClientId, SessionId, WindowId};
use crate::client::Client;
use crate::join::{join_fault, taken_out, too_small};
use crate::layout::{panes, shape, PaneId, Rect};
use crate::mouse::{hit_in, label_at, MouseEvent};
use crate::mouse_flow::{mouse_at, MouseStep};
use crate::openings::fresh_session;
use crate::pane::Pane;
use crate::server::{Options, Place};
use crate::server_edit::{edited, folded_size, size_for};
use crate::session::{window_place, SessionState};
use crate::session_commands::{moved_client, touched};
use crate::text::decimal;
use crate::window::WindowState;
use crate::window_moves::{joined_by_window, left_by, swapped_windows};

verus! {

/// The smallest size is one that no client of the session is below, in
/// columns or in rows, and that some client has; the largest one that none is
/// above.
pub proof fn lemma_smallest(cs: Seq<Client>, sid: SessionId, k: int)
    requires
        0 <= k <= cs.len(),
    ensures
        match folded_size(cs, sid, true, k) {
            Some((w, h)) => {
                &&& forall|i: int| 0 <= i < k && (#[trigger] cs[i]).session == Some(sid) ==> w <= cs[i].cols && h <= cs[i].rows
                &&& exists|i: int| 0 <= i < k && (#[trigger] cs[i]).session == Some(sid) && cs[i].cols == w
                &&& exists|i: int| 0 <= i < k && (#[trigger] cs[i]).session == Some(sid) && cs[i].rows == h
            },
            None => forall|i: int| 0 <= i < k ==> (#[trigger] cs[i]).session != Some(sid),
        },
        match folded_size(cs, sid, false, k) {
            Some((w, h)) => {
                &&& forall|i: int| 0 <= i < k && (#[trigger] cs[i]).session == Some(sid) ==> w >= cs[i].cols && h >= cs[i].rows
                &&& exists|i: int| 0 <= i < k && (#[trigger] cs[i]).session == Some(sid) && cs[i].cols == w
                &&& exists|i: int| 0 <= i < k && (#[trigger] cs[i]).session == Some(sid) && cs[i].rows == h
            },
            None => forall|i: int| 0 <= i < k ==> (#[trigger] cs[i]).session != Some(sid),
        },
    decreases k,
{
    if k > 0 {
        lemma_smallest(cs, sid, k - 1);
        let c = cs[k - 1];
        assert(c == cs[k - 1]);
    }
}

/// With `smallest` no client's terminal is too small for its session, with
/// `largest` the session fills each; with `manual` nothing decides, and else
/// the client that was used last does.
pub proof fn lemma_size_policy(opts: Options, cs: Seq<Client>, sid: SessionId, id: ClientId, k: int)
    requires
        0 <= k < cs.len(),
        cs[k].id == id,
        cs[k].session == Some(sid),
        forall|i: int| 0 <= i < k ==> (#[trigger] cs[i]).id != id,
    ensures
        opts.window_size@ == "smallest"@ ==> size_for(opts, cs, sid, Some(id)) is Some && forall|i: int|
            0 <= i < cs.len() && (#[trigger] cs[i]).session == Some(sid) ==> (size_for(opts, cs, sid, Some(id))->0).0
                <= cs[i].cols && (size_for(opts, cs, sid, Some(id))->0).1 <= cs[i].rows,
        opts.window_size@ == "largest"@ ==> size_for(opts, cs, sid, Some(id)) is Some && forall|i: int|
            0 <= i < cs.len() && (#[trigger] cs[i]).session == Some(sid) ==> (size_for(opts, cs, sid, Some(id))->0).0
                >= cs[i].cols && (size_for(opts, cs, sid, Some(id))->0).1 >= cs[i].rows,
        opts.window_size@ == "manual"@ ==> size_for(opts, cs, sid, Some(id)) is None,
        opts.window_size@ == "latest"@ ==> size_for(opts, cs, sid, Some(id)) == Some((cs[k].cols, cs[k].rows)),
{
    reveal_strlit("smallest");
    reveal_strlit("largest");
    reveal_strlit("manual");
    reveal_strlit("latest");
    assert("smallest"@.len() == 8 && "largest"@.len() == 7 && "manual"@.len() == 6 && "latest"@.len() == 6);
    assert("manual"@[0] == 'm' && "latest"@[0] == 'l');
    lemma_smallest(cs, sid, cs.len() as int);
    lemma_client_at(cs, id, k, 0);
}

proof fn lemma_client_at(cs: Seq<Client>, id: ClientId, k: int, i: int)
    requires
        0 <= i <= k < cs.len(),
        cs[k].id == id,
        forall|j: int| i <= j < k ==> (#[trigger] cs[j]).id != id,
    ensures
        crate::server::client_place(cs, id, i) == k,
    decreases k - i,
{
    if i < k {
        lemma_client_at(cs, id, k, i + 1);
    }
}

proof fn lemma_window_at(ws: Seq<WindowState>, id: WindowId, k: int, i: int)
    requires
        0 <= i <= k < ws.len(),
        ws[k].id == id,
        forall|j: int| i <= j < k ==> (#[trigger] ws[j]).id != id,
    ensures
        window_place(ws, id, i) == k,
    decreases k - i,
{
    if i < k {
        lemma_window_at(ws, id, k, i + 1);
    }
}

/// No two windows of the session have one number.
pub open spec fn numbered_apart(s: SessionState) -> bool {
    forall|i: int, j: int| 0 <= i < j < s.windows.len() ==> (#[trigger] s.windows[i]).id != (#[trigger] s.windows[j]).id
}

/// When window `a` leaves a session the others keep their order, and the
/// current one stays the current one, unless it is the one that left.
pub proof fn lemma_window_leaves(s: SessionState, a: int)
    requires
        numbered_apart(s),
        0 <= a < s.windows.len(),
        0 <= s.cur < s.windows.len(),
        s.windows.len() > 1,
    ensures
        ({
            let after = left_by(s, a);
            &&& after.windows.len() == s.windows.len() - 1
            &&& forall|i: int| 0 <= i < a ==> #[trigger] after.windows[i] == s.windows[i]
            &&& forall|i: int| a <= i < after.windows.len() ==> #[trigger] after.windows[i] == s.windows[i + 1]
            &&& 0 <= after.cur < after.windows.len()
            &&& a != s.cur ==> after.windows[after.cur] == s.windows[s.cur]
            &&& after.last != Some(s.windows[a].id)
        }),
{
    let rest = s.windows.remove(a);
    if a != s.cur {
        let k = if s.cur < a {
            s.cur
        } else {
            s.cur - 1
        };
        assert(rest[k] == s.windows[s.cur]);
        lemma_window_at(rest, s.windows[s.cur].id, k, 0);
    }
}

/// A window that comes into a session stands at the place that was asked for,
/// or at the end, the others keep their order, and the current one stays the
/// current one.
pub proof fn lemma_window_comes(d: SessionState, b: int, w: WindowState)
    requires
        numbered_apart(d),
        0 <= b,
        0 <= d.cur < d.windows.len(),
        w.id != d.windows[d.cur].id,
    ensures
        ({
            let after = joined_by_window(d, b, w);
            let at = if b < d.windows.len() {
                b
            } else {
                d.windows.len() as int
            };
            &&& after.windows.len() == d.windows.len() + 1
            &&& after.windows[at] == w
            &&& forall|i: int| 0 <= i < at ==> #[trigger] after.windows[i] == d.windows[i]
            &&& forall|i: int| at < i < after.windows.len() ==> #[trigger] after.windows[i] == d.windows[i - 1]
            &&& after.windows[after.cur] == d.windows[d.cur]
        }),
{
    let at = if b < d.windows.len() {
        b
    } else {
        d.windows.len() as int
    };
    let ws = d.windows.insert(at, w);
    let k = if d.cur < at {
        d.cur
    } else {
        d.cur + 1
    };
    assert(ws[k] == d.windows[d.cur]);
    lemma_window_at(ws, d.windows[d.cur].id, k, 0);
}

/// Windows of two sessions that change places: each stands where the other
/// was, and no other window moves.
pub proof fn lemma_windows_swapped(ss: Seq<SessionState>, i: int, a: int, k: int, b: int)
    requires
        0 <= i < ss.len(),
        0 <= k < ss.len(),
        i != k,
        0 <= a < ss[i].windows.len(),
        0 <= b < ss[k].windows.len(),
    ensures
        ({
            let after = swapped_windows(ss, i, a, k, b);
            &&& after.len() == ss.len()
            &&& after[i].windows[a] == ss[k].windows[b]
            &&& after[k].windows[b] == ss[i].windows[a]
            &&& after[i].windows.len() == ss[i].windows.len()
            &&& after[k].windows.len() == ss[k].windows.len()
            &&& forall|j: int| 0 <= j < ss[i].windows.len() && j != a ==> #[trigger] after[i].windows[j] == ss[i].windows[j]
            &&& forall|j: int| 0 <= j < ss[k].windows.len() && j != b ==> #[trigger] after[k].windows[j] == ss[k].windows[j]
            &&& forall|j: int| 0 <= j < ss.len() && j != i && j != k ==> #[trigger] after[j] == ss[j]
        }),
{
}

/// A pane that takes another's place in a window has its place in the layout,
/// and the focus if the other had it; no other pane moves.
pub proof fn lemma_pane_traded(w: WindowState, a: PaneId, p: Pane)
    requires
        shape(w.tree),
    ensures
        ({
            let (was, is) = (panes(w.tree), panes(w.traded(a, p).tree));
            &&& is.len() == was.len()
            &&& forall|i: int| 0 <= i < was.len() && was[i] == a ==> #[trigger] is[i] == p.id
            &&& forall|i: int| 0 <= i < was.len() && was[i] != a ==> #[trigger] is[i] == was[i]
        }),
        w.active == a ==> w.traded(a, p).active == p.id,
        w.active != a ==> w.traded(a, p).active == w.active,
        w.traded(a, p).panes.last() == p,
        w.last_pane == Some(a) ==> w.traded(a, p).last_pane is None,
{
    lemma_assigned_same(w.tree, crate::moves::replaced(panes(w.tree), a, p.id));
}

/// A pane that is taken out of its window: with the last pane the window goes,
/// and with the last window the session.
pub proof fn lemma_taken_out(ss: Seq<SessionState>, p: Place)
    requires
        0 <= p.session < ss.len(),
        0 <= p.window < ss[p.session].windows.len(),
    ensures
        ({
            let s = ss[p.session];
            let after = taken_out(ss, p);
            &&& s.windows[p.window].panes.len() > 1 ==> after.len() == ss.len() && after[p.session].windows.len()
                == s.windows.len()
            &&& s.windows[p.window].panes.len() <= 1 && s.windows.len() > 1 ==> after.len() == ss.len()
                && after[p.session].windows == s.windows.remove(p.window)
            &&& s.windows[p.window].panes.len() <= 1 && s.windows.len() <= 1 ==> after == ss.remove(p.session)
            &&& forall|k: int| 0 <= k < p.session ==> #[trigger] after[k] == ss[k]
        }),
{
}

/// A pane cannot be put beside itself; a cell of two columns, or of two rows
/// and the border's, is too small to be halved.
pub proof fn lemma_join_refused(ss: Seq<SessionState>, s: Place, d: Place, r: Rect)
    ensures
        s.pane == d.pane ==> join_fault(ss, s, d) is Some,
        s.pane != d.pane && s.session != d.session ==> join_fault(ss, s, d) is None,
        too_small(r, true, None) <==> r.w <= 2,
        too_small(r, true, Some(true)) <==> r.w <= 2,
        too_small(r, false, None) <==> r.h <= 2,
        too_small(r, false, Some(true)) <==> r.h <= 4,
        too_small(r, false, Some(false)) <==> r.h <= 4,
{
}

/// Output in a window that is not the current one is marked as activity, and
/// a bell in it as a bell, where that is asked for; in the current one neither
/// is. Output ends a silence, and only the pane that wrote is counted.
pub proof fn lemma_output_marks(w: WindowState, id: PaneId, opts: Options, now: u64)
    ensures
        ({
            let (front, back) = (after_output(w, id, true, opts, now), after_output(w, id, false, opts, now));
            let bells = exists|i: int| 0 <= i < w.panes.len() && (#[trigger] w.panes[i]).bell;
            &&& front.activity == w.activity && front.bell == w.bell
            &&& opts.monitor_activity ==> back.activity
            &&& !opts.monitor_activity ==> back.activity == w.activity
            &&& opts.monitor_bell && bells ==> back.bell
            &&& (!opts.monitor_bell || !bells) ==> back.bell == w.bell
            &&& !front.silence && !back.silence && front.last_output == now && back.last_output == now
            &&& front.panes.len() == w.panes.len()
            &&& forall|i: int| 0 <= i < w.panes.len() && w.panes[i].id != id ==> (#[trigger] front.panes[i]) == w.panes[i]
            &&& forall|i: int|
                0 <= i < w.panes.len() && w.panes[i].id == id ==> (#[trigger] front.panes[i]).last_output == now
            &&& forall|i: int| 0 <= i < w.panes.len() ==> !(#[trigger] back.panes[i]).bell
        }),
{
    lemma_rang(w.panes, w.panes.len() as int);
}

proof fn lemma_rang(v: Seq<Pane>, k: int)
    requires
        0 <= k <= v.len(),
    ensures
        rang(v, k) <==> exists|i: int| 0 <= i < k && (#[trigger] v[i]).bell,
    decreases k,
{
    if k > 0 {
        lemma_rang(v, k - 1);
        if v[k - 1].bell {
            let i = k - 1;
            assert(0 <= i < k && v[i].bell);
        }
    }
}

/// Only news of a window in the background is told, and each only once: not
/// again while the mark is there.
pub proof fn lemma_alerts_told(w: WindowState, opts: Options, index: nat)
    ensures
        raised(w, true, opts) == (false, false),
        w.activity ==> !raised(w, false, opts).0,
        w.bell ==> !raised(w, false, opts).1,
        !w.activity && opts.monitor_activity ==> raised(w, false, opts).0,
        !w.bell && opts.monitor_bell && (exists|i: int| 0 <= i < w.panes.len() && (#[trigger] w.panes[i]).bell)
            ==> raised(w, false, opts).1,
        alerts_of(w, (false, false), index).len() == 0,
        alerts_of(w, (true, false), index) == seq![
            ("Activity in window "@ + decimal(index) + " ("@ + w.name + ")"@, false),
        ],
        alerts_of(w, (false, true), index) == seq![("Bell in window "@ + decimal(index) + " ("@ + w.name + ")"@, true)],
{
    lemma_rang(w.panes, w.panes.len() as int);
    reveal_strlit("Activity");
    reveal_strlit("Bell");
    reveal_strlit(" in window ");
    reveal_strlit("Activity in window ");
    reveal_strlit("Bell in window ");
    assert("Activity"@ + " in window "@ =~= "Activity in window "@);
    assert("Bell"@ + " in window "@ =~= "Bell in window "@);
    assert(alerts_of(w, (true, false), index) =~= seq![
        ("Activity in window "@ + decimal(index) + " ("@ + w.name + ")"@, false),
    ]);
    assert(alerts_of(w, (false, true), index) =~= seq![
        ("Bell in window "@ + decimal(index) + " ("@ + w.name + ")"@, true),
    ]);
}

/// The marks of the current window are cleared, and a window in the background
/// that has written nothing for so many seconds is marked as silent.
pub proof fn lemma_sweep(w: WindowState, opts: Options, now: u64)
    requires
        now >= w.last_output,
    ensures
        ({
            let (front, back) = (swept_window(w, true, opts, now), swept_window(w, false, opts, now));
            &&& !front.activity && !front.bell && !front.silence
            &&& back.activity == w.activity && back.bell == w.bell
            &&& opts.monitor_silence > 0 && now - w.last_output >= 1000 * opts.monitor_silence ==> back.silence
            &&& (opts.monitor_silence == 0 || now - w.last_output < 1000 * opts.monitor_silence) ==> back.silence
                == w.silence
        }),
{
}

/// The windows that a session is told have fallen silent are in the
/// background, each is told with the number that it is known by, and all are.
pub proof fn lemma_silences(s: SessionState, opts: Options, now: u64, k: int, j: int)
    requires
        0 <= j < k <= s.windows.len(),
        now >= s.windows[j].last_output,
        !s.windows[j].silence,
        opts.monitor_silence > 0,
        now - s.windows[j].last_output >= 1000 * opts.monitor_silence,
        j != s.cur,
    ensures
        silences(s, opts, now, k).contains(
            (
                s.id,
                s.windows[j].active,
                "Silence in window "@ + decimal((j + opts.base_index) as nat) + " ("@ + s.windows[j].name + ")"@,
            ),
        ),
    decreases k,
{
    reveal_strlit("Silence");
    reveal_strlit(" in window ");
    reveal_strlit("Silence in window ");
    assert("Silence"@ + " in window "@ =~= "Silence in window "@);
    let before = silences(s, opts, now, k - 1);
    let all = silences(s, opts, now, k);
    if j == k - 1 {
        assert(all.last() == all[all.len() - 1]);
    } else {
        lemma_silences(s, opts, now, k - 1, j);
        let it = (
            s.id,
            s.windows[j].active,
            "Silence in window "@ + decimal((j + opts.base_index) as nat) + " ("@ + s.windows[j].name + ")"@,
        );
        let i = choose|i: int| 0 <= i < before.len() && before[i] == it;
        assert(all[i] == it);
    }
}

/// The label or pane under a place is the first that holds it.
pub proof fn lemma_label_under(hits: Seq<(u16, u16)>, x: u16, i: int)
    requires
        0 <= i,
    ensures
        match label_at(hits, x, i) {
            Some(k) => i <= k < hits.len() && hits[k].0 <= x < hits[k].1 && forall|j: int|
                i <= j < k ==> !((#[trigger] hits[j]).0 <= x < hits[j].1),
            None => forall|j: int| i <= j < hits.len() ==> !((#[trigger] hits[j]).0 <= x < hits[j].1),
        },
    decreases hits.len() - i,
{
    if i < hits.len() && !(hits[i].0 <= x < hits[i].1) {
        lemma_label_under(hits, x, i + 1);
    }
}

/// The pane under a place is one whose columns and rows hold it.
pub proof fn lemma_hit(rects: Seq<(PaneId, Rect)>, x: int, y: int, i: int)
    requires
        0 <= i,
    ensures
        match hit_in(rects, x, y, i) {
            Some((id, r)) => r.x <= x < r.x + r.w && r.y <= y < r.y + r.h && exists|k: int|
                i <= k < rects.len() && (#[trigger] rects[k]) == (id, r),
            None => forall|k: int|
                i <= k < rects.len() ==> {
                    let r = (#[trigger] rects[k]).1;
                    !(r.x <= x < r.x + r.w && r.y <= y < r.y + r.h)
                },
        },
    decreases rects.len() - i,
{
    if i < rects.len() && !rects[i].1.has(x, y) {
        lemma_hit(rects, x, y, i + 1);
    } else if i < rects.len() {
        let k = i;
        assert(rects[k] == rects[i]);
    }
}

/// A click on a window's label in the status line makes it the current one;
/// a click anywhere else in that line does nothing.
pub proof fn lemma_click_on_label(ss: Seq<SessionState>, opts: Options, i: int, c: Client, e: MouseEvent, k: int)
    requires
        0 <= i < ss.len(),
        c.chooser is None,
        c.drag is None,
        !e.sideways,
        opts.status,
        c.rows > 0,
        e.y == if opts.status_top {
            0
        } else {
            c.rows - 1
        },
        e.pressed == 1,
    ensures
        0 <= k < c.window_hits@.len() && c.window_hits@[k].0 <= e.x < c.window_hits@[k].1 && (forall|j: int|
            0 <= j < k ==> !((#[trigger] c.window_hits@[j]).0 <= e.x < c.window_hits@[j].1)) ==> {
            let r = mouse_at(ss, opts, i, c, e);
            r.step is Window && r.states == ss.update(i, ss[i].with_current(k))
        },
        (forall|j: int| 0 <= j < c.window_hits@.len() ==> !((#[trigger] c.window_hits@[j]).0 <= e.x
            < c.window_hits@[j].1)) ==> {
            let r = mouse_at(ss, opts, i, c, e);
            r.step is Nothing && r.states == ss
        },
{
    lemma_label_under(c.window_hits@, e.x, 0);
    assert(1u32 & 1 == 1) by (bit_vector);
}

/// A press in a pane gives it the focus, where the mouse is on, and the pane
/// is told the place within it.
pub proof fn lemma_click_in_pane(ss: Seq<SessionState>, opts: Options, i: int, c: Client, e: MouseEvent)
    requires
        0 <= i < ss.len(),
        c.chooser is None,
        c.drag is None,
        !e.sideways,
        !opts.status,
        c.view_x == 0 && c.view_y == 0,
    ensures
        ({
            let w = ss[i].windows[ss[i].cur];
            let r = mouse_at(ss, opts, i, c, e);
            let under = hit_in(w.rects, e.x as int, e.y as int, 0);
            &&& under is Some ==> {
                let (id, rect) = under->0;
                &&& r.step matches MouseStep::Pane { id: to, px, py, event } && to == id && px == e.x - rect.x && py
                    == e.y - rect.y && event == e
                &&& (e.pressed != 0 || e.wheel is Some) && opts.mouse && id != w.active ==> r.states == edited(
                    ss,
                    i,
                    ss[i].cur,
                    w.focused(id),
                )
                &&& (e.pressed == 0 && e.wheel is None || !opts.mouse || id == w.active) ==> r.states == ss
            }
            &&& under is None ==> r.step is Nothing && r.states == ss
        }),
{
    lemma_hit(ss[i].windows[ss[i].cur].rects, e.x as int, e.y as int, 0);
}

/// Dragging a border moves it by as many cells as the mouse went, towards
/// where it went.
pub proof fn lemma_border_dragged(d: crate::client::Drag, pos: u16)
    requires
        d.last <= u16::MAX,
    ensures
        d.horizontal && pos > d.last ==> crate::mouse_flow::drag_dir(d, pos as int) is Right,
        d.horizontal && pos < d.last ==> crate::mouse_flow::drag_dir(d, pos as int) is Left,
        !d.horizontal && pos > d.last ==> crate::mouse_flow::drag_dir(d, pos as int) is Down,
        !d.horizontal && pos < d.last ==> crate::mouse_flow::drag_dir(d, pos as int) is Up,
        pos >= d.last ==> crate::mouse_flow::drag_amount(d, pos as int) == pos - d.last,
        pos < d.last ==> crate::mouse_flow::drag_amount(d, pos as int) == d.last - pos,
{
}

/// A new session has one window with one pane, which has the focus; a client
/// that goes to another session remembers the one it was in.
pub proof fn lemma_session_begun(
    opts: Options,
    id: SessionId,
    name: Seq<char>,
    wid: WindowId,
    title: Seq<char>,
    p: Pane,
    cols: u16,
    rows: u16,
    now: u64,
    created_at: i64,
    c: Client,
)
    requires
        cols > 0 && rows > 0,
    ensures
        ({
            let s = fresh_session(opts, id, name, wid, title, p, cols, rows, now, created_at);
            &&& s.id == id && s.name == name && s.cols == cols && s.rows == rows
            &&& s.windows.len() == 1 && s.cur == 0 && s.last is None
            &&& s.windows[0].id == wid && s.windows[0].name == title
            &&& s.windows[0].active == p.id && panes(s.windows[0].tree) == seq![p.id]
            &&& s.created == now && s.last_used == now && s.created_at == created_at
        }),
        moved_client(c, id).session == Some(id),
        moved_client(c, id).last_session == c.session,
{
}

/// A session that is used has its moment set, and no other changes.
pub proof fn lemma_session_used(ss: Seq<SessionState>, sid: SessionId, now: u64, k: int)
    requires
        0 <= k < ss.len(),
        ss[k].id == sid,
        forall|j: int| 0 <= j < k ==> (#[trigger] ss[j]).id != sid,
    ensures
        touched(ss, sid, now).len() == ss.len(),
        touched(ss, sid, now)[k].last_used == now,
        touched(ss, sid, now)[k].windows == ss[k].windows,
        forall|j: int| 0 <= j < ss.len() && j != k ==> #[trigger] touched(ss, sid, now)[j] == ss[j],
{
    lemma_session_at(ss, sid, k, 0);
}

proof fn lemma_session_at(ss: Seq<SessionState>, sid: SessionId, k: int, i: int)
    requires
        0 <= i <= k < ss.len(),
        ss[k].id == sid,
        forall|j: int| i <= j < k ==> (#[trigger] ss[j]).id != sid,
    ensures
        crate::server::session_place(ss, sid, i) == k,
    decreases k - i,
{
    if i < k {
        lemma_session_at(ss, sid, k, i + 1);
    }
}

} // verus!
