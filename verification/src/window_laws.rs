//! What happens to windows and to the panes in them.
use vstd::arithmetic::div_mod::{lemma_mod_add_multiples_vanish, lemma_mod_self_0, lemma_small_mod};
use vstd::prelude::*;

use crate::arrange::{is_picked, place_in, PaneSel};
use crate::command::Dir;
use crate::edit::others;
use crate::layout::{panes, PaneId, Rect, Tree};
use crate::layout_laws::{halves, lemma_edge_moves, lemma_split_halves};
use crate::pane::Pane;
use crate::resize::{pushed, resized};
use crate::session::SessionState;
use crate::text::decimal;
use crate::window::{bordered, pane_under, WindowState};

verus! {

/// The pane under a place on the screen is one whose rectangle the place lies
/// in; there is none only where no rectangle has it.
pub proof fn lemma_pane_under(rects: Seq<(PaneId, Rect)>, x: int, y: int, from: int)
    requires
        0 <= from,
    ensures
        match pane_under(rects, x, y, from) {
            Some(id) => exists|k: int|
                from <= k < rects.len() && (#[trigger] rects[k]).0 == id && rects[k].1.x <= x < rects[k].1.x + rects[k].1.w
                    && rects[k].1.y <= y < rects[k].1.y + rects[k].1.h,
            None => forall|k: int|
                from <= k < rects.len() ==> {
                    let r = (#[trigger] rects[k]).1;
                    x < r.x || r.x + r.w <= x || y < r.y || r.y + r.h <= y
                },
        },
    decreases rects.len() - from,
{
    if from < rects.len() {
        if !rects[from].1.has(x, y) {
            lemma_pane_under(rects, x, y, from + 1);
        }
    }
}

/// A line above panes takes their first row and one below them their last;
/// a pane of one row keeps it.
pub proof fn lemma_border_row(r: Rect, border: Option<bool>)
    requires
        r.fits(),
    ensures
        ({
            let b = bordered(r, border);
            &&& b.x == r.x && b.w == r.w
            &&& border is None || r.h < 2 ==> b == r
            &&& border == Some(true) && r.h >= 2 ==> b.y == r.y + 1 && b.h == r.h - 1
            &&& border == Some(false) && r.h >= 2 ==> b.y == r.y && b.h == r.h - 1
        }),
{
}

/// A zoomed window shows its active pane alone, on all of the area; otherwise
/// every pane of the layout is shown.
pub proof fn lemma_zoom_shows_one(w: WindowState, area: Rect)
    requires
        w.wf(),
        area.fits(),
    ensures
        w.zoomed ==> w.laid_out(area, None).rects =~= seq![(w.active, area)],
        !w.zoomed ==> w.laid_out(area, None).rects.len() == panes(w.tree).len() && forall|i: int|
            0 <= i < panes(w.tree).len() ==> (#[trigger] w.laid_out(area, None).rects[i]).0 == panes(w.tree)[i],
{
    crate::layout::lemma_placed_panes(w.tree, area);
}

proof fn lemma_has_concat(a: Seq<char>, b: Seq<char>, c: char)
    ensures
        (a + b).contains(c) <==> a.contains(c) || b.contains(c),
{
    if a.contains(c) {
        let i = choose|i: int| 0 <= i < a.len() && a[i] == c;
        assert((a + b)[i] == c);
    }
    if b.contains(c) {
        let i = choose|i: int| 0 <= i < b.len() && b[i] == c;
        assert((a + b)[a.len() + i] == c);
    }
    if (a + b).contains(c) {
        let i = choose|i: int| 0 <= i < (a + b).len() && (a + b)[i] == c;
        if i < a.len() {
            assert(a[i] == c);
        } else {
            assert(b[i - a.len()] == c);
        }
    }
}

spec fn flag(on: bool, c: char) -> Seq<char> {
    if on {
        seq![c]
    } else {
        Seq::empty()
    }
}

proof fn lemma_flag(on: bool, c: char, d: char)
    ensures
        flag(on, c).contains(d) <==> on && c == d,
{
    if on {
        assert(flag(on, c)[0] == c);
    }
}

/// The flags of a window: `*` on the current one and `-` on the one before,
/// `#` for activity, `!` for a bell, `~` for silence, `Z` for a zoom and `S`
/// for panes that are typed into together.
pub proof fn lemma_flags(w: WindowState, current: bool, last: bool)
    ensures
        w.flag_text(current, last).contains('*') == current,
        w.flag_text(current, last).contains('-') == (last && !current),
        w.flag_text(current, last).contains('#') == w.activity,
        w.flag_text(current, last).contains('!') == w.bell,
        w.flag_text(current, last).contains('~') == w.silence,
        w.flag_text(current, last).contains('Z') == w.zoomed,
        w.flag_text(current, last).contains('S') == w.synchronized,
{
    lemma_flags_of(w, current, last, '*');
    lemma_flags_of(w, current, last, '-');
    lemma_flags_of(w, current, last, '#');
    lemma_flags_of(w, current, last, '!');
    lemma_flags_of(w, current, last, '~');
    lemma_flags_of(w, current, last, 'Z');
    lemma_flags_of(w, current, last, 'S');
}

proof fn lemma_flags_of(w: WindowState, current: bool, last: bool, d: char)
    ensures
        w.flag_text(current, last).contains(d) <==> (current && d == '*') || (last && !current && d == '-') || (w.activity
            && d == '#') || (w.bell && d == '!') || (w.silence && d == '~') || (w.zoomed && d == 'Z') || (w.synchronized
            && d == 'S'),
{
    let a = if current {
        flag(true, '*')
    } else {
        flag(last, '-')
    };
    let b = flag(w.activity, '#');
    let c = flag(w.bell, '!');
    let e = flag(w.silence, '~');
    let f = flag(w.zoomed, 'Z');
    let g = flag(w.synchronized, 'S');
    assert(w.flag_text(current, last) =~= a + b + c + e + f + g);
    lemma_flag(current, '*', d);
    lemma_flag(last, '-', d);
    lemma_flag(w.activity, '#', d);
    lemma_flag(w.bell, '!', d);
    lemma_flag(w.silence, '~', d);
    lemma_flag(w.zoomed, 'Z', d);
    lemma_flag(w.synchronized, 'S', d);
    lemma_has_concat(a, b, d);
    lemma_has_concat(a + b, c, d);
    lemma_has_concat(a + b + c, e, d);
    lemma_has_concat(a + b + c + e, f, d);
    lemma_has_concat(a + b + c + e + f, g, d);
}

/// A pane that closes is gone and the others are there, in their order. When
/// it was the active one, the pane active before it is again, or the first of
/// the layout when that is gone too; and a zoom ends. Otherwise the active
/// pane stays.
pub proof fn lemma_closed(w: WindowState, id: PaneId)
    requires
        w.wf(),
        w.has(id),
        w.panes.len() > 1,
    ensures
        ({
            let b = w.closed(id);
            &&& forall|p: PaneId| #[trigger] b.has(p) <==> w.has(p) && p != id
            &&& panes(b.tree) == others(panes(w.tree), id)
            &&& w.active != id ==> b.active == w.active && b.zoomed == w.zoomed
            &&& w.active == id && w.last_pane is Some && w.last_pane->0 != id && w.has(w.last_pane->0) ==> b.active
                == w.last_pane->0
            &&& w.active == id && !(w.last_pane is Some && w.last_pane->0 != id && w.has(w.last_pane->0)) ==> b.active
                == panes(b.tree)[0]
            &&& w.active == id ==> !b.zoomed
            &&& b.last_pane != Some(id)
        }),
{
    crate::window_edit::lemma_without(w, id);
}

/// A pane that leaves its window for another leaves the first of the layout
/// active there when it was the active one; the window is not zoomed after.
pub proof fn lemma_left_behind(w: WindowState, id: PaneId)
    requires
        w.wf(),
        w.has(id),
        w.panes.len() > 1,
    ensures
        ({
            let (b, g) = (w.broken(id), w.given(id));
            &&& panes(b.tree) == others(panes(w.tree), id) && panes(g.tree) == others(panes(w.tree), id)
            &&& w.active != id ==> b.active == w.active && g.active == w.active
            &&& w.active == id ==> b.active == panes(b.tree)[0] && g.active == panes(g.tree)[0]
            &&& !b.zoomed && !g.zoomed
            &&& b.last_pane is None
            &&& g.last_pane != Some(id)
        }),
{
    crate::window_edit::lemma_without(w, id);
}

/// A pane that is focused is the active one, and the one that was is the last.
pub proof fn lemma_focused(w: WindowState, id: PaneId)
    ensures
        w.focused(id).active == id,
        w.focused(id).last_pane == Some(w.active),
        w.focused(id).tree == w.tree,
        w.focused(id).panes == w.panes,
        w.focused(id).zoomed == w.zoomed,
{
}

/// A pane that joins a window beside another shares that one's room with it:
/// side by side when the split is horizontal, the new one to the right, or to
/// the left when it goes before; otherwise below or above.
pub proof fn lemma_joined_beside(w: WindowState, target: PaneId, horizontal: bool, p: Pane, extent: int, before: bool)
    requires
        w.wf(),
        w.has(target),
        !w.has(p.id),
        extent >= 3,
    ensures
        ({
            let b = w.joined(target, horizontal, p, extent, before);
            &&& !before ==> halves(b.tree, target, p.id, horizontal, extent, target)
            &&& before ==> halves(b.tree, p.id, target, horizontal, extent, target)
            &&& b.panes == w.panes.push(p)
            &&& b.active == w.active
        }),
{
    assert(panes(w.tree).contains(target));
    lemma_split_halves(w.tree, target, horizontal, p.id, extent, before);
}

/// Moving an edge of a pane to the right makes it wider, and to the left
/// narrower; down makes it higher and up lower; for the last pane of a row it
/// is the edge before it that moves. Across a row of panes below each other,
/// and down one of panes side by side, no edge moves.
pub proof fn lemma_nudged_edge(w: WindowState, id: PaneId, dir: Dir, amount: u16, k: int)
    requires
        w.wf(),
        w.tree is Split,
        0 <= k < w.tree->children.len(),
        w.tree->children[k] == Tree::Leaf(id),
        w.tree->children.len() >= 2,
        forall|i: int| 0 <= i < w.tree->children.len() ==> (#[trigger] w.tree->children[i]) is Leaf,
        forall|i: int| 0 <= i < w.tree->sizes.len() ==> 1 <= #[trigger] w.tree->sizes[i] < 20000,
        0 < amount < 20000,
    ensures
        ({
            let b = w.nudged(id, dir, amount);
            let (was, is) = (w.tree->sizes, b.tree->sizes);
            let n = was.len() as int;
            let edge = if k == n - 1 {
                n - 2
            } else {
                k
            };
            &&& w.tree->horizontal && (dir is Up || dir is Down) ==> b == w
            &&& !w.tree->horizontal && (dir is Left || dir is Right) ==> b == w
            &&& (w.tree->horizontal && dir is Right || !w.tree->horizontal && dir is Down) && was[edge + 1] - 1 >= amount
                ==> is[edge] == was[edge] + amount && is[edge + 1] == was[edge + 1] - amount
            &&& (w.tree->horizontal && dir is Left || !w.tree->horizontal && dir is Up) && was[edge] - 1 >= amount
                ==> is[edge] == was[edge] - amount && is[edge + 1] == was[edge + 1] + amount
            &&& b.tree->children == w.tree->children
        }),
{
    let t = w.tree;
    let grow = dir is Right || dir is Down;
    let children = t->children;
    crate::edit::lemma_first_with(children, id, 0);
    let f = crate::edit::first_with(children, id, 0);
    assert(panes(children[k])[0] == id);
    assert(panes(children[k]).contains(id));
    assert(f < children.len());
    assert(children[f] is Leaf);
    assert(panes(children[f]) == seq![children[f]->Leaf_0]);
    assert(children[f] == Tree::Leaf(id));
    assert(f == k) by {
        if f < k {
            crate::edit::lemma_flat_around(children, f);
            assert(panes(t).no_duplicates());
            lemma_leaf_places(children, children.len());
            assert(panes(t)[f] == id && panes(t)[k] == id);
        }
    }
    lemma_edge_moves(t->sizes, k, grow, amount as int);
    let across = dir is Left || dir is Right;
    assert(resized(children[k], id, across, grow, amount as int) is None);
    assert(resized(t, id, across, grow, amount as int) == if t->horizontal != across {
        None
    } else {
        match pushed(t->sizes, k, grow, amount as int) {
            Some(row) => Some(Tree::Split { horizontal: t->horizontal, children, sizes: row }),
            None => None,
        }
    });
}

proof fn lemma_leaf_places(children: Seq<Tree>, k: nat)
    requires
        k <= children.len(),
        forall|i: int| 0 <= i < children.len() ==> (#[trigger] children[i]) is Leaf,
    ensures
        crate::layout::panes_upto(children, k).len() == k,
        forall|i: int| 0 <= i < k ==> #[trigger] crate::layout::panes_upto(children, k)[i] == children[i]->Leaf_0,
    decreases k,
{
    if k > 0 {
        lemma_leaf_places(children, (k - 1) as nat);
        assert(children[k - 1] is Leaf);
        assert(panes(Tree::Leaf(children[k - 1]->Leaf_0)) == seq![children[k - 1]->Leaf_0]);
    }
}

/// What `select-pane` goes to: the pane after or before the active one in the
/// layout, going round; the one active before; the one of that number; or the
/// one that is named.
pub proof fn lemma_picked(w: WindowState, sel: PaneSel, named: PaneId, area: Rect, base: usize, found: Option<PaneId>, k: int)
    requires
        w.wf(),
        is_picked(w, sel, named, area, base, found),
        0 <= k < panes(w.tree).len(),
        panes(w.tree)[k] == w.active,
    ensures
        ({
            let all = panes(w.tree);
            let n = all.len() as int;
            &&& sel is Next ==> found == Some(
                all[if k == n - 1 {
                    0
                } else {
                    k + 1
                }],
            )
            &&& sel is Prev ==> found == Some(
                all[if k == 0 {
                    n - 1
                } else {
                    k - 1
                }],
            )
            &&& sel is Last && w.last_pane is Some && w.has(w.last_pane->0) ==> found == w.last_pane
            &&& sel is Last && w.last_pane is None ==> found is None
            &&& sel is Target ==> found == Some(named)
            &&& forall|i: int|
                0 <= i < n && base + i <= usize::MAX && sel == PaneSel::Index((base + i) as usize) ==> found == Some(
                    #[trigger] all[i],
                )
        }),
{
    let all = panes(w.tree);
    let n = all.len() as int;
    crate::arrange::lemma_place_in(all, w.active, 0);
    let cur = place_in(all, w.active, 0);
    assert(all.contains(w.active));
    assert(cur == k) by {
        if cur < k {
            assert(all[cur] == all[k]);
        }
    }
    lemma_around(cur, n);
}

/// One place on and one place back in a ring of `n`.
pub proof fn lemma_around(cur: int, n: int)
    requires
        0 <= cur < n,
    ensures
        (cur + 1) % n == if cur == n - 1 {
            0
        } else {
            cur + 1
        },
        (cur + n - 1) % n == if cur == 0 {
            n - 1
        } else {
            cur - 1
        },
{
    if cur < n - 1 {
        lemma_small_mod((cur + 1) as nat, n as nat);
    } else {
        lemma_mod_self_0(n);
    }
    if cur > 0 {
        lemma_mod_add_multiples_vanish(cur - 1, n);
        lemma_small_mod((cur - 1) as nat, n as nat);
    } else {
        lemma_small_mod((n - 1) as nat, n as nat);
    }
}

/// A window that is selected is the current one, and the one that was is the
/// last; to select the current one changes nothing.
pub proof fn lemma_window_selected(s: SessionState, idx: int)
    requires
        s.sound(),
        0 <= idx < s.windows.len(),
    ensures
        s.with_current(idx).cur == idx,
        idx != s.cur ==> s.with_current(idx).last == Some(s.windows[s.cur].id),
        idx == s.cur ==> s.with_current(idx) == s,
        s.with_current(idx).windows == s.windows,
{
}

/// What a name for a window stands for: a number that window, counted from
/// the base; `+` and `next` the one after the current, `-` and `prev` the one
/// before, going round; nothing the current one; any other name a window of
/// that name.
pub proof fn lemma_window_names(s: SessionState, base: usize)
    requires
        s.sound(),
    ensures
        s.window_named(None, None, base) == Ok::<int, Seq<char>>(s.cur),
        forall|k: int|
            0 <= k < s.windows.len() && base + k <= usize::MAX ==> #[trigger] s.window_named(
                None,
                Some(decimal((base + k) as nat)),
                base,
            ) == Ok::<int, Seq<char>>(k),
        s.window_named(None, Some("+"@), base) == Ok::<int, Seq<char>>(
            if s.cur == s.windows.len() - 1 {
                0
            } else {
                s.cur + 1
            },
        ),
        s.window_named(None, Some("next"@), base) == s.window_named(None, Some("+"@), base),
        s.window_named(None, Some("-"@), base) == Ok::<int, Seq<char>>(
            if s.cur == 0 {
                s.windows.len() - 1
            } else {
                s.cur - 1
            },
        ),
        s.window_named(None, Some("prev"@), base) == s.window_named(None, Some("-"@), base),
{
    let n = s.windows.len() as int;
    lemma_around(s.cur, n);
    assert forall|k: int| 0 <= k < n && base + k <= usize::MAX implies #[trigger] s.window_named(
        None,
        Some(decimal((base + k) as nat)),
        base,
    ) == Ok::<int, Seq<char>>(k) by {
        crate::text_laws::lemma_number_read((base + k) as nat, usize::MAX as int);
    }
    lemma_no_number("+"@, "next"@);
    lemma_no_number("-"@, "prev"@);
}

proof fn lemma_no_number(a: Seq<char>, b: Seq<char>)
    requires
        a == "+"@ && b == "next"@ || a == "-"@ && b == "prev"@,
    ensures
        crate::text::number_of(a, usize::MAX as int) is None,
        crate::text::number_of(b, usize::MAX as int) is None,
        "+"@ != "-"@,
        "+"@ != "prev"@,
        "next"@ != "-"@,
        "next"@ != "prev"@,
        "prev"@ != "+"@,
{
    reveal_strlit("+");
    reveal_strlit("-");
    reveal_strlit("next");
    reveal_strlit("prev");
    assert("+"@[0] == '+' && "-"@[0] == '-' && "next"@[0] == 'n' && "prev"@[0] == 'p');
    if a == "+"@ {
        assert(a.skip(1).len() == 0);
        assert(!crate::text::is_digit(b[0]));
    } else {
        assert(!crate::text::is_digit(a[0]));
        assert(!crate::text::is_digit(b[0]));
    }
}

/// A name that a target has for a window is that of a window, or its number
/// behind `@`, and the first such window is meant.
pub proof fn lemma_window_called(ws: Seq<WindowState>, name: Seq<char>, from: int)
    requires
        0 <= from <= ws.len(),
    ensures
        ({
            let k = crate::session::window_called(ws, name, from);
            &&& from <= k <= ws.len()
            &&& k < ws.len() ==> ws[k].name == name || name == seq!['@'] + decimal(ws[k].id as nat) || (name.len() > 0
                && name[0] == '@')
            &&& forall|j: int| from <= j < k ==> (#[trigger] ws[j]).name != name && name != seq!['@'] + decimal(
                ws[j].id as nat,
            )
        }),
    decreases ws.len() - from,
{
    if from < ws.len() {
        let own = seq!['@'] + decimal(ws[from].id as nat);
        assert(own.skip(1) =~= decimal(ws[from].id as nat));
        crate::text_laws::lemma_number_read(ws[from].id as nat, u32::MAX as int);
        if !(ws[from].name == name || crate::session::id_behind(name, '@') == Some(ws[from].id as int)) {
            lemma_window_called(ws, name, from + 1);
        }
    }
}

/// A window that closes leaves the others in their order. The one current
/// before is current again when it is still there; else the current window
/// stays the current one, and when it was the one that closed, the next takes
/// its place, or the one before when it was the last.
pub proof fn lemma_window_closed(s: SessionState, w: int)
    requires
        s.sound(),
        0 <= w < s.windows.len(),
        s.windows.len() > 1,
    ensures
        ({
            let b = s.less_window(w);
            let gone = s.windows[w].id;
            let kept = s.last is Some && s.last->0 != gone && exists|i: int|
                0 <= i < s.windows.len() && (#[trigger] s.windows[i]).id == s.last->0;
            &&& b.windows == s.windows.remove(w)
            &&& 0 <= b.cur < b.windows.len()
            &&& kept ==> b.windows[b.cur].id == s.last->0 && b.last is None
            &&& !kept && s.cur != w ==> b.windows[b.cur] == s.windows[s.cur]
            &&& !kept && s.cur == w && w < s.windows.len() - 1 ==> b.windows[b.cur] == s.windows[w + 1]
            &&& !kept && s.cur == w && w == s.windows.len() - 1 ==> b.windows[b.cur] == s.windows[w - 1]
            &&& b.last != Some(gone)
        }),
{
    let rest = s.windows.remove(w);
    let gone = s.windows[w].id;
    if let Some(id) = s.last {
        crate::session::lemma_window_place(rest, id, 0);
        let k = crate::session::window_place(rest, id, 0);
        if id != gone {
            if exists|i: int| 0 <= i < s.windows.len() && (#[trigger] s.windows[i]).id == id {
                let i = choose|i: int| 0 <= i < s.windows.len() && (#[trigger] s.windows[i]).id == id;
                let j = if i < w {
                    i
                } else {
                    i - 1
                };
                assert(i != w);
                assert(rest[j] == s.windows[i]);
                assert(k < rest.len());
            } else if k < rest.len() {
                let i = if k < w {
                    k
                } else {
                    k + 1
                };
                assert(s.windows[i].id == id);
            }
        }
    }
}

/// `next-window -a` and `previous-window -a` go to the nearest window in that
/// direction that has something to tell, going round, the current one last.
pub proof fn lemma_next_alert(s: SessionState, forward: bool, d: int)
    requires
        s.sound(),
        1 <= d <= s.windows.len() + 1,
    ensures
        ({
            let n = s.windows.len() as int;
            let at = |e: int|
                if forward {
                    (s.cur + e) % n
                } else {
                    (s.cur + n - e % n) % n
                };
            let told = |i: int| s.windows[i].activity || s.windows[i].bell || s.windows[i].silence;
            match s.alert_from(d, forward) {
                Some(k) => told(k) && exists|e: int|
                    d <= e <= n && k == #[trigger] at(e) && forall|f: int| d <= f < e ==> !told(#[trigger] at(f)),
                None => forall|f: int| d <= f <= n ==> !told(#[trigger] at(f)),
            }
        }),
    decreases s.windows.len() - d + 1,
{
    let n = s.windows.len() as int;
    let at = |e: int|
        if forward {
            (s.cur + e) % n
        } else {
            (s.cur + n - e % n) % n
        };
    let told = |i: int| s.windows[i].activity || s.windows[i].bell || s.windows[i].silence;
    if d <= n {
        assert(at(d) == s.on_by(d, forward));
        if !told(at(d)) {
            lemma_next_alert(s, forward, d + 1);
            if let Some(k) = s.alert_from(d + 1, forward) {
                let e = choose|e: int|
                    d + 1 <= e <= n && k == #[trigger] at(e) && forall|f: int| d + 1 <= f < e ==> !told(#[trigger] at(f));
                assert(forall|f: int| d <= f < e ==> !told(#[trigger] at(f)));
            }
        } else {
            assert(s.alert_from(d, forward) == Some(at(d)));
        }
    }
}

} // verus!
