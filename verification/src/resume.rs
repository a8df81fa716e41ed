//! Saved sessions that come back: what of them is as it was.
use vstd::prelude::*;

use crate::arrange::{lemma_place_in, place_in};
use crate::keeping::rebuilt;
use crate::layout::{
    cell_rect, cells_of, lemma_laid_out_twice, panes, refitted, PaneId, Rect, Tree,
};
use crate::pane::Pane;
use crate::saved::{laid_tree, lemma_saved_comes_back, lemma_saved_starts, same_form, starts};
use crate::saving::{came_back, session_saved, window_saved, SavedSession, SavedWindow};
use crate::server::{area_of, border_of, Options};
use crate::server_edit::laid_anew;
use crate::session::{all_laid_out, SessionState};
use crate::window::{ids, lemma_laid_out, WindowState};

verus! {

/// Window `b` is window `w` again, with other panes: its name, its splits
/// with their directions and sizes, the place of the active pane, and
/// whether that is zoomed.
pub open spec fn resumed(w: WindowState, b: WindowState) -> bool {
    &&& b.name == w.name
    &&& same_form(w.tree, b.tree)
    &&& b.panes.len() == w.panes.len()
    &&& place_in(panes(b.tree), b.active, 0) == place_in(panes(w.tree), w.active, 0)
    &&& b.zoomed == (w.zoomed && w.panes.len() > 1)
}

/// Session `b` is session `s` again: its name, its windows in their order,
/// and which of them is current.
pub open spec fn session_resumed(s: SessionState, b: SessionState) -> bool {
    &&& b.name == s.name
    &&& b.cur == s.cur
    &&& b.windows.len() == s.windows.len()
    &&& forall|k: int| 0 <= k < s.windows.len() ==> resumed(#[trigger] s.windows[k], b.windows[k])
}

/// Window `w` laid out in `area` so many times.
pub open spec fn laid_times(w: WindowState, area: Rect, border: Option<bool>, n: nat) -> WindowState
    decreases n,
{
    if n == 0 {
        w
    } else {
        laid_times(w, area, border, (n - 1) as nat).laid_out(area, border)
    }
}

/// A saved window comes back as it was, in the window `made` for it and with
/// the panes `list` that were started for it.
pub proof fn lemma_window_resumed(
    w: WindowState,
    saved: SavedWindow,
    h: Seq<(PaneId, Vec<String>)>,
    d: Seq<(PaneId, String)>,
    made: WindowState,
    list: Seq<Pane>,
)
    requires
        w.wf(),
        window_saved(saved, w, h, d),
        made.name == saved.name@,
        list.len() == starts(saved.layout@).len(),
        ids(list).no_duplicates(),
    ensures
        ({
            let b = rebuilt(made, list, laid_tree(saved.layout@, ids(list)), saved.active, saved.zoomed);
            &&& resumed(w, b)
            &&& b.wf()
        }),
{
    let of = ids(list);
    let tree = laid_tree(saved.layout@, of);
    let b = rebuilt(made, list, tree, saved.active, saved.zoomed);
    lemma_saved_starts(w.tree, w.panes, h, d);
    assert(of.len() == list.len());
    lemma_saved_comes_back(w.tree, w.panes, h, d, of);
    lemma_place_in(panes(w.tree), w.active, 0);
    assert(panes(w.tree).contains(w.active));
    let k = place_in(panes(w.tree), w.active, 0);
    assert(b.active == of[k]);
    lemma_place_unique(of, k, 0);
    assert(of.contains(b.active));
}

/// Where each is listed once, the place of the one at `k` is `k`.
proof fn lemma_place_unique(s: Seq<PaneId>, k: int, i: int)
    requires
        s.no_duplicates(),
        0 <= i <= k < s.len(),
    ensures
        place_in(s, s[k], i) == k,
    decreases k - i,
{
    if i < k {
        lemma_place_unique(s, k, i + 1);
    }
}

/// Layouts of the same form are of the same form again when they are laid
/// out in one rectangle.
pub proof fn lemma_forms_laid_out(a: Tree, b: Tree, rect: Rect)
    requires
        same_form(a, b),
    ensures
        same_form(refitted(a, rect), refitted(b, rect)),
    decreases a,
{
    if let Tree::Split { horizontal, children, sizes } = a {
        let x = refitted(a, rect)->children;
        let y = refitted(b, rect)->children;
        assert forall|i: int| 0 <= i < x.len() implies same_form(#[trigger] x[i], y[i]) by {
            let cell = cell_rect(rect, horizontal, cells_of(sizes, rect.extent(horizontal)), i);
            assert(same_form(children[i], b->children[i]));
            lemma_forms_laid_out(children[i], b->children[i], cell);
        }
    }
}

/// A window that came back is laid out as the one that was saved would be.
pub proof fn lemma_resumed_laid_out(w: WindowState, b: WindowState, area: Rect, border: Option<bool>)
    requires
        w.wf(),
        b.wf(),
        area.fits(),
        resumed(w, b),
        w.zoomed && w.panes.len() == 1 ==> w.tree is Leaf,
    ensures
        resumed(w.laid_out(area, border), b.laid_out(area, border)),
        w.laid_out(area, border).wf(),
        b.laid_out(area, border).wf(),
        w.laid_out(area, border).zoomed && w.panes.len() == 1 ==> w.laid_out(area, border).tree is Leaf,
{
    lemma_laid_out(w, area, border);
    lemma_laid_out(b, area, border);
    lemma_forms_laid_out(w.tree, b.tree, area);
}

/// A window laid out in an area stays as it is when it is laid out there
/// again, but for the panes and where they are drawn.
proof fn lemma_laid_out_stays(w: WindowState, area: Rect, border: Option<bool>)
    requires
        w.wf(),
        area.fits(),
    ensures
        ({
            let once = w.laid_out(area, border);
            let twice = once.laid_out(area, border);
            &&& twice.tree == once.tree
            &&& twice.zoomed == once.zoomed
            &&& twice.name == once.name
            &&& twice.active == once.active
            &&& twice.panes.len() == once.panes.len()
        }),
{
    lemma_laid_out(w, area, border);
    lemma_laid_out_twice(w.tree, area);
}

/// However often it is laid out there, a window that came back is as the
/// saved one laid out once.
proof fn lemma_resumed_times(w: WindowState, b: WindowState, area: Rect, border: Option<bool>, n: nat)
    requires
        w.wf(),
        b.wf(),
        area.fits(),
        resumed(w, b),
        w.zoomed && w.panes.len() == 1 ==> w.tree is Leaf,
        n > 0,
    ensures
        resumed(w.laid_out(area, border), laid_times(b, area, border, n)),
        laid_times(b, area, border, n).wf(),
    decreases n,
{
    let once = w.laid_out(area, border);
    if n == 1 {
        assert(laid_times(b, area, border, 0) == b);
        lemma_resumed_laid_out(w, b, area, border);
    } else {
        lemma_resumed_times(w, b, area, border, (n - 1) as nat);
        lemma_resumed_laid_out(w, b, area, border);
        lemma_resumed_laid_out(once, laid_times(b, area, border, (n - 1) as nat), area, border);
        lemma_laid_out_stays(w, area, border);
    }
}

/// A saved session comes back as it was: `made` is the session made for it,
/// whose windows are rebuilt with the panes `lists` that were started for
/// them, and since then laid out as often as `times` says. It has the name,
/// the windows with their names, splits, directions, sizes and active
/// places, and the current window of session `s` as that would be laid out
/// at its size; where `s` was laid out so when it was saved, those of `s`.
pub proof fn lemma_session_resumed(
    s: SessionState,
    saved: SavedSession,
    h: Seq<(PaneId, Vec<String>)>,
    d: Seq<(PaneId, String)>,
    new: Seq<WindowState>,
    lists: Seq<Seq<Pane>>,
    times: Seq<nat>,
    made: SessionState,
    opts: Options,
)
    requires
        s.wf(),
        forall|k: int|
            0 <= k < s.windows.len() && (#[trigger] s.windows[k]).zoomed && s.windows[k].panes.len() == 1
                ==> s.windows[k].tree is Leaf,
        session_saved(saved, s, h, d),
        made.name == saved.name@,
        made.cols >= 1,
        made.rows >= 1,
        new.len() == lists.len() == times.len() == made.windows.len() == saved.windows@.len(),
        forall|k: int| 0 <= k < new.len() ==> (#[trigger] new[k]).name == saved.windows@[k].name@,
        forall|k: int|
            0 <= k < lists.len() ==> (#[trigger] lists[k]).len() == starts(saved.windows@[k].layout@).len() && ids(
                lists[k],
            ).no_duplicates(),
        forall|k: int|
            0 <= k < made.windows.len() ==> #[trigger] made.windows[k] == laid_times(
                rebuilt(
                    new[k],
                    lists[k],
                    laid_tree(saved.windows@[k].layout@, ids(lists[k])),
                    saved.windows@[k].active,
                    saved.windows@[k].zoomed,
                ),
                area_of(opts, made.cols, made.rows),
                border_of(opts),
                times[k],
            ),
    ensures
        ({
            let area = area_of(opts, made.cols, made.rows);
            let border = border_of(opts);
            let back = laid_anew(came_back(made, saved.current as int), opts);
            &&& session_resumed(SessionState { windows: all_laid_out(s.windows, area, border), ..s }, back)
            &&& (forall|k: int|
                0 <= k < s.windows.len() ==> (#[trigger] s.windows[k]).laid_out(area, border).tree == s.windows[k].tree)
                ==> session_resumed(s, back)
        }),
{
    let area = area_of(opts, made.cols, made.rows);
    let border = border_of(opts);
    let back = laid_anew(came_back(made, saved.current as int), opts);
    let laid = all_laid_out(s.windows, area, border);
    assert forall|k: int| 0 <= k < s.windows.len() implies resumed(#[trigger] laid[k], back.windows[k]) by {
        let w = s.windows[k];
        let tree = laid_tree(saved.windows@[k].layout@, ids(lists[k]));
        let b = rebuilt(new[k], lists[k], tree, saved.windows@[k].active, saved.windows@[k].zoomed);
        assert(w.wf());
        assert(window_saved(saved.windows@[k], w, h, d));
        assert(new[k].name == saved.windows@[k].name@);
        assert(lists[k].len() == starts(saved.windows@[k].layout@).len());
        lemma_window_resumed(w, saved.windows@[k], h, d, new[k], lists[k]);
        lemma_resumed_times(w, b, area, border, times[k] + 1);
        assert(made.windows[k] == laid_times(b, area, border, times[k]));
        assert(back.windows[k] == made.windows[k].laid_out(area, border));
    }
    if forall|k: int|
        0 <= k < s.windows.len() ==> (#[trigger] s.windows[k]).laid_out(area, border).tree == s.windows[k].tree {
        assert forall|k: int| 0 <= k < s.windows.len() implies resumed(#[trigger] s.windows[k], back.windows[k]) by {
            assert(s.windows[k].laid_out(area, border).tree == s.windows[k].tree);
            assert(s.windows[k].wf());
            assert(resumed(laid[k], back.windows[k]));
        }
    }
}

} // verus!
