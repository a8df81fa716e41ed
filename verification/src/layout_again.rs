//! A layout that was written down and read again is the layout on screen.
use vstd::prelude::*;

use crate::fit::{lemma_fitted_entries, lemma_fitted_total, lemma_total_nonneg, lemma_total_part, lemma_total_take, total};
use crate::layout::{
    avail_of, cell_rect, cells_of, lemma_cell, lemma_cell_rect, lemma_panes_count, lemma_placed_panes,
    lemma_placed_tiles, panes, panes_upto, placed, placed_upto, shape, PaneId, Rect, Tree,
};
use crate::layout_text::{
    bounds, bounds_upto, hull, layout_read, layout_text, lemma_layout_round_trip, nested_within, rect_of, skeleton,
};
use crate::resize::{assigned, rest_of};

verus! {

/// Every pane of `t` is on the screen when `t` fills `r`.
pub open spec fn all_shown(t: Tree, r: Rect) -> bool {
    forall|i: int| 0 <= i < placed(t, r).len() ==> (#[trigger] placed(t, r)[i]).1.shown()
}

/// `all` has the panes of `t` where they are when `t` fills `r`.
spec fn places(all: Seq<(PaneId, Rect)>, t: Tree, r: Rect) -> bool {
    forall|i: int| 0 <= i < placed(t, r).len() ==> rect_of(all, (#[trigger] placed(t, r)[i]).0) == placed(t, r)[i].1
}

proof fn lemma_part(children: Seq<Tree>, horizontal: bool, cells: Seq<int>, r: Rect, k: nat, i: int, j: int)
    requires
        0 <= i < k <= children.len(),
        0 <= j < placed(children[i], cell_rect(r, horizontal, cells, i)).len(),
    ensures
        ({
            let at = placed_upto(children, horizontal, cells, r, i as nat).len() + j;
            &&& at < placed_upto(children, horizontal, cells, r, k).len()
            &&& placed_upto(children, horizontal, cells, r, k)[at] == placed(
                children[i],
                cell_rect(r, horizontal, cells, i),
            )[j]
        }),
    decreases k,
{
    if i < k - 1 {
        lemma_part(children, horizontal, cells, r, (k - 1) as nat, i, j);
    }
}

/// What holds of a split holds of its cell `i`, which has room.
proof fn lemma_cell_of(t: Tree, r: Rect, all: Seq<(PaneId, Rect)>, i: int)
    requires
        t is Split,
        shape(t),
        r.fits(),
        all_shown(t, r),
        places(all, t, r),
        0 <= i < t->children.len(),
    ensures
        ({
            let cells = cells_of(t->sizes, r.extent(t->horizontal));
            let c = cell_rect(r, t->horizontal, cells, i);
            &&& shape(t->children[i])
            &&& c.fits()
            &&& all_shown(t->children[i], c)
            &&& places(all, t->children[i], c)
            &&& cells[i] >= 1
        }),
{
    let children = t->children;
    let h = t->horizontal;
    let cells = cells_of(t->sizes, r.extent(h));
    let c = cell_rect(r, h, cells, i);
    let part = placed(children[i], c);
    lemma_cell_rect(r, h, t->sizes, i);
    assert forall|j: int| 0 <= j < part.len() implies (#[trigger] part[j]).1.shown() && rect_of(all, part[j].0)
        == part[j].1 by {
        lemma_part(children, h, cells, r, children.len(), i, j);
        let at = placed_upto(children, h, cells, r, i as nat).len() + j;
        assert(placed(t, r)[at] == part[j]);
    }
    lemma_placed_panes(children[i], c);
    lemma_panes_count(children[i]);
    lemma_placed_tiles(children[i], c);
    assert(part[0].1.shown() && part[0].1.inside(c));
}

/// The box around the first `k` cells of a row.
spec fn head_box(r: Rect, horizontal: bool, cells: Seq<int>, k: int) -> Rect {
    let n = total(cells.take(k)) + k - 1;
    if horizontal {
        Rect { x: r.x, y: r.y, w: n as u16, h: r.h }
    } else {
        Rect { x: r.x, y: r.y, w: r.w, h: n as u16 }
    }
}

proof fn lemma_head_box(
    children: Seq<Tree>,
    sizes: Seq<int>,
    horizontal: bool,
    r: Rect,
    all: Seq<(PaneId, Rect)>,
    k: nat,
)
    requires
        children.len() == sizes.len(),
        r.fits(),
        1 <= k <= children.len(),
        forall|i: int| 0 <= i < sizes.len() ==> 0 <= #[trigger] sizes[i],
        forall|i: int|
            0 <= i < children.len() ==> 1 <= #[trigger] cells_of(sizes, r.extent(horizontal))[i] && bounds(
                children[i],
                all,
            ) == cell_rect(r, horizontal, cells_of(sizes, r.extent(horizontal)), i),
    ensures
        bounds_upto(children, all, k) == head_box(r, horizontal, cells_of(sizes, r.extent(horizontal)), k as int),
        total(cells_of(sizes, r.extent(horizontal)).take(k as int)) + k - 1 <= r.extent(horizontal),
    decreases k,
{
    let cells = cells_of(sizes, r.extent(horizontal));
    let i = k - 1;
    assert(cells[i] >= 1);
    lemma_cell(sizes, r.x as int, r.w as int, i);
    lemma_cell(sizes, r.y as int, r.h as int, i);
    lemma_cell_rect(r, horizontal, sizes, i);
    lemma_fitted_entries(sizes, avail_of(sizes.len() as int, r.extent(horizontal)));
    lemma_total_take(cells, i);
    assert(cells.take(0) =~= Seq::<int>::empty());
    assert(bounds(children[i], all) == cell_rect(r, horizontal, cells, i));
    if k > 1 {
        lemma_head_box(children, sizes, horizontal, r, all, (k - 1) as nat);
        assert forall|j: int| 0 <= j < cells.take(i).len() implies 0 <= #[trigger] cells.take(i)[j] by {
            assert(cells[j] >= 1);
        }
        lemma_total_nonneg(cells.take(i));
        let a = head_box(r, horizontal, cells, i);
        let b = cell_rect(r, horizontal, cells, i);
        assert(bounds_upto(children, all, k) == hull(a, b));
        assert(hull(a, b) == head_box(r, horizontal, cells, k as int));
    } else {
        assert(bounds_upto(children, all, 1) == bounds(children[0], all));
    }
}

/// The cells a layout string is written with are those on the screen.
proof fn lemma_bounds(t: Tree, r: Rect, all: Seq<(PaneId, Rect)>)
    requires
        shape(t),
        r.fits(),
        all_shown(t, r),
        places(all, t, r),
    ensures
        bounds(t, all) == r,
    decreases t,
{
    match t {
        Tree::Leaf(id) => {
            assert(placed(t, r)[0] == (id, r));
        },
        Tree::Split { horizontal, children, sizes } => {
            let cells = cells_of(sizes, r.extent(horizontal));
            assert forall|i: int| 0 <= i < children.len() implies 1 <= #[trigger] cells[i] && bounds(children[i], all)
                == cell_rect(r, horizontal, cells, i) by {
                lemma_cell_of(t, r, all, i);
                lemma_bounds(children[i], cell_rect(r, horizontal, cells, i), all);
            }
            lemma_head_box(children, sizes, horizontal, r, all, children.len());
            lemma_row_filled(sizes, r.extent(horizontal));
            assert(cells.take(cells.len() as int) =~= cells);
        },
    }
}

/// A row in which every entry has a cell is filled, and the cells on screen
/// are the sizes that keep it so.
proof fn lemma_row_filled(sizes: Seq<int>, extent: int)
    requires
        sizes.len() >= 1,
        extent >= 0,
        forall|i: int| 0 <= i < sizes.len() ==> 0 <= #[trigger] sizes[i],
        forall|i: int| 0 <= i < sizes.len() ==> 1 <= #[trigger] cells_of(sizes, extent)[i],
    ensures
        cells_of(sizes, extent).len() == sizes.len(),
        total(cells_of(sizes, extent)) + sizes.len() - 1 == extent,
        cells_of(cells_of(sizes, extent), extent) == cells_of(sizes, extent),
{
    let n = sizes.len() as int;
    let avail = avail_of(n, extent);
    lemma_fitted_total(sizes, avail);
    let cells = cells_of(sizes, extent);
    assert(cells[0] >= 1);
    lemma_total_part(cells, 0);
}

/// A written layout has as many panes as the layout.
proof fn lemma_same_count(t: Tree, all: Seq<(PaneId, Rect)>)
    ensures
        panes(skeleton(t, all)).len() == panes(t).len(),
    decreases t, 1nat, 0nat,
{
    if let Tree::Split { children, .. } = t {
        lemma_same_count_upto(t, all, children.len());
    }
}

proof fn lemma_same_count_upto(t: Tree, all: Seq<(PaneId, Rect)>, k: nat)
    requires
        t is Split,
        k <= t->children.len(),
    ensures
        panes_upto(skeleton(t, all)->children, k).len() == panes_upto(t->children, k).len(),
    decreases t, 0nat, k,
{
    if k > 0 {
        lemma_same_count_upto(t, all, (k - 1) as nat);
        lemma_same_count(t->children[k - 1], all);
    }
}

proof fn lemma_panes_part(children: Seq<Tree>, k: nat, i: int, j: int)
    requires
        0 <= i < k <= children.len(),
        0 <= j < panes(children[i]).len(),
    ensures
        panes_upto(children, i as nat).len() + j < panes_upto(children, k).len(),
        panes_upto(children, k)[panes_upto(children, i as nat).len() + j] == panes(children[i])[j],
    decreases k,
{
    if i < k - 1 {
        lemma_panes_part(children, (k - 1) as nat, i, j);
    }
}

/// The ids for cell `i` of a row are the panes of that cell.
proof fn lemma_ids_of_cell(children: Seq<Tree>, ids: Seq<PaneId>, i: int)
    requires
        0 <= i < children.len(),
        panes_upto(children, children.len()).is_prefix_of(ids),
        panes(children[i]).len() > 0,
    ensures
        panes(children[i]).is_prefix_of(rest_of(ids, panes_upto(children, i as nat).len() as int)),
{
    let all = panes_upto(children, children.len());
    let at = panes_upto(children, i as nat).len() as int;
    let part = panes(children[i]);
    let rest = rest_of(ids, at);
    lemma_panes_part(children, children.len(), i, part.len() - 1);
    assert forall|j: int| 0 <= j < part.len() implies #[trigger] part[j] == rest[j] by {
        lemma_panes_part(children, children.len(), i, j);
        assert(ids[at + j] == all[at + j]);
    }
    assert(rest.take(part.len() as int) =~= part);
}

/// The layout read back, with its panes put in, puts every pane where it is.
proof fn lemma_again(t: Tree, r: Rect, all: Seq<(PaneId, Rect)>, ids: Seq<PaneId>)
    requires
        shape(t),
        r.fits(),
        all_shown(t, r),
        places(all, t, r),
        panes(t).is_prefix_of(ids),
    ensures
        placed(assigned(skeleton(t, all), ids), r) == placed(t, r),
    decreases t, 1nat, 0nat,
{
    match t {
        Tree::Leaf(id) => {
            assert(panes(t)[0] == ids[0]);
        },
        Tree::Split { horizontal, children, sizes } => {
            let cells = cells_of(sizes, r.extent(horizontal));
            let after = assigned(skeleton(t, all), ids);
            assert forall|i: int| 0 <= i < children.len() implies 1 <= #[trigger] cells[i] && bounds(children[i], all)
                == cell_rect(r, horizontal, cells, i) by {
                lemma_cell_of(t, r, all, i);
                lemma_bounds(children[i], cell_rect(r, horizontal, cells, i), all);
            }
            lemma_row_filled(sizes, r.extent(horizontal));
            assert forall|i: int| 0 <= i < children.len() implies #[trigger] skeleton(t, all)->sizes[i] == cells[i] by {
                lemma_cell_rect(r, horizontal, sizes, i);
                assert(cells[i] >= 1);
            }
            assert(after->sizes =~= cells);
            lemma_again_upto(t, r, all, ids, children.len());
        },
    }
}

proof fn lemma_again_upto(t: Tree, r: Rect, all: Seq<(PaneId, Rect)>, ids: Seq<PaneId>, k: nat)
    requires
        t is Split,
        shape(t),
        r.fits(),
        all_shown(t, r),
        places(all, t, r),
        panes(t).is_prefix_of(ids),
        k <= t->children.len(),
    ensures
        ({
            let cells = cells_of(t->sizes, r.extent(t->horizontal));
            placed_upto(assigned(skeleton(t, all), ids)->children, t->horizontal, cells, r, k) == placed_upto(
                t->children,
                t->horizontal,
                cells,
                r,
                k,
            )
        }),
    decreases t, 0nat, k,
{
    if k > 0 {
        let i = k - 1;
        let cells = cells_of(t->sizes, r.extent(t->horizontal));
        let kids = skeleton(t, all)->children;
        lemma_again_upto(t, r, all, ids, i as nat);
        lemma_cell_of(t, r, all, i);
        lemma_panes_count(t->children[i]);
        lemma_ids_of_cell(t->children, ids, i);
        lemma_same_count_upto(t, all, i as nat);
        let own = rest_of(ids, panes_upto(t->children, i as nat).len() as int);
        assert(kids[i] == skeleton(t->children[i], all));
        assert(assigned(skeleton(t, all), ids)->children[i] == assigned(kids[i], own));
        lemma_again(t->children[i], cell_rect(r, t->horizontal, cells, i), all, own);
    }
}

proof fn lemma_rect_of(all: Seq<(PaneId, Rect)>, i: int)
    requires
        0 <= i < all.len(),
        forall|a: int, b: int| 0 <= a < b < all.len() ==> (#[trigger] all[a]).0 != (#[trigger] all[b]).0,
    ensures
        rect_of(all, all[i].0) == all[i].1,
    decreases all.len(),
{
    if i > 0 {
        assert(all[0].0 != all[i].0);
        let rest = all.skip(1);
        assert forall|a: int, b: int| 0 <= a < b < rest.len() implies (#[trigger] rest[a]).0 != (#[trigger] rest[b]).0 by {
            assert(all[a + 1].0 != all[b + 1].0);
        }
        lemma_rect_of(rest, i - 1);
        assert(rest[i - 1] == all[i]);
    }
}

/// A layout on screen, with room for every pane, that is written as a layout
/// string, read back, given its panes and laid out in the same area puts
/// every pane where it was.
pub proof fn lemma_layout_lays_out_again(t: Tree, area: Rect)
    requires
        shape(t),
        nested_within(t, 64),
        panes(t).no_duplicates(),
        area.fits(),
        all_shown(t, area),
    ensures
        ({
            let rects = placed(t, area);
            let read = layout_read(layout_text(t, rects));
            &&& read == Ok::<Tree, Seq<char>>(skeleton(t, rects))
            &&& placed(assigned(read->Ok_0, panes(t)), area) == rects
        }),
{
    let rects = placed(t, area);
    lemma_layout_round_trip(t, rects);
    lemma_placed_panes(t, area);
    assert forall|a: int, b: int| 0 <= a < b < rects.len() implies (#[trigger] rects[a]).0 != (#[trigger] rects[b]).0 by {
        assert(panes(t)[a] != panes(t)[b]);
    }
    assert forall|i: int| 0 <= i < rects.len() implies rect_of(rects, (#[trigger] rects[i]).0) == rects[i].1 by {
        lemma_rect_of(rects, i);
    }
    assert(panes(t).take(panes(t).len() as int) =~= panes(t));
    lemma_again(t, area, rects, panes(t));
}

} // verus!
