//! Where panes stand: beside or below each other, how much room each has, and
//! what splitting, removing and resizing change of that.
use vstd::prelude::*;

use crate::edit::{first_with, removed, split_root_tree, split_tree};
use crate::layout::{
    cell_rect, cells_of, lemma_cell, lemma_cell_rect, lemma_cells_fill, panes, placed, shape, PaneId, Rect, Tree,
};
use crate::preset::{column_start, column_tree, is_arranged, is_side, preset_after, preset_name, Preset};
use crate::resize::{evened, pushed};

verus! {

/// The cells of a split stand side by side when it is horizontal, each as
/// high as the split, and below each other when it is not, each as wide; the
/// first begins where the split does, one row or column of border is between
/// each two, and the last ends where the split does.
pub proof fn lemma_cells_in_a_row(rect: Rect, horizontal: bool, sizes: Seq<int>, k: int)
    requires
        rect.fits(),
        0 <= k < sizes.len(),
        forall|i: int| 0 <= i < sizes.len() ==> 0 <= #[trigger] sizes[i],
        horizontal ==> rect.w >= 2 * sizes.len() - 1,
        !horizontal ==> rect.h >= 2 * sizes.len() - 1,
    ensures
        ({
            let cells = cells_of(
                sizes,
                if horizontal {
                    rect.w as int
                } else {
                    rect.h as int
                },
            );
            let r = cell_rect(rect, horizontal, cells, k);
            let next = cell_rect(rect, horizontal, cells, k + 1);
            &&& horizontal ==> r.y == rect.y && r.h == rect.h && r.w >= 1
            &&& !horizontal ==> r.x == rect.x && r.w == rect.w && r.h >= 1
            &&& horizontal && k == 0 ==> r.x == rect.x
            &&& !horizontal && k == 0 ==> r.y == rect.y
            &&& horizontal && k < sizes.len() - 1 ==> next.x == r.x + r.w + 1
            &&& !horizontal && k < sizes.len() - 1 ==> next.y == r.y + r.h + 1
            &&& horizontal && k == sizes.len() - 1 ==> r.x + r.w == rect.x + rect.w
            &&& !horizontal && k == sizes.len() - 1 ==> r.y + r.h == rect.y + rect.h
        }),
{
    let extent = if horizontal {
        rect.w as int
    } else {
        rect.h as int
    };
    let start = if horizontal {
        rect.x as int
    } else {
        rect.y as int
    };
    let cells = cells_of(sizes, extent);
    lemma_cells_fill(sizes, extent);
    lemma_cell(sizes, start, extent, k);
    lemma_cell_rect(rect, horizontal, sizes, k);
    if k + 1 < sizes.len() {
        lemma_cell(sizes, start, extent, k + 1);
        lemma_cell_rect(rect, horizontal, sizes, k + 1);
        crate::fit::lemma_total_take(cells, k);
    } else {
        crate::fit::lemma_total_take(cells, k);
        assert(cells.take(k + 1) =~= cells);
    }
}

/// Panes `a` and `b` are cells of one split in that direction, `a` right
/// before `b`; together with the border between them they are `extent` cells
/// long, and the one of the two that is `older` no shorter than the other and
/// at most one cell longer.
pub open spec fn halves(t: Tree, a: PaneId, b: PaneId, horizontal: bool, extent: int, older: PaneId) -> bool
    decreases t,
{
    match t {
        Tree::Leaf(_) => false,
        Tree::Split { horizontal: h, children, sizes } => {
            ||| exists|k: int|
                0 <= k < children.len() - 1 && h == horizontal && #[trigger] children[k] == Tree::Leaf(a) && children[k + 1]
                    == Tree::Leaf(b) && sizes[k] + 1 + sizes[k + 1] == extent && (if older == a {
                    0 <= sizes[k] - sizes[k + 1] <= 1
                } else {
                    0 <= sizes[k + 1] - sizes[k] <= 1
                })
            ||| exists|k: int|
                0 <= k < children.len() && halves(#[trigger] children[k], a, b, horizontal, extent, older)
        },
    }
}

/// A pane that is split shares its room with the new one, half each with a
/// border between them: side by side when the split is horizontal, the new one
/// to the right, or to the left when it goes before; otherwise below or above.
pub proof fn lemma_split_halves(t: Tree, target: PaneId, horizontal: bool, new: PaneId, extent: int, before: bool)
    requires
        shape(t),
        panes(t).contains(target),
        target != new,
        extent >= 3,
    ensures
        !before ==> halves(split_tree(t, target, horizontal, new, extent, before), target, new, horizontal, extent, target),
        before ==> halves(split_tree(t, target, horizontal, new, extent, before), new, target, horizontal, extent, target),
    decreases t,
{
    let after = split_tree(t, target, horizontal, new, extent, before);
    match t {
        Tree::Leaf(id) => {
            assert(panes(t)[0] == id);
            assert(id == target);
            assert(after->children[0] == if before {
                Tree::Leaf(new)
            } else {
                Tree::Leaf(target)
            });
        },
        Tree::Split { horizontal: h, children, sizes } => {
            crate::layout::lemma_panes_upto_contains(children, children.len(), target);
            crate::edit::lemma_first_with(children, target, 0);
            let k = first_with(children, target, 0);
            assert(k < children.len()) by {
                let i = choose|i: int| 0 <= i < children.len() && panes(#[trigger] children[i]).contains(target);
                if k == children.len() {
                    assert(!panes(children[i]).contains(target));
                }
            }
            if h == horizontal && children[k] is Leaf {
                let id = children[k]->Leaf_0;
                assert(panes(children[k])[0] == id);
                assert(children[k] == Tree::Leaf(target));
                assert(after->children[k] == if before {
                    Tree::Leaf(new)
                } else {
                    Tree::Leaf(target)
                });
                assert(after->children[k + 1] == if before {
                    Tree::Leaf(target)
                } else {
                    Tree::Leaf(new)
                });
            } else {
                lemma_split_halves(children[k], target, horizontal, new, extent, before);
                assert(after->children[k] == split_tree(children[k], target, horizontal, new, extent, before));
            }
        },
    }
}

/// A pane along a whole side takes half of the room, at the end or, before,
/// at the beginning, and all the rest stands as it did in the other half.
pub proof fn lemma_split_root_halves(t: Tree, horizontal: bool, new: PaneId, extent: int, before: bool)
    requires
        extent >= 3,
    ensures
        ({
            let after = split_root_tree(t, horizontal, new, extent, before);
            let (mine, theirs) = if before {
                (0int, 1int)
            } else {
                (1int, 0int)
            };
            &&& after is Split && after->horizontal == horizontal && after->children.len() == 2 && after->sizes.len() == 2
            &&& after->children[mine] == Tree::Leaf(new)
            &&& after->children[theirs] == t
            &&& after->sizes[mine] + 1 + after->sizes[theirs] == extent
            &&& 0 <= after->sizes[theirs] - after->sizes[mine] <= 1
        }),
{
}

/// The room of a pane that goes, and the border beside it, go to the cell
/// before it, or to the one after it when it was the first; the others keep
/// theirs. Of two cells the other takes the place of both.
pub proof fn lemma_removed_room(horizontal: bool, children: Seq<Tree>, sizes: Seq<int>, id: PaneId, k: int)
    requires
        shape(Tree::Split { horizontal, children, sizes }),
        0 <= k < children.len(),
        children[k] == Tree::Leaf(id),
        forall|i: int| 0 <= i < children.len() && i != k ==> !panes(#[trigger] children[i]).contains(id),
        forall|i: int| 0 <= i < sizes.len() ==> #[trigger] sizes[i] < 20000,
        children.len() >= 2,
    ensures
        ({
            let after = removed(Tree::Split { horizontal, children, sizes }, id);
            let n = children.len() as int;
            &&& n == 2 && children[1 - k] is Leaf ==> after == children[1 - k]
            &&& n > 2 ==> {
                &&& after is Split && after->horizontal == horizontal
                &&& after->children.len() == n - 1 && after->sizes.len() == n - 1
                &&& forall|i: int| 0 <= i < k ==> #[trigger] after->children[i] == children[i]
                &&& forall|i: int| k <= i < n - 1 ==> #[trigger] after->children[i] == children[i + 1]
                &&& k > 0 ==> after->sizes[k - 1] == sizes[k - 1] + 1 + sizes[k]
                &&& k == 0 ==> after->sizes[0] == sizes[0] + 1 + sizes[1]
                &&& forall|i: int| 0 <= i < k - 1 ==> #[trigger] after->sizes[i] == sizes[i]
                &&& forall|i: int| k <= i < n - 1 && i > 0 ==> #[trigger] after->sizes[i] == sizes[i + 1]
            }
        }),
{
    let t = Tree::Split { horizontal, children, sizes };
    assert(panes(children[k]) =~= seq![id]);
    let j = if k == 0 {
        1int
    } else {
        0
    };
    crate::layout::lemma_panes_count(t);
    assert(panes(t).len() >= 2);
    crate::edit::lemma_first_sole(children, id, 0);
    let f = crate::edit::first_sole(children, id, 0);
    assert(f == k) by {
        if f < k {
            assert(panes(children[f])[0] == id);
            assert(panes(children[f]).contains(id));
        }
        if f > k {
            assert(!crate::edit::sole(children[k], id));
        }
    }
}

/// Moving an edge on makes the cell before it longer and the cells after it
/// shorter, the nearest first; moving it back makes the cell after it longer
/// and the cells before it shorter, the nearest first. The edge is the one
/// after the cell, and the one before it for the last cell. It moves as far
/// as it was told where the nearest cell has that much to give.
#[verifier::spinoff_prover]
pub proof fn lemma_edge_moves(sizes: Seq<int>, idx: int, grow: bool, amount: int)
    requires
        2 <= sizes.len(),
        0 <= idx < sizes.len(),
        0 < amount,
        forall|i: int| 0 <= i < sizes.len() ==> 1 <= #[trigger] sizes[i] < 20000,
        amount < 20000,
    ensures
        ({
            let n = sizes.len() as int;
            let edge = if idx == n - 1 {
                n - 2
            } else {
                idx
            };
            let (longer, nearest) = if grow {
                (edge, edge + 1)
            } else {
                (edge + 1, edge)
            };
            let gives = sizes[nearest] - 1;
            let row = pushed(sizes, idx, grow, amount);
            &&& gives >= amount ==> {
                &&& row is Some
                &&& row->0.len() == n
                &&& row->0[longer] == sizes[longer] + amount
                &&& row->0[nearest] == sizes[nearest] - amount
                &&& forall|i: int| 0 <= i < n && i != longer && i != nearest ==> #[trigger] row->0[i] == sizes[i]
            }
            &&& 0 < gives < amount ==> {
                &&& row is Some
                &&& row->0[longer] > sizes[longer]
                &&& row->0[nearest] == 1
            }
        }),
{
    let n = sizes.len() as int;
    let a = if idx + 1 < n {
        idx
    } else {
        idx - 1
    };
    let from = crate::resize::losers(n, a, grow);
    let nearest = if grow {
        a + 1
    } else {
        a
    };
    assert(from.len() >= 1);
    assert(from[0] == nearest);
    let can = crate::resize::gives(sizes[nearest], amount);
    let one = sizes.update(nearest, sizes[nearest] - can);
    let left = amount - can;
    assert(crate::resize::taken(sizes, from, amount, 0) == crate::resize::taken(one, from, left, 1));
    assert(crate::resize::wanting(sizes, from, amount, 0) == crate::resize::wanting(one, from, left, 1));
    if left == 0 {
        lemma_nothing_more(one, from, 1);
    } else {
        assert(one[nearest] == 1);
        lemma_gives_no_less(one, from, left, 1, nearest, n, if grow { a } else { a + 1 });
    }
}

/// Cells that nothing is wanted of give nothing.
proof fn lemma_nothing_more(sizes: Seq<int>, from: Seq<int>, k: int)
    requires
        0 <= k <= from.len(),
        forall|i: int| 0 <= i < from.len() ==> 0 <= #[trigger] from[i] < sizes.len(),
        forall|i: int| 0 <= i < sizes.len() ==> 1 <= #[trigger] sizes[i],
    ensures
        crate::resize::taken(sizes, from, 0, k) == sizes,
        crate::resize::wanting(sizes, from, 0, k) == 0,
    decreases from.len() - k,
{
    if k < from.len() {
        let i = from[k];
        assert(sizes.update(i, sizes[i]) =~= sizes);
        assert(crate::resize::gives(sizes[i], 0) == 0);
        lemma_nothing_more(sizes, from, k + 1);
    }
}

/// What is wanted never grows, and a cell of one stays as it is.
proof fn lemma_gives_no_less(sizes: Seq<int>, from: Seq<int>, left: int, k: int, small: int, n: int, gains: int)
    requires
        0 <= k <= from.len(),
        sizes.len() == n,
        0 <= small < n,
        0 <= gains < n,
        0 <= left,
        sizes[small] == 1,
        forall|i: int| 0 <= i < from.len() ==> 0 <= #[trigger] from[i] < n && from[i] != gains,
        forall|i: int| 0 <= i < n ==> 1 <= #[trigger] sizes[i] < 20000,
    ensures
        0 <= crate::resize::wanting(sizes, from, left, k) <= left,
        crate::resize::taken(sizes, from, left, k).len() == n,
        crate::resize::taken(sizes, from, left, k)[small] == 1,
        crate::resize::taken(sizes, from, left, k)[gains] == sizes[gains],
    decreases from.len() - k,
{
    if k < from.len() {
        let i = from[k];
        let can = crate::resize::gives(sizes[i], left);
        lemma_gives_no_less(sizes.update(i, sizes[i] - can), from, left - can, k + 1, small, n, gains);
    }
}

/// Cells that are made even are all as long as the first, but for the last,
/// which takes what is left over.
pub proof fn lemma_evened_cells(n: nat, sum: int)
    requires
        1 <= n <= sum <= u16::MAX,
    ensures
        evened(n, sum).len() == n,
        forall|i: int| 0 <= i < n - 1 ==> #[trigger] evened(n, sum)[i] == sum / n as int,
        sum / n as int <= evened(n, sum)[n - 1] < sum / n as int + n,
{
    let each = sum / n as int;
    assert(each >= 1 && 0 <= sum - each * (n as int) < n as int) by (nonlinear_arith)
        requires
            each == sum / n as int,
            n >= 1,
            sum >= n,
    ;
    assert(sum - each * (n - 1) == sum - each * (n as int) + each) by (nonlinear_arith);
}

/// The five presets: `even-horizontal` has all panes side by side and
/// `even-vertical` all below each other; `main-vertical` has the first on the
/// left and the others below each other to its right; `main-horizontal` has
/// the first on top and the others side by side below it; `tiled` has columns,
/// as few as hold as many rows as there are columns.
pub proof fn lemma_presets(p: Preset, ids: Seq<PaneId>, t: Tree)
    requires
        ids.len() >= 2,
        is_arranged(p, ids, t),
    ensures
        t is Split,
        p is EvenHorizontal ==> t->horizontal && t->children.len() == ids.len() && forall|i: int|
            0 <= i < ids.len() ==> #[trigger] t->children[i] == Tree::Leaf(ids[i]) && t->sizes[i] == t->sizes[0],
        p is EvenVertical ==> !t->horizontal && t->children.len() == ids.len() && forall|i: int|
            0 <= i < ids.len() ==> #[trigger] t->children[i] == Tree::Leaf(ids[i]) && t->sizes[i] == t->sizes[0],
        p is MainVertical ==> {
            let rest = t->children[1];
            &&& t->horizontal && t->children.len() == 2 && t->children[0] == Tree::Leaf(ids[0])
            &&& rest is Split && !rest->horizontal && rest->children.len() == ids.len() - 1
            &&& forall|i: int|
                0 <= i < ids.len() - 1 ==> #[trigger] rest->children[i] == Tree::Leaf(ids[i + 1]) && rest->sizes[i]
                    == rest->sizes[0]
        },
        p is MainHorizontal ==> {
            let rest = t->children[1];
            &&& !t->horizontal && t->children.len() == 2 && t->children[0] == Tree::Leaf(ids[0])
            &&& rest is Split && rest->horizontal && rest->children.len() == ids.len() - 1
            &&& forall|i: int|
                0 <= i < ids.len() - 1 ==> #[trigger] rest->children[i] == Tree::Leaf(ids[i + 1]) && rest->sizes[i]
                    == rest->sizes[0]
        },
        p is Tiled ==> {
            let c = t->children.len() as int;
            &&& t->horizontal && c * c >= ids.len() && (c - 1) * (c - 1) < ids.len()
            &&& forall|i: int| 0 <= i < c ==> #[trigger] t->sizes[i] == t->sizes[0]
            &&& forall|i: int| 0 <= i < c ==> ((#[trigger] t->children[i]) is Split ==> !t->children[i]->horizontal)
        },
{
}

/// Tiles stand in columns, the panes from top to bottom and column by column;
/// where they do not come out even the first columns have one more.
pub proof fn lemma_tiles(ids: Seq<PaneId>, t: Tree, c: int)
    requires
        ids.len() >= 2,
        is_arranged(Preset::Tiled, ids, t),
        0 <= c < t->children.len(),
    ensures
        ({
            let n = ids.len() as int;
            let cols = t->children.len() as int;
            let len = n / cols + if c < n % cols {
                1int
            } else {
                0int
            };
            let first = c * (n / cols) + if c < n % cols {
                c
            } else {
                n % cols
            };
            let it = t->children[c];
            &&& len == 1 ==> it == Tree::Leaf(ids[first])
            &&& len > 1 ==> it is Split && !it->horizontal && it->children.len() == len && forall|i: int|
                0 <= i < len ==> #[trigger] it->children[i] == Tree::Leaf(ids[first + i])
        }),
{
    let n = ids.len() as int;
    let cols = t->children.len() as int;
    let q = n / cols;
    let m = n % cols;
    let k = choose|k: int| #[trigger]
        is_side(k, n) && t == (Tree::Split {
            horizontal: true,
            children: Seq::new(k as nat, |c: int| column_tree(ids, k, c)),
            sizes: Seq::new(k as nat, |c: int| 1int),
        });
    assert(k == cols);
    assert(t->children[c] == column_tree(ids, cols, c));
    assert((c + 1) * q == c * q + q) by (nonlinear_arith);
    let from = column_start(n, cols, c);
    let to = column_start(n, cols, c + 1);
    assert(q >= 0 && 0 <= m < cols && cols * q + m == n) by (nonlinear_arith)
        requires
            q == n / cols,
            m == n % cols,
            cols > 0,
            n >= 0,
    ;
    assert(0 <= c * q && (c + 1) * q <= cols * q) by (nonlinear_arith)
        requires
            0 <= c < cols,
            q >= 0,
    ;
    assert(0 <= from <= to <= n);
    let part = ids.subrange(from, to);
    assert(part.len() == to - from);
}

/// The presets by name, and the order in which they follow each other.
pub proof fn lemma_preset_names()
    ensures
        preset_name(Preset::EvenHorizontal) == "even-horizontal"@,
        preset_name(Preset::EvenVertical) == "even-vertical"@,
        preset_name(Preset::MainHorizontal) == "main-horizontal"@,
        preset_name(Preset::MainVertical) == "main-vertical"@,
        preset_name(Preset::Tiled) == "tiled"@,
        preset_after(Preset::EvenHorizontal) == Preset::EvenVertical,
        preset_after(Preset::EvenVertical) == Preset::MainHorizontal,
        preset_after(Preset::MainHorizontal) == Preset::MainVertical,
        preset_after(Preset::MainVertical) == Preset::Tiled,
        preset_after(Preset::Tiled) == Preset::EvenHorizontal,
{
}

/// Panes in a row stand in their order: side by side from left to right, or
/// below each other from top to bottom, with a border between each two, and
/// fill the area.
pub proof fn lemma_row_placed(t: Tree, rect: Rect, k: int)
    requires
        shape(t),
        t is Split,
        rect.fits(),
        0 <= k < t->children.len(),
        forall|i: int| 0 <= i < t->children.len() ==> (#[trigger] t->children[i]) is Leaf,
        t->horizontal ==> rect.w >= 2 * t->children.len() - 1,
        !t->horizontal ==> rect.h >= 2 * t->children.len() - 1,
    ensures
        ({
            let all = placed(t, rect);
            let n = t->children.len() as int;
            &&& all.len() == n
            &&& all[k].0 == t->children[k]->Leaf_0
            &&& t->horizontal ==> {
                &&& all[k].1.y == rect.y && all[k].1.h == rect.h && all[k].1.w >= 1
                &&& k == 0 ==> all[k].1.x == rect.x
                &&& k < n - 1 ==> all[k + 1].1.x == all[k].1.x + all[k].1.w + 1
                &&& k == n - 1 ==> all[k].1.x + all[k].1.w == rect.x + rect.w
            }
            &&& !t->horizontal ==> {
                &&& all[k].1.x == rect.x && all[k].1.w == rect.w && all[k].1.h >= 1
                &&& k == 0 ==> all[k].1.y == rect.y
                &&& k < n - 1 ==> all[k + 1].1.y == all[k].1.y + all[k].1.h + 1
                &&& k == n - 1 ==> all[k].1.y + all[k].1.h == rect.y + rect.h
            }
        }),
{
    let n = t->children.len();
    let cells = cells_of(t->sizes, rect.extent(t->horizontal));
    lemma_leaves_placed(t->children, t->horizontal, cells, rect, n);
    lemma_cells_in_a_row(rect, t->horizontal, t->sizes, k);
}

proof fn lemma_leaves_placed(children: Seq<Tree>, horizontal: bool, cells: Seq<int>, rect: Rect, k: nat)
    requires
        k <= children.len(),
        forall|i: int| 0 <= i < children.len() ==> (#[trigger] children[i]) is Leaf,
    ensures
        crate::layout::placed_upto(children, horizontal, cells, rect, k).len() == k,
        forall|i: int|
            0 <= i < k ==> #[trigger] crate::layout::placed_upto(children, horizontal, cells, rect, k)[i] == (
                children[i]->Leaf_0,
                cell_rect(rect, horizontal, cells, i),
            ),
    decreases k,
{
    if k > 0 {
        lemma_leaves_placed(children, horizontal, cells, rect, (k - 1) as nat);
        let r = cell_rect(rect, horizontal, cells, k - 1);
        assert(children[k - 1] is Leaf);
        assert(placed(Tree::Leaf(children[k - 1]->Leaf_0), r) == seq![(children[k - 1]->Leaf_0, r)]);
    }
}

} // verus!
