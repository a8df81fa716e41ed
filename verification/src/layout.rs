//! Pane layout tree: n-ary splits with explicit sizes, tmux style.
use vstd::prelude::*;
use crate::fit::{fit_sizes, fitted, ints, lemma_fitted_entries, lemma_fitted_total, lemma_total_part, lemma_total_take, total, total_of};

verus! {

pub type PaneId = u32;

#[derive(Clone, Copy, Debug, PartialEq, Eq, Structural)]
pub struct Rect {
    pub x: u16,
    pub y: u16,
    pub w: u16,
    pub h: u16,
}

impl Default for Rect {
    fn default() -> (r: Rect)
        ensures
            r == (Rect { x: 0, y: 0, w: 0, h: 0 }),
    {
        Rect { x: 0, y: 0, w: 0, h: 0 }
    }
}

impl Rect {
    /// Its far edges are coordinates too.
    pub open spec fn fits(self) -> bool {
        self.x + self.w <= u16::MAX && self.y + self.h <= u16::MAX
    }

    /// The cell at column `x` and row `y` is one of the rectangle's.
    pub open spec fn has(self, x: int, y: int) -> bool {
        self.x <= x < self.x + self.w && self.y <= y < self.y + self.h
    }

    /// Every cell of `self` lies in `outer`, edges included.
    pub open spec fn inside(self, outer: Rect) -> bool {
        outer.x <= self.x && self.x + self.w <= outer.x + outer.w && outer.y <= self.y && self.y + self.h <= outer.y
            + outer.h
    }

    pub open spec fn shown(self) -> bool {
        self.w >= 1 && self.h >= 1
    }

    /// There is a row or a column of cells between the two.
    pub open spec fn apart(self, other: Rect) -> bool {
        self.x + self.w < other.x || other.x + other.w < self.x || self.y + self.h < other.y || other.y + other.h
            < self.y
    }

    /// How far it reaches across (`horizontal`) or down.
    pub open spec fn extent(self, horizontal: bool) -> int {
        if horizontal {
            self.w as int
        } else {
            self.h as int
        }
    }

    pub fn contains(&self, x: u16, y: u16) -> (b: bool)
        ensures
            b == self.has(x as int, y as int),
    {
        x >= self.x && x - self.x < self.w && y >= self.y && y - self.y < self.h
    }
}

/// The shape of a layout as mathematics: a pane, or a row of cells with the
/// size each was last given.
pub ghost enum Tree {
    Leaf(PaneId),
    Split { horizontal: bool, children: Seq<Tree>, sizes: Seq<int> },
}

#[derive(Debug, PartialEq, Eq)]
pub enum Node {
    Leaf(PaneId),
    Split {
        /// Children are laid out left-to-right (true) or top-to-bottom (false).
        horizontal: bool,
        children: Vec<Node>,
        sizes: Vec<u16>,
    },
}

pub open spec fn tree_of(node: Node) -> Tree
    decreases node,
{
    match node {
        Node::Leaf(id) => Tree::Leaf(id),
        Node::Split { horizontal, children, sizes } => Tree::Split {
            horizontal,
            children: Seq::new(
                children@.len(),
                |i: int|
                    if 0 <= i < children@.len() {
                        tree_of(children@[i])
                    } else {
                        Tree::Leaf(0)
                    },
            ),
            sizes: ints(sizes@),
        },
    }
}

/// The trees of a row of nodes.
pub open spec fn trees(v: Seq<Node>) -> Seq<Tree> {
    Seq::new(v.len(), |i: int| tree_of(v[i]))
}

/// A split as a tree.
pub proof fn lemma_split_view(horizontal: bool, children: Vec<Node>, sizes: Vec<u16>)
    ensures
        tree_of(Node::Split { horizontal, children, sizes }) == (Tree::Split {
            horizontal,
            children: trees(children@),
            sizes: ints(sizes@),
        }),
{
    let t = tree_of(Node::Split { horizontal, children, sizes });
    assert(t->children =~= trees(children@));
}

/// Rows of nodes change as the rows of their trees do.
pub proof fn lemma_trees(v: Seq<Node>, i: int, n: Node)
    ensures
        0 <= i <= v.len() ==> trees(v.insert(i, n)) == trees(v).insert(i, n@),
        0 <= i < v.len() ==> trees(v.update(i, n)) == trees(v).update(i, n@),
        0 <= i < v.len() ==> trees(v.remove(i)) == trees(v).remove(i),
        trees(v.push(n)) == trees(v).push(n@),
{
    if 0 <= i <= v.len() {
        assert(trees(v.insert(i, n)) =~= trees(v).insert(i, n@));
    }
    if 0 <= i < v.len() {
        assert(trees(v.update(i, n)) =~= trees(v).update(i, n@));
        assert(trees(v.remove(i)) =~= trees(v).remove(i));
    }
    assert(trees(v.push(n)) =~= trees(v).push(n@));
}

impl View for Node {
    type V = Tree;

    open spec fn view(&self) -> Tree {
        tree_of(*self)
    }
}

impl Clone for Node {
    fn clone(&self) -> (out: Node)
        ensures
            out@ == self@,
    {
        copy_node(self)
    }
}

fn copy_node(node: &Node) -> (out: Node)
    ensures
        out@ == node@,
    decreases node,
{
    match node {
        Node::Leaf(id) => Node::Leaf(*id),
        Node::Split { horizontal, children, sizes } => {
            let mut kids: Vec<Node> = Vec::new();
            let mut i: usize = 0;
            while i < children.len()
                invariant
                    i <= children@.len(),
                    kids@.len() == i,
                    forall|j: int| 0 <= j < i ==> (#[trigger] kids@[j])@ == children@[j]@,
                    decreases_to!(node => children),
                decreases children.len() - i,
            {
                let kid = copy_node(&children[i]);
                kids.push(kid);
                i = i + 1;
            }
            let out = Node::Split { horizontal: *horizontal, children: kids, sizes: sizes.clone() };
            proof {
                assert(out@->children =~= node@->children);
                assert(out@->sizes =~= node@->sizes);
            }
            out
        },
    }
}

/// The panes of `t`, left to right and top to bottom.
pub open spec fn panes(t: Tree) -> Seq<PaneId>
    decreases t,
{
    match t {
        Tree::Leaf(id) => seq![id],
        Tree::Split { children, .. } => panes_upto(children, children.len()),
    }
}

/// The panes of the first `k` of `children`.
pub open spec fn panes_upto(children: Seq<Tree>, k: nat) -> Seq<PaneId>
    decreases children, k,
{
    if k == 0 || k > children.len() {
        Seq::empty()
    } else {
        panes_upto(children, (k - 1) as nat) + panes(children[k - 1])
    }
}


/// Every split has cells, and a size for each.
pub open spec fn shape(t: Tree) -> bool
    decreases t,
{
    match t {
        Tree::Leaf(_) => true,
        Tree::Split { children, sizes, .. } => {
            &&& children.len() >= 1
            &&& children.len() == sizes.len()
            &&& forall|i: int| 0 <= i < children.len() ==> shape(#[trigger] children[i])
            &&& forall|i: int| 0 <= i < sizes.len() ==> 0 <= #[trigger] sizes[i]
        },
    }
}

pub proof fn lemma_panes_upto_contains(children: Seq<Tree>, k: nat, id: PaneId)
    requires
        k <= children.len(),
    ensures
        panes_upto(children, k).contains(id) <==> exists|i: int|
            0 <= i < k && panes(#[trigger] children[i]).contains(id),
    decreases k,
{
    if k > 0 {
        lemma_panes_upto_contains(children, (k - 1) as nat, id);
        let a = panes_upto(children, (k - 1) as nat);
        let b = panes(children[k - 1]);
        assert((a + b).contains(id) <==> a.contains(id) || b.contains(id)) by {
            if (a + b).contains(id) {
                let p = choose|p: int| 0 <= p < (a + b).len() && (a + b)[p] == id;
                if p < a.len() {
                    assert(a[p] == id);
                } else {
                    assert(b[p - a.len()] == id);
                }
            }
            if a.contains(id) {
                let p = choose|p: int| 0 <= p < a.len() && a[p] == id;
                assert((a + b)[p] == id);
            }
            if b.contains(id) {
                let p = choose|p: int| 0 <= p < b.len() && b[p] == id;
                assert((a + b)[a.len() + p] == id);
            }
        }
    }
}

/// A tree holds at least one pane, and a split at least one in each cell.
pub proof fn lemma_panes_count(t: Tree)
    requires
        shape(t),
    ensures
        panes(t).len() >= 1,
        t is Split ==> t->children.len() <= panes(t).len(),
        t is Split ==> forall|i: int|
            0 <= i < t->children.len() ==> 1 <= panes(#[trigger] t->children[i]).len() <= panes(t).len(),
    decreases t, 1nat, 0nat,
{
    if let Tree::Split { children, .. } = t {
        lemma_panes_upto_count(t, children.len());
    }
}

proof fn lemma_panes_upto_count(t: Tree, k: nat)
    requires
        shape(t),
        t is Split,
        k <= t->children.len(),
    ensures
        k <= panes_upto(t->children, k).len(),
        forall|i: int| 0 <= i < k ==> 1 <= panes(#[trigger] t->children[i]).len() <= panes_upto(t->children, k).len(),
    decreases t, 0nat, k,
{
    if k > 0 {
        lemma_panes_upto_count(t, (k - 1) as nat);
        lemma_panes_count(t->children[k - 1]);
    }
}

impl Node {
    pub fn panes(&self) -> (out: Vec<PaneId>)
        ensures
            out@ == panes(self@),
    {
        let mut out: Vec<PaneId> = Vec::new();
        self.collect(&mut out);
        assert(Seq::<PaneId>::empty() + panes(self@) =~= panes(self@));
        out
    }

    fn collect(&self, out: &mut Vec<PaneId>)
        ensures
            final(out)@ == old(out)@ + panes(self@),
        decreases self,
    {
        match self {
            Node::Leaf(id) => {
                out.push(*id);
                assert(out@ =~= old(out)@ + panes(self@));
            },
            Node::Split { children, .. } => {
                let ghost kids = self@->children;
                let ghost start = out@;
                let mut i: usize = 0;
                assert(start + panes_upto(kids, 0) =~= start);
                while i < children.len()
                    invariant
                        i <= children@.len() == kids.len(),
                        forall|j: int| 0 <= j < kids.len() ==> children@[j]@ == #[trigger] kids[j],
                        out@ == start + panes_upto(kids, i as nat),
                        decreases_to!(self => children),
                    decreases children.len() - i,
                {
                    children[i].collect(out);
                    assert(kids[i as int] == children@[i as int]@);
                    i = i + 1;
                    assert(out@ =~= start + panes_upto(kids, i as nat));
                }
            },
        }
    }

    pub fn contains(&self, id: PaneId) -> (b: bool)
        ensures
            b == panes(self@).contains(id),
        decreases self,
    {
        match self {
            Node::Leaf(i) => {
                assert(panes(self@)[0] == *i);
                *i == id
            },
            Node::Split { children, .. } => {
                let ghost kids = self@->children;
                proof {
                    lemma_panes_upto_contains(kids, kids.len(), id);
                }
                let mut i: usize = 0;
                while i < children.len()
                    invariant
                        i <= children@.len() == kids.len(),
                        forall|j: int| 0 <= j < kids.len() ==> children@[j]@ == #[trigger] kids[j],
                        forall|j: int| 0 <= j < i ==> !panes(#[trigger] kids[j]).contains(id),
                        panes(self@).contains(id) <==> exists|j: int|
                            0 <= j < kids.len() && panes(#[trigger] kids[j]).contains(id),
                        decreases_to!(self => children),
                    decreases children.len() - i,
                {
                    if children[i].contains(id) {
                        assert(panes(kids[i as int]).contains(id));
                        return true;
                    }
                    i = i + 1;
                }
                false
            },
        }
    }
}

/// The cells there are for `n` entries, less the borders between them.
pub open spec fn avail_of(n: int, extent: int) -> int {
    if extent > n - 1 {
        extent - (n - 1)
    } else {
        0
    }
}

/// The sizes on screen of a row stored as `sizes`.
pub open spec fn cells_of(sizes: Seq<int>, extent: int) -> Seq<int> {
    fitted(sizes, avail_of(sizes.len() as int, extent))
}

/// The row is squeezed so far that an entry is pinned to one cell.
pub open spec fn squeezed(sizes: Seq<int>, extent: int) -> bool {
    total(sizes) > avail_of(sizes.len() as int, extent) && exists|i: int|
        0 <= i < sizes.len() && #[trigger] cells_of(sizes, extent)[i] <= 1 && sizes[i] > 1
}

/// The sizes a row keeps: those on screen, except that a squeezed row keeps
/// its proportions for when there is room again.
pub open spec fn kept_of(sizes: Seq<int>, extent: int) -> Seq<int> {
    if squeezed(sizes, extent) {
        sizes
    } else {
        cells_of(sizes, extent)
    }
}

/// Where entry `k` of a row begins: after the entries before it and a border
/// each, but never past the end.
pub open spec fn cell_start(cells: Seq<int>, start: int, extent: int, k: int) -> int {
    let at = start + total(cells.take(k)) + k;
    if at < start + extent {
        at
    } else {
        start + extent
    }
}

/// The rectangle of entry `k`.
pub open spec fn cell_rect(rect: Rect, horizontal: bool, cells: Seq<int>, k: int) -> Rect {
    if horizontal {
        Rect { x: cell_start(cells, rect.x as int, rect.w as int, k) as u16, y: rect.y, w: cells[k] as u16, h: rect.h }
    } else {
        Rect { x: rect.x, y: cell_start(cells, rect.y as int, rect.h as int, k) as u16, w: rect.w, h: cells[k] as u16 }
    }
}

/// The panes of `t` with their rectangles when `t` fills `rect`.
pub open spec fn placed(t: Tree, rect: Rect) -> Seq<(PaneId, Rect)>
    decreases t, 0nat,
{
    match t {
        Tree::Leaf(id) => seq![(id, rect)],
        Tree::Split { horizontal, children, sizes } => placed_upto(
            children,
            horizontal,
            cells_of(sizes, rect.extent(horizontal)),
            rect,
            children.len(),
        ),
    }
}

/// The panes of the first `k` cells of a split.
pub open spec fn placed_upto(
    children: Seq<Tree>,
    horizontal: bool,
    cells: Seq<int>,
    rect: Rect,
    k: nat,
) -> Seq<(PaneId, Rect)>
    decreases children, k,
{
    if k == 0 || k > children.len() {
        Seq::empty()
    } else {
        placed_upto(children, horizontal, cells, rect, (k - 1) as nat) + placed(
            children[k - 1],
            cell_rect(rect, horizontal, cells, k - 1),
        )
    }
}

/// `t` with the sizes it keeps after filling `rect`.
pub open spec fn refitted(t: Tree, rect: Rect) -> Tree
    decreases t,
{
    match t {
        Tree::Leaf(_) => t,
        Tree::Split { horizontal, children, sizes } => Tree::Split {
            horizontal,
            children: Seq::new(
                children.len(),
                |i: int|
                    if 0 <= i < children.len() {
                        refitted(
                            children[i],
                            cell_rect(rect, horizontal, cells_of(sizes, rect.extent(horizontal)), i),
                        )
                    } else {
                        Tree::Leaf(0)
                    },
            ),
            sizes: kept_of(sizes, rect.extent(horizontal)),
        },
    }
}

/// Where a row's entries lie: one after the other, inside the row.
pub proof fn lemma_cell(sizes: Seq<int>, start: int, extent: int, k: int)
    requires
        0 <= k < sizes.len(),
        0 <= extent,
        forall|i: int| 0 <= i < sizes.len() ==> 0 <= #[trigger] sizes[i],
    ensures
        ({
            let cells = cells_of(sizes, extent);
            let at = cell_start(cells, start, extent, k);
            &&& cells.len() == sizes.len()
            &&& 0 <= cells[k] <= extent
            &&& start <= at
            &&& at + cells[k] <= start + extent
            &&& cell_start(cells, start, extent, 0) == start
            &&& cell_start(cells, start, extent, k + 1) == if at + cells[k] + 1 < start + extent {
                at + cells[k] + 1
            } else {
                start + extent
            }
            &&& cells[k] >= 1 ==> at == start + total(cells.take(k)) + k
            &&& sizes.len() - 1 <= extent ==> at == start + total(cells.take(k)) + k
        }),
{
    let n = sizes.len() as int;
    let avail = avail_of(n, extent);
    let cells = cells_of(sizes, extent);
    lemma_fitted_total(sizes, avail);
    lemma_fitted_entries(sizes, avail);
    lemma_total_part(cells, k);
    lemma_total_take(cells, k);
    assert(cells.take(0) =~= Seq::<int>::empty());
}

/// The rectangle of a cell lies inside the split's.
pub proof fn lemma_cell_rect(rect: Rect, horizontal: bool, sizes: Seq<int>, k: int)
    requires
        rect.fits(),
        0 <= k < sizes.len(),
        forall|i: int| 0 <= i < sizes.len() ==> 0 <= #[trigger] sizes[i],
    ensures
        ({
            let cells = cells_of(sizes, rect.extent(horizontal));
            let r = cell_rect(rect, horizontal, cells, k);
            &&& r.fits()
            &&& r.inside(rect)
            &&& r.extent(horizontal) == cells[k]
            &&& r.extent(!horizontal) == rect.extent(!horizontal)
            &&& horizontal ==> r.x == cell_start(cells, rect.x as int, rect.w as int, k)
            &&& !horizontal ==> r.y == cell_start(cells, rect.y as int, rect.h as int, k)
        }),
{
    lemma_cell(sizes, rect.x as int, rect.w as int, k);
    lemma_cell(sizes, rect.y as int, rect.h as int, k);
}

impl Node {
    /// Compute pane rectangles inside `rect`, rebalancing stored sizes to fit.
    pub fn layout(&mut self, rect: Rect, out: &mut Vec<(PaneId, Rect)>)
        requires
            shape(old(self)@),
            panes(old(self)@).len() <= u16::MAX,
            rect.fits(),
        ensures
            final(self)@ == refitted(old(self)@, rect),
            final(out)@ == old(out)@ + placed(old(self)@, rect),
        decreases *old(self),
    {
        proof {
            lemma_panes_count(self@);
        }
        let ghost before = self@;
        match self {
            Node::Leaf(id) => {
                out.push((*id, rect));
                assert(out@ =~= old(out)@ + placed(before, rect));
            },
            Node::Split { horizontal, children, sizes } => {
                let across: bool = *horizontal;
                let n: usize = children.len();
                let full: u16 = if across { rect.w } else { rect.h };
                let gaps: u16 = (n - 1) as u16;
                let avail: u16 = if full > gaps { full - gaps } else { 0 };
                let mut cells = sizes.clone();
                fit_sizes(&mut cells, avail);
                let ghost stored = ints(sizes@);
                let ghost shown = ints(cells@);
                assert(shown == cells_of(stored, rect.extent(across)));
                // The fitted sizes become the stored ones (so resize-pane
                // works in the cells on screen), except when the window is
                // squeezed so far that a pane is pinned to one cell: then the
                // proportions could not survive, so the stored sizes are kept
                // and growing the window back brings the old layout back.
                let shrinking: bool = total_of(sizes) > avail as u32;
                let pinned: bool = any_pinned(&cells, sizes);
                assert((shrinking && pinned) == squeezed(stored, rect.extent(across)));
                if !(shrinking && pinned) {
                    *sizes = cells.clone();
                }
                assert(ints(sizes@) =~= kept_of(stored, rect.extent(across)));
                let ghost kids = children@;
                let ghost trees = before->children;
                let ghost start = if across { rect.x as int } else { rect.y as int };
                let ghost first = out@;
                let mut pos: u16 = if across { rect.x } else { rect.y };
                let end: u16 = if across { rect.x + rect.w } else { rect.y + rect.h };
                proof {
                    lemma_cell(stored, start, full as int, 0);
                    assert(first + placed_upto(trees, across, shown, rect, 0) =~= first);
                }
                let mut i: usize = 0;
                while i < n
                    invariant
                        rect.fits(),
                        n == children@.len() == kids.len() == trees.len() == cells@.len() == stored.len(),
                        i <= n,
                        shown == ints(cells@),
                        full == rect.extent(across),
                        shown == cells_of(stored, full as int),
                        forall|j: int| 0 <= j < n ==> 0 <= #[trigger] stored[j],
                        start == if across {
                            rect.x as int
                        } else {
                            rect.y as int
                        },
                        end == start + full,
                        pos == cell_start(shown, start, full as int, i as int),
                        forall|j: int| 0 <= j < n ==> kids[j]@ == #[trigger] trees[j],
                        forall|j: int|
                            0 <= j < n ==> shape(#[trigger] trees[j]) && panes(trees[j]).len() <= u16::MAX,
                        forall|j: int| 0 <= j < n ==> decreases_to!(*old(self) => kids[j]),
                        forall|j: int|
                            0 <= j < i ==> (#[trigger] children@[j])@ == refitted(
                                trees[j],
                                cell_rect(rect, across, shown, j),
                            ),
                        forall|j: int| i <= j < n ==> children@[j] == kids[j],
                        out@ == first + placed_upto(trees, across, shown, rect, i as nat),
                    decreases n - i,
                {
                    proof {
                        lemma_cell(stored, start, full as int, i as int);
                        lemma_cell_rect(rect, across, stored, i as int);
                        assert(kids[i as int]@ == trees[i as int]);
                        assert(shown[i as int] == cells@[i as int]);
                    }
                    let sz: u16 = cells[i];
                    let r = if across {
                        Rect { x: pos, y: rect.y, w: sz, h: rect.h }
                    } else {
                        Rect { x: rect.x, y: pos, w: rect.w, h: sz }
                    };
                    assert(r == cell_rect(rect, across, shown, i as int));
                    children[i].layout(r, out);
                    // In a degenerate area the border column may not exist;
                    // never place a child past the end of the rectangle.
                    pos = if end - pos > sz { pos + sz + 1 } else { end };
                    i = i + 1;
                    assert(out@ =~= first + placed_upto(trees, across, shown, rect, i as nat));
                }
                proof {
                    assert(self@->children =~= refitted(before, rect)->children);
                    assert(self@->sizes =~= refitted(before, rect)->sizes);
                }
            },
        }
    }
}

/// An entry is down to one cell on screen that was bigger.
fn any_pinned(cells: &Vec<u16>, sizes: &Vec<u16>) -> (b: bool)
    requires
        cells@.len() == sizes@.len(),
    ensures
        b == exists|i: int| 0 <= i < ints(sizes@).len() && #[trigger] ints(cells@)[i] <= 1 && ints(sizes@)[i] > 1,
{
    let mut i: usize = 0;
    while i < cells.len()
        invariant
            i <= cells@.len() == sizes@.len(),
            forall|j: int| 0 <= j < i ==> !(#[trigger] ints(cells@)[j] <= 1 && ints(sizes@)[j] > 1),
        decreases cells.len() - i,
    {
        if cells[i] <= 1 && sizes[i] > 1 {
            assert(ints(cells@)[i as int] <= 1 && ints(sizes@)[i as int] > 1);
            return true;
        }
        i = i + 1;
    }
    false
}

/// The rectangles of a layout are those of its panes, in order.
pub proof fn lemma_placed_panes(t: Tree, rect: Rect)
    ensures
        placed(t, rect).len() == panes(t).len(),
        forall|i: int| 0 <= i < panes(t).len() ==> (#[trigger] placed(t, rect)[i]).0 == panes(t)[i],
    decreases t, 1nat, 0nat,
{
    if let Tree::Split { horizontal, children, sizes } = t {
        lemma_placed_upto_panes(t, rect, children.len());
    }
}

proof fn lemma_placed_upto_panes(t: Tree, rect: Rect, k: nat)
    requires
        t is Split,
        k <= t->children.len(),
    ensures
        ({
            let out = placed_upto(
                t->children,
                t->horizontal,
                cells_of(t->sizes, rect.extent(t->horizontal)),
                rect,
                k,
            );
            &&& out.len() == panes_upto(t->children, k).len()
            &&& forall|i: int| 0 <= i < out.len() ==> (#[trigger] out[i]).0 == panes_upto(t->children, k)[i]
        }),
    decreases t, 0nat, k,
{
    if k > 0 {
        let cells = cells_of(t->sizes, rect.extent(t->horizontal));
        lemma_placed_upto_panes(t, rect, (k - 1) as nat);
        lemma_placed_panes(t->children[k - 1], cell_rect(rect, t->horizontal, cells, k - 1));
    }
}

/// No pane sticks out of the area laid out, and two panes on screen are
/// always apart, with room for a border.
pub proof fn lemma_placed_tiles(t: Tree, rect: Rect)
    requires
        shape(t),
        rect.fits(),
    ensures
        forall|i: int| 0 <= i < placed(t, rect).len() ==> (#[trigger] placed(t, rect)[i]).1.inside(rect),
        forall|i: int, j: int|
            0 <= i < j < placed(t, rect).len() && (#[trigger] placed(t, rect)[i]).1.shown() && (#[trigger] placed(
                t,
                rect,
            )[j]).1.shown() ==> placed(t, rect)[i].1.apart(placed(t, rect)[j].1),
    decreases t, 1nat, 0nat,
{
    if let Tree::Split { horizontal, children, sizes } = t {
        lemma_placed_upto_tiles(t, rect, children.len());
        assert(placed(t, rect) == placed_upto(
            children,
            horizontal,
            cells_of(sizes, rect.extent(horizontal)),
            rect,
            children.len(),
        ));
    }
}

proof fn lemma_placed_upto_tiles(t: Tree, rect: Rect, k: nat)
    requires
        shape(t),
        rect.fits(),
        t is Split,
        k <= t->children.len(),
    ensures
        ({
            let h = t->horizontal;
            let cells = cells_of(t->sizes, rect.extent(h));
            let out = placed_upto(t->children, h, cells, rect, k);
            let start = if h { rect.x as int } else { rect.y as int };
            &&& forall|i: int| 0 <= i < out.len() ==> (#[trigger] out[i]).1.inside(rect)
            // In the row's direction none reaches past the cells so far.
            &&& forall|i: int|
                0 <= i < out.len() ==> (if h {
                    (#[trigger] out[i]).1.x + out[i].1.w
                } else {
                    out[i].1.y + out[i].1.h
                }) <= start + total(cells.take(k as int)) + k - (if k > 0 {
                    1int
                } else {
                    0int
                })
            &&& forall|i: int, j: int|
                0 <= i < j < out.len() && (#[trigger] out[i]).1.shown() && (#[trigger] out[j]).1.shown()
                    ==> out[i].1.apart(out[j].1)
        }),
    decreases t, 0nat, k,
{
    if k > 0 {
        let h = t->horizontal;
        let extent = rect.extent(h);
        let start = if h { rect.x as int } else { rect.y as int };
        let cells = cells_of(t->sizes, extent);
        let r = cell_rect(rect, h, cells, k - 1);
        let a = placed_upto(t->children, h, cells, rect, (k - 1) as nat);
        let b = placed(t->children[k - 1], r);
        let out = placed_upto(t->children, h, cells, rect, k);
        lemma_placed_upto_tiles(t, rect, (k - 1) as nat);
        lemma_cell(t->sizes, start, extent, k - 1);
        lemma_cell_rect(rect, h, t->sizes, k - 1);
        lemma_placed_tiles(t->children[k - 1], r);
        lemma_fitted_entries(t->sizes, avail_of(t->sizes.len() as int, extent));
        lemma_total_take(cells, k - 1);
        assert forall|i: int| 0 <= i < out.len() implies (#[trigger] out[i]).1.inside(rect) && (if h {
            out[i].1.x + out[i].1.w
        } else {
            out[i].1.y + out[i].1.h
        }) <= start + total(cells.take(k as int)) + k - 1 by {
            if i < a.len() {
                assert(out[i] == a[i]);
            } else {
                assert(out[i] == b[i - a.len()]);
            }
        }
        assert forall|i: int, j: int|
            0 <= i < j < out.len() && (#[trigger] out[i]).1.shown() && (#[trigger] out[j]).1.shown() implies out[i].1.apart(
            out[j].1,
        ) by {
            if j < a.len() {
                assert(out[i] == a[i] && out[j] == a[j]);
            } else if i >= a.len() {
                assert(out[i] == b[i - a.len()] && out[j] == b[j - a.len()]);
            } else {
                assert(out[i] == a[i] && out[j] == b[j - a.len()]);
                assert(out[j].1.inside(r));
            }
        }
    }
}

/// No cell of the screen belongs to two panes.
pub proof fn lemma_placed_disjoint(t: Tree, rect: Rect, i: int, j: int, x: int, y: int)
    requires
        shape(t),
        rect.fits(),
        0 <= i < placed(t, rect).len(),
        0 <= j < placed(t, rect).len(),
        i != j,
    ensures
        !(placed(t, rect)[i].1.has(x, y) && placed(t, rect)[j].1.has(x, y)),
{
    lemma_placed_tiles(t, rect);
    if placed(t, rect)[i].1.has(x, y) && placed(t, rect)[j].1.has(x, y) {
        let a = placed(t, rect)[i].1;
        let b = placed(t, rect)[j].1;
        assert(a.shown() && b.shown());
        if i < j {
            assert(a.apart(b));
        } else {
            assert(b.apart(a));
        }
    }
}

/// The cells of a row and the borders between them fill it, where there is
/// room for the borders; with room for a cell each, every entry has one.
pub proof fn lemma_cells_fill(sizes: Seq<int>, extent: int)
    requires
        sizes.len() >= 1,
        extent >= sizes.len() - 1,
        forall|i: int| 0 <= i < sizes.len() ==> 0 <= #[trigger] sizes[i],
    ensures
        total(cells_of(sizes, extent)) + sizes.len() - 1 == extent,
        extent >= 2 * sizes.len() - 1 ==> forall|i: int|
            0 <= i < sizes.len() ==> 1 <= #[trigger] cells_of(sizes, extent)[i],
{
    lemma_fitted_total(sizes, avail_of(sizes.len() as int, extent));
    lemma_fitted_entries(sizes, avail_of(sizes.len() as int, extent));
}

/// Laying out keeps the shape of a tree, and its panes in their order.
pub proof fn lemma_refitted(t: Tree, rect: Rect)
    requires
        shape(t),
        rect.fits(),
    ensures
        shape(refitted(t, rect)),
        panes(refitted(t, rect)) == panes(t),
    decreases t,
{
    if let Tree::Split { horizontal, children, sizes } = t {
        let cells = cells_of(sizes, rect.extent(horizontal));
        let after = refitted(t, rect);
        assert forall|i: int| 0 <= i < children.len() implies shape(#[trigger] after->children[i]) && panes(
            after->children[i],
        ) == panes(children[i]) by {
            lemma_cell_rect(rect, horizontal, sizes, i);
            lemma_refitted(children[i], cell_rect(rect, horizontal, cells, i));
        }
        lemma_fitted_entries(sizes, avail_of(sizes.len() as int, rect.extent(horizontal)));
        lemma_same_panes(children, after->children, children.len());
    }
}

proof fn lemma_same_panes(a: Seq<Tree>, b: Seq<Tree>, k: nat)
    requires
        a.len() == b.len(),
        k <= a.len(),
        forall|i: int| 0 <= i < a.len() ==> panes(a[i]) == panes(#[trigger] b[i]),
    ensures
        panes_upto(a, k) == panes_upto(b, k),
    decreases k,
{
    if k > 0 {
        lemma_same_panes(a, b, (k - 1) as nat);
        assert(panes(a[k - 1]) == panes(b[k - 1]));
    }
}

/// Sizes that a row keeps are on the screen as they were, and are kept again.
proof fn lemma_kept_again(sizes: Seq<int>, extent: int)
    requires
        sizes.len() >= 1,
        extent >= 0,
        forall|i: int| 0 <= i < sizes.len() ==> 0 <= #[trigger] sizes[i],
    ensures
        kept_of(sizes, extent).len() == sizes.len(),
        cells_of(kept_of(sizes, extent), extent) == cells_of(sizes, extent),
        kept_of(kept_of(sizes, extent), extent) == kept_of(sizes, extent),
{
    let avail = avail_of(sizes.len() as int, extent);
    lemma_fitted_total(sizes, avail);
    lemma_fitted_entries(sizes, avail);
}

/// Laying out twice in one rectangle is laying out once: every pane is where
/// it was, and the sizes kept are the same.
pub proof fn lemma_laid_out_twice(t: Tree, rect: Rect)
    requires
        shape(t),
        rect.fits(),
    ensures
        placed(refitted(t, rect), rect) == placed(t, rect),
        refitted(refitted(t, rect), rect) == refitted(t, rect),
    decreases t, 1nat, 0nat,
{
    if let Tree::Split { horizontal, children, sizes } = t {
        let extent = rect.extent(horizontal);
        let cells = cells_of(sizes, extent);
        let once = refitted(t, rect);
        let twice = refitted(once, rect);
        lemma_kept_again(sizes, extent);
        lemma_laid_out_twice_upto(t, rect, children.len());
        assert forall|i: int| 0 <= i < children.len() implies twice->children[i] == #[trigger] once->children[i] by {
            lemma_cell_rect(rect, horizontal, sizes, i);
            lemma_laid_out_twice(children[i], cell_rect(rect, horizontal, cells, i));
        }
        assert(twice->children =~= once->children);
    }
}

proof fn lemma_laid_out_twice_upto(t: Tree, rect: Rect, k: nat)
    requires
        shape(t),
        t is Split,
        rect.fits(),
        k <= t->children.len(),
    ensures
        ({
            let cells = cells_of(t->sizes, rect.extent(t->horizontal));
            placed_upto(refitted(t, rect)->children, t->horizontal, cells, rect, k) == placed_upto(
                t->children,
                t->horizontal,
                cells,
                rect,
                k,
            )
        }),
    decreases t, 0nat, k,
{
    if k > 0 {
        let cells = cells_of(t->sizes, rect.extent(t->horizontal));
        lemma_laid_out_twice_upto(t, rect, (k - 1) as nat);
        lemma_cell_rect(rect, t->horizontal, t->sizes, k - 1);
        lemma_laid_out_twice(t->children[k - 1], cell_rect(rect, t->horizontal, cells, k - 1));
        assert(refitted(t, rect)->children[k - 1] == refitted(
            t->children[k - 1],
            cell_rect(rect, t->horizontal, cells, k - 1),
        ));
    }
}

} // verus!
