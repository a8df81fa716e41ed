//! Changing a layout: splitting and removing panes, moving edges.
use vstd::prelude::*;

use crate::fit::ints;
use crate::layout::{lemma_panes_count, lemma_panes_upto_contains, panes, panes_upto, shape, trees, lemma_split_view, lemma_trees, Node, PaneId, Rect, Tree};

verus! {

/// `t` with the panes `a` and `b` in each other's place.
pub open spec fn swapped(t: Tree, a: PaneId, b: PaneId) -> Tree
    decreases t,
{
    match t {
        Tree::Leaf(id) => Tree::Leaf(
            if id == a {
                b
            } else if id == b {
                a
            } else {
                id
            },
        ),
        Tree::Split { horizontal, children, sizes } => Tree::Split {
            horizontal,
            children: Seq::new(
                children.len(),
                |i: int|
                    if 0 <= i < children.len() {
                        swapped(children[i], a, b)
                    } else {
                        Tree::Leaf(0)
                    },
            ),
            sizes,
        },
    }
}

impl Node {
    pub fn swap(&mut self, a: PaneId, b: PaneId)
        ensures
            final(self)@ == swapped(old(self)@, a, b),
        decreases *old(self),
    {
        match self {
            Node::Leaf(id) => {
                if *id == a {
                    *id = b;
                } else if *id == b {
                    *id = a;
                }
            },
            Node::Split { horizontal, children, sizes } => {
                let ghost kids = children@;
                let mut i: usize = 0;
                while i < children.len()
                    invariant
                        i <= children@.len(),
                        children@.len() == kids.len(),
                        forall|j: int| 0 <= j < i ==> (#[trigger] children@[j])@ == swapped(kids[j]@, a, b),
                        forall|j: int| i <= j < kids.len() ==> children@[j] == kids[j],
                        forall|j: int| 0 <= j < kids.len() ==> decreases_to!(*old(self) => kids[j]),
                    decreases children.len() - i,
                {
                    children[i].swap(a, b);
                    i = i + 1;
                }
                proof {
                    assert(self@->children =~= swapped(old(self)@, a, b)->children);
                    assert(self@->sizes =~= old(self)@->sizes);
                }
            },
        }
    }
}


/// The first of `children` from `from` on that holds pane `id`, or their
/// number when none does.
pub open spec fn first_with(children: Seq<Tree>, id: PaneId, from: int) -> int
    decreases children.len() - from,
{
    if from >= children.len() {
        children.len() as int
    } else if panes(children[from]).contains(id) {
        from
    } else {
        first_with(children, id, from + 1)
    }
}

pub proof fn lemma_first_with(children: Seq<Tree>, id: PaneId, from: int)
    requires
        0 <= from <= children.len(),
    ensures
        ({
            let k = first_with(children, id, from);
            &&& from <= k <= children.len()
            &&& k < children.len() ==> panes(children[k]).contains(id)
            &&& forall|i: int| from <= i < k ==> !panes(#[trigger] children[i]).contains(id)
        }),
    decreases children.len() - from,
{
    if from < children.len() && !panes(children[from]).contains(id) {
        lemma_first_with(children, id, from + 1);
    }
}

pub(crate) fn find_with(children: &Vec<Node>, id: PaneId) -> (k: usize)
    ensures
        k == first_with(trees(children@), id, 0),
        k <= children@.len(),
        k < children@.len() ==> panes(children@[k as int]@).contains(id),
{
    let ghost all = trees(children@);
    let mut k: usize = 0;
    while k < children.len() && !children[k].contains(id)
        invariant
            k <= children@.len(),
            all == trees(children@),
            first_with(all, id, 0) == first_with(all, id, k as int),
        decreases children.len() - k,
    {
        assert(children@[k as int]@ == all[k as int]);
        k = k + 1;
    }
    proof {
        lemma_first_with(all, id, k as int);
        if k < all.len() {
            assert(children@[k as int]@ == all[k as int]);
        }
    }
    k
}

/// Two nodes side by side.
fn pair(horizontal: bool, first: Node, second: Node, a: u16, b: u16) -> (out: Node)
    ensures
        out@ == (Tree::Split { horizontal, children: seq![first@, second@], sizes: seq![a as int, b as int] }),
{
    let children = vec![first, second];
    let sizes = vec![a, b];
    proof {
        lemma_split_view(horizontal, children, sizes);
        assert(trees(children@) =~= seq![first@, second@]);
        assert(ints(sizes@) =~= seq![a as int, b as int]);
    }
    Node::Split { horizontal, children, sizes }
}

/// What the pane split keeps of an extent: the larger half.
pub open spec fn kept_half(extent: int) -> int {
    let avail = if extent > 1 { extent - 1 } else { 0 };
    let half = avail - avail / 2;
    if half > 1 {
        half
    } else {
        1
    }
}

/// What the new pane gets.
pub open spec fn new_half(extent: int) -> int {
    let avail = if extent > 1 { extent - 1 } else { 0 };
    if avail / 2 > 1 {
        avail / 2
    } else {
        1
    }
}

/// `t` with `new` split off pane `target`, which was `extent` cells long in
/// that direction.
pub open spec fn split_tree(
    t: Tree,
    target: PaneId,
    horizontal: bool,
    new: PaneId,
    extent: int,
    before: bool,
) -> Tree
    decreases t,
{
    match t {
        Tree::Leaf(id) => if id != target {
            t
        } else if before {
            Tree::Split {
                horizontal,
                children: seq![Tree::Leaf(new), Tree::Leaf(target)],
                sizes: seq![new_half(extent), kept_half(extent)],
            }
        } else {
            Tree::Split {
                horizontal,
                children: seq![Tree::Leaf(target), Tree::Leaf(new)],
                sizes: seq![kept_half(extent), new_half(extent)],
            }
        },
        Tree::Split { horizontal: h, children, sizes } => {
            let k = first_with(children, target, 0);
            let at = if before { k } else { k + 1 };
            if k < 0 || k >= children.len() {
                t
            } else if h == horizontal && children[k] is Leaf {
                Tree::Split {
                    horizontal: h,
                    children: children.insert(at, Tree::Leaf(new)),
                    sizes: sizes.update(k, kept_half(extent)).insert(at, new_half(extent)),
                }
            } else {
                Tree::Split {
                    horizontal: h,
                    children: children.update(
                        k,
                        split_tree(children[k], target, horizontal, new, extent, before),
                    ),
                    sizes,
                }
            }
        },
    }
}

/// The tree around `t` with `new` along one whole side.
pub open spec fn split_root_tree(t: Tree, horizontal: bool, new: PaneId, extent: int, before: bool) -> Tree {
    let avail = if extent > 1 { extent - 1 } else { 0 };
    let second = new_half(extent);
    let first = if avail - second > 1 { avail - second } else { 1 };
    if before {
        Tree::Split { horizontal, children: seq![Tree::Leaf(new), t], sizes: seq![second, first] }
    } else {
        Tree::Split { horizontal, children: seq![t, Tree::Leaf(new)], sizes: seq![first, second] }
    }
}

impl Node {
    /// Split pane `target` (currently occupying `target_rect`), placing `new`
    /// after it. Returns false if `target` is not in the tree.
    pub fn split(&mut self, target: PaneId, horizontal: bool, new: PaneId, target_rect: Rect) -> (done: bool)
        requires
            shape(old(self)@),
        ensures
            done == panes(old(self)@).contains(target),
            final(self)@ == split_tree(
                old(self)@,
                target,
                horizontal,
                new,
                target_rect.extent(horizontal),
                false,
            ),
    {
        self.split_at(target, horizontal, new, target_rect, false)
    }

    /// Like `split`, with `before` placing `new` left of / above `target`.
    #[verifier::spinoff_prover]
    #[verifier::rlimit(30)]
    pub fn split_at(
        &mut self,
        target: PaneId,
        horizontal: bool,
        new: PaneId,
        target_rect: Rect,
        before: bool,
    ) -> (done: bool)
        requires
            shape(old(self)@),
        ensures
            done == panes(old(self)@).contains(target),
            final(self)@ == split_tree(
                old(self)@,
                target,
                horizontal,
                new,
                target_rect.extent(horizontal),
                before,
            ),
        decreases *old(self),
    {
        let extent: u16 = if horizontal { target_rect.w } else { target_rect.h };
        let avail: u16 = if extent > 1 { extent - 1 } else { 0 };
        let half: u16 = avail / 2;
        // The target keeps the larger half, wherever it ends up.
        let keep: u16 = if avail - half > 1 { avail - half } else { 1 };
        let give: u16 = if half > 1 { half } else { 1 };
        let ghost t = self@;
        match self {
            Node::Leaf(id) => {
                assert(panes(t)[0] == *id);
                if *id != target {
                    return false;
                }
                if before {
                    *self = pair(horizontal, Node::Leaf(new), Node::Leaf(target), give, keep);
                } else {
                    *self = pair(horizontal, Node::Leaf(target), Node::Leaf(new), keep, give);
                }
                true
            },
            Node::Split { horizontal: h, children, sizes } => {
                let ghost kids = children@;
                let ghost stored = ints(sizes@);
                proof {
                    lemma_split_view(*h, *children, *sizes);
                    lemma_panes_upto_contains(trees(kids), kids.len(), target);
                    lemma_first_with(trees(kids), target, 0);
                }
                let idx: usize = find_with(children, target);
                if idx >= children.len() {
                    return false;
                }
                assert(trees(kids)[idx as int] == children@[idx as int]@);
                let flat: bool = *h == horizontal && matches!(children[idx], Node::Leaf(_));
                if flat {
                    let at: usize = if before { idx } else { idx + 1 };
                    children.insert(at, Node::Leaf(new));
                    sizes[idx] = keep;
                    sizes.insert(at, give);
                    proof {
                        lemma_trees(kids, at as int, Node::Leaf(new));
                        assert(ints(sizes@) =~= stored.update(idx as int, keep as int).insert(at as int, give as int));
                        lemma_split_view(*h, *children, *sizes);
                    }
                    true
                } else {
                    let done: bool = children[idx].split_at(target, horizontal, new, target_rect, before);
                    proof {
                        lemma_trees(kids, idx as int, children@[idx as int]);
                        assert(children@ =~= kids.update(idx as int, children@[idx as int]));
                        lemma_split_view(*h, *children, *sizes);
                    }
                    done
                }
            },
        }
    }

    /// Wrap the whole tree in a new split so that `new` spans the full
    /// width (horizontal) or height of `area`.
    pub fn split_root(&mut self, horizontal: bool, new: PaneId, area: Rect, before: bool)
        ensures
            final(self)@ == split_root_tree(old(self)@, horizontal, new, area.extent(horizontal), before),
    {
        let extent: u16 = if horizontal { area.w } else { area.h };
        let avail: u16 = if extent > 1 { extent - 1 } else { 0 };
        let second: u16 = if avail / 2 > 1 { avail / 2 } else { 1 };
        let first: u16 = if avail > second && avail - second > 1 { avail - second } else { 1 };
        let mut whole = Node::Leaf(new);
        std::mem::swap(self, &mut whole);
        if before {
            *self = pair(horizontal, Node::Leaf(new), whole, second, first);
        } else {
            *self = pair(horizontal, whole, Node::Leaf(new), first, second);
        }
    }
}


/// The panes of a row of trees.
pub open spec fn flat(children: Seq<Tree>) -> Seq<PaneId> {
    panes_upto(children, children.len())
}

proof fn lemma_upto_prefix(a: Seq<Tree>, b: Seq<Tree>, k: nat)
    requires
        k <= a.len(),
    ensures
        panes_upto(a + b, k) == panes_upto(a, k),
    decreases k,
{
    if k > 0 {
        lemma_upto_prefix(a, b, (k - 1) as nat);
        assert((a + b)[k - 1] == a[k - 1]);
    }
}

pub proof fn lemma_flat_concat(a: Seq<Tree>, b: Seq<Tree>)
    ensures
        flat(a + b) == flat(a) + flat(b),
    decreases b.len(),
{
    if b.len() == 0 {
        assert(a + b =~= a);
        assert(flat(a) + flat(b) =~= flat(a));
    } else {
        let c = b.drop_last();
        lemma_flat_concat(a, c);
        assert((a + b).drop_last() =~= a + c);
        lemma_upto_prefix(a + c, seq![b.last()], (a + c).len());
        assert(a + b =~= (a + c) + seq![b.last()]);
        lemma_upto_prefix(c, seq![b.last()], c.len());
        assert(b =~= c + seq![b.last()]);
        assert(flat(a + b) == flat(a + c) + panes(b.last()));
        assert(flat(b) == flat(c) + panes(b.last()));
        assert(flat(a) + flat(b) =~= (flat(a) + flat(c)) + panes(b.last()));
    }
}

pub proof fn lemma_flat_one(t: Tree)
    ensures
        flat(seq![t]) == panes(t),
{
    reveal_with_fuel(panes_upto, 2);
    assert(flat(seq![t]) =~= panes(t));
}

/// A row of trees around its cell `k`.
pub proof fn lemma_flat_around(children: Seq<Tree>, k: int)
    requires
        0 <= k < children.len(),
    ensures
        flat(children) == flat(children.take(k)) + panes(children[k]) + flat(children.skip(k + 1)),
{
    assert(children =~= children.take(k) + seq![children[k]] + children.skip(k + 1));
    lemma_flat_concat(children.take(k) + seq![children[k]], children.skip(k + 1));
    lemma_flat_concat(children.take(k), seq![children[k]]);
    lemma_flat_one(children[k]);
}

/// A row of trees with one more in it.
proof fn lemma_flat_insert(children: Seq<Tree>, at: int, t: Tree)
    requires
        0 <= at <= children.len(),
    ensures
        flat(children.insert(at, t)) == flat(children.take(at)) + panes(t) + flat(children.skip(at)),
{
    let now = children.insert(at, t);
    lemma_flat_around(now, at);
    assert(now.take(at) =~= children.take(at));
    assert(now.skip(at + 1) =~= children.skip(at));
}

pub proof fn lemma_flat_update(children: Seq<Tree>, k: int, t: Tree)
    requires
        0 <= k < children.len(),
    ensures
        flat(children.update(k, t)) == flat(children.take(k)) + panes(t) + flat(children.skip(k + 1)),
{
    let now = children.update(k, t);
    lemma_flat_around(now, k);
    assert(now.take(k) =~= children.take(k));
    assert(now.skip(k + 1) =~= children.skip(k + 1));
}

proof fn lemma_flat_two(a: Tree, b: Tree)
    ensures
        flat(seq![a, b]) == panes(a) + panes(b),
{
    lemma_flat_concat(seq![a], seq![b]);
    lemma_flat_one(a);
    lemma_flat_one(b);
    assert(seq![a, b] =~= seq![a] + seq![b]);
}

proof fn lemma_shape_two(horizontal: bool, a: Tree, b: Tree, x: int, y: int)
    requires
        shape(a),
        shape(b),
        x >= 0,
        y >= 0,
    ensures
        shape(Tree::Split { horizontal, children: seq![a, b], sizes: seq![x, y] }),
{
    let t = Tree::Split { horizontal, children: seq![a, b], sizes: seq![x, y] };
    assert forall|i: int| 0 <= i < t->children.len() implies shape(#[trigger] t->children[i]) by {
        assert(i == 0 || i == 1);
    }
    assert forall|i: int| 0 <= i < t->sizes.len() implies 0 <= #[trigger] t->sizes[i] by {
        assert(i == 0 || i == 1);
    }
}

proof fn lemma_shape_leaf(id: PaneId)
    ensures
        shape(Tree::Leaf(id)),
        panes(Tree::Leaf(id)) == seq![id],
{
}

/// Where pane `target` stands among the panes of a row whose cell `k` is the
/// first to hold it.
proof fn lemma_first_place(children: Seq<Tree>, target: PaneId, k: int, p: int)
    requires
        k == first_with(children, target, 0),
        0 <= k < children.len(),
        0 <= p < panes(children[k]).len(),
        panes(children[k])[p] == target,
        forall|q: int| 0 <= q < p ==> panes(children[k])[q] != target,
    ensures
        ({
            let at = flat(children.take(k)).len() + p;
            &&& 0 <= at < flat(children).len()
            &&& flat(children)[at] == target
            &&& forall|q: int| 0 <= q < at ==> flat(children)[q] != target
        }),
{
    lemma_first_with(children, target, 0);
    lemma_flat_around(children, k);
    let head = children.take(k);
    let a = flat(head);
    let b = panes(children[k]);
    lemma_panes_upto_contains(head, head.len(), target);
    assert forall|i: int| 0 <= i < head.len() implies !panes(#[trigger] head[i]).contains(target) by {
        assert(head[i] == children[i]);
    }
    assert(!a.contains(target));
    let at = a.len() + p;
    assert forall|q: int| 0 <= q < at implies flat(children)[q] != target by {
        if q < a.len() {
            assert(a[q] == flat(children)[q]);
        } else {
            assert(b[q - a.len()] == flat(children)[q]);
        }
    }
}

/// Splitting puts the new pane right beside the pane split (the first of
/// that number), and nothing else moves.
#[verifier::spinoff_prover]
pub proof fn lemma_split_panes(
    t: Tree,
    target: PaneId,
    horizontal: bool,
    new: PaneId,
    extent: int,
    before: bool,
) -> (p: int)
    requires
        shape(t),
        panes(t).contains(target),
    ensures
        0 <= p < panes(t).len(),
        panes(t)[p] == target,
        forall|q: int| 0 <= q < p ==> panes(t)[q] != target,
        before ==> panes(split_tree(t, target, horizontal, new, extent, before)) == panes(t).insert(p, new),
        !before ==> panes(split_tree(t, target, horizontal, new, extent, before)) == panes(t).insert(p + 1, new),
        shape(split_tree(t, target, horizontal, new, extent, before)),
    decreases t,
{
    let after = split_tree(t, target, horizontal, new, extent, before);
    match t {
        Tree::Leaf(id) => {
            assert(panes(t)[0] == id);
            lemma_shape_leaf(new);
            lemma_shape_leaf(target);
            if before {
                lemma_flat_two(Tree::Leaf(new), Tree::Leaf(target));
                lemma_shape_two(horizontal, Tree::Leaf(new), Tree::Leaf(target), new_half(extent), kept_half(extent));
                assert(shape(after));
                assert(panes(after) =~= panes(t).insert(0, new));
            } else {
                lemma_flat_two(Tree::Leaf(target), Tree::Leaf(new));
                lemma_shape_two(horizontal, Tree::Leaf(target), Tree::Leaf(new), kept_half(extent), new_half(extent));
                assert(shape(after));
                assert(panes(after) =~= panes(t).insert(1, new));
            }
            0
        },
        Tree::Split { horizontal: h, children, sizes } => {
            lemma_panes_upto_contains(children, children.len(), target);
            lemma_first_with(children, target, 0);
            let k = first_with(children, target, 0);
            let a = flat(children.take(k));
            if h == horizontal && children[k] is Leaf {
                let at = if before { k } else { k + 1 };
                lemma_split_flat(children, sizes, h, target, new, k, at);
                let stored = sizes.update(k, kept_half(extent)).insert(at, new_half(extent));
                assert forall|i: int| 0 <= i < stored.len() implies 0 <= #[trigger] stored[i] by {
                    if i < at {
                        assert(stored[i] == sizes.update(k, kept_half(extent))[i]);
                    } else if i > at {
                        assert(stored[i] == sizes.update(k, kept_half(extent))[i - 1]);
                    }
                }
                assert(after->sizes == stored);
                assert(after->children == children.insert(at, Tree::Leaf(new)));
                assert(shape(after));
                a.len() as int
            } else {
                let p0 = lemma_split_panes(children[k], target, horizontal, new, extent, before);
                let kid = split_tree(children[k], target, horizontal, new, extent, before);
                lemma_first_place(children, target, k, p0);
                lemma_split_inner(children, k, kid, p0, new, before);
                assert(after->children == children.update(k, kid));
                assert(shape(after));
                a.len() + p0
            }
        },
    }
}

proof fn lemma_insert_middle(a: Seq<PaneId>, b: Seq<PaneId>, c: Seq<PaneId>, p: int, x: PaneId)
    requires
        0 <= p <= b.len(),
    ensures
        (a + b + c).insert(a.len() + p, x) == a + b.insert(p, x) + c,
{
    assert((a + b + c).insert(a.len() + p, x) =~= a + b.insert(p, x) + c);
}

/// A new pane in the row beside the pane that is its cell `k`.
proof fn lemma_split_flat(
    children: Seq<Tree>,
    sizes: Seq<int>,
    h: bool,
    target: PaneId,
    new: PaneId,
    k: int,
    at: int,
)
    requires
        k == first_with(children, target, 0),
        0 <= k < children.len(),
        at == k || at == k + 1,
        children[k] is Leaf,
        forall|i: int| 0 <= i < children.len() ==> shape(#[trigger] children[i]),
    ensures
        ({
            let now = children.insert(at, Tree::Leaf(new));
            let p = flat(children.take(k)).len() as int;
            &&& 0 <= p < flat(children).len()
            &&& flat(children)[p] == target
            &&& forall|q: int| 0 <= q < p ==> flat(children)[q] != target
            &&& flat(now) == flat(children).insert(p + at - k, new)
            &&& forall|i: int| 0 <= i < now.len() ==> shape(#[trigger] now[i])
        }),
{
    lemma_first_with(children, target, 0);
    let now = children.insert(at, Tree::Leaf(new));
    let id = children[k]->Leaf_0;
    lemma_shape_leaf(id);
    lemma_shape_leaf(new);
    assert(panes(children[k])[0] == target);
    lemma_first_place(children, target, k, 0);
    lemma_flat_around(children, k);
    lemma_flat_insert(children, at, Tree::Leaf(new));
    let a = flat(children.take(k));
    let c = flat(children.skip(k + 1));
    lemma_insert_middle(a, seq![target], c, at - k, new);
    lemma_flat_one(children[k]);
    if at == k {
        assert(children.skip(k) =~= seq![children[k]] + children.skip(k + 1));
        lemma_flat_concat(seq![children[k]], children.skip(k + 1));
        assert(a + seq![new] + (seq![target] + c) =~= a + seq![target].insert(0, new) + c);
    } else {
        assert(children.take(k + 1) =~= children.take(k) + seq![children[k]]);
        lemma_flat_concat(children.take(k), seq![children[k]]);
        assert((a + seq![target]) + seq![new] + c =~= a + seq![target].insert(1, new) + c);
    }
    assert forall|i: int| 0 <= i < now.len() implies shape(#[trigger] now[i]) by {
        if i < at {
            assert(now[i] == children[i]);
        } else if i > at {
            assert(now[i] == children[i - 1]);
        }
    }
}

/// A new pane somewhere inside cell `k` of a row.
proof fn lemma_split_inner(children: Seq<Tree>, k: int, kid: Tree, p0: int, new: PaneId, before: bool)
    requires
        0 <= k < children.len(),
        0 <= p0 < panes(children[k]).len(),
        before ==> panes(kid) == panes(children[k]).insert(p0, new),
        !before ==> panes(kid) == panes(children[k]).insert(p0 + 1, new),
        shape(kid),
        forall|i: int| 0 <= i < children.len() ==> shape(#[trigger] children[i]),
    ensures
        ({
            let now = children.update(k, kid);
            let p = flat(children.take(k)).len() + p0;
            &&& before ==> flat(now) == flat(children).insert(p, new)
            &&& !before ==> flat(now) == flat(children).insert(p + 1, new)
            &&& forall|i: int| 0 <= i < now.len() ==> shape(#[trigger] now[i])
        }),
{
    lemma_flat_around(children, k);
    lemma_flat_update(children, k, kid);
    lemma_insert_middle(
        flat(children.take(k)),
        panes(children[k]),
        flat(children.skip(k + 1)),
        if before {
            p0
        } else {
            p0 + 1
        },
        new,
    );
}

/// A new pane along one side stands before or after all the others.
pub proof fn lemma_split_root_panes(t: Tree, horizontal: bool, new: PaneId, extent: int, before: bool)
    requires
        shape(t),
    ensures
        shape(split_root_tree(t, horizontal, new, extent, before)),
        panes(split_root_tree(t, horizontal, new, extent, before)) == if before {
            seq![new] + panes(t)
        } else {
            panes(t).push(new)
        },
{
    let avail = if extent > 1 { extent - 1 } else { 0 };
    let second = new_half(extent);
    let first = if avail - second > 1 { avail - second } else { 1 };
    lemma_shape_leaf(new);
    if before {
        lemma_flat_two(Tree::Leaf(new), t);
        lemma_shape_two(horizontal, Tree::Leaf(new), t, second, first);
    } else {
        lemma_flat_two(t, Tree::Leaf(new));
        lemma_shape_two(horizontal, t, Tree::Leaf(new), first, second);
        assert(panes(t) + seq![new] =~= panes(t).push(new));
    }
}

/// `t` holds pane `id` and nothing else.
pub open spec fn sole(t: Tree, id: PaneId) -> bool {
    panes(t) == seq![id]
}

/// The first of `children` from `from` on that is pane `id` alone, or their
/// number when none is.
pub open spec fn first_sole(children: Seq<Tree>, id: PaneId, from: int) -> int
    decreases children.len() - from,
{
    if from >= children.len() {
        children.len() as int
    } else if sole(children[from], id) {
        from
    } else {
        first_sole(children, id, from + 1)
    }
}

pub proof fn lemma_first_sole(children: Seq<Tree>, id: PaneId, from: int)
    requires
        0 <= from <= children.len(),
    ensures
        ({
            let k = first_sole(children, id, from);
            &&& from <= k <= children.len()
            &&& k < children.len() ==> sole(children[k], id)
            &&& forall|i: int| from <= i < k ==> !sole(#[trigger] children[i], id)
        }),
    decreases children.len() - from,
{
    if from < children.len() && !sole(children[from], id) {
        lemma_first_sole(children, id, from + 1);
    }
}

/// The largest size a cell can be given that is no larger than `n`.
pub open spec fn capped(n: int) -> int {
    if n > u16::MAX {
        u16::MAX as int
    } else {
        n
    }
}

/// The sum of two sizes, as far as a size goes.
pub fn capped_sum(a: u16, b: u16) -> (c: u16)
    ensures
        c == capped(a + b),
{
    if a > u16::MAX - b {
        u16::MAX
    } else {
        a + b
    }
}

/// `t` without the splits of one cell around it.
pub open spec fn collapsed(t: Tree) -> Tree
    decreases t,
{
    match t {
        Tree::Leaf(_) => t,
        Tree::Split { children, .. } => if children.len() == 1 {
            collapsed(children[0])
        } else {
            t
        },
    }
}

/// A tree keeps its panes and its shape without the splits of one cell
/// around it.
proof fn lemma_collapsed(t: Tree)
    ensures
        panes(collapsed(t)) == panes(t),
        shape(t) ==> shape(collapsed(t)),
        collapsed(t) is Split ==> collapsed(t)->children.len() != 1,
    decreases t,
{
    if let Tree::Split { children, .. } = t {
        if children.len() == 1 {
            lemma_collapsed(children[0]);
            assert(children =~= seq![children[0]]);
            lemma_flat_one(children[0]);
        }
    }
}

/// A split without its cell `k`: the freed space and its border go to the
/// previous cell (or the next one), and a cell left alone takes the split's
/// place.
pub open spec fn without_cell(horizontal: bool, children: Seq<Tree>, sizes: Seq<int>, k: int) -> Tree {
    let rest = children.remove(k);
    let give = if k > 0 { k - 1 } else { 0 };
    if rest.len() == 1 {
        collapsed(rest[0])
    } else {
        Tree::Split {
            horizontal,
            children: rest,
            sizes: sizes.remove(k).update(give, capped(sizes.remove(k)[give] + sizes[k] + 1)),
        }
    }
}

/// A split with `kid` as its cell `k`; a split in the same direction becomes
/// part of it.
pub open spec fn with_cell(horizontal: bool, children: Seq<Tree>, sizes: Seq<int>, k: int, kid: Tree) -> Tree {
    if kid is Split && kid->horizontal == horizontal {
        Tree::Split {
            horizontal,
            children: children.take(k) + kid->children + children.skip(k + 1),
            sizes: sizes.take(k) + kid->sizes + sizes.skip(k + 1),
        }
    } else {
        Tree::Split { horizontal, children: children.update(k, kid), sizes }
    }
}

/// `t` without pane `id`; a split that is left with one cell is that cell.
/// The only pane of a split leaves it empty, and a pane is not removed from
/// itself.
pub open spec fn removed(t: Tree, id: PaneId) -> Tree
    decreases t,
{
    match t {
        Tree::Leaf(_) => t,
        Tree::Split { horizontal, children, sizes } => {
            let alone = first_sole(children, id, 0);
            let k = first_with(children, id, 0);
            if sole(t, id) {
                Tree::Split { horizontal, children: Seq::empty(), sizes: Seq::empty() }
            } else if 0 <= alone < children.len() {
                without_cell(horizontal, children, sizes, alone)
            } else if 0 <= k < children.len() {
                let kid = removed(children[k], id);
                if children.len() == 1 {
                    kid
                } else {
                    with_cell(horizontal, children, sizes, k, kid)
                }
            } else {
                t
            }
        },
    }
}

/// A split holds one pane alone when it is one cell that does.
proof fn lemma_sole_split(t: Tree, id: PaneId)
    requires
        shape(t),
        t is Split,
    ensures
        sole(t, id) <==> t->children.len() == 1 && sole(t->children[0], id),
{
    lemma_panes_count(t);
    if t->children.len() == 1 {
        assert(t->children =~= seq![t->children[0]]);
        lemma_flat_one(t->children[0]);
    }
}

/// Without one of its panes a tree keeps its shape.
pub proof fn lemma_removed_shape(t: Tree, id: PaneId)
    requires
        shape(t),
        t is Split ==> !sole(t, id),
    ensures
        shape(removed(t, id)),
    decreases t,
{
    if let Tree::Split { horizontal, children, sizes } = t {
        lemma_first_sole(children, id, 0);
        lemma_first_with(children, id, 0);
        let alone = first_sole(children, id, 0);
        let k = first_with(children, id, 0);
        let after = removed(t, id);
        lemma_sole_split(t, id);
        if alone < children.len() {
            let rest = children.remove(alone);
            assert forall|i: int| 0 <= i < rest.len() implies shape(#[trigger] rest[i]) by {
                let j = if i < alone { i } else { i + 1 };
                assert(rest[i] == children[j]);
            }
            if rest.len() == 1 {
                lemma_collapsed(rest[0]);
            }
        } else if k < children.len() {
            lemma_removed_shape(children[k], id);
            if children.len() == 1 {
                return;
            }
            let kid = removed(children[k], id);
            assert forall|i: int| 0 <= i < after->children.len() implies shape(#[trigger] after->children[i]) by {
                if kid is Split && kid->horizontal == horizontal {
                    let n = kid->children.len();
                    if i < k {
                        assert(after->children[i] == children[i]);
                    } else if i < k + n {
                        assert(after->children[i] == kid->children[i - k]);
                    } else {
                        assert(after->children[i] == children[i - n + 1]);
                    }
                } else if i != k {
                    assert(after->children[i] == children[i]);
                }
            }
        }
    }
}

/// The panes but `id`.
#[verifier::opaque]
pub open spec fn others(s: Seq<PaneId>, id: PaneId) -> Seq<PaneId> {
    s.filter(|p: PaneId| p != id)
}

proof fn lemma_others_absent(s: Seq<PaneId>, id: PaneId)
    requires
        !s.contains(id),
    ensures
        others(s, id) == s,
    decreases s.len(),
{
    reveal(others);
    reveal(Seq::filter);
    if s.len() > 0 {
        assert(!s.drop_last().contains(id)) by {
            if s.drop_last().contains(id) {
                let p = choose|p: int| 0 <= p < s.len() - 1 && s.drop_last()[p] == id;
                assert(s[p] == id);
            }
        }
        assert(s[s.len() - 1] != id);
        lemma_others_absent(s.drop_last(), id);
        assert(s =~= s.drop_last().push(s.last()));
    }
}

proof fn lemma_others_concat(a: Seq<PaneId>, b: Seq<PaneId>, id: PaneId)
    ensures
        others(a + b, id) == others(a, id) + others(b, id),
    decreases b.len(),
{
    reveal(others);
    reveal(Seq::filter);
    if b.len() == 0 {
        assert(a + b =~= a);
        assert(others(a, id) + others(b, id) =~= others(a, id));
    } else {
        lemma_others_concat(a, b.drop_last(), id);
        assert((a + b).drop_last() =~= a + b.drop_last());
        assert(others(a + b, id) =~= others(a, id) + others(b, id));
    }
}

proof fn lemma_others_sole(id: PaneId)
    ensures
        others(seq![id], id) == Seq::<PaneId>::empty(),
{
    reveal(others);
    reveal_with_fuel(Seq::filter, 2);
    assert(seq![id].drop_last() =~= Seq::<PaneId>::empty());
    assert(others(seq![id], id) =~= Seq::<PaneId>::empty());
}

/// What taking `id` out of the middle of a row of distinct panes leaves.
proof fn lemma_others_middle(a: Seq<PaneId>, b: Seq<PaneId>, c: Seq<PaneId>, id: PaneId)
    requires
        (a + b + c).no_duplicates(),
        b.contains(id),
    ensures
        others(a + b + c, id) == a + others(b, id) + c,
        b.no_duplicates(),
{
    let all = a + b + c;
    let p = choose|p: int| 0 <= p < b.len() && b[p] == id;
    assert(all[a.len() + p] == id);
    assert(!a.contains(id)) by {
        if a.contains(id) {
            let q = choose|q: int| 0 <= q < a.len() && a[q] == id;
            assert(all[q] == id);
        }
    }
    assert(!c.contains(id)) by {
        if c.contains(id) {
            let q = choose|q: int| 0 <= q < c.len() && c[q] == id;
            assert(all[a.len() + b.len() + q] == id);
        }
    }
    lemma_others_absent(a, id);
    lemma_others_absent(c, id);
    lemma_others_concat(a + b, c, id);
    lemma_others_concat(a, b, id);
    assert forall|i: int, j: int| 0 <= i < b.len() && 0 <= j < b.len() && i != j implies b[i] != b[j] by {
        assert(all[a.len() + i] == b[i]);
        assert(all[a.len() + j] == b[j]);
    }
}

/// What removing pane `id` from cell `k` of a row of distinct panes leaves.
proof fn lemma_others_around(children: Seq<Tree>, k: int, id: PaneId)
    requires
        0 <= k < children.len(),
        flat(children).no_duplicates(),
        panes(children[k]).contains(id),
    ensures
        others(flat(children), id) == flat(children.take(k)) + others(panes(children[k]), id) + flat(
            children.skip(k + 1),
        ),
        panes(children[k]).no_duplicates(),
{
    lemma_flat_around(children, k);
    lemma_others_middle(flat(children.take(k)), panes(children[k]), flat(children.skip(k + 1)), id);
}

proof fn lemma_without_cell_panes(horizontal: bool, children: Seq<Tree>, sizes: Seq<int>, k: int)
    requires
        0 <= k < children.len(),
        children.len() > 1,
    ensures
        panes(without_cell(horizontal, children, sizes, k)) == flat(children.take(k)) + flat(children.skip(k + 1)),
{
    let rest = children.remove(k);
    assert(rest =~= children.take(k) + children.skip(k + 1));
    lemma_flat_concat(children.take(k), children.skip(k + 1));
    if rest.len() == 1 {
        assert(rest =~= seq![rest[0]]);
        lemma_flat_one(rest[0]);
        lemma_collapsed(rest[0]);
    }
}

proof fn lemma_with_cell_panes(horizontal: bool, children: Seq<Tree>, sizes: Seq<int>, k: int, kid: Tree)
    requires
        0 <= k < children.len(),
    ensures
        panes(with_cell(horizontal, children, sizes, k, kid)) == flat(children.take(k)) + panes(kid) + flat(
            children.skip(k + 1),
        ),
{
    if kid is Split && kid->horizontal == horizontal {
        lemma_flat_concat(children.take(k) + kid->children, children.skip(k + 1));
        lemma_flat_concat(children.take(k), kid->children);
    } else {
        lemma_flat_update(children, k, kid);
    }
}

/// Removing a pane removes that pane, and the others keep their order.
pub proof fn lemma_removed_panes(t: Tree, id: PaneId)
    requires
        shape(t),
        panes(t).no_duplicates(),
        t is Split || panes(t).len() > 1,
    ensures
        panes(removed(t, id)) == others(panes(t), id),
    decreases t,
{
    if let Tree::Split { horizontal, children, sizes } = t {
        lemma_first_sole(children, id, 0);
        lemma_first_with(children, id, 0);
        lemma_sole_split(t, id);
        lemma_panes_upto_contains(children, children.len(), id);
        let alone = first_sole(children, id, 0);
        let k = first_with(children, id, 0);
        if sole(t, id) {
            lemma_others_sole(id);
            assert(flat(Seq::<Tree>::empty()) =~= Seq::empty());
        } else if alone < children.len() {
            assert(panes(children[alone])[0] == id);
            lemma_others_around(children, alone, id);
            lemma_without_cell_panes(horizontal, children, sizes, alone);
            lemma_others_sole(id);
            let a = flat(children.take(alone));
            assert(a + Seq::<PaneId>::empty() =~= a);
        } else if k < children.len() {
            let b = panes(children[k]);
            lemma_others_around(children, k, id);
            lemma_sole_one(b, id);
            lemma_panes_count(children[k]);
            lemma_removed_panes(children[k], id);
            lemma_with_cell_panes(horizontal, children, sizes, k, removed(children[k], id));
            if children.len() == 1 {
                assert(children =~= seq![children[0]]);
                lemma_flat_one(children[0]);
            }
        } else {
            assert(!panes(t).contains(id));
            lemma_others_absent(panes(t), id);
        }
    }
}

/// The panes but one are the panes but one.
pub proof fn lemma_others(s: Seq<PaneId>, id: PaneId)
    ensures
        forall|p: PaneId| #[trigger] others(s, id).contains(p) <==> s.contains(p) && p != id,
        s.no_duplicates() ==> others(s, id).no_duplicates(),
        s.no_duplicates() && s.contains(id) ==> others(s, id).len() == s.len() - 1,
    decreases s.len(),
{
    reveal(others);
    reveal(Seq::filter);
    let after = others(s, id);
    if s.len() > 0 {
        let head = s.drop_last();
        let rest = others(head, id);
        lemma_others(head, id);
        assert(s =~= head.push(s.last()));
        assert(after == if s.last() != id { rest.push(s.last()) } else { rest });
        assert forall|p: PaneId| #[trigger] after.contains(p) <==> s.contains(p) && p != id by {
            assert(rest.contains(p) <==> head.contains(p) && p != id);
            if head.contains(p) {
                let i = choose|i: int| 0 <= i < head.len() && head[i] == p;
                assert(s[i] == p);
            }
            if s.contains(p) && p != s.last() {
                let i = choose|i: int| 0 <= i < s.len() && s[i] == p;
                assert(head[i] == p);
            }
            if rest.contains(p) {
                let i = choose|i: int| 0 <= i < rest.len() && rest[i] == p;
                assert(after[i] == p);
            }
            if p == s.last() {
                assert(s[s.len() - 1] == p);
                if p != id {
                    assert(after[rest.len() as int] == p);
                }
            }
            if after.contains(p) && !rest.contains(p) {
                let i = choose|i: int| 0 <= i < after.len() && after[i] == p;
                if i < rest.len() {
                    assert(rest[i] == p);
                }
            }
        }
        if s.no_duplicates() {
            assert(head.no_duplicates());
            assert(!head.contains(s.last()));
            assert(!rest.contains(s.last()));
            if s.contains(id) && s.last() != id {
                let i = choose|i: int| 0 <= i < s.len() && s[i] == id;
                assert(head[i] == id);
            }
            if s.last() == id {
                lemma_others_absent(head, id);
            }
        }
    }
}

impl Node {
    /// The node holds pane `id` and nothing else.
    fn is_sole(&self, id: PaneId) -> (b: bool)
        requires
            shape(self@),
        ensures
            b == sole(self@, id),
        decreases self,
    {
        match self {
            Node::Leaf(i) => {
                assert(panes(self@)[0] == *i);
                assert(seq![id][0] == id);
                *i == id
            },
            Node::Split { horizontal, children, sizes } => {
                proof {
                    lemma_split_view(*horizontal, *children, *sizes);
                    lemma_sole_split(self@, id);
                    assert(self@->children[0] == children@[0]@);
                }
                children.len() == 1 && children[0].is_sole(id)
            },
        }
    }

    /// Remove a pane, collapsing single-child splits. Returns false if absent.
    /// The freed space goes to the previous sibling (or the next one).
    #[verifier::spinoff_prover]
    pub fn remove(&mut self, id: PaneId) -> (done: bool)
        requires
            shape(old(self)@),
        ensures
            final(self)@ == removed(old(self)@, id),
            done == (old(self)@ is Split && panes(old(self)@).contains(id)),
            !done ==> final(self)@ == old(self)@,
            done && panes(old(self)@).no_duplicates() ==> panes(final(self)@) == others(panes(old(self)@), id),
        decreases *old(self),
    {
        let ghost t = self@;
        proof {
            if t is Split && panes(t).no_duplicates() {
                lemma_removed_panes(t, id);
            }
        }
        match self {
            Node::Leaf(_) => false,
            Node::Split { horizontal, children, sizes } => {
                let ghost kids = children@;
                let ghost stored = ints(sizes@);
                proof {
                    lemma_split_view(*horizontal, *children, *sizes);
                    lemma_panes_upto_contains(trees(kids), kids.len(), id);
                    lemma_first_with(trees(kids), id, 0);
                    lemma_first_sole(trees(kids), id, 0);
                    lemma_sole_split(t, id);
                    lemma_panes_count(t);
                    lemma_sole_one(panes(t), id);
                }
                assert forall|i: int| 0 <= i < children@.len() implies shape((#[trigger] children@[i])@) by {
                    assert(t->children[i] == children@[i]@);
                }
                let alone: usize = find_sole(children, id);
                if alone < children.len() {
                    assert(trees(kids)[alone as int] == kids[alone as int]@);
                    assert(panes(trees(kids)[alone as int])[0] == id);
                    if children.len() == 1 {
                        let across: bool = *horizontal;
                        let none: Vec<Node> = Vec::new();
                        let nothing: Vec<u16> = Vec::new();
                        proof {
                            lemma_split_view(across, none, nothing);
                            assert(trees(none@) =~= Seq::empty());
                            assert(ints(nothing@) =~= Seq::empty());
                        }
                        *self = Node::Split { horizontal: across, children: none, sizes: nothing };
                        return true;
                    }
                    if let Some(only) = drop_cell(*horizontal, children, sizes, alone) {
                        *self = only;
                    } else {
                        proof {
                            lemma_split_view(*horizontal, *children, *sizes);
                        }
                    }
                    return true;
                }
                let k: usize = find_with(children, id);
                if k >= children.len() {
                    return false;
                }
                proof {
                    assert(trees(kids)[k as int] == kids[k as int]@);
                    lemma_removed_shape(kids[k as int]@, id);
                    lemma_sole_one(panes(kids[k as int]@), id);
                    lemma_panes_count(kids[k as int]@);
                }
                let done: bool = children[k].remove(id);
                proof {
                    lemma_trees(kids, k as int, children@[k as int]);
                    assert(children@ =~= kids.update(k as int, children@[k as int]));
                }
                if children.len() == 1 {
                    let only = children.remove(0);
                    *self = only;
                    return done;
                }
                merge_cell(*horizontal, children, sizes, k);
                proof {
                    let all = trees(kids).update(k as int, removed(kids[k as int]@, id));
                    assert(all.take(k as int) =~= trees(kids).take(k as int));
                    assert(all.skip(k + 1) =~= trees(kids).skip(k + 1));
                    assert(all.update(k as int, removed(kids[k as int]@, id)) =~= all);
                    lemma_split_view(*horizontal, *children, *sizes);
                }
                done
            },
        }
    }
}

/// The node without the splits of one cell around it.
fn collapse(node: Node) -> (out: Node)
    ensures
        out@ == collapsed(node@),
    decreases node,
{
    match node {
        Node::Leaf(id) => Node::Leaf(id),
        Node::Split { horizontal, mut children, sizes } => {
            proof {
                lemma_split_view(horizontal, children, sizes);
            }
            if children.len() == 1 {
                let ghost kids = children@;
                let only = children.remove(0);
                assert(trees(kids)[0] == only@);
                collapse(only)
            } else {
                Node::Split { horizontal, children, sizes }
            }
        },
    }
}

/// Take out cell `k`; the cell left alone, if one is, comes back.
fn drop_cell(horizontal: bool, children: &mut Vec<Node>, sizes: &mut Vec<u16>, k: usize) -> (only: Option<Node>)
    requires
        k < old(children)@.len() == old(sizes)@.len(),
        old(children)@.len() > 1,
    ensures
        ({
            let t = without_cell(horizontal, trees(old(children)@), ints(old(sizes)@), k as int);
            match only {
                Some(n) => n@ == t,
                None => t == (Tree::Split {
                    horizontal,
                    children: trees(final(children)@),
                    sizes: ints(final(sizes)@),
                }),
            }
        }),
{
    let ghost kids = children@;
    let ghost stored = ints(sizes@);
    let ghost t = without_cell(horizontal, trees(kids), stored, k as int);
    let freed: u16 = sizes[k];
    children.remove(k);
    sizes.remove(k);
    proof {
        lemma_trees(kids, k as int, kids[0]);
        assert(ints(sizes@) =~= stored.remove(k as int));
    }
    if children.len() == 1 {
        let only = children.remove(0);
        assert(trees(kids).remove(k as int)[0] == only@);
        Some(collapse(only))
    } else {
        let give: usize = if k > 0 { k - 1 } else { 0 };
        let ghost left = sizes@;
        assert(ints(left)[give as int] == left[give as int]);
        sizes[give] = capped_sum(capped_sum(sizes[give], freed), 1);
        assert(ints(sizes@) =~= ints(left).update(give as int, capped(left[give as int] + freed + 1)));
        None
    }
}

/// Make a cell that is a split in the same direction part of the row.
fn merge_cell(horizontal: bool, children: &mut Vec<Node>, sizes: &mut Vec<u16>, k: usize)
    requires
        k < old(children)@.len() == old(sizes)@.len(),
        shape(old(children)@[k as int]@),
    ensures
        with_cell(horizontal, trees(old(children)@), ints(old(sizes)@), k as int, old(children)@[k as int]@) == (
        Tree::Split { horizontal, children: trees(final(children)@), sizes: ints(final(sizes)@) }),
{
    let merge: bool = match &children[k] {
        Node::Split { horizontal: h, .. } => *h == horizontal,
        Node::Leaf(_) => false,
    };
    if merge {
        splice(children, sizes, k);
    } else {
        let ghost all = trees(children@);
        assert(all.update(k as int, children@[k as int]@) =~= all);
    }
}

/// A row of panes is one pane alone when it has one entry, that pane.
pub proof fn lemma_sole_one(s: Seq<PaneId>, id: PaneId)
    ensures
        s == seq![id] <==> s.len() == 1 && s.contains(id),
{
    if s.len() == 1 && s.contains(id) {
        assert(s =~= seq![id]);
    }
    if s == seq![id] {
        assert(s[0] == id);
    }
}

pub(crate) fn find_sole(children: &Vec<Node>, id: PaneId) -> (k: usize)
    requires
        forall|i: int| 0 <= i < children@.len() ==> shape((#[trigger] children@[i])@),
    ensures
        k == first_sole(trees(children@), id, 0),
        k <= children@.len(),
{
    let ghost all = trees(children@);
    let mut k: usize = 0;
    while k < children.len() && !children[k].is_sole(id)
        invariant
            k <= children@.len(),
            all == trees(children@),
            forall|i: int| 0 <= i < children@.len() ==> shape((#[trigger] children@[i])@),
            first_sole(all, id, 0) == first_sole(all, id, k as int),
        decreases children.len() - k,
    {
        assert(children@[k as int]@ == all[k as int]);
        k = k + 1;
    }
    proof {
        if k < all.len() {
            assert(children@[k as int]@ == all[k as int]);
        }
    }
    k
}

/// Put the cells of the split at `k` in its place.
fn splice(children: &mut Vec<Node>, sizes: &mut Vec<u16>, k: usize)
    requires
        k < old(children)@.len() == old(sizes)@.len(),
        old(children)@[k as int] is Split,
        shape(old(children)@[k as int]@),
    ensures
        ({
            let kid = old(children)@[k as int]@;
            let all = trees(old(children)@);
            let stored = ints(old(sizes)@);
            &&& trees(final(children)@) == all.take(k as int) + kid->children + all.skip(k + 1)
            &&& ints(final(sizes)@) == stored.take(k as int) + kid->sizes + stored.skip(k + 1)
        }),
{
    let ghost all = trees(children@);
    let ghost stored = ints(sizes@);
    let ghost kid = children@[k as int]@;
    let node = children.remove(k);
    sizes.remove(k);
    if let Node::Split { horizontal, children: cells, sizes: lens } = node {
        let mut cells = cells;
        let mut lens = lens;
        proof {
            lemma_split_view(horizontal, cells, lens);
            assert(trees(children@) =~= all.remove(k as int));
            assert(ints(sizes@) =~= stored.remove(k as int));
        }
        let ghost kids = trees(cells@);
        let ghost mids = ints(lens@);
        assert(trees(children@) =~= all.take(k as int) + kids.skip(cells@.len() as int) + all.skip(k + 1));
        assert(ints(sizes@) =~= stored.take(k as int) + mids.skip(cells@.len() as int) + stored.skip(k + 1));
        while cells.len() > 0
            invariant
                k < all.len() == stored.len(),
                k <= children@.len(),
                children@.len() == sizes@.len(),
                cells@.len() == lens@.len() <= kids.len() == mids.len(),
                trees(cells@) == kids.take(cells@.len() as int),
                ints(lens@) == mids.take(lens@.len() as int),
                trees(children@) == all.take(k as int) + kids.skip(cells@.len() as int) + all.skip(k + 1),
                ints(sizes@) == stored.take(k as int) + mids.skip(cells@.len() as int) + stored.skip(k + 1),
            decreases cells.len(),
        {
            let ghost m = cells@.len() - 1;
            let ghost cells0 = cells@;
            let ghost lens0 = lens@;
            let ghost children0 = children@;
            let ghost sizes0 = sizes@;
            assert(trees(cells0)[m] == kids[m]);
            assert(ints(lens0)[m] == mids[m]);
            if let Some(cell) = cells.pop() {
                if let Some(len) = lens.pop() {
                    children.insert(k, cell);
                    sizes.insert(k, len);
                    proof {
                        lemma_trees(children0, k as int, cell);
                        assert(cell@ == trees(cells0)[m]);
                        assert(ints(sizes@) =~= ints(sizes0).insert(k as int, len as int));
                        assert(trees(cells@) =~= kids.take(m));
                        assert(ints(lens@) =~= mids.take(m));
                        assert(trees(children@) =~= all.take(k as int) + kids.skip(m) + all.skip(k + 1));
                        assert(ints(sizes@) =~= stored.take(k as int) + mids.skip(m) + stored.skip(k + 1));
                    }
                }
            }
        }
        assert(kids.skip(0) =~= kids);
        assert(mids.skip(0) =~= mids);
    }
}

/// Every split has two cells or more.
pub open spec fn full(t: Tree) -> bool
    decreases t,
{
    match t {
        Tree::Leaf(_) => true,
        Tree::Split { children, .. } => children.len() >= 2 && forall|i: int|
            0 <= i < children.len() ==> full(#[trigger] children[i]),
    }
}

/// No split is a cell of one in its own direction.
pub open spec fn alternates(t: Tree) -> bool
    decreases t,
{
    match t {
        Tree::Leaf(_) => true,
        Tree::Split { horizontal, children, .. } => forall|i: int|
            0 <= i < children.len() ==> alternates(#[trigger] children[i]) && !runs_along(children[i], horizontal),
    }
}

/// `t` is a split in that direction.
pub open spec fn runs_along(t: Tree, horizontal: bool) -> bool {
    t is Split && t->horizontal == horizontal
}

proof fn lemma_collapsed_neat(t: Tree)
    ensures
        full(t) ==> full(collapsed(t)),
        alternates(t) ==> alternates(collapsed(t)),
    decreases t,
{
    if let Tree::Split { children, .. } = t {
        if children.len() == 1 {
            lemma_collapsed_neat(children[0]);
        }
    }
}

/// Removing a pane keeps two cells or more in every split, and no split a cell
/// of one in its own direction.
pub proof fn lemma_removed_neat(t: Tree, id: PaneId)
    requires
        shape(t),
        t is Split ==> !sole(t, id),
    ensures
        full(t) ==> full(removed(t, id)),
        alternates(t) ==> alternates(removed(t, id)),
    decreases t,
{
    if let Tree::Split { horizontal, children, sizes } = t {
        lemma_first_sole(children, id, 0);
        lemma_first_with(children, id, 0);
        lemma_sole_split(t, id);
        let alone = first_sole(children, id, 0);
        let k = first_with(children, id, 0);
        let after = removed(t, id);
        if alone < children.len() {
            let rest = children.remove(alone);
            assert forall|i: int| 0 <= i < rest.len() implies (full(t) ==> full(#[trigger] rest[i])) && (alternates(t)
                ==> alternates(rest[i]) && !runs_along(rest[i], horizontal)) by {
                let j = if i < alone {
                    i
                } else {
                    i + 1
                };
                assert(rest[i] == children[j]);
            }
            if rest.len() == 1 {
                lemma_collapsed_neat(rest[0]);
            }
        } else if k < children.len() {
            lemma_removed_neat(children[k], id);
            let kid = removed(children[k], id);
            if children.len() > 1 {
                assert forall|i: int| 0 <= i < after->children.len() implies (full(t) ==> full(
                    #[trigger] after->children[i],
                )) && (alternates(t) ==> alternates(after->children[i]) && !runs_along(after->children[i], horizontal)) by {
                    if kid is Split && kid->horizontal == horizontal {
                        let n = kid->children.len();
                        if i < k {
                            assert(after->children[i] == children[i]);
                        } else if i < k + n {
                            assert(after->children[i] == kid->children[i - k]);
                        } else {
                            assert(after->children[i] == children[i - n + 1]);
                        }
                    } else if i != k {
                        assert(after->children[i] == children[i]);
                    }
                }
            }
        }
    }
}

/// Splitting a pane keeps both as well.
pub proof fn lemma_split_neat(t: Tree, target: PaneId, horizontal: bool, new: PaneId, extent: int, before: bool)
    requires
        shape(t),
    ensures
        ({
            let after = split_tree(t, target, horizontal, new, extent, before);
            &&& full(t) ==> full(after)
            &&& alternates(t) ==> alternates(after)
            &&& t is Split ==> runs_along(after, t->horizontal)
        }),
    decreases t,
{
    let after = split_tree(t, target, horizontal, new, extent, before);
    if t is Leaf && after is Split {
        assert forall|i: int| 0 <= i < after->children.len() implies full(#[trigger] after->children[i]) && alternates(
            after->children[i],
        ) && !runs_along(after->children[i], horizontal) by {
            assert(after->children[i] is Leaf);
        }
    }
    if let Tree::Split { horizontal: h, children, sizes } = t {
        lemma_first_with(children, target, 0);
        let k = first_with(children, target, 0);
        if k < children.len() {
            lemma_split_neat(children[k], target, horizontal, new, extent, before);
            assert forall|i: int| 0 <= i < after->children.len() implies (full(t) ==> full(
                #[trigger] after->children[i],
            )) && (alternates(t) ==> alternates(after->children[i]) && !runs_along(after->children[i], h)) by {
                if h == horizontal && children[k] is Leaf {
                    let at = if before {
                        k
                    } else {
                        k + 1
                    };
                    if i < at {
                        assert(after->children[i] == children[i]);
                    } else if i > at {
                        assert(after->children[i] == children[i - 1]);
                    }
                } else if i != k {
                    assert(after->children[i] == children[i]);
                }
            }
        }
    }
}

} // verus!
