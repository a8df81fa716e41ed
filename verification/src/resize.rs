//! Moving the edges between panes, and putting panes into a layout's places.
use vstd::prelude::*;
use crate::command::Dir;
use crate::edit::{
    capped, capped_sum, find_sole, find_with, first_sole, first_with, lemma_first_sole, lemma_first_with, lemma_flat_around,
    lemma_flat_one, lemma_sole_one, swapped,
};
use crate::fit::{ints, lemma_total_update, total, total_of};
use crate::layout::{lemma_panes_count, lemma_panes_upto_contains, lemma_split_view, lemma_trees, panes, panes_upto, shape, trees, Node, PaneId, Tree};

verus! {

/// A row of `n` sizes adding up to `sum` made even, the rounding in the last.
pub open spec fn evened(n: nat, sum: int) -> Seq<int> {
    let each = if sum / n as int > 1 { sum / n as int } else { 1 };
    let last = if sum - each * (n - 1) > 1 { sum - each * (n - 1) } else { 1 };
    Seq::new(
        n,
        |i: int|
            if i == n - 1 {
                last as u16 as int
            } else {
                each
            },
    )
}

/// One of `children` holds the pane `id` and nothing else, and others are
/// beside it.
pub open spec fn beside(children: Seq<Tree>, id: PaneId) -> bool {
    children.len() >= 2 && first_sole(children, id, 0) < children.len()
}

/// `t` with every cell beside pane `id` the same size; nothing when there
/// is no cell beside it.
pub open spec fn spread_tree(t: Tree, id: PaneId) -> Option<Tree>
    decreases t,
{
    match t {
        Tree::Leaf(_) => None,
        Tree::Split { horizontal, children, sizes } => {
            let k = first_with(children, id, 0);
            if beside(children, id) {
                Some(Tree::Split { horizontal, children, sizes: evened(sizes.len(), total(sizes)) })
            } else if 0 <= k < children.len() {
                match spread_tree(children[k], id) {
                    Some(kid) => Some(Tree::Split { horizontal, children: children.update(k, kid), sizes }),
                    None => None,
                }
            } else {
                None
            }
        },
    }
}

/// Panes are evened out around a pane unless it is alone, or not there.
pub proof fn lemma_spread_unless_alone(t: Tree, id: PaneId)
    requires
        shape(t),
    ensures
        spread_tree(t, id) is Some <==> panes(t).contains(id) && panes(t).len() > 1,
    decreases t,
{
    if let Tree::Split { children, .. } = t {
        lemma_panes_count(t);
        lemma_panes_upto_contains(children, children.len(), id);
        lemma_first_with(children, id, 0);
        lemma_first_sole(children, id, 0);
        let k = first_with(children, id, 0);
        let alone = first_sole(children, id, 0);
        if beside(children, id) {
            assert(panes(children[alone])[0] == id);
        } else if k < children.len() {
            lemma_spread_unless_alone(children[k], id);
            lemma_sole_one(panes(children[k]), id);
            if children.len() == 1 {
                assert(children =~= seq![children[0]]);
                lemma_flat_one(children[0]);
            }
        }
    }
}

/// Evening out a row keeps its total, where there is a cell for everyone.
pub proof fn lemma_evened_total(n: nat, sum: int)
    requires
        n > 0,
        n <= sum <= u16::MAX,
    ensures
        total(evened(n, sum)) == sum,
        forall|i: int| 0 <= i < n ==> 1 <= #[trigger] evened(n, sum)[i],
{
    let each = sum / n as int;
    let row = evened(n, sum);
    assert(each >= 1) by (nonlinear_arith)
        requires
            n <= sum,
            n > 0,
            each == sum / n as int,
    ;
    assert(each * n <= sum) by (nonlinear_arith)
        requires
            n > 0,
            each == sum / n as int,
    ;
    assert(each * n == each * (n - 1) + each) by (nonlinear_arith);
    assert(each * (n - 1) >= 0) by (nonlinear_arith)
        requires
            each >= 1,
            n >= 1,
    ;
    let front = Seq::new((n - 1) as nat, |i: int| each);
    assert(row.drop_last() =~= front);
    crate::fit::lemma_total_bounds(front, each, each);
    assert((n - 1) * each == each * (n - 1)) by (nonlinear_arith);
}

impl Node {
    /// Give every pane beside `id` the same size, keeping the rest of the
    /// layout (tmux `select-layout -E`). Returns false if the pane is alone.
    pub fn spread(&mut self, id: PaneId) -> (done: bool)
        requires
            shape(old(self)@),
            panes(old(self)@).len() <= u16::MAX,
        ensures
            done == spread_tree(old(self)@, id) is Some,
            final(self)@ == match spread_tree(old(self)@, id) {
                Some(t) => t,
                None => old(self)@,
            },
        decreases *old(self),
    {
        let ghost t = self@;
        proof {
            lemma_panes_count(t);
        }
        match self {
            Node::Leaf(_) => false,
            Node::Split { horizontal, children, sizes } => {
                let ghost kids = children@;
                proof {
                    lemma_split_view(*horizontal, *children, *sizes);
                    lemma_first_with(trees(kids), id, 0);
                }
                assert forall|i: int| 0 <= i < children@.len() implies shape((#[trigger] children@[i])@) by {
                    assert(t->children[i] == children@[i]@);
                }
                if children.len() >= 2 && find_sole(children, id) < children.len() {
                    even_out(sizes);
                    proof {
                        lemma_split_view(*horizontal, *children, *sizes);
                    }
                    return true;
                }
                let k: usize = find_with(children, id);
                if k >= children.len() {
                    return false;
                }
                assert(trees(kids)[k as int] == kids[k as int]@);
                let done: bool = children[k].spread(id);
                proof {
                    lemma_trees(kids, k as int, children@[k as int]);
                    assert(children@ =~= kids.update(k as int, children@[k as int]));
                    assert(trees(kids).update(k as int, trees(kids)[k as int]) =~= trees(kids));
                    lemma_split_view(*horizontal, *children, *sizes);
                }
                done
            },
        }
    }
}

fn even_out(sizes: &mut Vec<u16>)
    requires
        1 <= old(sizes)@.len() <= u16::MAX,
    ensures
        ints(final(sizes)@) == evened(old(sizes)@.len(), total(ints(old(sizes)@))),
        final(sizes)@.len() == old(sizes)@.len(),
{
    let n: usize = sizes.len();
    let sum: u32 = total_of(sizes);
    let part: u32 = sum / (n as u32);
    assert(part <= u16::MAX) by (nonlinear_arith)
        requires
            part == sum / (n as u32),
            sum <= n * u16::MAX,
            1 <= n <= u16::MAX,
    ;
    let each: u16 = if part > 1 { part as u16 } else { 1 };
    let mut i: usize = 0;
    while i < n
        invariant
            i <= n == sizes@.len(),
            forall|j: int| 0 <= j < i ==> #[trigger] sizes@[j] == each,
        decreases n - i,
    {
        sizes[i] = each;
        i = i + 1;
    }
    // Rounding goes to the last pane, so the total is kept.
    assert(each * (n - 1) <= 65535 * 65534) by (nonlinear_arith)
        requires
            0 <= each <= 65535,
            1 <= n <= 65535,
    ;
    let front: u32 = each as u32 * (n - 1) as u32;
    let last: u32 = if sum > front && sum - front > 1 { sum - front } else { 1 };
    let rest: u16 = #[verifier::truncate] (last as u16);
    sizes[n - 1] = rest;
    assert(ints(sizes@) =~= evened(n as nat, sum as int));
}

/// The cells that give when the edge after cell `a` of `n` moves: those past
/// it, the nearest first, and, when it moves forward, then those before the
/// cell that grows.
pub open spec fn losers(n: int, a: int, grow: bool) -> Seq<int> {
    if grow {
        Seq::new(
            (n - 1) as nat,
            |i: int|
                if i < n - 1 - a {
                    a + 1 + i
                } else {
                    n - 2 - i
                },
        )
    } else {
        Seq::new((a + 1) as nat, |i: int| a - i)
    }
}

/// What a cell of size `s` gives of `left` cells wanted: it keeps one.
pub open spec fn gives(s: int, left: int) -> int {
    if s - 1 <= 0 {
        0
    } else if s - 1 < left {
        s - 1
    } else {
        left
    }
}

/// The sizes after the cells `from`, from place `k` on, gave up to `left`.
pub open spec fn taken(sizes: Seq<int>, from: Seq<int>, left: int, k: int) -> Seq<int>
    decreases from.len() - k,
{
    if k < 0 || k >= from.len() {
        sizes
    } else {
        let can = gives(sizes[from[k]], left);
        taken(sizes.update(from[k], sizes[from[k]] - can), from, left - can, k + 1)
    }
}

/// How many of the `left` cells wanted were not to be had.
pub open spec fn wanting(sizes: Seq<int>, from: Seq<int>, left: int, k: int) -> int
    decreases from.len() - k,
{
    if k < 0 || k >= from.len() {
        left
    } else {
        let can = gives(sizes[from[k]], left);
        wanting(sizes.update(from[k], sizes[from[k]] - can), from, left - can, k + 1)
    }
}

/// The row with the edge beside cell `idx` moved by up to `amount`; nothing
/// when no cell can give.
pub open spec fn pushed(sizes: Seq<int>, idx: int, grow: bool, amount: int) -> Option<Seq<int>> {
    let n = sizes.len() as int;
    // The cell's trailing edge; for the last cell, the edge before it.
    let a = if idx + 1 < n { idx } else { idx - 1 };
    let from = losers(n, a, grow);
    let gains = if grow { a } else { a + 1 };
    let moved = amount - wanting(sizes, from, amount, 0);
    if n < 2 || moved == 0 {
        None
    } else {
        let after = taken(sizes, from, amount, 0);
        Some(after.update(gains, capped(after[gains] + moved)))
    }
}

/// `t` with an edge of pane `id` moved, in the innermost split of that
/// direction where one can move; nothing when none can.
pub open spec fn resized(t: Tree, id: PaneId, across: bool, grow: bool, amount: int) -> Option<Tree>
    decreases t,
{
    match t {
        Tree::Leaf(_) => None,
        Tree::Split { horizontal, children, sizes } => {
            let k = first_with(children, id, 0);
            if k < 0 || k >= children.len() {
                None
            } else {
                match resized(children[k], id, across, grow, amount) {
                    Some(kid) => Some(Tree::Split { horizontal, children: children.update(k, kid), sizes }),
                    None => if horizontal != across {
                        None
                    } else {
                        match pushed(sizes, k, grow, amount) {
                            Some(row) => Some(Tree::Split { horizontal, children, sizes: row }),
                            None => None,
                        }
                    },
                }
            }
        },
    }
}

proof fn lemma_taken(sizes: Seq<int>, from: Seq<int>, left: int, k: int)
    requires
        0 <= k <= from.len(),
        left >= 0,
        forall|i: int| 0 <= i < from.len() ==> 0 <= #[trigger] from[i] < sizes.len(),
        forall|i: int| 0 <= i < sizes.len() ==> 0 <= #[trigger] sizes[i],
    ensures
        taken(sizes, from, left, k).len() == sizes.len(),
        0 <= wanting(sizes, from, left, k) <= left,
        total(taken(sizes, from, left, k)) == total(sizes) - left + wanting(sizes, from, left, k),
        forall|i: int| 0 <= i < sizes.len() ==> 0 <= #[trigger] taken(sizes, from, left, k)[i] <= sizes[i],
        forall|i: int|
            0 <= i < sizes.len() && sizes[i] >= 1 ==> 1 <= #[trigger] taken(sizes, from, left, k)[i],
        forall|i: int|
            0 <= i < sizes.len() && !from.contains(i) ==> #[trigger] taken(sizes, from, left, k)[i] == sizes[i],
    decreases from.len() - k,
{
    if k < from.len() {
        let can = gives(sizes[from[k]], left);
        let next = sizes.update(from[k], sizes[from[k]] - can);
        lemma_total_update(sizes, from[k], sizes[from[k]] - can);
        lemma_taken(next, from, left - can, k + 1);
        let end = taken(sizes, from, left, k);
        assert(end == taken(next, from, left - can, k + 1));
        assert forall|i: int| 0 <= i < sizes.len() && !from.contains(i) implies #[trigger] end[i] == sizes[i] by {
            assert(i != from[k]);
            assert(next[i] == sizes[i]);
        }
        assert forall|i: int| 0 <= i < sizes.len() implies 0 <= #[trigger] end[i] <= sizes[i] by {
            assert(next[i] <= sizes[i]);
        }
        assert forall|i: int| 0 <= i < sizes.len() && sizes[i] >= 1 implies 1 <= #[trigger] end[i] by {
            assert(next[i] >= 1);
        }
    }
}

proof fn lemma_losers(n: int, a: int, grow: bool)
    requires
        n >= 2,
        0 <= a < n - 1,
    ensures
        forall|i: int| 0 <= i < losers(n, a, grow).len() ==> 0 <= #[trigger] losers(n, a, grow)[i] < n,
        !losers(n, a, grow).contains(
            if grow {
                a
            } else {
                a + 1
            },
        ),
{
}

/// Moving an edge keeps what a row adds up to, unless a cell is as long as a
/// cell can be, and a cell that had a size keeps at least one cell of it.
pub proof fn lemma_pushed_total(sizes: Seq<int>, idx: int, grow: bool, amount: int)
    requires
        0 <= idx < sizes.len(),
        0 <= amount,
        forall|i: int| 0 <= i < sizes.len() ==> 0 <= #[trigger] sizes[i],
        pushed(sizes, idx, grow, amount) is Some,
    ensures
        ({
            let row = pushed(sizes, idx, grow, amount)->0;
            &&& row.len() == sizes.len()
            &&& (forall|i: int| 0 <= i < row.len() ==> #[trigger] row[i] < u16::MAX) ==> total(row) == total(sizes)
            &&& forall|i: int| 0 <= i < row.len() ==> 0 <= #[trigger] row[i]
            &&& forall|i: int| 0 <= i < row.len() && sizes[i] >= 1 ==> 1 <= #[trigger] row[i]
        }),
{
    let n = sizes.len() as int;
    let a = if idx + 1 < n { idx } else { idx - 1 };
    let from = losers(n, a, grow);
    let gains = if grow { a } else { a + 1 };
    lemma_losers(n, a, grow);
    lemma_taken(sizes, from, amount, 0);
    let after = taken(sizes, from, amount, 0);
    let moved = amount - wanting(sizes, from, amount, 0);
    lemma_total_update(after, gains, after[gains] + moved);
    assert(pushed(sizes, idx, grow, amount)->0[gains] == capped(after[gains] + moved));
}

impl Node {
    /// Move the edge of `id` in direction `dir` by `amount` cells (tmux
    /// `resize-pane` semantics). Returns false if nothing could change.
    pub fn resize(&mut self, id: PaneId, dir: Dir, amount: u16) -> (done: bool)
        requires
            shape(old(self)@),
        ensures
            ({
                let after = resized(
                    old(self)@,
                    id,
                    dir is Left || dir is Right,
                    dir is Right || dir is Down,
                    amount as int,
                );
                &&& done == after is Some
                &&& final(self)@ == match after {
                    Some(t) => t,
                    None => old(self)@,
                }
            }),
    {
        let across: bool = matches!(dir, Dir::Left | Dir::Right);
        let grow: bool = matches!(dir, Dir::Right | Dir::Down);
        self.resize_inner(id, across, grow, amount)
    }

    fn resize_inner(&mut self, id: PaneId, across: bool, grow: bool, amount: u16) -> (done: bool)
        requires
            shape(old(self)@),
        ensures
            done == resized(old(self)@, id, across, grow, amount as int) is Some,
            final(self)@ == match resized(old(self)@, id, across, grow, amount as int) {
                Some(t) => t,
                None => old(self)@,
            },
        decreases *old(self),
    {
        let ghost t = self@;
        let ghost goal = resized(t, id, across, grow, amount as int);
        match self {
            Node::Leaf(_) => false,
            Node::Split { horizontal, children, sizes } => {
                let ghost kids = children@;
                proof {
                    lemma_split_view(*horizontal, *children, *sizes);
                    lemma_first_with(trees(kids), id, 0);
                }
                let idx: usize = find_with(children, id);
                if idx >= children.len() {
                    return false;
                }
                proof {
                    assert(trees(kids)[idx as int] == kids[idx as int]@);
                    let inner = resized(kids[idx as int]@, id, across, grow, amount as int);
                    if inner is Some {
                        assert(goal->0->children[idx as int] == inner->0);
                    }
                }
                // Prefer the innermost split of the right orientation.
                if children[idx].resize_inner(id, across, grow, amount) {
                    proof {
                        lemma_trees(kids, idx as int, children@[idx as int]);
                        assert(children@ =~= kids.update(idx as int, children@[idx as int]));
                        lemma_split_view(*horizontal, *children, *sizes);
                    }
                    return true;
                }
                proof {
                    lemma_trees(kids, idx as int, children@[idx as int]);
                    assert(children@ =~= kids.update(idx as int, children@[idx as int]));
                    assert(trees(kids).update(idx as int, trees(kids)[idx as int]) =~= trees(kids));
                    lemma_split_view(*horizontal, *children, *sizes);
                }
                if *horizontal != across || children.len() < 2 {
                    return false;
                }
                proof {
                    let row = pushed(ints(sizes@), idx as int, grow, amount as int);
                    if row is Some {
                        assert(goal->0->sizes == row->0);
                        lemma_pushed_total(ints(sizes@), idx as int, grow, amount as int);
                    }
                }
                let done: bool = push_edge(sizes, idx, grow, amount);
                proof {
                    lemma_split_view(*horizontal, *children, *sizes);
                }
                done
            },
        }
    }
}

/// Move the edge beside cell `idx`. The edge pushes: moving it forward takes
/// from the cells after it, the nearest first, and moving it back from the
/// cells before it, so a pane can grow past a neighbour already at its
/// smallest. A cell that grows and finds nothing left after it takes from
/// the cells before it, which is how a middle pane grows when everything
/// below it is already as small as it goes.
fn push_edge(sizes: &mut Vec<u16>, idx: usize, grow: bool, amount: u16) -> (done: bool)
    requires
        idx < old(sizes)@.len(),
        2 <= old(sizes)@.len(),
    ensures
        done == pushed(ints(old(sizes)@), idx as int, grow, amount as int) is Some,
        ints(final(sizes)@) == match pushed(ints(old(sizes)@), idx as int, grow, amount as int) {
            Some(row) => row,
            None => ints(old(sizes)@),
        },
        final(sizes)@.len() == old(sizes)@.len(),
{
    let n: usize = sizes.len();
    let a: usize = if idx + 1 < n { idx } else { idx - 1 };
    let gains: usize = if grow { a } else { a + 1 };
    let count: usize = if grow { n - 1 } else { a + 1 };
    let ghost stored = ints(sizes@);
    let ghost from = losers(n as int, a as int, grow);
    proof {
        lemma_losers(n as int, a as int, grow);
        lemma_taken(stored, from, amount as int, 0);
    }
    let mut left: u16 = amount;
    let mut k: usize = 0;
    while k < count
        invariant
            k <= count == from.len(),
            2 <= n == sizes@.len() == stored.len(),
            a < n - 1,
            count == if grow {
                n - 1
            } else {
                a + 1
            },
            from == losers(n as int, a as int, grow),
            left <= amount,
            taken(stored, from, amount as int, 0) == taken(ints(sizes@), from, left as int, k as int),
            wanting(stored, from, amount as int, 0) == wanting(ints(sizes@), from, left as int, k as int),
            left == amount ==> ints(sizes@) == stored,
        decreases count - k,
    {
        let i: usize = if !grow {
            a - k
        } else if k < n - 1 - a {
            a + 1 + k
        } else {
            n - 2 - k
        };
        assert(i == from[k as int]);
        let spare: u16 = if sizes[i] > 1 { sizes[i] - 1 } else { 0 };
        let can: u16 = if spare < left { spare } else { left };
        let ghost before = sizes@;
        assert(ints(before)[i as int] == before[i as int]);
        sizes[i] = sizes[i] - can;
        left = left - can;
        assert(ints(sizes@) =~= ints(before).update(i as int, before[i as int] - can));
        if left == amount {
            assert(ints(sizes@) =~= stored);
        }
        k = k + 1;
    }
    let moved: u16 = amount - left;
    if moved == 0 {
        return false;
    }
    let ghost before = sizes@;
    assert(ints(before)[gains as int] == before[gains as int]);
    sizes[gains] = capped_sum(sizes[gains], moved);
    assert(ints(sizes@) =~= ints(before).update(gains as int, capped(before[gains as int] + moved)));
    true
}

/// `t` with the panes `ids` in its places, in order, as far as they go.
pub open spec fn assigned(t: Tree, ids: Seq<PaneId>) -> Tree
    decreases t,
{
    match t {
        Tree::Leaf(_) => if ids.len() > 0 {
            Tree::Leaf(ids[0])
        } else {
            t
        },
        Tree::Split { horizontal, children, sizes } => Tree::Split {
            horizontal,
            children: Seq::new(
                children.len(),
                |i: int|
                    if 0 <= i < children.len() {
                        assigned(children[i], rest_of(ids, panes_upto(children, i as nat).len() as int))
                    } else {
                        Tree::Leaf(0)
                    },
            ),
            sizes,
        },
    }
}

/// What is left of `ids` after the first `k`.
pub open spec fn rest_of(ids: Seq<PaneId>, k: int) -> Seq<PaneId> {
    if k < ids.len() {
        ids.skip(k)
    } else {
        Seq::empty()
    }
}

pub proof fn lemma_rest_of(ids: Seq<PaneId>, a: int, b: int)
    requires
        a >= 0,
        b >= 0,
    ensures
        rest_of(rest_of(ids, a), b) == rest_of(ids, a + b),
{
    assert(rest_of(rest_of(ids, a), b) =~= rest_of(ids, a + b));
}

impl Node {
    /// Put `ids` into the leaves, in order, keeping the shape of the tree.
    /// Used by `rotate-window`, which moves panes but not the layout.
    pub fn set_panes(&mut self, ids: &[PaneId])
        ensures
            final(self)@ == assigned(old(self)@, ids@),
    {
        assert(rest_of(ids@, 0) =~= ids@);
        self.assign(ids, 0);
    }

    /// Fill the leaves from `ids[from]` on; the place in `ids` reached.
    fn assign(&mut self, ids: &[PaneId], from: usize) -> (next: usize)
        requires
            from <= ids@.len(),
        ensures
            final(self)@ == assigned(old(self)@, rest_of(ids@, from as int)),
            next == if from + panes(old(self)@).len() < ids@.len() {
                from + panes(old(self)@).len()
            } else {
                ids@.len() as int
            },
        decreases *old(self),
    {
        let ghost t = self@;
        match self {
            Node::Leaf(id) => {
                if from < ids.len() {
                    *id = ids[from];
                    from + 1
                } else {
                    from
                }
            },
            Node::Split { horizontal, children, sizes } => {
                let ghost kids = children@;
                let ghost all = trees(kids);
                proof {
                    lemma_split_view(*horizontal, *children, *sizes);
                }
                let mut at: usize = from;
                let mut i: usize = 0;
                while i < children.len()
                    invariant
                        i <= children@.len() == kids.len(),
                        all == trees(kids),
                        from <= ids@.len(),
                        at <= ids@.len(),
                        at == if from + panes_upto(all, i as nat).len() < ids@.len() {
                            from + panes_upto(all, i as nat).len()
                        } else {
                            ids@.len() as int
                        },
                        forall|j: int|
                            0 <= j < i ==> (#[trigger] children@[j])@ == assigned(
                                all[j],
                                rest_of(rest_of(ids@, from as int), panes_upto(all, j as nat).len() as int),
                            ),
                        forall|j: int| i <= j < kids.len() ==> children@[j] == kids[j],
                        forall|j: int| 0 <= j < kids.len() ==> decreases_to!(*old(self) => kids[j]),
                    decreases children.len() - i,
                {
                    assert(all[i as int] == kids[i as int]@);
                    proof {
                        lemma_rest_of(ids@, from as int, panes_upto(all, i as nat).len() as int);
                        assert(rest_of(ids@, at as int) =~= rest_of(
                            ids@,
                            from + panes_upto(all, i as nat).len() as int,
                        ));
                    }
                    at = children[i].assign(ids, at);
                    i = i + 1;
                }
                proof {
                    lemma_split_view(*horizontal, *children, *sizes);
                    assert(trees(children@) =~= assigned(t, rest_of(ids@, from as int))->children);
                }
                at
            },
        }
    }
}

/// The panes of a layout after `ids` were put into it: those, then the ones
/// that were there.
pub proof fn lemma_assigned_panes(t: Tree, ids: Seq<PaneId>)
    ensures
        panes(assigned(t, ids)).len() == panes(t).len(),
        forall|i: int|
            0 <= i < panes(t).len() ==> #[trigger] panes(assigned(t, ids))[i] == if i < ids.len() {
                ids[i]
            } else {
                panes(t)[i]
            },
    decreases t, 1nat, 0nat,
{
    if let Tree::Split { children, .. } = t {
        lemma_assigned_upto(t, ids, children.len());
    }
}

proof fn lemma_assigned_upto(t: Tree, ids: Seq<PaneId>, k: nat)
    requires
        t is Split,
        k <= t->children.len(),
    ensures
        ({
            let a = panes_upto(t->children, k);
            let b = panes_upto(assigned(t, ids)->children, k);
            &&& b.len() == a.len()
            &&& forall|i: int|
                0 <= i < a.len() ==> #[trigger] b[i] == if i < ids.len() {
                    ids[i]
                } else {
                    a[i]
                }
        }),
    decreases t, 0nat, k,
{
    if k > 0 {
        lemma_assigned_upto(t, ids, (k - 1) as nat);
        lemma_assigned_panes(t->children[k - 1], rest_of(ids, panes_upto(t->children, (k - 1) as nat).len() as int));
    }
}

/// Swapping two panes swaps them in the order too, and nothing else moves.
pub proof fn lemma_swapped_panes(t: Tree, a: PaneId, b: PaneId)
    ensures
        panes(swapped(t, a, b)).len() == panes(t).len(),
        forall|i: int|
            0 <= i < panes(t).len() ==> #[trigger] panes(swapped(t, a, b))[i] == if panes(t)[i] == a {
                b
            } else if panes(t)[i] == b {
                a
            } else {
                panes(t)[i]
            },
    decreases t, 1nat, 0nat,
{
    if let Tree::Split { children, .. } = t {
        lemma_swapped_upto(t, a, b, children.len());
    }
}

proof fn lemma_swapped_upto(t: Tree, a: PaneId, b: PaneId, k: nat)
    requires
        t is Split,
        k <= t->children.len(),
    ensures
        ({
            let x = panes_upto(t->children, k);
            let y = panes_upto(swapped(t, a, b)->children, k);
            &&& y.len() == x.len()
            &&& forall|i: int|
                0 <= i < x.len() ==> #[trigger] y[i] == if x[i] == a {
                    b
                } else if x[i] == b {
                    a
                } else {
                    x[i]
                }
        }),
    decreases t, 0nat, k,
{
    if k > 0 {
        lemma_swapped_upto(t, a, b, (k - 1) as nat);
        lemma_swapped_panes(t->children[k - 1], a, b);
    }
}

/// Swapping the same two panes again brings the layout back.
pub proof fn lemma_swap_undoes(t: Tree, a: PaneId, b: PaneId)
    ensures
        swapped(swapped(t, a, b), a, b) == t,
    decreases t,
{
    if let Tree::Split { horizontal, children, sizes } = t {
        let back = swapped(swapped(t, a, b), a, b);
        assert forall|i: int| 0 <= i < children.len() implies back->children[i] == children[i] by {
            lemma_swap_undoes(children[i], a, b);
        }
        assert(back->children =~= children);
    }
}

/// Swapping panes, putting others in, evening out and moving edges keep a
/// layout's shape.
pub proof fn lemma_shapes_kept(
    t: Tree,
    a: PaneId,
    b: PaneId,
    ids: Seq<PaneId>,
    across: bool,
    grow: bool,
    amount: int,
)
    requires
        shape(t),
        amount >= 0,
    ensures
        shape(swapped(t, a, b)),
        shape(assigned(t, ids)),
        spread_tree(t, a) is Some ==> shape(spread_tree(t, a)->0) && panes(spread_tree(t, a)->0) == panes(t),
        resized(t, a, across, grow, amount) is Some ==> shape(resized(t, a, across, grow, amount)->0) && panes(
            resized(t, a, across, grow, amount)->0,
        ) == panes(t),
    decreases t,
{
    if let Tree::Split { horizontal, children, sizes } = t {
        assert forall|i: int| 0 <= i < children.len() implies shape(#[trigger] swapped(t, a, b)->children[i]) by {
            lemma_shapes_kept(children[i], a, b, ids, across, grow, amount);
        }
        assert forall|i: int| 0 <= i < children.len() implies shape(#[trigger] assigned(t, ids)->children[i]) by {
            lemma_shapes_kept(
                children[i],
                a,
                b,
                rest_of(ids, panes_upto(children, i as nat).len() as int),
                across,
                grow,
                amount,
            );
        }
        lemma_first_with(children, a, 0);
        let k = first_with(children, a, 0);
        if k < children.len() {
            lemma_shapes_kept(children[k], a, b, ids, across, grow, amount);
            lemma_flat_around(children, k);
            if let Some(kid) = spread_tree(children[k], a) {
                crate::edit::lemma_flat_update(children, k, kid);
            }
            match resized(children[k], a, across, grow, amount) {
                Some(kid) => {
                    crate::edit::lemma_flat_update(children, k, kid);
                },
                None => {
                    if pushed(sizes, k, grow, amount) is Some {
                        lemma_pushed_total(sizes, k, grow, amount);
                    }
                },
            }
        }
    }
}

} // verus!
