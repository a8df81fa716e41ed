//! The saved form of a window: its splits as they are, and in the place of
//! each pane what it takes to start it again.
use vstd::prelude::*;

use crate::fit::ints;
use crate::layout::{panes, panes_upto, shape, Node, PaneId, Tree};
use crate::observe::opt_text;
use crate::pane::{copied, Pane};
use crate::resize::{assigned, lemma_rest_of, rest_of};
use crate::text::texts_of;
use crate::window::{lemma_place_of, place_of, Window};

verus! {

/// What is saved of a pane: its program, where it is, and the last lines it
/// showed.
#[derive(Debug, PartialEq, Eq)]
pub struct SavedPane {
    pub argv: Vec<String>,
    pub cwd: Option<String>,
    pub history: Vec<String>,
}

/// What a pane starts from, as mathematics.
#[verifier::ext_equal]
pub ghost struct Start {
    pub argv: Seq<Seq<char>>,
    pub cwd: Option<Seq<char>>,
    pub history: Seq<Seq<char>>,
}

impl View for SavedPane {
    type V = Start;

    open spec fn view(&self) -> Start {
        Start { argv: texts_of(self.argv@), cwd: opt_text(self.cwd), history: texts_of(self.history@) }
    }
}

/// The saved layout of a window.
#[derive(Debug, PartialEq, Eq)]
pub enum SavedNode {
    Pane(SavedPane),
    Split {
        /// Children are laid out left-to-right (true) or top-to-bottom (false).
        horizontal: bool,
        children: Vec<SavedNode>,
        sizes: Vec<u16>,
    },
}

/// A saved layout as mathematics.
pub ghost enum SavedTree {
    Pane(Start),
    Split { horizontal: bool, children: Seq<SavedTree>, sizes: Seq<int> },
}

pub open spec fn saved_tree_of(node: SavedNode) -> SavedTree
    decreases node,
{
    match node {
        SavedNode::Pane(p) => SavedTree::Pane(p@),
        SavedNode::Split { horizontal, children, sizes } => SavedTree::Split {
            horizontal,
            children: Seq::new(
                children@.len(),
                |i: int|
                    if 0 <= i < children@.len() {
                        saved_tree_of(children@[i])
                    } else {
                        SavedTree::Pane(nothing())
                    },
            ),
            sizes: ints(sizes@),
        },
    }
}

impl View for SavedNode {
    type V = SavedTree;

    open spec fn view(&self) -> SavedTree {
        saved_tree_of(*self)
    }
}

/// No program, no directory, no lines.
pub open spec fn nothing() -> Start {
    Start { argv: Seq::empty(), cwd: None, history: Seq::empty() }
}

/// The panes of a saved layout, in order.
pub open spec fn starts(t: SavedTree) -> Seq<Start>
    decreases t,
{
    match t {
        SavedTree::Pane(p) => seq![p],
        SavedTree::Split { children, .. } => starts_upto(children, children.len()),
    }
}

/// The panes of the first `k` of `children`.
pub open spec fn starts_upto(children: Seq<SavedTree>, k: nat) -> Seq<Start>
    decreases children, k,
{
    if k == 0 || k > children.len() {
        Seq::empty()
    } else {
        starts_upto(children, (k - 1) as nat) + starts(children[k - 1])
    }
}

/// Every split has cells, and a size for each.
pub open spec fn whole(t: SavedTree) -> bool
    decreases t,
{
    match t {
        SavedTree::Pane(_) => true,
        SavedTree::Split { children, sizes, .. } => {
            &&& children.len() >= 1
            &&& children.len() == sizes.len()
            &&& forall|i: int| 0 <= i < children.len() ==> whole(#[trigger] children[i])
            &&& forall|i: int| 0 <= i < sizes.len() ==> 0 <= #[trigger] sizes[i]
        },
    }
}

/// The lines listed first for pane `id`; none when it is not listed.
pub open spec fn history_of(h: Seq<(PaneId, Vec<String>)>, id: PaneId, i: int) -> Seq<Seq<char>>
    decreases h.len() - i,
{
    if i >= h.len() {
        Seq::empty()
    } else if h[i].0 == id {
        texts_of(h[i].1@)
    } else {
        history_of(h, id, i + 1)
    }
}

/// The directory listed first for pane `id`.
pub open spec fn dir_of(d: Seq<(PaneId, String)>, id: PaneId, i: int) -> Option<Seq<char>>
    decreases d.len() - i,
{
    if i >= d.len() {
        None
    } else if d[i].0 == id {
        Some(d[i].1@)
    } else {
        dir_of(d, id, i + 1)
    }
}

/// Where a pane is whose program is in directory `process`.
pub open spec fn path_now(p: Pane, process: Option<Seq<char>>) -> Option<Seq<char>> {
    if !p.announced && p.pid is Some && p.exit_code is None && process is Some {
        process
    } else {
        opt_text(p.cwd)
    }
}

/// What is saved of the pane `id` among `v`: its program and where it is,
/// with the lines that `h` and the directory that `d` have for it.
pub open spec fn start_of(
    v: Seq<Pane>,
    h: Seq<(PaneId, Vec<String>)>,
    d: Seq<(PaneId, String)>,
    id: PaneId,
) -> Start {
    let k = place_of(v, id, 0);
    if k < v.len() {
        Start {
            argv: texts_of(v[k].argv@),
            cwd: path_now(v[k], dir_of(d, id, 0)),
            history: history_of(h, id, 0),
        }
    } else {
        nothing()
    }
}

/// Layout `t` with what is saved of each pane in its place.
pub open spec fn saved_tree(
    t: Tree,
    v: Seq<Pane>,
    h: Seq<(PaneId, Vec<String>)>,
    d: Seq<(PaneId, String)>,
) -> SavedTree
    decreases t,
{
    match t {
        Tree::Leaf(id) => SavedTree::Pane(start_of(v, h, d, id)),
        Tree::Split { horizontal, children, sizes } => SavedTree::Split {
            horizontal,
            children: Seq::new(
                children.len(),
                |i: int|
                    if 0 <= i < children.len() {
                        saved_tree(children[i], v, h, d)
                    } else {
                        SavedTree::Pane(nothing())
                    },
            ),
            sizes,
        },
    }
}

/// A saved layout with panes `ids` in its places, in order.
pub open spec fn laid_tree(t: SavedTree, ids: Seq<PaneId>) -> Tree
    decreases t,
{
    match t {
        SavedTree::Pane(_) => Tree::Leaf(
            if ids.len() > 0 {
                ids[0]
            } else {
                0
            },
        ),
        SavedTree::Split { horizontal, children, sizes } => Tree::Split {
            horizontal,
            children: Seq::new(
                children.len(),
                |i: int|
                    if 0 <= i < children.len() {
                        laid_tree(children[i], rest_of(ids, starts_upto(children, i as nat).len() as int))
                    } else {
                        Tree::Leaf(0)
                    },
            ),
            sizes,
        },
    }
}

fn lines_for(h: &Vec<(PaneId, Vec<String>)>, id: PaneId) -> (out: Vec<String>)
    ensures
        texts_of(out@) == history_of(h@, id, 0),
{
    let mut i: usize = 0;
    while i < h.len()
        invariant
            i <= h@.len(),
            history_of(h@, id, 0) == history_of(h@, id, i as int),
        decreases h.len() - i,
    {
        if h[i].0 == id {
            return copied(&h[i].1);
        }
        i = i + 1;
    }
    let out: Vec<String> = Vec::new();
    assert(texts_of(out@) =~= Seq::empty());
    out
}

fn dir_for(d: &Vec<(PaneId, String)>, id: PaneId) -> (out: Option<String>)
    ensures
        opt_text(out) == dir_of(d@, id, 0),
{
    let mut i: usize = 0;
    while i < d.len()
        invariant
            i <= d@.len(),
            dir_of(d@, id, 0) == dir_of(d@, id, i as int),
        decreases d.len() - i,
    {
        if d[i].0 == id {
            return Some(d[i].1.clone());
        }
        i = i + 1;
    }
    None
}

impl Window {
    /// What is saved of the window's layout: `history` has the last lines of
    /// its panes, and `dirs` the directories that their programs are in, as
    /// far as they are known.
    pub fn saved_layout(&self, history: &Vec<(PaneId, Vec<String>)>, dirs: &Vec<(PaneId, String)>) -> (n: SavedNode)
        ensures
            n@ == saved_tree(self@.tree, self@.panes, history@, dirs@),
    {
        self.saved_part(&self.layout, history, dirs)
    }

    fn saved_pane(&self, id: PaneId, history: &Vec<(PaneId, Vec<String>)>, dirs: &Vec<(PaneId, String)>) -> (p: SavedPane)
        ensures
            p@ == start_of(self@.panes, history@, dirs@, id),
    {
        proof {
            lemma_place_of(self@.panes, id, 0);
        }
        match self.pane(id) {
            Some(p) => {
                let process = dir_for(dirs, id);
                SavedPane { argv: copied(&p.argv), cwd: p.current_path(process), history: lines_for(history, id) }
            },
            None => {
                let p = SavedPane { argv: Vec::new(), cwd: None, history: Vec::new() };
                assert(p@ =~= nothing());
                p
            },
        }
    }

    fn saved_part(&self, node: &Node, history: &Vec<(PaneId, Vec<String>)>, dirs: &Vec<(PaneId, String)>) -> (n: SavedNode)
        ensures
            n@ == saved_tree(node@, self@.panes, history@, dirs@),
        decreases node,
    {
        match node {
            Node::Leaf(id) => SavedNode::Pane(self.saved_pane(*id, history, dirs)),
            Node::Split { horizontal, children, sizes } => {
                let mut kids: Vec<SavedNode> = Vec::new();
                let mut i: usize = 0;
                while i < children.len()
                    invariant
                        i <= children@.len(),
                        kids@.len() == i,
                        forall|j: int|
                            0 <= j < i ==> (#[trigger] kids@[j])@ == saved_tree(
                                children@[j]@,
                                self@.panes,
                                history@,
                                dirs@,
                            ),
                        decreases_to!(node => children),
                    decreases children.len() - i,
                {
                    let kid = self.saved_part(&children[i], history, dirs);
                    kids.push(kid);
                    i = i + 1;
                }
                let n = SavedNode::Split { horizontal: *horizontal, children: kids, sizes: sizes.clone() };
                proof {
                    assert(n@->children =~= saved_tree(node@, self@.panes, history@, dirs@)->children);
                    assert(n@->sizes =~= node@->sizes);
                }
                n
            },
        }
    }
}

/// What a row of saved panes starts from.
pub open spec fn starts_of(v: Seq<&SavedPane>) -> Seq<Start> {
    Seq::new(v.len(), |i: int| v[i]@)
}

impl SavedNode {
    /// The panes of the layout, in order.
    pub fn panes(&self) -> (out: Vec<&SavedPane>)
        ensures
            starts_of(out@) == starts(self@),
    {
        let mut out: Vec<&SavedPane> = Vec::new();
        self.collect(&mut out);
        assert(starts_of(out@) =~= starts(self@));
        out
    }

    fn collect<'a>(&'a self, out: &mut Vec<&'a SavedPane>)
        ensures
            starts_of(final(out)@) == starts_of(old(out)@) + starts(self@),
        decreases self,
    {
        match self {
            SavedNode::Pane(p) => {
                out.push(p);
                assert(starts_of(out@) =~= starts_of(old(out)@) + starts(self@));
            },
            SavedNode::Split { children, .. } => {
                let ghost kids = self@->children;
                let ghost start = starts_of(out@);
                let mut i: usize = 0;
                assert(start + starts_upto(kids, 0) =~= start);
                while i < children.len()
                    invariant
                        i <= children@.len() == kids.len(),
                        forall|j: int| 0 <= j < kids.len() ==> children@[j]@ == #[trigger] kids[j],
                        starts_of(out@) == start + starts_upto(kids, i as nat),
                        decreases_to!(self => children),
                    decreases children.len() - i,
                {
                    children[i].collect(out);
                    assert(kids[i as int] == children@[i as int]@);
                    i = i + 1;
                    assert(starts_of(out@) =~= start + starts_upto(kids, i as nat));
                }
            },
        }
    }

    /// The layout with panes `ids` in its places, in order; none when they
    /// are too few, or a split has no cells or not a size for each.
    pub fn to_layout(&self, ids: &Vec<PaneId>) -> (r: Option<Node>)
        ensures
            r is Some <==> whole(self@) && starts(self@).len() <= ids@.len(),
            r matches Some(n) ==> n@ == laid_tree(self@, ids@) && shape(n@) && panes(n@) == ids@.take(
                starts(self@).len() as int,
            ),
    {
        assert(rest_of(ids@, 0) =~= ids@);
        match self.build(ids, 0) {
            Some((n, _)) => {
                proof {
                    lemma_laid_panes(self@, ids@);
                }
                Some(n)
            },
            None => None,
        }
    }

    /// The layout with the panes of `ids` from place `from` on, and the place
    /// in `ids` reached.
    fn build(&self, ids: &Vec<PaneId>, from: usize) -> (r: Option<(Node, usize)>)
        requires
            from <= ids@.len(),
        ensures
            r is Some <==> whole(self@) && from + starts(self@).len() <= ids@.len(),
            r matches Some((n, next)) ==> n@ == laid_tree(self@, rest_of(ids@, from as int)) && next == from + starts(
                self@,
            ).len(),
        decreases self,
    {
        match self {
            SavedNode::Pane(_) => {
                if from < ids.len() {
                    Some((Node::Leaf(ids[from]), from + 1))
                } else {
                    None
                }
            },
            SavedNode::Split { horizontal, children, sizes } => {
                let ghost kids = self@->children;
                if children.len() == 0 || children.len() != sizes.len() {
                    return None;
                }
                let mut made: Vec<Node> = Vec::new();
                let mut at: usize = from;
                let mut i: usize = 0;
                while i < children.len()
                    invariant
                        i <= children@.len() == kids.len(),
                        self@ is Split,
                        kids == self@->children,
                        forall|j: int| 0 <= j < kids.len() ==> children@[j]@ == #[trigger] kids[j],
                        from <= at <= ids@.len(),
                        at == from + starts_upto(kids, i as nat).len(),
                        made@.len() == i,
                        forall|j: int|
                            0 <= j < i ==> whole(kids[j]) && (#[trigger] made@[j])@ == laid_tree(
                                kids[j],
                                rest_of(rest_of(ids@, from as int), starts_upto(kids, j as nat).len() as int),
                            ),
                        decreases_to!(self => children),
                    decreases children.len() - i,
                {
                    assert(kids[i as int] == children@[i as int]@);
                    proof {
                        lemma_rest_of(ids@, from as int, starts_upto(kids, i as nat).len() as int);
                        lemma_starts_within(kids, i as nat, kids.len());
                    }
                    match children[i].build(ids, at) {
                        Some((n, next)) => {
                            made.push(n);
                            at = next;
                        },
                        None => {
                            return None;
                        },
                    }
                    i = i + 1;
                }
                let n = Node::Split { horizontal: *horizontal, children: made, sizes: sizes.clone() };
                proof {
                    assert forall|j: int| 0 <= j < kids.len() implies whole(#[trigger] kids[j]) by {
                        assert(made@[j]@ == laid_tree(
                            kids[j],
                            rest_of(rest_of(ids@, from as int), starts_upto(kids, j as nat).len() as int),
                        ));
                    }
                    assert(n@->children =~= laid_tree(self@, rest_of(ids@, from as int))->children);
                    assert(n@->sizes =~= self@->sizes);
                }
                Some((n, at))
            },
        }
    }
}

/// The panes of one cell are among those of the first `k`.
proof fn lemma_starts_within(children: Seq<SavedTree>, i: nat, k: nat)
    requires
        i < k <= children.len(),
    ensures
        starts_upto(children, i).len() + starts(children[i as int]).len() <= starts_upto(children, k).len(),
    decreases k,
{
    if i + 1 < k {
        lemma_starts_within(children, i, (k - 1) as nat);
    }
}

/// The panes of a saved layout that was laid out are those put into it.
proof fn lemma_laid_panes(t: SavedTree, ids: Seq<PaneId>)
    requires
        whole(t),
        starts(t).len() <= ids.len(),
    ensures
        shape(laid_tree(t, ids)),
        panes(laid_tree(t, ids)) == ids.take(starts(t).len() as int),
    decreases t, 1nat, 0nat,
{
    match t {
        SavedTree::Pane(_) => {
            assert(panes(laid_tree(t, ids)) =~= ids.take(1));
        },
        SavedTree::Split { children, sizes, .. } => {
            lemma_laid_upto(t, ids, children.len());
        },
    }
}

proof fn lemma_laid_upto(t: SavedTree, ids: Seq<PaneId>, k: nat)
    requires
        whole(t),
        t is Split,
        k <= t->children.len(),
        starts_upto(t->children, k).len() <= ids.len(),
    ensures
        panes_upto(laid_tree(t, ids)->children, k) == ids.take(starts_upto(t->children, k).len() as int),
        forall|i: int| 0 <= i < k ==> shape(#[trigger] laid_tree(t, ids)->children[i]),
    decreases t, 0nat, k,
{
    let kids = laid_tree(t, ids)->children;
    if k > 0 {
        let before = starts_upto(t->children, (k - 1) as nat).len() as int;
        let rest = rest_of(ids, before);
        lemma_laid_upto(t, ids, (k - 1) as nat);
        assert(rest.len() == ids.len() - before);
        lemma_laid_panes(t->children[k - 1], rest);
        assert(kids[k - 1] == laid_tree(t->children[k - 1], rest));
        let n = starts(t->children[k - 1]).len() as int;
        assert(ids.take(before) + rest.take(n) =~= ids.take(before + n));
    } else {
        assert(ids.take(0) =~= Seq::empty());
    }
}

/// Both have the same splits, in the same directions and at the same sizes,
/// whatever panes are in them.
pub open spec fn same_form(a: Tree, b: Tree) -> bool
    decreases a,
{
    match (a, b) {
        (Tree::Leaf(_), Tree::Leaf(_)) => true,
        (
            Tree::Split { horizontal, children, sizes },
            Tree::Split { horizontal: across, children: others, sizes: those },
        ) => {
            &&& horizontal == across
            &&& sizes == those
            &&& children.len() == others.len()
            &&& forall|i: int| 0 <= i < children.len() ==> same_form(#[trigger] children[i], others[i])
        },
        _ => false,
    }
}

/// Every pane of a layout is saved, in its place: its program, where it is,
/// and its lines.
pub proof fn lemma_saved_starts(t: Tree, v: Seq<Pane>, h: Seq<(PaneId, Vec<String>)>, d: Seq<(PaneId, String)>)
    ensures
        starts(saved_tree(t, v, h, d)).len() == panes(t).len(),
        forall|k: int|
            0 <= k < panes(t).len() ==> #[trigger] starts(saved_tree(t, v, h, d))[k] == start_of(v, h, d, panes(t)[k]),
    decreases t, 1nat, 0nat,
{
    if let Tree::Split { children, .. } = t {
        lemma_saved_starts_upto(t, v, h, d, children.len());
    }
}

proof fn lemma_saved_starts_upto(
    t: Tree,
    v: Seq<Pane>,
    h: Seq<(PaneId, Vec<String>)>,
    d: Seq<(PaneId, String)>,
    k: nat,
)
    requires
        t is Split,
        k <= t->children.len(),
    ensures
        ({
            let a = panes_upto(t->children, k);
            let b = starts_upto(saved_tree(t, v, h, d)->children, k);
            &&& b.len() == a.len()
            &&& forall|i: int| 0 <= i < a.len() ==> #[trigger] b[i] == start_of(v, h, d, a[i])
        }),
    decreases t, 0nat, k,
{
    if k > 0 {
        lemma_saved_starts_upto(t, v, h, d, (k - 1) as nat);
        lemma_saved_starts(t->children[k - 1], v, h, d);
    }
}

/// A layout that was saved comes back as it was with other panes in its
/// places: the same splits, directions and sizes, and the new panes in the
/// order of the old. With its own panes it is the layout that was saved.
pub proof fn lemma_saved_comes_back(
    t: Tree,
    v: Seq<Pane>,
    h: Seq<(PaneId, Vec<String>)>,
    d: Seq<(PaneId, String)>,
    ids: Seq<PaneId>,
)
    requires
        shape(t),
        ids.len() == panes(t).len(),
    ensures
        ({
            let back = laid_tree(saved_tree(t, v, h, d), ids);
            &&& whole(saved_tree(t, v, h, d))
            &&& same_form(t, back)
            &&& shape(back)
            &&& panes(back) == ids
            &&& ids == panes(t) ==> back == t
        }),
{
    lemma_saved_starts(t, v, h, d);
    lemma_saved_whole(t, v, h, d);
    lemma_laid_again(t, v, h, d, ids);
    lemma_assigned_form(t, ids);
    lemma_laid_panes(saved_tree(t, v, h, d), ids);
    assert(ids.take(ids.len() as int) =~= ids);
    if ids == panes(t) {
        lemma_assigned_own(t);
    }
}

proof fn lemma_saved_whole(t: Tree, v: Seq<Pane>, h: Seq<(PaneId, Vec<String>)>, d: Seq<(PaneId, String)>)
    requires
        shape(t),
    ensures
        whole(saved_tree(t, v, h, d)),
    decreases t,
{
    if let Tree::Split { children, .. } = t {
        assert forall|i: int| 0 <= i < children.len() implies whole(
            #[trigger] saved_tree(t, v, h, d)->children[i],
        ) by {
            lemma_saved_whole(children[i], v, h, d);
        }
    }
}

proof fn lemma_panes_within(children: Seq<Tree>, i: nat, k: nat)
    requires
        i < k <= children.len(),
    ensures
        panes_upto(children, i).len() + panes(children[i as int]).len() <= panes_upto(children, k).len(),
    decreases k,
{
    if i + 1 < k {
        lemma_panes_within(children, i, (k - 1) as nat);
    }
}

proof fn lemma_laid_again(
    t: Tree,
    v: Seq<Pane>,
    h: Seq<(PaneId, Vec<String>)>,
    d: Seq<(PaneId, String)>,
    ids: Seq<PaneId>,
)
    requires
        panes(t).len() <= ids.len(),
    ensures
        laid_tree(saved_tree(t, v, h, d), ids) == assigned(t, ids),
    decreases t,
{
    if let Tree::Split { children, .. } = t {
        let kids = saved_tree(t, v, h, d)->children;
        let back = laid_tree(saved_tree(t, v, h, d), ids);
        assert forall|i: int| 0 <= i < children.len() implies back->children[i] == #[trigger] assigned(
            t,
            ids,
        )->children[i] by {
            lemma_saved_starts_upto(t, v, h, d, i as nat);
            lemma_panes_within(children, i as nat, children.len());
            let rest = rest_of(ids, panes_upto(children, i as nat).len() as int);
            lemma_laid_again(children[i], v, h, d, rest);
            assert(kids[i] == saved_tree(children[i], v, h, d));
        }
        assert(back->children =~= assigned(t, ids)->children);
    }
}

/// Other panes in its places leave a layout's splits as they are.
proof fn lemma_assigned_form(t: Tree, ids: Seq<PaneId>)
    ensures
        same_form(t, assigned(t, ids)),
    decreases t,
{
    if let Tree::Split { children, .. } = t {
        let after = assigned(t, ids)->children;
        assert forall|i: int| 0 <= i < children.len() implies same_form(#[trigger] children[i], after[i]) by {
            lemma_assigned_form(children[i], rest_of(ids, panes_upto(children, i as nat).len() as int));
        }
    }
}

/// A layout with its own panes put into it stays as it is.
proof fn lemma_assigned_own(t: Tree)
    ensures
        assigned(t, panes(t)) == t,
{
    assert(panes(t) + Seq::<PaneId>::empty() =~= panes(t));
    lemma_assigned_prefix(t, Seq::empty());
}

proof fn lemma_assigned_prefix(t: Tree, more: Seq<PaneId>)
    ensures
        assigned(t, panes(t) + more) == t,
    decreases t,
{
    let ids = panes(t) + more;
    if let Tree::Split { children, .. } = t {
        let after = assigned(t, ids);
        assert forall|i: int| 0 <= i < children.len() implies after->children[i] == #[trigger] children[i] by {
            let n = panes_upto(children, i as nat).len() as int;
            let own = panes(children[i]);
            lemma_panes_prefix(children, i as nat, children.len());
            lemma_panes_prefix(children, (i + 1) as nat, children.len());
            let rest = rest_of(ids, n);
            let head = panes_upto(children, (i + 1) as nat);
            assert forall|j: int| 0 <= j < own.len() implies ids.skip(n)[j] == own[j] by {
                assert(panes(t).take(head.len() as int)[n + j] == head[n + j]);
            }
            assert(ids.skip(n) =~= own + ids.skip(n + own.len()));
            if n < ids.len() {
                lemma_assigned_prefix(children[i], ids.skip(n + own.len()));
            } else {
                assert(rest =~= own + Seq::<PaneId>::empty());
                lemma_assigned_prefix(children[i], Seq::empty());
            }
        }
        assert(after->children =~= children);
    }
}

/// The panes of the first `i` cells come first among those of the first `k`.
proof fn lemma_panes_prefix(children: Seq<Tree>, i: nat, k: nat)
    requires
        i <= k <= children.len(),
    ensures
        panes_upto(children, i).len() <= panes_upto(children, k).len(),
        panes_upto(children, k).take(panes_upto(children, i).len() as int) == panes_upto(children, i),
    decreases k,
{
    let a = panes_upto(children, i);
    let b = panes_upto(children, k);
    if i < k {
        lemma_panes_prefix(children, i, (k - 1) as nat);
        assert(b.take(a.len() as int) =~= panes_upto(children, (k - 1) as nat).take(a.len() as int));
    } else {
        assert(b.take(a.len() as int) =~= a);
    }
}

} // verus!
