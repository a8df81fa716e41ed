//! The named arrangements of `select-layout`.
use vstd::prelude::*;
use crate::edit::{lemma_flat_concat, lemma_flat_one};
use crate::fit::ints;
use crate::layout::{lemma_split_view, panes, panes_upto, shape, trees, Node, PaneId, Tree};
use crate::text::{begins_with, chars_of};

verus! {

/// The named arrangements of `select-layout`, in the order `-n` cycles them.
#[derive(Clone, Copy, Debug, PartialEq, Eq, Structural)]
pub enum Preset {
    EvenHorizontal,
    EvenVertical,
    MainHorizontal,
    MainVertical,
    Tiled,
}

pub const PRESETS: [(&'static str, Preset); 5] = [
    ("even-horizontal", Preset::EvenHorizontal),
    ("even-vertical", Preset::EvenVertical),
    ("main-horizontal", Preset::MainHorizontal),
    ("main-vertical", Preset::MainVertical),
    ("tiled", Preset::Tiled),
];

/// The name a preset goes by.
pub open spec fn preset_name(p: Preset) -> Seq<char> {
    match p {
        Preset::EvenHorizontal => "even-horizontal"@,
        Preset::EvenVertical => "even-vertical"@,
        Preset::MainHorizontal => "main-horizontal"@,
        Preset::MainVertical => "main-vertical"@,
        Preset::Tiled => "tiled"@,
    }
}

/// The preset after `p`, the first after the last.
pub open spec fn preset_after(p: Preset) -> Preset {
    match p {
        Preset::EvenHorizontal => Preset::EvenVertical,
        Preset::EvenVertical => Preset::MainHorizontal,
        Preset::MainHorizontal => Preset::MainVertical,
        Preset::MainVertical => Preset::Tiled,
        Preset::Tiled => Preset::EvenHorizontal,
    }
}

/// A row of panes, all the same weight.
pub open spec fn row_tree(ids: Seq<PaneId>, horizontal: bool) -> Tree {
    Tree::Split {
        horizontal,
        children: Seq::new(ids.len(), |i: int| Tree::Leaf(ids[i])),
        sizes: Seq::new(ids.len(), |i: int| 1int),
    }
}

/// `c` is the least number of columns whose square holds `n` panes.
pub open spec fn is_side(c: int, n: int) -> bool {
    c >= 1 && c * c >= n && (c - 1) * (c - 1) < n
}

/// Where column `c` of `cols` begins among `n` panes, the first columns
/// taking one more each until the remainder is spread.
pub open spec fn column_start(n: int, cols: int, c: int) -> int {
    c * (n / cols) + if c < n % cols {
        c
    } else {
        n % cols
    }
}

/// Column `c` of `cols`: a pane, or a stack of them.
pub open spec fn column_tree(ids: Seq<PaneId>, cols: int, c: int) -> Tree {
    let part = ids.subrange(
        column_start(ids.len() as int, cols, c),
        column_start(ids.len() as int, cols, c + 1),
    );
    if part.len() == 1 {
        Tree::Leaf(part[0])
    } else {
        row_tree(part, false)
    }
}

/// The arrangement of two panes or more.
pub open spec fn is_arranged(p: Preset, ids: Seq<PaneId>, t: Tree) -> bool {
    match p {
        Preset::EvenHorizontal => t == row_tree(ids, true),
        Preset::EvenVertical => t == row_tree(ids, false),
        Preset::MainVertical => t == (Tree::Split {
            horizontal: true,
            children: seq![Tree::Leaf(ids[0]), row_tree(ids.skip(1), false)],
            sizes: seq![1int, 1int],
        }),
        Preset::MainHorizontal => t == (Tree::Split {
            horizontal: false,
            children: seq![Tree::Leaf(ids[0]), row_tree(ids.skip(1), true)],
            sizes: seq![1int, 1int],
        }),
        Preset::Tiled => exists|cols: int| #[trigger]
            is_side(cols, ids.len() as int) && t == (Tree::Split {
                horizontal: true,
                children: Seq::new(cols as nat, |c: int| column_tree(ids, cols, c)),
                sizes: Seq::new(cols as nat, |c: int| 1int),
            }),
    }
}

/// No preset's name begins another's.
proof fn lemma_names_apart(name: Seq<char>, p: Preset, q: Preset)
    requires
        name == preset_name(p),
        name.is_prefix_of(preset_name(q)),
    ensures
        p == q,
{
    reveal_strlit("even-horizontal");
    reveal_strlit("even-vertical");
    reveal_strlit("main-horizontal");
    reveal_strlit("main-vertical");
    reveal_strlit("tiled");
    let other = preset_name(q);
    assert(forall|i: int| 0 <= i < name.len() ==> name[i] == other[i]);
    assert(name[0] == other[0]);
    assert(name[5 - 1] == other[5 - 1]);
    if p != q {
        assert(name.len() > 5);
        assert(name[5] == other[5]);
    }
}

/// `found` is the one preset whose name `name` is or begins; nothing when
/// it begins none, or several.
pub open spec fn is_meant(name: Seq<char>, found: Option<Preset>) -> bool {
    match found {
        Some(p) => name.is_prefix_of(preset_name(p)) && forall|q: Preset|
            #[trigger] name.is_prefix_of(preset_name(q)) ==> q == p,
        None => forall|p: Preset|
            #[trigger] name.is_prefix_of(preset_name(p)) ==> exists|q: Preset|
                q != p && #[trigger] name.is_prefix_of(preset_name(q)),
    }
}

impl Preset {
    /// The preset `name` is the name of, or the beginning of one name only.
    pub fn parse(name: &str) -> (found: Option<Preset>)
        ensures
            is_meant(name@, found),
    {
        // tmux takes unambiguous prefixes here too ("even-h", "til").
        let word = chars_of(name);
        let a: bool = begins_with(&chars_of("even-horizontal"), &word);
        let b: bool = begins_with(&chars_of("even-vertical"), &word);
        let c: bool = begins_with(&chars_of("main-horizontal"), &word);
        let d: bool = begins_with(&chars_of("main-vertical"), &word);
        let e: bool = begins_with(&chars_of("tiled"), &word);
        assert(a == name@.is_prefix_of(preset_name(Preset::EvenHorizontal)));
        assert(b == name@.is_prefix_of(preset_name(Preset::EvenVertical)));
        assert(c == name@.is_prefix_of(preset_name(Preset::MainHorizontal)));
        assert(d == name@.is_prefix_of(preset_name(Preset::MainVertical)));
        assert(e == name@.is_prefix_of(preset_name(Preset::Tiled)));
        if a && !b && !c && !d && !e {
            Some(Preset::EvenHorizontal)
        } else if b && !a && !c && !d && !e {
            Some(Preset::EvenVertical)
        } else if c && !a && !b && !d && !e {
            Some(Preset::MainHorizontal)
        } else if d && !a && !b && !c && !e {
            Some(Preset::MainVertical)
        } else if e && !a && !b && !c && !d {
            Some(Preset::Tiled)
        } else {
            None
        }
    }

    pub fn name(self) -> (name: &'static str)
        ensures
            name@ == preset_name(self),
    {
        match self {
            Preset::EvenHorizontal => "even-horizontal",
            Preset::EvenVertical => "even-vertical",
            Preset::MainHorizontal => "main-horizontal",
            Preset::MainVertical => "main-vertical",
            Preset::Tiled => "tiled",
        }
    }

    pub fn next(self) -> (p: Preset)
        ensures
            p == preset_after(self),
    {
        match self {
            Preset::EvenHorizontal => Preset::EvenVertical,
            Preset::EvenVertical => Preset::MainHorizontal,
            Preset::MainHorizontal => Preset::MainVertical,
            Preset::MainVertical => Preset::Tiled,
            Preset::Tiled => Preset::EvenHorizontal,
        }
    }

    pub fn prev(self) -> (p: Preset)
        ensures
            preset_after(p) == self,
    {
        match self {
            Preset::EvenHorizontal => Preset::Tiled,
            Preset::EvenVertical => Preset::EvenHorizontal,
            Preset::MainHorizontal => Preset::EvenVertical,
            Preset::MainVertical => Preset::MainHorizontal,
            Preset::Tiled => Preset::MainVertical,
        }
    }

    /// Rebuild a layout tree holding exactly `panes`, in that order.
    pub fn build(self, panes: &[PaneId]) -> (out: Option<Node>)
        ensures
            out is None <==> panes@.len() == 0,
            panes@.len() == 1 ==> out->0@ == Tree::Leaf(panes@[0]),
            panes@.len() > 1 ==> is_arranged(self, panes@, out->0@),
            out is Some ==> crate::layout::panes(out->0@) == panes@ && shape(out->0@),
    {
        let n: usize = panes.len();
        if n == 0 {
            return None;
        }
        let first: PaneId = panes[0];
        if n == 1 {
            assert(crate::layout::panes(Tree::Leaf(first)) =~= panes@);
            return Some(Node::Leaf(first));
        }
        let out = match self {
            Preset::EvenHorizontal => row(panes, 0, n, true),
            Preset::EvenVertical => row(panes, 0, n, false),
            // The first pane keeps half; the others share the other half.
            Preset::MainVertical => two(true, Node::Leaf(first), row(panes, 1, n, false)),
            Preset::MainHorizontal => two(false, Node::Leaf(first), row(panes, 1, n, true)),
            Preset::Tiled => tiled(panes),
        };
        proof {
            assert(panes@.subrange(0, n as int) =~= panes@);
            assert(panes@.subrange(1, n as int) =~= panes@.skip(1));
            lemma_arranged(self, panes@, out@);
        }
        Some(out)
    }
}

/// The panes `from..to` in a row.
fn row(ids: &[PaneId], from: usize, to: usize, horizontal: bool) -> (out: Node)
    requires
        from <= to <= ids@.len(),
    ensures
        out@ == row_tree(ids@.subrange(from as int, to as int), horizontal),
{
    let mut children: Vec<Node> = Vec::new();
    let mut sizes: Vec<u16> = Vec::new();
    let ghost part = ids@.subrange(from as int, to as int);
    let mut i: usize = from;
    while i < to
        invariant
            from <= i <= to <= ids@.len(),
            part == ids@.subrange(from as int, to as int),
            children@.len() == i - from,
            sizes@.len() == i - from,
            forall|j: int| 0 <= j < children@.len() ==> (#[trigger] children@[j])@ == Tree::Leaf(part[j]),
            forall|j: int| 0 <= j < sizes@.len() ==> #[trigger] sizes@[j] == 1,
        decreases to - i,
    {
        children.push(Node::Leaf(ids[i]));
        sizes.push(1); // equal weights; `layout` scales them to the rect
        i = i + 1;
    }
    proof {
        lemma_split_view(horizontal, children, sizes);
        assert(trees(children@) =~= row_tree(part, horizontal)->children);
        assert(ints(sizes@) =~= row_tree(part, horizontal)->sizes);
    }
    Node::Split { horizontal, children, sizes }
}

fn two(horizontal: bool, a: Node, b: Node) -> (out: Node)
    ensures
        out@ == (Tree::Split { horizontal, children: seq![a@, b@], sizes: seq![1int, 1int] }),
{
    let children = vec![a, b];
    let sizes = vec![1u16, 1u16];
    proof {
        lemma_split_view(horizontal, children, sizes);
        assert(trees(children@) =~= seq![a@, b@]);
        assert(ints(sizes@) =~= seq![1int, 1int]);
    }
    Node::Split { horizontal, children, sizes }
}

/// The least number of columns whose square holds `n` panes.
fn side(n: usize) -> (c: usize)
    requires
        n >= 1,
    ensures
        is_side(c as int, n as int),
        c <= n,
{
    let mut c: usize = 1;
    while (n - 1) / c >= c
        invariant
            1 <= c <= n,
            (c - 1) * (c - 1) < n,
        decreases n - c,
    {
        let ghost q = (n - 1) / c as int;
        assert(c * c < n) by (nonlinear_arith)
            requires
                q == (n - 1) / c as int,
                q >= c,
                c >= 1,
                n >= 1,
        ;
        assert(c < n) by (nonlinear_arith)
            requires
                c * c < n,
                c >= 1,
        ;
        c = c + 1;
    }
    let ghost q = (n - 1) / c as int;
    assert(c * c >= n) by (nonlinear_arith)
        requires
            q == (n - 1) / c as int,
            q < c,
            c >= 1,
            n >= 1,
    ;
    c
}

/// Where the columns of a grid begin: one after the other, none empty, the
/// last ending with the panes.
proof fn lemma_columns(n: int, cols: int, c: int)
    requires
        is_side(cols, n),
        n >= 1,
        0 <= c < cols,
    ensures
        cols <= n,
        column_start(n, cols, 0) == 0,
        column_start(n, cols, c + 1) == column_start(n, cols, c) + n / cols + (if c < n % cols {
            1int
        } else {
            0int
        }),
        n / cols >= 1,
        0 <= column_start(n, cols, c) < column_start(n, cols, c + 1) <= n,
        column_start(n, cols, cols) == n,
{
    assert(cols <= n) by (nonlinear_arith)
        requires
            cols >= 1,
            (cols - 1) * (cols - 1) < n,
            n >= 1,
    ;
    let q = n / cols;
    let r = n % cols;
    assert(n == cols * q + r && 0 <= r < cols) by (nonlinear_arith)
        requires
            q == n / cols,
            r == n % cols,
            cols >= 1,
    ;
    assert(q >= 1) by (nonlinear_arith)
        requires
            n == cols * q + r,
            r < cols,
            cols <= n,
            cols >= 1,
    ;
    assert((c + 1) * q == c * q + q) by (nonlinear_arith);
    assert(0 * q == 0) by (nonlinear_arith);
    assert((c + 1) * q <= cols * q) by (nonlinear_arith)
        requires
            c + 1 <= cols,
            q >= 1,
    ;
    assert(c * q >= 0) by (nonlinear_arith)
        requires
            c >= 0,
            q >= 1,
    ;
}

fn tiled(ids: &[PaneId]) -> (out: Node)
    requires
        ids@.len() > 1,
    ensures
        is_arranged(Preset::Tiled, ids@, out@),
{
    // Columns first, like tmux: the square root of the number, rounded up,
    // columns of rows.
    let n: usize = ids.len();
    let cols: usize = side(n);
    let mut children: Vec<Node> = Vec::new();
    let mut sizes: Vec<u16> = Vec::new();
    let mut at: usize = 0;
    let mut c: usize = 0;
    proof {
        lemma_columns(n as int, cols as int, 0);
    }
    while c < cols
        invariant
            c <= cols,
            n == ids@.len(),
            n > 1,
            is_side(cols as int, n as int),
            at == column_start(n as int, cols as int, c as int),
            children@.len() == c,
            sizes@.len() == c,
            forall|j: int|
                0 <= j < c ==> (#[trigger] children@[j])@ == column_tree(ids@, cols as int, j),
            forall|j: int| 0 <= j < c ==> #[trigger] sizes@[j] == 1,
        decreases cols - c,
    {
        proof {
            lemma_columns(n as int, cols as int, c as int);
        }
        // Spread the remainder over the first columns.
        let take: usize = if c < n % cols { n / cols + 1 } else { n / cols };
        let end: usize = at + take;
        assert(end == column_start(n as int, cols as int, c + 1));
        let column = if take == 1 { Node::Leaf(ids[at]) } else { row(ids, at, end, false) };
        assert(ids@.subrange(at as int, end as int)[0] == ids@[at as int]);
        assert(column@ == column_tree(ids@, cols as int, c as int));
        children.push(column);
        sizes.push(1);
        at = end;
        c = c + 1;
    }
    proof {
        lemma_split_view(true, children, sizes);
        assert(trees(children@) =~= Seq::new(cols as nat, |c: int| column_tree(ids@, cols as int, c)));
        assert(ints(sizes@) =~= Seq::new(cols as nat, |c: int| 1int));
    }
    Node::Split { horizontal: true, children, sizes }
}

proof fn lemma_row(ids: Seq<PaneId>, horizontal: bool)
    requires
        ids.len() >= 1,
    ensures
        panes(row_tree(ids, horizontal)) == ids,
        shape(row_tree(ids, horizontal)),
{
    let t = row_tree(ids, horizontal);
    lemma_row_upto(ids, horizontal, ids.len());
    assert(ids.take(ids.len() as int) =~= ids);
    assert forall|i: int| 0 <= i < t->children.len() implies shape(#[trigger] t->children[i]) by {
        assert(t->children[i] == Tree::Leaf(ids[i]));
    }
}

proof fn lemma_row_upto(ids: Seq<PaneId>, horizontal: bool, k: nat)
    requires
        k <= ids.len(),
    ensures
        panes_upto(row_tree(ids, horizontal)->children, k) == ids.take(k as int),
    decreases k,
{
    if k == 0 {
        assert(ids.take(0) =~= Seq::<PaneId>::empty());
    } else {
        lemma_row_upto(ids, horizontal, (k - 1) as nat);
        assert(row_tree(ids, horizontal)->children[k - 1] == Tree::Leaf(ids[k - 1]));
        assert(panes(Tree::Leaf(ids[k - 1])) == seq![ids[k - 1]]);
        assert(ids.take(k as int) =~= ids.take(k - 1) + seq![ids[k - 1]]);
    }
}

proof fn lemma_column(ids: Seq<PaneId>, cols: int, c: int)
    requires
        ids.len() >= 1,
        is_side(cols, ids.len() as int),
        0 <= c < cols,
    ensures
        shape(column_tree(ids, cols, c)),
        panes(column_tree(ids, cols, c)) == ids.subrange(
            column_start(ids.len() as int, cols, c),
            column_start(ids.len() as int, cols, c + 1),
        ),
{
    let n = ids.len() as int;
    lemma_columns(n, cols, c);
    let part = ids.subrange(column_start(n, cols, c), column_start(n, cols, c + 1));
    if part.len() == 1 {
        assert(part =~= seq![part[0]]);
    } else {
        lemma_row(part, false);
    }
}

proof fn lemma_columns_upto(ids: Seq<PaneId>, cols: int, k: nat)
    requires
        ids.len() >= 1,
        is_side(cols, ids.len() as int),
        k <= cols,
    ensures
        panes_upto(Seq::new(cols as nat, |c: int| column_tree(ids, cols, c)), k) == ids.take(
            column_start(ids.len() as int, cols, k as int),
        ),
    decreases k,
{
    let n = ids.len() as int;
    let kids = Seq::new(cols as nat, |c: int| column_tree(ids, cols, c));
    if k == 0 {
        lemma_columns(n, cols, 0);
        assert(ids.take(0) =~= Seq::<PaneId>::empty());
    } else {
        lemma_columns_upto(ids, cols, (k - 1) as nat);
        lemma_columns(n, cols, k - 1);
        lemma_column(ids, cols, k - 1);
        assert(kids[k - 1] == column_tree(ids, cols, k - 1));
        assert(ids.take(column_start(n, cols, k as int)) =~= ids.take(column_start(n, cols, k - 1)) + ids.subrange(
            column_start(n, cols, k - 1),
            column_start(n, cols, k as int),
        ));
    }
}

/// An arrangement holds the panes it was made of, in order.
pub proof fn lemma_arranged(p: Preset, ids: Seq<PaneId>, t: Tree)
    requires
        ids.len() > 1,
        is_arranged(p, ids, t),
    ensures
        panes(t) == ids,
        shape(t),
{
    match p {
        Preset::EvenHorizontal => lemma_row(ids, true),
        Preset::EvenVertical => lemma_row(ids, false),
        Preset::MainVertical => lemma_main(ids, t, false),
        Preset::MainHorizontal => lemma_main(ids, t, true),
        Preset::Tiled => {
            let n = ids.len() as int;
            let cols = choose|cols: int| #[trigger]
                is_side(cols, n) && t == (Tree::Split {
                    horizontal: true,
                    children: Seq::new(cols as nat, |c: int| column_tree(ids, cols, c)),
                    sizes: Seq::new(cols as nat, |c: int| 1int),
                });
            lemma_columns(n, cols, 0);
            lemma_columns_upto(ids, cols, cols as nat);
            assert(ids.take(n) =~= ids);
            assert forall|i: int| 0 <= i < t->children.len() implies shape(#[trigger] t->children[i]) by {
                lemma_column(ids, cols, i);
            }
        },
    }
}

proof fn lemma_main(ids: Seq<PaneId>, t: Tree, across: bool)
    requires
        ids.len() > 1,
        t == (Tree::Split {
            horizontal: !across,
            children: seq![Tree::Leaf(ids[0]), row_tree(ids.skip(1), across)],
            sizes: seq![1int, 1int],
        }),
    ensures
        panes(t) == ids,
        shape(t),
{
    lemma_row(ids.skip(1), across);
    let a = Tree::Leaf(ids[0]);
    let b = row_tree(ids.skip(1), across);
    lemma_flat_concat(seq![a], seq![b]);
    lemma_flat_one(a);
    lemma_flat_one(b);
    assert(seq![a, b] =~= seq![a] + seq![b]);
    assert(panes(a) =~= seq![ids[0]]);
    assert(seq![ids[0]] + ids.skip(1) =~= ids);
    assert forall|i: int| 0 <= i < t->children.len() implies shape(#[trigger] t->children[i]) by {
        assert(i == 0 || i == 1);
        assert(shape(a));
    }
}

/// A preset's own name names it.
pub proof fn lemma_name_names(p: Preset)
    ensures
        preset_name(p).is_prefix_of(preset_name(p)),
        forall|q: Preset| #[trigger] preset_name(p).is_prefix_of(preset_name(q)) ==> q == p,
{
    assert(preset_name(p) =~= preset_name(p).subrange(0, preset_name(p).len() as int));
    assert forall|q: Preset| #[trigger] preset_name(p).is_prefix_of(preset_name(q)) implies q == p by {
        lemma_names_apart(preset_name(p), p, q);
    }
}

/// Cycling goes through all the presets and comes back.
pub proof fn lemma_cycle(p: Preset)
    ensures
        preset_after(preset_after(preset_after(preset_after(preset_after(p))))) == p,
        forall|q: Preset| preset_after(p) == #[trigger] preset_after(q) ==> p == q,
{
}

} // verus!
