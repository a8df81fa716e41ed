//! Arranging a window: which pane is active, the order of the panes, and the
//! layout they stand in.
use vstd::arithmetic::div_mod::{lemma_mod_add_multiples_vanish, lemma_mod_self_0, lemma_small_mod};
use vstd::prelude::*;

use crate::command::Dir;
use crate::edit::swapped;
use crate::layout::{lemma_placed_panes, panes, placed, refitted, shape, PaneId, Rect, Tree};
use crate::layout_text::{layout_read, parse_layout};
use crate::neighbour::{is_neighbour, neighbour};
use crate::preset::{is_arranged, is_meant, preset_after, Preset};
use crate::resize::{assigned, lemma_assigned_panes, lemma_shapes_kept, lemma_swapped_panes, spread_tree};
use crate::text::{chars_of, decimal, joined2, joined3, number_text};
use crate::window::{ids, lemma_laid_out, rect_in, Window, WindowState};
use crate::window_edit::{lemma_nudged, lemma_same_panes};

verus! {

/// How `select-pane` names a pane.
#[derive(Clone, Copy, Debug, PartialEq, Eq, Structural)]
pub enum PaneSel {
    Dir(Dir),
    Next,
    Prev,
    Last,
    Index(usize),
    /// The pane that a target stands for.
    Target,
}

/// The place of `id` in `s` from `i` on; the end when it is not there.
pub open spec fn place_in(s: Seq<PaneId>, id: PaneId, i: int) -> int
    decreases s.len() - i,
{
    if i >= s.len() {
        s.len() as int
    } else if s[i] == id {
        i
    } else {
        place_in(s, id, i + 1)
    }
}

pub proof fn lemma_place_in(s: Seq<PaneId>, id: PaneId, i: int)
    requires
        0 <= i <= s.len(),
    ensures
        i <= place_in(s, id, i) <= s.len(),
        place_in(s, id, i) < s.len() ==> s[place_in(s, id, i)] == id,
        i == 0 ==> (place_in(s, id, i) < s.len() <==> s.contains(id)),
        forall|j: int| i <= j < place_in(s, id, i) ==> s[j] != id,
    decreases s.len() - i,
{
    if i < s.len() && s[i] != id {
        lemma_place_in(s, id, i + 1);
    }
}

pub fn position(s: &Vec<PaneId>, id: PaneId) -> (k: usize)
    ensures
        k == place_in(s@, id, 0),
        k <= s@.len(),
        k < s@.len() <==> s@.contains(id),
        k < s@.len() ==> s@[k as int] == id,
{
    let mut i: usize = 0;
    while i < s.len()
        invariant
            i <= s@.len(),
            place_in(s@, id, 0) == place_in(s@, id, i as int),
        decreases s.len() - i,
    {
        if s[i] == id {
            return i;
        }
        i = i + 1;
    }
    proof {
        lemma_place_in(s@, id, 0);
    }
    i
}

/// `i - base`, going round below zero.
pub open spec fn past(i: usize, base: usize) -> int {
    if i >= base {
        i - base
    } else {
        i - base + usize::MAX + 1
    }
}

/// `found` is the pane that `sel` names in window `w`.
pub open spec fn is_picked(
    w: WindowState,
    sel: PaneSel,
    named: PaneId,
    area: Rect,
    pane_base: usize,
    found: Option<PaneId>,
) -> bool {
    let order = panes(w.tree);
    let n = order.len() as int;
    let cur = place_in(order, w.active, 0);
    match sel {
        // Zoomed, the only rectangle is the zoomed pane itself, so
        // directions are answered from the layout.
        PaneSel::Dir(d) => is_neighbour(
            if w.zoomed {
                placed(w.tree, area)
            } else {
                w.rects
            },
            w.active,
            d,
            found,
        ),
        PaneSel::Next => found == Some(order[(cur + 1) % n]),
        PaneSel::Prev => found == Some(order[(cur + n - 1) % n]),
        PaneSel::Last => found == if w.last_pane is Some && w.has(w.last_pane->0) {
            w.last_pane
        } else {
            None
        },
        PaneSel::Index(i) => found == if past(i, pane_base) < n {
            Some(order[past(i, pane_base)])
        } else {
            None
        },
        PaneSel::Target => found == Some(named),
    }
}

impl WindowState {
    /// The layout as looking for a pane in direction `sel` leaves it: a
    /// zoomed window's is fitted to the area.
    pub open spec fn looked_over(self, sel: PaneSel, area: Rect) -> WindowState {
        if sel is Dir && self.zoomed {
            WindowState { tree: refitted(self.tree, area), ..self }
        } else {
            self
        }
    }

    /// Pane `id` selected: the zoom moves to it or goes.
    pub open spec fn selected(self, id: PaneId, keep_zoom: bool) -> WindowState {
        WindowState { zoomed: self.zoomed && keep_zoom, ..self.focused(id) }
    }

    /// The panes moved one place on, the last to the front, or one place
    /// back.
    pub open spec fn rotated(self, down: bool) -> WindowState {
        let order = panes(self.tree);
        if order.len() < 2 {
            self
        } else {
            WindowState { tree: assigned(self.tree, turned(order, down)), zoomed: false, ..self }
        }
    }

    /// Pane `id` and the pane before or after it in each other's place.
    pub open spec fn exchanged(self, id: PaneId, up: bool) -> WindowState {
        let order = panes(self.tree);
        let n = order.len() as int;
        let cur = place_in(order, id, 0);
        if n < 2 {
            self
        } else {
            WindowState {
                tree: swapped(
                    self.tree,
                    id,
                    order[if up {
                        (cur + n - 1) % n
                    } else {
                        (cur + 1) % n
                    }],
                ),
                ..self
            }
        }
    }
}

/// A row one place on (the last comes first) or one place back.
pub open spec fn turned(s: Seq<PaneId>, down: bool) -> Seq<PaneId> {
    if down {
        seq![s.last()] + s.drop_last()
    } else {
        s.skip(1).push(s[0])
    }
}

proof fn lemma_turned(s: Seq<PaneId>, down: bool)
    requires
        s.len() >= 1,
        s.no_duplicates(),
    ensures
        turned(s, down).len() == s.len(),
        turned(s, down).no_duplicates(),
        forall|id: PaneId| #[trigger] turned(s, down).contains(id) <==> s.contains(id),
{
    let t = turned(s, down);
    let n = s.len() as int;
    assert forall|id: PaneId| #[trigger] t.contains(id) <==> s.contains(id) by {
        if t.contains(id) {
            let i = choose|i: int| 0 <= i < t.len() && t[i] == id;
            let from = if down {
                if i == 0 {
                    n - 1
                } else {
                    i - 1
                }
            } else if i == n - 1 {
                0
            } else {
                i + 1
            };
            assert(s[from] == id);
        }
        if s.contains(id) {
            let i = choose|i: int| 0 <= i < s.len() && s[i] == id;
            let to = if down {
                if i == n - 1 {
                    0
                } else {
                    i + 1
                }
            } else if i == 0 {
                n - 1
            } else {
                i - 1
            };
            assert(t[to] == id);
        }
    }
}

/// Turning one way and then the other brings a row back.
pub proof fn lemma_turned_back(s: Seq<PaneId>, down: bool)
    requires
        s.len() >= 1,
    ensures
        turned(turned(s, down), !down) == s,
{
    assert(turned(turned(s, down), !down) =~= s);
}

/// Swapping two panes of a layout keeps its panes.
pub proof fn lemma_swapped_same(t: Tree, a: PaneId, b: PaneId)
    requires
        shape(t),
        panes(t).no_duplicates(),
        panes(t).contains(a),
        panes(t).contains(b),
    ensures
        shape(swapped(t, a, b)),
        panes(swapped(t, a, b)).len() == panes(t).len(),
        panes(swapped(t, a, b)).no_duplicates(),
        forall|id: PaneId| #[trigger] panes(swapped(t, a, b)).contains(id) <==> panes(t).contains(id),
{
    lemma_shapes_kept(t, a, b, Seq::empty(), true, true, 0);
    lemma_swapped_panes(t, a, b);
    let s = panes(t);
    let after = panes(swapped(t, a, b));
    let i = choose|i: int| 0 <= i < s.len() && s[i] == a;
    let j = choose|j: int| 0 <= j < s.len() && s[j] == b;
    assert(after[i] == b && after[j] == a);
    assert forall|id: PaneId| #[trigger] after.contains(id) <==> s.contains(id) by {
        if s.contains(id) {
            let k = choose|k: int| 0 <= k < s.len() && s[k] == id;
            assert(after[k] == id || id == a || id == b);
        }
        if after.contains(id) {
            let k = choose|k: int| 0 <= k < after.len() && after[k] == id;
            assert(s[k] == id || id == a || id == b);
        }
    }
    assert forall|x: int, y: int| 0 <= x < y < after.len() implies after[x] != after[y] by {
        assert(s[x] != s[y]);
    }
}

/// A pane that changes places with the one before or after it is where that
/// was, that is where it was, and no other moves. The first has the last
/// before it, and the last the first after it.
pub proof fn lemma_exchanged_places(w: WindowState, id: PaneId, up: bool)
    requires
        w.wf(),
        w.has(id),
    ensures
        ({
            let (was, is) = (panes(w.tree), panes(w.exchanged(id, up).tree));
            let n = was.len() as int;
            &&& is.len() == n
            &&& forall|k: int|
                0 <= k < n && #[trigger] was[k] == id ==> {
                    let o = if up {
                        if k == 0 {
                            n - 1
                        } else {
                            k - 1
                        }
                    } else if k == n - 1 {
                        0
                    } else {
                        k + 1
                    };
                    &&& is[o] == id
                    &&& is[k] == was[o]
                    &&& forall|x: int| 0 <= x < n && x != k && x != o ==> #[trigger] is[x] == was[x]
                }
        }),
{
    let was = panes(w.tree);
    let n = was.len() as int;
    let cur = place_in(was, id, 0);
    assert(was.contains(id));
    lemma_place_in(was, id, 0);
    if n >= 2 {
        let o = if up {
            (cur + n - 1) % n
        } else {
            (cur + 1) % n
        };
        lemma_small_mod((n - 1) as nat, n as nat);
        if up && cur > 0 {
            lemma_mod_add_multiples_vanish(cur - 1, n);
            lemma_small_mod((cur - 1) as nat, n as nat);
        }
        if !up && cur < n - 1 {
            lemma_small_mod((cur + 1) as nat, n as nat);
        }
        if !up && cur == n - 1 {
            lemma_mod_self_0(n);
        }
        assert(o == if up {
            if cur == 0 {
                n - 1
            } else {
                cur - 1
            }
        } else if cur == n - 1 {
            0
        } else {
            cur + 1
        });
        lemma_swapped_panes(w.tree, id, was[o]);
    }
}

/// Putting the same panes in, in another order, keeps a layout's panes.
pub proof fn lemma_assigned_same(t: Tree, order: Seq<PaneId>)
    requires
        shape(t),
        order.len() == panes(t).len(),
    ensures
        shape(assigned(t, order)),
        panes(assigned(t, order)) == order,
{
    lemma_shapes_kept(t, 0, 0, order, true, true, 0);
    lemma_assigned_panes(t, order);
    assert(panes(assigned(t, order)) =~= order);
}

/// Turning the panes of a window downwards puts each where the next one was
/// and the last one first; upwards each where the one before it was and the
/// first one last. The same pane stays the active one.
pub proof fn lemma_rotated(w: WindowState, down: bool)
    requires
        shape(w.tree),
        panes(w.tree).len() >= 2,
    ensures
        ({
            let (was, is) = (panes(w.tree), panes(w.rotated(down).tree));
            let n = was.len() as int;
            &&& is.len() == n
            &&& down ==> is[0] == was[n - 1] && forall|i: int| 0 <= i < n - 1 ==> is[i + 1] == #[trigger] was[i]
            &&& !down ==> is[n - 1] == was[0] && forall|i: int| 0 <= i < n - 1 ==> #[trigger] is[i] == was[i + 1]
        }),
        w.rotated(down).active == w.active,
        w.rotated(down).panes == w.panes,
        !w.rotated(down).zoomed,
{
    lemma_assigned_same(w.tree, turned(panes(w.tree), down));
}

impl Window {
    /// The pane that `sel` names.
    fn pick(&mut self, sel: PaneSel, named: PaneId, area: Rect, pane_base: usize) -> (found: Option<PaneId>)
        requires
            old(self)@.settled(),
            old(self)@.has(named),
            area.fits(),
        ensures
            is_picked(old(self)@, sel, named, area, pane_base, found),
            final(self)@ == old(self)@.looked_over(sel, area),
            final(self)@.settled(),
            found is Some ==> final(self)@.has(found->0),
    {
        let ghost before = self@;
        let order = self.layout.panes();
        let n: usize = order.len();
        let cur: usize = position(&order, self.active);
        assert(panes(before.tree).contains(before.active));
        proof {
            assert forall|i: int| 0 <= i < n implies before.has(#[trigger] order@[i]) by {
                assert(panes(before.tree).contains(order@[i]));
            }
        }
        match sel {
            PaneSel::Dir(d) => {
                if self.zoomed {
                    let mut rects: Vec<(PaneId, Rect)> = Vec::new();
                    self.layout.layout(area, &mut rects);
                    proof {
                        assert(rects@ =~= placed(before.tree, area));
                        lemma_placed_panes(before.tree, area);
                        crate::layout::lemma_refitted(before.tree, area);
                        lemma_same_panes(before, self@);
                        assert(self@ =~= before.looked_over(sel, area));
                        assert forall|i: int| 0 <= i < rects@.len() implies before.has(#[trigger] rects@[i].0) by {
                            assert(order@[i] == rects@[i].0);
                        }
                    }
                    neighbour(rects.as_slice(), self.active, d)
                } else {
                    neighbour(self.rects.as_slice(), self.active, d)
                }
            },
            PaneSel::Next => Some(order[(cur + 1) % n]),
            PaneSel::Prev => Some(order[(cur + n - 1) % n]),
            PaneSel::Last => match self.last_pane {
                Some(l) => if self.has(l) {
                    Some(l)
                } else {
                    None
                },
                None => None,
            },
            PaneSel::Index(i) => {
                let k: usize = i.wrapping_sub(pane_base);
                if k < n {
                    Some(order[k])
                } else {
                    None
                }
            },
            PaneSel::Target => Some(named),
        }
    }

    /// Make the pane that `sel` names the active one. Nothing when it names
    /// none; otherwise whether the active pane changed.
    pub fn select_pane(
        &mut self,
        sel: PaneSel,
        named: PaneId,
        area: Rect,
        pane_base: usize,
        keep_zoom: bool,
    ) -> (moved: Option<bool>)
        requires
            old(self)@.settled(),
            old(self)@.has(named),
            area.fits(),
        ensures
            final(self)@.settled(),
            exists|found: Option<PaneId>| #[trigger]
                is_picked(old(self)@, sel, named, area, pane_base, found) && match found {
                    None => moved is None && final(self)@ == old(self)@.looked_over(sel, area),
                    Some(id) => if id == old(self)@.active {
                        moved == Some(false) && final(self)@ == old(self)@.looked_over(sel, area)
                    } else {
                        moved == Some(true) && final(self)@ == old(self)@.looked_over(sel, area).selected(id, keep_zoom)
                    },
                },
    {
        let ghost before = self@;
        let found = self.pick(sel, named, area, pane_base);
        assert(is_picked(before, sel, named, area, pane_base, found));
        match found {
            None => None,
            Some(id) => {
                if id == self.active {
                    return Some(false);
                }
                self.focus(id);
                if self.zoomed {
                    self.zoomed = keep_zoom;
                }
                Some(true)
            },
        }
    }

    /// `rotate-window`: the panes move one place, the layout stays.
    pub fn rotate(&mut self, down: bool) -> (done: bool)
        requires
            old(self)@.wf(),
        ensures
            final(self)@ == old(self)@.rotated(down),
            final(self)@.wf(),
            done == (panes(old(self)@.tree).len() >= 2),
            panes(final(self)@.tree) == if done {
                turned(panes(old(self)@.tree), down)
            } else {
                panes(old(self)@.tree)
            },
            // Down: every pane is where the next one was, the last is first.
            done && down ==> {
                let (was, is) = (panes(old(self)@.tree), panes(final(self)@.tree));
                &&& is.len() == was.len()
                &&& is[0] == was[was.len() - 1]
                &&& forall|i: int| 0 <= i < was.len() - 1 ==> is[i + 1] == #[trigger] was[i]
            },
            // Up: every pane is where the one before was, the first is last.
            done && !down ==> {
                let (was, is) = (panes(old(self)@.tree), panes(final(self)@.tree));
                &&& is.len() == was.len()
                &&& is[was.len() - 1] == was[0]
                &&& forall|i: int| 0 <= i < was.len() - 1 ==> #[trigger] is[i] == was[i + 1]
            },
            done ==> !final(self)@.zoomed && final(self)@.active == old(self)@.active,
    {
        let ghost before = self@;
        let mut order = self.layout.panes();
        let ghost was = order@;
        if order.len() < 2 {
            return false;
        }
        if down {
            let n: usize = order.len();
            let last = order.remove(n - 1);
            order.insert(0, last);
        } else {
            let first = order.remove(0);
            order.push(first);
        }
        proof {
            assert(order@ =~= turned(was, down));
            lemma_turned(was, down);
            lemma_assigned_same(before.tree, order@);
        }
        self.layout.set_panes(order.as_slice());
        self.zoomed = false;
        proof {
            lemma_same_panes(before, self@);
            assert(self@ =~= before.rotated(down));
        }
        true
    }

    /// `swap-pane -U` / `-D`: a pane changes places with the one before or
    /// after it.
    pub fn exchange(&mut self, id: PaneId, up: bool) -> (done: bool)
        requires
            old(self)@.wf(),
            old(self)@.has(id),
        ensures
            final(self)@ == old(self)@.exchanged(id, up),
            final(self)@.wf(),
            done == (panes(old(self)@.tree).len() >= 2),
            // It is where the other was and the other where it was; the
            // first has the last before it, and the last the first after it.
            ({
                let (was, is) = (panes(old(self)@.tree), panes(final(self)@.tree));
                let n = was.len() as int;
                &&& is.len() == n
                &&& forall|k: int|
                    0 <= k < n && #[trigger] was[k] == id ==> {
                        let o = if up {
                            if k == 0 {
                                n - 1
                            } else {
                                k - 1
                            }
                        } else if k == n - 1 {
                            0
                        } else {
                            k + 1
                        };
                        &&& is[o] == id
                        &&& is[k] == was[o]
                        &&& forall|x: int| 0 <= x < n && x != k && x != o ==> #[trigger] is[x] == was[x]
                    }
            }),
    {
        let ghost before = self@;
        let order = self.layout.panes();
        let n: usize = order.len();
        if n < 2 {
            return false;
        }
        assert(panes(before.tree).contains(id));
        let cur: usize = position(&order, id);
        let k: usize = if up { (cur + n - 1) % n } else { (cur + 1) % n };
        let other: PaneId = order[k];
        proof {
            assert(panes(before.tree).contains(other));
            lemma_swapped_same(before.tree, id, other);
        }
        self.layout.swap(id, other);
        proof {
            lemma_same_panes(before, self@);
            assert(self@ =~= before.exchanged(id, up));
            lemma_exchanged_places(before, id, up);
        }
        true
    }

    /// `swap-pane` with two panes of the window named.
    pub fn swap_panes(&mut self, a: PaneId, b: PaneId)
        requires
            old(self)@.wf(),
            old(self)@.has(a),
            old(self)@.has(b),
        ensures
            final(self)@ == (WindowState { tree: swapped(old(self)@.tree, a, b), ..old(self)@ }),
            final(self)@.wf(),
            ({
                let (was, is) = (panes(old(self)@.tree), panes(final(self)@.tree));
                &&& is.len() == was.len()
                &&& forall|k: int|
                    0 <= k < was.len() ==> #[trigger] is[k] == if was[k] == a {
                        b
                    } else if was[k] == b {
                        a
                    } else {
                        was[k]
                    }
            }),
    {
        let ghost before = self@;
        proof {
            lemma_swapped_panes(before.tree, a, b);
            assert(panes(before.tree).contains(a) && panes(before.tree).contains(b));
            lemma_swapped_same(before.tree, a, b);
        }
        self.layout.swap(a, b);
        proof {
            lemma_same_panes(before, self@);
        }
    }
}

/// Both an `x` and a comma stand in `name`: it may be a layout written out.
pub open spec fn looks_written(name: Seq<char>) -> bool {
    name.contains('x') && name.contains(',')
}

/// The names of the presets, as a fault lists them.
pub open spec fn preset_names() -> Seq<char> {
    "even-horizontal, even-vertical, main-horizontal, main-vertical, tiled"@
}

/// The preset that `select-layout` goes to without a name: the one after or
/// before the last, and the first when there was none.
pub open spec fn preset_beside(current: Option<Preset>, next: bool) -> Preset {
    match current {
        Some(p) => if next {
            preset_after(p)
        } else {
            preset_before(p)
        },
        None => Preset::EvenHorizontal,
    }
}

/// The preset that `p` comes after.
pub open spec fn preset_before(p: Preset) -> Preset {
    match p {
        Preset::EvenHorizontal => Preset::Tiled,
        Preset::EvenVertical => Preset::EvenHorizontal,
        Preset::MainHorizontal => Preset::EvenVertical,
        Preset::MainVertical => Preset::MainHorizontal,
        Preset::Tiled => Preset::MainVertical,
    }
}

/// `after` is window `w` in preset `p`.
pub open spec fn in_preset(w: WindowState, after: WindowState, p: Preset) -> bool {
    &&& after == (WindowState { tree: after.tree, preset: Some(p), zoomed: false, ..w })
    &&& panes(w.tree).len() == 1 ==> after.tree == Tree::Leaf(panes(w.tree)[0])
    &&& panes(w.tree).len() > 1 ==> is_arranged(p, panes(w.tree), after.tree)
}

/// What `select-layout` makes of window `w` and answers: the preset applied,
/// nothing for another layout, or what is wrong.
#[verifier::opaque]
pub open spec fn is_laid_by(
    w: WindowState,
    after: WindowState,
    id: PaneId,
    name: Option<Seq<char>>,
    next: bool,
    spread: bool,
    r: Result<Option<Preset>, Seq<char>>,
) -> bool {
    if spread && name is None {
        match spread_tree(w.tree, id) {
            Some(t) => r == Ok::<Option<Preset>, Seq<char>>(None) && after == (WindowState {
                tree: t,
                zoomed: false,
                ..w
            }),
            None => r == Err::<Option<Preset>, Seq<char>>("pane has no panes beside it"@) && after == w,
        }
    } else if name is None {
        r == Ok::<Option<Preset>, Seq<char>>(Some(preset_beside(w.preset, next))) && in_preset(
            w,
            after,
            preset_beside(w.preset, next),
        )
    } else {
        let n = name->0;
        &&& r is Ok && r->Ok_0 is Some ==> is_meant(n, r->Ok_0) && in_preset(w, after, r->Ok_0->0)
        &&& !(r is Ok && r->Ok_0 is Some) ==> is_meant(n, None) && if looks_written(n) {
            match layout_read(n) {
                Err(e) => r == Err::<Option<Preset>, Seq<char>>("select-layout: "@ + e) && after == w,
                Ok(t) => if panes(t).len() != w.panes.len() {
                    r == Err::<Option<Preset>, Seq<char>>(
                        "select-layout: the layout has "@ + decimal(panes(t).len()) + " panes, the window "@ + decimal(
                            w.panes.len(),
                        ),
                    ) && after == w
                } else {
                    r == Ok::<Option<Preset>, Seq<char>>(None) && after == (WindowState {
                        tree: assigned(t, panes(w.tree)),
                        preset: None,
                        zoomed: false,
                        ..w
                    })
                },
            }
        } else {
            r == Err::<Option<Preset>, Seq<char>>(
                "unknown layout: "@ + n + " (one of "@ + preset_names() + ")"@,
            ) && after == w
        }
    }
}

/// A result with its fault as text.
pub open spec fn told<T>(r: Result<T, String>) -> Result<T, Seq<char>> {
    match r {
        Ok(v) => Ok(v),
        Err(e) => Err(e@),
    }
}

fn has_char(s: &Vec<char>, c: char) -> (b: bool)
    ensures
        b == s@.contains(c),
{
    let mut i: usize = 0;
    while i < s.len()
        invariant
            i <= s@.len(),
            forall|j: int| 0 <= j < i ==> s@[j] != c,
        decreases s.len() - i,
    {
        if s[i] == c {
            assert(s@[i as int] == c);
            return true;
        }
        i = i + 1;
    }
    false
}

impl Window {
    /// Put the panes into a preset's layout.
    pub fn apply_preset(&mut self, p: Preset)
        requires
            old(self)@.wf(),
        ensures
            in_preset(old(self)@, final(self)@, p),
            final(self)@.wf(),
    {
        let ghost before = self@;
        let order = self.layout.panes();
        if let Some(tree) = p.build(order.as_slice()) {
            self.layout = tree;
            self.layout_preset = Some(p);
            self.zoomed = false;
            proof {
                lemma_same_panes(before, self@);
            }
        } else {
            proof {
                assert(ids(before.panes).contains(before.active));
            }
        }
    }

    /// `select-layout`: `-E` evens out the panes next to pane `id`; a name is
    /// a preset's or a layout written out, which must hold as many cells as
    /// the window has panes; without one the presets go round.
    pub fn select_layout(&mut self, id: PaneId, name: Option<&str>, next: bool, spread: bool) -> (r: Result<
        Option<Preset>,
        String,
    >)
        requires
            old(self)@.wf(),
        ensures
            is_laid_by(
                old(self)@,
                final(self)@,
                id,
                match name {
                    Some(n) => Some(n@),
                    None => None,
                },
                next,
                spread,
                told(r),
            ),
            final(self)@.wf(),
            final(self)@.panes == old(self)@.panes,
            final(self)@.id == old(self)@.id,
            r is Err ==> final(self)@ == old(self)@,
    {
        let ghost before = self@;
        proof {
            reveal(is_laid_by);
        }
        match name {
            None => {
                if spread {
                    proof {
                        lemma_shapes_kept(before.tree, id, id, Seq::empty(), true, true, 0);
                    }
                    if !self.layout.spread(id) {
                        assert(self@ =~= before);
                        return Err("pane has no panes beside it".to_owned());
                    }
                    self.zoomed = false;
                    proof {
                        lemma_same_panes(before, self@);
                    }
                    return Ok(None);
                }
                let p: Preset = match self.layout_preset {
                    Some(p) => if next {
                        p.next()
                    } else {
                        p.prev()
                    },
                    None => Preset::EvenHorizontal,
                };
                assert(p == preset_beside(before.preset, next));
                self.apply_preset(p);
                Ok(Some(p))
            },
            Some(n) => {
                if let Some(p) = Preset::parse(n) {
                    self.apply_preset(p);
                    return Ok(Some(p));
                }
                let word = chars_of(n);
                if has_char(&word, 'x') && has_char(&word, ',') {
                    return self.apply_written(n);
                }
                let mut e = joined3("unknown layout: ", n, " (one of ");
                e.push_str("even-horizontal, even-vertical, main-horizontal, main-vertical, tiled");
                e.push_str(")");
                Err(e)
            },
        }
    }

    fn apply_written(&mut self, n: &str) -> (r: Result<Option<Preset>, String>)
        requires
            old(self)@.wf(),
        ensures
            match layout_read(n@) {
                Err(e) => told(r) == Err::<Option<Preset>, Seq<char>>("select-layout: "@ + e) && final(self)@ == old(
                    self,
                )@,
                Ok(t) => if panes(t).len() != old(self)@.panes.len() {
                    told(r) == Err::<Option<Preset>, Seq<char>>(
                        "select-layout: the layout has "@ + decimal(panes(t).len()) + " panes, the window "@ + decimal(
                            old(self)@.panes.len(),
                        ),
                    ) && final(self)@ == old(self)@
                } else {
                    told(r) == Ok::<Option<Preset>, Seq<char>>(None) && final(self)@ == (WindowState {
                        tree: assigned(t, panes(old(self)@.tree)),
                        preset: None,
                        zoomed: false,
                        ..old(self)@
                    })
                },
            },
            final(self)@.wf(),
    {
        let ghost before = self@;
        match parse_layout(n) {
            Err(e) => Err(joined2("select-layout: ", e.as_str())),
            Ok(tree) => {
                let mut tree = tree;
                let order = self.layout.panes();
                let cells: usize = tree.panes().len();
                if cells != order.len() {
                    let mut e = joined3(
                        "select-layout: the layout has ",
                        number_text(cells as u64).as_str(),
                        " panes, the window ",
                    );
                    e.push_str(number_text(order.len() as u64).as_str());
                    return Err(e);
                }
                proof {
                    lemma_assigned_same(tree@, order@);
                }
                tree.set_panes(order.as_slice());
                self.layout = tree;
                self.layout_preset = None;
                self.zoomed = false;
                proof {
                    lemma_same_panes(before, self@);
                }
                Ok(None)
            },
        }
    }
}

/// How far `a` is from `b`.
pub open spec fn apart_by(a: int, b: int) -> int {
    if a > b {
        a - b
    } else {
        b - a
    }
}

/// The direction in which an edge moves to make a pane longer or shorter.
pub open spec fn edge_dir(horizontal: bool, grow: bool) -> Dir {
    if horizontal {
        if grow {
            Dir::Right
        } else {
            Dir::Left
        }
    } else if grow {
        Dir::Down
    } else {
        Dir::Up
    }
}

/// The length of pane `id` on the screen.
pub open spec fn length_of(w: WindowState, id: PaneId, horizontal: bool) -> Option<int> {
    match rect_in(w.rects, id, 0) {
        Some(r) => Some(r.extent(horizontal)),
        None => None,
    }
}

impl WindowState {
    /// An edge of pane `id` moved one cell at a time, up to `n` times, until
    /// the pane is `want` cells long. Moving an edge right or down grows a
    /// pane, except for the last pane of a split, whose edge is its leading
    /// one: a step that moves away from the length wanted is taken back and
    /// the rest are made the other way round (`flipped`), as they are when
    /// nothing moved; when nothing moves that way either, that is the end.
    pub open spec fn stretched(
        self,
        area: Rect,
        border: Option<bool>,
        id: PaneId,
        horizontal: bool,
        want: int,
        flipped: bool,
        n: nat,
    ) -> WindowState
        decreases n,
    {
        if n == 0 {
            self
        } else {
            let a = self.laid_out(area, border);
            match length_of(a, id, horizontal) {
                None => a,
                Some(was) => if was == want {
                    a
                } else {
                    let b = a.nudged(id, edge_dir(horizontal, (was < want) != flipped), 1).laid_out(area, border);
                    let is = match length_of(b, id, horizontal) {
                        Some(l) => l,
                        None => was,
                    };
                    if !flipped && apart_by(is, want) > apart_by(was, want) {
                        b.nudged(id, edge_dir(horizontal, (was < want) == flipped), 1).stretched(
                            area,
                            border,
                            id,
                            horizontal,
                            want,
                            true,
                            (n - 1) as nat,
                        )
                    } else if is == was {
                        if flipped {
                            b
                        } else {
                            b.stretched(area, border, id, horizontal, want, true, (n - 1) as nat)
                        }
                    } else {
                        b.stretched(area, border, id, horizontal, want, flipped, (n - 1) as nat)
                    }
                },
            }
        }
    }
}

/// Moving an edge of a settled window leaves it settled.
pub proof fn lemma_nudged_settled(w: WindowState, id: PaneId, dir: Dir, amount: u16)
    requires
        w.settled(),
    ensures
        w.nudged(id, dir, amount).settled(),
{
    lemma_nudged(w, id, dir, amount);
    let after = w.nudged(id, dir, amount);
    assert forall|i: int| 0 <= i < after.rects.len() implies after.has((#[trigger] after.rects[i]).0) by {
        assert(w.has(w.rects[i].0));
    }
    assert forall|i: int| 0 <= i < after.cells.len() implies after.has((#[trigger] after.cells[i]).0) by {
        assert(w.has(w.cells[i].0));
    }
}

/// A window that is stretched stays that window.
pub proof fn lemma_stretched_id(
    w: WindowState,
    area: Rect,
    border: Option<bool>,
    id: PaneId,
    horizontal: bool,
    want: int,
    flipped: bool,
    n: nat,
)
    ensures
        w.stretched(area, border, id, horizontal, want, flipped, n).id == w.id,
    decreases n,
{
    if n > 0 {
        let a = w.laid_out(area, border);
        if let Some(was) = length_of(a, id, horizontal) {
            let b = a.nudged(id, edge_dir(horizontal, (was < want) != flipped), 1).laid_out(area, border);
            let c = b.nudged(id, edge_dir(horizontal, (was < want) == flipped), 1);
            lemma_stretched_id(b, area, border, id, horizontal, want, true, (n - 1) as nat);
            lemma_stretched_id(b, area, border, id, horizontal, want, flipped, (n - 1) as nat);
            lemma_stretched_id(c, area, border, id, horizontal, want, true, (n - 1) as nat);
        }
    }
}

fn edge_way(horizontal: bool, grow: bool) -> (d: Dir)
    ensures
        d == edge_dir(horizontal, grow),
{
    if horizontal {
        if grow {
            Dir::Right
        } else {
            Dir::Left
        }
    } else if grow {
        Dir::Down
    } else {
        Dir::Up
    }
}

fn distance(a: u16, b: u16) -> (d: u16)
    ensures
        d == apart_by(a as int, b as int),
{
    if a > b {
        a - b
    } else {
        b - a
    }
}

impl Window {
    fn length(&self, id: PaneId, horizontal: bool) -> (l: Option<u16>)
        ensures
            match l {
                Some(n) => length_of(self@, id, horizontal) == Some(n as int),
                None => length_of(self@, id, horizontal) is None,
            },
    {
        match self.rect_of(id) {
            Some(r) => Some(if horizontal { r.w } else { r.h }),
            None => None,
        }
    }

    /// `resize-pane -x` / `-y`: grow or shrink until the pane has that size,
    /// in at most `full` steps.
    pub fn stretch(&mut self, area: Rect, border: Option<bool>, id: PaneId, horizontal: bool, want: u16, full: u16)
        requires
            old(self)@.settled(),
            area.fits(),
        ensures
            final(self)@ == old(self)@.stretched(area, border, id, horizontal, want as int, false, full as nat),
            final(self)@.settled(),
            ids(final(self)@.panes) == ids(old(self)@.panes),
    {
        let ghost goal = self@.stretched(area, border, id, horizontal, want as int, false, full as nat);
        let ghost start = ids(self@.panes);
        let mut flipped: bool = false;
        let mut left: u16 = full;
        while left > 0
            invariant_except_break
                goal == self@.stretched(area, border, id, horizontal, want as int, flipped, left as nat),
            invariant
                self@.settled(),
                area.fits(),
                ids(self@.panes) == start,
            ensures
                self@ == goal,
            decreases left,
        {
            let ghost w = self@;
            proof {
                lemma_laid_out(w, area, border);
            }
            self.relayout(area, border);
            let was: u16 = match self.length(id, horizontal) {
                Some(l) => l,
                None => {
                    break;
                },
            };
            if was == want {
                break;
            }
            proof {
                let d = edge_dir(horizontal, (was < want) != flipped);
                lemma_nudged(self@, id, d, 1);
                lemma_laid_out(self@.nudged(id, d, 1), area, border);
            }
            self.nudge(id, edge_way(horizontal, (was < want) != flipped), 1);
            self.relayout(area, border);
            let is: u16 = match self.length(id, horizontal) {
                Some(l) => l,
                None => was,
            };
            if !flipped && distance(is, want) > distance(was, want) {
                proof {
                    lemma_nudged_settled(self@, id, edge_dir(horizontal, (was < want) == flipped), 1);
                }
                self.nudge(id, edge_way(horizontal, (was < want) == flipped), 1);
                flipped = true;
            } else if is == was {
                if flipped {
                    break;
                }
                flipped = true;
            }
            left = left - 1;
        }
    }
}

} // verus!
