//! Changing a window: panes that come, go, change places and sizes.
use vstd::prelude::*;

use crate::chooser::WindowId;
use crate::command::Dir;
use crate::edit::{lemma_others, lemma_removed_panes, lemma_removed_shape, lemma_split_panes, lemma_split_root_panes, others, removed, split_root_tree, split_tree};
use crate::layout::{panes, shape, Node, PaneId, Rect, Tree};
use crate::pane::Pane;
use crate::resize::{lemma_shapes_kept, resized};
use crate::window::{ids, lemma_place_of, place_of, Window, WindowState};

verus! {

impl WindowState {
    /// Without pane `id`, before another takes its role.
    pub open spec fn without(self, id: PaneId) -> WindowState {
        WindowState {
            tree: removed(self.tree, id),
            panes: self.panes.remove(place_of(self.panes, id, 0)),
            ..self
        }
    }

    /// The pane that is active once `id` is gone: the same, unless it was
    /// `id`; then the first of the layout.
    pub open spec fn heir(self, id: PaneId) -> PaneId {
        if self.active == id {
            panes(removed(self.tree, id))[0]
        } else {
            self.active
        }
    }

    /// Without pane `id`, which has ended: the pane active before takes over
    /// when there is one, and a zoomed pane that goes ends the zoom.
    pub open spec fn closed(self, id: PaneId) -> WindowState {
        let back = self.active == id && self.last_pane is Some && self.last_pane != Some(id) && self.has(
            self.last_pane->0,
        );
        WindowState {
            active: if back {
                self.last_pane->0
            } else {
                self.heir(id)
            },
            zoomed: self.zoomed && self.active != id,
            last_pane: if self.last_pane == Some(id) {
                None
            } else {
                self.last_pane
            },
            ..self.without(id)
        }
    }

    /// Without pane `id`, which moves to another window.
    pub open spec fn given(self, id: PaneId) -> WindowState {
        WindowState {
            active: self.heir(id),
            zoomed: false,
            preset: None,
            last_pane: if self.last_pane == Some(id) {
                None
            } else {
                self.last_pane
            },
            ..self.without(id)
        }
    }

    /// Without pane `id`, which becomes a window of its own.
    pub open spec fn broken(self, id: PaneId) -> WindowState {
        WindowState { active: self.heir(id), zoomed: false, last_pane: None, ..self.without(id) }
    }

    /// With `p` beside pane `target`, which was `extent` cells long.
    pub open spec fn joined(self, target: PaneId, horizontal: bool, p: Pane, extent: int, before: bool) -> WindowState {
        WindowState {
            tree: split_tree(self.tree, target, horizontal, p.id, extent, before),
            panes: self.panes.push(p),
            ..self
        }
    }

    /// With `p` along one whole side of the window, `extent` cells long.
    pub open spec fn bounded_by(self, horizontal: bool, p: Pane, extent: int, before: bool) -> WindowState {
        WindowState {
            tree: split_root_tree(self.tree, horizontal, p.id, extent, before),
            panes: self.panes.push(p),
            ..self
        }
    }

    /// With pane `id` the active one.
    pub open spec fn focused(self, id: PaneId) -> WindowState {
        WindowState { last_pane: Some(self.active), active: id, ..self }
    }

    /// With an edge of pane `id` moved, as far as one can move.
    pub open spec fn nudged(self, id: PaneId, dir: Dir, amount: u16) -> WindowState {
        WindowState {
            tree: match resized(
                self.tree,
                id,
                dir is Left || dir is Right,
                dir is Right || dir is Down,
                amount as int,
            ) {
                Some(t) => t,
                None => self.tree,
            },
            ..self
        }
    }
}

/// A window around one pane.
pub open spec fn fresh(id: WindowId, name: Seq<char>, p: Pane, now: u64) -> WindowState {
    WindowState {
        id,
        name,
        tree: Tree::Leaf(p.id),
        panes: seq![p],
        active: p.id,
        last_pane: None,
        zoomed: false,
        preset: None,
        synchronized: false,
        rects: Seq::empty(),
        cells: Seq::empty(),
        activity: false,
        bell: false,
        silence: false,
        last_output: now,
    }
}

pub proof fn lemma_fresh(id: WindowId, name: Seq<char>, p: Pane, now: u64)
    ensures
        fresh(id, name, p, now).settled(),
        ids(fresh(id, name, p, now).panes) == seq![p.id],
        forall|q: PaneId| #[trigger] fresh(id, name, p, now).has(q) <==> q == p.id,
{
    let w = fresh(id, name, p, now);
    assert(ids(w.panes) =~= seq![p.id]);
    assert(panes(w.tree) =~= seq![p.id]);
    assert(seq![p.id][0] == p.id);
    assert(shape(w.tree));
}

/// Taking a pane out of a window takes that pane, and no other.
pub proof fn lemma_without(w: WindowState, id: PaneId)
    requires
        w.tidy(),
        w.has(id),
        w.panes.len() > 1,
    ensures
        w.without(id).tidy(),
        forall|p: PaneId| #[trigger] w.without(id).has(p) <==> w.has(p) && p != id,
        forall|p: PaneId| #[trigger] w.closed(id).has(p) <==> w.has(p) && p != id,
        forall|p: PaneId| #[trigger] w.given(id).has(p) <==> w.has(p) && p != id,
        forall|p: PaneId| #[trigger] w.broken(id).has(p) <==> w.has(p) && p != id,
        ids(w.without(id).panes) == ids(w.panes).remove(place_of(w.panes, id, 0)),
        panes(w.without(id).tree) == others(panes(w.tree), id),
        panes(w.without(id).tree).len() >= 1,
        w.without(id).has(panes(w.without(id).tree)[0]),
        w.closed(id).tidy() && w.given(id).tidy() && w.broken(id).tidy(),
        w.wf() ==> w.closed(id).wf() && w.given(id).wf() && w.broken(id).wf(),
{
    let k = place_of(w.panes, id, 0);
    lemma_place_of(w.panes, id, 0);
    lemma_removed_shape(w.tree, id);
    lemma_removed_panes(w.tree, id);
    let order = panes(w.tree);
    lemma_others(order, id);
    let all = ids(w.panes);
    let after = w.without(id);
    assert(ids(after.panes) =~= all.remove(k));
    assert(order.contains(id));
    assert forall|p: PaneId| #[trigger] ids(after.panes).contains(p) <==> all.contains(p) && p != id by {
        if ids(after.panes).contains(p) {
            let j = choose|j: int| 0 <= j < ids(after.panes).len() && ids(after.panes)[j] == p;
            let i = if j < k {
                j
            } else {
                j + 1
            };
            assert(all[i] == p);
            assert(all[k] == id);
        }
        if all.contains(p) && p != id {
            let i = choose|i: int| 0 <= i < all.len() && all[i] == p;
            assert(all[k] == id);
            let j = if i < k {
                i
            } else {
                i - 1
            };
            assert(ids(after.panes)[j] == p);
        }
    }
    assert forall|p: PaneId| #[trigger] panes(after.tree).contains(p) <==> ids(after.panes).contains(p) by {
        assert(panes(after.tree).contains(p) <==> order.contains(p) && p != id);
        assert(order.contains(p) <==> all.contains(p));
    }
    let first = panes(after.tree)[0];
    assert(panes(after.tree).contains(first));
    assert(after.has(first));
    assert(w.closed(id).panes == after.panes && w.given(id).panes == after.panes && w.broken(id).panes
        == after.panes);
    if w.wf() {
        assert(after.has(w.heir(id)));
    }
}

/// A row with one more entry has that entry, and the others.
proof fn lemma_inserted(s: Seq<PaneId>, k: int, new: PaneId)
    requires
        0 <= k <= s.len(),
        s.no_duplicates(),
        !s.contains(new),
    ensures
        s.insert(k, new).no_duplicates(),
        forall|p: PaneId| #[trigger] s.insert(k, new).contains(p) <==> s.contains(p) || p == new,
{
    let after = s.insert(k, new);
    assert forall|p: PaneId| #[trigger] after.contains(p) <==> s.contains(p) || p == new by {
        assert(after[k] == new);
        if s.contains(p) {
            let i = choose|i: int| 0 <= i < s.len() && s[i] == p;
            let j = if i < k {
                i
            } else {
                i + 1
            };
            assert(after[j] == p);
        }
        if after.contains(p) && p != new {
            let j = choose|j: int| 0 <= j < after.len() && after[j] == p;
            let i = if j < k {
                j
            } else {
                j - 1
            };
            assert(s[i] == p);
        }
    }
    assert forall|i: int, j: int| 0 <= i < j < after.len() implies after[i] != after[j] by {
        if i == k || j == k {
            let o = if i == k {
                j
            } else {
                i
            };
            let p = if o < k {
                o
            } else {
                o - 1
            };
            assert(after[o] == s[p]);
            assert(s.contains(s[p]));
        } else {
            let a = if i < k {
                i
            } else {
                i - 1
            };
            let b = if j < k {
                j
            } else {
                j - 1
            };
            assert(s[a] != s[b]);
        }
    }
}

/// A pane that comes in is one of the panes, with those that were there.
proof fn lemma_one_more(w: WindowState, after: WindowState, p: Pane, k: int)
    requires
        w.tidy(),
        !w.has(p.id),
        w.panes.len() < u16::MAX,
        after.panes == w.panes.push(p),
        0 <= k <= panes(w.tree).len(),
        panes(after.tree) == panes(w.tree).insert(k, p.id),
        shape(after.tree),
    ensures
        after.tidy(),
        ids(after.panes) == ids(w.panes).push(p.id),
        forall|q: PaneId| #[trigger] after.has(q) <==> w.has(q) || q == p.id,
{
    let n = w.panes.len() as int;
    assert(ids(after.panes) =~= ids(w.panes).insert(n, p.id));
    assert(ids(after.panes) =~= ids(w.panes).push(p.id));
    lemma_inserted(ids(w.panes), n, p.id);
    assert(!panes(w.tree).contains(p.id));
    lemma_inserted(panes(w.tree), k, p.id);
    assert forall|q: PaneId| #[trigger] panes(after.tree).contains(q) <==> ids(after.panes).contains(q) by {
        assert(panes(w.tree).contains(q) <==> ids(w.panes).contains(q));
    }
}

/// Splitting a pane of a window adds the new pane, and nothing else.
pub proof fn lemma_joined(w: WindowState, target: PaneId, horizontal: bool, p: Pane, extent: int, before: bool)
    requires
        w.tidy(),
        w.has(target),
        !w.has(p.id),
        w.panes.len() < u16::MAX,
    ensures
        w.joined(target, horizontal, p, extent, before).tidy(),
        ids(w.joined(target, horizontal, p, extent, before).panes) == ids(w.panes).push(p.id),
        forall|q: PaneId| #[trigger]
            w.joined(target, horizontal, p, extent, before).has(q) <==> w.has(q) || q == p.id,
        w.wf() ==> w.joined(target, horizontal, p, extent, before).wf(),
{
    assert(panes(w.tree).contains(target));
    let k = lemma_split_panes(w.tree, target, horizontal, p.id, extent, before);
    let after = w.joined(target, horizontal, p, extent, before);
    lemma_one_more(
        w,
        after,
        p,
        if before {
            k
        } else {
            k + 1
        },
    );
    if w.wf() {
        assert(after.has(w.active));
    }
}

/// A pane along one side is one more pane.
pub proof fn lemma_bounded_by(w: WindowState, horizontal: bool, p: Pane, extent: int, before: bool)
    requires
        w.tidy(),
        !w.has(p.id),
        w.panes.len() < u16::MAX,
    ensures
        w.bounded_by(horizontal, p, extent, before).tidy(),
        ids(w.bounded_by(horizontal, p, extent, before).panes) == ids(w.panes).push(p.id),
        forall|q: PaneId| #[trigger] w.bounded_by(horizontal, p, extent, before).has(q) <==> w.has(q) || q == p.id,
        w.wf() ==> w.bounded_by(horizontal, p, extent, before).wf(),
{
    let after = w.bounded_by(horizontal, p, extent, before);
    lemma_split_root_panes(w.tree, horizontal, p.id, extent, before);
    let n = panes(w.tree).len() as int;
    if before {
        assert(seq![p.id] + panes(w.tree) =~= panes(w.tree).insert(0, p.id));
        lemma_one_more(w, after, p, 0);
    } else {
        assert(panes(w.tree).push(p.id) =~= panes(w.tree).insert(n, p.id));
        lemma_one_more(w, after, p, n);
    }
    if w.wf() {
        assert(after.has(w.active));
    }
}

/// A layout with the same panes, in any order, leaves the window tidy.
pub proof fn lemma_same_panes(w: WindowState, after: WindowState)
    requires
        w.tidy(),
        after.panes == w.panes,
        shape(after.tree),
        panes(after.tree).len() == panes(w.tree).len(),
        panes(after.tree).no_duplicates(),
        forall|id: PaneId| #[trigger] panes(after.tree).contains(id) <==> panes(w.tree).contains(id),
    ensures
        after.tidy(),
        after.active == w.active && w.wf() ==> after.wf(),
{
    assert forall|id: PaneId| #[trigger] panes(after.tree).contains(id) <==> ids(after.panes).contains(id) by {
        assert(panes(w.tree).contains(id) <==> ids(w.panes).contains(id));
    }
}

/// Moving an edge leaves the panes alone.
pub proof fn lemma_nudged(w: WindowState, id: PaneId, dir: Dir, amount: u16)
    requires
        w.tidy(),
    ensures
        w.nudged(id, dir, amount).tidy(),
        w.wf() ==> w.nudged(id, dir, amount).wf(),
        w.nudged(id, dir, amount).panes == w.panes,
{
    let across = dir is Left || dir is Right;
    let grow = dir is Right || dir is Down;
    lemma_shapes_kept(w.tree, id, id, Seq::empty(), across, grow, amount as int);
    lemma_same_panes(w, w.nudged(id, dir, amount));
}

impl Window {
    /// A window around `pane`.
    pub fn around(id: WindowId, name: String, pane: Pane, now: u64) -> (w: Window)
        ensures
            w@ == fresh(id, name@, pane, now),
            w@.wf(),
    {
        let pid: PaneId = pane.id;
        let ghost p = pane;
        let mut list: Vec<Pane> = Vec::new();
        list.push(pane);
        let w = Window {
            id,
            name,
            layout: Node::Leaf(pid),
            panes: list,
            active: pid,
            last_pane: None,
            zoomed: false,
            layout_preset: None,
            synchronized: false,
            rects: Vec::new(),
            layout_rects: Vec::new(),
            alert_activity: false,
            alert_bell: false,
            alert_silence: false,
            last_output: now,
        };
        proof {
            assert(w@ =~= fresh(id, w@.name, p, now));
            lemma_fresh(id, w@.name, p, now);
        }
        w
    }

    /// Take a pane out of the list and the layout.
    pub fn drop_pane(&mut self, id: PaneId) -> (pane: Pane)
        requires
            old(self)@.tidy(),
            old(self)@.has(id),
            old(self)@.panes.len() > 1,
        ensures
            final(self)@ == old(self)@.without(id),
            pane == old(self)@.panes[place_of(old(self)@.panes, id, 0)],
    {
        let ghost before = self@;
        proof {
            lemma_place_of(before.panes, id, 0);
        }
        self.layout.remove(id);
        let k: usize = self.place(id);
        let pane = self.panes.remove(k);
        assert(self@ =~= before.without(id));
        pane
    }

    /// The first pane of the layout.
    pub fn first(&self) -> (id: PaneId)
        requires
            self@.tidy(),
            self@.panes.len() >= 1,
        ensures
            id == panes(self@.tree)[0],
    {
        let order = self.layout.panes();
        order[0]
    }

    /// Take out a pane that has ended.
    pub fn close(&mut self, id: PaneId) -> (pane: Pane)
        requires
            old(self)@.wf(),
            old(self)@.has(id),
            old(self)@.panes.len() > 1,
        ensures
            final(self)@ == old(self)@.closed(id),
            final(self)@.wf(),
            pane == old(self)@.panes[place_of(old(self)@.panes, id, 0)],
    {
        let ghost before = self@;
        proof {
            lemma_without(before, id);
        }
        let pane = self.drop_pane(id);
        if self.active == id {
            let mut back: bool = false;
            if let Some(last) = self.last_pane {
                if self.has(last) {
                    self.active = last;
                    back = true;
                }
            }
            if !back {
                self.active = self.first();
            }
            self.zoomed = false;
        }
        if let Some(last) = self.last_pane {
            if last == id {
                self.last_pane = None;
            }
        }
        assert(self@ =~= before.closed(id));
        pane
    }

    /// Take out a pane that moves to another window.
    pub fn give(&mut self, id: PaneId) -> (pane: Pane)
        requires
            old(self)@.wf(),
            old(self)@.has(id),
            old(self)@.panes.len() > 1,
        ensures
            final(self)@ == old(self)@.given(id),
            final(self)@.wf(),
            pane == old(self)@.panes[place_of(old(self)@.panes, id, 0)],
    {
        let ghost before = self@;
        proof {
            lemma_without(before, id);
        }
        let pane = self.drop_pane(id);
        self.layout_preset = None;
        self.zoomed = false;
        if self.active == id {
            self.active = self.first();
        }
        if let Some(last) = self.last_pane {
            if last == id {
                self.last_pane = None;
            }
        }
        assert(self@ =~= before.given(id));
        pane
    }

    /// Take out a pane that becomes a window of its own.
    pub fn break_off(&mut self, id: PaneId) -> (pane: Pane)
        requires
            old(self)@.wf(),
            old(self)@.has(id),
            old(self)@.panes.len() > 1,
        ensures
            final(self)@ == old(self)@.broken(id),
            final(self)@.wf(),
            pane == old(self)@.panes[place_of(old(self)@.panes, id, 0)],
    {
        let ghost before = self@;
        proof {
            lemma_without(before, id);
        }
        let pane = self.drop_pane(id);
        if self.active == id {
            self.active = self.first();
        }
        self.last_pane = None;
        self.zoomed = false;
        assert(self@ =~= before.broken(id));
        pane
    }

    /// Put `pane` beside pane `target`, whose cell is `rect`.
    pub fn join(&mut self, target: PaneId, horizontal: bool, pane: Pane, rect: Rect, before: bool)
        requires
            old(self)@.wf(),
            old(self)@.has(target),
            !old(self)@.has(pane.id),
            old(self)@.panes.len() < u16::MAX,
        ensures
            final(self)@ == old(self)@.joined(target, horizontal, pane, rect.extent(horizontal), before),
            final(self)@.wf(),
    {
        let ghost w = self@;
        proof {
            lemma_joined(w, target, horizontal, pane, rect.extent(horizontal), before);
        }
        self.layout.split_at(target, horizontal, pane.id, rect, before);
        self.panes.push(pane);
        assert(self@ =~= w.joined(target, horizontal, pane, rect.extent(horizontal), before));
    }

    /// Put `pane` along one whole side of the window, which fills `area`.
    pub fn bound(&mut self, horizontal: bool, pane: Pane, area: Rect, before: bool)
        requires
            old(self)@.wf(),
            !old(self)@.has(pane.id),
            old(self)@.panes.len() < u16::MAX,
        ensures
            final(self)@ == old(self)@.bounded_by(horizontal, pane, area.extent(horizontal), before),
            final(self)@.wf(),
    {
        let ghost w = self@;
        proof {
            lemma_bounded_by(w, horizontal, pane, area.extent(horizontal), before);
        }
        self.layout.split_root(horizontal, pane.id, area, before);
        self.panes.push(pane);
        assert(self@ =~= w.bounded_by(horizontal, pane, area.extent(horizontal), before));
    }

    /// Make a pane of the window the active one.
    pub fn focus(&mut self, id: PaneId)
        requires
            old(self)@.wf(),
            old(self)@.has(id),
        ensures
            final(self)@ == old(self)@.focused(id),
            final(self)@.wf(),
    {
        self.last_pane = Some(self.active);
        self.active = id;
    }

    /// Move an edge of a pane.
    pub fn nudge(&mut self, id: PaneId, dir: Dir, amount: u16)
        requires
            old(self)@.tidy(),
        ensures
            final(self)@ == old(self)@.nudged(id, dir, amount),
            final(self)@.tidy(),
            old(self)@.wf() ==> final(self)@.wf(),
    {
        let ghost w = self@;
        proof {
            lemma_nudged(w, id, dir, amount);
        }
        self.layout.resize(id, dir, amount);
        assert(self@ =~= w.nudged(id, dir, amount));
    }
}

} // verus!
