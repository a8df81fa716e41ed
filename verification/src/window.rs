//! A window: panes, the layout that holds them, and where each is drawn.
use vstd::prelude::*;

use crate::chooser::WindowId;
use crate::layout::{panes, placed, refitted, shape, Node, PaneId, Rect, Tree};
use crate::pane::{sized, Pane};
use crate::preset::Preset;

verus! {

#[derive(Debug)]
pub struct Window {
    pub id: WindowId,
    pub name: String,
    pub layout: Node,
    pub panes: Vec<Pane>,
    pub active: PaneId,
    pub last_pane: Option<PaneId>,
    pub zoomed: bool,
    /// Last layout applied by `select-layout`, so `-n` knows where to go next.
    pub layout_preset: Option<Preset>,
    /// `synchronize-panes`: input goes to every pane of the window.
    pub synchronized: bool,
    /// Where each pane's content is drawn: its layout cell less the row a
    /// `pane-border-status` line takes.
    pub rects: Vec<(PaneId, Rect)>,
    /// The layout cells themselves, which is what splitting divides.
    pub layout_rects: Vec<(PaneId, Rect)>,
    /// Alerts waiting to be seen: a background window printed something,
    /// rang the bell, or went quiet.
    pub alert_activity: bool,
    pub alert_bell: bool,
    pub alert_silence: bool,
    /// When this window last printed anything.
    pub last_output: u64,
}

/// A window as mathematics.
#[verifier::ext_equal]
pub ghost struct WindowState {
    pub id: WindowId,
    pub name: Seq<char>,
    pub tree: Tree,
    pub panes: Seq<Pane>,
    pub active: PaneId,
    pub last_pane: Option<PaneId>,
    pub zoomed: bool,
    pub preset: Option<Preset>,
    pub synchronized: bool,
    pub rects: Seq<(PaneId, Rect)>,
    pub cells: Seq<(PaneId, Rect)>,
    pub activity: bool,
    pub bell: bool,
    pub silence: bool,
    pub last_output: u64,
}

impl View for Window {
    type V = WindowState;

    open spec fn view(&self) -> WindowState {
        WindowState {
            id: self.id,
            name: self.name@,
            tree: self.layout@,
            panes: self.panes@,
            active: self.active,
            last_pane: self.last_pane,
            zoomed: self.zoomed,
            preset: self.layout_preset,
            synchronized: self.synchronized,
            rects: self.rects@,
            cells: self.layout_rects@,
            activity: self.alert_activity,
            bell: self.alert_bell,
            silence: self.alert_silence,
            last_output: self.last_output,
        }
    }
}

/// The ids of a row of panes.
pub open spec fn ids(v: Seq<Pane>) -> Seq<PaneId> {
    Seq::new(v.len(), |i: int| v[i].id)
}

/// The place of pane `id` in a row, from `i` on; the end when it is not there.
pub open spec fn place_of(v: Seq<Pane>, id: PaneId, i: int) -> int
    decreases v.len() - i,
{
    if i >= v.len() {
        v.len() as int
    } else if v[i].id == id {
        i
    } else {
        place_of(v, id, i + 1)
    }
}

pub proof fn lemma_place_of(v: Seq<Pane>, id: PaneId, i: int)
    requires
        0 <= i <= v.len(),
    ensures
        ({
            let k = place_of(v, id, i);
            &&& i <= k <= v.len()
            &&& k < v.len() ==> v[k].id == id
            &&& forall|j: int| i <= j < k ==> (#[trigger] v[j]).id != id
            &&& i == 0 ==> (k < v.len() <==> ids(v).contains(id))
        }),
    decreases v.len() - i,
{
    if i < v.len() && v[i].id != id {
        lemma_place_of(v, id, i + 1);
    }
    if i == 0 {
        let k = place_of(v, id, 0);
        if ids(v).contains(id) {
            let j = choose|j: int| 0 <= j < ids(v).len() && ids(v)[j] == id;
            assert(v[j].id == id);
        }
        if k < v.len() {
            assert(ids(v)[k] == id);
        }
    }
}

/// The rectangle listed first for pane `id`.
pub open spec fn rect_in(rects: Seq<(PaneId, Rect)>, id: PaneId, i: int) -> Option<Rect>
    decreases rects.len() - i,
{
    if i >= rects.len() {
        None
    } else if rects[i].0 == id {
        Some(rects[i].1)
    } else {
        rect_in(rects, id, i + 1)
    }
}

/// The first pane listed whose rectangle has the cell.
pub open spec fn pane_under(rects: Seq<(PaneId, Rect)>, x: int, y: int, i: int) -> Option<PaneId>
    decreases rects.len() - i,
{
    if i >= rects.len() {
        None
    } else if rects[i].1.has(x, y) {
        Some(rects[i].0)
    } else {
        pane_under(rects, x, y, i + 1)
    }
}

/// A cell less the row that a border line takes above (`Some(true)`) or below
/// it (`Some(false)`).
pub open spec fn bordered(r: Rect, border: Option<bool>) -> Rect {
    if border is None || r.h < 2 {
        r
    } else if border->0 {
        Rect { y: (r.y + 1) as u16, h: (r.h - 1) as u16, ..r }
    } else {
        Rect { h: (r.h - 1) as u16, ..r }
    }
}

pub open spec fn drawn(cells: Seq<(PaneId, Rect)>, border: Option<bool>) -> Seq<(PaneId, Rect)> {
    Seq::new(cells.len(), |i: int| (cells[i].0, bordered(cells[i].1, border)))
}

/// Pane `p` at the size of its rectangle; a pane that is not on the screen
/// keeps its size.
pub open spec fn resized_to(p: Pane, rects: Seq<(PaneId, Rect)>) -> Pane {
    match rect_in(rects, p.id, 0) {
        Some(r) => sized(p, r.w, r.h),
        None => p,
    }
}

pub open spec fn all_resized(v: Seq<Pane>, rects: Seq<(PaneId, Rect)>) -> Seq<Pane> {
    Seq::new(v.len(), |i: int| resized_to(v[i], rects))
}

impl WindowState {
    /// The panes of the layout are the panes of the window, each once.
    pub open spec fn tidy(self) -> bool {
        &&& shape(self.tree)
        &&& self.panes.len() <= u16::MAX
        &&& panes(self.tree).len() == self.panes.len()
        &&& panes(self.tree).no_duplicates()
        &&& ids(self.panes).no_duplicates()
        &&& forall|id: PaneId| #[trigger] panes(self.tree).contains(id) <==> ids(self.panes).contains(id)
    }

    /// Tidy, with one of its panes the active one.
    pub open spec fn wf(self) -> bool {
        &&& self.tidy()
        &&& ids(self.panes).contains(self.active)
    }

    /// Well formed, with nothing but its own panes on the screen.
    pub open spec fn settled(self) -> bool {
        &&& self.wf()
        &&& forall|i: int| 0 <= i < self.rects.len() ==> self.has((#[trigger] self.rects[i]).0)
        &&& forall|i: int| 0 <= i < self.cells.len() ==> self.has((#[trigger] self.cells[i]).0)
        &&& forall|i: int| 0 <= i < self.rects.len() ==> (#[trigger] self.rects[i]).1.fits()
        &&& forall|i: int| 0 <= i < self.cells.len() ==> (#[trigger] self.cells[i]).1.fits()
    }

    pub open spec fn has(self, id: PaneId) -> bool {
        ids(self.panes).contains(id)
    }

    /// Laid out in `area`: a zoomed pane has it all, otherwise the layout's
    /// cells fill it, and the panes on the screen take their size.
    pub open spec fn laid_out(self, area: Rect, border: Option<bool>) -> WindowState {
        let zoomed = self.zoomed && self.has(self.active);
        let cells = if zoomed {
            seq![(self.active, area)]
        } else {
            placed(self.tree, area)
        };
        WindowState {
            tree: if zoomed {
                self.tree
            } else {
                refitted(self.tree, area)
            },
            zoomed,
            cells,
            rects: drawn(cells, border),
            panes: all_resized(self.panes, drawn(cells, border)),
            ..self
        }
    }

    /// The flags of the status line: where the window sits, what it is
    /// waiting to tell, and how it is laid out.
    pub open spec fn flag_text(self, current: bool, last: bool) -> Seq<char> {
        let none = Seq::<char>::empty();
        (if current {
            seq!['*']
        } else if last {
            seq!['-']
        } else {
            none
        }) + (if self.activity {
            seq!['#']
        } else {
            none
        }) + (if self.bell {
            seq!['!']
        } else {
            none
        }) + (if self.silence {
            seq!['~']
        } else {
            none
        }) + (if self.zoomed {
            seq!['Z']
        } else {
            none
        }) + (if self.synchronized {
            seq!['S']
        } else {
            none
        })
    }

    pub open spec fn alerting(self) -> bool {
        self.activity || self.bell || self.silence
    }
}

/// Laying a window out keeps its panes, in their order, and everything else
/// that names one.
pub proof fn lemma_laid_out(w: WindowState, area: Rect, border: Option<bool>)
    requires
        w.tidy(),
        area.fits(),
    ensures
        w.laid_out(area, border).tidy(),
        ids(w.laid_out(area, border).panes) == ids(w.panes),
        panes(w.laid_out(area, border).tree) == panes(w.tree),
        w.wf() ==> w.laid_out(area, border).settled(),
{
    let after = w.laid_out(area, border);
    assert(ids(after.panes) =~= ids(w.panes));
    crate::layout::lemma_refitted(w.tree, area);
    crate::layout::lemma_placed_panes(w.tree, area);
    crate::layout::lemma_placed_tiles(w.tree, area);
    assert forall|i: int| 0 <= i < after.cells.len() implies after.has((#[trigger] after.cells[i]).0)
        && after.cells[i].1.fits() by {
        if !after.zoomed {
            assert(panes(w.tree)[i] == after.cells[i].0);
            assert(panes(w.tree).contains(after.cells[i].0));
            assert(after.cells[i].1.inside(area));
        }
    }
    assert forall|i: int| 0 <= i < after.rects.len() implies after.has((#[trigger] after.rects[i]).0)
        && after.rects[i].1.fits() by {
        assert(after.has(after.cells[i].0) && after.cells[i].1.fits());
    }
}

/// Every rectangle listed lies inside `area`.
pub open spec fn on_screen(cells: Seq<(PaneId, Rect)>, area: Rect) -> bool {
    forall|i: int| 0 <= i < cells.len() ==> (#[trigger] cells[i]).1.inside(area)
}

/// No pane is drawn outside the window's area.
pub proof fn lemma_drawn_inside(w: WindowState, area: Rect, border: Option<bool>)
    requires
        w.tidy(),
        area.fits(),
    ensures
        on_screen(w.laid_out(area, border).rects, area),
        on_screen(w.laid_out(area, border).cells, area),
{
    crate::layout::lemma_placed_tiles(w.tree, area);
    let after = w.laid_out(area, border);
    if !after.zoomed {
        assert forall|i: int| 0 <= i < after.rects.len() implies (#[trigger] after.rects[i]).1.inside(area) by {
            assert(after.cells[i].1.inside(area));
        }
    }
}

pub fn rect_for(rects: &Vec<(PaneId, Rect)>, id: PaneId) -> (r: Option<Rect>)
    ensures
        r == rect_in(rects@, id, 0),
{
    let mut i: usize = 0;
    while i < rects.len()
        invariant
            i <= rects@.len(),
            rect_in(rects@, id, 0) == rect_in(rects@, id, i as int),
        decreases rects.len() - i,
    {
        if rects[i].0 == id {
            return Some(rects[i].1);
        }
        i = i + 1;
    }
    None
}

impl Window {
    /// The `#F` flags.
    pub fn flags(&self, current: bool, last: bool) -> (s: String)
        ensures
            s@ == self@.flag_text(current, last),
    {
        let mut s = String::new();
        if current {
            s.push('*');
        } else if last {
            s.push('-');
        }
        if self.alert_activity {
            s.push('#');
        }
        if self.alert_bell {
            s.push('!');
        }
        if self.alert_silence {
            s.push('~');
        }
        if self.zoomed {
            s.push('Z');
        }
        if self.synchronized {
            s.push('S');
        }
        assert(s@ =~= self@.flag_text(current, last));
        s
    }

    /// The place of a pane in the window's list, or the list's length.
    pub fn place(&self, id: PaneId) -> (k: usize)
        ensures
            k == place_of(self@.panes, id, 0),
            k <= self@.panes.len(),
            k < self@.panes.len() <==> self@.has(id),
            k < self@.panes.len() ==> self@.panes[k as int].id == id,
    {
        let mut i: usize = 0;
        while i < self.panes.len()
            invariant
                i <= self.panes@.len(),
                place_of(self@.panes, id, 0) == place_of(self@.panes, id, i as int),
            decreases self.panes.len() - i,
        {
            if self.panes[i].id == id {
                assert(ids(self@.panes)[i as int] == id);
                return i;
            }
            i = i + 1;
        }
        proof {
            lemma_place_of(self@.panes, id, 0);
        }
        i
    }

    pub fn has(&self, id: PaneId) -> (b: bool)
        ensures
            b == self@.has(id),
    {
        self.place(id) < self.panes.len()
    }

    /// The pane `id`, when it is one of the window's.
    pub fn pane(&self, id: PaneId) -> (p: Option<&Pane>)
        ensures
            p is Some <==> self@.has(id),
            p matches Some(q) ==> *q == self@.panes[place_of(self@.panes, id, 0)],
    {
        let k: usize = self.place(id);
        if k < self.panes.len() {
            Some(&self.panes[k])
        } else {
            None
        }
    }

    pub fn active_pane(&self) -> (p: Option<&Pane>)
        ensures
            p is Some <==> self@.has(self@.active),
            p matches Some(q) ==> *q == self@.panes[place_of(self@.panes, self@.active, 0)],
    {
        self.pane(self.active)
    }

    /// Where a pane's content is drawn.
    pub fn rect_of(&self, id: PaneId) -> (r: Option<Rect>)
        ensures
            r == rect_in(self@.rects, id, 0),
    {
        rect_for(&self.rects, id)
    }

    /// The pane's layout cell, border row included: what a split divides.
    pub fn layout_rect(&self, id: PaneId) -> (r: Option<Rect>)
        ensures
            r == rect_in(self@.cells, id, 0),
    {
        rect_for(&self.layout_rects, id)
    }

    /// The pane drawn at a cell.
    pub fn pane_at(&self, x: u16, y: u16) -> (p: Option<PaneId>)
        ensures
            p == pane_under(self@.rects, x as int, y as int, 0),
    {
        let mut i: usize = 0;
        while i < self.rects.len()
            invariant
                i <= self.rects@.len(),
                pane_under(self@.rects, x as int, y as int, 0) == pane_under(self@.rects, x as int, y as int, i as int),
            decreases self.rects.len() - i,
        {
            if self.rects[i].1.contains(x, y) {
                return Some(self.rects[i].0);
            }
            i = i + 1;
        }
        None
    }

    /// Recompute pane rectangles for a window area and resize the panes.
    pub fn relayout(&mut self, area: Rect, border: Option<bool>)
        requires
            old(self)@.tidy(),
            area.fits(),
        ensures
            final(self)@ == old(self)@.laid_out(area, border),
    {
        let ghost before = self@;
        let zoomed: bool = self.zoomed && self.has(self.active);
        let mut cells: Vec<(PaneId, Rect)> = Vec::new();
        if zoomed {
            cells.push((self.active, area));
        } else {
            self.zoomed = false;
            self.layout.layout(area, &mut cells);
            proof {
                crate::layout::lemma_placed_tiles(before.tree, area);
                assert(cells@ =~= placed(before.tree, area));
            }
        }
        assert forall|i: int| 0 <= i < cells@.len() implies (#[trigger] cells@[i]).1.fits() by {
            assert(cells@[i].1.inside(area));
        }
        let rects = draw_in(&cells, border);
        self.size_panes(&rects);
        self.rects = rects;
        self.layout_rects = cells;
        assert(self@ =~= before.laid_out(area, border));
    }

    /// Give the panes on the screen their sizes.
    fn size_panes(&mut self, rects: &Vec<(PaneId, Rect)>)
        ensures
            final(self)@ == (WindowState { panes: all_resized(old(self)@.panes, rects@), ..old(self)@ }),
    {
        let ghost before = self@;
        let mut i: usize = 0;
        while i < self.panes.len()
            invariant
                i <= self.panes@.len(),
                self.panes@.len() == before.panes.len(),
                self@ == (WindowState { panes: self.panes@, ..before }),
                forall|j: int| 0 <= j < i ==> #[trigger] self.panes@[j] == resized_to(before.panes[j], rects@),
                forall|j: int| i <= j < before.panes.len() ==> #[trigger] self.panes@[j] == before.panes[j],
            decreases self.panes.len() - i,
        {
            if let Some(r) = rect_for(rects, self.panes[i].id) {
                self.panes[i].resize(r.w, r.h);
            }
            i = i + 1;
        }
        assert(self.panes@ =~= all_resized(before.panes, rects@));
    }
}

fn draw_in(cells: &Vec<(PaneId, Rect)>, border: Option<bool>) -> (out: Vec<(PaneId, Rect)>)
    requires
        forall|i: int| 0 <= i < cells@.len() ==> (#[trigger] cells@[i]).1.fits(),
    ensures
        out@ == drawn(cells@, border),
{
    let mut out: Vec<(PaneId, Rect)> = Vec::new();
    let mut i: usize = 0;
    while i < cells.len()
        invariant
            i <= cells@.len(),
            forall|i: int| 0 <= i < cells@.len() ==> (#[trigger] cells@[i]).1.fits(),
            out@.len() == i,
            forall|j: int| 0 <= j < i ==> #[trigger] out@[j] == drawn(cells@, border)[j],
        decreases cells.len() - i,
    {
        let (id, r) = cells[i];
        assert(cells@[i as int].1.fits());
        let mut r: Rect = r;
        if let Some(top) = border {
            if r.h >= 2 {
                if top {
                    r.y = r.y + 1;
                }
                r.h = r.h - 1;
            }
        }
        out.push((id, r));
        i = i + 1;
    }
    assert(out@ =~= drawn(cells@, border));
    out
}

} // verus!
