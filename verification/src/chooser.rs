//! The pickers: lists of sessions, buffers, clients, panes or menu entries
//! to choose from.
use std::collections::HashSet;
use vstd::prelude::*;
use vstd::std_specs::hash::*;
use crate::command::MenuItem;
use crate::layout::PaneId;
use crate::text::{chars_of, find_text, holds, lower, lowercase, trim, trimmed, string_of};

verus! {

broadcast use vstd::std_specs::hash::group_hash_axioms;

pub type ClientId = u32;

pub type SessionId = u32;

pub type WindowId = u32;

/// What one line of the picker stands for.
#[derive(Clone, Copy, PartialEq, Eq, Debug, Structural)]
pub enum ChooserItem {
    /// A session line, or one of its windows.
    Tree(SessionId, Option<WindowId>),
    /// A paste buffer, by position in the buffer list.
    Buffer(usize),
    /// An attached client.
    Client(ClientId),
    /// An entry of a `display-menu`, by position.
    Menu(usize),
    /// A pane on the task board (`choose-jobs`).
    Job(SessionId, WindowId, PaneId),
    /// A pane position in the history picker, or one of its days.
    Log(usize, Option<usize>),
    /// A title or separator line: shown, never selected.
    Separator,
}

/// A day of a pane's history log.
pub struct Day {
    /// The day as it is written: its date, and the name of the weekday.
    pub date: String,
    pub weekday: String,
    /// How many days ago it was.
    pub ago: i64,
    /// Where its log is kept.
    pub path: String,
    pub size: u64,
}

/// The history log of a pane position, its days newest first.
pub struct Kept {
    pub session: String,
    pub key: String,
    pub days: Vec<Day>,
}

/// Where a picker's lines come from.
pub enum ChooserKind {
    /// The live session tree; `expand` shows each session's windows.
    Tree { expand: bool },
    /// The paste buffers.
    Buffers,
    /// The attached clients.
    Clients,
    /// Every pane on the server with its state (`jobs`), to jump to, kill
    /// or restart.
    Jobs,
    /// A fixed list of windows (the `find-window` hits).
    Found,
    /// A `display-menu` and the commands its entries run.
    Menu(Vec<MenuItem>),
    /// The history log on disk (`choose-history`), read when opened; the
    /// positions in `open` show their days.
    History { kept: Vec<Kept>, open: HashSet<usize> },
}

impl ChooserKind {
    pub open spec fn is_live(self) -> bool {
        self is Tree || self is Buffers || self is Clients || self is Jobs
    }

    /// Whether the list is rebuilt from the server state at every render.
    pub fn live(&self) -> (b: bool)
        ensures
            b == self.is_live(),
    {
        matches!(self, ChooserKind::Tree { .. } | ChooserKind::Buffers | ChooserKind::Clients | ChooserKind::Jobs)
    }
}

pub struct Chooser {
    pub kind: ChooserKind,
    pub items: Vec<ChooserItem>,
    pub lines: Vec<String>,
    pub sel: usize,
    pub top: usize,
    /// Only lines holding this (case-insensitively) are shown; empty shows all.
    pub filter: String,
    /// Items marked with `t`, which `x` (and `r`) act on instead of the
    /// current one. Kept by identity, so a live rebuild does not lose them.
    pub tagged: Vec<ChooserItem>,
    /// Sessions folded with `-` (or Left) in the tree: their windows are
    /// not listed until `+` (or Right) opens them again.
    pub collapsed: HashSet<SessionId>,
}

/// There is a line `i`, and it is no title or separator.
pub open spec fn open_at(items: Seq<ChooserItem>, i: int) -> bool {
    0 <= i < items.len() && !(items[i] is Separator)
}

/// The last line of the list, the first one when there is none.
pub open spec fn last_line(items: Seq<ChooserItem>) -> int {
    if items.len() > 0 {
        items.len() - 1
    } else {
        0
    }
}

/// The nearest line from `i` on, in steps of `d`, that can be selected.
pub open spec fn nearest(items: Seq<ChooserItem>, i: int, d: int) -> Option<int>
    decreases
            if d > 0 {
                last_line(items) + 1 - i
            } else {
                i + 1
            },
{
    if (d != 1 && d != -1) || i < 0 || i > last_line(items) {
        None
    } else if open_at(items, i) {
        Some(i)
    } else {
        nearest(items, i + d, d)
    }
}

/// Where a selection at `sel` comes to rest: on the nearest line in direction
/// `d` that can be selected, or the nearest in the other. One behind the list
/// is taken as on its last line.
pub open spec fn settled(items: Seq<ChooserItem>, sel: int, d: int) -> Option<int> {
    let from = if sel > last_line(items) {
        last_line(items)
    } else {
        sel
    };
    match nearest(items, from, d) {
        Some(i) => Some(i),
        None => nearest(items, from, -d),
    }
}

/// Where a step of `delta` lines takes the selection.
pub open spec fn stepped(items: Seq<ChooserItem>, sel: int, delta: int) -> int {
    let to = if sel + delta < 0 {
        0
    } else if sel + delta > last_line(items) {
        last_line(items)
    } else {
        sel + delta
    };
    match settled(
        items,
        to,
        if delta < 0 {
            -1
        } else {
            1
        },
    ) {
        Some(i) => i,
        None => sel,
    }
}

/// What comes to rest rests on a line that can be selected, and there is no
/// such line when it does not.
pub proof fn lemma_nearest(items: Seq<ChooserItem>, i: int, d: int)
    requires
        d == 1 || d == -1,
    ensures
        match nearest(items, i, d) {
            Some(k) => 0 <= k <= last_line(items) && open_at(items, k) && (if d == 1 {
                i <= k
            } else {
                k <= i
            }),
            None => forall|k: int|
                0 <= i <= last_line(items) && 0 <= k <= last_line(items) && (if d == 1 {
                    i <= k
                } else {
                    k <= i
                }) ==> !#[trigger] open_at(items, k),
        },
    decreases
            if d > 0 {
                last_line(items) + 1 - i
            } else {
                i + 1
            },
{
    if 0 <= i <= last_line(items) && !open_at(items, i) {
        lemma_nearest(items, i + d, d);
    }
}

/// A selection never comes to rest on a title or separator, and comes to none
/// only when the list has nothing else.
pub proof fn lemma_settled(items: Seq<ChooserItem>, sel: int, d: int)
    requires
        d == 1 || d == -1,
        0 <= sel,
    ensures
        match settled(items, sel, d) {
            Some(i) => 0 <= i < items.len() && !(items[i] is Separator),
            None => forall|k: int| 0 <= k < items.len() ==> #[trigger] items[k] is Separator,
        },
{
    let from = if sel > last_line(items) {
        last_line(items)
    } else {
        sel
    };
    lemma_nearest(items, from, d);
    lemma_nearest(items, from, -d);
    if settled(items, sel, d) is None {
        assert forall|k: int| 0 <= k < items.len() implies #[trigger] items[k] is Separator by {
            assert(!open_at(items, k));
        }
    }
}

/// A step in a list with something to select lands on such a line.
pub proof fn lemma_stepped(items: Seq<ChooserItem>, sel: int, delta: int)
    requires
        0 <= sel < items.len(),
    ensures
        0 <= stepped(items, sel, delta) < items.len(),
        (exists|k: int| 0 <= k < items.len() && !(#[trigger] items[k] is Separator)) ==> !(items[stepped(
            items,
            sel,
            delta,
        )] is Separator),
        (forall|k: int| 0 <= k < items.len() ==> #[trigger] items[k] is Separator) ==> stepped(items, sel, delta)
            == sel,
{
    let to = if sel + delta < 0 {
        0
    } else if sel + delta > last_line(items) {
        last_line(items)
    } else {
        sel + delta
    };
    lemma_settled(
        items,
        to,
        if delta < 0 {
            -1
        } else {
            1
        },
    );
}

/// The items an action works on: the tagged ones, else the current.
pub open spec fn acted_on(ch: Chooser) -> Seq<ChooserItem> {
    if ch.tagged@.len() > 0 {
        ch.tagged@
    } else if ch.sel < ch.items@.len() {
        seq![ch.items@[ch.sel as int]]
    } else {
        Seq::empty()
    }
}

impl Chooser {
    pub fn new(kind: ChooserKind, items: Vec<ChooserItem>, lines: Vec<String>, sel: usize) -> (ch: Chooser)
        ensures
            ch.kind == kind,
            ch.items == items,
            ch.lines == lines,
            ch.sel == sel,
            ch.top == 0,
            ch.filter@ == Seq::<char>::empty(),
            ch.tagged@ == Seq::<ChooserItem>::empty(),
            ch.collapsed@ == Set::<SessionId>::empty(),
    {
        Chooser {
            kind,
            items,
            lines,
            sel,
            top: 0,
            filter: String::new(),
            tagged: Vec::new(),
            collapsed: HashSet::new(),
        }
    }

    /// The session of the current line, when the picker is the tree.
    pub fn current_session(&self) -> (sid: Option<SessionId>)
        ensures
            match sid {
                Some(s) => self.sel < self.items@.len() && self.items@[self.sel as int] is Tree
                    && self.items@[self.sel as int]->Tree_0 == s,
                None => !(self.sel < self.items@.len() && self.items@[self.sel as int] is Tree),
            },
    {
        if self.sel < self.items.len() {
            match self.items[self.sel] {
                ChooserItem::Tree(sid, _) => Some(sid),
                _ => None,
            }
        } else {
            None
        }
    }

    pub fn is_tagged(&self, item: &ChooserItem) -> (b: bool)
        ensures
            b == self.tagged@.contains(*item),
    {
        let mut i: usize = 0;
        while i < self.tagged.len()
            invariant
                i <= self.tagged@.len(),
                forall|j: int| 0 <= j < i ==> self.tagged@[j] != *item,
            decreases self.tagged.len() - i,
        {
            if self.tagged[i] == *item {
                assert(self.tagged@[i as int] == *item);
                return true;
            }
            i = i + 1;
        }
        false
    }

    /// The items an action key works on: the tagged ones, else the current.
    pub fn targets(&self) -> (out: Vec<ChooserItem>)
        ensures
            out@ == acted_on(*self),
    {
        let mut out: Vec<ChooserItem> = Vec::new();
        if self.tagged.len() > 0 {
            let mut i: usize = 0;
            while i < self.tagged.len()
                invariant
                    i <= self.tagged@.len(),
                    out@ == self.tagged@.take(i as int),
                decreases self.tagged.len() - i,
            {
                out.push(self.tagged[i]);
                assert(self.tagged@.take(i + 1) =~= self.tagged@.take(i as int).push(self.tagged@[i as int]));
                i = i + 1;
            }
            assert(self.tagged@.take(i as int) =~= self.tagged@);
        } else if self.sel < self.items.len() {
            out.push(self.items[self.sel]);
            assert(out@ =~= seq![self.items@[self.sel as int]]);
        }
        out
    }

    pub fn step(&mut self, delta: i64)
        ensures
            *final(self) == (Chooser {
                sel: stepped(old(self).items@, old(self).sel as int, delta as int) as usize,
                ..*old(self)
            }),
    {
        let from: usize = self.sel;
        let last: usize = if self.items.len() > 0 { self.items.len() - 1 } else { 0 };
        let to: i128 = from as i128 + delta as i128;
        self.sel = if to < 0 {
            0
        } else if to > last as i128 {
            last
        } else {
            to as usize
        };
        let ghost at = self.sel;
        proof {
            lemma_nearest(self.items@, at as int, 1);
            lemma_nearest(self.items@, at as int, -1);
        }
        if !self.settle(if delta < 0 { -1 } else { 1 }) {
            self.sel = from; // nothing selectable anywhere: do not move at all
        }
    }

    /// Move off a title or separator line, preferring direction `dir` and
    /// falling back to the other one. False when the list has nothing that
    /// can be selected.
    pub fn settle(&mut self, dir: i64) -> (done: bool)
        requires
            dir == 1 || dir == -1,
        ensures
            done == settled(old(self).items@, old(self).sel as int, dir as int) is Some,
            done == exists|k: int| 0 <= k < old(self).items@.len() && !(#[trigger] old(self).items@[k] is Separator),
            done ==> final(self).sel < final(self).items@.len() && !(final(self).items@[final(self).sel as int] is Separator),
            *final(self) == (Chooser {
                sel: match settled(old(self).items@, old(self).sel as int, dir as int) {
                    Some(i) => i as usize,
                    None => old(self).sel,
                },
                ..*old(self)
            }),
    {
        let last: usize = if self.items.len() > 0 { self.items.len() - 1 } else { 0 };
        let from: usize = if self.sel > last { last } else { self.sel };
        proof {
            lemma_nearest(self.items@, from as int, 1);
            lemma_nearest(self.items@, from as int, -1);
            lemma_settled(self.items@, self.sel as int, dir as int);
        }
        match nearest_line(&self.items, from, dir > 0) {
            Some(i) => {
                self.sel = i;
                true
            },
            None => match nearest_line(&self.items, from, dir < 0) {
                Some(i) => {
                    self.sel = i;
                    true
                },
                None => false,
            },
        }
    }
}

fn nearest_line(items: &Vec<ChooserItem>, from: usize, up: bool) -> (found: Option<usize>)
    ensures
        match found {
            Some(i) => nearest(
                items@,
                from as int,
                if up {
                    1
                } else {
                    -1
                },
            ) == Some(i as int),
            None => nearest(
                items@,
                from as int,
                if up {
                    1
                } else {
                    -1
                },
            ) is None,
        },
{
    let last: usize = if items.len() > 0 { items.len() - 1 } else { 0 };
    let ghost d: int = if up { 1 } else { -1 };
    let mut i: usize = from;
    while i <= last
        invariant
            last == last_line(items@),
            d == if up {
                1int
            } else {
                -1int
            },
            nearest(items@, from as int, d) == nearest(items@, i as int, d),
        decreases
                if up {
                    last + 1 - i
                } else {
                    i as int
                },
    {
        let open: bool = i < items.len() && !matches!(items[i], ChooserItem::Separator);
        if open {
            return Some(i);
        }
        if up {
            if i == last {
                assert(nearest(items@, i + 1, d) is None);
                return None;
            }
            i = i + 1;
        } else {
            if i == 0 {
                assert(nearest(items@, -1, d) is None);
                return None;
            }
            i = i - 1;
        }
    }
    None
}

/// The session line that the line `i` stands under.
pub open spec fn parent_of(items: Seq<ChooserItem>, i: int) -> Option<int>
    decreases i,
{
    if i <= 0 || i > items.len() {
        None
    } else if items[i - 1] is Tree && items[i - 1]->Tree_1 is None {
        Some(i - 1)
    } else {
        parent_of(items, i - 1)
    }
}

pub open spec fn is_window(item: ChooserItem) -> bool {
    item is Tree && item->Tree_1 is Some
}

/// Whether line `i` is kept when the lines with `hit` hold the filter.
pub open spec fn keeps(items: Seq<ChooserItem>, hit: Seq<bool>, i: int) -> bool {
    ||| hit[i]
    ||| i < items.len() && items[i] is Separator
    ||| i < items.len() && is_window(items[i]) && parent_of(items, i) is Some && hit[parent_of(items, i)->0]
    ||| exists|j: int|
        0 <= j < items.len() && #[trigger] is_window(items[j]) && parent_of(items, j) == Some(i) && hit[j]
}

/// The lines that hold `needle`, whatever the case.
pub open spec fn hits(lines: Seq<String>, needle: Seq<char>) -> Seq<bool> {
    Seq::new(lines.len(), |i: int| holds(lower(lines[i]@), needle))
}

/// Which picker lines a filter keeps: those holding it, case-insensitively,
/// plus title lines. In the tree a session line stays when one of its
/// windows matches, and its windows stay when the session line does, so
/// filtering by a session name shows the whole session.
pub fn chooser_filter(items: &[ChooserItem], lines: &[String], filter: &str) -> (keep: Vec<bool>)
    requires
        items@.len() <= lines@.len(),
    ensures
        ({
            let needle = lower(trim(filter@));
            if needle.len() == 0 {
                keep@ == Seq::new(items@.len(), |i: int| true)
            } else {
                &&& keep@.len() == lines@.len()
                &&& forall|i: int|
                    0 <= i < lines@.len() ==> #[trigger] keep@[i] == keeps(items@, hits(lines@, needle), i)
            }
        }),
{
    let chars = trimmed(&chars_of(filter));
    let text = string_of(&chars, 0, chars.len());
    assert(text@ =~= trim(filter@));
    let needle = chars_of(lowercase(text.as_str()).as_str());
    let mut keep: Vec<bool> = Vec::new();
    if needle.len() == 0 {
        let mut i: usize = 0;
        while i < items.len()
            invariant
                i <= items@.len(),
                keep@ == Seq::new(i as nat, |j: int| true),
            decreases items.len() - i,
        {
            keep.push(true);
            i = i + 1;
            assert(keep@ =~= Seq::new(i as nat, |j: int| true));
        }
        return keep;
    }
    let ghost all = hits(lines@, needle@);
    let mut hit: Vec<bool> = Vec::new();
    let mut i: usize = 0;
    while i < lines.len()
        invariant
            i <= lines@.len(),
            all == hits(lines@, needle@),
            hit@ == all.take(i as int),
            keep@ == hit@,
        decreases lines.len() - i,
    {
        let line = chars_of(lowercase(lines[i].as_str()).as_str());
        let found: bool = match find_text(&line, &needle) {
            Some(at) => {
                assert(holds(line@, needle@));
                true
            },
            None => false,
        };
        hit.push(found);
        keep.push(found);
        assert(all.take(i + 1) =~= all.take(i as int).push(all[i as int]));
        i = i + 1;
    }
    assert(all.take(i as int) =~= all);
    let mut parent: Option<usize> = None;
    let mut i: usize = 0;
    while i < items.len()
        invariant
            i <= items@.len() <= lines@.len(),
            hit@ == all,
            all.len() == lines@.len(),
            keep@.len() == all.len(),
            match parent {
                Some(p) => parent_of(items@, i as int) == Some(p as int) && p < i,
                None => parent_of(items@, i as int) is None,
            },
            forall|k: int| 0 <= k < keep@.len() ==> #[trigger] keep@[k] == kept_so_far(items@, all, k, i as int),
        decreases items.len() - i,
    {
        let ghost before = keep@;
        match items[i] {
            ChooserItem::Separator => {
                keep[i] = true;
            },
            ChooserItem::Tree(_, None) => {
                parent = Some(i);
            },
            ChooserItem::Tree(_, Some(_)) => {
                if let Some(p) = parent {
                    if hit[p] {
                        keep[i] = true;
                    }
                    if hit[i] {
                        keep[p] = true;
                    }
                }
            },
            _ => {},
        }
        proof {
            assert forall|k: int| 0 <= k < keep@.len() implies #[trigger] keep@[k] == kept_so_far(
                items@,
                all,
                k,
                i + 1,
            ) by {
                assert(before[k] == kept_so_far(items@, all, k, i as int));
                lemma_kept_step(items@, all, k, i as int);
            }
        }
        i = i + 1;
    }
    proof {
        assert forall|k: int| 0 <= k < lines@.len() implies #[trigger] keep@[k] == keeps(items@, all, k) by {
            assert(keep@[k] == kept_so_far(items@, all, k, items@.len() as int));
        }
    }
    keep
}

/// Whether line `i` is kept by what the first `n` lines say.
spec fn kept_so_far(items: Seq<ChooserItem>, hit: Seq<bool>, i: int, n: int) -> bool {
    ||| hit[i]
    ||| i < n && items[i] is Separator
    ||| i < n && is_window(items[i]) && parent_of(items, i) is Some && hit[parent_of(items, i)->0]
    ||| exists|j: int| 0 <= j < n && #[trigger] is_window(items[j]) && parent_of(items, j) == Some(i) && hit[j]
}

proof fn lemma_kept_step(items: Seq<ChooserItem>, hit: Seq<bool>, i: int, n: int)
    requires
        0 <= n < items.len(),
        0 <= i < hit.len(),
        items.len() <= hit.len(),
    ensures
        kept_so_far(items, hit, i, n + 1) == (kept_so_far(items, hit, i, n) || (i == n && items[n] is Separator) || (i
            == n && is_window(items[n]) && parent_of(items, n) is Some && hit[parent_of(items, n)->0]) || (is_window(
            items[n],
        ) && parent_of(items, n) == Some(i) && hit[n])),
{
    if is_window(items[n]) && parent_of(items, n) == Some(i) && hit[n] {
        assert(kept_so_far(items, hit, i, n + 1));
    }
    if exists|j: int| 0 <= j < n && #[trigger] is_window(items[j]) && parent_of(items, j) == Some(i) && hit[j] {
        let j = choose|j: int|
            0 <= j < n && #[trigger] is_window(items[j]) && parent_of(items, j) == Some(i) && hit[j];
        assert(0 <= j < n + 1 && is_window(items[j]));
    }
}

} // verus!
