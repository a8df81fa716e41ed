//! What is decided before a client's screen is drawn: which part of the
//! window it shows, where its picker stands, and what is written where.
use vstd::prelude::*;

use crate::chooser::{settled, Chooser, ChooserItem, ChooserKind};
use crate::chooser_keys::{place_of as item_place};
use crate::client::{Client, Popup};
use crate::client_commands::{client_set, lemma_client_set};
use crate::chooser::ClientId;
use crate::context::less;
use crate::history::{day, mark_dated};
use crate::layout::Rect;
use crate::marks::{push_signed, signed, Mark, Pinned};
use crate::pane::sized;
use crate::popup::{popup_extent, popup_rect, popup_start, text_of};
use crate::server::{area_of, client_place, Server};
use crate::tasks::words_it;
use crate::text::{chars_of, decimal, join_texts, joined2, joined3, joined_by, number_text, same_text, string_of, texts_of, trim, trimmed};
use crate::time::{format_time, time_text, Time};

verus! {

/// How long the cursor is out of view before the view follows it.
pub const FOLLOW_AFTER: u64 = 150;

/// The least time between two frames, in milliseconds.
pub const FRAME: u64 = 16;

/// A number, or `most` where it is more.
pub open spec fn at_most(n: int, most: int) -> int {
    if n < most {
        n
    } else {
        most
    }
}

/// Whether a place is out of the part of a window from `v` on that is `size`
/// long.
pub open spec fn beyond(at: int, v: int, size: int) -> bool {
    at < v || (size > 0 && at >= v + size)
}

/// Where the view begins once it shows the place `at`.
pub open spec fn brought(at: int, v: int, size: int) -> int {
    if at < v {
        at
    } else if size > 0 && at >= v + size {
        at + 1 - size
    } else {
        v
    }
}

/// A client's view of a window larger than its screen: kept to the window,
/// and following the active pane's cursor unless it was panned by hand.
pub open spec fn viewed(c: Client, whole: Rect, area: Rect, cursor: Option<(u16, u16)>, now: u64) -> Client {
    let max_x = less(whole.w as int, area.w as int);
    let max_y = less(whole.h as int, area.h as int);
    let vx = at_most(c.view_x as int, max_x);
    let vy = at_most(c.view_y as int, max_y);
    let seen = match cursor {
        Some((x, y)) => Some((less(x as int, whole.x as int), less(y as int, whole.y as int))),
        None => None,
    };
    let outside = match seen {
        Some((x, y)) => beyond(x, vx, area.w as int) || beyond(y, vy, area.h as int),
        None => false,
    };
    let since = if !outside || c.cursor_out is None {
        now
    } else {
        c.cursor_out->0
    };
    let long = outside && now >= since && now - since >= FOLLOW_AFTER;
    let follow = !c.view_pinned && (c.view_follow || long) && seen is Some;
    Client {
        view_x: (if follow {
            at_most(brought((seen->0).0, vx, area.w as int), max_x)
        } else {
            vx
        }) as u16,
        view_y: (if follow {
            at_most(brought((seen->0).1, vy, area.h as int), max_y)
        } else {
            vy
        }) as u16,
        view_follow: false,
        cursor_out: if follow {
            None
        } else {
            Some(since)
        },
        ..c
    }
}

/// Where a place of the whole window is on a client's screen, if it is.
pub open spec fn on_view(at: (u16, u16), c: Client, whole: Rect, area: Rect) -> Option<(int, int)> {
    let x = at.0 - (whole.x + c.view_x);
    let y = at.1 - (whole.y + c.view_y);
    if 0 <= x < area.w && 0 <= y < area.h {
        Some((area.x + x, area.y + y))
    } else {
        None
    }
}

fn bring(at: u16, v: u16, size: u16, most: u16) -> (n: u16)
    requires
        v + size <= u16::MAX,
    ensures
        n == at_most(brought(at as int, v as int, size as int), most as int),
{
    let n: u16 = if at < v {
        at
    } else if size > 0 && at >= v + size {
        at - size + 1
    } else {
        v
    };
    if n < most {
        n
    } else {
        most
    }
}

impl Client {
    /// Move the view of a client whose session has another size than its
    /// screen.
    pub fn follow(&mut self, whole: Rect, area: Rect, cursor: Option<(u16, u16)>, now: u64)
        ensures
            *final(self) == viewed(*old(self), whole, area, cursor, now),
    {
        let max_x: u16 = whole.w.saturating_sub(area.w);
        let max_y: u16 = whole.h.saturating_sub(area.h);
        let vx: u16 = if self.view_x < max_x { self.view_x } else { max_x };
        let vy: u16 = if self.view_y < max_y { self.view_y } else { max_y };
        let mut outside: bool = false;
        let mut x: u16 = 0;
        let mut y: u16 = 0;
        if let Some((cx, cy)) = cursor {
            x = cx.saturating_sub(whole.x);
            y = cy.saturating_sub(whole.y);
            outside = x < vx || y < vy || (area.w > 0 && x >= vx + area.w) || (area.h > 0 && y >= vy + area.h);
        }
        let mut since: u64 = now;
        if outside {
            if let Some(t) = self.cursor_out {
                since = t;
            }
        }
        let long: bool = outside && now >= since && now - since >= FOLLOW_AFTER;
        let follow: bool = !self.view_pinned && (self.view_follow || long) && cursor.is_some();
        self.view_follow = false;
        if follow {
            self.view_x = bring(x, vx, area.w, max_x);
            self.view_y = bring(y, vy, area.h, max_y);
            self.cursor_out = None;
        } else {
            self.view_x = vx;
            self.view_y = vy;
            self.cursor_out = Some(since);
        }
    }

    /// Where a place of the whole window is on the screen of a client that
    /// shows a part of it.
    pub fn place_on_view(&self, at: (u16, u16), whole: Rect, area: Rect) -> (p: Option<(u16, u16)>)
        requires
            area.fits(),
        ensures
            match (p, on_view(at, *self, whole, area)) {
                (Some(a), Some(b)) => a.0 == b.0 && a.1 == b.1,
                (None, None) => true,
                _ => false,
            },
    {
        let left: u32 = whole.x as u32 + self.view_x as u32;
        let top: u32 = whole.y as u32 + self.view_y as u32;
        if (at.0 as u32) < left || (at.1 as u32) < top {
            return None;
        }
        let x: u32 = at.0 as u32 - left;
        let y: u32 = at.1 as u32 - top;
        if x < area.w as u32 && y < area.h as u32 {
            Some((area.x + x as u16, area.y + y as u16))
        } else {
            None
        }
    }
}

/// The view is always on the window, and a cursor that it follows is on it.
pub proof fn lemma_view_on_window(c: Client, whole: Rect, area: Rect, cursor: Option<(u16, u16)>, now: u64)
    ensures
        viewed(c, whole, area, cursor, now).view_x <= less(whole.w as int, area.w as int),
        viewed(c, whole, area, cursor, now).view_y <= less(whole.h as int, area.h as int),
        !c.view_pinned && c.view_follow && cursor is Some && 0 < area.w <= whole.w && 0 < area.h <= whole.h
            && whole.fits() && whole.has((cursor->0).0 as int, (cursor->0).1 as int) ==> on_view(
            cursor->0,
            viewed(c, whole, area, cursor, now),
            whole,
            area,
        ) is Some,
{
}

/// A picker of live things after its lines were made afresh: the selection
/// follows what it was on, so that things that come or go do not move it.
pub open spec fn is_relisted(before: Chooser, after: Chooser, items: Vec<ChooserItem>, lines: Vec<String>) -> bool {
    let old_item: Option<ChooserItem> = if before.sel < before.items@.len() {
        Some(before.items@[before.sel as int])
    } else {
        None
    };
    let found = match old_item {
        Some(w) => item_place(items@, w, 0),
        None => None,
    };
    let last = if items@.len() > 0 {
        items@.len() - 1
    } else {
        0
    };
    let sel = match found {
        Some(i) => i,
        None => at_most(before.sel as int, last),
    };
    after == (Chooser {
        items,
        lines,
        sel: match settled(items@, sel, 1) {
            Some(i) => i as usize,
            None => sel as usize,
        },
        ..before
    })
}

/// Where a picker's list begins so that its selection is on the screen.
pub open spec fn scrolled(top: int, sel: int, body: int) -> int {
    if sel < top {
        sel
    } else if body > 0 && sel >= top + body {
        sel + 1 - body
    } else {
        top
    }
}

fn find_item(items: &Vec<ChooserItem>, item: ChooserItem) -> (i: Option<usize>)
    ensures
        match i {
            Some(k) => item_place(items@, item, 0) == Some(k as int) && k < items@.len(),
            None => item_place(items@, item, 0) is None,
        },
{
    let mut i: usize = 0;
    while i < items.len()
        invariant
            i <= items@.len(),
            item_place(items@, item, 0) == item_place(items@, item, i as int),
        decreases items.len() - i,
    {
        if items[i] == item {
            return Some(i);
        }
        i = i + 1;
    }
    None
}

impl Chooser {
    /// Take lines made afresh. A filter may have taken the selected line
    /// away.
    pub fn relist(&mut self, items: Vec<ChooserItem>, lines: Vec<String>)
        ensures
            is_relisted(*old(self), *final(self), items, lines),
    {
        let last: usize = if items.len() > 0 { items.len() - 1 } else { 0 };
        let mut sel: usize = if self.sel < last { self.sel } else { last };
        if self.sel < self.items.len() {
            if let Some(i) = find_item(&items, self.items[self.sel]) {
                sel = i;
            }
        }
        self.sel = sel;
        self.items = items;
        self.lines = lines;
        let _ = self.settle(1);
    }

    /// Scroll so that the selection is in the `body` rows of the picker.
    pub fn scroll(&mut self, body: usize)
        requires
            old(self).top + body <= usize::MAX,
        ensures
            *final(self) == (Chooser {
                top: scrolled(old(self).top as int, old(self).sel as int, body as int) as usize,
                ..*old(self)
            }),
    {
        if self.sel < self.top {
            self.top = self.sel;
        } else if body > 0 && self.sel >= self.top + body {
            self.top = self.sel - body + 1;
        }
    }

    /// What its keys do, for the line above a picker.
    pub fn actions(&self) -> (s: &'static str)
        ensures
            s@ == match self.kind {
                ChooserKind::Jobs => "Enter go  x kill  r restart  t tag  f filter"@,
                ChooserKind::Tree { .. } => "Enter select  x kill  t tag  f filter"@,
                ChooserKind::Clients => "Enter detach  f filter"@,
                ChooserKind::Buffers => "Enter paste  f filter"@,
                ChooserKind::History { .. } => "Enter open  + - fold"@,
                _ => "Enter select"@,
            },
    {
        match &self.kind {
            ChooserKind::Jobs => "Enter go  x kill  r restart  t tag  f filter",
            ChooserKind::Tree { .. } => "Enter select  x kill  t tag  f filter",
            ChooserKind::Clients => "Enter detach  f filter",
            ChooserKind::Buffers => "Enter paste  f filter",
            ChooserKind::History { .. } => "Enter open  + - fold",
            _ => "Enter select",
        }
    }

    /// How many lines are tagged and what the filter is, where there are any.
    pub fn status(&self) -> (s: String)
        ensures
            ({
                let parts = (if self.tagged@.len() > 0 {
                    seq!["["@ + decimal(self.tagged@.len()) + " tagged]"@]
                } else {
                    Seq::empty()
                }) + (if trim(self.filter@).len() > 0 {
                    seq!["[filter: "@ + trim(self.filter@) + "]"@]
                } else {
                    Seq::empty()
                });
                s@ == joined_by(parts, " "@, parts.len() as int)
            }),
    {
        let mut parts: Vec<String> = Vec::new();
        if self.tagged.len() > 0 {
            parts.push(joined3("[", number_text(self.tagged.len() as u64).as_str(), " tagged]"));
        }
        let f = trimmed(&chars_of(self.filter.as_str()));
        if f.len() > 0 {
            let text = string_of(&f, 0, f.len());
            assert(text@ =~= trim(self.filter@));
            parts.push(joined3("[filter: ", text.as_str(), "]"));
        }
        assert(texts_of(parts@) =~= (if self.tagged@.len() > 0 {
            seq!["["@ + decimal(self.tagged@.len()) + " tagged]"@]
        } else {
            Seq::empty()
        }) + (if trim(self.filter@).len() > 0 {
            seq!["[filter: "@ + trim(self.filter@) + "]"@]
        } else {
            Seq::empty()
        }));
        join_texts(&parts, " ")
    }
}

/// The box of a popup, as it was asked for, in an area.
pub open spec fn popup_box(p: Popup, area: Rect) -> Rect {
    let w = popup_extent(crate::observe::opt_text(p.width), area.w as int);
    let h = popup_extent(crate::observe::opt_text(p.height), area.h as int);
    Rect {
        x: (area.x + popup_start(crate::observe::opt_text(p.x), area.w as int, w)) as u16,
        y: (area.y + popup_start(crate::observe::opt_text(p.y), area.h as int, h)) as u16,
        w: w as u16,
        h: h as u16,
    }
}

fn as_text(s: &Option<String>) -> (t: Option<&str>)
    ensures
        text_of(t) == crate::observe::opt_text(*s),
{
    match s {
        Some(s) => Some(s.as_str()),
        None => None,
    }
}

/// A popup where its box follows the terminal, or nothing where no room is
/// left to draw it.
pub open spec fn refitted_popup(p: Popup, area: Rect) -> Option<Popup> {
    let r = popup_box(p, area);
    if r.w < 3 || r.h < 3 {
        None
    } else {
        Some(Popup { rect: r, pane: sized(p.pane, (r.w - 2) as u16, (r.h - 2) as u16), ..p })
    }
}

impl Server {
    /// The popup of a client follows the size of its terminal.
    pub fn refit_popup(&mut self, cid: ClientId)
        requires
            old(self).wf(),
            forall|c: int| 0 <= c < old(self).clients@.len() ==> (#[trigger] old(self).clients@[c]).cols >= 1
                && old(self).clients@[c].rows >= 1,
        ensures
            final(self).wf(),
            ({
                let cs = old(self).clients@;
                let k = client_place(cs, cid, 0);
                if k < cs.len() && cs[k].popup is Some {
                    &&& client_set(*old(self), *final(self), k)
                    &&& final(self).clients@[k] == (Client {
                        popup: refitted_popup(cs[k].popup->0, area_of(old(self).opts, cs[k].cols, cs[k].rows)),
                        ..cs[k]
                    })
                } else {
                    *final(self) == *old(self)
                }
            }),
    {
        let k: usize = self.client_at(cid);
        if k >= self.clients.len() || self.clients[k].popup.is_none() {
            return;
        }
        let ghost before = *self;
        let area: Rect = self.window_area(self.clients[k].cols, self.clients[k].rows);
        let popup = self.clients[k].popup.take();
        if let Some(mut p) = popup {
            let rect: Rect = popup_rect(area, as_text(&p.width), as_text(&p.height), as_text(&p.x), as_text(&p.y));
            let ghost p0 = p;
            assert(rect == popup_box(p0, area));
            if rect.w >= 3 && rect.h >= 3 {
                p.rect = rect;
                let _ = p.pane.resize(rect.w - 2, rect.h - 2);
                self.clients[k].popup = Some(p);
            }
        }
        proof {
            assert(self.clients@ =~= before.clients@.update(k as int, self.clients@[k as int]));
            lemma_client_set(before, *self, k as int);
        }
    }
}

/// The colour of a part of a time stamp.
#[derive(Clone, Copy, Debug, PartialEq, Eq, Structural)]
pub enum Tone {
    Quiet,
    Good,
    Bad,
}

/// What stands at the end of a command's line: when it started, how long it
/// took and how it ended.
pub open spec fn stamp(m: Pinned, now: Time, short: bool, words: spec_fn(i64) -> Seq<char>) -> Seq<(Seq<char>, Tone)> {
    match m.end {
        None => Seq::empty(),
        Some(end) => {
            let at = match m.start {
                Some(t) => t,
                None => end,
            };
            seq![
                (
                    if day(at) == day(now) {
                        time_text(at.ms, at.offset, "%H:%M:%S"@)
                    } else {
                        time_text(at.ms, at.offset, "%m-%d %H:%M:%S"@)
                    },
                    Tone::Quiet,
                ),
            ] + (match m.start {
                Some(start) => if short {
                    Seq::empty()
                } else {
                    seq![(" "@ + words((end.ms - start.ms) as i64), Tone::Quiet)]
                },
                None => Seq::empty(),
            }) + (match m.exit {
                None => Seq::empty(),
                Some(code) => if code == 0 {
                    seq![(" \u{2713}"@, Tone::Good)]
                } else if code == 1 {
                    seq![(" \u{2717}"@, Tone::Bad)]
                } else {
                    seq![(" \u{2717}"@ + signed(code as int), Tone::Bad)]
                },
            })
        },
    }
}

/// Parts of a stamp as mathematics.
pub open spec fn stamp_values(v: Seq<(String, Tone)>) -> Seq<(Seq<char>, Tone)> {
    Seq::new(v.len(), |i: int| (v[i].0@, v[i].1))
}

/// What `pane-timestamps` writes at the end of a command's line: when it
/// started (the date too when not today), how long it took and how it ended.
/// `short` leaves only the time and the ending, for a narrow line.
pub fn stamp_parts<F: Fn(i64) -> String>(m: &Mark, now: Time, short: bool, say: &F) -> (out: Vec<(String, Tone)>)
    requires
        mark_dated(m@),
        now.valid(),
        forall|ms: i64| #[trigger] call_requires(*say, (ms,)),
    ensures
        forall|words: spec_fn(i64) -> Seq<char>| #[trigger]
            words_it(*say, words) ==> stamp_values(out@) == stamp(m@, now, short, words),
{
    let mut out: Vec<(String, Tone)> = Vec::new();
    let end: Time = match m.end {
        Some(e) => e,
        None => {
            assert(stamp_values(out@) =~= Seq::empty());
            return out;
        },
    };
    let at: Time = match m.start {
        Some(t) => t,
        None => end,
    };
    let today: bool = same_text(format_time(at, "%Y-%m-%d").as_str(), format_time(now, "%Y-%m-%d").as_str());
    let when = if today { format_time(at, "%H:%M:%S") } else { format_time(at, "%m-%d %H:%M:%S") };
    let ghost w = when@;
    out.push((when, Tone::Quiet));
    let ghost one = stamp_values(out@);
    assert(one =~= seq![(w, Tone::Quiet)]);
    let mut took: Option<String> = None;
    if !short {
        if let Some(start) = m.start {
            let t = say(end.ms - start.ms);
            took = Some(joined2(" ", t.as_str()));
        }
    }
    if let Some(t) = took {
        out.push((t, Tone::Quiet));
    }
    let ghost two = stamp_values(out@);
    proof {
        assert forall|words: spec_fn(i64) -> Seq<char>| #[trigger] words_it(*say, words) implies two == one + (
        match m.start {
            Some(start) => if short {
                Seq::empty()
            } else {
                seq![(" "@ + words((end.ms - start.ms) as i64), Tone::Quiet)]
            },
            None => Seq::<(Seq<char>, Tone)>::empty(),
        }) by {
            assert(two =~= one + (match m.start {
                Some(start) => if short {
                    Seq::empty()
                } else {
                    seq![(" "@ + words((end.ms - start.ms) as i64), Tone::Quiet)]
                },
                None => Seq::<(Seq<char>, Tone)>::empty(),
            }));
        }
    }
    if let Some(code) = m.exit {
        if code == 0 {
            out.push((" \u{2713}".to_owned(), Tone::Good));
        } else {
            let mut t = " \u{2717}".to_owned();
            if code != 1 {
                push_signed(&mut t, code as i64);
            }
            out.push((t, Tone::Bad));
        }
    }
    assert(stamp_values(out@) =~= two + (match m.exit {
        None => Seq::<(Seq<char>, Tone)>::empty(),
        Some(code) => if code == 0 {
            seq![(" \u{2713}"@, Tone::Good)]
        } else if code == 1 {
            seq![(" \u{2717}"@, Tone::Bad)]
        } else {
            seq![(" \u{2717}"@ + signed(code as int), Tone::Bad)]
        },
    }));
    out
}

/// Whether a frame is drawn now: at most one in each interval, so that panes
/// printing flat out are not redrawn for every read. Where not, how long until
/// the one that is due.
pub fn frame_due(last: u64, now: u64) -> (wait: Option<u64>)
    ensures
        match wait {
            None => now >= last && now - last >= FRAME,
            Some(ms) => (now < last && ms == FRAME) || (now >= last && now - last < FRAME && ms == FRAME - (now - last)),
        },
{
    if now < last {
        return Some(FRAME);
    }
    let gone: u64 = now - last;
    if gone >= FRAME {
        None
    } else {
        Some(FRAME - gone)
    }
}

} // verus!
