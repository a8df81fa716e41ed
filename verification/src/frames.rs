//! What a frame of a client shows: the panes on the screen, clocks and
//! numbers over them, and the bell.
use vstd::prelude::*;

use crate::arrange::{place_in, position};
use crate::chooser::ClientId;
use crate::client::Client;
use crate::client_commands::{client_set, lemma_client_set};
use crate::layout::{panes, placed, PaneId, Rect};
use crate::pane::Pane;
use crate::prompt::Prompt;
use crate::server::{area_of, client_place, Server};
use crate::server_edit::{edited, put_window};
use crate::session::SessionState;
use crate::window::{ids, place_of, Window, WindowState};
use crate::window_commands::lemma_window_set;

verus! {

/// A client without its message, when that was shown long enough; nothing is
/// shown too long when it stays until the next key.
pub open spec fn message_left(c: Client, ttl: u64, now: u64) -> Client {
    match c.message {
        Some((_, at)) => if ttl > 0 && now - at > ttl {
            Client { message: None, ..c }
        } else {
            c
        },
        None => c,
    }
}

impl Server {
    /// Messages that were shown long enough go.
    pub fn expire_messages(&mut self, now: u64)
        requires
            old(self).wf(),
        ensures
            final(self).wf(),
            *final(self) == (Server { clients: final(self).clients, ..*old(self) }),
            final(self).clients@ == Seq::new(
                old(self).clients@.len(),
                |k: int| message_left(old(self).clients@[k], old(self).opts.display_time_ms, now),
            ),
    {
        let ttl: u64 = self.opts.display_time_ms;
        let ghost cs = self.clients@;
        let mut k: usize = 0;
        while k < self.clients.len()
            invariant
                k <= self.clients@.len() == cs.len(),
                cs == old(self).clients@,
                ttl == old(self).opts.display_time_ms,
                self.wf(),
                *self == (Server { clients: self.clients, ..*old(self) }),
                forall|j: int| 0 <= j < k ==> #[trigger] self.clients@[j] == message_left(cs[j], ttl, now),
                forall|j: int| k <= j < cs.len() ==> #[trigger] self.clients@[j] == cs[j],
            decreases self.clients.len() - k,
        {
            let over: bool = match &self.clients[k].message {
                Some((_, at)) => ttl > 0 && now > *at && now - *at > ttl,
                None => false,
            };
            if over {
                let ghost before = *self;
                self.clients[k].message = None;
                proof {
                    assert(self.clients@ =~= before.clients@.update(k as int, self.clients@[k as int]));
                    assert(client_set(before, *self, k as int));
                    lemma_client_set(before, *self, k as int);
                }
            }
            assert(self.clients@[k as int] == message_left(cs[k as int], ttl, now));
            k = k + 1;
        }
        assert(self.clients@ =~= Seq::new(cs.len(), |k: int| message_left(cs[k], ttl, now)));
    }
}

/// The panes of a window that are drawn, of the first `k` places: where, and
/// whether it is the active one.
pub open spec fn drawn_panes(w: WindowState, k: int) -> Seq<(PaneId, Rect, bool)>
    decreases k,
{
    if k <= 0 {
        Seq::empty()
    } else {
        let (id, r) = w.rects[k - 1];
        let before = drawn_panes(w, k - 1);
        if w.has(id) {
            before.push((id, r, id == w.active))
        } else {
            before
        }
    }
}

/// Where a clock is drawn, of the first `k` places of a window.
pub open spec fn clock_places(w: WindowState, k: int) -> Seq<Rect>
    decreases k,
{
    if k <= 0 {
        Seq::empty()
    } else {
        let (id, r) = w.rects[k - 1];
        let before = clock_places(w, k - 1);
        if w.has(id) && w.panes[place_of(w.panes, id, 0)].clock {
            before.push(r)
        } else {
            before
        }
    }
}

/// The panes with their numbers, over the rectangles `at`: a pane that is not
/// in the layout would have the first.
pub open spec fn numbers_over(w: WindowState, at: Seq<(PaneId, Rect)>, base: usize) -> Seq<(Rect, int, bool)> {
    Seq::new(
        at.len(),
        |k: int|
            {
                let n = place_in(panes(w.tree), at[k].0, 0);
                (
                    at[k].1,
                    (if n < panes(w.tree).len() {
                        n
                    } else {
                        0
                    }) + base,
                    at[k].0 == w.active,
                )
            },
    )
}

/// Numbers as mathematics.
pub open spec fn number_values(v: Seq<(Rect, u128, bool)>) -> Seq<(Rect, int, bool)> {
    Seq::new(v.len(), |k: int| (v[k].0, v[k].1 as int, v[k].2))
}

/// The window a session shows.
pub open spec fn shown_window(s: SessionState) -> WindowState {
    s.windows[s.cur]
}

impl Server {
    /// The panes that are drawn of a session.
    pub fn shown_panes(&self, i: usize) -> (out: Vec<(PaneId, Rect, bool)>)
        requires
            self.wf(),
            i < self.states().len(),
        ensures
            ({
                let w = shown_window(self.states()[i as int]);
                out@ == drawn_panes(w, w.rects.len() as int)
            }),
    {
        let s = &self.sessions[i];
        assert(s@ == self.states()[i as int]);
        assert(s@.wf());
        let w = &s.windows[s.cur];
        assert(w@ == s@.windows[s@.cur]);
        let mut out: Vec<(PaneId, Rect, bool)> = Vec::new();
        let mut k: usize = 0;
        while k < w.rects.len()
            invariant
                k <= w.rects@.len(),
                out@ == drawn_panes(w@, k as int),
            decreases w.rects.len() - k,
        {
            let (id, r) = w.rects[k];
            if w.has(id) {
                out.push((id, r, id == w.active));
            }
            k = k + 1;
        }
        out
    }

    /// Where clocks are drawn in a session.
    pub fn clocks(&self, i: usize) -> (out: Vec<Rect>)
        requires
            self.wf(),
            i < self.states().len(),
        ensures
            ({
                let w = shown_window(self.states()[i as int]);
                out@ == clock_places(w, w.rects.len() as int)
            }),
    {
        let s = &self.sessions[i];
        assert(s@ == self.states()[i as int]);
        assert(s@.wf());
        let w = &s.windows[s.cur];
        assert(w@ == s@.windows[s@.cur]);
        let mut out: Vec<Rect> = Vec::new();
        let mut k: usize = 0;
        while k < w.rects.len()
            invariant
                k <= w.rects@.len(),
                out@ == clock_places(w@, k as int),
            decreases w.rects.len() - k,
        {
            let (id, r) = w.rects[k];
            let p: usize = w.place(id);
            if p < w.panes.len() && w.panes[p].clock {
                out.push(r);
            }
            k = k + 1;
        }
        out
    }

    /// The numbers drawn over the panes of a session, while a client shows
    /// them. In a zoomed window every pane can be picked: each number is where
    /// its pane would be.
    pub fn pane_numbers(&self, cid: ClientId, i: usize, now: u64) -> (out: Option<Vec<(Rect, u128, bool)>>)
        requires
            self.wf(),
            i < self.states().len(),
        ensures
            ({
                let c = client_place(self.clients@, cid, 0);
                let s = self.states()[i as int];
                let w = shown_window(s);
                let until = self.clients@[c].panes_until;
                let at = if w.zoomed {
                    placed(w.tree, area_of(self.opts, s.cols, s.rows))
                } else {
                    w.rects
                };
                if c < self.clients@.len() && until is Some && now < until->0 {
                    out is Some && number_values(out->0@) == numbers_over(w, at, self.opts.pane_base_index)
                } else {
                    out is None
                }
            }),
    {
        let c: usize = self.client_at(cid);
        if c >= self.clients.len() {
            return None;
        }
        let showing: bool = match self.clients[c].panes_until {
            Some(t) => now < t,
            None => false,
        };
        if !showing {
            return None;
        }
        let s = &self.sessions[i];
        assert(s@ == self.states()[i as int]);
        assert(s@.wf());
        let w = &s.windows[s.cur];
        assert(w@ == s@.windows[s@.cur]);
        assert(w@.wf());
        let order = w.layout.panes();
        let mut at: Vec<(PaneId, Rect)> = Vec::new();
        if w.zoomed {
            let mut tree = w.layout.clone();
            let area = self.window_area(s.cols, s.rows);
            let ghost want = placed(w@.tree, area);
            tree.layout(area, &mut at);
            assert(at@ =~= want);
        } else {
            let mut k: usize = 0;
            while k < w.rects.len()
                invariant
                    k <= w.rects@.len(),
                    at@ =~= w.rects@.take(k as int),
                decreases w.rects.len() - k,
            {
                at.push(w.rects[k]);
                k = k + 1;
            }
            assert(at@ =~= w.rects@);
        }
        let base: usize = self.opts.pane_base_index;
        let mut out: Vec<(Rect, u128, bool)> = Vec::new();
        let mut k: usize = 0;
        while k < at.len()
            invariant
                k <= at@.len(),
                order@ == panes(w@.tree),
                out@.len() == k,
                forall|j: int| 0 <= j < k ==> #[trigger] number_values(out@)[j] == numbers_over(w@, at@, base)[j],
            decreases at.len() - k,
        {
            let (id, r) = at[k];
            let n: usize = position(&order, id);
            let first: usize = if n < order.len() { n } else { 0 };
            let ghost before = number_values(out@);
            out.push((r, first as u128 + base as u128, id == w.active));
            assert forall|j: int| 0 <= j <= k implies #[trigger] number_values(out@)[j] == numbers_over(w@, at@, base)[j] by {
                if j < k {
                    assert(number_values(out@)[j] == before[j]);
                }
            }
            k = k + 1;
        }
        assert(number_values(out@) =~= numbers_over(w@, at@, base));
        Some(out)
    }
}

/// Panes without their bells.
pub open spec fn quieted(v: Seq<Pane>) -> Seq<Pane> {
    Seq::new(v.len(), |k: int| Pane { bell: false, ..v[k] })
}

/// Some pane of a row rang.
pub open spec fn any_rang(v: Seq<Pane>) -> bool {
    exists|k: int| 0 <= k < v.len() && (#[trigger] v[k]).bell
}

/// A window whose panes rang, which was heard.
pub open spec fn heard(w: WindowState) -> WindowState {
    WindowState { panes: quieted(w.panes), ..w }
}

proof fn lemma_heard(w: WindowState)
    requires
        w.settled(),
    ensures
        heard(w).settled(),
        ids(heard(w).panes) == ids(w.panes),
{
    let after = heard(w);
    assert(ids(after.panes) =~= ids(w.panes));
    assert forall|i: int| 0 <= i < after.rects.len() implies after.has((#[trigger] after.rects[i]).0) by {
        assert(w.has(w.rects[i].0));
    }
    assert forall|i: int| 0 <= i < after.cells.len() implies after.has((#[trigger] after.cells[i]).0) by {
        assert(w.has(w.cells[i].0));
    }
}

impl Window {
    /// Whether a pane rang since this was asked.
    pub fn take_bells(&mut self) -> (rang: bool)
        ensures
            final(self)@ == heard(old(self)@),
            rang == any_rang(old(self)@.panes),
    {
        let ghost before = self@;
        let mut rang: bool = false;
        let mut k: usize = 0;
        while k < self.panes.len()
            invariant
                k <= self.panes@.len() == before.panes.len(),
                self@ == (WindowState { panes: self.panes@, ..before }),
                forall|j: int| 0 <= j < k ==> #[trigger] self.panes@[j] == (Pane { bell: false, ..before.panes[j] }),
                forall|j: int| k <= j < before.panes.len() ==> #[trigger] self.panes@[j] == before.panes[j],
                rang ==> any_rang(before.panes),
                !rang ==> forall|j: int| 0 <= j < k ==> !(#[trigger] before.panes[j]).bell,
            decreases self.panes.len() - k,
        {
            if self.panes[k].bell {
                assert(before.panes[k as int].bell);
                rang = true;
                self.panes[k].bell = false;
            }
            k = k + 1;
        }
        assert(self@ =~= heard(before));
        rang
    }
}

impl Server {
    /// Whether the bell rings with a client's next frame: one from a window
    /// it does not look at, or one of the panes it sees.
    pub fn ring(&mut self, cid: ClientId, i: usize) -> (bell: bool)
        requires
            old(self).wf(),
            i < old(self).states().len(),
        ensures
            final(self).wf(),
            *final(self) == (Server {
                sessions: final(self).sessions,
                clients: final(self).clients,
                ..*old(self)
            }),
            ({
                let c = client_place(old(self).clients@, cid, 0);
                let ss = old(self).states();
                let j = ss[i as int].cur;
                let w = ss[i as int].windows[j];
                let own = c < old(self).clients@.len() && old(self).clients@[c].pending_bell;
                &&& bell == (own || any_rang(w.panes))
                &&& final(self).states() == edited(ss, i as int, j, heard(w))
                &&& final(self).clients@ == if c < old(self).clients@.len() {
                    old(self).clients@.update(c, Client { pending_bell: false, ..old(self).clients@[c] })
                } else {
                    old(self).clients@
                }
            }),
    {
        let ghost begin = *self;
        let c: usize = self.client_at(cid);
        let mut bell: bool = false;
        if c < self.clients.len() {
            bell = self.clients[c].pending_bell;
            self.clients[c].pending_bell = false;
            proof {
                let quiet = Client { pending_bell: false, ..begin.clients@[c as int] };
                assert(self.clients@ =~= begin.clients@.update(c as int, quiet));
                assert(client_set(begin, *self, c as int));
                lemma_client_set(begin, *self, c as int);
            }
        }
        let ghost before = *self;
        let ghost s = before.states()[i as int];
        let ghost w = s.windows[s.cur];
        proof {
            assert(before.states() =~= begin.states());
            assert(s == self.sessions@[i as int]@);
            assert(s.wf());
            assert(w == self.sessions@[i as int].windows@[s.cur]@);
            assert(w.settled());
            lemma_heard(w);
        }
        let j: usize = self.sessions[i].cur;
        let rang: bool = self.sessions[i].windows[j].take_bells();
        proof {
            assert(self.sessions@[i as int]@ =~= put_window(s, j as int, heard(w)));
            assert forall|id: PaneId| #[trigger] heard(w).has(id) implies w.has(id) by {}
            lemma_window_set(before, *self, i as int, j as int, heard(w));
        }
        bell || rang
    }
}

/// The prompt as it is drawn: what stands before the input, the input, and
/// where its cursor is.
pub fn prompt_line(p: &Prompt) -> (r: (String, String, usize))
    ensures
        r.0@ == match p.hint {
            Some(h) => h@,
            None => p.label@,
        },
        r.1@ == p.input@,
        r.2 == p.cursor,
{
    let head: String = match &p.hint {
        Some(h) => h.clone(),
        None => p.label.clone(),
    };
    (head, p.input.clone(), p.cursor)
}

/// What is sent for a frame: what changed, with the bell before it, or nothing
/// when there is neither.
pub fn frame_bytes(changed: bool, bell: bool, diff: Vec<u8>) -> (out: Option<Vec<u8>>)
    ensures
        match out {
            Some(b) => (changed || bell) && b@ == if bell {
                seq![7u8] + diff@
            } else {
                diff@
            },
            None => !changed && !bell,
        },
{
    if !changed && !bell {
        return None;
    }
    if bell {
        let mut all: Vec<u8> = Vec::new();
        all.push(7);
        let mut more = diff;
        all.append(&mut more);
        assert(all@ =~= seq![7u8] + diff@);
        Some(all)
    } else {
        Some(diff)
    }
}

} // verus!
