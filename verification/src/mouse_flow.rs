//! Where a mouse event goes: the picker, a border being dragged, the status
//! line, a border, or a pane.
use vstd::prelude::*;

use crate::chooser::{lemma_stepped, open_at, stepped, Chooser, ChooserItem, ClientId, SessionId};
use crate::client::{Client, Drag};
use crate::command::Dir;
use crate::edit::capped;
use crate::layout::{PaneId, Rect};
use crate::mouse::{border_owner, decode_mouse, decoded, find_label, hit, hit_in, label_at, owner_in, MouseEvent, MouseRecord, BTN_LEFT};
use crate::moves::lemma_sound_of_wf;
use crate::server::{area_of, client_place, session_place, Options, Server};
use crate::server_edit::{edited, lemma_clients_stay, lemma_edited, put_window, relaid};
use crate::session::SessionState;
use crate::window_edit::lemma_nudged;

verus! {

/// What is left to do of a mouse event.
#[derive(Clone, Copy, Debug, PartialEq, Eq, Structural)]
pub enum MouseStep {
    Nothing,
    /// A window was selected by its label.
    Window,
    /// It is on a pane, at that column and row of it.
    Pane { id: PaneId, px: u16, py: u16, event: MouseEvent },
}

/// The sessions, the client and what is left to do.
pub ghost struct MouseResult {
    pub states: Seq<SessionState>,
    pub client: Client,
    pub step: MouseStep,
}

/// The picker after the mouse: the wheel moves the selection, a click puts
/// it on that line, unless that is a title or separator.
pub open spec fn picked_with(ch: Chooser, e: MouseEvent, area: Rect) -> Chooser {
    let line = ch.top + e.y - area.y;
    if e.wheel is Some {
        Chooser {
            sel: stepped(
                ch.items@,
                ch.sel as int,
                if e.wheel->0 {
                    -1
                } else {
                    1
                },
            ) as usize,
            ..ch
        }
    } else if e.pressed & BTN_LEFT != 0 && e.y >= area.y && e.y + 1 < area.y + area.h && open_at(ch.items@, line) {
        Chooser { sel: line as usize, ..ch }
    } else {
        ch
    }
}

/// The mouse never puts the selection on a title or separator.
pub proof fn lemma_mouse_keeps_off_titles(ch: Chooser, e: MouseEvent, area: Rect)
    requires
        open_at(ch.items@, ch.sel as int),
    ensures
        open_at(picked_with(ch, e, area).items@, picked_with(ch, e, area).sel as int),
{
    lemma_stepped(ch.items@, ch.sel as int, 1);
    lemma_stepped(ch.items@, ch.sel as int, -1);
    assert(ch.items.len() <= usize::MAX);
}

/// A place as far as a window's columns and rows are counted.
pub open spec fn shifted(a: u16, by: u16) -> u16 {
    if a + by > u16::MAX {
        u16::MAX
    } else {
        (a + by) as u16
    }
}

/// How a drag that is at `pos` now moves its border.
pub open spec fn drag_dir(d: Drag, pos: int) -> Dir {
    if d.horizontal {
        if pos > d.last {
            Dir::Right
        } else {
            Dir::Left
        }
    } else if pos > d.last {
        Dir::Down
    } else {
        Dir::Up
    }
}

pub open spec fn drag_amount(d: Drag, pos: int) -> u16 {
    capped(
        if pos > d.last {
            pos - d.last
        } else {
            d.last - pos
        },
    ) as u16
}

/// Where the mouse is along a drag.
pub open spec fn drag_place(d: Drag, e: MouseEvent, c: Client) -> int {
    if d.horizontal {
        e.x + c.view_x
    } else {
        e.y + c.view_y
    }
}

/// The row of the status line.
pub open spec fn status_row(opts: Options, rows: u16) -> Option<u16> {
    if !opts.status {
        None
    } else if opts.status_top || rows == 0 {
        Some(0)
    } else {
        Some((rows - 1) as u16)
    }
}

/// A mouse event at client `c`, which looks at session `i`; nothing is shown
/// that keeps the mouse away.
pub open spec fn mouse_at(ss: Seq<SessionState>, opts: Options, i: int, c: Client, e: MouseEvent) -> MouseResult {
    let s = ss[i];
    let w = s.windows[s.cur];
    let seen = Client { mouse_buttons: e.buttons, ..c };
    let free = Client { drag: None, ..seen };
    let nothing = MouseStep::Nothing;
    if c.chooser is Some {
        MouseResult {
            states: ss,
            client: Client {
                chooser: Some(picked_with(c.chooser->0, e, area_of(opts, c.cols, c.rows))),
                ..seen
            },
            step: nothing,
        }
    } else if e.sideways {
        MouseResult { states: ss, client: seen, step: nothing }
    } else if c.drag is Some && e.buttons & BTN_LEFT != 0 {
        let d = c.drag->0;
        let pos = drag_place(d, e, c);
        MouseResult {
            states: if pos == d.last {
                ss
            } else {
                relaid(edited(ss, i, s.cur, w.nudged(d.pane, drag_dir(d, pos), drag_amount(d, pos))), i, opts)
            },
            client: Client { drag: Some(Drag { last: pos as u32, ..d }), ..seen },
            step: nothing,
        }
    } else if status_row(opts, c.rows) == Some(e.y) {
        MouseResult {
            states: match label_at(c.window_hits@, e.x, 0) {
                Some(k) => if e.pressed & BTN_LEFT != 0 {
                    ss.update(i, s.with_current(k))
                } else {
                    ss
                },
                None => ss,
            },
            client: free,
            step: if label_at(c.window_hits@, e.x, 0) is Some && e.pressed & BTN_LEFT != 0 {
                MouseStep::Window
            } else {
                nothing
            },
        }
    } else {
        let x = shifted(e.x, c.view_x);
        let y = shifted(e.y, c.view_y);
        match hit_in(w.rects, x as int, y as int, 0) {
            None => {
                let owner = owner_in(w.rects, x as int, y as int, 0);
                let starts = e.pressed & BTN_LEFT != 0 && opts.mouse && area_of(opts, s.cols, s.rows).has(
                    x as int,
                    y as int,
                ) && owner is Some;
                MouseResult {
                    states: ss,
                    client: if starts {
                        Client {
                            drag: Some(
                                Drag {
                                    pane: (owner->0).0,
                                    horizontal: (owner->0).1,
                                    last: if (owner->0).1 {
                                        x as u32
                                    } else {
                                        y as u32
                                    },
                                },
                            ),
                            ..free
                        }
                    } else {
                        free
                    },
                    step: nothing,
                }
            },
            Some((id, r)) => MouseResult {
                states: if (e.pressed != 0 || e.wheel is Some) && opts.mouse && id != w.active {
                    edited(ss, i, s.cur, w.focused(id))
                } else {
                    ss
                },
                client: free,
                step: MouseStep::Pane { id, px: (x - r.x) as u16, py: (y - r.y) as u16, event: e },
            },
        }
    }
}

/// Nothing that is shown keeps the mouse away from client `c`.
pub open spec fn takes_mouse(c: Client) -> bool {
    c.session is Some && c.prompt is None && c.overlay is None && c.popup is None
}

impl Chooser {
    /// The mouse in a picker drawn in `area`.
    pub fn mouse(&mut self, e: &MouseEvent, area: Rect)
        ensures
            *final(self) == picked_with(*old(self), *e, area),
    {
        if let Some(up) = e.wheel {
            self.step(if up { -1 } else { 1 });
            return;
        }
        if e.pressed & BTN_LEFT != 0 && e.y >= area.y && (e.y as u32) + 1 < area.y as u32 + area.h as u32 {
            let line: u128 = self.top as u128 + (e.y - area.y) as u128;
            if line < self.items.len() as u128 && !matches!(self.items[line as usize], ChooserItem::Separator) {
                self.sel = line as usize;
            }
        }
    }
}

fn shift(a: u16, by: u16) -> (s: u16)
    ensures
        s == shifted(a, by),
{
    if a > u16::MAX - by {
        u16::MAX
    } else {
        a + by
    }
}

impl Server {
    /// A mouse event of a client: what it changes here, and the pane it is
    /// on.
    #[verifier::spinoff_prover]
    #[verifier::rlimit(60)]
    pub fn handle_mouse(&mut self, cid: ClientId, m: &MouseRecord) -> (step: MouseStep)
        requires
            old(self).wf(),
        ensures
            final(self).wf(),
            ({
                let cs = old(self).clients@;
                let c = client_place(cs, cid, 0);
                if c >= cs.len() || !takes_mouse(cs[c]) {
                    step is Nothing && *final(self) == *old(self)
                } else {
                    let ss = old(self).states();
                    let r = mouse_at(
                        ss,
                        old(self).opts,
                        session_place(ss, cs[c].session->0, 0),
                        cs[c],
                        decoded(*m, cs[c].mouse_buttons),
                    );
                    &&& step == r.step
                    &&& final(self).states() == r.states
                    &&& final(self).clients@ == cs.update(c, r.client)
                    &&& *final(self) == (Server {
                        sessions: final(self).sessions,
                        clients: final(self).clients,
                        ..*old(self)
                    })
                }
            }),
    {
        let c: usize = self.client_at(cid);
        if c >= self.clients.len() {
            return MouseStep::Nothing;
        }
        let sid: SessionId = match self.clients[c].session {
            Some(s) => s,
            None => {
                return MouseStep::Nothing;
            },
        };
        if self.clients[c].prompt.is_some() || self.clients[c].overlay.is_some() || self.clients[c].popup.is_some() {
            return MouseStep::Nothing;
        }
        let ghost cs = self.clients@;
        let ghost ss = self.states();
        let e = decode_mouse(m, self.clients[c].mouse_buttons);
        let i: usize = self.session_at(sid);
        assert(session_place(ss, cs[c as int].session->0, 0) < ss.len());
        self.clients[c].mouse_buttons = e.buttons;
        if self.clients[c].chooser.is_some() {
            let area = self.window_area(self.clients[c].cols, self.clients[c].rows);
            if let Some(ch) = &mut self.clients[c].chooser {
                ch.mouse(&e, area);
            }
            proof {
                self.lemma_client_kept(*old(self), c as int);
            }
            return MouseStep::Nothing;
        }
        if e.sideways {
            proof {
                self.lemma_client_kept(*old(self), c as int);
            }
            return MouseStep::Nothing;
        }
        let drag = self.clients[c].drag;
        self.clients[c].drag = None;
        if let Some(d) = drag {
            if e.buttons & BTN_LEFT != 0 {
                let pos: u32 = if d.horizontal {
                    e.x as u32 + self.clients[c].view_x as u32
                } else {
                    e.y as u32 + self.clients[c].view_y as u32
                };
                self.clients[c].drag = Some(Drag { pane: d.pane, horizontal: d.horizontal, last: pos });
                proof {
                    self.lemma_client_kept(*old(self), c as int);
                }
                if pos != d.last {
                    self.drag_border(i, d, pos);
                }
                return MouseStep::Nothing;
            }
        }
        proof {
            self.lemma_client_kept(*old(self), c as int);
        }
        let row: Option<u16> = self.status_line(self.clients[c].rows);
        let on_status: bool = match row {
            Some(y) => y == e.y,
            None => false,
        };
        if on_status {
            if e.pressed & BTN_LEFT != 0 {
                if let Some(k) = find_label(&self.clients[c].window_hits, e.x) {
                    self.select_listed(i, k);
                    return MouseStep::Window;
                }
            }
            return MouseStep::Nothing;
        }
        let x: u16 = shift(e.x, self.clients[c].view_x);
        let y: u16 = shift(e.y, self.clients[c].view_y);
        self.mouse_in_window(c, i, e, x, y)
    }

    /// A change at one client that leaves it where it is keeps everything
    /// in order.
    proof fn lemma_client_kept(self, before: Server, c: int)
        requires
            before.wf(),
            0 <= c < before.clients@.len(),
            self == (Server { clients: self.clients, ..before }),
            self.clients@.len() == before.clients@.len(),
            forall|k: int| 0 <= k < before.clients@.len() && k != c ==> self.clients@[k] == before.clients@[k],
            self.clients@[c].id == before.clients@[c].id,
            self.clients@[c].session == before.clients@[c].session,
        ensures
            self.wf(),
            self.clients@ == before.clients@.update(c, self.clients@[c]),
    {
        let cs = before.clients@;
        let after = self.clients@;
        assert(after =~= cs.update(c, after[c]));
        assert forall|x: int| 0 <= x < after.len() && (#[trigger] after[x]).session is Some implies session_place(
            self.states(),
            after[x].session->0,
            0,
        ) < self.states().len() by {
            assert(cs[x].session == after[x].session);
        }
        assert forall|d: int, e: int| 0 <= d < e < after.len() implies (#[trigger] after[d]).id != (
        #[trigger] after[e]).id by {
            assert(cs[d].id != cs[e].id);
        }
    }

    fn status_line(&self, rows: u16) -> (y: Option<u16>)
        ensures
            y == status_row(self.opts, rows),
    {
        if !self.opts.status {
            None
        } else if self.opts.status_top || rows == 0 {
            Some(0)
        } else {
            Some(rows - 1)
        }
    }

    /// Make the window current whose label was clicked.
    fn select_listed(&mut self, i: usize, k: usize)
        requires
            old(self).wf(),
            i < old(self).states().len(),
        ensures
            final(self).wf(),
            final(self).states() == old(self).states().update(
                i as int,
                old(self).states()[i as int].with_current(k as int),
            ),
            *final(self) == (Server { sessions: final(self).sessions, ..*old(self) }),
    {
        let ghost ss = self.states();
        assert(ss[i as int] == self.sessions@[i as int]@);
        if k < self.sessions[i].windows.len() {
            self.make_current(i, k);
        } else {
            assert(self.states() =~= ss.update(i as int, ss[i as int].with_current(k as int)));
        }
    }

    fn drag_border(&mut self, i: usize, d: Drag, pos: u32)
        requires
            old(self).wf(),
            i < old(self).states().len(),
            pos != d.last,
        ensures
            final(self).wf(),
            ({
                let ss = old(self).states();
                let s = ss[i as int];
                final(self).states() == relaid(
                    edited(
                        ss,
                        i as int,
                        s.cur,
                        s.windows[s.cur].nudged(d.pane, drag_dir(d, pos as int), drag_amount(d, pos as int)),
                    ),
                    i as int,
                    old(self).opts,
                )
            }),
            *final(self) == (Server { sessions: final(self).sessions, ..*old(self) }),
    {
        let ghost ss = self.states();
        let cur: usize = self.sessions[i].cur;
        let ghost w = ss[i as int].windows[cur as int];
        proof {
            lemma_sound_of_wf(ss);
            assert(ss[i as int] == self.sessions@[i as int]@);
            assert(ss[i as int].wf());
            assert(w == self.sessions@[i as int].windows@[cur as int]@);
            assert(w.settled());
        }
        let far: u32 = if pos > d.last { pos - d.last } else { d.last - pos };
        let amount: u16 = if far > u16::MAX as u32 { u16::MAX } else { far as u16 };
        let dir: Dir = if d.horizontal {
            if pos > d.last {
                Dir::Right
            } else {
                Dir::Left
            }
        } else if pos > d.last {
            Dir::Down
        } else {
            Dir::Up
        };
        self.sessions[i].windows[cur].nudge(d.pane, dir, amount);
        proof {
            let after = w.nudged(d.pane, dir, amount);
            lemma_nudged(w, d.pane, dir, amount);
            assert(self.sessions@[i as int]@ =~= put_window(ss[i as int], cur as int, after));
            assert forall|id: PaneId| #[trigger] after.has(id) implies w.has(id) by {}
            lemma_edited(ss, i as int, cur as int, after, self.next_id, self.killed_list());
            assert(self.states() =~= edited(ss, i as int, cur as int, after));
            lemma_clients_stay(self.clients@, ss, self.states());
        }
        self.relayout_at(i);
    }

    #[verifier::spinoff_prover]
    fn mouse_in_window(&mut self, c: usize, i: usize, e: MouseEvent, x: u16, y: u16) -> (step: MouseStep)
        requires
            old(self).wf(),
            c < old(self).clients@.len(),
            i < old(self).states().len(),
            old(self).clients@[c as int].drag is None,
        ensures
            final(self).wf(),
            ({
                let ss = old(self).states();
                let s = ss[i as int];
                let w = s.windows[s.cur];
                let cs = old(self).clients@;
                let opts = old(self).opts;
                match hit_in(w.rects, x as int, y as int, 0) {
                    None => {
                        let owner = owner_in(w.rects, x as int, y as int, 0);
                        let starts = e.pressed & BTN_LEFT != 0 && opts.mouse && area_of(opts, s.cols, s.rows).has(
                            x as int,
                            y as int,
                        ) && owner is Some;
                        &&& step is Nothing
                        &&& final(self).states() == ss
                        &&& final(self).clients@ == cs.update(
                            c as int,
                            if starts {
                                Client {
                                    drag: Some(
                                        Drag {
                                            pane: (owner->0).0,
                                            horizontal: (owner->0).1,
                                            last: if (owner->0).1 {
                                                x as u32
                                            } else {
                                                y as u32
                                            },
                                        },
                                    ),
                                    ..cs[c as int]
                                }
                            } else {
                                cs[c as int]
                            },
                        )
                    },
                    Some((id, r)) => {
                        &&& step == (MouseStep::Pane { id, px: (x - r.x) as u16, py: (y - r.y) as u16, event: e })
                        &&& final(self).states() == if (e.pressed != 0 || e.wheel is Some) && opts.mouse && id
                            != w.active {
                            edited(ss, i as int, s.cur, w.focused(id))
                        } else {
                            ss
                        }
                        &&& final(self).clients == old(self).clients
                    },
                }
            }),
            *final(self) == (Server { sessions: final(self).sessions, clients: final(self).clients, ..*old(self) }),
    {
        let ghost ss = self.states();
        let cur: usize = self.sessions[i].cur;
        let ghost w = ss[i as int].windows[cur as int];
        proof {
            lemma_sound_of_wf(ss);
            assert(ss[i as int] == self.sessions@[i as int]@);
            assert(ss[i as int].wf());
            assert(w == self.sessions@[i as int].windows@[cur as int]@);
            assert(w.settled());
        }
        match hit(&self.sessions[i].windows[cur].rects, x, y) {
            None => {
                let ghost cs = self.clients@;
                let area = self.window_area(self.sessions[i].cols, self.sessions[i].rows);
                if e.pressed & BTN_LEFT != 0 && self.opts.mouse && area.contains(x, y) {
                    if let Some((pane, horizontal)) = border_owner(&self.sessions[i].windows[cur].rects, x, y) {
                        self.clients[c].drag = Some(
                            Drag { pane, horizontal, last: if horizontal { x as u32 } else { y as u32 } },
                        );
                    }
                }
                proof {
                    self.lemma_client_kept(*old(self), c as int);
                    assert(self.clients@ =~= cs.update(c as int, self.clients@[c as int]));
                }
                MouseStep::Nothing
            },
            Some((id, r)) => {
                if (e.pressed != 0 || e.wheel.is_some()) && self.opts.mouse && id
                    != self.sessions[i].windows[cur].active {
                    self.sessions[i].windows[cur].focus(id);
                    proof {
                        let after = w.focused(id);
                        assert(self.sessions@[i as int]@ =~= put_window(ss[i as int], cur as int, after));
                        assert forall|q: PaneId| #[trigger] after.has(q) implies w.has(q) by {}
                        assert(after.settled()) by {
                            assert forall|k: int| 0 <= k < after.rects.len() implies after.has(
                                (#[trigger] after.rects[k]).0,
                            ) by {
                                assert(w.has(w.rects[k].0));
                            }
                            assert forall|k: int| 0 <= k < after.cells.len() implies after.has(
                                (#[trigger] after.cells[k]).0,
                            ) by {
                                assert(w.has(w.cells[k].0));
                            }
                        }
                        lemma_edited(ss, i as int, cur as int, after, self.next_id, self.killed_list());
                        assert(self.states() =~= edited(ss, i as int, cur as int, after));
                        lemma_clients_stay(self.clients@, ss, self.states());
                    }
                }
                MouseStep::Pane { id, px: x - r.x, py: y - r.y, event: e }
            },
        }
    }
}

} // verus!
