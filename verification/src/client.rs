//! A client: a terminal that looks at a session, and the messages on their
//! way to it.
use std::collections::VecDeque;

use vstd::prelude::*;

use crate::chooser::{Chooser, ClientId, SessionId};
use crate::layout::{PaneId, Rect};
use crate::pane::Pane;
use crate::prompt::Prompt;

verus! {

/// What the server tells a client.
#[derive(Debug, PartialEq, Eq)]
pub enum ServerMsg {
    /// Bytes for the terminal.
    Output(Vec<u8>),
    Text(String),
    Error(String),
    Done { code: i32 },
    Attached { session: String },
    Detached { reason: String },
    SetMouse(bool),
    /// Come to the front.
    Raise,
}

/// What became of a message offered to a client's queue.
#[derive(Debug, PartialEq, Eq)]
pub enum Offered {
    Taken,
    Full(ServerMsg),
    Closed,
}

/// `offer` hands a message to a bounded queue, which takes it, hands it back
/// because it is full, or has nobody who reads it any more.
pub open spec fn offers<F: Fn(ServerMsg) -> Offered>(offer: F) -> bool {
    &&& forall|m: ServerMsg| #[trigger] call_requires(offer, (m,))
    &&& forall|m: ServerMsg, r: Offered| #[trigger]
        call_ensures(offer, (m,), r) ==> (r matches Offered::Full(back) ==> back == m)
}

/// `offer` was given the message, and it did not come back.
pub open spec fn went<F: Fn(ServerMsg) -> Offered>(offer: F, m: ServerMsg) -> bool {
    exists|r: Offered| #[trigger] call_ensures(offer, (m,), r) && !(r is Full)
}

/// `offer` was given the message, and handed it back because the queue is
/// full.
pub open spec fn held_back<F: Fn(ServerMsg) -> Offered>(offer: F, m: ServerMsg) -> bool {
    exists|r: Offered| #[trigger] call_ensures(offer, (m,), r) && r is Full
}

/// What became of a message.
#[derive(Clone, Copy, Debug, PartialEq, Eq, Structural)]
pub enum Fate {
    /// It is in the client's queue.
    Handed,
    /// It waits for room there.
    Waits,
    /// The client is gone.
    Lost,
}

/// The way to a client: the control messages that did not fit in its queue
/// yet.
#[derive(Debug)]
pub struct Outbox {
    pub pending: VecDeque<ServerMsg>,
    /// What is on the client's screen is known, so the next frame can be
    /// drawn as a difference.
    pub in_step: bool,
}

impl Outbox {
    /// Queue a control message. Control messages are never dropped: when the
    /// queue is full they wait in `pending` and go out before any further
    /// frame.
    pub fn send<F: Fn(ServerMsg) -> Offered>(&mut self, m: ServerMsg, offer: &F) -> (fate: Fate)
        requires
            offers(*offer),
        ensures
            final(self).in_step == old(self).in_step,
            old(self).pending@.len() > 0 ==> fate is Waits,
            old(self).pending@.len() == 0 ==> exists|r: Offered| #[trigger]
                call_ensures(*offer, (m,), r) && fate == match r {
                    Offered::Taken => Fate::Handed,
                    Offered::Full(_) => Fate::Waits,
                    Offered::Closed => Fate::Lost,
                },
            fate is Waits ==> final(self).pending@ == old(self).pending@.push(m),
            !(fate is Waits) ==> final(self).pending@ == old(self).pending@,
    {
        if self.pending.len() > 0 {
            self.pending.push_back(m);
            return Fate::Waits;
        }
        match offer(m) {
            Offered::Taken => Fate::Handed,
            Offered::Full(back) => {
                self.pending.push_back(back);
                Fate::Waits
            },
            Offered::Closed => Fate::Lost,
        }
    }

    /// Leave a control message for the next flush.
    pub fn post(&mut self, m: ServerMsg)
        ensures
            *final(self) == (Outbox { pending: final(self).pending, ..*old(self) }),
            final(self).pending@ == old(self).pending@.push(m),
    {
        self.pending.push_back(m);
    }

    /// Queue a screen update. When the client lags, the frame is dropped and
    /// the next one is forced to be a full redraw, which supersedes it.
    pub fn send_output<F: Fn(ServerMsg) -> Offered>(&mut self, bytes: Vec<u8>, offer: &F) -> (handed: bool)
        requires
            offers(*offer),
        ensures
            final(self).pending == old(self).pending,
            old(self).pending@.len() > 0 ==> !handed,
            old(self).pending@.len() == 0 ==> exists|v: Vec<u8>, r: Offered|
                v@ == bytes@ && #[trigger] call_ensures(*offer, (ServerMsg::Output(v),), r) && handed == (r is Taken),
            final(self).in_step == (old(self).in_step && handed),
    {
        if self.pending.len() == 0 {
            let r = offer(ServerMsg::Output(bytes));
            if let Offered::Taken = r {
                return true;
            }
        }
        self.in_step = false;
        false
    }

    /// Retry queued control messages, the oldest first; true when none are
    /// left.
    pub fn flush_pending<F: Fn(ServerMsg) -> Offered>(&mut self, offer: &F) -> (empty: bool)
        requires
            offers(*offer),
        ensures
            final(self).in_step == old(self).in_step,
            exists|k: int|
                0 <= k <= old(self).pending@.len() && final(self).pending@ == #[trigger] old(self).pending@.skip(k) && (
                forall|j: int| 0 <= j < k ==> went(*offer, #[trigger] old(self).pending@[j])) && (k < old(
                    self,
                ).pending@.len() ==> held_back(*offer, old(self).pending@[k])),
            empty <==> final(self).pending@.len() == 0,
    {
        let ghost all = self.pending@;
        let ghost mut gone: int = 0;
        assert(all.skip(0) =~= all);
        while self.pending.len() > 0
            invariant
                0 <= gone <= all.len(),
                self.pending@ == all.skip(gone),
                self.in_step == old(self).in_step,
                offers(*offer),
                all == old(self).pending@,
                forall|j: int| 0 <= j < gone ==> went(*offer, #[trigger] all[j]),
            decreases self.pending@.len(),
        {
            let ghost before = self.pending@;
            if let Some(m) = self.pending.pop_front() {
                assert(m == all[gone]);
                match offer(m) {
                    Offered::Full(back) => {
                        self.pending.push_front(back);
                        assert(self.pending@ =~= all.skip(gone));
                        assert(held_back(*offer, all[gone]));
                        return false;
                    },
                    _ => {
                        proof {
                            assert(went(*offer, all[gone]));
                            gone = gone + 1;
                            assert(self.pending@ =~= all.skip(gone));
                        }
                    },
                }
            }
        }
        true
    }
}

/// A border being dragged with the mouse.
#[derive(Clone, Copy, Debug, PartialEq, Eq, Structural)]
pub struct Drag {
    pub pane: PaneId,
    pub horizontal: bool,
    /// Where the mouse was last, along the drag.
    pub last: u32,
}

/// A program in a box over a client's window, taking the keys. The size is
/// kept as it was asked for so the box follows the terminal.
#[derive(Debug)]
pub struct Popup {
    pub pane: Pane,
    pub rect: Rect,
    pub width: Option<String>,
    pub height: Option<String>,
    pub x: Option<String>,
    pub y: Option<String>,
    /// Go away as soon as the command finishes.
    pub close_on_exit: bool,
    /// The command has finished and the next key closes the box.
    pub finished: bool,
}

pub struct Client {
    pub id: ClientId,
    pub outbox: Outbox,
    pub cols: u16,
    pub rows: u16,
    pub cwd: String,
    pub interactive: bool,
    /// The pane the client was started in.
    pub pane_env: Option<PaneId>,
    pub session: Option<SessionId>,
    /// Session this client was in before the current one.
    pub last_session: Option<SessionId>,
    pub prefix: bool,
    /// A repeatable key ran; until this moment its table answers bare keys.
    pub repeat_until: Option<u64>,
    /// Pane numbers are showing until this moment.
    pub panes_until: Option<u64>,
    pub prompt: Option<Prompt>,
    pub message: Option<(String, u64)>,
    /// Text of several lines shown over the window until a key is pressed.
    pub overlay: Option<Vec<String>>,
    pub chooser: Option<Chooser>,
    pub popup: Option<Popup>,
    pub mouse_buttons: u32,
    pub drag: Option<Drag>,
    /// Virtual keys whose key-down was taken here; the matching key-up is
    /// dropped.
    pub swallow_up: Vec<u16>,
    /// A bell from a background window, to ring with the next frame.
    pub pending_bell: bool,
    /// Status-line column ranges of the window labels last drawn.
    pub window_hits: Vec<(u16, u16)>,
    /// When the client connected, and when it last sent a key.
    pub created: u64,
    pub last_activity: u64,
    /// The window column and row at the client's top-left corner.
    pub view_x: u16,
    pub view_y: u16,
    /// The view was panned by hand: leave it there until the next key goes
    /// to a pane.
    pub view_pinned: bool,
    /// A key just went to the pane: the next frame brings the cursor into
    /// view.
    pub view_follow: bool,
    /// Since when the cursor has been out of view.
    pub cursor_out: Option<u64>,
}

/// A client that just connected: nothing is known of it, and nothing is shown.
pub open spec fn is_new(c: Client, id: ClientId, now: u64) -> bool {
    &&& c.id == id
    &&& c.outbox.pending@.len() == 0
    &&& !c.outbox.in_step
    &&& c.cols == 80 && c.rows == 24
    &&& c.cwd@.len() == 0
    &&& !c.interactive && c.pane_env is None && c.session is None && c.last_session is None
    &&& !c.prefix && c.repeat_until is None && c.panes_until is None
    &&& c.prompt is None && c.message is None && c.overlay is None && c.chooser is None && c.popup is None
    &&& c.mouse_buttons == 0 && c.drag is None && c.swallow_up@.len() == 0 && !c.pending_bell
    &&& c.window_hits@.len() == 0
    &&& c.created == now && c.last_activity == now
    &&& c.view_x == 0 && c.view_y == 0 && !c.view_pinned && !c.view_follow && c.cursor_out is None
}

impl Client {
    /// A client that just connected.
    pub fn connected(id: ClientId, now: u64) -> (c: Client)
        ensures
            is_new(c, id, now),
    {
        Client {
            id,
            outbox: Outbox { pending: VecDeque::new(), in_step: false },
            cols: 80,
            rows: 24,
            cwd: String::new(),
            interactive: false,
            pane_env: None,
            session: None,
            last_session: None,
            prefix: false,
            repeat_until: None,
            panes_until: None,
            prompt: None,
            message: None,
            overlay: None,
            chooser: None,
            popup: None,
            mouse_buttons: 0,
            drag: None,
            swallow_up: Vec::new(),
            pending_bell: false,
            window_hits: Vec::new(),
            created: now,
            last_activity: now,
            view_x: 0,
            view_y: 0,
            view_pinned: false,
            view_follow: false,
            cursor_out: None,
        }
    }
}

} // verus!
