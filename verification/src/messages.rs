//! The message commands: what each decides about the panes it names, and what
//! goes on record.
use vstd::prelude::*;

use crate::actor::{envelope_text, ActorState, End, Mail, Message, Move, MsgId, Origin, WorkMode};
use crate::callers::{address_text, caller, doer, every_pane, holder_of, is_there, lemma_there, origin_of};
use crate::chooser::ClientId;
use crate::client::Client;
use crate::command::Target;
use crate::endings::pane_named;
use crate::layout::PaneId;
use crate::mail::{bytes_in_it, compose, deliver_next, event_field, idle_written, is_delivered, last_exit, pane_prompt_seen, pane_prompted, pane_ready, post, printed, refusal, refuse, reply_to, sent_to, take_message, typed_on, unstick, unstuck, whom_to_answer, MailRules};
use crate::marks::pinned;
use crate::observe::{id_field, Store};
use crate::pane::Pane;
use crate::pane_commands::{actor_set, pane_set};
use crate::screen::Screen;
use crate::server::{aimed, place_for, Options, Server};
use crate::session::SessionState;
use crate::text::{decimal, joined3, number_text, push_decimal};
use crate::time::Time;

verus! {

/// What a client blocked in `-w` waits for.
#[derive(Clone, Copy, Debug, PartialEq, Eq, Structural)]
pub enum WaitKind {
    /// `send-message -w`: until it leaves the inbox.
    Delivered(MsgId),
    /// `trace-message -w`: until nothing more will happen to it.
    Finished(MsgId),
    /// `read-message -w`: until the pane's inbox has one to take.
    Inbox(PaneId),
}

/// A client blocked in `-w` until something happens to a message or inbox.
#[derive(Clone, Copy, Debug, PartialEq, Eq, Structural)]
pub struct MsgWait {
    pub cid: ClientId,
    /// In milliseconds of the server's clock.
    pub until: u64,
    pub kind: WaitKind,
}

/// A message deleted lately, for `drop-message -u`: when, its pane, where it
/// stood in the queue.
#[derive(Debug)]
pub struct Dropped {
    pub at: u64,
    pub pane: PaneId,
    pub place: usize,
    pub msg: Message,
}

/// What the server keeps of messages besides the inboxes.
#[derive(Debug)]
pub struct Mailroom {
    /// The number given last.
    pub next: MsgId,
    pub waits: Vec<MsgWait>,
    pub dropped: Vec<Dropped>,
}

/// The actor of the pane a client runs in.
pub open spec fn caller_actor(ss: Seq<SessionState>, cs: Seq<Client>, cid: Option<ClientId>) -> Option<ActorState> {
    match caller(ss, cs, cid) {
        Some(p) => Some(pane_named(ss, p).actor@),
        None => None,
    }
}

/// What the pane a client runs in would answer.
pub open spec fn answered_by(ss: Seq<SessionState>, cs: Seq<Client>, cid: Option<ClientId>) -> Option<Message> {
    match caller_actor(ss, cs, cid) {
        Some(a) => a.answers(),
        None => None,
    }
}

/// What the pane a client runs in carries on with what it sends.
pub open spec fn carried_by(ss: Seq<SessionState>, cs: Seq<Client>, cid: Option<ClientId>, reply: bool) -> Option<
    Message,
> {
    match caller_actor(ss, cs, cid) {
        Some(a) => if reply {
            a.answers()
        } else {
            a.current
        },
        None => None,
    }
}

/// The pane a message goes to.
pub open spec fn addressee_for(
    ss: Seq<SessionState>,
    cs: Seq<Client>,
    opts: Options,
    t: Option<Target>,
    cid: Option<ClientId>,
    reply: bool,
) -> Result<PaneId, Seq<char>> {
    if reply {
        let m = answered_by(ss, cs, cid);
        reply_to(
            caller(ss, cs, cid),
            match m {
                Some(m) => Some(m@),
                None => None,
            },
            match m {
                Some(m) => match m@.from {
                    Origin::Pane { id, .. } => is_there(ss, id),
                    Origin::User => false,
                },
                None => false,
            },
        )
    } else if t is None {
        Err("send-message: -t pane required"@)
    } else {
        match place_for(ss, cs, opts, t, cid) {
            Ok(p) => Ok(p.pane),
            Err(e) => Err(e),
        }
    }
}

/// The message that is sent.
pub open spec fn mail_sent(
    ss: Seq<SessionState>,
    cs: Seq<Client>,
    id: MsgId,
    cid: Option<ClientId>,
    to: PaneId,
    reply: bool,
    text: Seq<char>,
    now: Time,
) -> Mail {
    let carried = carried_by(ss, cs, cid, reply);
    Mail {
        id,
        task: match carried {
            Some(m) => m.task,
            None => id,
        },
        from: origin_of(ss, cs, cid),
        to: address_text(ss, to),
        via: pane_named(ss, to).actor.mode,
        hop: match carried {
            Some(m) => (m.hop + 1) as u32,
            None => 0,
        },
        re: if reply {
            match answered_by(ss, cs, cid) {
                Some(m) => Some(m.id),
                None => None,
            }
        } else {
            None
        },
        text,
        at: now,
    }
}

/// What the clients of a session are told of a message that waits to be read.
pub open spec fn notice_text(m: Mail, to: PaneId, window: int, base: usize) -> Seq<char> {
    "Message #"@ + decimal(m.id as nat) + " for %"@ + decimal(to as nat) + " in window "@ + decimal(
        (window + base) as nat,
    ) + " from "@ + (match m.from {
        Origin::User => "user"@,
        Origin::Pane { address, name, .. } => match name {
            Some(n) => n,
            None => address,
        },
    })
}

impl Server {
    /// The pane a message goes to: the one that sent what is answered, or
    /// the one named.
    pub fn addressee(&self, target: Option<&Target>, cid: Option<ClientId>, reply: bool) -> (r: Result<PaneId, String>)
        requires
            self.wf(),
        ensures
            match (r, addressee_for(self.states(), self.clients@, self.opts, aimed(target), cid, reply)) {
                (Ok(a), Ok(b)) => a == b && is_there(self.states(), a),
                (Err(a), Err(b)) => a@ == b,
                _ => false,
            },
    {
        if reply {
            let me = self.caller_pane(cid);
            let answering: Option<&Message> = match me {
                Some(p) => match self.pane_ref(p) {
                    Some(p) => p.actor.answering(),
                    None => None,
                },
                None => None,
            };
            let there: bool = match answering {
                Some(m) => match m.sender_pane() {
                    Some(p) => self.session_with_pane(p) < self.sessions.len(),
                    None => false,
                },
                None => false,
            };
            return whom_to_answer(me, answering, there);
        }
        if target.is_none() {
            return Err("send-message: -t pane required".to_owned());
        }
        match self.find_place(target, cid) {
            Ok((i, j, p)) => {
                proof {
                    lemma_there(self.states(), i as int, j as int, p);
                }
                Ok(p)
            },
            Err(e) => Err(e),
        }
    }

    /// `send-message`: put a message in a pane's inbox, with the chain it
    /// carries on, or refuse it; either goes on record.
    #[verifier::spinoff_prover]
    #[verifier::rlimit(40)]
    pub fn send_message(
        &mut self,
        store: &mut Store,
        room: &mut Mailroom,
        cid: Option<ClientId>,
        to: PaneId,
        reply: bool,
        text: String,
        now: Time,
        rules: &MailRules,
    ) -> (r: Result<MsgId, String>)
        requires
            old(self).wf(),
            old(store).wf(),
            now.valid(),
            is_there(old(self).states(), to),
            old(room).next < u64::MAX,
            match answered_by(old(self).states(), old(self).clients@, cid) {
                Some(m) => m.hop < u32::MAX,
                None => true,
            },
        ensures
            final(self).wf(),
            final(store).wf(),
            *final(room) == (Mailroom { next: (old(room).next + 1) as u64, ..*old(room) }),
            ({
                let ss = old(self).states();
                let id = (old(room).next + 1) as u64;
                let m = mail_sent(ss, old(self).clients@, id, cid, to, reply, text@, now);
                let why = refusal(m, pane_named(ss, to), *rules);
                &&& final(store)@ == sent_to(old(store)@, m, why)
                &&& match why {
                    Some(why) => {
                        &&& r is Err
                        &&& r->Err_0@ == "#"@ + decimal(id as nat) + " rejected: "@ + why
                        &&& *final(self) == *old(self)
                    },
                    None => {
                        let before = pane_named(ss, to).actor@;
                        let sent = pane_named(final(self).states(), to).actor@.inbox.last();
                        &&& r == Ok::<MsgId, String>(id)
                        &&& sent@ == m
                        &&& actor_set(
                            ss,
                            final(self).states(),
                            to,
                            (ActorState { inbox: before.inbox.push(sent), ..before }),
                        )
                        &&& *final(self) == (Server { sessions: final(self).sessions, ..*old(self) })
                    },
                }
            }),
    {
        let me = self.caller_pane(cid);
        let mut carry: Option<(MsgId, u32)> = None;
        let mut re: Option<MsgId> = None;
        if let Some(p) = me {
            if let Some(p) = self.pane_ref(p) {
                carry = p.actor.carry(reply);
                if reply {
                    if let Some(m) = p.actor.answering() {
                        re = Some(m.id);
                    }
                }
            }
        }
        room.next = room.next + 1;
        let id: MsgId = room.next;
        let via: WorkMode = match self.pane_ref(to) {
            Some(p) => p.actor.mode,
            None => WorkMode::Normal,
        };
        let m = compose(id, carry, self.sender_of(cid), self.address_of(to), via, re, text, now);
        let ghost mail = m@;
        assert(mail == mail_sent(old(self).states(), old(self).clients@, id, cid, to, reply, text@, now));
        let why: Option<String> = match self.pane_ref(to) {
            Some(p) => refuse(&m, p, rules),
            None => None,
        };
        if let Some(why) = why {
            store.sent(&m, Some(why.as_str()));
            let mut e = joined3("#", number_text(id).as_str(), " rejected: ");
            e.push_str(why.as_str());
            return Err(e);
        }
        match self.find_pane_mut(to) {
            None => Ok(id),
            Some(p) => {
                let _ = post(p, store, m, rules);
                Ok(id)
            },
        }
    }

    /// What a message for a pane that takes none on its own does: the place
    /// of its session and of the window to flag (unless it is the current
    /// one), and what the session's clients are told.
    pub fn mail_alert(&self, to: PaneId, m: &Message) -> (r: Option<(usize, Option<usize>, String)>)
        requires
            self.wf(),
        ensures
            match r {
                None => !is_there(self.states(), to),
                Some((i, flag, text)) => {
                    let ss = self.states();
                    let j = crate::session::window_with(ss[i as int].windows, to, 0);
                    &&& is_there(ss, to)
                    &&& i == crate::server::session_with(ss, to, 0)
                    &&& flag == if ss[i as int].cur == j {
                        None
                    } else {
                        Some(j as usize)
                    }
                    &&& text@ == notice_text(m@, to, j, self.opts.base_index)
                },
            },
    {
        match self.place_of_pane(to) {
            None => None,
            Some((i, j)) => {
                assert(self.states()[i as int] == self.sessions@[i as int]@);
                let mut t = joined3("Message #", number_text(m.id).as_str(), " for %");
                push_decimal(&mut t, to as u64);
                t.push_str(" in window ");
                crate::text::push_sum(&mut t, j as u64, self.opts.base_index as u64);
                t.push_str(" from ");
                match &m.from {
                    crate::actor::Sender::User => t.push_str("user"),
                    crate::actor::Sender::Pane { address, name, .. } => match name {
                        Some(n) => t.push_str(n.as_str()),
                        None => t.push_str(address.as_str()),
                    },
                }
                let flag: Option<usize> = if self.sessions[i].cur == j { None } else { Some(j) };
                Some((i, flag, t))
            },
        }
    }

    /// Type the next message into a pane, if it is free for one; the bytes
    /// to write. `pending` is whether its program waits to start.
    pub fn deliver(&mut self, store: &mut Store, id: PaneId, pending: bool, screen: &Screen, now: Time) -> (bytes: Option<
        Vec<u8>,
    >)
        requires
            old(self).wf(),
            old(store).wf(),
            screen.wf(),
            now.valid(),
        ensures
            final(self).wf(),
            final(store).wf(),
            !is_there(old(self).states(), id) ==> bytes is None && *final(self) == *old(self) && final(store)@ == old(
                store,
            )@,
            is_there(old(self).states(), id) ==> {
                let after = pane_named(final(self).states(), id);
                &&& final(self).states() == pane_set(old(self).states(), after)
                &&& *final(self) == (Server { sessions: final(self).sessions, ..*old(self) })
                &&& is_delivered(
                    pane_named(old(self).states(), id),
                    after,
                    old(store)@,
                    final(store)@,
                    pending,
                    *screen,
                    now,
                    bytes_in_it(bytes),
                )
            },
    {
        match self.find_pane_mut(id) {
            None => None,
            Some(p) => deliver_next(p, store, pending, screen, now),
        }
    }

    /// The prompt is on a pane's screen.
    pub fn prompt_seen(&mut self, store: &mut Store, id: PaneId, now: Time)
        requires
            old(self).wf(),
            old(store).wf(),
            now.valid(),
        ensures
            final(self).wf(),
            final(store).wf(),
            !is_there(old(self).states(), id) ==> *final(self) == *old(self) && final(store)@ == old(store)@,
            is_there(old(self).states(), id) ==> {
                let a = pane_named(old(self).states(), id).actor@;
                &&& actor_set(old(self).states(), final(self).states(), id, a.after_prompt())
                &&& *final(self) == (Server { sessions: final(self).sessions, ..*old(self) })
                &&& final(store)@ == if !a.is_idle() && a.after_prompt().is_idle() {
                    idle_written(old(store)@, address_text(old(self).states(), id), Seq::empty(), now)
                } else {
                    old(store)@
                }
            },
    {
        let address = self.address_of(id);
        match self.find_pane_mut(id) {
            None => {},
            Some(p) => pane_prompt_seen(p, store, address.as_str(), now),
        }
    }

    /// The prompt came back in a pane, and what the command printed is drawn.
    pub fn prompted(&mut self, store: &mut Store, id: PaneId, screen: &Screen, max: usize, now: Time)
        requires
            old(self).wf(),
            old(store).wf(),
            screen.wf(),
            now.valid(),
            max <= usize::MAX - 4096,
        ensures
            final(self).wf(),
            final(store).wf(),
            !is_there(old(self).states(), id) ==> *final(self) == *old(self) && final(store)@ == old(store)@,
            is_there(old(self).states(), id) ==> {
                let p = pane_named(old(self).states(), id);
                &&& actor_set(old(self).states(), final(self).states(), id, p.actor@.after_command())
                &&& *final(self) == (Server { sessions: final(self).sessions, ..*old(self) })
                &&& final(store)@ == match p.actor@.ending() {
                    None => old(store)@,
                    Some((m, end)) => if m.via is Shell && end is Done {
                        old(store)@.ended_with(
                            m.id,
                            end,
                            last_exit(pinned(p.marks@), typed_on(p), p.marks@.len() as int),
                            Some(printed(p, *screen, max as int)),
                            now,
                        )
                    } else {
                        old(store)@.ended_with(m.id, end, None, None, now)
                    },
                }
            },
    {
        match self.find_pane_mut(id) {
            None => {},
            Some(p) => pane_prompted(p, store, screen, max, now),
        }
    }

    /// `pane-ready` in a pane: the one it was run in, when its word counts.
    pub fn pane_ready(&mut self, store: &mut Store, cid: Option<ClientId>, quiet: bool, now: Time) -> (r: Result<
        Option<PaneId>,
        String,
    >)
        requires
            old(self).wf(),
            old(store).wf(),
            now.valid(),
        ensures
            final(self).wf(),
            final(store).wf(),
            ({
                let ss = old(self).states();
                match caller(ss, old(self).clients@, cid) {
                    None => {
                        &&& *final(self) == *old(self)
                        &&& final(store)@ == old(store)@
                        &&& if quiet {
                            r == Ok::<Option<PaneId>, String>(None)
                        } else {
                            r is Err && r->Err_0@ == "pane-ready: not run inside a keepane pane"@
                        }
                    },
                    Some(me) => {
                        let a = pane_named(ss, me).actor@;
                        &&& r == Ok::<Option<PaneId>, String>(
                            if a.mode is Ai {
                                Some(me)
                            } else {
                                None
                            },
                        )
                        &&& *final(self) == (Server { sessions: final(self).sessions, ..*old(self) })
                        &&& actor_set(
                            ss,
                            final(self).states(),
                            me,
                            if a.mode is Ai {
                                ActorState { ready: true, current: None, ..a }
                            } else {
                                a
                            },
                        )
                        &&& final(store)@ == if a.mode is Ai {
                            idle_written(
                                match a.current {
                                    Some(m) => old(store)@.ended_with(m.id, End::Done, None, None, now),
                                    None => old(store)@,
                                },
                                address_text(ss, me),
                                Seq::empty(),
                                now,
                            )
                        } else {
                            old(store)@
                        }
                    },
                }
            }),
    {
        let me: PaneId = match self.caller_pane(cid) {
            Some(p) => p,
            None => {
                return if quiet {
                    Ok(None)
                } else {
                    Err("pane-ready: not run inside a keepane pane".to_owned())
                };
            },
        };
        let address = self.address_of(me);
        match self.find_pane_mut(me) {
            None => Ok(None),
            Some(p) => if pane_ready(p, store, address.as_str(), now) {
                Ok(Some(me))
            } else {
                Ok(None)
            },
        }
    }

    /// `pane-ready -t`: unstick a pane that stays busy.
    pub fn force_ready(&mut self, store: &mut Store, cid: Option<ClientId>, target: &Target, now: Time) -> (r: Result<
        PaneId,
        String,
    >)
        requires
            old(self).wf(),
            old(store).wf(),
            now.valid(),
        ensures
            final(self).wf(),
            final(store).wf(),
            ({
                let ss = old(self).states();
                match place_for(ss, old(self).clients@, old(self).opts, Some(*target), cid) {
                    Err(e) => r is Err && r->Err_0@ == e && *final(self) == *old(self) && final(store)@ == old(store)@,
                    Ok(p) => {
                        &&& r == Ok::<PaneId, String>(p.pane)
                        &&& *final(self) == (Server { sessions: final(self).sessions, ..*old(self) })
                        &&& actor_set(ss, final(self).states(), p.pane, unstuck(pane_named(ss, p.pane).actor@))
                        &&& final(store)@ == idle_written(
                            old(store)@,
                            address_text(ss, p.pane),
                            event_field("by"@, doer(ss, old(self).clients@, cid)),
                            now,
                        )
                    },
                }
            }),
    {
        match self.find_place(Some(target), cid) {
            Err(e) => Err(e),
            Ok((i, j, id)) => {
                proof {
                    lemma_there(self.states(), i as int, j as int, id);
                }
                let address = self.address_of(id);
                let by = self.doer_of(cid);
                match self.find_pane_mut(id) {
                    None => {},
                    Some(p) => unstick(p, store, address.as_str(), by.as_str(), now),
                }
                Ok(id)
            },
        }
    }

    /// The oldest message of a pane, as `read-message` prints it.
    pub fn take_message(&mut self, store: &mut Store, id: PaneId, now: Time) -> (text: Option<String>)
        requires
            old(self).wf(),
            old(store).wf(),
            now.valid(),
        ensures
            final(self).wf(),
            final(store).wf(),
            ({
                let ss = old(self).states();
                let a = pane_named(ss, id).actor@;
                if !is_there(ss, id) || a.inbox.len() == 0 {
                    text is None && *final(self) == *old(self) && final(store)@ == old(store)@
                } else {
                    let m = a.inbox[0];
                    &&& text is Some && text->0@ == envelope_text(m@) + "\n"@ + m.text@
                    &&& *final(self) == (Server { sessions: final(self).sessions, ..*old(self) })
                    &&& actor_set(
                        ss,
                        final(self).states(),
                        id,
                        (ActorState { inbox: a.inbox.remove(0), last_read: Some(m), ..a }),
                    )
                    &&& final(store)@ == old(store)@.read_as(m.id, now)
                }
            }),
    {
        match self.pane_ref(id) {
            None => {
                return None;
            },
            Some(p) => {
                if p.actor.inbox.len() == 0 {
                    return None;
                }
            },
        }
        match self.find_pane_mut(id) {
            None => None,
            Some(p) => take_message(p, store, now),
        }
    }

    /// `drop-message`: delete a queued message; it can be brought back.
    pub fn drop_message(
        &mut self,
        store: &mut Store,
        room: &mut Mailroom,
        cid: Option<ClientId>,
        id: MsgId,
        at: u64,
        now: Time,
    ) -> (r: Result<(), String>)
        requires
            old(self).wf(),
            old(store).wf(),
            now.valid(),
        ensures
            final(self).wf(),
            final(store).wf(),
            ({
                let ss = old(self).states();
                match holder_of(every_pane(ss), id, 0) {
                    None => {
                        &&& r is Err
                        &&& r->Err_0@ == "#"@ + decimal(id as nat) + " is not waiting in any inbox"@
                        &&& *final(self) == *old(self)
                        &&& final(store)@ == old(store)@
                        &&& *final(room) == *old(room)
                    },
                    Some(p) => {
                        let a = pane_named(ss, p).actor@;
                        let i = a.place_of(id, 0)->0;
                        &&& r is Ok
                        &&& is_there(ss, p)
                        &&& a.place_of(id, 0) is Some
                        &&& *final(self) == (Server { sessions: final(self).sessions, ..*old(self) })
                        &&& actor_set(ss, final(self).states(), p, (ActorState { inbox: a.inbox.remove(i), ..a }))
                        &&& final(store)@ == old(store)@.dropped_for(
                            id,
                            "deleted by "@ + doer(ss, old(self).clients@, cid),
                            now,
                        )
                        &&& final(room).next == old(room).next
                        &&& final(room).waits == old(room).waits
                        &&& final(room).dropped@ == old(room).dropped@.push(
                            (Dropped { at, pane: p, place: i as usize, msg: a.inbox[i] }),
                        )
                    },
                }
            }),
    {
        let by = self.doer_of(cid);
        let p: PaneId = match self.holder(id) {
            Some(p) => p,
            None => {
                return Err(joined3("#", number_text(id).as_str(), " is not waiting in any inbox"));
            },
        };
        proof {
            lemma_holder(self.states(), id);
        }
        match self.find_pane_mut(p) {
            None => Ok(()),
            Some(pane) => {
                if let Some((place, msg)) = crate::mail::drop_message(pane, store, id, by.as_str(), now) {
                    room.dropped.push(Dropped { at, pane: p, place, msg });
                }
                Ok(())
            },
        }
    }

    /// `move-message`: move a queued message in its inbox.
    pub fn move_message(&mut self, store: &mut Store, cid: Option<ClientId>, id: MsgId, to: Move, now: Time) -> (r: Result<
        (),
        String,
    >)
        requires
            old(self).wf(),
            old(store).wf(),
            now.valid(),
        ensures
            final(self).wf(),
            final(store).wf(),
            ({
                let ss = old(self).states();
                match holder_of(every_pane(ss), id, 0) {
                    None => {
                        &&& r is Err
                        &&& r->Err_0@ == "#"@ + decimal(id as nat) + " is not waiting in any inbox"@
                        &&& *final(self) == *old(self)
                        &&& final(store)@ == old(store)@
                    },
                    Some(p) => {
                        let a = pane_named(ss, p).actor@;
                        let i = a.place_of(id, 0)->0;
                        let j = crate::actor::moved_to(i, a.inbox.len() as int, to);
                        &&& r is Ok
                        &&& a.place_of(id, 0) is Some
                        &&& *final(self) == (Server { sessions: final(self).sessions, ..*old(self) })
                        &&& actor_set(
                            ss,
                            final(self).states(),
                            p,
                            (ActorState { inbox: a.inbox.remove(i).insert(j, a.inbox[i]), ..a }),
                        )
                        &&& final(store)@ == if i == j {
                            old(store)@
                        } else {
                            old(store)@.wrote(
                                now,
                                "moved"@,
                                id_field(id) + ",\"from\":"@ + decimal(i as nat) + ",\"to\":"@ + decimal(j as nat)
                                    + ",\"by\":"@ + crate::json::json_string(doer(ss, old(self).clients@, cid)),
                            )
                        }
                    },
                }
            }),
    {
        let by = self.doer_of(cid);
        let p: PaneId = match self.holder(id) {
            Some(p) => p,
            None => {
                return Err(joined3("#", number_text(id).as_str(), " is not waiting in any inbox"));
            },
        };
        proof {
            lemma_holder(self.states(), id);
        }
        match self.find_pane_mut(p) {
            None => Ok(()),
            Some(pane) => {
                let _ = crate::mail::move_message(pane, store, id, to, by.as_str(), now);
                Ok(())
            },
        }
    }
}

/// The pane that holds a message is there, with the message in its inbox.
pub proof fn lemma_holder(ss: Seq<SessionState>, id: MsgId)
    requires
        crate::server::sessions_wf(ss),
        crate::server::apart(ss),
    ensures
        match holder_of(every_pane(ss), id, 0) {
            Some(p) => is_there(ss, p) && pane_named(ss, p).actor@.place_of(id, 0) is Some,
            None => true,
        },
{
    let ps = every_pane(ss);
    lemma_holder_at(ps, id, 0);
    match holder_of(ps, id, 0) {
        Some(p) => {
            let k = choose|k: int| 0 <= k < ps.len() && (#[trigger] ps[k]).id == p && ps[k].actor@.place_of(id, 0) is Some;
            crate::callers::lemma_every_pane(ss, k);
        },
        None => {},
    }
}

proof fn lemma_holder_at(ps: Seq<Pane>, id: MsgId, i: int)
    requires
        0 <= i <= ps.len(),
    ensures
        match holder_of(ps, id, i) {
            Some(p) => exists|k: int|
                i <= k < ps.len() && (#[trigger] ps[k]).id == p && ps[k].actor@.place_of(id, 0) is Some,
            None => true,
        },
    decreases ps.len() - i,
{
    if i < ps.len() && ps[i].actor@.place_of(id, 0) is None {
        lemma_holder_at(ps, id, i + 1);
    }
}

} // verus!
