//! Messages between panes: sending and delivering, reading, deleting and
//! moving them, and what each writes on record. A pane's own part is its
//! actor's; the record of it all is the store's.
use vstd::prelude::*;
use vstd::utf8::encode_utf8;

use crate::actor::{envelope_text, mode_name, wrapped_text, ActorState, End, Mail, Message, Move, MsgId, Origin, Sender, WorkMode};
use crate::display::text_columns;
use crate::input::paste_text;
use crate::json::{json_string, to_json};
use crate::layout::PaneId;
use crate::marks::{pinned, Mark, Pinned};
use crate::observe::{id_field, kept, opt_text, put, sent_fields, sent_life, Life, Stage, Store, StoreState, KEPT};
use crate::pane::{rows_typed, Pane};
use crate::screen::{between_text, bytes_in, cut_at, fits_upto, Screen};
use crate::text::{bytes_of, chars_of, decimal, joined2, joined3, number_text, push_decimal, string_of};
use crate::time::Time;

verus! {

/// The limits on messages.
#[derive(Clone, Copy, Debug, PartialEq, Eq, Structural)]
pub struct MailRules {
    /// Bytes of text.
    pub max_size: usize,
    /// How far a chain may go.
    pub hop_limit: u32,
    /// Messages in one inbox.
    pub inbox_limit: usize,
}

/// Why a message for pane `p` is refused, if it is.
pub open spec fn refusal(m: Mail, p: Pane, rules: MailRules) -> Option<Seq<char>> {
    let size = encode_utf8(m.text).len();
    if size > rules.max_size {
        Some("the message is "@ + decimal(size) + " bytes; message-max-size is "@ + decimal(rules.max_size as nat))
    } else if m.hop > rules.hop_limit {
        Some(
            "hop "@ + decimal(m.hop as nat) + " is over message-hop-limit "@ + decimal(rules.hop_limit as nat)
                + " (a loop between panes?)"@,
        )
    } else if p.exit_code is Some {
        Some("%"@ + decimal(p.id as nat) + " has exited"@)
    } else if p.actor@.inbox.len() >= rules.inbox_limit {
        Some(
            "%"@ + decimal(p.id as nat) + ": inbox is full (message-inbox-limit is "@ + decimal(
                rules.inbox_limit as nat,
            ) + ")"@,
        )
    } else {
        None
    }
}

/// The store after a message was sent, or refused.
pub open spec fn sent_to(s: StoreState, m: Mail, why: Option<Seq<char>>) -> StoreState {
    let wrote = s.wrote(
        m.at,
        if why is Some {
            "rejected"@
        } else {
            "sent"@
        },
        sent_fields(m, why),
    );
    StoreState { records: kept(put(wrote.records, sent_life(m, why)), KEPT as int), ..wrote }
}

pub fn refuse(m: &Message, p: &Pane, rules: &MailRules) -> (why: Option<String>)
    ensures
        opt_text(why) == refusal(m@, *p, *rules),
{
    let size: usize = bytes_of(m.text.as_str()).len();
    if size > rules.max_size {
        let mut w = joined3("the message is ", number_text(size as u64).as_str(), " bytes; message-max-size is ");
        push_decimal(&mut w, rules.max_size as u64);
        return Some(w);
    }
    if m.hop > rules.hop_limit {
        let mut w = joined3("hop ", number_text(m.hop as u64).as_str(), " is over message-hop-limit ");
        push_decimal(&mut w, rules.hop_limit as u64);
        w.push_str(" (a loop between panes?)");
        return Some(w);
    }
    if p.exit_code.is_some() {
        return Some(joined3("%", number_text(p.id as u64).as_str(), " has exited"));
    }
    if p.actor.inbox.len() >= rules.inbox_limit {
        let mut w = joined3("%", number_text(p.id as u64).as_str(), ": inbox is full (message-inbox-limit is ");
        push_decimal(&mut w, rules.inbox_limit as u64);
        w.push_str(")");
        return Some(w);
    }
    None
}

/// Put a message in a pane's inbox, unless it is refused; either goes on
/// record.
pub fn post(p: &mut Pane, store: &mut Store, m: Message, rules: &MailRules) -> (r: Result<(), String>)
    requires
        old(store).wf(),
        m.at.valid(),
    ensures
        final(store).wf(),
        final(store)@ == sent_to(old(store)@, m@, refusal(m@, *old(p), *rules)),
        match refusal(m@, *old(p), *rules) {
            Some(why) => {
                &&& r is Err
                &&& r->Err_0@ == "#"@ + decimal(m.id as nat) + " rejected: "@ + why
                &&& *final(p) == *old(p)
            },
            None => {
                &&& r is Ok
                &&& final(p).actor@ == (ActorState { inbox: old(p).actor@.inbox.push(m), ..old(p).actor@ })
                &&& *final(p) == (Pane { actor: final(p).actor, ..*old(p) })
            },
        },
{
    if let Some(why) = refuse(&m, p, rules) {
        store.sent(&m, Some(why.as_str()));
        let mut e = joined3("#", number_text(m.id).as_str(), " rejected: ");
        e.push_str(why.as_str());
        return Err(e);
    }
    store.sent(&m, None);
    let _ = p.actor.enqueue(m, rules.inbox_limit);
    Ok(())
}

/// The message that goes into a pane now, if one does: not while the end of
/// a command is settling, nor into a pane whose program has ended or waits to
/// start.
pub open spec fn due(p: Pane, pending: bool) -> Option<Message> {
    match p.actor@.next_for(0) {
        Some(i) if p.actor@.is_idle() && p.exit_code is None && !pending && !p.settle => Some(p.actor@.inbox[i]),
        _ => None,
    }
}

/// What is changed and typed when a pane is given its next message.
pub open spec fn is_delivered(
    before: Pane,
    after: Pane,
    held: StoreState,
    holds: StoreState,
    pending: bool,
    screen: Screen,
    now: Time,
    bytes: Option<Seq<u8>>,
) -> bool {
    match due(before, pending) {
        None => bytes is None && after.actor@ == before.actor@ && after == (Pane { actor: after.actor, ..before })
            && holds == held,
        Some(m) => {
            let text = wrapped_text(m@);
            let i = before.actor@.next_for(0)->0;
            let fits = screen.cursor_col + text_columns(text) <= usize::MAX && screen.scrolled + screen.cursor_row
                + screen.cursor_col + text_columns(text) + 1 <= u64::MAX;
            &&& after.actor@ == (ActorState {
                inbox: before.actor@.inbox.remove(i),
                current: Some(m),
                at_prompt: false,
                ready: false,
                typed: false,
                ..before.actor@
            })
            &&& after == (Pane { actor: after.actor, delivered_line: after.delivered_line, ..before })
            &&& bytes == if fits {
                Some(encode_utf8(paste_text(text, screen.bracketed)).push(13u8))
            } else {
                None
            }
            &&& after.delivered_line == if fits {
                Some(
                    (
                        (screen.scrolled + screen.cursor_row) as u64,
                        (screen.scrolled + screen.cursor_row + rows_typed(
                            screen.cursor_col as int,
                            text_columns(text) as int,
                            before.cols,
                        )) as u64,
                    ),
                )
            } else {
                before.delivered_line
            }
            &&& holds == held.delivered_as(m.id, now)
        },
    }
}

/// The bytes behind a result.
pub open spec fn bytes_in_it(b: Option<Vec<u8>>) -> Option<Seq<u8>> {
    match b {
        Some(v) => Some(v@),
        None => None,
    }
}

/// Type the next message into the pane, if it is free for one; the bytes to
/// write.
#[verifier::spinoff_prover]
#[verifier::rlimit(60)]
pub fn deliver_next(p: &mut Pane, store: &mut Store, pending: bool, screen: &Screen, now: Time) -> (bytes: Option<
    Vec<u8>,
>)
    requires
        old(store).wf(),
        screen.wf(),
        now.valid(),
    ensures
        final(store).wf(),
        is_delivered(*old(p), *final(p), old(store)@, final(store)@, pending, *screen, now, bytes_in_it(bytes)),
{
    if p.exit_code.is_some() || pending || p.settle {
        return None;
    }
    match p.actor.next_delivery() {
        None => None,
        Some(m) => {
            let text = m.wrapped();
            let bytes = p.deliver_checked(text.as_str(), screen);
            store.delivered(m.id, now);
            assert(store@ == old(store)@.delivered_as(m.id, now));
            bytes
        },
    }
}

/// Take the oldest message from a pane's inbox, as `read-message` prints it.
pub fn take_message(p: &mut Pane, store: &mut Store, now: Time) -> (text: Option<String>)
    requires
        old(store).wf(),
        now.valid(),
    ensures
        final(store).wf(),
        *final(p) == (Pane { actor: final(p).actor, ..*old(p) }),
        if old(p).actor@.inbox.len() == 0 {
            text is None && final(p).actor@ == old(p).actor@ && final(store)@ == old(store)@
        } else {
            let m = old(p).actor@.inbox[0];
            &&& text is Some && text->0@ == envelope_text(m@) + "\n"@ + m.text@
            &&& final(p).actor@ == (ActorState {
                inbox: old(p).actor@.inbox.remove(0),
                last_read: Some(m),
                ..old(p).actor@
            })
            &&& final(store)@ == old(store)@.read_as(m.id, now)
        },
{
    match p.actor.read() {
        None => None,
        Some(m) => {
            store.read(m.id, now);
            Some(joined3(m.envelope().as_str(), "\n", m.text.as_str()))
        },
    }
}

/// The prompt is on the screen: a pane that becomes free by it says so.
pub fn pane_prompt_seen(p: &mut Pane, store: &mut Store, address: &str, now: Time)
    requires
        old(store).wf(),
        now.valid(),
    ensures
        final(store).wf(),
        *final(p) == (Pane { actor: final(p).actor, ..*old(p) }),
        final(p).actor@ == old(p).actor@.after_prompt(),
        final(store)@ == if !old(p).actor@.is_idle() && old(p).actor@.after_prompt().is_idle() {
            idle_written(old(store)@, address@, Seq::empty(), now)
        } else {
            old(store)@
        },
{
    let was: bool = p.actor.idle();
    p.actor.prompt_seen();
    if !was && p.actor.idle() {
        store.pane(address, "idle", "", now);
        assert(""@ =~= Seq::<char>::empty()) by {
            reveal_strlit("");
        }
    }
}

/// The store after it was noted that a pane is free.
pub open spec fn idle_written(s: StoreState, address: Seq<char>, fields: Seq<char>, now: Time) -> StoreState {
    s.wrote(now, "pane"@, ",\"pane\":"@ + json_string(address) + ",\"what\":\""@ + "idle"@ + "\""@ + fields)
}

/// How the last command that ended, of those whose line is `typed` or after
/// it, ended: nothing when the shell did not say.
pub open spec fn last_exit(marks: Seq<Pinned>, typed: int, k: int) -> Option<bool>
    decreases k,
{
    if k <= 0 {
        None
    } else if marks[k - 1].end is None {
        last_exit(marks, typed, k - 1)
    } else if marks[k - 1].line < typed {
        None
    } else {
        match marks[k - 1].exit {
            Some(c) => Some(c == 0),
            None => None,
        }
    }
}

fn last_exit_of(marks: &std::collections::VecDeque<Mark>, typed: u64) -> (ok: Option<bool>)
    ensures
        ok == last_exit(pinned(marks@), typed as int, marks@.len() as int),
{
    let mut k: usize = marks.len();
    while k > 0
        invariant
            k <= marks@.len(),
            last_exit(pinned(marks@), typed as int, marks@.len() as int) == last_exit(
                pinned(marks@),
                typed as int,
                k as int,
            ),
        decreases k,
    {
        let m = &marks[k - 1];
        assert(pinned(marks@)[k - 1] == m@);
        if m.end.is_some() {
            if m.line < typed {
                return None;
            }
            return match m.exit {
                Some(c) => Some(c == 0),
                None => None,
            };
        }
        k = k - 1;
    }
    None
}

/// What a command given to a shell printed and how it ended, for the record:
/// the text after the line it was typed on, in at most `max` bytes.
pub open spec fn printed(p: Pane, screen: Screen, max: int) -> (Seq<char>, bool) {
    let from = match p.delivered_line {
        Some(l) => l.1 as int,
        None => 0,
    };
    let (body, cut) = between_text(screen, from, screen.scrolled + screen.cursor_row, max + 4096);
    if bytes_in(body) > max {
        (body.take(fits_upto(body, max, 0)), true)
    } else {
        (body, cut)
    }
}

/// The line a delivered command was typed on.
pub open spec fn typed_on(p: Pane) -> int {
    match p.delivered_line {
        Some(l) => l.0 as int,
        None => 0,
    }
}

fn printed_by(p: &Pane, screen: &Screen, max: usize) -> (r: (String, bool))
    requires
        screen.wf(),
        max <= usize::MAX - 4096,
    ensures
        (r.0@, r.1) == printed(*p, *screen, max as int),
{
    let from: u64 = match p.delivered_line {
        Some((_, f)) => f,
        None => 0,
    };
    let (body, cut) = screen.text_between(from, screen.cursor_line(), max + 4096);
    let all = chars_of(body.as_str());
    let (e, over) = cut_at(&all, max);
    if over {
        let kept = string_of(&all, 0, e);
        assert(kept@ =~= body@.take(e as int));
        (kept, true)
    } else {
        (body, cut)
    }
}

/// The prompt came back in a pane, and what the command printed is drawn: a
/// shell's command is done (its output and success go on record), an agent's
/// pane is back at a shell.
pub fn pane_prompted(p: &mut Pane, store: &mut Store, screen: &Screen, max: usize, now: Time)
    requires
        old(store).wf(),
        screen.wf(),
        now.valid(),
        max <= usize::MAX - 4096,
    ensures
        final(store).wf(),
        *final(p) == (Pane { actor: final(p).actor, ..*old(p) }),
        final(p).actor@ == old(p).actor@.after_command(),
        final(store)@ == match old(p).actor@.ending() {
            None => old(store)@,
            Some((m, end)) => if m.via is Shell && end is Done {
                old(store)@.ended_with(
                    m.id,
                    end,
                    last_exit(pinned(old(p).marks@), typed_on(*old(p)), old(p).marks@.len() as int),
                    Some(printed(*old(p), *screen, max as int)),
                    now,
                )
            } else {
                old(store)@.ended_with(m.id, end, None, None, now)
            },
        },
{
    match p.actor.command_over() {
        None => {},
        Some((m, end)) => {
            let mut ok: Option<bool> = None;
            let mut output: Option<(String, bool)> = None;
            let shell: bool = match m.via {
                WorkMode::Shell => true,
                _ => false,
            };
            let done: bool = match end {
                End::Done => true,
                End::Abandoned => false,
            };
            if shell && done {
                let typed: u64 = match p.delivered_line {
                    Some((t, _)) => t,
                    None => 0,
                };
                ok = last_exit_of(&p.marks, typed);
                output = Some(printed_by(p, screen, max));
            }
            store.ended(m.id, end, ok, output, now);
        },
    }
}

/// The program in a pane said that it is ready. Only an agent's word counts.
pub fn pane_ready(p: &mut Pane, store: &mut Store, address: &str, now: Time) -> (taken: bool)
    requires
        old(store).wf(),
        now.valid(),
    ensures
        final(store).wf(),
        *final(p) == (Pane { actor: final(p).actor, ..*old(p) }),
        taken == (old(p).actor@.mode is Ai),
        !taken ==> final(p).actor@ == old(p).actor@ && final(store)@ == old(store)@,
        taken ==> {
            &&& final(p).actor@ == (ActorState { ready: true, current: None, ..old(p).actor@ })
            &&& final(store)@ == idle_written(
                match old(p).actor@.current {
                    Some(m) => old(store)@.ended_with(m.id, End::Done, None, None, now),
                    None => old(store)@,
                },
                address@,
                Seq::empty(),
                now,
            )
        },
{
    let (taken, done) = p.actor.ready();
    if !taken {
        return false;
    }
    if let Some((m, end)) = done {
        store.ended(m.id, end, None, None, now);
    }
    store.pane(address, "idle", "", now);
    assert(""@ =~= Seq::<char>::empty()) by {
        reveal_strlit("");
    }
    true
}

/// A field of an event that holds text.
pub open spec fn event_field(key: Seq<char>, value: Seq<char>) -> Seq<char> {
    ",\""@ + key + "\":"@ + json_string(value)
}

pub fn field(key: &str, value: &str) -> (s: String)
    ensures
        s@ == event_field(key@, value@),
{
    let mut s = joined3(",\"", key, "\":");
    s.push_str(to_json(value).as_str());
    s
}

/// The actor of a pane that a person made free.
pub open spec fn unstuck(a: ActorState) -> ActorState {
    match a.mode {
        WorkMode::Shell => ActorState { at_prompt: true, ..a },
        WorkMode::Ai => ActorState { ready: true, ..a },
        WorkMode::Normal => a,
    }
}

/// Unstick a pane that stays busy.
pub fn unstick(p: &mut Pane, store: &mut Store, address: &str, by: &str, now: Time)
    requires
        old(store).wf(),
        now.valid(),
    ensures
        final(store).wf(),
        *final(p) == (Pane { actor: final(p).actor, ..*old(p) }),
        final(p).actor@ == unstuck(old(p).actor@),
        final(store)@ == idle_written(old(store)@, address@, event_field("by"@, by@), now),
{
    p.actor.force_idle();
    store.pane(address, "idle", field("by", by).as_str(), now);
}

/// Delete a queued message; where it stood, and the message.
pub fn drop_message(p: &mut Pane, store: &mut Store, id: MsgId, by: &str, now: Time) -> (gone: Option<(usize, Message)>)
    requires
        old(store).wf(),
        now.valid(),
    ensures
        final(store).wf(),
        *final(p) == (Pane { actor: final(p).actor, ..*old(p) }),
        match old(p).actor@.place_of(id, 0) {
            None => gone is None && final(p).actor@ == old(p).actor@ && final(store)@ == old(store)@,
            Some(i) => {
                &&& gone == Some((i as usize, old(p).actor@.inbox[i]))
                &&& final(p).actor@ == (ActorState { inbox: old(p).actor@.inbox.remove(i), ..old(p).actor@ })
                &&& final(store)@ == old(store)@.dropped_for(id, "deleted by "@ + by@, now)
            },
        },
{
    let place: usize = match p.actor.find(id) {
        Some(i) => i,
        None => {
            return None;
        },
    };
    match p.actor.remove(id) {
        None => None,
        Some(m) => {
            store.dropped(id, joined2("deleted by ", by).as_str(), now);
            Some((place, m))
        },
    }
}

/// Put a deleted message back where it stood.
pub fn restore_message(p: &mut Pane, store: &mut Store, m: Message, place: usize, by: &str, now: Time)
    requires
        old(store).wf(),
        now.valid(),
    ensures
        final(store).wf(),
        *final(p) == (Pane { actor: final(p).actor, ..*old(p) }),
        final(p).actor@ == (ActorState {
            inbox: old(p).actor@.inbox.insert(
                if place < old(p).actor@.inbox.len() {
                    place as int
                } else {
                    old(p).actor@.inbox.len() as int
                },
                m,
            ),
            ..old(p).actor@
        }),
        final(store)@ == old(store)@.wrote(now, "restored"@, id_field(m.id) + ",\"by\":"@ + json_string(by@)).with(
            m.id,
            |r: Life| Life { stage: Stage::Queued, ended: None, why: None, ..r },
        ),
{
    let id: MsgId = m.id;
    p.actor.restore(m, place);
    store.restored(id, by, now);
}

/// Move a queued message up, down or to the front; false when it is not
/// queued here.
pub fn move_message(p: &mut Pane, store: &mut Store, id: MsgId, to: Move, by: &str, now: Time) -> (done: bool)
    requires
        old(store).wf(),
        now.valid(),
    ensures
        final(store).wf(),
        *final(p) == (Pane { actor: final(p).actor, ..*old(p) }),
        match old(p).actor@.place_of(id, 0) {
            None => !done && final(p).actor@ == old(p).actor@ && final(store)@ == old(store)@,
            Some(i) => {
                let inbox = old(p).actor@.inbox;
                let j = crate::actor::moved_to(i, inbox.len() as int, to);
                &&& done
                &&& final(p).actor@ == (ActorState { inbox: inbox.remove(i).insert(j, inbox[i]), ..old(p).actor@ })
                &&& final(store)@ == if i == j {
                    old(store)@
                } else {
                    old(store)@.wrote(
                        now,
                        "moved"@,
                        id_field(id) + ",\"from\":"@ + decimal(i as nat) + ",\"to\":"@ + decimal(j as nat)
                            + ",\"by\":"@ + json_string(by@),
                    )
                }
            },
        },
{
    let n: usize = p.actor.inbox.len();
    proof {
        crate::actor::lemma_place_of(p.actor@, id, 0);
        assert(n == p.actor@.inbox.len());
    }
    match p.actor.move_message(id, to) {
        None => false,
        Some((i, j)) => {
            if i != j {
                store.moved(id, i, j, by, now);
            }
            true
        },
    }
}

/// The store after the first `k` of `inbox` were dropped because their pane
/// closed.
pub open spec fn all_dropped(s: StoreState, inbox: Seq<Message>, k: int, now: Time) -> StoreState
    decreases k,
{
    if k <= 0 {
        s
    } else {
        all_dropped(s, inbox, k - 1, now).dropped_for(inbox[k - 1].id, "its pane closed"@, now)
    }
}

/// A pane is going away: what waited in its inbox is dropped, and what it was
/// working on ends unfinished.
pub fn pane_closing(p: &mut Pane, store: &mut Store, now: Time)
    requires
        old(store).wf(),
        now.valid(),
    ensures
        final(store).wf(),
        *final(p) == (Pane { actor: final(p).actor, ..*old(p) }),
        final(p).actor@ == (ActorState { inbox: Seq::empty(), current: None, ..old(p).actor@ }),
        ({
            let inbox = old(p).actor@.inbox;
            let dropped = all_dropped(old(store)@, inbox, inbox.len() as int, now);
            final(store)@ == match old(p).actor@.current {
                Some(m) => dropped.ended_with(m.id, End::Abandoned, None, None, now),
                None => dropped,
            }
        }),
{
    let ghost all = p.actor@.inbox;
    let ghost start = store@;
    let ghost mut k: int = 0;
    assert(all.skip(0) =~= all);
    while p.actor.inbox.len() > 0
        invariant
            0 <= k <= all.len(),
            p.actor@.inbox == all.skip(k),
            store.wf(),
            now.valid(),
            store@ == all_dropped(start, all, k, now),
            *p == (Pane { actor: p.actor, ..*old(p) }),
            p.actor@ == (ActorState { inbox: p.actor@.inbox, ..old(p).actor@ }),
        decreases p.actor@.inbox.len(),
    {
        if let Some(m) = p.actor.inbox.pop_front() {
            store.dropped(m.id, "its pane closed", now);
            proof {
                assert(all.skip(k)[0] == all[k]);
                k = k + 1;
                assert(p.actor@.inbox =~= all.skip(k));
            }
        }
    }
    assert(p.actor@.inbox =~= Seq::<Message>::empty());
    let current = p.actor.current.take();
    if let Some(m) = current {
        store.ended(m.id, End::Abandoned, None, None, now);
    }
}

/// `set-work-mode` on a pane.
pub fn set_mode(p: &mut Pane, store: &mut Store, mode: WorkMode, address: &str, by: &str, now: Time)
    requires
        old(store).wf(),
        now.valid(),
    ensures
        final(store).wf(),
        *final(p) == (Pane { actor: final(p).actor, ..*old(p) }),
        final(p).actor@ == (ActorState { mode, ..old(p).actor@ }),
        final(store)@ == old(store)@.wrote(
            now,
            "pane"@,
            ",\"pane\":"@ + json_string(address@) + ",\"what\":\""@ + "mode"@ + "\""@ + (",\"value\":\""@
                + mode_name(mode) + "\""@ + event_field("by"@, by@)),
        ),
{
    p.actor.mode = mode;
    let mut fields = joined3(",\"value\":\"", mode.as_str(), "\"");
    fields.push_str(field("by", by).as_str());
    store.pane(address, "mode", fields.as_str(), now);
}

/// `rename-pane` on a pane; an empty name takes the name away.
pub fn set_name(p: &mut Pane, store: &mut Store, name: &str, address: &str, by: &str, now: Time)
    requires
        old(store).wf(),
        now.valid(),
    ensures
        final(store).wf(),
        *final(p) == (Pane { actor: final(p).actor, ..*old(p) }),
        opt_text(final(p).actor.name) == if name@.len() == 0 {
            None
        } else {
            Some(name@)
        },
        final(p).actor@ == (ActorState { name: final(p).actor.name, ..old(p).actor@ }),
        final(store)@ == old(store)@.wrote(
            now,
            "pane"@,
            ",\"pane\":"@ + json_string(address@) + ",\"what\":\""@ + "name"@ + "\""@ + (event_field(
                "value"@,
                name@,
            ) + event_field("by"@, by@)),
        ),
{
    p.actor.name = if name.is_empty() { None } else { Some(name.to_owned()) };
    let fields = joined2(field("value", name).as_str(), field("by", by).as_str());
    store.pane(address, "name", fields.as_str(), now);
}

/// What a pane said of itself, for the event log.
pub open spec fn status_fields(name: Option<Seq<char>>, mode: WorkMode, program: Seq<char>, text: Seq<char>) -> Seq<char> {
    (match name {
        Some(n) => event_field("name"@, n),
        None => Seq::empty(),
    }) + ",\"mode\":\""@ + mode_name(mode) + "\""@ + event_field("program"@, program) + event_field("text"@, text)
}

/// `pane-status`: what a pane says it is doing; nothing takes it back.
pub fn set_status(p: &mut Pane, store: &mut Store, text: String, program: &str, address: &str, now: Time)
    requires
        old(store).wf(),
        now.valid(),
    ensures
        final(store).wf(),
        *final(p) == (Pane { actor: final(p).actor, ..*old(p) }),
        final(p).actor@ == (ActorState { status: final(p).actor.status, ..old(p).actor@ }),
        match final(p).actor.status {
            Some((t, at)) => text@.len() > 0 && t@ == text@ && at == now,
            None => text@.len() == 0,
        },
        final(store)@ == old(store)@.wrote(
            now,
            "pane"@,
            ",\"pane\":"@ + json_string(address@) + ",\"what\":\""@ + "status"@ + "\""@ + status_fields(
                opt_text(old(p).actor.name),
                old(p).actor.mode,
                program@,
                text@,
            ),
        ),
{
    let mut fields = match &p.actor.name {
        Some(n) => field("name", n.as_str()),
        None => String::new(),
    };
    fields.push_str(",\"mode\":\"");
    fields.push_str(p.actor.mode.as_str());
    fields.push_str("\"");
    fields.push_str(field("program", program).as_str());
    fields.push_str(field("text", text.as_str()).as_str());
    store.pane(address, "status", fields.as_str(), now);
    p.actor.status = if text.as_str().is_empty() { None } else { Some((text, now)) };
}

/// What is sent in answer to whom, and the chain it carries on: decided from
/// the pane that sends, if one does.
pub open spec fn reply_to(me: Option<PaneId>, answering: Option<Mail>, there: bool) -> Result<PaneId, Seq<char>> {
    match me {
        None => Err("send-message -r: not run inside a pane"@),
        Some(p) => match answering {
            None => Err("send-message -r: %"@ + decimal(p as nat) + " has no message to answer"@),
            Some(m) => match m.from {
                Origin::User => Err(
                    "send-message -r: #"@ + decimal(m.id as nat) + " came from outside any pane"@,
                ),
                Origin::Pane { id, .. } => if there {
                    Ok(id)
                } else {
                    Err(
                        "send-message -r: #"@ + decimal(m.id as nat) + " came from %"@ + decimal(id as nat)
                            + ", which is gone"@,
                    )
                },
            },
        },
    }
}

/// Whom `send-message -r` answers; `there` is whether the pane that sent what
/// is answered is still there.
pub fn whom_to_answer(me: Option<PaneId>, answering: Option<&Message>, there: bool) -> (r: Result<PaneId, String>)
    ensures
        match (r, reply_to(
            me,
            match answering {
                Some(m) => Some(m@),
                None => None,
            },
            there,
        )) {
            (Ok(a), Ok(b)) => a == b,
            (Err(a), Err(b)) => a@ == b,
            _ => false,
        },
{
    let p: PaneId = match me {
        Some(p) => p,
        None => {
            return Err("send-message -r: not run inside a pane".to_owned());
        },
    };
    let m = match answering {
        Some(m) => m,
        None => {
            return Err(joined3("send-message -r: %", number_text(p as u64).as_str(), " has no message to answer"));
        },
    };
    match m.sender_pane() {
        None => Err(joined3("send-message -r: #", number_text(m.id).as_str(), " came from outside any pane")),
        Some(id) => {
            if there {
                return Ok(id);
            }
            let mut e = joined3("send-message -r: #", number_text(m.id).as_str(), " came from %");
            push_decimal(&mut e, id as u64);
            e.push_str(", which is gone");
            Err(e)
        },
    }
}

/// A new message: it carries on the chain that `carry` says, or starts one.
pub fn compose(
    id: MsgId,
    carry: Option<(MsgId, u32)>,
    from: Sender,
    to: String,
    via: WorkMode,
    re: Option<MsgId>,
    text: String,
    now: Time,
) -> (m: Message)
    ensures
        m == (Message {
            id,
            task: match carry {
                Some(c) => c.0,
                None => id,
            },
            from,
            to,
            via,
            hop: match carry {
                Some(c) => c.1,
                None => 0,
            },
            re,
            text,
            at: now,
        }),
{
    let (task, hop) = match carry {
        Some(c) => c,
        None => (id, 0),
    };
    Message { id, task, from, to, via, hop, re, text, at: now }
}

/// Where a message stands, the way `send-message` reports it; `ahead` are
/// those before it in the inbox.
pub open spec fn stand_text(id: MsgId, life: Option<Life>, ahead: nat) -> Seq<char> {
    let head = "#"@ + decimal(id as nat);
    match life {
        None => head,
        Some(r) => match r.stage {
            Stage::Queued => head + " queued for "@ + r.msg.to + " ("@ + mode_name(r.msg.via) + ", "@ + (
            if r.msg.via is Normal {
                "waits for read-message"@
            } else {
                "busy"@
            }) + ", "@ + decimal(ahead) + " ahead)"@,
            Stage::Delivered => head + " delivered to "@ + r.msg.to + " ("@ + mode_name(r.msg.via) + ")"@,
            Stage::Read => head + " read by "@ + r.msg.to,
            s => head + " "@ + crate::observe::stage_name(s) + " ("@ + (match r.why {
                Some(w) => w,
                None => r.msg.to,
            }) + ")"@,
        },
    }
}

pub fn stand(store: &Store, id: MsgId, ahead: usize) -> (s: String)
    requires
        store.wf(),
    ensures
        s@ == stand_text(id, store@.life(id), ahead as nat),
{
    let mut s = joined2("#", number_text(id).as_str());
    match store.get(id) {
        None => {},
        Some(r) => match r.stage {
            Stage::Queued => {
                s.push_str(" queued for ");
                s.push_str(r.msg.to.as_str());
                s.push_str(" (");
                s.push_str(r.msg.via.as_str());
                s.push_str(", ");
                match r.msg.via {
                    WorkMode::Normal => s.push_str("waits for read-message"),
                    _ => s.push_str("busy"),
                }
                s.push_str(", ");
                push_decimal(&mut s, ahead as u64);
                s.push_str(" ahead)");
            },
            Stage::Delivered => {
                s.push_str(" delivered to ");
                s.push_str(r.msg.to.as_str());
                s.push_str(" (");
                s.push_str(r.msg.via.as_str());
                s.push_str(")");
            },
            Stage::Read => {
                s.push_str(" read by ");
                s.push_str(r.msg.to.as_str());
            },
            other => {
                s.push_str(" ");
                s.push_str(other.as_str());
                s.push_str(" (");
                match &r.why {
                    Some(w) => s.push_str(w.as_str()),
                    None => s.push_str(r.msg.to.as_str()),
                }
                s.push_str(")");
            },
        },
    }
    s
}

/// A refused message is in no inbox, and on record as rejected with the
/// reason; an accepted one is on record as queued.
pub proof fn lemma_sent_is_on_record(s: StoreState, m: Mail, why: Option<Seq<char>>)
    requires
        crate::observe::in_order(s.records),
        s.records.len() < KEPT,
        !crate::observe::known(s.records, m.id),
    ensures
        sent_to(s, m, why).life(m.id) == Some(sent_life(m, why)),
{
    let t = put(s.records, sent_life(m, why));
    crate::observe::lemma_put(s.records, sent_life(m, why));
    crate::observe::lemma_kept(t, KEPT as int);
}

} // verus!
