//! What becomes of messages between panes.
use vstd::prelude::*;
use vstd::utf8::encode_utf8;

use crate::actor::{doubled, is_quote, moved_to, name_fault, ActorState, End, Mail, Message, Move, MsgId, Origin};
use crate::chooser::ClientId;
use crate::client::Client;
use crate::command::Ended;
use crate::layout::PaneId;
use crate::mail::{due, last_exit, refusal, reply_to, unstuck, MailRules};
use crate::marks::Pinned;
use crate::message_waits::{answer_in, waiting};
use crate::messages::{carried_by, mail_sent, MsgWait, WaitKind};
use crate::observe::{end_stage, Stage, StoreState};
use crate::pane::Pane;
use crate::session::SessionState;
use crate::time::Time;

verus! {

/// A queued message that is moved up changes places with the one before it,
/// down with the one behind it; at the top it is the first, the others in
/// their order.
pub proof fn lemma_message_moves(inbox: Seq<Message>, i: int)
    requires
        0 <= i < inbox.len(),
    ensures
        ({
            let n = inbox.len() as int;
            let up = inbox.remove(i).insert(moved_to(i, n, Move::Up), inbox[i]);
            let down = inbox.remove(i).insert(moved_to(i, n, Move::Down), inbox[i]);
            let top = inbox.remove(i).insert(moved_to(i, n, Move::Top), inbox[i]);
            &&& i > 0 ==> up == inbox.update(i - 1, inbox[i]).update(i, inbox[i - 1])
            &&& i == 0 ==> up == inbox
            &&& i < n - 1 ==> down == inbox.update(i + 1, inbox[i]).update(i, inbox[i + 1])
            &&& i == n - 1 ==> down == inbox
            &&& top.len() == n && top[0] == inbox[i]
            &&& forall|k: int| 0 < k <= i ==> #[trigger] top[k] == inbox[k - 1]
            &&& forall|k: int| i < k < n ==> #[trigger] top[k] == inbox[k]
        }),
{
    let n = inbox.len() as int;
    if i > 0 {
        assert(inbox.remove(i).insert(i - 1, inbox[i]) =~= inbox.update(i - 1, inbox[i]).update(i, inbox[i - 1]));
    } else {
        assert(inbox.remove(i).insert(0, inbox[i]) =~= inbox);
    }
    if i < n - 1 {
        assert(inbox.remove(i).insert(i + 1, inbox[i]) =~= inbox.update(i + 1, inbox[i]).update(i, inbox[i + 1]));
    } else {
        assert(inbox.remove(i).insert(n - 1, inbox[i]) =~= inbox);
    }
}

/// A message that is sent while another is worked on belongs to its task and
/// is one hop further; one that is not begins a task of its own. An answer
/// says what it answers.
pub proof fn lemma_message_carried(
    ss: Seq<SessionState>,
    cs: Seq<Client>,
    id: MsgId,
    cid: Option<ClientId>,
    to: PaneId,
    text: Seq<char>,
    now: Time,
    reply: bool,
)
    ensures
        ({
            let m = mail_sent(ss, cs, id, cid, to, reply, text, now);
            let by = carried_by(ss, cs, cid, reply);
            &&& m.id == id && m.text == text && m.at == now
            &&& by is None ==> m.task == id && m.hop == 0 && m.re is None
            &&& by is Some && by->0.hop < u32::MAX ==> m.task == by->0.task && m.hop == by->0.hop + 1
            &&& reply && by is Some ==> m.re == Some(by->0.id)
            &&& !reply ==> m.re is None
        }),
{
}

/// What a pane answers is what it works on, or else what it read last.
pub proof fn lemma_answers(a: ActorState)
    ensures
        a.current is Some ==> a.answers() == a.current,
        a.current is None ==> a.answers() == a.last_read,
{
}

/// A message is refused that is too long, that came over too many panes, whose
/// pane has ended, or for which the inbox is full; no other.
pub proof fn lemma_refused(m: Mail, p: Pane, rules: MailRules)
    ensures
        refusal(m, p, rules) is Some <==> encode_utf8(m.text).len() > rules.max_size || m.hop > rules.hop_limit
            || p.exit_code is Some || p.actor.inbox@.len() >= rules.inbox_limit,
{
}

/// An answer goes to the pane that the message came from, if it is there.
pub proof fn lemma_reply(me: PaneId, m: Mail, there: bool)
    ensures
        m.from matches Origin::Pane { id, .. } ==> there ==> reply_to(Some(me), Some(m), there) == Ok::<
            PaneId,
            Seq<char>,
        >(id),
        !there ==> reply_to(Some(me), Some(m), there) is Err,
        m.from is User ==> reply_to(Some(me), Some(m), there) is Err,
        reply_to(None, Some(m), there) is Err,
        reply_to(Some(me), None, there) is Err,
{
}

/// The message that is due is the first that was sent for the mode the pane is
/// in, and none while the pane is busy, has ended, or in the normal mode.
pub proof fn lemma_due(p: Pane, pending: bool)
    ensures
        match due(p, pending) {
            Some(m) => {
                &&& m.via == p.actor.mode && p.exit_code is None && !pending
                &&& p.actor.mode is Shell && p.actor@.at_prompt || p.actor.mode is Ai && p.actor@.ready
                &&& exists|i: int|
                    0 <= i < p.actor@.inbox.len() && (#[trigger] p.actor@.inbox[i]) == m && forall|j: int|
                        0 <= j < i ==> (#[trigger] p.actor@.inbox[j]).via != p.actor.mode
            },
            None => true,
        },
{
    lemma_next_message(p.actor@, 0);
}

proof fn lemma_next_message(a: ActorState, i: int)
    requires
        0 <= i,
    ensures
        match a.next_for(i) {
            Some(k) => i <= k < a.inbox.len() && a.inbox[k].via == a.mode && forall|j: int|
                i <= j < k ==> (#[trigger] a.inbox[j]).via != a.mode,
            None => forall|j: int| i <= j < a.inbox.len() ==> (#[trigger] a.inbox[j]).via != a.mode,
        },
    decreases a.inbox.len() - i,
{
    if i < a.inbox.len() && a.inbox[i].via != a.mode {
        lemma_next_message(a, i + 1);
    }
}

/// A pane that is told it is free is: a shell at its prompt, an agent ready.
pub proof fn lemma_unstuck(a: ActorState)
    ensures
        !(a.mode is Normal) ==> unstuck(a).is_idle(),
        a.mode is Normal ==> unstuck(a) == a,
        unstuck(a).inbox == a.inbox && unstuck(a).current == a.current,
{
}

/// How a message ended: given up if its agent went, else as its command did.
pub proof fn lemma_ends(ok: Option<bool>)
    ensures
        end_stage(End::Abandoned, ok) is Abandoned,
        ok == Some(false) ==> end_stage(End::Done, ok) is Failed,
        ok != Some(false) ==> end_stage(End::Done, ok) is Done,
        forall|s: Stage| #[trigger] s.is_finished() <==> !(s is Queued || s is Delivered),
{
}

/// How the last command ended that was typed at the line or below it: by the
/// last mark that has an end.
pub proof fn lemma_last_exit(marks: Seq<Pinned>, typed: int, k: int, j: int)
    requires
        0 <= j < k <= marks.len(),
        marks[j].end is Some,
        forall|i: int| j < i < k ==> (#[trigger] marks[i]).end is None,
    ensures
        marks[j].line < typed ==> last_exit(marks, typed, k) is None,
        marks[j].line >= typed && marks[j].exit == Some(0i32) ==> last_exit(marks, typed, k) == Some(true),
        marks[j].line >= typed && marks[j].exit is Some && marks[j].exit != Some(0i32) ==> last_exit(marks, typed, k)
            == Some(false),
        marks[j].line >= typed && marks[j].exit is None ==> last_exit(marks, typed, k) is None,
    decreases k,
{
    if j < k - 1 {
        assert(marks[k - 1].end is None);
        lemma_last_exit(marks, typed, k - 1, j);
    }
}

/// Quotes in a line that is typed at a shell are doubled, and nothing else is
/// changed.
pub proof fn lemma_doubled(a: Seq<char>, c: char)
    ensures
        doubled(Seq::empty()) == Seq::<char>::empty(),
        c == '\'' || c == '\u{2018}' || c == '\u{2019}' || c == '\u{201A}' || c == '\u{201B}' ==> doubled(a.push(c))
            == doubled(a) + seq![c, c],
        c != '\'' && c != '\u{2018}' && c != '\u{2019}' && c != '\u{201A}' && c != '\u{201B}' ==> doubled(a.push(c))
            == doubled(a).push(c),
{
    assert(a.push(c).drop_last() =~= a);
    assert(is_quote(c) == (c == '\'' || c == '\u{2018}' || c == '\u{2019}' || c == '\u{201A}' || c == '\u{201B}'));
}

/// A pane's name is of letters, digits, `-` and `_`, not of digits alone, and
/// sixty-four bytes at most.
pub proof fn lemma_names(name: Seq<char>)
    requires
        encode_utf8(name).len() <= usize::MAX,
    ensures
        name_fault(name) is None <==> {
            &&& name.len() > 0 && encode_utf8(name).len() <= 64
            &&& forall|i: int|
                0 <= i < name.len() ==> 'a' <= #[trigger] name[i] <= 'z' || 'A' <= name[i] <= 'Z' || '0' <= name[i] <= '9'
                    || name[i] == '-' || name[i] == '_'
            &&& exists|i: int| 0 <= i < name.len() && !('0' <= #[trigger] name[i] <= '9')
        },
{
    let all = forall|i: int|
        0 <= i < name.len() ==> 'a' <= #[trigger] name[i] <= 'z' || 'A' <= name[i] <= 'Z' || '0' <= name[i] <= '9'
            || name[i] == '-' || name[i] == '_';
    if all && exists|i: int| 0 <= i < name.len() && !crate::actor::is_name_char(#[trigger] name[i]) {
        let i = choose|i: int| 0 <= i < name.len() && !crate::actor::is_name_char(#[trigger] name[i]);
        assert(name[i] == name[i]);
    }
    if !all {
        let i = choose|i: int|
            0 <= i < name.len() && !('a' <= #[trigger] name[i] <= 'z' || 'A' <= name[i] <= 'Z' || '0' <= name[i] <= '9'
                || name[i] == '-' || name[i] == '_');
        assert(!crate::actor::is_name_char(name[i]));
    }
    if exists|i: int| 0 <= i < name.len() && !('0' <= #[trigger] name[i] <= '9') {
        let i = choose|i: int| 0 <= i < name.len() && !('0' <= #[trigger] name[i] <= '9');
        assert(!crate::text::is_digit(name[i]));
    } else {
        assert forall|i: int| 0 <= i < name.len() implies crate::text::is_digit(#[trigger] name[i]) by {
            assert('0' <= name[i] <= '9');
        }
    }
}

/// Who waits for a message's delivery waits while it is queued; for its end,
/// while it is queued or worked on; for an inbox, while it is empty, and then
/// gets its first message. The rest is answered at once.
pub proof fn lemma_waits(b: Map<PaneId, ActorState>, s: StoreState, id: MsgId, p: PaneId, words: spec_fn(i64) -> Seq<char>)
    ensures
        ({
            let arrived = answer_in(b, s, WaitKind::Delivered(id), words);
            let ended = answer_in(b, s, WaitKind::Finished(id), words);
            let came = answer_in(b, s, WaitKind::Inbox(p), words);
            let stage = s.life(id)->0.stage;
            &&& s.life(id) is Some ==> (arrived is None <==> stage is Queued)
            &&& s.life(id) is Some && (stage is Dropped || stage is Rejected) ==> arrived->0 is Error
            &&& s.life(id) is Some && (stage is Delivered || stage is Done) ==> arrived->0 is Text
            &&& s.life(id) is Some ==> (ended is None <==> stage is Queued || stage is Delivered)
            &&& s.life(id) is None ==> ended is Some && ended->0 is Error
            &&& b.contains_key(p) ==> (came is None <==> b[p].inbox.len() == 0)
            &&& b.contains_key(p) && b[p].inbox.len() > 0 ==> came == Some(
                Ended::Text(crate::actor::envelope_text(b[p].inbox[0]@) + seq!['\n'] + b[p].inbox[0].text@),
            )
            &&& !b.contains_key(p) ==> came is Some && came->0 is Error
        }),
{
    reveal_strlit("\n");
    assert("\n"@ =~= seq!['\n']);
}

/// A wait ends after the seconds that were asked for, or after the most that
/// may be, whichever comes first; it comes behind those before it.
pub proof fn lemma_wait_ends(ws: Seq<MsgWait>, cid: ClientId, secs: u64, most: u64, kind: WaitKind, now: u64)
    requires
        now + 1000 * secs <= u64::MAX,
        now + 1000 * most <= u64::MAX,
    ensures
        ({
            let after = waiting(ws, cid, secs, most, kind, now);
            &&& after.len() == ws.len() + 1
            &&& forall|i: int| 0 <= i < ws.len() ==> #[trigger] after[i] == ws[i]
            &&& after.last().cid == cid && after.last().kind == kind
            &&& secs <= most ==> after.last().until == now + 1000 * secs
            &&& secs > most ==> after.last().until == now + 1000 * most
        }),
{
}

} // verus!
