//! Clients that wait for something to happen to a message or an inbox.
use vstd::prelude::*;

use crate::actor::{envelope_text, ActorState, MsgId};
use crate::callers::is_there;
use crate::chooser::ClientId;
use crate::command::{Ended, Outcome};
use crate::endings::pane_named;
use crate::layout::PaneId;
use crate::mail::stand_text;
use crate::messages::{Mailroom, MsgWait, WaitKind};
use crate::observe::{stage_name, Stage, Store, StoreState};
use crate::pane::Pane;
use crate::pane_commands::{actor_set, lemma_reads_back, pane_set};
use crate::replay::last_percent;
use crate::server::{lemma_session_with, session_has, session_with, Server};
use crate::session::{lemma_window_with, window_with, SessionState};
use crate::tasks::{dated, trace_text, words_it};
use crate::text::{decimal, joined2, joined3, number_of, number_text};
use crate::time::Time;
use crate::window::{ids, lemma_place_of, place_of};

verus! {

/// The actor of every pane, by the pane's number.
pub open spec fn actors(ss: Seq<SessionState>) -> Map<PaneId, ActorState> {
    Map::new(|id: PaneId| is_there(ss, id), |id: PaneId| pane_named(ss, id).actor@)
}

/// How many messages are before message `id` where its address says.
pub open spec fn ahead_in(b: Map<PaneId, ActorState>, to: Seq<char>, id: MsgId) -> nat {
    match last_percent(to, to.len() as int) {
        None => 0,
        Some(i) => match number_of(to.skip(i + 1), u32::MAX as int) {
            None => 0,
            Some(n) => if b.contains_key(n as PaneId) {
                match b[n as PaneId].place_of(id, 0) {
                    Some(k) => k as nat,
                    None => 0,
                }
            } else {
                0
            },
        },
    }
}

/// Where message `id` stands, in words.
pub open spec fn standing(b: Map<PaneId, ActorState>, s: StoreState, id: MsgId) -> Seq<char> {
    stand_text(
        id,
        s.life(id),
        match s.life(id) {
            Some(r) => ahead_in(b, r.msg.to, id),
            None => 0,
        },
    )
}

/// The pane's inbox has a message to take.
pub open spec fn has_mail(b: Map<PaneId, ActorState>, id: PaneId) -> bool {
    b.contains_key(id) && b[id].inbox.len() > 0
}

/// The answer to a wait whose moment has come.
pub open spec fn answer_in(
    b: Map<PaneId, ActorState>,
    s: StoreState,
    kind: WaitKind,
    words: spec_fn(i64) -> Seq<char>,
) -> Option<Ended> {
    match kind {
        WaitKind::Delivered(id) => match s.life(id) {
            Some(r) => match r.stage {
                Stage::Queued => None,
                Stage::Dropped | Stage::Rejected => Some(Ended::Error(standing(b, s, id))),
                _ => Some(Ended::Text(standing(b, s, id))),
            },
            None => Some(Ended::Text(standing(b, s, id))),
        },
        WaitKind::Finished(id) => match s.life(id) {
            Some(r) => if r.stage.is_finished() {
                Some(Ended::Text(trace_text(r, words)))
            } else {
                None
            },
            None => Some(Ended::Error("no message #"@ + decimal(id as nat))),
        },
        WaitKind::Inbox(id) => if !b.contains_key(id) {
            Some(Ended::Error("%"@ + decimal(id as nat) + " is gone"@))
        } else if b[id].inbox.len() > 0 {
            let m = b[id].inbox[0];
            Some(Ended::Text(envelope_text(m@) + "\n"@ + m.text@))
        } else {
            None
        },
    }
}

/// The actors after a wait was answered.
pub open spec fn actors_after(b: Map<PaneId, ActorState>, kind: WaitKind) -> Map<PaneId, ActorState> {
    match kind {
        WaitKind::Inbox(id) => if has_mail(b, id) {
            b.insert(
                id,
                (ActorState { inbox: b[id].inbox.remove(0), last_read: Some(b[id].inbox[0]), ..b[id] }),
            )
        } else {
            b
        },
        _ => b,
    }
}

/// The store after a wait was answered.
pub open spec fn store_after(b: Map<PaneId, ActorState>, s: StoreState, kind: WaitKind, now: Time) -> StoreState {
    match kind {
        WaitKind::Inbox(id) => if has_mail(b, id) {
            s.read_as(b[id].inbox[0].id, now)
        } else {
            s
        },
        _ => s,
    }
}

/// What answering waits leads to.
#[verifier::ext_equal]
pub ghost struct Woken {
    pub actors: Map<PaneId, ActorState>,
    pub store: StoreState,
    pub left: Seq<MsgWait>,
    pub replies: Seq<(ClientId, Ended)>,
}

/// What answering the first `k` waits leads to, each after those before it.
pub open spec fn woken(
    b: Map<PaneId, ActorState>,
    s: StoreState,
    ws: Seq<MsgWait>,
    k: int,
    words: spec_fn(i64) -> Seq<char>,
    now: Time,
) -> Woken
    decreases k,
{
    if k <= 0 {
        Woken { actors: b, store: s, left: Seq::empty(), replies: Seq::empty() }
    } else {
        let w = woken(b, s, ws, k - 1, words, now);
        let kind = ws[k - 1].kind;
        match answer_in(w.actors, w.store, kind, words) {
            None => Woken { left: w.left.push(ws[k - 1]), ..w },
            Some(e) => Woken {
                actors: actors_after(w.actors, kind),
                store: store_after(w.actors, w.store, kind, now),
                left: w.left,
                replies: w.replies.push((ws[k - 1].cid, e)),
            },
        }
    }
}

/// Every moment in the store has a date.
pub open spec fn all_dated(s: StoreState) -> bool {
    forall|i: int| 0 <= i < s.records.len() ==> dated(#[trigger] s.records[i])
}

/// The answers, as mathematics.
pub open spec fn replies_of(v: Seq<(ClientId, Outcome)>) -> Seq<(ClientId, Ended)> {
    Seq::new(v.len(), |i: int| (v[i].0, v[i].1@))
}

proof fn lemma_other_pane(ss: Seq<SessionState>, p: Pane, id: PaneId)
    requires
        is_there(ss, p.id),
        id != p.id,
    ensures
        is_there(pane_set(ss, p), id) == is_there(ss, id),
        is_there(ss, id) ==> pane_named(pane_set(ss, p), id) == pane_named(ss, id),
{
    let i = session_with(ss, p.id, 0);
    lemma_session_with(ss, p.id, 0);
    let j = window_with(ss[i].windows, p.id, 0);
    lemma_window_with(ss[i].windows, p.id, 0);
    let w = ss[i].windows[j];
    let tt = pane_set(ss, p);
    let v = w.with_pane(p);
    lemma_place_of(w.panes, p.id, 0);
    assert(tt[i].windows[j] == v);
    assert(ids(v.panes) =~= ids(w.panes));
    assert forall|l: int| 0 <= l < ss[i].windows.len() implies (#[trigger] tt[i].windows[l]).has(id)
        == ss[i].windows[l].has(id) by {}
    lemma_same_place(ss, tt, id, i, 0);
    if is_there(ss, id) {
        let a = session_with(ss, id, 0);
        lemma_session_with(ss, id, 0);
        lemma_window_with(ss[a].windows, id, 0);
        lemma_same_window(ss[a].windows, tt[a].windows, id, 0);
        let b = window_with(ss[a].windows, id, 0);
        if a == i && b == j {
            lemma_same_spot(w.panes, v.panes, id, 0);
            lemma_place_of(w.panes, id, 0);
            let k = place_of(w.panes, p.id, 0);
            assert(place_of(w.panes, id, 0) != k);
        }
    }
}

proof fn lemma_same_window(a: Seq<crate::window::WindowState>, b: Seq<crate::window::WindowState>, id: PaneId, n: int)
    requires
        a.len() == b.len(),
        0 <= n <= a.len(),
        forall|l: int| 0 <= l < a.len() ==> (#[trigger] b[l]).has(id) == a[l].has(id),
    ensures
        window_with(a, id, n) == window_with(b, id, n),
    decreases a.len() - n,
{
    if n < a.len() {
        assert(b[n].has(id) == a[n].has(id));
        lemma_same_window(a, b, id, n + 1);
    }
}

proof fn lemma_same_spot(a: Seq<Pane>, b: Seq<Pane>, id: PaneId, n: int)
    requires
        ids(a) == ids(b),
        0 <= n <= a.len(),
    ensures
        place_of(a, id, n) == place_of(b, id, n),
    decreases a.len() - n,
{
    assert(ids(a).len() == a.len() && ids(b).len() == b.len());
    if n < a.len() {
        assert(ids(a)[n] == a[n].id && ids(b)[n] == b[n].id);
        lemma_same_spot(a, b, id, n + 1);
    }
}

proof fn lemma_same_place(ss: Seq<SessionState>, tt: Seq<SessionState>, id: PaneId, i: int, n: int)
    requires
        ss.len() == tt.len(),
        0 <= i < ss.len(),
        0 <= n <= ss.len(),
        forall|k: int| 0 <= k < ss.len() && k != i ==> #[trigger] tt[k] == ss[k],
        tt[i].windows.len() == ss[i].windows.len(),
        forall|l: int|
            0 <= l < ss[i].windows.len() ==> (#[trigger] tt[i].windows[l]).has(id) == ss[i].windows[l].has(id),
    ensures
        session_with(ss, id, n) == session_with(tt, id, n),
    decreases ss.len() - n,
{
    if n < ss.len() {
        if n == i {
            lemma_same_window(ss[i].windows, tt[i].windows, id, 0);
            lemma_window_with(ss[i].windows, id, 0);
            lemma_window_with(tt[i].windows, id, 0);
            assert(session_has(tt[n], id) == session_has(ss[n], id));
        } else {
            assert(tt[n] == ss[n]);
        }
        lemma_same_place(ss, tt, id, i, n + 1);
    }
}

proof fn lemma_named_id(ss: Seq<SessionState>, id: PaneId)
    requires
        is_there(ss, id),
    ensures
        pane_named(ss, id).id == id,
{
    let i = session_with(ss, id, 0);
    lemma_session_with(ss, id, 0);
    lemma_window_with(ss[i].windows, id, 0);
    lemma_place_of(ss[i].windows[window_with(ss[i].windows, id, 0)].panes, id, 0);
}

proof fn lemma_read_dated(s: StoreState, id: MsgId, now: Time)
    requires
        crate::observe::in_order(s.records),
        all_dated(s),
        now.valid(),
    ensures
        all_dated(s.read_as(id, now)),
{
    crate::observe::lemma_place(s.records, id, 0);
}

/// A pane that is set leaves every other as it was.
pub proof fn lemma_actors_set(ss: Seq<SessionState>, p: Pane)
    requires
        is_there(ss, p.id),
    ensures
        actors(pane_set(ss, p)) == actors(ss).insert(p.id, p.actor@),
{
    let tt = pane_set(ss, p);
    let i = session_with(ss, p.id, 0);
    lemma_session_with(ss, p.id, 0);
    lemma_reads_back(ss, i, window_with(ss[i].windows, p.id, 0), p);
    assert forall|id: PaneId| #[trigger] actors(tt).contains_key(id) == actors(ss).insert(p.id, p.actor@).contains_key(
        id,
    ) by {
        if id != p.id {
            lemma_other_pane(ss, p, id);
        }
    }
    assert forall|id: PaneId| actors(tt).contains_key(id) implies #[trigger] actors(tt)[id] == actors(ss).insert(
        p.id,
        p.actor@,
    )[id] by {
        if id != p.id {
            lemma_other_pane(ss, p, id);
        }
    }
    assert(actors(tt) =~= actors(ss).insert(p.id, p.actor@));
}

impl Mailroom {
    /// Have a client wait, for at most `most` seconds.
    pub fn wait(&mut self, cid: ClientId, secs: u64, most: u64, kind: WaitKind, now: u64)
        ensures
            final(self).waits@ == waiting(old(self).waits@, cid, secs, most, kind, now),
            *final(self) == (Mailroom { waits: final(self).waits, ..*old(self) }),
    {
        let s: u64 = if secs < most { secs } else { most };
        let sum: u128 = now as u128 + (s as u128) * 1000;
        let until: u64 = if sum <= u64::MAX as u128 { sum as u64 } else { u64::MAX };
        self.waits.push(MsgWait { cid, until, kind });
    }

    /// A client went away: its waits go with it.
    pub fn client_gone(&mut self, cid: ClientId)
        ensures
            final(self).waits@ == waits_without(old(self).waits@, cid, old(self).waits@.len() as int),
            *final(self) == (Mailroom { waits: final(self).waits, ..*old(self) }),
    {
        let mut left: Vec<MsgWait> = Vec::new();
        let mut k: usize = 0;
        while k < self.waits.len()
            invariant
                k <= self.waits@.len(),
                *self == *old(self),
                left@ == waits_without(self.waits@, cid, k as int),
            decreases self.waits.len() - k,
        {
            if self.waits[k].cid != cid {
                left.push(self.waits[k]);
            }
            k = k + 1;
        }
        self.waits = left;
    }
}

/// The first `k` waits but those of a client.
pub open spec fn waits_without(ws: Seq<MsgWait>, cid: ClientId, k: int) -> Seq<MsgWait>
    decreases k,
{
    if k <= 0 {
        Seq::empty()
    } else if ws[k - 1].cid != cid {
        waits_without(ws, cid, k - 1).push(ws[k - 1])
    } else {
        waits_without(ws, cid, k - 1)
    }
}

/// What a wait that ran out is told.
pub open spec fn late_text(b: Map<PaneId, ActorState>, s: StoreState, kind: WaitKind) -> Seq<char> {
    "timed out: "@ + (match kind {
        WaitKind::Delivered(id) => standing(b, s, id),
        WaitKind::Finished(id) => match s.life(id) {
            Some(r) => "#"@ + decimal(id as nat) + " "@ + stage_name(r.stage),
            None => "#"@ + decimal(id as nat),
        },
        WaitKind::Inbox(id) => "no message for %"@ + decimal(id as nat),
    })
}

/// Of the first `k` waits, those that have time left, and what the others
/// are told.
pub open spec fn timed(
    b: Map<PaneId, ActorState>,
    s: StoreState,
    ws: Seq<MsgWait>,
    now: u64,
    k: int,
) -> (Seq<MsgWait>, Seq<(ClientId, Ended)>)
    decreases k,
{
    if k <= 0 {
        (Seq::empty(), Seq::empty())
    } else {
        let (left, told) = timed(b, s, ws, now, k - 1);
        let w = ws[k - 1];
        if w.until <= now {
            (left, told.push((w.cid, Ended::Error(late_text(b, s, w.kind)))))
        } else {
            (left.push(w), told)
        }
    }
}

/// The same clients are answered, in the same order.
pub open spec fn same_clients(a: Seq<(ClientId, Ended)>, b: Seq<(ClientId, Ended)>) -> bool {
    a.len() == b.len() && forall|i: int| 0 <= i < a.len() ==> (#[trigger] a[i]).0 == b[i].0
}

impl Server {
    /// Answer a wait, if its moment has come.
    fn answer<F: Fn(i64) -> String>(&mut self, store: &mut Store, kind: WaitKind, say: &F, now: Time) -> (r: Option<
        Outcome,
    >)
        requires
            old(self).wf(),
            old(store).wf(),
            all_dated(old(store)@),
            now.valid(),
            forall|ms: i64| #[trigger] call_requires(*say, (ms,)),
        ensures
            final(self).wf(),
            final(store).wf(),
            all_dated(final(store)@),
            *final(self) == (Server { sessions: final(self).sessions, ..*old(self) }),
            forall|words: spec_fn(i64) -> Seq<char>| #[trigger]
                words_it(*say, words) ==> match (r, answer_in(actors(old(self).states()), old(store)@, kind, words)) {
                    (Some(a), Some(b)) => a@ == b,
                    (None, None) => true,
                    _ => false,
                },
            forall|words: spec_fn(i64) -> Seq<char>|
                r is Some <==> #[trigger] answer_in(actors(old(self).states()), old(store)@, kind, words) is Some,
            forall|words: spec_fn(i64) -> Seq<char>|
                r is Some && !(kind is Finished) ==> r->0@ == (#[trigger] answer_in(
                    actors(old(self).states()),
                    old(store)@,
                    kind,
                    words,
                ))->0,
            r is Some ==> actors(final(self).states()) == actors_after(actors(old(self).states()), kind),
            r is Some ==> final(store)@ == store_after(actors(old(self).states()), old(store)@, kind, now),
            r is None ==> *final(self) == *old(self) && final(store)@ == old(store)@,
    {
        let ghost b = actors(self.states());
        match kind {
            WaitKind::Delivered(id) => {
                let stage: Option<Stage> = match store.get(id) {
                    Some(r) => Some(r.stage),
                    None => None,
                };
                match stage {
                    Some(Stage::Queued) => None,
                    Some(Stage::Dropped) | Some(Stage::Rejected) => Some(Outcome::Error(self.stand(store, id))),
                    _ => Some(Outcome::Text(self.stand(store, id))),
                }
            },
            WaitKind::Finished(id) => {
                if let Some(r) = store.get(id) {
                    if !r.stage.finished() {
                        return None;
                    }
                }
                match store.trace(id, say) {
                    Some(t) => Some(Outcome::Text(t)),
                    None => Some(Outcome::Error(joined2("no message #", number_text(id).as_str()))),
                }
            },
            WaitKind::Inbox(id) => {
                if self.session_with_pane(id) >= self.sessions.len() {
                    return Some(Outcome::Error(joined3("%", number_text(id as u64).as_str(), " is gone")));
                }
                match self.take_message(store, id, now) {
                    None => None,
                    Some(t) => {
                        proof {
                            lemma_named_id(old(self).states(), id);
                            lemma_read_dated(old(store)@, b[id].inbox[0].id, now);
                            lemma_actors_set(old(self).states(), pane_named(self.states(), id));
                        }
                        Some(Outcome::Text(t))
                    },
                }
            },
        }
    }

    /// Answer the `-w` waits whose moment has come; `say` writes lengths of
    /// time.
    pub fn wake_waits<F: Fn(i64) -> String>(&mut self, store: &mut Store, room: &mut Mailroom, say: &F, now: Time) -> (
        replies: Vec<(ClientId, Outcome)>)
        requires
            old(self).wf(),
            old(store).wf(),
            all_dated(old(store)@),
            now.valid(),
            forall|ms: i64| #[trigger] call_requires(*say, (ms,)),
        ensures
            final(self).wf(),
            final(store).wf(),
            all_dated(final(store)@),
            *final(self) == (Server { sessions: final(self).sessions, ..*old(self) }),
            *final(room) == (Mailroom { waits: final(room).waits, ..*old(room) }),
            forall|words: spec_fn(i64) -> Seq<char>|
                ({
                    let w = #[trigger] woken(
                        actors(old(self).states()),
                        old(store)@,
                        old(room).waits@,
                        old(room).waits@.len() as int,
                        words,
                        now,
                    );
                    &&& actors(final(self).states()) == w.actors
                    &&& final(store)@ == w.store
                    &&& final(room).waits@ == w.left
                    &&& same_clients(replies_of(replies@), w.replies)
                    &&& words_it(*say, words) ==> replies_of(replies@) == w.replies
                }),
    {
        let mut replies: Vec<(ClientId, Outcome)> = Vec::new();
        let mut left: Vec<MsgWait> = Vec::new();
        let ghost b = actors(self.states());
        let ghost s = store@;
        let ghost ws = room.waits@;
        let mut k: usize = 0;
        assert(replies_of(replies@) =~= Seq::empty());
        while k < room.waits.len()
            invariant
                k <= room.waits@.len(),
                room.waits@ == ws,
                *room == *old(room),
                self.wf(),
                store.wf(),
                all_dated(store@),
                now.valid(),
                *self == (Server { sessions: self.sessions, ..*old(self) }),
                forall|ms: i64| #[trigger] call_requires(*say, (ms,)),
                forall|words: spec_fn(i64) -> Seq<char>|
                    ({
                        let w = #[trigger] woken(b, s, ws, k as int, words, now);
                        &&& actors(self.states()) == w.actors
                        &&& store@ == w.store
                        &&& left@ == w.left
                        &&& same_clients(replies_of(replies@), w.replies)
                        &&& words_it(*say, words) ==> replies_of(replies@) == w.replies
                    }),
            decreases room.waits.len() - k,
        {
            let wait = room.waits[k];
            let ghost before = replies_of(replies@);
            let ghost b0 = actors(self.states());
            let ghost s0 = store@;
            match self.answer(store, wait.kind, say, now) {
                None => left.push(wait),
                Some(out) => {
                    let ghost e = out@;
                    replies.push((wait.cid, out));
                    assert(replies_of(replies@) =~= before.push((wait.cid, e)));
                },
            }
            proof {
                assert forall|words: spec_fn(i64) -> Seq<char>|
                    ({
                        let w = #[trigger] woken(b, s, ws, k + 1, words, now);
                        &&& actors(self.states()) == w.actors
                        &&& store@ == w.store
                        &&& left@ == w.left
                        &&& same_clients(replies_of(replies@), w.replies)
                        &&& words_it(*say, words) ==> replies_of(replies@) == w.replies
                    }) by {
                    let w = woken(b, s, ws, k as int, words, now);
                    let a = answer_in(b0, s0, wait.kind, words);
                    assert(b0 == w.actors && s0 == w.store);
                }
            }
            k = k + 1;
        }
        room.waits = left;
        replies
    }

    /// Waits that ran out are answered with an error.
    pub fn time_out_waits(&self, store: &Store, room: &mut Mailroom, now: u64) -> (replies: Vec<(ClientId, Outcome)>)
        requires
            store.wf(),
        ensures
            *final(room) == (Mailroom { waits: final(room).waits, ..*old(room) }),
            (final(room).waits@, replies_of(replies@)) == timed(
                actors(self.states()),
                store@,
                old(room).waits@,
                now,
                old(room).waits@.len() as int,
            ),
    {
        let mut replies: Vec<(ClientId, Outcome)> = Vec::new();
        let mut left: Vec<MsgWait> = Vec::new();
        let ghost b = actors(self.states());
        let ghost ws = room.waits@;
        let mut k: usize = 0;
        assert(replies_of(replies@) =~= Seq::empty());
        while k < room.waits.len()
            invariant
                k <= room.waits@.len(),
                room.waits@ == ws,
                *room == *old(room),
                store.wf(),
                b == actors(self.states()),
                (left@, replies_of(replies@)) == timed(b, store@, ws, now, k as int),
            decreases room.waits.len() - k,
        {
            let wait = room.waits[k];
            if wait.until <= now {
                let mut what = "timed out: ".to_owned();
                match wait.kind {
                    WaitKind::Delivered(id) => what.push_str(self.stand(store, id).as_str()),
                    WaitKind::Finished(id) => {
                        what.push_str("#");
                        crate::text::push_decimal(&mut what, id);
                        if let Some(r) = store.get(id) {
                            what.push_str(" ");
                            what.push_str(r.stage.as_str());
                        }
                    },
                    WaitKind::Inbox(id) => {
                        what.push_str("no message for %");
                        crate::text::push_decimal(&mut what, id as u64);
                    },
                }
                assert(what@ =~= late_text(b, store@, wait.kind));
                let ghost before = replies_of(replies@);
                let ghost e = Ended::Error(what@);
                replies.push((wait.cid, Outcome::Error(what)));
                assert(replies_of(replies@) =~= before.push((wait.cid, e)));
            } else {
                left.push(wait);
            }
            k = k + 1;
        }
        room.waits = left;
        replies
    }
}

/// The waits after client `cid` began to wait.
pub open spec fn waiting(ws: Seq<MsgWait>, cid: ClientId, secs: u64, most: u64, kind: WaitKind, now: u64) -> Seq<MsgWait> {
    let s: u64 = if secs < most {
        secs
    } else {
        most
    };
    let until = if now + s * 1000 <= u64::MAX {
        (now + s * 1000) as u64
    } else {
        u64::MAX
    };
    ws.push((MsgWait { cid, until, kind }))
}

impl Server {
    /// What `send-message` ends with: where the message stands, or a wait
    /// until it leaves the inbox.
    pub fn sent_outcome(
        &self,
        store: &Store,
        room: &mut Mailroom,
        id: MsgId,
        wait: Option<u64>,
        cid: Option<ClientId>,
        most: u64,
        now: u64,
    ) -> (out: Outcome)
        requires
            store.wf(),
        ensures
            *final(room) == (Mailroom { waits: final(room).waits, ..*old(room) }),
            ({
                let queued = store@.life(id) is Some && store@.life(id)->0.stage is Queued;
                match (wait, cid) {
                    (Some(secs), Some(c)) => if queued {
                        &&& out@ == Ended::Pending
                        &&& final(room).waits@ == waiting(
                            old(room).waits@,
                            c,
                            secs,
                            most,
                            WaitKind::Delivered(id),
                            now,
                        )
                    } else {
                        &&& out@ == Ended::Text(standing(actors(self.states()), store@, id))
                        &&& *final(room) == *old(room)
                    },
                    _ => {
                        &&& out@ == Ended::Text(standing(actors(self.states()), store@, id))
                        &&& *final(room) == *old(room)
                    },
                }
            }),
    {
        if let (Some(secs), Some(c)) = (wait, cid) {
            let queued: bool = match store.get(id) {
                Some(r) => match r.stage {
                    Stage::Queued => true,
                    _ => false,
                },
                None => false,
            };
            if queued {
                room.wait(c, secs, most, WaitKind::Delivered(id), now);
                return Outcome::Pending;
            }
        }
        Outcome::Text(self.stand(store, id))
    }

    /// `read-message` of a pane: its oldest message, or a wait for one.
    pub fn read_message(
        &mut self,
        store: &mut Store,
        room: &mut Mailroom,
        id: PaneId,
        wait: Option<u64>,
        cid: Option<ClientId>,
        most: u64,
        clock: u64,
        now: Time,
    ) -> (out: Outcome)
        requires
            old(self).wf(),
            old(store).wf(),
            now.valid(),
        ensures
            final(self).wf(),
            final(store).wf(),
            *final(self) == (Server { sessions: final(self).sessions, ..*old(self) }),
            *final(room) == (Mailroom { waits: final(room).waits, ..*old(room) }),
            ({
                let b = actors(old(self).states());
                if has_mail(b, id) {
                    let m = b[id].inbox[0];
                    &&& out@ == Ended::Text(envelope_text(m@) + "\n"@ + m.text@)
                    &&& *final(room) == *old(room)
                    &&& actor_set(
                        old(self).states(),
                        final(self).states(),
                        id,
                        (ActorState { inbox: b[id].inbox.remove(0), last_read: Some(m), ..b[id] }),
                    )
                    &&& final(store)@ == old(store)@.read_as(m.id, now)
                } else {
                    &&& *final(self) == *old(self)
                    &&& final(store)@ == old(store)@
                    &&& match (wait, cid) {
                        (Some(secs), Some(c)) => {
                            &&& out@ == Ended::Pending
                            &&& final(room).waits@ == waiting(
                                old(room).waits@,
                                c,
                                secs,
                                most,
                                WaitKind::Inbox(id),
                                clock,
                            )
                        },
                        _ => {
                            &&& out@ == Ended::Error("no message for %"@ + decimal(id as nat))
                            &&& *final(room) == *old(room)
                        },
                    }
                }
            }),
    {
        match self.take_message(store, id, now) {
            Some(t) => Outcome::Text(t),
            None => {
                if let (Some(secs), Some(c)) = (wait, cid) {
                    room.wait(c, secs, most, WaitKind::Inbox(id), clock);
                    return Outcome::Pending;
                }
                Outcome::Error(joined2("no message for %", number_text(id as u64).as_str()))
            },
        }
    }
}

/// `trace-message`: a message's life, or a wait until nothing more will
/// happen to it.
pub fn trace_message<F: Fn(i64) -> String>(
    store: &Store,
    room: &mut Mailroom,
    id: MsgId,
    wait: Option<u64>,
    cid: Option<ClientId>,
    most: u64,
    say: &F,
    now: u64,
) -> (out: Outcome)
    requires
        store.wf(),
        all_dated(store@),
        forall|ms: i64| #[trigger] call_requires(*say, (ms,)),
    ensures
        *final(room) == (Mailroom { waits: final(room).waits, ..*old(room) }),
        match store@.life(id) {
            None => out@ == Ended::Error("no message #"@ + decimal(id as nat)) && *final(room) == *old(room),
            Some(r) => if wait is Some && cid is Some && !r.stage.is_finished() {
                &&& out@ == Ended::Pending
                &&& final(room).waits@ == waiting(
                    old(room).waits@,
                    cid->0,
                    wait->0,
                    most,
                    WaitKind::Finished(id),
                    now,
                )
            } else {
                &&& *final(room) == *old(room)
                &&& forall|words: spec_fn(i64) -> Seq<char>| #[trigger]
                    words_it(*say, words) ==> out@ == Ended::Text(trace_text(r, words))
            },
        },
{
    match store.trace(id, say) {
        None => Outcome::Error(joined2("no message #", number_text(id).as_str())),
        Some(t) => {
            if let (Some(secs), Some(c)) = (wait, cid) {
                let finished: bool = match store.get(id) {
                    Some(r) => r.stage.finished(),
                    None => false,
                };
                if !finished {
                    room.wait(c, secs, most, WaitKind::Finished(id), now);
                    return Outcome::Pending;
                }
            }
            Outcome::Text(t)
        },
    }
}

/// Every wait is either answered or goes on, in the order they were made.
pub proof fn lemma_no_wait_is_lost(
    b: Map<PaneId, ActorState>,
    s: StoreState,
    ws: Seq<MsgWait>,
    k: int,
    words: spec_fn(i64) -> Seq<char>,
    now: Time,
)
    requires
        0 <= k <= ws.len(),
    ensures
        woken(b, s, ws, k, words, now).left.len() + woken(b, s, ws, k, words, now).replies.len() == k,
        forall|i: int|
            0 <= i < woken(b, s, ws, k, words, now).left.len() ==> ws.contains(
                #[trigger] woken(b, s, ws, k, words, now).left[i],
            ),
    decreases k,
{
    if k > 0 {
        lemma_no_wait_is_lost(b, s, ws, k - 1, words, now);
        let w = woken(b, s, ws, k - 1, words, now);
        let v = woken(b, s, ws, k, words, now);
        assert forall|i: int| 0 <= i < v.left.len() implies ws.contains(#[trigger] v.left[i]) by {
            if i < w.left.len() {
                assert(v.left[i] == w.left[i]);
            } else {
                assert(v.left[i] == ws[k - 1]);
            }
        }
    }
}

} // verus!
