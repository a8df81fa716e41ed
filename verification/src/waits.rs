//! `wait-for`: channels that clients wait on, signal, lock and unlock.
use std::collections::VecDeque;

use vstd::prelude::*;

use crate::chooser::ClientId;
use crate::command::{Ended, Outcome};
use crate::text::{joined3, same_text};

verus! {

/// One channel: a lock with its queue, and the wait/signal pair. A client
/// that is waiting has had no reply sent yet; waking it means answering.
#[derive(Debug)]
pub struct WaitChannel {
    pub locked: bool,
    /// Clients blocked in a lock, in arrival order.
    pub lockers: VecDeque<ClientId>,
    /// Clients blocked in a plain wait.
    pub waiters: Vec<ClientId>,
    /// A signal arrived with nobody waiting: the next wait returns at once.
    pub woken: bool,
}

pub ghost struct Channel {
    pub locked: bool,
    pub lockers: Seq<ClientId>,
    pub waiters: Seq<ClientId>,
    pub woken: bool,
}

impl View for WaitChannel {
    type V = Channel;

    open spec fn view(&self) -> Channel {
        Channel {
            locked: self.locked,
            lockers: self.lockers@,
            waiters: self.waiters@,
            woken: self.woken,
        }
    }
}

/// A channel that nobody uses.
pub open spec fn unused() -> Channel {
    Channel { locked: false, lockers: Seq::empty(), waiters: Seq::empty(), woken: false }
}

/// The clients but `id`.
#[verifier::opaque]
pub open spec fn others_than(s: Seq<ClientId>, id: ClientId) -> Seq<ClientId> {
    s.filter(|c: ClientId| c != id)
}

impl Channel {
    pub open spec fn is_idle(self) -> bool {
        !self.locked && !self.woken && self.lockers.len() == 0 && self.waiters.len() == 0
    }

    /// After client `id` asked for something: the channel, what it is
    /// answered, and whom that wakes. A signal goes before a lock, and a lock
    /// before an unlock.
    pub open spec fn asked(self, id: ClientId, name: Seq<char>, lock: bool, unlock: bool, signal: bool) -> (
        Channel,
        Ended,
        Seq<ClientId>,
    ) {
        let none = Seq::<ClientId>::empty();
        if signal {
            if self.waiters.len() == 0 {
                (Channel { woken: true, ..self }, Ended::Done, none)
            } else {
                (Channel { waiters: none, ..self }, Ended::Done, self.waiters)
            }
        } else if lock {
            if self.locked {
                (Channel { lockers: self.lockers.push(id), ..self }, Ended::Pending, none)
            } else {
                (Channel { locked: true, ..self }, Ended::Done, none)
            }
        } else if unlock {
            if !self.locked {
                (self, Ended::Error("wait-for: channel "@ + name + " is not locked"@), none)
            } else if self.lockers.len() > 0 {
                // The next in line takes the lock straight over.
                (Channel { lockers: self.lockers.skip(1), ..self }, Ended::Done, seq![self.lockers[0]])
            } else {
                (Channel { locked: false, ..self }, Ended::Done, none)
            }
        } else if self.woken {
            (Channel { woken: false, ..self }, Ended::Done, none)
        } else {
            (Channel { waiters: self.waiters.push(id), ..self }, Ended::Pending, none)
        }
    }

    /// Without client `id`.
    pub open spec fn without(self, id: ClientId) -> Channel {
        Channel {
            lockers: others_than(self.lockers, id),
            waiters: others_than(self.waiters, id),
            ..self
        }
    }
}

impl WaitChannel {
    pub fn idle(&self) -> (b: bool)
        ensures
            b == self@.is_idle(),
    {
        !self.locked && !self.woken && self.lockers.len() == 0 && self.waiters.len() == 0
    }

    fn ask(&mut self, id: ClientId, name: &str, lock: bool, unlock: bool, signal: bool) -> (r: (Outcome, Vec<ClientId>))
        ensures
            (final(self)@, r.0@, r.1@) == old(self)@.asked(id, name@, lock, unlock, signal),
    {
        let ghost before = self@;
        let mut wake: Vec<ClientId> = Vec::new();
        let out = if signal {
            if self.waiters.len() == 0 {
                self.woken = true;
            } else {
                std::mem::swap(&mut wake, &mut self.waiters);
            }
            Outcome::Done
        } else if lock {
            if self.locked {
                self.lockers.push_back(id);
                Outcome::Pending
            } else {
                self.locked = true;
                Outcome::Done
            }
        } else if unlock {
            if !self.locked {
                Outcome::Error(joined3("wait-for: channel ", name, " is not locked"))
            } else {
                match self.lockers.pop_front() {
                    Some(next) => {
                        wake.push(next);
                        assert(self.lockers@ =~= before.lockers.skip(1));
                        assert(wake@ =~= seq![before.lockers[0]]);
                    },
                    None => {
                        self.locked = false;
                    },
                }
                Outcome::Done
            }
        } else if self.woken {
            self.woken = false;
            Outcome::Done
        } else {
            self.waiters.push(id);
            Outcome::Pending
        };
        proof {
            let r = before.asked(id, name@, lock, unlock, signal);
            assert(self@.lockers =~= r.0.lockers);
            assert(self@.waiters =~= r.0.waiters);
            assert(wake@ =~= r.2);
        }
        (out, wake)
    }
}

fn without(list: &Vec<ClientId>, id: ClientId) -> (out: Vec<ClientId>)
    ensures
        out@ == others_than(list@, id),
{
    let mut out: Vec<ClientId> = Vec::new();
    let mut i: usize = 0;
    proof {
        reveal(others_than);
        reveal(Seq::filter);
    }
    while i < list.len()
        invariant
            i <= list@.len(),
            out@ == others_than(list@.take(i as int), id),
        decreases list.len() - i,
    {
        proof {
            reveal(others_than);
            reveal(Seq::filter);
            assert(list@.take(i + 1).drop_last() =~= list@.take(i as int));
        }
        if list[i] != id {
            out.push(list[i]);
        }
        i = i + 1;
    }
    assert(list@.take(i as int) =~= list@);
    out
}

fn without_queued(list: &VecDeque<ClientId>, id: ClientId) -> (out: VecDeque<ClientId>)
    ensures
        out@ == others_than(list@, id),
{
    let mut out: VecDeque<ClientId> = VecDeque::new();
    let mut i: usize = 0;
    proof {
        reveal(others_than);
        reveal(Seq::filter);
    }
    while i < list.len()
        invariant
            i <= list@.len(),
            out@ == others_than(list@.take(i as int), id),
        decreases list@.len() - i,
    {
        proof {
            reveal(others_than);
            reveal(Seq::filter);
            assert(list@.take(i + 1).drop_last() =~= list@.take(i as int));
        }
        if list[i] != id {
            out.push_back(list[i]);
        }
        i = i + 1;
    }
    assert(list@.take(i as int) =~= list@);
    out
}

/// The channels in use, by name.
#[derive(Debug)]
pub struct Waits {
    pub channels: Vec<(String, WaitChannel)>,
}

pub open spec fn named(v: Seq<(String, WaitChannel)>) -> Seq<(Seq<char>, Channel)> {
    Seq::new(v.len(), |i: int| (v[i].0@, v[i].1@))
}

/// The place of a channel from `i` on, or the end.
pub open spec fn channel_place(v: Seq<(Seq<char>, Channel)>, name: Seq<char>, i: int) -> int
    decreases v.len() - i,
{
    if i >= v.len() {
        v.len() as int
    } else if v[i].0 == name {
        i
    } else {
        channel_place(v, name, i + 1)
    }
}

proof fn lemma_channel_place(v: Seq<(Seq<char>, Channel)>, name: Seq<char>, i: int)
    requires
        0 <= i <= v.len(),
    ensures
        i <= channel_place(v, name, i) <= v.len(),
        channel_place(v, name, i) < v.len() ==> v[channel_place(v, name, i)].0 == name,
        forall|j: int| i <= j < channel_place(v, name, i) ==> (#[trigger] v[j]).0 != name,
    decreases v.len() - i,
{
    if i < v.len() && v[i].0 != name {
        lemma_channel_place(v, name, i + 1);
    }
}

/// Channels are found by their names, wherever they stand.
proof fn lemma_channel_at(v: Seq<(Seq<char>, Channel)>, name: Seq<char>, k: int)
    requires
        0 <= k < v.len(),
        v[k].0 == name,
        forall|i: int, j: int| 0 <= i < j < v.len() ==> (#[trigger] v[i]).0 != (#[trigger] v[j]).0,
    ensures
        channel_place(v, name, 0) == k,
{
    lemma_channel_place(v, name, 0);
    let p = channel_place(v, name, 0);
    if p < k {
        assert(v[p].0 != v[k].0);
    }
}

impl Waits {
    pub open spec fn list(self) -> Seq<(Seq<char>, Channel)> {
        named(self.channels@)
    }

    /// No channel is listed twice, and none that nobody uses.
    pub open spec fn wf(self) -> bool {
        &&& forall|i: int, j: int|
            0 <= i < j < self.list().len() ==> (#[trigger] self.list()[i]).0 != (#[trigger] self.list()[j]).0
        &&& forall|i: int| 0 <= i < self.list().len() ==> !(#[trigger] self.list()[i]).1.is_idle()
    }

    /// The channel with that name; one nobody uses when it is not listed.
    pub open spec fn channel(self, name: Seq<char>) -> Channel {
        let k = channel_place(self.list(), name, 0);
        if k < self.list().len() {
            self.list()[k].1
        } else {
            unused()
        }
    }

    fn place(&self, name: &str) -> (k: usize)
        ensures
            k == channel_place(self.list(), name@, 0),
            k <= self.channels@.len(),
    {
        let mut i: usize = 0;
        while i < self.channels.len()
            invariant
                i <= self.channels@.len(),
                channel_place(self.list(), name@, 0) == channel_place(self.list(), name@, i as int),
            decreases self.channels.len() - i,
        {
            assert(self.list()[i as int].0 == self.channels@[i as int].0@);
            if same_text(self.channels[i].0.as_str(), name) {
                return i;
            }
            i = i + 1;
        }
        i
    }

    /// `wait-for`: what client `id` is answered, and the clients that are
    /// answered with it.
    #[verifier::spinoff_prover]
    pub fn wait_for(&mut self, id: ClientId, name: &str, lock: bool, unlock: bool, signal: bool) -> (r: (
        Outcome,
        Vec<ClientId>,
    ))
        requires
            old(self).wf(),
        ensures
            final(self).wf(),
            (final(self).channel(name@), r.0@, r.1@) == old(self).channel(name@).asked(
                id,
                name@,
                lock,
                unlock,
                signal,
            ),
            forall|other: Seq<char>| other != name@ ==> #[trigger] final(self).channel(other) == old(self).channel(
                other,
            ),
    {
        let ghost v = self.list();
        let k: usize = self.place(name);
        proof {
            lemma_channel_place(v, name@, 0);
        }
        let mut c = if k < self.channels.len() {
            let (_, c) = self.channels.remove(k);
            c
        } else {
            let c = WaitChannel { locked: false, lockers: VecDeque::new(), waiters: Vec::new(), woken: false };
            proof {
                assert(c@.lockers =~= unused().lockers);
                assert(c@.waiters =~= unused().waiters);
            }
            c
        };
        let ghost rest = if k < v.len() {
            v.remove(k as int)
        } else {
            v
        };
        proof {
            assert(self.list() =~= rest);
            assert(c@ == old(self).channel(name@));
            lemma_without(v, name@, rest);
        }
        let r = c.ask(id, name, lock, unlock, signal);
        proof {
            lemma_idle(c@);
        }
        if !c.idle() {
            let ghost state = c@;
            self.channels.push((name.to_owned(), c));
            proof {
                assert(self.list() =~= rest.push((name@, state)));
                lemma_added(rest, name@, state);
            }
        }
        r
    }

    /// A client that went away waits for nothing any more.
    #[verifier::spinoff_prover]
    pub fn forget(&mut self, id: ClientId)
        requires
            old(self).wf(),
        ensures
            final(self).wf(),
            forall|name: Seq<char>| #[trigger] final(self).channel(name) == old(self).channel(name).without(id),
    {
        let ghost v = self.list();
        let mut left: Vec<(String, WaitChannel)> = Vec::new();
        let ghost mut done: int = 0;
        assert(v.skip(0) =~= v);
        while self.channels.len() > 0
            invariant
                0 <= done,
                done + self.channels@.len() == v.len(),
                self.list() == v.skip(done),
                forall|i: int, j: int| 0 <= i < j < v.len() ==> (#[trigger] v[i]).0 != (#[trigger] v[j]).0,
                forall|i: int| 0 <= i < named(left@).len() ==> !(#[trigger] named(left@)[i]).1.is_idle(),
                forall|i: int, j: int|
                    0 <= i < j < named(left@).len() ==> (#[trigger] named(left@)[i]).0 != (#[trigger] named(left@)[j]).0,
                forall|i: int| 0 <= i < named(left@).len() ==> origin(v, id, done, #[trigger] named(left@)[i]),
                forall|k: int|
                    0 <= k < done ==> (#[trigger] v[k]).1.without(id).is_idle() || holds(
                        named(left@),
                        (v[k].0, v[k].1.without(id)),
                    ),
            decreases self.channels.len(),
        {
            let ghost l0 = named(left@);
            let ghost before = self.channels@;
            let entry = self.channels.remove(0);
            proof {
                assert(named(before)[0] == v.skip(done)[0]);
                assert((entry.0@, entry.1@) == v[done]);
                assert forall|i: int| 0 <= i < self.list().len() implies self.list()[i] == v.skip(done + 1)[i] by {
                    assert(self.list()[i] == named(before)[i + 1]);
                    assert(named(before)[i + 1] == v.skip(done)[i + 1]);
                }
                assert(self.list() =~= v.skip(done + 1));
            }
            let (name, c) = entry;
            let mut c = c;
            let lockers = without_queued(&c.lockers, id);
            let waiters = without(&c.waiters, id);
            c.lockers = lockers;
            c.waiters = waiters;
            let ghost now = (name@, c@);
            proof {
                assert(c@ == v[done].1.without(id));
            }
            if !c.idle() {
                left.push((name, c));
                proof {
                    assert(named(left@) =~= l0.push(now));
                    assert forall|i: int, j: int| 0 <= i < j < named(left@).len() implies (#[trigger] named(left@)[i]).0
                        != (#[trigger] named(left@)[j]).0 by {
                        if j == l0.len() {
                            assert(named(left@)[i] == l0[i]);
                            assert(origin(v, id, done, l0[i]));
                        } else {
                            assert(named(left@)[i] == l0[i] && named(left@)[j] == l0[j]);
                        }
                    }
                    assert forall|i: int| 0 <= i < named(left@).len() implies !(#[trigger] named(left@)[i]).1.is_idle() by {
                        if i < l0.len() {
                            assert(named(left@)[i] == l0[i]);
                        }
                    }
                    assert forall|i: int| 0 <= i < named(left@).len() implies origin(
                        v,
                        id,
                        done + 1,
                        #[trigger] named(left@)[i],
                    ) by {
                        if i < l0.len() {
                            assert(named(left@)[i] == l0[i]);
                            assert(origin(v, id, done, l0[i]));
                        } else {
                            assert(now == (v[done].0, v[done].1.without(id)));
                        }
                    }
                    assert(holds(named(left@), now)) by {
                        assert(named(left@)[l0.len() as int] == now);
                    }
                    assert forall|k: int| 0 <= k < done + 1 implies (#[trigger] v[k]).1.without(id).is_idle() || holds(
                        named(left@),
                        (v[k].0, v[k].1.without(id)),
                    ) by {
                        if k < done && holds(l0, (v[k].0, v[k].1.without(id))) {
                            let m = choose|m: int| 0 <= m < l0.len() && l0[m] == (v[k].0, v[k].1.without(id));
                            assert(named(left@)[m] == l0[m]);
                        }
                    }
                }
            } else {
                proof {
                    assert forall|i: int| 0 <= i < l0.len() implies origin(v, id, done + 1, #[trigger] l0[i]) by {
                        assert(origin(v, id, done, l0[i]));
                    }
                }
            }
            proof {
                done = done + 1;
            }
        }
        self.channels = left;
        proof {
            let w = self.list();
            assert forall|name: Seq<char>| #[trigger] self.channel(name) == old(self).channel(name).without(id) by {
                lemma_channel_place(v, name, 0);
                lemma_channel_place(w, name, 0);
                let k = channel_place(v, name, 0);
                let m = channel_place(w, name, 0);
                if m < w.len() {
                    assert(origin(v, id, v.len() as int, w[m]));
                    let x = choose|x: int| 0 <= x < v.len() && w[m] == (v[x].0, #[trigger] v[x].1.without(id));
                    lemma_channel_at(v, name, x);
                } else if k < v.len() {
                    lemma_idle(v[k].1.without(id));
                    if !v[k].1.without(id).is_idle() {
                        assert(holds(w, (v[k].0, v[k].1.without(id))));
                        let x = choose|x: int| 0 <= x < w.len() && w[x] == (v[k].0, v[k].1.without(id));
                        assert(w[x].0 == name);
                    }
                } else {
                    lemma_unused_without(id);
                }
            }
        }
    }
}

/// `c` is one of the first `n` channels, without client `id`.
spec fn origin(v: Seq<(Seq<char>, Channel)>, id: ClientId, n: int, c: (Seq<char>, Channel)) -> bool {
    exists|x: int| 0 <= x < n && c == (v[x].0, #[trigger] v[x].1.without(id))
}

spec fn holds(v: Seq<(Seq<char>, Channel)>, c: (Seq<char>, Channel)) -> bool {
    exists|x: int| 0 <= x < v.len() && v[x] == c
}

/// Channels that nobody uses are all alike.
proof fn lemma_idle(c: Channel)
    ensures
        c.is_idle() ==> c == unused(),
{
    if c.is_idle() {
        assert(c.lockers =~= unused().lockers);
        assert(c.waiters =~= unused().waiters);
    }
}

proof fn lemma_unused_without(id: ClientId)
    ensures
        unused().without(id) == unused(),
{
    reveal(others_than);
    reveal(Seq::filter);
    assert(others_than(unused().lockers, id) =~= unused().lockers);
    assert(others_than(unused().waiters, id) =~= unused().waiters);
}

/// The other channels are found as before when one is taken out.
proof fn lemma_without(v: Seq<(Seq<char>, Channel)>, name: Seq<char>, rest: Seq<(Seq<char>, Channel)>)
    requires
        rest == if channel_place(v, name, 0) < v.len() {
            v.remove(channel_place(v, name, 0))
        } else {
            v
        },
        forall|i: int, j: int| 0 <= i < j < v.len() ==> (#[trigger] v[i]).0 != (#[trigger] v[j]).0,
    ensures
        channel_place(rest, name, 0) == rest.len(),
        forall|i: int, j: int| 0 <= i < j < rest.len() ==> (#[trigger] rest[i]).0 != (#[trigger] rest[j]).0,
        forall|i: int| 0 <= i < rest.len() ==> (#[trigger] rest[i]).0 != name && exists|j: int|
            0 <= j < v.len() && #[trigger] v[j] == rest[i],
        forall|other: Seq<char>| #![trigger channel_place(v, other, 0)]
            other != name ==> {
                let a = channel_place(v, other, 0);
                let b = channel_place(rest, other, 0);
                (a < v.len() <==> b < rest.len()) && (a < v.len() ==> v[a] == rest[b])
            },
{
    let k = channel_place(v, name, 0);
    lemma_channel_place(v, name, 0);
    let up = |i: int|
        if k < v.len() && i >= k {
            i + 1
        } else {
            i
        };
    assert forall|i: int| 0 <= i < rest.len() implies (#[trigger] rest[i]).0 != name && rest[i] == v[up(i)] by {
        if k < v.len() {
            if up(i) < k {
                assert(v[up(i)].0 != v[k].0);
            } else {
                assert(v[k].0 != v[up(i)].0);
            }
        }
    }
    assert forall|i: int, j: int| 0 <= i < j < rest.len() implies (#[trigger] rest[i]).0 != (#[trigger] rest[j]).0 by {
        assert(v[up(i)].0 != v[up(j)].0);
    }
    lemma_channel_place(rest, name, 0);
    assert forall|other: Seq<char>| #![trigger channel_place(v, other, 0)] other != name implies ({
        let a = channel_place(v, other, 0);
        let b = channel_place(rest, other, 0);
        (a < v.len() <==> b < rest.len()) && (a < v.len() ==> v[a] == rest[b])
    }) by {
        let a = channel_place(v, other, 0);
        let b = channel_place(rest, other, 0);
        lemma_channel_place(v, other, 0);
        lemma_channel_place(rest, other, 0);
        if a < v.len() {
            let m = if k < v.len() && a > k {
                a - 1
            } else {
                a
            };
            assert(rest[m] == v[a]);
            lemma_channel_at(rest, other, m);
        }
        if b < rest.len() {
            lemma_channel_at(v, other, up(b));
        }
    }
}

/// A channel added at the end is found, and the others as before.
proof fn lemma_added(rest: Seq<(Seq<char>, Channel)>, name: Seq<char>, c: Channel)
    requires
        forall|i: int| 0 <= i < rest.len() ==> (#[trigger] rest[i]).0 != name,
        forall|i: int, j: int| 0 <= i < j < rest.len() ==> (#[trigger] rest[i]).0 != (#[trigger] rest[j]).0,
    ensures
        ({
            let w = rest.push((name, c));
            &&& channel_place(w, name, 0) == rest.len()
            &&& forall|i: int, j: int| 0 <= i < j < w.len() ==> (#[trigger] w[i]).0 != (#[trigger] w[j]).0
            &&& forall|other: Seq<char>| #![trigger channel_place(w, other, 0)]
                other != name ==> {
                    let a = channel_place(rest, other, 0);
                    let b = channel_place(w, other, 0);
                    (a < rest.len() <==> b < w.len()) && (a < rest.len() ==> w[b] == rest[a])
                }
        }),
{
    let w = rest.push((name, c));
    assert forall|i: int, j: int| 0 <= i < j < w.len() implies (#[trigger] w[i]).0 != (#[trigger] w[j]).0 by {
        assert(w[i] == rest[i]);
    }
    lemma_channel_at(w, name, rest.len() as int);
    assert forall|other: Seq<char>| #![trigger channel_place(w, other, 0)] other != name implies ({
        let a = channel_place(rest, other, 0);
        let b = channel_place(w, other, 0);
        (a < rest.len() <==> b < w.len()) && (a < rest.len() ==> w[b] == rest[a])
    }) by {
        lemma_channel_place(rest, other, 0);
        lemma_channel_place(w, other, 0);
        let a = channel_place(rest, other, 0);
        let b = channel_place(w, other, 0);
        if a < rest.len() {
            assert(w[a] == rest[a]);
            lemma_channel_at(w, other, a);
        }
        if b < w.len() {
            assert(w[b] == rest[b]);
            lemma_channel_at(rest, other, b);
        }
    }
}

/// A signal that nobody waited for lets the next wait through, and only that
/// one.
pub proof fn lemma_signal_is_kept_once(c: Channel, name: Seq<char>, a: ClientId, b: ClientId, d: ClientId)
    requires
        c.waiters.len() == 0,
    ensures
        ({
            let signalled = c.asked(a, name, false, false, true).0;
            let (first, answer, _) = signalled.asked(b, name, false, false, false);
            &&& answer == Ended::Done
            &&& first.asked(d, name, false, false, false).1 == Ended::Pending
        }),
{
}

/// The lock goes to the clients that wait for it in the order they came, and
/// is free only when none waits.
pub proof fn lemma_lock_goes_in_order(c: Channel, name: Seq<char>, id: ClientId)
    requires
        c.locked,
    ensures
        ({
            let (after, answer, wake) = c.asked(id, name, false, true, false);
            &&& answer == Ended::Done
            &&& c.lockers.len() > 0 ==> after.locked && wake == seq![c.lockers[0]] && after.lockers == c.lockers.skip(1)
            &&& c.lockers.len() == 0 ==> !after.locked && wake.len() == 0
        }),
{
}

} // verus!
