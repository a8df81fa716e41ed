//! Chains of messages as tasks, and a message's life as text.
use vstd::prelude::*;
use crate::actor::{envelope_text, mode_name, MsgId};
use crate::config::{lines_of, split_lines};
use crate::display::spaces;
use crate::observe::{in_order, lemma_place, stage_name, Life, Record, Stage, Store};
use crate::text::{chars_of, decimal, push_decimal};
use crate::time::{elapsed, format_time, since, time_text, Time};

verus! {

/// `say` writes a length of time as `words` does.
pub open spec fn words_it<F: Fn(i64) -> String>(say: F, words: spec_fn(i64) -> Seq<char>) -> bool {
    forall|ms: i64, out: String| #[trigger] call_ensures(say, (ms,), out) ==> out@ == words(ms)
}

/// The time of day of a moment.
pub open spec fn clock(t: Time) -> Seq<char> {
    time_text(t.ms, t.offset, "%H:%M:%S"@)
}

/// `s` with spaces behind it up to ten characters.
pub open spec fn padded(s: Seq<char>) -> Seq<char> {
    s + spaces(10 - s.len())
}

/// The line of a delivery, or of a reading.
pub open spec fn delivered_line(r: Life, words: spec_fn(i64) -> Seq<char>) -> Seq<char> {
    match r.delivered {
        Some(d) => "\n  "@ + padded(
            if r.stage is Read {
                "read"@
            } else {
                "delivered"@
            },
        ) + " "@ + clock(d) + "  (queued "@ + words(elapsed(r.msg.at, d) as i64) + ")"@,
        None => Seq::empty(),
    }
}

/// The line of an end.
pub open spec fn ended_line(r: Life, words: spec_fn(i64) -> Seq<char>) -> Seq<char> {
    match r.ended {
        Some(e) => "\n  "@ + padded(stage_name(r.stage)) + " "@ + clock(e) + (match r.delivered {
            Some(d) => "  (took "@ + words(elapsed(d, e) as i64) + ")"@,
            None => Seq::empty(),
        }),
        None => Seq::empty(),
    }
}

/// A message's life, line by line.
pub open spec fn trace_text(r: Life, words: spec_fn(i64) -> Seq<char>) -> Seq<char> {
    "#"@ + decimal(r.msg.id as nat) + " "@ + stage_name(r.stage) + " \u{b7} task #"@ + decimal(r.msg.task as nat)
        + " \u{b7} hop "@ + decimal(r.msg.hop as nat) + "\n"@ + envelope_text(r.msg) + "\n  sent       "@ + clock(
        r.msg.at,
    ) + delivered_line(r, words) + ended_line(r, words) + (match r.why {
        Some(w) => "\n  why        "@ + w,
        None => Seq::empty(),
    }) + "\ntext:\n"@ + r.msg.text + (match r.output {
        Some(o) => "\noutput"@ + (if r.cut {
            " (cut)"@
        } else {
            Seq::empty()
        }) + ":\n"@ + o,
        None => Seq::empty(),
    })
}

/// The moments of a record have dates.
pub open spec fn dated(r: Life) -> bool {
    r.msg.at.valid() && (r.delivered is Some ==> r.delivered->0.valid()) && (r.ended is Some ==> r.ended->0.valid())
}

fn push_padded(out: &mut String, s: &str)
    ensures
        final(out)@ == old(out)@ + padded(s@),
{
    out.push_str(s);
    let n: usize = chars_of(s).len();
    let ghost head = out@;
    let mut k: usize = n;
    assert(head + spaces(0) =~= head);
    while k < 10
        invariant
            n <= k,
            n < 10 ==> k <= 10,
            n >= 10 ==> k == n,
            out@ == head + spaces(k - n),
        decreases 10 - k,
    {
        out.push(' ');
        k = k + 1;
        assert(out@ =~= head + spaces(k - n));
    }
    assert(spaces(k - n) =~= spaces(10 - n));
    assert(out@ =~= old(out)@ + padded(s@));
}

fn push_delivered<F: Fn(i64) -> String>(out: &mut String, r: &Record, say: &F)
    requires
        dated(r@),
        forall|ms: i64| #[trigger] call_requires(*say, (ms,)),
    ensures
        forall|words: spec_fn(i64) -> Seq<char>| #[trigger]
            words_it(*say, words) ==> final(out)@ == old(out)@ + delivered_line(r@, words),
{
    let ghost start = out@;
    match r.delivered {
        Some(d) => {
            out.push_str("\n  ");
            if r.stage == Stage::Read {
                push_padded(out, "read");
            } else {
                push_padded(out, "delivered");
            }
            out.push_str(" ");
            out.push_str(format_time(d, "%H:%M:%S").as_str());
            out.push_str("  (queued ");
            let waited = say(since(r.msg.at, d));
            out.push_str(waited.as_str());
            out.push_str(")");
            assert forall|words: spec_fn(i64) -> Seq<char>| #[trigger] words_it(*say, words) implies out@ == start
                + delivered_line(r@, words) by {
                assert(out@ =~= start + delivered_line(r@, words));
            }
        },
        None => {
            assert(start + Seq::<char>::empty() =~= start);
        },
    }
}

fn push_ended<F: Fn(i64) -> String>(out: &mut String, r: &Record, say: &F)
    requires
        dated(r@),
        forall|ms: i64| #[trigger] call_requires(*say, (ms,)),
    ensures
        forall|words: spec_fn(i64) -> Seq<char>| #[trigger]
            words_it(*say, words) ==> final(out)@ == old(out)@ + ended_line(r@, words),
{
    let ghost start = out@;
    match r.ended {
        Some(e) => {
            out.push_str("\n  ");
            push_padded(out, r.stage.as_str());
            out.push_str(" ");
            out.push_str(format_time(e, "%H:%M:%S").as_str());
            if let Some(d) = r.delivered {
                out.push_str("  (took ");
                let took = say(since(d, e));
                out.push_str(took.as_str());
                out.push_str(")");
            }
            assert forall|words: spec_fn(i64) -> Seq<char>| #[trigger] words_it(*say, words) implies out@ == start
                + ended_line(r@, words) by {
                assert(out@ =~= start + ended_line(r@, words));
            }
        },
        None => {
            assert(start + Seq::<char>::empty() =~= start);
        },
    }
}

/// A message's life as text; `say` writes lengths of time.
pub fn trace_record<F: Fn(i64) -> String>(r: &Record, say: &F) -> (out: String)
    requires
        dated(r@),
        forall|ms: i64| #[trigger] call_requires(*say, (ms,)),
    ensures
        forall|words: spec_fn(i64) -> Seq<char>| #[trigger] words_it(*say, words) ==> out@ == trace_text(r@, words),
{
    let mut out = "#".to_owned();
    push_decimal(&mut out, r.msg.id);
    out.push_str(" ");
    out.push_str(r.stage.as_str());
    out.push_str(" \u{b7} task #");
    push_decimal(&mut out, r.msg.task);
    out.push_str(" \u{b7} hop ");
    push_decimal(&mut out, r.msg.hop as u64);
    out.push_str("\n");
    out.push_str(r.msg.envelope().as_str());
    out.push_str("\n  sent       ");
    out.push_str(format_time(r.msg.at, "%H:%M:%S").as_str());
    push_delivered(&mut out, r, say);
    push_ended(&mut out, r, say);
    let ghost most = out@;
    if let Some(why) = &r.why {
        out.push_str("\n  why        ");
        out.push_str(why.as_str());
    }
    assert(out@ =~= most + (match r@.why {
        Some(w) => "\n  why        "@ + w,
        None => Seq::empty(),
    }));
    out.push_str("\ntext:\n");
    out.push_str(r.msg.text.as_str());
    let ghost text = out@;
    if let Some(o) = &r.output {
        out.push_str("\noutput");
        if r.cut {
            out.push_str(" (cut)");
        }
        out.push_str(":\n");
        out.push_str(o.as_str());
    }
    assert(out@ =~= text + (match r@.output {
        Some(o) => "\noutput"@ + (if r@.cut {
            " (cut)"@
        } else {
            Seq::empty()
        }) + ":\n"@ + o,
        None => Seq::empty(),
    }));
    out
}

impl Store {
    /// The message's life, for `trace-message`; `say` writes lengths of time.
    pub fn trace<F: Fn(i64) -> String>(&self, id: MsgId, say: &F) -> (out: Option<String>)
        requires
            self.wf(),
            forall|i: int| 0 <= i < self@.records.len() ==> dated(#[trigger] self@.records[i]),
            forall|ms: i64| #[trigger] call_requires(*say, (ms,)),
        ensures
            out is Some == self@.life(id) is Some,
            forall|words: spec_fn(i64) -> Seq<char>| #[trigger]
                words_it(*say, words) && out is Some ==> out->0@ == trace_text(self@.life(id)->0, words),
    {
        match self.get(id) {
            None => None,
            Some(r) => {
                proof {
                    lemma_place(self@.records, id, 0);
                }
                Some(trace_record(r, say))
            },
        }
    }
}

/// The records of a task, lowest id first.
pub open spec fn of_task(s: Seq<Life>, task: MsgId) -> Seq<Life> {
    s.filter(|r: Life| r.msg.task == task)
}

/// Record `a` was sent before record `b`, or at the same moment with the
/// lower id.
pub open spec fn sent_before(a: Life, b: Life) -> bool {
    a.msg.at.ms < b.msg.at.ms || (a.msg.at.ms == b.msg.at.ms && a.msg.id < b.msg.id)
}

pub open spec fn in_sending_order(s: Seq<Life>) -> bool {
    forall|i: int, j: int| 0 <= i < j < s.len() ==> sent_before(#[trigger] s[i], #[trigger] s[j])
}

/// The records behind references.
pub open spec fn lives_at(v: Seq<&Record>) -> Seq<Life> {
    Seq::new(v.len(), |i: int| v[i]@)
}

proof fn lemma_insert_sent(s: Seq<Life>, p: int, r: Life)
    requires
        in_sending_order(s),
        0 <= p <= s.len(),
        forall|i: int| 0 <= i < p ==> sent_before(#[trigger] s[i], r),
        forall|i: int| p <= i < s.len() ==> sent_before(r, #[trigger] s[i]),
    ensures
        in_sending_order(s.insert(p, r)),
        s.insert(p, r).to_multiset() == s.to_multiset().insert(r),
{
    let t = s.insert(p, r);
    assert forall|a: int, b: int| 0 <= a < b < t.len() implies sent_before(#[trigger] t[a], #[trigger] t[b]) by {
        let a0 = if a < p { a } else { a - 1 };
        let b0 = if b < p { b } else { b - 1 };
        if a != p {
            assert(t[a] == s[a0]);
        }
        if b != p {
            assert(t[b] == s[b0]);
        }
    }
    broadcast use vstd::seq_lib::group_to_multiset_ensures;
}

impl Store {
    /// A task's messages in the order they were sent.
    pub fn task(&self, task: MsgId) -> (out: Vec<&Record>)
        requires
            self.wf(),
        ensures
            in_sending_order(lives_at(out@)),
            lives_at(out@).to_multiset() == of_task(self@.records, task).to_multiset(),
    {
        let ghost all = self@.records;
        let mut out: Vec<&Record> = Vec::new();
        let mut i: usize = 0;
        proof {
            assert(lives_at(out@) =~= Seq::empty());
            reveal(Seq::filter);
            assert(all.take(0) =~= Seq::empty());
            assert(of_task(all.take(0), task) =~= Seq::empty());
        }
        while i < self.records.len()
            invariant
                i <= self.records@.len(),
                all == self@.records,
                in_order(all),
                in_sending_order(lives_at(out@)),
                lives_at(out@).to_multiset() == of_task(all.take(i as int), task).to_multiset(),
                forall|k: int| 0 <= k < out@.len() && i < all.len() ==> (#[trigger] out@[k])@.msg.id < all[i as int].msg.id,
            decreases self.records.len() - i,
        {
            let r = &self.records[i];
            assert(all[i as int] == r@);
            let ghost before = out@;
            proof {
                reveal(Seq::filter);
                assert(all.take(i + 1).drop_last() =~= all.take(i as int));
                assert(all.take(i + 1).last() == r@);
            }
            if r.msg.task == task {
                let mut p: usize = out.len();
                while p > 0 && out[p - 1].msg.at.ms > r.msg.at.ms
                    invariant
                        p <= out@.len(),
                        i < all.len(),
                        all[i as int] == r@,
                        out@ == before,
                        in_sending_order(lives_at(out@)),
                        forall|k: int| p <= k < out@.len() ==> sent_before(r@, #[trigger] lives_at(out@)[k]),
                    decreases p,
                {
                    assert(lives_at(out@)[p - 1] == out@[p - 1]@);
                    p = p - 1;
                }
                proof {
                    let s = lives_at(out@);
                    assert forall|k: int| 0 <= k < p implies sent_before(#[trigger] s[k], r@) by {
                        assert(s[k] == out@[k]@);
                        assert(s[p - 1] == out@[p - 1]@);
                        if k < p - 1 {
                            assert(sent_before(s[k], s[p - 1]));
                        }
                    }
                    lemma_insert_sent(s, p as int, r@);
                    broadcast use vstd::seq_lib::group_to_multiset_ensures;
                    assert(of_task(all.take(i + 1), task) == of_task(all.take(i as int), task).push(r@));
                }
                out.insert(p, r);
                assert(lives_at(out@) =~= lives_at(before).insert(p as int, r@));
            }
            proof {
                if i + 1 < all.len() {
                    assert forall|k: int| 0 <= k < out@.len() implies (#[trigger] out@[k])@.msg.id < all[i + 1].msg.id by {
                        assert(all[i as int].msg.id < all[i + 1].msg.id);
                    }
                }
            }
            i = i + 1;
        }
        assert(all.take(i as int) =~= all);
        out
    }
}

/// A task at a glance.
#[derive(Debug)]
pub struct TaskSummary {
    pub task: MsgId,
    pub status: &'static str,
    /// Where it is now, while it is anywhere.
    pub at: Option<String>,
    /// How long it took, or has taken so far, in milliseconds.
    pub took: i64,
    pub steps: usize,
    pub title: String,
    pub started: Time,
}

/// The earliest sending among the first `k` records, the first of those at
/// one moment.
pub open spec fn earliest(s: Seq<Life>, k: nat) -> Time
    decreases k,
{
    if k <= 1 || k > s.len() {
        s[0].msg.at
    } else {
        let before = earliest(s, (k - 1) as nat);
        if s[k - 1].msg.at.ms < before.ms {
            s[k - 1].msg.at
        } else {
            before
        }
    }
}

/// The latest end among the first `k` records, the last of those at one
/// moment.
pub open spec fn latest(s: Seq<Life>, k: nat) -> Option<Time>
    decreases k,
{
    if k == 0 || k > s.len() {
        None
    } else {
        let before = latest(s, (k - 1) as nat);
        match s[k - 1].ended {
            Some(e) => match before {
                Some(b) => if e.ms >= b.ms {
                    Some(e)
                } else {
                    Some(b)
                },
                None => Some(e),
            },
            None => before,
        }
    }
}

/// The last of the first `k` records that something is still to happen to.
pub open spec fn last_open(s: Seq<Life>, k: nat) -> Option<Life>
    decreases k,
{
    if k == 0 || k > s.len() {
        None
    } else if !s[k - 1].stage.is_finished() {
        Some(s[k - 1])
    } else {
        last_open(s, (k - 1) as nat)
    }
}

/// The record a task is named for among those from `i` on: the message that
/// started it.
pub open spec fn root_from(s: Seq<Life>, task: MsgId, i: int) -> Option<Life>
    decreases s.len() - i,
{
    if i < 0 || i >= s.len() {
        None
    } else if s[i].msg.id == task {
        Some(s[i])
    } else {
        root_from(s, task, i + 1)
    }
}

pub open spec fn root_of(s: Seq<Life>, task: MsgId) -> Life {
    match root_from(s, task, 0) {
        Some(r) => r,
        None => s[0],
    }
}

/// How a task stands.
pub open spec fn task_status(s: Seq<Life>) -> Seq<char> {
    if exists|i: int| 0 <= i < s.len() && !(#[trigger] s[i]).stage.is_finished() {
        "running"@
    } else if exists|i: int| 0 <= i < s.len() && ((#[trigger] s[i]).stage is Rejected || s[i].stage is Failed) {
        "failed"@
    } else if exists|i: int| 0 <= i < s.len() && ((#[trigger] s[i]).stage is Dropped || s[i].stage is Abandoned) {
        "cancelled"@
    } else {
        "done"@
    }
}

/// The first line of a text.
pub open spec fn first_line(s: Seq<char>) -> Seq<char> {
    if lines_of(s, 0).len() > 0 {
        lines_of(s, 0)[0]
    } else {
        Seq::empty()
    }
}

/// What a task's records say of it.
pub open spec fn summarized(t: TaskSummary, s: Seq<Life>, task: MsgId, now: Time) -> bool {
    let first = earliest(s, s.len());
    let open = last_open(s, s.len());
    &&& t.task == task
    &&& t.status@ == task_status(s)
    &&& t.steps == s.len()
    &&& t.started == first
    &&& t.title@ == first_line(root_of(s, task).msg.text)
    &&& match open {
        Some(r) => t.at is Some && t.at->0@ == r.msg.to + " ("@ + mode_name(r.msg.via) + ")"@ && t.took == elapsed(
            first,
            now,
        ),
        None => t.at is None && t.took == elapsed(
            first,
            match latest(s, s.len()) {
                Some(e) => e,
                None => first,
            },
        ),
    }
}

/// Task `a` is listed before task `b`: the newer first, the higher number on
/// a tie.
pub open spec fn listed_before(a: TaskSummary, b: TaskSummary) -> bool {
    a.started.ms > b.started.ms || (a.started.ms == b.started.ms && a.task > b.task)
}


/// Task `task` has a record among the first `k`.
pub open spec fn has_task(s: Seq<Life>, task: MsgId, k: int) -> bool {
    exists|i: int| 0 <= i < k && i < s.len() && (#[trigger] s[i]).msg.task == task
}

proof fn lemma_of_task_nonempty(s: Seq<Life>, i: int)
    requires
        0 <= i < s.len(),
    ensures
        of_task(s, s[i].msg.task).len() > 0,
    decreases s.len(),
{
    reveal(Seq::filter);
    let task = s[i].msg.task;
    if i < s.len() - 1 {
        lemma_of_task_nonempty(s.drop_last(), i);
    }
}

proof fn lemma_of_task_dated(s: Seq<Life>, task: MsgId)
    requires
        forall|i: int| 0 <= i < s.len() ==> dated(#[trigger] s[i]),
    ensures
        forall|i: int| 0 <= i < of_task(s, task).len() ==> dated(#[trigger] of_task(s, task)[i]),
    decreases s.len(),
{
    reveal(Seq::filter);
    if s.len() > 0 {
        lemma_of_task_dated(s.drop_last(), task);
        let t = of_task(s, task);
        let u = of_task(s.drop_last(), task);
        assert forall|i: int| 0 <= i < t.len() implies dated(#[trigger] t[i]) by {
            if i < u.len() {
                assert(t[i] == u[i]);
            }
        }
    }
}

fn status_of(rs: &Vec<&Record>) -> (word: &'static str)
    ensures
        word@ == task_status(lives_at(rs@)),
{
    let ghost s = lives_at(rs@);
    let mut open: bool = false;
    let mut failed: bool = false;
    let mut gone: bool = false;
    let mut i: usize = 0;
    while i < rs.len()
        invariant
            i <= rs@.len(),
            s == lives_at(rs@),
            open == exists|k: int| 0 <= k < i && !(#[trigger] s[k]).stage.is_finished(),
            failed == exists|k: int| 0 <= k < i && ((#[trigger] s[k]).stage is Rejected || s[k].stage is Failed),
            gone == exists|k: int| 0 <= k < i && ((#[trigger] s[k]).stage is Dropped || s[k].stage is Abandoned),
        decreases rs.len() - i,
    {
        let stage = rs[i].stage;
        assert(s[i as int].stage == stage);
        if !stage.finished() {
            open = true;
        }
        if matches!(stage, Stage::Rejected | Stage::Failed) {
            failed = true;
        }
        if matches!(stage, Stage::Dropped | Stage::Abandoned) {
            gone = true;
        }
        i = i + 1;
    }
    if open {
        "running"
    } else if failed {
        "failed"
    } else if gone {
        "cancelled"
    } else {
        "done"
    }
}

fn title_of(rs: &Vec<&Record>, task: MsgId) -> (title: String)
    requires
        rs@.len() > 0,
    ensures
        title@ == first_line(root_of(lives_at(rs@), task).msg.text),
{
    let ghost s = lives_at(rs@);
    let mut i: usize = 0;
    while i < rs.len() && rs[i].msg.id != task
        invariant
            i <= rs@.len(),
            s == lives_at(rs@),
            root_from(s, task, 0) == root_from(s, task, i as int),
        decreases rs.len() - i,
    {
        assert(s[i as int] == rs@[i as int]@);
        i = i + 1;
    }
    let at: usize = if i < rs.len() { i } else { 0 };
    assert(s[at as int] == rs@[at as int]@);
    let lines = split_lines(rs[at].msg.text.as_str());
    if lines.len() > 0 {
        assert(lines@[0]@ == lines_of(s[at as int].msg.text, 0)[0]);
        lines[0].clone()
    } else {
        String::new()
    }
}

/// What a task's records say of it.
fn summarize(rs: &Vec<&Record>, task: MsgId, now: Time) -> (t: TaskSummary)
    requires
        rs@.len() > 0,
        now.valid(),
        forall|i: int| 0 <= i < lives_at(rs@).len() ==> dated(#[trigger] lives_at(rs@)[i]),
    ensures
        summarized(t, lives_at(rs@), task, now),
{
    let ghost s = lives_at(rs@);
    let n: usize = rs.len();
    assert(s[0] == rs@[0]@);
    let mut first: Time = rs[0].msg.at;
    let mut last: Option<Time> = None;
    let mut open: Option<usize> = None;
    let mut i: usize = 0;
    while i < n
        invariant
            i <= n == rs@.len(),
            n > 0,
            s == lives_at(rs@),
            s[0] == rs@[0]@,
            forall|k: int| 0 <= k < s.len() ==> dated(#[trigger] s[k]),
            first == earliest(s, i as nat),
            first.valid(),
            last == latest(s, i as nat),
            last is Some ==> last->0.valid(),
            match open {
                Some(k) => k < n && last_open(s, i as nat) == Some(s[k as int]),
                None => last_open(s, i as nat) is None,
            },
        decreases n - i,
    {
        let r = rs[i];
        assert(s[i as int] == r@);
        if r.msg.at.ms < first.ms {
            first = r.msg.at;
        }
        if let Some(e) = r.ended {
            match last {
                Some(b) => {
                    if e.ms >= b.ms {
                        last = Some(e);
                    }
                },
                None => {
                    last = Some(e);
                },
            }
        }
        if !r.stage.finished() {
            open = Some(i);
        }
        i = i + 1;
    }
    let mut at: Option<String> = None;
    let mut end: Time = first;
    match open {
        Some(k) => {
            assert(s[k as int] == rs@[k as int]@);
            let mut place = rs[k].msg.to.clone();
            place.push_str(" (");
            place.push_str(rs[k].msg.via.as_str());
            place.push_str(")");
            at = Some(place);
            end = now;
        },
        None => {
            if let Some(e) = last {
                end = e;
            }
        },
    }
    TaskSummary {
        task,
        status: status_of(rs),
        at,
        took: since(first, end),
        steps: n,
        title: title_of(rs, task),
        started: first,
    }
}

pub open spec fn listed_in_order(s: Seq<TaskSummary>) -> bool {
    forall|i: int, j: int| 0 <= i < j < s.len() ==> listed_before(#[trigger] s[i], #[trigger] s[j])
}

impl Store {
    /// The records of a task, lowest id first.
    fn chain(&self, task: MsgId) -> (out: Vec<&Record>)
        ensures
            lives_at(out@) == of_task(self@.records, task),
    {
        let ghost all = self@.records;
        let mut out: Vec<&Record> = Vec::new();
        let mut i: usize = 0;
        proof {
            reveal(Seq::filter);
            assert(all.take(0) =~= Seq::empty());
            assert(lives_at(out@) =~= of_task(all.take(0), task));
        }
        while i < self.records.len()
            invariant
                i <= self.records@.len(),
                all == self@.records,
                lives_at(out@) == of_task(all.take(i as int), task),
            decreases self.records.len() - i,
        {
            let r = &self.records[i];
            assert(all[i as int] == r@);
            let ghost before = out@;
            proof {
                reveal(Seq::filter);
                assert(all.take(i + 1).drop_last() =~= all.take(i as int));
                assert(all.take(i + 1).last() == r@);
            }
            if r.msg.task == task {
                out.push(r);
                assert(lives_at(out@) =~= lives_at(before).push(r@));
            }
            i = i + 1;
        }
        assert(all.take(i as int) =~= all);
        out
    }

    /// Every task (a chain of messages), newest first.
    pub fn tasks(&self, now: Time) -> (out: Vec<TaskSummary>)
        requires
            self.wf(),
            now.valid(),
            forall|i: int| 0 <= i < self@.records.len() ==> dated(#[trigger] self@.records[i]),
        ensures
            listed_in_order(out@),
            forall|k: int|
                0 <= k < out@.len() ==> summarized(
                    #[trigger] out@[k],
                    of_task(self@.records, out@[k].task),
                    out@[k].task,
                    now,
                ),
            forall|task: MsgId|
                #[trigger] has_task(self@.records, task, self@.records.len() as int) <==> exists|k: int|
                    0 <= k < out@.len() && (#[trigger] out@[k]).task == task,
    {
        let ghost all = self@.records;
        let mut out: Vec<TaskSummary> = Vec::new();
        let mut i: usize = 0;
        while i < self.records.len()
            invariant
                i <= self.records@.len(),
                all == self@.records,
                now.valid(),
                forall|k: int| 0 <= k < all.len() ==> dated(#[trigger] all[k]),
                listed_in_order(out@),
                forall|k: int|
                    0 <= k < out@.len() ==> summarized(
                        #[trigger] out@[k],
                        of_task(all, out@[k].task),
                        out@[k].task,
                        now,
                    ),
                forall|task: MsgId|
                    #[trigger] has_task(all, task, i as int) <==> exists|k: int|
                        0 <= k < out@.len() && (#[trigger] out@[k]).task == task,
            decreases self.records.len() - i,
        {
            let task: MsgId = self.records[i].msg.task;
            assert(all[i as int].msg.task == task);
            let ghost before = out@;
            let mut seen: bool = false;
            let mut k: usize = 0;
            while k < out.len()
                invariant
                    k <= out@.len(),
                    seen == exists|j: int| 0 <= j < k && (#[trigger] out@[j]).task == task,
                decreases out.len() - k,
            {
                if out[k].task == task {
                    seen = true;
                }
                k = k + 1;
            }
            if !seen {
                let rs = self.chain(task);
                proof {
                    lemma_of_task_nonempty(all, i as int);
                    lemma_of_task_dated(all, task);
                    assert(rs@.len() == lives_at(rs@).len());
                }
                let t = summarize(&rs, task, now);
                let mut p: usize = out.len();
                while p > 0 && !(out[p - 1].started.ms > t.started.ms || (out[p - 1].started.ms == t.started.ms
                    && out[p - 1].task > t.task))
                    invariant
                        p <= out@.len(),
                        out@ == before,
                        listed_in_order(out@),
                        t.task == task,
                        forall|j: int| 0 <= j < out@.len() ==> (#[trigger] out@[j]).task != task,
                        forall|j: int| p <= j < out@.len() ==> listed_before(t, #[trigger] out@[j]),
                    decreases p,
                {
                    p = p - 1;
                }
                proof {
                    assert forall|j: int| 0 <= j < p implies listed_before(#[trigger] out@[j], t) by {
                        if j < p - 1 {
                            assert(listed_before(out@[j], out@[p - 1]));
                        }
                    }
                }
                out.insert(p, t);
                proof {
                    assert(out@ == before.insert(p as int, t));
                    assert forall|a: int, b: int| 0 <= a < b < out@.len() implies listed_before(
                        #[trigger] out@[a],
                        #[trigger] out@[b],
                    ) by {
                        let a0 = if a < p { a } else { a - 1 };
                        let b0 = if b < p { b } else { b - 1 };
                        if a != p {
                            assert(out@[a] == before[a0]);
                        }
                        if b != p {
                            assert(out@[b] == before[b0]);
                        }
                    }
                    assert forall|k: int| 0 <= k < out@.len() implies summarized(
                        #[trigger] out@[k],
                        of_task(all, out@[k].task),
                        out@[k].task,
                        now,
                    ) by {
                        if k < p {
                            assert(out@[k] == before[k]);
                        } else if k > p {
                            assert(out@[k] == before[k - 1]);
                        }
                    }
                }
            }
            proof {
                assert forall|x: MsgId| #[trigger] has_task(all, x, i + 1) <==> exists|k: int|
                    0 <= k < out@.len() && (#[trigger] out@[k]).task == x by {
                    lemma_has_task_step(all, x, i as int);
                    lemma_listed(before, out@, x, task, !seen);
                }
            }
            i = i + 1;
        }
        out
    }
}

proof fn lemma_has_task_step(s: Seq<Life>, task: MsgId, i: int)
    requires
        0 <= i < s.len(),
    ensures
        has_task(s, task, i + 1) == (has_task(s, task, i) || s[i].msg.task == task),
{
    if s[i].msg.task == task {
        assert(has_task(s, task, i + 1));
    }
    if has_task(s, task, i) {
        let k = choose|k: int| 0 <= k < i && k < s.len() && (#[trigger] s[k]).msg.task == task;
        assert(0 <= k < i + 1 && s[k].msg.task == task);
    }
}

/// A list with one more task lists that one besides.
proof fn lemma_listed(before: Seq<TaskSummary>, after: Seq<TaskSummary>, x: MsgId, task: MsgId, added: bool)
    requires
        !added ==> after == before && exists|k: int| 0 <= k < before.len() && (#[trigger] before[k]).task == task,
        added ==> exists|p: int, t: TaskSummary|
            0 <= p <= before.len() && t.task == task && after == #[trigger] before.insert(p, t),
    ensures
        (exists|k: int| 0 <= k < after.len() && (#[trigger] after[k]).task == x) <==> (exists|k: int|
            0 <= k < before.len() && (#[trigger] before[k]).task == x) || x == task,
{
    if added {
        let (p, t) = choose|p: int, t: TaskSummary|
            0 <= p <= before.len() && t.task == task && after == #[trigger] before.insert(p, t);
        assert(after[p].task == task);
        if exists|k: int| 0 <= k < before.len() && (#[trigger] before[k]).task == x {
            let k = choose|k: int| 0 <= k < before.len() && (#[trigger] before[k]).task == x;
            let j = if k < p { k } else { k + 1 };
            assert(after[j].task == x);
        }
        if exists|k: int| 0 <= k < after.len() && (#[trigger] after[k]).task == x {
            let k = choose|k: int| 0 <= k < after.len() && (#[trigger] after[k]).task == x;
            if k < p {
                assert(before[k].task == x);
            } else if k > p {
                assert(before[k - 1].task == x);
            }
        }
    }
}

} // verus!
