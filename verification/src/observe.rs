//! The observability store: what happened to every message, as events. Kept
//! in memory for queries and waits, and written as JSON Lines, a file a day,
//! so it outlives the server.
use std::collections::VecDeque;
use vstd::prelude::*;
use crate::actor::{envelope_text, End, Mail, Message, MsgId};
use crate::json::{json_string, to_json};
use crate::text::{decimal, push_decimal, same_text};
use crate::time::{format_time, rfc3339_text, time_text, to_rfc3339, Time};

verus! {

/// Where a message is in its life.
#[derive(Clone, Copy, Debug, PartialEq, Eq, Structural)]
pub enum Stage {
    /// In an inbox, waiting for its pane to be free.
    Queued,
    /// Typed into its pane; the pane is working on it.
    Delivered,
    /// Taken by the program with `read-message`.
    Read,
    Done,
    /// A shell command that reported failure.
    Failed,
    /// Its agent exited before it was done.
    Abandoned,
    /// Deleted from the inbox, or its pane closed, or the server restarted.
    Dropped,
    /// Never queued: over the hop limit, a full inbox, not allowed.
    Rejected,
}

/// The word for a stage.
pub open spec fn stage_name(s: Stage) -> Seq<char> {
    match s {
        Stage::Queued => "queued"@,
        Stage::Delivered => "delivered"@,
        Stage::Read => "read"@,
        Stage::Done => "done"@,
        Stage::Failed => "failed"@,
        Stage::Abandoned => "abandoned"@,
        Stage::Dropped => "dropped"@,
        Stage::Rejected => "rejected"@,
    }
}

/// The stage of a word.
pub open spec fn named_stage(s: Seq<char>) -> Option<Stage> {
    if s == "queued"@ {
        Some(Stage::Queued)
    } else if s == "delivered"@ {
        Some(Stage::Delivered)
    } else if s == "read"@ {
        Some(Stage::Read)
    } else if s == "done"@ {
        Some(Stage::Done)
    } else if s == "failed"@ {
        Some(Stage::Failed)
    } else if s == "abandoned"@ {
        Some(Stage::Abandoned)
    } else if s == "dropped"@ {
        Some(Stage::Dropped)
    } else if s == "rejected"@ {
        Some(Stage::Rejected)
    } else {
        None
    }
}

impl Stage {
    pub fn as_str(self) -> (s: &'static str)
        ensures
            s@ == stage_name(self),
    {
        match self {
            Stage::Queued => "queued",
            Stage::Delivered => "delivered",
            Stage::Read => "read",
            Stage::Done => "done",
            Stage::Failed => "failed",
            Stage::Abandoned => "abandoned",
            Stage::Dropped => "dropped",
            Stage::Rejected => "rejected",
        }
    }

    pub fn parse(s: &str) -> (st: Option<Stage>)
        ensures
            st == named_stage(s@),
    {
        if same_text(s, "queued") {
            Some(Stage::Queued)
        } else if same_text(s, "delivered") {
            Some(Stage::Delivered)
        } else if same_text(s, "read") {
            Some(Stage::Read)
        } else if same_text(s, "done") {
            Some(Stage::Done)
        } else if same_text(s, "failed") {
            Some(Stage::Failed)
        } else if same_text(s, "abandoned") {
            Some(Stage::Abandoned)
        } else if same_text(s, "dropped") {
            Some(Stage::Dropped)
        } else if same_text(s, "rejected") {
            Some(Stage::Rejected)
        } else {
            None
        }
    }

    pub open spec fn is_finished(self) -> bool {
        !(self is Queued) && !(self is Delivered)
    }

    /// Nothing more will happen to it. A message a program took with
    /// `read-message` is its business from then on: no signal ever says
    /// more, so it counts as done with.
    pub fn finished(self) -> (b: bool)
        ensures
            b == self.is_finished(),
    {
        !matches!(self, Stage::Queued | Stage::Delivered)
    }
}

proof fn lemma_stage_words_differ(a: Stage, b: Stage)
    requires
        stage_name(a) == stage_name(b),
    ensures
        a == b,
{
    reveal_strlit("queued");
    reveal_strlit("delivered");
    reveal_strlit("read");
    reveal_strlit("done");
    reveal_strlit("failed");
    reveal_strlit("abandoned");
    reveal_strlit("dropped");
    reveal_strlit("rejected");
    let (x, y) = (stage_name(a), stage_name(b));
    assert(x[0] == y[0] && x[1] == y[1]);
    assert(x.len() == y.len());
}

/// A stage's word reads back as the stage.
pub proof fn lemma_stage_names(st: Stage)
    ensures
        named_stage(stage_name(st)) == Some(st),
{
    if named_stage(stage_name(st)) is Some {
        let back = named_stage(stage_name(st))->0;
        assert(stage_name(back) == stage_name(st));
        lemma_stage_words_differ(back, st);
    }
}

#[derive(Debug, PartialEq, Eq)]
pub struct Record {
    pub msg: Message,
    pub stage: Stage,
    pub delivered: Option<Time>,
    pub ended: Option<Time>,
    /// A shell command's success, as its prompt hook reported it.
    pub ok: Option<bool>,
    /// What a shell command printed, cut at `message-max-size`.
    pub output: Option<String>,
    pub cut: bool,
    /// Why it was rejected or dropped, and by whom.
    pub why: Option<String>,
}

/// Records kept in memory; older finished ones are only in the files.
pub const KEPT: usize = 10000;

/// Event lines kept in memory for `list-events -n`.
pub const RECENT: usize = 5000;

/// A line for the event log, and the day file it belongs in.
#[derive(Debug, PartialEq, Eq)]
pub struct LogLine {
    pub file: String,
    pub line: String,
}

pub struct Store {
    /// By message id, lowest first.
    pub records: Vec<Record>,
    /// The last lines written, newest last: what a watcher asks for every
    /// second is answered from here, never by reading the files.
    pub recent: VecDeque<String>,
    /// Whether events are written (`event-log`).
    pub on: bool,
    /// Lines to be appended to the day files, oldest first.
    pub log: Vec<LogLine>,
}

/// A record as mathematics.
pub ghost struct Life {
    pub msg: Mail,
    pub stage: Stage,
    pub delivered: Option<Time>,
    pub ended: Option<Time>,
    pub ok: Option<bool>,
    pub output: Option<Seq<char>>,
    pub cut: bool,
    pub why: Option<Seq<char>>,
}

pub open spec fn opt_text(s: Option<String>) -> Option<Seq<char>> {
    match s {
        Some(t) => Some(t@),
        None => None,
    }
}

impl View for Record {
    type V = Life;

    open spec fn view(&self) -> Life {
        Life {
            msg: self.msg@,
            stage: self.stage,
            delivered: self.delivered,
            ended: self.ended,
            ok: self.ok,
            output: opt_text(self.output),
            cut: self.cut,
            why: opt_text(self.why),
        }
    }
}

/// The records of a store.
pub open spec fn lives(v: Seq<Record>) -> Seq<Life> {
    Seq::new(v.len(), |i: int| v[i]@)
}

/// Lowest id first, none twice.
pub open spec fn in_order(s: Seq<Life>) -> bool {
    forall|i: int, j: int| 0 <= i < j < s.len() ==> (#[trigger] s[i]).msg.id < (#[trigger] s[j]).msg.id
}

/// Where message `id` is, or belongs, from `i` on.
pub open spec fn place(s: Seq<Life>, id: MsgId, i: int) -> int
    decreases s.len() - i,
{
    if i < 0 || i >= s.len() || s[i].msg.id >= id {
        i
    } else {
        place(s, id, i + 1)
    }
}

pub open spec fn known(s: Seq<Life>, id: MsgId) -> bool {
    place(s, id, 0) < s.len() && s[place(s, id, 0)].msg.id == id
}

/// The records with one more, or another in the place of one with its id.
pub open spec fn put(s: Seq<Life>, r: Life) -> Seq<Life> {
    let i = place(s, r.msg.id, 0);
    if known(s, r.msg.id) {
        s.update(i, r)
    } else {
        s.insert(i, r)
    }
}

/// The first record from `i` on that nothing more will happen to.
pub open spec fn first_finished(s: Seq<Life>, i: int) -> int
    decreases s.len() - i,
{
    if i < 0 || i >= s.len() || s[i].stage.is_finished() {
        i
    } else {
        first_finished(s, i + 1)
    }
}

/// The records kept: while there are too many the oldest finished one goes,
/// or the oldest of all.
pub open spec fn kept(s: Seq<Life>, max: int) -> Seq<Life>
    decreases s.len(),
{
    if s.len() <= max || max < 0 {
        s
    } else if 0 <= first_finished(s, 0) < s.len() {
        kept(s.remove(first_finished(s, 0)), max)
    } else {
        kept(s.remove(0), max)
    }
}

/// The last `n` of `s`.
pub open spec fn last_of<T>(s: Seq<T>, n: int) -> Seq<T> {
    if s.len() > n {
        s.skip(s.len() - n)
    } else {
        s
    }
}

pub open spec fn lines_text(v: Seq<String>) -> Seq<Seq<char>> {
    Seq::new(v.len(), |i: int| v[i]@)
}

pub open spec fn log_text(v: Seq<LogLine>) -> Seq<(Seq<char>, Seq<char>)> {
    Seq::new(v.len(), |i: int| (v[i].file@, v[i].line@))
}

/// A store as mathematics.
pub ghost struct StoreState {
    pub records: Seq<Life>,
    pub recent: Seq<Seq<char>>,
    pub on: bool,
    pub log: Seq<(Seq<char>, Seq<char>)>,
}

impl View for Store {
    type V = StoreState;

    open spec fn view(&self) -> StoreState {
        StoreState {
            records: lives(self.records@),
            recent: lines_text(self.recent@),
            on: self.on,
            log: log_text(self.log@),
        }
    }
}

/// The day file of an event.
pub open spec fn day_file(at: Time) -> Seq<char> {
    time_text(at.ms, at.offset, "%Y-%m-%d"@) + ".jsonl"@
}

/// One event line: the time first, then its kind, then its fields.
pub open spec fn event_line(at: Time, ev: Seq<char>, fields: Seq<char>) -> Seq<char> {
    "{\"at\":"@ + json_string(rfc3339_text(at.ms, at.offset)) + ",\"ev\":\""@ + ev + "\""@ + fields + "}"@
}

impl StoreState {
    /// No more is kept in memory than there is room for.
    pub open spec fn bounded(self) -> bool {
        self.recent.len() <= RECENT
    }

    /// The store after an event was written; nothing is when the log is off.
    pub open spec fn wrote(self, at: Time, ev: Seq<char>, fields: Seq<char>) -> StoreState {
        if self.on {
            let line = event_line(at, ev, fields);
            StoreState {
                recent: last_of(self.recent.push(line), RECENT as int),
                log: self.log.push((day_file(at), line)),
                ..self
            }
        } else {
            self
        }
    }

    /// The store after what happened to message `id`.
    pub open spec fn with(self, id: MsgId, f: spec_fn(Life) -> Life) -> StoreState {
        if known(self.records, id) {
            let i = place(self.records, id, 0);
            StoreState { records: self.records.update(i, f(self.records[i])), ..self }
        } else {
            self
        }
    }

    /// The store after the pane was done with message `id`.
    pub open spec fn ended_with(
        self,
        id: MsgId,
        end: End,
        ok: Option<bool>,
        out: Option<(Seq<char>, bool)>,
        now: Time,
    ) -> StoreState {
        self.wrote(now, stage_name(end_stage(end, ok)), ended_fields(id, ok, out)).with(
            id,
            |r: Life|
                Life {
                    stage: end_stage(end, ok),
                    ended: Some(now),
                    ok,
                    output: match out {
                        Some((text, _)) => Some(text),
                        None => r.output,
                    },
                    cut: match out {
                        Some((_, cut)) => cut,
                        None => r.cut,
                    },
                    ..r
                },
        )
    }

    /// The store after message `id` was dropped.
    pub open spec fn dropped_for(self, id: MsgId, why: Seq<char>, now: Time) -> StoreState {
        self.wrote(now, "dropped"@, id_field(id) + ",\"why\":"@ + json_string(why)).with(
            id,
            |r: Life| Life { stage: Stage::Dropped, ended: Some(now), why: Some(why), ..r },
        )
    }

    /// The store after message `id` went into its pane.
    pub open spec fn delivered_as(self, id: MsgId, now: Time) -> StoreState {
        self.wrote(now, "delivered"@, id_field(id)).with(
            id,
            |r: Life| Life { stage: Stage::Delivered, delivered: Some(now), ..r },
        )
    }

    /// The store after message `id` was read.
    pub open spec fn read_as(self, id: MsgId, now: Time) -> StoreState {
        self.wrote(now, "read"@, id_field(id)).with(
            id,
            |r: Life| Life { stage: Stage::Read, delivered: Some(now), ..r },
        )
    }

    /// The record of message `id`.
    pub open spec fn life(self, id: MsgId) -> Option<Life> {
        if known(self.records, id) {
            Some(self.records[place(self.records, id, 0)])
        } else {
            None
        }
    }
}

impl Store {
    /// The records are in order, and the lines in memory bounded.
    pub open spec fn wf(self) -> bool {
        in_order(self@.records) && self@.bounded()
    }
}

/// What sending a message writes.
pub open spec fn sent_fields(m: Mail, why: Option<Seq<char>>) -> Seq<char> {
    ",\"msg\":"@ + envelope_text(m) + ",\"text\":"@ + json_string(m.text) + (match why {
        Some(w) => ",\"why\":"@ + json_string(w),
        None => Seq::empty(),
    })
}

/// The record of a message just sent.
pub open spec fn sent_life(m: Mail, why: Option<Seq<char>>) -> Life {
    Life {
        msg: m,
        stage: if why is Some {
            Stage::Rejected
        } else {
            Stage::Queued
        },
        delivered: None,
        ended: if why is Some {
            Some(m.at)
        } else {
            None
        },
        ok: None,
        output: None,
        cut: false,
        why,
    }
}

/// How a message that a pane is done with ended.
pub open spec fn end_stage(end: End, ok: Option<bool>) -> Stage {
    if end is Abandoned {
        Stage::Abandoned
    } else if ok == Some(false) {
        Stage::Failed
    } else {
        Stage::Done
    }
}

pub open spec fn flag_text(b: bool) -> Seq<char> {
    if b {
        "true"@
    } else {
        "false"@
    }
}

pub open spec fn output_text(output: Option<(String, bool)>) -> Option<(Seq<char>, bool)> {
    match output {
        Some((text, cut)) => Some((text@, cut)),
        None => None,
    }
}

/// What an ending writes.
pub open spec fn ended_fields(id: MsgId, ok: Option<bool>, output: Option<(Seq<char>, bool)>) -> Seq<char> {
    ",\"id\":"@ + decimal(id as nat) + (match ok {
        Some(b) => ",\"ok\":"@ + flag_text(b),
        None => Seq::empty(),
    }) + (match output {
        Some((text, cut)) => ",\"output\":"@ + json_string(text) + ",\"cut\":"@ + flag_text(cut),
        None => Seq::empty(),
    })
}

pub proof fn lemma_place(s: Seq<Life>, id: MsgId, i: int)
    requires
        0 <= i <= s.len(),
    ensures
        i <= place(s, id, i) <= s.len(),
        forall|k: int| i <= k < place(s, id, i) ==> (#[trigger] s[k]).msg.id < id,
        place(s, id, i) < s.len() ==> s[place(s, id, i)].msg.id >= id,
    decreases s.len() - i,
{
    if i < s.len() && s[i].msg.id < id {
        lemma_place(s, id, i + 1);
    }
}

/// Putting a record in keeps the order, and it is found there; the others
/// are found as before.
pub proof fn lemma_put(s: Seq<Life>, r: Life)
    requires
        in_order(s),
    ensures
        in_order(put(s, r)),
        known(put(s, r), r.msg.id),
        put(s, r)[place(put(s, r), r.msg.id, 0)] == r,
        put(s, r).len() <= s.len() + 1,
{
    let id = r.msg.id;
    let i = place(s, id, 0);
    lemma_place(s, id, 0);
    let t = put(s, r);
    if known(s, id) {
        lemma_place_at(t, id, i);
    } else {
        assert forall|a: int, b: int| 0 <= a < b < t.len() implies (#[trigger] t[a]).msg.id < (#[trigger] t[b]).msg.id by {
            let a0 = if a < i { a } else { a - 1 };
            let b0 = if b < i { b } else { b - 1 };
            if a != i {
                assert(t[a] == s[a0]);
            }
            if b != i {
                assert(t[b] == s[b0]);
            }
            if a == i && b0 > i {
                assert(s[i].msg.id < s[b0].msg.id);
            }
        }
        lemma_place_at(t, id, i);
    }
}

/// In order, a record is found where it is.
proof fn lemma_place_at(s: Seq<Life>, id: MsgId, i: int)
    requires
        in_order(s),
        0 <= i < s.len(),
        s[i].msg.id == id,
    ensures
        place(s, id, 0) == i,
{
    lemma_place(s, id, 0);
    let k = place(s, id, 0);
    if k < i {
        assert(s[k].msg.id < s[i].msg.id);
    } else if i < k {
        assert(s[i].msg.id < id);
    }
}

proof fn lemma_first_finished(s: Seq<Life>, i: int)
    requires
        0 <= i <= s.len(),
    ensures
        i <= first_finished(s, i) <= s.len(),
        first_finished(s, i) < s.len() ==> s[first_finished(s, i)].stage.is_finished(),
    decreases s.len() - i,
{
    if i < s.len() && !s[i].stage.is_finished() {
        lemma_first_finished(s, i + 1);
    }
}

/// What is kept is in order, and no more than the most there may be.
pub proof fn lemma_kept(s: Seq<Life>, max: int)
    requires
        in_order(s),
        max >= 0,
    ensures
        in_order(kept(s, max)),
        kept(s, max).len() <= max || kept(s, max).len() == s.len(),
        s.len() > max ==> kept(s, max).len() == max,
        s.len() <= max ==> kept(s, max) == s,
    decreases s.len(),
{
    if s.len() > max {
        lemma_first_finished(s, 0);
        let i = if first_finished(s, 0) < s.len() { first_finished(s, 0) } else { 0 };
        let t = s.remove(i);
        assert forall|a: int, b: int| 0 <= a < b < t.len() implies (#[trigger] t[a]).msg.id < (#[trigger] t[b]).msg.id by {
            let a0 = if a < i { a } else { a + 1 };
            let b0 = if b < i { b } else { b + 1 };
            assert(t[a] == s[a0] && t[b] == s[b0]);
        }
        lemma_kept(t, max);
    }
}

fn push_flag(out: &mut String, b: bool)
    ensures
        final(out)@ == old(out)@ + flag_text(b),
{
    if b {
        out.push_str("true");
    } else {
        out.push_str("false");
    }
}

impl Default for Store {
    fn default() -> (s: Store)
        ensures
            s@ == (StoreState { records: Seq::empty(), recent: Seq::empty(), on: false, log: Seq::empty() }),
            s.wf(),
    {
        let s = Store { records: Vec::new(), recent: VecDeque::new(), on: false, log: Vec::new() };
        assert(s@.records =~= Seq::empty());
        assert(s@.recent =~= Seq::empty());
        assert(s@.log =~= Seq::empty());
        s
    }
}

impl Store {
    /// One event line: the time first, then its kind, then its fields
    /// (already JSON, in a fixed order).
    fn write(&mut self, at: Time, ev: &str, fields: &str)
        requires
            old(self).wf(),
            at.valid(),
        ensures
            final(self)@ == old(self)@.wrote(at, ev@, fields@),
            final(self).wf(),
            final(self).records == old(self).records,
    {
        if !self.on {
            return;
        }
        let ghost before = self@;
        let mut line = "{\"at\":".to_owned();
        line.push_str(to_json(to_rfc3339(at).as_str()).as_str());
        line.push_str(",\"ev\":\"");
        line.push_str(ev);
        line.push_str("\"");
        line.push_str(fields);
        line.push_str("}");
        let mut file = format_time(at, "%Y-%m-%d");
        file.push_str(".jsonl");
        let ghost text = line@;
        assert(text == event_line(at, ev@, fields@));
        self.log.push(LogLine { file, line: line.clone() });
        assert(self@.log =~= before.log.push((day_file(at), text)));
        let ghost deque = self.recent@;
        self.recent.push_back(line);
        assert(lines_text(self.recent@) =~= before.recent.push(text));
        let ghost pushed = self.recent@;
        if self.recent.len() > RECENT {
            self.recent.pop_front();
            assert(lines_text(self.recent@) =~= lines_text(pushed).skip(1));
        }
    }

    /// The last `n` event lines that `keep` accepts, oldest first.
    pub fn recent<F: Fn(&str) -> bool>(&self, n: usize, keep: &F) -> (out: Vec<String>)
        requires
            forall|l: &str| #[trigger] call_requires(*keep, (l,)),
        ensures
            forall|truth: spec_fn(Seq<char>) -> bool| #[trigger]
                crate::config::decides(*keep, truth) ==> lines_text(out@) == last_of(
                    self@.recent.filter(truth),
                    n as int,
                ),
    {
        // Newest first, then turned round.
        let mut back: Vec<String> = Vec::new();
        let mut i: usize = self.recent.len();
        let ghost all = self@.recent;
        assert(all.skip(all.len() as int) =~= Seq::empty());
        proof {
            assert forall|truth: spec_fn(Seq<char>) -> bool| #[trigger] crate::config::decides(*keep, truth) implies
                lines_text(back@).reverse() == all.skip(all.len() as int).filter(truth) by {
                reveal(Seq::filter);
                assert(lines_text(back@).reverse() =~= Seq::empty());
            }
        }
        while i > 0 && back.len() < n
            invariant
                i <= all.len(),
                all == self@.recent,
                all.len() == self.recent@.len(),
                back@.len() <= n,
                forall|l: &str| #[trigger] call_requires(*keep, (l,)),
                forall|truth: spec_fn(Seq<char>) -> bool| #[trigger]
                    crate::config::decides(*keep, truth) ==> lines_text(back@).reverse() == all.skip(i as int).filter(
                        truth,
                    ),
            decreases i,
        {
            let line = self.recent[i - 1].as_str();
            let ghost before = back@;
            assert(all[i - 1] == line@);
            let yes: bool = keep(line);
            if yes {
                back.push(line.to_owned());
            }
            proof {
                assert forall|truth: spec_fn(Seq<char>) -> bool| #[trigger] crate::config::decides(*keep, truth) implies
                    lines_text(back@).reverse() == all.skip(i - 1).filter(truth) by {
                    assert(all.skip(i - 1) =~= seq![all[i - 1]] + all.skip(i as int));
                    lemma_filter_front(all[i - 1], all.skip(i as int), truth);
                    assert(yes == truth(all[i - 1]));
                    if yes {
                        assert(lines_text(back@).reverse() =~= seq![all[i - 1]] + lines_text(before).reverse());
                    }
                }
            }
            i = i - 1;
        }
        let mut out: Vec<String> = Vec::new();
        let mut k: usize = back.len();
        assert(lines_text(out@) =~= lines_text(back@).reverse().take(0));
        while k > 0
            invariant
                k <= back@.len(),
                lines_text(out@) == lines_text(back@).reverse().take(back@.len() - k),
            decreases k,
        {
            let ghost before = out@;
            out.push(back[k - 1].clone());
            assert(lines_text(out@) =~= lines_text(before).push(back@[k - 1]@));
            assert(lines_text(back@).reverse().take(back@.len() - k + 1) =~= lines_text(back@).reverse().take(
                back@.len() - k,
            ).push(back@[k - 1]@));
            k = k - 1;
        }
        assert(lines_text(out@) =~= lines_text(back@).reverse());
        proof {
            assert forall|truth: spec_fn(Seq<char>) -> bool| #[trigger] crate::config::decides(*keep, truth) implies
                lines_text(out@) == last_of(all.filter(truth), n as int) by {
                let part = all.skip(i as int).filter(truth);
                if i == 0 {
                    assert(all.skip(0) =~= all);
                    assert(last_of(all.filter(truth), n as int) =~= part);
                } else {
                    assert(all =~= all.take(i as int) + all.skip(i as int));
                    Seq::filter_distributes_over_add(all.take(i as int), all.skip(i as int), truth);
                    let whole = all.filter(truth);
                    assert(whole == all.take(i as int).filter(truth) + part);
                    assert(part.len() == n);
                    assert(whole.skip(whole.len() - n) =~= part);
                    if whole.len() <= n {
                        assert(whole =~= part);
                    }
                }
            }
        }
        out
    }

    fn find(&self, id: MsgId) -> (i: usize)
        requires
            self.wf(),
        ensures
            i == place(self@.records, id, 0),
            i <= self.records@.len(),
    {
        let mut i: usize = 0;
        while i < self.records.len() && self.records[i].msg.id < id
            invariant
                i <= self.records@.len(),
                place(self@.records, id, 0) == place(self@.records, id, i as int),
            decreases self.records.len() - i,
        {
            assert(self@.records[i as int] == self.records@[i as int]@);
            i = i + 1;
        }
        if i < self.records.len() {
            assert(self@.records[i as int] == self.records@[i as int]@);
        }
        i
    }

    pub(crate) fn trim(&mut self)
        requires
            old(self).wf(),
        ensures
            final(self)@ == (StoreState { records: kept(old(self)@.records, KEPT as int), ..old(self)@ }),
            final(self).wf(),
    {
        let ghost before = self@;
        proof {
            lemma_kept(before.records, KEPT as int);
        }
        while self.records.len() > KEPT
            invariant
                self@.recent == before.recent,
                self@.on == before.on,
                self@.log == before.log,
                kept(before.records, KEPT as int) == kept(self@.records, KEPT as int),
            decreases self.records.len(),
        {
            let ghost now = self@.records;
            let mut i: usize = 0;
            while i < self.records.len() && !self.records[i].stage.finished()
                invariant
                    i <= self.records@.len(),
                    now == self@.records,
                    first_finished(now, 0) == first_finished(now, i as int),
                decreases self.records.len() - i,
            {
                assert(now[i as int] == self.records@[i as int]@);
                i = i + 1;
            }
            if i < self.records.len() {
                assert(now[i as int] == self.records@[i as int]@);
            }
            let at: usize = if i < self.records.len() { i } else { 0 };
            self.records.remove(at);
            assert(self@.records =~= now.remove(at as int));
        }
    }

    pub(crate) fn put_record(&mut self, r: Record)
        requires
            old(self).wf(),
        ensures
            final(self)@ == (StoreState { records: put(old(self)@.records, r@), ..old(self)@ }),
            final(self).wf(),
    {
        let ghost before = self@;
        proof {
            lemma_put(before.records, r@);
            lemma_place(before.records, r.msg.id, 0);
        }
        let i: usize = self.find(r.msg.id);
        if i < self.records.len() && self.records[i].msg.id == r.msg.id {
            assert(before.records[i as int] == self.records@[i as int]@);
            self.records[i] = r;
            assert(self@.records =~= before.records.update(i as int, r@));
        } else {
            if i < self.records.len() {
                assert(before.records[i as int] == self.records@[i as int]@);
            }
            self.records.insert(i, r);
            assert(self@.records =~= before.records.insert(i as int, r@));
        }
    }

    /// A message was sent: queued, or rejected (and so never queued).
    pub fn sent(&mut self, m: &Message, rejected: Option<&str>)
        requires
            old(self).wf(),
            m.at.valid(),
        ensures
            final(self).wf(),
            ({
                let why = match rejected {
                    Some(w) => Some(w@),
                    None => None,
                };
                let ev = if why is Some { "rejected"@ } else { "sent"@ };
                let wrote = old(self)@.wrote(m.at, ev, sent_fields(m@, why));
                final(self)@ == (StoreState {
                    records: kept(put(wrote.records, sent_life(m@, why)), KEPT as int),
                    ..wrote
                })
            }),
    {
        let mut fields = ",\"msg\":".to_owned();
        fields.push_str(m.envelope().as_str());
        fields.push_str(",\"text\":");
        fields.push_str(to_json(m.text.as_str()).as_str());
        let ghost head = fields@;
        let ghost why = match rejected {
            Some(w) => Some(w@),
            None => None,
        };
        if let Some(w) = rejected {
            fields.push_str(",\"why\":");
            fields.push_str(to_json(w).as_str());
        }
        assert(fields@ =~= sent_fields(m@, why));
        match rejected {
            Some(w) => {
                self.write(m.at, "rejected", fields.as_str());
                self.put_record(
                    Record {
                        msg: m.clone(),
                        stage: Stage::Rejected,
                        delivered: None,
                        ended: Some(m.at),
                        ok: None,
                        output: None,
                        cut: false,
                        why: Some(w.to_owned()),
                    },
                );
            },
            None => {
                self.write(m.at, "sent", fields.as_str());
                self.put_record(
                    Record {
                        msg: m.clone(),
                        stage: Stage::Queued,
                        delivered: None,
                        ended: None,
                        ok: None,
                        output: None,
                        cut: false,
                        why: None,
                    },
                );
            },
        }
        self.trim();
    }

    /// The record of message `id`, to be changed, kept in its place.
    pub(crate) fn take_out(&mut self, id: MsgId) -> (at: Option<usize>)
        requires
            old(self).wf(),
        ensures
            *final(self) == *old(self),
            match at {
                Some(i) => known(old(self)@.records, id) && i == place(old(self)@.records, id, 0) && i < old(
                    self,
                ).records@.len(),
                None => !known(old(self)@.records, id),
            },
    {
        let i: usize = self.find(id);
        if i < self.records.len() {
            assert(self@.records[i as int] == self.records@[i as int]@);
            if self.records[i].msg.id == id {
                return Some(i);
            }
        }
        None
    }
}

proof fn lemma_filter_front(x: Seq<char>, s: Seq<Seq<char>>, truth: spec_fn(Seq<char>) -> bool)
    ensures
        (seq![x] + s).filter(truth) == if truth(x) {
            seq![x] + s.filter(truth)
        } else {
            s.filter(truth)
        },
{
    Seq::filter_distributes_over_add(seq![x], s, truth);
    reveal_with_fuel(Seq::filter, 2);
    assert(seq![x].drop_last() =~= Seq::empty());
    if truth(x) {
        assert(seq![x].filter(truth) =~= seq![x]);
    } else {
        assert(seq![x].filter(truth) =~= Seq::empty());
        assert(Seq::<Seq<char>>::empty() + s.filter(truth) =~= s.filter(truth));
    }
}


/// The field that names a message.
pub open spec fn id_field(id: MsgId) -> Seq<char> {
    ",\"id\":"@ + decimal(id as nat)
}

fn field_of(id: MsgId) -> (s: String)
    ensures
        s@ == id_field(id),
{
    let mut s = ",\"id\":".to_owned();
    push_decimal(&mut s, id);
    s
}

pub proof fn lemma_change(s: Seq<Life>, i: int, r: Life)
    requires
        in_order(s),
        0 <= i < s.len(),
        r.msg.id == s[i].msg.id,
    ensures
        in_order(s.update(i, r)),
{
    let t = s.update(i, r);
    assert forall|a: int, b: int| 0 <= a < b < t.len() implies (#[trigger] t[a]).msg.id < (#[trigger] t[b]).msg.id by {
        assert(s[a].msg.id < s[b].msg.id);
    }
}

impl Store {
    pub fn delivered(&mut self, id: MsgId, now: Time)
        requires
            old(self).wf(),
            now.valid(),
        ensures
            final(self).wf(),
            final(self)@ == old(self)@.wrote(now, "delivered"@, id_field(id)).with(
                id,
                |r: Life| Life { stage: Stage::Delivered, delivered: Some(now), ..r },
            ),
    {
        self.write(now, "delivered", field_of(id).as_str());
        let ghost before = self@.records;
        if let Some(i) = self.take_out(id) {
            self.records[i].stage = Stage::Delivered;
            self.records[i].delivered = Some(now);
            proof {
                lemma_change(before, i as int, self.records@[i as int]@);
                assert(self@.records =~= before.update(i as int, self.records@[i as int]@));
            }
        }
    }

    pub fn read(&mut self, id: MsgId, now: Time)
        requires
            old(self).wf(),
            now.valid(),
        ensures
            final(self).wf(),
            final(self)@ == old(self)@.wrote(now, "read"@, id_field(id)).with(
                id,
                |r: Life| Life { stage: Stage::Read, delivered: Some(now), ..r },
            ),
    {
        self.write(now, "read", field_of(id).as_str());
        let ghost before = self@.records;
        if let Some(i) = self.take_out(id) {
            self.records[i].stage = Stage::Read;
            self.records[i].delivered = Some(now);
            proof {
                lemma_change(before, i as int, self.records@[i as int]@);
                assert(self@.records =~= before.update(i as int, self.records@[i as int]@));
            }
        }
    }

    /// The pane is done with it: `ok` and `output` for a shell command.
    pub fn ended(&mut self, id: MsgId, end: End, ok: Option<bool>, output: Option<(String, bool)>, now: Time)
        requires
            old(self).wf(),
            now.valid(),
        ensures
            final(self).wf(),
            final(self)@ == old(self)@.ended_with(id, end, ok, output_text(output), now),
    {
        let stage = match (end, ok) {
            (End::Abandoned, _) => Stage::Abandoned,
            (End::Done, Some(false)) => Stage::Failed,
            (End::Done, _) => Stage::Done,
        };
        let ghost out = output_text(output);
        let mut fields = field_of(id);
        let ghost a = fields@;
        if let Some(b) = ok {
            fields.push_str(",\"ok\":");
            push_flag(&mut fields, b);
        }
        let ghost b = fields@;
        assert(b =~= a + (match ok {
            Some(x) => ",\"ok\":"@ + flag_text(x),
            None => Seq::empty(),
        }));
        if let Some((text, cut)) = &output {
            fields.push_str(",\"output\":");
            fields.push_str(to_json(text.as_str()).as_str());
            fields.push_str(",\"cut\":");
            push_flag(&mut fields, *cut);
        }
        assert(fields@ =~= ended_fields(id, ok, out));
        self.write(now, stage.as_str(), fields.as_str());
        let ghost before = self@.records;
        if let Some(i) = self.take_out(id) {
            self.records[i].stage = stage;
            self.records[i].ended = Some(now);
            self.records[i].ok = ok;
            if let Some((text, cut)) = output {
                self.records[i].output = Some(text);
                self.records[i].cut = cut;
            }
            proof {
                lemma_change(before, i as int, self.records@[i as int]@);
                assert(self@.records =~= before.update(i as int, self.records@[i as int]@));
            }
        }
    }

    pub fn dropped(&mut self, id: MsgId, why: &str, now: Time)
        requires
            old(self).wf(),
            now.valid(),
        ensures
            final(self).wf(),
            final(self)@ == old(self)@.dropped_for(id, why@, now),
    {
        let mut fields = field_of(id);
        fields.push_str(",\"why\":");
        fields.push_str(to_json(why).as_str());
        self.write(now, "dropped", fields.as_str());
        let ghost before = self@.records;
        if let Some(i) = self.take_out(id) {
            self.records[i].stage = Stage::Dropped;
            self.records[i].ended = Some(now);
            self.records[i].why = Some(why.to_owned());
            proof {
                lemma_change(before, i as int, self.records@[i as int]@);
                assert(self@.records =~= before.update(i as int, self.records@[i as int]@));
            }
        }
    }

    /// A deleted message put back in its inbox.
    pub fn restored(&mut self, id: MsgId, by: &str, now: Time)
        requires
            old(self).wf(),
            now.valid(),
        ensures
            final(self).wf(),
            final(self)@ == old(self)@.wrote(now, "restored"@, id_field(id) + ",\"by\":"@ + json_string(by@)).with(
                id,
                |r: Life| Life { stage: Stage::Queued, ended: None, why: None, ..r },
            ),
    {
        let mut fields = field_of(id);
        fields.push_str(",\"by\":");
        fields.push_str(to_json(by).as_str());
        self.write(now, "restored", fields.as_str());
        let ghost before = self@.records;
        if let Some(i) = self.take_out(id) {
            self.records[i].stage = Stage::Queued;
            self.records[i].ended = None;
            self.records[i].why = None;
            proof {
                lemma_change(before, i as int, self.records@[i as int]@);
                assert(self@.records =~= before.update(i as int, self.records@[i as int]@));
            }
        }
    }

    pub fn moved(&mut self, id: MsgId, from: usize, to: usize, by: &str, now: Time)
        requires
            old(self).wf(),
            now.valid(),
        ensures
            final(self).wf(),
            final(self)@ == old(self)@.wrote(
                now,
                "moved"@,
                id_field(id) + ",\"from\":"@ + decimal(from as nat) + ",\"to\":"@ + decimal(to as nat) + ",\"by\":"@
                    + json_string(by@),
            ),
    {
        let mut fields = field_of(id);
        fields.push_str(",\"from\":");
        push_decimal(&mut fields, from as u64);
        fields.push_str(",\"to\":");
        push_decimal(&mut fields, to as u64);
        fields.push_str(",\"by\":");
        fields.push_str(to_json(by).as_str());
        self.write(now, "moved", fields.as_str());
    }

    /// Something about a pane: `what` it was (mode, name, status, idle,
    /// busy, created, exited) and its fields, already JSON (`,"k":v...`).
    pub fn pane(&mut self, address: &str, what: &str, fields: &str, now: Time)
        requires
            old(self).wf(),
            now.valid(),
        ensures
            final(self).wf(),
            final(self)@ == old(self)@.wrote(
                now,
                "pane"@,
                ",\"pane\":"@ + json_string(address@) + ",\"what\":\""@ + what@ + "\""@ + fields@,
            ),
    {
        let mut all = ",\"pane\":".to_owned();
        all.push_str(to_json(address).as_str());
        all.push_str(",\"what\":\"");
        all.push_str(what);
        all.push_str("\"");
        all.push_str(fields);
        self.write(now, "pane", all.as_str());
    }

    pub fn get(&self, id: MsgId) -> (r: Option<&Record>)
        requires
            self.wf(),
        ensures
            match r {
                Some(rec) => self@.life(id) == Some(rec@),
                None => self@.life(id) is None,
            },
    {
        let i: usize = self.find(id);
        if i < self.records.len() {
            assert(self@.records[i as int] == self.records@[i as int]@);
            if self.records[i].msg.id == id {
                return Some(&self.records[i]);
            }
        }
        None
    }

    /// Every record, lowest id first.
    pub fn records(&self) -> (out: &Vec<Record>)
        ensures
            lives(out@) == self@.records,
    {
        &self.records
    }

    /// The highest message id known, so ids go on after a restart.
    pub fn last_id(&self) -> (id: MsgId)
        requires
            self.wf(),
        ensures
            self@.records.len() == 0 ==> id == 0,
            self@.records.len() > 0 ==> id == self@.records.last().msg.id,
            forall|i: int| 0 <= i < self@.records.len() ==> (#[trigger] self@.records[i]).msg.id <= id,
    {
        let n: usize = self.records.len();
        if n == 0 {
            return 0;
        }
        assert(self@.records.last() == self.records@[n - 1]@);
        self.records[n - 1].msg.id
    }
}

/// A record is found by its id.
pub proof fn lemma_found(s: Seq<Life>, i: int)
    requires
        in_order(s),
        0 <= i < s.len(),
    ensures
        known(s, s[i].msg.id),
        place(s, s[i].msg.id, 0) == i,
{
    lemma_place_at(s, s[i].msg.id, i);
}

} // verus!
