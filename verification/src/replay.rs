//! Reading the event log back after a restart.
use vstd::prelude::*;
use crate::actor::{lemma_mode_names, mode_name, named_mode, Mail, Message, MsgId, Origin, Sender, WorkMode};
use crate::config::{lines_of, split_lines};
use crate::json::{
    entry_named, flag_at, flag_in, leaf_at, number_at, number_in, read_bool, read_string, read_u64, string_at, text_in,
    Entry, Leaf,
};
use crate::observe::{end_stage, in_order, kept, known, lemma_change, lemma_stage_names, named_stage, opt_text, place, put, sent_fields, sent_life, stage_name, Life, Record, Stage, Store, StoreState, KEPT};
use crate::actor::End;
use crate::text::{chars_of, number_of, part_of, read_number, same_text};
use crate::time::{from_rfc3339, rfc3339_text, rfc3339_time, Time};
use crate::written::{is_line, lemma_envelope_pointers, lemma_event_pointers, lemma_line, Written};

verus! {

/// An event as the log holds it.
pub struct Logged {
    pub at: Time,
    pub ev: String,
    /// The message an event names.
    pub id: Option<MsgId>,
    /// The message a sending holds.
    pub msg: Option<Message>,
    pub ok: Option<bool>,
    pub output: Option<String>,
    pub cut: bool,
    pub why: Option<String>,
}

/// An event as mathematics.
pub ghost struct Happening {
    pub at: Time,
    pub ev: Seq<char>,
    pub id: Option<MsgId>,
    pub msg: Option<Mail>,
    pub ok: Option<bool>,
    pub output: Option<Seq<char>>,
    pub cut: bool,
    pub why: Option<Seq<char>>,
}

impl View for Logged {
    type V = Happening;

    open spec fn view(&self) -> Happening {
        Happening {
            at: self.at,
            ev: self.ev@,
            id: self.id,
            msg: match self.msg {
                Some(m) => Some(m@),
                None => None,
            },
            ok: self.ok,
            output: opt_text(self.output),
            cut: self.cut,
            why: opt_text(self.why),
        }
    }
}

/// Where the last percent sign before `i` stands.
pub open spec fn last_percent(s: Seq<char>, i: int) -> Option<int>
    decreases i,
{
    if i <= 0 || i > s.len() {
        None
    } else if s[i - 1] == '%' {
        Some(i - 1)
    } else {
        last_percent(s, i - 1)
    }
}

/// The pane number an address ends in, zero when it does not.
pub open spec fn address_pane(s: Seq<char>) -> int {
    match last_percent(s, s.len() as int) {
        Some(i) => match number_of(s.skip(i + 1), u32::MAX as int) {
            Some(n) => n,
            None => 0,
        },
        None => 0,
    }
}

/// The sender an envelope in `line` names.
pub open spec fn origin_at(line: Seq<char>) -> Option<Origin> {
    match string_at(line, "/msg/from"@) {
        None => None,
        Some(from) => Some(
            if from == "user"@ {
                Origin::User
            } else {
                Origin::Pane {
                    id: address_pane(from) as u32,
                    address: from,
                    name: string_at(line, "/msg/name"@),
                    mode: match string_at(line, "/msg/mode"@) {
                        Some(m) => match named_mode(m) {
                            Some(mode) => mode,
                            None => WorkMode::Normal,
                        },
                        None => WorkMode::Normal,
                    },
                }
            },
        ),
    }
}

/// The message an envelope in `line` is of: nothing when a field it needs is
/// missing.
pub open spec fn mail_at(line: Seq<char>, at: Time) -> Option<Mail> {
    let via = match string_at(line, "/msg/via"@) {
        Some(m) => named_mode(m),
        None => None,
    };
    match (
        origin_at(line),
        number_at(line, "/msg/id"@),
        number_at(line, "/msg/task"@),
        string_at(line, "/msg/to"@),
        via,
        number_at(line, "/msg/hop"@),
    ) {
        (Some(from), Some(id), Some(task), Some(to), Some(via), Some(hop)) => Some(
            Mail {
                id,
                task,
                from,
                to,
                via,
                hop: hop as u32,
                re: number_at(line, "/msg/re"@),
                text: match string_at(line, "/text"@) {
                    Some(t) => t,
                    None => Seq::empty(),
                },
                at,
            },
        ),
        _ => None,
    }
}

/// The event a line of the log holds: nothing when it has no time.
pub open spec fn happening_at(line: Seq<char>) -> Option<Happening> {
    let at = match string_at(line, "/at"@) {
        Some(t) => rfc3339_time(t),
        None => None,
    };
    match at {
        None => None,
        Some((ms, offset)) => {
            let at = Time { ms, offset };
            Some(
                Happening {
                    at,
                    ev: match string_at(line, "/ev"@) {
                        Some(e) => e,
                        None => Seq::empty(),
                    },
                    id: number_at(line, "/id"@),
                    msg: mail_at(line, at),
                    ok: flag_at(line, "/ok"@),
                    output: string_at(line, "/output"@),
                    cut: flag_at(line, "/cut"@) == Some(true),
                    why: string_at(line, "/why"@),
                },
            )
        },
    }
}

fn pane_of(address: &str) -> (id: u32)
    ensures
        id == address_pane(address@),
{
    let s = chars_of(address);
    let mut i: usize = s.len();
    while i > 0 && s[i - 1] != '%'
        invariant
            i <= s@.len(),
            last_percent(s@, s@.len() as int) == last_percent(s@, i as int),
        decreases i,
    {
        i = i - 1;
    }
    if i == 0 {
        return 0;
    }
    let tail = part_of(&s, i, s.len());
    assert(tail@ =~= s@.skip(i as int));
    match read_number(&tail, u32::MAX as u64) {
        Some(n) => n as u32,
        None => 0,
    }
}

fn mode_in(word: &Option<String>) -> (m: Option<WorkMode>)
    ensures
        m == match opt_text(*word) {
            Some(s) => named_mode(s),
            None => None,
        },
{
    match word {
        Some(s) => WorkMode::parse(s.as_str()),
        None => None,
    }
}

/// A message back from its envelope, as the event log holds it. What a store
/// wrote of a sending holds the message that was sent.
#[verifier::spinoff_prover]
fn message_of(line: &str, at: Time) -> (m: Option<Message>)
    ensures
        match m {
            Some(msg) => mail_at(line@, at) == Some(msg@),
            None => mail_at(line@, at) is None,
        },
        forall|w: Written| #[trigger] w.line() == line@ && w.readable() && w.at() == at ==> mail_at(line@, at) == w.mail(),
{
    let from_word = read_string(line, "/msg/from");
    let name = read_string(line, "/msg/name");
    let mode_word = read_string(line, "/msg/mode");
    let number = read_u64(line, "/msg/id");
    let of_task = read_u64(line, "/msg/task");
    let addressee = read_string(line, "/msg/to");
    let via_word = read_string(line, "/msg/via");
    let hops = read_u64(line, "/msg/hop");
    let re = read_u64(line, "/msg/re");
    let words = read_string(line, "/text");
    assert forall|w: Written| #[trigger] w.line() == line@ && w.readable() && w.at() == at implies mail_at(line@, at)
        == w.mail() by {
        let es = lemma_line(w);
        lemma_event_pointers();
        lemma_envelope_pointers();
        lemma_mail_read(w, es, line@, at);
    }
    let from = match from_word {
        None => return None,
        Some(address) => if same_text(address.as_str(), "user") {
            Sender::User
        } else {
            let mode = match mode_in(&mode_word) {
                Some(m) => m,
                None => WorkMode::Normal,
            };
            Sender::Pane { id: pane_of(address.as_str()), name, mode, address }
        },
    };
    assert(origin_at(line@) == Some(from@));
    let id: u64 = match number {
        None => return None,
        Some(n) => n,
    };
    let task: u64 = match of_task {
        None => return None,
        Some(n) => n,
    };
    let to = match addressee {
        None => return None,
        Some(s) => s,
    };
    let via = match mode_in(&via_word) {
        None => return None,
        Some(m) => m,
    };
    let hop: u64 = match hops {
        None => return None,
        Some(n) => n,
    };
    let short: u32 = #[verifier::truncate] (hop as u32);
    let text = match words {
        Some(t) => t,
        None => String::new(),
    };
    Some(Message { id, task, from, to, via, hop: short, re, text, at })
}

/// What is read of an envelope is the message it is of.
proof fn lemma_mail_read(w: Written, es: Seq<(Seq<char>, Entry)>, line: Seq<char>, at: Time)
    requires
        is_line(es, w),
        w.readable(),
        w.at() == at,
        string_at(line, "/msg/from"@) == text_in(leaf_at(es, seq!["msg"@, "from"@])),
        string_at(line, "/msg/name"@) == text_in(leaf_at(es, seq!["msg"@, "name"@])),
        string_at(line, "/msg/mode"@) == text_in(leaf_at(es, seq!["msg"@, "mode"@])),
        string_at(line, "/msg/to"@) == text_in(leaf_at(es, seq!["msg"@, "to"@])),
        string_at(line, "/msg/via"@) == text_in(leaf_at(es, seq!["msg"@, "via"@])),
        number_at(line, "/msg/id"@) == number_in(leaf_at(es, seq!["msg"@, "id"@])),
        number_at(line, "/msg/task"@) == number_in(leaf_at(es, seq!["msg"@, "task"@])),
        number_at(line, "/msg/hop"@) == number_in(leaf_at(es, seq!["msg"@, "hop"@])),
        number_at(line, "/msg/re"@) == number_in(leaf_at(es, seq!["msg"@, "re"@])),
        string_at(line, "/text"@) == text_in(leaf_at(es, seq!["text"@])),
    ensures
        mail_at(line, at) == w.mail(),
{
    match w.mail() {
        None => {
            assert(entry_named(es, "msg"@, 0) is None);
            assert(string_at(line, "/msg/from"@) is None);
        },
        Some(m) => {
            lemma_mode_names(m.via, mode_name(m.via));
            match m.from {
                Origin::Pane { mode, .. } => {
                    lemma_mode_names(mode, mode_name(mode));
                },
                Origin::User => {},
            }
            assert(origin_at(line) == Some(m.from));
        },
    }
}

/// The event a line of the log holds. A line that a store wrote says what
/// happened.
#[verifier::spinoff_prover]
pub fn read_event(line: &str) -> (e: Option<Logged>)
    ensures
        match e {
            Some(ev) => happening_at(line@) == Some(ev@) && ev.at.valid(),
            None => happening_at(line@) is None,
        },
        forall|w: Written| #[trigger] w.line() == line@ && w.readable() ==> happening_at(line@) == Some(w.happening()),
{
    let when = read_string(line, "/at");
    let word = read_string(line, "/ev");
    let id = read_u64(line, "/id");
    let ok = read_bool(line, "/ok");
    let output = read_string(line, "/output");
    let cut = read_bool(line, "/cut");
    let why = read_string(line, "/why");
    let at = match &when {
        None => None,
        Some(t) => from_rfc3339(t.as_str()),
    };
    let msg = match at {
        None => None,
        Some(at) => message_of(line, at),
    };
    assert forall|w: Written| #[trigger] w.line() == line@ && w.readable() implies happening_at(line@) == Some(
        w.happening(),
    ) by {
        let es = lemma_line(w);
        lemma_event_pointers();
        assert(leaf_at(es, seq!["at"@]) == Some(Leaf::Text(rfc3339_text(w.at().ms, w.at().offset))));
        assert(at == Some(w.at()));
        assert(string_at(line@, "/ev"@) == text_in(leaf_at(es, seq!["ev"@])));
        assert(number_at(line@, "/id"@) == number_in(leaf_at(es, seq!["id"@])));
        assert(flag_at(line@, "/ok"@) == flag_in(leaf_at(es, seq!["ok"@])));
        assert(string_at(line@, "/output"@) == text_in(leaf_at(es, seq!["output"@])));
        assert(flag_at(line@, "/cut"@) == flag_in(leaf_at(es, seq!["cut"@])));
        assert(string_at(line@, "/why"@) == text_in(leaf_at(es, seq!["why"@])));
    }
    match at {
        None => None,
        Some(at) => {
            let ev = match word {
                Some(s) => s,
                None => String::new(),
            };
            let cut: bool = match cut {
                Some(b) => b,
                None => false,
            };
            Some(Logged { at, ev, id, msg, ok, output, cut, why })
        },
    }
}

/// What an event says of the message it names.
pub open spec fn lived(r: Life, e: Happening) -> Life {
    if e.ev == "delivered"@ {
        Life { stage: Stage::Delivered, delivered: Some(e.at), ..r }
    } else if e.ev == "read"@ {
        Life { stage: Stage::Read, delivered: Some(e.at), ..r }
    } else if e.ev == "restored"@ {
        Life { stage: Stage::Queued, ended: None, why: None, ..r }
    } else {
        match named_stage(e.ev) {
            Some(st) => if st.is_finished() {
                Life { stage: st, ended: Some(e.at), ok: e.ok, output: e.output, cut: e.cut, why: e.why, ..r }
            } else {
                r
            },
            None => r,
        }
    }
}

/// The records after an event.
pub open spec fn replayed(s: Seq<Life>, e: Happening) -> Seq<Life> {
    if e.ev == "sent"@ || e.ev == "rejected"@ {
        match e.msg {
            Some(m) => put(
                s,
                Life {
                    msg: m,
                    stage: if e.ev == "rejected"@ {
                        Stage::Rejected
                    } else {
                        Stage::Queued
                    },
                    delivered: None,
                    ended: if e.ev == "rejected"@ {
                        Some(e.at)
                    } else {
                        None
                    },
                    ok: None,
                    output: None,
                    cut: false,
                    why: e.why,
                },
            ),
            None => s,
        }
    } else {
        match e.id {
            Some(id) => if known(s, id) {
                s.update(place(s, id, 0), lived(s[place(s, id, 0)], e))
            } else {
                s
            },
            None => s,
        }
    }
}

/// The records after the lines of a file from `k` on. A line that holds no
/// event is skipped.
pub open spec fn replayed_lines(s: Seq<Life>, lines: Seq<Seq<char>>, k: int) -> Seq<Life>
    decreases lines.len() - k,
{
    if k < 0 || k >= lines.len() {
        s
    } else {
        replayed_lines(
            match happening_at(lines[k]) {
                Some(e) => replayed(s, e),
                None => s,
            },
            lines,
            k + 1,
        )
    }
}

/// The records after the files from `k` on.
pub open spec fn replayed_files(s: Seq<Life>, files: Seq<Seq<char>>, k: int) -> Seq<Life>
    decreases files.len() - k,
{
    if k < 0 || k >= files.len() {
        s
    } else {
        replayed_files(replayed_lines(s, lines_of(files[k], 0), 0), files, k + 1)
    }
}

/// The messages from record `i` on that something was still to happen to.
pub open spec fn open_ids(s: Seq<Life>, i: int) -> Seq<MsgId>
    decreases s.len() - i,
{
    if i < 0 || i >= s.len() {
        Seq::empty()
    } else if s[i].stage.is_finished() {
        open_ids(s, i + 1)
    } else {
        seq![s[i].msg.id] + open_ids(s, i + 1)
    }
}

/// The store after the messages `ids`, from `k` on, were dropped.
pub open spec fn all_dropped(st: StoreState, ids: Seq<MsgId>, k: int, now: Time) -> StoreState
    decreases ids.len() - k,
{
    if k < 0 || k >= ids.len() {
        st
    } else {
        all_dropped(
            st.wrote(
                now,
                "dropped"@,
                crate::observe::id_field(ids[k]) + ",\"why\":"@ + crate::json::json_string("the server restarted"@),
            ).with(
                ids[k],
                |r: Life| Life { stage: Stage::Dropped, ended: Some(now), why: Some("the server restarted"@), ..r },
            ),
            ids,
            k + 1,
            now,
        )
    }
}

/// A line that a store wrote says what happened.
pub open spec fn tells(line: Seq<char>) -> bool {
    forall|w: Written| #[trigger] w.line() == line && w.readable() ==> happening_at(line) == Some(w.happening())
}

/// The lines of a file are those a store wrote.
pub open spec fn are_lines(lines: Seq<Seq<char>>, ws: Seq<Written>) -> bool {
    &&& lines.len() == ws.len()
    &&& forall|k: int| 0 <= k < ws.len() ==> (#[trigger] ws[k]).line() == lines[k] && ws[k].readable()
}

/// The records after what happened from `k` on.
pub open spec fn happened(s: Seq<Life>, ws: Seq<Written>, k: int) -> Seq<Life>
    decreases ws.len() - k,
{
    if k < 0 || k >= ws.len() {
        s
    } else {
        happened(replayed(s, ws[k].happening()), ws, k + 1)
    }
}

/// The records after what the files from `k` on say happened.
pub open spec fn happened_in(s: Seq<Life>, days: Seq<Seq<Written>>, k: int) -> Seq<Life>
    decreases days.len() - k,
{
    if k < 0 || k >= days.len() {
        s
    } else {
        happened_in(happened(s, days[k], 0), days, k + 1)
    }
}

proof fn lemma_lines_tell(s: Seq<Life>, lines: Seq<Seq<char>>, ws: Seq<Written>, k: int)
    requires
        are_lines(lines, ws),
        0 <= k,
        forall|i: int| 0 <= i < lines.len() ==> tells(#[trigger] lines[i]),
    ensures
        replayed_lines(s, lines, k) == happened(s, ws, k),
    decreases lines.len() - k,
{
    if k < lines.len() {
        assert(ws[k].line() == lines[k]);
        assert(tells(lines[k]));
        lemma_lines_tell(replayed(s, ws[k].happening()), lines, ws, k + 1);
    }
}

proof fn lemma_files_tell(s: Seq<Life>, files: Seq<Seq<char>>, days: Seq<Seq<Written>>, k: int)
    requires
        files.len() == days.len(),
        0 <= k,
        forall|i: int| 0 <= i < files.len() ==> are_lines(#[trigger] lines_of(files[i], 0), days[i]),
        forall|i: int, j: int|
            0 <= i < files.len() && 0 <= j < lines_of(files[i], 0).len() ==> tells(#[trigger] lines_of(files[i], 0)[j]),
    ensures
        replayed_files(s, files, k) == happened_in(s, days, k),
    decreases files.len() - k,
{
    if k < files.len() {
        lemma_lines_tell(s, lines_of(files[k], 0), days[k], 0);
        lemma_files_tell(happened(s, days[k], 0), files, days, k + 1);
    }
}

impl Store {
    /// What an event of the log says happened.
    pub fn replay(&mut self, e: Logged)
        requires
            old(self).wf(),
        ensures
            final(self).wf(),
            final(self)@ == (StoreState { records: replayed(old(self)@.records, e@), ..old(self)@ }),
    {
        let ghost before = self@.records;
        let rejected: bool = same_text(e.ev.as_str(), "rejected");
        if rejected || same_text(e.ev.as_str(), "sent") {
            if let Some(m) = e.msg {
                let stage = if rejected { Stage::Rejected } else { Stage::Queued };
                let ended = if rejected { Some(e.at) } else { None };
                self.put_record(
                    Record { msg: m, stage, delivered: None, ended, ok: None, output: None, cut: false, why: e.why },
                );
            }
            return;
        }
        let id: MsgId = match e.id {
            None => return,
            Some(id) => id,
        };
        let i: usize = match self.take_out(id) {
            None => return,
            Some(i) => i,
        };
        let ghost goal = lived(before[i as int], e@);
        if same_text(e.ev.as_str(), "delivered") {
            self.records[i].stage = Stage::Delivered;
            self.records[i].delivered = Some(e.at);
        } else if same_text(e.ev.as_str(), "read") {
            self.records[i].stage = Stage::Read;
            self.records[i].delivered = Some(e.at);
        } else if same_text(e.ev.as_str(), "restored") {
            self.records[i].stage = Stage::Queued;
            self.records[i].ended = None;
            self.records[i].why = None;
        } else if let Some(stage) = Stage::parse(e.ev.as_str()) {
            if stage.finished() {
                self.records[i].stage = stage;
                self.records[i].ended = Some(e.at);
                self.records[i].ok = e.ok;
                self.records[i].output = e.output;
                self.records[i].cut = e.cut;
                self.records[i].why = e.why;
            }
        }
        proof {
            assert(self.records@[i as int]@ == goal);
            lemma_change(before, i as int, goal);
            assert(self@.records =~= before.update(i as int, goal));
        }
    }

    /// Read back what the day files say, after a restart, the oldest first.
    /// Messages that were still queued or being worked on are gone with the
    /// server that held them: they are dropped, and how many is returned.
    pub fn load(&mut self, files: &Vec<String>, now: Time) -> (dropped: usize)
        requires
            old(self).wf(),
            now.valid(),
        ensures
            final(self).wf(),
            ({
                let read = replayed_files(
                    old(self)@.records,
                    Seq::new(files@.len(), |i: int| files@[i]@),
                    0,
                );
                let st = all_dropped(
                    StoreState { records: read, ..old(self)@ },
                    open_ids(read, 0),
                    0,
                    now,
                );
                &&& dropped == open_ids(read, 0).len()
                &&& final(self)@ == (StoreState { records: kept(st.records, KEPT as int), ..st })
            }),
            forall|days: Seq<Seq<Written>>|
                days.len() == files@.len() && (forall|i: int|
                    0 <= i < files@.len() ==> are_lines(#[trigger] lines_of(files@[i]@, 0), days[i]))
                    ==> replayed_files(old(self)@.records, Seq::new(files@.len(), |i: int| files@[i]@), 0)
                    == #[trigger] happened_in(old(self)@.records, days, 0),
    {
        let ghost before = self@;
        let ghost texts = Seq::new(files@.len(), |i: int| files@[i]@);
        let ghost goal = replayed_files(before.records, texts, 0);
        let mut f: usize = 0;
        while f < files.len()
            invariant
                f <= files@.len(),
                self.wf(),
                texts == Seq::new(files@.len(), |i: int| files@[i]@),
                goal == replayed_files(self@.records, texts, f as int),
                self@ == (StoreState { records: self@.records, ..before }),
                forall|i: int, j: int|
                    0 <= i < f && 0 <= j < lines_of(texts[i], 0).len() ==> tells(#[trigger] lines_of(texts[i], 0)[j]),
            decreases files.len() - f,
        {
            let lines = split_lines(files[f].as_str());
            let ghost all = lines_of(files@[f as int]@, 0);
            let ghost start = self@.records;
            let mut k: usize = 0;
            while k < lines.len()
                invariant
                    k <= lines@.len() == all.len(),
                    forall|i: int| 0 <= i < lines@.len() ==> (#[trigger] lines@[i])@ == all[i],
                    self.wf(),
                    replayed_lines(start, all, 0) == replayed_lines(self@.records, all, k as int),
                    self@ == (StoreState { records: self@.records, ..before }),
                    forall|j: int| 0 <= j < k ==> tells(#[trigger] all[j]),
                decreases lines.len() - k,
            {
                assert(lines@[k as int]@ == all[k as int]);
                if let Some(e) = read_event(lines[k].as_str()) {
                    self.replay(e);
                }
                k = k + 1;
            }
            f = f + 1;
        }
        assert(self@.records == goal);
        proof {
            assert forall|days: Seq<Seq<Written>>|
                days.len() == files@.len() && (forall|i: int|
                    0 <= i < files@.len() ==> are_lines(#[trigger] lines_of(files@[i]@, 0), days[i])) implies goal
                == #[trigger] happened_in(before.records, days, 0) by {
                assert forall|i: int| 0 <= i < texts.len() implies are_lines(#[trigger] lines_of(texts[i], 0), days[i]) by {
                    assert(texts[i] == files@[i]@);
                }
                lemma_files_tell(before.records, texts, days, 0);
            }
        }
        let ids = self.unfinished();
        let ghost st0 = self@;
        let mut k: usize = 0;
        while k < ids.len()
            invariant
                k <= ids@.len(),
                self.wf(),
                now.valid(),
                all_dropped(st0, ids@, 0, now) == all_dropped(self@, ids@, k as int, now),
            decreases ids.len() - k,
        {
            self.dropped(ids[k], "the server restarted", now);
            k = k + 1;
        }
        self.trim();
        ids.len()
    }

    fn unfinished(&self) -> (ids: Vec<MsgId>)
        ensures
            ids@ == open_ids(self@.records, 0),
    {
        let ghost all = self@.records;
        let mut ids: Vec<MsgId> = Vec::new();
        let mut i: usize = 0;
        assert(ids@ + open_ids(all, 0) =~= open_ids(all, 0));
        while i < self.records.len()
            invariant
                i <= self.records@.len(),
                all == self@.records,
                ids@ + open_ids(all, i as int) == open_ids(all, 0),
            decreases self.records.len() - i,
        {
            assert(all[i as int] == self.records@[i as int]@);
            let ghost before = ids@;
            if !self.records[i].stage.finished() {
                ids.push(self.records[i].msg.id);
                assert(ids@ + open_ids(all, i + 1) =~= before + open_ids(all, i as int));
            }
            i = i + 1;
        }
        assert(ids@ + open_ids(all, i as int) =~= ids@);
        ids
    }
}

/// The words of events other than stages are no stages, and the event of a
/// sending is none of an ending.
proof fn lemma_words()
    ensures
        "sent"@ != "rejected"@,
        "delivered"@ != "sent"@ && "delivered"@ != "rejected"@,
        "read"@ != "sent"@ && "read"@ != "rejected"@ && "read"@ != "delivered"@,
        "restored"@ != "sent"@ && "restored"@ != "rejected"@ && "restored"@ != "delivered"@ && "restored"@ != "read"@,
        "done"@ != "sent"@ && "failed"@ != "sent"@ && "abandoned"@ != "sent"@ && "dropped"@ != "sent"@,
        "done"@ != "restored"@ && "failed"@ != "restored"@ && "abandoned"@ != "restored"@ && "dropped"@ != "restored"@,
        "done"@ != "delivered"@ && "failed"@ != "delivered"@ && "abandoned"@ != "delivered"@ && "dropped"@ != "delivered"@,
        "done"@ != "read"@ && "failed"@ != "read"@ && "abandoned"@ != "read"@ && "dropped"@ != "read"@,
        "done"@ != "rejected"@ && "failed"@ != "rejected"@ && "abandoned"@ != "rejected"@ && "dropped"@ != "rejected"@,
{
    reveal_strlit("sent");
    reveal_strlit("rejected");
    reveal_strlit("delivered");
    reveal_strlit("read");
    reveal_strlit("restored");
    reveal_strlit("done");
    reveal_strlit("failed");
    reveal_strlit("abandoned");
    reveal_strlit("dropped");
    assert("sent"@[0] == 's' && "rejected"@[0] == 'r' && "delivered"@[0] == 'd' && "read"@[0] == 'r' && "restored"@[0]
        == 'r' && "done"@[0] == 'd' && "failed"@[0] == 'f' && "abandoned"@[0] == 'a' && "dropped"@[0] == 'd');
    assert("rejected"@[2] == 'j' && "restored"@[2] == 's');
    assert("delivered"@.len() == 9 && "done"@.len() == 4 && "dropped"@.len() == 7 && "read"@.len() == 4);
    assert("rejected"@.len() == 8 && "restored"@.len() == 8);
}

/// The event of a sending, read back, is the record the sending made.
pub proof fn lemma_sent_replays(s: Seq<Life>, m: Mail, why: Option<Seq<char>>, e: Happening)
    requires
        e.ev == if why is Some {
            "rejected"@
        } else {
            "sent"@
        },
        e.msg == Some(m),
        e.at == m.at,
        e.why == why,
    ensures
        replayed(s, e) == put(s, sent_life(m, why)),
{
    lemma_words();
}

/// The event of an ending, read back, is what the ending made of a record
/// that was delivered and had no reason yet.
pub proof fn lemma_ended_replays(s: Seq<Life>, id: MsgId, end: End, e: Happening)
    requires
        known(s, id),
        s[place(s, id, 0)].output is None,
        !s[place(s, id, 0)].cut,
        s[place(s, id, 0)].why is None,
        e.ev == stage_name(end_stage(end, e.ok)),
        e.id == Some(id),
        e.why is None,
        e.output is None ==> !e.cut,
    ensures
        replayed(s, e) == s.update(
            place(s, id, 0),
            Life {
                stage: end_stage(end, e.ok),
                ended: Some(e.at),
                ok: e.ok,
                output: e.output,
                cut: e.cut,
                ..s[place(s, id, 0)]
            },
        ),
{
    lemma_words();
    lemma_stage_names(end_stage(end, e.ok));
}

/// Deliveries, readings and restorings read back as they happened.
pub proof fn lemma_steps_replay(s: Seq<Life>, id: MsgId, e: Happening)
    requires
        known(s, id),
        e.id == Some(id),
    ensures
        e.ev == "delivered"@ ==> replayed(s, e) == s.update(
            place(s, id, 0),
            Life { stage: Stage::Delivered, delivered: Some(e.at), ..s[place(s, id, 0)] },
        ),
        e.ev == "read"@ ==> replayed(s, e) == s.update(
            place(s, id, 0),
            Life { stage: Stage::Read, delivered: Some(e.at), ..s[place(s, id, 0)] },
        ),
        e.ev == "restored"@ ==> replayed(s, e) == s.update(
            place(s, id, 0),
            Life { stage: Stage::Queued, ended: None, why: None, ..s[place(s, id, 0)] },
        ),
{
    lemma_words();
}

/// After a restart nothing is left queued or being worked on: every message
/// of the files that was is dropped.
pub proof fn lemma_nothing_left_open(st: StoreState, ids: Seq<MsgId>, k: int, now: Time)
    requires
        in_order(st.records),
        0 <= k <= ids.len(),
        forall|i: int|
            0 <= i < st.records.len() && !(#[trigger] st.records[i]).stage.is_finished() ==> ids.skip(k).contains(
                st.records[i].msg.id,
            ),
    ensures
        in_order(all_dropped(st, ids, k, now).records),
        forall|i: int|
            0 <= i < all_dropped(st, ids, k, now).records.len() ==> (#[trigger] all_dropped(
                st,
                ids,
                k,
                now,
            ).records[i]).stage.is_finished(),
    decreases ids.len() - k,
{
    if k < ids.len() {
        let f = |r: Life| Life { stage: Stage::Dropped, ended: Some(now), why: Some("the server restarted"@), ..r };
        let wrote = st.wrote(
            now,
            "dropped"@,
            crate::observe::id_field(ids[k]) + ",\"why\":"@ + crate::json::json_string("the server restarted"@),
        );
        let next = wrote.with(ids[k], f);
        let at = place(st.records, ids[k], 0);
        crate::observe::lemma_place(st.records, ids[k], 0);
        if known(st.records, ids[k]) {
            assert(f(st.records[at]).stage is Dropped);
            lemma_change(st.records, at, f(st.records[at]));
        }
        assert forall|i: int| 0 <= i < next.records.len() && !(#[trigger] next.records[i]).stage.is_finished() implies
            ids.skip(k + 1).contains(next.records[i].msg.id) by {
            assert(next.records.len() == st.records.len());
            if known(st.records, ids[k]) && i == at {
                assert(next.records[i] == f(st.records[at]));
            }
            assert(next.records[i] == st.records[i]);
            let id = st.records[i].msg.id;
            assert(ids.skip(k).contains(id));
            let p = choose|p: int| 0 <= p < ids.skip(k).len() && ids.skip(k)[p] == id;
            if p == 0 {
                crate::observe::lemma_found(st.records, i);
            } else {
                assert(ids.skip(k + 1)[p - 1] == id);
            }
        }
        lemma_nothing_left_open(next, ids, k + 1, now);
    } else {
        assert forall|i: int| 0 <= i < st.records.len() implies (#[trigger] st.records[i]).stage.is_finished() by {
            if !st.records[i].stage.is_finished() {
                assert(ids.skip(k).contains(st.records[i].msg.id));
                assert(ids.skip(k).len() == 0);
            }
        }
    }
}

/// Every unfinished record is among the open ones.
pub proof fn lemma_open_ids(s: Seq<Life>, i: int, k: int)
    requires
        0 <= i <= k < s.len(),
        !s[k].stage.is_finished(),
    ensures
        open_ids(s, i).contains(s[k].msg.id),
    decreases s.len() - i,
{
    let rest = open_ids(s, i + 1);
    if i == k {
        assert(open_ids(s, i)[0] == s[k].msg.id);
    } else {
        lemma_open_ids(s, i + 1, k);
        let p = choose|p: int| 0 <= p < rest.len() && rest[p] == s[k].msg.id;
        if s[i].stage.is_finished() {
            assert(open_ids(s, i)[p] == s[k].msg.id);
        } else {
            assert(open_ids(s, i)[p + 1] == s[k].msg.id);
        }
    }
}

/// The store after it did what `w` says, but for how many records it keeps.
pub open spec fn done(st: StoreState, w: Written) -> StoreState {
    match w {
        Written::Sent { m, why } => {
            let wrote = st.wrote(
                m.at,
                if why is Some {
                    "rejected"@
                } else {
                    "sent"@
                },
                sent_fields(m, why),
            );
            StoreState { records: put(wrote.records, sent_life(m, why)), ..wrote }
        },
        Written::Delivered { id, at } => st.delivered_as(id, at),
        Written::Read { id, at } => st.read_as(id, at),
        Written::Restored { id, by, at } => st.wrote(
            at,
            "restored"@,
            crate::observe::id_field(id) + ",\"by\":"@ + crate::json::json_string(by),
        ).with(id, |r: Life| Life { stage: Stage::Queued, ended: None, why: None, ..r }),
        Written::Dropped { id, reason, at } => st.dropped_for(id, reason, at),
        Written::Ended { id, end, ok, out, at } => st.ended_with(id, end, ok, out, at),
    }
}

/// Whatever a store does to a message is one line of the log, and that line
/// read back does it again. Of a message that ends or is dropped, nothing was
/// said before of how it ended.
pub proof fn lemma_log_tells_what_was_done(st: StoreState, w: Written)
    requires
        match w {
            Written::Dropped { id, .. } => known(st.records, id) ==> {
                let r = st.records[place(st.records, id, 0)];
                r.ok is None && r.output is None && !r.cut
            },
            Written::Ended { id, .. } => known(st.records, id) ==> {
                let r = st.records[place(st.records, id, 0)];
                r.output is None && !r.cut && r.why is None
            },
            _ => true,
        },
    ensures
        done(st, w).records == replayed(st.records, w.happening()),
        done(st, w).log == if st.on {
            st.log.push((crate::observe::day_file(w.at()), w.line()))
        } else {
            st.log
        },
{
    lemma_words();
    match w {
        Written::Ended { end, ok, .. } => {
            lemma_stage_names(end_stage(end, ok));
        },
        Written::Dropped { .. } => {
            lemma_stage_names(Stage::Dropped);
        },
        _ => {},
    }
}

} // verus!
