//! What messages, tasks and events look like when they are listed.
use vstd::prelude::*;

use crate::actor::{mode_name, Mail, Message, MsgId, Origin, Sender, WorkMode};
use crate::callers::address_text;
use crate::chooser::ClientId;
use crate::command::Target;
use crate::config::{decides, lines_of, split_lines};
use crate::display::{align_columns, cells_of_rows, padded};
use crate::json::{read_string, string_at};
use crate::observe::{last_of, lines_text, lives, opt_text, stage_name, Life, Record, Store};
use crate::pane::Pane;
use crate::server::{aimed, place_for, session_for, session_part, pane_id_part, Server};
use crate::session::SessionState;
use crate::tasks::{clock, dated, first_line, has_task, in_sending_order, listed_in_order, lives_at, of_task, summarized, words_it, TaskSummary};
use crate::text::{begins_with, bytes_of, chars_of, decimal, find_text, holds, join_texts, joined2, joined3, joined_by, number_text, push_decimal, texts_of, trim_end};
use crate::time::{elapsed, format_time, from_rfc3339, rfc3339_time, since, Time};

verus! {

/// A space and the name, where there is one.
pub open spec fn name_part(name: Option<Seq<char>>) -> Seq<char> {
    match name {
        Some(n) => " "@ + n,
        None => Seq::empty(),
    }
}

/// The line of a pane among its messages.
pub open spec fn inbox_head(ss: Seq<SessionState>, p: Pane) -> Seq<char> {
    let a = p.actor@;
    address_text(ss, p.id) + name_part(opt_text(p.actor.name)) + " ("@ + mode_name(a.mode) + (if a.mode is Normal {
        Seq::empty()
    } else if a.is_idle() {
        ", idle"@
    } else {
        ", busy"@
    }) + ") \u{b7} "@ + decimal(a.inbox.len()) + " queued"@ + (match a.current {
        Some(c) => " \u{b7} working on #"@ + decimal(c.id as nat),
        None => Seq::empty(),
    })
}

/// Who sent a message, in a list of an inbox.
pub open spec fn from_text(from: Origin) -> Seq<char> {
    match from {
        Origin::User => "user"@,
        Origin::Pane { address, name, mode, .. } => address + name_part(name) + " ("@ + mode_name(mode) + ")"@,
    }
}

/// The line of a message in an inbox of a pane in work mode `mode`.
pub open spec fn inbox_line(m: Mail, mode: WorkMode, waited: Seq<char>) -> Seq<char> {
    "  #"@ + decimal(m.id as nat) + "  from "@ + from_text(m.from) + "  waiting "@ + waited + "  "@ + first_line(m.text)
        + (if lines_of(m.text, 0).len() > 1 {
        " \u{2026}"@
    } else {
        Seq::empty()
    }) + (if m.via != mode {
        "  [sent for "@ + mode_name(m.via) + "]"@
    } else {
        Seq::empty()
    })
}

/// The lines of the first `k` messages of an inbox.
pub open spec fn inbox_lines(
    inbox: Seq<Message>,
    mode: WorkMode,
    now: Time,
    words: spec_fn(i64) -> Seq<char>,
    k: int,
) -> Seq<Seq<char>>
    decreases k,
{
    if k <= 0 {
        Seq::empty()
    } else {
        inbox_lines(inbox, mode, now, words, k - 1).push(
            inbox_line(inbox[k - 1]@, mode, words(elapsed(inbox[k - 1].at, now) as i64)),
        )
    }
}

/// A pane is left out of the list of all messages when it has none.
pub open spec fn has_none(p: Pane) -> bool {
    p.actor@.inbox.len() == 0 && p.actor@.current is None
}

/// The list of the messages of the first `k` panes.
pub open spec fn mail_lines(
    ss: Seq<SessionState>,
    ps: Seq<Pane>,
    all: bool,
    now: Time,
    words: spec_fn(i64) -> Seq<char>,
    k: int,
) -> Seq<Seq<char>>
    decreases k,
{
    if k <= 0 {
        Seq::empty()
    } else {
        let before = mail_lines(ss, ps, all, now, words, k - 1);
        let p = ps[k - 1];
        if all && has_none(p) {
            before
        } else {
            before.push(inbox_head(ss, p)) + inbox_lines(
                p.actor@.inbox,
                p.actor@.mode,
                now,
                words,
                p.actor@.inbox.len() as int,
            )
        }
    }
}

/// The messages of a pane have dates.
pub open spec fn mail_dated(p: Pane) -> bool {
    forall|i: int| 0 <= i < p.actor@.inbox.len() ==> (#[trigger] p.actor@.inbox[i]).at.valid()
}

fn push_name(out: &mut String, name: &Option<String>)
    ensures
        final(out)@ == old(out)@ + name_part(opt_text(*name)),
{
    match name {
        Some(n) => {
            out.push_str(" ");
            out.push_str(n.as_str());
            assert(out@ =~= old(out)@ + name_part(opt_text(*name)));
        },
        None => {
            assert(out@ =~= old(out)@ + name_part(opt_text(*name)));
        },
    }
}

fn line_of_message(m: &Message, mode: WorkMode, waited: &str) -> (out: String)
    ensures
        out@ == inbox_line(m@, mode, waited@),
{
    let mut out = joined3("  #", number_text(m.id).as_str(), "  from ");
    let ghost head = out@;
    match &m.from {
        Sender::User => out.push_str("user"),
        Sender::Pane { address, name, mode, .. } => {
            out.push_str(address.as_str());
            push_name(&mut out, name);
            out.push_str(" (");
            out.push_str(mode.as_str());
            out.push_str(")");
        },
    }
    assert(out@ =~= head + from_text(m@.from));
    out.push_str("  waiting ");
    out.push_str(waited);
    out.push_str("  ");
    let lines = split_lines(m.text.as_str());
    let ghost before = out@;
    if lines.len() > 0 {
        out.push_str(lines[0].as_str());
    }
    assert(out@ =~= before + first_line(m@.text));
    let ghost with_text = out@;
    if lines.len() > 1 {
        out.push_str(" \u{2026}");
    }
    assert(out@ =~= with_text + (if lines_of(m@.text, 0).len() > 1 {
        " \u{2026}"@
    } else {
        Seq::empty()
    }));
    let ghost most = out@;
    if m.via != mode {
        out.push_str("  [sent for ");
        out.push_str(m.via.as_str());
        out.push_str("]");
    }
    assert(out@ =~= most + (if m@.via != mode {
        "  [sent for "@ + mode_name(m@.via) + "]"@
    } else {
        Seq::empty()
    }));
    out
}

impl Server {
    fn head_of_inbox(&self, p: &Pane) -> (out: String)
        ensures
            out@ == inbox_head(self.states(), *p),
    {
        let mut out = self.address_of(p.id);
        push_name(&mut out, &p.actor.name);
        out.push_str(" (");
        out.push_str(p.actor.mode.as_str());
        let ghost head = out@;
        match p.actor.mode {
            WorkMode::Normal => {},
            _ => if p.actor.idle() {
                out.push_str(", idle");
            } else {
                out.push_str(", busy");
            },
        }
        assert(out@ =~= head + (if p.actor@.mode is Normal {
            Seq::empty()
        } else if p.actor@.is_idle() {
            ", idle"@
        } else {
            ", busy"@
        }));
        out.push_str(") \u{b7} ");
        push_decimal(&mut out, p.actor.inbox.len() as u64);
        out.push_str(" queued");
        let ghost most = out@;
        if let Some(c) = &p.actor.current {
            out.push_str(" \u{b7} working on #");
            push_decimal(&mut out, c.id);
        }
        assert(out@ =~= most + (match p.actor@.current {
            Some(c) => " \u{b7} working on #"@ + decimal(c.id as nat),
            None => Seq::empty(),
        }));
        out
    }

    fn push_inbox<F: Fn(i64) -> String>(&self, out: &mut Vec<String>, p: &Pane, say: &F, now: Time)
        requires
            now.valid(),
            mail_dated(*p),
            forall|ms: i64| #[trigger] call_requires(*say, (ms,)),
        ensures
            forall|words: spec_fn(i64) -> Seq<char>| #[trigger]
                words_it(*say, words) ==> texts_of(final(out)@) == texts_of(old(out)@).push(
                    inbox_head(self.states(), *p),
                ) + inbox_lines(p.actor@.inbox, p.actor@.mode, now, words, p.actor@.inbox.len() as int),
    {
        let ghost start = texts_of(out@);
        out.push(self.head_of_inbox(p));
        let ghost head = start.push(inbox_head(self.states(), *p));
        assert(texts_of(out@) =~= head);
        let mut k: usize = 0;
        proof {
            assert forall|words: spec_fn(i64) -> Seq<char>| #[trigger] words_it(*say, words) implies texts_of(out@) == head
                + inbox_lines(p.actor@.inbox, p.actor@.mode, now, words, 0) by {
                assert(head + Seq::<Seq<char>>::empty() =~= head);
            }
        }
        while k < p.actor.inbox.len()
            invariant
                k <= p.actor.inbox@.len(),
                now.valid(),
                mail_dated(*p),
                forall|ms: i64| #[trigger] call_requires(*say, (ms,)),
                forall|words: spec_fn(i64) -> Seq<char>| #[trigger]
                    words_it(*say, words) ==> texts_of(out@) == head + inbox_lines(
                        p.actor@.inbox,
                        p.actor@.mode,
                        now,
                        words,
                        k as int,
                    ),
            decreases p.actor.inbox@.len() - k,
        {
            let m = &p.actor.inbox[k];
            assert(p.actor@.inbox[k as int].at.valid());
            let ms: i64 = since(m.at, now);
            let waited = say(ms);
            let line = line_of_message(m, p.actor.mode, waited.as_str());
            let ghost before = texts_of(out@);
            let ghost text = line@;
            out.push(line);
            assert(texts_of(out@) =~= before.push(text));
            k = k + 1;
            proof {
                assert forall|words: spec_fn(i64) -> Seq<char>| #[trigger] words_it(*say, words) implies texts_of(out@)
                    == head + inbox_lines(p.actor@.inbox, p.actor@.mode, now, words, k as int) by {
                    let l = inbox_lines(p.actor@.inbox, p.actor@.mode, now, words, k - 1);
                    assert(call_ensures(*say, (ms,), waited));
                    assert((head + l).push(text) =~= head + l.push(text));
                }
            }
        }
    }

    /// `list-messages`: the inboxes of these panes, or of all that have
    /// something in them; `say` writes lengths of time.
    pub fn list_messages<F: Fn(i64) -> String>(&self, panes: &Vec<&Pane>, all: bool, say: &F, now: Time) -> (out: String)
        requires
            now.valid(),
            forall|i: int| 0 <= i < panes@.len() ==> mail_dated(*(#[trigger] panes@[i])),
            forall|ms: i64| #[trigger] call_requires(*say, (ms,)),
        ensures
            forall|words: spec_fn(i64) -> Seq<char>| #[trigger]
                words_it(*say, words) ==> ({
                    let lines = mail_lines(
                        self.states(),
                        crate::callers::pointed(panes@),
                        all,
                        now,
                        words,
                        panes@.len() as int,
                    );
                    out@ == joined_by(lines, "\n"@, lines.len() as int)
                }),
    {
        let mut out: Vec<String> = Vec::new();
        let ghost ps = crate::callers::pointed(panes@);
        let mut k: usize = 0;
        assert(texts_of(out@) =~= Seq::empty());
        while k < panes.len()
            invariant
                k <= panes@.len(),
                now.valid(),
                ps == crate::callers::pointed(panes@),
                forall|i: int| 0 <= i < panes@.len() ==> mail_dated(*(#[trigger] panes@[i])),
                forall|ms: i64| #[trigger] call_requires(*say, (ms,)),
                forall|words: spec_fn(i64) -> Seq<char>| #[trigger]
                    words_it(*say, words) ==> texts_of(out@) == mail_lines(self.states(), ps, all, now, words, k as int),
            decreases panes.len() - k,
        {
            let p = panes[k];
            assert(ps[k as int] == *p);
            if !(all && p.actor.inbox.len() == 0 && p.actor.current.is_none()) {
                self.push_inbox(&mut out, p, say, now);
            }
            k = k + 1;
        }
        join_texts(&out, "\n")
    }
}

/// What a step of a task did, in words.
pub open spec fn step_facts(r: Life, words: spec_fn(i64) -> Seq<char>) -> Seq<Seq<char>> {
    (match r.delivered {
        Some(d) => seq!["queued "@ + words(elapsed(r.msg.at, d) as i64)],
        None => Seq::empty(),
    }) + (match (r.delivered, r.ended) {
        (Some(d), Some(e)) => seq!["took "@ + words(elapsed(d, e) as i64)],
        _ => Seq::empty(),
    }) + (match r.ok {
        Some(ok) => seq![
            if ok {
                "ok=1"@
            } else {
                "ok=0"@
            },
        ],
        None => Seq::empty(),
    }) + (match r.output {
        Some(o) => seq![
            "output "@ + decimal(vstd::utf8::encode_utf8(o).len()) + "B"@ + (if r.cut {
                " (cut)"@
            } else {
                Seq::empty()
            }),
        ],
        None => Seq::empty(),
    })
}

/// Who sent a step of a task.
pub open spec fn step_sender(from: Origin) -> Seq<char> {
    match from {
        Origin::User => "user"@,
        Origin::Pane { address, name, .. } => match name {
            Some(n) => "%"@ + n,
            None => address,
        },
    }
}

/// The line of a step of a task.
pub open spec fn step_line(r: Life, words: spec_fn(i64) -> Seq<char>) -> Seq<char> {
    let facts = step_facts(r, words);
    clock(r.msg.at) + "  #"@ + decimal(r.msg.id as nat) + "  "@ + step_sender(r.msg.from) + " \u{2192} "@ + r.msg.to
        + " ("@ + mode_name(r.msg.via) + ")  "@ + stage_name(r.stage) + "  "@ + joined_by(
        facts,
        "  "@,
        facts.len() as int,
    ) + "  \""@ + first_line(r.msg.text) + "\""@
}

fn facts_of<F: Fn(i64) -> String>(r: &Record, say: &F) -> (out: Vec<String>)
    requires
        dated(r@),
        forall|ms: i64| #[trigger] call_requires(*say, (ms,)),
    ensures
        forall|words: spec_fn(i64) -> Seq<char>| #[trigger]
            words_it(*say, words) ==> texts_of(out@) == step_facts(r@, words),
{
    let mut out: Vec<String> = Vec::new();
    assert(texts_of(out@) =~= Seq::empty());
    if let Some(d) = r.delivered {
        let ms: i64 = since(r.msg.at, d);
        let w = say(ms);
        out.push(joined2("queued ", w.as_str()));
    }
    let ghost one = texts_of(out@);
    proof {
        assert forall|words: spec_fn(i64) -> Seq<char>| #[trigger] words_it(*say, words) implies one == (match r@.delivered {
            Some(d) => seq!["queued "@ + words(elapsed(r@.msg.at, d) as i64)],
            None => Seq::<Seq<char>>::empty(),
        }) by {
            assert(one =~= (match r@.delivered {
                Some(d) => seq!["queued "@ + words(elapsed(r@.msg.at, d) as i64)],
                None => Seq::<Seq<char>>::empty(),
            }));
        }
    }
    if let (Some(d), Some(e)) = (r.delivered, r.ended) {
        let ms: i64 = since(d, e);
        let w = say(ms);
        out.push(joined2("took ", w.as_str()));
    }
    let ghost two = texts_of(out@);
    proof {
        assert forall|words: spec_fn(i64) -> Seq<char>| #[trigger] words_it(*say, words) implies two == one + (match (
            r@.delivered,
            r@.ended,
        ) {
            (Some(d), Some(e)) => seq!["took "@ + words(elapsed(d, e) as i64)],
            _ => Seq::<Seq<char>>::empty(),
        }) by {
            assert(two =~= one + (match (r@.delivered, r@.ended) {
                (Some(d), Some(e)) => seq!["took "@ + words(elapsed(d, e) as i64)],
                _ => Seq::<Seq<char>>::empty(),
            }));
        }
    }
    if let Some(ok) = r.ok {
        out.push(if ok { "ok=1".to_owned() } else { "ok=0".to_owned() });
    }
    let ghost three = texts_of(out@);
    assert(three =~= two + (match r@.ok {
        Some(ok) => seq![
            if ok {
                "ok=1"@
            } else {
                "ok=0"@
            },
        ],
        None => Seq::<Seq<char>>::empty(),
    }));
    if let Some(o) = &r.output {
        let mut t = joined3("output ", number_text(bytes_of(o.as_str()).len() as u64).as_str(), "B");
        let ghost head = t@;
        if r.cut {
            t.push_str(" (cut)");
        }
        assert(t@ =~= head + (if r@.cut {
            " (cut)"@
        } else {
            Seq::empty()
        }));
        out.push(t);
    }
    assert(texts_of(out@) =~= three + (match r@.output {
        Some(o) => seq![
            "output "@ + decimal(vstd::utf8::encode_utf8(o).len()) + "B"@ + (if r@.cut {
                " (cut)"@
            } else {
                Seq::empty()
            }),
        ],
        None => Seq::<Seq<char>>::empty(),
    }));
    out
}

fn line_of_step<F: Fn(i64) -> String>(r: &Record, say: &F) -> (out: String)
    requires
        dated(r@),
        forall|ms: i64| #[trigger] call_requires(*say, (ms,)),
    ensures
        forall|words: spec_fn(i64) -> Seq<char>| #[trigger] words_it(*say, words) ==> out@ == step_line(r@, words),
{
    let mut out = format_time(r.msg.at, "%H:%M:%S");
    out.push_str("  #");
    push_decimal(&mut out, r.msg.id);
    out.push_str("  ");
    let ghost head = out@;
    match &r.msg.from {
        Sender::User => out.push_str("user"),
        Sender::Pane { address, name, .. } => match name {
            Some(n) => {
                out.push_str("%");
                out.push_str(n.as_str());
            },
            None => out.push_str(address.as_str()),
        },
    }
    assert(out@ =~= head + step_sender(r@.msg.from));
    out.push_str(" \u{2192} ");
    out.push_str(r.msg.to.as_str());
    out.push_str(" (");
    out.push_str(r.msg.via.as_str());
    out.push_str(")  ");
    out.push_str(r.stage.as_str());
    out.push_str("  ");
    let facts = facts_of(r, say);
    out.push_str(join_texts(&facts, "  ").as_str());
    out.push_str("  \"");
    let lines = split_lines(r.msg.text.as_str());
    let ghost before = out@;
    if lines.len() > 0 {
        out.push_str(lines[0].as_str());
    }
    assert(out@ =~= before + first_line(r@.msg.text));
    out.push_str("\"");
    out
}

/// The lines of the steps of a task.
pub open spec fn step_lines(steps: Seq<Life>, words: spec_fn(i64) -> Seq<char>) -> Seq<Seq<char>> {
    Seq::new(steps.len(), |i: int| step_line(steps[i], words))
}

/// `steps` are the records of a task in the order they were sent.
pub open spec fn are_steps(steps: Seq<Life>, records: Seq<Life>, task: MsgId) -> bool {
    in_sending_order(steps) && steps.to_multiset() == of_task(records, task).to_multiset()
}

proof fn lemma_within(records: Seq<Life>, task: MsgId)
    ensures
        forall|i: int|
            0 <= i < of_task(records, task).len() ==> records.contains(#[trigger] of_task(records, task)[i]),
    decreases records.len(),
{
    reveal(Seq::filter);
    if records.len() > 0 {
        let head = records.drop_last();
        let all = of_task(records, task);
        lemma_within(head, task);
        assert forall|i: int| 0 <= i < all.len() implies records.contains(#[trigger] all[i]) by {
            if i < of_task(head, task).len() {
                let k = choose|k: int| 0 <= k < head.len() && head[k] == of_task(head, task)[i];
                assert(records[k] == all[i]);
            } else {
                assert(records[records.len() - 1] == all[i]);
            }
        }
    }
}

proof fn lemma_steps(steps: Seq<Life>, records: Seq<Life>, task: MsgId)
    requires
        steps.to_multiset() == of_task(records, task).to_multiset(),
    ensures
        steps.len() == of_task(records, task).len(),
        forall|i: int| 0 <= i < steps.len() ==> records.contains(#[trigger] steps[i]),
{
    broadcast use vstd::seq_lib::group_to_multiset_ensures;

    let all = of_task(records, task);
    lemma_within(records, task);
    assert(steps.to_multiset().len() == all.to_multiset().len());
    assert forall|i: int| 0 <= i < steps.len() implies records.contains(#[trigger] steps[i]) by {
        assert(steps.contains(steps[i]));
        assert(all.to_multiset().count(steps[i]) > 0);
        assert(all.contains(steps[i]));
        let k = choose|k: int| 0 <= k < all.len() && all[k] == steps[i];
        assert(records.contains(all[k]));
    }
}

/// `show-task`: the steps of a task, a line each.
pub fn show_task<F: Fn(i64) -> String>(store: &Store, task: MsgId, say: &F) -> (r: Result<String, String>)
    requires
        store.wf(),
        forall|i: int| 0 <= i < store@.records.len() ==> dated(#[trigger] store@.records[i]),
        forall|ms: i64| #[trigger] call_requires(*say, (ms,)),
    ensures
        of_task(store@.records, task).len() == 0 <==> r is Err,
        r is Err ==> r->Err_0@ == "no task #"@ + decimal(task as nat),
        forall|words: spec_fn(i64) -> Seq<char>| #[trigger]
            words_it(*say, words) && r is Ok ==> exists|steps: Seq<Life>| #[trigger]
                are_steps(steps, store@.records, task) && r->Ok_0@ == joined_by(
                    step_lines(steps, words),
                    "\n"@,
                    steps.len() as int,
                ),
{
    let steps = store.task(task);
    let ghost ls = lives_at(steps@);
    proof {
        lemma_steps(ls, store@.records, task);
    }
    if steps.len() == 0 {
        return Err(joined2("no task #", number_text(task).as_str()));
    }
    let mut out: Vec<String> = Vec::new();
    let mut k: usize = 0;
    while k < steps.len()
        invariant
            k <= steps@.len(),
            k == out@.len(),
            ls == lives_at(steps@),
            forall|i: int| 0 <= i < ls.len() ==> dated(#[trigger] ls[i]),
            forall|ms: i64| #[trigger] call_requires(*say, (ms,)),
            forall|words: spec_fn(i64) -> Seq<char>| #[trigger]
                words_it(*say, words) ==> forall|i: int| 0 <= i < k ==> (#[trigger] out@[i])@ == step_line(ls[i], words),
        decreases steps.len() - k,
    {
        assert(ls[k as int] == steps@[k as int]@);
        out.push(line_of_step(steps[k], say));
        k = k + 1;
    }
    let text = join_texts(&out, "\n");
    proof {
        assert(are_steps(ls, store@.records, task));
        assert forall|words: spec_fn(i64) -> Seq<char>| #[trigger] words_it(*say, words) implies exists|steps: Seq<Life>|
            #[trigger] are_steps(steps, store@.records, task) && text@ == joined_by(
                step_lines(steps, words),
                "\n"@,
                steps.len() as int,
            ) by {
            assert(texts_of(out@) =~= step_lines(ls, words));
        }
    }
    Ok(text)
}

/// A message of the record goes to or comes from where `p` begins addresses.
pub open spec fn touches(r: Life, p: Seq<char>) -> bool {
    p.is_prefix_of(r.msg.to) || match r.msg.from {
        Origin::Pane { address, .. } => p.is_prefix_of(address),
        Origin::User => false,
    }
}

/// A record of the task, among the first `k`, touches `p`.
pub open spec fn task_touches(records: Seq<Life>, task: MsgId, p: Seq<char>, k: int) -> bool
    decreases k,
{
    k > 0 && ((records[k - 1].msg.task == task && touches(records[k - 1], p)) || task_touches(records, task, p, k - 1))
}

/// The cells of a task in the list of tasks.
pub open spec fn task_row(t: TaskSummary, words: spec_fn(i64) -> Seq<char>) -> Seq<Seq<char>> {
    seq![
        "#"@ + decimal(t.task as nat),
        t.status@,
        match t.at {
            Some(a) => a@,
            None => "-"@,
        },
        words(t.took),
        decimal(t.steps as nat),
        t.title@,
    ]
}

/// The words above the list of tasks.
pub open spec fn task_header() -> Seq<Seq<char>> {
    seq!["TASK"@, "STATUS"@, "AT"@, "TOOK"@, "STEPS"@, "TITLE"@]
}

/// The rows of the first `k` tasks, of those that touch `only` when that is
/// given.
pub open spec fn task_rows(
    ts: Seq<TaskSummary>,
    records: Seq<Life>,
    only: Option<Seq<char>>,
    words: spec_fn(i64) -> Seq<char>,
    k: int,
) -> Seq<Seq<Seq<char>>>
    decreases k,
{
    if k <= 0 {
        seq![task_header()]
    } else {
        let before = task_rows(ts, records, only, words, k - 1);
        let shown = match only {
            Some(p) => task_touches(records, ts[k - 1].task, p, records.len() as int),
            None => true,
        };
        if shown {
            before.push(task_row(ts[k - 1], words))
        } else {
            before
        }
    }
}

/// Rows as lines, or nothing when there is only a header.
pub open spec fn rows_text(rows: Seq<Seq<Seq<char>>>) -> Seq<char> {
    if rows.len() <= 1 {
        Seq::empty()
    } else {
        let lines = Seq::new(rows.len(), |i: int| trim_end(padded(rows, i, rows[i].len())));
        joined_by(lines, "\n"@, lines.len() as int)
    }
}

/// `ts` are the tasks of the records, as they are listed.
pub open spec fn are_tasks(ts: Seq<TaskSummary>, records: Seq<Life>, now: Time) -> bool {
    &&& listed_in_order(ts)
    &&& forall|k: int|
        0 <= k < ts.len() ==> summarized(#[trigger] ts[k], of_task(records, ts[k].task), ts[k].task, now)
    &&& forall|task: MsgId|
        #[trigger] has_task(records, task, records.len() as int) <==> exists|k: int|
            0 <= k < ts.len() && (#[trigger] ts[k]).task == task
}

fn touches_any(store: &Store, task: MsgId, p: &Vec<char>) -> (b: bool)
    ensures
        b == task_touches(store@.records, task, p@, store@.records.len() as int),
{
    let all = store.records();
    let ghost rs = store@.records;
    let mut k: usize = all.len();
    while k > 0
        invariant
            k <= all@.len(),
            rs == store@.records,
            rs == lives(all@),
            task_touches(rs, task, p@, rs.len() as int) == task_touches(rs, task, p@, k as int),
        decreases k,
    {
        let r = &all[k - 1];
        assert(rs[k - 1] == r@);
        if r.msg.task == task {
            let to = chars_of(r.msg.to.as_str());
            if begins_with(&to, p) {
                return true;
            }
            if let Sender::Pane { address, .. } = &r.msg.from {
                let a = chars_of(address.as_str());
                if begins_with(&a, p) {
                    return true;
                }
            }
        }
        k = k - 1;
    }
    false
}

fn row_of_task(t: TaskSummary, took: String) -> (row: Vec<String>)
    ensures
        forall|words: spec_fn(i64) -> Seq<char>|
            took@ == #[trigger] words(t.took) ==> texts_of(row@) == task_row(t, words),
{
    let ghost t0 = t;
    let ghost w = took@;
    let mut row: Vec<String> = Vec::new();
    row.push(joined2("#", number_text(t.task).as_str()));
    row.push(t.status.to_owned());
    row.push(
        match t.at {
            Some(a) => a,
            None => "-".to_owned(),
        },
    );
    row.push(took);
    row.push(number_text(t.steps as u64));
    row.push(t.title);
    proof {
        assert forall|words: spec_fn(i64) -> Seq<char>| w == #[trigger] words(t0.took) implies texts_of(row@)
            == task_row(t0, words) by {
            assert(texts_of(row@) =~= task_row(t0, words));
        }
    }
    row
}

fn header_of_tasks() -> (row: Vec<String>)
    ensures
        texts_of(row@) == task_header(),
{
    let mut row: Vec<String> = Vec::new();
    row.push("TASK".to_owned());
    row.push("STATUS".to_owned());
    row.push("AT".to_owned());
    row.push("TOOK".to_owned());
    row.push("STEPS".to_owned());
    row.push("TITLE".to_owned());
    assert(texts_of(row@) =~= task_header());
    row
}

fn text_of_rows(rows: &Vec<Vec<String>>) -> (out: String)
    ensures
        out@ == rows_text(cells_of_rows(rows@)),
{
    if rows.len() <= 1 {
        let out = String::new();
        assert(out@ =~= Seq::<char>::empty());
        return out;
    }
    let lines = align_columns(rows.as_slice());
    let ghost cells = cells_of_rows(rows@);
    proof {
        assert forall|i: int| 0 <= i < cells.len() implies (#[trigger] cells[i]).len() == rows@[i]@.len() by {}
        assert(texts_of(lines@) =~= Seq::new(cells.len(), |i: int| trim_end(padded(cells, i, cells[i].len()))));
    }
    join_texts(&lines, "\n")
}

/// `list-tasks`: a row for every task, newest first; of those that touch a
/// session, when the beginning of its addresses is given.
#[verifier::spinoff_prover]
#[verifier::rlimit(40)]
pub fn list_tasks<F: Fn(i64) -> String>(store: &Store, only: Option<&str>, say: &F, now: Time) -> (out: String)
    requires
        store.wf(),
        now.valid(),
        forall|i: int| 0 <= i < store@.records.len() ==> dated(#[trigger] store@.records[i]),
        forall|ms: i64| #[trigger] call_requires(*say, (ms,)),
    ensures
        forall|words: spec_fn(i64) -> Seq<char>| #[trigger]
            words_it(*say, words) ==> exists|ts: Seq<TaskSummary>| #[trigger]
                are_tasks(ts, store@.records, now) && out@ == rows_text(
                    task_rows(
                        ts,
                        store@.records,
                        match only {
                            Some(p) => Some(p@),
                            None => None,
                        },
                        words,
                        ts.len() as int,
                    ),
                ),
{
    let ghost prefix: Option<Seq<char>> = match only {
        Some(p) => Some(p@),
        None => None,
    };
    let mut tasks = store.tasks(now);
    let ghost ts = tasks@;
    let ghost rs = store@.records;
    let p: Vec<char> = match only {
        Some(p) => chars_of(p),
        None => Vec::new(),
    };
    let some: bool = only.is_some();
    let mut rows: Vec<Vec<String>> = Vec::new();
    rows.push(header_of_tasks());
    assert(cells_of_rows(rows@) =~= seq![task_header()]);
    let ghost mut k: int = 0;
    assert(ts.skip(0) =~= ts);
    while tasks.len() > 0
        invariant
            0 <= k <= ts.len(),
            tasks@ == ts.skip(k),
            rs == store@.records,
            some == prefix is Some,
            some ==> prefix == Some(p@),
            forall|ms: i64| #[trigger] call_requires(*say, (ms,)),
            forall|words: spec_fn(i64) -> Seq<char>| #[trigger]
                words_it(*say, words) ==> cells_of_rows(rows@) == task_rows(ts, rs, prefix, words, k),
        decreases tasks@.len(),
    {
        let t = tasks.remove(0);
        assert(t == ts[k]);
        assert(tasks@ =~= ts.skip(k + 1));
        let shown: bool = !some || touches_any(store, t.task, &p);
        let ghost before = cells_of_rows(rows@);
        if shown {
            let took = say(t.took);
            let row = row_of_task(t, took);
            let ghost cells = texts_of(row@);
            rows.push(row);
            assert(cells_of_rows(rows@) =~= before.push(cells));
            proof {
                assert forall|words: spec_fn(i64) -> Seq<char>| #[trigger] words_it(*say, words) implies cells
                    == task_row(ts[k], words) by {
                    assert(call_ensures(*say, (ts[k].took,), took));
                    assert(took@ == words(ts[k].took));
                }
            }
        }
        proof {
            k = k + 1;
        }
    }
    let out = text_of_rows(&rows);
    proof {
        assert(are_tasks(ts, rs, now));
    }
    out
}

/// The time an event line says, in milliseconds.
pub open spec fn event_time(line: Seq<char>) -> Option<i64> {
    match string_at(line, "/at"@) {
        Some(t) => match rfc3339_time(t) {
            Some((ms, _)) => Some(ms),
            None => None,
        },
        None => None,
    }
}

/// An event line is listed: it holds `about`, and is not from before
/// `cutoff`.
pub open spec fn is_listed(line: Seq<char>, about: Option<Seq<char>>, cutoff: Option<i64>) -> bool {
    &&& match about {
        Some(a) => holds(line, a),
        None => true,
    }
    &&& match (cutoff, event_time(line)) {
        (Some(c), Some(ms)) => ms >= c,
        _ => true,
    }
}

fn lists_event(line: &str, about: &Option<String>, cutoff: Option<i64>) -> (b: bool)
    ensures
        b == is_listed(line@, opt_text(*about), cutoff),
{
    if let Some(a) = about {
        let l = chars_of(line);
        let part = chars_of(a.as_str());
        if find_text(&l, &part).is_none() {
            return false;
        }
    }
    match cutoff {
        None => true,
        Some(c) => match read_string(line, "/at") {
            None => true,
            Some(t) => match from_rfc3339(t.as_str()) {
                None => true,
                Some(at) => at.ms >= c,
            },
        },
    }
}

/// The last `n` event lines in memory about something, not from before
/// `cutoff` (in milliseconds): what a watcher asks every second.
pub fn recent_events(store: &Store, n: usize, about: &Option<String>, cutoff: Option<i64>) -> (out: String)
    ensures
        ({
            let lines = last_of(
                store@.recent.filter(|l: Seq<char>| is_listed(l, opt_text(*about), cutoff)),
                n as int,
            );
            out@ == joined_by(lines, "\n"@, lines.len() as int)
        }),
{
    let keep = |l: &str| -> (b: bool)
        ensures
            b == is_listed(l@, opt_text(*about), cutoff),
        { lists_event(l, about, cutoff) };
    let lines = store.recent(n, &keep);
    proof {
        let truth = |l: Seq<char>| is_listed(l, opt_text(*about), cutoff);
        assert(decides(keep, truth));
        assert(texts_of(lines@) =~= lines_text(lines@));
    }
    join_texts(&lines, "\n")
}

/// The lines of the first `k` lines of a file that are listed.
pub open spec fn listed_lines(lines: Seq<Seq<char>>, about: Option<Seq<char>>, cutoff: Option<i64>, k: int) -> Seq<
    Seq<char>,
>
    decreases k,
{
    if k <= 0 {
        Seq::empty()
    } else if is_listed(lines[k - 1], about, cutoff) {
        listed_lines(lines, about, cutoff, k - 1).push(lines[k - 1])
    } else {
        listed_lines(lines, about, cutoff, k - 1)
    }
}

/// The lines of the first `k` files that are listed.
pub open spec fn listed_in_files(files: Seq<Seq<char>>, about: Option<Seq<char>>, cutoff: Option<i64>, k: int) -> Seq<
    Seq<char>,
>
    decreases k,
{
    if k <= 0 {
        Seq::empty()
    } else {
        let lines = lines_of(files[k - 1], 0);
        listed_in_files(files, about, cutoff, k - 1) + listed_lines(lines, about, cutoff, lines.len() as int)
    }
}

/// The lines of the event log's files about something, not from before
/// `cutoff`.
pub fn events_in_files(files: &Vec<String>, about: &Option<String>, cutoff: Option<i64>) -> (out: String)
    ensures
        ({
            let lines = listed_in_files(texts_of(files@), opt_text(*about), cutoff, files@.len() as int);
            out@ == joined_by(lines, "\n"@, lines.len() as int)
        }),
{
    let mut out: Vec<String> = Vec::new();
    let ghost fs = texts_of(files@);
    let mut f: usize = 0;
    assert(texts_of(out@) =~= Seq::empty());
    while f < files.len()
        invariant
            f <= files@.len(),
            fs == texts_of(files@),
            texts_of(out@) == listed_in_files(fs, opt_text(*about), cutoff, f as int),
        decreases files.len() - f,
    {
        let lines = split_lines(files[f].as_str());
        let ghost ls = lines_of(fs[f as int], 0);
        let ghost head = texts_of(out@);
        let mut k: usize = 0;
        assert(texts_of(out@) =~= head + listed_lines(ls, opt_text(*about), cutoff, 0));
        while k < lines.len()
            invariant
                k <= lines@.len() == ls.len(),
                forall|i: int| 0 <= i < lines@.len() ==> (#[trigger] lines@[i])@ == ls[i],
                texts_of(out@) == head + listed_lines(ls, opt_text(*about), cutoff, k as int),
            decreases lines.len() - k,
        {
            let ghost before = texts_of(out@);
            let ghost so_far = listed_lines(ls, opt_text(*about), cutoff, k as int);
            if lists_event(lines[k].as_str(), about, cutoff) {
                out.push(lines[k].as_str().to_owned());
                assert(texts_of(out@) =~= before.push(ls[k as int]));
                assert(before.push(ls[k as int]) =~= head + so_far.push(ls[k as int]));
            }
            k = k + 1;
        }
        f = f + 1;
    }
    join_texts(&out, "\n")
}

/// How many days before today an event list of so many seconds goes back.
pub fn days_back(since: Option<u64>) -> (n: u64)
    ensures
        n == match since {
            Some(s) => s / 86_400 + 1,
            None => 0,
        },
{
    match since {
        Some(s) => s / 86_400 + 1,
        None => 0,
    }
}

impl Server {
    /// The beginning of the addresses of a session, for filtering by it.
    pub fn session_prefix(&self, target: Option<&Target>, cid: Option<ClientId>) -> (r: Result<Option<String>, String>)
        requires
            self.wf(),
        ensures
            match aimed(target) {
                None => r is Ok && r->Ok_0 is None,
                Some(t) => match session_for(
                    self.states(),
                    self.clients@,
                    pane_id_part(aimed(target)),
                    session_part(aimed(target)),
                    cid,
                ) {
                    Ok(i) => r is Ok && opt_text(r->Ok_0) == Some(
                        "$"@ + decimal(self.states()[i].id as nat) + ":"@,
                    ),
                    Err(e) => r is Err && r->Err_0@ == e,
                },
            },
    {
        match target {
            None => Ok(None),
            Some(_) => match self.find_session(target, cid) {
                Err(e) => Err(e),
                Ok(i) => {
                    assert(self.states()[i as int] == self.sessions@[i as int]@);
                    Ok(Some(joined3("$", number_text(self.sessions[i].id as u64).as_str(), ":")))
                },
            },
        }
    }

    /// What the events a target is about hold: the address of a pane, or the
    /// beginning of a session's addresses.
    pub fn events_about(&self, target: Option<&Target>, cid: Option<ClientId>) -> (r: Result<Option<String>, String>)
        requires
            self.wf(),
        ensures
            match aimed(target) {
                None => r is Ok && r->Ok_0 is None,
                Some(t) => if t.pane_id is Some || t.pane is Some {
                    match place_for(self.states(), self.clients@, self.opts, aimed(target), cid) {
                        Ok(p) => r is Ok && opt_text(r->Ok_0) == Some(address_text(self.states(), p.pane)),
                        Err(e) => r is Err && r->Err_0@ == e,
                    }
                } else {
                    match session_for(
                        self.states(),
                        self.clients@,
                        pane_id_part(aimed(target)),
                        session_part(aimed(target)),
                        cid,
                    ) {
                        Ok(i) => r is Ok && opt_text(r->Ok_0) == Some(
                            "$"@ + decimal(self.states()[i].id as nat) + ":"@,
                        ),
                        Err(e) => r is Err && r->Err_0@ == e,
                    }
                },
            },
    {
        match target {
            None => Ok(None),
            Some(t) => {
                if t.pane_id.is_some() || t.pane.is_some() {
                    match self.find_place(target, cid) {
                        Ok((_, _, p)) => Ok(Some(self.address_of(p))),
                        Err(e) => Err(e),
                    }
                } else {
                    self.session_prefix(target, cid)
                }
            },
        }
    }
}

} // verus!
