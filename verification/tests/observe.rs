use wmux::actor::{End, Message, MsgId, Sender, WorkMode};
use wmux::message_lists::{days_back, events_in_files, list_tasks, recent_events, show_task};
use wmux::observe::{Stage, Store, RECENT};
use wmux::time::Time;

const MINUTE: i64 = 60_000;

fn time(ms: i64) -> Time {
    Time { ms, offset: 8 * 3600 }
}

fn noon() -> Time {
    time(1_790_000_000_000)
}

fn later(ms: i64) -> Time {
    time(1_790_000_000_000 + ms)
}

fn say(ms: i64) -> String {
    format!("{ms}ms")
}

fn msg(id: MsgId, task: MsgId, text: &str) -> Message {
    Message {
        id,
        task,
        from: Sender::Pane { id: 3, address: "$1:@1.%3".into(), name: Some("lead".into()), mode: WorkMode::Ai },
        to: "$1:@2.%9".into(),
        via: WorkMode::Shell,
        hop: 1,
        re: Some(4),
        text: text.into(),
        at: noon(),
    }
}

fn logging() -> Store {
    Store { on: true, ..Default::default() }
}

#[test]
fn a_message_goes_through_its_stages() {
    let mut s = Store::default();
    s.sent(&msg(5, 5, "cargo test\nsecond line"), None);
    assert_eq!(s.get(5).unwrap().stage, Stage::Queued);
    s.delivered(5, noon());
    assert_eq!(s.get(5).unwrap().stage, Stage::Delivered);
    s.ended(5, End::Done, Some(false), Some(("error: 1 failed".into(), false)), noon());
    let r = s.get(5).unwrap();
    assert_eq!((r.stage, r.ok, r.output.as_deref()), (Stage::Failed, Some(false), Some("error: 1 failed")));
    let t = s.trace(5, &say).unwrap();
    assert!(t.starts_with("#5 failed · task #5 · hop 1"), "{t}");
    assert!(t.contains("error: 1 failed") && t.contains("cargo test"), "{t}");
    assert_eq!(s.last_id(), 5);
}

#[test]
fn the_last_lines_come_from_memory() {
    let mut s = logging();
    for i in 1..=RECENT as u64 + 10 {
        s.delivered(i, noon());
    }
    assert_eq!(s.recent.len(), RECENT, "bounded");
    let last = s.recent(3, &|_: &str| true);
    assert_eq!(last.len(), 3);
    assert!(last[2].contains(&format!("\"id\":{}", RECENT + 10)), "newest last: {last:?}");
    assert!(s.recent(10, &|l: &str| l.contains("\"id\":5}")).is_empty(), "the oldest have left memory");
    assert_eq!(s.recent(10, &|l: &str| l.contains("\"id\":42}")).len(), 1, "a filter looks further back");
    // Off: nothing is kept, in memory or on disk.
    s.on = false;
    let written = s.log.len();
    s.delivered(1, noon());
    assert_eq!(s.recent(1, &|_: &str| true), last[2..]);
    assert_eq!(s.log.len(), written);
}

#[test]
fn tasks_group_the_chain_and_say_how_it_went() {
    let mut s = Store::default();
    s.sent(&msg(1, 1, "run the tests\nand report"), None);
    s.delivered(1, noon());
    s.sent(&msg(2, 1, "cargo test"), None);
    s.sent(&msg(3, 3, "other"), Some("inbox is full"));
    let tasks = s.tasks(noon());
    let one = tasks.iter().find(|t| t.task == 1).unwrap();
    assert_eq!((one.status, one.steps, one.title.as_str()), ("running", 2, "run the tests"));
    assert_eq!(tasks.iter().find(|t| t.task == 3).unwrap().status, "failed");
    s.ended(1, End::Done, None, None, noon());
    s.dropped(2, "deleted by user", noon());
    assert_eq!(s.tasks(noon()).iter().find(|t| t.task == 1).unwrap().status, "cancelled");
    assert_eq!(s.task(1).iter().map(|r| r.msg.id).collect::<Vec<_>>(), [1, 2]);
}

/// The lines written to the day files, as one text.
fn written(s: &Store) -> Vec<String> {
    let mut files: Vec<(String, String)> = Vec::new();
    for l in &s.log {
        match files.iter_mut().find(|(f, _)| *f == l.file) {
            Some((_, text)) => {
                text.push_str(&l.line);
                text.push('\n');
            }
            None => files.push((l.file.clone(), format!("{}\n", l.line))),
        }
    }
    files.into_iter().map(|(_, text)| text).collect()
}

#[test]
fn the_files_bring_it_back_and_what_was_open_is_dropped() {
    let mut s = logging();
    s.sent(&msg(7, 7, "done one"), None);
    s.delivered(7, noon());
    s.ended(7, End::Done, Some(true), Some(("ok".into(), false)), noon());
    s.sent(&msg(8, 7, "still queued"), None);
    s.sent(&msg(9, 9, "refused"), Some("hop limit 8"));

    let mut back = logging();
    assert_eq!(back.load(&written(&s), later(MINUTE)), 1, "the queued one is gone with the old server");
    assert_eq!(back.last_id(), 9);
    let r = back.get(7).unwrap();
    assert_eq!((r.stage, r.ok, r.output.as_deref()), (Stage::Done, Some(true), Some("ok")));
    assert_eq!(r.msg, s.get(7).unwrap().msg.clone(), "the envelope reads back as the message");
    assert_eq!(back.get(8).unwrap().stage, Stage::Dropped);
    assert_eq!(back.get(8).unwrap().why.as_deref(), Some("the server restarted"));
    assert_eq!(back.get(9).unwrap().stage, Stage::Rejected);
}

#[test]
fn an_event_line_has_its_time_and_its_day_file() {
    let mut s = logging();
    s.delivered(3, time(0));
    assert_eq!(s.log[0].file, "1970-01-01.jsonl");
    assert_eq!(s.log[0].line, "{\"at\":\"1970-01-01T08:00:00.000+08:00\",\"ev\":\"delivered\",\"id\":3}");
    s.read(4, time(16 * 3_600_000));
    assert_eq!(s.log[1].file, "1970-01-02.jsonl", "the day where the offset puts it");
    s.pane("$1:@2.%9", "idle", "", time(0));
    assert!(s.log[2].line.ends_with("\"ev\":\"pane\",\"pane\":\"$1:@2.%9\",\"what\":\"idle\"}"), "{}", s.log[2].line);
}

#[test]
fn a_trace_tells_a_message_line_by_line() {
    let mut s = Store::default();
    s.sent(&msg(5, 5, "ls"), None);
    s.delivered(5, later(1_000));
    s.ended(5, End::Done, Some(true), Some(("a\nb".into(), true)), later(3_500));
    let t = s.trace(5, &say).unwrap();
    let lines: Vec<&str> = t.lines().collect();
    assert_eq!(lines[0], "#5 done · task #5 · hop 1");
    assert!(lines[1].starts_with("{\"keepane\":1,\"id\":5,"));
    assert_eq!(lines[2].len(), "  sent       ".len() + 8);
    assert!(lines[3].starts_with("  delivered  ") && lines[3].ends_with("  (queued 1000ms)"), "{}", lines[3]);
    assert!(lines[4].starts_with("  done       ") && lines[4].ends_with("  (took 2500ms)"), "{}", lines[4]);
    assert_eq!(&lines[5..], ["text:", "ls", "output (cut):", "a", "b"]);
    assert_eq!(s.trace(6, &say), None);
}

#[test]
fn tasks_are_listed_in_columns_and_by_session() {
    let mut s = Store::default();
    assert_eq!(list_tasks(&s, None, &say, noon()), "");
    s.sent(&msg(1, 1, "build\nall"), None);
    let mut other = msg(2, 2, "elsewhere");
    other.from = Sender::User;
    other.to = "$7:@8.%20".into();
    other.at = later(1);
    s.sent(&other, None);
    let all = list_tasks(&s, None, &say, later(11));
    let lines: Vec<&str> = all.lines().collect();
    assert_eq!(lines[0].split_whitespace().collect::<Vec<_>>(), ["TASK", "STATUS", "AT", "TOOK", "STEPS", "TITLE"]);
    assert!(lines[1].starts_with("#2 ") && lines[1].ends_with("elsewhere"), "newest first: {}", lines[1]);
    assert!(lines[2].contains("11ms") && lines[2].ends_with("build"), "{}", lines[2]);
    let some = list_tasks(&s, Some("$7:"), &say, later(11));
    assert_eq!(some.lines().count(), 2);
    assert!(some.contains("elsewhere"));
    assert_eq!(list_tasks(&s, Some("$9:"), &say, later(11)), "");
}

#[test]
fn a_task_is_shown_step_by_step() {
    let mut s = Store::default();
    assert_eq!(show_task(&s, 1, &say), Err("no task #1".to_string()));
    s.sent(&msg(1, 1, "cargo test\nplease"), None);
    s.delivered(1, later(200));
    s.ended(1, End::Done, Some(false), Some(("no".into(), true)), later(700));
    let t = show_task(&s, 1, &say).unwrap();
    assert!(
        t.ends_with(
            "  #1  %lead → $1:@2.%9 (shell)  failed  queued 200ms  took 500ms  ok=0  output 2B (cut)  \"cargo test\""
        ),
        "{t}"
    );
}

#[test]
fn events_are_listed_by_what_they_are_about_and_when() {
    let mut s = logging();
    s.pane("$1:@2.%9", "idle", "", noon());
    s.pane("$2:@5.%7", "idle", "", later(MINUTE));
    let about = Some("$2:".to_string());
    assert_eq!(recent_events(&s, 10, &about, None).lines().count(), 1);
    assert_eq!(recent_events(&s, 10, &None, Some(noon().ms + 1)).lines().count(), 1);
    assert_eq!(recent_events(&s, 1, &None, None), s.log[1].line);
    let files = written(&s);
    assert_eq!(events_in_files(&files, &None, Some(noon().ms)).lines().count(), 2);
    assert_eq!(events_in_files(&files, &about, None), s.log[1].line);
    // A line with no time of its own is listed whatever the time.
    assert_eq!(events_in_files(&vec!["odd\n".into()], &None, Some(i64::MAX)), "odd");
    assert_eq!((days_back(None), days_back(Some(86_399)), days_back(Some(86_400))), (0, 1, 2));
}

#[test]
fn a_message_restored_or_moved_is_on_record() {
    let mut s = logging();
    s.sent(&msg(4, 4, "x"), None);
    s.dropped(4, "deleted by user", noon());
    assert_eq!(s.get(4).unwrap().stage, Stage::Dropped);
    s.restored(4, "user", noon());
    let r = s.get(4).unwrap();
    assert_eq!((r.stage, r.ended, r.why.as_deref()), (Stage::Queued, None, None));
    s.moved(4, 2, 0, "user", noon());
    assert!(s.log.last().unwrap().line.ends_with("\"ev\":\"moved\",\"id\":4,\"from\":2,\"to\":0,\"by\":\"user\"}"));
    s.read(4, noon());
    assert_eq!(s.get(4).unwrap().stage, Stage::Read);
}

#[test]
fn stages_are_written_and_read_back() {
    for st in [
        Stage::Queued,
        Stage::Delivered,
        Stage::Read,
        Stage::Done,
        Stage::Failed,
        Stage::Abandoned,
        Stage::Dropped,
        Stage::Rejected,
    ] {
        assert_eq!(Stage::parse(st.as_str()), Some(st));
    }
    assert_eq!(Stage::parse("gone"), None);
    assert!(Stage::Rejected.finished() && !Stage::Delivered.finished());
}
