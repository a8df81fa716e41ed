use wmux::actor::{Move, WorkMode};
use wmux::agents::{lists_word, mode_for};
use wmux::command::{Outcome, Target};
use wmux::layout::PaneId;
use wmux::mail::MailRules;
use wmux::message_waits::trace_message;
use wmux::messages::{Mailroom, WaitKind};
use wmux::observe::{Stage, Store};
use wmux::pane::Pane;
use wmux::screen::{Row, Screen};
use wmux::server::{Options, Server};
use wmux::time::Time;

fn options() -> Options {
    Options {
        status: true,
        status_top: false,
        pane_border_status: "off".into(),
        window_size: "latest".into(),
        base_index: 0,
        pane_base_index: 0,
        keep_zoom: true,
        undo_kill_time: 60,
        remain_on_exit: false,
        monitor_activity: false,
        monitor_bell: false,
        monitor_silence: 0,
        visual_bell: false,
        visual_activity: false,
        mouse: false,
        display_time_ms: 750,
        repeat_time_ms: 500,
    }
}

fn now() -> Time {
    Time { ms: 1_790_000_000_000, offset: 0 }
}

fn say(ms: i64) -> String {
    format!("{ms}ms")
}

const RULES: MailRules = MailRules { max_size: 100, hop_limit: 2, inbox_limit: 3 };

/// A server with two panes, side by side in two windows; client 1 runs in the
/// first of them.
struct Post {
    server: Server,
    store: Store,
    room: Mailroom,
    a: PaneId,
    b: PaneId,
}

fn pane(s: &mut Server) -> Pane {
    let id = s.alloc_id();
    Pane::started(id, "sh".into(), vec!["sh".into()], None, 80, 23, 0)
}

fn screen() -> Screen {
    let mut lines: Vec<Row> = Vec::new();
    for _ in 0..23 {
        lines.push(Row { text: String::new(), wrapped: false });
    }
    Screen {
        lines,
        rows: 23,
        cols: 80,
        scrolled: 0,
        cursor_row: 2,
        cursor_col: 4,
        alternate: false,
        bracketed: false,
        app_cursor: false,
    }
}

fn post() -> Post {
    let mut server = Server::new(options());
    let sid = server.alloc_id();
    let first = pane(&mut server);
    let a = first.id;
    server.add_session(sid, "s".into(), None, first, 80, 24, 0, 0);
    let second = pane(&mut server);
    let b = second.id;
    server.new_window(0, second, Some("w".into()), true, 0);
    server.client_came(1, 0);
    server.client_says(1, 80, 24, String::new(), false, Some(a));
    Post {
        server,
        store: Store { on: true, ..Default::default() },
        room: Mailroom { next: 0, waits: Vec::new(), dropped: Vec::new() },
        a,
        b,
    }
}

fn number(id: PaneId) -> Target {
    Target { session: None, window: None, pane: None, pane_id: Some(id) }
}

impl Post {
    fn send(&mut self, cid: Option<u32>, to: PaneId, text: &str) -> Result<u64, String> {
        self.server.send_message(&mut self.store, &mut self.room, cid, to, false, text.into(), now(), &RULES)
    }
}

#[test]
fn a_message_waits_in_the_inbox_until_it_is_read() {
    let mut p = post();
    let (a, b) = (p.a, p.b);
    assert_eq!(p.server.addressee(Some(&number(b)), Some(1), false), Ok(b));
    assert_eq!(p.server.addressee(None, Some(1), false), Err("send-message: -t pane required".into()));
    assert_eq!(p.send(Some(1), b, "hello"), Ok(1));
    let addr = p.server.address_of(b);
    assert_eq!(
        p.server.stand(&p.store, 1),
        format!("#1 queued for {addr} (normal, waits for read-message, 0 ahead)")
    );
    assert_eq!(p.send(None, b, "again"), Ok(2));
    assert!(p.server.stand(&p.store, 2).ends_with("1 ahead)"));
    let (i, flag, text) = p.server.mail_alert(b, &p.store.get(1).unwrap().msg).unwrap();
    assert_eq!((i, flag), (0, Some(1)), "its window is flagged, it is not in view");
    assert_eq!(text, format!("Message #1 for %{b} in window 1 from {}", p.server.address_of(a)));
    let read = p.server.take_message(&mut p.store, b, now()).unwrap();
    assert!(read.ends_with("\nhello") && read.starts_with("{\"keepane\":1,\"id\":1,\"task\":1,"), "{read}");
    assert_eq!(p.server.stand(&p.store, 1), format!("#1 read by {addr}"));
    assert_eq!(p.server.holder(2), Some(b));
    assert_eq!(p.server.holder(1), None);
}

#[test]
fn an_answer_carries_the_chain_on() {
    let mut p = post();
    let (a, b) = (p.a, p.b);
    assert_eq!(
        p.server.addressee(None, None, true),
        Err("send-message -r: not run inside a pane".into())
    );
    assert_eq!(
        p.server.addressee(None, Some(1), true),
        Err(format!("send-message -r: %{a} has no message to answer"))
    );
    p.send(None, a, "from outside").unwrap();
    p.server.take_message(&mut p.store, a, now());
    assert_eq!(
        p.server.addressee(None, Some(1), true),
        Err("send-message -r: #1 came from outside any pane".into())
    );
    p.server.client_came(2, 0);
    p.server.client_says(2, 80, 24, String::new(), false, Some(b));
    p.send(Some(2), a, "do this").unwrap();
    p.server.take_message(&mut p.store, a, now());
    assert_eq!(p.server.addressee(None, Some(1), true), Ok(b));
    p.server.send_message(&mut p.store, &mut p.room, Some(1), b, true, "done".into(), now(), &RULES).unwrap();
    let m = &p.store.get(3).unwrap().msg;
    assert_eq!((m.task, m.hop, m.re), (2, 1, Some(2)));
    p.server.remove_pane(b, None);
    assert_eq!(
        p.server.addressee(None, Some(1), true),
        Err(format!("send-message -r: #2 came from %{b}, which is gone"))
    );
}

#[test]
fn a_message_is_refused_for_a_reason_that_is_kept() {
    let mut p = post();
    let b = p.b;
    let long = "x".repeat(101);
    assert_eq!(p.send(None, b, &long), Err("#1 rejected: the message is 101 bytes; message-max-size is 100".into()));
    assert_eq!(p.store.get(1).unwrap().stage, Stage::Rejected);
    for _ in 0..3 {
        p.send(None, b, "x").unwrap();
    }
    assert_eq!(p.send(None, b, "x"), Err(format!("#5 rejected: %{b}: inbox is full (message-inbox-limit is 3)")));
    p.server.mark_dead(b, 0, 5);
    assert_eq!(p.send(None, b, "x"), Err(format!("#6 rejected: %{b} has exited")));
    assert_eq!(p.store.get(6).unwrap().why.as_deref(), Some(format!("%{b} has exited").as_str()));
    // A loop between panes.
    let a = p.a;
    p.server.find_pane_mut(a).unwrap().actor.last_read = Some(p.store.get(2).unwrap().msg.clone());
    p.server.find_pane_mut(a).unwrap().actor.last_read.as_mut().unwrap().hop = 2;
    let r = p.server.send_message(&mut p.store, &mut p.room, Some(1), a, true, "x".into(), now(), &RULES);
    assert_eq!(r, Err("#7 rejected: hop 3 is over message-hop-limit 2 (a loop between panes?)".into()));
}

#[test]
fn a_shell_takes_a_command_at_its_prompt_and_says_how_it_went() {
    let mut p = post();
    let b = p.b;
    assert_eq!(
        p.server.set_work_mode(&mut p.store, None, Some(&number(b)), "wizard", now()),
        Err("bad work mode 'wizard'".into())
    );
    let a = p.a;
    assert_eq!(
        p.server.set_work_mode(&mut p.store, Some(1), Some(&number(b)), "shell", now()),
        Err(format!(
            "set-work-mode changes only the pane it runs in (%{a}, not %{b}); for another, run it there, or at the C-b : prompt"
        ))
    );
    assert_eq!(p.server.set_work_mode(&mut p.store, None, Some(&number(b)), "shell", now()), Ok(b));
    p.send(None, b, "ls").unwrap();
    assert_eq!(p.server.deliver(&mut p.store, b, false, &screen(), now()), None, "not at its prompt");
    p.server.prompt_seen(&mut p.store, b, now());
    assert_eq!(p.server.deliver(&mut p.store, b, true, &screen(), now()), None, "its program waits to start");
    let bytes = p.server.deliver(&mut p.store, b, false, &screen(), now()).unwrap();
    assert!(bytes.ends_with(b" ls\r") && bytes.starts_with(b"<# {"), "{bytes:?}");
    assert_eq!(p.store.get(1).unwrap().stage, Stage::Delivered);
    let from = p.server.pane_ref(b).unwrap().delivered_line.unwrap();
    assert_eq!(from.0, 2);
    let mut after = screen();
    after.lines[from.1 as usize].text = "file.txt".into();
    after.cursor_row = from.1 as u16 + 1;
    p.server.prompted(&mut p.store, b, &after, 100, now());
    let r = p.store.get(1).unwrap();
    assert_eq!((r.stage, r.ok, r.output.as_deref()), (Stage::Done, None, Some("file.txt")));
}

#[test]
fn an_agent_says_when_it_is_ready() {
    let mut p = post();
    let a = p.a;
    assert_eq!(
        p.server.pane_ready(&mut p.store, None, false, now()),
        Err("pane-ready: not run inside a keepane pane".into())
    );
    assert_eq!(p.server.pane_ready(&mut p.store, None, true, now()), Ok(None));
    assert_eq!(p.server.pane_ready(&mut p.store, Some(1), false, now()), Ok(None), "only an agent's word counts");
    p.server.set_work_mode(&mut p.store, Some(1), None, "ai", now()).unwrap();
    assert_eq!(p.server.pane_ready(&mut p.store, Some(1), false, now()), Ok(Some(a)));
    p.send(None, a, "think").unwrap();
    assert!(p.server.deliver(&mut p.store, a, false, &screen(), now()).is_some());
    assert_eq!(p.server.pane_ready(&mut p.store, Some(1), false, now()), Ok(Some(a)));
    assert_eq!(p.store.get(1).unwrap().stage, Stage::Done);
    p.send(None, a, "more").unwrap();
    assert!(p.server.deliver(&mut p.store, a, false, &screen(), now()).is_some());
    assert_eq!(p.server.force_ready(&mut p.store, None, &number(a), now()), Ok(a));
    p.server.pane_closing(&mut p.store, a, now());
    assert_eq!(p.store.get(2).unwrap().stage, Stage::Abandoned, "its pane went away");
}

#[test]
fn a_deleted_message_comes_back_where_it_stood() {
    let mut p = post();
    let b = p.b;
    for t in ["one", "two", "three"] {
        p.send(None, b, t).unwrap();
    }
    let order = |p: &Post| -> Vec<u64> { p.server.pane_ref(b).unwrap().actor.inbox.iter().map(|m| m.id).collect() };
    assert_eq!(
        p.server.drop_message(&mut p.store, &mut p.room, None, 9, 0, now()),
        Err("#9 is not waiting in any inbox".into())
    );
    p.server.drop_message(&mut p.store, &mut p.room, None, 2, 0, now()).unwrap();
    assert_eq!(order(&p), [1, 3]);
    assert_eq!(p.store.get(2).unwrap().why.as_deref(), Some("deleted by user"));
    assert_eq!(p.server.undrop_message(&mut p.store, &mut p.room, None, 59_999, now()), Ok(b));
    assert_eq!(order(&p), [1, 2, 3]);
    assert_eq!(p.store.get(2).unwrap().stage, Stage::Queued);
    p.server.move_message(&mut p.store, None, 3, Move::Top, now()).unwrap();
    assert_eq!(order(&p), [3, 1, 2]);
    p.server.drop_message(&mut p.store, &mut p.room, None, 1, 0, now()).unwrap();
    assert_eq!(
        p.server.undrop_message(&mut p.store, &mut p.room, None, 60_000, now()),
        Err("drop-message -u: nothing deleted to bring back".into()),
        "too long ago"
    );
}

#[test]
fn a_wait_is_answered_when_its_moment_comes() {
    let mut p = post();
    let b = p.b;
    p.send(None, b, "x").unwrap();
    let out = p.server.sent_outcome(&p.store, &mut p.room, 1, Some(5), Some(1), 60, 1_000);
    assert_eq!(out, Outcome::Pending);
    assert_eq!(p.room.waits[0].until, 6_000);
    assert_eq!(trace_message(&p.store, &mut p.room, 1, Some(500), Some(1), 60, &say, 0), Outcome::Pending);
    assert_eq!((p.room.waits[1].until, p.room.waits[1].kind), (60_000, WaitKind::Finished(1)));
    assert!(p.server.wake_waits(&mut p.store, &mut p.room, &say, now()).is_empty());
    let read = p.server.read_message(&mut p.store, &mut p.room, b, None, None, 60, 0, now());
    assert!(matches!(read, Outcome::Text(t) if t.ends_with("\nx")));
    let replies = p.server.wake_waits(&mut p.store, &mut p.room, &say, now());
    assert_eq!(replies.len(), 2, "read: it left the inbox, and nothing more happens to it");
    assert!(p.room.waits.is_empty());
    let out = p.server.read_message(&mut p.store, &mut p.room, b, Some(3), Some(1), 60, 0, now());
    assert_eq!(out, Outcome::Pending);
    let out = p.server.read_message(&mut p.store, &mut p.room, b, None, None, 60, 0, now());
    assert_eq!(out, Outcome::Error(format!("no message for %{b}")));
    p.send(None, b, "y").unwrap();
    let replies = p.server.wake_waits(&mut p.store, &mut p.room, &say, now());
    assert!(matches!(&replies[0].1, Outcome::Text(t) if t.ends_with("\ny")));
    // One that runs out, and one whose client goes.
    p.room.wait(1, 1, 60, WaitKind::Inbox(b), 0);
    p.room.wait(2, 9, 60, WaitKind::Inbox(b), 0);
    let late = p.server.time_out_waits(&p.store, &mut p.room, 1_000);
    assert_eq!(late, [(1, Outcome::Error(format!("timed out: no message for %{b}")))]);
    p.room.client_gone(2);
    assert!(p.room.waits.is_empty());
    p.room.wait(1, 1, 60, WaitKind::Inbox(99), 0);
    assert_eq!(
        p.server.wake_waits(&mut p.store, &mut p.room, &say, now()),
        [(1, Outcome::Error("%99 is gone".into()))]
    );
    assert_eq!(
        trace_message(&p.store, &mut p.room, 77, None, None, 60, &say, 0),
        Outcome::Error("no message #77".into())
    );
}

#[test]
fn a_pane_has_a_name_a_status_and_a_place() {
    let mut p = post();
    let (a, b) = (p.a, p.b);
    assert!(p.server.rename_pane(&mut p.store, Some(1), None, "12", now()).is_err(), "all digits is a number");
    p.server.rename_pane(&mut p.store, Some(1), None, "lead", now()).unwrap();
    assert_eq!(p.server.pane_by_name("lead"), Some(a));
    assert_eq!(
        p.server.rename_pane(&mut p.store, None, Some(&number(b)), "lead", now()),
        Err(format!("pane name 'lead' is taken by %{a}"))
    );
    assert_eq!(p.server.whoami(a), format!("{}  s:0.0  lead  normal", p.server.address_of(a)));
    assert_eq!(p.server.whoami(999), "%999");
    assert_eq!(
        p.server.pane_status(&mut p.store, None, "x".into(), "sh", now()),
        Err("pane-status: not run inside a keepane pane".into())
    );
    p.server.pane_status(&mut p.store, Some(1), "busy".into(), "sh", now()).unwrap();
    assert_eq!(p.server.pane_ref(a).unwrap().actor.status.as_ref().unwrap().0, "busy");
    assert!(p.store.log.last().unwrap().line.ends_with(
        "\"what\":\"status\",\"name\":\"lead\",\"mode\":\"normal\",\"program\":\"sh\",\"text\":\"busy\"}"
    ));
    p.server.pane_status(&mut p.store, Some(1), "".into(), "sh", now()).unwrap();
    assert!(p.server.pane_ref(a).unwrap().actor.status.is_none());
}

#[test]
fn an_agent_makes_panes_within_its_budget() {
    let mut p = post();
    let (a, b) = (p.a, p.b);
    assert_eq!(p.server.may_create(Some(1), "vim", None, "sh", 0), Ok(()), "a person's is nobody's");
    p.server.set_work_mode(&mut p.store, Some(1), None, "ai", now()).unwrap();
    assert_eq!(
        p.server.may_create(Some(1), "vim", None, "sh helper", 5),
        Err("create-pane: 'vim' is not in agent-commands (sh helper)".into())
    );
    let who = p.server.adopt_pane(&mut p.store, Some(1), b, Some("kid".into()), WorkMode::Shell, "sh", now());
    assert!(who.ends_with("  s:1.0  kid  shell"), "{who}");
    assert!(p.server.created_by(b, a) && !p.server.created_by(a, b));
    assert_eq!(p.server.top_creator(b), a);
    assert_eq!(
        p.server.may_create(Some(1), "sh", None, "SH", 1),
        Err(format!("create-pane: agent-pane-limit 1 reached (%{a} and the panes it made have 1)"))
    );
    assert_eq!(p.server.may_create(Some(1), "sh", Some("kid"), "sh", 5), Err("pane name 'kid' is taken".into()));
    assert!(p.server.may_create(Some(1), "sh", Some("a b"), "sh", 5).is_err());
    assert_eq!(mode_for(None, "pwsh", "helper"), WorkMode::Shell);
    assert_eq!(mode_for(None, "helper", "helper"), WorkMode::Ai);
    assert_eq!(mode_for(None, "vim", "helper"), WorkMode::Normal);
    assert_eq!(mode_for(Some("ai"), "vim", "helper"), WorkMode::Ai);
    assert!(lists_word(" One two", "one") && !lists_word("one two", "tw"));
}

#[test]
fn inboxes_are_listed_with_who_wrote_what() {
    let mut p = post();
    let b = p.b;
    p.send(Some(1), b, "first\nsecond").unwrap();
    p.server.set_work_mode(&mut p.store, None, Some(&number(b)), "ai", now()).unwrap();
    let later = Time { ms: now().ms + 5_000, offset: 0 };
    let panes = p.server.all_panes();
    let text = p.server.list_messages(&panes, true, &say, later);
    let lines: Vec<&str> = text.lines().collect();
    assert_eq!(lines.len(), 2, "a pane with nothing is left out");
    assert_eq!(lines[0], format!("{} (ai, busy) · 1 queued", p.server.address_of(b)));
    assert_eq!(
        lines[1],
        format!("  #1  from {} (normal)  waiting 5000ms  first …  [sent for normal]", p.server.address_of(p.a))
    );
}
