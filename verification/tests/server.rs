use wmux::alerts::shell_outcome;
use wmux::arrange::PaneSel;
use wmux::attending::{restore_outcome, Opening};
use wmux::chooser::{Chooser, ChooserItem, ChooserKind};
use wmux::client::ServerMsg;
use wmux::command::{Dir, Outcome, Target};
use wmux::context::Clock;
use wmux::events::Exited;
use wmux::finds::{list_hits, search_pane, Found, Scope};
use wmux::layout::PaneId;
use wmux::listings::{Environment, Messages, Span};
use wmux::pane::Pane;
use wmux::pickers::{chooser_view, jobs_row};
use wmux::screen::{Row, Screen};
use wmux::server::{Options, Server};
use wmux::time::Time;

fn options() -> Options {
    Options {
        status: true,
        status_top: false,
        pane_border_status: "off".into(),
        window_size: "latest".into(),
        base_index: 0,
        pane_base_index: 0,
        keep_zoom: true,
        undo_kill_time: 60,
        remain_on_exit: false,
        monitor_activity: true,
        monitor_bell: true,
        monitor_silence: 0,
        visual_bell: false,
        visual_activity: true,
        mouse: true,
        display_time_ms: 750,
        repeat_time_ms: 500,
    }
}

fn time() -> Time {
    Time { ms: 1_790_000_000_000, offset: 0 }
}

fn pane(s: &mut Server, command: &str) -> Pane {
    let id = s.alloc_id();
    Pane::started(id, command.into(), vec![command.into()], None, 80, 23, 0)
}

fn session(s: &mut Server, name: &str) -> u32 {
    let sid = s.alloc_id();
    let p = pane(s, "sh");
    s.add_session(sid, name.into(), None, p, 80, 24, 0, 100);
    sid
}

fn window(s: &mut Server, i: usize, name: &str) -> PaneId {
    let p = pane(s, "sh");
    let id = p.id;
    s.new_window(i, p, Some(name.into()), true, 0);
    id
}

fn split(s: &mut Server, pid: PaneId, horizontal: bool) -> PaneId {
    let (i, j) = s.place_of_pane(pid).unwrap();
    let (cell, cols, rows) = s.plan_split(i, j, pid, horizontal, false).unwrap();
    let mut p = pane(s, "sh");
    p.resize(cols, rows);
    let id = p.id;
    s.place_split(i, j, pid, horizontal, false, false, cell, p);
    id
}

fn at(session: &str, window: Option<&str>, pane: Option<usize>) -> Target {
    Target {
        session: if session.is_empty() { None } else { Some(session.into()) },
        window: window.map(str::to_string),
        pane,
        pane_id: None,
    }
}

fn number(id: PaneId) -> Target {
    Target { session: None, window: None, pane: None, pane_id: Some(id) }
}

fn attached(s: &mut Server, cid: u32, sid: u32, cols: u16, rows: u16) {
    s.client_came(cid, 0);
    s.client_says(cid, cols, rows, String::new(), true, None);
    assert!(s.attach(cid, sid, None, 0));
}

fn active(s: &Server, i: usize) -> PaneId {
    let w = &s.sessions[i].windows[s.sessions[i].cur];
    w.active
}

#[test]
fn targets_are_found_by_name_number_and_beginning() {
    let mut s = Server::new(options());
    assert_eq!(s.resolve_session(None, None), Err("no sessions".into()));
    let work = session(&mut s, "work");
    let play = session(&mut s, "play");
    assert_eq!(s.resolve_session(Some(&at("work", None, None)), None), Ok(work));
    assert_eq!(s.resolve_session(Some(&at("pl", None, None)), None), Ok(play), "the beginning of one name");
    assert_eq!(s.resolve_session(Some(&at(&format!("${play}"), None, None)), None), Ok(play));
    assert_eq!(
        s.resolve_session(Some(&at("none", None, None)), None),
        Err("can't find session: none".into())
    );
    assert_eq!(s.resolve(Some(&number(999)), None), Err("can't find pane: %999".into()));
    let p = active(&s, 1);
    assert_eq!(s.resolve(Some(&number(p)), None), Ok((play, 0, p)));
    assert_eq!(s.resolve(Some(&at("work", Some("0"), Some(7))), None), Err("no pane 7".into()));
}

#[test]
fn a_session_needs_a_good_name_of_its_own() {
    let mut s = Server::new(options());
    assert_eq!(s.session_name(None), Ok("0".into()));
    session(&mut s, "0");
    assert_eq!(s.session_name(None), Ok("1".into()));
    assert_eq!(s.session_name(Some("0".into())), Err("duplicate session: 0".into()));
    assert_eq!(s.session_name(Some("a:b".into())), Err("bad session name: a:b".into()));
    assert_eq!(s.rename_session(None, "x.y".into(), None), Err("bad session name: x.y".into()));
    assert_eq!(s.rename_session(None, "new".into(), None), Ok("0".into()));
    assert_eq!(s.sessions[0].name, "new");
}

#[test]
fn a_killed_pane_comes_back_where_it_was() {
    let mut s = Server::new(options());
    session(&mut s, "a");
    let one = active(&s, 0);
    let two = split(&mut s, one, true);
    let before = s.sessions[0].windows[0].layout.panes();
    assert_eq!(s.kill_pane(Some(&number(two)), false, None, 10), Ok(1));
    assert_eq!(s.sessions[0].windows[0].layout.panes(), [one]);
    assert_eq!(s.undo_kill(20), Outcome::Done);
    assert_eq!(s.sessions[0].windows[0].layout.panes(), before);
    assert!(matches!(s.undo_kill(30), Outcome::Error(_)), "nothing more to bring back");
}

#[test]
fn a_killed_window_comes_back_at_its_place() {
    let mut s = Server::new(options());
    session(&mut s, "a");
    window(&mut s, 0, "one");
    window(&mut s, 0, "two");
    assert_eq!(s.kill_window(Some(&at("a", Some("1"), None)), false, None, 10), Ok(1));
    assert_eq!(s.sessions[0].windows.len(), 2);
    assert_eq!(s.undo_kill(20), Outcome::Done);
    let names: Vec<&str> = s.sessions[0].windows.iter().map(|w| w.name.as_str()).collect();
    assert_eq!(names, ["sh", "one", "two"]);
}

#[test]
fn what_was_killed_is_forgotten_in_time() {
    let mut s = Server::new(options());
    session(&mut s, "a");
    let one = active(&s, 0);
    let two = split(&mut s, one, false);
    s.kill_pane(Some(&number(two)), false, None, 0).unwrap();
    s.tick(59_999, 0);
    assert_eq!(s.killed.len(), 1);
    s.tick(60_000, 0);
    assert!(s.killed.is_empty());
}

#[test]
fn a_killed_pane_whose_program_ends_cannot_come_back() {
    let mut s = Server::new(options());
    session(&mut s, "a");
    let one = active(&s, 0);
    let two = split(&mut s, one, false);
    s.kill_pane(Some(&number(two)), false, None, 0).unwrap();
    assert!(matches!(s.pane_exited(two, 0, 0, 5), Exited::Forgotten));
    assert!(s.killed.is_empty());
    // A window of two loses one of them.
    let w = window(&mut s, 0, "w");
    let v = split(&mut s, w, true);
    s.kill_window(Some(&number(w)), false, None, 0).unwrap();
    assert!(matches!(s.pane_exited(v, 0, 0, 5), Exited::Forgotten));
    assert_eq!(s.killed.len(), 1);
    assert!(matches!(s.pane_exited(w, 0, 0, 5), Exited::Forgotten));
    assert!(s.killed.is_empty());
}

#[test]
fn a_program_that_ends_closes_its_pane_or_stays() {
    let mut s = Server::new(options());
    session(&mut s, "a");
    let one = active(&s, 0);
    let two = split(&mut s, one, false);
    assert!(matches!(s.pane_exited(two, 7, 3, 5), Exited::Old), "of the program before");
    assert!(matches!(s.pane_exited(two, 0, 3, 5), Exited::Closes));
    assert_eq!(s.remove_pane(two, Some(3)).unwrap().exit_code, Some(3));
    s.opts.remain_on_exit = true;
    match s.pane_exited(one, 0, 3, 5) {
        Exited::Stays { note, text } => {
            assert_eq!(note, "\r\n\x1b[7m[sh exited with 3; respawn-pane or kill-pane]\x1b[0m\r\n");
            assert_eq!(text, format!("pane %{one} (sh) exited with 3"));
        }
        other => panic!("{other:?}"),
    }
    let p = s.pane_ref(one).unwrap();
    assert_eq!((p.exit_code, p.died_at), (Some(3), Some(5)));
    s.opts.remain_on_exit = false;
    s.remove_pane(one, None);
    s.settle();
    assert!(s.sessions.is_empty() && s.quit, "the last pane takes its window, session and server with it");
}

#[test]
fn windows_are_stepped_through_and_back() {
    let mut s = Server::new(options());
    session(&mut s, "a");
    window(&mut s, 0, "one");
    window(&mut s, 0, "two");
    assert_eq!(s.sessions[0].cur, 0);
    s.step_window(None, "+", None);
    assert_eq!(s.sessions[0].cur, 1);
    s.step_window(None, "-", None);
    assert_eq!(s.sessions[0].cur, 0);
    s.step_window(None, "-", None);
    assert_eq!(s.sessions[0].cur, 2, "round the end");
    s.step_window(None, "!", None);
    assert_eq!(s.sessions[0].cur, 0);
    assert_eq!(s.select_window(Some(&at("a", Some("one"), None)), None), Outcome::Done);
    assert_eq!(s.sessions[0].cur, 1);
    assert!(matches!(s.select_window(Some(&at("a", Some("9"), None)), None), Outcome::Error(_)));
}

#[test]
fn panes_move_between_windows_and_out_of_them() {
    let mut s = Server::new(options());
    session(&mut s, "a");
    let one = active(&s, 0);
    let two = split(&mut s, one, true);
    assert_eq!(s.break_pane(Some(&number(two)), None, 0), Outcome::Done);
    assert_eq!(s.sessions[0].windows.len(), 2);
    let from = s.find_place(Some(&number(two)), None).unwrap();
    let to = s.find_place(Some(&number(one)), None).unwrap();
    assert_eq!(s.join_pane(from, to, false, false), Outcome::Done);
    assert_eq!(s.sessions[0].windows.len(), 1, "the window it left is gone");
    assert_eq!(s.sessions[0].windows[0].layout.panes(), [one, two]);
    assert_eq!(
        s.join_pane(to, to, false, false),
        Outcome::Error("join-pane: source and target are the same pane".into())
    );
    s.mark_pane(Some(&number(two)), true, false, None).unwrap();
    assert_eq!(s.join_source(None, None).unwrap().2, two, "the marked pane");
    assert_eq!(s.exchange_pane(Some(&number(one)), false, None), Outcome::Done);
    assert_eq!(s.sessions[0].windows[0].layout.panes(), [two, one]);
    assert_eq!(s.rotate_window(None, true, None), Outcome::Done);
    assert_eq!(s.sessions[0].windows[0].layout.panes(), [one, two]);
}

#[test]
fn panes_are_selected_by_direction_and_zoomed() {
    let mut s = Server::new(options());
    session(&mut s, "a");
    let one = active(&s, 0);
    let two = split(&mut s, one, true);
    assert_eq!(s.select_pane(Some(&number(one)), PaneSel::Dir(Dir::Right), None), Outcome::Done);
    assert_eq!(active(&s, 0), two);
    assert_eq!(s.resize_pane(None, true, None, 1, None, None, None), Outcome::Done);
    assert!(s.sessions[0].windows[0].zoomed);
    assert_eq!(s.sessions[0].windows[0].rects.len(), 1);
    assert_eq!(s.select_layout(None, Some("even-vertical"), false, false, None).is_ok(), true);
    assert!(matches!(s.select_layout(None, Some("crooked"), false, false, None), Err(_)));
}

#[test]
fn windows_change_places() {
    let mut s = Server::new(options());
    session(&mut s, "a");
    window(&mut s, 0, "one");
    window(&mut s, 0, "two");
    s.swap_window(Some(&at("a", Some("0"), None)), Some(&at("a", Some("2"), None)), false, None);
    let names: Vec<&str> = s.sessions[0].windows.iter().map(|w| w.name.as_str()).collect();
    assert_eq!(names, ["two", "one", "sh"]);
    assert_eq!(s.rename_window(Some(&at("a", Some("one"), None)), "mid".into(), None), Outcome::Done);
    assert_eq!(s.sessions[0].windows[1].name, "mid");
}

#[test]
fn a_session_takes_the_size_of_its_clients() {
    let mut s = Server::new(options());
    let sid = session(&mut s, "a");
    attached(&mut s, 1, sid, 100, 30);
    assert_eq!((s.sessions[0].cols, s.sessions[0].rows), (100, 30));
    s.opts.window_size = "smallest".into();
    attached(&mut s, 2, sid, 90, 40);
    assert_eq!((s.sessions[0].cols, s.sessions[0].rows), (90, 30));
    s.client_gone(2);
    assert_eq!((s.sessions[0].cols, s.sessions[0].rows), (100, 30), "one client fewer");
    s.client_resized(1, 0, 50);
    assert_eq!((s.sessions[0].cols, s.sessions[0].rows), (1, 50), "at least one column");
    s.opts.window_size = "manual".into();
    s.client_resized(1, 70, 20);
    assert_eq!((s.sessions[0].cols, s.sessions[0].rows), (1, 50), "sized by hand");
}

#[test]
fn clients_attach_switch_and_are_sent_away() {
    let mut s = Server::new(options());
    let a = session(&mut s, "a");
    let b = session(&mut s, "b");
    attached(&mut s, 1, a, 80, 24);
    attached(&mut s, 2, a, 80, 24);
    assert_eq!(s.attached(a), 2);
    assert_eq!(s.switch_client(true, false, false, None, Some(1), 5), Outcome::Done);
    assert_eq!(s.clients[0].session, Some(b));
    assert_eq!(s.switch_client(false, false, true, None, Some(1), 6), Outcome::Done);
    assert_eq!(s.clients[0].session, Some(a), "and back");
    assert_eq!(s.attach_session(Some(&at("a", None, None)), true, Some(1)), Ok((a, true)));
    assert_eq!(s.clients[1].session, None, "attach -d sends the others away");
    assert!(matches!(s.clients[1].outbox.pending.back(), Some(ServerMsg::Detached { reason }) if reason == "detached (attach -d)"));
    s.clients[1].interactive = false;
    assert_eq!(s.attach_session(None, false, Some(2)), Err("not a terminal".into()));
    assert_eq!(s.attach_session(None, false, None), Err("attach-session: no client".into()));
    assert_eq!(s.detach_client(true, None, Some(1)), Outcome::Done);
    assert_eq!(s.attached(a), 0);
    s.kill_server("server exited");
    assert!(s.quit && s.sessions.is_empty());
}

#[test]
fn new_session_is_planned_for_the_client_that_asks() {
    let mut s = Server::new(options());
    session(&mut s, "a");
    s.client_came(1, 0);
    s.client_says(1, 100, 40, String::new(), true, None);
    assert!(matches!(
        s.plan_session(Some(1), None, false, false, (Some(5), None)),
        Opening::Make { cols: 100, rows: 40, attach: true }
    ));
    assert!(matches!(
        s.plan_session(None, None, true, false, (Some(5), None)),
        Opening::Make { cols: 5, rows: 24, attach: false }
    ));
    assert!(matches!(s.plan_session(Some(1), Some("a"), false, true, (None, None)), Opening::Join));
    assert!(matches!(s.plan_session(Some(1), Some("a"), true, true, (None, None)), Opening::There));
    let p = active(&s, 0);
    s.client_says(1, 100, 40, String::new(), true, Some(p));
    assert!(matches!(s.plan_session(Some(1), None, false, false, (None, None)), Opening::Refused(_)), "nested");
    assert_eq!(restore_outcome(0, vec![], false, None), Outcome::Text("nothing to restore (see list-saved)".into()));
    assert_eq!(restore_outcome(2, vec!["x".into()], true, None), Outcome::Text("restored 2 session(s)\nx".into()));
    assert_eq!(restore_outcome(2, vec![], true, Some(7)), Outcome::Attach(7));
}

#[test]
fn sessions_windows_panes_and_clients_are_listed() {
    let mut s = Server::new(options());
    assert_eq!(s.list_sessions(0), Outcome::Error("no sessions".into()));
    let sid = session(&mut s, "a");
    window(&mut s, 0, "two");
    assert_eq!(s.list_sessions(5_999), Outcome::Text("a: 2 windows (created 5s ago) [80x24]".into()));
    attached(&mut s, 12, sid, 80, 24);
    attached(&mut s, 3, sid, 80, 24);
    assert_eq!(s.list_sessions(0), Outcome::Text("a: 2 windows (created 0s ago) [80x24] (attached)".into()));
    assert_eq!(s.list_windows(None, None), Outcome::Text("0: sh* (1 panes) [80x24]\n1: two (1 panes) [80x24]".into()));
    let p = active(&s, 0);
    let here = |_: PaneId| Some("/tmp".to_string());
    assert_eq!(
        s.list_panes(None, None, Span::Window, &here),
        Outcome::Text(format!("0: [80x23] %{p} sh [/tmp] (active)"))
    );
    let nowhere = |_: PaneId| None;
    match s.list_panes(None, None, Span::All, &nowhere) {
        Outcome::Text(t) => {
            assert!(t.starts_with(&format!("a:0.0: [80x23] %{p} sh (active)\na:1.0: ")), "{t}");
        }
        other => panic!("{other:?}"),
    }
    let second = s.sessions[0].windows[1].active;
    assert_eq!(s.panes_to_list(None, None, Span::Window), Ok(vec![p]));
    assert_eq!(s.panes_to_list(None, None, Span::Session), Ok(vec![p, second]));
    session(&mut s, "b");
    let third = active(&s, 1);
    assert_eq!(s.panes_to_list(None, None, Span::All), Ok(vec![p, second, third]));
    assert!(s.panes_to_list(Some(&at("none", None, None)), None, Span::All).is_err());
    assert_eq!(
        s.list_clients(),
        Outcome::Text("client-12: a [80x24]\nclient-3: a [80x24]".into()),
        "in the order of their text"
    );
    s.kill_server("x");
    assert_eq!(s.list_clients(), Outcome::Text("no clients attached".into()));
}

#[test]
fn variables_are_set_shown_and_removed() {
    let mut e = Environment { vars: Vec::new() };
    assert_eq!(e.show(None), Outcome::Text("no variables set".into()));
    e.set("A".into(), Some("1".into()), false);
    e.set("B".into(), Some("2".into()), false);
    e.set("A".into(), Some("3".into()), false);
    assert_eq!(e.show(None), Outcome::Text("B=2\nA=3".into()));
    assert_eq!(e.show(Some("A")), Outcome::Text("A=3".into()));
    e.set("A".into(), Some("4".into()), true);
    assert_eq!(e.show(Some("A")), Outcome::Error("unknown variable: A".into()));
}

#[test]
fn messages_are_remembered_with_their_time() {
    let mut m = Messages { texts: Vec::new() };
    assert_eq!(m.show(), Outcome::Text("no messages".into()));
    for i in 0..101 {
        m.note(&format!("m{i}"), Time { ms: 0, offset: 0 });
    }
    assert_eq!(m.texts.len(), 100);
    assert_eq!(m.texts[0], "00:00:00 m1");
}

#[test]
fn a_reply_goes_to_the_terminal_or_the_screen() {
    let mut s = Server::new(options());
    let sid = session(&mut s, "a");
    let mut m = Messages { texts: Vec::new() };
    s.client_came(1, 0);
    s.reply(&mut m, 1, Outcome::Text("hi".into()), None, 9, time());
    assert_eq!(s.clients[0].outbox.pending, [ServerMsg::Text("hi".into()), ServerMsg::Done { code: 0 }]);
    s.reply(&mut m, 1, Outcome::Error("no".into()), None, 9, time());
    assert_eq!(s.clients[0].outbox.pending.back(), Some(&ServerMsg::Done { code: 1 }));
    assert!(m.texts.is_empty());
    s.reply(&mut m, 1, Outcome::Attach(sid), None, 9, time());
    assert_eq!((s.clients[0].session, s.sessions[0].last_used), (Some(sid), 9));
    s.reply(&mut m, 1, Outcome::Text("one\rline".into()), None, 9, time());
    assert_eq!(s.clients[0].message, Some(("one line".to_string(), 9)));
    s.reply(&mut m, 1, Outcome::Text("two\nlines".into()), None, 9, time());
    assert_eq!(s.clients[0].overlay, Some(vec!["two".to_string(), "lines".to_string()]));
    assert!(m.texts[1].ends_with(" two lines"));
}

#[test]
fn a_run_shell_ends_with_its_output_or_its_code() {
    assert_eq!(shell_outcome("\n", 0), Outcome::Done);
    assert_eq!(shell_outcome("out\r\n", 0), Outcome::Text("out".into()));
    assert_eq!(shell_outcome("", -1), Outcome::Error("shell exited with -1".into()));
    assert_eq!(shell_outcome("bad\n", 2), Outcome::Error("bad".into()));
}

#[test]
fn a_window_nobody_looks_at_raises_alerts() {
    let mut s = Server::new(options());
    let sid = session(&mut s, "a");
    let p = window(&mut s, 0, "back");
    attached(&mut s, 1, sid, 80, 24);
    s.find_pane_mut(p).unwrap().bell = true;
    let alerts = s.note_output(p, 40);
    assert_eq!(
        alerts,
        [("Activity in window 1 (back)".to_string(), false), ("Bell in window 1 (back)".to_string(), true)]
    );
    assert_eq!(s.sessions[0].windows[1].flags(false, false), "#!");
    assert!(s.note_output(p, 41).is_empty(), "told once");
    assert_eq!((s.pane_ref(p).unwrap().output_count, s.pane_ref(p).unwrap().last_output), (2, 41));
    let mut m = Messages { texts: Vec::new() };
    s.alert(&mut m, sid, &alerts[0].0, false, 50, time());
    assert_eq!(s.clients[0].message.as_ref().unwrap().0, "Activity in window 1 (back)");
    s.alert(&mut m, sid, &alerts[1].0, true, 50, time());
    assert!(s.clients[0].pending_bell, "no visual bell: the terminal's");
    // Looked at, it has nothing to tell; the one behind goes quiet.
    s.select_window(Some(&at("a", Some("1"), None)), None);
    s.opts.monitor_silence = 2;
    let quiet = s.sweep_alerts(2_000);
    assert_eq!(s.sessions[0].windows[1].flags(true, false), "*");
    assert_eq!(quiet.len(), 1);
    assert_eq!(quiet[0].2, "Silence in window 0 (sh)");
    assert!(s.sweep_alerts(9_000).is_empty());
    assert_eq!(s.select_alert(None, true, None), Outcome::Done);
    assert_eq!(s.sessions[0].cur, 0);
}

fn screen(lines: &[&str], rows: u16) -> Screen {
    Screen {
        lines: lines.iter().map(|l| Row { text: l.to_string(), wrapped: false }).collect(),
        rows,
        cols: 80,
        scrolled: (lines.len() - rows as usize) as u64,
        cursor_row: 0,
        cursor_col: 0,
        alternate: false,
        bracketed: false,
        app_cursor: false,
    }
}

#[test]
fn text_is_looked_for_where_the_target_says() {
    let mut s = Server::new(options());
    session(&mut s, "a");
    session(&mut s, "b");
    let p = active(&s, 1);
    let all = s.search_scope(None, None).unwrap();
    assert_eq!(s.search_places(&all).len(), 2);
    let one = s.search_scope(Some(&at("b", None, None)), None).unwrap();
    assert_eq!(s.search_places(&one), [("b:0.0".to_string(), p)]);
    assert_eq!(s.search_scope(Some(&at("b", Some("5"), None)), None).is_err(), true);
    assert_eq!(s.search_scope(Some(&at("b", None, Some(4))), None), Err("no pane 4".into()));
    let hits = search_pane("b:0.0", &screen(&["x one", "y", "X two"], 2), "x", 10, false);
    assert_eq!(list_hits(&hits, "x"), Outcome::Text("b:0.0  -0  X two\nb:0.0  -2  x one".into()));
    assert_eq!(list_hits(&vec![], "zz"), Outcome::Error("no pane has: zz".into()));
}

#[test]
fn windows_are_found_by_what_they_are_called() {
    let mut s = Server::new(options());
    let sid = session(&mut s, "a");
    window(&mut s, 0, "Build");
    window(&mut s, 0, "builder");
    assert!(matches!(s.find_window("zzz"), Found::Nothing(e) if e == "no window matching: zzz"));
    let wid = s.sessions[0].windows[2].id;
    assert!(matches!(s.find_window("builder"), Found::One(a, b) if a == sid && b == wid));
    match s.find_window("BUILD") {
        Found::Several(ch) => {
            assert_eq!(ch.lines, ["(0) a:Build", "(1) a:builder"]);
            assert_eq!(ch.items.len(), 2);
        }
        _ => panic!("two windows"),
    }
}

#[test]
fn the_tree_folds_filters_and_numbers_its_lines() {
    let mut s = Server::new(options());
    let sid = session(&mut s, "a");
    window(&mut s, 0, "two");
    let (items, lines) = s.tree_lines(true, &Default::default());
    assert_eq!(lines, ["- a: 2 windows", "  - 0: sh* (1 panes) \"\"", "  - 1: two (1 panes) \"\""]);
    assert_eq!(items[0], ChooserItem::Tree(sid, None));
    let folded = [sid].into_iter().collect();
    assert_eq!(s.tree_lines(true, &folded).1, ["+ a: 2 windows"]);
    let mut ch = Chooser::new(ChooserKind::Tree { expand: true }, vec![], vec![], 0);
    ch.filter = "TWO".into();
    ch.tagged = vec![items[2]];
    let (shown, view) = chooser_view(&ch, &items, &lines);
    assert_eq!(view, ["(0) - a: 2 windows", "(1)*  - 1: two (1 panes) \"\""]);
    ch.items = items;
    ch.sel = 2;
    ch.relist(shown, view);
    assert_eq!(ch.sel, 1, "the selection follows its window");
    assert_eq!(ch.status(), "[1 tagged] [filter: TWO]");
    ch.top = 1;
    ch.sel = 0;
    ch.scroll(1);
    assert_eq!(ch.top, 0);
    ch.sel = 1;
    ch.scroll(1);
    assert_eq!(ch.top, 1);
}

#[test]
fn the_task_board_lists_every_pane() {
    let mut s = Server::new(options());
    let sid = session(&mut s, "a");
    let p = active(&s, 0);
    let places = s.jobs_panes(&Scope { session: None, window: None, pane: None });
    assert_eq!(places, [(sid, 0, p)]);
    assert!(s.jobs_panes(&Scope { session: Some(0), window: Some(3), pane: None }).is_empty());
    let row = jobs_row("a:0.0".into(), Some(3), "1m".into(), "2s".into(), None, "sh".into(), "/".into());
    assert_eq!(row, ["a:0.0", "exit 3", "1m", "2s", "-", "sh", "/"]);
    let (items, lines) = s.job_lines(&places, vec![row]);
    assert_eq!(items[1], ChooserItem::Job(sid, s.sessions[0].windows[0].id, p));
    assert!(lines[0].starts_with("PANE ") && lines[1].starts_with("a:0.0 "));
    let t = s.pane_target(sid, s.sessions[0].windows[0].id, p).unwrap();
    assert_eq!((t.session.as_deref(), t.window.as_deref(), t.pane), (Some("a"), Some("0"), Some(0)));
    assert_eq!(s.pane_target(sid, 999, p), None);
}

#[test]
fn a_client_is_taken_to_the_pane_it_picked() {
    let mut s = Server::new(options());
    let a = session(&mut s, "a");
    let b = session(&mut s, "b");
    attached(&mut s, 1, a, 80, 24);
    let w = window(&mut s, 1, "w");
    let v = split(&mut s, w, true);
    let wid = s.sessions[1].windows[1].id;
    assert_eq!(s.chooser_go_pane(1, b, wid, v, 7), Ok(()));
    assert_eq!((s.clients[0].session, s.sessions[1].cur, active(&s, 1)), (Some(b), 1, v));
    assert_eq!(s.chooser_go_pane(1, b, wid, 999, 7), Err("pane is gone".into()));
    assert_eq!(s.chooser_go(1, 999, None, 7), Err("session is gone".into()));
    assert_eq!(s.chooser_go(1, a, Some(999), 7), Err("window is gone".into()));
    assert_eq!(s.chooser_go(2, a, None, 7), Err("client not attached".into()));
}

#[test]
fn formats_are_told_of_the_pane_and_its_edges() {
    let mut s = Server::new(options());
    let sid = session(&mut s, "a");
    let one = active(&s, 0);
    let two = split(&mut s, one, true);
    let now = Clock { ms: 10_000, unix: 1_000 };
    let ctx = s.context(sid, 0, Some(two), None, &now);
    let pane = ctx.pane.unwrap();
    assert_eq!((pane.index, pane.id, pane.active, pane.start_time), (1, two, false, 990));
    let e = ctx.edges.unwrap();
    assert_eq!((e.left, e.right, e.at_left, e.at_right, e.at_top, e.at_bottom), (41, 79, false, true, true, true));
    let w = ctx.window.unwrap();
    assert!(w.layout.contains(",80x23,0,0{40x23,0,0,"), "{}", w.layout);
    assert!(w.start && w.end && w.active);
    assert!(ctx.client.is_none());
    assert!(s.context(sid, 9, None, None, &now).window.is_none());
    assert!(s.context(99, 0, None, None, &now).session.is_none());
}

#[test]
fn the_history_log_of_a_pane_has_a_place() {
    let mut s = Server::new(options());
    s.opts.base_index = 1;
    session(&mut s, "a");
    let one = active(&s, 0);
    let two = split(&mut s, one, false);
    let places: Vec<(PaneId, u128, u128)> = s.history_places().iter().map(|p| (p.pane, p.window, p.place)).collect();
    assert_eq!(places, [(one, 1, 0), (two, 1, 1)]);
}

#[test]
fn a_pane_comes_back_to_its_window_or_to_one_of_its_own() {
    let mut s = Server::new(options());
    session(&mut s, "a");
    let one = active(&s, 0);
    let two = split(&mut s, one, true);
    s.kill_pane(Some(&number(two)), false, None, 10).unwrap();
    let next = s.next_id;
    assert_eq!(s.undo_kill(20), Outcome::Done);
    assert_eq!(s.next_id, next, "into its window: no number is taken");
    window(&mut s, 0, "other");
    s.kill_pane(Some(&number(two)), false, None, 30).unwrap();
    s.remove_pane(one, Some(0));
    s.settle();
    assert_eq!(s.sessions[0].windows.len(), 1, "its window is gone");
    let next = s.next_id;
    assert_eq!(s.undo_kill(32), Outcome::Done);
    assert_eq!(s.next_id, next + 1, "a window of its own has a number");
    assert!(s.sessions[0].windows.iter().any(|w| w.layout.panes() == [two]));
}
