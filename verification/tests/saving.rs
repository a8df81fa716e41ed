use wmux::actor::{End, Message, Sender, WorkMode};
use wmux::agents::{first_new, program_name};
use wmux::bindings::KeyTable;
use wmux::chooser::{Chooser, ChooserItem, ChooserKind, Day, Kept};
use wmux::client::{Client, ServerMsg};
use wmux::client_commands::command_prompt;
use wmux::command::{Outcome, Target};
use wmux::frames::{frame_bytes, prompt_line};
use wmux::going::focus_text;
use wmux::key_flow::KeyTables;
use wmux::keys::{Key, KeyCode};
use wmux::layout::{PaneId, Rect};
use wmux::mouse::{decode_mouse, MouseRecord};
use wmux::observe::Store;
use wmux::options::{history_chooser, jobs_chooser, ShownOption};
use wmux::pane::{Pane, Pipe};
use wmux::picking::{Act, Picked};
use wmux::prompt::PromptAction;
use wmux::replay::read_event;
use wmux::saved::{SavedNode, SavedPane};
use wmux::saving::{pane_env, pane_path, replay_text, restore_fault, Autosave};
use wmux::screen::{Row, Screen};
use wmux::server::{Options, Server};
use wmux::shells::{first_line, missing_shells, slow_pipe, version_fault};
use wmux::sourcing::{Hooks, Sourcing};
use wmux::splits::{split_stopped, SplitNext};
use wmux::tables::{key_line, KeySet};
use wmux::time::Time;

fn options() -> Options {
    Options {
        status: true,
        status_top: false,
        pane_border_status: "off".into(),
        window_size: "latest".into(),
        base_index: 0,
        pane_base_index: 0,
        keep_zoom: false,
        undo_kill_time: 60,
        remain_on_exit: false,
        monitor_activity: false,
        monitor_bell: false,
        monitor_silence: 0,
        visual_bell: false,
        visual_activity: false,
        mouse: true,
        display_time_ms: 750,
        repeat_time_ms: 500,
    }
}

fn pane(s: &mut Server, cwd: Option<&str>) -> Pane {
    let id = s.alloc_id();
    Pane::started(id, "sh".into(), vec!["sh".into()], cwd.map(str::to_string), 80, 23, 0)
}

fn server() -> (Server, u32, PaneId) {
    let mut s = Server::new(options());
    let sid = s.alloc_id();
    let p = pane(&mut s, Some("C:\\start"));
    let id = p.id;
    s.add_session(sid, "a".into(), Some("one".into()), p, 80, 24, 0, 0);
    (s, sid, id)
}

fn split(s: &mut Server, pid: PaneId) -> PaneId {
    let (i, j) = s.place_of_pane(pid).unwrap();
    let (cell, cols, rows) = s.plan_split(i, j, pid, true, false).unwrap();
    let mut p = pane(s, None);
    p.resize(cols, rows);
    let id = p.id;
    s.place_split(i, j, pid, true, false, false, cell, p);
    id
}

fn screen(lines: &[&str], rows: u16) -> Screen {
    Screen {
        lines: lines.iter().map(|l| Row { text: l.to_string(), wrapped: false }).collect(),
        rows,
        cols: 20,
        scrolled: (lines.len() - rows as usize) as u64,
        cursor_row: 0,
        cursor_col: 0,
        alternate: false,
        bracketed: false,
        app_cursor: false,
    }
}

#[test]
fn a_session_is_saved_as_it_stands_and_comes_back() {
    let (mut s, sid, one) = server();
    let two = split(&mut s, one);
    s.focus_split(0, 0, two, one);
    let p = pane(&mut s, None);
    s.new_window(0, p, Some("more".into()), true, 0);
    s.find_pane_mut(two).unwrap().pid = Some(7);
    let lines = vec![(two, vec!["last".to_string()])];
    let saved = s.snapshot(0, &lines, &vec![(two, "D:\\there".to_string())]);
    assert_eq!((saved.name.as_str(), saved.current, saved.size), ("a", 0, (80, 24)));
    assert_eq!((saved.windows[0].name.as_str(), saved.windows[0].active), ("one", 1));
    let kept = |cwd: &str, history: &[&str]| SavedPane {
        argv: vec!["sh".into()],
        cwd: Some(cwd.into()),
        history: history.iter().map(|l| l.to_string()).collect(),
    };
    let leaves = saved.windows[0].layout.panes();
    assert_eq!(leaves, [&kept("C:\\start", &[]), &kept("D:\\there", &["last"])]);
    assert_eq!(saved.windows[1].name, "more");
    assert_eq!(s.plan_restore("a", 1, None, None), Err("session a already exists".into()));
    assert_eq!(s.plan_restore("b", 0, None, None), Err("session b has no windows".into()));
    assert_eq!(s.plan_restore("b", 1, None, None), Ok((80, 24)));
    assert_eq!(s.plan_restore("b", 1, None, Some((1, 1))), Ok((10, 3)));
    assert_eq!(s.plan_restore("b", 1, Some((100, 40)), Some((1, 1))), Ok((100, 40)));
    s.finish_restore(sid, 9);
    assert_eq!((s.sessions[0].cur, s.sessions[0].last), (1, None), "no such window: the last");
    assert_eq!(restore_fault("a", "one", "no"), "a:one: no");
    assert_eq!(replay_text(&vec![]), None);
    assert_eq!(replay_text(&vec!["x".into(), "y".into()]).as_deref(), Some("x\r\ny\r\n"));
}

#[test]
fn a_session_file_is_written_when_something_changed() {
    let mut a = Autosave { saved: Vec::new() };
    assert!(a.due(false, "f", "k"));
    a.note("f".into(), "k".into());
    assert!(!a.due(false, "f", "k") && a.due(true, "f", "k") && a.due(false, "f", "other"));
    a.note("g".into(), "k2".into());
    a.note("f".into(), "k3".into());
    assert!(!a.due(false, "f", "k3") && !a.due(false, "g", "k2") && a.saved.len() == 2);
}

#[test]
fn a_new_pane_starts_where_it_is_told_or_the_client_is() {
    let (mut s, sid, one) = server();
    assert_eq!(s.pane_cwd(None, sid, None).as_deref(), Some("C:\\start"));
    assert_eq!(s.pane_cwd(None, 99, None), None);
    s.client_came(1, 0);
    s.client_says(1, 80, 24, "D:\\here".into(), true, Some(one));
    assert_eq!(s.pane_cwd(None, sid, Some(1)).as_deref(), Some("C:\\start"), "the active pane's first");
    assert_eq!(s.pane_cwd(None, 99, Some(1)).as_deref(), Some("D:\\here"));
    s.find_pane_mut(one).unwrap().cwd = None;
    assert_eq!(s.pane_cwd(None, sid, Some(1)).as_deref(), Some("D:\\here"));
    assert_eq!(s.pane_cwd(Some("E:\\"), sid, Some(1)).as_deref(), Some("E:\\"));
    assert_eq!(s.plan_cwd(None, None, Some(1)), Ok((one, "D:\\here".into())));
    assert_eq!(
        s.plan_cwd(None, None, None),
        Err("set-cwd: no directory given and the client has none".into())
    );
    let env = pane_env("sock", 7, "/bin", &vec![("PATH".into(), "/mine".into())]);
    let shown: Vec<(&str, &str)> = env.iter().map(|(k, v)| (k.as_str(), v.as_str())).collect();
    assert_eq!(shown, [("WMUX", "sock"), ("WMUX_PANE", "7"), ("PATH", "/bin"), ("PATH", "/mine")]);
}

#[test]
fn several_splits_stay_even() {
    let (mut s, _, one) = server();
    let two = split(&mut s, one);
    s.tile(0, 0);
    let largest = s.largest_pane(0, 0);
    let three = split(&mut s, largest);
    s.tile(0, 0);
    let w = &s.sessions[0].windows[0];
    assert_eq!(w.layout.panes().len(), 3);
    assert!(w.layout.panes().contains(&two));
    s.focus_split(0, 0, three, one);
    let w = &s.sessions[0].windows[0];
    assert_eq!((w.active, w.last_pane), (three, Some(one)));
    assert_eq!(first_new(&vec![3, 5], &vec![9, 3, 7, 5]), Some(7));
    assert_eq!(first_new(&vec![3], &vec![3]), None);
    assert_eq!(split_stopped(2, 5, "no room"), "split-window: made 2 of 5 panes: no room");
}

#[test]
fn keys_are_bound_and_unbound_by_name() {
    let mut t = KeyTables { prefix: KeyTable::new(), root: KeyTable::new(), copy: KeyTable::new() };
    assert_eq!(t.bind_key(KeySet::Root, "C-a", "next-window".into(), true), Outcome::Done);
    assert_eq!(t.root.get(Key::ctrl('a')).map(|b| b.line.as_str()), Some("next-window"));
    assert!(t.prefix.get(Key::ctrl('a')).is_none());
    assert_eq!(t.bind_key(KeySet::Copy, "MouseDown1Pane", "x".into(), false), Outcome::Done);
    assert!(t.copy.list.is_empty());
    assert_eq!(t.unbind_key(KeySet::Root, "C-a"), Outcome::Done);
    assert!(t.root.list.is_empty());
    assert_eq!(t.unbind_key(KeySet::Root, "Nokey"), Outcome::Error("unknown key: Nokey".into()));
    assert_eq!(key_line(KeySet::Prefix, true, "h         ", "x"), "bind-key -r -T prefix h          x");
    assert_eq!(key_line(KeySet::Copy, true, "h", "x"), "bind-key -T copy-mode-vi h x");
}

#[test]
fn hooks_are_set_shown_and_taken_away() {
    let mut h = Hooks { lines: Vec::new(), running: false };
    assert!(matches!(h.set("after-lunch".into(), None), Outcome::Error(e) if e.starts_with("unknown hook: after-lunch (known: after-new-session, ")));
    assert_eq!(h.set("pane-exited".into(), Some("a".into())), Outcome::Done);
    assert_eq!(h.set("client-attached".into(), Some("b".into())), Outcome::Done);
    assert_eq!(h.set("pane-exited".into(), Some("c".into())), Outcome::Done);
    assert_eq!(h.show(&vec!["b".into(), "'c d'".into()]), Outcome::Text("client-attached b\npane-exited 'c d'".into()));
    assert_eq!(h.set("client-attached".into(), None), Outcome::Done);
    assert_eq!(h.lines.len(), 1);
    assert_eq!(h.fire("pane-exited").as_deref(), Some("c"));
    let mut r = Sourcing { open: Vec::new(), plugins: Vec::new() };
    assert_eq!(r.list_plugins(), Outcome::Text("no plugins loaded".into()));
    r.add_plugin("p".into());
    assert_eq!(r.list_plugins(), Outcome::Text("p".into()));
}

#[test]
fn a_pane_starts_anew_and_forgets_its_scrollback() {
    let (mut s, _, one) = server();
    let p = s.find_pane_mut(one).unwrap();
    p.title = "t".into();
    p.generation = u32::MAX;
    assert_eq!(p.respawn(Some(vec![]), "x".into(), 5), Err("pane has no command to respawn".into()));
    assert_eq!(p.title, "t");
    assert_eq!(p.respawn(None, "sh".into(), 5), Ok(()));
    assert_eq!((p.generation, p.title.as_str(), p.spawned_at, p.cols), (0, "", 5, 80));
    assert_eq!(p.cwd.as_deref(), Some("C:\\start"));
    p.start_pending(Some(3), 9);
    assert_eq!((p.pid, p.spawned_at), (Some(3), 9));
    let sc = screen(&["one", "two words", "three"], 2);
    assert_eq!(p.search(&sc, "", false, true), None);
    assert!(p.copy.is_none());
    assert_eq!(p.search(&sc, "words", true, true), None);
    assert_eq!(p.copy.as_ref().map(|c| c.cx), Some(4));
    assert_eq!(p.search(&sc, "absent", true, true).as_deref(), Some("no match: absent"));
    p.clear_history(8);
    assert!(p.copy.is_none() && p.log.logged == 8);
    p.pipe = Some(Pipe { command: "c".into(), output: false, dropped: 0 });
    p.pipe_ended();
    assert!(p.pipe.is_none());
}

#[test]
fn logging_starts_with_what_scrolls_next_and_ends_with_what_was_held() {
    let (mut s, _, one) = server();
    let p = s.find_pane_mut(one).unwrap();
    let now = Time { ms: 1_790_000_000_000, offset: 0 };
    let say = |_: i64| String::new();
    assert_eq!(p.history_turn(true, true, &screen(&["a", "b", "c"], 2), 0, now, &say), None);
    assert_eq!(p.log.logged, 1);
    let later = screen(&["a", "b", "c", "d"], 2);
    let out = p.history_turn(false, false, &later, 10, now, &say);
    assert_eq!(out.as_deref().map(|t| t.contains('b') && !t.contains('a')), Some(true));
    assert!(!p.logging && p.log.logged == 2);
}

#[test]
fn a_pane_is_brought_to_every_terminal() {
    let (mut s, sid, one) = server();
    assert_eq!(s.focus_plan(99), Err("focus-pane: no pane %99".into()));
    assert_eq!(s.focus_plan(one), Err("focus-pane: no client attached (`wmux attach` first)".into()));
    s.client_came(1, 0);
    s.client_says(1, 80, 24, String::new(), true, None);
    assert!(s.attach(1, sid, None, 0));
    let wid = s.sessions[0].windows[0].id;
    assert_eq!(s.focus_plan(one), Ok((sid, wid, vec![1])));
    assert_eq!(focus_text(1, one), format!("1 client(s) switched to pane %{one}"));
}

#[test]
fn what_commands_print_is_cut_to_a_line() {
    assert_eq!(first_line("up 3 days \r\nmore"), "up 3 days");
    assert_eq!((first_line(""), first_line("\nx")), (String::new(), String::new()));
    assert_eq!(missing_shells(vec!["a".into(), "b".into(), "a".into()], &vec!["b".into()]), ["a", "a"]);
    assert_eq!(slow_pipe(3, "cat"), "pipe-pane %3: cat is not keeping up; output dropped");
    assert_eq!(version_fault(1, 2), "protocol mismatch: client 1, server 2");
}

#[test]
fn a_frame_shows_clocks_numbers_and_the_bell() {
    let (mut s, sid, one) = server();
    let two = split(&mut s, one);
    s.client_came(1, 0);
    s.client_says(1, 80, 24, String::new(), true, None);
    assert!(s.attach(1, sid, None, 0));
    let shown = s.shown_panes(0);
    assert_eq!(shown.iter().map(|p| (p.0, p.2)).collect::<Vec<_>>(), [(one, true), (two, false)]);
    assert!(s.clocks(0).is_empty());
    s.set_clock(two, true);
    assert_eq!(s.clocks(0), [shown[1].1]);
    assert_eq!(s.pane_numbers(1, 0, 5), None);
    s.display_panes(Some(1), 0);
    let numbers = s.pane_numbers(1, 0, 5).unwrap();
    assert_eq!(numbers, [(shown[0].1, 0, true), (shown[1].1, 1, false)]);
    s.find_pane_mut(two).unwrap().bell = true;
    assert!(s.ring(1, 0) && !s.ring(1, 0));
    s.clients[0].message = Some(("hello".into(), 100));
    s.expire_messages(850);
    assert!(s.clients[0].message.is_some());
    s.expire_messages(851);
    assert!(s.clients[0].message.is_none());
    assert_eq!(frame_bytes(false, false, vec![]), None);
    assert_eq!(frame_bytes(true, true, vec![1]), Some(vec![7, 1]));
    let mut p = command_prompt(None, "x".into(), None);
    assert_eq!(prompt_line(&p), (":".into(), "x".into(), 1));
    p.hint = Some("a b".into());
    assert_eq!(prompt_line(&p).0, "a b");
}

#[test]
fn a_line_of_the_log_reads_back_as_what_happened() {
    let mut s = Store::default();
    s.on = true;
    let at = Time { ms: 1_790_000_000_123, offset: 7200 };
    let m = Message {
        id: 7,
        task: 3,
        from: Sender::Pane {
            id: 12,
            address: "$1:@2.%12".into(),
            name: Some("say \"hi\"".into()),
            mode: WorkMode::Ai,
        },
        to: "$1:@2.%4".into(),
        via: WorkMode::Shell,
        hop: 2,
        re: Some(5),
        text: "a\nb\t\u{1}\\".into(),
        at,
    };
    s.sent(&m, Some("no room"));
    let e = read_event(&s.log[0].line).unwrap();
    assert_eq!((e.at, e.ev.as_str(), e.why.as_deref()), (at, "rejected", Some("no room")));
    let back = e.msg.unwrap();
    assert_eq!((back.id, back.task, back.hop, back.re), (7, 3, 2, Some(5)));
    assert_eq!((back.to.as_str(), back.text.as_str()), ("$1:@2.%4", "a\nb\t\u{1}\\"));
    assert!(matches!(back.from, Sender::Pane { id: 12, name: Some(n), mode: WorkMode::Ai, .. } if n == "say \"hi\""));
    s.ended(7, End::Done, Some(false), Some(("out".into(), true)), at);
    let e = read_event(&s.log[1].line).unwrap();
    assert_eq!((e.ev.as_str(), e.id, e.ok, e.output.as_deref(), e.cut), ("failed", Some(7), Some(false), Some("out"), true));
    assert!(read_event("not json").is_none());
}

#[test]
fn a_filter_prompt_drives_its_picker_and_escape_puts_the_old_one_back() {
    let mut c = Client::connected(1, 0);
    assert_eq!(c.key_at_prompt(Key::ch('a')).0, PromptAction::Stay);
    assert!(c.prompt.is_none());
    let tree = || {
        let items = vec![ChooserItem::Tree(1, None), ChooserItem::Tree(2, None)];
        let mut ch = Chooser::new(ChooserKind::Tree { expand: false }, items, vec!["a".into(), "b".into()], 0);
        ch.filter = "old".into();
        ch
    };
    c.chooser = Some(tree());
    assert_eq!(c.key_in_picker(10, Key::ch('f')), Picked::Nothing);
    let p = c.prompt.as_ref().unwrap();
    assert_eq!((p.label.as_str(), p.input.as_str(), p.cursor), ("(filter) ", "old", 3));
    assert_eq!(c.key_at_prompt(Key::ch('x')).0, PromptAction::Stay);
    assert_eq!(c.chooser.as_ref().unwrap().filter, "oldx");
    let (action, left) = c.key_at_prompt(Key::plain(KeyCode::Escape));
    assert!(action == PromptAction::Cancel && left.is_none() && c.prompt.is_none());
    assert_eq!(c.chooser.as_ref().unwrap().filter, "old");
    assert_eq!(c.key_in_picker(10, Key::ch('j')), Picked::Nothing);
    assert_eq!(c.key_in_picker(10, Key::plain(KeyCode::Enter)), Picked::Go(ChooserItem::Tree(2, None)));
    assert!(c.chooser.is_none());
}

#[test]
fn lines_of_a_picker_are_killed_by_what_they_stand_for() {
    let (mut s, sid, one) = server();
    let wid = s.sessions[0].windows[0].id;
    let aim = |window: Option<&str>, pane: Option<usize>| Target {
        session: Some("a".into()),
        window: window.map(str::to_string),
        pane,
        pane_id: None,
    };
    assert_eq!(s.picker_act(&ChooserItem::Tree(sid, None), false), Ok(Act::KillSession(aim(None, None))));
    assert_eq!(s.picker_act(&ChooserItem::Tree(sid, Some(wid)), false), Ok(Act::KillWindow(aim(Some("0"), None))));
    assert_eq!(s.picker_act(&ChooserItem::Tree(99, None), false), Err("session is gone".into()));
    assert_eq!(s.picker_act(&ChooserItem::Tree(sid, Some(99)), false), Err("window is gone".into()));
    let job = ChooserItem::Job(sid, wid, one);
    assert_eq!(s.picker_act(&job, false), Ok(Act::KillPane(aim(Some("0"), Some(0)))));
    assert_eq!(s.picker_act(&job, true), Ok(Act::RestartPane(aim(Some("0"), Some(0)))));
    assert_eq!(s.picker_act(&ChooserItem::Job(sid, wid, 99), true), Err("pane is gone".into()));
    assert_eq!(s.picker_act(&ChooserItem::Separator, false), Ok(Act::Nothing));
    s.client_came(1, 0);
    assert_eq!((s.picker_page(1), s.picker_page(9)), (22, 1));
}

#[test]
fn saved_sessions_are_listed_and_not_deleted_while_they_run() {
    let (s, _, _) = server();
    assert_eq!(s.list_saved(&vec![], "dir"), Outcome::Text("no saved sessions in dir".into()));
    let saved = vec![("a".into(), "2026-01-02T03:04:05.678+01:00".into()), ("b".into(), "soon".into())];
    assert_eq!(
        s.list_saved(&saved, "dir"),
        Outcome::Text("a: saved 2026-01-02 03:04:05 (running)\nb: saved soon".into())
    );
    assert_eq!(
        s.may_delete_saved("a", true),
        Err("session a is running; kill it first (or set autosave off)".into())
    );
    assert_eq!((s.may_delete_saved("a", false), s.may_delete_saved("b", true)), (Ok(()), Ok(())));
}

#[test]
fn a_picker_never_selects_a_title() {
    let items = vec![ChooserItem::Separator, ChooserItem::Menu(0), ChooserItem::Separator];
    let lines: Vec<String> = vec!["t".into(), "x".into(), "-".into()];
    let mut ch = Chooser::new(ChooserKind::Found, items, lines, 1);
    let area = Rect { x: 0, y: 0, w: 20, h: 10 };
    let click = |y: i16| decode_mouse(&MouseRecord { x: 1, y, buttons: 1, flags: 0, ctrl: 0 }, 0);
    ch.mouse(&click(0), area);
    assert_eq!(ch.sel, 1);
    ch.mouse(&click(1), area);
    assert_eq!(ch.sel, 1);
    ch.sel = 7;
    assert!(ch.settle(-1) && ch.sel == 1);
    let mut none = Chooser::new(ChooserKind::Menu(Vec::new()), Vec::new(), Vec::new(), 0);
    assert!(!none.settle(1) && none.sel == 0);
}

#[test]
fn options_lay_sessions_out_anew_and_pickers_open_at_home() {
    let (mut s, sid, one) = server();
    s.client_came(1, 0);
    s.client_says(1, 80, 24, String::new(), true, None);
    assert!(s.attach(1, sid, None, 0));
    let mut opts = options();
    opts.status = false;
    opts.mouse = false;
    s.apply_options(opts, true);
    assert_eq!(s.sessions[0].windows[0].panes[0].rows, 24);
    assert_eq!(s.clients[0].outbox.pending.back(), Some(&ServerMsg::SetMouse(false)));
    let wid = s.sessions[0].windows[0].id;
    let items = vec![ChooserItem::Separator, ChooserItem::Job(9, 9, 9), ChooserItem::Job(sid, wid, one)];
    let lines: Vec<String> = vec!["".into(), "".into(), "".into()];
    assert_eq!(jobs_chooser(items, lines, Some(one)).sel, 2);
    let day = |date: &str| Day { date: date.into(), weekday: "Mon".into(), ago: 0, path: date.into(), size: 1 };
    let kept = vec![Kept { session: "a".into(), key: "0.0".into(), days: vec![day("d1")] }];
    let ch = history_chooser(kept, Some(0));
    assert_eq!((ch.items.len(), ch.items[ch.sel]), (2, ChooserItem::Log(0, Some(0))));
    s.repeat_until(1, Some(7));
    assert_eq!(s.clients[0].repeat_until, Some(7));
}

#[test]
fn a_saved_layout_comes_back_with_other_panes() {
    let (mut s, _, one) = server();
    let two = split(&mut s, one);
    let (cell, cols, rows) = s.plan_split(0, 0, two, false, false).unwrap();
    let mut p = pane(&mut s, None);
    p.resize(cols, rows);
    let three = p.id;
    s.place_split(0, 0, two, false, false, false, cell, p);
    let w = &s.sessions[0].windows[0];
    let saved = w.saved_layout(&vec![], &vec![]);
    assert_eq!(saved.to_layout(&vec![one, two, three]).as_ref(), Some(&w.layout), "its own panes: as it was");
    let other = saved.to_layout(&vec![71, 72, 73]).unwrap();
    assert_eq!(other.panes(), [71, 72, 73]);
    let mut same = w.layout.clone();
    same.set_panes(&[71, 72, 73]);
    assert_eq!(other, same, "the same splits, directions and sizes");
    assert_eq!(saved.to_layout(&vec![71, 72]), None, "too few panes");
    let leaf = || SavedNode::Pane(SavedPane { argv: vec![], cwd: None, history: vec![] });
    let bare = SavedNode::Split { horizontal: true, children: vec![], sizes: vec![] };
    assert_eq!(bare.to_layout(&vec![1]), None, "no cells");
    let odd = SavedNode::Split { horizontal: true, children: vec![leaf()], sizes: vec![4, 5] };
    assert_eq!(odd.to_layout(&vec![1]), None, "not a size for each");
}

#[test]
fn a_saved_session_is_resumed_as_it_was() {
    let (mut s, _, one) = server();
    let two = split(&mut s, one);
    s.focus_split(0, 0, two, one);
    let p = pane(&mut s, None);
    s.new_window(0, p, Some("more".into()), false, 0);
    let saved = s.snapshot(0, &vec![], &vec![]);
    // Another server, as after a reboot.
    let mut t = Server::new(options());
    let (cols, rows) = t.plan_restore(&saved.name, saved.windows.len(), None, Some(saved.size)).unwrap();
    let sid = t.alloc_id();
    let first = pane(&mut t, None);
    t.add_session(sid, saved.name.clone(), Some(saved.windows[0].name.clone()), first, cols, rows, 0, 0);
    for (j, w) in saved.windows.iter().enumerate() {
        if j > 0 {
            let p = pane(&mut t, None);
            t.new_window(0, p, Some(w.name.clone()), true, 0);
        }
        let list: Vec<Pane> = w.layout.panes().iter().map(|_| pane(&mut t, None)).collect();
        let layout = w.layout.to_layout(&list.iter().map(|p| p.id).collect()).unwrap();
        t.rebuild_window(0, j, list, layout, w.active, w.zoomed);
    }
    t.finish_restore(sid, saved.current);
    let (a, b) = (&s.sessions[0], &t.sessions[0]);
    assert_eq!((&b.name, b.cur, b.cols, b.rows), (&a.name, a.cur, a.cols, a.rows));
    assert_eq!(b.windows.len(), a.windows.len());
    for (v, w) in a.windows.iter().zip(&b.windows) {
        let mut as_was = v.layout.clone();
        as_was.set_panes(&w.layout.panes());
        assert_eq!((&w.name, &w.layout, w.zoomed), (&v.name, &as_was, v.zoomed));
        let place = |w: &wmux::window::Window| w.layout.panes().iter().position(|p| *p == w.active);
        assert_eq!(place(w), place(v));
    }
}

#[test]
fn a_file_that_was_renamed_is_written_again() {
    let mut a = Autosave { saved: Vec::new() };
    a.note("f".into(), "k".into());
    a.note("g".into(), "k".into());
    a.forget("f");
    assert!(a.due(false, "f", "k") && !a.due(false, "g", "k"));
}

#[test]
fn a_split_goes_on_stops_or_is_refused() {
    let (mut s, _, one) = server();
    assert_eq!(s.split_next(0, 0, 0, 3, Err("no room".into())), SplitNext::Refused("no room".into()));
    let two = split(&mut s, one);
    assert_eq!(s.split_next(0, 0, 0, 1, Ok(two)), SplitNext::Done, "one was wanted");
    let next = s.split_next(0, 0, 0, 3, Ok(two));
    assert_eq!(next, SplitNext::Go(s.largest_pane(0, 0)));
    assert_eq!(
        s.split_next(0, 0, 1, 3, Err("no room".into())),
        SplitNext::Stopped("split-window: made 1 of 3 panes: no room".into())
    );
    let three = split(&mut s, one);
    assert_eq!(s.split_next(0, 0, 2, 3, Ok(three)), SplitNext::Done);
}

#[test]
fn output_is_piped_and_recorded_until_it_stops() {
    let (mut s, _, one) = server();
    let p = s.find_pane_mut(one).unwrap();
    assert_eq!(p.pipe_wanted(Some("cat".into()), true), Some("cat".into()));
    assert_eq!(p.pipe_wanted(None, false), None);
    assert_eq!(p.pipe_to(Some("cat".into()), true, Ok(())), Outcome::Done);
    assert_eq!(p.pipe, Some(Pipe { command: "cat".into(), output: true, dropped: 0 }));
    assert_eq!(p.pipe_wanted(Some("cat".into()), true), None, "it only stops");
    assert_eq!(p.pipe_wanted(Some("tee".into()), false), Some("tee".into()));
    assert_eq!(p.pipe_to(Some("tee".into()), true, Err("no tee".into())), Outcome::Error("no tee".into()));
    assert_eq!(p.pipe, None, "the old one stopped all the same");
    assert_eq!(p.stop_recording(), Outcome::Error("not recording".into()));
    assert_eq!(p.record_to("a.cast", Ok(())), Outcome::Text(format!("recording %{one} to a.cast")));
    assert_eq!(p.recording.as_deref(), Some("a.cast"));
    assert_eq!(p.record_to("/no/b", Err("no".into())), Outcome::Error("no".into()));
    assert_eq!(p.recording, None);
    p.record_to("c.cast", Ok(()));
    assert_eq!(p.stop_recording(), Outcome::Text("recording stopped: c.cast".into()));
}

#[test]
fn options_are_shown_by_name_or_all() {
    let (mut s, _, _) = server();
    let shown = |name: &str, value: &str, written: &str| ShownOption {
        name: name.into(),
        value: value.into(),
        written: written.into(),
    };
    let listed = vec![shown("mouse", "on", "on"), shown("status-left", "#S ", "\"#S \"")];
    let own = vec![shown("@mine", "1", "1")];
    let show = |s: &Server, name: Option<&str>, value_only: bool, quiet: bool, asked: Option<ShownOption>| {
        s.show_options(name, value_only, quiet, asked, &listed, &own, None)
    };
    let left = || Some(shown("status-left", "#S ", "\"#S \""));
    assert_eq!(show(&s, Some("status-left"), false, false, left()), Outcome::Text("status-left \"#S \"".into()));
    assert_eq!(show(&s, Some("status-left"), true, false, left()), Outcome::Text("#S ".into()));
    assert_eq!(show(&s, Some("nope"), false, false, None), Outcome::Error("unknown option: nope".into()));
    assert_eq!(show(&s, Some("nope"), false, true, None), Outcome::Text(String::new()));
    assert_eq!(
        show(&s, None, false, false, None),
        Outcome::Text("mouse on\nstatus-left \"#S \"\nsynchronize-panes off\n@mine 1".into())
    );
    s.synchronize(None, Some(true), None);
    assert_eq!(show(&s, Some("synchronize-panes"), true, false, None), Outcome::Text("on".into()));
    assert_eq!(show(&s, Some("synchronize-panes"), false, false, None), Outcome::Text("synchronize-panes on".into()));
    let none = Server::new(options());
    assert!(matches!(show(&none, Some("synchronize-panes"), false, false, None), Outcome::Error(_)));
    assert_eq!(show(&none, None, false, false, None), Outcome::Text("mouse on\nstatus-left \"#S \"\n@mine 1".into()));
}

#[test]
fn programs_are_found_beside_the_server() {
    assert_eq!(pane_path("/bin", Some("/opt/wmux"), false), "/opt/wmux;/bin");
    assert_eq!(pane_path("/opt/wmux;/bin", Some("/opt/wmux"), true), "/opt/wmux;/bin");
    assert_eq!(pane_path("/bin", None, false), "/bin");
    assert_eq!(program_name(Some("PowerShell")), "powershell");
    assert_eq!(program_name(None), "");
}
