use wmux::bindings::{default_bindings, KeyTable};
use wmux::buffers::{Buffers, BUFFER_LIMIT};
use wmux::chooser::{Chooser, ChooserItem, ChooserKind};
use wmux::client::{Client, Popup};
use wmux::client_commands::{
    command_prompt, confirm_prompt, copy_command, is_true, menu_chooser, paste, read_boolean, send_keys, CopyStep,
};
use wmux::command::{Dir, MenuItem, Outcome, Target};
use wmux::copy_keys::{copy_key, CopyAction};
use wmux::copy_mode::{copy_search, enter_copy_mode};
use wmux::drawing::frame_due;
use wmux::keeping::{prunes, runs_status_shell, saved_lines, saves_history};
use wmux::key_flow::{KeyAction, KeyRules, KeyTables};
use wmux::keys::{Key, KeyCode, KeyRecord};
use wmux::layout::{Node, Rect};
use wmux::mouse::{border_owner, decode_mouse, find_label, report_mouse, MouseMode, MouseRecord};
use wmux::mouse_flow::MouseStep;
use wmux::pane::Pane;
use wmux::prompt::{common_prefix, fill_template, prompt_key, PromptAction};
use wmux::screen::{Row, Screen};
use wmux::server::{Options, Server};
use wmux::sourcing::{
    line_fault, plugin_entries, plugin_name, say_undo, short_name, source_report, Hooks, Sourcing,
};
use wmux::waits::Waits;

fn options() -> Options {
    Options {
        status: true,
        status_top: false,
        pane_border_status: "off".into(),
        window_size: "latest".into(),
        base_index: 0,
        pane_base_index: 0,
        keep_zoom: false,
        undo_kill_time: 60,
        remain_on_exit: false,
        monitor_activity: false,
        monitor_bell: false,
        monitor_silence: 0,
        visual_bell: false,
        visual_activity: false,
        mouse: true,
        display_time_ms: 1500,
        repeat_time_ms: 500,
    }
}

fn pane(s: &mut Server) -> Pane {
    let id = s.alloc_id();
    Pane::started(id, "sh".into(), vec!["sh".into()], None, 80, 23, 0)
}

/// A server with one session of one pane, and client 1 attached to it.
fn server() -> (Server, u32, u32) {
    let mut s = Server::new(options());
    let sid = s.alloc_id();
    let p = pane(&mut s);
    let id = p.id;
    s.add_session(sid, "a".into(), None, p, 80, 24, 0, 0);
    s.client_came(1, 0);
    s.client_says(1, 80, 24, String::new(), true, None);
    assert!(s.attach(1, sid, None, 0));
    (s, sid, id)
}

fn split(s: &mut Server, pid: u32) -> u32 {
    let (i, j) = s.place_of_pane(pid).unwrap();
    let (cell, cols, rows) = s.plan_split(i, j, pid, true, false).unwrap();
    let mut p = pane(s);
    p.resize(cols, rows);
    let id = p.id;
    s.place_split(i, j, pid, true, false, false, cell, p);
    id
}

fn rows(lines: &[&str]) -> Vec<Row> {
    lines.iter().map(|l| Row { text: l.to_string(), wrapped: false }).collect()
}

fn screen(lines: &[&str], on_screen: u16) -> Screen {
    Screen {
        lines: rows(lines),
        rows: on_screen,
        cols: 20,
        scrolled: (lines.len() - on_screen as usize) as u64,
        cursor_row: 0,
        cursor_col: 0,
        alternate: false,
        bracketed: false,
        app_cursor: false,
    }
}

#[test]
fn keys_sent_by_name_or_as_they_are() {
    let words = vec!["a".to_string(), "Enter".to_string(), "C-c".to_string()];
    assert_eq!(send_keys(&words, false, false), b"a\r\x03");
    assert_eq!(send_keys(&words, true, false), b"aEnterC-c");
    assert_eq!(send_keys(&vec!["Up".to_string()], false, true), b"\x1bOA");
}

#[test]
fn copy_commands_are_the_keys_that_do_them() {
    assert_eq!(copy_command("cursor-up", false), Ok(CopyStep::Press(Key::ch('k'))));
    assert_eq!(copy_command("halfpage-down", false), Ok(CopyStep::Press(Key::ctrl('d'))));
    assert_eq!(copy_command("copy-pipe-and-cancel", true), Ok(CopyStep::Press(Key::ch('y'))));
    assert_eq!(copy_command("search-backward", false), Ok(CopyStep::Press(Key::ch('?'))));
    assert_eq!(copy_command("search-backward", true), Ok(CopyStep::Search { back: true }));
    assert_eq!(copy_command("fly", false), Err("send-keys -X: unknown command 'fly'".into()));
}

#[test]
fn truth_and_booleans_are_read_as_options_are() {
    assert!(is_true(" yes ") && is_true("00") && !is_true("") && !is_true(" 0 ") && !is_true("  "));
    assert_eq!(read_boolean(" ON "), Ok(Some(true)));
    assert_eq!(read_boolean("no"), Ok(Some(false)));
    assert_eq!(read_boolean(""), Ok(None));
    assert_eq!(read_boolean("Perhaps"), Err("bad boolean 'perhaps'".into()));
}

#[test]
fn a_paste_needs_something_to_paste() {
    assert_eq!(paste(Some("b"), None, false), Err("no buffer b".into()));
    assert_eq!(paste(Some("b"), Some(""), false), Err("buffer is empty".into()));
    assert_eq!(paste(None, Some(""), false), Err("clipboard is empty".into()));
    assert_eq!(paste(None, Some("x\ny"), true), Ok(b"\x1b[200~x\ry\x1b[201~".to_vec()));
}

#[test]
fn prompts_have_labels_and_menus_rest_on_an_entry() {
    assert_eq!(command_prompt(None, "ab".into(), None).label, ":");
    let p = command_prompt(Some("(rename)".into()), "ab".into(), Some("x %%".into()));
    assert_eq!((p.label.as_str(), p.cursor), ("(rename) ", 2));
    assert_eq!(confirm_prompt(None, "kill-pane".into()).label, "Confirm 'kill-pane'? (y/n) ");
    let entries = vec![
        MenuItem { name: String::new(), key: None, cmd: None },
        MenuItem { name: "Zoom".into(), key: Some("z".into()), cmd: Some("resize-pane -Z".into()) },
    ];
    let ch = menu_chooser(Some("pane".into()), entries, &vec![String::new(), "Zoom".into()]);
    assert_eq!(ch.lines, ["pane", "--------------------", "(z) Zoom"]);
    assert_eq!((ch.sel, ch.items[2]), (2, ChooserItem::Menu(1)));
    assert_eq!(ch.actions(), "Enter select");
}

#[test]
fn a_client_is_shown_pickers_prompts_and_numbers() {
    let (mut s, _, _) = server();
    let ch = || Chooser::new(ChooserKind::Buffers, vec![ChooserItem::Buffer(0)], vec!["x".into()], 0);
    assert_eq!(s.open_chooser(None, "choose-buffer", ch()), Outcome::Error("choose-buffer: no client".into()));
    s.open_prompt(1, command_prompt(None, String::new(), None));
    assert_eq!(s.open_chooser(Some(1), "choose-buffer", ch()), Outcome::Done);
    assert!(s.clients[0].prompt.is_none() && s.clients[0].chooser.is_some(), "one modal at a time");
    s.client_came(2, 0);
    assert_eq!(
        s.open_chooser(Some(2), "choose-buffer", ch()),
        Outcome::Error("choose-buffer: client not attached".into())
    );
    assert_eq!(s.display_panes(None, 0), Outcome::Error("display-panes: no client".into()));
    assert_eq!(s.display_panes(Some(1), 10), Outcome::Done);
    assert_eq!(s.clients[0].panes_until, Some(1510));
    s.clients[0].view_y = 3;
    s.refresh_client(Some(1), Some((Dir::Up, 5)));
    assert_eq!((s.clients[0].view_y, s.clients[0].view_pinned), (0, true));
}

#[test]
fn a_popup_has_room_follows_its_terminal_and_ends() {
    let (mut s, _, _) = server();
    assert_eq!(s.plan_popup(None, None, None, None, None), Err("display-popup: no client".into()));
    let rect = s.plan_popup(Some(1), Some("50%"), Some("10"), None, None).unwrap();
    assert_eq!((rect.w, rect.h), (40, 10));
    let p = pane(&mut s);
    let id = p.id;
    let popup = |pane: Pane, rect: Rect| Popup {
        pane,
        rect,
        width: Some("50%".into()),
        height: Some("10".into()),
        x: None,
        y: None,
        close_on_exit: false,
        finished: false,
    };
    assert!(s.open_popup(1, popup(p, rect)));
    assert_eq!(s.prefix_pane(None, Some(1)), Ok(id), "the program in the box");
    let named = Target { session: None, window: Some("0".into()), pane: None, pane_id: None };
    assert_ne!(s.prefix_pane(Some(&named), Some(1)), Ok(id));
    assert_eq!(s.popup_of_pane(id), Some(1));
    s.client_resized(1, 60, 24);
    s.refit_popup(1);
    let fitted = s.clients[0].popup.as_ref().unwrap();
    assert_eq!((fitted.rect.w, fitted.pane.cols, fitted.pane.rows), (30, 28, 8));
    assert!(matches!(s.pane_exited(id, 0, 0, 5), wmux::events::Exited::InPopup));
    assert!(s.clients[0].popup.as_ref().unwrap().finished, "waits for a key");
    assert_ne!(s.prefix_pane(None, Some(1)), Ok(id), "its program ended");
    s.close_popups(1);
    assert!(s.clients[0].popup.is_none());
    s.client_resized(1, 2, 2);
    assert_eq!(s.plan_popup(Some(1), None, None, None, None), Err("display-popup: no room for a popup".into()));
}

#[test]
fn what_is_typed_reaches_every_pane_of_a_synchronized_window() {
    let (mut s, _, one) = server();
    let two = split(&mut s, one);
    assert_eq!(s.receivers(one), [one]);
    assert_eq!(s.synchronize(None, None, None), Outcome::Done);
    assert_eq!(s.receivers(one), [one, two]);
    assert!(s.receivers(99).is_empty());
}

#[test]
fn only_panes_that_ended_start_again_without_force() {
    let (mut s, _, one) = server();
    let two = split(&mut s, one);
    assert_eq!(s.panes_to_restart(None, false, false, None), Err("pane is still running (use -k)".into()));
    assert_eq!(s.panes_to_restart(None, true, true, None), Ok(vec![one, two]));
    s.mark_dead(two, 1, 0);
    assert_eq!(s.panes_to_restart(None, true, false, None), Ok(vec![two]));
}

#[test]
fn a_saved_window_comes_back_with_its_panes() {
    let (mut s, _, _) = server();
    let (a, b) = (pane(&mut s), pane(&mut s));
    let (x, y) = (a.id, b.id);
    let mut layout = Node::Leaf(x);
    layout.split(x, true, y, Rect { x: 0, y: 0, w: 80, h: 23 });
    let gone = s.rebuild_window(0, 0, vec![a, b], layout, 1, true);
    assert_eq!(gone.len(), 1);
    let w = &s.sessions[0].windows[0];
    assert_eq!((w.layout.panes(), w.active, w.zoomed), (vec![x, y], y, true));
}

#[test]
fn the_view_of_a_smaller_client_follows_the_cursor() {
    let whole = Rect { x: 0, y: 0, w: 100, h: 50 };
    let area = Rect { x: 0, y: 0, w: 40, h: 20 };
    let mut c = Client::connected(1, 0);
    c.follow(whole, area, Some((60, 5)), 1_000);
    assert_eq!((c.view_x, c.cursor_out), (0, Some(1_000)), "not at once");
    c.follow(whole, area, Some((60, 5)), 1_150);
    assert_eq!((c.view_x, c.view_y, c.cursor_out), (21, 0, None));
    assert_eq!(c.place_on_view((60, 5), whole, area), Some((39, 5)));
    assert_eq!(c.place_on_view((10, 5), whole, area), None);
    c.view_x = 90;
    c.view_pinned = true;
    c.follow(whole, area, Some((0, 0)), 9_000);
    assert_eq!(c.view_x, 60, "kept to the window, and where it was panned");
}

#[test]
fn frames_are_drawn_at_most_so_often() {
    assert_eq!(frame_due(0, 16), None);
    assert_eq!(frame_due(0, 10), Some(6));
    assert_eq!(frame_due(5, 0), Some(16));
}

#[test]
fn output_is_saved_and_logs_are_cleared_on_a_slow_beat() {
    assert!(!saves_history(0, None, 0) && saves_history(5, None, 0));
    assert!(!saves_history(5, Some(0), 30_000) && saves_history(5, Some(0), 30_001));
    assert!(!prunes(false, None, 0) && prunes(true, None, 0) && !prunes(true, Some(1), 86_400_000));
    assert!(runs_status_shell(false, false, Some(0), 5, 1) && !runs_status_shell(true, false, None, 5, 1));
    assert!(!runs_status_shell(false, true, Some(0), 0, 999) && runs_status_shell(false, true, Some(0), 0, 1_000));
    assert_eq!(saved_lines(&rows(&["a", "b", "c  ", ""]), 3), ["b", "c"]);
    assert!(saved_lines(&rows(&["a"]), 0).is_empty());
}

#[test]
fn configuration_is_read_once_and_reports_its_faults() {
    let mut r = Sourcing { open: Vec::new(), plugins: Vec::new() };
    assert_eq!(r.begin("a.conf", "/a.conf".into()), Ok(()));
    assert_eq!(
        r.begin("a.conf", "/a.conf".into()),
        Err("a.conf: is already being sourced (a source-file loop)".into())
    );
    r.finish();
    assert_eq!(r.begin("a.conf", "/a.conf".into()), Ok(()));
    assert!(r.add_plugin("/p".into()) && !r.add_plugin("/p".into()));
    assert_eq!(line_fault("a.conf", 7, "bad"), "a.conf:7: bad");
    assert_eq!(source_report("a", 3, &vec![], false), Ok(3));
    assert_eq!(source_report("a", 3, &vec!["x".into(), "y".into()], false), Err("x\ny".into()));
    assert_eq!(
        source_report("a", 3, &vec!["x".into()], true),
        Err("a: 1 lines wmux could not use were skipped (prefix ~ or show-messages lists them)".into())
    );
    assert_eq!(plugin_name("'\"user/repo\"'"), "user/repo");
    assert_eq!((short_name("user/repo"), short_name("a\\b"), short_name("c")), ("repo".into(), "b".into(), "c".into()));
    assert_eq!(plugin_entries("repo"), ["repo.wmux", "plugin.wmux", "plugin.conf"]);
}

#[test]
fn a_hook_does_not_run_within_another() {
    let mut h = Hooks { lines: vec![("after-new-window".into(), "rename-window x".into())], running: false };
    assert_eq!(h.fire("client-attached"), None);
    assert_eq!(h.fire("after-new-window").as_deref(), Some("rename-window x"));
    assert_eq!(h.fire("after-new-window"), None);
    h.done();
    assert!(h.fire("after-new-window").is_some());
    assert_eq!(say_undo(0, "pane", 60), None);
    assert_eq!(
        say_undo(1, "pane", 60).as_deref(),
        Some("pane killed; undo-kill (prefix u) brings it back within 60s")
    );
    assert!(say_undo(2, "window", 5).unwrap().starts_with("2 windows killed; "));
}

#[test]
fn buffers_are_stacked_and_found_by_name() {
    let mut b = Buffers { list: Vec::new(), next: 0 };
    assert_eq!(b.buffer(None), None);
    b.set_buffer(None, "one", false);
    b.set_buffer(Some("x"), "two", false);
    assert_eq!((b.buffer(None), b.buffer(Some("buffer0"))), (Some("two"), Some("one")));
    b.set_buffer(Some("x"), "+", true);
    assert_eq!(b.buffer(Some("x")), Some("two+"));
    assert_eq!(b.lines()[0], "x: 4 bytes: two+");
    assert!(b.delete(Some("x")) && !b.delete(Some("x")));
    for i in 0..BUFFER_LIMIT + 5 {
        b.set_buffer(None, &i.to_string(), false);
    }
    assert_eq!(b.list.len(), BUFFER_LIMIT);
}

#[test]
fn a_channel_is_signalled_once_and_locked_in_turn() {
    let mut w = Waits { channels: Vec::new() };
    assert_eq!(w.wait_for(1, "c", false, false, true), (Outcome::Done, vec![]), "nobody waits: kept");
    assert_eq!(w.wait_for(1, "c", false, false, false), (Outcome::Done, vec![]), "and taken");
    assert_eq!(w.wait_for(1, "c", false, false, false), (Outcome::Pending, vec![]));
    assert_eq!(w.wait_for(2, "c", false, false, true), (Outcome::Done, vec![1]));
    assert_eq!(w.wait_for(1, "l", true, false, false).0, Outcome::Done);
    assert_eq!(w.wait_for(2, "l", true, false, false).0, Outcome::Pending);
    assert_eq!(w.wait_for(1, "l", false, true, false), (Outcome::Done, vec![2]));
    w.forget(2);
    assert_eq!(w.wait_for(1, "l", false, true, false).0, Outcome::Done);
    assert_eq!(
        w.wait_for(1, "l", false, true, false).0,
        Outcome::Error("wait-for: channel l is not locked".into())
    );
    assert!(w.channels.is_empty());
}

fn press(vk: u16) -> KeyRecord {
    KeyRecord { down: true, repeat: 1, vk, sc: 0, ch: 0, ctrl: 0 }
}

#[test]
fn the_prefix_opens_its_table_and_keys_repeat_for_a_while() {
    let (mut s, _, _) = server();
    let t = KeyTables { prefix: default_bindings(), root: KeyTable::new(), copy: KeyTable::new() };
    let rules = |now: u64| KeyRules { prefix: Key::ctrl('b'), display_time_ms: 750, repeat_time_ms: 500, now };
    assert_eq!(s.handle_key(1, Some(Key::ctrl('b')), &press(66), &t, &rules(0)), KeyAction::Nothing);
    assert!(s.clients[0].prefix);
    assert_eq!(
        s.handle_key(1, Some(Key::ch('h')), &press(72), &t, &rules(0)),
        KeyAction::RunPrefix(Key::ch('h'), Some(500))
    );
    assert_eq!(s.handle_key(9, Some(Key::ch('h')), &press(72), &t, &rules(0)), KeyAction::Nothing, "no such client");
    s.clients[0].prefix = true;
    assert_eq!(
        s.handle_key(1, Some(Key::ch('¬')), &press(1), &t, &rules(0)),
        KeyAction::Unbound(Key::ch('¬'))
    );
}

#[test]
fn the_mouse_is_decoded_reported_and_finds_labels() {
    let e = decode_mouse(&MouseRecord { x: 5, y: 6, buttons: 1, flags: 0, ctrl: 0 }, 0);
    assert_eq!(report_mouse(&e, MouseMode::Press, 2, 3), Some(b"\x1b[<0;3;4M".to_vec()));
    let moved = decode_mouse(&MouseRecord { x: 5, y: 6, buttons: 1, flags: 1, ctrl: 0 }, 1);
    assert_eq!(report_mouse(&moved, MouseMode::PressRelease, 2, 3), None);
    assert_eq!(report_mouse(&moved, MouseMode::ButtonMotion, 2, 3), Some(b"\x1b[<32;3;4M".to_vec()));
    let up = decode_mouse(&MouseRecord { x: 5, y: 6, buttons: 0, flags: 0, ctrl: 0 }, 1);
    assert_eq!(report_mouse(&up, MouseMode::Press, 2, 3), None);
    assert_eq!(report_mouse(&up, MouseMode::PressRelease, 2, 3), Some(b"\x1b[<0;3;4m".to_vec()));
    assert_eq!(find_label(&vec![(0, 4), (5, 9)], 6), Some(1));
    assert_eq!(find_label(&vec![(0, 4)], 4), None);
    let left = (1, Rect { x: 0, y: 0, w: 10, h: 5 });
    let right = (2, Rect { x: 11, y: 0, w: 10, h: 5 });
    assert_eq!(border_owner(&vec![left, right], 10, 2), Some((1, true)));
    assert_eq!(border_owner(&vec![left, right], 3, 2), None);
}

#[test]
fn a_click_focuses_the_pane_under_it() {
    let (mut s, _, one) = server();
    let two = split(&mut s, one);
    let click = MouseRecord { x: 60, y: 3, buttons: 1, flags: 0, ctrl: 0 };
    match s.handle_mouse(1, &click) {
        MouseStep::Pane { id, px, py, .. } => assert_eq!((id, px, py), (two, 19, 3)),
        other => panic!("{other:?}"),
    }
    assert_eq!(s.sessions[0].windows[0].active, two);
    assert_eq!(s.handle_mouse(9, &click), MouseStep::Nothing);
}

#[test]
fn copy_mode_moves_searches_and_copies() {
    let s = screen(&["one", "two words", "three", "four"], 3);
    let mut c = enter_copy_mode(&s);
    assert_eq!(copy_key(&mut c, &s, Key::ch('k')), CopyAction::Stay);
    assert_eq!((c.offset, c.cy), (1, 0), "scrolls at the top");
    assert_eq!(copy_key(&mut c, &s, Key::ch('n')), CopyAction::NoSearch);
    assert!(copy_search(&mut c, &s, "WORDS", false, true));
    assert_eq!(c.cx, 4);
    assert_eq!(copy_key(&mut c, &s, Key::ch(' ')), CopyAction::Stay);
    assert_eq!(copy_key(&mut c, &s, Key::ch('$')), CopyAction::Stay);
    assert_eq!(copy_key(&mut c, &s, Key::ch('y')), CopyAction::Copy(Some("words".into())));
    assert!(!copy_search(&mut c, &s, "absent", true, true));
    assert_eq!(copy_key(&mut c, &s, Key::ch('/')), CopyAction::AskSearch { back: false });
    assert_eq!(copy_key(&mut c, &s, Key::ch('q')), CopyAction::Leave);
}

#[test]
fn a_target_names_a_pane_by_its_place() {
    let (mut s, sid, one) = server();
    let two = split(&mut s, one);
    let t = Target { session: Some("a".into()), window: Some("0".into()), pane: Some(1), pane_id: None };
    assert_eq!(s.resolve(Some(&t), None), Ok((sid, 0, two)));
}

#[test]
fn a_prompt_is_edited_completed_and_filled_in() {
    let mut p = command_prompt(None, "ab".into(), None);
    assert_eq!(prompt_key(&mut p, Key::ch('c')), PromptAction::Stay);
    assert_eq!(prompt_key(&mut p, Key::plain(KeyCode::Left)), PromptAction::Stay);
    assert_eq!(prompt_key(&mut p, Key::plain(KeyCode::BSpace)), PromptAction::Stay);
    assert_eq!((p.input.as_str(), p.cursor), ("ac", 1));
    assert_eq!(prompt_key(&mut p, Key::ctrl('u')), PromptAction::Stay);
    assert_eq!(prompt_key(&mut p, Key::plain(KeyCode::Tab)), PromptAction::Complete);
    assert_eq!(prompt_key(&mut p, Key::plain(KeyCode::Enter)), PromptAction::Accept);
    assert_eq!(prompt_key(&mut p, Key::plain(KeyCode::Escape)), PromptAction::Cancel);
    assert_eq!(common_prefix(&vec!["kill-pane".into(), "kill-window".into()]), "kill-");
    assert_eq!(fill_template("rename-window %%", "'x y'"), "rename-window 'x y'");
}

#[test]
fn a_marked_pane_is_joined_or_swapped() {
    let (mut s, _, one) = server();
    let two = split(&mut s, one);
    let t = |id: u32| Target { session: None, window: None, pane: None, pane_id: Some(id) };
    assert_eq!(s.join_source(None, None), Ok((0, 0, one)), "nothing is marked: the active pane");
    assert!(s.mark_pane(Some(&t(two)), true, false, None).is_ok());
    assert_eq!(s.marked, Some(two));
    assert_eq!(s.join_source(None, None), Ok((0, 0, two)));
    assert_eq!(s.swap_pane(&t(one), Some(&t(two)), None), Outcome::Done);
    assert_eq!(s.sessions[0].windows[0].layout.panes(), [two, one]);
    assert_eq!(s.break_pane(Some(&t(one)), None, 0), Outcome::Done);
    assert_eq!(s.sessions[0].windows.len(), 2);
}

#[test]
fn the_key_up_of_a_taken_key_is_dropped_once() {
    let (mut s, _, _) = server();
    let t = KeyTables { prefix: default_bindings(), root: KeyTable::new(), copy: KeyTable::new() };
    let rules = KeyRules { prefix: Key::ctrl('b'), display_time_ms: 750, repeat_time_ms: 500, now: 5 };
    for _ in 0..3 {
        s.clients[0].prefix = false;
        assert_eq!(s.handle_key(1, Some(Key::ctrl('b')), &press(66), &t, &rules), KeyAction::Nothing);
    }
    assert_eq!(s.clients[0].swallow_up, [66], "once, however often it repeats");
    let up = KeyRecord { down: false, ..press(66) };
    assert_eq!(s.handle_key(1, None, &up, &t, &rules), KeyAction::Nothing);
    assert!(s.clients[0].swallow_up.is_empty() && s.clients[0].prefix);
    assert_eq!(s.handle_key(1, None, &up, &t, &rules), KeyAction::Type, "the next one is looked at again");
}

#[test]
fn a_click_on_a_label_selects_its_window() {
    let (mut s, _, _) = server();
    let p = pane(&mut s);
    s.new_window(0, p, None, true, 0);
    s.clients[0].window_hits = vec![(0, 4), (5, 9)];
    let click = MouseRecord { x: 6, y: 23, buttons: 1, flags: 0, ctrl: 0 };
    assert_eq!(s.handle_mouse(1, &click), MouseStep::Window);
    assert_eq!(s.sessions[0].cur, 1);
    let free = MouseRecord { x: 30, y: 23, buttons: 1, flags: 0, ctrl: 0 };
    s.clients[0].mouse_buttons = 0;
    assert_eq!(s.handle_mouse(1, &free), MouseStep::Nothing);
}
