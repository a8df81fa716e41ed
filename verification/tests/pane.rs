use std::num::NonZeroU16;

use wmux::announce::{windows_path_from_announced, Callbacks};
use wmux::drawing::{stamp_parts, Tone};
use wmux::marks::{still_reads, visible_marks, Mark};
use wmux::pane::{Handed, Pane, Pipe};
use wmux::screen::{Row, Screen};
use wmux::time::Time;

const B: &str = "\x1b]133;B\x1b\\";

fn now() -> Time {
    Time { ms: 1_790_000_000_000, offset: 0 }
}

fn say(ms: i64) -> String {
    if ms < 1000 { format!("{ms}ms") } else { format!("{}.{}s", ms / 1000, ms % 1000 / 100) }
}

fn ran(start: i64, end: i64, ok: bool) -> String {
    format!("\x1b]7777;keepane-cmd;{start};{end};{}\x1b\\", ok as u8)
}

/// What a terminal tells, and how many lines left its scrollback.
struct Ears {
    heard: Callbacks,
    lost: u64,
    main: u64,
}

/// A terminal as the library sees it.
fn seen(s: &mut vt100::Screen, lost: u64, main: &mut u64) -> Screen {
    let (rows, cols) = s.size();
    let held = s.scrollback_len();
    if !s.alternate_screen() {
        *main = lost + held as u64;
    }
    let back = s.scrollback();
    let mut lines = Vec::new();
    for up in (1..=held).rev() {
        s.set_scrollback(up);
        lines.push(Row { text: s.rows(0, cols.get()).next().unwrap(), wrapped: s.row_wrapped(0) });
    }
    s.set_scrollback(0);
    for (i, text) in s.rows(0, cols.get()).enumerate() {
        lines.push(Row { text, wrapped: s.row_wrapped(i as u16) });
    }
    s.set_scrollback(back);
    let (row, col) = s.cursor_position();
    Screen {
        lines,
        rows: rows.get(),
        cols: cols.get(),
        scrolled: *main,
        cursor_row: row,
        cursor_col: col,
        alternate: s.alternate_screen(),
        bracketed: s.bracketed_paste(),
        app_cursor: s.application_cursor(),
    }
}

impl vt100::Callbacks for Ears {
    fn audible_bell(&mut self, _: &mut vt100::Screen) {
        self.heard.rang();
    }
    fn visual_bell(&mut self, _: &mut vt100::Screen) {
        self.heard.rang();
    }
    fn set_window_title(&mut self, _: &mut vt100::Screen, title: &[u8]) {
        self.heard.set_window_title(&title.to_vec());
    }
    fn set_window_icon_name(&mut self, _: &mut vt100::Screen, title: &[u8]) {
        self.heard.set_window_icon_name(&title.to_vec());
    }
    fn unhandled_csi(
        &mut self,
        screen: &mut vt100::Screen,
        i1: Option<u8>,
        _i2: Option<u8>,
        params: &[&[u16]],
        c: char,
    ) {
        let (row, col) = screen.cursor_position();
        let first = params.first().and_then(|p| p.first()).copied();
        self.heard.unhandled_csi(i1, first, c, row, col);
    }
    fn unhandled_osc(&mut self, screen: &mut vt100::Screen, params: &[&[u8]]) {
        let view = seen(screen, self.lost, &mut self.main);
        let params: Vec<Vec<u8>> = params.iter().map(|p| p.to_vec()).collect();
        self.heard.unhandled_osc(&view, &params, now(), &|_: i64| Some(0));
    }
    fn on_scroll(&mut self, _: vt100::capture::RowContents<'_>, alternate: bool) {
        if !alternate {
            self.lost += 1;
        }
    }
}

/// A pane fed by hand, with a real terminal model behind it.
struct Fed {
    pane: Pane,
    parser: vt100::Parser<Ears>,
}

fn size(n: u16) -> NonZeroU16 {
    NonZeroU16::new(n).unwrap()
}

impl Fed {
    fn new(cols: u16, rows: u16, history: usize) -> Fed {
        let ears = Ears { heard: Callbacks::default(), lost: 0, main: 0 };
        Fed {
            pane: Pane::started(12, "cmd".into(), vec!["cmd.exe".into()], None, cols, rows, 0),
            parser: vt100::Parser::new_with_callbacks(size(rows), size(cols), history, ears),
        }
    }

    fn screen(&mut self) -> Screen {
        let lost = self.parser.callbacks().lost;
        let mut main = self.parser.callbacks().main;
        let view = seen(self.parser.screen_mut(), lost, &mut main);
        self.parser.callbacks_mut().main = main;
        view
    }

    /// Feed the terminal; what it answers.
    fn process_output(&mut self, bytes: &[u8]) -> Vec<u8> {
        self.parser.process(bytes);
        let view = self.screen();
        self.pane.process_output(&mut self.parser.callbacks_mut().heard, &view)
    }

    fn deliver(&mut self, text: &str) {
        let view = self.screen();
        self.pane.deliver(text, &view);
    }

    fn visible(&mut self, offset: usize) -> Vec<(u16, Mark)> {
        let view = self.screen();
        visible_marks(&self.pane.marks, &view, offset)
    }

    fn take_log(&mut self, closing: bool) -> String {
        let view = self.screen();
        let marks = std::mem::take(&mut self.pane.marks);
        let out = self.pane.log.take_log(&view, &marks, closing, 0, now(), &say);
        self.pane.marks = marks;
        out
    }

    fn log_pending(&mut self) -> bool {
        let view = self.screen();
        self.pane.log.log_pending(&view)
    }
}

#[test]
fn shrinking_keeps_lines_in_scrollback_and_growing_brings_them_back() {
    let mut p = vt100::Parser::new(size(10), size(40), 100);
    for i in 1..=8 {
        p.process(format!("line-{i}\r\n").as_bytes());
    }
    p.process(b"prompt>");
    assert_eq!(p.screen().cursor_position(), (8, 7));
    p.screen_mut().set_size(size(4), size(40));
    assert_eq!(p.screen().cursor_position(), (3, 7));
    let mut main = 0;
    let s = seen(p.screen_mut(), 0, &mut main);
    assert_eq!(s.scrollback_len(), 5, "five lines went to the scrollback, none were lost");
    assert_eq!(s.line_text(0).0.trim_end(), "line-1", "the oldest line is at the top of it");
    assert_eq!(s.line_text(5).0.trim_end(), "line-6", "the screen starts where it left off");
}

#[test]
fn announced_paths_may_be_quoted() {
    // Windows Terminal's PowerShell snippet: ESC]9;9;"C:\Users\me"ESC\
    assert_eq!(windows_path_from_announced("\"C:\\Users\\me\"").as_deref(), Some("C:\\Users\\me"));
    assert_eq!(windows_path_from_announced(" \"D:/x\" ").as_deref(), Some("D:\\x"));
    assert_eq!(windows_path_from_announced("C:\\x").as_deref(), Some("C:\\x"));
    assert_eq!(windows_path_from_announced("\"\""), None);
}

#[test]
fn announced_directories_become_windows_paths() {
    let w = windows_path_from_announced;
    assert_eq!(w("file:///C:/Users/x").as_deref(), Some("C:\\Users\\x"));
    assert_eq!(w("file://BOX/C:/Users/x%20y").as_deref(), Some("C:\\Users\\x y"));
    assert_eq!(w("C:\\src").as_deref(), Some("C:\\src"));
    assert_eq!(w("C:/src/a").as_deref(), Some("C:\\src\\a"));
    assert_eq!(w("D:").as_deref(), Some("D:\\"));
    assert_eq!(w("/mnt/c/Users/x").as_deref(), Some("C:\\Users\\x"));
    assert_eq!(w("/mnt/d").as_deref(), Some("D:\\"));
    assert_eq!(w("file://HOST/mnt/c/x").as_deref(), Some("C:\\x"));
    assert_eq!(w("/home/user"), None);
    assert_eq!(w("/mnt/wsl/x"), None);
    assert_eq!(w(""), None);
    assert_eq!(w("file://"), None);
}

#[test]
fn a_delivered_command_takes_the_rows_it_is_typed_over() {
    let mut p = Fed::new(10, 5, 100);
    p.process_output(b"PS> ");
    // Up to the right edge exactly: the cursor goes on to the next row,
    // Enter one more.
    p.deliver("abcdef");
    assert_eq!(p.pane.delivered_line, Some((0, 2)));
    p.process_output(b"\r\n\r\nPS> ");
    p.deliver("ab");
    assert_eq!(p.pane.delivered_line, Some((2, 3)), "short of the edge: its own row");
    p.deliver(&"x".repeat(17));
    assert_eq!(p.pane.delivered_line, Some((2, 5)), "4 + 17 columns: over three rows");
}

#[test]
fn a_line_padded_to_the_width_ends_where_a_wrapped_one_goes_on() {
    let mut p = Fed::new(10, 5, 100);
    // ConPTY's way: a short line padded with blanks to the width (the
    // row counts as wrapped), then a line that really wraps.
    p.process_output(b"PS> cmd   22\r\nabcdefghijklmn\r\nend");
    let s = p.screen();
    assert_eq!(s.text_between(0, 4, 1000), ("PS> cmd\n22\nabcdefghijklmn".to_string(), false));
    // Cut at the size asked for, on a character boundary.
    let (text, cut) = s.text_between(0, 4, 5);
    assert!(cut && text.len() <= 5, "{text:?}");
}

#[test]
fn a_command_is_marked_on_its_line_and_follows_it_up() {
    let mut p = Fed::new(40, 5, 100);
    // Prompt, a command typed at it, its output, the next prompt with
    // the report of the one before.
    p.process_output(format!("PS> {B}").as_bytes());
    p.process_output(b"echo hi\r\nhi\r\n");
    p.process_output(format!("{}PS> {B}", ran(1_000, 4_200, true)).as_bytes());
    assert_eq!(p.pane.marks.len(), 2, "{:?}", p.pane.marks);
    let m = &p.pane.marks[0];
    assert_eq!((m.line, m.exit, m.text.as_str()), (0, Some(0), "PS> echo hi"));
    assert_eq!(m.end.unwrap().ms - m.start.unwrap().ms, 3_200);
    assert_eq!(p.pane.marks[1].end, None, "the prompt now waiting has no command yet");
    let rows: Vec<u16> = p.visible(0).iter().map(|(r, _)| *r).collect();
    assert_eq!(rows, [0]);
    // Output pushes the line into the scrollback: off the live view,
    // on the view scrolled back to it, still the same line.
    p.process_output(b"\r\n1\r\n2\r\n3\r\n4\r\n5\r\n6");
    assert!(p.visible(0).is_empty());
    let top = p.screen().scrolled;
    let back = p.visible(top as usize);
    assert_eq!(back.len(), 1, "{back:?}");
    assert_eq!(back[0].0, 0);
    assert_eq!(p.screen().text_at(0).as_deref(), Some("PS> echo hi"));
}

#[test]
fn empty_enters_and_shells_saying_less_leave_no_marks() {
    let mut p = Fed::new(40, 10, 100);
    // An empty Enter: a second prompt with nothing reported. The first
    // prompt moves rather than a second one piling up.
    p.process_output(format!("PS> {B}\r\nPS> {B}").as_bytes());
    assert_eq!(p.pane.marks.len(), 1);
    assert_eq!(p.pane.marks[0].line, 1);
    // FTCS: a D with no C before it ran nothing; with C it did, and the
    // exit code is kept.
    p.process_output(b"\x1b]133;D;0\x1b\\");
    assert_eq!(p.pane.marks[0].end, None);
    p.process_output(b"false\x1b]133;C\x1b\\\r\n\x1b]133;D;2\x1b\\\x1b]133;A\x1b\\$ ");
    assert_eq!(p.pane.marks[0].exit, Some(2));
    assert_eq!(p.pane.marks[0].text, "PS> false");
    assert!(p.pane.marks[0].start.is_some() && p.pane.marks[0].end.is_some());
    // A full-screen program's OSCs are not the shell's.
    let n = p.pane.marks.len();
    p.process_output(format!("\x1b[?1049h{B}{}", ran(1, 2, true)).as_bytes());
    assert_eq!(p.pane.marks.len(), n);
    assert!(p.visible(0).is_empty(), "nothing is stamped over a full-screen program");
    p.process_output(b"\x1b[?1049l");
    assert_eq!(p.visible(0).len(), 1);
}

#[test]
fn a_line_cleared_or_written_over_loses_its_mark() {
    let mut p = Fed::new(40, 10, 100);
    p.process_output(format!("PS> {B}ls\r\n{}PS> {B}", ran(1, 2, false)).as_bytes());
    assert_eq!(p.visible(0).len(), 1);
    assert_eq!(p.pane.marks[0].exit, Some(1));
    // Written over in place: still in the list, no longer shown.
    p.process_output(b"\x1b[1;1Hsomething else\x1b[K\x1b[2;1H");
    assert!(p.visible(0).is_empty());
    // `cls` and a prompt at the top again: the old mark goes.
    p.process_output(format!("\x1b[2J\x1b[HPS> {B}").as_bytes());
    assert_eq!(p.pane.marks.len(), 1, "{:?}", p.pane.marks);
    assert_eq!(p.pane.marks[0].end, None);
    // Narrowed, a line shows only its start: still the line when the
    // row is full; a shorter row that happens to begin it is not.
    assert!(still_reads("PS> ec", "PS> echo hi", 6));
    assert!(!still_reads("PS>", "PS> echo hi", 6));
    assert!(!still_reads("PS> xx", "PS> echo hi", 6));
    assert!(still_reads("PS> echo", "PS> echo hi", 9), "cut at a blank");
    assert!(still_reads("PS> 中", "PS> 中文", 7), "cut by width, not chars");
    // A line that scrolled past the whole scrollback cannot be marked.
    let mut p = Fed::new(40, 3, 2);
    p.process_output(format!("PS> {B}x\r\n1\r\n2\r\n3\r\n4\r\n5\r\n{}PS> {B}", ran(1, 2, true)).as_bytes());
    assert!(p.pane.marks.iter().all(|m| m.end.is_none()), "{:?}", p.pane.marks);
}

#[test]
fn the_history_log_takes_what_scrolls_off_with_command_times() {
    let mut p = Fed::new(20, 4, 100);
    assert!(!p.log_pending());
    // Output of no command: written as it leaves the screen.
    p.process_output(b"a\r\nb\r\nc\r\nd\r\ne");
    assert_eq!(p.take_log(false), "a\n");
    assert!(!p.log_pending());
    // A command whose output scrolls its own line off: held until it
    // is done, then written after a line of its times.
    p.process_output(format!("\r\nPS> {B}run\r\n1\r\n2\r\n3\r\n4").as_bytes());
    assert_eq!(p.take_log(false), "b\nc\nd\ne\n", "the command line waits");
    p.process_output(format!("\r\n{}PS> {B}", ran(0, 1500, false)).as_bytes());
    let text = p.take_log(false);
    assert!(text.starts_with("── ") && text.ends_with(" · 1.5s · ✗ 1 ──\nPS> run\n1\n"), "{text:?}");
    // A long line the terminal wrapped is one line again; a wrapped
    // row whose rest is still on screen waits for it.
    p.process_output(format!("{}\r\n0123456789012345678901234\r\nz\r\ny\r\nx", ran(2000, 2100, true)).as_bytes());
    let text = p.take_log(false);
    assert!(text.ends_with(" · 100ms · ✓ ──\nPS>\n"), "{text:?}");
    p.process_output(b"\r\nw");
    assert_eq!(p.take_log(false), "0123456789012345678901234\n");
    // Closing takes the screen too, without its blank bottom.
    p.process_output(b"\r\nlast\r\n\r\n");
    let text = p.take_log(true);
    assert_eq!(text, "z\ny\nx\nw\nlast\n");
    assert_eq!(p.take_log(true), "", "nothing twice");
    // A full-screen program's screen is not logged.
    p.process_output(b"\x1b[?1049h1\r\n2\r\n3\r\n4\r\n5\r\n6");
    assert!(!p.log_pending());
    // No scrollback at all: nothing can be read back once scrolled,
    // and that is not reported line after line; the screen still is.
    let mut p = Fed::new(20, 3, 0);
    for i in 0..10 {
        p.process_output(format!("{i}\r\n").as_bytes());
        assert_eq!(p.take_log(false), "");
    }
    assert_eq!(p.take_log(true), "8\n9\n");
}

#[test]
fn osc_cwd_updates_the_pane() {
    let mut p = Fed::new(20, 5, 10);
    p.pane.cwd = Some("C:\\".into());
    p.process_output(b"\x1b]9;9;C:\\Users\x07");
    assert_eq!(p.pane.cwd.as_deref(), Some("C:\\Users"));
    p.process_output(b"\x1b]7;file://HOST/mnt/c/Windows\x1b\\");
    assert_eq!(p.pane.cwd.as_deref(), Some("C:\\Windows"));
    // A Linux-only path cannot be a Windows working directory: keep the last one.
    p.process_output(b"\x1b]7;file://HOST/home/user\x07");
    assert_eq!(p.pane.cwd.as_deref(), Some("C:\\Windows"));
}

#[test]
fn dsr_is_answered() {
    let mut p = Fed::new(20, 5, 10);
    assert_eq!(p.process_output(b"abc\x1b[6n"), b"\x1b[1;4R");
    assert!(p.process_output(b"\x1b[c").ends_with(b"\x1b[?62;22c"));
    p.process_output(b"\x1b]0;My Title\x07\x07");
    assert_eq!(p.pane.title, "My Title");
    assert!(p.pane.bell);
}

#[test]
fn a_repeated_program_title_does_not_undo_a_title_given_by_hand() {
    let mut p = Fed::new(20, 5, 10);
    p.process_output(b"\x1b]0;program title\x07");
    assert_eq!(p.pane.title, "program title");
    p.pane.title = "logs".into(); // select-pane -T logs
    p.process_output(b"\x1b]0;program title\x07"); // the next prompt's copy
    assert_eq!(p.pane.title, "logs", "the same title again is not a new one");
    p.process_output(b"\x1b]0;something else\x07");
    assert_eq!(p.pane.title, "something else", "the program changing its title still wins");
}

#[test]
fn scrollback_lines() {
    let mut p = Fed::new(10, 3, 100);
    for i in 0..10 {
        p.process_output(format!("line{i}\r\n").as_bytes());
    }
    // 11 rows written (10 lines + empty), 3 visible -> 8 in scrollback.
    let s = p.screen();
    assert_eq!(s.scrollback_len(), 8);
    assert_eq!(s.line_text(0).0.trim_end(), "line0");
    assert_eq!(s.line_text(7).0.trim_end(), "line7");
    assert_eq!(s.line_text(8).0.trim_end(), "line8");
    assert_eq!(s.line_text(10).0.trim_end(), "");
}

#[test]
fn text_is_found_newest_first_whatever_the_case() {
    let mut p = Fed::new(20, 3, 100);
    p.process_output(b"one ERROR\r\ntwo\r\nthree error\r\nfour");
    let s = p.screen();
    let hits: Vec<(usize, String)> = s.search("error", 10, false);
    assert_eq!(hits, [(2, "three error".to_string()), (0, "one ERROR".to_string())]);
    assert_eq!(s.search("error", 10, true).len(), 1);
    assert_eq!(s.search("error", 1, false).len(), 1);
    assert!(s.search("", 10, false).is_empty());
}

#[test]
fn a_pipe_that_lags_says_so_once() {
    let mut p = Fed::new(20, 3, 10);
    p.pane.pipe = Some(Pipe { output: true, dropped: 0, command: "sort".into() });
    assert_eq!(p.pane.pipe_write(10, Handed::Taken), None);
    assert_eq!(p.pane.pipe_write(10, Handed::Full).as_deref(), Some("sort"));
    assert_eq!(p.pane.pipe_write(10, Handed::Full), None);
    assert_eq!(p.pane.pipe_write(10, Handed::Closed), None);
    assert!(p.pane.pipe.is_none(), "a command that ended is a pipe no more");
}

#[test]
fn stamps_say_when_a_command_ran_and_how_it_ended() {
    let mut m = Mark { line: 0, start: Some(now()), end: Some(Time { ms: now().ms + 1500, offset: 0 }), exit: Some(0), text: "x".into() };
    let texts = |m: &Mark, at: Time, short: bool| -> Vec<(String, Tone)> { stamp_parts(m, at, short, &say) };
    let long = texts(&m, now(), false);
    assert_eq!(long[0].0.len(), 8);
    assert_eq!((long[1].0.as_str(), long[2].0.as_str(), long[2].1), (" 1.5s", " ✓", Tone::Good));
    assert_eq!(texts(&m, now(), true).len(), 2);
    let day = Time { ms: now().ms + 86_400_000, offset: 0 };
    assert_eq!(texts(&m, day, true)[0].0.len(), "09-20 12:00:00".len(), "with the date when not today");
    m.exit = Some(1);
    assert_eq!(texts(&m, now(), true)[1], (" ✗".to_string(), Tone::Bad));
    m.exit = Some(-3);
    assert_eq!(texts(&m, now(), true)[1].0, " ✗-3");
    m.end = None;
    assert!(texts(&m, now(), false).is_empty());
}

#[test]
fn a_pane_is_resized_once_and_to_something() {
    let mut p = Fed::new(20, 5, 10);
    assert!(p.pane.resize(0, 7));
    assert_eq!((p.pane.cols, p.pane.rows), (1, 7));
    assert!(!p.pane.resize(0, 7), "the same size again is no change");
}

#[test]
fn a_pane_shows_its_command_until_it_has_a_title() {
    let mut p = Fed::new(20, 5, 10);
    assert_eq!(p.pane.display_title(), "cmd");
    p.pane.title = "logs".into();
    assert_eq!(p.pane.display_title(), "logs");
}
