//! The commands a pane's shell ran, pinned to the lines they were typed on.
use std::collections::VecDeque;
use vstd::prelude::*;
use crate::display::{char_columns, char_width};
use crate::screen::{without_blanks, Screen};
use crate::text::{chars_of, decimal, push_decimal, same_text, string_of, trim_end};
use crate::time::Time;

verus! {

/// A shell's word about its prompt and its commands: FTCS (OSC 133, and
/// VS Code's OSC 633, which reads the same) from bash, zsh, fish and
/// profiles that print it, stamped on arrival; and the PowerShell prompt
/// hook's own report, whose times come from the shell's history.
#[derive(Clone, Copy, Debug, PartialEq, Eq, Structural)]
pub enum MarkEvent {
    /// A prompt is on the line `line`.
    Prompt(u64),
    /// The command typed at it started.
    Start(Time),
    /// It finished, with this exit code when the shell gave one.
    End(Time, Option<i32>),
    /// PowerShell: the last command ran from `start` to `end`, and did or
    /// did not succeed.
    Ran { start: Time, end: Time, ok: bool },
}

/// One command a shell ran, pinned to the line it was typed on.
#[derive(Debug, PartialEq, Eq)]
pub struct Mark {
    /// The prompt's line: it keeps naming the same line however far it
    /// scrolls.
    pub line: u64,
    pub start: Option<Time>,
    pub end: Option<Time>,
    /// The exit code, when the shell said; PowerShell says only whether it
    /// failed (1) or not (0).
    pub exit: Option<i32>,
    /// What the line read when the command finished. A line that no longer
    /// reads so was cleared or written over, and the mark is no longer shown.
    pub text: String,
}

impl Clone for Mark {
    fn clone(&self) -> (out: Mark)
        ensures
            out == *self,
    {
        Mark { line: self.line, start: self.start, end: self.end, exit: self.exit, text: self.text.clone() }
    }
}

/// Most marks a pane keeps; older ones have long scrolled out of reach.
pub const MAX_MARKS: usize = 2000;

/// A mark as mathematics.
pub ghost struct Pinned {
    pub line: u64,
    pub start: Option<Time>,
    pub end: Option<Time>,
    pub exit: Option<i32>,
    pub text: Seq<char>,
}

impl View for Mark {
    type V = Pinned;

    open spec fn view(&self) -> Pinned {
        Pinned { line: self.line, start: self.start, end: self.end, exit: self.exit, text: self.text@ }
    }
}

pub open spec fn pinned(v: Seq<Mark>) -> Seq<Pinned> {
    Seq::new(v.len(), |i: int| v[i]@)
}

/// How many characters of `s` fit in `cols` columns, from `i` on.
pub open spec fn columns_end(s: Seq<char>, i: int, left: int) -> int
    decreases s.len() - i,
{
    if i < 0 || i >= s.len() {
        s.len() as int
    } else {
        let w = match char_columns(s[i]) {
            Some(w) => w as int,
            None => 0,
        };
        if w > left {
            i
        } else {
            columns_end(s, i + 1, left - w)
        }
    }
}

/// A line reading `now` is still the line once read as `then`.
pub open spec fn reads_still(now: Seq<char>, then: Seq<char>, cols: int) -> bool {
    let end = columns_end(then, 0, cols);
    now == then || (end < then.len() && now.len() > 0 && now == trim_end(then.take(end)))
}

/// Whether a line reading `now` is still the line a mark saw as `then`:
/// the same text or, in a pane narrowed since, the part of it that fits in
/// `cols` columns (both without trailing blanks).
pub fn still_reads(now: &str, then: &str, cols: u16) -> (b: bool)
    ensures
        b == reads_still(now@, then@, cols as int),
{
    if same_text(now, then) {
        return true;
    }
    let t = chars_of(then);
    let mut left: usize = cols as usize;
    let mut i: usize = 0;
    let ghost end = columns_end(then@, 0, cols as int);
    while i < t.len()
        invariant_except_break
            i <= t@.len(),
            t@ == then@,
            end == columns_end(then@, i as int, left as int),
        ensures
            i <= t@.len(),
            i == end,
        decreases t.len() - i,
    {
        let w: usize = match char_width(t[i]) {
            Some(w) => w,
            None => 0,
        };
        if w > left {
            break;
        }
        left = left - w;
        i = i + 1;
    }
    if i >= t.len() || now.is_empty() {
        return false;
    }
    let head = string_of(&t, 0, i);
    assert(head@ =~= then@.take(i as int));
    same_text(now, without_blanks(head.as_str()).as_str())
}

/// Marks are in line order, one a line.
pub open spec fn in_line_order(s: Seq<Pinned>) -> bool {
    forall|i: int, j: int| 0 <= i < j < s.len() ==> (#[trigger] s[i]).line < (#[trigger] s[j]).line
}

/// The marks above line `line`.
pub open spec fn above(s: Seq<Pinned>, line: u64) -> Seq<Pinned>
    decreases s.len(),
{
    if s.len() == 0 {
        s
    } else if s.last().line >= line {
        above(s.drop_last(), line)
    } else {
        s
    }
}

/// The newest mark is a prompt with nothing run at it yet.
pub open spec fn waiting(s: Seq<Pinned>) -> bool {
    s.len() > 0 && s.last().start is None && s.last().end is None
}

/// The marks after a prompt on line `line`. A prompt with nothing run at it
/// yet is the same prompt again, and moves; a mark at or below the line was
/// cleared or written over.
pub open spec fn after_prompt(s: Seq<Pinned>, line: u64) -> Seq<Pinned> {
    if waiting(s) {
        above(s.drop_last(), line).push(Pinned { line, ..s.last() })
    } else {
        above(s, line).push(Pinned { line, start: None, end: None, exit: None, text: Seq::empty() })
    }
}

/// The marks with the newest closed: its times, and its line as it reads
/// now. One whose line is gone, or blank, goes.
pub open spec fn finished(
    s: Seq<Pinned>,
    screen: Screen,
    start: Option<Time>,
    end: Time,
    exit: Option<i32>,
) -> Seq<Pinned> {
    let m = s.last();
    let text = match screen.place(m.line as int) {
        Some(i) => trim_end(screen.text(i)),
        None => Seq::empty(),
    };
    if s.len() == 0 {
        s
    } else if text.len() > 0 {
        s.drop_last().push(
            Pinned {
                start: if start is Some {
                    start
                } else {
                    m.start
                },
                end: Some(end),
                exit,
                text,
                ..m
            },
        )
    } else {
        s.drop_last()
    }
}

/// The marks after one word of the shell's.
pub open spec fn after_mark(s: Seq<Pinned>, screen: Screen, e: MarkEvent) -> Seq<Pinned> {
    match e {
        MarkEvent::Prompt(line) => after_prompt(s, line),
        MarkEvent::Start(t) => if s.len() > 0 && s.last().end is None {
            s.drop_last().push(Pinned { start: Some(t), ..s.last() })
        } else {
            s
        },
        // An end with no start before it is an empty Enter or a Ctrl+C at
        // the prompt: nothing ran.
        MarkEvent::End(t, code) => if s.len() > 0 && s.last().start is Some && s.last().end is None {
            finished(s, screen, None, t, code)
        } else {
            s
        },
        MarkEvent::Ran { start, end, ok } => if s.len() > 0 && s.last().end is None {
            finished(
                s,
                screen,
                Some(start),
                end,
                Some(
                    if ok {
                        0i32
                    } else {
                        1i32
                    },
                ),
            )
        } else {
            s
        },
    }
}

/// The marks after the words from `k` on.
pub open spec fn after_marks(s: Seq<Pinned>, screen: Screen, events: Seq<MarkEvent>, k: int) -> Seq<Pinned>
    decreases events.len() - k,
{
    if k < 0 || k >= events.len() {
        s
    } else {
        after_marks(after_mark(s, screen, events[k]), screen, events, k + 1)
    }
}

/// The marks that can still be shown, and no more than there is room for.
pub open spec fn reachable(s: Seq<Pinned>, oldest: int, max: int) -> Seq<Pinned>
    decreases s.len(),
{
    if s.len() > 0 && (s[0].line < oldest || s.len() > max) {
        reachable(s.skip(1), oldest, max)
    } else {
        s
    }
}

proof fn lemma_above(s: Seq<Pinned>, line: u64)
    requires
        in_line_order(s),
    ensures
        in_line_order(above(s, line)),
        above(s, line).len() <= s.len(),
        above(s, line) == s.take(above(s, line).len() as int),
        forall|i: int| 0 <= i < above(s, line).len() ==> (#[trigger] above(s, line)[i]).line < line,
        forall|i: int| above(s, line).len() <= i < s.len() ==> (#[trigger] s[i]).line >= line,
    decreases s.len(),
{
    if s.len() > 0 && s.last().line >= line {
        lemma_above(s.drop_last(), line);
        let a = above(s, line);
        assert(s.drop_last().take(a.len() as int) =~= s.take(a.len() as int));
        assert forall|i: int| a.len() <= i < s.len() implies (#[trigger] s[i]).line >= line by {
            if i < s.len() - 1 {
                assert(s.drop_last()[i] == s[i]);
            }
        }
    } else {
        assert(s.take(s.len() as int) =~= s);
        assert forall|i: int| 0 <= i < s.len() implies (#[trigger] s[i]).line < line by {
            if i < s.len() - 1 {
                assert(s[i].line < s[s.len() - 1].line);
            }
        }
    }
}

/// A word of the shell's keeps the marks in line order.
pub proof fn lemma_mark_order(s: Seq<Pinned>, screen: Screen, e: MarkEvent)
    requires
        in_line_order(s),
    ensures
        in_line_order(after_mark(s, screen, e)),
        after_mark(s, screen, e).len() <= s.len() + 1,
{
    if let MarkEvent::Prompt(line) = e {
        if s.len() > 0 {
            assert(in_line_order(s.drop_last()));
            lemma_above(s.drop_last(), line);
        }
        lemma_above(s, line);
    }
}

fn pop_to(marks: &mut VecDeque<Mark>, line: u64)
    requires
        in_line_order(pinned(old(marks)@)),
    ensures
        pinned(final(marks)@) == above(pinned(old(marks)@), line),
{
    let ghost all = pinned(marks@);
    while marks.len() > 0 && marks[marks.len() - 1].line >= line
        invariant
            above(all, line) == above(pinned(marks@), line),
        decreases marks@.len(),
    {
        let ghost before = marks@;
        assert(pinned(before).last() == before.last()@);
        marks.pop_back();
        assert(pinned(marks@) =~= pinned(before).drop_last());
    }
    if marks.len() > 0 {
        assert(pinned(marks@).last() == marks@.last()@);
    }
}

fn seen_prompt(marks: &mut VecDeque<Mark>, line: u64)
    requires
        in_line_order(pinned(old(marks)@)),
    ensures
        pinned(final(marks)@) == after_prompt(pinned(old(marks)@), line),
{
    let ghost all = pinned(marks@);
    let n: usize = marks.len();
    let mut mark = Mark { line, start: None, end: None, exit: None, text: String::new() };
    if n > 0 {
        assert(all.last() == marks@.last()@);
        assert(in_line_order(all.drop_last()));
        if marks[n - 1].start.is_none() && marks[n - 1].end.is_none() {
            let ghost before = marks@;
            if let Some(m) = marks.pop_back() {
                mark = m;
                mark.line = line;
            }
            assert(pinned(marks@) =~= all.drop_last());
        }
    }
    let ghost rest = pinned(marks@);
    assert(rest == if waiting(all) {
        all.drop_last()
    } else {
        all
    });
    pop_to(marks, line);
    let ghost kept = marks@;
    marks.push_back(mark);
    assert(pinned(marks@) =~= pinned(kept).push(mark@));
}

/// Close the newest mark: its times, and its line as it reads now.
fn finish_mark(
    marks: &mut VecDeque<Mark>,
    screen: &Screen,
    start: Option<Time>,
    end: Time,
    exit: Option<i32>,
)
    requires
        screen.wf(),
    ensures
        pinned(final(marks)@) == finished(pinned(old(marks)@), *screen, start, end, exit),
{
    let ghost all = pinned(marks@);
    let ghost before = marks@;
    match marks.pop_back() {
        None => {},
        Some(m) => {
            assert(all.last() == before.last()@);
            assert(pinned(marks@) =~= all.drop_last());
            let ghost rest = marks@;
            // Gone already (scrolled past the history, or cleared): the
            // command cannot be shown against its line.
            if let Some(text) = screen.text_at(m.line) {
                if !text.as_str().is_empty() {
                    let began = if start.is_some() { start } else { m.start };
                    let done = Mark { line: m.line, start: began, end: Some(end), exit, text };
                    marks.push_back(done);
                    assert(pinned(marks@) =~= pinned(rest).push(done@));
                }
            }
        },
    }
}

/// Fold what the shell said into a pane's marks.
pub fn apply_marks(marks: &mut VecDeque<Mark>, screen: &Screen, events: &Vec<MarkEvent>)
    requires
        screen.wf(),
        in_line_order(pinned(old(marks)@)),
    ensures
        pinned(final(marks)@) == reachable(
            after_marks(pinned(old(marks)@), *screen, events@, 0),
            screen.oldest(),
            MAX_MARKS as int,
        ),
        in_line_order(pinned(final(marks)@)),
        final(marks)@.len() <= MAX_MARKS,
{
    let ghost start = pinned(marks@);
    let mut k: usize = 0;
    while k < events.len()
        invariant
            k <= events@.len(),
            screen.wf(),
            in_line_order(pinned(marks@)),
            after_marks(start, *screen, events@, 0) == after_marks(pinned(marks@), *screen, events@, k as int),
        decreases events.len() - k,
    {
        let ghost before = pinned(marks@);
        let n: usize = marks.len();
        if n > 0 {
            assert(before.last() == marks@.last()@);
        }
        proof {
            lemma_mark_order(before, *screen, events@[k as int]);
        }
        match events[k] {
            MarkEvent::Prompt(line) => seen_prompt(marks, line),
            MarkEvent::Start(t) => {
                if n > 0 && marks[n - 1].end.is_none() {
                    if let Some(m) = marks.pop_back() {
                        let ghost rest = marks@;
                        let running = Mark { line: m.line, start: Some(t), end: m.end, exit: m.exit, text: m.text };
                        marks.push_back(running);
                        assert(pinned(marks@) =~= before.drop_last().push(Pinned { start: Some(t), ..before.last() }));
                    }
                }
            },
            MarkEvent::End(t, code) => {
                if n > 0 && marks[n - 1].start.is_some() && marks[n - 1].end.is_none() {
                    finish_mark(marks, screen, None, t, code);
                }
            },
            MarkEvent::Ran { start, end, ok } => {
                if n > 0 && marks[n - 1].end.is_none() {
                    finish_mark(marks, screen, Some(start), end, Some(if ok { 0 } else { 1 }));
                }
            },
        }
        k = k + 1;
    }
    // Lines the scrollback no longer holds can never be shown again.
    let history: u64 = screen.scrollback_len() as u64;
    let oldest: u64 = if screen.scrolled > history { screen.scrolled - history } else { 0 };
    let ghost all = pinned(marks@);
    while marks.len() > 0 && (marks[0].line < oldest || marks.len() > MAX_MARKS)
        invariant
            in_line_order(pinned(marks@)),
            reachable(all, oldest as int, MAX_MARKS as int) == reachable(
                pinned(marks@),
                oldest as int,
                MAX_MARKS as int,
            ),
        decreases marks@.len(),
    {
        let ghost before = marks@;
        assert(pinned(before)[0] == before[0]@);
        marks.pop_front();
        assert(pinned(marks@) =~= pinned(before).skip(1));
    }
    if marks.len() > 0 {
        assert(pinned(marks@)[0] == marks@[0]@);
    }
}

/// A finished command is shown on row `row` of a view whose top line is
/// `top`.
pub open spec fn shows(m: Pinned, texts: Seq<Seq<char>>, top: int, cols: int, row: int) -> bool {
    m.end is Some && m.line == top + row && 0 <= row < texts.len() && reads_still(
        trim_end(texts[row]),
        m.text,
        cols,
    )
}

/// The marks from `k` on that a view shows, with their rows.
pub open spec fn shown_from(s: Seq<Pinned>, k: int, texts: Seq<Seq<char>>, top: int, cols: int) -> Seq<(int, Pinned)>
    decreases s.len() - k,
{
    if k < 0 || k >= s.len() {
        Seq::empty()
    } else if shows(s[k], texts, top, cols, s[k].line - top) {
        seq![(s[k].line - top, s[k])] + shown_from(s, k + 1, texts, top, cols)
    } else {
        shown_from(s, k + 1, texts, top, cols)
    }
}

/// The rows of the view `offset` lines up into the scrollback.
pub open spec fn view_texts(s: Screen, offset: int) -> Seq<Seq<char>> {
    Seq::new(s.rows as nat, |r: int| s.text(s.history() - offset + r))
}

/// The finished commands whose lines the view `offset` lines up into
/// the scrollback shows, still reading as they did: (row in the view,
/// the mark). No two are on one line.
pub fn visible_marks(marks: &VecDeque<Mark>, screen: &Screen, offset: usize) -> (out: Vec<(u16, Mark)>)
    requires
        screen.wf(),
        in_line_order(pinned(marks@)),
    ensures
        ({
            let up = if offset < screen.history() { offset as int } else { screen.history() };
            Seq::new(out@.len(), |i: int| (out@[i].0 as int, out@[i].1@)) == if screen.alternate {
                Seq::empty()
            } else {
                shown_from(pinned(marks@), 0, view_texts(*screen, up), screen.scrolled - up, screen.cols as int)
            }
        }),
{
    let mut out: Vec<(u16, Mark)> = Vec::new();
    let ghost seen = Seq::<(int, Pinned)>::empty();
    assert(Seq::new(out@.len(), |i: int| (out@[i].0 as int, out@[i].1@)) =~= seen);
    if screen.alternate {
        return out;
    }
    let history: usize = screen.scrollback_len();
    let total: usize = screen.lines.len();
    let up: usize = if offset < history { offset } else { history };
    let top: u64 = screen.scrolled - up as u64;
    let bottom: u64 = top + screen.rows as u64;
    let ghost all = pinned(marks@);
    let ghost texts = view_texts(*screen, up as int);
    let ghost goal = shown_from(all, 0, texts, top as int, screen.cols as int);
    let mut k: usize = 0;
    assert(seen + goal =~= goal);
    while k < marks.len()
        invariant
            k <= marks@.len(),
            screen.wf(),
            total == screen.lines@.len(),
            history == screen.history(),
            up <= history,
            top == screen.scrolled - up,
            bottom == top + screen.rows,
            all == pinned(marks@),
            texts == view_texts(*screen, up as int),
            seen == Seq::new(out@.len(), |i: int| (out@[i].0 as int, out@[i].1@)),
            seen + shown_from(all, k as int, texts, top as int, screen.cols as int) == goal,
        decreases marks.len() - k,
    {
        let m = &marks[k];
        assert(all[k as int] == m@);
        let ghost before = seen;
        if m.end.is_some() && m.line >= top && m.line < bottom {
            let row: u64 = m.line - top;
            let at: usize = history - up + row as usize;
            let now = without_blanks(screen.lines[at].text.as_str());
            assert(texts[row as int] == screen.text(at as int));
            if still_reads(now.as_str(), m.text.as_str(), screen.cols) {
                out.push((row as u16, m.clone()));
                proof {
                    seen = Seq::new(out@.len(), |i: int| (out@[i].0 as int, out@[i].1@));
                    assert(seen =~= before.push((row as int, m@)));
                    assert(seen + shown_from(all, k + 1, texts, top as int, screen.cols as int) =~= before + shown_from(
                        all,
                        k as int,
                        texts,
                        top as int,
                        screen.cols as int,
                    ));
                }
            }
        }
        k = k + 1;
    }
    assert(seen + Seq::empty() =~= seen);
    out
}

/// `n` in decimal, with a sign when it is negative.
pub open spec fn signed(n: int) -> Seq<char> {
    if n < 0 {
        seq!['-'] + decimal((-n) as nat)
    } else {
        decimal(n as nat)
    }
}

pub fn push_signed(out: &mut String, n: i64)
    ensures
        final(out)@ == old(out)@ + signed(n as int),
{
    if n < 0 {
        out.push('-');
        let m: u64 = (-(n as i128)) as u64;
        push_decimal(out, m);
        assert(out@ =~= old(out)@ + signed(n as int));
    } else {
        push_decimal(out, n as u64);
    }
}

/// A moment in Unix milliseconds, or a dash.
pub open spec fn moment_text(t: Option<Time>) -> Seq<char> {
    match t {
        Some(m) => signed(m.ms as int),
        None => "-"@,
    }
}

/// The line of a finished command: its row counted from the top of the
/// screen, start, end, exit code and text.
pub open spec fn mark_line(m: Pinned, top: int, now: Seq<char>) -> Seq<char> {
    signed(m.line - top) + " "@ + moment_text(m.start) + " "@ + moment_text(m.end) + " "@ + (match m.exit {
        Some(c) => signed(c as int),
        None => "-"@,
    }) + " "@ + now
}

/// The lines of the marks from `k` on that can still be read.
pub open spec fn mark_lines(s: Seq<Pinned>, k: int, screen: Screen) -> Seq<Seq<char>>
    decreases s.len() - k,
{
    if k < 0 || k >= s.len() {
        Seq::empty()
    } else {
        let rest = mark_lines(s, k + 1, screen);
        match screen.place(s[k].line as int) {
            Some(i) => if s[k].end is Some && reads_still(trim_end(screen.text(i)), s[k].text, screen.cols as int) {
                seq![mark_line(s[k], screen.scrolled as int, trim_end(screen.text(i)))] + rest
            } else {
                rest
            },
            None => rest,
        }
    }
}

fn push_moment(out: &mut String, t: Option<Time>)
    ensures
        final(out)@ == old(out)@ + moment_text(t),
{
    match t {
        Some(m) => push_signed(out, m.ms),
        None => out.push_str("-"),
    }
}

/// `list-marks`: one line per finished command still readable, oldest
/// first: its row counted from the top of the screen (negative in the
/// scrollback, as `capture-pane -S` counts), start and end in Unix
/// milliseconds, the exit code (`-` when the shell did not say) and the
/// line's text as it reads now (cut short in a pane narrowed since).
pub fn list_marks(marks: &VecDeque<Mark>, screen: &Screen) -> (out: Vec<String>)
    requires
        screen.wf(),
    ensures
        crate::screen::string_values(out@) == mark_lines(pinned(marks@), 0, *screen),
{
    let ghost all = pinned(marks@);
    let ghost goal = mark_lines(all, 0, *screen);
    let mut out: Vec<String> = Vec::new();
    let ghost seen = Seq::<Seq<char>>::empty();
    let mut k: usize = 0;
    assert(crate::screen::string_values(out@) =~= seen);
    assert(seen + goal =~= goal);
    while k < marks.len()
        invariant
            k <= marks@.len(),
            screen.wf(),
            all == pinned(marks@),
            seen == crate::screen::string_values(out@),
            seen + mark_lines(all, k as int, *screen) == goal,
        decreases marks.len() - k,
    {
        let m = &marks[k];
        assert(all[k as int] == m@);
        let ghost before = seen;
        if m.end.is_some() {
            if let Some(now) = screen.text_at(m.line) {
                if still_reads(now.as_str(), m.text.as_str(), screen.cols) {
                    let mut line = String::new();
                    // A line that can be read is within reach of the top.
                    let ahead: i64 = if m.line >= screen.scrolled {
                        (m.line - screen.scrolled) as i64
                    } else {
                        -((screen.scrolled - m.line) as i64)
                    };
                    push_signed(&mut line, ahead);
                    line.push_str(" ");
                    push_moment(&mut line, m.start);
                    line.push_str(" ");
                    push_moment(&mut line, m.end);
                    line.push_str(" ");
                    match m.exit {
                        Some(c) => push_signed(&mut line, c as i64),
                        None => line.push_str("-"),
                    }
                    line.push_str(" ");
                    line.push_str(now.as_str());
                    assert(line@ =~= mark_line(m@, screen.scrolled as int, now@));
                    let ghost text = line@;
                    out.push(line);
                    proof {
                        seen = crate::screen::string_values(out@);
                        assert(seen =~= before.push(text));
                        assert(seen + mark_lines(all, k + 1, *screen) =~= before + mark_lines(
                            all,
                            k as int,
                            *screen,
                        ));
                    }
                }
            }
        }
        k = k + 1;
    }
    assert(seen + Seq::empty() =~= seen);
    out
}

} // verus!
