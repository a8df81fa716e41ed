//! What is captured of a screen, kept of its history, and marked in it.
use vstd::prelude::*;

use crate::history::{mark_of, taken_rows, written};
use crate::marks::{
    above, after_mark, finished, mark_line, moment_text, reachable, shown_from, shows, signed, MarkEvent, Pinned,
};
use crate::observe::Life;
use crate::saving::size_again;
use crate::screen::{capture_from, row_piece, without_blank_tail, Screen};
use crate::sourcing::{hook_line, last_part};
use crate::tasks::{earliest, last_open, latest, root_from};
use crate::text::{decimal, trim_end};
use crate::time::{elapsed, Time};

verus! {

/// Without joining, each row that is captured is a line of its own, in their
/// order, without the blanks at its end.
pub proof fn lemma_rows_captured(rows: Seq<(Seq<char>, bool)>, i: int, out: Seq<Seq<char>>)
    requires
        0 <= i <= rows.len(),
        forall|k: int| 0 <= k < rows.len() ==> !trim_end((#[trigger] rows[k]).0).contains('\u{1b}'),
    ensures
        ({
            let all = capture_from(rows, i, false, out, false);
            &&& all.len() == out.len() + rows.len() - i
            &&& forall|k: int| 0 <= k < out.len() ==> #[trigger] all[k] == out[k]
            &&& forall|k: int| out.len() <= k < all.len() ==> #[trigger] all[k] == trim_end(rows[k - out.len() + i].0)
        }),
    decreases rows.len() - i,
{
    if i < rows.len() {
        let text = trim_end(rows[i].0);
        lemma_rows_captured(rows, i + 1, out.push(text));
    }
}

/// The texts of the rows from `i` to `j`, one after the other.
pub open spec fn run_of(rows: Seq<(Seq<char>, bool)>, i: int, j: int) -> Seq<char>
    decreases j - i,
{
    if i >= j {
        Seq::empty()
    } else {
        rows[i].0 + run_of(rows, i + 1, j)
    }
}

/// With joining, rows that the terminal wrapped are one line with the row that
/// they go on in.
pub proof fn lemma_rows_joined(rows: Seq<(Seq<char>, bool)>, i: int, j: int, out: Seq<Seq<char>>)
    requires
        0 <= i <= j < rows.len(),
        forall|k: int| i <= k < j ==> (#[trigger] rows[k]).1,
        !rows[j].1,
        !trim_end(rows[j].0).contains('\u{1b}'),
    ensures
        capture_from(rows, i, true, out, false) == capture_from(
            rows,
            j + 1,
            true,
            out.push(run_of(rows, i, j) + trim_end(rows[j].0)),
            false,
        ),
{
    if i == j {
        assert(run_of(rows, i, j) + trim_end(rows[j].0) =~= trim_end(rows[j].0));
    } else {
        let next = out.push(rows[i].0);
        lemma_rows_go_on(rows, i + 1, j, next);
        assert(next.drop_last() =~= out);
        assert(next.last() + (run_of(rows, i + 1, j) + trim_end(rows[j].0)) =~= run_of(rows, i, j) + trim_end(rows[j].0));
    }
}

proof fn lemma_rows_go_on(rows: Seq<(Seq<char>, bool)>, i: int, j: int, out: Seq<Seq<char>>)
    requires
        0 <= i <= j < rows.len(),
        forall|k: int| i <= k < j ==> (#[trigger] rows[k]).1,
        !rows[j].1,
        !trim_end(rows[j].0).contains('\u{1b}'),
        out.len() > 0,
    ensures
        capture_from(rows, i, true, out, true) == capture_from(
            rows,
            j + 1,
            true,
            out.drop_last().push(out.last() + (run_of(rows, i, j) + trim_end(rows[j].0))),
            false,
        ),
    decreases j - i,
{
    if i == j {
        assert(run_of(rows, i, j) + trim_end(rows[j].0) =~= trim_end(rows[j].0));
    } else {
        let next = out.drop_last().push(out.last() + rows[i].0);
        lemma_rows_go_on(rows, i + 1, j, next);
        assert(next.drop_last() =~= out.drop_last());
        assert(next.last() + (run_of(rows, i + 1, j) + trim_end(rows[j].0)) =~= out.last() + (run_of(rows, i, j) + trim_end(
            rows[j].0,
        )));
    }
}

/// The empty lines at the end are left out, and no other line.
pub proof fn lemma_blank_tail(s: Seq<Seq<char>>)
    ensures
        without_blank_tail(s).len() <= s.len(),
        forall|i: int| 0 <= i < without_blank_tail(s).len() ==> #[trigger] without_blank_tail(s)[i] == s[i],
        without_blank_tail(s).len() > 0 ==> without_blank_tail(s).last().len() > 0,
        forall|i: int|
            without_blank_tail(s).len() <= i < s.len() ==> (#[trigger] s[i]).len() == 0 || s[i] == "\u{1b}[0m"@,
    decreases s.len(),
{
    if s.len() > 0 && (s.last().len() == 0 || s.last() == "\u{1b}[0m"@) {
        lemma_blank_tail(s.drop_last());
        assert forall|i: int| without_blank_tail(s).len() <= i < s.len() implies (#[trigger] s[i]).len() == 0 || s[i]
            == "\u{1b}[0m"@ by {
            if i < s.len() - 1 {
                assert(s.drop_last()[i] == s[i]);
            }
        }
    }
}

/// A row of what a program printed ends its line, unless the terminal wrapped
/// it in the middle of a word.
pub proof fn lemma_row_pieces(text: Seq<char>)
    ensures
        row_piece(text, false) == trim_end(text).push('\n'),
        text.len() > 0 && text.last() != ' ' ==> row_piece(text, true) == text,
{
}

/// The texts of the rows of a screen from `i` to `j`.
pub open spec fn screen_run(s: Screen, i: int, j: int) -> Seq<char>
    decreases j - i,
{
    if i >= j {
        Seq::empty()
    } else {
        s.lines@[i].text@ + screen_run(s, i + 1, j)
    }
}

/// Rows that leave the screen are taken as lines: each under the number of its
/// first row, rows that were wrapped together with the one that they go on in.
pub proof fn lemma_line_taken(
    s: Screen,
    i: int,
    j: int,
    end: int,
    base: int,
    closing: bool,
    lines: Seq<(u64, Seq<char>)>,
)
    requires
        0 <= i <= j < end <= s.lines@.len(),
        forall|k: int| i <= k < j ==> (#[trigger] s.lines@[k]).wrapped,
        !s.lines@[j].wrapped,
    ensures
        taken_rows(s, i, end, i, Seq::empty(), base, closing, lines) == taken_rows(
            s,
            j + 1,
            end,
            j + 1,
            Seq::empty(),
            base,
            closing,
            lines.push(((base + i) as u64, trim_end(screen_run(s, i, j + 1)))),
        ),
{
    lemma_line_going(s, i, j, end, i, Seq::empty(), base, closing, lines);
    assert(Seq::<char>::empty() + screen_run(s, i, j + 1) =~= screen_run(s, i, j + 1));
}

proof fn lemma_line_going(
    s: Screen,
    i: int,
    j: int,
    end: int,
    first: int,
    joined: Seq<char>,
    base: int,
    closing: bool,
    lines: Seq<(u64, Seq<char>)>,
)
    requires
        0 <= i <= j < end <= s.lines@.len(),
        forall|k: int| i <= k < j ==> (#[trigger] s.lines@[k]).wrapped,
        !s.lines@[j].wrapped,
    ensures
        taken_rows(s, i, end, first, joined, base, closing, lines) == taken_rows(
            s,
            j + 1,
            end,
            j + 1,
            Seq::empty(),
            base,
            closing,
            lines.push(((base + first) as u64, trim_end(joined + screen_run(s, i, j + 1)))),
        ),
    decreases j - i,
{
    let text = joined + s.lines@[i].text@;
    if i < j {
        lemma_line_going(s, i + 1, j, end, first, text, base, closing, lines);
        assert(text + screen_run(s, i + 1, j + 1) =~= joined + screen_run(s, i, j + 1));
    } else {
        assert(screen_run(s, i, i + 1) =~= s.lines@[i].text@ + screen_run(s, i + 1, i + 1));
        assert(text =~= joined + screen_run(s, i, j + 1));
    }
}

/// What is written to the log of a pane: each line after the one before it.
pub proof fn lemma_lines_written(
    hold: Seq<(u64, Seq<char>)>,
    marks: Seq<Pinned>,
    now: Time,
    words: spec_fn(i64) -> Seq<char>,
    k: int,
    n: int,
)
    requires
        0 <= k < n <= hold.len(),
        forall|i: int| 0 <= i < marks.len() ==> (#[trigger] marks[i]).line != hold[k].0,
    ensures
        written(hold, marks, now, words, k, n) == hold[k].1 + seq!['\n'] + written(hold, marks, now, words, k + 1, n),
{
    lemma_no_mark(marks, hold[k].0, 0);
    reveal_strlit("\n");
    assert("\n"@ =~= seq!['\n']);
    assert(Seq::<char>::empty() + hold[k].1 =~= hold[k].1);
}

proof fn lemma_no_mark(marks: Seq<Pinned>, line: u64, k: int)
    requires
        0 <= k,
        forall|i: int| 0 <= i < marks.len() ==> (#[trigger] marks[i]).line != line,
    ensures
        mark_of(marks, line, k) is None,
    decreases marks.len() - k,
{
    if k < marks.len() {
        lemma_no_mark(marks, line, k + 1);
    }
}

/// A prompt forgets the marks at its line and below, which are written over.
pub proof fn lemma_marks_above(s: Seq<Pinned>, line: u64)
    ensures
        above(s, line).len() <= s.len(),
        forall|i: int| 0 <= i < above(s, line).len() ==> #[trigger] above(s, line)[i] == s[i],
        above(s, line).len() > 0 ==> above(s, line).last().line < line,
        forall|i: int| above(s, line).len() <= i < s.len() ==> (#[trigger] s[i]).line >= line,
    decreases s.len(),
{
    if s.len() > 0 && s.last().line >= line {
        lemma_marks_above(s.drop_last(), line);
        assert forall|i: int| above(s, line).len() <= i < s.len() implies (#[trigger] s[i]).line >= line by {
            if i < s.len() - 1 {
                assert(s.drop_last()[i] == s[i]);
            }
        }
    }
}

/// The marks that are kept are the last ones, so many at most, and from the
/// first on that is still in the history.
pub proof fn lemma_marks_reachable(s: Seq<Pinned>, oldest: int, max: int)
    requires
        max >= 0,
    ensures
        ({
            let r = reachable(s, oldest, max);
            let d = s.len() - r.len();
            &&& 0 <= d && r.len() <= max
            &&& forall|i: int| 0 <= i < r.len() ==> #[trigger] r[i] == s[i + d]
            &&& r.len() > 0 ==> r[0].line >= oldest
            &&& d > 0 ==> s[d - 1].line < oldest || s.len() - (d - 1) > max
        }),
    decreases s.len(),
{
    if s.len() > 0 && (s[0].line < oldest || s.len() > max) {
        lemma_marks_reachable(s.skip(1), oldest, max);
        let r = reachable(s.skip(1), oldest, max);
        let d = s.len() - 1 - r.len();
        assert forall|i: int| 0 <= i < r.len() implies #[trigger] r[i] == s[i + d + 1] by {
            assert(r[i] == s.skip(1)[i + d]);
        }
        if d > 0 {
            assert(s.skip(1)[d - 1] == s[d]);
        }
    }
}

/// A prompt after a command that ended gets a mark of its own at its line.
pub proof fn lemma_prompt_marked(s: Seq<Pinned>, screen: Screen, line: u64)
    requires
        s.len() > 0 ==> s.last().end is Some,
    ensures
        ({
            let after = after_mark(s, screen, MarkEvent::Prompt(line));
            &&& after.last() == (Pinned { line, start: None, end: None, exit: None, text: Seq::empty() })
            &&& after.drop_last() == above(s, line)
        }),
{
    assert(above(s, line).push(after_mark(s, screen, MarkEvent::Prompt(line)).last()).drop_last() =~= above(s, line));
}

/// A command that starts at a prompt is marked with the moment, and when it
/// ends with that and its code; the line that was typed is kept with it. An
/// end without a start is none, and a mark on an empty line is dropped.
pub proof fn lemma_command_marked(s: Seq<Pinned>, screen: Screen, t: Time, code: Option<i32>)
    requires
        s.len() > 0,
        s.last().end is None,
    ensures
        ({
            let m = s.last();
            let n = s.len() - 1;
            let started = after_mark(s, screen, MarkEvent::Start(t));
            let ended = after_mark(s, screen, MarkEvent::End(t, code));
            let row = screen.lines@.len() - screen.rows + m.line - screen.scrolled;
            let typed = if 0 <= row < screen.lines@.len() {
                trim_end(screen.lines@[row].text@)
            } else {
                Seq::empty()
            };
            &&& started.len() == s.len() && started.last().start == Some(t) && started.last().end is None
            &&& started.last().line == m.line && started.drop_last() == s.drop_last()
            &&& m.start is None ==> ended == s
            &&& m.start is Some && typed.len() > 0 ==> ended.len() == s.len() && ended.last() == (Pinned {
                line: m.line,
                start: m.start,
                end: Some(t),
                exit: code,
                text: typed,
            }) && ended.drop_last() == s.drop_last()
            &&& m.start is Some && typed.len() == 0 ==> ended == s.drop_last()
        }),
{
    assert(after_mark(s, screen, MarkEvent::Start(t)).drop_last() =~= s.drop_last());
    let f = finished(s, screen, None, t, code);
    assert(f.len() == s.len() ==> f.drop_last() =~= s.drop_last());
}

/// PowerShell tells of a command when it has run: it gets both moments, and 0
/// or 1 for how it ended.
pub proof fn lemma_command_ran(s: Seq<Pinned>, screen: Screen, start: Time, end: Time, ok: bool)
    requires
        s.len() > 0,
        s.last().end is None,
    ensures
        ({
            let after = after_mark(s, screen, MarkEvent::Ran { start, end, ok });
            after.len() == s.len() ==> {
                &&& after.last().start == Some(start) && after.last().end == Some(end)
                &&& ok ==> after.last().exit == Some(0i32)
                &&& !ok ==> after.last().exit == Some(1i32)
                &&& after.last().line == s.last().line
            }
        }),
{
}

/// A mark is listed with its line counted from the top of the screen, the
/// moments, and the code, a dash for what is not known.
pub proof fn lemma_mark_listed(m: Pinned, top: int, text: Seq<char>)
    requires
        m.start is None,
        m.end is None,
        m.exit is None,
    ensures
        m.line >= top ==> mark_line(m, top, text) == decimal((m.line - top) as nat) + seq![' ', '-', ' ', '-', ' ', '-', ' ']
            + text,
        m.line < top ==> mark_line(m, top, text) == seq!['-'] + decimal((top - m.line) as nat) + seq![
            ' ',
            '-',
            ' ',
            '-',
            ' ',
            '-',
            ' ',
        ] + text,
{
    reveal_strlit(" ");
    reveal_strlit("-");
    assert(" "@ + "-"@ + " "@ + "-"@ + " "@ + "-"@ + " "@ =~= seq![' ', '-', ' ', '-', ' ', '-', ' ']);
    assert(mark_line(m, top, text) =~= signed(m.line - top) + seq![' ', '-', ' ', '-', ' ', '-', ' '] + text);
    assert(moment_text(None) == "-"@);
}

/// The marks that are shown are those of commands that ended, on the rows
/// where their lines are.
pub proof fn lemma_marks_shown(s: Seq<Pinned>, k: int, texts: Seq<Seq<char>>, top: int, cols: int)
    requires
        0 <= k,
    ensures
        forall|i: int|
            0 <= i < shown_from(s, k, texts, top, cols).len() ==> {
                let (row, m) = #[trigger] shown_from(s, k, texts, top, cols)[i];
                &&& m.end is Some && m.line == top + row && 0 <= row < texts.len()
            },
        forall|j: int|
            k <= j < s.len() && (#[trigger] s[j]).end is Some && top <= s[j].line < top + texts.len() && trim_end(
                texts[s[j].line - top],
            ) == s[j].text ==> shown_from(s, k, texts, top, cols).contains((s[j].line - top, s[j])),
    decreases s.len() - k,
{
    if k < s.len() {
        lemma_marks_shown(s, k + 1, texts, top, cols);
        let rest = shown_from(s, k + 1, texts, top, cols);
        let all = shown_from(s, k, texts, top, cols);
        let n = all.len() - rest.len();
        assert(n == 0 || n == 1);
        assert forall|i: int| 0 <= i < all.len() implies {
            let (row, m) = #[trigger] all[i];
            &&& m.end is Some && m.line == top + row && 0 <= row < texts.len()
        } by {
            if n == 1 && i > 0 {
                assert(all[i] == rest[i - 1]);
            }
        }
        assert forall|j: int|
            k <= j < s.len() && (#[trigger] s[j]).end is Some && top <= s[j].line < top + texts.len() && trim_end(
                texts[s[j].line - top],
            ) == s[j].text implies all.contains((s[j].line - top, s[j])) by {
            if j == k {
                assert(shows(s[k], texts, top, cols, s[k].line - top));
                assert(all[0] == (s[k].line - top, s[k]));
            } else {
                let it = (s[j].line - top, s[j]);
                assert(rest.contains(it));
                let i = choose|i: int| 0 <= i < rest.len() && rest[i] == it;
                assert(all[i + n] == it);
            }
        }
    }
}

/// A task started with its earliest message.
pub proof fn lemma_task_started(s: Seq<Life>, k: nat)
    requires
        1 <= k <= s.len(),
    ensures
        forall|i: int| 0 <= i < k ==> earliest(s, k).ms <= (#[trigger] s[i]).msg.at.ms,
        exists|i: int| 0 <= i < k && (#[trigger] s[i]).msg.at == earliest(s, k),
    decreases k,
{
    let at = k - 1;
    assert(s[at] == s[k - 1]);
    if k > 1 {
        lemma_task_started(s, (k - 1) as nat);
    }
}

/// A task ended with the latest end; the time between two moments is their
/// difference.
pub proof fn lemma_task_ended(s: Seq<Life>, k: nat, a: Time, b: Time)
    requires
        k <= s.len(),
    ensures
        match latest(s, k) {
            Some(t) => {
                &&& forall|i: int| 0 <= i < k && (#[trigger] s[i]).ended is Some ==> (s[i].ended->0).ms <= t.ms
                &&& exists|i: int| 0 <= i < k && (#[trigger] s[i]).ended == Some(t)
            },
            None => forall|i: int| 0 <= i < k ==> (#[trigger] s[i]).ended is None,
        },
        b.ms >= a.ms ==> elapsed(a, b) == b.ms - a.ms,
        b.ms < a.ms ==> elapsed(a, b) == 0,
    decreases k,
{
    if k > 0 {
        let at = k - 1;
        assert(s[at] == s[k - 1]);
        lemma_task_ended(s, (k - 1) as nat, a, b);
    }
}

/// A task is where its last open message is.
pub proof fn lemma_task_stands(s: Seq<Life>, k: nat)
    requires
        k <= s.len(),
    ensures
        match last_open(s, k) {
            Some(r) => exists|i: int|
                0 <= i < k && (#[trigger] s[i]) == r && !r.stage.is_finished() && all_finished(s, i + 1, k as int),
            None => all_finished(s, 0, k as int),
        },
    decreases k,
{
    if k > 0 {
        lemma_task_stands(s, (k - 1) as nat);
        let at = k - 1;
        assert(s[at] == s[k - 1]);
        if s[at].stage.is_finished() && last_open(s, (k - 1) as nat) is Some {
            let r = last_open(s, (k - 1) as nat)->0;
            let i = choose|i: int|
                0 <= i < k - 1 && (#[trigger] s[i]) == r && !r.stage.is_finished() && all_finished(s, i + 1, k - 1);
            assert(all_finished(s, i + 1, k as int));
            assert(s[i] == r);
        } else if !s[at].stage.is_finished() {
            assert(all_finished(s, at + 1, k as int));
        }
    }
}

/// The messages from `i` to `k` are done with.
pub open spec fn all_finished(s: Seq<Life>, i: int, k: int) -> bool {
    forall|j: int| i <= j < k ==> (#[trigger] s[j]).stage.is_finished()
}

/// The root of a task is the message that it is numbered by.
pub proof fn lemma_task_root(s: Seq<Life>, task: u64, i: int)
    requires
        0 <= i,
    ensures
        match root_from(s, task, i) {
            Some(r) => r.msg.id == task && exists|k: int| i <= k < s.len() && #[trigger] s[k] == r,
            None => forall|k: int| i <= k < s.len() ==> (#[trigger] s[k]).msg.id != task,
        },
    decreases s.len() - i,
{
    if i < s.len() && s[i].msg.id != task {
        lemma_task_root(s, task, i + 1);
    } else if i < s.len() {
        let k = i;
        assert(s[k] == s[i]);
    }
}

/// The command of a hook is the one that was set for it.
pub proof fn lemma_hook(v: Seq<(String, String)>, name: Seq<char>, i: int)
    requires
        0 <= i,
    ensures
        match hook_line(v, name, i) {
            Some(l) => exists|k: int| i <= k < v.len() && (#[trigger] v[k]).0@ == name && v[k].1@ == l,
            None => forall|k: int| i <= k < v.len() ==> (#[trigger] v[k]).0@ != name,
        },
    decreases v.len() - i,
{
    if i < v.len() && v[i].0@ != name {
        lemma_hook(v, name, i + 1);
    } else if i < v.len() {
        let k = i;
        assert(v[k].0@ == name);
    }
}

/// The last part of a path comes after its last slash.
pub proof fn lemma_last_part(s: Seq<char>, e: int)
    requires
        0 <= e <= s.len(),
    ensures
        0 <= last_part(s, e) <= e,
        last_part(s, e) > 0 ==> s[last_part(s, e) - 1] == '/' || s[last_part(s, e) - 1] == '\\',
        forall|i: int| last_part(s, e) <= i < e ==> (#[trigger] s[i]) != '/' && s[i] != '\\',
    decreases e,
{
    if e > 0 && s[e - 1] != '/' && s[e - 1] != '\\' {
        lemma_last_part(s, e - 1);
    }
}

/// A session that comes back has the size asked for, else the one that it was
/// saved with, else that of a plain terminal; ten columns and three rows at
/// least.
pub proof fn lemma_size_again(a: (u16, u16), b: (u16, u16))
    requires
        a.0 >= 10 && a.1 >= 3 && b.0 >= 10 && b.1 >= 3,
    ensures
        size_again(Some(a), Some(b)) == a,
        size_again(Some(a), None) == a,
        size_again(None, Some(b)) == b,
        size_again(None, None) == (80u16, 24u16),
        size_again(Some((0u16, 0u16)), None) == (10u16, 3u16),
{
}

} // verus!
