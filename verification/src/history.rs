//! The history log of a pane: what scrolls off its screen, each command
//! after a line of its times.
use std::collections::VecDeque;
use vstd::prelude::*;
use crate::marks::{pinned, push_signed, signed, Mark, Pinned};
use crate::screen::{without_blanks, Screen};
use crate::tasks::words_it;
use crate::text::{decimal, push_decimal, same_text, trim_end};
use crate::time::{format_time, time_text, Time};

verus! {

/// Log text a pane gathers before handing it to the writer.
pub const LOG_BATCH: usize = 32768;

/// Most lines of a running command's output held back for its times, and
/// for how many milliseconds, before they go to the history log without them.
pub const HOLD_LINES: usize = 5000;

pub const HOLD_FOR: u64 = 600000;

/// The line number of a held line that is no line of the screen's.
pub const NO_LINE: u64 = 0xffff_ffff_ffff_ffff;

/// The day of a moment.
pub open spec fn day(t: Time) -> Seq<char> {
    time_text(t.ms, t.offset, "%Y-%m-%d"@)
}

/// The line the history log puts before a command.
pub open spec fn header_text(m: Pinned, end: Time, now: Time, words: spec_fn(i64) -> Seq<char>) -> Seq<char> {
    let at = match m.start {
        Some(t) => t,
        None => end,
    };
    "\u{2500}\u{2500} "@ + (if day(at) == day(now) {
        time_text(at.ms, at.offset, "%H:%M:%S"@)
    } else {
        time_text(at.ms, at.offset, "%Y-%m-%d %H:%M:%S"@)
    }) + (match m.start {
        Some(start) => " \u{b7} "@ + words((end.ms - start.ms) as i64),
        None => Seq::empty(),
    }) + (match m.exit {
        Some(code) => if code == 0 {
            " \u{b7} \u{2713}"@
        } else {
            " \u{b7} \u{2717} "@ + signed(code as int)
        },
        None => Seq::empty(),
    }) + " \u{2500}\u{2500}\n"@
}

/// The moments of a mark have dates.
pub open spec fn mark_dated(m: Pinned) -> bool {
    (m.start is Some ==> m.start->0.valid()) && (m.end is Some ==> m.end->0.valid())
}

/// The line the history log puts before a command: when it started (with
/// the date when not today), how long it took, how it ended. `say` writes
/// lengths of time.
pub fn log_header<F: Fn(i64) -> String>(m: &Mark, end: Time, now: Time, say: &F) -> (out: String)
    requires
        mark_dated(m@),
        end.valid(),
        now.valid(),
        forall|ms: i64| #[trigger] call_requires(*say, (ms,)),
    ensures
        forall|words: spec_fn(i64) -> Seq<char>| #[trigger]
            words_it(*say, words) ==> out@ == header_text(m@, end, now, words),
{
    let at = match m.start {
        Some(t) => t,
        None => end,
    };
    let mut h = "\u{2500}\u{2500} ".to_owned();
    let today: bool = same_text(format_time(at, "%Y-%m-%d").as_str(), format_time(now, "%Y-%m-%d").as_str());
    if today {
        h.push_str(format_time(at, "%H:%M:%S").as_str());
    } else {
        h.push_str(format_time(at, "%Y-%m-%d %H:%M:%S").as_str());
    }
    let ghost a = h@;
    if let Some(start) = m.start {
        h.push_str(" \u{b7} ");
        let took = say(end.ms - start.ms);
        h.push_str(took.as_str());
    }
    proof {
        assert forall|words: spec_fn(i64) -> Seq<char>| #[trigger] words_it(*say, words) implies h@ == a + (
        match m.start {
            Some(start) => " \u{b7} "@ + words((end.ms - start.ms) as i64),
            None => Seq::empty(),
        }) by {
            assert(h@ =~= a + (match m.start {
                Some(start) => " \u{b7} "@ + words((end.ms - start.ms) as i64),
                None => Seq::empty(),
            }));
        }
    }
    let ghost b = h@;
    match m.exit {
        Some(code) => {
            if code == 0 {
                h.push_str(" \u{b7} \u{2713}");
            } else {
                h.push_str(" \u{b7} \u{2717} ");
                push_signed(&mut h, code as i64);
            }
        },
        None => {},
    }
    assert(h@ =~= b + (match m.exit {
        Some(code) => if code == 0 {
            " \u{b7} \u{2713}"@
        } else {
            " \u{b7} \u{2717} "@ + signed(code as int)
        },
        None => Seq::empty(),
    }));
    h.push_str(" \u{2500}\u{2500}\n");
    h
}

/// A pane's log in progress.
#[derive(Debug)]
pub struct PaneLog {
    /// The first line not yet taken for the log.
    pub logged: u64,
    /// Lines taken but not yet written: the command they follow is still
    /// running, and its times go before it once it is done.
    pub hold: VecDeque<(u64, String)>,
    /// Since when lines are held, on the server's clock.
    pub hold_since: Option<u64>,
    /// Log text not yet handed to the writer: it goes in batches (a pane
    /// prints a line or two at a time).
    pub buf: String,
}

pub open spec fn held(v: Seq<(u64, String)>) -> Seq<(u64, Seq<char>)> {
    Seq::new(v.len(), |i: int| (v[i].0, v[i].1@))
}

/// The lines read so far, and where the next begins.
pub ghost struct Taken {
    pub lines: Seq<(u64, Seq<char>)>,
    pub next: int,
}

/// The lines of the rows `i..end`. A row the terminal wrapped continues on
/// the next one: one line, as the program printed it. A wrapped row whose
/// rest is not there yet waits for it, unless everything is taken now.
/// `first` is the row where the line being read began, `joined` its text so
/// far, and `base` the number of row zero's line.
pub open spec fn taken_rows(
    s: Screen,
    i: int,
    end: int,
    first: int,
    joined: Seq<char>,
    base: int,
    closing: bool,
    lines: Seq<(u64, Seq<char>)>,
) -> Taken
    decreases end - i,
{
    if i >= end {
        Taken { lines, next: first }
    } else {
        let text = joined + s.text(i);
        let wrapped = s.lines@[i].wrapped;
        if wrapped && i + 1 < end {
            taken_rows(s, i + 1, end, first, text, base, closing, lines)
        } else if wrapped && !closing {
            Taken { lines, next: first }
        } else {
            taken_rows(
                s,
                i + 1,
                end,
                i + 1,
                Seq::empty(),
                base,
                closing,
                lines.push(((base + first) as u64, trim_end(text))),
            )
        }
    }
}

/// The held lines without the blank ones of the screen at the end.
pub open spec fn without_blank_bottom(s: Seq<(u64, Seq<char>)>, top: int) -> Seq<(u64, Seq<char>)>
    decreases s.len(),
{
    if s.len() > 0 && s.last().0 >= top && s.last().1.len() == 0 {
        without_blank_bottom(s.drop_last(), top)
    } else {
        s
    }
}

/// What is said of lines that were lost.
pub open spec fn lost_text(n: int) -> Seq<char> {
    "[keepane: "@ + decimal(n as nat) + " lines scrolled past the history before they were kept]"@
}

/// The log with the lines that left the screen taken in.
pub open spec fn gathered(
    hold: Seq<(u64, Seq<char>)>,
    logged: int,
    s: Screen,
    closing: bool,
) -> (Seq<(u64, Seq<char>)>, int) {
    if s.alternate {
        (hold, logged)
    } else {
        let top = s.scrolled as int;
        // With nothing in the scrollback nothing that scrolls off can be read
        // back: only the screen, at the close, is kept.
        let lost = s.history() > 0 && logged < s.oldest();
        let start = if s.history() == 0 {
            if logged > top {
                logged
            } else {
                top
            }
        } else if lost {
            s.oldest()
        } else {
            logged
        };
        let before = if lost { hold.push((NO_LINE, lost_text(s.oldest() - logged))) } else { hold };
        let end = if closing { top + s.rows } else { top };
        let base = top - s.history();
        let t = taken_rows(s, start - base, end - base, start - base, Seq::empty(), base, closing, before);
        let lines = if closing { without_blank_bottom(t.lines, top) } else { t.lines };
        (
            lines,
            if start < end {
                base + t.next
            } else {
                start
            },
        )
    }
}

/// The mark of a line, from `k` on.
pub open spec fn mark_of(marks: Seq<Pinned>, line: u64, k: int) -> Option<Pinned>
    decreases marks.len() - k,
{
    if k < 0 || k >= marks.len() {
        None
    } else if marks[k].line == line {
        Some(marks[k])
    } else {
        mark_of(marks, line, k + 1)
    }
}

/// How many of the held lines, from `k` on, can be written: all up to a
/// command that is still running.
pub open spec fn writable(hold: Seq<(u64, Seq<char>)>, marks: Seq<Pinned>, give_up: bool, k: int) -> int
    decreases hold.len() - k,
{
    if k < 0 || k >= hold.len() {
        hold.len() as int
    } else {
        match mark_of(marks, hold[k].0, 0) {
            Some(m) => if m.end is None && !give_up {
                k
            } else {
                writable(hold, marks, give_up, k + 1)
            },
            None => writable(hold, marks, give_up, k + 1),
        }
    }
}

/// The text of the held lines `k..n`, each command's after its header.
pub open spec fn written(
    hold: Seq<(u64, Seq<char>)>,
    marks: Seq<Pinned>,
    now: Time,
    words: spec_fn(i64) -> Seq<char>,
    k: int,
    n: int,
) -> Seq<char>
    decreases n - k,
{
    if k < 0 || k >= n {
        Seq::empty()
    } else {
        (match mark_of(marks, hold[k].0, 0) {
            Some(m) => match m.end {
                Some(end) => header_text(m, end, now, words),
                None => Seq::empty(),
            },
            None => Seq::empty(),
        }) + hold[k].1 + "\n"@ + written(hold, marks, now, words, k + 1, n)
    }
}

impl PaneLog {
    /// What is taken has scrolled or will: the count stays within the
    /// screen's.
    pub open spec fn wf(self, s: Screen) -> bool {
        self.logged <= s.scrolled + s.rows
    }

    /// Whether `take_log` has anything to do.
    pub fn log_pending(&self, screen: &Screen) -> (b: bool)
        ensures
            b == (self.hold@.len() > 0 || (!screen.alternate && screen.scrolled > self.logged)),
    {
        self.hold.len() > 0 || (!screen.alternate && screen.scrolled > self.logged)
    }

    /// Take in the lines that left the screen.
    fn gather(&mut self, screen: &Screen, closing: bool)
        requires
            screen.wf(),
        ensures
            (held(final(self).hold@), final(self).logged as int) == gathered(
                held(old(self).hold@),
                old(self).logged as int,
                *screen,
                closing,
            ),
            final(self).hold_since == old(self).hold_since,
            final(self).buf == old(self).buf,
    {
        if screen.alternate {
            return;
        }
        let total: usize = screen.lines.len();
        let history: u64 = screen.scrollback_len() as u64;
        let top: u64 = screen.scrolled;
        let oldest: u64 = top - history;
        let ghost hold0 = held(self.hold@);
        let ghost logged0 = self.logged;
        let ghost before = hold0;
        if history == 0 {
            if self.logged < top {
                self.logged = top;
            }
        } else if self.logged < oldest {
            let mut text = "[keepane: ".to_owned();
            push_decimal(&mut text, oldest - self.logged);
            text.push_str(" lines scrolled past the history before they were kept]");
            assert(text@ == lost_text(oldest - logged0));
            self.hold.push_back((NO_LINE, text));
            proof {
                before = hold0.push((NO_LINE, lost_text(oldest - logged0)));
                assert(held(self.hold@) =~= before);
            }
            self.logged = oldest;
        }
        let start: u64 = self.logged;
        let end: u64 = if closing { top + screen.rows as u64 } else { top };
        if start >= end {
            if closing {
                self.drop_blank_bottom(top);
            }
            return;
        }
        let ghost goal = taken_rows(
            *screen,
            start - oldest,
            end - oldest,
            start - oldest,
            Seq::empty(),
            oldest as int,
            closing,
            before,
        );
        let mut i: usize = (start - oldest) as usize;
        let stop: usize = (end - oldest) as usize;
        let mut first: usize = i;
        let mut joined = String::new();
        let mut done: bool = false;
        while i < stop && !done
            invariant
                first <= i <= stop <= total == screen.lines@.len(),
                oldest + stop == end,
                end <= u64::MAX,
                self.hold_since == old(self).hold_since,
                self.buf == old(self).buf,
                !done ==> goal == taken_rows(
                    *screen,
                    i as int,
                    stop as int,
                    first as int,
                    joined@,
                    oldest as int,
                    closing,
                    held(self.hold@),
                ),
                done ==> goal == (Taken { lines: held(self.hold@), next: first as int }),
            decreases stop - i + if done {
                0int
            } else {
                1int
            },
        {
            let wrapped: bool = screen.lines[i].wrapped;
            joined.push_str(screen.lines[i].text.as_str());
            if wrapped && i + 1 < stop {
                i = i + 1;
            } else if wrapped && !closing {
                done = true;
            } else {
                let ghost lines = self.hold@;
                let text = without_blanks(joined.as_str());
                self.hold.push_back((oldest + first as u64, text));
                assert(held(self.hold@) =~= held(lines).push(((oldest + first) as u64, text@)));
                joined = String::new();
                i = i + 1;
                first = i;
            }
        }
        assert(goal == (Taken { lines: held(self.hold@), next: first as int }));
        self.logged = oldest + first as u64;
        if closing {
            // The screen's blank bottom is not output.
            self.drop_blank_bottom(top);
        }
    }

    fn drop_blank_bottom(&mut self, top: u64)
        ensures
            held(final(self).hold@) == without_blank_bottom(held(old(self).hold@), top as int),
            final(self).logged == old(self).logged,
            final(self).hold_since == old(self).hold_since,
            final(self).buf == old(self).buf,
    {
        let ghost all = held(self.hold@);
        while self.hold.len() > 0 && self.hold[self.hold.len() - 1].0 >= top && self.hold[self.hold.len()
            - 1].1.as_str().is_empty()
            invariant
                without_blank_bottom(all, top as int) == without_blank_bottom(held(self.hold@), top as int),
                self.logged == old(self).logged,
                self.hold_since == old(self).hold_since,
                self.buf == old(self).buf,
            decreases self.hold@.len(),
        {
            let ghost before = self.hold@;
            assert(held(before).last() == (before.last().0, before.last().1@));
            self.hold.pop_back();
            assert(held(self.hold@) =~= held(before).drop_last());
        }
        if self.hold.len() > 0 {
            assert(held(self.hold@).last() == (self.hold@.last().0, self.hold@.last().1@));
        }
    }

    /// The text for the history log: the lines that left the screen since
    /// the last call, each reported command after a line of its times.
    /// Lines from a command still running wait for it, so its times can go
    /// first (at most `HOLD_LINES` lines for `HOLD_FOR`). `closing` takes
    /// everything, what is on the screen as well. `clock` is the server's
    /// clock in milliseconds.
    pub fn take_log<F: Fn(i64) -> String>(
        &mut self,
        screen: &Screen,
        marks: &VecDeque<Mark>,
        closing: bool,
        clock: u64,
        now: Time,
        say: &F,
    ) -> (out: String)
        requires
            screen.wf(),
            now.valid(),
            old(self).hold_since is Some ==> old(self).hold_since->0 <= clock,
            forall|i: int| 0 <= i < pinned(marks@).len() ==> mark_dated(#[trigger] pinned(marks@)[i]),
            forall|ms: i64| #[trigger] call_requires(*say, (ms,)),
        ensures
            final(self).buf == old(self).buf,
            ({
                let (hold, logged) = gathered(held(old(self).hold@), old(self).logged as int, *screen, closing);
                let since = match old(self).hold_since {
                    Some(t) => t,
                    None => clock,
                };
                let give_up = closing || hold.len() > HOLD_LINES || clock - since > HOLD_FOR;
                let n = writable(hold, pinned(marks@), give_up, 0);
                &&& final(self).logged == logged
                &&& held(final(self).hold@) == hold.skip(n)
                &&& final(self).hold_since == if n < hold.len() {
                    Some(since)
                } else {
                    None
                }
                &&& n == 0 ==> out@.len() == 0
                &&& forall|words: spec_fn(i64) -> Seq<char>| #[trigger]
                    words_it(*say, words) ==> out@ == written(hold, pinned(marks@), now, words, 0, n)
            }),
    {
        self.gather(screen, closing);
        let ghost hold = held(self.hold@);
        let ghost all = pinned(marks@);
        let mut out = String::new();
        if self.hold.len() == 0 {
            self.hold_since = None;
            assert(hold.skip(0) =~= hold);
            return out;
        }
        let since: u64 = match self.hold_since {
            Some(t) => t,
            None => clock,
        };
        self.hold_since = Some(since);
        let give_up: bool = closing || self.hold.len() > HOLD_LINES || clock - since > HOLD_FOR;
        let ghost n = writable(hold, all, give_up, 0);
        let ghost mut k: int = 0;
        assert(hold.skip(0) =~= hold);
        let mut stopped: bool = false;
        proof {
            assert forall|words: spec_fn(i64) -> Seq<char>| #[trigger] words_it(*say, words) implies out@ == written_upto(
                hold,
                all,
                now,
                words,
                0,
            ) by {}
        }
        while self.hold.len() > 0 && !stopped
            invariant
                0 <= k <= hold.len(),
                now.valid(),
                all == pinned(marks@),
                forall|i: int| 0 <= i < all.len() ==> mark_dated(#[trigger] all[i]),
                forall|ms: i64| #[trigger] call_requires(*say, (ms,)),
                held(self.hold@) == hold.skip(k),
                n == writable(hold, all, give_up, k),
                stopped ==> n == k,
                k == 0 ==> out@.len() == 0,
                self.buf == old(self).buf,
                self.hold_since == Some(since),
                self.logged == gathered(held(old(self).hold@), old(self).logged as int, *screen, closing).1,
                forall|words: spec_fn(i64) -> Seq<char>| #[trigger]
                    words_it(*say, words) ==> out@ == written_upto(hold, all, now, words, k),
            decreases self.hold@.len() + if stopped {
                0int
            } else {
                1int
            },
        {
            let line: u64 = self.hold[0].0;
            proof {
                assert(held(self.hold@).len() == self.hold@.len());
                assert(hold.skip(k).len() == hold.len() - k);
                assert(held(self.hold@)[0] == hold[k]);
                assert(hold[k].0 == line);
            }
            let at = find_mark(marks, line);
            let ghost before = out@;
            if let Some(i) = at {
                let m = &marks[i];
                assert(all[i as int] == m@);
                match m.end {
                    Some(end) => {
                        let header = log_header(m, end, now, say);
                        out.push_str(header.as_str());
                    },
                    None => {
                        if !give_up {
                            stopped = true; // still running
                        }
                    },
                }
            }
            if !stopped {
                let ghost rest = self.hold@;
                if let Some((_, text)) = self.hold.pop_front() {
                    out.push_str(text.as_str());
                    out.push_str("\n");
                    proof {
                        assert(held(self.hold@) =~= held(rest).skip(1));
                        assert(held(rest)[0].1 == text@);
                        assert(hold.skip(k).skip(1) =~= hold.skip(k + 1));
                        assert forall|words: spec_fn(i64) -> Seq<char>| #[trigger] words_it(*say, words) implies out@
                            == written_upto(hold, all, now, words, k + 1) by {
                            assert(before == written_upto(hold, all, now, words, k));
                            assert(out@ =~= written_upto(hold, all, now, words, k + 1));
                        }
                        k = k + 1;
                    }
                }
            }
        }
        if self.hold.len() == 0 {
            self.hold_since = None;
        }
        proof {
            if !stopped {
                assert(hold.skip(k).len() == 0);
                assert(k == hold.len());
            }
            assert forall|words: spec_fn(i64) -> Seq<char>| #[trigger] words_it(*say, words) implies out@ == written(
                hold,
                all,
                now,
                words,
                0,
                n,
            ) by {
                lemma_written(hold, all, now, words, 0, n);
                assert(written_upto(hold, all, now, words, 0) =~= Seq::empty());
                assert(Seq::empty() + written(hold, all, now, words, 0, n) =~= written(hold, all, now, words, 0, n));
            }
        }
        out
    }

    /// `take_log` into the batch for the history file; what to write now, the
    /// batch going out when it is big, or at once when `closing`.
    pub fn log_take<F: Fn(i64) -> String>(
        &mut self,
        screen: &Screen,
        marks: &VecDeque<Mark>,
        closing: bool,
        clock: u64,
        now: Time,
        say: &F,
    ) -> (batch: Option<String>)
        requires
            screen.wf(),
            now.valid(),
            old(self).hold_since is Some ==> old(self).hold_since->0 <= clock,
            forall|i: int| 0 <= i < pinned(marks@).len() ==> mark_dated(#[trigger] pinned(marks@)[i]),
            forall|ms: i64| #[trigger] call_requires(*say, (ms,)),
        ensures
            ({
                let (hold, logged) = gathered(held(old(self).hold@), old(self).logged as int, *screen, closing);
                let since = match old(self).hold_since {
                    Some(t) => t,
                    None => clock,
                };
                let give_up = closing || hold.len() > HOLD_LINES || clock - since > HOLD_FOR;
                let n = writable(hold, pinned(marks@), give_up, 0);
                &&& final(self).logged == logged
                &&& held(final(self).hold@) == hold.skip(n)
                &&& final(self).hold_since == if n < hold.len() {
                    Some(since)
                } else {
                    None
                }
                &&& forall|words: spec_fn(i64) -> Seq<char>| #[trigger]
                    words_it(*say, words) ==> {
                        let all = old(self).buf@ + written(hold, pinned(marks@), now, words, 0, n);
                        let go = closing || vstd::utf8::encode_utf8(all).len() as usize >= LOG_BATCH;
                        if go && all.len() > 0 {
                            batch is Some && batch->0@ == all && final(self).buf@ == Seq::<char>::empty()
                        } else {
                            batch is None && final(self).buf@ == all
                        }
                    }
            }),
    {
        let text = self.take_log(screen, marks, closing, clock, now, say);
        self.buf.push_str(text.as_str());
        if closing || self.buf.as_str().len() >= LOG_BATCH {
            self.flush_log()
        } else {
            None
        }
    }

    /// The batch for the history file, when there is one.
    pub fn flush_log(&mut self) -> (batch: Option<String>)
        ensures
            match batch {
                Some(text) => text@ == old(self).buf@ && text@.len() > 0,
                None => old(self).buf@.len() == 0,
            },
            final(self).buf@ == Seq::<char>::empty(),
            final(self).logged == old(self).logged,
            final(self).hold == old(self).hold,
            final(self).hold_since == old(self).hold_since,
    {
        if self.buf.as_str().is_empty() {
            assert(self.buf@ =~= Seq::<char>::empty());
            return None;
        }
        let text = self.buf.clone();
        self.buf = String::new();
        Some(text)
    }
}

/// What was written of the first `k` held lines.
spec fn written_upto(
    hold: Seq<(u64, Seq<char>)>,
    marks: Seq<Pinned>,
    now: Time,
    words: spec_fn(i64) -> Seq<char>,
    k: int,
) -> Seq<char>
    decreases k,
{
    if k <= 0 || k > hold.len() {
        Seq::empty()
    } else {
        written_upto(hold, marks, now, words, k - 1) + (match mark_of(marks, hold[k - 1].0, 0) {
            Some(m) => match m.end {
                Some(end) => header_text(m, end, now, words),
                None => Seq::empty(),
            },
            None => Seq::empty(),
        }) + hold[k - 1].1 + "\n"@
    }
}

proof fn lemma_written(
    hold: Seq<(u64, Seq<char>)>,
    marks: Seq<Pinned>,
    now: Time,
    words: spec_fn(i64) -> Seq<char>,
    k: int,
    n: int,
)
    requires
        0 <= k <= n <= hold.len(),
    ensures
        written_upto(hold, marks, now, words, n) == written_upto(hold, marks, now, words, k) + written(
            hold,
            marks,
            now,
            words,
            k,
            n,
        ),
    decreases n - k,
{
    if k < n {
        lemma_written(hold, marks, now, words, k + 1, n);
        let a = written_upto(hold, marks, now, words, k);
        assert(written_upto(hold, marks, now, words, n) =~= a + written(hold, marks, now, words, k, n));
    } else {
        assert(written_upto(hold, marks, now, words, k) + Seq::empty() =~= written_upto(hold, marks, now, words, k));
    }
}

fn find_mark(marks: &VecDeque<Mark>, line: u64) -> (at: Option<usize>)
    ensures
        match at {
            Some(i) => i < marks@.len() && mark_of(pinned(marks@), line, 0) == Some(marks@[i as int]@),
            None => mark_of(pinned(marks@), line, 0) is None,
        },
{
    let ghost all = pinned(marks@);
    let mut i: usize = 0;
    while i < marks.len()
        invariant
            i <= marks@.len(),
            all == pinned(marks@),
            mark_of(all, line, 0) == mark_of(all, line, i as int),
        decreases marks.len() - i,
    {
        assert(all[i as int] == marks@[i as int]@);
        if marks[i].line == line {
            return Some(i);
        }
        i = i + 1;
    }
    None
}

/// The lines read lie between where reading began and where the next begins.
proof fn lemma_taken_rows(
    s: Screen,
    i: int,
    end: int,
    first: int,
    joined: Seq<char>,
    base: int,
    closing: bool,
    lines: Seq<(u64, Seq<char>)>,
)
    requires
        0 <= base,
        0 <= first <= i <= end,
        base + end <= u64::MAX,
    ensures
        ({
            let t = taken_rows(s, i, end, first, joined, base, closing, lines);
            &&& first <= t.next <= end
            &&& lines.len() <= t.lines.len()
            &&& t.lines.take(lines.len() as int) == lines
            &&& forall|k: int|
                lines.len() <= k < t.lines.len() ==> base + first <= (#[trigger] t.lines[k]).0 < base + t.next
            &&& forall|a: int, b: int|
                lines.len() <= a < b < t.lines.len() ==> (#[trigger] t.lines[a]).0 < (#[trigger] t.lines[b]).0
        }),
    decreases end - i,
{
    let t = taken_rows(s, i, end, first, joined, base, closing, lines);
    if i >= end {
        assert(t.lines.take(lines.len() as int) =~= lines);
    } else {
        let text = joined + s.text(i);
        let wrapped = s.lines@[i].wrapped;
        if wrapped && i + 1 < end {
            lemma_taken_rows(s, i + 1, end, first, text, base, closing, lines);
        } else if wrapped && !closing {
            assert(t.lines.take(lines.len() as int) =~= lines);
        } else {
            let more = lines.push(((base + first) as u64, trim_end(text)));
            lemma_taken_rows(s, i + 1, end, i + 1, Seq::empty(), base, closing, more);
            assert(t.lines.take(lines.len() as int) =~= lines) by {
                assert(t.lines.take(more.len() as int).take(lines.len() as int) =~= t.lines.take(lines.len() as int));
                assert(more.take(lines.len() as int) =~= lines);
            }
            assert(t.lines[lines.len() as int] == more[lines.len() as int]) by {
                assert(t.lines.take(more.len() as int)[lines.len() as int] == t.lines[lines.len() as int]);
            }
        }
    }
}

/// The log takes each line once: what is taken lies at or after the first
/// line not yet taken, in order, and before the one that is first afterwards.
pub proof fn lemma_lines_are_taken_once(hold: Seq<(u64, Seq<char>)>, logged: int, s: Screen)
    requires
        s.wf(),
        0 <= logged,
    ensures
        ({
            let (lines, next) = gathered(hold, logged, s, false);
            &&& logged <= next
            &&& hold.len() <= lines.len()
            &&& lines.take(hold.len() as int) == hold
            &&& forall|k: int|
                hold.len() <= k < lines.len() && (#[trigger] lines[k]).0 != NO_LINE ==> logged <= lines[k].0 < next
        }),
{
    let (lines, next) = gathered(hold, logged, s, false);
    if s.alternate {
        assert(lines.take(hold.len() as int) =~= hold);
    } else {
        let top = s.scrolled as int;
        let lost = s.history() > 0 && logged < s.oldest();
        let start = if s.history() == 0 {
            if logged > top {
                logged
            } else {
                top
            }
        } else if lost {
            s.oldest()
        } else {
            logged
        };
        let before = if lost { hold.push((NO_LINE, lost_text(s.oldest() - logged))) } else { hold };
        let base = top - s.history();
        assert(before.take(hold.len() as int) =~= hold);
        if start < top {
            lemma_taken_rows(s, start - base, top - base, start - base, Seq::empty(), base, false, before);
            assert(lines.take(before.len() as int) == before);
            assert(lines.take(before.len() as int).take(hold.len() as int) =~= lines.take(hold.len() as int));
            assert forall|k: int| hold.len() <= k < lines.len() && (#[trigger] lines[k]).0 != NO_LINE implies logged
                <= lines[k].0 < next by {
                if k < before.len() {
                    assert(lines.take(before.len() as int)[k] == lines[k]);
                }
            }
        } else {
            assert(lines =~= before);
        }
    }
}

proof fn lemma_closed_rows(
    s: Screen,
    i: int,
    end: int,
    first: int,
    joined: Seq<char>,
    base: int,
    lines: Seq<(u64, Seq<char>)>,
)
    requires
        first <= i < end || first == i == end,
    ensures
        taken_rows(s, i, end, first, joined, base, true, lines).next == end,
    decreases end - i,
{
    if i < end {
        let text = joined + s.text(i);
        let wrapped = s.lines@[i].wrapped;
        if wrapped && i + 1 < end {
            lemma_closed_rows(s, i + 1, end, first, text, base, lines);
        } else {
            lemma_closed_rows(
                s,
                i + 1,
                end,
                i + 1,
                Seq::empty(),
                base,
                lines.push(((base + first) as u64, trim_end(text))),
            );
        }
    }
}

proof fn lemma_all_writable(hold: Seq<(u64, Seq<char>)>, marks: Seq<Pinned>, k: int)
    requires
        0 <= k <= hold.len(),
    ensures
        writable(hold, marks, true, k) == hold.len(),
    decreases hold.len() - k,
{
    if k < hold.len() {
        lemma_all_writable(hold, marks, k + 1);
    }
}

/// A log that was closed holds nothing back, and closing it again, with
/// nothing printed since, takes nothing: no line is written twice.
pub proof fn lemma_second_close_writes_nothing(
    hold: Seq<(u64, Seq<char>)>,
    logged: int,
    s: Screen,
    marks: Seq<Pinned>,
)
    requires
        s.wf(),
        0 <= logged,
    ensures
        ({
            let (all, next) = gathered(hold, logged, s, true);
            let left = all.skip(writable(all, marks, true, 0));
            let (again, last) = gathered(left, next, s, true);
            &&& left.len() == 0
            &&& again.len() == 0
            &&& last == next
            &&& writable(again, marks, true, 0) == 0
        }),
{
    let (all, next) = gathered(hold, logged, s, true);
    lemma_all_writable(all, marks, 0);
    let left = all.skip(writable(all, marks, true, 0));
    if !s.alternate {
        let top = s.scrolled as int;
        let lost = s.history() > 0 && logged < s.oldest();
        let start = if s.history() == 0 {
            if logged > top {
                logged
            } else {
                top
            }
        } else if lost {
            s.oldest()
        } else {
            logged
        };
        let before = if lost { hold.push((NO_LINE, lost_text(s.oldest() - logged))) } else { hold };
        let end = top + s.rows;
        let base = top - s.history();
        if start < end {
            lemma_closed_rows(s, start - base, end - base, start - base, Seq::empty(), base, before);
        }
        assert(next >= end);
    }
}

} // verus!
