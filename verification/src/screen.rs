//! What a pane's terminal shows and remembers, as rows of text.
use vstd::prelude::*;
use crate::config::{lines_of, split_lines};
use crate::text::{chars_of, end_of, find_text, holds, lower, lowercase, string_of, trim_end};

verus! {

/// A row of the terminal. A row the terminal wrapped goes on in the next one.
#[derive(Debug, PartialEq, Eq)]
pub struct Row {
    pub text: String,
    pub wrapped: bool,
}

/// The terminal of a pane: the rows of its scrollback, oldest first, then
/// those on the screen.
///
/// A line keeps its number however far it scrolls: the number of lines
/// scrolled off when it was the top row of the screen, plus its row.
#[derive(Debug)]
pub struct Screen {
    pub lines: Vec<Row>,
    pub rows: u16,
    pub cols: u16,
    /// How many lines ever scrolled off the top.
    pub scrolled: u64,
    pub cursor_row: u16,
    pub cursor_col: u16,
    /// A full-screen program's screen is showing.
    pub alternate: bool,
    /// The program asked for pastes in brackets.
    pub bracketed: bool,
    /// The program asked for the cursor keys in their application form.
    pub app_cursor: bool,
}

/// The number of bytes of a character in UTF-8.
pub open spec fn char_bytes(c: char) -> nat {
    if (c as u32) < 0x80 {
        1
    } else if (c as u32) < 0x800 {
        2
    } else if (c as u32) < 0x10000 {
        3
    } else {
        4
    }
}

/// The number of bytes of a text in UTF-8.
pub open spec fn bytes_in(s: Seq<char>) -> nat
    decreases s.len(),
{
    if s.len() == 0 {
        0
    } else {
        bytes_in(s.drop_last()) + char_bytes(s.last())
    }
}

impl Screen {
    /// There is a row for every line of the screen, the scrollback holds
    /// lines that scrolled off, and there is room to count on.
    pub open spec fn wf(self) -> bool {
        self.lines@.len() >= self.rows && self.history() <= self.scrolled <= u64::MAX / 2
    }

    /// How many lines the scrollback holds.
    pub open spec fn history(self) -> int {
        self.lines@.len() - self.rows
    }

    /// The text of row `i` of all the rows.
    pub open spec fn text(self, i: int) -> Seq<char> {
        self.lines@[i].text@
    }

    /// The oldest line still there.
    pub open spec fn oldest(self) -> int {
        if self.scrolled > self.history() {
            self.scrolled - self.history()
        } else {
            0
        }
    }

    /// Where line `line` is among the rows, when it still is.
    pub open spec fn place(self, line: int) -> Option<int> {
        let i = self.history() + line - self.scrolled;
        if 0 <= i < self.lines@.len() {
            Some(i)
        } else {
            None
        }
    }

    /// Total lines of scrollback currently available.
    pub fn scrollback_len(&self) -> (n: usize)
        requires
            self.wf(),
        ensures
            n == self.history(),
    {
        self.lines.len() - self.rows as usize
    }

    /// Text of the absolute line `abs` (0 = oldest scrollback line), joined
    /// across soft-wrapped rows is *not* done here; one visual row per call.
    pub fn line_text(&self, abs: usize) -> (r: (String, bool))
        ensures
            abs < self.lines@.len() ==> r.0@ == self.text(abs as int) && r.1 == self.lines@[abs as int].wrapped,
            abs >= self.lines@.len() ==> r.0@ == Seq::<char>::empty() && !r.1,
    {
        if abs < self.lines.len() {
            (self.lines[abs].text.clone(), self.lines[abs].wrapped)
        } else {
            (String::new(), false)
        }
    }

    /// Where the cursor is, as a line that keeps its number when it
    /// scrolls.
    pub fn cursor_line(&self) -> (line: u64)
        requires
            self.wf(),
        ensures
            line == self.scrolled + self.cursor_row,
    {
        self.scrolled + self.cursor_row as u64
    }

    fn find(&self, line: u64) -> (i: Option<usize>)
        requires
            self.wf(),
        ensures
            match i {
                Some(k) => self.place(line as int) == Some(k as int),
                None => self.place(line as int) is None,
            },
    {
        let total: usize = self.lines.len();
        let history: u64 = (total - self.rows as usize) as u64;
        if line >= self.scrolled {
            let row: u64 = line - self.scrolled;
            if row >= self.rows as u64 {
                None
            } else {
                Some((history + row) as usize)
            }
        } else {
            let back: u64 = self.scrolled - line;
            if back > history {
                None
            } else {
                Some((history - back) as usize)
            }
        }
    }

    /// The text of line `line`, trailing blanks dropped, while the screen or
    /// the scrollback still holds it.
    pub fn text_at(&self, line: u64) -> (text: Option<String>)
        requires
            self.wf(),
        ensures
            match self.place(line as int) {
                Some(i) => text is Some && text->0@ == trim_end(self.text(i)),
                None => text is None,
            },
    {
        match self.find(line) {
            None => None,
            Some(i) => Some(without_blanks(self.lines[i].text.as_str())),
        }
    }
}

/// `s` without the white space behind it.
pub fn without_blanks(s: &str) -> (out: String)
    ensures
        out@ == trim_end(s@),
{
    let chars = chars_of(s);
    let e: usize = end_of(&chars, 0);
    assert(chars@.skip(0) =~= chars@);
    string_of(&chars, 0, e)
}

/// What a row adds to the text of the lines around it. A row the terminal
/// wrapped goes on in the next one; but a line padded to the width with
/// blanks counts as wrapped too, so a row ending in a blank ends its line.
pub open spec fn row_piece(text: Seq<char>, wrapped: bool) -> Seq<char> {
    if wrapped && !(text.len() > 0 && text.last() == ' ') {
        text
    } else {
        trim_end(text).push('\n')
    }
}

impl Screen {
    /// The text of the rows `i..j`.
    pub open spec fn pieces(self, i: int, j: int) -> Seq<char>
        decreases j - i,
    {
        if i >= j {
            Seq::empty()
        } else {
            row_piece(self.text(i), self.lines@[i].wrapped) + self.pieces(i + 1, j)
        }
    }
}

/// The longest beginning of `s` that is at most `max` bytes, from `k` on.
pub open spec fn fits_upto(s: Seq<char>, max: int, k: int) -> int
    decreases s.len() - k,
{
    if k < 0 || k >= s.len() || bytes_in(s.take(k + 1)) > max {
        k
    } else {
        fits_upto(s, max, k + 1)
    }
}

/// The lines of a text, blanks behind each dropped, from line `k` on, with
/// line ends between.
pub open spec fn clean_lines(lines: Seq<Seq<char>>, k: int) -> Seq<char>
    decreases lines.len() - k,
{
    if k < 0 || k >= lines.len() {
        Seq::empty()
    } else if k == lines.len() - 1 {
        trim_end(lines[k])
    } else {
        trim_end(lines[k]) + seq!['\n'] + clean_lines(lines, k + 1)
    }
}

/// `s` without the line feeds behind it.
pub open spec fn without_feeds(s: Seq<char>) -> Seq<char>
    decreases s.len(),
{
    if s.len() > 0 && s.last() == '\n' {
        without_feeds(s.drop_last())
    } else {
        s
    }
}

/// The text of the lines `from..to`, in at most `max` bytes.
pub open spec fn between_text(s: Screen, from: int, to: int, max: int) -> (Seq<char>, bool) {
    let i = s.history() + (if from > s.oldest() {
        from
    } else {
        s.oldest()
    }) - s.scrolled;
    let j = s.history() + (if to < s.scrolled + s.rows {
        to
    } else {
        s.scrolled + s.rows
    }) - s.scrolled;
    let all = s.pieces(i, j);
    let kept = if bytes_in(all) > max { all.take(fits_upto(all, max, 0)) } else { all };
    (without_feeds(clean_lines(lines_of(kept, 0), 0)), bytes_in(all) > max)
}

pub(crate) fn size_of_char(c: char) -> (n: usize)
    ensures
        n == char_bytes(c),
        1 <= n <= 4,
{
    let v: u32 = c as u32;
    if v < 0x80 {
        1
    } else if v < 0x800 {
        2
    } else if v < 0x10000 {
        3
    } else {
        4
    }
}

pub proof fn lemma_bytes_grow(s: Seq<char>, k: int)
    requires
        0 <= k <= s.len(),
    ensures
        bytes_in(s.take(k)) <= bytes_in(s),
        k <= bytes_in(s.take(k)),
    decreases s.len() - k,
{
    lemma_bytes_len(s.take(k));
    if k < s.len() {
        lemma_bytes_grow(s, k + 1);
        assert(s.take(k + 1).drop_last() =~= s.take(k));
    } else {
        assert(s.take(k) =~= s);
    }
}

proof fn lemma_bytes_len(s: Seq<char>)
    ensures
        s.len() <= bytes_in(s),
    decreases s.len(),
{
    if s.len() > 0 {
        lemma_bytes_len(s.drop_last());
    }
}

/// How much of `s` fits in `max` bytes, and whether that is all of it.
pub fn cut_at(s: &Vec<char>, max: usize) -> (r: (usize, bool))
    ensures
        r.1 == (bytes_in(s@) > max),
        r.0 <= s@.len(),
        r.1 ==> r.0 == fits_upto(s@, max as int, 0),
        !r.1 ==> r.0 == s@.len(),
{
    let mut left: usize = max;
    let mut k: usize = 0;
    assert(s@.take(0) =~= Seq::<char>::empty());
    while k < s.len()
        invariant
            k <= s@.len(),
            left <= max,
            bytes_in(s@.take(k as int)) == max - left,
            fits_upto(s@, max as int, 0) == fits_upto(s@, max as int, k as int),
        decreases s.len() - k,
    {
        assert(s@.take(k + 1).drop_last() =~= s@.take(k as int));
        assert(s@.take(k + 1).last() == s@[k as int]);
        let n: usize = size_of_char(s[k]);
        if n > left {
            proof {
                lemma_bytes_grow(s@, k + 1);
            }
            return (k, true);
        }
        left = left - n;
        k = k + 1;
    }
    assert(s@.take(k as int) =~= s@);
    (k, false)
}

fn join_clean(text: &str) -> (out: String)
    ensures
        out@ == without_feeds(clean_lines(lines_of(text@, 0), 0)),
{
    let lines = split_lines(text);
    let ghost all = lines_of(text@, 0);
    let mut out = String::new();
    let mut k: usize = 0;
    assert(out@ + clean_lines(all, 0) =~= clean_lines(all, 0));
    while k < lines.len()
        invariant
            k <= lines@.len() == all.len(),
            forall|i: int| 0 <= i < lines@.len() ==> (#[trigger] lines@[i])@ == all[i],
            out@ + clean_lines(all, k as int) == clean_lines(all, 0),
        decreases lines.len() - k,
    {
        let ghost before = out@;
        assert(lines@[k as int]@ == all[k as int]);
        out.push_str(without_blanks(lines[k].as_str()).as_str());
        if k + 1 < lines.len() {
            out.push('\n');
        }
        assert(out@ + clean_lines(all, k + 1) =~= before + clean_lines(all, k as int));
        k = k + 1;
    }
    assert(out@ + clean_lines(all, k as int) =~= out@);
    let chars = chars_of(out.as_str());
    let mut e: usize = chars.len();
    assert(chars@.take(e as int) =~= chars@);
    while e > 0 && chars[e - 1] == '\n'
        invariant
            e <= chars@.len(),
            without_feeds(chars@) == without_feeds(chars@.take(e as int)),
        decreases e,
    {
        assert(chars@.take(e as int).last() == chars@[e - 1]);
        assert(chars@.take(e as int).drop_last() =~= chars@.take(e - 1));
        e = e - 1;
    }
    if e > 0 {
        assert(chars@.take(e as int).last() == chars@[e - 1]);
    }
    let cut = string_of(&chars, 0, e);
    assert(cut@ =~= chars@.take(e as int));
    cut
}

impl Screen {
    /// The text of lines `from..to`, rows the terminal wrapped joined back
    /// into the line the program printed, at most `max` bytes; and whether it
    /// was cut there.
    pub fn text_between(&self, from: u64, to: u64, max: usize) -> (r: (String, bool))
        requires
            self.wf(),
        ensures
            (r.0@, r.1) == between_text(*self, from as int, to as int, max as int),
    {
        let total: usize = self.lines.len();
        let history: u64 = (total - self.rows as usize) as u64;
        let top: u64 = self.scrolled;
        let oldest: u64 = if top > history { top - history } else { 0 };
        let first: u64 = if from > oldest { from } else { oldest };
        let bottom: u64 = top + self.rows as u64;
        let last: u64 = if to < bottom { to } else { bottom };
        let mut all: Vec<char> = Vec::new();
        let ghost i0 = history + first - top;
        let ghost j0 = history + last - top;
        if first < last {
            let mut i: usize = (history as u128 + first as u128 - top as u128) as usize;
            let j: usize = (history as u128 + last as u128 - top as u128) as usize;
            assert(all@ + self.pieces(i as int, j as int) =~= self.pieces(i as int, j as int));
            while i < j
                invariant
                    0 <= i0 <= i <= j <= self.lines@.len(),
                    j == j0,
                    all@ + self.pieces(i as int, j as int) == self.pieces(i0, j0),
                decreases j - i,
            {
                let ghost before = all@;
                let text = chars_of(self.lines[i].text.as_str());
                let wrapped: bool = self.lines[i].wrapped;
                let blank: bool = text.len() > 0 && text[text.len() - 1] == ' ';
                if wrapped && !blank {
                    push_chars(&mut all, &text, text.len());
                    assert(text@.take(text@.len() as int) =~= text@);
                } else {
                    let e: usize = end_of(&text, 0);
                    assert(text@.skip(0) =~= text@);
                    assert(text@.subrange(0, e as int) =~= text@.take(e as int));
                    push_chars(&mut all, &text, e);
                    all.push('\n');
                }
                assert(all@ =~= before + row_piece(text@, wrapped));
                assert(all@ + self.pieces(i + 1, j as int) =~= before + self.pieces(i as int, j as int));
                i = i + 1;
            }
        }
        assert(all@ + Seq::<char>::empty() =~= all@);
        let (e, cut) = cut_at(&all, max);
        let kept = string_of(&all, 0, e);
        assert(kept@ =~= all@.take(e as int));
        assert(all@.take(all@.len() as int) =~= all@);
        (join_clean(kept.as_str()), cut)
    }
}

/// Appends the first `n` characters of `more`.
fn push_chars(out: &mut Vec<char>, more: &Vec<char>, n: usize)
    requires
        n <= more@.len(),
    ensures
        final(out)@ == old(out)@ + more@.take(n as int),
{
    let mut i: usize = 0;
    assert(out@ =~= old(out)@ + more@.take(0));
    while i < n
        invariant
            i <= n <= more@.len(),
            out@ == old(out)@ + more@.take(i as int),
        decreases n - i,
    {
        out.push(more[i]);
        i = i + 1;
        assert(out@ =~= old(out)@ + more@.take(i as int));
    }
}

/// Whether a row holds what is searched for.
pub open spec fn row_matches(text: Seq<char>, needle: Seq<char>, case_sensitive: bool) -> bool {
    if case_sensitive {
        holds(text, needle)
    } else {
        holds(lower(text), lower(needle))
    }
}

impl Screen {
    /// The rows before row `i` that hold `needle`, the newest first, at most
    /// `max` of them.
    pub open spec fn found(self, needle: Seq<char>, case_sensitive: bool, i: int, max: int) -> Seq<(int, Seq<char>)>
        decreases i,
    {
        if i <= 0 || max <= 0 {
            Seq::empty()
        } else if row_matches(self.text(i - 1), needle, case_sensitive) {
            seq![(i - 1, trim_end(self.text(i - 1)))] + self.found(needle, case_sensitive, i - 1, max - 1)
        } else {
            self.found(needle, case_sensitive, i - 1, max)
        }
    }

    /// Find `needle` in everything this pane has on screen and in its
    /// scrollback, newest line first, at most `max` hits.
    pub fn search(&self, needle: &str, max: usize, case_sensitive: bool) -> (hits: Vec<(usize, String)>)
        ensures
            Seq::new(hits@.len(), |k: int| (hits@[k].0 as int, hits@[k].1@)) == if needle@.len() == 0 {
                Seq::empty()
            } else {
                self.found(needle@, case_sensitive, self.lines@.len() as int, max as int)
            },
    {
        let mut hits: Vec<(usize, String)> = Vec::new();
        let ghost seen = Seq::<(int, Seq<char>)>::empty();
        assert(Seq::new(hits@.len(), |k: int| (hits@[k].0 as int, hits@[k].1@)) =~= seen);
        if needle.is_empty() || max == 0 {
            return hits;
        }
        let want = if case_sensitive { chars_of(needle) } else { chars_of(lowercase(needle).as_str()) };
        let ghost goal = self.found(needle@, case_sensitive, self.lines@.len() as int, max as int);
        let mut i: usize = self.lines.len();
        assert(seen + goal =~= goal);
        // Walk from the newest so the first hits reported are the ones just
        // printed.
        while i > 0 && hits.len() < max
            invariant
                i <= self.lines@.len(),
                hits@.len() <= max,
                want@ == if case_sensitive {
                    needle@
                } else {
                    lower(needle@)
                },
                seen == Seq::new(hits@.len(), |k: int| (hits@[k].0 as int, hits@[k].1@)),
                seen + self.found(needle@, case_sensitive, i as int, max - hits@.len()) == goal,
            decreases i,
        {
            let text = self.lines[i - 1].text.as_str();
            let hay = if case_sensitive { chars_of(text) } else { chars_of(lowercase(text).as_str()) };
            let ghost before = seen;
            let ghost left = max - hits@.len();
            let at = find_text(&hay, &want);
            match at {
                Some(p) => {
                    assert(row_matches(self.text(i - 1), needle@, case_sensitive));
                    hits.push((i - 1, without_blanks(text)));
                    proof {
                        seen = Seq::new(hits@.len(), |k: int| (hits@[k].0 as int, hits@[k].1@));
                        assert(seen =~= before.push((i - 1, trim_end(self.text(i - 1)))));
                        assert(seen + self.found(needle@, case_sensitive, i - 1, left - 1) =~= before + self.found(
                            needle@,
                            case_sensitive,
                            i as int,
                            left,
                        ));
                    }
                },
                None => {
                    assert(!row_matches(self.text(i - 1), needle@, case_sensitive));
                },
            }
            i = i - 1;
        }
        assert(self.found(needle@, case_sensitive, i as int, max - hits@.len()) =~= Seq::empty());
        assert(seen =~= goal);
        hits
    }
}

/// A row for a capture: blanks behind it dropped unless it goes on, and any
/// colour put back at its end.
pub open spec fn captured(text: Seq<char>, goes_on: bool) -> Seq<char> {
    if goes_on {
        text
    } else if trim_end(text).contains('\u{1b}') {
        trim_end(text) + "\u{1b}[0m"@
    } else {
        trim_end(text)
    }
}

/// The lines of rows `i..`, a row that goes on joined with the next.
pub open spec fn capture_from(rows: Seq<(Seq<char>, bool)>, i: int, join: bool, out: Seq<Seq<char>>, continues: bool) -> Seq<
    Seq<char>,
>
    decreases rows.len() - i,
{
    if i < 0 || i >= rows.len() {
        out
    } else {
        let goes_on = join && rows[i].1;
        let text = captured(rows[i].0, goes_on);
        let next = if continues && out.len() > 0 { out.drop_last().push(out.last() + text) } else { out.push(text) };
        capture_from(rows, i + 1, join, next, goes_on)
    }
}

/// The lines without the blank ones at the end; a line that is only a reset
/// is blank too.
pub open spec fn without_blank_tail(s: Seq<Seq<char>>) -> Seq<Seq<char>>
    decreases s.len(),
{
    if s.len() > 0 && (s.last().len() == 0 || s.last() == "\u{1b}[0m"@) {
        without_blank_tail(s.drop_last())
    } else {
        s
    }
}

/// Rows as values.
pub open spec fn row_values(v: Seq<Row>) -> Seq<(Seq<char>, bool)> {
    Seq::new(v.len(), |i: int| (v[i].text@, v[i].wrapped))
}

pub open spec fn string_values(v: Seq<String>) -> Seq<Seq<char>> {
    Seq::new(v.len(), |i: int| v[i]@)
}

fn capture_row(text: &str, goes_on: bool) -> (out: String)
    ensures
        out@ == captured(text@, goes_on),
{
    if goes_on {
        return text.to_owned();
    }
    let mut out = without_blanks(text);
    let chars = chars_of(out.as_str());
    let mut i: usize = 0;
    let mut coloured: bool = false;
    while i < chars.len()
        invariant
            i <= chars@.len(),
            coloured == exists|k: int| 0 <= k < i && chars@[k] == '\u{1b}',
        decreases chars.len() - i,
    {
        if chars[i] == '\u{1b}' {
            coloured = true;
        }
        i = i + 1;
    }
    if coloured {
        assert(chars@.contains('\u{1b}'));
        out.push_str("\u{1b}[0m"); // never leak a colour into the next line
    } else {
        assert(!chars@.contains('\u{1b}'));
    }
    out
}

/// Every line of `rows` from row `start` to the bottom of the screen,
/// trailing blanks dropped. With `join`, a row the terminal wrapped continues
/// the row above it (`capture-pane -J`): one line, as the program printed it.
/// The rows may hold colours and attributes as escape sequences
/// (`capture-pane -e`).
pub fn lines_from(rows: &Vec<Row>, start: usize, join: bool) -> (out: Vec<String>)
    ensures
        string_values(out@) == without_blank_tail(
            capture_from(row_values(rows@), start as int, join, Seq::empty(), false),
        ),
{
    let ghost all = row_values(rows@);
    let ghost goal = capture_from(all, start as int, join, Seq::empty(), false);
    let mut out: Vec<String> = Vec::new();
    let mut continues: bool = false;
    let mut i: usize = start;
    assert(string_values(out@) =~= Seq::empty());
    while i < rows.len()
        invariant
            all == row_values(rows@),
            start <= i,
            goal == capture_from(all, i as int, join, string_values(out@), continues),
        decreases rows.len() - i,
    {
        let goes_on: bool = join && rows[i].wrapped;
        let text = capture_row(rows[i].text.as_str(), goes_on);
        assert(all[i as int] == (rows@[i as int].text@, rows@[i as int].wrapped));
        let ghost before = out@;
        if continues && out.len() > 0 {
            if let Some(last) = out.pop() {
                let mut line = last;
                line.push_str(text.as_str());
                out.push(line);
                assert(string_values(out@) =~= string_values(before).drop_last().push(
                    string_values(before).last() + text@,
                ));
            }
        } else {
            out.push(text);
            assert(string_values(out@) =~= string_values(before).push(text@));
        }
        continues = goes_on;
        i = i + 1;
    }
    // Trailing blank lines are noise; a line that is only a reset is blank too.
    let ghost full = string_values(out@);
    while out.len() > 0 && (out[out.len() - 1].as_str().is_empty() || crate::text::same_text(
        out[out.len() - 1].as_str(),
        "\u{1b}[0m",
    ))
        invariant
            without_blank_tail(full) == without_blank_tail(string_values(out@)),
        decreases out@.len(),
    {
        let ghost before = out@;
        assert(string_values(before).last() == before.last()@);
        out.pop();
        assert(string_values(out@) =~= string_values(before).drop_last());
    }
    if out.len() > 0 {
        assert(string_values(out@).last() == out@.last()@);
    }
    out
}

} // verus!
