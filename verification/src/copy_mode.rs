//! Copy mode: a cursor over a pane's screen and scrollback, vi style.
use vstd::prelude::*;
use crate::screen::Screen;
use crate::text::{chars_of, end_of, find_text, is_white, is_whitespace, lower, lowercase, part_of, push_part, stands_at, trim, trim_end};

verus! {

#[derive(Debug, PartialEq, Eq)]
pub struct CopyMode {
    /// Lines of scrollback shown above the top of the screen.
    pub offset: usize,
    pub cx: u16,
    pub cy: u16,
    /// Selection anchor as (absolute line, column).
    pub anchor: Option<(usize, u16)>,
    /// A mouse drag selection is in progress.
    pub dragging: bool,
    /// Last `/` or `?` pattern, repeated by `n` and `N`.
    pub search: Option<String>,
    /// Direction of that search: `?` is towards older lines.
    pub search_back: bool,
    /// Digits typed before a motion (`3j`), vi style.
    pub count: Option<usize>,
    /// `C-v`: the selection is a rectangle, not a run of lines.
    pub rect: bool,
}

impl Screen {
    /// A screen with room for a cursor.
    pub open spec fn live(self) -> bool {
        self.wf() && self.rows >= 1 && self.cols >= 1 && self.lines@.len() <= i64::MAX
    }

    /// The last line there is.
    pub open spec fn last(self) -> int {
        self.lines@.len() - 1
    }

    /// The text of absolute line `abs`, nothing past the last.
    pub open spec fn line(self, abs: int) -> Seq<char> {
        if 0 <= abs < self.lines@.len() {
            self.text(abs)
        } else {
            Seq::empty()
        }
    }
}

pub open spec fn least(a: int, b: int) -> int {
    if a < b {
        a
    } else {
        b
    }
}

pub open spec fn between(v: int, lo: int, hi: int) -> int {
    if v < lo {
        lo
    } else if v > hi {
        hi
    } else {
        v
    }
}

impl CopyMode {
    /// The cursor is on the screen, and the view in the scrollback.
    pub open spec fn on(self, s: Screen) -> bool {
        self.offset <= s.history() && self.cx < s.cols && self.cy < s.rows
    }

    /// The absolute line under the cursor.
    pub open spec fn abs(self, s: Screen) -> int {
        s.history() - self.offset + self.cy
    }

    /// The scrollback can shrink under the view: back within it.
    pub open spec fn clamped(self, s: Screen) -> CopyMode {
        CopyMode {
            offset: least(self.offset as int, s.history()) as usize,
            cy: least(self.cy as int, s.rows - 1) as u16,
            ..self
        }
    }

    /// The view scrolled by `delta` lines, positive towards older ones.
    pub open spec fn scrolled(self, s: Screen, delta: int) -> CopyMode {
        CopyMode { offset: between(self.offset + delta, 0, s.history()) as usize, ..self }
    }

    /// The cursor on absolute line `abs`, scrolled to when it is off screen.
    pub open spec fn at_line(self, s: Screen, abs: int) -> CopyMode {
        let top = s.history() - self.offset;
        if abs < top {
            CopyMode { offset: (s.history() - abs) as usize, cy: 0, ..self }
        } else if abs >= top + s.rows {
            CopyMode {
                offset: between(s.history() + s.rows - 1 - abs, 0, s.history()) as usize,
                cy: (s.rows - 1) as u16,
                ..self
            }
        } else {
            CopyMode { cy: (abs - top) as u16, ..self }
        }
    }
}

/// Copy mode just entered: at the terminal's cursor.
pub open spec fn entered(c: CopyMode, s: Screen) -> bool {
    &&& c.offset == 0
    &&& c.cx == least(s.cursor_col as int, s.cols - 1)
    &&& c.cy == least(s.cursor_row as int, s.rows - 1)
    &&& c.anchor is None
    &&& !c.dragging
    &&& c.search is None
    &&& c.search_back
    &&& c.count is None
    &&& !c.rect
}

/// Enter copy mode: the cursor is where the terminal's is.
pub fn enter_copy_mode(s: &Screen) -> (c: CopyMode)
    requires
        s.live(),
    ensures
        entered(c, *s),
        c.on(*s),
{
    CopyMode {
        offset: 0,
        cx: if s.cursor_col < s.cols { s.cursor_col } else { s.cols - 1 },
        cy: if s.cursor_row < s.rows { s.cursor_row } else { s.rows - 1 },
        anchor: None,
        dragging: false,
        search: None,
        search_back: true,
        count: None,
        rect: false,
    }
}

/// Scroll the copy-mode view by `delta` lines (positive = older).
pub fn copy_scroll(c: &mut CopyMode, s: &Screen, delta: i64)
    requires
        s.live(),
    ensures
        *final(c) == old(c).scrolled(*s, delta as int),
{
    let max: usize = s.scrollback_len();
    let to: i128 = c.offset as i128 + delta as i128;
    c.offset = if to < 0 {
        0
    } else if to > max as i128 {
        max
    } else {
        to as usize
    };
}

/// Absolute line number under the copy-mode cursor. The scrollback can shrink
/// under us (resize, clear-history), so the offset is re-clamped here.
pub fn copy_abs(c: &mut CopyMode, s: &Screen) -> (abs: usize)
    requires
        s.live(),
    ensures
        *final(c) == old(c).clamped(*s),
        abs == old(c).clamped(*s).abs(*s),
        abs <= s.last(),
{
    let total: usize = s.lines.len();
    let max: usize = s.scrollback_len();
    if c.offset > max {
        c.offset = max;
    }
    if c.cy > s.rows - 1 {
        c.cy = s.rows - 1;
    }
    max - c.offset + c.cy as usize
}

/// Move the copy cursor to an absolute line, scrolling if it is off screen.
pub fn copy_goto(c: &mut CopyMode, s: &Screen, abs: usize)
    requires
        s.live(),
        old(c).offset <= s.history(),
    ensures
        *final(c) == old(c).at_line(*s, abs as int),
{
    let total: usize = s.lines.len();
    let max: usize = s.scrollback_len();
    let rows: usize = s.rows as usize;
    let top: usize = max - c.offset; // absolute line at the top of the view
    if abs < top {
        c.offset = max - abs;
        c.cy = 0;
    } else if abs - top >= rows {
        let low: usize = max + (rows - 1);
        let back: usize = if low > abs { low - abs } else { 0 };
        c.offset = if back < max { back } else { max };
        c.cy = s.rows - 1;
    } else {
        c.cy = (abs - top) as u16;
    }
}

/// The character is a letter or a digit of some script.
pub uninterp spec fn alphanumeric(c: char) -> bool;

/// `char::is_alphanumeric`: a table by character.
#[verifier::external_body]
fn is_alphanumeric(c: char) -> (b: bool)
    ensures
        b == alphanumeric(c),
{
    c.is_alphanumeric()
}

/// What kind of character it is to a word motion: blank, of a word, or
/// other. A WORD is anything but blanks.
pub open spec fn class(c: char, big: bool) -> int {
    if is_white(c) {
        0
    } else if big || alphanumeric(c) || c == '_' {
        1
    } else {
        2
    }
}

fn class_of(c: char, big: bool) -> (k: u8)
    ensures
        k == class(c, big),
{
    if is_whitespace(c) {
        0
    } else if big || is_alphanumeric(c) || c == '_' {
        1
    } else {
        2
    }
}

/// The cells of a line, as wide as the screen.
pub open spec fn cells(s: Screen, abs: int) -> Seq<char> {
    Seq::new(
        s.cols as nat,
        |i: int|
            if i < s.line(abs).len() {
                s.line(abs)[i]
            } else {
                ' '
            },
    )
}

pub open spec fn is_big(key: char) -> bool {
    key == 'W' || key == 'B' || key == 'E'
}

pub open spec fn goes_back(key: char) -> bool {
    key == 'b' || key == 'B'
}

/// The cell after, or before, the one in line `cur` and column `x`.
pub open spec fn next_cell(s: Screen, cur: int, x: int, back: bool) -> Option<(int, int)> {
    if back {
        if x > 0 {
            Some((cur, x - 1))
        } else if cur > 0 {
            Some((cur - 1, s.cols - 1))
        } else {
            None
        }
    } else if x + 1 < s.cols {
        Some((cur, x + 1))
    } else if cur < s.last() {
        Some((cur + 1, 0))
    } else {
        None
    }
}

/// A motion stops here: `w` and `b` at the start of a word, `e` at its end.
pub open spec fn word_edge(s: Screen, cur: int, x: int, key: char) -> bool {
    let line = cells(s, cur);
    let here = class(line[x], is_big(key));
    let beside = if key == 'e' || key == 'E' {
        if x + 1 < s.cols {
            class(line[x + 1], is_big(key))
        } else {
            0
        }
    } else if x == 0 {
        0
    } else {
        class(line[x - 1], is_big(key))
    };
    here != 0 && beside != here
}

/// How far a word motion looks.
pub const WORD_STEPS: usize = 4096;

/// Where a word motion ends after `steps` cells were passed.
pub open spec fn word_walk(s: Screen, cur: int, x: int, key: char, steps: int) -> (int, int)
    decreases WORD_STEPS - steps,
{
    if steps >= WORD_STEPS {
        (cur, x)
    } else {
        match next_cell(s, cur, x, goes_back(key)) {
            None => (cur, x),
            Some((c, y)) => if word_edge(s, c, y, key) {
                (c, y)
            } else {
                word_walk(s, c, y, key, steps + 1)
            },
        }
    }
}

impl CopyMode {
    /// After a word motion.
    pub open spec fn word_moved(self, s: Screen, key: char) -> CopyMode {
        let c = self.clamped(s);
        let (line, x) = word_walk(s, c.abs(s), least(self.cx as int, s.cols - 1), key, 0);
        let d = if line != c.abs(s) { c.at_line(s, line) } else { c };
        CopyMode { cx: x as u16, ..d }
    }
}

fn cells_of(s: &Screen, abs: usize) -> (line: Vec<char>)
    requires
        s.live(),
    ensures
        line@ == cells(*s, abs as int),
{
    let text = chars_of(s.line_text(abs).0.as_str());
    assert(text@ == s.line(abs as int));
    let mut line: Vec<char> = Vec::new();
    let mut i: usize = 0;
    while i < s.cols as usize
        invariant
            i <= s.cols,
            text@ == s.line(abs as int),
            line@ == cells(*s, abs as int).take(i as int),
        decreases s.cols - i,
    {
        line.push(if i < text.len() { text[i] } else { ' ' });
        assert(cells(*s, abs as int).take(i + 1) =~= cells(*s, abs as int).take(i as int).push(
            cells(*s, abs as int)[i as int],
        ));
        i = i + 1;
    }
    assert(line@ =~= cells(*s, abs as int));
    line
}

fn at_edge(line: &Vec<char>, x: usize, key: char, Ghost(s): Ghost<Screen>, Ghost(cur): Ghost<int>) -> (b: bool)
    requires
        s.live(),
        line@ == cells(s, cur),
        x < line@.len(),
    ensures
        b == word_edge(s, cur, x as int, key),
{
    let big: bool = key == 'W' || key == 'B' || key == 'E';
    let here: u8 = class_of(line[x], big);
    let beside: u8 = if key == 'e' || key == 'E' {
        if x + 1 < line.len() {
            class_of(line[x + 1], big)
        } else {
            0
        }
    } else if x == 0 {
        0
    } else {
        class_of(line[x - 1], big)
    };
    here != 0 && beside != here
}

/// vi's `w`, `b` and `e` (and their WORD variants) on the copy cursor.
pub fn copy_word_motion(c: &mut CopyMode, s: &Screen, key: char)
    requires
        s.live(),
    ensures
        *final(c) == old(c).word_moved(*s, key),
{
    let cols: usize = s.cols as usize;
    let total: usize = s.lines.len();
    let back: bool = key == 'b' || key == 'B';
    let ghost start = *c;
    let abs: usize = copy_abs(c, s);
    let last: usize = total - 1;
    let mut line = cells_of(s, abs);
    let mut x: usize = if (c.cx as usize) < cols { c.cx as usize } else { cols - 1 };
    let ghost x0 = x as int;
    let mut cur: usize = abs;
    let mut steps: usize = 0;
    let mut stop: bool = false;
    while steps < WORD_STEPS && !stop
        invariant
            s.live(),
            cols == s.cols,
            last == s.last(),
            cur <= last,
            x < cols,
            back == goes_back(key),
            line@ == cells(*s, cur as int),
            steps <= WORD_STEPS,
            !stop ==> word_walk(*s, abs as int, x0, key, 0) == word_walk(*s, cur as int, x as int, key, steps as int),
            stop ==> word_walk(*s, abs as int, x0, key, 0) == (cur as int, x as int),
        decreases WORD_STEPS - steps + if stop {
            0int
        } else {
            1int
        },
    {
        let mut moved: bool = true;
        if back {
            if x > 0 {
                x = x - 1;
            } else if cur > 0 {
                cur = cur - 1;
                line = cells_of(s, cur);
                x = cols - 1;
            } else {
                moved = false;
            }
        } else if x + 1 < cols {
            x = x + 1;
        } else if cur < last {
            cur = cur + 1;
            line = cells_of(s, cur);
            x = 0;
        } else {
            moved = false;
        }
        if !moved {
            stop = true;
        } else if at_edge(&line, x, key, Ghost(*s), Ghost(cur as int)) {
            stop = true;
        } else {
            steps = steps + 1;
        }
    }
    if cur != abs {
        copy_goto(c, s, cur);
    }
    c.cx = x as u16;
}

/// A line is blank.
pub open spec fn is_blank(s: Screen, abs: int) -> bool {
    trim(s.line(abs)).len() == 0
}

/// The next blank line from `abs` on, or the last line, one step at a time.
pub open spec fn paragraph(s: Screen, abs: int, back: bool) -> int
    decreases
            if back {
                abs
            } else {
                s.lines@.len() - abs
            },
{
    if back {
        if abs <= 0 {
            abs
        } else if is_blank(s, abs - 1) {
            abs - 1
        } else {
            paragraph(s, abs - 1, back)
        }
    } else if abs >= s.last() {
        abs
    } else if is_blank(s, abs + 1) {
        abs + 1
    } else {
        paragraph(s, abs + 1, back)
    }
}

fn blank_line(s: &Screen, abs: usize) -> (b: bool)
    ensures
        b == is_blank(*s, abs as int),
{
    let text = chars_of(s.line_text(abs).0.as_str());
    assert(text@ == s.line(abs as int));
    crate::text::trimmed(&text).len() == 0
}

pub(crate) fn find_paragraph(s: &Screen, from: usize, back: bool) -> (abs: usize)
    requires
        s.live(),
        from <= s.last(),
    ensures
        abs == paragraph(*s, from as int, back),
        abs <= s.last(),
{
    let last: usize = s.lines.len() - 1;
    let mut abs: usize = from;
    let mut stop: bool = false;
    while !stop
        invariant
            last == s.last(),
            abs <= last,
            !stop ==> paragraph(*s, from as int, back) == paragraph(*s, abs as int, back),
            stop ==> paragraph(*s, from as int, back) == abs,
        decreases
                (if back {
                    abs as int
                } else {
                    last - abs
                }) + if stop {
                    0int
                } else {
                    1int
                },
    {
        if back {
            if abs == 0 {
                stop = true;
            } else {
                abs = abs - 1;
                if blank_line(s, abs) {
                    stop = true;
                }
            }
        } else if abs >= last {
            stop = true;
        } else {
            abs = abs + 1;
            if blank_line(s, abs) {
                stop = true;
            }
        }
    }
    abs
}

/// The column of `needle` in line `abs`, whatever the case.
pub open spec fn hit_column(s: Screen, abs: int, needle: Seq<char>) -> Option<int> {
    first_stand(lower(s.line(abs)), needle, 0)
}

/// The first place from `i` on where `part` stands in `s`.
pub open spec fn first_stand(s: Seq<char>, part: Seq<char>, i: int) -> Option<int>
    decreases s.len() + 1 - i,
{
    if i < 0 || i > s.len() {
        None
    } else if stands_at(s, i, part) {
        Some(i)
    } else {
        first_stand(s, part, i + 1)
    }
}

proof fn lemma_first_stand(s: Seq<char>, part: Seq<char>, i: int, at: Option<int>)
    requires
        0 <= i <= s.len() + 1,
        match at {
            Some(k) => i <= k && stands_at(s, k, part) && forall|j: int| i <= j < k ==> !#[trigger] stands_at(s, j, part),
            None => forall|j: int| i <= j ==> !#[trigger] stands_at(s, j, part),
        },
    ensures
        first_stand(s, part, i) == at,
    decreases s.len() + 1 - i,
{
    if i <= s.len() && !stands_at(s, i, part) {
        lemma_first_stand(s, part, i + 1, at);
    }
}

/// The nearest line from `abs` on that holds `needle`, and its column.
pub open spec fn search_from(s: Screen, abs: int, needle: Seq<char>, back: bool) -> Option<(int, int)>
    decreases
            if back {
                abs + 1
            } else {
                s.lines@.len() - abs
            },
{
    if abs < 0 || abs > s.last() {
        None
    } else {
        match hit_column(s, abs, needle) {
            Some(col) => Some((abs, col)),
            None => search_from(
                s,
                if back {
                    abs - 1
                } else {
                    abs + 1
                },
                needle,
                back,
            ),
        }
    }
}

impl CopyMode {
    /// The hit, in the middle of the view when there is room above it.
    pub open spec fn showing(self, s: Screen, abs: int, col: int) -> CopyMode {
        let want = least(s.rows as int / 2, abs);
        let offset = between(s.history() + want - abs, 0, s.history());
        CopyMode {
            offset: offset as usize,
            cy: between(abs + offset - s.history(), 0, s.rows - 1) as u16,
            cx: least(col as u16 as int, s.cols - 1) as u16,
            ..self
        }
    }

    /// Where a search for `needle` begins: at the line under the cursor when
    /// it is a fresh one, else at the next.
    pub open spec fn search_start(self, s: Screen, back: bool, fresh: bool) -> int {
        let from = self.clamped(s).abs(s);
        if fresh {
            from
        } else if back {
            if from > 0 {
                from - 1
            } else {
                0
            }
        } else {
            from + 1
        }
    }
}

/// After a search: the cursor on the hit, if there was one, and the pattern
/// remembered.
pub open spec fn searched(before: CopyMode, after: CopyMode, s: Screen, pattern: Seq<char>, back: bool, fresh: bool) -> bool {
    let hit = search_from(s, before.search_start(s, back, fresh), lower(pattern), back);
    let moved = match hit {
        Some((abs, col)) => before.clamped(s).showing(s, abs, col),
        None => before.clamped(s),
    };
    &&& after.search is Some
    &&& after.search->0@ == pattern
    &&& after.search_back == back
    &&& after == (CopyMode { search: after.search, search_back: back, ..moved })
}

fn column_in(s: &Screen, abs: usize, needle: &Vec<char>) -> (col: Option<usize>)
    ensures
        match col {
            Some(k) => hit_column(*s, abs as int, needle@) == Some(k as int),
            None => hit_column(*s, abs as int, needle@) is None,
        },
{
    let text = s.line_text(abs).0;
    assert(text@ == s.line(abs as int));
    let low = chars_of(lowercase(text.as_str()).as_str());
    let at = find_text(&low, needle);
    proof {
        let want = match at {
            Some(k) => Some(k as int),
            None => None,
        };
        if at is None {
            assert forall|j: int| 0 <= j implies !#[trigger] stands_at(low@, j, needle@) by {
                if stands_at(low@, j, needle@) {
                    assert(crate::text::holds(low@, needle@));
                }
            }
        }
        lemma_first_stand(low@, needle@, 0, want);
    }
    at
}

/// `/` `?` `n` `N` in copy mode: move the cursor to the next line holding
/// `pattern`, case-insensitively, and remember it for `n`. Whether there was
/// one.
///
/// `back` searches towards older lines, which is what `?` does (tmux's
/// `search-backward`). `fresh` starts from the cursor line itself so that
/// a new search can match what is already on screen.
pub fn copy_search(c: &mut CopyMode, s: &Screen, pattern: &str, back: bool, fresh: bool) -> (found: bool)
    requires
        s.live(),
        pattern@.len() > 0,
    ensures
        searched(*old(c), *final(c), *s, pattern@, back, fresh),
        found == search_from(*s, old(c).search_start(*s, back, fresh), lower(pattern@), back) is Some,
{
    let ghost before = *c;
    let needle = chars_of(lowercase(pattern).as_str());
    let total: usize = s.lines.len();
    let from: usize = copy_abs(c, s);
    let abs: usize = if fresh {
        from
    } else if back {
        if from > 0 {
            from - 1
        } else {
            0
        }
    } else {
        from + 1
    };
    assert(abs == before.search_start(*s, back, fresh));
    let hit = find_hit(s, abs, &needle, back);
    c.search = Some(pattern.to_owned());
    c.search_back = back;
    match hit {
        None => false,
        Some((line, col)) => {
            show_hit(c, s, line, col);
            true
        },
    }
}

/// The nearest line from `start` on that holds `needle`, and its column.
fn find_hit(s: &Screen, start: usize, needle: &Vec<char>, back: bool) -> (hit: Option<(usize, usize)>)
    requires
        s.live(),
    ensures
        match hit {
            Some((line, col)) => search_from(*s, start as int, needle@, back) == Some((line as int, col as int))
                && line <= s.last(),
            None => search_from(*s, start as int, needle@, back) is None,
        },
{
    let total: usize = s.lines.len();
    let mut abs: usize = start;
    while abs < total
        invariant
            total == s.lines@.len(),
            search_from(*s, start as int, needle@, back) == search_from(*s, abs as int, needle@, back),
        decreases
                if back {
                    abs as int
                } else {
                    total - abs
                },
    {
        if let Some(col) = column_in(s, abs, needle) {
            return Some((abs, col));
        }
        if !back {
            abs = abs + 1;
        } else if abs == 0 {
            assert(search_from(*s, -1, needle@, back) is None);
            return None;
        } else {
            abs = abs - 1;
        }
    }
    None
}

/// Put the hit in the middle of the view when there is room above it.
fn show_hit(c: &mut CopyMode, s: &Screen, abs: usize, col: usize)
    requires
        s.live(),
        abs <= s.last(),
    ensures
        *final(c) == old(c).showing(*s, abs as int, col as int),
{
    let total: usize = s.lines.len();
    let max: usize = s.scrollback_len();
    let rows: usize = s.rows as usize;
    let want: usize = if rows / 2 < abs { rows / 2 } else { abs };
    let up: usize = max + want;
    let back_by: usize = if up > abs { up - abs } else { 0 };
    let offset: usize = if back_by < max { back_by } else { max };
    // At most half a screen below the top of the view.
    let down: usize = if offset >= max { abs } else if abs > max - offset { abs - (max - offset) } else { 0 };
    c.offset = offset;
    c.cy = if down < rows - 1 { down as u16 } else { s.rows - 1 };
    let short: u16 = #[verifier::truncate] (col as u16);
    c.cx = if short < s.cols - 1 { short } else { s.cols - 1 };
}

/// One place comes before another: by line, then by column.
pub open spec fn earlier(a: (int, int), b: (int, int)) -> bool {
    a.0 < b.0 || (a.0 == b.0 && a.1 <= b.1)
}

/// The part of line `abs` that a selection from `a` to `b` takes. A rectangle
/// takes the same columns from every line.
pub open spec fn selected_part(s: Screen, a: (int, int), b: (int, int), rect: bool, abs: int) -> Seq<char> {
    let line = s.line(abs);
    let left = if a.1 < b.1 { a.1 } else { b.1 };
    let right = if a.1 > b.1 { a.1 } else { b.1 };
    let start = if rect {
        left
    } else if abs == a.0 {
        a.1
    } else {
        0
    };
    let end = if rect {
        least(right + 1, line.len() as int)
    } else if abs == b.0 {
        least(b.1 + 1, line.len() as int)
    } else {
        line.len() as int
    };
    if start < end {
        trim_end(line.subrange(start, end))
    } else {
        Seq::empty()
    }
}

/// The text of a selection from line `abs` on. A wrapped line goes on in the
/// next one.
pub open spec fn selected_from(s: Screen, a: (int, int), b: (int, int), rect: bool, abs: int) -> Seq<char>
    decreases b.0 + 1 - abs,
{
    if abs > b.0 {
        Seq::empty()
    } else {
        let part = selected_part(s, a, b, rect, abs);
        let wrapped = 0 <= abs < s.lines@.len() && s.lines@[abs].wrapped;
        if abs == b.0 || wrapped {
            part + selected_from(s, a, b, rect, abs + 1)
        } else {
            part.push('\n') + selected_from(s, a, b, rect, abs + 1)
        }
    }
}

impl CopyMode {
    /// The text selected, from the anchor to the cursor.
    pub open spec fn selected(self, s: Screen) -> Seq<char> {
        let c = self.clamped(s);
        let p = ((c.anchor->0).0 as int, (c.anchor->0).1 as int);
        let q = (c.abs(s), c.cx as int);
        if earlier(p, q) {
            selected_from(s, p, q, self.rect, p.0)
        } else {
            selected_from(s, q, p, self.rect, q.0)
        }
    }
}

fn push_selected(out: &mut String, s: &Screen, a: (usize, u16), b: (usize, u16), rect: bool, abs: usize)
    ensures
        final(out)@ == old(out)@ + selected_part(
            *s,
            (a.0 as int, a.1 as int),
            (b.0 as int, b.1 as int),
            rect,
            abs as int,
        ),
{
    let text = s.line_text(abs).0;
    assert(text@ == s.line(abs as int));
    let chars = chars_of(text.as_str());
    let left: usize = if a.1 < b.1 { a.1 as usize } else { b.1 as usize };
    let right: usize = if a.1 > b.1 { a.1 as usize } else { b.1 as usize };
    let start: usize = if rect {
        left
    } else if abs == a.0 {
        a.1 as usize
    } else {
        0
    };
    let end: usize = if rect {
        if right + 1 < chars.len() {
            right + 1
        } else {
            chars.len()
        }
    } else if abs == b.0 {
        if (b.1 as usize) + 1 < chars.len() {
            b.1 as usize + 1
        } else {
            chars.len()
        }
    } else {
        chars.len()
    };
    if start < end {
        let part = part_of(&chars, start, end);
        let e: usize = end_of(&part, 0);
        assert(part@.skip(0) =~= part@);
        push_part(out, &part, 0, e);
    } else {
        assert(out@ =~= out@ + Seq::<char>::empty());
    }
}

/// The selected text; nothing when there is no anchor.
pub fn copy_selection(c: &mut CopyMode, s: &Screen) -> (text: Option<String>)
    requires
        s.live(),
        old(c).anchor is Some ==> (old(c).anchor->0).0 < usize::MAX,
    ensures
        *final(c) == old(c).clamped(*s),
        match text {
            Some(t) => old(c).anchor is Some && t@ == old(c).selected(*s),
            None => old(c).anchor is None,
        },
{
    let ghost before = *c;
    let total: usize = s.lines.len();
    let cur: usize = copy_abs(c, s);
    assert(cur < total);
    let (abs_a, col_a) = match c.anchor {
        None => return None,
        Some(a) => a,
    };
    let swap: bool = !(abs_a < cur || (abs_a == cur && col_a <= c.cx));
    let a: (usize, u16) = if swap { (cur, c.cx) } else { (abs_a, col_a) };
    let b: (usize, u16) = if swap { (abs_a, col_a) } else { (cur, c.cx) };
    let rect: bool = c.rect;
    let ghost p = (a.0 as int, a.1 as int);
    let ghost q = (b.0 as int, b.1 as int);
    let mut text = String::new();
    let mut abs: usize = a.0;
    assert(text@ + selected_from(*s, p, q, rect, a.0 as int) =~= selected_from(*s, p, q, rect, a.0 as int));
    while abs <= b.0
        invariant
            a.0 <= abs <= b.0 + 1,
            b.0 < usize::MAX,
            p == (a.0 as int, a.1 as int),
            q == (b.0 as int, b.1 as int),
            text@ + selected_from(*s, p, q, rect, abs as int) == selected_from(*s, p, q, rect, a.0 as int),
        decreases b.0 + 1 - abs,
    {
        let ghost sofar = text@;
        push_selected(&mut text, s, a, b, rect, abs);
        let wrapped: bool = s.line_text(abs).1;
        if abs != b.0 && !wrapped {
            text.push('\n');
        }
        assert(text@ + selected_from(*s, p, q, rect, abs + 1) =~= sofar + selected_from(*s, p, q, rect, abs as int));
        abs = abs + 1;
    }
    assert(text@ + selected_from(*s, p, q, rect, abs as int) =~= text@);
    Some(text)
}

/// A selection as inclusive screen coordinates.
pub open spec fn selection_view(
    rows: int,
    cols: int,
    cm: CopyMode,
    cursor_abs: int,
) -> Option<((int, int), (int, int))> {
    match cm.anchor {
        None => None,
        Some((line, col)) => {
            let p = (cm.cy + (line - cursor_abs), col as int);
            let q = (cm.cy as int, cm.cx as int);
            let (a, b) = if p.0 < q.0 || (p.0 == q.0 && p.1 <= q.1) { (p, q) } else { (q, p) };
            if b.0 < 0 || a.0 >= rows {
                None
            } else {
                Some(
                    (
                        if a.0 < 0 {
                            (0, 0)
                        } else {
                            a
                        },
                        if b.0 >= rows {
                            (
                                if rows > 0 {
                                    rows - 1
                                } else {
                                    u16::MAX as int
                                },
                                if cols > 1 {
                                    cols - 1
                                } else {
                                    0
                                },
                            )
                        } else {
                            b
                        },
                    ),
                )
            }
        },
    }
}

/// Selection as inclusive screen coordinates for rendering. `cursor_abs` is
/// the absolute line under the copy cursor.
pub fn copy_sel_view(rows: u16, cols: u16, cm: &CopyMode, cursor_abs: usize) -> (v: Option<((u16, u16), (u16, u16))>)
    ensures
        match (v, selection_view(rows as int, cols as int, *cm, cursor_abs as int)) {
            (Some(((a, b), (c, d))), Some(((e, f), (g, h)))) => a == e && b == f && c == g && d == h,
            (None, None) => true,
            _ => false,
        },
{
    let (line, col) = match cm.anchor {
        None => return None,
        Some(a) => a,
    };
    let ay: i128 = cm.cy as i128 + (line as i128 - cursor_abs as i128);
    let cy: i128 = cm.cy as i128;
    let first: bool = ay < cy || (ay == cy && col <= cm.cx);
    let (a, ac, b, bc) = if first { (ay, col, cy, cm.cx) } else { (cy, cm.cx, ay, col) };
    if b < 0 || a >= rows as i128 {
        return None;
    }
    let start: (u16, u16) = if a < 0 { (0, 0) } else { (a as u16, ac) };
    let end: (u16, u16) = if b >= rows as i128 {
        (if rows > 0 { rows - 1 } else { u16::MAX }, if cols > 1 { cols - 1 } else { 0 })
    } else {
        (b as u16, bc)
    };
    Some((start, end))
}

} // verus!
