//! What copy mode is for: where its motions end, what a search finds, and
//! which text a selection takes.
use vstd::prelude::*;

use crate::copy_keys::{keyed, motion, repeated, CopyAction};
use crate::copy_mode::{
    alphanumeric, first_stand, paragraph, search_from, searched, selected_from, selected_part, selection_view, word_walk,
    CopyMode,
};
use crate::keys::{Key, KeyCode};
use crate::screen::Screen;
use crate::text::{is_white, lower, trim_end};

verus! {

/// The text of row `l`; nothing where there is no row.
pub open spec fn row_text(s: Screen, l: int) -> Seq<char> {
    if 0 <= l < s.lines@.len() {
        s.lines@[l].text@
    } else {
        Seq::empty()
    }
}

/// The character in column `x` of row `l`; a blank past its text.
pub open spec fn char_at(s: Screen, l: int, x: int) -> char {
    if 0 <= x < row_text(s, l).len() {
        row_text(s, l)[x]
    } else {
        ' '
    }
}

/// A character of a word, as opposed to one of punctuation.
pub open spec fn wordy(c: char) -> bool {
    alphanumeric(c) || c == '_'
}

/// Two characters belong together: neither is blank, and both are of words
/// or both are not. With `big` any two that are not blank do.
pub open spec fn together(a: char, b: char, big: bool) -> bool {
    !is_white(a) && !is_white(b) && (big || wordy(a) == wordy(b))
}

/// A word begins in that cell: it is not blank, and does not belong together
/// with the cell to its left.
pub open spec fn begins(s: Screen, l: int, x: int, big: bool) -> bool {
    !is_white(char_at(s, l, x)) && (x == 0 || !together(char_at(s, l, x - 1), char_at(s, l, x), big))
}

/// A word ends in that cell: it is not blank, and does not belong together
/// with the cell to its right.
pub open spec fn ends(s: Screen, l: int, x: int, big: bool) -> bool {
    !is_white(char_at(s, l, x)) && (x == s.cols - 1 || !together(char_at(s, l, x), char_at(s, l, x + 1), big))
}

/// The cell in row `l` and column `x` comes before the one in `m` and `y`.
pub open spec fn before(l: int, x: int, m: int, y: int) -> bool {
    l < m || l == m && x < y
}

/// `w` and `W`, and `e` and `E`, go to the next cell where a word begins, or
/// ends, and pass none. Without one they go to the last cell of all, or as
/// far as a motion looks.
pub proof fn lemma_word_forward(s: Screen, cur: int, x: int, key: char, steps: int)
    requires
        s.live(),
        0 <= cur <= s.lines@.len() - 1,
        0 <= x < s.cols,
        0 <= steps <= 4096,
        key == 'w' || key == 'W' || key == 'e' || key == 'E',
    ensures
        ({
            let (l, y) = word_walk(s, cur, x, key, steps);
            let big = key == 'W' || key == 'E';
            let at = |m: int, z: int|
                if key == 'e' || key == 'E' {
                    ends(s, m, z, big)
                } else {
                    begins(s, m, z, big)
                };
            &&& 0 <= l < s.lines@.len() && 0 <= y < s.cols
            &&& (l, y) == (cur, x) || before(cur, x, l, y)
            &&& forall|m: int, z: int|
                0 <= z < s.cols && #[trigger] before(cur, x, m, z) && before(m, z, l, y) ==> !at(m, z)
            &&& ({
                ||| before(cur, x, l, y) && at(l, y)
                ||| l == s.lines@.len() - 1 && y == s.cols - 1
                ||| (l - cur) * s.cols + (y - x) == 4096 - steps
            })
        }),
    decreases 4096 - steps,
{
    if steps < 4096 {
        let (c, z) = if x + 1 < s.cols {
            (cur, x + 1)
        } else {
            (cur + 1, 0)
        };
        let big = key == 'W' || key == 'E';
        if c < s.lines@.len() {
            assert(char_at(s, c, z) == crate::copy_mode::cells(s, c)[z]);
            if z > 0 {
                assert(char_at(s, c, z - 1) == crate::copy_mode::cells(s, c)[z - 1]);
            }
            if z + 1 < s.cols {
                assert(char_at(s, c, z + 1) == crate::copy_mode::cells(s, c)[z + 1]);
            }
            let stops = if key == 'e' || key == 'E' {
                ends(s, c, z, big)
            } else {
                begins(s, c, z, big)
            };
            assert(crate::copy_mode::word_edge(s, c, z, key) == stops);
            assert(forall|m: int, y: int| 0 <= y < s.cols && before(cur, x, m, y) ==> (m, y) == (c, z) || before(c, z, m, y));
            if !stops {
                lemma_word_forward(s, c, z, key, steps + 1);
                let (l, y) = word_walk(s, c, z, key, steps + 1);
                assert((l - cur) * s.cols + (y - x) == (l - c) * s.cols + (y - z) + 1) by (nonlinear_arith)
                    requires
                        (c == cur && z == x + 1) || (c == cur + 1 && z == 0 && x == s.cols - 1),
                ;
                assert(before(c, z, c, z) == false);
            }
        }
    } else {
        assert((cur - cur) * s.cols + (x - x) == 0) by (nonlinear_arith);
    }
}

/// `b` and `B` go to the nearest cell before where a word begins, and pass
/// none. Without one they go to the first cell of all, or as far as a motion
/// looks.
pub proof fn lemma_word_back(s: Screen, cur: int, x: int, key: char, steps: int)
    requires
        s.live(),
        0 <= cur <= s.lines@.len() - 1,
        0 <= x < s.cols,
        0 <= steps <= 4096,
        key == 'b' || key == 'B',
    ensures
        ({
            let (l, y) = word_walk(s, cur, x, key, steps);
            let big = key == 'B';
            &&& 0 <= l < s.lines@.len() && 0 <= y < s.cols
            &&& (l, y) == (cur, x) || before(l, y, cur, x)
            &&& forall|m: int, z: int|
                0 <= z < s.cols && #[trigger] before(m, z, cur, x) && before(l, y, m, z) ==> !begins(s, m, z, big)
            &&& ({
                ||| before(l, y, cur, x) && begins(s, l, y, big)
                ||| l == 0 && y == 0
                ||| (cur - l) * s.cols + (x - y) == 4096 - steps
            })
        }),
    decreases 4096 - steps,
{
    if steps < 4096 {
        let (c, z) = if x > 0 {
            (cur, x - 1)
        } else {
            (cur - 1, s.cols - 1)
        };
        let big = key == 'B';
        if c >= 0 {
            assert(char_at(s, c, z) == crate::copy_mode::cells(s, c)[z]);
            if z > 0 {
                assert(char_at(s, c, z - 1) == crate::copy_mode::cells(s, c)[z - 1]);
            }
            let stops = begins(s, c, z, big);
            assert(crate::copy_mode::word_edge(s, c, z, key) == stops);
            assert(forall|m: int, y: int| 0 <= y < s.cols && before(m, y, cur, x) ==> (m, y) == (c, z) || before(m, y, c, z));
            if !stops {
                lemma_word_back(s, c, z, key, steps + 1);
                let (l, y) = word_walk(s, c, z, key, steps + 1);
                assert((cur - l) * s.cols + (x - y) == (c - l) * s.cols + (z - y) + 1) by (nonlinear_arith)
                    requires
                        (c == cur && z == x - 1) || (c == cur - 1 && z == s.cols - 1 && x == 0),
                ;
            }
        }
    } else {
        assert((cur - cur) * s.cols + (x - x) == 0) by (nonlinear_arith);
    }
}

/// Going to a line puts the cursor on it. The view stays where it is when it
/// shows the line, and otherwise has it at its top or its bottom.
pub proof fn lemma_goes_to_line(c: CopyMode, s: Screen, abs: int)
    requires
        s.live(),
        c.offset <= s.lines@.len() - s.rows,
        0 <= abs < s.lines@.len(),
    ensures
        ({
            let d = c.at_line(s, abs);
            let top = s.lines@.len() - s.rows - c.offset;
            &&& s.lines@.len() - s.rows - d.offset + d.cy == abs
            &&& d.offset <= s.lines@.len() - s.rows && d.cy < s.rows
            &&& top <= abs < top + s.rows ==> d.offset == c.offset
            &&& abs < top ==> d.cy == 0
            &&& abs >= top + s.rows ==> d.cy == s.rows - 1
            &&& d.cx == c.cx && d.anchor == c.anchor && d.rect == c.rect && d.dragging == c.dragging
        }),
{
    assert(s.lines.len() == s.lines@.len());
}

/// Scrolling towards older lines shows more of the scrollback, and towards
/// newer ones less, as far as there is any; the cursor stays where it is on
/// the screen.
pub proof fn lemma_scrolls(c: CopyMode, s: Screen, delta: int)
    requires
        s.live(),
        c.offset <= s.lines@.len() - s.rows,
    ensures
        ({
            let d = c.scrolled(s, delta);
            let all = s.lines@.len() - s.rows;
            &&& d.offset <= all
            &&& 0 <= delta <= all - c.offset ==> d.offset == c.offset + delta
            &&& delta > all - c.offset ==> d.offset == all
            &&& -c.offset <= delta <= 0 ==> d.offset == c.offset + delta
            &&& delta < -c.offset ==> d.offset == 0
            &&& d.cx == c.cx && d.cy == c.cy && d.anchor == c.anchor
        }),
{
    assert(s.lines.len() == s.lines@.len());
}

/// A word motion puts the cursor in the cell that its walk ends in.
pub proof fn lemma_word_motion(c: CopyMode, s: Screen, key: char)
    requires
        s.live(),
        c.on(s),
        key == 'w' || key == 'W' || key == 'e' || key == 'E' || key == 'b' || key == 'B',
    ensures
        ({
            let top = s.lines@.len() - s.rows;
            let d = c.word_moved(s, key);
            let big = key == 'W' || key == 'E' || key == 'B';
            let at = |m: int, z: int|
                if key == 'e' || key == 'E' {
                    ends(s, m, z, big)
                } else {
                    begins(s, m, z, big)
                };
            let (l, x) = (top - c.offset + c.cy, c.cx as int);
            let (m, y) = (top - d.offset + d.cy, d.cx as int);
            &&& d.on(s)
            &&& key == 'b' || key == 'B' ==> ((m, y) == (l, x) || before(m, y, l, x)) && forall|a: int, b: int|
                0 <= b < s.cols && #[trigger] before(a, b, l, x) && before(m, y, a, b) ==> !at(a, b)
            &&& key == 'b' || key == 'B' ==> ({
                ||| before(m, y, l, x) && at(m, y)
                ||| m == 0 && y == 0
                ||| (l - m) * s.cols + (x - y) == 4096
            })
            &&& key != 'b' && key != 'B' ==> ((m, y) == (l, x) || before(l, x, m, y)) && forall|a: int, b: int|
                0 <= b < s.cols && #[trigger] before(l, x, a, b) && before(a, b, m, y) ==> !at(a, b)
            &&& key != 'b' && key != 'B' ==> ({
                ||| before(l, x, m, y) && at(m, y)
                ||| m == s.lines@.len() - 1 && y == s.cols - 1
                ||| (m - l) * s.cols + (y - x) == 4096
            })
        }),
{
    let l = s.lines@.len() - s.rows - c.offset + c.cy;
    assert(c.clamped(s) == c);
    let (m, y) = word_walk(s, l, c.cx as int, key, 0);
    if key == 'b' || key == 'B' {
        lemma_word_back(s, l, c.cx as int, key, 0);
    } else {
        lemma_word_forward(s, l, c.cx as int, key, 0);
    }
    lemma_goes_to_line(c, s, m);
}

/// A line of nothing but blanks.
pub open spec fn all_blank(s: Screen, l: int) -> bool {
    forall|i: int| 0 <= i < row_text(s, l).len() ==> is_white(#[trigger] row_text(s, l)[i])
}

proof fn lemma_blank(s: Screen, l: int)
    ensures
        crate::copy_mode::is_blank(s, l) == all_blank(s, l),
{
    crate::text_laws::lemma_trim(row_text(s, l));
    assert(s.line(l) == row_text(s, l));
}

/// `}` and `{` go to the next line that is blank, and pass none; without one
/// to the last or the first line.
pub proof fn lemma_paragraph(s: Screen, abs: int, back: bool)
    requires
        s.live(),
        0 <= abs < s.lines@.len(),
    ensures
        ({
            let l = paragraph(s, abs, back);
            &&& 0 <= l < s.lines@.len()
            &&& back ==> l <= abs && (l == abs ==> abs == 0) && (l > 0 ==> all_blank(s, l)) && forall|m: int|
                l < m < abs ==> !#[trigger] all_blank(s, m)
            &&& !back ==> l >= abs && (l == abs ==> abs == s.lines@.len() - 1) && (l < s.lines@.len() - 1 ==> all_blank(
                s,
                l,
            )) && forall|m: int| abs < m < l ==> !#[trigger] all_blank(s, m)
        }),
    decreases
            if back {
                abs
            } else {
                s.lines@.len() - abs
            },
{
    if back {
        if abs > 0 {
            lemma_blank(s, abs - 1);
            if !all_blank(s, abs - 1) {
                lemma_paragraph(s, abs - 1, back);
            }
        }
    } else if abs < s.lines@.len() - 1 {
        lemma_blank(s, abs + 1);
        if !all_blank(s, abs + 1) {
            lemma_paragraph(s, abs + 1, back);
        }
    }
}

/// `part` can be read in `text` from column `i` on.
pub open spec fn reads(text: Seq<char>, i: int, part: Seq<char>) -> bool {
    0 <= i && i + part.len() <= text.len() && text.subrange(i, i + part.len()) == part
}

proof fn lemma_first_read(text: Seq<char>, part: Seq<char>, i: int)
    requires
        0 <= i,
    ensures
        match first_stand(text, part, i) {
            Some(k) => i <= k && reads(text, k, part) && forall|j: int| i <= j < k ==> !#[trigger] reads(text, j, part),
            None => forall|j: int| i <= j ==> !#[trigger] reads(text, j, part),
        },
    decreases text.len() + 1 - i,
{
    if i <= text.len() {
        if crate::text::stands_at(text, i, part) {
            assert(text.subrange(i, i + part.len()) =~= part);
        } else {
            lemma_first_read(text, part, i + 1);
            if reads(text, i, part) {
                assert forall|j: int| 0 <= j < part.len() implies text[i + j] == #[trigger] part[j] by {
                    assert(text.subrange(i, i + part.len())[j] == part[j]);
                }
            }
        }
    }
}

/// A search finds the nearest line in its direction, that of the start
/// first, in which the text can be read, whatever the case, and there the
/// first column; it finds nothing only where no line has it.
pub proof fn lemma_search_nearest(s: Screen, abs: int, needle: Seq<char>, back: bool)
    requires
        0 <= abs,
    ensures
        match search_from(s, abs, needle, back) {
            Some((l, col)) => {
                &&& 0 <= l < s.lines@.len()
                &&& reads(lower(row_text(s, l)), col, needle)
                &&& forall|j: int| 0 <= j < col ==> !#[trigger] reads(lower(row_text(s, l)), j, needle)
                &&& back ==> l <= abs
                &&& !back ==> abs <= l
                &&& forall|m: int, j: int|
                    0 <= j && (if back {
                        l < m <= abs
                    } else {
                        abs <= m < l
                    }) ==> !#[trigger] reads(lower(row_text(s, m)), j, needle)
            },
            None => forall|m: int, j: int|
                0 <= j && abs < s.lines@.len() && (if back {
                    0 <= m <= abs
                } else {
                    abs <= m < s.lines@.len()
                }) ==> !#[trigger] reads(lower(row_text(s, m)), j, needle),
        },
    decreases
            if back {
                abs + 1
            } else {
                s.lines@.len() - abs
            },
{
    if abs < s.lines@.len() {
        assert(s.line(abs) == row_text(s, abs));
        lemma_first_read(lower(row_text(s, abs)), needle, 0);
        if crate::copy_mode::hit_column(s, abs, needle) is None {
            if back {
                if abs > 0 {
                    lemma_search_nearest(s, abs - 1, needle, back);
                } else {
                    assert(search_from(s, -1, needle, back) is None);
                }
            } else {
                lemma_search_nearest(s, abs + 1, needle, back);
            }
        }
    }
}

/// A hit is shown: the cursor is on it, in the column of its first character
/// unless that is past the screen.
pub proof fn lemma_hit_shown(c: CopyMode, s: Screen, l: int, col: int)
    requires
        s.live(),
        0 <= l < s.lines@.len(),
        0 <= col <= u16::MAX,
    ensures
        ({
            let d = c.showing(s, l, col);
            &&& d.on(s)
            &&& s.lines@.len() - s.rows - d.offset + d.cy == l
            &&& col < s.cols ==> d.cx == col
            &&& col >= s.cols ==> d.cx == s.cols - 1
            // In the middle of the screen, where there are lines enough.
            &&& s.rows / 2 <= l <= s.lines@.len() - s.rows + s.rows / 2 ==> d.cy == s.rows / 2
        }),
{
    assert(s.lines.len() == s.lines@.len());
}

/// A search begins on the line of the cursor when it is new, and otherwise
/// one line on in its direction.
pub proof fn lemma_search_begins(c: CopyMode, s: Screen, back: bool, fresh: bool)
    requires
        s.live(),
        c.on(s),
    ensures
        ({
            let here = s.lines@.len() - s.rows - c.offset + c.cy;
            let from = c.search_start(s, back, fresh);
            &&& fresh ==> from == here
            &&& !fresh && !back ==> from == here + 1
            &&& !fresh && back && here > 0 ==> from == here - 1
            &&& !fresh && back && here == 0 ==> from == 0
        }),
{
}

/// What is behind a line in copied text: a line end, unless the terminal
/// only wrapped there.
pub open spec fn line_end(s: Screen, l: int) -> Seq<char> {
    if 0 <= l < s.lines@.len() && s.lines@[l].wrapped {
        Seq::empty()
    } else {
        seq!['\n']
    }
}

/// Columns `from` up to, and not with, `to` of a text, as far as it goes.
pub open spec fn columns(text: Seq<char>, from: int, to: int) -> Seq<char> {
    if from >= text.len() || from >= to {
        Seq::empty()
    } else if to >= text.len() {
        text.skip(from)
    } else {
        text.subrange(from, to)
    }
}

/// Lines `from` up to, and not with, `to`, whole.
pub open spec fn whole_lines(s: Screen, from: int, to: int) -> Seq<char>
    decreases to - from,
{
    if from >= to {
        Seq::empty()
    } else {
        whole_lines(s, from, to - 1) + trim_end(row_text(s, to - 1)) + line_end(s, to - 1)
    }
}

/// Columns `left` to `right` of lines `from` up to, and not with, `to`.
pub open spec fn block_lines(s: Screen, from: int, to: int, left: int, right: int) -> Seq<char>
    decreases to - from,
{
    if from >= to {
        Seq::empty()
    } else {
        block_lines(s, from, to - 1, left, right) + trim_end(columns(row_text(s, to - 1), left, right + 1)) + line_end(
            s,
            to - 1,
        )
    }
}

proof fn lemma_whole_first(s: Screen, from: int, to: int)
    requires
        from < to,
    ensures
        whole_lines(s, from, to) == trim_end(row_text(s, from)) + line_end(s, from) + whole_lines(s, from + 1, to),
    decreases to - from,
{
    if from + 1 < to {
        lemma_whole_first(s, from, to - 1);
        assert(whole_lines(s, from, to) =~= trim_end(row_text(s, from)) + line_end(s, from) + whole_lines(
            s,
            from + 1,
            to,
        ));
    } else {
        assert(whole_lines(s, from, from) =~= Seq::empty());
        assert(whole_lines(s, from, to) =~= trim_end(row_text(s, from)) + line_end(s, from) + whole_lines(s, to, to));
    }
}

proof fn lemma_block_first(s: Screen, from: int, to: int, left: int, right: int)
    requires
        from < to,
    ensures
        block_lines(s, from, to, left, right) == trim_end(columns(row_text(s, from), left, right + 1)) + line_end(
            s,
            from,
        ) + block_lines(s, from + 1, to, left, right),
    decreases to - from,
{
    let first = trim_end(columns(row_text(s, from), left, right + 1)) + line_end(s, from);
    if from + 1 < to {
        lemma_block_first(s, from, to - 1, left, right);
        assert(block_lines(s, from, to, left, right) =~= first + block_lines(s, from + 1, to, left, right));
    } else {
        assert(block_lines(s, from, from, left, right) =~= Seq::empty());
        assert(block_lines(s, from, to, left, right) =~= first + block_lines(s, to, to, left, right));
    }
}

proof fn lemma_part(s: Screen, a: (int, int), b: (int, int), rect: bool, l: int)
    requires
        a.1 >= 0,
        b.1 >= 0,
    ensures
        selected_part(s, a, b, rect, l) == trim_end(
            columns(
                row_text(s, l),
                if rect {
                    if a.1 < b.1 {
                        a.1
                    } else {
                        b.1
                    }
                } else if l == a.0 {
                    a.1
                } else {
                    0
                },
                if rect {
                    (if a.1 > b.1 {
                        a.1
                    } else {
                        b.1
                    }) + 1
                } else if l == b.0 {
                    b.1 + 1
                } else {
                    row_text(s, l).len() as int
                },
            ),
        ),
{
    let text = row_text(s, l);
    assert(s.line(l) == text);
    assert(trim_end(Seq::<char>::empty()) =~= Seq::empty());
    assert forall|i: int| 0 <= i <= text.len() implies text.subrange(i, text.len() as int) == #[trigger] text.skip(i) by {
        assert(text.subrange(i, text.len() as int) =~= text.skip(i));
    }
}

proof fn lemma_lines_after(s: Screen, a: (int, int), b: (int, int), l: int)
    requires
        a.0 < l <= b.0,
        a.1 >= 0,
        b.1 >= 0,
    ensures
        selected_from(s, a, b, false, l) == whole_lines(s, l, b.0) + trim_end(columns(row_text(s, b.0), 0, b.1 + 1)),
    decreases b.0 - l,
{
    lemma_part(s, a, b, false, l);
    assert(selected_from(s, a, b, false, b.0 + 1) =~= Seq::empty());
    let tail = trim_end(columns(row_text(s, b.0), 0, b.1 + 1));
    if l < b.0 {
        lemma_lines_after(s, a, b, l + 1);
        lemma_whole_first(s, l, b.0);
        let text = row_text(s, l);
        assert(trim_end(Seq::<char>::empty()) =~= Seq::empty());
        if text.len() == 0 {
            assert(text =~= Seq::empty());
        } else {
            assert(text.skip(0) =~= text);
        }
        assert(selected_from(s, a, b, false, l) =~= whole_lines(s, l, b.0) + tail);
    } else {
        assert(selected_from(s, a, b, false, l) =~= whole_lines(s, l, b.0) + tail);
    }
}

proof fn lemma_block_after(s: Screen, a: (int, int), b: (int, int), l: int)
    requires
        a.0 <= l <= b.0,
        a.1 >= 0,
        b.1 >= 0,
    ensures
        ({
            let left = if a.1 < b.1 {
                a.1
            } else {
                b.1
            };
            let right = if a.1 > b.1 {
                a.1
            } else {
                b.1
            };
            selected_from(s, a, b, true, l) == block_lines(s, l, b.0, left, right) + trim_end(
                columns(row_text(s, b.0), left, right + 1),
            )
        }),
    decreases b.0 - l,
{
    let left = if a.1 < b.1 {
        a.1
    } else {
        b.1
    };
    let right = if a.1 > b.1 {
        a.1
    } else {
        b.1
    };
    lemma_part(s, a, b, true, l);
    assert(selected_from(s, a, b, true, b.0 + 1) =~= Seq::empty());
    let tail = trim_end(columns(row_text(s, b.0), left, right + 1));
    if l < b.0 {
        lemma_block_after(s, a, b, l + 1);
        lemma_block_first(s, l, b.0, left, right);
    }
    assert(selected_from(s, a, b, true, l) =~= block_lines(s, l, b.0, left, right) + tail);
}

/// A selection takes the cells between the anchor and the cursor in reading
/// order, both with it, whichever comes first: of one line those columns; of
/// several the first from its column on, those between whole, and the last up
/// to its column. A rectangle takes the columns between the two of every
/// line. Blanks at the end of a line are left out.
pub proof fn lemma_selection(c: CopyMode, s: Screen)
    requires
        s.live(),
        c.on(s),
        c.anchor is Some,
    ensures
        ({
            let (al, ac) = ((c.anchor->0).0 as int, (c.anchor->0).1 as int);
            let (cl, cc) = (s.lines@.len() - s.rows - c.offset + c.cy, c.cx as int);
            let (l0, c0, l1, c1) = if al < cl || al == cl && ac <= cc {
                (al, ac, cl, cc)
            } else {
                (cl, cc, al, ac)
            };
            let (left, right) = if ac < cc {
                (ac, cc)
            } else {
                (cc, ac)
            };
            &&& !c.rect && l0 == l1 ==> c.selected(s) == trim_end(columns(row_text(s, l0), c0, c1 + 1))
            &&& !c.rect && l0 < l1 ==> c.selected(s) == trim_end(
                columns(row_text(s, l0), c0, row_text(s, l0).len() as int),
            ) + line_end(s, l0) + whole_lines(s, l0 + 1, l1) + trim_end(columns(row_text(s, l1), 0, c1 + 1))
            &&& c.rect ==> c.selected(s) == block_lines(s, l0, l1, left, right) + trim_end(
                columns(row_text(s, l1), left, right + 1),
            )
        }),
{
    assert(c.clamped(s) == c);
    let p = ((c.anchor->0).0 as int, (c.anchor->0).1 as int);
    let q = (s.lines@.len() - s.rows - c.offset + c.cy, c.cx as int);
    let (a, b) = if p.0 < q.0 || p.0 == q.0 && p.1 <= q.1 {
        (p, q)
    } else {
        (q, p)
    };
    assert(c.selected(s) == selected_from(s, a, b, c.rect, a.0));
    if c.rect {
        lemma_block_after(s, a, b, a.0);
    } else {
        lemma_part(s, a, b, false, a.0);
        if a.0 < b.0 {
            lemma_lines_after(s, a, b, a.0 + 1);
            assert(c.selected(s) =~= trim_end(columns(row_text(s, a.0), a.1, row_text(s, a.0).len() as int)) + line_end(
                s,
                a.0,
            ) + whole_lines(s, a.0 + 1, b.0) + trim_end(columns(row_text(s, b.0), 0, b.1 + 1)));
        } else {
            assert(selected_from(s, a, b, false, b.0 + 1) =~= Seq::empty());
            assert(c.selected(s) =~= trim_end(columns(row_text(s, a.0), a.1, b.1 + 1)));
        }
    }
}

/// What is drawn of a selection is a stretch of the screen that ends where
/// the cursor is, on one side, and on the other where the anchor is, or at
/// the corner of the screen that it is past.
pub proof fn lemma_selection_drawn(rows: int, cols: int, cm: CopyMode, cursor_abs: int)
    requires
        cm.cy < rows,
        cols >= 1,
    ensures
        ({
            let v = selection_view(rows, cols, cm, cursor_abs);
            &&& v is None <==> cm.anchor is None
            &&& cm.anchor is Some ==> {
                let (line, col) = cm.anchor->0;
                let up = cm.cy + (line - cursor_abs);
                let (a, b) = v->0;
                &&& 0 <= a.0 <= b.0 < rows
                &&& up < 0 ==> a == (0int, 0int) && b == (cm.cy as int, cm.cx as int)
                &&& up >= rows ==> a == (cm.cy as int, cm.cx as int) && b == (rows - 1, cols - 1)
                &&& 0 <= up < cm.cy ==> a == (up, col as int) && b == (cm.cy as int, cm.cx as int)
                &&& cm.cy < up < rows ==> a == (cm.cy as int, cm.cx as int) && b == (up, col as int)
                &&& up == cm.cy && col <= cm.cx ==> a == (up, col as int) && b == (up, cm.cx as int)
                &&& up == cm.cy && col > cm.cx ==> a == (up, cm.cx as int) && b == (up, col as int)
            }
        }),
{
}

/// The line that the cursor is on, counted from the oldest.
pub open spec fn line_of(c: CopyMode, s: Screen) -> int {
    s.lines@.len() - s.rows - c.offset + c.cy
}

/// The keys that move by a line or a column: `j` and Down one line down, `k`
/// and Up one line up, `h` and Left one column to the left, `l` and Right one
/// to the right, each as far as there is any.
pub proof fn lemma_steps(c: CopyMode, s: Screen, k: Key)
    requires
        s.live(),
        c.on(s),
    ensures
        ({
            let d = motion(c, s, k);
            let typed = |ch: char| k.code == KeyCode::Char(ch) && !k.ctrl && !k.alt;
            &&& k.code is Down || typed('j') ==> {
                &&& d is Some && d->0.on(s)
                &&& line_of(c, s) < s.lines@.len() - 1 ==> line_of(d->0, s) == line_of(c, s) + 1
                &&& line_of(c, s) == s.lines@.len() - 1 ==> line_of(d->0, s) == line_of(c, s)
                &&& d->0.cx == c.cx
            }
            &&& k.code is Up || typed('k') ==> {
                &&& d is Some && d->0.on(s)
                &&& line_of(c, s) > 0 ==> line_of(d->0, s) == line_of(c, s) - 1
                &&& line_of(c, s) == 0 ==> line_of(d->0, s) == 0
                &&& d->0.cx == c.cx
            }
            &&& k.code is Left || typed('h') ==> {
                &&& d is Some && line_of(d->0, s) == line_of(c, s)
                &&& c.cx > 0 ==> d->0.cx == c.cx - 1
                &&& c.cx == 0 ==> d->0.cx == 0
            }
            &&& k.code is Right || typed('l') ==> {
                &&& d is Some && line_of(d->0, s) == line_of(c, s)
                &&& c.cx < s.cols - 1 ==> d->0.cx == c.cx + 1
                &&& c.cx == s.cols - 1 ==> d->0.cx == c.cx
            }
        }),
{
    assert(s.lines.len() == s.lines@.len());
}

/// The keys that go somewhere at once: `g` to the first line of all and `G`
/// to the last, `0` and Home to the first column and `$` and End to the last,
/// `H`, `M` and `L` to the top, the middle and the bottom of the view, `^` to
/// the first character of the line that is not blank.
pub proof fn lemma_jumps(c: CopyMode, s: Screen, k: Key)
    requires
        s.live(),
        c.on(s),
    ensures
        ({
            let d = motion(c, s, k);
            let typed = |ch: char| k.code == KeyCode::Char(ch) && !k.ctrl && !k.alt;
            &&& typed('g') ==> d is Some && line_of(d->0, s) == 0
            &&& typed('G') ==> d is Some && line_of(d->0, s) == s.lines@.len() - 1
            &&& k.code is Home || typed('0') ==> d is Some && d->0.cx == 0 && line_of(d->0, s) == line_of(c, s)
            &&& k.code is End || typed('$') ==> d is Some && d->0.cx == s.cols - 1 && line_of(d->0, s) == line_of(c, s)
            &&& typed('H') ==> d is Some && d->0.cy == 0 && d->0.offset == c.offset
            &&& typed('M') ==> d is Some && d->0.cy == s.rows / 2 && d->0.offset == c.offset
            &&& typed('L') ==> d is Some && d->0.cy == s.rows - 1 && d->0.offset == c.offset
            &&& typed('^') ==> {
                let text = row_text(s, line_of(c, s));
                &&& d is Some && line_of(d->0, s) == line_of(c, s)
                &&& forall|i: int|
                    0 <= i < d->0.cx && i < text.len() && text.len() <= u16::MAX ==> is_white(#[trigger] text[i])
                &&& d->0.cx < s.cols - 1 && d->0.cx < text.len() && text.len() <= u16::MAX ==> !is_white(
                    text[d->0.cx as int],
                )
            }
        }),
{
    assert(s.lines.len() == s.lines@.len());
    let text = row_text(s, line_of(c, s));
    assert(c.clamped(s) == c);
    assert(s.line(line_of(c, s)) == text);
    crate::text_laws::lemma_trim_start(text);
    let n = text.len() - crate::text::trim_start(text).len();
    if n < text.len() {
        assert(text.skip(n)[0] == text[n]);
    }
}

/// The keys that turn pages: PageUp and `C-b` a screen towards older lines,
/// PageDown and `C-f` a screen towards newer ones, `C-u` and `C-d` half one,
/// as far as there is any scrollback.
pub proof fn lemma_pages(c: CopyMode, s: Screen, k: Key)
    requires
        s.live(),
        c.on(s),
    ensures
        ({
            let d = motion(c, s, k);
            let held = |ch: char| k.code == KeyCode::Char(ch) && k.ctrl;
            let all = s.lines@.len() - s.rows;
            let up = |by: int|
                if c.offset + by > all {
                    all
                } else {
                    c.offset + by
                };
            let down = |by: int|
                if c.offset < by {
                    0
                } else {
                    c.offset - by
                };
            &&& k.code is PPage || held('b') ==> d is Some && d->0.offset == up(s.rows as int) && d->0.cy == c.cy
            &&& k.code is NPage || held('f') ==> d is Some && d->0.offset == down(s.rows as int) && d->0.cy == c.cy
            &&& held('u') ==> d is Some && d->0.offset == up(s.rows as int / 2) && d->0.cy == c.cy
            &&& held('d') ==> d is Some && d->0.offset == down(s.rows as int / 2) && d->0.cy == c.cy
        }),
{
    assert(s.lines.len() == s.lines@.len());
}

/// Space and `v` begin a selection at the cursor; `C-v` makes it a rectangle,
/// or no longer one, and begins it when there was none.
pub proof fn lemma_begins_selection(c: CopyMode, s: Screen, k: Key)
    requires
        s.live(),
        c.on(s),
    ensures
        ({
            let d = motion(c, s, k);
            let here = Some((line_of(c, s) as usize, c.cx));
            &&& (k.code == KeyCode::Char(' ') || k.code == KeyCode::Char('v')) && !k.ctrl && !k.alt ==> d is Some
                && d->0.anchor == here && d->0.rect == c.rect && d->0.cx == c.cx && line_of(d->0, s) == line_of(c, s)
            &&& k.code == KeyCode::Char('v') && k.ctrl ==> d is Some && d->0.rect == !c.rect && d->0.anchor
                == if c.anchor is Some {
                c.anchor
            } else {
                here
            }
        }),
{
    assert(s.lines.len() == s.lines@.len());
    assert(c.clamped(s) == c);
}

/// `w`, `b` and `e` are word motions, `{` and `}` go by paragraphs: up with
/// the one and down with the other.
pub proof fn lemma_motion_keys(c: CopyMode, s: Screen, k: Key)
    requires
        s.live(),
        c.on(s),
        !k.ctrl && !k.alt,
    ensures
        k.code == KeyCode::Char('w') ==> motion(c, s, k) == Some(c.word_moved(s, 'w')),
        k.code == KeyCode::Char('W') ==> motion(c, s, k) == Some(c.word_moved(s, 'W')),
        k.code == KeyCode::Char('b') ==> motion(c, s, k) == Some(c.word_moved(s, 'b')),
        k.code == KeyCode::Char('B') ==> motion(c, s, k) == Some(c.word_moved(s, 'B')),
        k.code == KeyCode::Char('e') ==> motion(c, s, k) == Some(c.word_moved(s, 'e')),
        k.code == KeyCode::Char('E') ==> motion(c, s, k) == Some(c.word_moved(s, 'E')),
        k.code == KeyCode::Char('{') ==> motion(c, s, k) is Some && line_of(motion(c, s, k)->0, s) == paragraph(
            s,
            line_of(c, s),
            true,
        ),
        k.code == KeyCode::Char('}') ==> motion(c, s, k) is Some && line_of(motion(c, s, k)->0, s) == paragraph(
            s,
            line_of(c, s),
            false,
        ),
{
    assert(c.clamped(s) == c);
    lemma_paragraph(s, line_of(c, s), true);
    lemma_paragraph(s, line_of(c, s), false);
    lemma_goes_to_line(c, s, paragraph(s, line_of(c, s), true));
    lemma_goes_to_line(c, s, paragraph(s, line_of(c, s), false));
}

/// Digits make up the count of the next motion: a second one is worth ten of
/// the first. A zero begins none.
pub proof fn lemma_counts(c: CopyMode, after: CopyMode, action: CopyAction, s: Screen, k: Key, digit: int)
    requires
        keyed(c, after, action, s, k),
        0 <= digit <= 9,
        k.code == KeyCode::Char((digit + '0' as u32) as char),
        !k.ctrl && !k.alt,
        digit > 0 || c.count is Some,
    ensures
        action is Stay,
        c.count is None ==> after == (CopyMode { count: Some(digit as usize), ..c }),
        c.count is Some && c.count->0 < 1000 ==> after == (CopyMode {
            count: Some((c.count->0 * 10 + digit) as usize),
            ..c
        }),
{
}

/// `q` leaves; Escape gives up the selection first, and leaves when there is
/// none; `/` asks for a text further down and `?` for one further up; `n`
/// searches on as the last search went and `N` the other way.
pub proof fn lemma_other_keys(c: CopyMode, after: CopyMode, action: CopyAction, s: Screen, k: Key)
    requires
        keyed(c, after, action, s, k),
        !k.ctrl && !k.alt,
    ensures
        k.code == KeyCode::Char('q') ==> action is Leave,
        k.code is Escape && c.anchor is Some ==> action is Stay && after.anchor is None,
        k.code is Escape && c.anchor is None ==> action is Leave,
        k.code == KeyCode::Char('/') ==> action == (CopyAction::AskSearch { back: false }),
        k.code == KeyCode::Char('?') ==> action == (CopyAction::AskSearch { back: true }),
        (k.code == KeyCode::Char('n') || k.code == KeyCode::Char('N')) && c.search is None ==> action is NoSearch,
        k.code == KeyCode::Char('n') && c.search is Some && c.search->0@.len() > 0 ==> searched(
            CopyMode { count: None, ..c },
            after,
            s,
            c.search->0@,
            c.search_back,
            false,
        ),
        k.code == KeyCode::Char('N') && c.search is Some && c.search->0@.len() > 0 ==> searched(
            CopyMode { count: None, ..c },
            after,
            s,
            c.search->0@,
            !c.search_back,
            false,
        ),
        (k.code is Enter || k.code == KeyCode::Char('y')) && c.anchor is Some ==> action is Copy && action->Copy_0 is Some
            && action->Copy_0->0@ == (CopyMode { count: None, ..c }).selected(s),
        (k.code is Enter || k.code == KeyCode::Char('y')) && c.anchor is None ==> action == CopyAction::Copy(None),
{
}

/// A motion with a count is that motion so many times over.
pub proof fn lemma_repeats(c: CopyMode, after: CopyMode, action: CopyAction, s: Screen, k: Key)
    requires
        s.live(),
        c.on(s),
        keyed(c, after, action, s, k),
        c.count is Some && c.count->0 >= 1,
        !k.ctrl && !k.alt,
        k.code == KeyCode::Char('j') || k.code == KeyCode::Char('k'),
    ensures
        ({
            let (l, n) = (line_of(c, s), c.count->0);
            &&& k.code == KeyCode::Char('j') ==> line_of(after, s) == if l + n < s.lines@.len() {
                l + n
            } else {
                s.lines@.len() - 1
            }
            &&& k.code == KeyCode::Char('k') ==> line_of(after, s) == if l >= n {
                l - n
            } else {
                0
            }
            &&& after.cx == c.cx && after.count is None
        }),
{
    let base = CopyMode { count: None, ..c };
    lemma_repeats_steps(base, s, k, c.count->0 as nat);
    reveal_with_fuel(repeated, 2);
    assert(repeated(base, s, k, 1) == motion(base, s, k)->0);
}

proof fn lemma_repeats_steps(c: CopyMode, s: Screen, k: Key, n: nat)
    requires
        s.live(),
        c.on(s),
        !k.ctrl && !k.alt,
        k.code == KeyCode::Char('j') || k.code == KeyCode::Char('k'),
    ensures
        ({
            let d = repeated(c, s, k, n);
            let l = line_of(c, s);
            &&& d.on(s) && d.cx == c.cx && d.count == c.count
            &&& k.code == KeyCode::Char('j') ==> line_of(d, s) == if l + n < s.lines@.len() {
                l + n
            } else {
                s.lines@.len() - 1
            }
            &&& k.code == KeyCode::Char('k') ==> line_of(d, s) == if l >= n {
                l - n
            } else {
                0
            }
        }),
    decreases n,
{
    if n > 0 {
        lemma_repeats_steps(c, s, k, (n - 1) as nat);
        lemma_steps(repeated(c, s, k, (n - 1) as nat), s, k);
    }
}

} // verus!
