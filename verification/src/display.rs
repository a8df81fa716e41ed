//! Text for listings and the status line, cut and lined up for a screen.
use vstd::prelude::*;
use unicode_width::{UnicodeWidthChar, UnicodeWidthStr};
use crate::text::{chars_of, decimal, digit_char, push_decimal, string_of, trim, trim_end, trimmed, end_of};

verus! {

/// The columns a character takes on screen, by the rules of the
/// `unicode-width` crate; none for a control character.
pub uninterp spec fn char_columns(c: char) -> Option<usize>;

/// The columns a text takes on screen, by the rules of the `unicode-width`
/// crate.
pub uninterp spec fn text_columns(s: Seq<char>) -> usize;

/// `UnicodeWidthChar::width`: a table by character. Printable ASCII takes one
/// column, and the control characters of ASCII have no width.
#[verifier::external_body]
pub(crate) fn char_width(c: char) -> (w: Option<usize>)
    ensures
        w == char_columns(c),
        ' ' <= c <= '~' ==> w == Some(1usize),
        c < ' ' ==> w is None,
{
    UnicodeWidthChar::width(c)
}

/// `UnicodeWidthStr::width`: a function of the text's characters.
#[verifier::external_body]
pub(crate) fn text_width(s: &str) -> (w: usize)
    ensures
        w == text_columns(s@),
{
    UnicodeWidthStr::width(s)
}

/// `s` in at most `n` characters, the last an ellipsis when it was cut (also
/// when there is no room for one).
pub open spec fn truncated(s: Seq<char>, n: int) -> Seq<char> {
    if s.len() <= n {
        s
    } else {
        s.take(
            if n > 1 {
                n - 1
            } else {
                0
            },
        ).push('\u{2026}')
    }
}

pub fn truncate(s: &str, n: usize) -> (out: String)
    ensures
        out@ == truncated(s@, n as int),
{
    let chars = chars_of(s);
    if chars.len() <= n {
        return s.to_owned();
    }
    let keep: usize = if n > 1 { n - 1 } else { 0 };
    let mut out = string_of(&chars, 0, keep);
    assert(out@ =~= s@.take(keep as int));
    out.push('\u{2026}');
    out
}

/// `s` with its line breaks and tabs as spaces.
pub open spec fn flattened(s: Seq<char>) -> Seq<char> {
    Seq::new(
        s.len(),
        |i: int|
            if s[i] == '\n' || s[i] == '\r' || s[i] == '\t' {
                ' '
            } else {
                s[i]
            },
    )
}

/// One line of a buffer for a listing.
pub open spec fn listed(s: Seq<char>, max: int) -> Seq<char> {
    let flat = trim(flattened(s));
    if flat.len() <= max {
        flat
    } else {
        flat.take(max).push('\u{2026}')
    }
}

/// One line of a buffer for a listing, clipped to `max` characters.
pub fn one_line(s: &str, max: usize) -> (out: String)
    ensures
        out@ == listed(s@, max as int),
{
    let chars = chars_of(s);
    let mut flat: Vec<char> = Vec::new();
    let mut i: usize = 0;
    while i < chars.len()
        invariant
            i <= chars@.len(),
            chars@ == s@,
            flat@ == flattened(s@).take(i as int),
        decreases chars.len() - i,
    {
        let c: char = chars[i];
        flat.push(if c == '\n' || c == '\r' || c == '\t' { ' ' } else { c });
        assert(flattened(s@).take(i + 1) =~= flattened(s@).take(i as int).push(flattened(s@)[i as int]));
        i = i + 1;
    }
    assert(flat@ =~= flattened(s@));
    let flat = trimmed(&flat);
    if flat.len() <= max {
        let out = string_of(&flat, 0, flat.len());
        assert(out@ =~= flat@);
        out
    } else {
        let mut out = string_of(&flat, 0, max);
        assert(out@ =~= flat@.take(max as int));
        out.push('\u{2026}');
        out
    }
}

/// `n / d` to the nearest whole number, a half to the even one.
pub open spec fn half_even(n: int, d: int) -> int {
    let q = n / d;
    let r = n % d;
    if 2 * r < d || (2 * r == d && q % 2 == 0) {
        q
    } else {
        q + 1
    }
}

/// How far `n` must be scaled down to be written in 53 bits.
pub open spec fn unit_of(n: int, u: int) -> int
    decreases n - u,
{
    if u < 1 || n < 9007199254740992 * u {
        u
    } else {
        unit_of(n, u * 2)
    }
}

/// `n` with the 53 bits that a double-precision number holds.
pub open spec fn in_double(n: int) -> int {
    half_even(n, unit_of(n, 1)) * unit_of(n, 1)
}

/// A size as people read it.
pub open spec fn size_text(bytes: int) -> Seq<char> {
    if bytes <= 1023 {
        decimal(bytes as nat) + " B"@
    } else if bytes <= 1048575 {
        decimal((bytes / 1024) as nat) + " KB"@
    } else {
        let tenths = half_even(in_double(bytes) * 10, 1048576);
        decimal((tenths / 10) as nat) + "."@ + seq![digit_char((tenths % 10) as nat)] + " MB"@
    }
}

fn rounded(n: u128, d: u128) -> (q: u128)
    requires
        d >= 1,
        d <= 0x1_0000_0000_0000_0000,
    ensures
        q == half_even(n as int, d as int),
        q <= n / d + 1,
{
    let q: u128 = n / d;
    let r: u128 = n % d;
    if 2 * r < d || (2 * r == d && q % 2 == 0) {
        q
    } else {
        proof {
            assert(q < n) by (nonlinear_arith)
                requires
                    q == n / d,
                    r == n % d,
                    2 * r >= d,
                    d >= 1,
                    n >= 0,
            ;
        }
        q + 1
    }
}

/// A size as people read it: `812 B`, `14 KB`, `1.2 MB`.
pub fn human_size(bytes: u64) -> (out: String)
    ensures
        out@ == size_text(bytes as int),
{
    let mut out = String::new();
    if bytes <= 1023 {
        push_decimal(&mut out, bytes);
        out.push_str(" B");
    } else if bytes <= 1048575 {
        push_decimal(&mut out, bytes / 1024);
        out.push_str(" KB");
    } else {
        let mut u: u64 = 1;
        while bytes as u128 >= 9007199254740992 * (u as u128)
            invariant
                1 <= u <= 0x1000,
                bytes >= 1048576,
                unit_of(bytes as int, 1) == unit_of(bytes as int, u as int),
            decreases 0x2000 - u,
        {
            u = u * 2;
        }
        let q: u128 = rounded(bytes as u128, u as u128);
        assert(q <= 9007199254740992) by (nonlinear_arith)
            requires
                q <= bytes / u + 1,
                bytes < 9007199254740992 * u,
                u >= 1,
        ;
        assert(q * u <= 9007199254740992 * 0x1000) by (nonlinear_arith)
            requires
                0 <= q <= 9007199254740992,
                0 <= u <= 0x1000,
        ;
        let double: u128 = q * (u as u128);
        let tenths: u128 = rounded(double * 10, 1048576);
        push_decimal(&mut out, (tenths / 10) as u64);
        out.push_str(".");
        let digit: u64 = (tenths % 10) as u64;
        let ghost before = out@;
        push_decimal(&mut out, digit);
        assert(decimal(digit as nat) =~= seq![digit_char(digit as nat)]);
        out.push_str(" MB");
    }
    assert(out@ =~= size_text(bytes as int));
    out
}

/// The columns of the task board (`jobs`, `choose-jobs`).
pub fn jobs_header() -> (out: Vec<String>)
    ensures
        out@.len() == 7,
        out@[0]@ == "PANE"@,
        out@[1]@ == "STATE"@,
        out@[2]@ == "UP"@,
        out@[3]@ == "IDLE"@,
        out@[4]@ == "PID"@,
        out@[5]@ == "COMMAND"@,
        out@[6]@ == "DIR"@,
{
    vec![
        "PANE".to_owned(),
        "STATE".to_owned(),
        "UP".to_owned(),
        "IDLE".to_owned(),
        "PID".to_owned(),
        "COMMAND".to_owned(),
        "DIR".to_owned(),
    ]
}

/// The text of a table.
pub open spec fn cells_of_rows(rows: Seq<Vec<String>>) -> Seq<Seq<Seq<char>>> {
    Seq::new(rows.len(), |i: int| Seq::new(rows[i]@.len(), |j: int| rows[i]@[j]@))
}

/// The widest of the first `k` cells of column `c`.
pub open spec fn column_width(rows: Seq<Seq<Seq<char>>>, c: int, k: nat) -> int
    decreases k,
{
    if k == 0 {
        0
    } else {
        let before = column_width(rows, c, (k - 1) as nat);
        let w = if c < rows[k - 1].len() { text_columns(rows[k - 1][c]) as int } else { 0 };
        if w > before {
            w
        } else {
            before
        }
    }
}

/// `n` spaces.
pub open spec fn spaces(n: int) -> Seq<char> {
    Seq::new(
        if n > 0 {
            n as nat
        } else {
            0
        },
        |i: int| ' ',
    )
}

/// The first `k` cells of row `i`, each but the table's last column padded to
/// the width of its column and two spaces more.
pub open spec fn padded(rows: Seq<Seq<Seq<char>>>, i: int, k: nat) -> Seq<char>
    decreases k,
{
    if k == 0 {
        Seq::empty()
    } else {
        let cell = rows[i][k - 1];
        let gap = column_width(rows, k - 1, rows.len()) - text_columns(cell);
        padded(rows, i, (k - 1) as nat) + cell + if k < rows[0].len() {
            spaces(gap) + spaces(2)
        } else {
            Seq::empty()
        }
    }
}

fn width_of_column(rows: &[Vec<String>], c: usize) -> (w: usize)
    ensures
        w == column_width(cells_of_rows(rows@), c as int, rows@.len()),
{
    let ghost all = cells_of_rows(rows@);
    let mut w: usize = 0;
    let mut i: usize = 0;
    while i < rows.len()
        invariant
            i <= rows@.len(),
            all == cells_of_rows(rows@),
            w == column_width(all, c as int, i as nat),
        decreases rows.len() - i,
    {
        if c < rows[i].len() {
            let cell: usize = text_width(rows[i][c].as_str());
            if cell > w {
                w = cell;
            }
        }
        i = i + 1;
    }
    w
}

pub fn push_spaces(out: &mut String, n: usize)
    ensures
        final(out)@ == old(out)@ + spaces(n as int),
{
    let mut i: usize = 0;
    assert(out@ =~= old(out)@ + spaces(0));
    while i < n
        invariant
            i <= n,
            out@ == old(out)@ + spaces(i as int),
        decreases n - i,
    {
        out.push(' ');
        i = i + 1;
        assert(out@ =~= old(out)@ + spaces(i as int));
    }
}

/// Rows as lines with the columns lined up on screen: padded by display
/// width, since a CJK session name is two cells a character.
pub fn align_columns(rows: &[Vec<String>]) -> (out: Vec<String>)
    ensures
        out@.len() == rows@.len(),
        forall|i: int|
            0 <= i < rows@.len() ==> (#[trigger] out@[i])@ == trim_end(
                padded(cells_of_rows(rows@), i, rows@[i]@.len()),
            ),
{
    let ghost all = cells_of_rows(rows@);
    let mut out: Vec<String> = Vec::new();
    if rows.len() == 0 {
        return out;
    }
    let columns: usize = rows[0].len();
    let mut i: usize = 0;
    while i < rows.len()
        invariant
            i <= rows@.len(),
            rows@.len() > 0,
            all == cells_of_rows(rows@),
            columns == all[0].len(),
            out@.len() == i,
            forall|j: int|
                0 <= j < i ==> (#[trigger] out@[j])@ == trim_end(padded(all, j, rows@[j]@.len())),
        decreases rows.len() - i,
    {
        let row = &rows[i];
        let mut line = String::new();
        let mut k: usize = 0;
        assert(padded(all, i as int, 0) =~= Seq::<char>::empty());
        while k < row.len()
            invariant
                k <= row@.len(),
                i < rows@.len(),
                row == rows@[i as int],
                all == cells_of_rows(rows@),
                columns == all[0].len(),
                line@ == padded(all, i as int, k as nat),
            decreases row.len() - k,
        {
            let ghost before = line@;
            let cell = row[k].as_str();
            assert(all[i as int][k as int] == cell@);
            line.push_str(cell);
            if k + 1 < columns {
                let full: usize = width_of_column(rows, k);
                let own: usize = text_width(cell);
                if full > own {
                    push_spaces(&mut line, full - own);
                } else {
                    assert(spaces(full - own) =~= Seq::<char>::empty());
                }
                push_spaces(&mut line, 2);
            }
            k = k + 1;
            assert(line@ =~= padded(all, i as int, k as nat));
        }
        let chars = chars_of(line.as_str());
        let e: usize = end_of(&chars, 0);
        assert(chars@.skip(0) =~= chars@);
        let cut = string_of(&chars, 0, e);
        out.push(cut);
        i = i + 1;
    }
    out
}

/// How many characters of `s` from `i` on fit in `left` columns.
pub open spec fn fitting(s: Seq<char>, i: int, left: int) -> int
    decreases s.len() - i,
{
    if i < 0 || i >= s.len() {
        s.len() as int
    } else {
        let w = match char_columns(s[i]) {
            Some(w) => w as int,
            None => 0,
        };
        if w > left {
            i
        } else {
            fitting(s, i + 1, left - w)
        }
    }
}

/// The columns left after the characters `i..e` of `s`.
pub open spec fn left_after(s: Seq<char>, i: int, e: int, left: int) -> int
    decreases e - i,
{
    if i < 0 || i >= e || e > s.len() {
        left
    } else {
        left_after(
            s,
            i + 1,
            e,
            left - (match char_columns(s[i]) {
                Some(w) => w as int,
                None => 0,
            }),
        )
    }
}

/// The texts of a status line cut to `left` columns in all, from place `k`
/// on, those cut to nothing left out.
pub open spec fn clipped(texts: Seq<Seq<char>>, k: int, left: int) -> Seq<Seq<char>>
    decreases texts.len() - k,
{
    if k < 0 || k >= texts.len() {
        Seq::empty()
    } else {
        let e = fitting(texts[k], 0, left);
        let rest = clipped(texts, k + 1, left_after(texts[k], 0, e, left));
        if e == 0 {
            rest
        } else {
            seq![texts[k].take(e)] + rest
        }
    }
}

/// The characters of `s` that fit, and the columns left.
fn clip(s: &Vec<char>, left: usize) -> (r: (usize, usize))
    ensures
        r.0 == fitting(s@, 0, left as int),
        r.0 <= s@.len(),
        r.1 == left_after(s@, 0, r.0 as int, left as int),
{
    let mut room: usize = left;
    let mut i: usize = 0;
    let ghost e = fitting(s@, 0, left as int);
    while i < s.len()
        invariant_except_break
            i <= s@.len(),
            e == fitting(s@, 0, left as int),
            fitting(s@, i as int, room as int) == e,
            left_after(s@, 0, i as int, left as int) == room,
        ensures
            i <= s@.len(),
            i == e,
            left_after(s@, 0, i as int, left as int) == room,
        decreases s.len() - i,
    {
        let w: usize = match char_width(s[i]) {
            Some(w) => w,
            None => 0,
        };
        if w > room {
            break;
        }
        proof {
            lemma_left_step(s@, 0, i as int, left as int);
        }
        room = room - w;
        i = i + 1;
    }
    (i, room)
}

proof fn lemma_left_step(s: Seq<char>, i: int, e: int, left: int)
    requires
        0 <= i <= e < s.len(),
    ensures
        left_after(s, i, e + 1, left) == left_after(s, i, e, left) - (match char_columns(s[e]) {
            Some(w) => w as int,
            None => 0,
        }),
    decreases e - i,
{
    if i < e {
        lemma_left_step(
            s,
            i + 1,
            e,
            left - (match char_columns(s[i]) {
                Some(w) => w as int,
                None => 0,
            }),
        );
    } else {
        assert(left_after(s, e + 1, e + 1, left) == left);
        reveal_with_fuel(left_after, 2);
    }
}

pub open spec fn texts_of(v: Seq<String>) -> Seq<Seq<char>> {
    Seq::new(v.len(), |i: int| v[i]@)
}

/// Truncate the texts of a status line to `max` display cells in all (tmux
/// `status-*-length`); what is cut to nothing goes.
pub fn clip_texts(texts: &Vec<String>, max: usize) -> (out: Vec<String>)
    ensures
        texts_of(out@) == clipped(texts_of(texts@), 0, max as int),
{
    let ghost all = texts_of(texts@);
    let mut out: Vec<String> = Vec::new();
    let mut left: usize = max;
    let mut k: usize = 0;
    assert(texts_of(out@) + clipped(all, 0, max as int) =~= clipped(all, 0, max as int));
    while k < texts.len()
        invariant
            k <= texts@.len(),
            all == texts_of(texts@),
            texts_of(out@) + clipped(all, k as int, left as int) == clipped(all, 0, max as int),
        decreases texts.len() - k,
    {
        let chars = chars_of(texts[k].as_str());
        assert(all[k as int] == chars@);
        let (e, room) = clip(&chars, left);
        let ghost before = out@;
        let ghost rest = clipped(all, k + 1, room as int);
        if e > 0 {
            let part = string_of(&chars, 0, e);
            assert(part@ =~= chars@.take(e as int));
            out.push(part);
            assert(texts_of(out@) + rest =~= texts_of(before) + clipped(all, k as int, left as int));
        }
        left = room;
        k = k + 1;
    }
    assert(texts_of(out@) + clipped(all, k as int, left as int) =~= texts_of(out@));
    out
}

} // verus!
