//! How layouts, lines of words, files and JSON are written and read.
use vstd::prelude::*;
use vstd::utf8::encode_utf8;

use crate::arrange::{apart_by, edge_dir, length_of};
use crate::config::{line_end, lines_of, without_cr};
use crate::json::{entry_text, json_char, json_string, object_text, Entry, Leaf};
use crate::layout::{PaneId, Rect, Tree};
use crate::layout_text::{bounds, checksum, dumped, has_checksum, hex4, hex_value, hull, layout_read};
use crate::text::{decimal, is_white, trim};
use crate::window::{rect_in, WindowState};
use crate::words::{ahead_of, escaped, quoted, words_in};

verus! {

/// A pane in a layout's text: its width, `x` and height, its column and row,
/// and its number, with commas between.
pub proof fn lemma_pane_written(id: PaneId, r: Rect)
    ensures
        dumped(Tree::Leaf(id), seq![(id, r)]) == decimal(r.w as nat) + seq!['x'] + decimal(r.h as nat) + seq![','] + decimal(
            r.x as nat,
        ) + seq![','] + decimal(r.y as nat) + seq![','] + decimal(id as nat),
{
    let rects = seq![(id, r)];
    assert(rects[0] == (id, r));
    assert(bounds(Tree::Leaf(id), rects) == r);
    assert(dumped(Tree::Leaf(id), rects) =~= decimal(r.w as nat) + seq!['x'] + decimal(r.h as nat) + seq![','] + decimal(
        r.x as nat,
    ) + seq![','] + decimal(r.y as nat) + (seq![','] + decimal(id as nat)));
    assert(dumped(Tree::Leaf(id), rects) =~= decimal(r.w as nat) + seq!['x'] + decimal(r.h as nat) + seq![','] + decimal(
        r.x as nat,
    ) + seq![','] + decimal(r.y as nat) + seq![','] + decimal(id as nat));
}

/// Cells side by side stand in braces, cells one above the other in brackets,
/// with commas between.
pub proof fn lemma_row_written(a: Tree, b: Tree, horizontal: bool, sizes: Seq<int>, rects: Seq<(PaneId, Rect)>)
    ensures
        ({
            let t = Tree::Split { horizontal, children: seq![a, b], sizes };
            let r = bounds(t, rects);
            let head = decimal(r.w as nat) + seq!['x'] + decimal(r.h as nat) + seq![','] + decimal(r.x as nat) + seq![',']
                + decimal(r.y as nat);
            dumped(t, rects) == if horizontal {
                head + seq!['{'] + dumped(a, rects) + seq![','] + dumped(b, rects) + seq!['}']
            } else {
                head + seq!['['] + dumped(a, rects) + seq![','] + dumped(b, rects) + seq![']']
            }
        }),
{
    let children = seq![a, b];
    let t = Tree::Split { horizontal, children, sizes };
    let r = bounds(t, rects);
    let head = decimal(r.w as nat) + seq!['x'] + decimal(r.h as nat) + seq![','] + decimal(r.x as nat) + seq![',']
        + decimal(r.y as nat);
    let two = crate::layout_text::dumped_from(children, rects, 2);
    let one = crate::layout_text::dumped_from(children, rects, 1);
    let all = crate::layout_text::dumped_from(children, rects, 0);
    assert(children[0] == a && children[1] == b);
    assert(two =~= Seq::<char>::empty());
    assert(one =~= seq![','] + dumped(b, rects));
    assert(all =~= dumped(a, rects) + one);
    if horizontal {
        assert(dumped(t, rects) =~= head + (seq!['{'] + all + seq!['}']));
        assert(dumped(t, rects) =~= head + seq!['{'] + dumped(a, rects) + seq![','] + dumped(b, rects) + seq!['}']);
    } else {
        assert(dumped(t, rects) =~= head + (seq!['['] + all + seq![']']));
        assert(dumped(t, rects) =~= head + seq!['['] + dumped(a, rects) + seq![','] + dumped(b, rects) + seq![']']);
    }
}

/// A layout's checksum: sixteen bits, turned right by one before each byte is
/// added.
pub proof fn lemma_layout_checksum(b: Seq<u8>, x: u8)
    ensures
        checksum(Seq::empty()) == 0,
        0 <= checksum(b) < 65536,
        checksum(b) % 2 == 0 ==> checksum(b.push(x)) == (checksum(b) / 2 + x) % 65536,
        checksum(b) % 2 == 1 ==> checksum(b.push(x)) == (checksum(b) / 2 + 32768 + x) % 65536,
{
    assert(b.push(x).drop_last() =~= b);
}

/// The digits of the checksum are those of its number.
pub proof fn lemma_checksum_digits(n: int)
    requires
        0 <= n < 65536,
    ensures
        hex4(n).len() == 4,
        hex_value(hex4(n)[0]) * 4096 + hex_value(hex4(n)[1]) * 256 + hex_value(hex4(n)[2]) * 16 + hex_value(hex4(n)[3]) == n,
{
    let (a, b, c, d) = (n / 4096 % 16, n / 256 % 16, n / 16 % 16, n % 16);
    lemma_hex_digit(a);
    lemma_hex_digit(b);
    lemma_hex_digit(c);
    lemma_hex_digit(d);
    assert(a * 4096 + b * 256 + c * 16 + d == n);
}

proof fn lemma_hex_digit(d: int)
    requires
        0 <= d < 16,
    ensures
        hex_value(crate::layout_text::hex_char(d)) == d,
{
    reveal(crate::layout_text::hex_char);
    reveal(hex_value);
    let c = crate::layout_text::hex_char(d);
    if d < 10 {
        assert(c == crate::text::digit_char(d as nat));
        assert(crate::text::is_digit(c) && c as u32 - '0' as u32 == d);
    } else {
        assert(!crate::text::is_digit(c) && c as u32 - 'a' as u32 + 10 == d);
    }
}

/// A layout whose checksum does not fit is refused.
pub proof fn lemma_wrong_checksum(text: Seq<char>)
    requires
        has_checksum(trim(text)),
    ensures
        ({
            let s = trim(text);
            let said = hex_value(s[0]) * 4096 + hex_value(s[1]) * 256 + hex_value(s[2]) * 16 + hex_value(s[3]);
            said != checksum(encode_utf8(s.skip(5))) ==> layout_read(text) is Err
        }),
{
}

/// The hull of two rectangles holds both, and no smaller one does.
pub proof fn lemma_hull(a: Rect, b: Rect)
    requires
        a.x + a.w <= u16::MAX && a.y + a.h <= u16::MAX && b.x + b.w <= u16::MAX && b.y + b.h <= u16::MAX,
    ensures
        ({
            let r = hull(a, b);
            &&& r.x <= a.x && r.x <= b.x && (r.x == a.x || r.x == b.x)
            &&& r.y <= a.y && r.y <= b.y && (r.y == a.y || r.y == b.y)
            &&& r.x + r.w >= a.x + a.w && r.x + r.w >= b.x + b.w && (r.x + r.w == a.x + a.w || r.x + r.w == b.x + b.w)
            &&& r.y + r.h >= a.y + a.h && r.y + r.h >= b.y + b.h && (r.y + r.h == a.y + a.h || r.y + r.h == b.y + b.h)
        }),
{
}

proof fn lemma_bare_run(w: Seq<char>, rest: Seq<char>, so_far: Seq<char>)
    requires
        w.len() > 0,
        forall|i: int| 0 <= i < w.len() ==> #[trigger] w[i] != ' ' && w[i] != '"',
    ensures
        words_in(w + seq![' '] + rest, Some(so_far), false) == ahead_of(seq![so_far + w], words_in(rest, None, false)),
    decreases w.len(),
{
    let s = w + seq![' '] + rest;
    assert(s[0] == w[0]);
    let next = so_far.push(w[0]);
    if w.len() == 1 {
        assert(s.skip(1) =~= seq![' '] + rest);
        assert((seq![' '] + rest).skip(1) =~= rest);
        assert((seq![' '] + rest)[0] == ' ');
        assert(next =~= so_far + w);
        assert(words_in(s.skip(1), Some(next), false) == ahead_of(seq![next], words_in(rest, None, false)));
    } else {
        assert(s.skip(1) =~= w.skip(1) + seq![' '] + rest);
        lemma_bare_run(w.skip(1), rest, next);
        assert(next + w.skip(1) =~= so_far + w);
    }
}

/// Words are parted by blanks: one without quotes is read as it stands.
pub proof fn lemma_bare_word(w: Seq<char>, rest: Seq<char>)
    requires
        w.len() > 0,
        forall|i: int| 0 <= i < w.len() ==> #[trigger] w[i] != ' ' && w[i] != '"',
    ensures
        words_in(w + seq![' '] + rest, None, false) == ahead_of(seq![w], words_in(rest, None, false)),
        words_in(seq![' '] + rest, None, false) == words_in(rest, None, false),
{
    let s = w + seq![' '] + rest;
    let none = Seq::<char>::empty();
    assert(s[0] == w[0]);
    assert((seq![' '] + rest).skip(1) =~= rest);
    assert((seq![' '] + rest)[0] == ' ');
    if w.len() == 1 {
        assert(s.skip(1) =~= seq![' '] + rest);
        assert(none.push(w[0]) =~= w);
        assert(words_in(s.skip(1), Some(none.push(w[0])), false) == ahead_of(seq![w], words_in(rest, None, false)));
    } else {
        assert(s.skip(1) =~= w.skip(1) + seq![' '] + rest);
        lemma_bare_run(w.skip(1), rest, none.push(w[0]));
        assert(none.push(w[0]) + w.skip(1) =~= w);
    }
}

proof fn lemma_quoted_run(w: Seq<char>, rest: Seq<char>, so_far: Seq<char>)
    requires
        forall|i: int| 0 <= i < w.len() ==> #[trigger] w[i] != '"' && w[i] != '\\',
    ensures
        words_in(w + seq!['"', ' '] + rest, Some(so_far), true) == ahead_of(seq![so_far + w], words_in(rest, None, false)),
    decreases w.len(),
{
    let s = w + seq!['"', ' '] + rest;
    if w.len() == 0 {
        assert(s[0] == '"');
        assert(s.skip(1) =~= seq![' '] + rest);
        assert((seq![' '] + rest).skip(1) =~= rest);
        assert((seq![' '] + rest)[0] == ' ');
        assert(so_far + w =~= so_far);
        assert(words_in(s.skip(1), Some(so_far), false) == ahead_of(seq![so_far], words_in(rest, None, false)));
    } else {
        assert(s[0] == w[0]);
        assert(s.skip(1) =~= w.skip(1) + seq!['"', ' '] + rest);
        lemma_quoted_run(w.skip(1), rest, so_far.push(w[0]));
        assert(so_far.push(w[0]) + w.skip(1) =~= so_far + w);
    }
}

/// A word in quotes may hold blanks, and may be empty; a quote that is not
/// closed makes no words.
pub proof fn lemma_quoted_word(w: Seq<char>, rest: Seq<char>)
    requires
        forall|i: int| 0 <= i < w.len() ==> #[trigger] w[i] != '"' && w[i] != '\\',
    ensures
        words_in(seq!['"'] + w + seq!['"', ' '] + rest, None, false) == ahead_of(seq![w], words_in(rest, None, false)),
        words_in(seq!['"'] + w, None, false) is None,
{
    let s = seq!['"'] + w + seq!['"', ' '] + rest;
    assert(s[0] == '"');
    assert(s.skip(1) =~= w + seq!['"', ' '] + rest);
    lemma_quoted_run(w, rest, Seq::empty());
    assert(Seq::<char>::empty() + w =~= w);
    let open = seq!['"'] + w;
    assert(open[0] == '"');
    assert(open.skip(1) =~= w);
    lemma_unclosed(w, Seq::empty());
}

proof fn lemma_unclosed(w: Seq<char>, so_far: Seq<char>)
    requires
        forall|i: int| 0 <= i < w.len() ==> #[trigger] w[i] != '"' && w[i] != '\\',
    ensures
        words_in(w, Some(so_far), true) is None,
    decreases w.len(),
{
    if w.len() > 0 {
        lemma_unclosed(w.skip(1), so_far.push(w[0]));
    }
}

/// A quote or backslash within quotes is written with a backslash before it,
/// which is left out when it is read.
pub proof fn lemma_escapes(c: char, rest: Seq<char>, so_far: Seq<char>)
    ensures
        words_in(seq!['\\', c] + rest, Some(so_far), true) == words_in(rest, Some(so_far.push(c)), true),
        c == '"' || c == '\\' ==> escaped(seq![c] + rest) == seq!['\\', c] + escaped(rest),
        c != '"' && c != '\\' ==> escaped(seq![c] + rest) == seq![c] + escaped(rest),
        quoted(Seq::empty()) == seq!['"', '"'],
{
    let s = seq!['\\', c] + rest;
    assert(s[0] == '\\' && s[1] == c);
    assert(s.skip(2) =~= rest);
    assert((seq![c] + rest).skip(1) =~= rest);
    assert((seq![c] + rest)[0] == c);
    assert(escaped(Seq::<char>::empty()) =~= Seq::<char>::empty());
    assert(quoted(Seq::empty()) =~= seq!['"', '"']);
}

proof fn lemma_line_end_at(s: Seq<char>, i: int, e: int)
    requires
        0 <= i <= e <= s.len(),
        e == s.len() || s[e] == '\n',
        forall|j: int| i <= j < e ==> #[trigger] s[j] != '\n',
    ensures
        line_end(s, i) == e,
    decreases e - i,
{
    if i < e {
        lemma_line_end_at(s, i + 1, e);
    }
}

proof fn lemma_line_end_found(s: Seq<char>, i: int)
    requires
        0 <= i <= s.len(),
    ensures
        i <= line_end(s, i) <= s.len(),
        line_end(s, i) == s.len() || s[line_end(s, i)] == '\n',
        forall|j: int| i <= j < line_end(s, i) ==> #[trigger] s[j] != '\n',
    decreases s.len() - i,
{
    if i < s.len() && s[i] != '\n' {
        lemma_line_end_found(s, i + 1);
    }
}

proof fn lemma_lines_behind(a: Seq<char>, b: Seq<char>, i: int)
    requires
        0 <= i <= b.len(),
    ensures
        lines_of(a + b, a.len() + i) == lines_of(b, i),
    decreases b.len() - i,
{
    let s = a + b;
    lemma_line_end_found(b, i);
    let e = line_end(b, i);
    assert forall|j: int| a.len() + i <= j < a.len() + e implies #[trigger] s[j] != '\n' by {
        assert(s[j] == b[j - a.len()]);
    }
    if e < b.len() {
        assert(s[a.len() + e] == b[e]);
    }
    lemma_line_end_at(s, a.len() + i, a.len() + e);
    assert(s.subrange(a.len() + i, a.len() + e) =~= b.subrange(i, e));
    if i < b.len() && e < b.len() {
        lemma_lines_behind(a, b, e + 1);
    }
}

/// The lines of a text end at its line feeds, which are not part of them, nor
/// is the return before one; a last line needs none.
pub proof fn lemma_lines(a: Seq<char>, rest: Seq<char>)
    requires
        !a.contains('\n'),
    ensures
        lines_of(a + seq!['\n'] + rest, 0) == seq![without_cr(a)] + lines_of(rest, 0),
        a.len() > 0 ==> lines_of(a, 0) == seq![a],
        lines_of(Seq::empty(), 0).len() == 0,
        without_cr(a.push('\r')) == a,
        a.len() > 0 && a.last() != '\r' ==> without_cr(a) == a,
{
    let s = a + seq!['\n'] + rest;
    let n = a.len() as int;
    assert forall|j: int| 0 <= j < n implies #[trigger] a[j] != '\n' by {
        assert(a.contains(a[j]));
    }
    assert forall|j: int| 0 <= j < n implies #[trigger] s[j] != '\n' by {
        assert(s[j] == a[j]);
    }
    assert(s[n] == '\n');
    lemma_line_end_at(s, 0, n);
    assert(s.subrange(0, n) =~= a);
    lemma_lines_behind(a + seq!['\n'], rest, 0);
    lemma_line_end_at(a, 0, n);
    assert(a.subrange(0, n) =~= a);
    assert(a.push('\r').drop_last() =~= a);
}

/// The characters of a JSON string: quotes and backslashes have a backslash
/// before them, the usual control characters their letters, and what is not
/// below a blank stands for itself.
pub proof fn lemma_json_escapes(c: char)
    ensures
        json_char('"') == seq!['\\', '"'],
        json_char('\\') == seq!['\\', '\\'],
        json_char('\n') == seq!['\\', 'n'],
        json_char('\r') == seq!['\\', 'r'],
        json_char('\t') == seq!['\\', 't'],
        json_char('\u{8}') == seq!['\\', 'b'],
        json_char('\u{c}') == seq!['\\', 'f'],
        ' ' > c && c != '\n' && c != '\r' && c != '\t' && c != '\u{8}' && c != '\u{c}' ==> {
            let t = json_char(c);
            &&& t.len() == 6 && t[0] == '\\' && t[1] == 'u' && t[2] == '0' && t[3] == '0'
            &&& 16 * hex_value(t[4]) + hex_value(t[5]) == c as int
        },
        c >= ' ' && c != '"' && c != '\\' ==> json_char(c) == seq![c],
{
    if ' ' > c {
        lemma_hex_digit(c as u32 as int / 16);
        lemma_hex_digit(c as u32 as int % 16);
    }
}

/// An object is written with its names and values in braces.
pub proof fn lemma_json_object(name: Seq<char>, v: Seq<char>, n: u64)
    ensures
        object_text(seq![(name, Entry::Leaf(Leaf::Text(v)))]) == seq!['{'] + json_string(name) + seq![':'] + json_string(v)
            + seq!['}'],
        object_text(seq![(name, Entry::Leaf(Leaf::Number(n)))]) == seq!['{'] + json_string(name) + seq![':'] + decimal(
            n as nat,
        ) + seq!['}'],
        entry_text(Entry::Leaf(Leaf::Flag(true))) == seq!['t', 'r', 'u', 'e'],
        entry_text(Entry::Leaf(Leaf::Flag(false))) == seq!['f', 'a', 'l', 's', 'e'],
{
    reveal_strlit("{");
    reveal_strlit("}");
    reveal_strlit(":");
    reveal_strlit("");
    reveal_strlit("true");
    reveal_strlit("false");
    assert("true"@ =~= seq!['t', 'r', 'u', 'e'] && "false"@ =~= seq!['f', 'a', 'l', 's', 'e']);
    lemma_json_single(name, Entry::Leaf(Leaf::Text(v)));
    lemma_json_single(name, Entry::Leaf(Leaf::Number(n)));
}

proof fn lemma_json_single(name: Seq<char>, e: Entry)
    ensures
        object_text(seq![(name, e)]) == seq!['{'] + json_string(name) + seq![':'] + entry_text(e) + seq!['}'],
{
    reveal_strlit("{");
    reveal_strlit("}");
    reveal_strlit(":");
    reveal_strlit("");
    let es = seq![(name, e)];
    assert(es[0] == (name, e));
    assert(crate::json::entries_text(es, 0) =~= Seq::<char>::empty());
    assert(crate::json::entries_text(es, 1) =~= json_string(name) + seq![':'] + entry_text(e));
    assert(object_text(es) =~= seq!['{'] + json_string(name) + seq![':'] + entry_text(e) + seq!['}']);
}

/// Blanks among the ASCII characters.
pub proof fn lemma_blanks(c: char)
    requires
        c <= '\u{7f}',
    ensures
        is_white(c) <==> c == ' ' || c == '\t' || c == '\n' || c == '\u{b}' || c == '\u{c}' || c == '\r',
{
}

/// A pane that is to be longer has its right or lower border moved away, one
/// that is to be shorter towards it, and one that is as long as it should be
/// is left alone.
pub proof fn lemma_stretch_begins(w: WindowState, area: Rect, border: Option<bool>, id: PaneId, want: int, n: nat, r: Rect)
    requires
        n > 0,
        rect_in(w.laid_out(area, border).rects, id, 0) == Some(r),
    ensures
        want == r.w ==> w.stretched(area, border, id, true, want, false, n) == w.laid_out(area, border),
        want == r.h ==> w.stretched(area, border, id, false, want, false, n) == w.laid_out(area, border),
        edge_dir(true, true) is Right && edge_dir(true, false) is Left,
        edge_dir(false, true) is Down && edge_dir(false, false) is Up,
        length_of(w.laid_out(area, border), id, true) == Some(r.w as int),
        length_of(w.laid_out(area, border), id, false) == Some(r.h as int),
{
}

/// A step that brings a pane nearer to the length asked for is kept, and the
/// next is made from there.
pub proof fn lemma_stretch_goes_on(
    w: WindowState,
    area: Rect,
    border: Option<bool>,
    id: PaneId,
    want: int,
    n: nat,
    was: Rect,
    is: Rect,
)
    requires
        n > 0,
        rect_in(w.laid_out(area, border).rects, id, 0) == Some(was),
        was.w < want,
        rect_in(
            w.laid_out(area, border).nudged(id, crate::command::Dir::Right, 1).laid_out(area, border).rects,
            id,
            0,
        ) == Some(is),
        was.w < is.w <= want,
    ensures
        w.stretched(area, border, id, true, want, false, n) == w.laid_out(area, border).nudged(
            id,
            crate::command::Dir::Right,
            1,
        ).laid_out(area, border).stretched(area, border, id, true, want, false, (n - 1) as nat),
        apart_by(is.w as int, want) < apart_by(was.w as int, want),
{
}

} // verus!
