//! Layouts as text: the strings of tmux's `#{window_layout}`, which its
//! `select-layout` takes back.
use vstd::prelude::*;
use vstd::utf8::encode_utf8;
use crate::layout::{lemma_split_view, lemma_trees, shape, trees, Node, PaneId, Rect, Tree};
use crate::fit::ints;
use crate::text::{
    chars_of, decimal, digits_end, is_digit, lemma_decimal, lemma_digits_end, lemma_stands_concat, numeral, part_of,
    push_decimal, stands_at, string_of, trim, trim_end, trim_start, trimmed,
};

verus! {

/// tmux's checksum over the bytes of a layout string: turned one bit to the
/// right before each byte is added, in sixteen bits.
pub open spec fn checksum(bytes: Seq<u8>) -> int
    decreases bytes.len(),
{
    if bytes.len() == 0 {
        0
    } else {
        let c = checksum(bytes.drop_last());
        (c / 2 + (c % 2) * 32768 + bytes.last()) % 65536
    }
}

/// tmux's checksum over a layout string (the four hex digits in front).
pub fn layout_checksum(s: &str) -> (sum: u16)
    ensures
        sum == checksum(encode_utf8(s@)),
{
    let bytes = s.as_bytes();
    let mut sum: u16 = 0;
    let mut i: usize = 0;
    while i < bytes.len()
        invariant
            i <= bytes@.len(),
            sum == checksum(bytes@.take(i as int)),
        decreases bytes.len() - i,
    {
        assert(bytes@.take(i + 1).drop_last() =~= bytes@.take(i as int));
        let turned: u16 = sum / 2 + (sum % 2) * 32768;
        sum = turned.wrapping_add(bytes[i] as u16);
        i = i + 1;
    }
    assert(bytes@.take(i as int) =~= bytes@);
    sum
}

/// The box around two rectangles.
pub open spec fn hull(a: Rect, b: Rect) -> Rect {
    let x = if a.x < b.x { a.x } else { b.x };
    let y = if a.y < b.y { a.y } else { b.y };
    let x2 = if a.x + a.w > b.x + b.w { a.x + a.w } else { b.x + b.w };
    let y2 = if a.y + a.h > b.y + b.h { a.y + a.h } else { b.y + b.h };
    Rect { x, y, w: (x2 - x) as u16, h: (y2 - y) as u16 }
}

/// The rectangle of pane `id`; an empty one at the origin when it has none.
pub open spec fn rect_of(rects: Seq<(PaneId, Rect)>, id: PaneId) -> Rect
    decreases rects.len(),
{
    if rects.len() == 0 {
        Rect { x: 0, y: 0, w: 0, h: 0 }
    } else if rects[0].0 == id {
        rects[0].1
    } else {
        rect_of(rects.skip(1), id)
    }
}

/// The rectangle of a cell: its pane's, or the box around its children.
pub open spec fn bounds(t: Tree, rects: Seq<(PaneId, Rect)>) -> Rect
    decreases t,
{
    match t {
        Tree::Leaf(id) => rect_of(rects, id),
        Tree::Split { children, .. } => bounds_upto(children, rects, children.len()),
    }
}

pub open spec fn bounds_upto(children: Seq<Tree>, rects: Seq<(PaneId, Rect)>, k: nat) -> Rect
    decreases children, k,
{
    if k == 0 || k > children.len() {
        Rect { x: 0, y: 0, w: 0, h: 0 }
    } else if k == 1 {
        bounds(children[0], rects)
    } else {
        hull(bounds_upto(children, rects, (k - 1) as nat), bounds(children[k - 1], rects))
    }
}

/// `WxH,X,Y` of a cell.
pub open spec fn dims(r: Rect) -> Seq<char> {
    decimal(r.w as nat) + seq!['x'] + decimal(r.h as nat) + seq![','] + decimal(r.x as nat) + seq![','] + decimal(
        r.y as nat,
    )
}

/// The text of a cell: its dimensions, then a pane's number or the cells of
/// a split.
pub open spec fn dumped(t: Tree, rects: Seq<(PaneId, Rect)>) -> Seq<char>
    decreases t, 0nat,
{
    dims(bounds(t, rects)) + match t {
        Tree::Leaf(id) => seq![','] + decimal(id as nat),
        Tree::Split { horizontal, children, .. } => seq![open_of(horizontal)] + dumped_from(children, rects, 0)
            + seq![close_of(horizontal)],
    }
}

/// The text of the cells of a split from `k` on.
pub open spec fn dumped_from(children: Seq<Tree>, rects: Seq<(PaneId, Rect)>, k: int) -> Seq<char>
    decreases children, children.len() - k,
{
    if k < 0 || k >= children.len() {
        Seq::empty()
    } else {
        (if k > 0 {
            seq![',']
        } else {
            Seq::empty()
        }) + dumped(children[k], rects) + dumped_from(children, rects, k + 1)
    }
}

pub open spec fn open_of(horizontal: bool) -> char {
    if horizontal {
        '{'
    } else {
        '['
    }
}

pub open spec fn close_of(horizontal: bool) -> char {
    if horizontal {
        '}'
    } else {
        ']'
    }
}

/// A hexadecimal digit.
#[verifier::opaque]
pub open spec fn hex_char(d: int) -> char {
    if d == 10 {
        'a'
    } else if d == 11 {
        'b'
    } else if d == 12 {
        'c'
    } else if d == 13 {
        'd'
    } else if d == 14 {
        'e'
    } else if d == 15 {
        'f'
    } else {
        crate::text::digit_char(d as nat)
    }
}

/// Four hexadecimal digits.
pub open spec fn hex4(n: int) -> Seq<char> {
    seq![hex_char(n / 4096 % 16), hex_char(n / 256 % 16), hex_char(n / 16 % 16), hex_char(n % 16)]
}

/// The whole layout string.
pub open spec fn layout_text(t: Tree, rects: Seq<(PaneId, Rect)>) -> Seq<char> {
    hex4(checksum(encode_utf8(dumped(t, rects)))) + seq![','] + dumped(t, rects)
}

pub open spec fn rects_fit(rects: Seq<(PaneId, Rect)>) -> bool {
    forall|i: int| 0 <= i < rects.len() ==> (#[trigger] rects[i]).1.fits()
}

proof fn lemma_rect_of_fits(rects: Seq<(PaneId, Rect)>, id: PaneId)
    requires
        rects_fit(rects),
    ensures
        rect_of(rects, id).fits(),
    decreases rects.len(),
{
    if rects.len() > 0 && rects[0].0 != id {
        assert forall|i: int| 0 <= i < rects.skip(1).len() implies (#[trigger] rects.skip(1)[i]).1.fits() by {
            assert(rects.skip(1)[i] == rects[i + 1]);
        }
        lemma_rect_of_fits(rects.skip(1), id);
    }
}

proof fn lemma_bounds_fit(t: Tree, rects: Seq<(PaneId, Rect)>)
    requires
        rects_fit(rects),
    ensures
        bounds(t, rects).fits(),
    decreases t, 1nat, 0nat,
{
    match t {
        Tree::Leaf(id) => lemma_rect_of_fits(rects, id),
        Tree::Split { children, .. } => lemma_bounds_upto_fit(t, rects, children.len()),
    }
}

proof fn lemma_bounds_upto_fit(t: Tree, rects: Seq<(PaneId, Rect)>, k: nat)
    requires
        rects_fit(rects),
        t is Split,
        k <= t->children.len(),
    ensures
        bounds_upto(t->children, rects, k).fits(),
    decreases t, 0nat, k,
{
    if k > 0 {
        lemma_bounds_fit(t->children[k - 1], rects);
        lemma_bounds_upto_fit(t, rects, (k - 1) as nat);
        if k == 1 {
            lemma_bounds_fit(t->children[0], rects);
        }
    }
}

fn find_rect(rects: &[(PaneId, Rect)], id: PaneId) -> (r: Rect)
    ensures
        r == rect_of(rects@, id),
{
    let mut i: usize = 0;
    assert(rects@.skip(0) =~= rects@);
    while i < rects.len()
        invariant
            i <= rects@.len(),
            rect_of(rects@, id) == rect_of(rects@.skip(i as int), id),
        decreases rects.len() - i,
    {
        assert(rects@.skip(i as int)[0] == rects@[i as int]);
        if rects[i].0 == id {
            return rects[i].1;
        }
        assert(rects@.skip(i as int).skip(1) =~= rects@.skip(i + 1));
        i = i + 1;
    }
    Rect { x: 0, y: 0, w: 0, h: 0 }
}

fn hull_of(a: Rect, b: Rect) -> (r: Rect)
    requires
        a.fits(),
        b.fits(),
    ensures
        r == hull(a, b),
{
    let x: u16 = if a.x < b.x { a.x } else { b.x };
    let y: u16 = if a.y < b.y { a.y } else { b.y };
    let x2: u16 = if a.x + a.w > b.x + b.w { a.x + a.w } else { b.x + b.w };
    let y2: u16 = if a.y + a.h > b.y + b.h { a.y + a.h } else { b.y + b.h };
    Rect { x, y, w: x2 - x, h: y2 - y }
}

fn bounds_of(node: &Node, rects: &[(PaneId, Rect)]) -> (r: Rect)
    requires
        rects_fit(rects@),
    ensures
        r == bounds(node@, rects@),
        r.fits(),
    decreases node,
{
    let ghost t = node@;
    proof {
        lemma_bounds_fit(t, rects@);
    }
    match node {
        Node::Leaf(id) => find_rect(rects, *id),
        Node::Split { horizontal, children, sizes } => {
            proof {
                lemma_split_view(*horizontal, *children, *sizes);
            }
            let ghost all = trees(children@);
            let mut r = Rect { x: 0, y: 0, w: 0, h: 0 };
            let mut i: usize = 0;
            while i < children.len()
                invariant
                    i <= children@.len(),
                    all == trees(children@),
                    rects_fit(rects@),
                    r.fits(),
                    r == bounds_upto(all, rects@, i as nat),
                    decreases_to!(node => children),
                decreases children.len() - i,
            {
                assert(all[i as int] == children@[i as int]@);
                let b = bounds_of(&children[i], rects);
                r = if i == 0 { b } else { hull_of(r, b) };
                i = i + 1;
            }
            r
        },
    }
}

fn push_dims(out: &mut String, r: Rect)
    ensures
        final(out)@ == old(out)@ + dims(r),
{
    push_decimal(out, r.w as u64);
    out.push('x');
    push_decimal(out, r.h as u64);
    out.push(',');
    push_decimal(out, r.x as u64);
    out.push(',');
    push_decimal(out, r.y as u64);
    assert(out@ =~= old(out)@ + dims(r));
}

fn dump(node: &Node, rects: &[(PaneId, Rect)], out: &mut String)
    requires
        rects_fit(rects@),
    ensures
        final(out)@ == old(out)@ + dumped(node@, rects@),
    decreases node,
{
    let ghost start = out@;
    let ghost t = node@;
    push_dims(out, bounds_of(node, rects));
    match node {
        Node::Leaf(id) => {
            out.push(',');
            push_decimal(out, *id as u64);
            assert(out@ =~= start + dumped(t, rects@));
        },
        Node::Split { horizontal, children, sizes } => {
            proof {
                lemma_split_view(*horizontal, *children, *sizes);
            }
            let ghost all = trees(children@);
            let ghost whole = start + dims(bounds(t, rects@)) + seq![open_of(*horizontal)] + dumped_from(all, rects@, 0);
            out.push(if *horizontal { '{' } else { '[' });
            let mut i: usize = 0;
            assert(out@ + dumped_from(all, rects@, 0) =~= whole);
            while i < children.len()
                invariant
                    i <= children@.len(),
                    all == trees(children@),
                    rects_fit(rects@),
                    out@ + dumped_from(all, rects@, i as int) == whole,
                    decreases_to!(node => children),
                decreases children.len() - i,
            {
                assert(all[i as int] == children@[i as int]@);
                let ghost before = out@;
                if i > 0 {
                    out.push(',');
                }
                dump(&children[i], rects, out);
                assert(out@ + dumped_from(all, rects@, i + 1) =~= before + dumped_from(all, rects@, i as int));
                i = i + 1;
            }
            assert(out@ =~= whole);
            out.push(if *horizontal { '}' } else { ']' });
            assert(out@ =~= start + dumped(t, rects@));
        },
    }
}

fn push_hex(out: &mut String, d: u16)
    requires
        d < 16,
    ensures
        final(out)@ == old(out)@.push(hex_char(d as int)),
{
    proof {
        reveal(hex_char);
    }
    let c: char = match d {
        0 => '0',
        1 => '1',
        2 => '2',
        3 => '3',
        4 => '4',
        5 => '5',
        6 => '6',
        7 => '7',
        8 => '8',
        9 => '9',
        10 => 'a',
        11 => 'b',
        12 => 'c',
        13 => 'd',
        14 => 'e',
        _ => 'f',
    };
    out.push(c);
}

/// A tmux layout string for this tree: `csum,WxH,X,Y` per cell, a leaf
/// ending in `,paneid`, a left-to-right split in `{}` and a top-to-bottom
/// one in `[]`. `rects` are the panes' rectangles; a split's is the box
/// around its children. What tmux's `#{window_layout}` shows and its
/// `select-layout` takes back.
pub fn layout_string(node: &Node, rects: &[(PaneId, Rect)]) -> (out: String)
    requires
        rects_fit(rects@),
    ensures
        out@ == layout_text(node@, rects@),
{
    let mut body = String::new();
    dump(node, rects, &mut body);
    assert(body@ =~= dumped(node@, rects@));
    let sum: u16 = layout_checksum(body.as_str());
    let mut out = String::new();
    push_hex(&mut out, sum / 4096);
    push_hex(&mut out, sum / 256 % 16);
    push_hex(&mut out, sum / 16 % 16);
    push_hex(&mut out, sum % 16);
    out.push(',');
    out.push_str(body.as_str());
    assert(out@ =~= layout_text(node@, rects@));
    out
}


/// What is said of a place where something else was expected.
pub open spec fn fault_at(what: Seq<char>, i: int) -> Seq<char> {
    what + decimal(i as nat) + " in layout"@
}

pub open spec fn expected_char(c: char, i: int) -> Seq<char> {
    fault_at("expected '"@ + seq![c] + "' at "@, i)
}

pub open spec fn expected_next(close: char, i: int) -> Seq<char> {
    fault_at("expected ',' or '"@ + seq![close] + "' at "@, i)
}

/// The number at place `i` and the place after it.
pub open spec fn number_at(s: Seq<char>, i: int) -> Result<(int, int), Seq<char>> {
    let e = digits_end(s, i);
    let n = numeral(s.subrange(i, e)) as int;
    if e == i || n > u32::MAX {
        Err(fault_at("expected a number at "@, i))
    } else {
        Ok((n, e))
    }
}

/// The place after the character `c` at place `i`.
pub open spec fn char_at(s: Seq<char>, i: int, c: char) -> Result<int, Seq<char>> {
    if 0 <= i < s.len() && s[i] == c {
        Ok(i + 1)
    } else {
        Err(expected_char(c, i))
    }
}

/// A number and the character behind it.
pub open spec fn field_at(s: Seq<char>, i: int, c: char) -> Result<(int, int), Seq<char>> {
    match number_at(s, i) {
        Err(e) => Err(e),
        Ok((n, j)) => match char_at(s, j, c) {
            Err(e) => Err(e),
            Ok(k) => Ok((n, k)),
        },
    }
}

/// The `WxH,X,Y` at place `i`: width and height in sixteen bits, and the
/// place after it.
pub open spec fn dims_at(s: Seq<char>, i: int) -> Result<(int, int, int), Seq<char>> {
    match field_at(s, i, 'x') {
        Err(e) => Err(e),
        Ok((w, a)) => match field_at(s, a, ',') {
            Err(e) => Err(e),
            Ok((h, b)) => match field_at(s, b, ',') {
                Err(e) => Err(e),
                Ok((_, c)) => match number_at(s, c) {
                    Err(e) => Err(e),
                    Ok((_, d)) => Ok((w % 65536, h % 65536, d)),
                },
            },
        },
    }
}

/// A cell read: the tree under it, its size and the place after it.
pub ghost struct Cell {
    pub tree: Tree,
    pub w: int,
    pub h: int,
    pub next: int,
}

/// The cell at place `i`. No more than sixty-four splits may be around it.
pub open spec fn cell_at(s: Seq<char>, i: int, depth: int) -> Result<Cell, Seq<char>>
    decreases 66 - depth, 1int, 0int,
{
    if depth > 64 {
        Err("layout is nested too deep"@)
    } else {
        match dims_at(s, i) {
            Err(e) => Err(e),
            Ok((w, h, at)) => if 0 <= at < s.len() && s[at] == ',' {
                // The pane id, which is not ours to keep.
                match number_at(s, at + 1) {
                    Err(e) => Err(e),
                    Ok((_, next)) => Ok(Cell { tree: Tree::Leaf(0), w, h, next }),
                }
            } else if 0 <= at < s.len() && (s[at] == '{' || s[at] == '[') {
                let horizontal = s[at] == '{';
                match cells_at(s, at + 1, depth, horizontal, Seq::empty(), Seq::empty()) {
                    Err(e) => Err(e),
                    Ok((children, sizes, next)) => if children.len() < 2 {
                        Err("a split in the layout has fewer than two cells"@)
                    } else {
                        Ok(Cell { tree: Tree::Split { horizontal, children, sizes }, w, h, next })
                    },
                }
            } else {
                Err(fault_at("expected ',' '{' or '[' at "@, at))
            },
        }
    }
}

/// The cells of a split from place `i` on, after those already read.
pub open spec fn cells_at(
    s: Seq<char>,
    i: int,
    depth: int,
    horizontal: bool,
    kids: Seq<Tree>,
    sizes: Seq<int>,
) -> Result<(Seq<Tree>, Seq<int>, int), Seq<char>>
    decreases 66 - depth, 0int, s.len() - i,
{
    if depth > 64 {
        Err("layout is nested too deep"@)
    } else {
        match cell_at(s, i, depth + 1) {
            Err(e) => Err(e),
            Ok(c) => {
                let kids = kids.push(c.tree);
                let extent = if horizontal { c.w } else { c.h };
                let sizes = sizes.push(
                    if extent > 1 {
                        extent
                    } else {
                        1
                    },
                );
                if i <= c.next < s.len() && s[c.next] == ',' {
                    cells_at(s, c.next + 1, depth, horizontal, kids, sizes)
                } else if i <= c.next < s.len() && s[c.next] == close_of(horizontal) {
                    Ok((kids, sizes, c.next + 1))
                } else {
                    Err(expected_next(close_of(horizontal), c.next))
                }
            },
        }
    }
}

/// What the text of a layout, without a checksum, means.
pub open spec fn body_read(s: Seq<char>) -> Result<Tree, Seq<char>> {
    match cell_at(s, 0, 0) {
        Err(e) => Err(e),
        Ok(c) => if c.next != s.len() {
            Err(fault_at("trailing text at "@, c.next))
        } else {
            Ok(c.tree)
        },
    }
}

#[verifier::opaque]
pub open spec fn is_hex(c: char) -> bool {
    is_digit(c) || 'a' <= c <= 'f' || 'A' <= c <= 'F'
}

#[verifier::opaque]
pub open spec fn hex_value(c: char) -> int {
    if is_digit(c) {
        c as u32 - '0' as u32
    } else if 'a' <= c <= 'f' {
        c as u32 - 'a' as u32 + 10
    } else {
        c as u32 - 'A' as u32 + 10
    }
}

/// `s` begins with four hexadecimal digits and a comma.
pub open spec fn has_checksum(s: Seq<char>) -> bool {
    s.len() >= 5 && is_hex(s[0]) && is_hex(s[1]) && is_hex(s[2]) && is_hex(s[3]) && s[4] == ','
}

/// What a layout string means: its checksum, when there is one, must match.
pub open spec fn layout_read(text: Seq<char>) -> Result<Tree, Seq<char>> {
    let s = trim(text);
    if has_checksum(s) {
        let want = hex_value(s[0]) * 4096 + hex_value(s[1]) * 256 + hex_value(s[2]) * 16 + hex_value(s[3]);
        if checksum(encode_utf8(s.skip(5))) != want {
            Err("layout checksum does not match"@)
        } else {
            body_read(s.skip(5))
        }
    } else {
        body_read(s)
    }
}

proof fn lemma_digits_end_range(s: Seq<char>, i: int)
    requires
        0 <= i <= s.len(),
    ensures
        i <= digits_end(s, i) <= s.len(),
    decreases s.len() - i,
{
    if i < s.len() && is_digit(s[i]) {
        lemma_digits_end_range(s, i + 1);
    }
}

fn fault(what: &str, i: usize) -> (e: String)
    ensures
        e@ == fault_at(what@, i as int),
{
    let mut e = what.to_owned();
    push_decimal(&mut e, i as u64);
    e.push_str(" in layout");
    e
}

fn fault_char(head: &str, c: char, i: usize) -> (e: String)
    ensures
        e@ == fault_at(head@ + seq![c] + "' at "@, i as int),
{
    let mut e = head.to_owned();
    e.push(c);
    e.push_str("' at ");
    assert(e@ =~= head@ + seq![c] + "' at "@);
    push_decimal(&mut e, i as u64);
    e.push_str(" in layout");
    e
}

fn number(s: &Vec<char>, i: usize) -> (r: Result<(u32, usize), String>)
    requires
        i <= s@.len(),
    ensures
        match (r, number_at(s@, i as int)) {
            (Ok(a), Ok(b)) => a.0 == b.0 && a.1 == b.1 && i < a.1 <= s@.len(),
            (Err(a), Err(b)) => a@ == b,
            _ => false,
        },
{
    let ghost e = digits_end(s@, i as int);
    proof {
        lemma_digits_end_range(s@, i as int);
    }
    let mut n: u64 = 0;
    let mut big: bool = false;
    let mut k: usize = i;
    assert(s@.subrange(i as int, i as int) =~= Seq::<char>::empty());
    while k < s.len() && '0' <= s[k] && s[k] <= '9'
        invariant
            i <= k <= e <= s@.len(),
            e == digits_end(s@, i as int),
            digits_end(s@, k as int) == e,
            big == (numeral(s@.subrange(i as int, k as int)) > u32::MAX),
            !big ==> n == numeral(s@.subrange(i as int, k as int)),
            n <= u32::MAX,
        decreases s.len() - k,
    {
        let ghost part = s@.subrange(i as int, k + 1);
        assert(part.drop_last() =~= s@.subrange(i as int, k as int));
        assert(part.last() == s@[k as int]);
        let d: u64 = (s[k] as u32 - '0' as u32) as u64;
        let next: u64 = n * 10 + d;
        if big || next > u32::MAX as u64 {
            big = true;
        } else {
            n = next;
        }
        proof {
            lemma_digits_end_range(s@, k + 1);
        }
        k = k + 1;
    }
    assert(k == e);
    if k == i || big {
        Err(fault("expected a number at ", i))
    } else {
        Ok((n as u32, k))
    }
}

fn field(s: &Vec<char>, i: usize, c: char) -> (r: Result<(u32, usize), String>)
    requires
        i <= s@.len(),
    ensures
        match (r, field_at(s@, i as int, c)) {
            (Ok(a), Ok(b)) => a.0 == b.0 && a.1 == b.1 && i < a.1 <= s@.len(),
            (Err(a), Err(b)) => a@ == b,
            _ => false,
        },
{
    match number(s, i) {
        Err(e) => Err(e),
        Ok((n, j)) => if j < s.len() && s[j] == c {
            Ok((n, j + 1))
        } else {
            Err(fault_char("expected '", c, j))
        },
    }
}

fn read_dims(s: &Vec<char>, i: usize) -> (r: Result<(u16, u16, usize), String>)
    requires
        i <= s@.len(),
    ensures
        match (r, dims_at(s@, i as int)) {
            (Ok(a), Ok(b)) => a.0 == b.0 && a.1 == b.1 && a.2 == b.2 && i < a.2 <= s@.len(),
            (Err(a), Err(b)) => a@ == b,
            _ => false,
        },
{
    let (w, a) = match field(s, i, 'x') {
        Err(e) => return Err(e),
        Ok(v) => v,
    };
    let (h, b) = match field(s, a, ',') {
        Err(e) => return Err(e),
        Ok(v) => v,
    };
    let (_, c) = match field(s, b, ',') {
        Err(e) => return Err(e),
        Ok(v) => v,
    };
    let (_, d) = match number(s, c) {
        Err(e) => return Err(e),
        Ok(v) => v,
    };
    Ok(((w % 65536) as u16, (h % 65536) as u16, d))
}

/// One cell: its size and the tree under it.
fn cell(s: &Vec<char>, i: usize, depth: usize) -> (r: Result<(Node, u16, u16, usize), String>)
    requires
        i <= s@.len(),
        depth <= 65,
    ensures
        match (r, cell_at(s@, i as int, depth as int)) {
            (Ok(a), Ok(b)) => a.0@ == b.tree && a.1 == b.w && a.2 == b.h && a.3 == b.next && i < a.3 <= s@.len(),
            (Err(a), Err(b)) => a@ == b,
            _ => false,
        },
    decreases 66 - depth,
{
    if depth > 64 {
        return Err("layout is nested too deep".to_owned());
    }
    let (w, h, at) = match read_dims(s, i) {
        Err(e) => return Err(e),
        Ok(v) => v,
    };
    if at < s.len() && s[at] == ',' {
        return match number(s, at + 1) {
            Err(e) => Err(e),
            Ok((_, next)) => Ok((Node::Leaf(0), w, h, next)),
        };
    }
    if !(at < s.len() && (s[at] == '{' || s[at] == '[')) {
        return Err(fault("expected ',' '{' or '[' at ", at));
    }
    let horizontal: bool = s[at] == '{';
    let close: char = if horizontal { '}' } else { ']' };
    let ghost goal = cells_at(s@, at + 1, depth as int, horizontal, Seq::empty(), Seq::empty());
    let mut children: Vec<Node> = Vec::new();
    let mut sizes: Vec<u16> = Vec::new();
    let mut k: usize = at + 1;
    let next: usize;
    assert(trees(children@) =~= Seq::<Tree>::empty());
    assert(ints(sizes@) =~= Seq::<int>::empty());
    loop
        invariant_except_break
            i <= at < k <= s@.len(),
            depth <= 64,
            close == close_of(horizontal),
            children@.len() == sizes@.len(),
            cell_at(s@, i as int, depth as int) == (match goal {
                Err(e) => Err(e),
                Ok((c, z, next)) => if c.len() < 2 {
                    Err("a split in the layout has fewer than two cells"@)
                } else {
                    Ok(Cell { tree: Tree::Split { horizontal, children: c, sizes: z }, w: w as int, h: h as int, next })
                },
            }),
            goal == cells_at(s@, k as int, depth as int, horizontal, trees(children@), ints(sizes@)),
        ensures
            i < next <= s@.len(),
            cell_at(s@, i as int, depth as int) == (match goal {
                Err(e) => Err(e),
                Ok((c, z, next)) => if c.len() < 2 {
                    Err("a split in the layout has fewer than two cells"@)
                } else {
                    Ok(Cell { tree: Tree::Split { horizontal, children: c, sizes: z }, w: w as int, h: h as int, next })
                },
            }),
            goal == Ok::<(Seq<Tree>, Seq<int>, int), Seq<char>>((trees(children@), ints(sizes@), next as int)),
        decreases s.len() - k,
    {
        match cell(s, k, depth + 1) {
            Err(e) => {
                return Err(e);
            },
            Ok((child, cw, ch, j)) => {
                let extent: u16 = if horizontal { cw } else { ch };
                let size: u16 = if extent > 1 { extent } else { 1 };
                proof {
                    lemma_trees(children@, 0, child);
                    assert(ints(sizes@.push(size)) =~= ints(sizes@).push(size as int));
                }
                children.push(child);
                sizes.push(size);
                if j < s.len() && s[j] == ',' {
                    k = j + 1;
                } else if j < s.len() && s[j] == close {
                    next = j + 1;
                    break;
                } else {
                    return Err(fault_char("expected ',' or '", close, j));
                }
            },
        }
    }
    if children.len() < 2 {
        return Err("a split in the layout has fewer than two cells".to_owned());
    }
    proof {
        lemma_split_view(horizontal, children, sizes);
    }
    Ok((Node::Split { horizontal, children, sizes }, w, h, next))
}

fn read_body(s: &Vec<char>) -> (r: Result<Node, String>)
    ensures
        match (r, body_read(s@)) {
            (Ok(a), Ok(b)) => a@ == b,
            (Err(a), Err(b)) => a@ == b,
            _ => false,
        },
{
    match cell(s, 0, 0) {
        Err(e) => Err(e),
        Ok((node, _, _, next)) => if next != s.len() {
            Err(fault("trailing text at ", next))
        } else {
            Ok(node)
        },
    }
}

fn hex_digit(c: char) -> (d: Option<u16>)
    ensures
        d is Some <==> is_hex(c),
        d is Some ==> d->0 == hex_value(c) && d->0 < 16,
{
    proof {
        reveal(is_hex);
        reveal(hex_value);
    }
    if '0' <= c && c <= '9' {
        Some((c as u32 - '0' as u32) as u16)
    } else if 'a' <= c && c <= 'f' {
        Some((c as u32 - 'a' as u32 + 10) as u16)
    } else if 'A' <= c && c <= 'F' {
        Some((c as u32 - 'A' as u32 + 10) as u16)
    } else {
        None
    }
}

/// Read a tmux layout string back into a tree. The checksum, when there is
/// one, must match; the pane ids in it are ignored (the window's panes are
/// put in, in order) but their number must be the window's. Sizes are the
/// cells' widths or heights, which `layout` scales to whatever the window
/// is now.
pub fn parse_layout(s: &str) -> (r: Result<Node, String>)
    ensures
        match (r, layout_read(s@)) {
            (Ok(a), Ok(b)) => a@ == b && shape(b),
            (Err(a), Err(b)) => a@ == b,
            _ => false,
        },
{
    let text = trimmed(&chars_of(s));
    proof {
        lemma_read_shape(text@, 0, 0);
        if has_checksum(text@) {
            lemma_read_shape(text@.skip(5), 0, 0);
        }
    }
    if text.len() >= 5 && text[4] == ',' {
        if let Some(a) = hex_digit(text[0]) {
            if let Some(b) = hex_digit(text[1]) {
                if let Some(c) = hex_digit(text[2]) {
                    if let Some(d) = hex_digit(text[3]) {
                        let want: u16 = a * 4096 + b * 256 + c * 16 + d;
                        let rest = part_of(&text, 5, text.len());
                        assert(rest@ =~= text@.skip(5));
                        let body = string_of(&rest, 0, rest.len());
                        assert(body@ =~= rest@);
                        if layout_checksum(body.as_str()) != want {
                            return Err("layout checksum does not match".to_owned());
                        }
                        return read_body(&rest);
                    }
                }
            }
        }
    }
    read_body(&text)
}

/// What is read is a well-shaped tree.
proof fn lemma_read_shape(s: Seq<char>, i: int, depth: int)
    ensures
        cell_at(s, i, depth) is Ok ==> shape(cell_at(s, i, depth)->Ok_0.tree),
    decreases 66 - depth, 1int, 0int,
{
    if depth <= 64 {
        if let Ok((w, h, at)) = dims_at(s, i) {
            if 0 <= at < s.len() && (s[at] == '{' || s[at] == '[') {
                lemma_cells_shape(s, at + 1, depth, s[at] == '{', Seq::empty(), Seq::empty());
            }
        }
    }
}

proof fn lemma_cells_shape(
    s: Seq<char>,
    i: int,
    depth: int,
    horizontal: bool,
    kids: Seq<Tree>,
    sizes: Seq<int>,
)
    requires
        kids.len() == sizes.len(),
        forall|k: int| 0 <= k < kids.len() ==> shape(#[trigger] kids[k]),
        forall|k: int| 0 <= k < sizes.len() ==> 0 <= #[trigger] sizes[k],
    ensures
        match cells_at(s, i, depth, horizontal, kids, sizes) {
            Ok((c, z, _)) => c.len() == z.len() && (forall|k: int| 0 <= k < c.len() ==> shape(#[trigger] c[k])) && (
            forall|k: int| 0 <= k < z.len() ==> 0 <= #[trigger] z[k]),
            Err(_) => true,
        },
    decreases 66 - depth, 0int, s.len() - i,
{
    if depth <= 64 {
        lemma_read_shape(s, i, depth + 1);
        if let Ok(c) = cell_at(s, i, depth + 1) {
            let extent = if horizontal { c.w } else { c.h };
            let size = if extent > 1 { extent } else { 1 };
            if i <= c.next < s.len() && s[c.next] == ',' {
                lemma_cells_shape(s, c.next + 1, depth, horizontal, kids.push(c.tree), sizes.push(size));
            }
        }
    }
}


/// What a layout string says of `t`: the shape, and the cells' extents.
pub open spec fn skeleton(t: Tree, rects: Seq<(PaneId, Rect)>) -> Tree
    decreases t,
{
    match t {
        Tree::Leaf(_) => Tree::Leaf(0),
        Tree::Split { horizontal, children, .. } => Tree::Split {
            horizontal,
            children: Seq::new(
                children.len(),
                |i: int|
                    if 0 <= i < children.len() {
                        skeleton(children[i], rects)
                    } else {
                        Tree::Leaf(0)
                    },
            ),
            sizes: Seq::new(
                children.len(),
                |i: int|
                    if bounds(children[i], rects).extent(horizontal) > 1 {
                        bounds(children[i], rects).extent(horizontal)
                    } else {
                        1
                    },
            ),
        },
    }
}

/// Every split has two cells or more, and no pane is under more than `d`.
pub open spec fn nested_within(t: Tree, d: int) -> bool
    decreases t,
{
    d >= 0 && match t {
        Tree::Leaf(_) => true,
        Tree::Split { children, .. } => children.len() >= 2 && forall|i: int|
            0 <= i < children.len() ==> nested_within(#[trigger] children[i], d - 1),
    }
}

proof fn lemma_number_read(s: Seq<char>, i: int, n: nat)
    requires
        stands_at(s, i, decimal(n)),
        n <= u32::MAX,
        i + decimal(n).len() < s.len() ==> !is_digit(s[i + decimal(n).len()]),
    ensures
        number_at(s, i) == Ok::<(int, int), Seq<char>>((n as int, i + decimal(n).len())),
{
    let e = i + decimal(n).len();
    lemma_decimal(n);
    assert forall|j: int| i <= j < e implies is_digit(#[trigger] s[j]) by {
        assert(s[i + (j - i)] == decimal(n)[j - i]);
    }
    lemma_digits_end(s, i, e);
    assert(s.subrange(i, e) =~= decimal(n));
}

proof fn lemma_field_read(s: Seq<char>, i: int, n: nat, c: char)
    requires
        stands_at(s, i, decimal(n) + seq![c]),
        n <= u32::MAX,
        !is_digit(c),
    ensures
        field_at(s, i, c) == Ok::<(int, int), Seq<char>>((n as int, i + decimal(n).len() + 1)),
{
    lemma_stands_concat(s, i, decimal(n), seq![c]);
    assert(seq![c][0] == c);
    assert(s[i + decimal(n).len() + 0] == c);
    lemma_number_read(s, i, n);
}

proof fn lemma_dims_read(s: Seq<char>, i: int, r: Rect)
    requires
        stands_at(s, i, dims(r)),
        i + dims(r).len() < s.len() ==> !is_digit(s[i + dims(r).len()]),
    ensures
        dims_at(s, i) == Ok::<(int, int, int), Seq<char>>((r.w as int, r.h as int, i + dims(r).len())),
{
    let w = decimal(r.w as nat) + seq!['x'];
    let h = decimal(r.h as nat) + seq![','];
    let x = decimal(r.x as nat) + seq![','];
    let y = decimal(r.y as nat);
    assert(dims(r) =~= w + (h + (x + y)));
    lemma_stands_concat(s, i, w, h + (x + y));
    lemma_stands_concat(s, i + w.len(), h, x + y);
    lemma_stands_concat(s, i + w.len() + h.len(), x, y);
    lemma_field_read(s, i, r.w as nat, 'x');
    lemma_field_read(s, i + w.len(), r.h as nat, ',');
    lemma_field_read(s, i + w.len() + h.len(), r.x as nat, ',');
    lemma_number_read(s, i + w.len() + h.len() + x.len(), r.y as nat);
}

/// The text of a cell reads back as that cell.
proof fn lemma_cell_read(t: Tree, rects: Seq<(PaneId, Rect)>, s: Seq<char>, i: int, depth: int)
    requires
        nested_within(t, 64 - depth),
        depth >= 0,
        stands_at(s, i, dumped(t, rects)),
        i + dumped(t, rects).len() < s.len() ==> !is_digit(s[i + dumped(t, rects).len()]),
    ensures
        cell_at(s, i, depth) == Ok::<Cell, Seq<char>>(
            Cell {
                tree: skeleton(t, rects),
                w: bounds(t, rects).w as int,
                h: bounds(t, rects).h as int,
                next: i + dumped(t, rects).len(),
            },
        ),
    decreases t, 1nat, 0int,
{
    let r = bounds(t, rects);
    let d = dims(r);
    let at = i + d.len();
    match t {
        Tree::Leaf(id) => {
            let tail = seq![','] + decimal(id as nat);
            assert(dumped(t, rects) == d + tail);
            lemma_stands_concat(s, i, d, tail);
            lemma_stands_concat(s, at, seq![','], decimal(id as nat));
            assert(seq![','][0] == ',');
            assert(s[at + 0] == ',');
            lemma_dims_read(s, i, r);
            lemma_number_read(s, at + 1, id as nat);
        },
        Tree::Split { horizontal, children, sizes } => {
            let open = seq![open_of(horizontal)];
            let close = seq![close_of(horizontal)];
            let inner = dumped_from(children, rects, 0);
            assert(dumped(t, rects) =~= d + (open + (inner + close)));
            lemma_stands_concat(s, i, d, open + (inner + close));
            lemma_stands_concat(s, at, open, inner + close);
            assert(open[0] == open_of(horizontal));
            assert(s[at + 0] == open_of(horizontal));
            lemma_dims_read(s, i, r);
            assert(inner =~= dumped(children[0], rects) + dumped_from(children, rects, 1));
            lemma_cells_read(t, rects, s, at + 1, depth, 0);
            let all = skeleton(t, rects);
            assert(all->children.take(0) =~= Seq::<Tree>::empty());
            assert(all->sizes.take(0) =~= Seq::<int>::empty());
        },
    }
}

/// So do the cells of a split, from cell `k` on.
proof fn lemma_cells_read(t: Tree, rects: Seq<(PaneId, Rect)>, s: Seq<char>, i: int, depth: int, k: int)
    requires
        t is Split,
        nested_within(t, 64 - depth),
        depth >= 0,
        0 <= k < t->children.len(),
        stands_at(
            s,
            i,
            (dumped(t->children[k], rects) + dumped_from(t->children, rects, k + 1)) + seq![close_of(t->horizontal)],
        ),
    ensures
        cells_at(
            s,
            i,
            depth,
            t->horizontal,
            skeleton(t, rects)->children.take(k),
            skeleton(t, rects)->sizes.take(k),
        ) == Ok::<(Seq<Tree>, Seq<int>, int), Seq<char>>(
            (
                skeleton(t, rects)->children,
                skeleton(t, rects)->sizes,
                i + dumped(t->children[k], rects).len() + dumped_from(t->children, rects, k + 1).len() + 1,
            ),
        ),
    decreases t, 0nat, t->children.len() - k,
{
    let kids = t->children;
    let all = skeleton(t, rects);
    let one = dumped(kids[k], rects);
    let more = dumped_from(kids, rects, k + 1);
    let close = seq![close_of(t->horizontal)];
    assert((one + more) + close =~= one + (more + close));
    lemma_stands_concat(s, i, one, more + close);
    let j = i + one.len();
    if k + 1 < kids.len() {
        let next = dumped(kids[k + 1], rects) + dumped_from(kids, rects, k + 2);
        assert(more =~= seq![','] + next);
        assert(more + close =~= seq![','] + (next + close));
        lemma_stands_concat(s, j, seq![','], next + close);
        assert(seq![','][0] == ',');
        assert(s[j + 0] == ',');
        lemma_cell_read(kids[k], rects, s, i, depth + 1);
        lemma_cells_read(t, rects, s, j + 1, depth, k + 1);
    } else {
        assert(more =~= Seq::<char>::empty());
        assert(more + close =~= close);
        assert(close[0] == close_of(t->horizontal));
        assert(s[j + 0] == close[0]);
        lemma_cell_read(kids[k], rects, s, i, depth + 1);
    }
    assert(all->children.take(k).push(all->children[k]) =~= all->children.take(k + 1));
    assert(all->sizes.take(k).push(all->sizes[k]) =~= all->sizes.take(k + 1));
    if k + 1 == kids.len() {
        assert(all->children.take(k + 1) =~= all->children);
        assert(all->sizes.take(k + 1) =~= all->sizes);
    }
}

/// How the text of a cell begins and ends.
proof fn lemma_dumped_ends(t: Tree, rects: Seq<(PaneId, Rect)>)
    ensures
        dumped(t, rects).len() >= 1,
        is_digit(dumped(t, rects)[0]),
        ({
            let c = dumped(t, rects).last();
            is_digit(c) || c == '}' || c == ']'
        }),
{
    let r = bounds(t, rects);
    lemma_decimal(r.w as nat);
    assert(dumped(t, rects)[0] == decimal(r.w as nat)[0]);
    match t {
        Tree::Leaf(id) => {
            lemma_decimal(id as nat);
            let tail = decimal(id as nat);
            assert(dumped(t, rects).last() == tail[tail.len() - 1]);
        },
        Tree::Split { horizontal, .. } => {
            assert(dumped(t, rects).last() == close_of(horizontal));
        },
    }
}

proof fn lemma_checksum_range(bytes: Seq<u8>)
    ensures
        0 <= checksum(bytes) < 65536,
{
}

proof fn lemma_hex(d: int)
    requires
        0 <= d < 16,
    ensures
        is_hex(hex_char(d)),
        hex_value(hex_char(d)) == d,
        !crate::text::is_white(hex_char(d)),
{
    reveal(hex_char);
    reveal(is_hex);
    reveal(hex_value);
}

proof fn lemma_nibbles(n: int)
    requires
        0 <= n < 65536,
    ensures
        (n / 4096 % 16) * 4096 + (n / 256 % 16) * 256 + (n / 16 % 16) * 16 + n % 16 == n,
{
    let m = n as u32;
    assert((m / 4096 % 16) * 4096 + (m / 256 % 16) * 256 + (m / 16 % 16) * 16 + m % 16 == m) by (bit_vector)
        requires
            m < 65536,
    ;
}

proof fn lemma_hex4(n: int)
    requires
        0 <= n < 65536,
    ensures
        ({
            let h = hex4(n);
            &&& h.len() == 4
            &&& is_hex(h[0]) && is_hex(h[1]) && is_hex(h[2]) && is_hex(h[3])
            &&& !crate::text::is_white(h[0])
            &&& hex_value(h[0]) * 4096 + hex_value(h[1]) * 256 + hex_value(h[2]) * 16 + hex_value(h[3]) == n
        }),
{
    lemma_nibbles(n);
    lemma_hex(n / 4096 % 16);
    lemma_hex(n / 256 % 16);
    lemma_hex(n / 16 % 16);
    lemma_hex(n % 16);
}

proof fn lemma_body_read(t: Tree, rects: Seq<(PaneId, Rect)>)
    requires
        nested_within(t, 64),
    ensures
        body_read(dumped(t, rects)) == Ok::<Tree, Seq<char>>(skeleton(t, rects)),
{
    let body = dumped(t, rects);
    assert(stands_at(body, 0, body));
    lemma_cell_read(t, rects, body, 0, 0);
}

proof fn lemma_checked_read(sum: Seq<char>, body: Seq<char>)
    requires
        sum.len() == 4,
        is_hex(sum[0]) && is_hex(sum[1]) && is_hex(sum[2]) && is_hex(sum[3]),
        hex_value(sum[0]) * 4096 + hex_value(sum[1]) * 256 + hex_value(sum[2]) * 16 + hex_value(sum[3]) == checksum(
            encode_utf8(body),
        ),
        body.len() >= 1,
        !crate::text::is_white(sum[0]),
        !crate::text::is_white(body.last()),
    ensures
        layout_read(sum + seq![','] + body) == body_read(body),
{
    let text = sum + seq![','] + body;
    assert(text[0] == sum[0] && text[1] == sum[1] && text[2] == sum[2] && text[3] == sum[3]);
    assert(text[4] == ',');
    assert(text.last() == body.last());
    assert(trim_start(text) == text);
    assert(trim_end(text) == text);
    assert(text.skip(5) =~= body);
}

/// A layout string reads back as the layout it was written for: the same
/// splits, each cell with the extent it has on screen. (Panes under more
/// than sixty-four splits are refused.)
pub proof fn lemma_layout_round_trip(t: Tree, rects: Seq<(PaneId, Rect)>)
    requires
        nested_within(t, 64),
    ensures
        layout_read(layout_text(t, rects)) == Ok::<Tree, Seq<char>>(skeleton(t, rects)),
{
    let body = dumped(t, rects);
    let n = checksum(encode_utf8(body));
    lemma_checksum_range(encode_utf8(body));
    lemma_dumped_ends(t, rects);
    lemma_hex4(n);
    lemma_body_read(t, rects);
    lemma_checked_read(hex4(n), body);
}

} // verus!
