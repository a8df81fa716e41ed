//! What a client types, points at, pastes and waits for.
use vstd::prelude::*;

use crate::buffers::{buffer_meant, stored};
use crate::chooser::ClientId;
use crate::client::Client;
use crate::command::Ended;
use crate::copy_laws::line_of;
use crate::copy_mode::CopyMode;
use crate::input::{key_text, mouse_text, MouseButton};
use crate::key_flow::{keyed, Around, KeyAction, KeyRules, KeyTables};
use crate::keys::{Key, KeyCode, KeyRecord};
use crate::layout::{PaneId, Rect};
use crate::mouse::{button_in, decoded, edge_at, moused, owner_in, report, MouseEvent, MouseMode, MouseRecord, Moused};
use crate::popup::{popup_extent, popup_start, size_of};
use crate::prompt::{edited, filled, prompted, Prompt, PromptAction};
use crate::screen::Screen;
use crate::text::{decimal, trim};
use crate::waits::Channel;

verus! {

/// A text that is copied is the newest buffer, under a name of its own, and
/// the others come after it in their order; the newest is the one that is
/// pasted. Only so many are kept, and the oldest goes.
pub proof fn lemma_buffer_stacked(b: Seq<(Seq<char>, Seq<char>)>, next: int, data: Seq<char>)
    requires
        b.len() <= 50,
    ensures
        ({
            let (after, n) = stored(b, next, None, data, false);
            &&& after[0] == ("buffer"@ + decimal(next as nat), data)
            &&& buffer_meant(after, None) == 0
            &&& after.len() == if b.len() < 50 {
                b.len() + 1
            } else {
                50
            }
            &&& forall|i: int| 0 <= i < after.len() - 1 ==> #[trigger] after[i + 1] == b[i]
            &&& n == next + 1
        }),
{
}

/// A text that is appended comes behind that of the newest buffer, or of the
/// one that is named, and no other buffer changes.
pub proof fn lemma_buffer_appended(b: Seq<(Seq<char>, Seq<char>)>, next: int, data: Seq<char>, k: int)
    requires
        0 <= k < b.len(),
        forall|i: int| 0 <= i < k ==> (#[trigger] b[i]).0 != b[k].0,
    ensures
        ({
            let (after, n) = stored(b, next, None, data, true);
            &&& after.len() == b.len() && n == next
            &&& after[0] == (b[0].0, b[0].1 + data)
            &&& forall|i: int| 0 < i < b.len() ==> #[trigger] after[i] == b[i]
        }),
        ({
            let (after, n) = stored(b, next, Some(b[k].0), data, true);
            &&& after.len() == b.len() && n == next
            &&& after[k] == (b[k].0, b[k].1 + data)
            &&& forall|i: int| 0 <= i < b.len() && i != k ==> #[trigger] after[i] == b[i]
        }),
        ({
            let (after, n) = stored(b, next, Some(b[k].0), data, false);
            &&& after.len() == b.len() && n == next
            &&& after[k] == (b[k].0, data)
            &&& forall|i: int| 0 <= i < b.len() && i != k ==> #[trigger] after[i] == b[i]
        }),
{
    lemma_buffer_found(b, b[k].0, 0, k);
}

proof fn lemma_buffer_found(b: Seq<(Seq<char>, Seq<char>)>, name: Seq<char>, i: int, k: int)
    requires
        0 <= i <= k < b.len(),
        b[k].0 == name,
        forall|j: int| i <= j < k ==> (#[trigger] b[j]).0 != name,
    ensures
        crate::buffers::buffer_place(b, name, i) == k,
    decreases k - i,
{
    if i < k {
        assert(b[i].0 != name);
        lemma_buffer_found(b, name, i + 1, k);
    }
}

/// Typing in a prompt: a character goes in where the cursor is, which goes on
/// by one; Backspace takes the one before it and Delete the one under it;
/// Left and Right, Home and End move the cursor; `C-u` takes all before it and
/// `C-k` all from it on.
pub proof fn lemma_prompt_edits(input: Seq<char>, cursor: int, k: Key)
    requires
        0 <= cursor <= input.len(),
    ensures
        ({
            let (text, at) = edited(input, cursor, k);
            let (head, tail) = (input.take(cursor), input.skip(cursor));
            let none = !k.ctrl && !k.alt;
            &&& k.code is Char && none ==> text == head + seq![k.code->Char_0] + tail && at == cursor + 1
            &&& k.code is BSpace && none && cursor > 0 ==> text == input.take(cursor - 1) + tail && at == cursor - 1
            &&& k.code is BSpace && none && cursor == 0 ==> text == input && at == 0
            &&& k.code is DC && none && cursor < input.len() ==> text == head + input.skip(cursor + 1) && at == cursor
            &&& k.code is Left && none && cursor > 0 ==> text == input && at == cursor - 1
            &&& k.code is Right && none && cursor < input.len() ==> text == input && at == cursor + 1
            &&& k.code is Home && none ==> text == input && at == 0
            &&& k.code is End && none ==> text == input && at == input.len()
            &&& k.code == KeyCode::Char('u') && k.ctrl ==> text == tail && at == 0
            &&& k.code == KeyCode::Char('k') && k.ctrl ==> text == head && at == cursor
            &&& k.code == KeyCode::Char('a') && k.ctrl ==> text == input && at == 0
            &&& k.code == KeyCode::Char('e') && k.ctrl ==> text == input && at == input.len()
        }),
{
    let (head, tail) = (input.take(cursor), input.skip(cursor));
    assert(input.insert(cursor, k.code->Char_0) =~= head + seq![k.code->Char_0] + tail);
    if cursor > 0 {
        assert(input.remove(cursor - 1) =~= input.take(cursor - 1) + tail);
    }
    if cursor < input.len() {
        assert(input.remove(cursor) =~= head + input.skip(cursor + 1));
    }
}

/// `C-w` in a prompt takes the word before the cursor, with the blanks behind
/// it: what is left there ends in a blank, or nothing is.
pub proof fn lemma_prompt_word(input: Seq<char>, cursor: int, k: Key)
    requires
        0 <= cursor <= input.len(),
        k.code == KeyCode::Char('w'),
        k.ctrl,
    ensures
        ({
            let (text, at) = edited(input, cursor, k);
            &&& 0 <= at <= cursor
            &&& text == input.take(at) + input.skip(cursor)
            &&& at > 0 ==> input[at - 1] == ' '
            &&& forall|i: int, j: int|
                at <= i <= j < cursor && (#[trigger] input[i]) == ' ' ==> crate::text::is_white(#[trigger] input[j])
        }),
{
    let before = input.take(cursor);
    let head = crate::text::trim_end(before);
    crate::text_laws::lemma_trim_end(before);
    lemma_after_space(head, head.len() as int);
    let cut = crate::prompt::after_space(head, head.len() as int);
    assert forall|i: int, j: int| cut <= i <= j < cursor && (#[trigger] input[i]) == ' ' implies crate::text::is_white(
        #[trigger] input[j],
    ) by {
        if i < head.len() {
            assert(head[i] == input[i]);
        } else {
            assert(before[j] == input[j]);
        }
    }
    if cut > 0 {
        assert(head[cut - 1] == input[cut - 1]);
    }
}

proof fn lemma_after_space(head: Seq<char>, i: int)
    requires
        0 <= i <= head.len(),
    ensures
        0 <= crate::prompt::after_space(head, i) <= i,
        crate::prompt::after_space(head, i) > 0 ==> head[crate::prompt::after_space(head, i) - 1] == ' ',
        forall|j: int| crate::prompt::after_space(head, i) <= j < i ==> #[trigger] head[j] != ' ',
    decreases i,
{
    if i > 0 && head[i - 1] != ' ' {
        lemma_after_space(head, i - 1);
    }
}

/// A question is answered with `y`, and any other key is a no; a prompt is
/// ended by Enter and given up by Escape.
pub proof fn lemma_prompt_answers(p: Prompt, k: Key)
    requires
        !k.ctrl && !k.alt,
    ensures
        p.kind is Confirm && (k.code == KeyCode::Char('y') || k.code == KeyCode::Char('Y')) ==> prompted(p, k)
            == PromptAction::Accept,
        p.kind is Confirm && k.code != KeyCode::Char('y') && k.code != KeyCode::Char('Y') ==> prompted(p, k)
            == PromptAction::Cancel,
        !(p.kind is Confirm) && k.code is Enter ==> prompted(p, k) == PromptAction::Accept,
        !(p.kind is Confirm) && k.code is Escape ==> prompted(p, k) == PromptAction::Cancel,
        !(p.kind is Confirm) && k.code is Char ==> prompted(p, k) == PromptAction::Stay,
{
}

/// What was typed takes the place of each `%%` of a template, and the rest
/// stays as it is.
pub proof fn lemma_template_filled(a: Seq<char>, b: Seq<char>, with: Seq<char>)
    requires
        !a.contains('%'),
    ensures
        filled(a, with, 0) == a,
        filled(a + seq!['%', '%'] + b, with, 0) == a + with + filled(b, with, 0),
{
    lemma_filled_plain(a, Seq::empty(), with, 0);
    assert(a + Seq::<char>::empty() =~= a);
    assert(a.skip(0) =~= a);
    let t = a + seq!['%', '%'] + b;
    lemma_filled_plain(a, seq!['%', '%'] + b, with, 0);
    assert(a + (seq!['%', '%'] + b) =~= t);
    let n = a.len() as int;
    assert(t[n] == '%' && t[n + 1] == '%');
    lemma_filled_shift(t, b, with, n + 2, 0);
    assert(filled(t, with, n) == with + filled(t, with, n + 2));
    assert(a + (with + filled(b, with, 0)) =~= a + with + filled(b, with, 0));
    assert(filled(a, with, n) =~= Seq::empty());
    assert(a + filled(a, with, n) =~= a);
}

proof fn lemma_filled_plain(a: Seq<char>, b: Seq<char>, with: Seq<char>, i: int)
    requires
        !a.contains('%'),
        0 <= i <= a.len(),
    ensures
        filled(a + b, with, i) == a.skip(i) + filled(a + b, with, a.len() as int),
    decreases a.len() - i,
{
    let t = a + b;
    if i < a.len() {
        lemma_filled_plain(a, b, with, i + 1);
        assert(a.contains(a[i]));
        assert(t[i] == a[i]);
        assert(seq![a[i]] + (a.skip(i + 1) + filled(t, with, a.len() as int)) =~= a.skip(i) + filled(
            t,
            with,
            a.len() as int,
        ));
    } else {
        assert(a.skip(i) + filled(t, with, i) =~= filled(t, with, i));
    }
}

proof fn lemma_filled_shift(t: Seq<char>, b: Seq<char>, with: Seq<char>, from: int, i: int)
    requires
        0 <= from,
        from + b.len() == t.len(),
        0 <= i <= b.len(),
        forall|j: int| 0 <= j < b.len() ==> #[trigger] t[from + j] == b[j],
    ensures
        filled(t, with, from + i) == filled(b, with, i),
    decreases b.len() - i,
{
    if i < b.len() {
        assert(t[from + i] == b[i]);
        if i + 1 < b.len() {
            assert(t[from + (i + 1)] == b[i + 1]);
        }
        lemma_filled_shift(t, b, with, from, i + 1);
        if i + 2 <= b.len() {
            lemma_filled_shift(t, b, with, from, i + 2);
        }
    }
}

/// A channel that is locked makes who asks for it wait, behind those who
/// asked before, and one that is not is locked at once. Who waits for a signal
/// is woken by the next one, all of them together; a signal that nobody waits
/// for is kept for the first who will.
pub proof fn lemma_channels(c: Channel, name: Seq<char>, id: ClientId)
    ensures
        ({
            let (after, answer, wake) = c.asked(id, name, true, false, false);
            &&& wake.len() == 0 && after.locked && after.waiters == c.waiters
            &&& c.locked ==> answer == Ended::Pending && after.lockers == c.lockers.push(id)
            &&& !c.locked ==> answer == Ended::Done && after.lockers == c.lockers
        }),
        ({
            let (after, answer, wake) = c.asked(id, name, false, true, false);
            &&& !c.locked ==> answer is Error && after == c
            &&& c.locked ==> answer == Ended::Done
        }),
        ({
            let (after, answer, wake) = c.asked(id, name, false, false, true);
            &&& answer == Ended::Done && wake == c.waiters && after.waiters.len() == 0
            &&& after.woken == (c.woken || c.waiters.len() == 0)
            &&& after.locked == c.locked && after.lockers == c.lockers
        }),
        ({
            let (after, answer, wake) = c.asked(id, name, false, false, false);
            &&& wake.len() == 0 && !after.woken
            &&& c.woken ==> answer == Ended::Done && after.waiters == c.waiters
            &&& !c.woken ==> answer == Ended::Pending && after.waiters == c.waiters.push(id)
        }),
{
    assert(c.asked(id, name, false, false, true).2 =~= c.waiters);
}

/// A size is a number of cells, or a part of what there is in percent; it is
/// one cell at least.
pub proof fn lemma_sizes_read(n: nat, full: int)
    requires
        n <= u16::MAX,
        full >= 0,
    ensures
        size_of(decimal(n), full) == Some(
            if n < 1 {
                1int
            } else {
                n as int
            },
        ),
        n <= 100 ==> size_of(decimal(n) + seq!['%'], full) == Some(
            if full * n / 100 < 1 {
                1int
            } else {
                full * n / 100
            },
        ),
{
    let s = decimal(n);
    crate::text::lemma_decimal(n);
    lemma_no_white(s);
    crate::text_laws::lemma_number_read(n, u16::MAX as int);
    crate::text_laws::lemma_number_read(n, u32::MAX as int);
    assert(crate::text::is_digit(s[s.len() - 1]));
    let p = s + seq!['%'];
    lemma_percent(s);
    assert(p.drop_last() =~= s);
}

proof fn lemma_no_white(s: Seq<char>)
    requires
        s.len() > 0,
        forall|i: int| 0 <= i < s.len() ==> crate::text::is_digit(#[trigger] s[i]),
    ensures
        trim(s) == s,
{
    assert(crate::text::is_digit(s[0]));
    assert(crate::text::is_digit(s[s.len() - 1]));
    assert(!crate::text::is_white(s[0]) && !crate::text::is_white(s.last()));
}

proof fn lemma_percent(s: Seq<char>)
    requires
        s.len() > 0,
        forall|i: int| 0 <= i < s.len() ==> crate::text::is_digit(#[trigger] s[i]),
    ensures
        trim(s + seq!['%']) == s + seq!['%'],
{
    let p = s + seq!['%'];
    assert(crate::text::is_digit(s[0]));
    assert(p[0] == s[0] && p.last() == '%');
    assert(!crate::text::is_white(p[0]) && !crate::text::is_white(p.last()));
}

/// A popup without a size has four fifths of the area, and without a place it
/// is in the middle; `R` and `B` put it at the end.
pub proof fn lemma_popup_place(full: int, size: int)
    requires
        1 <= size <= full,
    ensures
        full >= 2 ==> popup_extent(None, full) == full * 4 / 5,
        popup_start(None, full, size) == (full - size) / 2,
        popup_start(Some("R"@), full, size) == full - size,
        popup_start(Some("B"@), full, size) == full - size,
        popup_start(Some("C"@), full, size) == (full - size) / 2,
        0 <= popup_start(None, full, size) && popup_start(None, full, size) + size <= full,
{
    reveal_strlit("R");
    reveal_strlit("B");
    reveal_strlit("C");
    reveal_strlit("c");
    assert(!crate::text::is_white("R"@[0]) && !crate::text::is_white("B"@[0]) && !crate::text::is_white("C"@[0]));
    assert("R"@[0] == 'R' && "B"@[0] == 'B' && "C"@[0] == 'C' && "c"@[0] == 'c');
}

/// The buttons of the mouse by their bits.
pub proof fn lemma_buttons()
    ensures
        button_in(1) == MouseButton::Left,
        button_in(2) == MouseButton::Right,
        button_in(4) == MouseButton::Middle,
        button_in(0) == MouseButton::NoButton,
{
    assert(1u32 & 1 == 1 && 2u32 & 1 == 0 && 4u32 & 1 == 0 && 0u32 & 1 == 0) by (bit_vector);
    assert(2u32 & 4 == 0 && 4u32 & 4 == 4 && 0u32 & 4 == 0 && 2u32 & 2 == 2 && 0u32 & 2 == 0) by (bit_vector);
}

/// A button is pressed that is down and was not, and released that was down
/// and is not.
pub proof fn lemma_button_changes(m: MouseRecord, prev: u32)
    ensures
        decoded(m, prev).pressed == decoded(m, prev).buttons & !prev,
        decoded(m, prev).released == prev & !decoded(m, prev).buttons,
        m.x >= 0 ==> decoded(m, prev).x == m.x,
        m.y >= 0 ==> decoded(m, prev).y == m.y,
        decoded(m, prev).wheel is Some ==> !decoded(m, prev).motion,
        decoded(m, prev).wheel == Some(true) ==> 1 <= (m.buttons >> 16) <= 32767,
        decoded(m, prev).wheel == Some(false) ==> (m.buttons >> 16) == 0 || (m.buttons >> 16) > 32767,
{
}

/// A program that asked for the mouse is told of the wheel and of presses,
/// of releases unless it asked for presses only, and of motions as far as it
/// asked for them.
pub proof fn lemma_mouse_reports(e: MouseEvent, mode: MouseMode, px: u16, py: u16)
    ensures
        e.wheel == Some(true) ==> report(e, mode, px, py) == Some(
            mouse_text(MouseButton::WheelUp, false, false, e.shift, e.alt, e.ctrl, px, py),
        ),
        e.wheel == Some(false) ==> report(e, mode, px, py) == Some(
            mouse_text(MouseButton::WheelDown, false, false, e.shift, e.alt, e.ctrl, px, py),
        ),
        e.wheel is None && e.pressed == 1 ==> report(e, mode, px, py) == Some(
            mouse_text(MouseButton::Left, false, false, e.shift, e.alt, e.ctrl, px, py),
        ),
        e.wheel is None && e.pressed == 0 && e.released == 1 && !(mode is Press) ==> report(e, mode, px, py) == Some(
            mouse_text(MouseButton::Left, false, true, e.shift, e.alt, e.ctrl, px, py),
        ),
        e.wheel is None && e.pressed == 0 && e.released != 0 && mode is Press ==> report(e, mode, px, py) is None,
        e.wheel is None && e.pressed == 0 && e.released == 0 && !e.motion ==> report(e, mode, px, py) is None,
        e.wheel is None && e.pressed == 0 && e.released == 0 && e.motion && mode is AnyMotion ==> report(
            e,
            mode,
            px,
            py,
        ) is Some,
        e.wheel is None && e.pressed == 0 && e.released == 0 && e.motion && mode is PressRelease ==> report(
            e,
            mode,
            px,
            py,
        ) is None,
        e.wheel is None && e.pressed == 0 && e.released == 0 && e.motion && mode is ButtonMotion ==> (report(
            e,
            mode,
            px,
            py,
        ) is Some <==> e.buttons != 0),
{
    lemma_buttons();
}

/// The wheel scrolls three lines, up towards older ones; a full-screen
/// program is sent three arrow keys instead. The left button begins a
/// selection where it is pressed, and copies it where it is let go; the right
/// one pastes.
pub proof fn lemma_mouse_without_program(copy: Option<CopyMode>, s: Screen, e: MouseEvent, px: u16, py: u16)
    requires
        s.live(),
        copy matches Some(c) ==> c.on(s),
        px < s.cols,
        py < s.rows,
    ensures
        ({
            let (after, r) = moused(copy, s, MouseMode::Off, e, px, py, true);
            let was = match copy {
                Some(c) => c.offset as int,
                None => 0,
            };
            let all = s.lines@.len() - s.rows;
            &&& e.wheel == Some(true) && !s.alternate ==> after is Some && after->0.offset == if was + 3 <= all {
                was + 3
            } else {
                all
            }
            &&& e.wheel == Some(false) && !s.alternate && was > 3 ==> after is Some && after->0.offset == was - 3
            &&& e.wheel == Some(true) && s.alternate && copy is None ==> {
                let up = vstd::utf8::encode_utf8(
                    key_text(Key { code: KeyCode::Up, ctrl: false, alt: false, shift: false }, s.app_cursor),
                );
                r == Moused::Write(up + up + up)
            }
            &&& e.wheel == Some(false) && s.alternate && copy is None ==> {
                let down = vstd::utf8::encode_utf8(
                    key_text(Key { code: KeyCode::Down, ctrl: false, alt: false, shift: false }, s.app_cursor),
                );
                r == Moused::Write(down + down + down)
            }
            &&& e.wheel is None && e.pressed == 2 ==> after is None && r == Moused::Paste
            &&& e.wheel is None && e.pressed == 1 ==> {
                &&& after is Some && after->0.dragging
                &&& after->0.cx == px && after->0.cy == py
                &&& after->0.anchor == Some((line_of(after->0, s) as usize, px))
            }
            &&& e.wheel is None && e.pressed == 0 && !e.motion && e.released == 1 && copy is Some && copy->0.dragging
                ==> after is None && (r is Nothing || r == Moused::Copy(
                (CopyMode { dragging: false, cx: px, cy: py, ..copy->0 }).selected(s),
            ))
        }),
{
    assert(s.lines.len() == s.lines@.len());
    assert(1u32 & 1 == 1 && 1u32 & 2 == 0 && 2u32 & 2 == 2 && 0u32 & 1 == 0 && 0u32 & 2 == 0) by (bit_vector);
    if let Some(c) = copy {
        let there = CopyMode { dragging: false, cx: px, cy: py, ..c };
        assert(there.clamped(s) == there);
    }
}

/// The border a place is on is the one to the right of a pane, in one of its
/// rows, or the one below it, in one of its columns.
pub proof fn lemma_borders(rects: Seq<(PaneId, Rect)>, x: int, y: int, from: int)
    requires
        0 <= from,
    ensures
        match owner_in(rects, x, y, from) {
            Some((id, across)) => exists|k: int|
                from <= k < rects.len() && (#[trigger] rects[k]).0 == id && (if across {
                    rects[k].1.x + rects[k].1.w == x && rects[k].1.y <= y < rects[k].1.y + rects[k].1.h
                } else {
                    rects[k].1.y + rects[k].1.h == y && rects[k].1.x <= x < rects[k].1.x + rects[k].1.w
                }),
            None => forall|k: int|
                from <= k < rects.len() ==> {
                    let r = (#[trigger] rects[k]).1;
                    &&& !(r.x + r.w == x && r.y <= y < r.y + r.h)
                    &&& !(r.y + r.h == y && r.x <= x < r.x + r.w)
                },
        },
    decreases rects.len() - from,
{
    if from < rects.len() && edge_at(rects[from].1, x, y) is None {
        lemma_borders(rects, x, y, from + 1);
    }
}

/// A client that shows nothing over its panes.
pub open spec fn bare(c: Client) -> bool {
    &&& c.overlay is None && c.prompt is None && c.popup is None && c.chooser is None
    &&& c.panes_until is None && c.repeat_until is None
}

/// The prefix key opens the prefix table for the next key and is not typed;
/// that key runs what it is bound to there, and twice the prefix key types
/// it. A key that the root table binds runs that; any other is typed.
pub proof fn lemma_key_tables(c: Client, k: Key, rec: KeyRecord, t: KeyTables, rules: KeyRules, around: Around)
    requires
        bare(c),
        !around.clock,
        !around.in_copy,
    ensures
        ({
            let d = keyed(c, Some(k), rec, t, rules, around);
            &&& !c.prefix && k == rules.prefix ==> d.prefix && d.action is Nothing && d.swallow
            &&& c.prefix ==> !d.prefix && d.swallow
            &&& c.prefix && k == rules.prefix ==> d.action is SendPrefix
            &&& c.prefix && k != rules.prefix && t.prefix@.dom().contains(k) ==> d.action is RunPrefix
                && d.action->RunPrefix_0 == k
            &&& c.prefix && k != rules.prefix && !t.prefix@.dom().contains(k) ==> d.action == KeyAction::Unbound(k)
            &&& !c.prefix && k != rules.prefix && t.root@.dom().contains(k) ==> d.action is RunRoot && d.action->RunRoot_0
                == k && d.swallow
            &&& !c.prefix && k != rules.prefix && !t.root@.dom().contains(k) ==> d.action is Type && !d.swallow
        }),
{
    reveal(keyed);
}

/// A key of the prefix table that repeats can be typed again without the
/// prefix for a while, and each time for that while again.
pub proof fn lemma_key_repeats(c: Client, k: Key, rec: KeyRecord, t: KeyTables, rules: KeyRules, around: Around)
    requires
        c.overlay is None && c.prompt is None && c.panes_until is None,
        !around.clock,
        t.prefix@.dom().contains(k),
        k != rules.prefix,
        rules.now + rules.repeat_time_ms <= u64::MAX,
        rules.repeat_time_ms > 0,
    ensures
        ({
            let d = keyed(c, Some(k), rec, t, rules, around);
            &&& c.prefix && t.prefix@[k].1 ==> d.action == KeyAction::RunPrefix(
                k,
                Some((rules.now + rules.repeat_time_ms) as u64),
            )
            &&& c.prefix && !t.prefix@[k].1 ==> d.action == KeyAction::RunPrefix(k, None)
            &&& !c.prefix && t.prefix@[k].1 && c.repeat_until is Some && rules.now < c.repeat_until->0 ==> d.action
                == KeyAction::RunAgain(k) && d.repeat_until == Some((rules.now + rules.repeat_time_ms) as u64)
            &&& !c.prefix && c.repeat_until is Some && rules.now >= c.repeat_until->0 ==> !(d.action is RunAgain)
        }),
{
    reveal(keyed);
}

/// In copy mode a key runs what the copy table binds it to, and else moves
/// about there; with the numbers of panes shown a digit picks one.
pub proof fn lemma_key_modes(c: Client, k: Key, rec: KeyRecord, t: KeyTables, rules: KeyRules, around: Around)
    requires
        c.overlay is None && c.prompt is None && c.popup is None && c.chooser is None && c.repeat_until is None,
        !c.prefix,
    ensures
        ({
            let d = keyed(c, Some(k), rec, t, rules, around);
            let shown = c.panes_until is Some && rules.now < c.panes_until->0;
            &&& around.in_copy && !around.clock && !shown && k != rules.prefix && t.copy@.dom().contains(k) ==> d.action
                == KeyAction::RunCopy(k)
            &&& around.in_copy && !around.clock && !shown && k != rules.prefix && !t.copy@.dom().contains(k) ==> d.action
                == KeyAction::Copy(k)
            &&& shown && k.code is Char && '0' <= k.code->Char_0 <= '9' ==> d.action is PickPane && d.action->PickPane_0
                == k.code->Char_0 as int - '0' as int
            &&& shown && !(k.code is Char) ==> d.action is Nothing && d.hide_numbers
        }),
{
    reveal(keyed);
}

} // verus!
