//! The mouse: what a report means, and where it goes.
use vstd::prelude::*;
use vstd::utf8::encode_utf8;

use crate::copy_mode::{copy_abs, copy_scroll, copy_selection, enter_copy_mode, CopyMode};
use crate::input::{encode_key, encode_mouse_sgr, key_text, mouse_text, MouseButton};
use crate::keys::{Key, KeyCode};
use crate::layout::{PaneId, Rect};
use crate::screen::Screen;

verus! {

pub const MOUSE_MOVED: u32 = 1;

pub const MOUSE_WHEELED: u32 = 4;

pub const MOUSE_HWHEELED: u32 = 8;

pub const BTN_LEFT: u32 = 1;

pub const BTN_RIGHT: u32 = 2;

pub const BTN_MIDDLE: u32 = 4;

pub const BTN_ALL: u32 = 7;

pub const ALT_PRESSED: u32 = 3;

pub const CTRL_PRESSED: u32 = 12;

pub const SHIFT_PRESSED: u32 = 16;

/// A mouse event as the client's console reports it: the buttons that are
/// down in the low half, how far the wheel turned in the high half.
#[derive(Clone, Copy, Debug, PartialEq, Eq, Structural)]
pub struct MouseRecord {
    pub x: i16,
    pub y: i16,
    pub buttons: u32,
    pub flags: u32,
    pub ctrl: u32,
}

/// A mouse event at a client whose buttons were known.
#[derive(Clone, Copy, Debug, PartialEq, Eq, Structural)]
pub struct MouseEvent {
    pub x: u16,
    pub y: u16,
    /// The buttons that are down.
    pub buttons: u32,
    pub pressed: u32,
    pub released: u32,
    /// The wheel turned: up or not.
    pub wheel: Option<bool>,
    pub sideways: bool,
    pub motion: bool,
    pub shift: bool,
    pub alt: bool,
    pub ctrl: bool,
}

/// The wheel turned away from the user: its half is a positive number of
/// sixteen bits.
pub open spec fn turned_up(buttons: u32) -> bool {
    1 <= (buttons >> 16) <= 32767
}

/// A report of a client whose buttons were `prev`.
pub open spec fn decoded(m: MouseRecord, prev: u32) -> MouseEvent {
    let buttons = m.buttons & BTN_ALL;
    let wheel = if m.flags & MOUSE_WHEELED != 0 {
        Some(turned_up(m.buttons))
    } else {
        None
    };
    MouseEvent {
        x: if m.x < 0 {
            0
        } else {
            m.x as u16
        },
        y: if m.y < 0 {
            0
        } else {
            m.y as u16
        },
        buttons,
        pressed: buttons & !prev,
        released: prev & !buttons,
        wheel,
        sideways: m.flags & MOUSE_HWHEELED != 0,
        motion: m.flags & MOUSE_MOVED != 0 && wheel is None,
        shift: m.ctrl & SHIFT_PRESSED != 0,
        alt: m.ctrl & ALT_PRESSED != 0,
        ctrl: m.ctrl & CTRL_PRESSED != 0,
    }
}

pub fn decode_mouse(m: &MouseRecord, prev: u32) -> (e: MouseEvent)
    ensures
        e == decoded(*m, prev),
{
    let buttons: u32 = m.buttons & BTN_ALL;
    let high: u32 = m.buttons >> 16;
    let wheel: Option<bool> = if m.flags & MOUSE_WHEELED != 0 { Some(1 <= high && high <= 32767) } else { None };
    MouseEvent {
        x: if m.x < 0 { 0 } else { m.x as u16 },
        y: if m.y < 0 { 0 } else { m.y as u16 },
        buttons,
        pressed: buttons & !prev,
        released: prev & !buttons,
        wheel,
        sideways: m.flags & MOUSE_HWHEELED != 0,
        motion: m.flags & MOUSE_MOVED != 0 && wheel.is_none(),
        shift: m.ctrl & SHIFT_PRESSED != 0,
        alt: m.ctrl & ALT_PRESSED != 0,
        ctrl: m.ctrl & CTRL_PRESSED != 0,
    }
}

/// No button is pressed and released at once, and a button that is pressed
/// is down.
pub proof fn lemma_pressed_or_released(m: MouseRecord, prev: u32)
    ensures
        decoded(m, prev).pressed & decoded(m, prev).released == 0,
        decoded(m, prev).pressed & decoded(m, prev).buttons == decoded(m, prev).pressed,
{
    let b = m.buttons & BTN_ALL;
    assert((b & !prev) & (prev & !b) == 0) by (bit_vector);
    assert((b & !prev) & b == (b & !prev)) by (bit_vector);
}

/// The first pane listed whose rectangle has the cell, with the rectangle.
pub open spec fn hit_in(rects: Seq<(PaneId, Rect)>, x: int, y: int, i: int) -> Option<(PaneId, Rect)>
    decreases rects.len() - i,
{
    if i >= rects.len() {
        None
    } else if rects[i].1.has(x, y) {
        Some(rects[i])
    } else {
        hit_in(rects, x, y, i + 1)
    }
}

pub fn hit(rects: &Vec<(PaneId, Rect)>, x: u16, y: u16) -> (h: Option<(PaneId, Rect)>)
    ensures
        h == hit_in(rects@, x as int, y as int, 0),
        h matches Some(p) ==> p.1.has(x as int, y as int) && exists|k: int| 0 <= k < rects@.len() && rects@[k] == p,
{
    let mut i: usize = 0;
    while i < rects.len()
        invariant
            i <= rects@.len(),
            hit_in(rects@, x as int, y as int, 0) == hit_in(rects@, x as int, y as int, i as int),
        decreases rects.len() - i,
    {
        if rects[i].1.contains(x, y) {
            assert(rects@[i as int].1.has(x as int, y as int));
            return Some(rects[i]);
        }
        i = i + 1;
    }
    None
}

/// The cell is on the trailing edge of the rectangle: beside it (true) or
/// below it (false).
pub open spec fn edge_at(r: Rect, x: int, y: int) -> Option<bool> {
    if r.x + r.w == x && r.y <= y < r.y + r.h {
        Some(true)
    } else if r.y + r.h == y && r.x <= x < r.x + r.w {
        Some(false)
    } else {
        None
    }
}

/// The first pane listed on whose trailing edge the cell is, and whether that
/// edge is vertical.
pub open spec fn owner_in(rects: Seq<(PaneId, Rect)>, x: int, y: int, i: int) -> Option<(PaneId, bool)>
    decreases rects.len() - i,
{
    if i >= rects.len() {
        None
    } else {
        match edge_at(rects[i].1, x, y) {
            Some(h) => Some((rects[i].0, h)),
            None => owner_in(rects, x, y, i + 1),
        }
    }
}

/// Which pane's trailing edge a border cell belongs to, and whether that edge
/// is vertical (a drag to the side).
pub fn border_owner(rects: &Vec<(PaneId, Rect)>, x: u16, y: u16) -> (owner: Option<(PaneId, bool)>)
    ensures
        owner == owner_in(rects@, x as int, y as int, 0),
{
    let mut i: usize = 0;
    while i < rects.len()
        invariant
            i <= rects@.len(),
            owner_in(rects@, x as int, y as int, 0) == owner_in(rects@, x as int, y as int, i as int),
        decreases rects.len() - i,
    {
        let (id, r) = rects[i];
        let right: u32 = r.x as u32 + r.w as u32;
        let below: u32 = r.y as u32 + r.h as u32;
        if right == x as u32 && y >= r.y && (y as u32) < below {
            return Some((id, true));
        }
        if below == y as u32 && x >= r.x && (x as u32) < right {
            return Some((id, false));
        }
        i = i + 1;
    }
    None
}

/// The first status-line label that the column is on.
pub open spec fn label_at(hits: Seq<(u16, u16)>, x: u16, i: int) -> Option<int>
    decreases hits.len() - i,
{
    if i >= hits.len() {
        None
    } else if hits[i].0 <= x < hits[i].1 {
        Some(i)
    } else {
        label_at(hits, x, i + 1)
    }
}

pub fn find_label(hits: &Vec<(u16, u16)>, x: u16) -> (k: Option<usize>)
    ensures
        match k {
            Some(n) => label_at(hits@, x, 0) == Some(n as int),
            None => label_at(hits@, x, 0) is None,
        },
{
    let mut i: usize = 0;
    while i < hits.len()
        invariant
            i <= hits@.len(),
            label_at(hits@, x, 0) == label_at(hits@, x, i as int),
        decreases hits.len() - i,
    {
        if x >= hits[i].0 && x < hits[i].1 {
            return Some(i);
        }
        i = i + 1;
    }
    None
}

/// How a program wants the mouse reported.
#[derive(Clone, Copy, Debug, PartialEq, Eq, Structural)]
pub enum MouseMode {
    Off,
    Press,
    PressRelease,
    ButtonMotion,
    AnyMotion,
}

pub open spec fn button_in(b: u32) -> MouseButton {
    if b & BTN_LEFT != 0 {
        MouseButton::Left
    } else if b & BTN_MIDDLE != 0 {
        MouseButton::Middle
    } else if b & BTN_RIGHT != 0 {
        MouseButton::Right
    } else {
        MouseButton::NoButton
    }
}

fn button_of(b: u32) -> (m: MouseButton)
    ensures
        m == button_in(b),
{
    if b & BTN_LEFT != 0 {
        MouseButton::Left
    } else if b & BTN_MIDDLE != 0 {
        MouseButton::Middle
    } else if b & BTN_RIGHT != 0 {
        MouseButton::Right
    } else {
        MouseButton::NoButton
    }
}

/// What a program that wants the mouse is told of an event at its cell.
pub open spec fn report(e: MouseEvent, mode: MouseMode, px: u16, py: u16) -> Option<Seq<char>> {
    if e.wheel is Some {
        Some(
            mouse_text(
                if e.wheel->0 {
                    MouseButton::WheelUp
                } else {
                    MouseButton::WheelDown
                },
                false,
                false,
                e.shift,
                e.alt,
                e.ctrl,
                px,
                py,
            ),
        )
    } else if e.pressed != 0 {
        Some(mouse_text(button_in(e.pressed), false, false, e.shift, e.alt, e.ctrl, px, py))
    } else if e.released != 0 {
        if mode is Press {
            None
        } else {
            Some(mouse_text(button_in(e.released), false, true, e.shift, e.alt, e.ctrl, px, py))
        }
    } else if e.motion && (mode is AnyMotion || (mode is ButtonMotion && e.buttons != 0)) {
        Some(mouse_text(button_in(e.buttons), true, false, e.shift, e.alt, e.ctrl, px, py))
    } else {
        None
    }
}

/// The bytes that tell a program of a mouse event, if it is told.
pub fn report_mouse(e: &MouseEvent, mode: MouseMode, px: u16, py: u16) -> (out: Option<Vec<u8>>)
    ensures
        match report(*e, mode, px, py) {
            Some(t) => out is Some && out->0@ == encode_utf8(t),
            None => out is None,
        },
{
    if let Some(up) = e.wheel {
        let b = if up { MouseButton::WheelUp } else { MouseButton::WheelDown };
        return Some(encode_mouse_sgr(b, false, false, e.shift, e.alt, e.ctrl, px, py));
    }
    if e.pressed != 0 {
        return Some(encode_mouse_sgr(button_of(e.pressed), false, false, e.shift, e.alt, e.ctrl, px, py));
    }
    if e.released != 0 {
        if let MouseMode::Press = mode {
            return None;
        }
        return Some(encode_mouse_sgr(button_of(e.released), false, true, e.shift, e.alt, e.ctrl, px, py));
    }
    let told: bool = match mode {
        MouseMode::AnyMotion => true,
        MouseMode::ButtonMotion => e.buttons != 0,
        _ => false,
    };
    if e.motion && told {
        return Some(encode_mouse_sgr(button_of(e.buttons), true, false, e.shift, e.alt, e.ctrl, px, py));
    }
    None
}

/// What a mouse event on a pane comes to.
#[derive(Debug)]
pub enum PaneMouse {
    Nothing,
    /// Bytes for the program.
    Write(Vec<u8>),
    /// The clipboard is to be pasted.
    Paste,
    /// Text that was selected.
    Copy(String),
}

pub ghost enum Moused {
    Nothing,
    Write(Seq<u8>),
    Paste,
    Copy(Seq<char>),
}

impl View for PaneMouse {
    type V = Moused;

    open spec fn view(&self) -> Moused {
        match *self {
            PaneMouse::Nothing => Moused::Nothing,
            PaneMouse::Write(b) => Moused::Write(b@),
            PaneMouse::Paste => Moused::Paste,
            PaneMouse::Copy(t) => Moused::Copy(t@),
        }
    }
}

/// Copy mode as it is entered.
pub open spec fn opened(s: Screen) -> CopyMode {
    CopyMode {
        offset: 0,
        cx: if s.cursor_col < s.cols {
            s.cursor_col
        } else {
            (s.cols - 1) as u16
        },
        cy: if s.cursor_row < s.rows {
            s.cursor_row
        } else {
            (s.rows - 1) as u16
        },
        anchor: None,
        dragging: false,
        search: None,
        search_back: true,
        count: None,
        rect: false,
    }
}

/// The cursor at a cell, as far as the screen goes.
pub open spec fn pointed(c: CopyMode, s: Screen, px: u16, py: u16) -> CopyMode {
    CopyMode {
        cx: if px < s.cols {
            px
        } else {
            (s.cols - 1) as u16
        },
        cy: if py < s.rows {
            py
        } else {
            (s.rows - 1) as u16
        },
        ..c
    }
}

/// Three times the same key.
pub open spec fn thrice(k: KeyCode, app_cursor: bool) -> Seq<u8> {
    let b = encode_utf8(key_text(Key::bare(k), app_cursor));
    b + b + b
}

/// What a mouse event on a pane makes of its copy mode, and what comes of it.
pub open spec fn moused(
    copy: Option<CopyMode>,
    s: Screen,
    mode: MouseMode,
    e: MouseEvent,
    px: u16,
    py: u16,
    mouse: bool,
) -> (Option<CopyMode>, Moused) {
    let c = match copy {
        Some(c) => c,
        None => opened(s),
    };
    if !(mode is Off) && copy is None && !e.shift {
        // The program wants the mouse.
        (
            copy,
            match report(e, mode, px, py) {
                Some(t) => Moused::Write(encode_utf8(t)),
                None => Moused::Nothing,
            },
        )
    } else if !mouse {
        (copy, Moused::Nothing)
    } else if e.wheel is Some {
        let up = e.wheel->0;
        if s.alternate && copy is None {
            // A full-screen program without the mouse: scroll with arrow keys.
            (
                copy,
                Moused::Write(
                    thrice(
                        if up {
                            KeyCode::Up
                        } else {
                            KeyCode::Down
                        },
                        s.app_cursor,
                    ),
                ),
            )
        } else {
            let there = c.scrolled(
                s,
                if up {
                    3
                } else {
                    -3
                },
            );
            (
                if there.offset == 0 && there.anchor is None && !up {
                    None
                } else {
                    Some(there)
                },
                Moused::Nothing,
            )
        }
    } else if e.pressed & BTN_RIGHT != 0 {
        (None, Moused::Paste)
    } else if e.pressed & BTN_LEFT != 0 {
        let there = pointed(c, s, px, py).clamped(s);
        (
            Some(CopyMode { anchor: Some((there.abs(s) as usize, there.cx)), dragging: true, ..there }),
            Moused::Nothing,
        )
    } else if e.motion && e.buttons & BTN_LEFT != 0 && copy is Some {
        (
            if c.dragging {
                Some(pointed(c, s, px, py))
            } else {
                copy
            },
            Moused::Nothing,
        )
    } else if e.released & BTN_LEFT != 0 && copy is Some && c.dragging {
        let there = pointed(CopyMode { dragging: false, ..c }, s, px, py).clamped(s);
        (
            None,
            if there.anchor is None || there.anchor == Some((there.abs(s) as usize, there.cx)) {
                // A plain click: just leave copy mode.
                Moused::Nothing
            } else {
                Moused::Copy(there.selected(s))
            },
        )
    } else {
        (copy, Moused::Nothing)
    }
}

fn open_copy(copy: &mut Option<CopyMode>, s: &Screen)
    requires
        s.live(),
    ensures
        *final(copy) == Some(
            match *old(copy) {
                Some(c) => c,
                None => opened(*s),
            },
        ),
{
    if copy.is_none() {
        *copy = Some(enter_copy_mode(s));
    }
}

fn point(c: &mut CopyMode, s: &Screen, px: u16, py: u16)
    requires
        s.live(),
    ensures
        *final(c) == pointed(*old(c), *s, px, py),
{
    c.cx = if px < s.cols { px } else { s.cols - 1 };
    c.cy = if py < s.rows { py } else { s.rows - 1 };
}

fn arrows(up: bool, app_cursor: bool) -> (b: Vec<u8>)
    ensures
        b@ == thrice(
            if up {
                KeyCode::Up
            } else {
                KeyCode::Down
            },
            app_cursor,
        ),
{
    let code = if up { KeyCode::Up } else { KeyCode::Down };
    let mut out = encode_key(Key::plain(code), app_cursor);
    let mut two = encode_key(Key::plain(code), app_cursor);
    let mut three = encode_key(Key::plain(code), app_cursor);
    out.append(&mut two);
    out.append(&mut three);
    out
}

/// A mouse event on a pane: for its program, or for copy mode.
pub fn mouse_on_pane(
    copy: &mut Option<CopyMode>,
    s: &Screen,
    mode: MouseMode,
    e: &MouseEvent,
    px: u16,
    py: u16,
    mouse: bool,
) -> (r: PaneMouse)
    requires
        s.live(),
        *old(copy) matches Some(c) ==> (c.anchor matches Some(a) ==> a.0 < usize::MAX),
    ensures
        (*final(copy), r@) == moused(*old(copy), *s, mode, *e, px, py, mouse),
{
    let off: bool = match mode {
        MouseMode::Off => true,
        _ => false,
    };
    if !off && copy.is_none() && !e.shift {
        return match report_mouse(e, mode, px, py) {
            Some(b) => PaneMouse::Write(b),
            None => PaneMouse::Nothing,
        };
    }
    if !mouse {
        return PaneMouse::Nothing;
    }
    if let Some(up) = e.wheel {
        if s.alternate && copy.is_none() {
            return PaneMouse::Write(arrows(up, s.app_cursor));
        }
        open_copy(copy, s);
        let mut done: bool = false;
        if let Some(c) = copy {
            copy_scroll(c, s, if up { 3 } else { -3 });
            done = c.offset == 0 && c.anchor.is_none() && !up;
        }
        if done {
            *copy = None;
        }
        return PaneMouse::Nothing;
    }
    if e.pressed & BTN_RIGHT != 0 {
        *copy = None;
        return PaneMouse::Paste;
    }
    if e.pressed & BTN_LEFT != 0 {
        open_copy(copy, s);
        if let Some(c) = copy {
            point(c, s, px, py);
            let abs: usize = copy_abs(c, s);
            c.anchor = Some((abs, c.cx));
            c.dragging = true;
        }
        return PaneMouse::Nothing;
    }
    if e.motion && e.buttons & BTN_LEFT != 0 && copy.is_some() {
        if let Some(c) = copy {
            if c.dragging {
                point(c, s, px, py);
            }
        }
        return PaneMouse::Nothing;
    }
    if e.released & BTN_LEFT != 0 {
        let mut text: Option<String> = None;
        let mut ends: bool = false;
        if let Some(c) = copy {
            if c.dragging {
                ends = true;
                c.dragging = false;
                point(c, s, px, py);
                let abs: usize = copy_abs(c, s);
                let same: bool = match c.anchor {
                    Some((a, x)) => a == abs && x == c.cx,
                    None => true,
                };
                if !same {
                    text = copy_selection(c, s);
                }
            }
        }
        if ends {
            *copy = None;
            return match text {
                Some(t) => PaneMouse::Copy(t),
                None => PaneMouse::Nothing,
            };
        }
    }
    PaneMouse::Nothing
}

} // verus!
