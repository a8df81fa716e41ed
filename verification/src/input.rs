//! Encoding of client input for a pane's terminal.
use vstd::prelude::*;
use vstd::utf8::encode_utf8;
use crate::keys::{named_key, Key, KeyCode, KeyRecord};
use crate::text::{bytes_of, chars_of, decimal, push_decimal};

verus! {

/// The win32-input-mode report of a key: `ESC [ Vk ; Sc ; Uc ; Kd ; Cs ; Rc _`.
pub open spec fn record_text(r: KeyRecord) -> Seq<char> {
    "\x1b["@ + decimal(r.vk as nat) + ";"@ + decimal(r.sc as nat) + ";"@ + decimal(r.ch as nat) + ";"@ + decimal(
        if r.down {
            1
        } else {
            0
        },
    ) + ";"@ + decimal(r.ctrl as nat) + ";"@ + decimal(
        if r.repeat > 1 {
            r.repeat as nat
        } else {
            1
        },
    ) + "_"@
}

/// win32-input-mode sequence understood by ConPTY: `ESC [ Vk ; Sc ; Uc ; Kd ; Cs ; Rc _`.
pub fn encode_key_record(r: &KeyRecord) -> (out: Vec<u8>)
    ensures
        out@ == encode_utf8(record_text(*r)),
{
    let mut s = "\x1b[".to_owned();
    push_decimal(&mut s, r.vk as u64);
    s.push_str(";");
    push_decimal(&mut s, r.sc as u64);
    s.push_str(";");
    push_decimal(&mut s, r.ch as u64);
    s.push_str(";");
    push_decimal(&mut s, if r.down { 1 } else { 0 });
    s.push_str(";");
    push_decimal(&mut s, r.ctrl as u64);
    s.push_str(";");
    push_decimal(&mut s, if r.repeat > 1 { r.repeat as u64 } else { 1 });
    s.push_str("_");
    bytes_of(s.as_str())
}

/// xterm's number for a set of modifiers.
pub open spec fn modifier(k: Key) -> nat {
    (1 + (if k.shift {
        1int
    } else {
        0
    }) + (if k.alt {
        2int
    } else {
        0
    }) + (if k.ctrl {
        4int
    } else {
        0
    })) as nat
}

/// A control sequence with the modifiers in it, when there are any.
pub open spec fn modified(code: Seq<char>, last: char, m: nat) -> Seq<char> {
    if m == 1 {
        "\x1b["@ + code + seq![last]
    } else if code.len() == 0 {
        "\x1b[1;"@ + decimal(m) + seq![last]
    } else {
        "\x1b["@ + code + ";"@ + decimal(m) + seq![last]
    }
}

/// A cursor key, which applications can ask for in another form.
pub open spec fn cursor_text(last: char, m: nat, app_cursor: bool) -> Seq<char> {
    if m == 1 && app_cursor {
        "\x1bO"@ + seq![last]
    } else {
        modified(Seq::empty(), last, m)
    }
}

/// The control character of `c`, when it has one.
pub open spec fn control_char(c: char) -> Option<char> {
    if c == ' ' || c == '@' || c == '2' {
        Some('\0')
    } else if 'a' <= c <= 'z' {
        Some((c as u32 - 'a' as u32 + 1) as u8 as char)
    } else if 'A' <= c <= 'Z' {
        Some((c as u32 - 'A' as u32 + 1) as u8 as char)
    } else if c == '[' || c == '3' {
        Some('\x1b')
    } else if c == '\\' || c == '4' {
        Some('\x1c')
    } else if c == ']' || c == '5' {
        Some('\x1d')
    } else if c == '^' || c == '6' {
        Some('\x1e')
    } else if c == '_' || c == '7' || c == '-' {
        Some('\x1f')
    } else if c == '?' || c == '8' {
        Some('\x7f')
    } else {
        None
    }
}

/// The final character of F1 to F4.
pub open spec fn function_char(n: u8) -> char {
    if n == 1 {
        'P'
    } else if n == 2 {
        'Q'
    } else if n == 3 {
        'R'
    } else {
        'S'
    }
}

/// What a terminal sends for a key.
pub open spec fn key_text(k: Key, app_cursor: bool) -> Seq<char> {
    let m = modifier(k);
    match k.code {
        KeyCode::Char(c) => (if k.alt {
            "\x1b"@
        } else {
            Seq::empty()
        }) + seq![
            match control_char(c) {
                Some(b) => if k.ctrl {
                    b
                } else {
                    c
                },
                None => c,
            },
        ],
        KeyCode::Enter => if m == 1 {
            "\r"@
        } else {
            "\x1b[27;"@ + decimal(m) + ";13~"@
        },
        KeyCode::Escape => "\x1b"@,
        KeyCode::Tab => if k.shift {
            "\x1b[Z"@
        } else if k.alt {
            "\x1b\t"@
        } else {
            "\t"@
        },
        KeyCode::BSpace => if k.alt {
            "\x1b\x7f"@
        } else if k.ctrl {
            "\x08"@
        } else {
            "\x7f"@
        },
        KeyCode::Up => cursor_text('A', m, app_cursor),
        KeyCode::Down => cursor_text('B', m, app_cursor),
        KeyCode::Right => cursor_text('C', m, app_cursor),
        KeyCode::Left => cursor_text('D', m, app_cursor),
        KeyCode::Home => cursor_text('H', m, app_cursor),
        KeyCode::End => cursor_text('F', m, app_cursor),
        KeyCode::PPage => modified("5"@, '~', m),
        KeyCode::NPage => modified("6"@, '~', m),
        KeyCode::IC => modified("2"@, '~', m),
        KeyCode::DC => modified("3"@, '~', m),
        KeyCode::F(n) => if 1 <= n <= 4 {
            if m == 1 {
                "\x1bO"@ + seq![function_char(n)]
            } else {
                modified("1"@, function_char(n), m)
            }
        } else if n == 5 {
            modified("15"@, '~', m)
        } else if n == 6 {
            modified("17"@, '~', m)
        } else if n == 7 {
            modified("18"@, '~', m)
        } else if n == 8 {
            modified("19"@, '~', m)
        } else if n == 9 {
            modified("20"@, '~', m)
        } else if n == 10 {
            modified("21"@, '~', m)
        } else if n == 11 {
            modified("23"@, '~', m)
        } else if n == 12 {
            modified("24"@, '~', m)
        } else {
            Seq::empty()
        },
    }
}

fn modifier_of(k: Key) -> (m: u64)
    ensures
        m == modifier(k),
{
    let mut m: u64 = 1;
    if k.shift {
        m = m + 1;
    }
    if k.alt {
        m = m + 2;
    }
    if k.ctrl {
        m = m + 4;
    }
    m
}

fn with_mod(code: &str, last: char, m: u64) -> (s: String)
    ensures
        s@ == modified(code@, last, m as nat),
{
    let mut s = String::new();
    if m == 1 {
        s.push_str("\x1b[");
        s.push_str(code);
    } else if code.is_empty() {
        s.push_str("\x1b[1;");
        push_decimal(&mut s, m);
    } else {
        s.push_str("\x1b[");
        s.push_str(code);
        s.push_str(";");
        push_decimal(&mut s, m);
    }
    s.push(last);
    assert(s@ =~= modified(code@, last, m as nat));
    s
}

fn cursor(last: char, m: u64, app_cursor: bool) -> (s: String)
    ensures
        s@ == cursor_text(last, m as nat, app_cursor),
{
    if m == 1 && app_cursor {
        let mut s = "\x1bO".to_owned();
        s.push(last);
        assert(s@ =~= "\x1bO"@ + seq![last]);
        s
    } else {
        proof {
            reveal_strlit("");
        }
        assert(""@ =~= Seq::<char>::empty());
        with_mod("", last, m)
    }
}

fn control_of(c: char) -> (b: Option<char>)
    ensures
        b == control_char(c),
{
    match c {
        ' ' | '@' | '2' => Some('\0'),
        'a'..='z' => Some((c as u32 - 'a' as u32 + 1) as u8 as char),
        'A'..='Z' => Some((c as u32 - 'A' as u32 + 1) as u8 as char),
        '[' | '3' => Some('\x1b'),
        '\\' | '4' => Some('\x1c'),
        ']' | '5' => Some('\x1d'),
        '^' | '6' => Some('\x1e'),
        '_' | '7' | '-' => Some('\x1f'),
        '?' | '8' => Some('\x7f'),
        _ => None,
    }
}

fn function_key(n: u8, m: u64) -> (s: String)
    ensures
        forall|k: Key, app: bool|
            k.code == KeyCode::F(n) && modifier(k) == m ==> s@ == #[trigger] key_text(k, app),
{
    match n {
        1 | 2 | 3 | 4 => {
            let last: char = if n == 1 {
                'P'
            } else if n == 2 {
                'Q'
            } else if n == 3 {
                'R'
            } else {
                'S'
            };
            if m == 1 {
                let mut s = "\x1bO".to_owned();
                s.push(last);
                assert(s@ =~= "\x1bO"@ + seq![last]);
                s
            } else {
                with_mod("1", last, m)
            }
        },
        5 => with_mod("15", '~', m),
        6 => with_mod("17", '~', m),
        7 => with_mod("18", '~', m),
        8 => with_mod("19", '~', m),
        9 => with_mod("20", '~', m),
        10 => with_mod("21", '~', m),
        11 => with_mod("23", '~', m),
        12 => with_mod("24", '~', m),
        _ => String::new(),
    }
}

fn char_key(k: Key, c: char) -> (s: String)
    requires
        k.code == KeyCode::Char(c),
    ensures
        s@ == key_text(k, false),
        s@ == key_text(k, true),
{
    let mut s = String::new();
    if k.alt {
        s.push_str("\x1b");
    }
    match control_of(c) {
        Some(b) => {
            if k.ctrl {
                s.push(b);
            } else {
                s.push(c);
            }
        },
        None => s.push(c),
    }
    assert(s@ =~= key_text(k, false));
    s
}

/// Plain VT (xterm) encoding of a logical key, for `send-keys` and keys
/// the server makes up itself.
pub fn encode_key(k: Key, app_cursor: bool) -> (out: Vec<u8>)
    ensures
        out@ == encode_utf8(key_text(k, app_cursor)),
{
    let m: u64 = modifier_of(k);
    let s = match k.code {
        KeyCode::Char(c) => char_key(k, c),
        KeyCode::Enter => {
            if m == 1 {
                "\r".to_owned()
            } else {
                // xterm modifyOtherKeys form.
                let mut s = "\x1b[27;".to_owned();
                push_decimal(&mut s, m);
                s.push_str(";13~");
                s
            }
        },
        KeyCode::Escape => "\x1b".to_owned(),
        KeyCode::Tab => {
            if k.shift {
                "\x1b[Z".to_owned()
            } else if k.alt {
                "\x1b\t".to_owned()
            } else {
                "\t".to_owned()
            }
        },
        KeyCode::BSpace => {
            if k.alt {
                "\x1b\x7f".to_owned()
            } else if k.ctrl {
                "\x08".to_owned()
            } else {
                "\x7f".to_owned()
            }
        },
        KeyCode::Up => cursor('A', m, app_cursor),
        KeyCode::Down => cursor('B', m, app_cursor),
        KeyCode::Right => cursor('C', m, app_cursor),
        KeyCode::Left => cursor('D', m, app_cursor),
        KeyCode::Home => cursor('H', m, app_cursor),
        KeyCode::End => cursor('F', m, app_cursor),
        KeyCode::PPage => with_mod("5", '~', m),
        KeyCode::NPage => with_mod("6", '~', m),
        KeyCode::IC => with_mod("2", '~', m),
        KeyCode::DC => with_mod("3", '~', m),
        KeyCode::F(n) => function_key(n, m),
    };
    assert(s@ == key_text(k, app_cursor));
    bytes_of(s.as_str())
}

/// A `send-keys` argument as a terminal would send it.
pub open spec fn send_bytes(word: Seq<char>, app_cursor: bool) -> Seq<u8> {
    if word.len() > 1 && named_key(word) is Some {
        encode_utf8(key_text(named_key(word)->0, app_cursor))
    } else {
        encode_utf8(word)
    }
}

/// Encode a `send-keys` argument: a key name if it parses as one and is not a
/// single character, else the literal text.
pub fn encode_send_key(word: &str, app_cursor: bool) -> (out: Vec<u8>)
    ensures
        out@ == send_bytes(word@, app_cursor),
{
    let chars = chars_of(word);
    if chars.len() > 1 {
        if let Some(k) = Key::parse(word) {
            return encode_key(k, app_cursor);
        }
    }
    bytes_of(word)
}

#[derive(Clone, Copy, Debug, PartialEq, Eq, Structural)]
pub enum MouseButton {
    Left,
    Middle,
    Right,
    WheelUp,
    WheelDown,
    NoButton,
}

/// The number of a button with its modifiers in a mouse report.
pub open spec fn mouse_number(button: MouseButton, motion: bool, shift: bool, alt: bool, ctrl: bool) -> nat {
    let b: int = match button {
        MouseButton::Left => 0,
        MouseButton::Middle => 1,
        MouseButton::Right => 2,
        MouseButton::NoButton => 3,
        MouseButton::WheelUp => 64,
        MouseButton::WheelDown => 65,
    };
    (b + (if shift {
        4int
    } else {
        0
    }) + (if alt {
        8int
    } else {
        0
    }) + (if ctrl {
        16int
    } else {
        0
    }) + (if motion {
        32int
    } else {
        0
    })) as nat
}

/// The SGR report of a mouse event: cells count from one.
pub open spec fn mouse_text(
    button: MouseButton,
    motion: bool,
    release: bool,
    shift: bool,
    alt: bool,
    ctrl: bool,
    col: u16,
    row: u16,
) -> Seq<char> {
    "\x1b[<"@ + decimal(mouse_number(button, motion, shift, alt, ctrl)) + ";"@ + decimal((col + 1) as nat) + ";"@
        + decimal((row + 1) as nat) + seq![
        if release {
            'm'
        } else {
            'M'
        },
    ]
}

/// SGR (1006) mouse report. `release` selects the `m` final byte.
#[verifier::spinoff_prover]
#[verifier::rlimit(40)]
pub fn encode_mouse_sgr(
    button: MouseButton,
    motion: bool,
    release: bool,
    shift: bool,
    alt: bool,
    ctrl: bool,
    col: u16,
    row: u16,
) -> (out: Vec<u8>)
    ensures
        out@ == encode_utf8(mouse_text(button, motion, release, shift, alt, ctrl, col, row)),
{
    let mut b: u64 = match button {
        MouseButton::Left => 0,
        MouseButton::Middle => 1,
        MouseButton::Right => 2,
        MouseButton::NoButton => 3,
        MouseButton::WheelUp => 64,
        MouseButton::WheelDown => 65,
    };
    if shift {
        b = b + 4;
    }
    if alt {
        b = b + 8;
    }
    if ctrl {
        b = b + 16;
    }
    if motion {
        b = b + 32;
    }
    let mut s = "\x1b[<".to_owned();
    push_decimal(&mut s, b);
    s.push_str(";");
    push_decimal(&mut s, col as u64 + 1);
    s.push_str(";");
    push_decimal(&mut s, row as u64 + 1);
    s.push(if release { 'm' } else { 'M' });
    assert(s@ =~= mouse_text(button, motion, release, shift, alt, ctrl, col, row));
    bytes_of(s.as_str())
}

/// Every line end as the carriage return that the Enter key sends.
pub open spec fn carriage_returns(s: Seq<char>) -> Seq<char>
    decreases s.len(),
{
    if s.len() == 0 {
        s
    } else if s.len() >= 2 && s[0] == '\r' && s[1] == '\n' {
        seq!['\r'] + carriage_returns(s.skip(2))
    } else if s[0] == '\n' {
        seq!['\r'] + carriage_returns(s.skip(1))
    } else {
        seq![s[0]] + carriage_returns(s.skip(1))
    }
}

/// Pasted text, in markers when they are wanted.
pub open spec fn paste_text(text: Seq<char>, bracketed: bool) -> Seq<char> {
    if bracketed {
        "\x1b[200~"@ + carriage_returns(text) + "\x1b[201~"@
    } else {
        carriage_returns(text)
    }
}

/// Text paste, wrapped in bracketed-paste markers if the pane asked for them.
pub fn encode_paste(text: &str, bracketed: bool) -> (out: Vec<u8>)
    ensures
        out@ == encode_utf8(paste_text(text@, bracketed)),
{
    let t = chars_of(text);
    let mut s = String::new();
    if bracketed {
        s.push_str("\x1b[200~");
    }
    let ghost head = s@;
    let mut i: usize = 0;
    assert(t@.skip(0) =~= t@);
    while i < t.len()
        invariant
            i <= t@.len(),
            s@ + carriage_returns(t@.skip(i as int)) == head + carriage_returns(t@),
        decreases t.len() - i,
    {
        let ghost rest = t@.skip(i as int);
        let ghost before = s@;
        assert(rest[0] == t@[i as int]);
        if t.len() - i >= 2 {
            assert(rest[1] == t@[i + 1]);
        }
        if t.len() - i >= 2 && t[i] == '\r' && t[i + 1] == '\n' {
            s.push('\r');
            assert(rest.skip(2) =~= t@.skip(i + 2));
            i = i + 2;
        } else {
            s.push(if t[i] == '\n' { '\r' } else { t[i] });
            assert(rest.skip(1) =~= t@.skip(i + 1));
            i = i + 1;
        }
        assert(s@ + carriage_returns(t@.skip(i as int)) =~= before + carriage_returns(rest));
    }
    assert(carriage_returns(t@.skip(i as int)) =~= Seq::<char>::empty());
    assert(s@ =~= head + carriage_returns(t@));
    if bracketed {
        s.push_str("\x1b[201~");
    }
    assert(s@ =~= paste_text(text@, bracketed));
    bytes_of(s.as_str())
}

/// Pasted text holds no line feed: a program reads each line end as Enter.
pub proof fn lemma_paste_has_no_line_feed(s: Seq<char>)
    ensures
        !carriage_returns(s).contains('\n'),
        carriage_returns(s).len() <= s.len(),
    decreases s.len(),
{
    if s.len() > 0 {
        let n = if s.len() >= 2 && s[0] == '\r' && s[1] == '\n' { 2 } else { 1 };
        lemma_paste_has_no_line_feed(s.skip(n));
        let rest = carriage_returns(s.skip(n));
        assert forall|i: int| 0 <= i < carriage_returns(s).len() implies carriage_returns(s)[i] != '\n' by {
            if i > 0 {
                assert(carriage_returns(s)[i] == rest[i - 1]);
            }
        }
    }
}

} // verus!
