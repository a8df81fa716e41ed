//! What a terminal sends, byte by byte.
use vstd::prelude::*;
use vstd::utf8::{encode_utf8, is_ascii_chars, is_ascii_chars_encode_utf8};

use crate::input::{
    carriage_returns, key_text, mouse_text, paste_text, record_text, send_bytes, MouseButton,
};
use crate::keys::{named_key, Key, KeyCode, KeyRecord};
use crate::text::decimal;

verus! {

/// The bytes of a text of ASCII characters are those characters.
pub proof fn lemma_ascii_bytes(s: Seq<char>, b: Seq<u8>)
    requires
        s.len() == b.len(),
        forall|i: int| 0 <= i < s.len() ==> '\0' <= #[trigger] s[i] <= '\u{7f}' && s[i] as u8 == b[i],
    ensures
        encode_utf8(s) == b,
{
    assert(is_ascii_chars(s));
    is_ascii_chars_encode_utf8(s);
    assert forall|i: int| 0 <= i < s.len() implies encode_utf8(s)[i] == b[i] by {
        assert(s[i] as u8 == encode_utf8(s)[i]);
    }
    assert(encode_utf8(s) =~= b);
}

/// The final byte of a cursor key.
pub open spec fn cursor_byte(c: KeyCode) -> u8 {
    match c {
        KeyCode::Up => 0x41,
        KeyCode::Down => 0x42,
        KeyCode::Right => 0x43,
        KeyCode::Left => 0x44,
        KeyCode::End => 0x46,
        _ => 0x48,
    }
}

/// The cursor keys: Up sends ESC [ A, Down ESC [ B, Right ESC [ C, Left
/// ESC [ D, Home ESC [ H and End ESC [ F; with O for [ where the program asked
/// for that; and with modifiers ESC [ 1 ; their number, and the letter.
pub proof fn lemma_cursor_keys(k: Key, app: bool)
    requires
        k.code is Up || k.code is Down || k.code is Right || k.code is Left || k.code is Home || k.code is End,
    ensures
        ({
            let none = !k.shift && !k.alt && !k.ctrl;
            let m = 0x31 + (if k.shift {
                1int
            } else {
                0
            }) + (if k.alt {
                2int
            } else {
                0
            }) + (if k.ctrl {
                4int
            } else {
                0
            });
            let last: u8 = match k.code {
                KeyCode::Up => 0x41,
                KeyCode::Down => 0x42,
                KeyCode::Right => 0x43,
                KeyCode::Left => 0x44,
                KeyCode::End => 0x46,
                _ => 0x48,
            };
            &&& none && !app ==> encode_utf8(key_text(k, app)) == seq![0x1bu8, 0x5b, last]
            &&& none && app ==> encode_utf8(key_text(k, app)) == seq![0x1bu8, 0x4f, last]
            &&& !none ==> encode_utf8(key_text(k, app)) == seq![0x1bu8, 0x5b, 0x31, 0x3b, m as u8, last]
        }),
{
    reveal_strlit("\x1b[");
    reveal_strlit("\x1bO");
    reveal_strlit("\x1b[1;");
    let s = key_text(k, app);
    let last = cursor_byte(k.code);
    let m = 0x31 + (if k.shift {
        1int
    } else {
        0
    }) + (if k.alt {
        2int
    } else {
        0
    }) + (if k.ctrl {
        4int
    } else {
        0
    });
    if !k.shift && !k.alt && !k.ctrl {
        assert(s.len() == 3);
        if app {
            lemma_ascii_bytes(s, seq![0x1bu8, 0x4f, last]);
        } else {
            lemma_ascii_bytes(s, seq![0x1bu8, 0x5b, last]);
        }
    } else {
        assert(s.len() == 6);
        lemma_ascii_bytes(s, seq![0x1bu8, 0x5b, 0x31, 0x3b, m as u8, last]);
    }
}

/// The keys of the editing block and the later function keys send ESC [, a
/// number of their own, and ~: Insert 2, Delete 3, PageUp 5, PageDown 6, F5
/// to F12 from 15 on; with modifiers ; and their number in between.
pub proof fn lemma_numbered_keys(k: Key, app: bool)
    requires
        k.code is IC || k.code is DC || k.code is PPage || k.code is NPage || (k.code is F && 5 <= k.code->F_0 <= 12),
    ensures
        ({
            let none = !k.shift && !k.alt && !k.ctrl;
            let m = 0x31 + (if k.shift {
                1int
            } else {
                0
            }) + (if k.alt {
                2int
            } else {
                0
            }) + (if k.ctrl {
                4int
            } else {
                0
            });
            let n: Seq<u8> = match k.code {
                KeyCode::IC => seq![0x32u8],
                KeyCode::DC => seq![0x33u8],
                KeyCode::PPage => seq![0x35u8],
                KeyCode::NPage => seq![0x36u8],
                KeyCode::F(f) => if f == 5 {
                    seq![0x31u8, 0x35]
                } else if f == 6 {
                    seq![0x31u8, 0x37]
                } else if f == 7 {
                    seq![0x31u8, 0x38]
                } else if f == 8 {
                    seq![0x31u8, 0x39]
                } else if f == 9 {
                    seq![0x32u8, 0x30]
                } else if f == 10 {
                    seq![0x32u8, 0x31]
                } else if f == 11 {
                    seq![0x32u8, 0x33]
                } else {
                    seq![0x32u8, 0x34]
                },
                _ => Seq::empty(),
            };
            &&& none ==> encode_utf8(key_text(k, app)) == seq![0x1bu8, 0x5b] + n + seq![0x7eu8]
            &&& !none ==> encode_utf8(key_text(k, app)) == seq![0x1bu8, 0x5b] + n + seq![0x3bu8, m as u8, 0x7e]
        }),
{
    reveal_strlit("\x1b[");
    reveal_strlit(";");
    reveal_strlit("2");
    reveal_strlit("3");
    reveal_strlit("5");
    reveal_strlit("6");
    reveal_strlit("15");
    reveal_strlit("17");
    reveal_strlit("18");
    reveal_strlit("19");
    reveal_strlit("20");
    reveal_strlit("21");
    reveal_strlit("23");
    reveal_strlit("24");
    let s = key_text(k, app);
    let n: Seq<u8> = match k.code {
        KeyCode::IC => seq![0x32u8],
        KeyCode::DC => seq![0x33u8],
        KeyCode::PPage => seq![0x35u8],
        KeyCode::NPage => seq![0x36u8],
        KeyCode::F(f) => if f == 5 {
            seq![0x31u8, 0x35]
        } else if f == 6 {
            seq![0x31u8, 0x37]
        } else if f == 7 {
            seq![0x31u8, 0x38]
        } else if f == 8 {
            seq![0x31u8, 0x39]
        } else if f == 9 {
            seq![0x32u8, 0x30]
        } else if f == 10 {
            seq![0x32u8, 0x31]
        } else if f == 11 {
            seq![0x32u8, 0x33]
        } else {
            seq![0x32u8, 0x34]
        },
        _ => Seq::empty(),
    };
    let m = 0x31 + (if k.shift {
        1int
    } else {
        0
    }) + (if k.alt {
        2int
    } else {
        0
    }) + (if k.ctrl {
        4int
    } else {
        0
    });
    if !k.shift && !k.alt && !k.ctrl {
        lemma_ascii_bytes(s, seq![0x1bu8, 0x5b] + n + seq![0x7eu8]);
    } else {
        lemma_ascii_bytes(s, seq![0x1bu8, 0x5b] + n + seq![0x3bu8, m as u8, 0x7e]);
    }
}

/// F1 to F4 send ESC O and P to S; with modifiers ESC [ 1 ; their number, and
/// the letter.
pub proof fn lemma_first_function_keys(k: Key, app: bool)
    requires
        k.code is F,
        1 <= k.code->F_0 <= 4,
    ensures
        ({
            let none = !k.shift && !k.alt && !k.ctrl;
            let m = 0x31 + (if k.shift {
                1int
            } else {
                0
            }) + (if k.alt {
                2int
            } else {
                0
            }) + (if k.ctrl {
                4int
            } else {
                0
            });
            let last = (0x4f + k.code->F_0) as u8;
            &&& none ==> encode_utf8(key_text(k, app)) == seq![0x1bu8, 0x4f, last]
            &&& !none ==> encode_utf8(key_text(k, app)) == seq![0x1bu8, 0x5b, 0x31, 0x3b, m as u8, last]
        }),
{
    reveal_strlit("\x1b[");
    reveal_strlit("\x1bO");
    reveal_strlit("1");
    reveal_strlit(";");
    let s = key_text(k, app);
    let last = (0x4f + k.code->F_0) as u8;
    let m = 0x31 + (if k.shift {
        1int
    } else {
        0
    }) + (if k.alt {
        2int
    } else {
        0
    }) + (if k.ctrl {
        4int
    } else {
        0
    });
    if !k.shift && !k.alt && !k.ctrl {
        lemma_ascii_bytes(s, seq![0x1bu8, 0x4f, last]);
    } else {
        lemma_ascii_bytes(s, seq![0x1bu8, 0x5b, 0x31, 0x3b, m as u8, last]);
    }
}

/// Enter sends a carriage return, Escape an escape, Tab a tab and with Shift
/// ESC [ Z, Backspace a delete, with Ctrl a backspace, and with Alt an escape
/// in front.
pub proof fn lemma_typing_keys(k: Key, app: bool)
    ensures
        k.code is Enter && !k.shift && !k.alt && !k.ctrl ==> encode_utf8(key_text(k, app)) == seq![0x0du8],
        k.code is Escape ==> encode_utf8(key_text(k, app)) == seq![0x1bu8],
        k.code is Tab && !k.shift && !k.alt ==> encode_utf8(key_text(k, app)) == seq![0x09u8],
        k.code is Tab && k.shift ==> encode_utf8(key_text(k, app)) == seq![0x1bu8, 0x5b, 0x5a],
        k.code is Tab && !k.shift && k.alt ==> encode_utf8(key_text(k, app)) == seq![0x1bu8, 0x09],
        k.code is BSpace && !k.alt && !k.ctrl ==> encode_utf8(key_text(k, app)) == seq![0x7fu8],
        k.code is BSpace && !k.alt && k.ctrl ==> encode_utf8(key_text(k, app)) == seq![0x08u8],
        k.code is BSpace && k.alt ==> encode_utf8(key_text(k, app)) == seq![0x1bu8, 0x7f],
{
    reveal_strlit("\r");
    reveal_strlit("\x1b");
    reveal_strlit("\t");
    reveal_strlit("\x1b[Z");
    reveal_strlit("\x1b\t");
    reveal_strlit("\x7f");
    reveal_strlit("\x08");
    reveal_strlit("\x1b\x7f");
    let s = key_text(k, app);
    if k.code is Enter && !k.shift && !k.alt && !k.ctrl {
        lemma_ascii_bytes(s, seq![0x0du8]);
    }
    if k.code is Escape {
        lemma_ascii_bytes(s, seq![0x1bu8]);
    }
    if k.code is Tab {
        if k.shift {
            lemma_ascii_bytes(s, seq![0x1bu8, 0x5b, 0x5a]);
        } else if k.alt {
            lemma_ascii_bytes(s, seq![0x1bu8, 0x09]);
        } else {
            lemma_ascii_bytes(s, seq![0x09u8]);
        }
    }
    if k.code is BSpace {
        if k.alt {
            lemma_ascii_bytes(s, seq![0x1bu8, 0x7f]);
        } else if k.ctrl {
            lemma_ascii_bytes(s, seq![0x08u8]);
        } else {
            lemma_ascii_bytes(s, seq![0x7fu8]);
        }
    }
}

/// A character sends itself; with Ctrl a letter sends its place in the
/// alphabet, and some others a control character; with Alt an escape comes
/// first.
pub proof fn lemma_char_keys(k: Key, app: bool, c: char)
    requires
        k.code == KeyCode::Char(c),
    ensures
        !k.ctrl && !k.alt ==> encode_utf8(key_text(k, app)) == encode_utf8(seq![c]),
        !k.ctrl && k.alt ==> key_text(k, app) == seq!['\x1b', c],
        k.ctrl && !k.alt && 'a' <= c <= 'z' ==> encode_utf8(key_text(k, app)) == seq![(c as u32 - 0x60) as u8],
        k.ctrl && !k.alt && 'A' <= c <= 'Z' ==> encode_utf8(key_text(k, app)) == seq![(c as u32 - 0x40) as u8],
        k.ctrl && !k.alt && c == ' ' ==> encode_utf8(key_text(k, app)) == seq![0u8],
        k.ctrl && !k.alt && '[' <= c <= '_' ==> encode_utf8(key_text(k, app)) == seq![(c as u32 - 0x40) as u8],
        k.ctrl && !k.alt && c == '?' ==> encode_utf8(key_text(k, app)) == seq![0x7fu8],
        k.ctrl && k.alt && 'a' <= c <= 'z' ==> encode_utf8(key_text(k, app)) == seq![0x1bu8, (c as u32 - 0x60) as u8],
{
    reveal_strlit("\x1b");
    let s = key_text(k, app);
    if !k.ctrl {
        if k.alt {
            assert(s =~= seq!['\x1b', c]);
        } else {
            assert(s =~= seq![c]);
        }
    } else {
        if 'a' <= c <= 'z' {
            if k.alt {
                lemma_ascii_bytes(s, seq![0x1bu8, (c as u32 - 0x60) as u8]);
            } else {
                lemma_ascii_bytes(s, seq![(c as u32 - 0x60) as u8]);
            }
        }
        if !k.alt {
            if 'A' <= c <= 'Z' || '[' <= c <= '_' {
                lemma_ascii_bytes(s, seq![(c as u32 - 0x40) as u8]);
            }
            if c == ' ' {
                lemma_ascii_bytes(s, seq![0u8]);
            }
            if c == '?' {
                lemma_ascii_bytes(s, seq![0x7fu8]);
            }
        }
    }
}

/// A word of more than one character that names a key is sent as that key,
/// and any other as it is written.
pub proof fn lemma_sent_words(word: Seq<char>, app: bool)
    ensures
        word.len() <= 1 ==> send_bytes(word, app) == encode_utf8(word),
        named_key(word) is None ==> send_bytes(word, app) == encode_utf8(word),
        word.len() > 1 && named_key(word) is Some ==> send_bytes(word, app) == encode_utf8(
            key_text(named_key(word)->0, app),
        ),
{
}

/// The names of keys.
pub proof fn lemma_key_names()
    ensures
        named_key("Up"@) == Some(Key { code: KeyCode::Up, ctrl: false, alt: false, shift: false }),
        named_key("Down"@) == Some(Key { code: KeyCode::Down, ctrl: false, alt: false, shift: false }),
        named_key("Left"@) == Some(Key { code: KeyCode::Left, ctrl: false, alt: false, shift: false }),
        named_key("Right"@) == Some(Key { code: KeyCode::Right, ctrl: false, alt: false, shift: false }),
        named_key("Home"@) == Some(Key { code: KeyCode::Home, ctrl: false, alt: false, shift: false }),
        named_key("End"@) == Some(Key { code: KeyCode::End, ctrl: false, alt: false, shift: false }),
        named_key("PPage"@) == Some(Key { code: KeyCode::PPage, ctrl: false, alt: false, shift: false }),
        named_key("NPage"@) == Some(Key { code: KeyCode::NPage, ctrl: false, alt: false, shift: false }),
        named_key("IC"@) == Some(Key { code: KeyCode::IC, ctrl: false, alt: false, shift: false }),
        named_key("DC"@) == Some(Key { code: KeyCode::DC, ctrl: false, alt: false, shift: false }),
        named_key("Enter"@) == Some(Key { code: KeyCode::Enter, ctrl: false, alt: false, shift: false }),
        named_key("Escape"@) == Some(Key { code: KeyCode::Escape, ctrl: false, alt: false, shift: false }),
        named_key("Tab"@) == Some(Key { code: KeyCode::Tab, ctrl: false, alt: false, shift: false }),
        named_key("BSpace"@) == Some(Key { code: KeyCode::BSpace, ctrl: false, alt: false, shift: false }),
        named_key("Space"@) == Some(Key { code: KeyCode::Char(' '), ctrl: false, alt: false, shift: false }),
{
    reveal_strlit("Space");
    reveal_strlit("Enter");
    reveal_strlit("Escape");
    reveal_strlit("Tab");
    reveal_strlit("BSpace");
    reveal_strlit("Up");
    reveal_strlit("Down");
    reveal_strlit("Left");
    reveal_strlit("Right");
    reveal_strlit("Home");
    reveal_strlit("End");
    reveal_strlit("PPage");
    reveal_strlit("NPage");
    reveal_strlit("IC");
    reveal_strlit("DC");
    assert("Space"@ =~= seq!['S', 'p', 'a', 'c', 'e']);
    assert("Enter"@ =~= seq!['E', 'n', 't', 'e', 'r']);
    assert("Escape"@ =~= seq!['E', 's', 'c', 'a', 'p', 'e']);
    assert("Tab"@ =~= seq!['T', 'a', 'b']);
    assert("BSpace"@ =~= seq!['B', 'S', 'p', 'a', 'c', 'e']);
    assert("Up"@ =~= seq!['U', 'p']);
    assert("Down"@ =~= seq!['D', 'o', 'w', 'n']);
    assert("Left"@ =~= seq!['L', 'e', 'f', 't']);
    assert("Right"@ =~= seq!['R', 'i', 'g', 'h', 't']);
    assert("Home"@ =~= seq!['H', 'o', 'm', 'e']);
    assert("End"@ =~= seq!['E', 'n', 'd']);
    assert("PPage"@ =~= seq!['P', 'P', 'a', 'g', 'e']);
    assert("NPage"@ =~= seq!['N', 'P', 'a', 'g', 'e']);
    assert("IC"@ =~= seq!['I', 'C']);
    assert("DC"@ =~= seq!['D', 'C']);
}

/// A character names its key; `C-`, `M-` and `S-` in front of a name hold
/// Ctrl, Alt and Shift; F and a number name a function key.
pub proof fn lemma_key_words(word: Seq<char>)
    ensures
        word.len() == 1 ==> named_key(word) == Some(
            Key { code: KeyCode::Char(word[0]), ctrl: false, alt: false, shift: false },
        ),
        word.len() == 0 ==> named_key(word) is None,
        word.len() > 2 && word[0] == 'C' && word[1] == '-' ==> match (named_key(word), named_key(word.skip(2))) {
            (Some(k), Some(l)) => k.code == l.code && k.ctrl && k.alt == l.alt && k.shift == l.shift,
            (None, None) => true,
            _ => false,
        },
        word.len() > 2 && word[0] == 'M' && word[1] == '-' ==> match (named_key(word), named_key(word.skip(2))) {
            (Some(k), Some(l)) => k.code == l.code && k.alt && k.ctrl == l.ctrl && k.shift == l.shift,
            (None, None) => true,
            _ => false,
        },
        word.len() > 2 && word[0] == 'S' && word[1] == '-' ==> match (named_key(word), named_key(word.skip(2))) {
            (Some(k), Some(l)) => k.code == l.code && k.shift && k.alt == l.alt && k.ctrl == l.ctrl,
            (None, None) => true,
            _ => false,
        },
        word.len() == 2 && word[0] == 'F' && '1' <= word[1] <= '9' ==> named_key(word) is Some && named_key(word)->0.code
            == KeyCode::F((word[1] as u32 - 0x30) as u8),
        word.len() == 3 && word[0] == 'F' && word[1] == '1' && '0' <= word[2] <= '2' ==> named_key(word) is Some
            && named_key(word)->0.code == KeyCode::F((10 + word[2] as u32 - 0x30) as u8),
{
    reveal_strlit("Space");
    reveal_strlit("Enter");
    reveal_strlit("Escape");
    reveal_strlit("Tab");
    reveal_strlit("BSpace");
    reveal_strlit("Up");
    reveal_strlit("Down");
    reveal_strlit("Left");
    reveal_strlit("Right");
    reveal_strlit("Home");
    reveal_strlit("End");
    reveal_strlit("PPage");
    reveal_strlit("NPage");
    reveal_strlit("IC");
    reveal_strlit("DC");
}

/// A mouse report: ESC [ <, the button, the column and the row counted from
/// one, and M for a press or m for a release. The left, middle and right
/// buttons are 0, 1 and 2, none is 3, the wheel is 64 and 65; Shift adds 4,
/// Alt 8, Ctrl 16 and a motion 32.
pub proof fn lemma_mouse_report(
    button: MouseButton,
    motion: bool,
    release: bool,
    shift: bool,
    alt: bool,
    ctrl: bool,
    col: u16,
    row: u16,
)
    ensures
        ({
            let b: int = match button {
                MouseButton::Left => 0,
                MouseButton::Middle => 1,
                MouseButton::Right => 2,
                MouseButton::NoButton => 3,
                MouseButton::WheelUp => 64,
                MouseButton::WheelDown => 65,
            };
            let n = b + (if shift {
                4int
            } else {
                0
            }) + (if alt {
                8int
            } else {
                0
            }) + (if ctrl {
                16int
            } else {
                0
            }) + (if motion {
                32int
            } else {
                0
            });
            mouse_text(button, motion, release, shift, alt, ctrl, col, row) == seq!['\x1b', '[', '<'] + decimal(n as nat)
                + seq![';'] + decimal((col + 1) as nat) + seq![';'] + decimal((row + 1) as nat) + seq![
                if release {
                    'm'
                } else {
                    'M'
                },
            ]
        }),
{
    reveal_strlit("\x1b[<");
    reveal_strlit(";");
    assert("\x1b[<"@ =~= seq!['\x1b', '[', '<']);
    assert(";"@ =~= seq![';']);
}

/// A key as a console reports it: ESC [, then its key code, scan code and
/// character, 1 for down or 0 for up, the state of the modifiers and how
/// often it repeats, and _.
pub proof fn lemma_key_record(r: KeyRecord)
    ensures
        record_text(r) == seq!['\x1b', '['] + decimal(r.vk as nat) + seq![';'] + decimal(r.sc as nat) + seq![';']
            + decimal(r.ch as nat) + seq![
            ';',
            if r.down {
                '1'
            } else {
                '0'
            },
            ';',
        ] + decimal(r.ctrl as nat) + seq![';'] + decimal(
            if r.repeat == 0 {
                1
            } else {
                r.repeat as nat
            },
        ) + seq!['_'],
{
    reveal_strlit("\x1b[");
    reveal_strlit(";");
    reveal_strlit("_");
    assert("\x1b["@ =~= seq!['\x1b', '[']);
    assert(";"@ =~= seq![';']);
    assert("_"@ =~= seq!['_']);
    let head = seq!['\x1b', '['] + decimal(r.vk as nat) + seq![';'] + decimal(r.sc as nat) + seq![';'] + decimal(
        r.ch as nat,
    );
    let d = if r.down {
        '1'
    } else {
        '0'
    };
    assert(head + seq![';'] + seq![d] + seq![';'] =~= head + seq![';', d, ';']);
}

/// Pasted text is sent as it is, but that every line end is the carriage
/// return that Enter sends, and between ESC [ 200 ~ and ESC [ 201 ~ where the
/// program asked for that.
pub proof fn lemma_paste(a: Seq<char>, b: Seq<char>)
    ensures
        !a.contains('\n') ==> carriage_returns(a) == a,
        !a.contains('\n') && (a.len() == 0 || a.last() != '\r') ==> carriage_returns(a + seq!['\n'] + b) == a + seq!['\r']
            + carriage_returns(b),
        !a.contains('\n') ==> carriage_returns(a + seq!['\r', '\n'] + b) == a + seq!['\r'] + carriage_returns(b),
        paste_text(a, false) == carriage_returns(a),
        paste_text(a, true) == seq!['\x1b', '[', '2', '0', '0', '~'] + carriage_returns(a) + seq![
            '\x1b',
            '[',
            '2',
            '0',
            '1',
            '~',
        ],
{
    reveal_strlit("\x1b[200~");
    reveal_strlit("\x1b[201~");
    assert("\x1b[200~"@ =~= seq!['\x1b', '[', '2', '0', '0', '~']);
    assert("\x1b[201~"@ =~= seq!['\x1b', '[', '2', '0', '1', '~']);
    if !a.contains('\n') {
        lemma_plain_paste(a, Seq::empty());
        assert(a + Seq::<char>::empty() =~= a);
        assert(carriage_returns(Seq::<char>::empty()) =~= Seq::empty());
        if a.len() == 0 || a.last() != '\r' {
            let tail = seq!['\n'] + b;
            assert(tail.skip(1) =~= b);
            assert(a + seq!['\n'] + b =~= a + tail);
            lemma_plain_paste(a, tail);
            assert(carriage_returns(tail) =~= seq!['\r'] + carriage_returns(b));
            assert(a + carriage_returns(tail) =~= a + seq!['\r'] + carriage_returns(b));
        }
        let tail = seq!['\r', '\n'] + b;
        assert(tail.skip(2) =~= b);
        assert(a + seq!['\r', '\n'] + b =~= a + tail);
        lemma_plain_paste(a, tail);
        assert(carriage_returns(tail) =~= seq!['\r'] + carriage_returns(b));
        assert(a + carriage_returns(tail) =~= a + seq!['\r'] + carriage_returns(b));
    }
}

proof fn lemma_plain_paste(a: Seq<char>, tail: Seq<char>)
    requires
        !a.contains('\n'),
        a.len() == 0 || a.last() != '\r' || tail.len() == 0 || tail[0] != '\n',
    ensures
        carriage_returns(a + tail) == a + carriage_returns(tail),
    decreases a.len(),
{
    if a.len() > 0 {
        let s = a + tail;
        assert(a[0] != '\n') by {
            assert(a.contains(a[0]));
        }
        assert(s.skip(1) =~= a.skip(1) + tail);
        assert forall|i: int| 0 <= i < a.skip(1).len() implies a.skip(1)[i] != '\n' by {
            assert(a.contains(a[i + 1]));
        }
        assert(s[0] == a[0]);
        if a.len() > 1 {
            assert(s[1] == a[1]);
            assert(a.contains(a[1]));
            assert(a.skip(1).last() == a.last());
        } else if tail.len() > 0 {
            assert(s[1] == tail[0]);
        }
        lemma_plain_paste(a.skip(1), tail);
        assert(carriage_returns(s) =~= a + carriage_returns(tail));
    } else {
        assert(a + tail =~= tail);
        assert(a + carriage_returns(tail) =~= carriage_returns(tail));
    }
}

} // verus!
