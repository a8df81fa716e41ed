//! Keys: as a terminal reports them, and as commands name them.
use vstd::prelude::*;
use crate::text::{chars_of, rest_is};

verus! {

/// A key press or release as the client's console reports it.
#[derive(Clone, Copy, Debug, PartialEq, Eq, Structural)]
pub struct KeyRecord {
    pub down: bool,
    pub repeat: u16,
    pub vk: u16,
    pub sc: u16,
    pub ch: u16,
    pub ctrl: u32,
}

/// A key without its modifiers.
#[derive(Clone, Copy, Debug, PartialEq, Eq, Hash, Structural)]
pub enum KeyCode {
    Char(char),
    Enter,
    Escape,
    Tab,
    BSpace,
    Up,
    Down,
    Left,
    Right,
    Home,
    End,
    PPage,
    NPage,
    IC,
    DC,
    F(u8),
}

/// A key with its modifiers.
#[derive(Clone, Copy, Debug, PartialEq, Eq, Hash, Structural)]
pub struct Key {
    pub code: KeyCode,
    pub ctrl: bool,
    pub alt: bool,
    pub shift: bool,
}

/// A key named without modifiers: one character, or a name.
pub open spec fn named_code(word: Seq<char>) -> Option<KeyCode> {
    if word.len() == 1 {
        Some(KeyCode::Char(word[0]))
    } else if word == "Space"@ {
        Some(KeyCode::Char(' '))
    } else if word == "Enter"@ {
        Some(KeyCode::Enter)
    } else if word == "Escape"@ {
        Some(KeyCode::Escape)
    } else if word == "Tab"@ {
        Some(KeyCode::Tab)
    } else if word == "BSpace"@ {
        Some(KeyCode::BSpace)
    } else if word == "Up"@ {
        Some(KeyCode::Up)
    } else if word == "Down"@ {
        Some(KeyCode::Down)
    } else if word == "Left"@ {
        Some(KeyCode::Left)
    } else if word == "Right"@ {
        Some(KeyCode::Right)
    } else if word == "Home"@ {
        Some(KeyCode::Home)
    } else if word == "End"@ {
        Some(KeyCode::End)
    } else if word == "PPage"@ {
        Some(KeyCode::PPage)
    } else if word == "NPage"@ {
        Some(KeyCode::NPage)
    } else if word == "IC"@ {
        Some(KeyCode::IC)
    } else if word == "DC"@ {
        Some(KeyCode::DC)
    } else if word.len() == 2 && word[0] == 'F' && '1' <= word[1] <= '9' {
        Some(KeyCode::F((word[1] as u32 - '0' as u32) as u8))
    } else if word.len() == 3 && word[0] == 'F' && word[1] == '1' && '0' <= word[2] <= '2' {
        Some(KeyCode::F((10 + (word[2] as u32 - '0' as u32)) as u8))
    } else {
        None
    }
}

/// The key a word names: `C-`, `M-` and `S-` in front of a character or a
/// name, in any order.
pub open spec fn named_key(word: Seq<char>) -> Option<Key>
    decreases word.len(),
{
    if word.len() > 2 && word[1] == '-' && (word[0] == 'C' || word[0] == 'M' || word[0] == 'S') {
        match named_key(word.skip(2)) {
            None => None,
            Some(k) => Some(
                if word[0] == 'C' {
                    Key { ctrl: true, ..k }
                } else if word[0] == 'M' {
                    Key { alt: true, ..k }
                } else {
                    Key { shift: true, ..k }
                },
            ),
        }
    } else {
        match named_code(word) {
            None => None,
            Some(code) => Some(Key { code, ctrl: false, alt: false, shift: false }),
        }
    }
}

impl Key {
    pub open spec fn bare(code: KeyCode) -> Key {
        Key { code, ctrl: false, alt: false, shift: false }
    }

    pub fn plain(code: KeyCode) -> (k: Key)
        ensures
            k == Key::bare(code),
    {
        Key { code, ctrl: false, alt: false, shift: false }
    }

    pub fn ch(c: char) -> (k: Key)
        ensures
            k == Key::bare(KeyCode::Char(c)),
    {
        Key::plain(KeyCode::Char(c))
    }

    pub fn ctrl(c: char) -> (k: Key)
        ensures
            k == (Key { ctrl: true, ..Key::bare(KeyCode::Char(c)) }),
    {
        Key { code: KeyCode::Char(c), ctrl: true, alt: false, shift: false }
    }

    pub fn alt(c: char) -> (k: Key)
        ensures
            k == (Key { alt: true, ..Key::bare(KeyCode::Char(c)) }),
    {
        Key { code: KeyCode::Char(c), ctrl: false, alt: true, shift: false }
    }

    pub fn with_ctrl(code: KeyCode) -> (k: Key)
        ensures
            k == (Key { ctrl: true, ..Key::bare(code) }),
    {
        Key { code, ctrl: true, alt: false, shift: false }
    }

    pub fn with_alt(code: KeyCode) -> (k: Key)
        ensures
            k == (Key { alt: true, ..Key::bare(code) }),
    {
        Key { code, ctrl: false, alt: true, shift: false }
    }

    pub fn with_shift(code: KeyCode) -> (k: Key)
        ensures
            k == (Key { shift: true, ..Key::bare(code) }),
    {
        Key { code, ctrl: false, alt: false, shift: true }
    }

    /// The key `word` names, when it names one.
    pub fn parse(word: &str) -> (k: Option<Key>)
        ensures
            k == named_key(word@),
    {
        let w = chars_of(word);
        assert(w@.skip(0) =~= w@);
        parse_from(&w, 0)
    }
}

fn parse_from(w: &Vec<char>, i: usize) -> (k: Option<Key>)
    requires
        i <= w@.len(),
    ensures
        k == named_key(w@.skip(i as int)),
    decreases w@.len() - i,
{
    let ghost rest = w@.skip(i as int);
    let n: usize = w.len() - i;
    assert(n > 0 ==> rest[0] == w@[i as int]);
    assert(n > 1 ==> rest[1] == w@[i + 1]);
    if n > 2 && w[i + 1] == '-' && (w[i] == 'C' || w[i] == 'M' || w[i] == 'S') {
        assert(rest.skip(2) =~= w@.skip(i + 2));
        match parse_from(w, i + 2) {
            None => None,
            Some(k) => Some(
                if w[i] == 'C' {
                    Key { ctrl: true, ..k }
                } else if w[i] == 'M' {
                    Key { alt: true, ..k }
                } else {
                    Key { shift: true, ..k }
                },
            ),
        }
    } else {
        match code_from(w, i) {
            None => None,
            Some(code) => Some(Key::plain(code)),
        }
    }
}

fn code_from(w: &Vec<char>, i: usize) -> (code: Option<KeyCode>)
    requires
        i <= w@.len(),
    ensures
        code == named_code(w@.skip(i as int)),
{
    let ghost rest = w@.skip(i as int);
    let n: usize = w.len() - i;
    assert(n > 0 ==> rest[0] == w@[i as int]);
    assert(n > 1 ==> rest[1] == w@[i + 1]);
    assert(n > 2 ==> rest[2] == w@[i + 2]);
    if n == 1 {
        Some(KeyCode::Char(w[i]))
    } else if rest_is(w, i, "Space") {
        Some(KeyCode::Char(' '))
    } else if rest_is(w, i, "Enter") {
        Some(KeyCode::Enter)
    } else if rest_is(w, i, "Escape") {
        Some(KeyCode::Escape)
    } else if rest_is(w, i, "Tab") {
        Some(KeyCode::Tab)
    } else if rest_is(w, i, "BSpace") {
        Some(KeyCode::BSpace)
    } else if rest_is(w, i, "Up") {
        Some(KeyCode::Up)
    } else if rest_is(w, i, "Down") {
        Some(KeyCode::Down)
    } else if rest_is(w, i, "Left") {
        Some(KeyCode::Left)
    } else if rest_is(w, i, "Right") {
        Some(KeyCode::Right)
    } else if rest_is(w, i, "Home") {
        Some(KeyCode::Home)
    } else if rest_is(w, i, "End") {
        Some(KeyCode::End)
    } else if rest_is(w, i, "PPage") {
        Some(KeyCode::PPage)
    } else if rest_is(w, i, "NPage") {
        Some(KeyCode::NPage)
    } else if rest_is(w, i, "IC") {
        Some(KeyCode::IC)
    } else if rest_is(w, i, "DC") {
        Some(KeyCode::DC)
    } else if n == 2 && w[i] == 'F' && '1' <= w[i + 1] && w[i + 1] <= '9' {
        Some(KeyCode::F((w[i + 1] as u32 - '0' as u32) as u8))
    } else if n == 3 && w[i] == 'F' && w[i + 1] == '1' && '0' <= w[i + 2] && w[i + 2] <= '2' {
        Some(KeyCode::F((10 + (w[i + 2] as u32 - '0' as u32)) as u8))
    } else {
        None
    }
}

} // verus!
