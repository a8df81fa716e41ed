//! The keys a new server binds: every name is one of a key, and no key is
//! bound twice.
use vstd::prelude::*;

use crate::bindings::{
    all_defaults, default_runs, is_repeatable, menu_text, menu_words, with_digits, with_menus, MenuEntry,
    DEFAULT_LINES, PANE_MENU, REPEATABLE, WINDOW_MENU,
};
use crate::keys::{named_code, named_key, Key, KeyCode};
use crate::text::{decimal, digit_char};
use crate::words::{lemma_words_read_back, words_in};

verus! {

/// The place of the line that a key without modifiers runs.
spec fn plain_slot(code: KeyCode) -> int {
    match code {
        KeyCode::Char('c') => 0,
        KeyCode::Char(',') => 1,
        KeyCode::Char('$') => 2,
        KeyCode::Char('&') => 3,
        KeyCode::Char('x') => 4,
        KeyCode::Char('d') => 5,
        KeyCode::Char('%') => 6,
        KeyCode::Char('"') => 7,
        KeyCode::Char('o') => 8,
        KeyCode::Char(';') => 9,
        KeyCode::Char('h') => 14,
        KeyCode::Char('j') => 15,
        KeyCode::Char('k') => 16,
        KeyCode::Char('l') => 17,
        KeyCode::Char('H') => 18,
        KeyCode::Char('J') => 19,
        KeyCode::Char('K') => 20,
        KeyCode::Char('L') => 21,
        KeyCode::Char('n') => 34,
        KeyCode::Char('p') => 35,
        KeyCode::Char('z') => 39,
        KeyCode::Char('[') => 40,
        KeyCode::Char(']') => 42,
        KeyCode::Char(':') => 43,
        KeyCode::Char('?') => 44,
        KeyCode::Char('{') => 45,
        KeyCode::Char('}') => 46,
        KeyCode::Char('!') => 47,
        KeyCode::Char(' ') => 48,
        KeyCode::Char('E') => 49,
        KeyCode::Char('q') => 50,
        KeyCode::Char('r') => 51,
        KeyCode::Char('~') => 52,
        KeyCode::Char('#') => 53,
        KeyCode::Char('f') => 54,
        KeyCode::Char('m') => 55,
        KeyCode::Char('M') => 56,
        KeyCode::Char('T') => 57,
        KeyCode::Char('\'') => 58,
        KeyCode::Char('.') => 59,
        KeyCode::Char('-') => 60,
        KeyCode::Char('=') => 61,
        KeyCode::Char('t') => 62,
        KeyCode::Char('(') => 70,
        KeyCode::Char(')') => 71,
        KeyCode::Char('w') => 72,
        KeyCode::Char('s') => 73,
        KeyCode::Char('D') => 74,
        KeyCode::Char('B') => 75,
        KeyCode::Char('/') => 76,
        KeyCode::Char('u') => 77,
        KeyCode::Char('i') => 78,
        KeyCode::Char('S') => 81,
        KeyCode::Up => 10,
        KeyCode::Down => 11,
        KeyCode::Left => 12,
        KeyCode::Right => 13,
        KeyCode::Tab => 38,
        KeyCode::PPage => 41,
        _ => -1,
    }
}

/// The place of the line that a key with Ctrl runs.
spec fn ctrl_slot(code: KeyCode) -> int {
    match code {
        KeyCode::Char('o') => 63,
        KeyCode::Char('s') => 79,
        KeyCode::Char('r') => 80,
        KeyCode::Char('t') => 82,
        KeyCode::Up => 22,
        KeyCode::Down => 23,
        KeyCode::Left => 24,
        KeyCode::Right => 25,
        _ => -1,
    }
}

/// The place of the line that a key with Alt runs.
spec fn alt_slot(code: KeyCode) -> int {
    match code {
        KeyCode::Char('n') => 36,
        KeyCode::Char('p') => 37,
        KeyCode::Char('o') => 64,
        KeyCode::Char('1') => 65,
        KeyCode::Char('2') => 66,
        KeyCode::Char('3') => 67,
        KeyCode::Char('4') => 68,
        KeyCode::Char('5') => 69,
        KeyCode::Up => 26,
        KeyCode::Down => 27,
        KeyCode::Left => 28,
        KeyCode::Right => 29,
        _ => -1,
    }
}

/// The place of the line that a key with Shift runs.
spec fn shift_slot(code: KeyCode) -> int {
    match code {
        KeyCode::Up => 30,
        KeyCode::Down => 31,
        KeyCode::Left => 32,
        KeyCode::Right => 33,
        _ => -1,
    }
}

/// The place of the line that a key runs; less than any when it runs none.
spec fn slot(k: Key) -> int {
    match (k.ctrl, k.alt, k.shift) {
        (false, false, false) => plain_slot(k.code),
        (true, false, false) => ctrl_slot(k.code),
        (false, true, false) => alt_slot(k.code),
        (false, false, true) => shift_slot(k.code),
        _ => -1,
    }
}

/// The key that default line `i` is for.
pub open spec fn default_key(i: int) -> Key {
    named_key(DEFAULT_LINES@[i].0@)->0
}

/// The names that are used are those of keys.
proof fn lemma_names()
    ensures
        named_key("Space"@) == Some(Key::bare(KeyCode::Char(' '))),
        named_key("Tab"@) == Some(Key::bare(KeyCode::Tab)),
        named_key("Up"@) == Some(Key::bare(KeyCode::Up)),
        named_key("Down"@) == Some(Key::bare(KeyCode::Down)),
        named_key("Left"@) == Some(Key::bare(KeyCode::Left)),
        named_key("Right"@) == Some(Key::bare(KeyCode::Right)),
        named_key("PPage"@) == Some(Key::bare(KeyCode::PPage)),
{
    reveal_strlit("Space");
    reveal_strlit("Enter");
    reveal_strlit("Escape");
    reveal_strlit("Tab");
    reveal_strlit("BSpace");
    reveal_strlit("Up");
    reveal_strlit("Down");
    reveal_strlit("Left");
    reveal_strlit("Right");
    reveal_strlit("Home");
    reveal_strlit("End");
    reveal_strlit("PPage");
    reveal_strlit("NPage");
    assert("Space"@ =~= seq!['S', 'p', 'a', 'c', 'e']);
    assert("Enter"@ =~= seq!['E', 'n', 't', 'e', 'r']);
    assert("Escape"@ =~= seq!['E', 's', 'c', 'a', 'p', 'e']);
    assert("Tab"@ =~= seq!['T', 'a', 'b']);
    assert("BSpace"@ =~= seq!['B', 'S', 'p', 'a', 'c', 'e']);
    assert("Up"@ =~= seq!['U', 'p']);
    assert("Down"@ =~= seq!['D', 'o', 'w', 'n']);
    assert("Left"@ =~= seq!['L', 'e', 'f', 't']);
    assert("Right"@ =~= seq!['R', 'i', 'g', 'h', 't']);
    assert("Home"@ =~= seq!['H', 'o', 'm', 'e']);
    assert("End"@ =~= seq!['E', 'n', 'd']);
    assert("PPage"@ =~= seq!['P', 'P', 'a', 'g', 'e']);
    assert("NPage"@ =~= seq!['N', 'P', 'a', 'g', 'e']);
    assert(named_code("Space"@) == Some(KeyCode::Char(' ')));
    assert(named_code("Tab"@) == Some(KeyCode::Tab));
    assert(named_code("Up"@) == Some(KeyCode::Up));
    assert(named_code("Down"@) == Some(KeyCode::Down));
    assert(named_code("Left"@) == Some(KeyCode::Left));
    assert(named_code("Right"@) == Some(KeyCode::Right));
    assert(named_code("PPage"@) == Some(KeyCode::PPage));
}

/// A character names its key.
proof fn lemma_letter(word: Seq<char>)
    requires
        word.len() == 1,
    ensures
        named_key(word) == Some(Key::bare(KeyCode::Char(word[0]))),
{
}

/// A modifier in front of a name.
proof fn lemma_modified(word: Seq<char>, rest: Seq<char>)
    requires
        word.len() > 2,
        word[0] == 'C' || word[0] == 'M' || word[0] == 'S',
        word[1] == '-',
        word.skip(2) == rest,
        named_key(rest) is Some,
    ensures
        named_key(word) == Some(
            if word[0] == 'C' {
                Key { ctrl: true, ..named_key(rest)->0 }
            } else if word[0] == 'M' {
                Key { alt: true, ..named_key(rest)->0 }
            } else {
                Key { shift: true, ..named_key(rest)->0 }
            },
        ),
{
}

/// The name of line `i` is that of the key whose line it is.
spec fn named_well(i: int) -> bool {
    named_key(DEFAULT_LINES@[i].0@) is Some && slot(default_key(i)) == i
}

#[verifier::spinoff_prover]
proof fn lemma_names_first(i: int)
    requires
        0 <= i < 21,
    ensures
        named_well(i),
{
    lemma_names();
    if i == 0 {
        assert(DEFAULT_LINES@[0].0 == "c");
        reveal_strlit("c");
        lemma_letter("c"@);
    } else if i == 1 {
        assert(DEFAULT_LINES@[1].0 == ",");
        reveal_strlit(",");
        lemma_letter(","@);
    } else if i == 2 {
        assert(DEFAULT_LINES@[2].0 == "$");
        reveal_strlit("$");
        lemma_letter("$"@);
    } else if i == 3 {
        assert(DEFAULT_LINES@[3].0 == "&");
        reveal_strlit("&");
        lemma_letter("&"@);
    } else if i == 4 {
        assert(DEFAULT_LINES@[4].0 == "x");
        reveal_strlit("x");
        lemma_letter("x"@);
    } else if i == 5 {
        assert(DEFAULT_LINES@[5].0 == "d");
        reveal_strlit("d");
        lemma_letter("d"@);
    } else if i == 6 {
        assert(DEFAULT_LINES@[6].0 == "%");
        reveal_strlit("%");
        lemma_letter("%"@);
    } else if i == 7 {
        assert(DEFAULT_LINES@[7].0 == "\"");
        reveal_strlit("\"");
        lemma_letter("\""@);
    } else if i == 8 {
        assert(DEFAULT_LINES@[8].0 == "o");
        reveal_strlit("o");
        lemma_letter("o"@);
    } else if i == 9 {
        assert(DEFAULT_LINES@[9].0 == ";");
        reveal_strlit(";");
        lemma_letter(";"@);
    } else if i == 10 {
        assert(DEFAULT_LINES@[10].0 == "Up");
        reveal_strlit("Up");
    } else if i == 11 {
        assert(DEFAULT_LINES@[11].0 == "Down");
        reveal_strlit("Down");
    } else if i == 12 {
        assert(DEFAULT_LINES@[12].0 == "Left");
        reveal_strlit("Left");
    } else if i == 13 {
        assert(DEFAULT_LINES@[13].0 == "Right");
        reveal_strlit("Right");
    } else if i == 14 {
        assert(DEFAULT_LINES@[14].0 == "h");
        reveal_strlit("h");
        lemma_letter("h"@);
    } else if i == 15 {
        assert(DEFAULT_LINES@[15].0 == "j");
        reveal_strlit("j");
        lemma_letter("j"@);
    } else if i == 16 {
        assert(DEFAULT_LINES@[16].0 == "k");
        reveal_strlit("k");
        lemma_letter("k"@);
    } else if i == 17 {
        assert(DEFAULT_LINES@[17].0 == "l");
        reveal_strlit("l");
        lemma_letter("l"@);
    } else if i == 18 {
        assert(DEFAULT_LINES@[18].0 == "H");
        reveal_strlit("H");
        lemma_letter("H"@);
    } else if i == 19 {
        assert(DEFAULT_LINES@[19].0 == "J");
        reveal_strlit("J");
        lemma_letter("J"@);
    } else if i == 20 {
        assert(DEFAULT_LINES@[20].0 == "K");
        reveal_strlit("K");
        lemma_letter("K"@);
    }
}

#[verifier::spinoff_prover]
proof fn lemma_names_second(i: int)
    requires
        21 <= i < 42,
    ensures
        named_well(i),
{
    lemma_names();
    if i == 21 {
        assert(DEFAULT_LINES@[21].0 == "L");
        reveal_strlit("L");
        lemma_letter("L"@);
    } else if i == 22 {
        assert(DEFAULT_LINES@[22].0 == "C-Up");
        reveal_strlit("C-Up");
        reveal_strlit("Up");
        assert("C-Up"@.skip(2) =~= "Up"@);
        lemma_modified("C-Up"@, "Up"@);
    } else if i == 23 {
        assert(DEFAULT_LINES@[23].0 == "C-Down");
        reveal_strlit("C-Down");
        reveal_strlit("Down");
        assert("C-Down"@.skip(2) =~= "Down"@);
        lemma_modified("C-Down"@, "Down"@);
    } else if i == 24 {
        assert(DEFAULT_LINES@[24].0 == "C-Left");
        reveal_strlit("C-Left");
        reveal_strlit("Left");
        assert("C-Left"@.skip(2) =~= "Left"@);
        lemma_modified("C-Left"@, "Left"@);
    } else if i == 25 {
        assert(DEFAULT_LINES@[25].0 == "C-Right");
        reveal_strlit("C-Right");
        reveal_strlit("Right");
        assert("C-Right"@.skip(2) =~= "Right"@);
        lemma_modified("C-Right"@, "Right"@);
    } else if i == 26 {
        assert(DEFAULT_LINES@[26].0 == "M-Up");
        reveal_strlit("M-Up");
        reveal_strlit("Up");
        assert("M-Up"@.skip(2) =~= "Up"@);
        lemma_modified("M-Up"@, "Up"@);
    } else if i == 27 {
        assert(DEFAULT_LINES@[27].0 == "M-Down");
        reveal_strlit("M-Down");
        reveal_strlit("Down");
        assert("M-Down"@.skip(2) =~= "Down"@);
        lemma_modified("M-Down"@, "Down"@);
    } else if i == 28 {
        assert(DEFAULT_LINES@[28].0 == "M-Left");
        reveal_strlit("M-Left");
        reveal_strlit("Left");
        assert("M-Left"@.skip(2) =~= "Left"@);
        lemma_modified("M-Left"@, "Left"@);
    } else if i == 29 {
        assert(DEFAULT_LINES@[29].0 == "M-Right");
        reveal_strlit("M-Right");
        reveal_strlit("Right");
        assert("M-Right"@.skip(2) =~= "Right"@);
        lemma_modified("M-Right"@, "Right"@);
    } else if i == 30 {
        assert(DEFAULT_LINES@[30].0 == "S-Up");
        reveal_strlit("S-Up");
        reveal_strlit("Up");
        assert("S-Up"@.skip(2) =~= "Up"@);
        lemma_modified("S-Up"@, "Up"@);
    } else if i == 31 {
        assert(DEFAULT_LINES@[31].0 == "S-Down");
        reveal_strlit("S-Down");
        reveal_strlit("Down");
        assert("S-Down"@.skip(2) =~= "Down"@);
        lemma_modified("S-Down"@, "Down"@);
    } else if i == 32 {
        assert(DEFAULT_LINES@[32].0 == "S-Left");
        reveal_strlit("S-Left");
        reveal_strlit("Left");
        assert("S-Left"@.skip(2) =~= "Left"@);
        lemma_modified("S-Left"@, "Left"@);
    } else if i == 33 {
        assert(DEFAULT_LINES@[33].0 == "S-Right");
        reveal_strlit("S-Right");
        reveal_strlit("Right");
        assert("S-Right"@.skip(2) =~= "Right"@);
        lemma_modified("S-Right"@, "Right"@);
    } else if i == 34 {
        assert(DEFAULT_LINES@[34].0 == "n");
        reveal_strlit("n");
        lemma_letter("n"@);
    } else if i == 35 {
        assert(DEFAULT_LINES@[35].0 == "p");
        reveal_strlit("p");
        lemma_letter("p"@);
    } else if i == 36 {
        assert(DEFAULT_LINES@[36].0 == "M-n");
        reveal_strlit("M-n");
        reveal_strlit("n");
        assert("M-n"@.skip(2) =~= "n"@);
        lemma_letter("n"@);
        lemma_modified("M-n"@, "n"@);
    } else if i == 37 {
        assert(DEFAULT_LINES@[37].0 == "M-p");
        reveal_strlit("M-p");
        reveal_strlit("p");
        assert("M-p"@.skip(2) =~= "p"@);
        lemma_letter("p"@);
        lemma_modified("M-p"@, "p"@);
    } else if i == 38 {
        assert(DEFAULT_LINES@[38].0 == "Tab");
        reveal_strlit("Tab");
    } else if i == 39 {
        assert(DEFAULT_LINES@[39].0 == "z");
        reveal_strlit("z");
        lemma_letter("z"@);
    } else if i == 40 {
        assert(DEFAULT_LINES@[40].0 == "[");
        reveal_strlit("[");
        lemma_letter("["@);
    } else if i == 41 {
        assert(DEFAULT_LINES@[41].0 == "PPage");
        reveal_strlit("PPage");
    }
}

#[verifier::spinoff_prover]
proof fn lemma_names_third(i: int)
    requires
        42 <= i < 63,
    ensures
        named_well(i),
{
    lemma_names();
    if i == 42 {
        assert(DEFAULT_LINES@[42].0 == "]");
        reveal_strlit("]");
        lemma_letter("]"@);
    } else if i == 43 {
        assert(DEFAULT_LINES@[43].0 == ":");
        reveal_strlit(":");
        lemma_letter(":"@);
    } else if i == 44 {
        assert(DEFAULT_LINES@[44].0 == "?");
        reveal_strlit("?");
        lemma_letter("?"@);
    } else if i == 45 {
        assert(DEFAULT_LINES@[45].0 == "{");
        reveal_strlit("{");
        lemma_letter("{"@);
    } else if i == 46 {
        assert(DEFAULT_LINES@[46].0 == "}");
        reveal_strlit("}");
        lemma_letter("}"@);
    } else if i == 47 {
        assert(DEFAULT_LINES@[47].0 == "!");
        reveal_strlit("!");
        lemma_letter("!"@);
    } else if i == 48 {
        assert(DEFAULT_LINES@[48].0 == "Space");
        reveal_strlit("Space");
    } else if i == 49 {
        assert(DEFAULT_LINES@[49].0 == "E");
        reveal_strlit("E");
        lemma_letter("E"@);
    } else if i == 50 {
        assert(DEFAULT_LINES@[50].0 == "q");
        reveal_strlit("q");
        lemma_letter("q"@);
    } else if i == 51 {
        assert(DEFAULT_LINES@[51].0 == "r");
        reveal_strlit("r");
        lemma_letter("r"@);
    } else if i == 52 {
        assert(DEFAULT_LINES@[52].0 == "~");
        reveal_strlit("~");
        lemma_letter("~"@);
    } else if i == 53 {
        assert(DEFAULT_LINES@[53].0 == "#");
        reveal_strlit("#");
        lemma_letter("#"@);
    } else if i == 54 {
        assert(DEFAULT_LINES@[54].0 == "f");
        reveal_strlit("f");
        lemma_letter("f"@);
    } else if i == 55 {
        assert(DEFAULT_LINES@[55].0 == "m");
        reveal_strlit("m");
        lemma_letter("m"@);
    } else if i == 56 {
        assert(DEFAULT_LINES@[56].0 == "M");
        reveal_strlit("M");
        lemma_letter("M"@);
    } else if i == 57 {
        assert(DEFAULT_LINES@[57].0 == "T");
        reveal_strlit("T");
        lemma_letter("T"@);
    } else if i == 58 {
        assert(DEFAULT_LINES@[58].0 == "'");
        reveal_strlit("'");
        lemma_letter("'"@);
    } else if i == 59 {
        assert(DEFAULT_LINES@[59].0 == ".");
        reveal_strlit(".");
        lemma_letter("."@);
    } else if i == 60 {
        assert(DEFAULT_LINES@[60].0 == "-");
        reveal_strlit("-");
        lemma_letter("-"@);
    } else if i == 61 {
        assert(DEFAULT_LINES@[61].0 == "=");
        reveal_strlit("=");
        lemma_letter("="@);
    } else if i == 62 {
        assert(DEFAULT_LINES@[62].0 == "t");
        reveal_strlit("t");
        lemma_letter("t"@);
    }
}

#[verifier::spinoff_prover]
proof fn lemma_names_fourth(i: int)
    requires
        63 <= i < 83,
    ensures
        named_well(i),
{
    lemma_names();
    if i == 63 {
        assert(DEFAULT_LINES@[63].0 == "C-o");
        reveal_strlit("C-o");
        reveal_strlit("o");
        assert("C-o"@.skip(2) =~= "o"@);
        lemma_letter("o"@);
        lemma_modified("C-o"@, "o"@);
    } else if i == 64 {
        assert(DEFAULT_LINES@[64].0 == "M-o");
        reveal_strlit("M-o");
        reveal_strlit("o");
        assert("M-o"@.skip(2) =~= "o"@);
        lemma_letter("o"@);
        lemma_modified("M-o"@, "o"@);
    } else if i == 65 {
        assert(DEFAULT_LINES@[65].0 == "M-1");
        reveal_strlit("M-1");
        reveal_strlit("1");
        assert("M-1"@.skip(2) =~= "1"@);
        lemma_letter("1"@);
        lemma_modified("M-1"@, "1"@);
    } else if i == 66 {
        assert(DEFAULT_LINES@[66].0 == "M-2");
        reveal_strlit("M-2");
        reveal_strlit("2");
        assert("M-2"@.skip(2) =~= "2"@);
        lemma_letter("2"@);
        lemma_modified("M-2"@, "2"@);
    } else if i == 67 {
        assert(DEFAULT_LINES@[67].0 == "M-3");
        reveal_strlit("M-3");
        reveal_strlit("3");
        assert("M-3"@.skip(2) =~= "3"@);
        lemma_letter("3"@);
        lemma_modified("M-3"@, "3"@);
    } else if i == 68 {
        assert(DEFAULT_LINES@[68].0 == "M-4");
        reveal_strlit("M-4");
        reveal_strlit("4");
        assert("M-4"@.skip(2) =~= "4"@);
        lemma_letter("4"@);
        lemma_modified("M-4"@, "4"@);
    } else if i == 69 {
        assert(DEFAULT_LINES@[69].0 == "M-5");
        reveal_strlit("M-5");
        reveal_strlit("5");
        assert("M-5"@.skip(2) =~= "5"@);
        lemma_letter("5"@);
        lemma_modified("M-5"@, "5"@);
    } else if i == 70 {
        assert(DEFAULT_LINES@[70].0 == "(");
        reveal_strlit("(");
        lemma_letter("("@);
    } else if i == 71 {
        assert(DEFAULT_LINES@[71].0 == ")");
        reveal_strlit(")");
        lemma_letter(")"@);
    } else if i == 72 {
        assert(DEFAULT_LINES@[72].0 == "w");
        reveal_strlit("w");
        lemma_letter("w"@);
    } else if i == 73 {
        assert(DEFAULT_LINES@[73].0 == "s");
        reveal_strlit("s");
        lemma_letter("s"@);
    } else if i == 74 {
        assert(DEFAULT_LINES@[74].0 == "D");
        reveal_strlit("D");
        lemma_letter("D"@);
    } else if i == 75 {
        assert(DEFAULT_LINES@[75].0 == "B");
        reveal_strlit("B");
        lemma_letter("B"@);
    } else if i == 76 {
        assert(DEFAULT_LINES@[76].0 == "/");
        reveal_strlit("/");
        lemma_letter("/"@);
    } else if i == 77 {
        assert(DEFAULT_LINES@[77].0 == "u");
        reveal_strlit("u");
        lemma_letter("u"@);
    } else if i == 78 {
        assert(DEFAULT_LINES@[78].0 == "i");
        reveal_strlit("i");
        lemma_letter("i"@);
    } else if i == 79 {
        assert(DEFAULT_LINES@[79].0 == "C-s");
        reveal_strlit("C-s");
        reveal_strlit("s");
        assert("C-s"@.skip(2) =~= "s"@);
        lemma_letter("s"@);
        lemma_modified("C-s"@, "s"@);
    } else if i == 80 {
        assert(DEFAULT_LINES@[80].0 == "C-r");
        reveal_strlit("C-r");
        reveal_strlit("r");
        assert("C-r"@.skip(2) =~= "r"@);
        lemma_letter("r"@);
        lemma_modified("C-r"@, "r"@);
    } else if i == 81 {
        assert(DEFAULT_LINES@[81].0 == "S");
        reveal_strlit("S");
        lemma_letter("S"@);
    } else if i == 82 {
        assert(DEFAULT_LINES@[82].0 == "C-t");
        reveal_strlit("C-t");
        reveal_strlit("t");
        assert("C-t"@.skip(2) =~= "t"@);
        lemma_letter("t"@);
        lemma_modified("C-t"@, "t"@);
    }
}

proof fn lemma_named(i: int)
    requires
        0 <= i < DEFAULT_LINES@.len(),
    ensures
        named_well(i),
{
    if i < 21 {
        lemma_names_first(i);
    } else if i < 42 {
        lemma_names_second(i);
    } else if i < 63 {
        lemma_names_third(i);
    } else {
        lemma_names_fourth(i);
    }
}

proof fn lemma_runs_upto(k: int)
    requires
        0 <= k <= DEFAULT_LINES@.len(),
    ensures
        default_runs(k).dom().finite(),
        default_runs(k).dom().len() == k,
        forall|key: Key| #[trigger] default_runs(k).dom().contains(key) ==> 0 <= slot(key) < k,
        forall|i: int|
            0 <= i < k ==> default_runs(k).dom().contains(#[trigger] default_key(i)) && default_runs(k)[default_key(i)] == (
                DEFAULT_LINES@[i].1@,
                is_repeatable(DEFAULT_LINES@[i].0@, REPEATABLE@.len() as int),
            ),
    decreases k,
{
    if k > 0 {
        lemma_runs_upto(k - 1);
        lemma_named(k - 1);
        let key = default_key(k - 1);
        assert(!default_runs(k - 1).dom().contains(key));
        assert(default_runs(k).dom() =~= default_runs(k - 1).dom().insert(key));
        assert forall|i: int| 0 <= i < k implies default_runs(k).dom().contains(#[trigger] default_key(i))
            && default_runs(k)[default_key(i)] == (
            DEFAULT_LINES@[i].1@,
            is_repeatable(DEFAULT_LINES@[i].0@, REPEATABLE@.len() as int),
        ) by {
            lemma_named(i);
        }
    } else {
        assert(default_runs(0).dom() =~= Set::<Key>::empty());
    }
}

/// The key of a digit.
pub open spec fn digit_key(d: int) -> Key {
    Key::bare(KeyCode::Char(digit_char(d as nat)))
}

proof fn lemma_digits_upto(m: Map<Key, (Seq<char>, bool)>, d: int)
    requires
        0 <= d <= 10,
        m.dom().finite(),
        forall|i: int| 0 <= i < 10 ==> !m.dom().contains(#[trigger] digit_key(i)),
    ensures
        with_digits(m, d).dom().finite(),
        with_digits(m, d).dom().len() == m.dom().len() + d,
        forall|key: Key| #[trigger] with_digits(m, d).dom().contains(key) <==> m.dom().contains(key) || exists|i: int|
            0 <= i < d && key == #[trigger] digit_key(i),
        forall|key: Key| m.dom().contains(key) ==> #[trigger] with_digits(m, d)[key] == m[key],
        forall|i: int|
            0 <= i < d ==> with_digits(m, d)[#[trigger] digit_key(i)] == ("select-window -t :"@ + decimal(i as nat), false),
    decreases d,
{
    if d > 0 {
        lemma_digits_upto(m, d - 1);
        let key = digit_key(d - 1);
        assert forall|i: int| 0 <= i < d - 1 implies #[trigger] digit_key(i) != key by {}
        assert(!with_digits(m, d - 1).dom().contains(key));
        assert(with_digits(m, d).dom() =~= with_digits(m, d - 1).dom().insert(key));
    }
}

/// Every name of the default lines is that of a key, no two are of the same
/// one, and each key of theirs, the two menus' and the ten digits' runs what
/// it is listed with: ninety-five keys, none bound twice.
pub proof fn lemma_default_keys()
    ensures
        forall|i: int| 0 <= i < DEFAULT_LINES@.len() ==> named_key((#[trigger] DEFAULT_LINES@[i]).0@) == Some(default_key(i)),
        forall|i: int, j: int|
            0 <= i < j < DEFAULT_LINES@.len() ==> #[trigger] default_key(i) != #[trigger] default_key(j),
        forall|i: int|
            0 <= i < DEFAULT_LINES@.len() ==> all_defaults().dom().contains(#[trigger] default_key(i))
                && all_defaults()[default_key(i)] == (
                DEFAULT_LINES@[i].1@,
                is_repeatable(DEFAULT_LINES@[i].0@, REPEATABLE@.len() as int),
            ),
        all_defaults()[Key::bare(KeyCode::Char('>'))] == (menu_text("pane #P"@, PANE_MENU@), false),
        all_defaults()[Key::bare(KeyCode::Char('<'))] == (menu_text("window #W"@, WINDOW_MENU@), false),
        forall|d: int|
            0 <= d < 10 ==> all_defaults()[#[trigger] digit_key(d)] == ("select-window -t :"@ + decimal(d as nat), false),
        all_defaults().dom().finite(),
        all_defaults().dom().len() == 95,
{
    let n = DEFAULT_LINES@.len() as int;
    let lines = default_runs(n);
    let m = with_menus(lines);
    let pane = Key::bare(KeyCode::Char('>'));
    let window = Key::bare(KeyCode::Char('<'));
    lemma_runs_upto(n);
    assert(slot(pane) == -1 && slot(window) == -1);
    assert(m.dom() =~= lines.dom().insert(pane).insert(window));
    assert forall|d: int| 0 <= d < 10 implies !m.dom().contains(#[trigger] digit_key(d)) by {
        assert(slot(digit_key(d)) == -1);
    }
    lemma_digits_upto(m, 10);
    assert forall|i: int| 0 <= i < n implies named_key((#[trigger] DEFAULT_LINES@[i]).0@) == Some(default_key(i)) by {
        lemma_named(i);
    }
    assert forall|i: int, j: int| 0 <= i < j < n implies #[trigger] default_key(i) != #[trigger] default_key(j) by {
        lemma_named(i);
        lemma_named(j);
    }
    assert forall|i: int| 0 <= i < n implies all_defaults().dom().contains(#[trigger] default_key(i))
        && all_defaults()[default_key(i)] == (
        DEFAULT_LINES@[i].1@,
        is_repeatable(DEFAULT_LINES@[i].0@, REPEATABLE@.len() as int),
    ) by {
        lemma_named(i);
    }
    assert(m.dom().contains(pane) && m.dom().contains(window));
}

/// A menu worth opening: the entries that run something have keys, each its
/// own, three or more of them; and others part them.
pub open spec fn usable(entries: Seq<MenuEntry>) -> bool {
    &&& forall|i: int|
        0 <= i < entries.len() && (#[trigger] entries[i]).0@.len() > 0 ==> named_key(entries[i].1@) is Some
            && entries[i].2@.len() > 0
    &&& forall|i: int, j: int|
        0 <= i < j < entries.len() && (#[trigger] entries[i]).0@.len() > 0 && (#[trigger] entries[j]).0@.len() > 0
            ==> named_key(entries[i].1@) != named_key(entries[j].1@)
    &&& exists|a: int, b: int, c: int|
        0 <= a < b < c < entries.len() && (#[trigger] entries[a]).0@.len() > 0 && (#[trigger] entries[b]).0@.len() > 0 && (
        #[trigger] entries[c]).0@.len() > 0
    &&& exists|i: int| 0 <= i < entries.len() && (#[trigger] entries[i]).0@.len() == 0
}

/// The letters of the entries of the pane menu.
spec fn pane_letter(i: int) -> Option<char> {
    if i == 0 {
        Some('h')
    } else if i == 1 {
        Some('v')
    } else if i == 3 {
        Some('u')
    } else if i == 4 {
        Some('d')
    } else if i == 5 {
        Some('b')
    } else if i == 7 {
        Some('z')
    } else if i == 8 {
        Some('r')
    } else if i == 9 {
        Some('x')
    } else {
        None
    }
}

proof fn lemma_pane_entry(i: int)
    requires
        0 <= i < PANE_MENU@.len(),
    ensures
        match pane_letter(i) {
            Some(c) => PANE_MENU@[i].0@.len() > 0 && PANE_MENU@[i].2@.len() > 0 && PANE_MENU@[i].1@ == seq![c],
            None => PANE_MENU@[i].0@.len() == 0,
        },
{
    if i == 0 {
        assert(PANE_MENU@[0] == ("Split horizontally", "h", "split-window -h"));
        reveal_strlit("Split horizontally");
        reveal_strlit("h");
        reveal_strlit("split-window -h");
        assert("h"@ =~= seq!['h']);
    } else if i == 1 {
        assert(PANE_MENU@[1] == ("Split vertically", "v", "split-window -v"));
        reveal_strlit("Split vertically");
        reveal_strlit("v");
        reveal_strlit("split-window -v");
        assert("v"@ =~= seq!['v']);
    } else if i == 2 {
        assert(PANE_MENU@[2] == ("", "", ""));
        reveal_strlit("");
    } else if i == 3 {
        assert(PANE_MENU@[3] == ("Swap up", "u", "swap-pane -U"));
        reveal_strlit("Swap up");
        reveal_strlit("u");
        reveal_strlit("swap-pane -U");
        assert("u"@ =~= seq!['u']);
    } else if i == 4 {
        assert(PANE_MENU@[4] == ("Swap down", "d", "swap-pane -D"));
        reveal_strlit("Swap down");
        reveal_strlit("d");
        reveal_strlit("swap-pane -D");
        assert("d"@ =~= seq!['d']);
    } else if i == 5 {
        assert(PANE_MENU@[5] == ("Break out", "b", "break-pane"));
        reveal_strlit("Break out");
        reveal_strlit("b");
        reveal_strlit("break-pane");
        assert("b"@ =~= seq!['b']);
    } else if i == 6 {
        assert(PANE_MENU@[6] == ("", "", ""));
        reveal_strlit("");
    } else if i == 7 {
        assert(PANE_MENU@[7] == ("Zoom", "z", "resize-pane -Z"));
        reveal_strlit("Zoom");
        reveal_strlit("z");
        reveal_strlit("resize-pane -Z");
        assert("z"@ =~= seq!['z']);
    } else if i == 8 {
        assert(PANE_MENU@[8] == ("Respawn", "r", "respawn-pane -k"));
        reveal_strlit("Respawn");
        reveal_strlit("r");
        reveal_strlit("respawn-pane -k");
        assert("r"@ =~= seq!['r']);
    } else if i == 9 {
        assert(PANE_MENU@[9] == ("Kill", "x", "kill-pane"));
        reveal_strlit("Kill");
        reveal_strlit("x");
        reveal_strlit("kill-pane");
        assert("x"@ =~= seq!['x']);
    }
}

/// The letters of the entries of the window menu.
spec fn window_letter(i: int) -> Option<char> {
    if i == 0 {
        Some('c')
    } else if i == 1 {
        Some('r')
    } else if i == 3 {
        Some('p')
    } else if i == 4 {
        Some('n')
    } else if i == 6 {
        Some('x')
    } else {
        None
    }
}

proof fn lemma_window_entry(i: int)
    requires
        0 <= i < WINDOW_MENU@.len(),
    ensures
        match window_letter(i) {
            Some(c) => WINDOW_MENU@[i].0@.len() > 0 && WINDOW_MENU@[i].2@.len() > 0 && WINDOW_MENU@[i].1@ == seq![c],
            None => WINDOW_MENU@[i].0@.len() == 0,
        },
{
    if i == 0 {
        assert(WINDOW_MENU@[0] == ("New window", "c", "new-window"));
        reveal_strlit("New window");
        reveal_strlit("c");
        reveal_strlit("new-window");
        assert("c"@ =~= seq!['c']);
    } else if i == 1 {
        assert(WINDOW_MENU@[1] == ("Rename", "r", "command-prompt -p (rename-window) -I \"#W\" \"rename-window -- %%\""));
        reveal_strlit("Rename");
        reveal_strlit("r");
        reveal_strlit("command-prompt -p (rename-window) -I \"#W\" \"rename-window -- %%\"");
        assert("r"@ =~= seq!['r']);
    } else if i == 2 {
        assert(WINDOW_MENU@[2] == ("", "", ""));
        reveal_strlit("");
    } else if i == 3 {
        assert(WINDOW_MENU@[3] == ("Previous", "p", "previous-window"));
        reveal_strlit("Previous");
        reveal_strlit("p");
        reveal_strlit("previous-window");
        assert("p"@ =~= seq!['p']);
    } else if i == 4 {
        assert(WINDOW_MENU@[4] == ("Next", "n", "next-window"));
        reveal_strlit("Next");
        reveal_strlit("n");
        reveal_strlit("next-window");
        assert("n"@ =~= seq!['n']);
    } else if i == 5 {
        assert(WINDOW_MENU@[5] == ("", "", ""));
        reveal_strlit("");
    } else if i == 6 {
        assert(WINDOW_MENU@[6] == ("Kill", "x", "kill-window"));
        reveal_strlit("Kill");
        reveal_strlit("x");
        reveal_strlit("kill-window");
        assert("x"@ =~= seq!['x']);
    }
}

/// The two menus are usable, and the lines that open them read as their
/// titles and entries.
pub proof fn lemma_default_menus()
    ensures
        usable(PANE_MENU@),
        usable(WINDOW_MENU@),
        words_in(menu_text("pane #P"@, PANE_MENU@), None, false) == Some(
            menu_words("pane #P"@, PANE_MENU@, PANE_MENU@.len() as int),
        ),
        words_in(menu_text("window #W"@, WINDOW_MENU@), None, false) == Some(
            menu_words("window #W"@, WINDOW_MENU@, WINDOW_MENU@.len() as int),
        ),
{
    lemma_words_read_back(menu_words("pane #P"@, PANE_MENU@, PANE_MENU@.len() as int));
    lemma_words_read_back(menu_words("window #W"@, WINDOW_MENU@, WINDOW_MENU@.len() as int));
    assert forall|i: int| 0 <= i < PANE_MENU@.len() && (#[trigger] PANE_MENU@[i]).0@.len() > 0 implies named_key(
        PANE_MENU@[i].1@,
    ) == Some(Key::bare(KeyCode::Char(pane_letter(i)->0))) && pane_letter(i) is Some && PANE_MENU@[i].2@.len() > 0 by {
        lemma_pane_entry(i);
        lemma_letter(PANE_MENU@[i].1@);
    }
    assert forall|i: int| 0 <= i < WINDOW_MENU@.len() && (#[trigger] WINDOW_MENU@[i]).0@.len() > 0 implies named_key(
        WINDOW_MENU@[i].1@,
    ) == Some(Key::bare(KeyCode::Char(window_letter(i)->0))) && window_letter(i) is Some && WINDOW_MENU@[i].2@.len()
        > 0 by {
        lemma_window_entry(i);
        lemma_letter(WINDOW_MENU@[i].1@);
    }
    lemma_pane_entry(0);
    lemma_pane_entry(1);
    lemma_pane_entry(2);
    lemma_pane_entry(3);
    lemma_window_entry(0);
    lemma_window_entry(1);
    lemma_window_entry(2);
    lemma_window_entry(3);
    assert(PANE_MENU@[0].0@.len() > 0 && PANE_MENU@[1].0@.len() > 0 && PANE_MENU@[3].0@.len() > 0);
    assert(WINDOW_MENU@[0].0@.len() > 0 && WINDOW_MENU@[1].0@.len() > 0 && WINDOW_MENU@[3].0@.len() > 0);
    assert(PANE_MENU@[2].0@.len() == 0 && WINDOW_MENU@[2].0@.len() == 0);
}

} // verus!
