//! What a pane's program says to its terminal beside its output: titles,
//! bells, questions, directories, prompts.
use vstd::prelude::*;
use vstd::utf8::{encode_utf8, valid_utf8};
use crate::marks::MarkEvent;
use crate::screen::Screen;
use crate::text::{all_digits, begins_with, bytes_of, chars_of, decimal, is_digit, numeral, part_of, push_decimal, string_of, trim, trimmed};
use crate::time::{Time, TIME_RANGE};

verus! {

/// A text read from bytes, with a mark in the place of what is no text.
pub uninterp spec fn lossy_text(bytes: Seq<u8>) -> Seq<char>;

/// `String::from_utf8_lossy`: a function of the bytes; bytes that are UTF-8
/// are read as the text they encode.
#[verifier::external_body]
pub(crate) fn text_from(bytes: &Vec<u8>) -> (out: String)
    ensures
        out@ == lossy_text(bytes@),
        valid_utf8(bytes@) ==> encode_utf8(out@) == bytes@,
{
    String::from_utf8_lossy(bytes).into_owned()
}

/// The value of a hexadecimal digit.
pub open spec fn nibble(b: u8) -> Option<int> {
    if 48 <= b <= 57 {
        Some(b - 48)
    } else if 97 <= b <= 102 {
        Some(b - 87)
    } else if 65 <= b <= 70 {
        Some(b - 55)
    } else {
        None
    }
}

/// The byte two characters write in hexadecimal; a plus sign may stand for
/// the first digit.
pub open spec fn pair(a: u8, b: u8) -> Option<int> {
    match nibble(b) {
        None => None,
        Some(lo) => if a == 43 {
            Some(lo)
        } else {
            match nibble(a) {
                None => None,
                Some(hi) => Some(hi * 16 + lo),
            }
        },
    }
}

/// The bytes from `i` on, with `%xx` read as the byte it writes.
pub open spec fn unescaped(b: Seq<u8>, i: int) -> Seq<u8>
    decreases b.len() - i,
{
    if i < 0 || i >= b.len() {
        Seq::empty()
    } else if b[i] == 37 && i + 2 < b.len() && pair(b[i + 1], b[i + 2]) is Some {
        seq![pair(b[i + 1], b[i + 2])->0 as u8] + unescaped(b, i + 3)
    } else {
        seq![b[i]] + unescaped(b, i + 1)
    }
}

/// A text with its `%xx` decoded.
pub open spec fn percent_decoded(s: Seq<char>) -> Seq<char> {
    lossy_text(unescaped(encode_utf8(s), 0))
}

fn nibble_of(b: u8) -> (v: Option<u8>)
    ensures
        match v {
            Some(n) => nibble(b) == Some(n as int) && n < 16,
            None => nibble(b) is None,
        },
{
    if 48 <= b && b <= 57 {
        Some(b - 48)
    } else if 97 <= b && b <= 102 {
        Some(b - 87)
    } else if 65 <= b && b <= 70 {
        Some(b - 55)
    } else {
        None
    }
}

fn pair_of(a: u8, b: u8) -> (v: Option<u8>)
    ensures
        match v {
            Some(n) => pair(a, b) == Some(n as int),
            None => pair(a, b) is None,
        },
{
    match nibble_of(b) {
        None => None,
        Some(lo) => if a == 43 {
            Some(lo)
        } else {
            match nibble_of(a) {
                None => None,
                Some(hi) => Some(hi * 16 + lo),
            }
        },
    }
}

pub fn percent_decode(s: &str) -> (out: String)
    ensures
        out@ == percent_decoded(s@),
{
    let b = bytes_of(s);
    let mut out: Vec<u8> = Vec::new();
    let n: usize = b.len();
    let mut i: usize = 0;
    assert(out@ + unescaped(b@, 0) =~= unescaped(b@, 0));
    while i < n
        invariant
            i <= n == b@.len(),
            out@ + unescaped(b@, i as int) == unescaped(b@, 0),
        decreases n - i,
    {
        let ghost before = out@;
        let mut wide: usize = 1;
        let mut v: u8 = b[i];
        if b[i] == 37 && n - i > 2 {
            if let Some(x) = pair_of(b[i + 1], b[i + 2]) {
                v = x;
                wide = 3;
            }
        }
        out.push(v);
        assert(out@ + unescaped(b@, i + wide) =~= before + unescaped(b@, i as int));
        i = i + wide;
    }
    assert(out@ + unescaped(b@, i as int) =~= out@);
    text_from(&out)
}

/// `s` without the double quotes around it.
pub open spec fn unquoted(s: Seq<char>) -> Seq<char>
    decreases s.len(),
{
    if s.len() > 0 && s[0] == '"' {
        unquoted(s.skip(1))
    } else if s.len() > 0 && s.last() == '"' {
        unquoted(s.drop_last())
    } else {
        s
    }
}

/// Where the first slash of `s` from `i` on stands.
pub open spec fn first_slash(s: Seq<char>, i: int) -> Option<int>
    decreases s.len() - i,
{
    if i < 0 || i >= s.len() {
        None
    } else if s[i] == '/' {
        Some(i)
    } else {
        first_slash(s, i + 1)
    }
}

pub open spec fn is_letter(c: char) -> bool {
    'a' <= c <= 'z' || 'A' <= c <= 'Z'
}

pub open spec fn upper(c: char) -> char {
    if 'a' <= c <= 'z' {
        (c as u32 - 32) as u8 as char
    } else {
        c
    }
}

/// The path of a `file://host/path` address; anything else as it is.
pub open spec fn address_path(s: Seq<char>) -> Option<Seq<char>> {
    if "file://"@.is_prefix_of(s) {
        let rest = s.skip(7);
        match first_slash(rest, 0) {
            Some(i) => Some(percent_decoded(rest.skip(i))),
            None => None,
        }
    } else {
        Some(s)
    }
}

/// `/C:/x` as `C:/x`.
pub open spec fn without_root(s: Seq<char>) -> Seq<char> {
    if s.len() >= 3 && s[0] == '/' && (s[1] as u32) < 128 && s[2] == ':' {
        s.skip(1)
    } else {
        s
    }
}

/// `/mnt/c/x` as `C:/x`.
pub open spec fn from_mount(s: Seq<char>) -> Seq<char> {
    let rest = s.skip(5);
    if "/mnt/"@.is_prefix_of(s) && rest.len() > 0 && is_letter(rest[0]) && (rest.len() == 1 || rest[1] == '/') {
        seq![upper(rest[0]), ':'] + rest.skip(1)
    } else {
        s
    }
}

/// A path with backslashes; a drive alone is its root.
pub open spec fn with_backslashes(s: Seq<char>) -> Seq<char> {
    let p = Seq::new(
        s.len(),
        |i: int|
            if s[i] == '/' {
                '\\'
            } else {
                s[i]
            },
    );
    if p.len() == 2 {
        p.push('\\')
    } else {
        p
    }
}

/// The Windows path a shell announced, when it is one.
pub open spec fn announced_path(raw: Seq<char>) -> Option<Seq<char>> {
    match address_path(trim(unquoted(trim(raw)))) {
        None => None,
        Some(path) => {
            let s = from_mount(without_root(path));
            if s.len() >= 2 && s[1] == ':' && is_letter(s[0]) {
                Some(with_backslashes(s))
            } else {
                None
            }
        },
    }
}

fn strip_quotes(s: Vec<char>) -> (out: Vec<char>)
    ensures
        out@ == unquoted(s@),
{
    let mut i: usize = 0;
    let mut e: usize = s.len();
    assert(s@.subrange(0, e as int) =~= s@);
    while i < e && s[i] == '"'
        invariant
            i <= e == s@.len(),
            unquoted(s@) == unquoted(s@.subrange(i as int, e as int)),
        decreases e - i,
    {
        let ghost part = s@.subrange(i as int, e as int);
        assert(part[0] == s@[i as int]);
        assert(part.skip(1) =~= s@.subrange(i + 1, e as int));
        i = i + 1;
    }
    while i < e && s[e - 1] == '"'
        invariant
            i <= e <= s@.len(),
            i < e ==> s@[i as int] != '"',
            unquoted(s@) == unquoted(s@.subrange(i as int, e as int)),
        decreases e,
    {
        let ghost part = s@.subrange(i as int, e as int);
        assert(part.last() == s@[e - 1]);
        assert(part[0] == s@[i as int]);
        assert(part.drop_last() =~= s@.subrange(i as int, e - 1));
        e = e - 1;
    }
    proof {
        let part = s@.subrange(i as int, e as int);
        if i < e {
            assert(part.last() == s@[e - 1]);
            assert(part[0] == s@[i as int]);
        }
    }
    part_of(&s, i, e)
}

fn path_in(s: Vec<char>) -> (path: Option<Vec<char>>)
    ensures
        match path {
            Some(p) => address_path(s@) == Some(p@),
            None => address_path(s@) is None,
        },
{
    proof {
        reveal_strlit("file://");
    }
    if !begins_with(&s, &chars_of("file://")) {
        return Some(s);
    }
    let rest = part_of(&s, 7, s.len());
    assert(rest@ =~= s@.skip(7));
    let mut i: usize = 0;
    while i < rest.len() && rest[i] != '/'
        invariant
            i <= rest@.len(),
            first_slash(rest@, 0) == first_slash(rest@, i as int),
        decreases rest.len() - i,
    {
        i = i + 1;
    }
    if i >= rest.len() {
        return None;
    }
    let tail = string_of(&rest, i, rest.len());
    assert(tail@ =~= rest@.skip(i as int));
    Some(chars_of(percent_decode(tail.as_str()).as_str()))
}

fn drop_root(s: Vec<char>) -> (out: Vec<char>)
    ensures
        out@ == without_root(s@),
{
    if s.len() >= 3 && s[0] == '/' && (s[1] as u32) < 128 && s[2] == ':' {
        let out = part_of(&s, 1, s.len());
        assert(out@ =~= s@.skip(1));
        out
    } else {
        s
    }
}

fn unmount(s: Vec<char>) -> (out: Vec<char>)
    ensures
        out@ == from_mount(s@),
{
    proof {
        reveal_strlit("/mnt/");
    }
    if begins_with(&s, &chars_of("/mnt/")) {
        let n: usize = s.len() - 5;
        let ghost rest = s@.skip(5);
        assert(n > 0 ==> rest[0] == s@[5]);
        assert(n > 1 ==> rest[1] == s@[6]);
        if n > 0 {
            let c: char = s[5];
            let letter: bool = ('a' <= c && c <= 'z') || ('A' <= c && c <= 'Z');
            if letter && (n == 1 || s[6] == '/') {
                let drive: char = if 'a' <= c && c <= 'z' { (c as u32 - 32) as u8 as char } else { c };
                let mut out: Vec<char> = Vec::new();
                out.push(drive);
                out.push(':');
                let ghost head = out@;
                let mut i: usize = 6;
                assert(out@ =~= head + s@.subrange(6, 6));
                while i < s.len()
                    invariant
                        6 <= i <= s@.len(),
                        out@ == head + s@.subrange(6, i as int),
                    decreases s.len() - i,
                {
                    out.push(s[i]);
                    i = i + 1;
                    assert(out@ =~= head + s@.subrange(6, i as int));
                }
                assert(rest.skip(1) =~= s@.subrange(6, i as int));
                assert(out@ =~= from_mount(s@));
                return out;
            }
        }
    }
    s
}

/// Turn a shell-announced directory into a Windows path usable as a process
/// working directory: `file:///C:/x`, `file://host/C:/x`, `C:\x`, `/mnt/c/x`
/// (WSL) all become `C:\x`; other Linux paths are not usable and yield None.
pub fn windows_path_from_announced(raw: &str) -> (path: Option<String>)
    ensures
        match path {
            Some(p) => announced_path(raw@) == Some(p@),
            None => announced_path(raw@) is None,
        },
{
    // Windows Terminal's own PowerShell snippet quotes the path
    // (`ESC]9;9;"C:\x"ESC\`); the quotes are not part of it.
    let bare = trimmed(&strip_quotes(trimmed(&chars_of(raw))));
    let path = match path_in(bare) {
        None => return None,
        Some(p) => p,
    };
    let s = unmount(drop_root(path));
    if !(s.len() >= 2 && s[1] == ':') {
        return None;
    }
    let c: char = s[0];
    if !(('a' <= c && c <= 'z') || ('A' <= c && c <= 'Z')) {
        return None;
    }
    let mut p = String::new();
    let mut i: usize = 0;
    let ghost all = Seq::new(
        s@.len(),
        |k: int|
            if s@[k] == '/' {
                '\\'
            } else {
                s@[k]
            },
    );
    assert(p@ =~= all.take(0));
    while i < s.len()
        invariant
            i <= s@.len() == all.len(),
            all == Seq::new(
                s@.len(),
                |k: int|
                    if s@[k] == '/' {
                        '\\'
                    } else {
                        s@[k]
                    },
            ),
            p@ == all.take(i as int),
        decreases s.len() - i,
    {
        p.push(if s[i] == '/' { '\\' } else { s[i] });
        assert(all.take(i + 1) =~= all.take(i as int).push(all[i as int]));
        i = i + 1;
    }
    assert(all.take(i as int) =~= all);
    if s.len() == 2 {
        p.push('\\');
    }
    Some(p)
}

/// `s` without a sign in front.
pub open spec fn magnitude(s: Seq<char>) -> Seq<char> {
    if s.len() > 0 && (s[0] == '-' || s[0] == '+') {
        s.skip(1)
    } else {
        s
    }
}

/// The number a text writes in decimal, a sign in front or not, when it is
/// in `min..=max`.
pub open spec fn signed_of(s: Seq<char>, min: int, max: int) -> Option<int> {
    let minus = s.len() > 0 && s[0] == '-';
    let digits = magnitude(s);
    let n = if minus { -numeral(digits) } else { numeral(digits) as int };
    if digits.len() > 0 && all_digits(digits) && min <= n <= max {
        Some(n)
    } else {
        None
    }
}

/// Reads a decimal number in `min..=max`.
fn read_signed(s: &Vec<char>, min: i64, max: i64) -> (n: Option<i64>)
    requires
        min <= 0 <= max,
    ensures
        match n {
            Some(v) => signed_of(s@, min as int, max as int) == Some(v as int),
            None => signed_of(s@, min as int, max as int) is None,
        },
{
    let minus: bool = s.len() > 0 && s[0] == '-';
    let from: usize = if s.len() > 0 && (s[0] == '-' || s[0] == '+') { 1 } else { 0 };
    let ghost digits = magnitude(s@);
    assert(digits =~= s@.skip(from as int));
    if s.len() == from {
        return None;
    }
    let mut n: i128 = 0;
    let mut big: bool = false;
    let mut i: usize = from;
    assert(digits.take(0) =~= Seq::<char>::empty());
    while i < s.len()
        invariant
            from <= i <= s@.len(),
            digits == magnitude(s@),
            digits == s@.skip(from as int),
            big == (numeral(digits.take(i - from)) > 0x8000_0000_0000_0000),
            !big ==> n == numeral(digits.take(i - from)),
            0 <= n <= 0x8000_0000_0000_0000,
            forall|j: int| 0 <= j < i - from ==> is_digit(#[trigger] digits[j]),
        decreases s.len() - i,
    {
        let c: char = s[i];
        assert(digits[i - from] == c);
        if !('0' <= c && c <= '9') {
            assert(!is_digit(digits[i - from]));
            return None;
        }
        assert(digits.take(i - from + 1).drop_last() =~= digits.take(i - from));
        let next: i128 = n * 10 + (c as u32 - '0' as u32) as i128;
        if big || next > 0x8000_0000_0000_0000 {
            big = true;
        } else {
            n = next;
        }
        i = i + 1;
    }
    assert(digits.take(i - from) =~= digits);
    if big {
        return None;
    }
    let v: i128 = if minus { -n } else { n };
    if v < min as i128 || v > max as i128 {
        None
    } else {
        Some(v as i64)
    }
}

/// What an operating system command of a program means to the pane.
pub ghost enum Said {
    /// The shell is in this directory.
    Directory(Seq<char>),
    /// A resumed pane's saved output is all in.
    Replayed,
    /// The shell is at its prompt, by the word of the prompt hook.
    AtPrompt,
    /// A command ran, between these Unix milliseconds.
    Ran { start: int, end: int, ok: bool },
    Prompt,
    Start,
    End(Option<int>),
    Nothing,
}

/// The bytes are those of the text `s`.
pub open spec fn spells(b: Seq<u8>, s: Seq<char>) -> bool {
    b == encode_utf8(s)
}

/// The milliseconds a parameter writes.
pub open spec fn moment_of(b: Seq<u8>) -> Option<int> {
    signed_of(lossy_text(b), i64::MIN as int, i64::MAX as int)
}

/// What the parameters of an OSC say. A full-screen program's screen is not
/// the shell's: nothing there is a prompt.
pub open spec fn said_by(params: Seq<Seq<u8>>, shell: bool) -> Said {
    if params.len() == 2 && spells(params[0], "7"@) {
        Said::Directory(lossy_text(params[1]))
    } else if params.len() == 3 && spells(params[0], "9"@) && spells(params[1], "9"@) {
        Said::Directory(lossy_text(params[2]))
    } else if params.len() == 2 && spells(params[0], "7777"@) && spells(params[1], "keepane-replayed"@) {
        Said::Replayed
    } else if params.len() == 2 && spells(params[0], "7777"@) && spells(params[1], "keepane-prompt"@) && shell {
        Said::AtPrompt
    } else if params.len() == 5 && spells(params[0], "7777"@) && spells(params[1], "keepane-cmd"@) && shell {
        match (moment_of(params[2]), moment_of(params[3])) {
            (Some(start), Some(end)) => Said::Ran { start, end, ok: !spells(params[4], "0"@) },
            _ => Said::Nothing,
        }
    } else if params.len() >= 2 && (spells(params[0], "133"@) || spells(params[0], "633"@)) && shell {
        if spells(params[1], "A"@) || spells(params[1], "B"@) {
            Said::Prompt
        } else if spells(params[1], "C"@) {
            Said::Start
        } else if spells(params[1], "D"@) {
            Said::End(
                if params.len() >= 3 {
                    signed_of(trim(lossy_text(params[2])), i32::MIN as int, i32::MAX as int)
                } else {
                    None
                },
            )
        } else {
            Said::Nothing
        }
    } else {
        Said::Nothing
    }
}

/// The parameters as values.
pub open spec fn param_bytes(params: Seq<Vec<u8>>) -> Seq<Seq<u8>> {
    Seq::new(params.len(), |i: int| params[i]@)
}

fn is_word(b: &Vec<u8>, word: &str) -> (r: bool)
    ensures
        r == spells(b@, word@),
{
    let w = bytes_of(word);
    if b.len() != w.len() {
        return false;
    }
    let mut i: usize = 0;
    while i < b.len()
        invariant
            i <= b@.len() == w@.len(),
            w@ == encode_utf8(word@),
            forall|k: int| 0 <= k < i ==> b@[k] == w@[k],
        decreases b.len() - i,
    {
        if b[i] != w[i] {
            return false;
        }
        i = i + 1;
    }
    assert(b@ =~= w@);
    true
}

fn moment_in(b: &Vec<u8>) -> (ms: Option<i64>)
    ensures
        match ms {
            Some(v) => moment_of(b@) == Some(v as int),
            None => moment_of(b@) is None,
        },
{
    let text = chars_of(text_from(b).as_str());
    read_signed(&text, i64::MIN, i64::MAX)
}

/// What the program told the terminal, collected until the server looks.
#[derive(Debug)]
pub struct Callbacks {
    pub responses: Vec<u8>,
    pub title: Option<String>,
    pub bell: bool,
    /// Working directory the shell announced (OSC 7 / OSC 9;9), as a Windows path.
    pub cwd: Option<String>,
    /// A resumed pane's saved output is all in.
    pub replayed: bool,
    /// What the shell said about its prompts and commands, in order.
    pub marks: Vec<MarkEvent>,
    /// keepane's own prompt hook said the shell is at its prompt: the one
    /// signal a `shell` pane trusts.
    pub prompted: bool,
}

/// What was told, as mathematics.
pub ghost struct Told {
    pub responses: Seq<u8>,
    pub title: Option<Seq<char>>,
    pub bell: bool,
    pub cwd: Option<Seq<char>>,
    pub replayed: bool,
    pub marks: Seq<MarkEvent>,
    pub prompted: bool,
}

impl View for Callbacks {
    type V = Told;

    open spec fn view(&self) -> Told {
        Told {
            responses: self.responses@,
            title: crate::observe::opt_text(self.title),
            bell: self.bell,
            cwd: crate::observe::opt_text(self.cwd),
            replayed: self.replayed,
            marks: self.marks@,
            prompted: self.prompted,
        }
    }
}

/// `zone` knows how far local time was ahead of UTC at a moment as `offset`
/// does.
pub open spec fn zoned<F: Fn(i64) -> Option<i32>>(zone: F, offset: spec_fn(i64) -> Option<i32>) -> bool {
    forall|ms: i64, out: Option<i32>| #[trigger] call_ensures(zone, (ms,), out) ==> out == offset(ms)
}

/// A moment with its offset, when it has a date.
pub open spec fn local_time(ms: int, offset: spec_fn(i64) -> Option<i32>) -> Option<Time> {
    if -TIME_RANGE <= ms <= TIME_RANGE {
        match offset(ms as i64) {
            Some(off) => if -86400 < off < 86400 {
                Some(Time { ms: ms as i64, offset: off })
            } else {
                None
            },
            None => None,
        }
    } else {
        None
    }
}

impl Told {
    /// After an operating system command at moment `now`.
    pub open spec fn heard(
        self,
        said: Said,
        screen: Screen,
        now: Time,
        offset: spec_fn(i64) -> Option<i32>,
    ) -> Told {
        match said {
            Said::Directory(raw) => match announced_path(raw) {
                Some(p) => Told { cwd: Some(p), ..self },
                None => self,
            },
            Said::Replayed => Told { replayed: true, ..self },
            Said::AtPrompt => Told { prompted: true, ..self },
            Said::Ran { start, end, ok } => match (local_time(start, offset), local_time(end, offset)) {
                (Some(start), Some(end)) => Told { marks: self.marks.push(MarkEvent::Ran { start, end, ok }), ..self },
                _ => self,
            },
            Said::Prompt => Told {
                marks: self.marks.push(MarkEvent::Prompt((screen.scrolled + screen.cursor_row) as u64)),
                ..self
            },
            Said::Start => Told { marks: self.marks.push(MarkEvent::Start(now)), ..self },
            Said::End(code) => Told {
                marks: self.marks.push(
                    MarkEvent::End(
                        now,
                        match code {
                            Some(c) => Some(c as i32),
                            None => None,
                        },
                    ),
                ),
                ..self
            },
            Said::Nothing => self,
        }
    }
}

/// The answer to a control sequence that asks something of the terminal.
pub open spec fn answer(i1: Option<u8>, first: Option<u16>, c: char, row: u16, col: u16) -> Seq<char> {
    if i1 is None && c == 'n' && first == Some(6u16) {
        "\x1b["@ + decimal((row + 1) as nat) + ";"@ + decimal((col + 1) as nat) + "R"@
    } else if i1 is None && c == 'n' && first == Some(5u16) {
        "\x1b[0n"@
    } else if i1 is None && c == 'c' {
        "\x1b[?62;22c"@
    } else if i1 == Some(62u8) && c == 'c' {
        "\x1b[>0;10;1c"@
    } else {
        Seq::empty()
    }
}

impl Default for Callbacks {
    fn default() -> (c: Callbacks)
        ensures
            c@ == (Told {
                responses: Seq::empty(),
                title: None,
                bell: false,
                cwd: None,
                replayed: false,
                marks: Seq::empty(),
                prompted: false,
            }),
    {
        let c = Callbacks {
            responses: Vec::new(),
            title: None,
            bell: false,
            cwd: None,
            replayed: false,
            marks: Vec::new(),
            prompted: false,
        };
        assert(c@.responses =~= Seq::empty());
        assert(c@.marks =~= Seq::empty());
        c
    }
}

impl Callbacks {
    /// The bell rang, to be heard or seen.
    pub fn rang(&mut self)
        ensures
            final(self)@ == (Told { bell: true, ..old(self)@ }),
    {
        self.bell = true;
    }

    pub fn set_window_title(&mut self, title: &Vec<u8>)
        ensures
            final(self)@ == (Told { title: Some(lossy_text(title@)), ..old(self)@ }),
    {
        self.title = Some(text_from(title));
    }

    /// An icon name is a title when there is no other.
    pub fn set_window_icon_name(&mut self, title: &Vec<u8>)
        ensures
            final(self)@ == if old(self)@.title is None {
                Told { title: Some(lossy_text(title@)), ..old(self)@ }
            } else {
                old(self)@
            },
    {
        if self.title.is_none() {
            self.title = Some(text_from(title));
        }
    }

    /// A control sequence the screen does not handle: answer the questions a
    /// real terminal would.
    pub fn unhandled_csi(&mut self, i1: Option<u8>, first: Option<u16>, c: char, row: u16, col: u16)
        ensures
            final(self)@ == (Told {
                responses: old(self)@.responses + encode_utf8(answer(i1, first, c, row, col)),
                ..old(self)@
            }),
    {
        let mut text = String::new();
        match (i1, c) {
            // DSR: cursor position report. ConPTY (with INHERIT_CURSOR) asks
            // for this at startup and waits for the answer.
            (None, 'n') => {
                if let Some(p) = first {
                    if p == 6 {
                        text.push_str("\x1b[");
                        push_decimal(&mut text, row as u64 + 1);
                        text.push_str(";");
                        push_decimal(&mut text, col as u64 + 1);
                        text.push_str("R");
                    } else if p == 5 {
                        text.push_str("\x1b[0n");
                    }
                }
            },
            // Primary device attributes: claim a VT220-class terminal.
            (None, 'c') => text.push_str("\x1b[?62;22c"),
            (Some(62), 'c') => text.push_str("\x1b[>0;10;1c"),
            _ => {},
        }
        assert(text@ =~= answer(i1, first, c, row, col));
        let bytes = bytes_of(text.as_str());
        let ghost before = self.responses@;
        let mut i: usize = 0;
        let mut all: Vec<u8> = Vec::new();
        all.append(&mut self.responses);
        assert(all@ =~= before + bytes@.take(0));
        while i < bytes.len()
            invariant
                i <= bytes@.len(),
                all@ == before + bytes@.take(i as int),
            decreases bytes.len() - i,
        {
            all.push(bytes[i]);
            i = i + 1;
            assert(all@ =~= before + bytes@.take(i as int));
        }
        assert(bytes@.take(i as int) =~= bytes@);
        self.responses = all;
    }

    /// An operating system command the screen does not handle. `zone` gives
    /// how far local time was ahead of UTC at a moment.
    pub fn unhandled_osc<F: Fn(i64) -> Option<i32>>(
        &mut self,
        screen: &Screen,
        params: &Vec<Vec<u8>>,
        now: Time,
        zone: &F,
    )
        requires
            screen.wf(),
            forall|ms: i64| #[trigger] call_requires(*zone, (ms,)),
        ensures
            forall|offset: spec_fn(i64) -> Option<i32>| #[trigger]
                zoned(*zone, offset) ==> final(self)@ == old(self)@.heard(
                    said_by(param_bytes(params@), !screen.alternate),
                    *screen,
                    now,
                    offset,
                ),
    {
        let shell: bool = !screen.alternate;
        let n: usize = params.len();
        let ghost all = param_bytes(params@);
        assert(forall|i: int| 0 <= i < n ==> #[trigger] all[i] == params@[i]@);
        let ghost said = said_by(all, shell);
        if n == 2 && is_word(&params[0], "7") {
            self.moved_to(&params[1]);
        } else if n == 3 && is_word(&params[0], "9") && is_word(&params[1], "9") {
            self.moved_to(&params[2]);
        } else if n == 2 && is_word(&params[0], "7777") && is_word(&params[1], "keepane-replayed") {
            self.replayed = true;
        } else if n == 2 && is_word(&params[0], "7777") && is_word(&params[1], "keepane-prompt") && shell {
            self.prompted = true;
        } else if n == 5 && is_word(&params[0], "7777") && is_word(&params[1], "keepane-cmd") && shell {
            if let Some(a) = moment_in(&params[2]) {
                if let Some(b) = moment_in(&params[3]) {
                    let ok: bool = !is_word(&params[4], "0");
                    let from = in_zone(a, zone);
                    let to = in_zone(b, zone);
                    if let Some(start) = from {
                        if let Some(end) = to {
                            self.marks.push(MarkEvent::Ran { start, end, ok });
                        }
                    }
                }
            }
        } else if n >= 2 && (is_word(&params[0], "133") || is_word(&params[0], "633")) && shell {
            if is_word(&params[1], "A") || is_word(&params[1], "B") {
                self.marks.push(MarkEvent::Prompt(screen.cursor_line()));
            } else if is_word(&params[1], "C") {
                self.marks.push(MarkEvent::Start(now));
            } else if is_word(&params[1], "D") {
                let code: Option<i32> = if n >= 3 {
                    let text = trimmed(&chars_of(text_from(&params[2]).as_str()));
                    match read_signed(&text, i32::MIN as i64, i32::MAX as i64) {
                        Some(v) => Some(v as i32),
                        None => None,
                    }
                } else {
                    None
                };
                self.marks.push(MarkEvent::End(now, code));
            }
        }
    }

    fn moved_to(&mut self, raw: &Vec<u8>)
        ensures
            final(self)@ == match announced_path(lossy_text(raw@)) {
                Some(p) => Told { cwd: Some(p), ..old(self)@ },
                None => old(self)@,
            },
    {
        if let Some(p) = windows_path_from_announced(text_from(raw).as_str()) {
            self.cwd = Some(p);
        }
    }
}

fn in_zone<F: Fn(i64) -> Option<i32>>(ms: i64, zone: &F) -> (t: Option<Time>)
    requires
        forall|ms: i64| #[trigger] call_requires(*zone, (ms,)),
    ensures
        forall|offset: spec_fn(i64) -> Option<i32>| #[trigger]
            zoned(*zone, offset) ==> t == local_time(ms as int, offset),
        t is Some ==> t->0.valid(),
{
    if -TIME_RANGE <= ms && ms <= TIME_RANGE {
        match zone(ms) {
            Some(off) => if -86400 < off && off < 86400 {
                Some(Time { ms, offset: off })
            } else {
                None
            },
            None => None,
        }
    } else {
        None
    }
}

} // verus!
