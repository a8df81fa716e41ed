//! The keys of copy mode.
use vstd::prelude::*;
use crate::copy_mode::{copy_abs, copy_goto, copy_scroll, copy_search, copy_selection, copy_word_motion, find_paragraph, least, paragraph, search_from, searched, word_walk, CopyMode};
use crate::keys::{Key, KeyCode};
use crate::screen::Screen;
use crate::text::{chars_of, lower, start_of, trim_start};

verus! {

/// What is to be done after a key in copy mode.
#[derive(Debug, PartialEq, Eq)]
pub enum CopyAction {
    /// Copy mode goes on.
    Stay,
    /// Copy mode is left.
    Leave,
    /// A pattern is asked for.
    AskSearch { back: bool },
    /// There is no search to repeat.
    NoSearch,
    /// The search repeated found nothing.
    NoMatch,
    /// Copy mode is left, with what was selected, if anything was.
    Copy(Option<String>),
}

pub open spec fn plain(k: Key) -> bool {
    !k.ctrl && !k.alt
}

/// How much white space a line begins with.
pub open spec fn indent(line: Seq<char>) -> int {
    line.len() - trim_start(line).len()
}

impl CopyMode {
    pub open spec fn up(self, s: Screen) -> CopyMode {
        if self.cy > 0 {
            CopyMode { cy: (self.cy - 1) as u16, ..self }
        } else {
            self.scrolled(s, 1)
        }
    }

    pub open spec fn down(self, s: Screen) -> CopyMode {
        if self.cy < s.rows - 1 {
            CopyMode { cy: (self.cy + 1) as u16, ..self }
        } else {
            self.scrolled(s, -1)
        }
    }

    pub open spec fn left(self) -> CopyMode {
        CopyMode {
            cx: if self.cx > 0 {
                (self.cx - 1) as u16
            } else {
                0
            },
            ..self
        }
    }

    pub open spec fn right(self, s: Screen) -> CopyMode {
        CopyMode { cx: least(self.cx + 1, s.cols - 1) as u16, ..self }
    }

    /// A selection begun at the cursor.
    pub open spec fn anchored(self, s: Screen) -> CopyMode {
        let c = self.clamped(s);
        CopyMode { anchor: Some((c.abs(s) as usize, c.cx)), ..c }
    }

    /// The selection a rectangle, or no longer one.
    pub open spec fn boxed(self, s: Screen) -> CopyMode {
        let c = self.clamped(s);
        CopyMode {
            rect: !c.rect,
            anchor: if c.anchor is None {
                Some((c.abs(s) as usize, c.cx))
            } else {
                c.anchor
            },
            ..c
        }
    }

    /// The cursor on the first character of its line that is not blank.
    pub open spec fn indented(self, s: Screen) -> CopyMode {
        let c = self.clamped(s);
        CopyMode { cx: least(indent(s.line(c.abs(s))) as u16 as int, s.cols - 1) as u16, ..c }
    }

    /// The cursor on the next blank line, or the previous one.
    pub open spec fn paragraphed(self, s: Screen, back: bool) -> CopyMode {
        let c = self.clamped(s);
        c.at_line(s, paragraph(s, c.abs(s), back))
    }
}

/// Where a key that moves the cursor takes it.
pub open spec fn motion(c: CopyMode, s: Screen, k: Key) -> Option<CopyMode> {
    match k.code {
        KeyCode::Up => Some(c.up(s)),
        KeyCode::Down => Some(c.down(s)),
        KeyCode::Left => Some(c.left()),
        KeyCode::Right => Some(c.right(s)),
        KeyCode::PPage => Some(c.scrolled(s, s.rows as int)),
        KeyCode::NPage => Some(c.scrolled(s, -(s.rows as int))),
        KeyCode::Home => Some(CopyMode { cx: 0, ..c }),
        KeyCode::End => Some(CopyMode { cx: (s.cols - 1) as u16, ..c }),
        KeyCode::Char(ch) => if plain(k) {
            plain_motion(c, s, ch)
        } else if k.ctrl {
            control_motion(c, s, ch)
        } else {
            None
        },
        _ => None,
    }
}

pub open spec fn plain_motion(c: CopyMode, s: Screen, ch: char) -> Option<CopyMode> {
    if ch == 'k' {
        Some(c.up(s))
    } else if ch == 'j' {
        Some(c.down(s))
    } else if ch == 'h' {
        Some(c.left())
    } else if ch == 'l' {
        Some(c.right(s))
    } else if ch == 'g' {
        Some(CopyMode { offset: s.history() as usize, cy: 0, ..c })
    } else if ch == 'G' {
        Some(CopyMode { offset: 0, cy: (s.rows - 1) as u16, ..c })
    } else if ch == '0' {
        Some(CopyMode { cx: 0, ..c })
    } else if ch == '$' {
        Some(CopyMode { cx: (s.cols - 1) as u16, ..c })
    } else if ch == ' ' || ch == 'v' {
        Some(c.anchored(s))
    } else if ch == 'w' || ch == 'W' || ch == 'b' || ch == 'B' || ch == 'e' || ch == 'E' {
        Some(c.word_moved(s, ch))
    } else if ch == '^' {
        Some(c.indented(s))
    } else if ch == 'H' {
        Some(CopyMode { cy: 0, ..c })
    } else if ch == 'M' {
        Some(CopyMode { cy: s.rows / 2, ..c })
    } else if ch == 'L' {
        Some(CopyMode { cy: (s.rows - 1) as u16, ..c })
    } else if ch == '{' || ch == '}' {
        Some(c.paragraphed(s, ch == '{'))
    } else {
        None
    }
}

pub open spec fn control_motion(c: CopyMode, s: Screen, ch: char) -> Option<CopyMode> {
    if ch == 'b' {
        Some(c.scrolled(s, s.rows as int))
    } else if ch == 'f' || ch == ' ' {
        Some(c.scrolled(s, -(s.rows as int)))
    } else if ch == 'u' {
        Some(c.scrolled(s, s.rows as int / 2))
    } else if ch == 'd' {
        Some(c.scrolled(s, -(s.rows as int / 2)))
    } else if ch == 'a' {
        Some(CopyMode { cx: 0, ..c })
    } else if ch == 'e' {
        Some(CopyMode { cx: (s.cols - 1) as u16, ..c })
    } else if ch == 'v' {
        Some(c.boxed(s))
    } else {
        None
    }
}

/// The key repeats with a count.
pub open spec fn repeats(k: Key) -> bool {
    match k.code {
        KeyCode::Up | KeyCode::Down | KeyCode::Left | KeyCode::Right => true,
        KeyCode::Char(ch) => !k.ctrl && (ch == 'j' || ch == 'k' || ch == 'h' || ch == 'l' || ch == 'w' || ch == 'b'
            || ch == 'e' || ch == 'W' || ch == 'B' || ch == 'E'),
        _ => false,
    }
}

/// A motion `n` times over.
pub open spec fn repeated(c: CopyMode, s: Screen, k: Key, n: nat) -> CopyMode
    decreases n,
{
    if n == 0 {
        c
    } else {
        let before = repeated(c, s, k, (n - 1) as nat);
        match motion(before, s, k) {
            Some(m) => m,
            None => before,
        }
    }
}

/// The digit a key types before a motion. A 0 with no count yet is "start of
/// line".
pub open spec fn count_digit(c: CopyMode, k: Key) -> Option<int> {
    match k.code {
        KeyCode::Char(d) => if plain(k) && '0' <= d <= '9' && (d != '0' || c.count is Some) {
            Some(d as u32 - '0' as u32)
        } else {
            None
        },
        _ => None,
    }
}

/// The count with one more digit.
pub open spec fn counted(count: Option<usize>, digit: int) -> int {
    least(
        (match count {
            Some(n) => n as int,
            None => 0,
        }) * 10 + digit,
        10000,
    )
}

pub open spec fn is_char(k: Key, c: char) -> bool {
    k.code == KeyCode::Char(c)
}

/// What a key that is no motion does: `before` is the mode without its
/// count.
pub open spec fn acted(before: CopyMode, after: CopyMode, action: CopyAction, s: Screen, k: Key) -> bool {
    if k.code is Escape {
        if before.anchor is Some {
            action is Stay && after == (CopyMode { anchor: None, ..before })
        } else {
            action is Leave && after == before
        }
    } else if (is_char(k, 'q') && plain(k)) || (is_char(k, 'c') && k.ctrl) {
        action is Leave && after == before
    } else if plain(k) && (is_char(k, '/') || is_char(k, '?')) {
        action == (CopyAction::AskSearch { back: is_char(k, '?') }) && after == before
    } else if plain(k) && (is_char(k, 'n') || is_char(k, 'N')) {
        match before.search {
            None => action is NoSearch && after == before,
            // An empty pattern finds nothing and is not searched for.
            Some(p) => if p@.len() == 0 {
                action is Stay && after == before
            } else {
                let back = if is_char(k, 'N') { !before.search_back } else { before.search_back };
                &&& searched(before, after, s, p@, back, false)
                &&& action == if search_from(s, before.search_start(s, back, false), lower(p@), back) is Some {
                    CopyAction::Stay
                } else {
                    CopyAction::NoMatch
                }
            },
        }
    } else if k.code is Enter || (is_char(k, 'y') && plain(k)) || (is_char(k, 'w') && k.ctrl) {
        &&& action is Copy
        &&& match action->Copy_0 {
            Some(t) => before.anchor is Some && t@ == before.selected(s),
            None => before.anchor is None,
        }
        // Reading what is selected keeps the view within the scrollback.
        &&& after == before.clamped(s)
    } else {
        action is Stay && after == before
    }
}

/// What a key does.
pub open spec fn keyed(before: CopyMode, after: CopyMode, action: CopyAction, s: Screen, k: Key) -> bool {
    let n = match before.count {
        Some(n) => n as int,
        None => 1,
    };
    let base = CopyMode { count: None, ..before };
    match count_digit(before, k) {
        Some(d) => action is Stay && after == (CopyMode { count: Some(counted(before.count, d) as usize), ..before }),
        None => if n > 1 && repeats(k) {
            action is Stay && after == repeated(base, s, k, n as nat)
        } else {
            match motion(base, s, k) {
                Some(m) => action is Stay && after == m,
                None => acted(base, after, action, s, k),
            }
        },
    }
}

fn indent_of(s: &Screen, abs: usize) -> (n: usize)
    ensures
        n == indent(s.line(abs as int)),
{
    let text = chars_of(s.line_text(abs).0.as_str());
    assert(text@ == s.line(abs as int));
    let i: usize = start_of(&text);
    i
}

/// Move the cursor as a character typed plainly says; whether it is a motion.
fn move_plain(c: &mut CopyMode, s: &Screen, ch: char) -> (done: bool)
    requires
        s.live(),
    ensures
        done == plain_motion(*old(c), *s, ch) is Some,
        *final(c) == match plain_motion(*old(c), *s, ch) {
            Some(m) => m,
            None => *old(c),
        },
{
    match ch {
        'k' => move_up(c, s),
        'j' => move_down(c, s),
        'h' => {
            c.cx = if c.cx > 0 { c.cx - 1 } else { 0 };
        },
        'l' => {
            c.cx = if c.cx < s.cols - 1 { c.cx + 1 } else { s.cols - 1 };
        },
        'g' => {
            c.offset = s.scrollback_len();
            c.cy = 0;
        },
        'G' => {
            c.offset = 0;
            c.cy = s.rows - 1;
        },
        '0' => {
            c.cx = 0;
        },
        '$' => {
            c.cx = s.cols - 1;
        },
        ' ' | 'v' => {
            let abs: usize = copy_abs(c, s);
            c.anchor = Some((abs, c.cx));
        },
        // Word motions.
        'w' | 'W' | 'b' | 'B' | 'e' | 'E' => copy_word_motion(c, s, ch),
        // First non-blank of the line.
        '^' => {
            let abs: usize = copy_abs(c, s);
            let n: usize = indent_of(s, abs);
            let col: u16 = #[verifier::truncate] (n as u16);
            c.cx = if col < s.cols - 1 { col } else { s.cols - 1 };
        },
        // Top, middle and bottom of what is on screen.
        'H' => {
            c.cy = 0;
        },
        'M' => {
            c.cy = s.rows / 2;
        },
        'L' => {
            c.cy = s.rows - 1;
        },
        // Paragraphs: the next or previous blank line.
        '{' | '}' => {
            let from: usize = copy_abs(c, s);
            let abs: usize = find_paragraph(s, from, ch == '{');
            copy_goto(c, s, abs);
        },
        _ => return false,
    }
    true
}

fn move_up(c: &mut CopyMode, s: &Screen)
    requires
        s.live(),
    ensures
        *final(c) == old(c).up(*s),
{
    if c.cy > 0 {
        c.cy = c.cy - 1;
    } else {
        copy_scroll(c, s, 1);
    }
}

fn move_down(c: &mut CopyMode, s: &Screen)
    requires
        s.live(),
    ensures
        *final(c) == old(c).down(*s),
{
    if c.cy < s.rows - 1 {
        c.cy = c.cy + 1;
    } else {
        copy_scroll(c, s, -1);
    }
}

fn move_control(c: &mut CopyMode, s: &Screen, ch: char) -> (done: bool)
    requires
        s.live(),
    ensures
        done == control_motion(*old(c), *s, ch) is Some,
        *final(c) == match control_motion(*old(c), *s, ch) {
            Some(m) => m,
            None => *old(c),
        },
{
    let rows: i64 = s.rows as i64;
    match ch {
        'b' => copy_scroll(c, s, rows),
        'f' | ' ' => copy_scroll(c, s, -rows),
        'u' => copy_scroll(c, s, rows / 2),
        'd' => copy_scroll(c, s, -(rows / 2)),
        'a' => {
            c.cx = 0;
        },
        'e' => {
            c.cx = s.cols - 1;
        },
        // A rectangle instead of whole lines, as vi's C-v does.
        'v' => {
            let abs: usize = copy_abs(c, s);
            c.rect = !c.rect;
            if c.anchor.is_none() {
                c.anchor = Some((abs, c.cx));
            }
        },
        _ => return false,
    }
    true
}

/// Move the cursor as a key says; whether the key is a motion.
fn move_by(c: &mut CopyMode, s: &Screen, k: Key) -> (done: bool)
    requires
        s.live(),
    ensures
        done == motion(*old(c), *s, k) is Some,
        *final(c) == match motion(*old(c), *s, k) {
            Some(m) => m,
            None => *old(c),
        },
{
    match k.code {
        KeyCode::Up => {
            move_up(c, s);
            true
        },
        KeyCode::Down => {
            move_down(c, s);
            true
        },
        KeyCode::Left => {
            c.cx = if c.cx > 0 { c.cx - 1 } else { 0 };
            true
        },
        KeyCode::Right => {
            c.cx = if c.cx < s.cols - 1 { c.cx + 1 } else { s.cols - 1 };
            true
        },
        KeyCode::PPage => {
            copy_scroll(c, s, s.rows as i64);
            true
        },
        KeyCode::NPage => {
            copy_scroll(c, s, -(s.rows as i64));
            true
        },
        KeyCode::Home => {
            c.cx = 0;
            true
        },
        KeyCode::End => {
            c.cx = s.cols - 1;
            true
        },
        KeyCode::Char(ch) => {
            if !k.ctrl && !k.alt {
                move_plain(c, s, ch)
            } else if k.ctrl {
                move_control(c, s, ch)
            } else {
                false
            }
        },
        _ => false,
    }
}

fn repeatable(k: Key) -> (b: bool)
    ensures
        b == repeats(k),
{
    match k.code {
        KeyCode::Up | KeyCode::Down | KeyCode::Left | KeyCode::Right => true,
        KeyCode::Char(ch) => !k.ctrl && matches!(ch, 'j' | 'k' | 'h' | 'l' | 'w' | 'b' | 'e' | 'W' | 'B' | 'E'),
        _ => false,
    }
}

/// What a key that is no motion does.
fn act(c: &mut CopyMode, s: &Screen, k: Key) -> (action: CopyAction)
    requires
        s.live(),
        motion(*old(c), *s, k) is None,
        old(c).anchor is Some ==> (old(c).anchor->0).0 < usize::MAX,
    ensures
        acted(*old(c), *final(c), action, *s, k),
{
    let bare: bool = !k.ctrl && !k.alt;
    match k.code {
        KeyCode::Escape => {
            if c.anchor.is_some() {
                c.anchor = None;
                CopyAction::Stay
            } else {
                CopyAction::Leave
            }
        },
        KeyCode::Enter => CopyAction::Copy(copy_selection(c, s)),
        KeyCode::Char(ch) => {
            if (ch == 'q' && bare) || (ch == 'c' && k.ctrl) {
                CopyAction::Leave
            } else if bare && (ch == '/' || ch == '?') {
                // Search as tmux does: / looks forward (towards the newest
                // line), ? looks back through the scrollback, n and N repeat.
                CopyAction::AskSearch { back: ch == '?' }
            } else if bare && (ch == 'n' || ch == 'N') {
                let pattern = match &c.search {
                    None => return CopyAction::NoSearch,
                    Some(p) => p.clone(),
                };
                if pattern.as_str().is_empty() {
                    return CopyAction::Stay;
                }
                let back: bool = if ch == 'N' { !c.search_back } else { c.search_back };
                if copy_search(c, s, pattern.as_str(), back, false) {
                    CopyAction::Stay
                } else {
                    CopyAction::NoMatch
                }
            } else if (ch == 'y' && bare) || (ch == 'w' && k.ctrl) {
                CopyAction::Copy(copy_selection(c, s))
            } else {
                CopyAction::Stay
            }
        },
        _ => CopyAction::Stay,
    }
}

/// A key in copy mode.
pub fn copy_key(c: &mut CopyMode, s: &Screen, k: Key) -> (action: CopyAction)
    requires
        s.live(),
        old(c).anchor is Some ==> (old(c).anchor->0).0 < usize::MAX,
    ensures
        keyed(*old(c), *final(c), action, *s, k),
{
    let ghost before = *c;
    // vi counts: digits before a motion repeat it ("3j"), except a 0 with
    // no count yet, which is "start of line".
    if let KeyCode::Char(d) = k.code {
        if '0' <= d && d <= '9' && !k.ctrl && !k.alt && (d != '0' || c.count.is_some()) {
            let so_far: usize = match c.count {
                Some(n) => n,
                None => 0,
            };
            let digit: usize = (d as u32 - '0' as u32) as usize;
            let n: usize = if so_far >= 1000 { 10000 } else { so_far * 10 + digit };
            c.count = Some(n);
            return CopyAction::Stay;
        }
    }
    let n: usize = match c.count {
        Some(n) => n,
        None => 1,
    };
    c.count = None;
    let ghost base = *c;
    // Motions that repeat with a count do so here, once each.
    if n > 1 && repeatable(k) {
        let mut i: usize = 0;
        while i < n
            invariant
                i <= n,
                s.live(),
                *c == repeated(base, *s, k, i as nat),
            decreases n - i,
        {
            move_by(c, s, k);
            i = i + 1;
        }
        return CopyAction::Stay;
    }
    if move_by(c, s, k) {
        return CopyAction::Stay;
    }
    act(c, s, k)
}

proof fn lemma_word_walk(s: Screen, cur: int, x: int, key: char, steps: int)
    requires
        s.live(),
        0 <= cur <= s.last(),
        0 <= x < s.cols,
        0 <= steps,
    ensures
        ({
            let (c, y) = word_walk(s, cur, x, key, steps);
            0 <= c <= s.last() && 0 <= y < s.cols
        }),
    decreases crate::copy_mode::WORD_STEPS - steps,
{
    if steps < crate::copy_mode::WORD_STEPS {
        if let Some((c, y)) = crate::copy_mode::next_cell(s, cur, x, crate::copy_mode::goes_back(key)) {
            lemma_word_walk(s, c, y, key, steps + 1);
        }
    }
}

proof fn lemma_paragraph(s: Screen, abs: int, back: bool)
    requires
        s.live(),
        0 <= abs <= s.last(),
    ensures
        0 <= paragraph(s, abs, back) <= s.last(),
    decreases
            if back {
                abs
            } else {
                s.lines@.len() - abs
            },
{
    if back {
        if abs > 0 && !crate::copy_mode::is_blank(s, abs - 1) {
            lemma_paragraph(s, abs - 1, back);
        }
    } else if abs < s.last() && !crate::copy_mode::is_blank(s, abs + 1) {
        lemma_paragraph(s, abs + 1, back);
    }
}

/// No motion takes the cursor off the screen, or the view out of the
/// scrollback.
#[verifier::spinoff_prover]
#[verifier::rlimit(50)]
pub proof fn lemma_motion_stays_on(c: CopyMode, s: Screen, k: Key)
    requires
        s.live(),
        c.on(s),
    ensures
        motion(c, s, k) is Some ==> (motion(c, s, k)->0).on(s),
{
    if let KeyCode::Char(ch) = k.code {
        if ch == '{' || ch == '}' {
            lemma_paragraph(s, c.abs(s), ch == '{');
        } else {
            lemma_word_walk(s, c.abs(s), c.cx as int, ch, 0);
        }
    }
}

/// Repeating a motion does not either.
pub proof fn lemma_repeats_stay_on(c: CopyMode, s: Screen, k: Key, n: nat)
    requires
        s.live(),
        c.on(s),
    ensures
        repeated(c, s, k, n).on(s),
    decreases n,
{
    if n > 0 {
        lemma_repeats_stay_on(c, s, k, (n - 1) as nat);
        lemma_motion_stays_on(repeated(c, s, k, (n - 1) as nat), s, k);
    }
}

} // verus!
