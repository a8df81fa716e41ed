//! The prompt on the status line, and the editing of what is typed there.
use vstd::prelude::*;
use crate::keys::{Key, KeyCode};
use crate::screen::bytes_in;
use crate::text::{chars_of, decimal, end_of, part_of, push_decimal, push_part, string_of, trim_end};

verus! {

pub enum PromptKind {
    /// Run the input as a command line, or substitute it into a template.
    Command { template: Option<String> },
    /// Run this command line when the answer is yes.
    Confirm(String),
    /// `/` or `?` in copy mode: the input is a pattern, not a command.
    Search { back: bool },
    /// `f` in a picker: the input filters its lines as it is typed;
    /// Escape puts `prev` back.
    Filter { prev: String },
}

pub struct Prompt {
    pub kind: PromptKind,
    pub label: String,
    pub input: String,
    pub cursor: usize,
    /// Shown in place of the label until the next key: what Tab found.
    pub hint: Option<String>,
}

/// What is to be done after a key at the prompt.
#[derive(Debug, PartialEq, Eq, Clone, Copy, Structural)]
pub enum PromptAction {
    /// The prompt stays.
    Stay,
    /// It goes, and what was asked for is not done.
    Cancel,
    /// It goes, and what was asked for is done with the input.
    Accept,
    /// A word is to be completed.
    Complete,
}

impl Prompt {
    /// The cursor is in the text or behind it.
    pub open spec fn wf(self) -> bool {
        self.cursor <= self.input@.len()
    }
}

/// The byte where character `n` of `s` begins, or the end of it.
pub open spec fn char_start(s: Seq<char>, n: int) -> int {
    bytes_in(
        s.take(
            if n < s.len() {
                n
            } else {
                s.len() as int
            },
        ),
    ) as int
}

/// The byte index of character `chars` of `s`, or its length in bytes.
pub fn char_index(s: &str, chars: usize) -> (i: usize)
    requires
        bytes_in(s@) <= usize::MAX,
    ensures
        i == char_start(s@, chars as int),
{
    let all = chars_of(s);
    let n: usize = if chars < all.len() { chars } else { all.len() };
    let mut i: usize = 0;
    let mut k: usize = 0;
    assert(all@.take(0) =~= Seq::<char>::empty());
    while k < n
        invariant
            k <= n <= all@.len(),
            all@ == s@,
            bytes_in(s@) <= usize::MAX,
            i == bytes_in(all@.take(k as int)),
        decreases n - k,
    {
        proof {
            crate::screen::lemma_bytes_grow(all@, k + 1);
            assert(all@.take(k + 1).drop_last() =~= all@.take(k as int));
            assert(all@.take(k + 1).last() == all@[k as int]);
        }
        i = i + crate::screen::size_of_char(all[k]);
        k = k + 1;
    }
    i
}

/// Where the word before the cursor begins, after the last space of `head`.
pub open spec fn after_space(head: Seq<char>, i: int) -> int
    decreases i,
{
    if i <= 0 || i > head.len() {
        0
    } else if head[i - 1] == ' ' {
        i
    } else {
        after_space(head, i - 1)
    }
}

/// The text and the cursor after an editing key.
pub open spec fn edited(input: Seq<char>, cursor: int, k: Key) -> (Seq<char>, int) {
    let n = input.len() as int;
    let ch = k.code->Char_0;
    if (k.code is BSpace && !k.ctrl && !k.alt) || (k.code is Char && ch == 'h' && k.ctrl) {
        if cursor > 0 {
            (input.remove(cursor - 1), cursor - 1)
        } else {
            (input, cursor)
        }
    } else if k.code is DC || (k.code is Char && ch == 'd' && k.ctrl) {
        if cursor < n {
            (input.remove(cursor), cursor)
        } else {
            (input, cursor)
        }
    } else if k.code is Left || (k.code is Char && ch == 'b' && k.ctrl) {
        (
            input,
            if cursor > 0 {
                cursor - 1
            } else {
                0
            },
        )
    } else if k.code is Right || (k.code is Char && ch == 'f' && k.ctrl) {
        (
            input,
            if cursor < n {
                cursor + 1
            } else {
                n
            },
        )
    } else if k.code is Home || (k.code is Char && ch == 'a' && k.ctrl) {
        (input, 0)
    } else if k.code is End || (k.code is Char && ch == 'e' && k.ctrl) {
        (input, n)
    } else if k.code is Char && ch == 'u' && k.ctrl {
        (input.skip(cursor), 0)
    } else if k.code is Char && ch == 'k' && k.ctrl {
        (input.take(cursor), cursor)
    } else if k.code is Char && ch == 'w' && k.ctrl {
        let head = trim_end(input.take(cursor));
        let cut = after_space(head, head.len() as int);
        (input.take(cut) + input.skip(cursor), cut)
    } else if k.code is Char && !k.ctrl && !k.alt {
        (input.insert(cursor, ch), cursor + 1)
    } else {
        (input, cursor)
    }
}

/// What a key does to a prompt.
pub open spec fn prompted(p: Prompt, k: Key) -> PromptAction {
    let ch = k.code->Char_0;
    if p.kind is Confirm {
        if k.code is Char && (ch == 'y' || ch == 'Y') && !k.ctrl && !k.alt {
            PromptAction::Accept
        } else {
            PromptAction::Cancel
        }
    } else if k.code is Escape || (k.code is Char && (ch == 'c' || ch == 'g') && k.ctrl) {
        PromptAction::Cancel
    } else if k.code is Enter {
        PromptAction::Accept
    } else if k.code is Tab && !k.ctrl && !k.alt && p.kind is Command {
        PromptAction::Complete
    } else {
        PromptAction::Stay
    }
}

fn find_space(head: &Vec<char>) -> (i: usize)
    ensures
        i == after_space(head@, head@.len() as int),
        i <= head@.len(),
{
    let mut i: usize = head.len();
    while i > 0 && head[i - 1] != ' '
        invariant
            i <= head@.len(),
            after_space(head@, head@.len() as int) == after_space(head@, i as int),
        decreases i,
    {
        i = i - 1;
    }
    i
}

/// An editing key at the prompt.
fn edit(input: &mut Vec<char>, cursor: usize, k: Key) -> (to: usize)
    requires
        cursor <= old(input)@.len(),
    ensures
        (final(input)@, to as int) == edited(old(input)@, cursor as int, k),
        to <= final(input)@.len(),
{
    let n: usize = input.len();
    let bare: bool = !k.ctrl && !k.alt;
    match k.code {
        KeyCode::BSpace => {
            if bare && cursor > 0 {
                input.remove(cursor - 1);
                return cursor - 1;
            }
            cursor
        },
        KeyCode::DC => {
            if cursor < n {
                input.remove(cursor);
            }
            cursor
        },
        KeyCode::Left => if cursor > 0 {
            cursor - 1
        } else {
            0
        },
        KeyCode::Right => if cursor < n {
            cursor + 1
        } else {
            n
        },
        KeyCode::Home => 0,
        KeyCode::End => n,
        KeyCode::Char(ch) => {
            if bare {
                input.insert(cursor, ch);
                let longer: usize = input.len();
                assert(cursor < longer);
                return cursor + 1;
            }
            if !k.ctrl {
                return cursor;
            }
            match ch {
                'h' => {
                    if cursor > 0 {
                        input.remove(cursor - 1);
                        return cursor - 1;
                    }
                    cursor
                },
                'd' => {
                    if cursor < n {
                        input.remove(cursor);
                    }
                    cursor
                },
                'b' => if cursor > 0 {
                    cursor - 1
                } else {
                    0
                },
                'f' => if cursor < n {
                    cursor + 1
                } else {
                    n
                },
                'a' => 0,
                'e' => n,
                'u' => {
                    let tail = part_of(input, cursor, n);
                    assert(tail@ =~= input@.skip(cursor as int));
                    *input = tail;
                    0
                },
                'k' => {
                    let head = part_of(input, 0, cursor);
                    assert(head@ =~= input@.take(cursor as int));
                    *input = head;
                    cursor
                },
                'w' => cut_word(input, cursor),
                _ => cursor,
            }
        },
        _ => cursor,
    }
}

/// Take out the word before the cursor.
fn cut_word(input: &mut Vec<char>, cursor: usize) -> (to: usize)
    requires
        cursor <= old(input)@.len(),
    ensures
        ({
            let head = trim_end(old(input)@.take(cursor as int));
            let cut = after_space(head, head.len() as int);
            &&& to == cut
            &&& final(input)@ == old(input)@.take(cut) + old(input)@.skip(cursor as int)
        }),
        to <= final(input)@.len(),
{
    let head = part_of(input, 0, cursor);
    assert(head@ =~= input@.take(cursor as int));
    let e: usize = end_of(&head, 0);
    assert(head@.skip(0) =~= head@);
    let trimmed = part_of(&head, 0, e);
    let cut: usize = find_space(&trimmed);
    let ghost before = input@;
    let mut out: Vec<char> = part_of(input, 0, cut);
    assert(out@ =~= before.take(cut as int));
    let ghost kept = out@;
    let mut i: usize = cursor;
    assert(out@ =~= kept + before.subrange(cursor as int, i as int));
    while i < input.len()
        invariant
            cursor <= i <= input@.len(),
            input@ == before,
            out@ == kept + before.subrange(cursor as int, i as int),
        decreases input.len() - i,
    {
        out.push(input[i]);
        i = i + 1;
        assert(out@ =~= kept + before.subrange(cursor as int, i as int));
    }
    assert(before.subrange(cursor as int, i as int) =~= before.skip(cursor as int));
    *input = out;
    cut
}

/// A key at the prompt.
pub fn prompt_key(p: &mut Prompt, k: Key) -> (action: PromptAction)
    requires
        old(p).wf(),
    ensures
        final(p).wf(),
        action == prompted(*old(p), k),
        final(p).kind == old(p).kind,
        final(p).label == old(p).label,
        // Tab's candidates stay up for one key only.
        final(p).hint == if k.code is Tab {
            old(p).hint
        } else {
            None
        },
        (final(p).input@, final(p).cursor as int) == if action is Stay && !(old(p).kind is Confirm) {
            edited(old(p).input@, old(p).cursor as int, k)
        } else {
            (old(p).input@, old(p).cursor as int)
        },
{
    if k.code != KeyCode::Tab {
        p.hint = None;
    }
    let bare: bool = !k.ctrl && !k.alt;
    if let PromptKind::Confirm(_) = &p.kind {
        return match k.code {
            KeyCode::Char(ch) => if bare && (ch == 'y' || ch == 'Y') {
                PromptAction::Accept
            } else {
                PromptAction::Cancel
            },
            _ => PromptAction::Cancel,
        };
    }
    match k.code {
        KeyCode::Escape => return PromptAction::Cancel,
        KeyCode::Enter => return PromptAction::Accept,
        KeyCode::Tab => {
            if bare {
                if let PromptKind::Command { .. } = &p.kind {
                    return PromptAction::Complete;
                }
            }
        },
        KeyCode::Char(ch) => {
            if k.ctrl && (ch == 'c' || ch == 'g') {
                return PromptAction::Cancel;
            }
        },
        _ => {},
    }
    let mut chars = chars_of(p.input.as_str());
    p.cursor = edit(&mut chars, p.cursor, k);
    p.input = string_of(&chars, 0, chars.len());
    assert(p.input@ =~= chars@);
    PromptAction::Stay
}

/// What several candidates have in common at the front, of at most `n`
/// characters.
pub open spec fn agree_to(words: Seq<Seq<char>>, n: int) -> bool {
    forall|i: int| 0 <= i < words.len() ==> n <= (#[trigger] words[i]).len() && words[i].take(n) == words[0].take(n)
}

/// The longest beginning that several candidates share.
pub open spec fn is_common(words: Seq<Seq<char>>, s: Seq<char>) -> bool {
    &&& words.len() > 0
    &&& s.len() <= words[0].len()
    &&& s == words[0].take(s.len() as int)
    &&& agree_to(words, s.len() as int)
    &&& !agree_to(words, s.len() as int + 1)
}

pub open spec fn texts(v: Seq<String>) -> Seq<Seq<char>> {
    Seq::new(v.len(), |i: int| v[i]@)
}

/// The longest beginning that several words share.
pub fn common_prefix(words: &Vec<String>) -> (out: String)
    requires
        words@.len() > 0,
    ensures
        is_common(texts(words@), out@),
{
    let ghost all = texts(words@);
    let first = chars_of(words[0].as_str());
    assert(all[0] == first@);
    let mut n: usize = first.len();
    let mut i: usize = 1;
    proof {
        assert(all.take(1) =~= seq![all[0]]);
        assert(agree_to(all.take(1), n as int));
        assert(!agree_to(all.take(1), n + 1)) by {
            assert(all.take(1)[0] == first@);
        }
    }
    while i < words.len()
        invariant
            1 <= i <= words@.len(),
            all == texts(words@),
            all[0] == first@,
            n <= first@.len(),
            agree_to(all.take(i as int), n as int),
            !agree_to(all.take(i as int), n + 1),
        decreases words.len() - i,
    {
        let w = chars_of(words[i].as_str());
        assert(all[i as int] == w@);
        let ghost n0 = n;
        let mut k: usize = 0;
        while k < n && k < w.len() && w[k] == first[k]
            invariant
                k <= n <= first@.len(),
                k <= w@.len(),
                forall|j: int| 0 <= j < k ==> w@[j] == first@[j],
            decreases n - k,
        {
            k = k + 1;
        }
        proof {
            let before = all.take(i as int);
            let after = all.take(i + 1);
            assert(before[0] == first@ && after[0] == first@);
            assert forall|j: int| 0 <= j < after.len() implies k <= (#[trigger] after[j]).len() && after[j].take(k as int)
                == after[0].take(k as int) by {
                if j < i {
                    assert(after[j] == before[j]);
                    assert(before[j].take(n0 as int) == first@.take(n0 as int));
                    assert(before[j].take(n0 as int).take(k as int) =~= before[j].take(k as int));
                    assert(first@.take(n0 as int).take(k as int) =~= first@.take(k as int));
                } else {
                    assert(after[j] == w@);
                    assert(w@.take(k as int) =~= first@.take(k as int));
                }
            }
            if agree_to(after, k + 1) {
                if k == n0 {
                    assert(agree_to(before, n0 + 1)) by {
                        assert forall|j: int| 0 <= j < before.len() implies n0 + 1 <= (#[trigger] before[j]).len()
                            && before[j].take(n0 + 1) == before[0].take(n0 + 1) by {
                            assert(after[j] == before[j]);
                        }
                    }
                } else {
                    assert(after[i as int] == w@);
                    assert(w@.take(k + 1)[k as int] == first@.take(k + 1)[k as int]);
                }
            }
        }
        n = k;
        i = i + 1;
    }
    assert(all.take(i as int) =~= all);
    let out = string_of(&first, 0, n);
    assert(out@ =~= first@.take(n as int));
    out
}

/// The first candidates, as the status line lists them.
pub open spec fn listed(words: Seq<Seq<char>>, k: int) -> Seq<char>
    decreases k,
{
    if k <= 0 || k > words.len() {
        Seq::empty()
    } else if k == 1 {
        words[0]
    } else {
        listed(words, k - 1) + " "@ + words[k - 1]
    }
}

/// How many candidates the status line lists.
pub const LISTED: usize = 6;

/// What the status line says of the candidates.
pub open spec fn hint_text(words: Seq<Seq<char>>) -> Option<Seq<char>> {
    if words.len() == 0 {
        Some("(no completion) "@)
    } else if words.len() == 1 {
        None
    } else if words.len() <= LISTED {
        Some("("@ + listed(words, words.len() as int) + ") "@)
    } else {
        Some("("@ + listed(words, LISTED as int) + " +"@ + decimal((words.len() - LISTED) as nat) + ") "@)
    }
}

/// What is typed for the word being completed.
pub open spec fn is_completion(words: Seq<Seq<char>>, ends_word: bool, s: Seq<char>) -> bool {
    if words.len() == 0 {
        s == Seq::<char>::empty()
    } else if words.len() == 1 {
        s == words[0] + if ends_word {
            " "@
        } else {
            Seq::empty()
        }
    } else {
        is_common(words, s)
    }
}

fn hint_of(words: &Vec<String>) -> (hint: Option<String>)
    ensures
        match hint {
            Some(h) => hint_text(texts(words@)) == Some(h@),
            None => hint_text(texts(words@)) is None,
        },
{
    let n: usize = words.len();
    let ghost all = texts(words@);
    if n == 0 {
        return Some("(no completion) ".to_owned());
    }
    if n == 1 {
        return None;
    }
    let shown: usize = if n < LISTED { n } else { LISTED };
    let mut h = "(".to_owned();
    let ghost head = h@;
    let mut k: usize = 0;
    assert(h@ =~= head + listed(all, 0));
    while k < shown
        invariant
            k <= shown <= words@.len(),
            all == texts(words@),
            h@ == head + listed(all, k as int),
        decreases shown - k,
    {
        let ghost before = h@;
        if k > 0 {
            h.push_str(" ");
        }
        h.push_str(words[k].as_str());
        assert(all[k as int] == words@[k as int]@);
        k = k + 1;
        assert(h@ =~= head + listed(all, k as int));
    }
    if n > shown {
        h.push_str(" +");
        push_decimal(&mut h, (n - shown) as u64);
    }
    h.push_str(") ");
    assert(h@ =~= hint_text(all)->0);
    Some(h)
}

/// After a word was completed as far as the candidates agree.
pub open spec fn completed(
    before: (Seq<char>, int),
    after: (Seq<char>, int),
    words: Seq<Seq<char>>,
    ends_word: bool,
) -> bool {
    let (input, cursor) = before;
    let head = input.take(cursor);
    let start = after_space(head, cursor);
    let word = head.skip(start);
    exists|s: Seq<char>| #[trigger]
        is_completion(words, ends_word, s) && after == if bytes_in(s) <= bytes_in(word) {
            before
        } else {
            (input.take(start) + s + input.skip(cursor), start + s.len())
        }
}

fn count_bytes(s: &Vec<char>, from: usize, to: usize) -> (n: u128)
    requires
        from <= to <= s@.len(),
    ensures
        n == bytes_in(s@.subrange(from as int, to as int)),
        n <= 4 * (to - from),
{
    let mut n: u128 = 0;
    let mut i: usize = from;
    assert(s@.subrange(from as int, from as int) =~= Seq::<char>::empty());
    while i < to
        invariant
            from <= i <= to <= s@.len(),
            n == bytes_in(s@.subrange(from as int, i as int)),
            n <= 4 * (i - from),
        decreases to - i,
    {
        assert(s@.subrange(from as int, i + 1).drop_last() =~= s@.subrange(from as int, i as int));
        assert(s@.subrange(from as int, i + 1).last() == s@[i as int]);
        n = n + crate::screen::size_of_char(s[i]) as u128;
        i = i + 1;
    }
    n
}

/// Tab at the `:` prompt. The word under the cursor is completed: one
/// candidate is typed in whole (with a space after it when it `ends_word`);
/// several are typed as far as they agree and listed on the status line; none
/// says so.
pub fn complete_prompt(p: &mut Prompt, candidates: &Vec<String>, ends_word: bool)
    requires
        old(p).wf(),
    ensures
        final(p).wf(),
        final(p).kind == old(p).kind,
        final(p).label == old(p).label,
        match final(p).hint {
            Some(h) => hint_text(texts(candidates@)) == Some(h@),
            None => hint_text(texts(candidates@)) is None,
        },
        completed(
            (old(p).input@, old(p).cursor as int),
            (final(p).input@, final(p).cursor as int),
            texts(candidates@),
            ends_word,
        ),
{
    let ghost all = texts(candidates@);
    let input = chars_of(p.input.as_str());
    let cursor: usize = p.cursor;
    let head = part_of(&input, 0, cursor);
    assert(head@ =~= input@.take(cursor as int));
    let start: usize = find_space(&head);
    p.hint = hint_of(candidates);
    let replacement = if candidates.len() == 0 {
        let s = String::new();
        assert(is_completion(all, ends_word, s@));
        s
    } else if candidates.len() == 1 {
        let mut s = candidates[0].clone();
        assert(all[0] == candidates@[0]@);
        if ends_word {
            s.push_str(" ");
        }
        assert(s@ =~= all[0] + if ends_word {
            " "@
        } else {
            Seq::empty()
        });
        assert(is_completion(all, ends_word, s@));
        s
    } else {
        let s = common_prefix(candidates);
        assert(is_completion(all, ends_word, s@));
        s
    };
    let typed = chars_of(replacement.as_str());
    assert(typed@.subrange(0, typed@.len() as int) =~= typed@);
    assert(head@.subrange(start as int, cursor as int) =~= head@.skip(start as int));
    if count_bytes(&typed, 0, typed.len()) <= count_bytes(&head, start, cursor) {
        return; // nothing more to type yet
    }
    let mut out = string_of(&input, 0, start);
    out.push_str(replacement.as_str());
    push_part(&mut out, &input, cursor, input.len());
    assert(out@ =~= input@.take(start as int) + replacement@ + input@.skip(cursor as int));
    let total: usize = chars_of(out.as_str()).len();
    p.input = out;
    p.cursor = total - (input.len() - cursor);
}

/// A template with `with` in the place of every `%%`, from `i` on.
pub open spec fn filled(t: Seq<char>, with: Seq<char>, i: int) -> Seq<char>
    decreases t.len() - i,
{
    if i < 0 || i >= t.len() {
        Seq::empty()
    } else if i + 1 < t.len() && t[i] == '%' && t[i + 1] == '%' {
        with + filled(t, with, i + 2)
    } else {
        seq![t[i]] + filled(t, with, i + 1)
    }
}

/// The command line of a template and what was typed, already quoted.
pub fn fill_template(template: &str, quoted: &str) -> (out: String)
    ensures
        out@ == filled(template@, quoted@, 0),
{
    let t = chars_of(template);
    let n: usize = t.len();
    let mut out = String::new();
    let mut i: usize = 0;
    assert(out@ + filled(t@, quoted@, 0) =~= filled(t@, quoted@, 0));
    while i < n
        invariant
            i <= n == t@.len(),
            out@ + filled(t@, quoted@, i as int) == filled(t@, quoted@, 0),
        decreases n - i,
    {
        let ghost before = out@;
        if n - i > 1 && t[i] == '%' && t[i + 1] == '%' {
            out.push_str(quoted);
            assert(out@ + filled(t@, quoted@, i + 2) =~= before + filled(t@, quoted@, i as int));
            i = i + 2;
        } else {
            out.push(t[i]);
            assert(out@ + filled(t@, quoted@, i + 1) =~= before + filled(t@, quoted@, i as int));
            i = i + 1;
        }
    }
    assert(out@ + filled(t@, quoted@, i as int) =~= out@);
    out
}

/// The cursor of a prompt stays in its text, whatever is typed.
pub proof fn lemma_edits_keep_the_cursor(input: Seq<char>, cursor: int, k: Key)
    requires
        0 <= cursor <= input.len(),
    ensures
        0 <= edited(input, cursor, k).1 <= edited(input, cursor, k).0.len(),
{
    let head = trim_end(input.take(cursor));
    lemma_after_space(head, head.len() as int);
    lemma_trim_end_shorter(input.take(cursor));
}

proof fn lemma_after_space(head: Seq<char>, i: int)
    requires
        0 <= i <= head.len(),
    ensures
        0 <= after_space(head, i) <= i,
    decreases i,
{
    if i > 0 && head[i - 1] != ' ' {
        lemma_after_space(head, i - 1);
    }
}

proof fn lemma_trim_end_shorter(s: Seq<char>)
    ensures
        trim_end(s).len() <= s.len(),
    decreases s.len(),
{
    if s.len() > 0 && crate::text::is_white(s.last()) {
        lemma_trim_end_shorter(s.drop_last());
    }
}

/// A character typed and taken back leaves the prompt as it was.
pub proof fn lemma_backspace_undoes(input: Seq<char>, cursor: int, c: char)
    requires
        0 <= cursor <= input.len(),
    ensures
        ({
            let typed = Key { code: KeyCode::Char(c), ctrl: false, alt: false, shift: false };
            let back = Key { code: KeyCode::BSpace, ctrl: false, alt: false, shift: false };
            let (text, at) = edited(input, cursor, typed);
            edited(text, at, back) == (input, cursor)
        }),
{
    assert(input.insert(cursor, c).remove(cursor) =~= input);
}

} // verus!
