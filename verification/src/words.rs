//! Command lines as words: how words are written in a line, and how a line is
//! read as words.
use vstd::prelude::*;

use crate::text::{chars_of, string_of, texts_of};

verus! {

/// A character that a word is quoted for: it would part the word, or begin
/// something else in a line.
pub open spec fn special(c: char) -> bool {
    c == ' ' || c == '"' || c == '\\' || c == '#'
}

/// A word that stands in a line as it is.
pub open spec fn stands_bare(w: Seq<char>) -> bool {
    w.len() > 0 && forall|i: int| 0 <= i < w.len() ==> !special(#[trigger] w[i])
}

/// A word within quotes: a backslash before each quote and backslash.
pub open spec fn escaped(w: Seq<char>) -> Seq<char>
    decreases w.len(),
{
    if w.len() == 0 {
        Seq::empty()
    } else if w[0] == '"' || w[0] == '\\' {
        seq!['\\', w[0]] + escaped(w.skip(1))
    } else {
        seq![w[0]] + escaped(w.skip(1))
    }
}

/// A word as it is written.
pub open spec fn quoted(w: Seq<char>) -> Seq<char> {
    if stands_bare(w) {
        w
    } else {
        seq!['"'] + escaped(w) + seq!['"']
    }
}

/// The words from `k` on as a line, a blank between them.
pub open spec fn line_from(ws: Seq<Seq<char>>, k: int) -> Seq<char>
    decreases ws.len() - k,
{
    if k < 0 || k >= ws.len() {
        Seq::empty()
    } else {
        (if k > 0 {
            seq![' ']
        } else {
            Seq::empty()
        }) + quoted(ws[k]) + line_from(ws, k + 1)
    }
}

/// The words of `out` and those after them.
pub open spec fn ahead_of(out: Seq<Seq<char>>, rest: Option<Seq<Seq<char>>>) -> Option<Seq<Seq<char>>> {
    match rest {
        Some(ws) => Some(out + ws),
        None => None,
    }
}

/// The words of a line, where `word` is the one being read, `open` within
/// quotes: blanks part words, quotes hold one together, and within them a
/// backslash keeps the character behind it. Nothing when a quote is not
/// closed.
pub open spec fn words_in(s: Seq<char>, word: Option<Seq<char>>, open: bool) -> Option<Seq<Seq<char>>>
    decreases s.len(),
{
    let so_far = match word {
        Some(w) => w,
        None => Seq::empty(),
    };
    if s.len() == 0 {
        if open {
            None
        } else {
            Some(
                match word {
                    Some(w) => seq![w],
                    None => Seq::empty(),
                },
            )
        }
    } else if open {
        if s[0] == '"' {
            words_in(s.skip(1), Some(so_far), false)
        } else if s[0] != '\\' {
            words_in(s.skip(1), Some(so_far.push(s[0])), true)
        } else if s.len() == 1 {
            None
        } else {
            words_in(s.skip(2), Some(so_far.push(s[1])), true)
        }
    } else if s[0] == '"' {
        words_in(s.skip(1), Some(so_far), true)
    } else if s[0] != ' ' {
        words_in(s.skip(1), Some(so_far.push(s[0])), false)
    } else {
        match word {
            Some(w) => ahead_of(seq![w], words_in(s.skip(1), None, false)),
            None => words_in(s.skip(1), None, false),
        }
    }
}

proof fn lemma_escaped_read(w: Seq<char>, so_far: Seq<char>, tail: Seq<char>)
    ensures
        words_in(escaped(w) + seq!['"'] + tail, Some(so_far), true) == words_in(tail, Some(so_far + w), false),
    decreases w.len(),
{
    let s = escaped(w) + seq!['"'] + tail;
    if w.len() == 0 {
        assert(s.skip(1) =~= tail);
        assert(so_far + w =~= so_far);
    } else {
        let rest = escaped(w.skip(1)) + seq!['"'] + tail;
        lemma_escaped_read(w.skip(1), so_far.push(w[0]), tail);
        assert(so_far.push(w[0]) + w.skip(1) =~= so_far + w);
        if w[0] == '"' || w[0] == '\\' {
            assert(s.skip(2) =~= rest);
            assert(s[0] == '\\' && s[1] == w[0]);
        } else {
            assert(s.skip(1) =~= rest);
            assert(s[0] == w[0]);
        }
    }
}

proof fn lemma_bare_read(w: Seq<char>, word: Option<Seq<char>>, tail: Seq<char>)
    requires
        forall|i: int| 0 <= i < w.len() ==> !special(#[trigger] w[i]),
        w.len() > 0 || word is Some,
    ensures
        ({
            let so_far = match word {
                Some(x) => x,
                None => Seq::empty(),
            };
            words_in(w + tail, word, false) == words_in(tail, Some(so_far + w), false)
        }),
    decreases w.len(),
{
    let so_far = match word {
        Some(x) => x,
        None => Seq::empty(),
    };
    let s = w + tail;
    if w.len() == 0 {
        assert(s =~= tail);
        assert(so_far + w =~= so_far);
    } else {
        let next = w.skip(1);
        assert(!special(w[0]));
        assert(s[0] == w[0]);
        assert(s.skip(1) =~= next + tail);
        assert forall|i: int| 0 <= i < next.len() implies !special(#[trigger] next[i]) by {
            assert(next[i] == w[i + 1]);
        }
        lemma_bare_read(next, Some(so_far.push(w[0])), tail);
        assert(so_far.push(w[0]) + next =~= so_far + w);
    }
}

proof fn lemma_word_read(w: Seq<char>, tail: Seq<char>)
    ensures
        words_in(quoted(w) + tail, None, false) == words_in(tail, Some(w), false),
{
    assert(Seq::<char>::empty() + w =~= w);
    if stands_bare(w) {
        lemma_bare_read(w, None, tail);
    } else {
        let s = quoted(w) + tail;
        assert(s.skip(1) =~= escaped(w) + seq!['"'] + tail);
        lemma_escaped_read(w, Seq::empty(), tail);
    }
}

proof fn lemma_rest_read(ws: Seq<Seq<char>>, k: int)
    requires
        1 <= k <= ws.len(),
    ensures
        words_in(line_from(ws, k), Some(ws[k - 1]), false) == Some(ws.skip(k - 1)),
    decreases ws.len() - k,
{
    let s = line_from(ws, k);
    if k < ws.len() {
        let rest = quoted(ws[k]) + line_from(ws, k + 1);
        assert(s =~= seq![' '] + rest);
        assert(s.skip(1) =~= rest);
        lemma_word_read(ws[k], line_from(ws, k + 1));
        lemma_rest_read(ws, k + 1);
        assert(seq![ws[k - 1]] + ws.skip(k) =~= ws.skip(k - 1));
    } else {
        assert(seq![ws[k - 1]] =~= ws.skip(k - 1));
    }
}

/// A line that was written from words reads as those words.
pub proof fn lemma_words_read_back(ws: Seq<Seq<char>>)
    ensures
        words_in(line_from(ws, 0), None, false) == Some(ws),
{
    if ws.len() > 0 {
        assert(line_from(ws, 0) =~= quoted(ws[0]) + line_from(ws, 1));
        lemma_word_read(ws[0], line_from(ws, 1));
        lemma_rest_read(ws, 1);
        assert(ws.skip(0) =~= ws);
    } else {
        assert(ws =~= Seq::empty());
    }
}

fn push_quoted(out: &mut String, word: &str)
    ensures
        final(out)@ == old(out)@ + quoted(word@),
{
    let w = chars_of(word);
    let ghost head = out@;
    let mut bare: bool = w.len() > 0;
    let mut i: usize = 0;
    while i < w.len()
        invariant
            i <= w@.len(),
            bare == (w@.len() > 0 && forall|j: int| 0 <= j < i ==> !special(#[trigger] w@[j])),
        decreases w.len() - i,
    {
        if w[i] == ' ' || w[i] == '"' || w[i] == '\\' || w[i] == '#' {
            assert(special(w@[i as int]));
            bare = false;
        }
        i = i + 1;
    }
    assert(bare == stands_bare(w@));
    if bare {
        out.push_str(word);
        return;
    }
    out.push('"');
    let ghost start = out@;
    let mut k: usize = 0;
    assert(w@.skip(0) =~= w@);
    while k < w.len()
        invariant
            k <= w@.len(),
            out@ + escaped(w@.skip(k as int)) == start + escaped(w@),
        decreases w.len() - k,
    {
        let ghost before = out@;
        let ghost rest = w@.skip(k as int);
        let c: char = w[k];
        assert(rest[0] == c);
        assert(rest.skip(1) =~= w@.skip(k + 1));
        if c == '"' || c == '\\' {
            out.push('\\');
        }
        out.push(c);
        assert(out@ + escaped(rest.skip(1)) =~= before + escaped(rest));
        k = k + 1;
    }
    assert(escaped(w@.skip(k as int)) =~= Seq::empty());
    out.push('"');
    assert(out@ =~= head + quoted(word@));
}

/// The line of a row of words.
pub fn join_words(words: &Vec<String>) -> (line: String)
    ensures
        line@ == line_from(texts_of(words@), 0),
{
    let mut out = String::new();
    let ghost ws = texts_of(words@);
    let mut i: usize = 0;
    assert(out@ + line_from(ws, 0) =~= line_from(ws, 0));
    while i < words.len()
        invariant
            i <= words@.len(),
            ws == texts_of(words@),
            out@ + line_from(ws, i as int) == line_from(ws, 0),
        decreases words.len() - i,
    {
        let ghost before = out@;
        if i > 0 {
            out.push(' ');
        }
        push_quoted(&mut out, words[i].as_str());
        assert(out@ + line_from(ws, i + 1) =~= before + line_from(ws, i as int));
        i = i + 1;
    }
    assert(out@ + line_from(ws, i as int) =~= out@);
    out
}

/// The words of a line; none when a quote is not closed.
pub fn split_words(line: &str) -> (words: Option<Vec<String>>)
    ensures
        match words {
            Some(v) => words_in(line@, None, false) == Some(texts_of(v@)),
            None => words_in(line@, None, false) is None,
        },
{
    let s = chars_of(line);
    let ghost goal = words_in(s@, None, false);
    let mut out: Vec<String> = Vec::new();
    let mut word: Vec<char> = Vec::new();
    let mut begun: bool = false;
    let mut open: bool = false;
    let mut i: usize = 0;
    assert(s@.skip(0) =~= s@);
    assert(texts_of(out@) =~= Seq::empty());
    assert(goal is Some ==> Seq::<Seq<char>>::empty() + goal->0 =~= goal->0);
    while i < s.len()
        invariant
            i <= s@.len(),
            goal == words_in(line@, None, false),
            open ==> begun,
            !begun ==> word@.len() == 0,
            ahead_of(
                texts_of(out@),
                words_in(
                    s@.skip(i as int),
                    if begun {
                        Some(word@)
                    } else {
                        None
                    },
                    open,
                ),
            ) == goal,
        decreases s.len() - i,
    {
        let ghost rest = s@.skip(i as int);
        let c: char = s[i];
        assert(rest[0] == c);
        assert(rest.skip(1) =~= s@.skip(i + 1));
        assert(!begun ==> word@ =~= Seq::empty());
        if open && c == '\\' {
            if i + 1 >= s.len() {
                assert(rest.len() == 1);
                return None;
            }
            assert(rest[1] == s@[i + 1]);
            assert(rest.skip(2) =~= s@.skip(i + 2));
            word.push(s[i + 1]);
            i = i + 2;
            continue;
        }
        if c == '"' {
            open = !open;
            begun = true;
        } else if open || c != ' ' {
            word.push(c);
            begun = true;
        } else if begun {
            let ghost done = texts_of(out@);
            let ghost w = word@;
            let text = string_of(&word, 0, word.len());
            assert(text@ =~= w);
            out.push(text);
            assert(texts_of(out@) =~= done.push(w));
            proof {
                let next = words_in(rest.skip(1), None, false);
                if next is Some {
                    assert(done + (seq![w] + next->0) =~= done.push(w) + next->0);
                }
            }
            word = Vec::new();
            begun = false;
        }
        i = i + 1;
    }
    assert(s@.skip(i as int) =~= Seq::empty());
    if open {
        return None;
    }
    if begun {
        let ghost done = texts_of(out@);
        let text = string_of(&word, 0, word.len());
        assert(text@ =~= word@);
        out.push(text);
        assert(texts_of(out@) =~= done + seq![word@]);
    } else {
        assert(texts_of(out@) + Seq::<Seq<char>>::empty() =~= texts_of(out@));
    }
    Some(out)
}

} // verus!
