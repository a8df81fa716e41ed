//! What shell commands and pipes print, and which of them still have to run.
use vstd::prelude::*;

use crate::layout::PaneId;
use crate::pane::Pane;
use crate::text::{chars_of, decimal, end_of, push_decimal, same_text, string_of, texts_of, trim_end};

verus! {

/// The characters of `s` before its first line end.
pub open spec fn first_row(s: Seq<char>) -> Seq<char>
    decreases s.len(),
{
    if s.len() == 0 || s[0] == '\n' {
        Seq::empty()
    } else {
        seq![s[0]] + first_row(s.skip(1))
    }
}

proof fn lemma_first_row(s: Seq<char>, k: int)
    requires
        0 <= k <= s.len(),
        forall|i: int| 0 <= i < k ==> s[i] != '\n',
        k < s.len() ==> s[k] == '\n',
    ensures
        first_row(s) == s.take(k),
    decreases k,
{
    if k == 0 {
        assert(s.take(0) =~= Seq::empty());
    } else {
        lemma_first_row(s.skip(1), k - 1);
        assert(seq![s[0]] + s.skip(1).take(k - 1) =~= s.take(k));
    }
}

/// The first line of what a command printed, without the blanks behind it.
pub fn first_line(output: &str) -> (line: String)
    ensures
        line@ == trim_end(first_row(output@)),
{
    let all = chars_of(output);
    let mut k: usize = 0;
    while k < all.len() && all[k] != '\n'
        invariant
            k <= all@.len(),
            forall|i: int| 0 <= i < k ==> all@[i] != '\n',
        decreases all.len() - k,
    {
        k = k + 1;
    }
    proof {
        lemma_first_row(all@, k as int);
    }
    let row = chars_of(string_of(&all, 0, k).as_str());
    assert(row@ =~= first_row(output@));
    let e: usize = end_of(&row, 0);
    assert(row@.skip(0) =~= row@);
    string_of(&row, 0, e)
}

/// The texts of the first `k` of `wanted` that are not among `known`.
pub open spec fn unknown(wanted: Seq<Seq<char>>, known: Seq<Seq<char>>, k: int) -> Seq<Seq<char>>
    decreases k,
{
    if k <= 0 {
        Seq::empty()
    } else if known.contains(wanted[k - 1]) {
        unknown(wanted, known, k - 1)
    } else {
        unknown(wanted, known, k - 1).push(wanted[k - 1])
    }
}

/// The shell commands of a format whose output is not known yet.
pub fn missing_shells(wanted: Vec<String>, known: &Vec<String>) -> (out: Vec<String>)
    ensures
        texts_of(out@) == unknown(texts_of(wanted@), texts_of(known@), wanted@.len() as int),
{
    let mut out: Vec<String> = Vec::new();
    let mut i: usize = 0;
    assert(texts_of(out@) =~= Seq::empty());
    while i < wanted.len()
        invariant
            i <= wanted@.len(),
            texts_of(out@) == unknown(texts_of(wanted@), texts_of(known@), i as int),
        decreases wanted.len() - i,
    {
        let mut k: usize = 0;
        while k < known.len() && !same_text(known[k].as_str(), wanted[i].as_str())
            invariant
                i < wanted@.len(),
                k <= known@.len(),
                forall|j: int| 0 <= j < k ==> (#[trigger] known@[j])@ != wanted@[i as int]@,
            decreases known.len() - k,
        {
            k = k + 1;
        }
        let ghost before = texts_of(out@);
        if k >= known.len() {
            out.push(wanted[i].clone());
            assert(texts_of(out@) =~= before.push(wanted@[i as int]@));
            assert forall|j: int| 0 <= j < texts_of(known@).len() implies texts_of(known@)[j] != wanted@[i as int]@ by {
                assert(known@[j]@ != wanted@[i as int]@);
            }
        } else {
            assert(texts_of(known@)[k as int] == wanted@[i as int]@);
        }
        i = i + 1;
    }
    out
}

impl Pane {
    /// The command of `pipe-pane -I` ended: a pipe that only types into the
    /// pane is closed; one the output goes to as well stays.
    pub fn pipe_ended(&mut self)
        ensures
            *final(self) == (Pane {
                pipe: match old(self).pipe {
                    Some(p) => if p.output {
                        Some(p)
                    } else {
                        None
                    },
                    None => None,
                },
                ..*old(self)
            }),
    {
        let closes: bool = match &self.pipe {
            Some(p) => !p.output,
            None => false,
        };
        if closes {
            self.pipe = None;
        }
    }
}

/// What is told, once, of a pipe whose command does not keep up.
pub fn slow_pipe(id: PaneId, command: &str) -> (out: String)
    ensures
        out@ == "pipe-pane %"@ + decimal(id as nat) + ": "@ + command@ + " is not keeping up; output dropped"@,
{
    let mut out = "pipe-pane %".to_owned();
    push_decimal(&mut out, id as u64);
    out.push_str(": ");
    out.push_str(command);
    out.push_str(" is not keeping up; output dropped");
    out
}

/// What a client that speaks another version is told.
pub fn version_fault(client: u32, server: u32) -> (out: String)
    ensures
        out@ == "protocol mismatch: client "@ + decimal(client as nat) + ", server "@ + decimal(server as nat),
{
    let mut out = "protocol mismatch: client ".to_owned();
    push_decimal(&mut out, client as u64);
    out.push_str(", server ");
    push_decimal(&mut out, server as u64);
    out
}

} // verus!
