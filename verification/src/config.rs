//! Reading a config file: which of its lines count, and what they name.
use vstd::prelude::*;
use crate::text::{begins_with, chars_of, is_white, is_whitespace, part_of, rest_is, start_of, string_of, trim, trim_start, trimmed};

verus! {

/// Where the line of `s` that `i` is on ends.
pub open spec fn line_end(s: Seq<char>, i: int) -> int
    decreases s.len() - i,
{
    if i < 0 || i >= s.len() {
        s.len() as int
    } else if s[i] == '\n' {
        i
    } else {
        line_end(s, i + 1)
    }
}

/// A line without the carriage return of a CRLF ending.
pub open spec fn without_cr(s: Seq<char>) -> Seq<char> {
    if s.len() > 0 && s.last() == '\r' {
        s.drop_last()
    } else {
        s
    }
}

/// The lines of `s` from `i` on. The last one may lack its line end.
pub open spec fn lines_of(s: Seq<char>, i: int) -> Seq<Seq<char>>
    decreases s.len() - i,
{
    let e = line_end(s, i);
    if i < 0 || i >= s.len() || e < i {
        Seq::empty()
    } else if e < s.len() {
        seq![without_cr(s.subrange(i, e))] + lines_of(s, e + 1)
    } else {
        seq![s.subrange(i, e)]
    }
}

/// An open `%if`: whether its current branch is being read, whether any
/// branch of it has been taken yet, and where it began.
#[derive(Clone, Copy, Debug, PartialEq, Eq, Structural)]
pub struct Block {
    pub active: bool,
    pub taken: bool,
    pub opened_at: usize,
}

/// A config file read up to some line.
pub ghost struct Reading {
    /// The logical lines so far, each with the number of its first line.
    pub out: Seq<(int, Seq<char>)>,
    /// A line is being continued; the part of it that has been read, and
    /// where it began.
    pub joining: bool,
    pub joined: Seq<char>,
    pub start: int,
    pub blocks: Seq<Block>,
}

/// Where the first white space of `s` stands.
pub open spec fn first_white(s: Seq<char>, i: int) -> int
    decreases s.len() - i,
{
    if i < 0 || i >= s.len() {
        s.len() as int
    } else if is_white(s[i]) {
        i
    } else {
        first_white(s, i + 1)
    }
}

/// The first word of a directive.
pub open spec fn directive(s: Seq<char>) -> Seq<char> {
    s.take(first_white(s, 0))
}

/// The rest of a directive, spaces trimmed.
pub open spec fn condition(s: Seq<char>) -> Seq<char> {
    if first_white(s, 0) < s.len() {
        trim(s.skip(first_white(s, 0) + 1))
    } else {
        Seq::empty()
    }
}

/// Lines are being read: no block is open, or the innermost is on a branch
/// that is taken.
pub open spec fn reads(blocks: Seq<Block>) -> bool {
    blocks.len() == 0 || blocks.last().active
}

/// What is around the innermost block is being read.
pub open spec fn parent_reads(blocks: Seq<Block>) -> bool {
    blocks.len() < 2 || blocks[blocks.len() - 2].active
}

/// The open blocks after a directive on line `n`.
pub open spec fn after_directive(
    blocks: Seq<Block>,
    n: int,
    line: Seq<char>,
    truth: spec_fn(Seq<char>) -> bool,
) -> Seq<Block> {
    let word = directive(line);
    let top = blocks.last();
    if word == "%if"@ {
        let active = reads(blocks) && truth(condition(line));
        blocks.push(Block { active, taken: active, opened_at: n as usize })
    } else if word == "%elif"@ && blocks.len() > 0 {
        let active = parent_reads(blocks) && !top.taken && truth(condition(line));
        blocks.drop_last().push(Block { active, taken: top.taken || active, ..top })
    } else if word == "%else"@ && blocks.len() > 0 {
        blocks.drop_last().push(Block { active: parent_reads(blocks) && !top.taken, taken: true, ..top })
    } else if word == "%endif"@ && blocks.len() > 0 {
        blocks.drop_last()
    } else {
        blocks
    }
}

/// The reading after line number `n`.
pub open spec fn after_line(
    st: Reading,
    n: int,
    raw: Seq<char>,
    truth: spec_fn(Seq<char>) -> bool,
) -> Reading {
    let text = trim_start(raw);
    let start = if st.joining { st.start } else { n };
    if !st.joining && text.len() > 0 && text[0] == '%' {
        Reading { blocks: after_directive(st.blocks, n, text, truth), ..st }
    } else if !reads(st.blocks) {
        st
    } else if raw.len() > 0 && raw.last() == '\\' {
        Reading { joining: true, joined: st.joined + raw.drop_last(), start, ..st }
    } else {
        Reading { out: st.out.push((start, st.joined + raw)), joining: false, joined: Seq::empty(), start, ..st }
    }
}

/// The reading after the lines from `k` on.
pub open spec fn after_lines(
    st: Reading,
    lines: Seq<Seq<char>>,
    k: int,
    truth: spec_fn(Seq<char>) -> bool,
) -> Reading
    decreases lines.len() - k,
{
    if k < 0 || k >= lines.len() {
        st
    } else {
        after_lines(after_line(st, k + 1, lines[k], truth), lines, k + 1, truth)
    }
}

/// A file's text without the byte-order mark Notepad writes.
pub open spec fn without_mark(s: Seq<char>) -> Seq<char> {
    if s.len() > 0 && s[0] == '\u{feff}' {
        s.skip(1)
    } else {
        s
    }
}

/// The whole file read.
pub open spec fn file_read(text: Seq<char>, truth: spec_fn(Seq<char>) -> bool) -> Reading {
    let st = Reading { out: Seq::empty(), joining: false, joined: Seq::empty(), start: 0, blocks: Seq::empty() };
    let end = after_lines(st, lines_of(without_mark(text), 0), 0, truth);
    if end.joined.len() > 0 {
        Reading { out: end.out.push((end.start, end.joined)), ..end }
    } else {
        end
    }
}

/// `eval` answers as `truth` does.
pub open spec fn decides<F: Fn(&str) -> bool>(eval: F, truth: spec_fn(Seq<char>) -> bool) -> bool {
    forall|c: &str, b: bool| #[trigger] call_ensures(eval, (c,), b) ==> b == truth(c@)
}

/// The logical lines as values.
pub open spec fn numbered(v: Seq<(usize, String)>) -> Seq<(int, Seq<char>)> {
    Seq::new(v.len(), |i: int| (v[i].0 as int, v[i].1@))
}

proof fn lemma_line_end(s: Seq<char>, i: int)
    requires
        0 <= i <= s.len(),
    ensures
        i <= line_end(s, i) <= s.len(),
    decreases s.len() - i,
{
    if i < s.len() && s[i] != '\n' {
        lemma_line_end(s, i + 1);
    }
}

fn find_line_end(s: &Vec<char>, i: usize) -> (e: usize)
    requires
        i <= s@.len(),
    ensures
        e == line_end(s@, i as int),
        i <= e <= s@.len(),
{
    let mut e: usize = i;
    while e < s.len() && s[e] != '\n'
        invariant
            i <= e <= s@.len(),
            line_end(s@, i as int) == line_end(s@, e as int),
        decreases s.len() - e,
    {
        e = e + 1;
    }
    e
}

fn find_white(s: &Vec<char>) -> (k: usize)
    ensures
        k == first_white(s@, 0),
        k <= s@.len(),
{
    let mut k: usize = 0;
    while k < s.len() && !is_whitespace(s[k])
        invariant
            k <= s@.len(),
            first_white(s@, 0) == first_white(s@, k as int),
        decreases s.len() - k,
    {
        k = k + 1;
    }
    k
}

/// A directive on line `n`: `%if` / `%elif` / `%else` / `%endif`, as tmux
/// reads them; `%hidden` is not ours.
fn read_directive<F: Fn(&str) -> bool>(blocks: &mut Vec<Block>, n: usize, line: &Vec<char>, eval: &F)
    requires
        forall|c: &str| #[trigger] call_requires(*eval, (c,)),
    ensures
        forall|truth: spec_fn(Seq<char>) -> bool| #[trigger]
            decides(*eval, truth) ==> final(blocks)@ == after_directive(old(blocks)@, n as int, line@, truth),
{
    let k: usize = find_white(line);
    let word = part_of(line, 0, k);
    assert(word@ =~= directive(line@));
    let cond_chars = if k < line.len() {
        let rest = part_of(line, k + 1, line.len());
        assert(rest@ =~= line@.skip(k + 1));
        trimmed(&rest)
    } else {
        Vec::new()
    };
    assert(cond_chars@ == condition(line@));
    let cond = string_of(&cond_chars, 0, cond_chars.len());
    assert(cond@ =~= condition(line@));
    let ghost before = blocks@;
    let depth: usize = blocks.len();
    assert(word@.skip(0) =~= word@);
    if rest_is(&word, 0, "%if") {
        let reading: bool = depth == 0 || blocks[depth - 1].active;
        let active: bool = reading && eval(cond.as_str());
        blocks.push(Block { active, taken: active, opened_at: n });
    } else if rest_is(&word, 0, "%elif") {
        if depth > 0 {
            let parent: bool = depth < 2 || blocks[depth - 2].active;
            let top: Block = blocks[depth - 1];
            let active: bool = parent && !top.taken && eval(cond.as_str());
            blocks[depth - 1] = Block { active, taken: top.taken || active, opened_at: top.opened_at };
            proof {
                let new = Block { active, taken: top.taken || active, opened_at: top.opened_at };
                assert(blocks@ =~= before.drop_last().push(new));
            }
        }
    } else if rest_is(&word, 0, "%else") {
        if depth > 0 {
            let parent: bool = depth < 2 || blocks[depth - 2].active;
            let top: Block = blocks[depth - 1];
            blocks[depth - 1] = Block { active: parent && !top.taken, taken: true, opened_at: top.opened_at };
            proof {
                let new = Block { active: parent && !top.taken, taken: true, opened_at: top.opened_at };
                assert(blocks@ =~= before.drop_last().push(new));
            }
        }
    } else if rest_is(&word, 0, "%endif") {
        if depth > 0 {
            blocks.pop();
            assert(blocks@ =~= before.drop_last());
        }
    }
    proof {
        reveal_strlit("%if");
        reveal_strlit("%elif");
        reveal_strlit("%else");
        reveal_strlit("%endif");
        assert("%if"@.len() == 3 && "%elif"@.len() == 5 && "%else"@.len() == 5 && "%endif"@.len() == 6);
        assert("%elif"@[3] != "%else"@[3]);
    }
}

/// The lines of a config file the way tmux reads them: a `\` at the end of
/// a line continues it on the next, and `%if` / `%elif` / `%else` /
/// `%endif` pick branches by their condition, which `eval` decides (a
/// format, as in tmux). Each logical line carries the
/// number of its first physical line, for error messages. The second value
/// is the line of a `%if` that was never closed, which swallows everything
/// after it and must be said rather than silently dropped.
pub fn logical_lines<F: Fn(&str) -> bool>(text: &str, eval: &F) -> (r: (Vec<(usize, String)>, Option<usize>))
    requires
        forall|c: &str| #[trigger] call_requires(*eval, (c,)),
    ensures
        forall|truth: spec_fn(Seq<char>) -> bool| #[trigger]
            decides(*eval, truth) ==> {
                let end = file_read(text@, truth);
                &&& numbered(r.0@) == end.out
                &&& r.1 == if end.blocks.len() > 0 {
                    Some(end.blocks[0].opened_at)
                } else {
                    None
                }
            },
{
    let all = chars_of(text);
    // Notepad writes a byte-order mark; without this the first command
    // would be "\u{feff}set", which is nothing.
    let marked: bool = all.len() > 0 && all[0] == '\u{feff}';
    let s = if marked { part_of(&all, 1, all.len()) } else { all };
    assert(s@ =~= without_mark(text@));
    let ghost lines = lines_of(s@, 0);
    let mut out: Vec<(usize, String)> = Vec::new();
    let mut joined = String::new();
    let mut joining: bool = false;
    let mut start: usize = 0;
    let mut blocks: Vec<Block> = Vec::new();
    let mut i: usize = 0;
    let mut n: usize = 0;
    assert(lines.skip(0) =~= lines);
    assert(numbered(out@) =~= Seq::empty());
    while i < s.len()
        invariant
            forall|c: &str| #[trigger] call_requires(*eval, (c,)),
            n <= i <= s@.len() + 1,
            s@.len() <= usize::MAX,
            i < s@.len() ==> n <= i,
            lines == lines_of(s@, 0),
            n <= lines.len(),
            lines.skip(n as int) == lines_of(s@, i as int),
            !joining ==> joined@.len() == 0,
            forall|truth: spec_fn(Seq<char>) -> bool| #[trigger]
                decides(*eval, truth) ==> after_lines(
                    Reading { out: Seq::empty(), joining: false, joined: Seq::empty(), start: 0, blocks: Seq::empty() },
                    lines,
                    0,
                    truth,
                ) == after_lines(
                    Reading { out: numbered(out@), joining, joined: joined@, start: start as int, blocks: blocks@ },
                    lines,
                    n as int,
                    truth,
                ),
        decreases s@.len() + 1 - i,
    {
        let ghost st0 = Reading { out: numbered(out@), joining, joined: joined@, start: start as int, blocks: blocks@ };
        let e: usize = find_line_end(&s, i);
        let to: usize = if e < s.len() && e > i && s[e - 1] == '\r' { e - 1 } else { e };
        let raw = part_of(&s, i, to);
        let ghost rest = lines.skip(n as int);
        proof {
            let whole = s@.subrange(i as int, e as int);
            if e > i {
                assert(whole.last() == s@[e - 1]);
                assert(whole.drop_last() =~= s@.subrange(i as int, e - 1));
            }
            assert(rest == lines_of(s@, i as int));
            assert(rest[0] == raw@);
            assert(rest.len() > 0);
            assert(n < lines.len());
            assert(lines[n as int] == rest[0]);
        }
        let number: usize = n + 1;
        let from: usize = start_of(&raw);
        let reading: bool = blocks.len() == 0 || blocks[blocks.len() - 1].active;
        let ghost trimmed_line = trim_start(raw@);
        assert(from < raw@.len() ==> trimmed_line[0] == raw@[from as int]);
        if !joining && from < raw.len() && raw[from] == '%' {
            let line = part_of(&raw, from, raw.len());
            assert(line@ =~= trimmed_line);
            read_directive(&mut blocks, number, &line, eval);
        } else if reading {
            if !joining {
                start = number;
            }
            if raw.len() > 0 && raw[raw.len() - 1] == '\\' {
                let head = string_of(&raw, 0, raw.len() - 1);
                assert(head@ =~= raw@.drop_last());
                joined.push_str(head.as_str());
                joining = true;
            } else {
                let tail = string_of(&raw, 0, raw.len());
                assert(tail@ =~= raw@);
                joined.push_str(tail.as_str());
                let ghost whole = joined@;
                let ghost before = out@;
                out.push((start, joined));
                assert(numbered(out@) =~= numbered(before).push((start as int, whole)));
                joined = String::new();
                joining = false;
            }
        }
        proof {
            let st1 = Reading { out: numbered(out@), joining, joined: joined@, start: start as int, blocks: blocks@ };
            assert forall|truth: spec_fn(Seq<char>) -> bool| #[trigger] decides(*eval, truth) implies after_line(
                st0,
                number as int,
                raw@,
                truth,
            ) == st1 by {
                assert(after_line(st0, number as int, raw@, truth).out =~= st1.out);
                assert(after_line(st0, number as int, raw@, truth).joined =~= st1.joined);
            }
            assert(lines.skip(n + 1) =~= rest.skip(1));
            assert(rest.skip(1) =~= lines_of(s@, e + 1));
        }
        n = number;
        if e < s.len() {
            i = e + 1;
        } else {
            assert(lines_of(s@, e + 1) =~= lines_of(s@, e as int));
            i = e;
        }
    }
    assert(lines_of(s@, i as int) =~= Seq::empty());
    assert(n == lines.len()) by {
        assert(lines.skip(n as int).len() == 0);
    }
    if !joined.as_str().is_empty() {
        let ghost before = out@;
        let ghost whole = joined@;
        out.push((start, joined));
        assert(numbered(out@) =~= numbered(before).push((start as int, whole)));
    }
    let open: Option<usize> = if blocks.len() > 0 { Some(blocks[0].opened_at) } else { None };
    (out, open)
}

/// A line that is neither a directive nor continued.
pub open spec fn is_plain(line: Seq<char>) -> bool {
    &&& !(trim_start(line).len() > 0 && trim_start(line)[0] == '%')
    &&& !(line.len() > 0 && line.last() == '\\')
}

proof fn lemma_plain_lines(st: Reading, lines: Seq<Seq<char>>, k: int, truth: spec_fn(Seq<char>) -> bool)
    requires
        0 <= k <= lines.len(),
        forall|i: int| 0 <= i < lines.len() ==> is_plain(#[trigger] lines[i]),
        !st.joining,
        st.joined.len() == 0,
        st.blocks.len() == 0,
        st.out == Seq::new(k as nat, |i: int| (i + 1, lines[i])),
    ensures
        ({
            let end = after_lines(st, lines, k, truth);
            &&& end.out == Seq::new(lines.len(), |i: int| (i + 1, lines[i]))
            &&& end.joined.len() == 0
            &&& end.blocks.len() == 0
        }),
    decreases lines.len() - k,
{
    if k < lines.len() {
        let next = after_line(st, k + 1, lines[k], truth);
        assert(st.joined + lines[k] =~= lines[k]);
        assert(next.out =~= Seq::new((k + 1) as nat, |i: int| (i + 1, lines[i])));
        lemma_plain_lines(next, lines, k + 1, truth);
    }
}

/// A file without directives or continuations reads as its lines, each with
/// its own number, whatever the conditions would be.
pub proof fn lemma_plain_file(text: Seq<char>, truth: spec_fn(Seq<char>) -> bool)
    requires
        forall|i: int|
            0 <= i < lines_of(without_mark(text), 0).len() ==> is_plain(
                #[trigger] lines_of(without_mark(text), 0)[i],
            ),
    ensures
        ({
            let lines = lines_of(without_mark(text), 0);
            &&& file_read(text, truth).out == Seq::new(lines.len(), |i: int| (i + 1, lines[i]))
            &&& file_read(text, truth).blocks.len() == 0
        }),
{
    let st = Reading { out: Seq::empty(), joining: false, joined: Seq::empty(), start: 0, blocks: Seq::empty() };
    let lines = lines_of(without_mark(text), 0);
    assert(st.out =~= Seq::new(0, |i: int| (i + 1, lines[i])));
    lemma_plain_lines(st, lines, 0, truth);
}

/// A directive, which is no part of a continued line, never becomes a line of
/// its own, and neither does a line in a branch that is not taken.
pub proof fn lemma_unread_lines(st: Reading, n: int, raw: Seq<char>, truth: spec_fn(Seq<char>) -> bool)
    requires
        !reads(st.blocks) || (!st.joining && trim_start(raw).len() > 0 && trim_start(raw)[0] == '%'),
    ensures
        after_line(st, n, raw, truth).out == st.out,
{
}

/// A line that is continued goes on with the next one, whatever that begins
/// with, and has the number it began with.
pub proof fn lemma_continued(st: Reading, n: int, raw: Seq<char>, next: Seq<char>, truth: spec_fn(Seq<char>) -> bool)
    requires
        !st.joining,
        st.joined.len() == 0,
        reads(st.blocks),
        !(trim_start(raw).len() > 0 && trim_start(raw)[0] == '%'),
        raw.len() > 0 && raw.last() == '\\',
        !(next.len() > 0 && next.last() == '\\'),
    ensures
        after_line(after_line(st, n, raw, truth), n + 1, next, truth).out == st.out.push((n, raw.drop_last() + next)),
{
    assert(st.joined + raw.drop_last() =~= raw.drop_last());
}

/// `s` without every `head` in front of it.
pub open spec fn without_heads(s: Seq<char>, head: Seq<char>) -> Seq<char>
    decreases s.len(),
{
    if head.len() > 0 && head.is_prefix_of(s) {
        without_heads(s.skip(head.len() as int), head)
    } else {
        s
    }
}

/// One of tmux's names for a mouse event, without its modifiers.
pub open spec fn is_mouse_name(s: Seq<char>) -> bool {
    "Mouse"@.is_prefix_of(s) || "Wheel"@.is_prefix_of(s) || "DoubleClick"@.is_prefix_of(s)
        || "TripleClick"@.is_prefix_of(s) || "SecondClick"@.is_prefix_of(s)
}

fn drop_heads(s: Vec<char>, head: &Vec<char>) -> (out: Vec<char>)
    requires
        head@.len() > 0,
    ensures
        out@ == without_heads(s@, head@),
{
    let mut rest = s;
    while begins_with(&rest, head)
        invariant
            head@.len() > 0,
            without_heads(s@, head@) == without_heads(rest@, head@),
        decreases rest@.len(),
    {
        let next = part_of(&rest, head.len(), rest.len());
        assert(next@ =~= rest@.skip(head@.len() as int));
        rest = next;
    }
    rest
}

/// tmux's names for mouse events as keys (`MouseDown1Pane`,
/// `MouseDragEnd1Pane`, `WheelUpPane`, `DoubleClick1Pane`, ...).
pub fn is_mouse_key(name: &str) -> (b: bool)
    ensures
        b == is_mouse_name(without_heads(without_heads(without_heads(name@, "C-"@), "M-"@), "S-"@)),
{
    proof {
        reveal_strlit("C-");
        reveal_strlit("M-");
        reveal_strlit("S-");
    }
    let a = drop_heads(chars_of(name), &chars_of("C-"));
    let b = drop_heads(a, &chars_of("M-"));
    let n = drop_heads(b, &chars_of("S-"));
    begins_with(&n, &chars_of("Mouse")) || begins_with(&n, &chars_of("Wheel")) || begins_with(
        &n,
        &chars_of("DoubleClick"),
    ) || begins_with(&n, &chars_of("TripleClick")) || begins_with(&n, &chars_of("SecondClick"))
}

/// A path with the home directory in place of a leading `~`.
pub open spec fn home_path(path: Seq<char>, home: Option<Seq<char>>) -> Seq<char> {
    if (path == "~"@ || "~/"@.is_prefix_of(path) || "~\\"@.is_prefix_of(path)) && home is Some {
        home->0 + path.skip(1)
    } else {
        path
    }
}

/// Expand a leading `~` or `~/` to the user's home directory, when there is
/// one.
pub fn expand_home(path: &str, home: Option<&str>) -> (out: String)
    ensures
        out@ == home_path(
            path@,
            match home {
                Some(h) => Some(h@),
                None => None,
            },
        ),
{
    let p = chars_of(path);
    assert(p@.skip(0) =~= p@);
    if rest_is(&p, 0, "~") || begins_with(&p, &chars_of("~/")) || begins_with(&p, &chars_of("~\\")) {
        if let Some(h) = home {
            proof {
                reveal_strlit("~");
                reveal_strlit("~/");
                reveal_strlit("~\\");
            }
            let mut out = h.to_owned();
            let tail = string_of(&p, 1, p.len());
            out.push_str(tail.as_str());
            assert(out@ =~= h@ + path@.skip(1));
            return out;
        }
    }
    path.to_owned()
}

/// The lines of a text.
pub fn split_lines(text: &str) -> (out: Vec<String>)
    ensures
        out@.len() == lines_of(text@, 0).len(),
        forall|i: int| 0 <= i < out@.len() ==> (#[trigger] out@[i])@ == lines_of(text@, 0)[i],
{
    let s = chars_of(text);
    let ghost lines = lines_of(s@, 0);
    let mut out: Vec<String> = Vec::new();
    let mut i: usize = 0;
    assert(lines.skip(0) =~= lines);
    while i < s.len()
        invariant
            i <= s@.len(),
            lines == lines_of(s@, 0),
            out@.len() <= lines.len(),
            forall|k: int| 0 <= k < out@.len() ==> (#[trigger] out@[k])@ == lines[k],
            lines.skip(out@.len() as int) == lines_of(s@, i as int),
        decreases s@.len() - i,
    {
        let ghost n = out@.len() as int;
        let ghost rest = lines.skip(n);
        let e: usize = find_line_end(&s, i);
        let to: usize = if e < s.len() && e > i && s[e - 1] == '\r' { e - 1 } else { e };
        let line = string_of(&s, i, to);
        proof {
            let whole = s@.subrange(i as int, e as int);
            if e > i {
                assert(whole.last() == s@[e - 1]);
                assert(whole.drop_last() =~= s@.subrange(i as int, e - 1));
            }
            assert(rest[0] == line@);
            assert(rest.len() > 0);
            assert(lines[n] == rest[0]);
            assert(lines.skip(n + 1) =~= rest.skip(1));
            assert(rest.skip(1) =~= lines_of(s@, e + 1));
        }
        out.push(line);
        if e < s.len() {
            i = e + 1;
        } else {
            assert(lines_of(s@, e + 1) =~= lines_of(s@, e as int));
            i = e;
        }
    }
    assert(lines_of(s@, i as int) =~= Seq::empty());
    assert(lines.skip(out@.len() as int).len() == 0);
    out
}

} // verus!
