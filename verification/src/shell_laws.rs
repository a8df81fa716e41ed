//! What shells announce, and what agents may do.
use vstd::prelude::*;

use crate::agents::{ascii_lower, creation_fault, has_word, lately, made_for, mode_change, name_change, word_end};
use crate::announce::{
    from_mount, local_time, lossy_text, said_by, signed_of, unescaped, with_backslashes, without_root, Said, Told,
};
use crate::actor::{name_fault, named_mode, WorkMode};
use crate::callers::{agent, caller, every_pane, mail_place, named_from};
use crate::chooser::ClientId;
use crate::client::Client;
use crate::command::Target;
use crate::input_laws::lemma_ascii_bytes;
use crate::layout::PaneId;
use crate::marks::MarkEvent;
use crate::messages::Dropped;
use crate::observe::opt_text;
use crate::pane::Pane;
use crate::screen::Screen;
use crate::server::Options;
use crate::session::SessionState;
use crate::text::{decimal, is_white, trim};
use crate::time::Time;

verus! {

/// `s[j..e]` is a word of `s`: no blank in it, and none of it missing.
pub open spec fn is_word(s: Seq<char>, j: int, e: int) -> bool {
    &&& 0 <= j < e <= s.len()
    &&& j == 0 || is_white(s[j - 1])
    &&& e == s.len() || is_white(s[e])
    &&& forall|i: int| j <= i < e ==> !is_white(#[trigger] s[i])
}

/// A word as it is looked for: in lower case.
pub open spec fn reads_as(s: Seq<char>, j: int, e: int, w: Seq<char>) -> bool {
    &&& e - j == w.len()
    &&& forall|i: int| 0 <= i < w.len() ==> ascii_lower(s[j + i]) == #[trigger] w[i]
}

proof fn lemma_word_end(s: Seq<char>, i: int)
    requires
        0 <= i <= s.len(),
    ensures
        i <= word_end(s, i) <= s.len(),
        word_end(s, i) == s.len() || is_white(s[word_end(s, i)]),
        forall|j: int| i <= j < word_end(s, i) ==> !is_white(#[trigger] s[j]),
    decreases s.len() - i,
{
    if i < s.len() && !is_white(s[i]) {
        lemma_word_end(s, i + 1);
    }
}

proof fn lemma_word_found(s: Seq<char>, w: Seq<char>, i: int, j: int, e: int)
    requires
        0 <= i <= j,
        is_word(s, j, e),
        reads_as(s, j, e, w),
    ensures
        has_word(s, w, i),
    decreases s.len() - i,
{
    if is_white(s[i]) {
        lemma_word_found(s, w, i + 1, j, e);
    } else {
        lemma_word_end(s, i);
        lemma_word_end(s, i + 1);
        let to = word_end(s, i);
        if i == j {
            if to < e {
                assert(!is_white(s[to]));
            }
            if e < to {
                assert(!is_white(s[e]));
            }
            assert(s.subrange(i, to).map_values(|c: char| ascii_lower(c)) =~= w) by {
                assert forall|k: int| 0 <= k < w.len() implies s.subrange(i, to).map_values(|c: char| ascii_lower(c))[k]
                    == w[k] by {
                    assert(ascii_lower(s[j + k]) == w[k]);
                }
            }
        } else {
            if j < to {
                assert(!is_white(s[j - 1]));
            }
            lemma_word_found(s, w, to, j, e);
        }
    }
}

proof fn lemma_word_there(s: Seq<char>, w: Seq<char>, i: int)
    requires
        0 <= i,
        i == 0 || i >= s.len() || is_white(s[i]) || is_white(s[i - 1]),
        has_word(s, w, i),
    ensures
        exists|j: int, e: int| #[trigger] is_word(s, j, e) && reads_as(s, j, e, w),
    decreases s.len() - i,
{
    if is_white(s[i]) {
        lemma_word_there(s, w, i + 1);
    } else {
        lemma_word_end(s, i);
        lemma_word_end(s, i + 1);
        let to = word_end(s, i);
        let part = s.subrange(i, to).map_values(|c: char| ascii_lower(c));
        if part == w {
            assert(is_word(s, i, to));
            assert forall|k: int| 0 <= k < w.len() implies ascii_lower(s[i + k]) == #[trigger] w[k] by {
                assert(part[k] == ascii_lower(s.subrange(i, to)[k]));
            }
            assert(reads_as(s, i, to, w));
        } else {
            lemma_word_there(s, w, to);
        }
    }
}

/// A list of commands holds those that stand in it as whole words, in any
/// case.
pub proof fn lemma_command_words(s: Seq<char>, w: Seq<char>)
    ensures
        has_word(s, w, 0) <==> exists|j: int, e: int| #[trigger] is_word(s, j, e) && reads_as(s, j, e, w),
        forall|c: char| 'A' <= c <= 'Z' ==> #[trigger] ascii_lower(c) as int == c as int + 32,
        forall|c: char| !('A' <= c <= 'Z') ==> #[trigger] ascii_lower(c) == c,
{
    if has_word(s, w, 0) {
        lemma_word_there(s, w, 0);
    }
    if exists|j: int, e: int| #[trigger] is_word(s, j, e) && reads_as(s, j, e, w) {
        let (j, e) = choose|j: int, e: int| #[trigger] is_word(s, j, e) && reads_as(s, j, e, w);
        lemma_word_found(s, w, 0, j, e);
    }
}

/// An agent makes panes only with commands of the list, and only up to its
/// limit; a name must not be another pane's. Who is no agent is held to the
/// name alone.
pub proof fn lemma_creation(
    ss: Seq<SessionState>,
    cs: Seq<Client>,
    cid: Option<ClientId>,
    stem: Seq<char>,
    name: Option<Seq<char>>,
    commands: Seq<char>,
    limit: u32,
)
    ensures
        ({
            let fault = creation_fault(ss, cs, cid, stem, name, commands, limit);
            let taken = name is Some && named_from(every_pane(ss), name->0, 0) is Some;
            let me = agent(ss, cs, cid);
            &&& me is None && name is None ==> fault is None
            &&& me is None && name is Some && name_fault(name->0) is None && !taken ==> fault is None
            &&& taken ==> fault is Some
            &&& me is Some && !has_word(commands, stem, 0) ==> fault is Some
            &&& me is Some && limit == 0 ==> fault is Some
        }),
{
}

/// The pane that has a name is the first of that name; none has it if none is
/// found.
pub proof fn lemma_pane_of_name(ps: Seq<Pane>, name: Seq<char>, i: int)
    requires
        0 <= i,
    ensures
        match named_from(ps, name, i) {
            Some(id) => exists|k: int|
                i <= k < ps.len() && (#[trigger] ps[k]).id == id && opt_text(ps[k].actor.name) == Some(name),
            None => forall|k: int| i <= k < ps.len() ==> opt_text((#[trigger] ps[k]).actor.name) != Some(name),
        },
    decreases ps.len() - i,
{
    if i < ps.len() && opt_text(ps[i].actor.name) != Some(name) {
        lemma_pane_of_name(ps, name, i + 1);
    } else if i < ps.len() {
        let k = i;
        assert(ps[k].id == ps[i].id);
    }
}

/// A pane is given a name that no other pane has, and may be given back its
/// own; the empty name takes it away. Its mode is changed only from within.
pub proof fn lemma_pane_changes(
    ss: Seq<SessionState>,
    cs: Seq<Client>,
    opts: Options,
    t: Option<Target>,
    cid: Option<ClientId>,
    name: Seq<char>,
    id: PaneId,
)
    requires
        mail_place(ss, cs, opts, t, cid) == Ok::<PaneId, Seq<char>>(id),
    ensures
        name.len() == 0 ==> name_change(ss, cs, opts, t, cid, name) == Ok::<PaneId, Seq<char>>(id),
        name.len() > 0 && name_fault(name) is None && named_from(every_pane(ss), name, 0) is None ==> name_change(
            ss,
            cs,
            opts,
            t,
            cid,
            name,
        ) == Ok::<PaneId, Seq<char>>(id),
        name.len() > 0 && name_fault(name) is None && named_from(every_pane(ss), name, 0) == Some(id) ==> name_change(
            ss,
            cs,
            opts,
            t,
            cid,
            name,
        ) == Ok::<PaneId, Seq<char>>(id),
        name.len() > 0 && named_from(every_pane(ss), name, 0) is Some && named_from(every_pane(ss), name, 0) != Some(id)
            ==> name_change(ss, cs, opts, t, cid, name) is Err,
        named_mode(name) is None ==> mode_change(ss, cs, opts, t, cid, name) is Err,
        named_mode(name) is Some && caller(ss, cs, cid) is Some && caller(ss, cs, cid) != Some(id) ==> mode_change(
            ss,
            cs,
            opts,
            t,
            cid,
            name,
        ) is Err,
        named_mode(name) is Some && (caller(ss, cs, cid) is None || caller(ss, cs, cid) == Some(id)) ==> mode_change(
            ss,
            cs,
            opts,
            t,
            cid,
            name,
        ) == Ok::<(PaneId, WorkMode), Seq<char>>((id, named_mode(name)->0)),
{
}

/// A pane is made for what was asked; else for an agent if its command is one
/// of theirs, and for a shell if it is PowerShell.
pub proof fn lemma_made_for(mode: Seq<char>, stem: Seq<char>, agents: Seq<char>)
    ensures
        named_mode(mode) is Some ==> made_for(Some(mode), stem, agents) == named_mode(mode)->0,
        has_word(agents, stem, 0) ==> made_for(None, stem, agents) is Ai,
        !has_word(agents, stem, 0) && (stem == "pwsh"@ || stem == "powershell"@) ==> made_for(None, stem, agents) is Shell,
        !has_word(agents, stem, 0) && stem != "pwsh"@ && stem != "powershell"@ ==> made_for(None, stem, agents) is Normal,
{
}

/// Of what was dropped only that of the last so many seconds is kept, in its
/// order.
pub proof fn lemma_lately(ds: Seq<Dropped>, now: u64, keep: u64, k: int)
    requires
        0 <= k <= ds.len(),
    ensures
        forall|i: int|
            0 <= i < lately(ds, now, keep, k).len() ==> {
                let d = #[trigger] lately(ds, now, keep, k)[i];
                d.pane != 0 && now - d.at < 1000 * keep
            },
        forall|i: int|
            0 <= i < k && (#[trigger] ds[i]).pane != 0 && now - ds[i].at < 1000 * keep && now >= ds[i].at ==> lately(
                ds,
                now,
                keep,
                k,
            ).contains(ds[i]),
    decreases k,
{
    if k > 0 {
        lemma_lately(ds, now, keep, k - 1);
        let before = lately(ds, now, keep, k - 1);
        let all = lately(ds, now, keep, k);
        assert forall|i: int|
            0 <= i < k && (#[trigger] ds[i]).pane != 0 && now - ds[i].at < 1000 * keep && now >= ds[i].at implies all.contains(
            ds[i],
        ) by {
            if i == k - 1 {
                assert(all.last() == ds[i]);
                assert(all[all.len() - 1] == ds[i]);
            } else {
                assert(before.contains(ds[i]));
                let j = choose|j: int| 0 <= j < before.len() && before[j] == ds[i];
                assert(all[j] == ds[i]);
            }
        }
    }
}

/// A shell says by `133` (or `633`) that a prompt begins with `A` and ends
/// with `B`, that a command starts with `C`, and with `D` that it ended; a
/// program that is no shell says nothing so.
pub proof fn lemma_prompt_marks(params: Seq<Seq<u8>>)
    requires
        params.len() == 2,
        params[0] == seq![0x31u8, 0x33, 0x33] || params[0] == seq![0x36u8, 0x33, 0x33],
    ensures
        params[1] == seq![0x41u8] ==> said_by(params, true) is Prompt,
        params[1] == seq![0x42u8] ==> said_by(params, true) is Prompt,
        params[1] == seq![0x43u8] ==> said_by(params, true) is Start,
        params[1] == seq![0x44u8] ==> said_by(params, true) == Said::End(None),
        said_by(params, false) is Nothing,
{
    reveal_strlit("7");
    reveal_strlit("9");
    reveal_strlit("7777");
    reveal_strlit("133");
    reveal_strlit("633");
    reveal_strlit("A");
    reveal_strlit("B");
    reveal_strlit("C");
    reveal_strlit("D");
    lemma_ascii_bytes("7"@, seq![0x37u8]);
    lemma_ascii_bytes("9"@, seq![0x39u8]);
    lemma_ascii_bytes("7777"@, seq![0x37u8, 0x37, 0x37, 0x37]);
    lemma_ascii_bytes("133"@, seq![0x31u8, 0x33, 0x33]);
    lemma_ascii_bytes("633"@, seq![0x36u8, 0x33, 0x33]);
    lemma_ascii_bytes("A"@, seq![0x41u8]);
    lemma_ascii_bytes("B"@, seq![0x42u8]);
    lemma_ascii_bytes("C"@, seq![0x43u8]);
    lemma_ascii_bytes("D"@, seq![0x44u8]);
    assert(seq![0x37u8].len() == 1 && seq![0x37u8, 0x37, 0x37, 0x37].len() == 4 && params[0].len() == 3);
    assert(seq![0x31u8, 0x33, 0x33][0] == 0x31 && seq![0x36u8, 0x33, 0x33][0] == 0x36);
    assert(seq![0x41u8][0] == 0x41 && seq![0x42u8][0] == 0x42 && seq![0x43u8][0] == 0x43 && seq![0x44u8][0] == 0x44);
}

/// The code with which a command ended comes third.
pub proof fn lemma_exit_marks(params: Seq<Seq<u8>>, n: nat)
    requires
        params.len() == 3,
        params[0] == seq![0x31u8, 0x33, 0x33],
        params[1] == seq![0x44u8],
        n <= i32::MAX,
        trim(lossy_text(params[2])) == decimal(n) || trim(lossy_text(params[2])) == seq!['-'] + decimal(n),
    ensures
        trim(lossy_text(params[2])) == decimal(n) ==> said_by(params, true) == Said::End(Some(n as int)),
        trim(lossy_text(params[2])) == seq!['-'] + decimal(n) ==> said_by(params, true) == Said::End(Some(-(n as int))),
{
    reveal_strlit("7");
    reveal_strlit("9");
    reveal_strlit("7777");
    reveal_strlit("133");
    reveal_strlit("A");
    reveal_strlit("B");
    reveal_strlit("C");
    reveal_strlit("D");
    lemma_ascii_bytes("7"@, seq![0x37u8]);
    lemma_ascii_bytes("9"@, seq![0x39u8]);
    lemma_ascii_bytes("7777"@, seq![0x37u8, 0x37, 0x37, 0x37]);
    lemma_ascii_bytes("133"@, seq![0x31u8, 0x33, 0x33]);
    lemma_ascii_bytes("A"@, seq![0x41u8]);
    lemma_ascii_bytes("B"@, seq![0x42u8]);
    lemma_ascii_bytes("C"@, seq![0x43u8]);
    lemma_ascii_bytes("D"@, seq![0x44u8]);
    assert(seq![0x37u8].len() == 1 && seq![0x39u8].len() == 1 && params[0].len() == 3);
    assert(seq![0x41u8][0] == 0x41 && seq![0x42u8][0] == 0x42 && seq![0x43u8][0] == 0x43 && seq![0x44u8][0] == 0x44);
    lemma_signed_read(n);
}

/// A number is read with its sign.
pub proof fn lemma_signed_read(n: nat)
    requires
        n <= i32::MAX,
    ensures
        signed_of(decimal(n), i32::MIN as int, i32::MAX as int) == Some(n as int),
        signed_of(seq!['-'] + decimal(n), i32::MIN as int, i32::MAX as int) == Some(-(n as int)),
{
    crate::text::lemma_decimal(n);
    assert(crate::text::is_digit(decimal(n)[0]));
    assert((seq!['-'] + decimal(n)).skip(1) =~= decimal(n));
    assert((seq!['-'] + decimal(n))[0] == '-');
}

/// A directory is announced by `7` and by `9;9`.
pub proof fn lemma_directory_marks(params: Seq<Seq<u8>>, shell: bool)
    ensures
        params.len() == 2 && params[0] == seq![0x37u8] ==> said_by(params, shell) == Said::Directory(
            lossy_text(params[1]),
        ),
        params.len() == 3 && params[0] == seq![0x39u8] && params[1] == seq![0x39u8] ==> said_by(params, shell)
            == Said::Directory(lossy_text(params[2])),
{
    reveal_strlit("7");
    reveal_strlit("9");
    lemma_ascii_bytes("7"@, seq![0x37u8]);
    lemma_ascii_bytes("9"@, seq![0x39u8]);
}

/// What was said is kept in its order: a prompt with the line that the cursor
/// is on, counted from the first that ever was, a start and an end with the
/// moment.
pub proof fn lemma_marks_heard(t: Told, s: Screen, now: Time, offset: spec_fn(i64) -> Option<i32>, code: i32)
    requires
        s.scrolled + s.cursor_row <= u64::MAX,
    ensures
        t.heard(Said::Prompt, s, now, offset).marks == t.marks.push(
            MarkEvent::Prompt((s.scrolled + s.cursor_row) as u64),
        ),
        t.heard(Said::Start, s, now, offset).marks == t.marks.push(MarkEvent::Start(now)),
        t.heard(Said::End(Some(code as int)), s, now, offset).marks == t.marks.push(MarkEvent::End(now, Some(code))),
        t.heard(Said::End(None), s, now, offset).marks == t.marks.push(MarkEvent::End(now, None)),
        t.heard(Said::Nothing, s, now, offset) == t,
        t.heard(Said::AtPrompt, s, now, offset).prompted,
        t.heard(Said::Replayed, s, now, offset).replayed,
{
}

/// A path of a mounted drive is that drive's, `/C:` is `C:`, and slashes are
/// turned round.
pub proof fn lemma_paths(c: char, rest: Seq<char>, s: Seq<char>)
    requires
        'a' <= c <= 'z',
    ensures
        from_mount(seq!['/', 'm', 'n', 't', '/', c, '/'] + rest) == seq![(c as u32 - 32) as u8 as char, ':', '/'] + rest,
        without_root(seq!['/', c, ':'] + rest) == seq![c, ':'] + rest,
        s.len() != 2 ==> with_backslashes(s).len() == s.len(),
        forall|i: int| 0 <= i < s.len() && s[i] == '/' ==> #[trigger] with_backslashes(s)[i] == '\\',
        forall|i: int| 0 <= i < s.len() && s[i] != '/' ==> #[trigger] with_backslashes(s)[i] == s[i],
        s.len() == 2 ==> with_backslashes(s).len() == 3 && with_backslashes(s)[2] == '\\',
{
    reveal_strlit("/mnt/");
    let m = seq!['/', 'm', 'n', 't', '/', c, '/'] + rest;
    assert("/mnt/"@.is_prefix_of(m)) by {
        assert(m.take(5) =~= "/mnt/"@);
        assert("/mnt/"@ =~= m.subrange(0, 5));
    }
    assert(m.skip(5) =~= seq![c, '/'] + rest);
    assert(m.skip(5).skip(1) =~= seq!['/'] + rest);
    assert(seq![(c as u32 - 32) as u8 as char, ':'] + (seq!['/'] + rest) =~= seq![
        (c as u32 - 32) as u8 as char,
        ':',
        '/',
    ] + rest);
    assert((seq!['/', c, ':'] + rest).skip(1) =~= seq![c, ':'] + rest);
}

/// A byte that was written in an address as `%` and two hexadecimal digits is
/// that byte again; other bytes are themselves.
pub proof fn lemma_percent_bytes(b: Seq<u8>, i: int)
    requires
        0 <= i < b.len(),
    ensures
        b[i] != 0x25 ==> unescaped(b, i) == seq![b[i]] + unescaped(b, i + 1),
        i + 2 < b.len() && b[i] == 0x25 && 0x30 <= b[i + 1] <= 0x37 && 0x30 <= b[i + 2] <= 0x39 ==> unescaped(b, i)
            == seq![(16 * (b[i + 1] - 0x30) + (b[i + 2] - 0x30)) as u8] + unescaped(b, i + 3),
        i + 2 < b.len() && b[i] == 0x25 && 0x30 <= b[i + 1] <= 0x37 && 0x41 <= b[i + 2] <= 0x46 ==> unescaped(b, i)
            == seq![(16 * (b[i + 1] - 0x30) + (b[i + 2] - 0x41 + 10)) as u8] + unescaped(b, i + 3),
        i + 2 < b.len() && b[i] == 0x25 && 0x41 <= b[i + 1] <= 0x46 && 0x61 <= b[i + 2] <= 0x66 ==> unescaped(b, i)
            == seq![(16 * (b[i + 1] - 0x41 + 10) + (b[i + 2] - 0x61 + 10)) as u8] + unescaped(b, i + 3),
{
}

/// A moment keeps its milliseconds, under the offset it has there.
pub proof fn lemma_local_moment(ms: i64, offset: spec_fn(i64) -> Option<i32>)
    ensures
        match local_time(ms as int, offset) {
            Some(t) => t.ms == ms && offset(ms) == Some(t.offset) && -86400 < t.offset < 86400,
            None => offset(ms) matches Some(o) ==> o <= -86400 || o >= 86400 || ms < -crate::time::TIME_RANGE || ms
                > crate::time::TIME_RANGE,
        },
{
}

} // verus!
