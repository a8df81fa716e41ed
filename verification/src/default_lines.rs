//! The lines a new server binds its keys to: each reads as words that are
//! written as that line again.
use vstd::prelude::*;

use crate::bindings::{
    all_defaults, default_runs, menu_text, menu_words, with_digits, with_menus, MenuEntry, DEFAULT_LINES, PANE_MENU,
    WINDOW_MENU,
};
use crate::keys::Key;
use crate::text::{decimal, digit_char};
use crate::words::{escaped, lemma_words_read_back, line_from, quoted, special, stands_bare, words_in};

verus! {

/// A line that reads as words, and is what those words are written as.
pub open spec fn reads_back(line: Seq<char>) -> bool {
    match words_in(line, None, false) {
        Some(ws) => ws.len() > 0 && line_from(ws, 0) == line,
        None => false,
    }
}

proof fn lemma_reads_back(ws: Seq<Seq<char>>)
    requires
        ws.len() > 0,
    ensures
        reads_back(line_from(ws, 0)),
        words_in(line_from(ws, 0), None, false) == Some(ws),
{
    lemma_words_read_back(ws);
}

/// One more word at the end of a line.
proof fn lemma_line_grows(ws: Seq<Seq<char>>, w: Seq<char>, k: int)
    requires
        0 <= k <= ws.len(),
        ws.len() > 0,
    ensures
        line_from(ws.push(w), k) == line_from(ws, k) + seq![' '] + quoted(w),
    decreases ws.len() - k,
{
    let all = ws.push(w);
    if k < ws.len() {
        lemma_line_grows(ws, w, k + 1);
        assert(all[k] == ws[k]);
        assert(line_from(all, k) =~= line_from(ws, k) + seq![' '] + quoted(w));
    } else {
        assert(line_from(all, k + 1) =~= Seq::empty());
        assert(line_from(all, k) =~= line_from(ws, k) + seq![' '] + quoted(w));
    }
}

proof fn lemma_word_added(line: Seq<char>, w: Seq<char>)
    requires
        reads_back(line),
    ensures
        reads_back(line + seq![' '] + quoted(w)),
{
    let ws = words_in(line, None, false)->0;
    lemma_line_grows(ws, w, 0);
    lemma_reads_back(ws.push(w));
}

/// From `i` on nothing that a word is quoted for but blanks, each between two
/// characters that are none.
spec fn plain_from(s: Seq<char>, i: int) -> bool
    decreases s.len() - i,
{
    if i >= s.len() {
        true
    } else {
        &&& s[i] != '"' && s[i] != '\\' && s[i] != '#'
        &&& s[i] == ' ' ==> 0 < i < s.len() - 1 && s[i - 1] != ' '
        &&& plain_from(s, i + 1)
    }
}

proof fn lemma_plain_at(s: Seq<char>, i: int, j: int)
    requires
        0 <= i <= j < s.len(),
        plain_from(s, i),
    ensures
        s[j] != '"' && s[j] != '\\' && s[j] != '#',
        s[j] == ' ' ==> 0 < j < s.len() - 1 && s[j - 1] != ' ',
    decreases j - i,
{
    if i < j {
        lemma_plain_at(s, i + 1, j);
    }
}

/// Where the last blank of the first `k` characters is; before all when
/// there is none.
spec fn last_blank(s: Seq<char>, k: int) -> int
    decreases k,
{
    if k <= 0 {
        -1
    } else if s[k - 1] == ' ' {
        k - 1
    } else {
        last_blank(s, k - 1)
    }
}

proof fn lemma_last_blank(s: Seq<char>, k: int)
    requires
        0 <= k <= s.len(),
    ensures
        -1 <= last_blank(s, k) < k,
        last_blank(s, k) >= 0 ==> s[last_blank(s, k)] == ' ',
        forall|j: int| last_blank(s, k) < j < k ==> #[trigger] s[j] != ' ',
    decreases k,
{
    if k > 0 && s[k - 1] != ' ' {
        lemma_last_blank(s, k - 1);
    }
}

/// The beginning of a plain line up to one of its blanks is plain.
proof fn lemma_plain_before(s: Seq<char>, k: int, i: int)
    requires
        0 <= i <= k < s.len(),
        0 < k,
        plain_from(s, 0),
        s[k] == ' ',
    ensures
        plain_from(s.take(k), i),
    decreases k - i,
{
    lemma_plain_at(s, 0, k);
    if i < k {
        lemma_plain_at(s, 0, i);
        lemma_plain_before(s, k, i + 1);
        assert(s.take(k)[i] == s[i]);
        if i == k - 1 {
            assert(s[i] != ' ');
        }
        if i > 0 {
            assert(s.take(k)[i - 1] == s[i - 1]);
        }
    }
}

/// A line of words that need no quotes, a blank between them.
proof fn lemma_plain(s: Seq<char>)
    requires
        s.len() > 0,
        plain_from(s, 0),
    ensures
        reads_back(s),
    decreases s.len(),
{
    let n = s.len() as int;
    lemma_last_blank(s, n);
    let k = last_blank(s, n);
    let w = s.skip(k + 1);
    lemma_plain_at(s, 0, n - 1);
    assert(s[n - 1] != ' ');
    assert(w.len() > 0);
    assert forall|j: int| 0 <= j < w.len() implies !special(#[trigger] w[j]) by {
        lemma_plain_at(s, 0, k + 1 + j);
        assert(w[j] == s[k + 1 + j]);
    }
    assert(stands_bare(w));
    if k < 0 {
        assert(w =~= s);
        let ws = seq![s];
        assert(line_from(ws, 1) =~= Seq::empty());
        assert(line_from(ws, 0) =~= s);
        lemma_reads_back(ws);
    } else {
        lemma_plain_at(s, 0, k);
        lemma_plain_before(s, k, 0);
        lemma_plain(s.take(k));
        lemma_word_added(s.take(k), w);
        assert(s.take(k) + seq![' '] + w =~= s);
    }
}

/// A word that needs no quotes at the end of a line.
proof fn lemma_plain_word(line: Seq<char>, w: Seq<char>)
    requires
        reads_back(line),
        w.len() > 0,
        plain_from(w, 0),
        last_blank(w, w.len() as int) < 0,
    ensures
        reads_back(line + seq![' '] + w),
{
    lemma_last_blank(w, w.len() as int);
    assert forall|j: int| 0 <= j < w.len() implies !special(#[trigger] w[j]) by {
        lemma_plain_at(w, 0, j);
    }
    lemma_word_added(line, w);
}

/// Nothing in it that a backslash goes before.
spec fn unescaped(s: Seq<char>, i: int) -> bool
    decreases s.len() - i,
{
    i >= s.len() || s[i] != '"' && s[i] != '\\' && unescaped(s, i + 1)
}

proof fn lemma_unescaped(s: Seq<char>, i: int)
    requires
        0 <= i <= s.len(),
        unescaped(s, i),
    ensures
        escaped(s.skip(i)) == s.skip(i),
    decreases s.len() - i,
{
    if i < s.len() {
        lemma_unescaped(s, i + 1);
        assert(s.skip(i).skip(1) =~= s.skip(i + 1));
        assert(escaped(s.skip(i)) =~= s.skip(i));
    } else {
        assert(s.skip(i) =~= Seq::empty());
    }
}

/// A word at the end of a line that the character at `p` is quoted for.
proof fn lemma_quoted_word(line: Seq<char>, w: Seq<char>, p: int)
    requires
        reads_back(line),
        0 <= p < w.len(),
        special(w[p]),
        unescaped(w, 0),
    ensures
        reads_back(line + seq![' '] + (seq!['"'] + w + seq!['"'])),
{
    lemma_unescaped(w, 0);
    assert(w.skip(0) =~= w);
    assert(!stands_bare(w));
    lemma_word_added(line, w);
}

#[verifier::spinoff_prover]
proof fn lemma_lines_first(i: int)
    requires
        0 <= i < 21,
    ensures
        reads_back(DEFAULT_LINES@[i].1@),
{
    reveal_with_fuel(plain_from, 40);
    reveal_with_fuel(unescaped, 24);
    reveal_with_fuel(last_blank, 16);
    if i == 0 {
        assert(DEFAULT_LINES@[0].1 == "new-window");
        reveal_strlit("new-window");
        lemma_plain("new-window"@);
    } else if i == 1 {
        assert(DEFAULT_LINES@[1].1 == "command-prompt -p (rename-window) -I \"#W\" \"rename-window -- %%\"");
        reveal_strlit("command-prompt -p (rename-window) -I \"#W\" \"rename-window -- %%\"");
        reveal_strlit("command-prompt -p (rename-window) -I");
        lemma_plain("command-prompt -p (rename-window) -I"@);
        reveal_strlit("#W");
        lemma_quoted_word("command-prompt -p (rename-window) -I"@, "#W"@, 0);
        reveal_strlit("command-prompt -p (rename-window) -I \"#W\"");
        assert("command-prompt -p (rename-window) -I"@ + seq![' '] + (seq!['"'] + "#W"@ + seq!['"']) =~= "command-prompt -p (rename-window) -I \"#W\""@);
        reveal_strlit("rename-window -- %%");
        lemma_quoted_word("command-prompt -p (rename-window) -I \"#W\""@, "rename-window -- %%"@, 13);
        assert("command-prompt -p (rename-window) -I \"#W\""@ + seq![' '] + (seq!['"'] + "rename-window -- %%"@ + seq!['"']) =~= "command-prompt -p (rename-window) -I \"#W\" \"rename-window -- %%\""@);
    } else if i == 2 {
        assert(DEFAULT_LINES@[2].1 == "command-prompt -p (rename-session) -I \"#S\" \"rename-session -- %%\"");
        reveal_strlit("command-prompt -p (rename-session) -I \"#S\" \"rename-session -- %%\"");
        reveal_strlit("command-prompt -p (rename-session) -I");
        lemma_plain("command-prompt -p (rename-session) -I"@);
        reveal_strlit("#S");
        lemma_quoted_word("command-prompt -p (rename-session) -I"@, "#S"@, 0);
        reveal_strlit("command-prompt -p (rename-session) -I \"#S\"");
        assert("command-prompt -p (rename-session) -I"@ + seq![' '] + (seq!['"'] + "#S"@ + seq!['"']) =~= "command-prompt -p (rename-session) -I \"#S\""@);
        reveal_strlit("rename-session -- %%");
        lemma_quoted_word("command-prompt -p (rename-session) -I \"#S\""@, "rename-session -- %%"@, 14);
        assert("command-prompt -p (rename-session) -I \"#S\""@ + seq![' '] + (seq!['"'] + "rename-session -- %%"@ + seq!['"']) =~= "command-prompt -p (rename-session) -I \"#S\" \"rename-session -- %%\""@);
    } else if i == 3 {
        assert(DEFAULT_LINES@[3].1 == "confirm-before -p \"kill-window #W? (y/n)\" kill-window");
        reveal_strlit("confirm-before -p \"kill-window #W? (y/n)\" kill-window");
        reveal_strlit("confirm-before -p");
        lemma_plain("confirm-before -p"@);
        reveal_strlit("kill-window #W? (y/n)");
        lemma_quoted_word("confirm-before -p"@, "kill-window #W? (y/n)"@, 11);
        reveal_strlit("confirm-before -p \"kill-window #W? (y/n)\"");
        assert("confirm-before -p"@ + seq![' '] + (seq!['"'] + "kill-window #W? (y/n)"@ + seq!['"']) =~= "confirm-before -p \"kill-window #W? (y/n)\""@);
        reveal_strlit("kill-window");
        lemma_plain_word("confirm-before -p \"kill-window #W? (y/n)\""@, "kill-window"@);
        assert("confirm-before -p \"kill-window #W? (y/n)\""@ + seq![' '] + "kill-window"@ =~= "confirm-before -p \"kill-window #W? (y/n)\" kill-window"@);
    } else if i == 4 {
        assert(DEFAULT_LINES@[4].1 == "confirm-before -p \"kill-pane #P? (y/n)\" kill-pane");
        reveal_strlit("confirm-before -p \"kill-pane #P? (y/n)\" kill-pane");
        reveal_strlit("confirm-before -p");
        lemma_plain("confirm-before -p"@);
        reveal_strlit("kill-pane #P? (y/n)");
        lemma_quoted_word("confirm-before -p"@, "kill-pane #P? (y/n)"@, 9);
        reveal_strlit("confirm-before -p \"kill-pane #P? (y/n)\"");
        assert("confirm-before -p"@ + seq![' '] + (seq!['"'] + "kill-pane #P? (y/n)"@ + seq!['"']) =~= "confirm-before -p \"kill-pane #P? (y/n)\""@);
        reveal_strlit("kill-pane");
        lemma_plain_word("confirm-before -p \"kill-pane #P? (y/n)\""@, "kill-pane"@);
        assert("confirm-before -p \"kill-pane #P? (y/n)\""@ + seq![' '] + "kill-pane"@ =~= "confirm-before -p \"kill-pane #P? (y/n)\" kill-pane"@);
    } else if i == 5 {
        assert(DEFAULT_LINES@[5].1 == "detach-client");
        reveal_strlit("detach-client");
        lemma_plain("detach-client"@);
    } else if i == 6 {
        assert(DEFAULT_LINES@[6].1 == "split-window -h");
        reveal_strlit("split-window -h");
        lemma_plain("split-window -h"@);
    } else if i == 7 {
        assert(DEFAULT_LINES@[7].1 == "split-window -v");
        reveal_strlit("split-window -v");
        lemma_plain("split-window -v"@);
    } else if i == 8 {
        assert(DEFAULT_LINES@[8].1 == "select-pane -t next");
        reveal_strlit("select-pane -t next");
        lemma_plain("select-pane -t next"@);
    } else if i == 9 {
        assert(DEFAULT_LINES@[9].1 == "select-pane -l");
        reveal_strlit("select-pane -l");
        lemma_plain("select-pane -l"@);
    } else if i == 10 {
        assert(DEFAULT_LINES@[10].1 == "select-pane -U");
        reveal_strlit("select-pane -U");
        lemma_plain("select-pane -U"@);
    } else if i == 11 {
        assert(DEFAULT_LINES@[11].1 == "select-pane -D");
        reveal_strlit("select-pane -D");
        lemma_plain("select-pane -D"@);
    } else if i == 12 {
        assert(DEFAULT_LINES@[12].1 == "select-pane -L");
        reveal_strlit("select-pane -L");
        lemma_plain("select-pane -L"@);
    } else if i == 13 {
        assert(DEFAULT_LINES@[13].1 == "select-pane -R");
        reveal_strlit("select-pane -R");
        lemma_plain("select-pane -R"@);
    } else if i == 14 {
        assert(DEFAULT_LINES@[14].1 == "select-pane -L");
        reveal_strlit("select-pane -L");
        lemma_plain("select-pane -L"@);
    } else if i == 15 {
        assert(DEFAULT_LINES@[15].1 == "select-pane -D");
        reveal_strlit("select-pane -D");
        lemma_plain("select-pane -D"@);
    } else if i == 16 {
        assert(DEFAULT_LINES@[16].1 == "select-pane -U");
        reveal_strlit("select-pane -U");
        lemma_plain("select-pane -U"@);
    } else if i == 17 {
        assert(DEFAULT_LINES@[17].1 == "select-pane -R");
        reveal_strlit("select-pane -R");
        lemma_plain("select-pane -R"@);
    } else if i == 18 {
        assert(DEFAULT_LINES@[18].1 == "resize-pane -L 5");
        reveal_strlit("resize-pane -L 5");
        lemma_plain("resize-pane -L 5"@);
    } else if i == 19 {
        assert(DEFAULT_LINES@[19].1 == "resize-pane -D 5");
        reveal_strlit("resize-pane -D 5");
        lemma_plain("resize-pane -D 5"@);
    } else if i == 20 {
        assert(DEFAULT_LINES@[20].1 == "resize-pane -U 5");
        reveal_strlit("resize-pane -U 5");
        lemma_plain("resize-pane -U 5"@);
    }
}

#[verifier::spinoff_prover]
proof fn lemma_lines_second(i: int)
    requires
        21 <= i < 42,
    ensures
        reads_back(DEFAULT_LINES@[i].1@),
{
    reveal_with_fuel(plain_from, 40);
    reveal_with_fuel(unescaped, 24);
    reveal_with_fuel(last_blank, 16);
    if i == 21 {
        assert(DEFAULT_LINES@[21].1 == "resize-pane -R 5");
        reveal_strlit("resize-pane -R 5");
        lemma_plain("resize-pane -R 5"@);
    } else if i == 22 {
        assert(DEFAULT_LINES@[22].1 == "resize-pane -U 1");
        reveal_strlit("resize-pane -U 1");
        lemma_plain("resize-pane -U 1"@);
    } else if i == 23 {
        assert(DEFAULT_LINES@[23].1 == "resize-pane -D 1");
        reveal_strlit("resize-pane -D 1");
        lemma_plain("resize-pane -D 1"@);
    } else if i == 24 {
        assert(DEFAULT_LINES@[24].1 == "resize-pane -L 1");
        reveal_strlit("resize-pane -L 1");
        lemma_plain("resize-pane -L 1"@);
    } else if i == 25 {
        assert(DEFAULT_LINES@[25].1 == "resize-pane -R 1");
        reveal_strlit("resize-pane -R 1");
        lemma_plain("resize-pane -R 1"@);
    } else if i == 26 {
        assert(DEFAULT_LINES@[26].1 == "resize-pane -U 5");
        reveal_strlit("resize-pane -U 5");
        lemma_plain("resize-pane -U 5"@);
    } else if i == 27 {
        assert(DEFAULT_LINES@[27].1 == "resize-pane -D 5");
        reveal_strlit("resize-pane -D 5");
        lemma_plain("resize-pane -D 5"@);
    } else if i == 28 {
        assert(DEFAULT_LINES@[28].1 == "resize-pane -L 5");
        reveal_strlit("resize-pane -L 5");
        lemma_plain("resize-pane -L 5"@);
    } else if i == 29 {
        assert(DEFAULT_LINES@[29].1 == "resize-pane -R 5");
        reveal_strlit("resize-pane -R 5");
        lemma_plain("resize-pane -R 5"@);
    } else if i == 30 {
        assert(DEFAULT_LINES@[30].1 == "refresh-client -U 5");
        reveal_strlit("refresh-client -U 5");
        lemma_plain("refresh-client -U 5"@);
    } else if i == 31 {
        assert(DEFAULT_LINES@[31].1 == "refresh-client -D 5");
        reveal_strlit("refresh-client -D 5");
        lemma_plain("refresh-client -D 5"@);
    } else if i == 32 {
        assert(DEFAULT_LINES@[32].1 == "refresh-client -L 10");
        reveal_strlit("refresh-client -L 10");
        lemma_plain("refresh-client -L 10"@);
    } else if i == 33 {
        assert(DEFAULT_LINES@[33].1 == "refresh-client -R 10");
        reveal_strlit("refresh-client -R 10");
        lemma_plain("refresh-client -R 10"@);
    } else if i == 34 {
        assert(DEFAULT_LINES@[34].1 == "next-window");
        reveal_strlit("next-window");
        lemma_plain("next-window"@);
    } else if i == 35 {
        assert(DEFAULT_LINES@[35].1 == "previous-window");
        reveal_strlit("previous-window");
        lemma_plain("previous-window"@);
    } else if i == 36 {
        assert(DEFAULT_LINES@[36].1 == "next-window -a");
        reveal_strlit("next-window -a");
        lemma_plain("next-window -a"@);
    } else if i == 37 {
        assert(DEFAULT_LINES@[37].1 == "previous-window -a");
        reveal_strlit("previous-window -a");
        lemma_plain("previous-window -a"@);
    } else if i == 38 {
        assert(DEFAULT_LINES@[38].1 == "last-window");
        reveal_strlit("last-window");
        lemma_plain("last-window"@);
    } else if i == 39 {
        assert(DEFAULT_LINES@[39].1 == "resize-pane -Z");
        reveal_strlit("resize-pane -Z");
        lemma_plain("resize-pane -Z"@);
    } else if i == 40 {
        assert(DEFAULT_LINES@[40].1 == "copy-mode");
        reveal_strlit("copy-mode");
        lemma_plain("copy-mode"@);
    } else if i == 41 {
        assert(DEFAULT_LINES@[41].1 == "copy-mode -u");
        reveal_strlit("copy-mode -u");
        lemma_plain("copy-mode -u"@);
    }
}

#[verifier::spinoff_prover]
proof fn lemma_lines_third(i: int)
    requires
        42 <= i < 63,
    ensures
        reads_back(DEFAULT_LINES@[i].1@),
{
    reveal_with_fuel(plain_from, 40);
    reveal_with_fuel(unescaped, 24);
    reveal_with_fuel(last_blank, 16);
    if i == 42 {
        assert(DEFAULT_LINES@[42].1 == "paste-buffer");
        reveal_strlit("paste-buffer");
        lemma_plain("paste-buffer"@);
    } else if i == 43 {
        assert(DEFAULT_LINES@[43].1 == "command-prompt");
        reveal_strlit("command-prompt");
        lemma_plain("command-prompt"@);
    } else if i == 44 {
        assert(DEFAULT_LINES@[44].1 == "list-keys");
        reveal_strlit("list-keys");
        lemma_plain("list-keys"@);
    } else if i == 45 {
        assert(DEFAULT_LINES@[45].1 == "swap-pane -U");
        reveal_strlit("swap-pane -U");
        lemma_plain("swap-pane -U"@);
    } else if i == 46 {
        assert(DEFAULT_LINES@[46].1 == "swap-pane -D");
        reveal_strlit("swap-pane -D");
        lemma_plain("swap-pane -D"@);
    } else if i == 47 {
        assert(DEFAULT_LINES@[47].1 == "break-pane");
        reveal_strlit("break-pane");
        lemma_plain("break-pane"@);
    } else if i == 48 {
        assert(DEFAULT_LINES@[48].1 == "select-layout -n");
        reveal_strlit("select-layout -n");
        lemma_plain("select-layout -n"@);
    } else if i == 49 {
        assert(DEFAULT_LINES@[49].1 == "select-layout -E");
        reveal_strlit("select-layout -E");
        lemma_plain("select-layout -E"@);
    } else if i == 50 {
        assert(DEFAULT_LINES@[50].1 == "display-panes");
        reveal_strlit("display-panes");
        lemma_plain("display-panes"@);
    } else if i == 51 {
        assert(DEFAULT_LINES@[51].1 == "refresh-client");
        reveal_strlit("refresh-client");
        lemma_plain("refresh-client"@);
    } else if i == 52 {
        assert(DEFAULT_LINES@[52].1 == "show-messages");
        reveal_strlit("show-messages");
        lemma_plain("show-messages"@);
    } else if i == 53 {
        assert(DEFAULT_LINES@[53].1 == "list-buffers");
        reveal_strlit("list-buffers");
        lemma_plain("list-buffers"@);
    } else if i == 54 {
        assert(DEFAULT_LINES@[54].1 == "command-prompt -p (find-window) \"find-window -- %%\"");
        reveal_strlit("command-prompt -p (find-window) \"find-window -- %%\"");
        reveal_strlit("command-prompt -p (find-window)");
        lemma_plain("command-prompt -p (find-window)"@);
        reveal_strlit("find-window -- %%");
        lemma_quoted_word("command-prompt -p (find-window)"@, "find-window -- %%"@, 11);
        assert("command-prompt -p (find-window)"@ + seq![' '] + (seq!['"'] + "find-window -- %%"@ + seq!['"']) =~= "command-prompt -p (find-window) \"find-window -- %%\""@);
    } else if i == 55 {
        assert(DEFAULT_LINES@[55].1 == "select-pane -m");
        reveal_strlit("select-pane -m");
        lemma_plain("select-pane -m"@);
    } else if i == 56 {
        assert(DEFAULT_LINES@[56].1 == "select-pane -M");
        reveal_strlit("select-pane -M");
        lemma_plain("select-pane -M"@);
    } else if i == 57 {
        assert(DEFAULT_LINES@[57].1 == "command-prompt -p (pane-title) -I \"#T\" \"select-pane -T -- %%\"");
        reveal_strlit("command-prompt -p (pane-title) -I \"#T\" \"select-pane -T -- %%\"");
        reveal_strlit("command-prompt -p (pane-title) -I");
        lemma_plain("command-prompt -p (pane-title) -I"@);
        reveal_strlit("#T");
        lemma_quoted_word("command-prompt -p (pane-title) -I"@, "#T"@, 0);
        reveal_strlit("command-prompt -p (pane-title) -I \"#T\"");
        assert("command-prompt -p (pane-title) -I"@ + seq![' '] + (seq!['"'] + "#T"@ + seq!['"']) =~= "command-prompt -p (pane-title) -I \"#T\""@);
        reveal_strlit("select-pane -T -- %%");
        lemma_quoted_word("command-prompt -p (pane-title) -I \"#T\""@, "select-pane -T -- %%"@, 11);
        assert("command-prompt -p (pane-title) -I \"#T\""@ + seq![' '] + (seq!['"'] + "select-pane -T -- %%"@ + seq!['"']) =~= "command-prompt -p (pane-title) -I \"#T\" \"select-pane -T -- %%\""@);
    } else if i == 58 {
        assert(DEFAULT_LINES@[58].1 == "command-prompt -p (index) \"select-window -t :%%\"");
        reveal_strlit("command-prompt -p (index) \"select-window -t :%%\"");
        reveal_strlit("command-prompt -p (index)");
        lemma_plain("command-prompt -p (index)"@);
        reveal_strlit("select-window -t :%%");
        lemma_quoted_word("command-prompt -p (index)"@, "select-window -t :%%"@, 13);
        assert("command-prompt -p (index)"@ + seq![' '] + (seq!['"'] + "select-window -t :%%"@ + seq!['"']) =~= "command-prompt -p (index) \"select-window -t :%%\""@);
    } else if i == 59 {
        assert(DEFAULT_LINES@[59].1 == "command-prompt -p (move-window-to) \"move-window -t %%\"");
        reveal_strlit("command-prompt -p (move-window-to) \"move-window -t %%\"");
        reveal_strlit("command-prompt -p (move-window-to)");
        lemma_plain("command-prompt -p (move-window-to)"@);
        reveal_strlit("move-window -t %%");
        lemma_quoted_word("command-prompt -p (move-window-to)"@, "move-window -t %%"@, 11);
        assert("command-prompt -p (move-window-to)"@ + seq![' '] + (seq!['"'] + "move-window -t %%"@ + seq!['"']) =~= "command-prompt -p (move-window-to) \"move-window -t %%\""@);
    } else if i == 60 {
        assert(DEFAULT_LINES@[60].1 == "delete-buffer");
        reveal_strlit("delete-buffer");
        lemma_plain("delete-buffer"@);
    } else if i == 61 {
        assert(DEFAULT_LINES@[61].1 == "choose-buffer");
        reveal_strlit("choose-buffer");
        lemma_plain("choose-buffer"@);
    } else if i == 62 {
        assert(DEFAULT_LINES@[62].1 == "clock-mode");
        reveal_strlit("clock-mode");
        lemma_plain("clock-mode"@);
    }
}

#[verifier::spinoff_prover]
proof fn lemma_lines_fourth(i: int)
    requires
        63 <= i < 83,
    ensures
        reads_back(DEFAULT_LINES@[i].1@),
{
    reveal_with_fuel(plain_from, 40);
    reveal_with_fuel(unescaped, 24);
    reveal_with_fuel(last_blank, 16);
    if i == 63 {
        assert(DEFAULT_LINES@[63].1 == "rotate-window");
        reveal_strlit("rotate-window");
        lemma_plain("rotate-window"@);
    } else if i == 64 {
        assert(DEFAULT_LINES@[64].1 == "rotate-window -D");
        reveal_strlit("rotate-window -D");
        lemma_plain("rotate-window -D"@);
    } else if i == 65 {
        assert(DEFAULT_LINES@[65].1 == "select-layout even-horizontal");
        reveal_strlit("select-layout even-horizontal");
        lemma_plain("select-layout even-horizontal"@);
    } else if i == 66 {
        assert(DEFAULT_LINES@[66].1 == "select-layout even-vertical");
        reveal_strlit("select-layout even-vertical");
        lemma_plain("select-layout even-vertical"@);
    } else if i == 67 {
        assert(DEFAULT_LINES@[67].1 == "select-layout main-horizontal");
        reveal_strlit("select-layout main-horizontal");
        lemma_plain("select-layout main-horizontal"@);
    } else if i == 68 {
        assert(DEFAULT_LINES@[68].1 == "select-layout main-vertical");
        reveal_strlit("select-layout main-vertical");
        lemma_plain("select-layout main-vertical"@);
    } else if i == 69 {
        assert(DEFAULT_LINES@[69].1 == "select-layout tiled");
        reveal_strlit("select-layout tiled");
        lemma_plain("select-layout tiled"@);
    } else if i == 70 {
        assert(DEFAULT_LINES@[70].1 == "switch-client -p");
        reveal_strlit("switch-client -p");
        lemma_plain("switch-client -p"@);
    } else if i == 71 {
        assert(DEFAULT_LINES@[71].1 == "switch-client -n");
        reveal_strlit("switch-client -n");
        lemma_plain("switch-client -n"@);
    } else if i == 72 {
        assert(DEFAULT_LINES@[72].1 == "choose-tree -Zw");
        reveal_strlit("choose-tree -Zw");
        lemma_plain("choose-tree -Zw"@);
    } else if i == 73 {
        assert(DEFAULT_LINES@[73].1 == "choose-tree -Zs");
        reveal_strlit("choose-tree -Zs");
        lemma_plain("choose-tree -Zs"@);
    } else if i == 74 {
        assert(DEFAULT_LINES@[74].1 == "choose-client");
        reveal_strlit("choose-client");
        lemma_plain("choose-client"@);
    } else if i == 75 {
        assert(DEFAULT_LINES@[75].1 == "choose-jobs");
        reveal_strlit("choose-jobs");
        lemma_plain("choose-jobs"@);
    } else if i == 76 {
        assert(DEFAULT_LINES@[76].1 == "choose-history");
        reveal_strlit("choose-history");
        lemma_plain("choose-history"@);
    } else if i == 77 {
        assert(DEFAULT_LINES@[77].1 == "undo-kill");
        reveal_strlit("undo-kill");
        lemma_plain("undo-kill"@);
    } else if i == 78 {
        assert(DEFAULT_LINES@[78].1 == "display-message \"#S:#W.#P #T\"");
        reveal_strlit("display-message \"#S:#W.#P #T\"");
        reveal_strlit("display-message");
        lemma_plain("display-message"@);
        reveal_strlit("#S:#W.#P #T");
        lemma_quoted_word("display-message"@, "#S:#W.#P #T"@, 0);
        assert("display-message"@ + seq![' '] + (seq!['"'] + "#S:#W.#P #T"@ + seq!['"']) =~= "display-message \"#S:#W.#P #T\""@);
    } else if i == 79 {
        assert(DEFAULT_LINES@[79].1 == "save-session");
        reveal_strlit("save-session");
        lemma_plain("save-session"@);
    } else if i == 80 {
        assert(DEFAULT_LINES@[80].1 == "restore-session");
        reveal_strlit("restore-session");
        lemma_plain("restore-session"@);
    } else if i == 81 {
        assert(DEFAULT_LINES@[81].1 == "set-option -w synchronize-panes");
        reveal_strlit("set-option -w synchronize-panes");
        lemma_plain("set-option -w synchronize-panes"@);
    } else if i == 82 {
        assert(DEFAULT_LINES@[82].1 == "set-option -g pane-timestamps");
        reveal_strlit("set-option -g pane-timestamps");
        lemma_plain("set-option -g pane-timestamps"@);
    }
}

/// Default line `i` reads back.
proof fn lemma_line(i: int)
    requires
        0 <= i < 83,
    ensures
        reads_back(DEFAULT_LINES@[i].1@),
{
    if i < 21 {
        lemma_lines_first(i);
    } else if i < 42 {
        lemma_lines_second(i);
    } else if i < 63 {
        lemma_lines_third(i);
    } else {
        lemma_lines_fourth(i);
    }
}

/// Every line that a key of `m` runs reads back.
spec fn all_read_back(m: Map<Key, (Seq<char>, bool)>) -> bool {
    forall|k: Key| #[trigger] m.dom().contains(k) ==> reads_back(m[k].0)
}

proof fn lemma_runs(n: int)
    requires
        0 <= n <= 83,
    ensures
        all_read_back(default_runs(n)),
    decreases n,
{
    if n > 0 {
        lemma_runs(n - 1);
        lemma_line(n - 1);
    }
}

proof fn lemma_menu(title: Seq<char>, entries: Seq<MenuEntry>)
    ensures
        reads_back(menu_text(title, entries)),
{
    lemma_menu_words(title, entries, entries.len() as int);
    lemma_reads_back(menu_words(title, entries, entries.len() as int));
}

proof fn lemma_menu_words(title: Seq<char>, entries: Seq<MenuEntry>, k: int)
    ensures
        menu_words(title, entries, k).len() > 0,
    decreases k,
{
    if k > 0 {
        lemma_menu_words(title, entries, k - 1);
    }
}

proof fn lemma_digits(m: Map<Key, (Seq<char>, bool)>, d: int)
    requires
        0 <= d <= 10,
        all_read_back(m),
    ensures
        all_read_back(with_digits(m, d)),
    decreases d,
{
    if d > 0 {
        lemma_digits(m, d - 1);
        let n = (d - 1) as nat;
        let w = seq![':', digit_char(n)];
        reveal_strlit("select-window -t");
        reveal_strlit("select-window -t :");
        assert(reads_back("select-window -t"@)) by {
            reveal_with_fuel(plain_from, 20);
            lemma_plain("select-window -t"@);
        }
        assert(decimal(n) =~= seq![digit_char(n)]);
        assert(!special(w[0]) && !special(w[1]));
        assert(stands_bare(w));
        lemma_word_added("select-window -t"@, w);
        assert("select-window -t"@ + seq![' '] + w =~= "select-window -t :"@ + decimal(n));
    }
}

/// Every line that a new server binds reads as words, and those words are
/// written as that line again.
pub proof fn lemma_default_lines(k: Key)
    requires
        all_defaults().dom().contains(k),
    ensures
        reads_back(all_defaults()[k].0),
{
    let lines = default_runs(DEFAULT_LINES@.len() as int);
    lemma_runs(83);
    lemma_menu("pane #P"@, PANE_MENU@);
    lemma_menu("window #W"@, WINDOW_MENU@);
    assert(all_read_back(with_menus(lines)));
    lemma_digits(with_menus(lines), 10);
}

} // verus!
