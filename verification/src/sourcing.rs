//! Reading configuration: files that are being read, what went wrong in them,
//! plugins, and hooks.
use vstd::prelude::*;

use crate::command::{Ended, Outcome};
use crate::listings::{in_text_order, sort_texts};
use crate::text::{chars_of, decimal, join_texts, joined2, joined3, joined_by, number_text, push_decimal, same_text, string_of, texts_of};

verus! {

/// A text is one of a list.
pub open spec fn listed_in(v: Seq<Seq<char>>, s: Seq<char>) -> bool {
    v.contains(s)
}

fn has_text(v: &Vec<String>, s: &str) -> (b: bool)
    ensures
        b == listed_in(texts_of(v@), s@),
{
    let mut i: usize = 0;
    while i < v.len()
        invariant
            i <= v@.len(),
            forall|j: int| 0 <= j < i ==> (#[trigger] v@[j])@ != s@,
        decreases v.len() - i,
    {
        if same_text(v[i].as_str(), s) {
            assert(texts_of(v@)[i as int] == s@);
            return true;
        }
        i = i + 1;
    }
    assert forall|j: int| 0 <= j < texts_of(v@).len() implies texts_of(v@)[j] != s@ by {
        assert(v@[j]@ != s@);
    }
    false
}

/// The files being read, each from the one before it, and the plugins that
/// were loaded.
#[derive(Debug)]
pub struct Sourcing {
    pub open: Vec<String>,
    pub plugins: Vec<String>,
}

impl Sourcing {
    /// `list-plugins`.
    pub fn list_plugins(&self) -> (out: Outcome)
        ensures
            out@ == Ended::Text(
                if self.plugins@.len() == 0 {
                    "no plugins loaded"@
                } else {
                    joined_by(texts_of(self.plugins@), "\n"@, self.plugins@.len() as int)
                },
            ),
    {
        if self.plugins.len() == 0 {
            Outcome::Text("no plugins loaded".to_owned())
        } else {
            Outcome::Text(join_texts(&self.plugins, "\n"))
        }
    }

    /// Begin to read a file. One that reads itself, directly or through
    /// another, would go on for ever.
    pub fn begin(&mut self, path: &str, file: String) -> (r: Result<(), String>)
        ensures
            final(self).plugins == old(self).plugins,
            if listed_in(texts_of(old(self).open@), file@) {
                &&& r is Err
                &&& r->Err_0@ == path@ + ": is already being sourced (a source-file loop)"@
                &&& final(self).open == old(self).open
            } else {
                r is Ok && final(self).open@ == old(self).open@.push(file)
            },
    {
        if has_text(&self.open, file.as_str()) {
            return Err(joined2(path, ": is already being sourced (a source-file loop)"));
        }
        self.open.push(file);
        Ok(())
    }

    /// A file has been read.
    pub fn finish(&mut self)
        ensures
            final(self).plugins == old(self).plugins,
            final(self).open@ == if old(self).open@.len() > 0 {
                old(self).open@.drop_last()
            } else {
                old(self).open@
            },
    {
        let _ = self.open.pop();
    }

    /// Note a plugin; false when it was loaded before.
    pub fn add_plugin(&mut self, path: String) -> (fresh: bool)
        ensures
            final(self).open == old(self).open,
            fresh == !listed_in(texts_of(old(self).plugins@), path@),
            final(self).plugins@ == if fresh {
                old(self).plugins@.push(path)
            } else {
                old(self).plugins@
            },
    {
        if has_text(&self.plugins, path.as_str()) {
            return false;
        }
        self.plugins.push(path);
        true
    }
}

/// A file that was begun and finished leaves what is being read as it was.
pub proof fn lemma_begin_then_finish(open: Seq<String>, file: String)
    ensures
        open.push(file).drop_last() == open,
{
    assert(open.push(file).drop_last() =~= open);
}

/// What is said of a line of a file.
pub fn line_fault(path: &str, line: usize, why: &str) -> (out: String)
    ensures
        out@ == path@ + ":"@ + decimal(line as nat) + ": "@ + why@,
{
    let mut out = joined2(path, ":");
    push_decimal(&mut out, line as u64);
    out.push_str(": ");
    out.push_str(why);
    out
}

/// What reading a file came to.
pub open spec fn report(file: Seq<char>, errors: Seq<Seq<char>>, lenient: bool) -> Option<Seq<char>> {
    if errors.len() == 0 {
        None
    } else if lenient {
        Some(
            file + ": "@ + decimal(errors.len())
                + " lines wmux could not use were skipped (prefix ~ or show-messages lists them)"@,
        )
    } else {
        Some(joined_by(errors, "\n"@, errors.len() as int))
    }
}

/// How many commands of a file ran, or what went wrong: of a file written for
/// another program only how many lines were of no use.
pub fn source_report(file: &str, done: usize, errors: &Vec<String>, lenient: bool) -> (r: Result<usize, String>)
    ensures
        match report(file@, texts_of(errors@), lenient) {
            None => r == Ok::<usize, String>(done),
            Some(e) => r is Err && r->Err_0@ == e,
        },
{
    if errors.len() == 0 {
        return Ok(done);
    }
    if lenient {
        let mut e = joined3(file, ": ", number_text(errors.len() as u64).as_str());
        e.push_str(" lines wmux could not use were skipped (prefix ~ or show-messages lists them)");
        return Err(e);
    }
    Err(join_texts(errors, "\n"))
}

pub open spec fn is_quote_mark(c: char) -> bool {
    c == '"' || c == '\''
}

/// Where a text begins behind its quotation marks.
pub open spec fn unquoted_start(s: Seq<char>, i: int) -> int
    decreases s.len() - i,
{
    if i < s.len() && is_quote_mark(s[i]) {
        unquoted_start(s, i + 1)
    } else {
        i
    }
}

/// Where a text ends before its quotation marks, not before `from`.
pub open spec fn unquoted_end(s: Seq<char>, from: int, e: int) -> int
    decreases e,
{
    if e > from && e > 0 && is_quote_mark(s[e - 1]) {
        unquoted_end(s, from, e - 1)
    } else {
        e
    }
}

/// A plugin's name without the quotation marks around it.
pub open spec fn unquoted(s: Seq<char>) -> Seq<char> {
    let a = unquoted_start(s, 0);
    s.subrange(a, unquoted_end(s, a, s.len() as int))
}

/// A plugin's name without the quotation marks around it.
pub fn plugin_name(name: &str) -> (out: String)
    ensures
        out@ == unquoted(name@),
{
    let s = chars_of(name);
    let mut a: usize = 0;
    while a < s.len() && (s[a] == '"' || s[a] == '\'')
        invariant
            a <= s@.len(),
            unquoted_start(s@, 0) == unquoted_start(s@, a as int),
        decreases s.len() - a,
    {
        a = a + 1;
    }
    let mut e: usize = s.len();
    while e > a && (s[e - 1] == '"' || s[e - 1] == '\'')
        invariant
            a <= e <= s@.len(),
            unquoted_end(s@, a as int, s@.len() as int) == unquoted_end(s@, a as int, e as int),
        decreases e,
    {
        e = e - 1;
    }
    string_of(&s, a, e)
}

/// Where the last part of a path begins.
pub open spec fn last_part(s: Seq<char>, e: int) -> int
    decreases e,
{
    if e <= 0 || s[e - 1] == '/' || s[e - 1] == '\\' {
        e
    } else {
        last_part(s, e - 1)
    }
}

/// The last part of a plugin's name: `user/repo` is looked for as `repo`.
pub fn short_name(name: &str) -> (out: String)
    ensures
        out@ == name@.skip(last_part(name@, name@.len() as int)),
{
    let s = chars_of(name);
    let mut e: usize = s.len();
    while e > 0 && s[e - 1] != '/' && s[e - 1] != '\\'
        invariant
            e <= s@.len(),
            last_part(s@, s@.len() as int) == last_part(s@, e as int),
        decreases e,
    {
        e = e - 1;
    }
    let out = string_of(&s, e, s.len());
    assert(out@ =~= name@.skip(e as int));
    out
}

/// The files a plugin's directory is looked through for, first to last.
pub fn plugin_entries(short: &str) -> (out: Vec<String>)
    ensures
        texts_of(out@) == seq![short@ + ".wmux"@, "plugin.wmux"@, "plugin.conf"@],
{
    let mut out: Vec<String> = Vec::new();
    out.push(joined2(short, ".wmux"));
    out.push("plugin.wmux".to_owned());
    out.push("plugin.conf".to_owned());
    assert(texts_of(out@) =~= seq![short@ + ".wmux"@, "plugin.wmux"@, "plugin.conf"@]);
    out
}

/// The commands that hooks run, and whether one is running.
#[derive(Debug)]
pub struct Hooks {
    /// Hook names with the command lines they run.
    pub lines: Vec<(String, String)>,
    pub running: bool,
}

/// The line of the first hook of a name, from `i` on.
pub open spec fn hook_line(v: Seq<(String, String)>, name: Seq<char>, i: int) -> Option<Seq<char>>
    decreases v.len() - i,
{
    if i >= v.len() {
        None
    } else if v[i].0@ == name {
        Some(v[i].1@)
    } else {
        hook_line(v, name, i + 1)
    }
}

/// The hooks there are, as they are told.
pub const HOOK_NAMES: &'static str =
    "after-new-session, after-new-window, after-split-window, after-select-window, after-select-pane, after-kill-pane, client-attached, client-detached, pane-exited";

/// A hook goes by that name.
pub open spec fn is_hook(name: Seq<char>) -> bool {
    name == "after-new-session"@ || name == "after-new-window"@ || name == "after-split-window"@ || name
        == "after-select-window"@ || name == "after-select-pane"@ || name == "after-kill-pane"@ || name
        == "client-attached"@ || name == "client-detached"@ || name == "pane-exited"@
}

fn known_hook(name: &str) -> (b: bool)
    ensures
        b == is_hook(name@),
{
    same_text(name, "after-new-session") || same_text(name, "after-new-window") || same_text(
        name,
        "after-split-window",
    ) || same_text(name, "after-select-window") || same_text(name, "after-select-pane") || same_text(
        name,
        "after-kill-pane",
    ) || same_text(name, "client-attached") || same_text(name, "client-detached") || same_text(name, "pane-exited")
}

/// No hook is listed twice.
pub open spec fn hooks_once(v: Seq<(String, String)>) -> bool {
    forall|i: int, j: int| 0 <= i < j < v.len() ==> (#[trigger] v[i]).0@ != (#[trigger] v[j]).0@
}

/// The lines of `show-hooks`, before they are sorted.
pub open spec fn hook_lines(v: Seq<(String, String)>, quoted: Seq<Seq<char>>) -> Seq<Seq<char>> {
    Seq::new(v.len(), |i: int| v[i].0@ + " "@ + quoted[i])
}

/// Without its entry at `k`, if there is one, a hook is not listed, and the
/// others are as they were.
proof fn lemma_hook_gone(v: Seq<(String, String)>, left: Seq<(String, String)>, k: int, name: Seq<char>)
    requires
        hooks_once(v),
        0 <= k <= v.len(),
        k < v.len() ==> v[k].0@ == name && left == v.remove(k),
        k == v.len() ==> left == v,
        forall|j: int| 0 <= j < k ==> (#[trigger] v[j]).0@ != name,
    ensures
        hooks_once(left),
        forall|j: int| 0 <= j < left.len() ==> (#[trigger] left[j]).0@ != name,
        hook_line(left, name, 0) is None,
        forall|other: Seq<char>| other != name ==> #[trigger] hook_line(left, other, 0) == hook_line(v, other, 0),
{
    assert forall|j: int| 0 <= j < left.len() implies (#[trigger] left[j]).0@ != name by {
        if j >= k {
            assert(left[j] == v[j + 1]);
        }
    }
    lemma_hook_none(left, name, 0);
    assert forall|i: int, j: int| 0 <= i < j < left.len() implies (#[trigger] left[i]).0@ != (#[trigger] left[j]).0@ by {
        let a = if i < k {
            i
        } else {
            i + 1
        };
        let b = if j < k {
            j
        } else {
            j + 1
        };
        assert(left[i] == v[a] && left[j] == v[b]);
    }
    assert forall|other: Seq<char>| other != name implies #[trigger] hook_line(left, other, 0) == hook_line(v, other, 0) by {
        lemma_hook_without(v, left, k, other, 0);
    }
}

proof fn lemma_hook_none(v: Seq<(String, String)>, name: Seq<char>, i: int)
    requires
        0 <= i,
        forall|j: int| i <= j < v.len() ==> (#[trigger] v[j]).0@ != name,
    ensures
        hook_line(v, name, i) is None,
    decreases v.len() - i,
{
    if i < v.len() {
        assert(v[i].0@ != name);
        lemma_hook_none(v, name, i + 1);
    }
}

proof fn lemma_hook_without(v: Seq<(String, String)>, left: Seq<(String, String)>, k: int, other: Seq<char>, i: int)
    requires
        0 <= i,
        0 <= k <= v.len(),
        k < v.len() ==> v[k].0@ != other && left == v.remove(k),
        k == v.len() ==> left == v,
    ensures
        i <= k ==> hook_line(left, other, i) == hook_line(v, other, i),
        i > k ==> hook_line(left, other, i - 1) == hook_line(v, other, i),
    decreases v.len() - i,
{
    if i < v.len() {
        lemma_hook_without(v, left, k, other, i + 1);
        if i < k {
            assert(left[i] == v[i]);
        } else if i > k {
            assert(left[i - 1] == v[i]);
        }
    }
}

/// With an entry added last for a name that had none, it is the one of that
/// name, and the others are as they were.
proof fn lemma_hook_added(left: Seq<(String, String)>, v: Seq<(String, String)>, name: Seq<char>)
    requires
        hooks_once(left),
        v.len() == left.len() + 1,
        v.drop_last() == left,
        v.last().0@ == name,
        forall|j: int| 0 <= j < left.len() ==> (#[trigger] left[j]).0@ != name,
    ensures
        hooks_once(v),
        hook_line(v, name, 0) == Some(v.last().1@),
        forall|other: Seq<char>| other != name ==> #[trigger] hook_line(v, other, 0) == hook_line(left, other, 0),
{
    assert forall|j: int| 0 <= j < left.len() implies #[trigger] v[j] == left[j] by {
        assert(v.drop_last()[j] == v[j]);
    }
    lemma_hook_none(left, name, 0);
    lemma_hook_behind(left, v, name, 0);
    assert forall|other: Seq<char>| other != name implies #[trigger] hook_line(v, other, 0) == hook_line(left, other, 0) by {
        lemma_hook_behind(left, v, other, 0);
    }
}

proof fn lemma_hook_behind(left: Seq<(String, String)>, v: Seq<(String, String)>, name: Seq<char>, i: int)
    requires
        0 <= i <= left.len(),
        v.len() == left.len() + 1,
        forall|j: int| 0 <= j < left.len() ==> #[trigger] v[j] == left[j],
    ensures
        hook_line(v, name, i) == match hook_line(left, name, i) {
            Some(l) => Some(l),
            None => if v.last().0@ == name {
                Some(v.last().1@)
            } else {
                None
            },
        },
    decreases left.len() - i,
{
    if i < left.len() {
        assert(v[i] == left[i]);
        lemma_hook_behind(left, v, name, i + 1);
    } else {
        assert(hook_line(v, name, i + 1) is None);
    }
}

impl Hooks {
    /// The command line a hook runs now, if it does: none runs within
    /// another.
    pub fn fire(&mut self, name: &str) -> (line: Option<String>)
        ensures
            final(self).lines == old(self).lines,
            crate::observe::opt_text(line) == if old(self).running {
                None
            } else {
                hook_line(old(self).lines@, name@, 0)
            },
            final(self).running == (old(self).running || line is Some),
    {
        if self.running {
            return None;
        }
        let mut i: usize = 0;
        while i < self.lines.len()
            invariant
                i <= self.lines@.len(),
                *self == *old(self),
                !self.running,
                hook_line(self.lines@, name@, 0) == hook_line(self.lines@, name@, i as int),
            decreases self.lines.len() - i,
        {
            if same_text(self.lines[i].0.as_str(), name) {
                let line = self.lines[i].1.as_str().to_owned();
                self.running = true;
                return Some(line);
            }
            i = i + 1;
        }
        None
    }

    /// `set-hook`: the line of a hook, or none any more. Only hooks there are
    /// can be set.
    pub fn set(&mut self, name: String, line: Option<String>) -> (out: Outcome)
        requires
            hooks_once(old(self).lines@),
        ensures
            hooks_once(final(self).lines@),
            final(self).running == old(self).running,
            if is_hook(name@) {
                &&& out@ == Ended::Done
                &&& hook_line(final(self).lines@, name@, 0) == crate::observe::opt_text(line)
                &&& forall|other: Seq<char>|
                    other != name@ ==> #[trigger] hook_line(final(self).lines@, other, 0) == hook_line(
                        old(self).lines@,
                        other,
                        0,
                    )
            } else {
                &&& out@ == Ended::Error("unknown hook: "@ + name@ + " (known: "@ + HOOK_NAMES@ + ")"@)
                &&& final(self).lines == old(self).lines
            },
    {
        if !known_hook(name.as_str()) {
            let head = joined3("unknown hook: ", name.as_str(), " (known: ");
            return Outcome::Error(joined3(head.as_str(), HOOK_NAMES, ")"));
        }
        let ghost v = self.lines@;
        let mut k: usize = 0;
        while k < self.lines.len() && !same_text(self.lines[k].0.as_str(), name.as_str())
            invariant
                k <= self.lines@.len(),
                *self == *old(self),
                v == self.lines@,
                forall|j: int| 0 <= j < k ==> (#[trigger] v[j]).0@ != name@,
            decreases self.lines.len() - k,
        {
            k = k + 1;
        }
        if k < self.lines.len() {
            let _ = self.lines.remove(k);
        }
        let ghost left = self.lines@;
        proof {
            lemma_hook_gone(v, left, k as int, name@);
        }
        if let Some(l) = line {
            self.lines.push((name, l));
            proof {
                assert(self.lines@.drop_last() =~= left);
                lemma_hook_added(left, self.lines@, name@);
            }
        }
        Outcome::Done
    }

    /// `show-hooks`: each hook with its line, quoted as commands are written,
    /// in the order of their text.
    pub fn show(&self, quoted: &Vec<String>) -> (out: Outcome)
        requires
            quoted@.len() == self.lines@.len(),
        ensures
            exists|v: Seq<Seq<char>>|
                #![trigger joined_by(v, "\n"@, v.len() as int)]
                in_text_order(v) && v.to_multiset() == hook_lines(self.lines@, texts_of(quoted@)).to_multiset() && out@
                    == Ended::Text(joined_by(v, "\n"@, v.len() as int)),
    {
        let mut lines: Vec<String> = Vec::new();
        let mut i: usize = 0;
        while i < self.lines.len()
            invariant
                i <= self.lines@.len() == quoted@.len(),
                lines@.len() == i,
                forall|j: int| 0 <= j < i ==> (#[trigger] lines@[j])@ == self.lines@[j].0@ + " "@ + quoted@[j]@,
            decreases self.lines.len() - i,
        {
            lines.push(joined3(self.lines[i].0.as_str(), " ", quoted[i].as_str()));
            i = i + 1;
        }
        assert(texts_of(lines@) =~= hook_lines(self.lines@, texts_of(quoted@)));
        let sorted = sort_texts(lines);
        let text = join_texts(&sorted, "\n");
        assert(text@ == joined_by(texts_of(sorted@), "\n"@, texts_of(sorted@).len() as int));
        Outcome::Text(text)
    }

    /// A hook's command has run.
    pub fn done(&mut self)
        ensures
            *final(self) == (Hooks { running: false, ..*old(self) }),
    {
        self.running = false;
    }
}

/// What is said after something was killed that can be brought back.
pub open spec fn undo_text(kept: nat, what: Seq<char>, secs: u64) -> Seq<char> {
    (if kept == 1 {
        what + " killed"@
    } else {
        decimal(kept) + " "@ + what + "s killed"@
    }) + "; undo-kill (prefix u) brings it back within "@ + decimal(secs as nat) + "s"@
}

/// What a client is told after a kill that can be undone.
pub fn say_undo(kept: usize, what: &str, secs: u64) -> (text: Option<String>)
    ensures
        crate::observe::opt_text(text) == if kept == 0 {
            None
        } else {
            Some(undo_text(kept as nat, what@, secs))
        },
{
    if kept == 0 {
        return None;
    }
    let mut t = if kept == 1 {
        joined2(what, " killed")
    } else {
        let mut t = joined3(number_text(kept as u64).as_str(), " ", what);
        t.push_str("s killed");
        t
    };
    t.push_str("; undo-kill (prefix u) brings it back within ");
    push_decimal(&mut t, secs);
    t.push_str("s");
    Some(t)
}

} // verus!
