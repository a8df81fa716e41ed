//! Key bindings: tables that say what a key runs.
use vstd::prelude::*;

use crate::keys::{named_key, Key, KeyCode};
use crate::text::{joined2, same_text, texts_of};
use crate::words::{join_words, line_from};

verus! {

/// What a key runs, and whether it keeps running without the prefix for a
/// while afterwards.
#[derive(Debug, PartialEq, Eq)]
pub struct Binding {
    pub key: Key,
    /// The command line.
    pub line: String,
    pub repeat: bool,
}

/// The keys of one table.
#[derive(Debug)]
pub struct KeyTable {
    pub list: Vec<Binding>,
}

/// The bindings of a list, as what each key runs; a later entry counts.
pub open spec fn runs(list: Seq<Binding>, k: int) -> Map<Key, (Seq<char>, bool)>
    decreases k,
{
    if k <= 0 {
        Map::empty()
    } else {
        runs(list, k - 1).insert(list[k - 1].key, (list[k - 1].line@, list[k - 1].repeat))
    }
}

/// A key is in the map when it is in the list.
proof fn lemma_runs(list: Seq<Binding>, k: int)
    requires
        0 <= k <= list.len(),
        forall|i: int, j: int| 0 <= i < j < list.len() ==> (#[trigger] list[i]).key != (#[trigger] list[j]).key,
    ensures
        forall|key: Key| #[trigger]
            runs(list, k).dom().contains(key) <==> exists|i: int| 0 <= i < k && (#[trigger] list[i]).key == key,
        forall|i: int| 0 <= i < k ==> runs(list, k)[(#[trigger] list[i]).key] == (list[i].line@, list[i].repeat),
    decreases k,
{
    if k > 0 {
        lemma_runs(list, k - 1);
        assert forall|key: Key| #[trigger] runs(list, k).dom().contains(key) <==> exists|i: int|
            0 <= i < k && (#[trigger] list[i]).key == key by {
            if runs(list, k).dom().contains(key) {
                if key == list[k - 1].key {
                    assert(list[k - 1].key == key);
                } else {
                    assert(runs(list, k - 1).dom().contains(key));
                    let i = choose|i: int| 0 <= i < k - 1 && (#[trigger] list[i]).key == key;
                    assert(0 <= i < k);
                }
            }
            if exists|i: int| 0 <= i < k && (#[trigger] list[i]).key == key {
                let i = choose|i: int| 0 <= i < k && (#[trigger] list[i]).key == key;
                if i < k - 1 {
                    assert(runs(list, k - 1).dom().contains(key));
                }
            }
        }
        assert forall|i: int| 0 <= i < k implies runs(list, k)[(#[trigger] list[i]).key] == (
            list[i].line@,
            list[i].repeat,
        ) by {
            if i < k - 1 {
                assert(list[i].key != list[k - 1].key);
            }
        }
    }
}

impl View for KeyTable {
    type V = Map<Key, (Seq<char>, bool)>;

    open spec fn view(&self) -> Map<Key, (Seq<char>, bool)> {
        runs(self.list@, self.list@.len() as int)
    }
}

impl KeyTable {
    /// No key is listed twice.
    pub open spec fn wf(self) -> bool {
        forall|i: int, j: int| 0 <= i < j < self.list@.len() ==> (#[trigger] self.list@[i]).key != (
        #[trigger] self.list@[j]).key
    }

    pub fn new() -> (t: KeyTable)
        ensures
            t.wf(),
            t@ == Map::<Key, (Seq<char>, bool)>::empty(),
    {
        KeyTable { list: Vec::new() }
    }

    fn place(&self, key: Key) -> (k: usize)
        ensures
            k <= self.list@.len(),
            k < self.list@.len() ==> self.list@[k as int].key == key,
            forall|i: int| 0 <= i < k ==> (#[trigger] self.list@[i]).key != key,
    {
        let mut i: usize = 0;
        while i < self.list.len()
            invariant
                i <= self.list@.len(),
                forall|j: int| 0 <= j < i ==> (#[trigger] self.list@[j]).key != key,
            decreases self.list.len() - i,
        {
            if self.list[i].key == key {
                return i;
            }
            i = i + 1;
        }
        i
    }

    /// What a key runs.
    pub fn get(&self, key: Key) -> (b: Option<&Binding>)
        requires
            self.wf(),
        ensures
            match b {
                Some(x) => self@.dom().contains(key) && x.key == key && self@[key] == (x.line@, x.repeat),
                None => !self@.dom().contains(key),
            },
    {
        proof {
            lemma_runs(self.list@, self.list@.len() as int);
        }
        let k: usize = self.place(key);
        if k < self.list.len() {
            Some(&self.list[k])
        } else {
            None
        }
    }

    /// `bind-key`: what the key ran before goes.
    pub fn bind(&mut self, key: Key, line: String, repeat: bool)
        requires
            old(self).wf(),
        ensures
            final(self).wf(),
            final(self)@ == old(self)@.insert(key, (line@, repeat)),
    {
        let ghost before = self.list@;
        self.unbind(key);
        let ghost mid = self.list@;
        proof {
            lemma_runs(mid, mid.len() as int);
        }
        self.list.push(Binding { key, line, repeat });
        proof {
            assert(self.list@.drop_last() =~= mid);
            lemma_runs_prefix(self.list@, mid, mid.len() as int);
            assert forall|i: int, j: int| 0 <= i < j < self.list@.len() implies (#[trigger] self.list@[i]).key != (
            #[trigger] self.list@[j]).key by {
                if j == mid.len() {
                    assert(self.list@[i] == mid[i]);
                    assert(runs(mid, mid.len() as int).dom().contains(mid[i].key));
                } else {
                    assert(self.list@[i] == mid[i] && self.list@[j] == mid[j]);
                }
            }
            assert(self@ =~= old(self)@.insert(key, (line@, repeat)));
        }
    }

    /// `unbind-key`.
    pub fn unbind(&mut self, key: Key)
        requires
            old(self).wf(),
        ensures
            final(self).wf(),
            final(self)@ == old(self)@.remove(key),
    {
        let ghost before = self.list@;
        proof {
            lemma_runs(before, before.len() as int);
        }
        let k: usize = self.place(key);
        if k < self.list.len() {
            let _ = self.list.remove(k);
            proof {
                let after = self.list@;
                let up = |i: int|
                    if i < k {
                        i
                    } else {
                        i + 1
                    };
                assert forall|i: int| 0 <= i < after.len() implies #[trigger] after[i] == before[up(i)] by {}
                assert forall|i: int, j: int| 0 <= i < j < after.len() implies (#[trigger] after[i]).key != (
                #[trigger] after[j]).key by {
                    assert(before[up(i)].key != before[up(j)].key);
                }
                lemma_runs(after, after.len() as int);
                let a = runs(before, before.len() as int).remove(key);
                let b = runs(after, after.len() as int);
                assert forall|q: Key| a.dom().contains(q) <==> b.dom().contains(q) by {
                    if a.dom().contains(q) {
                        let i = choose|i: int| 0 <= i < before.len() && (#[trigger] before[i]).key == q;
                        let j = if i < k {
                            i
                        } else {
                            i - 1
                        };
                        assert(after[j].key == q);
                    }
                    if b.dom().contains(q) {
                        let i = choose|i: int| 0 <= i < after.len() && (#[trigger] after[i]).key == q;
                        assert(before[up(i)].key == q);
                        assert(before[k as int].key == key);
                        if q == key {
                            assert(up(i) == k);
                        }
                    }
                }
                assert forall|q: Key| a.dom().contains(q) implies a[q] == b[q] by {
                    let i = choose|i: int| 0 <= i < before.len() && (#[trigger] before[i]).key == q;
                    let j = if i < k {
                        i
                    } else {
                        i - 1
                    };
                    assert(after[j].key == q);
                    assert(after[j] == before[i]);
                }
                assert(a =~= b);
            }
        } else {
            assert(self@ =~= old(self)@.remove(key));
        }
    }
}

proof fn lemma_runs_prefix(a: Seq<Binding>, b: Seq<Binding>, k: int)
    requires
        0 <= k <= a.len(),
        k <= b.len(),
        forall|i: int| 0 <= i < k ==> a[i] == b[i],
    ensures
        runs(a, k) == runs(b, k),
    decreases k,
{
    if k > 0 {
        lemma_runs_prefix(a, b, k - 1);
    }
}

/// The keys of the prefix table that are named, and what each runs.
pub const DEFAULT_LINES: [(&'static str, &'static str); 83] = [
    ("c", "new-window"),
    (",", "command-prompt -p (rename-window) -I \"#W\" \"rename-window -- %%\""),
    ("$", "command-prompt -p (rename-session) -I \"#S\" \"rename-session -- %%\""),
    ("&", "confirm-before -p \"kill-window #W? (y/n)\" kill-window"),
    ("x", "confirm-before -p \"kill-pane #P? (y/n)\" kill-pane"),
    ("d", "detach-client"),
    ("%", "split-window -h"),
    ("\"", "split-window -v"),
    ("o", "select-pane -t next"),
    (";", "select-pane -l"),
    ("Up", "select-pane -U"),
    ("Down", "select-pane -D"),
    ("Left", "select-pane -L"),
    ("Right", "select-pane -R"),
    ("h", "select-pane -L"),
    ("j", "select-pane -D"),
    ("k", "select-pane -U"),
    ("l", "select-pane -R"),
    ("H", "resize-pane -L 5"),
    ("J", "resize-pane -D 5"),
    ("K", "resize-pane -U 5"),
    ("L", "resize-pane -R 5"),
    ("C-Up", "resize-pane -U 1"),
    ("C-Down", "resize-pane -D 1"),
    ("C-Left", "resize-pane -L 1"),
    ("C-Right", "resize-pane -R 1"),
    ("M-Up", "resize-pane -U 5"),
    ("M-Down", "resize-pane -D 5"),
    ("M-Left", "resize-pane -L 5"),
    ("M-Right", "resize-pane -R 5"),
    ("S-Up", "refresh-client -U 5"),
    ("S-Down", "refresh-client -D 5"),
    ("S-Left", "refresh-client -L 10"),
    ("S-Right", "refresh-client -R 10"),
    ("n", "next-window"),
    ("p", "previous-window"),
    ("M-n", "next-window -a"),
    ("M-p", "previous-window -a"),
    ("Tab", "last-window"),
    ("z", "resize-pane -Z"),
    ("[", "copy-mode"),
    ("PPage", "copy-mode -u"),
    ("]", "paste-buffer"),
    (":", "command-prompt"),
    ("?", "list-keys"),
    ("{", "swap-pane -U"),
    ("}", "swap-pane -D"),
    ("!", "break-pane"),
    ("Space", "select-layout -n"),
    ("E", "select-layout -E"),
    ("q", "display-panes"),
    ("r", "refresh-client"),
    ("~", "show-messages"),
    ("#", "list-buffers"),
    ("f", "command-prompt -p (find-window) \"find-window -- %%\""),
    ("m", "select-pane -m"),
    ("M", "select-pane -M"),
    ("T", "command-prompt -p (pane-title) -I \"#T\" \"select-pane -T -- %%\""),
    ("'", "command-prompt -p (index) \"select-window -t :%%\""),
    (".", "command-prompt -p (move-window-to) \"move-window -t %%\""),
    ("-", "delete-buffer"),
    ("=", "choose-buffer"),
    ("t", "clock-mode"),
    ("C-o", "rotate-window"),
    ("M-o", "rotate-window -D"),
    ("M-1", "select-layout even-horizontal"),
    ("M-2", "select-layout even-vertical"),
    ("M-3", "select-layout main-horizontal"),
    ("M-4", "select-layout main-vertical"),
    ("M-5", "select-layout tiled"),
    ("(", "switch-client -p"),
    (")", "switch-client -n"),
    ("w", "choose-tree -Zw"),
    ("s", "choose-tree -Zs"),
    ("D", "choose-client"),
    ("B", "choose-jobs"),
    ("/", "choose-history"),
    ("u", "undo-kill"),
    ("i", "display-message \"#S:#W.#P #T\""),
    ("C-s", "save-session"),
    ("C-r", "restore-session"),
    ("S", "set-option -w synchronize-panes"),
    ("C-t", "set-option -g pane-timestamps"),
];

/// The menu of a pane: each entry's name, its key and what it runs; an entry
/// without a name parts groups.
pub const PANE_MENU: [(&'static str, &'static str, &'static str); 10] = [
    ("Split horizontally", "h", "split-window -h"),
    ("Split vertically", "v", "split-window -v"),
    ("", "", ""),
    ("Swap up", "u", "swap-pane -U"),
    ("Swap down", "d", "swap-pane -D"),
    ("Break out", "b", "break-pane"),
    ("", "", ""),
    ("Zoom", "z", "resize-pane -Z"),
    ("Respawn", "r", "respawn-pane -k"),
    ("Kill", "x", "kill-pane"),
];

/// The menu of a window.
pub const WINDOW_MENU: [(&'static str, &'static str, &'static str); 7] = [
    ("New window", "c", "new-window"),
    ("Rename", "r", "command-prompt -p (rename-window) -I \"#W\" \"rename-window -- %%\""),
    ("", "", ""),
    ("Previous", "p", "previous-window"),
    ("Next", "n", "next-window"),
    ("", "", ""),
    ("Kill", "x", "kill-window"),
];

/// An entry of a menu.
pub type MenuEntry = (&'static str, &'static str, &'static str);

/// The words of an entry in the line that opens its menu.
pub open spec fn entry_words(e: MenuEntry) -> Seq<Seq<char>> {
    if e.0@.len() == 0 {
        seq![e.0@]
    } else {
        seq![e.0@, e.1@, e.2@]
    }
}

/// The words of the line that opens a menu of the first `k` entries.
pub open spec fn menu_words(title: Seq<char>, entries: Seq<MenuEntry>, k: int) -> Seq<Seq<char>>
    decreases k,
{
    if k <= 0 {
        seq!["display-menu"@, "-T"@, title]
    } else {
        menu_words(title, entries, k - 1) + entry_words(entries[k - 1])
    }
}

/// The line that opens a menu.
pub open spec fn menu_text(title: Seq<char>, entries: Seq<MenuEntry>) -> Seq<char> {
    line_from(menu_words(title, entries, entries.len() as int), 0)
}

fn menu_line<const N: usize>(title: &str, entries: &[MenuEntry; N]) -> (line: String)
    ensures
        line@ == menu_text(title@, entries@),
{
    let mut words: Vec<String> = Vec::new();
    words.push("display-menu".to_owned());
    words.push("-T".to_owned());
    words.push(title.to_owned());
    assert(texts_of(words@) =~= menu_words(title@, entries@, 0));
    let mut i: usize = 0;
    while i < N
        invariant
            i <= N,
            entries@.len() == N,
            texts_of(words@) == menu_words(title@, entries@, i as int),
        decreases N - i,
    {
        let (name, key, line) = entries[i];
        let ghost before = texts_of(words@);
        words.push(name.to_owned());
        if !name.is_empty() {
            words.push(key.to_owned());
            words.push(line.to_owned());
        }
        assert(texts_of(words@) =~= before + entry_words(entries@[i as int]));
        i = i + 1;
    }
    join_words(&words)
}

/// Keys that keep working without the prefix for a while: moving between
/// panes, resizing them and walking the window list, the things one presses
/// several times in a row.
pub const REPEATABLE: [&'static str; 29] = [
    "h",
    "j",
    "k",
    "l",
    "H",
    "J",
    "K",
    "L",
    "Up",
    "Down",
    "Left",
    "Right",
    "C-Up",
    "C-Down",
    "C-Left",
    "C-Right",
    "M-Up",
    "M-Down",
    "M-Left",
    "M-Right",
    "S-Up",
    "S-Down",
    "S-Left",
    "S-Right",
    "n",
    "p",
    "o",
    "{",
    "}",
];

/// The key's name is one of those that repeat.
pub open spec fn is_repeatable(name: Seq<char>, k: int) -> bool
    decreases k,
{
    k > 0 && (REPEATABLE@[k - 1]@ == name || is_repeatable(name, k - 1))
}

/// The first `k` default lines, bound.
pub open spec fn default_runs(k: int) -> Map<Key, (Seq<char>, bool)>
    decreases k,
{
    if k <= 0 {
        Map::empty()
    } else {
        match named_key(DEFAULT_LINES@[k - 1].0@) {
            Some(key) => default_runs(k - 1).insert(
                key,
                (DEFAULT_LINES@[k - 1].1@, is_repeatable(DEFAULT_LINES@[k - 1].0@, REPEATABLE@.len() as int)),
            ),
            None => default_runs(k - 1),
        }
    }
}

/// The two menus bound as well.
pub open spec fn with_menus(m: Map<Key, (Seq<char>, bool)>) -> Map<Key, (Seq<char>, bool)> {
    m.insert(Key::bare(KeyCode::Char('>')), (menu_text("pane #P"@, PANE_MENU@), false)).insert(
        Key::bare(KeyCode::Char('<')),
        (menu_text("window #W"@, WINDOW_MENU@), false),
    )
}

/// What the prefix table of a new server runs.
pub open spec fn all_defaults() -> Map<Key, (Seq<char>, bool)> {
    with_digits(with_menus(default_runs(DEFAULT_LINES@.len() as int)), 10)
}

/// The first `d` digits bound as well, each to the window of that number.
pub open spec fn with_digits(m: Map<Key, (Seq<char>, bool)>, d: int) -> Map<Key, (Seq<char>, bool)>
    decreases d,
{
    if d <= 0 {
        m
    } else {
        with_digits(m, d - 1).insert(
            Key::bare(KeyCode::Char(crate::text::digit_char((d - 1) as nat))),
            ("select-window -t :"@ + crate::text::decimal((d - 1) as nat), false),
        )
    }
}

fn repeats(name: &str) -> (b: bool)
    ensures
        b == is_repeatable(name@, REPEATABLE@.len() as int),
{
    let mut i: usize = 0;
    while i < REPEATABLE.len()
        invariant
            i <= REPEATABLE@.len(),
            !is_repeatable(name@, i as int),
        decreases REPEATABLE@.len() - i,
    {
        if same_text(name, REPEATABLE[i]) {
            assert(is_repeatable(name@, i + 1));
            proof {
                lemma_repeatable_on(name@, i + 1, REPEATABLE@.len() as int);
            }
            return true;
        }
        i = i + 1;
    }
    false
}

proof fn lemma_repeatable_on(name: Seq<char>, i: int, k: int)
    requires
        0 <= i <= k,
        is_repeatable(name, i),
    ensures
        is_repeatable(name, k),
    decreases k - i,
{
    if i < k {
        assert(is_repeatable(name, i + 1));
        lemma_repeatable_on(name, i + 1, k);
    }
}

/// The prefix table a server starts with.
pub fn default_bindings() -> (t: KeyTable)
    ensures
        t.wf(),
        t@ == all_defaults(),
{
    let mut t = KeyTable::new();
    let mut i: usize = 0;
    while i < DEFAULT_LINES.len()
        invariant
            i <= DEFAULT_LINES@.len(),
            t.wf(),
            t@ == default_runs(i as int),
        decreases DEFAULT_LINES@.len() - i,
    {
        let (name, line) = DEFAULT_LINES[i];
        if let Some(key) = Key::parse(name) {
            t.bind(key, line.to_owned(), repeats(name));
        }
        i = i + 1;
    }
    t.bind(Key::ch('>'), menu_line("pane #P", &PANE_MENU), false);
    t.bind(Key::ch('<'), menu_line("window #W", &WINDOW_MENU), false);
    let ghost lines = t@;
    let mut d: u64 = 0;
    while d < 10
        invariant
            d <= 10,
            t.wf(),
            t@ == with_digits(lines, d as int),
        decreases 10 - d,
    {
        let line = joined2("select-window -t :", crate::text::number_text(d).as_str());
        t.bind(Key::ch(crate::text::digit_of(d)), line, false);
        d = d + 1;
    }
    t
}

} // verus!
