//! The key tables as commands change and list them.
use vstd::prelude::*;

use crate::bindings::KeyTable;
use crate::command::{Ended, Outcome};
use crate::config::{is_mouse_key, is_mouse_name, without_heads};
use crate::key_flow::KeyTables;
use crate::keys::{named_key, Key};
use crate::text::joined2;

verus! {

/// Which keys a table is about.
#[derive(Clone, Copy, Debug, PartialEq, Eq, Structural)]
pub enum KeySet {
    /// After the prefix.
    Prefix,
    /// Without it.
    Root,
    /// In copy mode.
    Copy,
}

/// The name is one of a mouse event, which no table takes.
pub open spec fn of_mouse(key: Seq<char>) -> bool {
    is_mouse_name(without_heads(without_heads(without_heads(key, "C-"@), "M-"@), "S-"@))
}

/// How `bind-key` and `unbind-key` end for a key of that name.
pub open spec fn key_outcome(key: Seq<char>) -> Ended {
    if named_key(key) is Some || of_mouse(key) {
        Ended::Done
    } else {
        Ended::Error("unknown key: "@ + key)
    }
}

impl KeyTables {
    /// The table of a set.
    pub open spec fn table(self, set: KeySet) -> KeyTable {
        match set {
            KeySet::Prefix => self.prefix,
            KeySet::Root => self.root,
            KeySet::Copy => self.copy,
        }
    }

    /// `bind-key`. The mouse does what it does: a line for one of its events
    /// is taken and changes nothing.
    pub fn bind_key(&mut self, set: KeySet, key: &str, line: String, repeat: bool) -> (out: Outcome)
        requires
            old(self).wf(),
        ensures
            final(self).wf(),
            out@ == key_outcome(key@),
            forall|other: KeySet| other != set ==> #[trigger] final(self).table(other) == old(self).table(other),
            match named_key(key@) {
                Some(k) => final(self).table(set)@ == old(self).table(set)@.insert(k, (line@, repeat)),
                None => *final(self) == *old(self),
            },
    {
        match Key::parse(key) {
            Some(k) => {
                match set {
                    KeySet::Prefix => self.prefix.bind(k, line, repeat),
                    KeySet::Root => self.root.bind(k, line, repeat),
                    KeySet::Copy => self.copy.bind(k, line, repeat),
                }
                Outcome::Done
            },
            None => if is_mouse_key(key) {
                Outcome::Done
            } else {
                Outcome::Error(joined2("unknown key: ", key))
            },
        }
    }

    /// `unbind-key`.
    pub fn unbind_key(&mut self, set: KeySet, key: &str) -> (out: Outcome)
        requires
            old(self).wf(),
        ensures
            final(self).wf(),
            out@ == key_outcome(key@),
            forall|other: KeySet| other != set ==> #[trigger] final(self).table(other) == old(self).table(other),
            match named_key(key@) {
                Some(k) => final(self).table(set)@ == old(self).table(set)@.remove(k),
                None => *final(self) == *old(self),
            },
    {
        match Key::parse(key) {
            Some(k) => {
                match set {
                    KeySet::Prefix => self.prefix.unbind(k),
                    KeySet::Root => self.root.unbind(k),
                    KeySet::Copy => self.copy.unbind(k),
                }
                Outcome::Done
            },
            None => if is_mouse_key(key) {
                Outcome::Done
            } else {
                Outcome::Error(joined2("unknown key: ", key))
            },
        }
    }
}

/// How a table is written in a line of `list-keys`, with the blank behind it.
pub open spec fn set_text(set: KeySet) -> Seq<char> {
    match set {
        KeySet::Prefix => "-T prefix "@,
        KeySet::Root => "-T root   "@,
        KeySet::Copy => "-T copy-mode-vi "@,
    }
}

/// A line of `list-keys`. `key` is the key's name, filled up to its column.
pub fn key_line(set: KeySet, repeat: bool, key: &str, line: &str) -> (out: String)
    ensures
        out@ == "bind-key "@ + (if repeat && !(set is Copy) {
            "-r "@
        } else {
            ""@
        }) + set_text(set) + key@ + " "@ + line@,
{
    let mut out = "bind-key ".to_owned();
    let copy: bool = match set {
        KeySet::Copy => true,
        _ => false,
    };
    out.push_str(if repeat && !copy { "-r " } else { "" });
    out.push_str(
        match set {
            KeySet::Prefix => "-T prefix ",
            KeySet::Root => "-T root   ",
            KeySet::Copy => "-T copy-mode-vi ",
        },
    );
    out.push_str(key);
    out.push_str(" ");
    out.push_str(line);
    out
}

/// What was bound is what the key runs, and unbinding takes it away again.
pub proof fn lemma_bound_then_unbound(t: Map<Key, (Seq<char>, bool)>, k: Key, line: Seq<char>, repeat: bool)
    ensures
        t.insert(k, (line, repeat))[k] == (line, repeat),
        t.insert(k, (line, repeat)).remove(k) == t.remove(k),
{
    assert(t.insert(k, (line, repeat)).remove(k) =~= t.remove(k));
}

} // verus!
