//! The lines of the event log that are about messages, and what they say when
//! they are read again.
use vstd::prelude::*;

use crate::actor::{
    envelope_text, mode_name, sender_fields, text_field, End, Mail, MsgId, Origin, ENVELOPE_VERSION,
};
use crate::json::{
    entries_text, entry_named, entry_text, json_string, leaf_named, leaf_text, leaves_once, leaves_text,
    lemma_entry_added, lemma_json_plain, lemma_leaf_added, names_once, object_text, plain_path, pointer_text, Entry, Leaf,
};
use crate::observe::{end_stage, ended_fields, event_line, flag_text, id_field, sent_fields, stage_name};
use crate::replay::{address_pane, Happening};
use crate::text::decimal;
use crate::time::{in_years, rfc3339_text, Time};

verus! {

/// What a store writes of a message.
pub ghost enum Written {
    Sent { m: Mail, why: Option<Seq<char>> },
    Delivered { id: MsgId, at: Time },
    Read { id: MsgId, at: Time },
    Restored { id: MsgId, by: Seq<char>, at: Time },
    Dropped { id: MsgId, reason: Seq<char>, at: Time },
    Ended { id: MsgId, end: End, ok: Option<bool>, out: Option<(Seq<char>, bool)>, at: Time },
}

impl Written {
    /// When it happened.
    pub open spec fn at(self) -> Time {
        match self {
            Written::Sent { m, .. } => m.at,
            Written::Delivered { at, .. } => at,
            Written::Read { at, .. } => at,
            Written::Restored { at, .. } => at,
            Written::Dropped { at, .. } => at,
            Written::Ended { at, .. } => at,
        }
    }

    /// The word for it.
    pub open spec fn word(self) -> Seq<char> {
        match self {
            Written::Sent { why, .. } => if why is Some {
                "rejected"@
            } else {
                "sent"@
            },
            Written::Delivered { .. } => "delivered"@,
            Written::Read { .. } => "read"@,
            Written::Restored { .. } => "restored"@,
            Written::Dropped { .. } => "dropped"@,
            Written::Ended { end, ok, .. } => stage_name(end_stage(end, ok)),
        }
    }

    /// The line that is written.
    pub open spec fn line(self) -> Seq<char> {
        event_line(
            self.at(),
            self.word(),
            match self {
                Written::Sent { m, why } => sent_fields(m, why),
                Written::Delivered { id, .. } => id_field(id),
                Written::Read { id, .. } => id_field(id),
                Written::Restored { id, by, .. } => id_field(id) + ",\"by\":"@ + json_string(by),
                Written::Dropped { id, reason, .. } => id_field(id) + ",\"why\":"@ + json_string(reason),
                Written::Ended { id, ok, out, .. } => ended_fields(id, ok, out),
            },
        )
    }

    /// It can be read back: the moment is one that is written in full, and the
    /// address of a pane that sent it names the pane.
    pub open spec fn readable(self) -> bool {
        &&& in_years(self.at())
        &&& match self {
            Written::Sent { m, .. } => match m.from {
                Origin::Pane { id, address, .. } => address_pane(address) == id && address != "user"@,
                Origin::User => true,
            },
            _ => true,
        }
    }

    /// What it says when it is read.
    pub open spec fn happening(self) -> Happening {
        Happening {
            at: self.at(),
            ev: self.word(),
            id: match self {
                Written::Sent { .. } => None,
                Written::Delivered { id, .. } => Some(id),
                Written::Read { id, .. } => Some(id),
                Written::Restored { id, .. } => Some(id),
                Written::Dropped { id, .. } => Some(id),
                Written::Ended { id, .. } => Some(id),
            },
            msg: self.mail(),
            ok: match self {
                Written::Ended { ok, .. } => ok,
                _ => None,
            },
            output: match self {
                Written::Ended { out: Some((text, _)), .. } => Some(text),
                _ => None,
            },
            cut: match self {
                Written::Ended { out: Some((_, cut)), .. } => cut,
                _ => false,
            },
            why: match self {
                Written::Sent { why, .. } => why,
                Written::Dropped { reason, .. } => Some(reason),
                _ => None,
            },
        }
    }

    /// The message it holds.
    pub open spec fn mail(self) -> Option<Mail> {
        match self {
            Written::Sent { m, .. } => Some(m),
            _ => None,
        }
    }
}

/// The name of a member that is not the first, as it is written.
pub open spec fn key_text(name: Seq<char>) -> Seq<char> {
    seq![',', '"'] + name + seq!['"', ':']
}

/// A name that stands in quotes as it is.
pub open spec fn bare(name: Seq<char>) -> bool {
    forall|i: int| 0 <= i < name.len() ==> name[i] != '"' && name[i] != '\\' && #[trigger] name[i] >= ' '
}

proof fn lemma_quoted(name: Seq<char>)
    requires
        bare(name),
    ensures
        json_string(name) == seq!['"'] + name + seq!['"'],
        ","@ + json_string(name) + ":"@ == key_text(name),
{
    lemma_json_plain(name);
    reveal_strlit(",");
    reveal_strlit(":");
    assert(","@ + json_string(name) + ":"@ =~= key_text(name));
}

/// An object of leaves as far as its last member.
pub open spec fn leaves_open(ms: Seq<(Seq<char>, Leaf)>) -> Seq<char> {
    "{"@ + leaves_text(ms, ms.len() as int)
}

/// An object as far as its last member.
pub open spec fn entries_open(es: Seq<(Seq<char>, Entry)>) -> Seq<char> {
    "{"@ + entries_text(es, es.len() as int)
}

proof fn lemma_regroup(a: Seq<char>, b: Seq<char>, c: Seq<char>)
    ensures
        a + (b + c) == a + b + c,
{
    assert(a + (b + c) =~= a + b + c);
}

/// A member behind others.
proof fn lemma_field(es: Seq<(Seq<char>, Entry)>, name: Seq<char>, e: Entry) -> (all: Seq<(Seq<char>, Entry)>)
    requires
        names_once(es),
        es.len() > 0,
        bare(name),
        entry_named(es, name, 0) is None,
        match e {
            Entry::Object(ms) => leaves_once(ms),
            Entry::Leaf(_) => true,
        },
    ensures
        all == es.push((name, e)),
        all.len() > 0,
        names_once(all),
        entries_open(all) == entries_open(es) + key_text(name) + entry_text(e),
        forall|q: Seq<char>| #[trigger]
            entry_named(all, q, 0) == match entry_named(es, q, 0) {
                Some(x) => Some(x),
                None => if q == name {
                    Some(e)
                } else {
                    None
                },
            },
{
    lemma_entry_added(es, name, e);
    lemma_quoted(name);
    let head = entries_text(es, es.len() as int);
    let js = json_string(name);
    assert(head + ","@ + js + ":"@ + entry_text(e) =~= head + (","@ + js + ":"@) + entry_text(e));
    assert("{"@ + (head + key_text(name) + entry_text(e)) =~= "{"@ + head + key_text(name) + entry_text(e));
    es.push((name, e))
}

/// A leaf behind others.
proof fn lemma_leaf_field(ms: Seq<(Seq<char>, Leaf)>, name: Seq<char>, l: Leaf) -> (all: Seq<(Seq<char>, Leaf)>)
    requires
        leaves_once(ms),
        ms.len() > 0,
        bare(name),
        leaf_named(ms, name, 0) is None,
    ensures
        all == ms.push((name, l)),
        all.len() > 0,
        leaves_once(all),
        leaves_open(all) == leaves_open(ms) + key_text(name) + leaf_text(l),
        forall|q: Seq<char>| #[trigger]
            leaf_named(all, q, 0) == match leaf_named(ms, q, 0) {
                Some(x) => Some(x),
                None => if q == name {
                    Some(l)
                } else {
                    None
                },
            },
{
    lemma_leaf_added(ms, name, l);
    lemma_quoted(name);
    let head = leaves_text(ms, ms.len() as int);
    let js = json_string(name);
    assert(head + ","@ + js + ":"@ + leaf_text(l) =~= head + (","@ + js + ":"@) + leaf_text(l));
    assert("{"@ + (head + key_text(name) + leaf_text(l)) =~= "{"@ + head + key_text(name) + leaf_text(l));
    ms.push((name, l))
}

/// The first member of an envelope.
proof fn lemma_version() -> (ms: Seq<(Seq<char>, Leaf)>)
    ensures
        ms.len() > 0,
        leaves_once(ms),
        leaves_open(ms) == "{\"keepane\":"@ + decimal(ENVELOPE_VERSION as nat),
        forall|q: Seq<char>| #[trigger] leaf_named(ms, q, 0) == if q == "keepane"@ {
            Some(Leaf::Number(ENVELOPE_VERSION as u64))
        } else {
            None
        },
{
    let none = Seq::<(Seq<char>, Leaf)>::empty();
    let version = Leaf::Number(ENVELOPE_VERSION as u64);
    reveal_strlit("keepane");
    reveal_strlit("{\"keepane\":");
    reveal_strlit("{");
    reveal_strlit("");
    reveal_strlit(":");
    assert("keepane"@ =~= seq!['k', 'e', 'e', 'p', 'a', 'n', 'e']);
    lemma_leaf_added(none, "keepane"@, version);
    lemma_quoted("keepane"@);
    let all = none.push(("keepane"@, version));
    assert(leaves_text(none, 0) =~= Seq::empty());
    let js = json_string("keepane"@);
    assert("{"@ + (Seq::<char>::empty() + ""@ + js + ":"@ + leaf_text(version)) =~= "{"@ + js + ":"@ + leaf_text(version));
    assert("{"@ + js + ":"@ =~= "{\"keepane\":"@);
    assert forall|q: Seq<char>| #[trigger] leaf_named(all, q, 0) == if q == "keepane"@ {
        Some(version)
    } else {
        None
    } by {
        assert(leaf_named(none, q, 0) is None);
    }
    all
}

/// The members every event begins with.
proof fn lemma_begin(at: Time, ev: Seq<char>) -> (es: Seq<(Seq<char>, Entry)>)
    requires
        bare(ev),
    ensures
        es.len() > 0,
        names_once(es),
        entries_open(es) == "{\"at\":"@ + json_string(rfc3339_text(at.ms, at.offset)) + ",\"ev\":\""@ + ev + "\""@,
        forall|q: Seq<char>| #[trigger] entry_named(es, q, 0) == if q == "at"@ {
            Some(Entry::Leaf(Leaf::Text(rfc3339_text(at.ms, at.offset))))
        } else if q == "ev"@ {
            Some(Entry::Leaf(Leaf::Text(ev)))
        } else {
            None
        },
{
    lemma_event_names();
    let none = Seq::<(Seq<char>, Entry)>::empty();
    let when = Entry::Leaf(Leaf::Text(rfc3339_text(at.ms, at.offset)));
    reveal_strlit("{\"at\":");
    reveal_strlit("{");
    reveal_strlit("");
    reveal_strlit(":");
    reveal_strlit("at");
    lemma_entry_added(none, "at"@, when);
    lemma_quoted("at"@);
    let one = none.push(("at"@, when));
    assert(entries_text(none, 0) =~= Seq::empty());
    let js = json_string("at"@);
    let t = json_string(rfc3339_text(at.ms, at.offset));
    assert("{"@ + (Seq::<char>::empty() + ""@ + js + ":"@ + t) =~= "{"@ + js + ":"@ + t);
    assert("{"@ + js + ":"@ =~= "{\"at\":"@);
    assert forall|q: Seq<char>| #[trigger] entry_named(one, q, 0) == if q == "at"@ {
        Some(when)
    } else {
        None
    } by {
        assert(entry_named(none, q, 0) is None);
    }
    let all = lemma_field(one, "ev"@, Entry::Leaf(Leaf::Text(ev)));
    lemma_quoted(ev);
    reveal_strlit(",\"ev\":\"");
    reveal_strlit("\"");
    reveal_strlit("ev");
    let head = "{\"at\":"@ + t;
    assert(key_text("ev"@) + json_string(ev) =~= ",\"ev\":\""@ + ev + "\""@);
    lemma_regroup(head, key_text("ev"@), json_string(ev));
    assert(head + (",\"ev\":\""@ + ev + "\""@) =~= head + ",\"ev\":\""@ + ev + "\""@);
    all
}

/// The names of an event's members.
proof fn lemma_event_names()
    ensures
        "at"@.len() == 2 && "at"@[0] == 'a' && bare("at"@),
        "ev"@.len() == 2 && "ev"@[0] == 'e' && bare("ev"@),
        "id"@.len() == 2 && "id"@[0] == 'i' && bare("id"@),
        "ok"@.len() == 2 && "ok"@[0] == 'o' && bare("ok"@),
        "by"@.len() == 2 && "by"@[0] == 'b' && bare("by"@),
        "msg"@.len() == 3 && "msg"@[0] == 'm' && bare("msg"@),
        "why"@.len() == 3 && "why"@[0] == 'w' && bare("why"@),
        "cut"@.len() == 3 && "cut"@[0] == 'c' && bare("cut"@),
        "text"@.len() == 4 && bare("text"@),
        "output"@.len() == 6 && bare("output"@),
        ",\"id\":"@ == key_text("id"@),
        ",\"ok\":"@ == key_text("ok"@),
        ",\"by\":"@ == key_text("by"@),
        ",\"msg\":"@ == key_text("msg"@),
        ",\"why\":"@ == key_text("why"@),
        ",\"cut\":"@ == key_text("cut"@),
        ",\"text\":"@ == key_text("text"@),
        ",\"output\":"@ == key_text("output"@),
{
    reveal_strlit("at");
    reveal_strlit("ev");
    reveal_strlit("id");
    reveal_strlit("ok");
    reveal_strlit("by");
    reveal_strlit("msg");
    reveal_strlit("why");
    reveal_strlit("cut");
    reveal_strlit("text");
    reveal_strlit("output");
    reveal_strlit(",\"id\":");
    reveal_strlit(",\"ok\":");
    reveal_strlit(",\"by\":");
    reveal_strlit(",\"msg\":");
    reveal_strlit(",\"why\":");
    reveal_strlit(",\"cut\":");
    reveal_strlit(",\"text\":");
    reveal_strlit(",\"output\":");
    assert("at"@ =~= seq!['a', 't']);
    assert("ev"@ =~= seq!['e', 'v']);
    assert("id"@ =~= seq!['i', 'd']);
    assert("ok"@ =~= seq!['o', 'k']);
    assert("by"@ =~= seq!['b', 'y']);
    assert("msg"@ =~= seq!['m', 's', 'g']);
    assert("why"@ =~= seq!['w', 'h', 'y']);
    assert("cut"@ =~= seq!['c', 'u', 't']);
    assert("text"@ =~= seq!['t', 'e', 'x', 't']);
    assert("output"@ =~= seq!['o', 'u', 't', 'p', 'u', 't']);
    assert(",\"id\":"@ =~= key_text("id"@));
    assert(",\"ok\":"@ =~= key_text("ok"@));
    assert(",\"by\":"@ =~= key_text("by"@));
    assert(",\"msg\":"@ =~= key_text("msg"@));
    assert(",\"why\":"@ =~= key_text("why"@));
    assert(",\"cut\":"@ =~= key_text("cut"@));
    assert(",\"text\":"@ =~= key_text("text"@));
    assert(",\"output\":"@ =~= key_text("output"@));
}

/// The names of an envelope's members.
proof fn lemma_envelope_names()
    ensures
        "keepane"@.len() == 7 && bare("keepane"@),
        "id"@.len() == 2 && "id"@[0] == 'i' && bare("id"@),
        "to"@.len() == 2 && "to"@[0] == 't' && bare("to"@),
        "re"@.len() == 2 && "re"@[0] == 'r' && bare("re"@),
        "via"@.len() == 3 && "via"@[0] == 'v' && bare("via"@),
        "hop"@.len() == 3 && "hop"@[0] == 'h' && bare("hop"@),
        "task"@.len() == 4 && "task"@[0] == 't' && bare("task"@),
        "from"@.len() == 4 && "from"@[0] == 'f' && bare("from"@),
        "name"@.len() == 4 && "name"@[0] == 'n' && bare("name"@),
        "mode"@.len() == 4 && "mode"@[0] == 'm' && bare("mode"@),
        ",\"id\":"@ == key_text("id"@),
        ",\"task\":"@ == key_text("task"@),
        ",\"hop\":"@ == key_text("hop"@),
        ",\"re\":"@ == key_text("re"@),
        forall|k: Seq<char>, v: Seq<char>| #[trigger] text_field(k, v) == key_text(k) + json_string(v),
{
    reveal_strlit("keepane");
    reveal_strlit("id");
    reveal_strlit("to");
    reveal_strlit("re");
    reveal_strlit("via");
    reveal_strlit("hop");
    reveal_strlit("task");
    reveal_strlit("from");
    reveal_strlit("name");
    reveal_strlit("mode");
    reveal_strlit(",\"id\":");
    reveal_strlit(",\"task\":");
    reveal_strlit(",\"hop\":");
    reveal_strlit(",\"re\":");
    reveal_strlit(",\"");
    reveal_strlit("\":");
    assert("keepane"@ =~= seq!['k', 'e', 'e', 'p', 'a', 'n', 'e']);
    assert("id"@ =~= seq!['i', 'd']);
    assert("to"@ =~= seq!['t', 'o']);
    assert("re"@ =~= seq!['r', 'e']);
    assert("via"@ =~= seq!['v', 'i', 'a']);
    assert("hop"@ =~= seq!['h', 'o', 'p']);
    assert("task"@ =~= seq!['t', 'a', 's', 'k']);
    assert("from"@ =~= seq!['f', 'r', 'o', 'm']);
    assert("name"@ =~= seq!['n', 'a', 'm', 'e']);
    assert("mode"@ =~= seq!['m', 'o', 'd', 'e']);
    assert(",\"id\":"@ =~= key_text("id"@));
    assert(",\"task\":"@ =~= key_text("task"@));
    assert(",\"hop\":"@ =~= key_text("hop"@));
    assert(",\"re\":"@ =~= key_text("re"@));
    assert forall|k: Seq<char>, v: Seq<char>| #[trigger] text_field(k, v) == key_text(k) + json_string(v) by {
        assert(text_field(k, v) =~= key_text(k) + json_string(v));
    }
}

/// The leaf an optional value is, if it is there.
pub open spec fn opt_leaf(l: Option<Seq<char>>) -> Option<Leaf> {
    match l {
        Some(s) => Some(Leaf::Text(s)),
        None => None,
    }
}

/// The members of an envelope: it is written as they are.
#[verifier::spinoff_prover]
proof fn lemma_envelope(m: Mail) -> (ms: Seq<(Seq<char>, Leaf)>)
    ensures
        leaves_once(ms),
        envelope_text(m) == entry_text(Entry::Object(ms)),
        leaf_named(ms, "id"@, 0) == Some(Leaf::Number(m.id)),
        leaf_named(ms, "task"@, 0) == Some(Leaf::Number(m.task)),
        leaf_named(ms, "to"@, 0) == Some(Leaf::Text(m.to)),
        leaf_named(ms, "via"@, 0) == Some(Leaf::Text(mode_name(m.via))),
        leaf_named(ms, "hop"@, 0) == Some(Leaf::Number(m.hop as u64)),
        leaf_named(ms, "re"@, 0) == match m.re {
            Some(re) => Some(Leaf::Number(re)),
            None => None,
        },
        match m.from {
            Origin::User => leaf_named(ms, "from"@, 0) == Some(Leaf::Text("user"@)),
            Origin::Pane { address, name, mode, .. } => {
                &&& leaf_named(ms, "from"@, 0) == Some(Leaf::Text(address))
                &&& leaf_named(ms, "name"@, 0) == opt_leaf(name)
                &&& leaf_named(ms, "mode"@, 0) == Some(Leaf::Text(mode_name(mode)))
            },
        },
{
    lemma_envelope_names();
    let a0 = lemma_version();
    let a1 = lemma_leaf_field(a0, "id"@, Leaf::Number(m.id));
    let a2 = lemma_leaf_field(a1, "task"@, Leaf::Number(m.task));
    let a3 = lemma_sender(a2, m.from);
    let a4 = lemma_leaf_field(a3, "to"@, Leaf::Text(m.to));
    lemma_regroup(leaves_open(a3), key_text("to"@), json_string(m.to));
    let a5 = lemma_leaf_field(a4, "via"@, Leaf::Text(mode_name(m.via)));
    lemma_regroup(leaves_open(a4), key_text("via"@), json_string(mode_name(m.via)));
    let a6 = lemma_leaf_field(a5, "hop"@, Leaf::Number(m.hop as u64));
    let a7 = match m.re {
        Some(re) => {
            lemma_regroup(leaves_open(a6), key_text("re"@), decimal(re as nat));
            lemma_leaf_field(a6, "re"@, Leaf::Number(re))
        },
        None => {
            assert(leaves_open(a6) + Seq::<char>::empty() =~= leaves_open(a6));
            a6
        },
    };
    assert(leaves_open(a7) + "}"@ == envelope_text(m));
    a7
}

/// The members of an envelope about its sender.
proof fn lemma_sender(ms: Seq<(Seq<char>, Leaf)>, from: Origin) -> (all: Seq<(Seq<char>, Leaf)>)
    requires
        ms.len() > 0,
        leaves_once(ms),
        leaf_named(ms, "from"@, 0) is None,
        leaf_named(ms, "name"@, 0) is None,
        leaf_named(ms, "mode"@, 0) is None,
    ensures
        all.len() > 0,
        leaves_once(all),
        leaves_open(all) == leaves_open(ms) + sender_fields(from),
        forall|q: Seq<char>|
            q != "from"@ && q != "name"@ && q != "mode"@ ==> #[trigger] leaf_named(all, q, 0) == leaf_named(ms, q, 0),
        match from {
            Origin::User => leaf_named(all, "from"@, 0) == Some(Leaf::Text("user"@)),
            Origin::Pane { address, name, mode, .. } => {
                &&& leaf_named(all, "from"@, 0) == Some(Leaf::Text(address))
                &&& leaf_named(all, "name"@, 0) == opt_leaf(name)
                &&& leaf_named(all, "mode"@, 0) == Some(Leaf::Text(mode_name(mode)))
            },
        },
{
    lemma_envelope_names();
    let base = leaves_open(ms);
    match from {
        Origin::User => {
            lemma_regroup(base, key_text("from"@), json_string("user"@));
            lemma_leaf_field(ms, "from"@, Leaf::Text("user"@))
        },
        Origin::Pane { address, name, mode, .. } => {
            let f = text_field("from"@, address);
            let k = text_field("mode"@, mode_name(mode));
            let n = match name {
                Some(n) => text_field("name"@, n),
                None => Seq::empty(),
            };
            let x = lemma_leaf_field(ms, "from"@, Leaf::Text(address));
            lemma_regroup(base, key_text("from"@), json_string(address));
            let y = match name {
                Some(s) => {
                    lemma_regroup(leaves_open(x), key_text("name"@), json_string(s));
                    lemma_leaf_field(x, "name"@, Leaf::Text(s))
                },
                None => {
                    assert(leaves_open(x) + n =~= leaves_open(x));
                    x
                },
            };
            let z = lemma_leaf_field(y, "mode"@, Leaf::Text(mode_name(mode)));
            lemma_regroup(leaves_open(y), key_text("mode"@), json_string(mode_name(mode)));
            assert(base + f + n + k =~= base + (f + n + k));
            z
        },
    }
}

/// The words of events stand in quotes as they are.
proof fn lemma_word(w: Written)
    ensures
        bare(w.word()),
{
    reveal_strlit("sent");
    reveal_strlit("rejected");
    reveal_strlit("delivered");
    reveal_strlit("read");
    reveal_strlit("restored");
    reveal_strlit("dropped");
    reveal_strlit("done");
    reveal_strlit("failed");
    reveal_strlit("abandoned");
    assert("sent"@ =~= seq!['s', 'e', 'n', 't']);
    assert("rejected"@ =~= seq!['r', 'e', 'j', 'e', 'c', 't', 'e', 'd']);
    assert("delivered"@ =~= seq!['d', 'e', 'l', 'i', 'v', 'e', 'r', 'e', 'd']);
    assert("read"@ =~= seq!['r', 'e', 'a', 'd']);
    assert("restored"@ =~= seq!['r', 'e', 's', 't', 'o', 'r', 'e', 'd']);
    assert("dropped"@ =~= seq!['d', 'r', 'o', 'p', 'p', 'e', 'd']);
    assert("done"@ =~= seq!['d', 'o', 'n', 'e']);
    assert("failed"@ =~= seq!['f', 'a', 'i', 'l', 'e', 'd']);
    assert("abandoned"@ =~= seq!['a', 'b', 'a', 'n', 'd', 'o', 'n', 'e', 'd']);
}

/// The member of a text, if there is one.
pub open spec fn text_entry(s: Option<Seq<char>>) -> Option<Entry> {
    match s {
        Some(s) => Some(Entry::Leaf(Leaf::Text(s))),
        None => None,
    }
}

/// The member of a truth value, if there is one.
pub open spec fn flag_entry(b: Option<bool>) -> Option<Entry> {
    match b {
        Some(b) => Some(Entry::Leaf(Leaf::Flag(b))),
        None => None,
    }
}

/// The members of an object are those of what was written, but for its
/// message.
pub open spec fn holds_event(es: Seq<(Seq<char>, Entry)>, w: Written) -> bool {
    let h = w.happening();
    &&& entry_named(es, "at"@, 0) == text_entry(Some(rfc3339_text(w.at().ms, w.at().offset)))
    &&& entry_named(es, "ev"@, 0) == text_entry(Some(w.word()))
    &&& entry_named(es, "id"@, 0) == match h.id {
        Some(id) => Some(Entry::Leaf(Leaf::Number(id))),
        None => None,
    }
    &&& entry_named(es, "ok"@, 0) == flag_entry(h.ok)
    &&& entry_named(es, "output"@, 0) == text_entry(h.output)
    &&& entry_named(es, "cut"@, 0) == match h.output {
        Some(_) => flag_entry(Some(h.cut)),
        None => None,
    }
    &&& entry_named(es, "why"@, 0) == text_entry(h.why)
    &&& entry_named(es, "text"@, 0) == match h.msg {
        Some(m) => text_entry(Some(m.text)),
        None => None,
    }
}

/// The members of a message's envelope are those of the message.
pub open spec fn holds_mail(es: Seq<(Seq<char>, Entry)>, w: Written) -> bool {
    match (entry_named(es, "msg"@, 0), w.mail()) {
        (Some(Entry::Object(ms)), Some(m)) => {
            &&& leaf_named(ms, "id"@, 0) == Some(Leaf::Number(m.id))
            &&& leaf_named(ms, "task"@, 0) == Some(Leaf::Number(m.task))
            &&& leaf_named(ms, "to"@, 0) == Some(Leaf::Text(m.to))
            &&& leaf_named(ms, "via"@, 0) == Some(Leaf::Text(mode_name(m.via)))
            &&& leaf_named(ms, "hop"@, 0) == Some(Leaf::Number(m.hop as u64))
            &&& leaf_named(ms, "re"@, 0) == match m.re {
                Some(re) => Some(Leaf::Number(re)),
                None => None,
            }
            &&& match m.from {
                Origin::User => leaf_named(ms, "from"@, 0) == Some(Leaf::Text("user"@)),
                Origin::Pane { address, name, mode, .. } => {
                    &&& leaf_named(ms, "from"@, 0) == Some(Leaf::Text(address))
                    &&& leaf_named(ms, "name"@, 0) == opt_leaf(name)
                    &&& leaf_named(ms, "mode"@, 0) == Some(Leaf::Text(mode_name(mode)))
                },
            }
        },
        (None, None) => true,
        _ => false,
    }
}

/// The line of what was written is an object with those members.
pub open spec fn is_line(es: Seq<(Seq<char>, Entry)>, w: Written) -> bool {
    &&& names_once(es)
    &&& object_text(es) == w.line()
    &&& holds_event(es, w)
    &&& holds_mail(es, w)
}

#[verifier::spinoff_prover]
proof fn lemma_sent_line(m: Mail, why: Option<Seq<char>>, w: Written) -> (es: Seq<(Seq<char>, Entry)>)
    requires
        w == (Written::Sent { m, why }),
    ensures
        is_line(es, w),
{
    lemma_event_names();
    lemma_word(w);
    let b = lemma_begin(w.at(), w.word());
    let head = entries_open(b);
    let ms = lemma_envelope(m);
    let c = lemma_field(b, "msg"@, Entry::Object(ms));
    let d = lemma_field(c, "text"@, Entry::Leaf(Leaf::Text(m.text)));
    let k = ",\"msg\":"@;
    let t = ",\"text\":"@;
    let env = envelope_text(m);
    let js = json_string(m.text);
    match why {
        Some(y) => {
            let tail = ",\"why\":"@ + json_string(y);
            let e = lemma_field(d, "why"@, Entry::Leaf(Leaf::Text(y)));
            lemma_regroup(entries_open(d), ",\"why\":"@, json_string(y));
            assert(head + k + env + t + js + tail =~= head + (k + env + t + js + tail));
            e
        },
        None => {
            assert(head + k + env + t + js =~= head + (k + env + t + js + Seq::<char>::empty()));
            d
        },
    }
}

#[verifier::spinoff_prover]
proof fn lemma_step_line(id: MsgId, w: Written) -> (es: Seq<(Seq<char>, Entry)>)
    requires
        w is Delivered || w is Read,
        w.happening().id == Some(id),
    ensures
        is_line(es, w),
{
    lemma_event_names();
    lemma_word(w);
    let b = lemma_begin(w.at(), w.word());
    let head = entries_open(b);
    lemma_regroup(head, ",\"id\":"@, decimal(id as nat));
    lemma_field(b, "id"@, Entry::Leaf(Leaf::Number(id)))
}

#[verifier::spinoff_prover]
proof fn lemma_noted_line(id: MsgId, name: Seq<char>, note: Seq<char>, w: Written) -> (es: Seq<(Seq<char>, Entry)>)
    requires
        w.happening().id == Some(id),
        match w {
            Written::Restored { by, .. } => name == "by"@ && note == by,
            Written::Dropped { reason, .. } => name == "why"@ && note == reason,
            _ => false,
        },
    ensures
        is_line(es, w),
{
    lemma_event_names();
    lemma_word(w);
    let b = lemma_begin(w.at(), w.word());
    let head = entries_open(b);
    let c = lemma_field(b, "id"@, Entry::Leaf(Leaf::Number(id)));
    let k = ",\"id\":"@;
    let n = decimal(id as nat);
    let q = key_text(name);
    assert(head + k + n + q + json_string(note) =~= head + (k + n + q + json_string(note)));
    lemma_field(c, name, Entry::Leaf(Leaf::Text(note)))
}

/// The members an ending begins with.
#[verifier::spinoff_prover]
proof fn lemma_ended_begin(id: MsgId, ok: Option<bool>, w: Written) -> (es: Seq<(Seq<char>, Entry)>)
    ensures
        es.len() > 0,
        names_once(es),
        entries_open(es) == "{\"at\":"@ + json_string(rfc3339_text(w.at().ms, w.at().offset)) + ",\"ev\":\""@ + w.word()
            + "\""@ + (",\"id\":"@ + decimal(id as nat) + (match ok {
            Some(y) => ",\"ok\":"@ + flag_text(y),
            None => Seq::empty(),
        })),
        forall|q: Seq<char>| #[trigger] entry_named(es, q, 0) == if q == "at"@ {
            text_entry(Some(rfc3339_text(w.at().ms, w.at().offset)))
        } else if q == "ev"@ {
            text_entry(Some(w.word()))
        } else if q == "id"@ {
            Some(Entry::Leaf(Leaf::Number(id)))
        } else if q == "ok"@ {
            flag_entry(ok)
        } else {
            None
        },
{
    lemma_event_names();
    lemma_word(w);
    let b = lemma_begin(w.at(), w.word());
    let head = entries_open(b);
    let c = lemma_field(b, "id"@, Entry::Leaf(Leaf::Number(id)));
    let k = ",\"id\":"@;
    let n = decimal(id as nat);
    match ok {
        Some(y) => {
            let o = ",\"ok\":"@;
            assert(head + k + n + o + flag_text(y) =~= head + (k + n + (o + flag_text(y))));
            lemma_field(c, "ok"@, Entry::Leaf(Leaf::Flag(y)))
        },
        None => {
            assert(head + k + n =~= head + (k + n + Seq::<char>::empty()));
            c
        },
    }
}

#[verifier::spinoff_prover]
proof fn lemma_ended_line(id: MsgId, ok: Option<bool>, out: Option<(Seq<char>, bool)>, w: Written) -> (es: Seq<
    (Seq<char>, Entry),
>)
    requires
        w matches Written::Ended { id: i, ok: o, out: t, .. } && i == id && o == ok && t == out,
    ensures
        is_line(es, w),
{
    lemma_event_names();
    let d = lemma_ended_begin(id, ok, w);
    let k = ",\"id\":"@ + decimal(id as nat) + (match ok {
        Some(y) => ",\"ok\":"@ + flag_text(y),
        None => Seq::empty(),
    });
    let head = "{\"at\":"@ + json_string(rfc3339_text(w.at().ms, w.at().offset)) + ",\"ev\":\""@ + w.word() + "\""@;
    match out {
        Some((text, cut)) => {
            let js = json_string(text);
            let e = lemma_field(d, "output"@, Entry::Leaf(Leaf::Text(text)));
            let f = lemma_field(e, "cut"@, Entry::Leaf(Leaf::Flag(cut)));
            let p = ",\"output\":"@;
            let q = ",\"cut\":"@;
            assert(head + k + p + js + q + flag_text(cut) =~= head + (k + (p + js + q + flag_text(cut))));
            f
        },
        None => {
            assert(head + k =~= head + (k + Seq::<char>::empty()));
            d
        },
    }
}

/// The line of what was written is an object with its members.
pub proof fn lemma_line(w: Written) -> (es: Seq<(Seq<char>, Entry)>)
    ensures
        is_line(es, w),
{
    match w {
        Written::Sent { m, why } => lemma_sent_line(m, why, w),
        Written::Delivered { id, .. } => lemma_step_line(id, w),
        Written::Read { id, .. } => lemma_step_line(id, w),
        Written::Restored { id, by, .. } => lemma_noted_line(id, "by"@, by, w),
        Written::Dropped { id, reason, .. } => lemma_noted_line(id, "why"@, reason, w),
        Written::Ended { id, ok, out, .. } => lemma_ended_line(id, ok, out, w),
    }
}

/// A pointer leads along a path.
pub open spec fn points_to(pointer: Seq<char>, path: Seq<Seq<char>>) -> bool {
    pointer_text(path) == pointer && plain_path(path)
}

proof fn lemma_pointer(path: Seq<Seq<char>>)
    requires
        path.len() == 1 || path.len() == 2,
    ensures
        path.len() == 1 ==> pointer_text(path) == "/"@ + path[0],
        path.len() == 2 ==> pointer_text(path) == "/"@ + path[0] + "/"@ + path[1],
{
    let none = Seq::<Seq<char>>::empty();
    assert(pointer_text(none) =~= Seq::empty());
    if path.len() == 1 {
        assert(path.drop_last() =~= none);
        assert(Seq::<char>::empty() + "/"@ + path[0] =~= "/"@ + path[0]);
    } else {
        let one = seq![path[0]];
        assert(path.drop_last() =~= one);
        assert(one.drop_last() =~= none);
        assert(pointer_text(one) =~= "/"@ + path[0]);
    }
}

/// The pointers to the members of an event.
pub proof fn lemma_event_pointers()
    ensures
        points_to("/at"@, seq!["at"@]),
        points_to("/ev"@, seq!["ev"@]),
        points_to("/id"@, seq!["id"@]),
        points_to("/ok"@, seq!["ok"@]),
        points_to("/output"@, seq!["output"@]),
        points_to("/cut"@, seq!["cut"@]),
        points_to("/why"@, seq!["why"@]),
        points_to("/text"@, seq!["text"@]),
{
    reveal_strlit("/");
    reveal_strlit("at");
    reveal_strlit("/at");
    reveal_strlit("ev");
    reveal_strlit("/ev");
    reveal_strlit("id");
    reveal_strlit("/id");
    reveal_strlit("ok");
    reveal_strlit("/ok");
    reveal_strlit("output");
    reveal_strlit("/output");
    reveal_strlit("cut");
    reveal_strlit("/cut");
    reveal_strlit("why");
    reveal_strlit("/why");
    reveal_strlit("text");
    reveal_strlit("/text");
    lemma_pointer(seq!["at"@]);
    assert("/at"@ =~= "/"@ + "at"@);
    lemma_pointer(seq!["ev"@]);
    assert("/ev"@ =~= "/"@ + "ev"@);
    lemma_pointer(seq!["id"@]);
    assert("/id"@ =~= "/"@ + "id"@);
    lemma_pointer(seq!["ok"@]);
    assert("/ok"@ =~= "/"@ + "ok"@);
    lemma_pointer(seq!["output"@]);
    assert("/output"@ =~= "/"@ + "output"@);
    lemma_pointer(seq!["cut"@]);
    assert("/cut"@ =~= "/"@ + "cut"@);
    lemma_pointer(seq!["why"@]);
    assert("/why"@ =~= "/"@ + "why"@);
    lemma_pointer(seq!["text"@]);
    assert("/text"@ =~= "/"@ + "text"@);
}

/// The pointers to the members of an envelope.
pub proof fn lemma_envelope_pointers()
    ensures
        points_to("/msg/from"@, seq!["msg"@, "from"@]),
        points_to("/msg/name"@, seq!["msg"@, "name"@]),
        points_to("/msg/mode"@, seq!["msg"@, "mode"@]),
        points_to("/msg/id"@, seq!["msg"@, "id"@]),
        points_to("/msg/task"@, seq!["msg"@, "task"@]),
        points_to("/msg/to"@, seq!["msg"@, "to"@]),
        points_to("/msg/via"@, seq!["msg"@, "via"@]),
        points_to("/msg/hop"@, seq!["msg"@, "hop"@]),
        points_to("/msg/re"@, seq!["msg"@, "re"@]),
{
    reveal_strlit("/");
    reveal_strlit("msg");
    reveal_strlit("from");
    reveal_strlit("/msg/from");
    reveal_strlit("name");
    reveal_strlit("/msg/name");
    reveal_strlit("mode");
    reveal_strlit("/msg/mode");
    reveal_strlit("id");
    reveal_strlit("/msg/id");
    reveal_strlit("task");
    reveal_strlit("/msg/task");
    reveal_strlit("to");
    reveal_strlit("/msg/to");
    reveal_strlit("via");
    reveal_strlit("/msg/via");
    reveal_strlit("hop");
    reveal_strlit("/msg/hop");
    reveal_strlit("re");
    reveal_strlit("/msg/re");
    lemma_pointer(seq!["msg"@, "from"@]);
    assert("/msg/from"@ =~= "/"@ + "msg"@ + "/"@ + "from"@);
    lemma_pointer(seq!["msg"@, "name"@]);
    assert("/msg/name"@ =~= "/"@ + "msg"@ + "/"@ + "name"@);
    lemma_pointer(seq!["msg"@, "mode"@]);
    assert("/msg/mode"@ =~= "/"@ + "msg"@ + "/"@ + "mode"@);
    lemma_pointer(seq!["msg"@, "id"@]);
    assert("/msg/id"@ =~= "/"@ + "msg"@ + "/"@ + "id"@);
    lemma_pointer(seq!["msg"@, "task"@]);
    assert("/msg/task"@ =~= "/"@ + "msg"@ + "/"@ + "task"@);
    lemma_pointer(seq!["msg"@, "to"@]);
    assert("/msg/to"@ =~= "/"@ + "msg"@ + "/"@ + "to"@);
    lemma_pointer(seq!["msg"@, "via"@]);
    assert("/msg/via"@ =~= "/"@ + "msg"@ + "/"@ + "via"@);
    lemma_pointer(seq!["msg"@, "hop"@]);
    assert("/msg/hop"@ =~= "/"@ + "msg"@ + "/"@ + "hop"@);
    lemma_pointer(seq!["msg"@, "re"@]);
    assert("/msg/re"@ =~= "/"@ + "msg"@ + "/"@ + "re"@);
}

} // verus!
