//! Strings as JSON, and objects of them.
use vstd::prelude::*;
use crate::layout_text::hex_char;
use crate::observe::opt_text;
use crate::text::decimal;

verus! {

/// A character inside a JSON string.
pub open spec fn json_char(c: char) -> Seq<char> {
    if c == '"' || c == '\\' {
        seq!['\\', c]
    } else if c == '\u{8}' {
        seq!['\\', 'b']
    } else if c == '\t' {
        seq!['\\', 't']
    } else if c == '\n' {
        seq!['\\', 'n']
    } else if c == '\u{c}' {
        seq!['\\', 'f']
    } else if c == '\r' {
        seq!['\\', 'r']
    } else if ' ' > c {
        seq!['\\', 'u', '0', '0', hex_char(c as u32 as int / 16), hex_char(c as u32 as int % 16)]
    } else {
        seq![c]
    }
}

/// The characters of `s` inside a JSON string.
pub open spec fn json_chars(s: Seq<char>) -> Seq<char>
    decreases s.len(),
{
    if s.len() == 0 {
        Seq::empty()
    } else {
        json_chars(s.drop_last()) + json_char(s.last())
    }
}

/// `s` as a JSON string.
pub open spec fn json_string(s: Seq<char>) -> Seq<char> {
    seq!['"'] + json_chars(s) + seq!['"']
}

/// `serde_json::to_string` on a string: the text in quotes, with quotes,
/// backslashes and control characters escaped, a control character without a
/// letter of its own as `\u00` and two hexadecimal digits. It never fails.
#[verifier::external_body]
pub(crate) fn to_json(s: &str) -> (out: String)
    ensures
        out@ == json_string(s@),
{
    serde_json::to_string(s).expect("a string always serializes")
}

/// No character of a JSON string is a control character: it is one line.
pub proof fn lemma_json_line(s: Seq<char>)
    ensures
        forall|i: int| 0 <= i < json_string(s).len() ==> #[trigger] json_string(s)[i] >= ' ',
{
    lemma_json_chars_line(s);
    assert forall|i: int| 0 <= i < json_string(s).len() implies #[trigger] json_string(s)[i] >= ' ' by {
        if 0 < i < json_string(s).len() - 1 {
            assert(json_string(s)[i] == json_chars(s)[i - 1]);
        }
    }
}

proof fn lemma_json_chars_line(s: Seq<char>)
    ensures
        forall|i: int| 0 <= i < json_chars(s).len() ==> #[trigger] json_chars(s)[i] >= ' ',
    decreases s.len(),
{
    if s.len() > 0 {
        lemma_json_chars_line(s.drop_last());
        let head = json_chars(s.drop_last());
        let c = s.last();
        reveal(hex_char);
        assert forall|i: int| 0 <= i < json_chars(s).len() implies #[trigger] json_chars(s)[i] >= ' ' by {
            if i < head.len() {
                assert(json_chars(s)[i] == head[i]);
            } else {
                assert(json_chars(s)[i] == json_char(c)[i - head.len()]);
            }
        }
    }
}

/// A text without quotes, backslashes or control characters stands in quotes
/// as it is.
pub proof fn lemma_json_plain(s: Seq<char>)
    requires
        forall|i: int| 0 <= i < s.len() ==> s[i] != '"' && s[i] != '\\' && #[trigger] s[i] >= ' ',
    ensures
        json_chars(s) == s,
    decreases s.len(),
{
    if s.len() > 0 {
        lemma_json_plain(s.drop_last());
        assert(json_chars(s) =~= s);
    }
}

/// A text, a whole number or a truth value in a JSON object.
pub ghost enum Leaf {
    Text(Seq<char>),
    Number(u64),
    Flag(bool),
}

/// A member of a JSON object: a leaf, or an object of leaves.
pub ghost enum Entry {
    Leaf(Leaf),
    Object(Seq<(Seq<char>, Leaf)>),
}

/// A leaf as it is written.
pub open spec fn leaf_text(l: Leaf) -> Seq<char> {
    match l {
        Leaf::Text(s) => json_string(s),
        Leaf::Number(n) => decimal(n as nat),
        Leaf::Flag(b) => if b {
            "true"@
        } else {
            "false"@
        },
    }
}

/// The first `k` members of an object of leaves as they are written.
pub open spec fn leaves_text(ms: Seq<(Seq<char>, Leaf)>, k: int) -> Seq<char>
    decreases k,
{
    if k <= 0 {
        Seq::empty()
    } else {
        leaves_text(ms, k - 1) + (if k > 1 {
            ","@
        } else {
            ""@
        }) + json_string(ms[k - 1].0) + ":"@ + leaf_text(ms[k - 1].1)
    }
}

/// A member as it is written.
pub open spec fn entry_text(e: Entry) -> Seq<char> {
    match e {
        Entry::Leaf(l) => leaf_text(l),
        Entry::Object(ms) => "{"@ + leaves_text(ms, ms.len() as int) + "}"@,
    }
}

/// The first `k` members of an object as they are written.
pub open spec fn entries_text(es: Seq<(Seq<char>, Entry)>, k: int) -> Seq<char>
    decreases k,
{
    if k <= 0 {
        Seq::empty()
    } else {
        entries_text(es, k - 1) + (if k > 1 {
            ","@
        } else {
            ""@
        }) + json_string(es[k - 1].0) + ":"@ + entry_text(es[k - 1].1)
    }
}

/// An object as it is written: on one line, without blanks.
pub open spec fn object_text(es: Seq<(Seq<char>, Entry)>) -> Seq<char> {
    "{"@ + entries_text(es, es.len() as int) + "}"@
}

/// The leaf of that name, from member `i` on.
pub open spec fn leaf_named(ms: Seq<(Seq<char>, Leaf)>, name: Seq<char>, i: int) -> Option<Leaf>
    decreases ms.len() - i,
{
    if i < 0 || i >= ms.len() {
        None
    } else if ms[i].0 == name {
        Some(ms[i].1)
    } else {
        leaf_named(ms, name, i + 1)
    }
}

/// The member of that name, from member `i` on.
pub open spec fn entry_named(es: Seq<(Seq<char>, Entry)>, name: Seq<char>, i: int) -> Option<Entry>
    decreases es.len() - i,
{
    if i < 0 || i >= es.len() {
        None
    } else if es[i].0 == name {
        Some(es[i].1)
    } else {
        entry_named(es, name, i + 1)
    }
}

/// The leaf at a path of names.
pub open spec fn leaf_at(es: Seq<(Seq<char>, Entry)>, path: Seq<Seq<char>>) -> Option<Leaf> {
    if path.len() == 1 {
        match entry_named(es, path[0], 0) {
            Some(Entry::Leaf(l)) => Some(l),
            _ => None,
        }
    } else if path.len() == 2 {
        match entry_named(es, path[0], 0) {
            Some(Entry::Object(ms)) => leaf_named(ms, path[1], 0),
            _ => None,
        }
    } else {
        None
    }
}

/// No two members have the same name.
pub open spec fn names_once(es: Seq<(Seq<char>, Entry)>) -> bool {
    &&& forall|i: int, j: int| 0 <= i < j < es.len() ==> (#[trigger] es[i]).0 != (#[trigger] es[j]).0
    &&& forall|i: int|
        0 <= i < es.len() ==> match (#[trigger] es[i]).1 {
            Entry::Object(ms) => leaves_once(ms),
            Entry::Leaf(_) => true,
        }
}

/// No two leaves have the same name.
pub open spec fn leaves_once(ms: Seq<(Seq<char>, Leaf)>) -> bool {
    forall|i: int, j: int| 0 <= i < j < ms.len() ==> (#[trigger] ms[i]).0 != (#[trigger] ms[j]).0
}

/// A path as a JSON pointer.
pub open spec fn pointer_text(path: Seq<Seq<char>>) -> Seq<char>
    decreases path.len(),
{
    if path.len() == 0 {
        Seq::empty()
    } else {
        pointer_text(path.drop_last()) + "/"@ + path.last()
    }
}

/// A path whose names stand in a pointer as they are.
pub open spec fn plain_path(path: Seq<Seq<char>>) -> bool {
    forall|i: int, j: int|
        0 <= i < path.len() && 0 <= j < path[i].len() ==> (#[trigger] path[i][j]) != '/' && path[i][j] != '~'
}

/// The text of a leaf that is one.
pub open spec fn text_in(l: Option<Leaf>) -> Option<Seq<char>> {
    match l {
        Some(Leaf::Text(s)) => Some(s),
        _ => None,
    }
}

/// The number of a leaf that is one.
pub open spec fn number_in(l: Option<Leaf>) -> Option<u64> {
    match l {
        Some(Leaf::Number(n)) => Some(n),
        _ => None,
    }
}

/// The truth value of a leaf that is one.
pub open spec fn flag_in(l: Option<Leaf>) -> Option<bool> {
    match l {
        Some(Leaf::Flag(b)) => Some(b),
        _ => None,
    }
}

/// The string at a JSON pointer in a JSON text, when both are there.
pub uninterp spec fn string_at(json: Seq<char>, pointer: Seq<char>) -> Option<Seq<char>>;

/// The whole number at a JSON pointer in a JSON text, when both are there.
pub uninterp spec fn number_at(json: Seq<char>, pointer: Seq<char>) -> Option<u64>;

/// The truth value at a JSON pointer in a JSON text, when both are there.
pub uninterp spec fn flag_at(json: Seq<char>, pointer: Seq<char>) -> Option<bool>;

/// `serde_json::from_str` into a `Value`, then `Value::pointer` and
/// `Value::as_str`: a function of the text and the pointer. Of an object that
/// is written as `object_text` says, it is the text of the member the pointer
/// leads to, and nothing when there is none or it is no text.
#[verifier::external_body]
pub(crate) fn read_string(json: &str, pointer: &str) -> (out: Option<String>)
    ensures
        match out {
            Some(s) => string_at(json@, pointer@) == Some(s@),
            None => string_at(json@, pointer@) is None,
        },
        forall|es: Seq<(Seq<char>, Entry)>, path: Seq<Seq<char>>|
            #![trigger object_text(es), pointer_text(path)]
            names_once(es) && plain_path(path) && object_text(es) == json@ && pointer_text(path) == pointer@ ==> opt_text(
                out,
            ) == text_in(leaf_at(es, path)),
{
    let v: serde_json::Value = serde_json::from_str(json).ok()?;
    v.pointer(pointer)?.as_str().map(String::from)
}

/// `serde_json::from_str` into a `Value`, then `Value::pointer` and
/// `Value::as_u64`: a function of the text and the pointer. Of an object that
/// is written as `object_text` says, it is the number of the member the
/// pointer leads to, and nothing when there is none or it is no number.
#[verifier::external_body]
pub(crate) fn read_u64(json: &str, pointer: &str) -> (out: Option<u64>)
    ensures
        out == number_at(json@, pointer@),
        forall|es: Seq<(Seq<char>, Entry)>, path: Seq<Seq<char>>|
            #![trigger object_text(es), pointer_text(path)]
            names_once(es) && plain_path(path) && object_text(es) == json@ && pointer_text(path) == pointer@ ==> out
                == number_in(leaf_at(es, path)),
{
    let v: serde_json::Value = serde_json::from_str(json).ok()?;
    v.pointer(pointer)?.as_u64()
}

/// `serde_json::from_str` into a `Value`, then `Value::pointer` and
/// `Value::as_bool`: a function of the text and the pointer. Of an object
/// that is written as `object_text` says, it is the truth value of the member
/// the pointer leads to, and nothing when there is none or it is none.
#[verifier::external_body]
pub(crate) fn read_bool(json: &str, pointer: &str) -> (out: Option<bool>)
    ensures
        out == flag_at(json@, pointer@),
        forall|es: Seq<(Seq<char>, Entry)>, path: Seq<Seq<char>>|
            #![trigger object_text(es), pointer_text(path)]
            names_once(es) && plain_path(path) && object_text(es) == json@ && pointer_text(path) == pointer@ ==> out
                == flag_in(leaf_at(es, path)),
{
    let v: serde_json::Value = serde_json::from_str(json).ok()?;
    v.pointer(pointer)?.as_bool()
}

proof fn lemma_entries_kept(es: Seq<(Seq<char>, Entry)>, x: (Seq<char>, Entry), k: int)
    requires
        k <= es.len(),
    ensures
        entries_text(es.push(x), k) == entries_text(es, k),
    decreases k,
{
    if k > 0 {
        lemma_entries_kept(es, x, k - 1);
        assert(es.push(x)[k - 1] == es[k - 1]);
    }
}

proof fn lemma_entry_kept(es: Seq<(Seq<char>, Entry)>, x: (Seq<char>, Entry), name: Seq<char>, i: int)
    requires
        0 <= i <= es.len(),
    ensures
        entry_named(es.push(x), name, i) == match entry_named(es, name, i) {
            Some(e) => Some(e),
            None => if x.0 == name {
                Some(x.1)
            } else {
                None
            },
        },
    decreases es.len() - i,
{
    if i < es.len() {
        assert(es.push(x)[i] == es[i]);
        lemma_entry_kept(es, x, name, i + 1);
    } else {
        assert(es.push(x)[i] == x);
        assert(entry_named(es.push(x), name, i + 1) is None);
    }
}

proof fn lemma_entry_absent(es: Seq<(Seq<char>, Entry)>, name: Seq<char>, i: int, k: int)
    requires
        0 <= i <= k < es.len(),
        entry_named(es, name, i) is None,
    ensures
        es[k].0 != name,
    decreases k - i,
{
    if i < k {
        lemma_entry_absent(es, name, i + 1, k);
    }
}

/// An object with one member more.
pub proof fn lemma_entry_added(es: Seq<(Seq<char>, Entry)>, name: Seq<char>, e: Entry)
    requires
        names_once(es),
        entry_named(es, name, 0) is None,
        match e {
            Entry::Object(ms) => leaves_once(ms),
            Entry::Leaf(_) => true,
        },
    ensures
        names_once(es.push((name, e))),
        entries_text(es.push((name, e)), (es.len() + 1) as int) == entries_text(es, es.len() as int) + (if es.len() > 0 {
            ","@
        } else {
            ""@
        }) + json_string(name) + ":"@ + entry_text(e),
        forall|q: Seq<char>| #[trigger]
            entry_named(es.push((name, e)), q, 0) == match entry_named(es, q, 0) {
                Some(x) => Some(x),
                None => if q == name {
                    Some(e)
                } else {
                    None
                },
            },
{
    let x = (name, e);
    let all = es.push(x);
    lemma_entries_kept(es, x, es.len() as int);
    assert(all[es.len() as int] == x);
    assert forall|q: Seq<char>| #[trigger] entry_named(all, q, 0) == match entry_named(es, q, 0) {
        Some(y) => Some(y),
        None => if q == name {
            Some(e)
        } else {
            None
        },
    } by {
        lemma_entry_kept(es, x, q, 0);
    }
    assert forall|i: int, j: int| 0 <= i < j < all.len() implies (#[trigger] all[i]).0 != (#[trigger] all[j]).0 by {
        assert(all[i] == es[i]);
        if j == es.len() {
            lemma_entry_absent(es, name, 0, i);
        } else {
            assert(all[j] == es[j]);
        }
    }
    assert forall|i: int| 0 <= i < all.len() implies match (#[trigger] all[i]).1 {
        Entry::Object(ms) => leaves_once(ms),
        Entry::Leaf(_) => true,
    } by {
        if i < es.len() {
            assert(all[i] == es[i]);
        }
    }
}

proof fn lemma_leaves_kept(ms: Seq<(Seq<char>, Leaf)>, x: (Seq<char>, Leaf), k: int)
    requires
        k <= ms.len(),
    ensures
        leaves_text(ms.push(x), k) == leaves_text(ms, k),
    decreases k,
{
    if k > 0 {
        lemma_leaves_kept(ms, x, k - 1);
        assert(ms.push(x)[k - 1] == ms[k - 1]);
    }
}

proof fn lemma_leaf_kept(ms: Seq<(Seq<char>, Leaf)>, x: (Seq<char>, Leaf), name: Seq<char>, i: int)
    requires
        0 <= i <= ms.len(),
    ensures
        leaf_named(ms.push(x), name, i) == match leaf_named(ms, name, i) {
            Some(e) => Some(e),
            None => if x.0 == name {
                Some(x.1)
            } else {
                None
            },
        },
    decreases ms.len() - i,
{
    if i < ms.len() {
        assert(ms.push(x)[i] == ms[i]);
        lemma_leaf_kept(ms, x, name, i + 1);
    } else {
        assert(ms.push(x)[i] == x);
        assert(leaf_named(ms.push(x), name, i + 1) is None);
    }
}

proof fn lemma_leaf_absent(ms: Seq<(Seq<char>, Leaf)>, name: Seq<char>, i: int, k: int)
    requires
        0 <= i <= k < ms.len(),
        leaf_named(ms, name, i) is None,
    ensures
        ms[k].0 != name,
    decreases k - i,
{
    if i < k {
        lemma_leaf_absent(ms, name, i + 1, k);
    }
}

/// An object of leaves with one more.
pub proof fn lemma_leaf_added(ms: Seq<(Seq<char>, Leaf)>, name: Seq<char>, l: Leaf)
    requires
        leaves_once(ms),
        leaf_named(ms, name, 0) is None,
    ensures
        leaves_once(ms.push((name, l))),
        leaves_text(ms.push((name, l)), (ms.len() + 1) as int) == leaves_text(ms, ms.len() as int) + (if ms.len() > 0 {
            ","@
        } else {
            ""@
        }) + json_string(name) + ":"@ + leaf_text(l),
        forall|q: Seq<char>| #[trigger]
            leaf_named(ms.push((name, l)), q, 0) == match leaf_named(ms, q, 0) {
                Some(x) => Some(x),
                None => if q == name {
                    Some(l)
                } else {
                    None
                },
            },
{
    let x = (name, l);
    let all = ms.push(x);
    lemma_leaves_kept(ms, x, ms.len() as int);
    assert(all[ms.len() as int] == x);
    assert forall|q: Seq<char>| #[trigger] leaf_named(all, q, 0) == match leaf_named(ms, q, 0) {
        Some(y) => Some(y),
        None => if q == name {
            Some(l)
        } else {
            None
        },
    } by {
        lemma_leaf_kept(ms, x, q, 0);
    }
    assert forall|i: int, j: int| 0 <= i < j < all.len() implies (#[trigger] all[i]).0 != (#[trigger] all[j]).0 by {
        assert(all[i] == ms[i]);
        if j == ms.len() {
            lemma_leaf_absent(ms, name, 0, i);
        } else {
            assert(all[j] == ms[j]);
        }
    }
}

} // verus!
