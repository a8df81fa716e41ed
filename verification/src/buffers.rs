//! Paste buffers, newest first.
use vstd::prelude::*;
use vstd::utf8::encode_utf8;

use crate::display::{listed, one_line};
use crate::text::{bytes_of, decimal, joined2, number_text, push_decimal, same_text};

verus! {

/// The most buffers that are kept when one comes in.
pub const BUFFER_LIMIT: usize = 50;

#[derive(Debug)]
pub struct Buffers {
    /// Name and text of each.
    pub list: Vec<(String, String)>,
    /// The number in the next automatic name.
    pub next: usize,
}

pub open spec fn pairs(v: Seq<(String, String)>) -> Seq<(Seq<char>, Seq<char>)> {
    Seq::new(v.len(), |i: int| (v[i].0@, v[i].1@))
}

/// The place of the buffer with that name from `i` on, or the end.
pub open spec fn buffer_place(b: Seq<(Seq<char>, Seq<char>)>, name: Seq<char>, i: int) -> int
    decreases b.len() - i,
{
    if i >= b.len() {
        b.len() as int
    } else if b[i].0 == name {
        i
    } else {
        buffer_place(b, name, i + 1)
    }
}

proof fn lemma_buffer_place(b: Seq<(Seq<char>, Seq<char>)>, name: Seq<char>, i: int)
    requires
        0 <= i <= b.len(),
    ensures
        i <= buffer_place(b, name, i) <= b.len(),
        buffer_place(b, name, i) < b.len() ==> b[buffer_place(b, name, i)].0 == name,
    decreases b.len() - i,
{
    if i < b.len() && b[i].0 != name {
        lemma_buffer_place(b, name, i + 1);
    }
}

/// The buffer meant: by name, or the newest.
pub open spec fn buffer_meant(b: Seq<(Seq<char>, Seq<char>)>, name: Option<Seq<char>>) -> int {
    match name {
        Some(n) => buffer_place(b, n, 0),
        None => 0,
    }
}

/// A new buffer in front, and the oldest beyond the limit gone.
pub open spec fn stacked(b: Seq<(Seq<char>, Seq<char>)>, name: Seq<char>, data: Seq<char>) -> Seq<(Seq<char>, Seq<char>)> {
    let all = b.insert(0, (name, data));
    if all.len() > BUFFER_LIMIT {
        all.take(BUFFER_LIMIT as int)
    } else {
        all
    }
}

/// The buffers and the next number after text was stored.
pub open spec fn stored(b: Seq<(Seq<char>, Seq<char>)>, next: int, name: Option<Seq<char>>, data: Seq<char>, append: bool) -> (
    Seq<(Seq<char>, Seq<char>)>,
    int,
) {
    let k = buffer_meant(b, name);
    if k < b.len() && (name is Some || append) {
        (
            b.update(
                k,
                (
                    b[k].0,
                    if append {
                        b[k].1 + data
                    } else {
                        data
                    },
                ),
            ),
            next,
        )
    } else {
        match name {
            Some(n) => (stacked(b, n, data), next),
            None => (stacked(b, "buffer"@ + decimal(next as nat), data), next + 1),
        }
    }
}

/// The line that lists a buffer: its name, its bytes, and how it begins.
pub open spec fn buffer_line(b: (Seq<char>, Seq<char>)) -> Seq<char> {
    b.0 + ": "@ + decimal(encode_utf8(b.1).len()) + " bytes: "@ + listed(b.1, 60)
}

impl Buffers {
    pub open spec fn texts(self) -> Seq<(Seq<char>, Seq<char>)> {
        pairs(self.list@)
    }

    fn place(&self, name: Option<&str>) -> (k: usize)
        ensures
            k == buffer_meant(self.texts(), crate::popup::text_of(name)) || (k == 0 && self.list@.len() == 0),
            k <= self.list@.len(),
    {
        match name {
            None => 0,
            Some(n) => {
                let mut i: usize = 0;
                while i < self.list.len()
                    invariant
                        i <= self.list@.len(),
                        name == Some(n),
                        buffer_place(self.texts(), n@, 0) == buffer_place(self.texts(), n@, i as int),
                    decreases self.list.len() - i,
                {
                    assert(self.texts()[i as int].0 == self.list@[i as int].0@);
                    if same_text(self.list[i].0.as_str(), n) {
                        return i;
                    }
                    i = i + 1;
                }
                i
            },
        }
    }

    /// A buffer by name, or the newest one: its text.
    pub fn buffer(&self, name: Option<&str>) -> (data: Option<&str>)
        ensures
            ({
                let k = buffer_meant(self.texts(), crate::popup::text_of(name));
                match data {
                    Some(t) => k < self.texts().len() && t@ == self.texts()[k].1,
                    None => k >= self.texts().len(),
                }
            }),
    {
        let k: usize = self.place(name);
        if k < self.list.len() {
            assert(self.texts()[k as int].1 == self.list@[k as int].1@);
            Some(self.list[k].1.as_str())
        } else {
            None
        }
    }

    /// Store text as a buffer: named (replacing or appending to it) or a new
    /// automatic one at the front.
    pub fn set_buffer(&mut self, name: Option<&str>, data: &str, append: bool)
        requires
            old(self).next < usize::MAX,
        ensures
            ({
                let after = stored(
                    old(self).texts(),
                    old(self).next as int,
                    crate::popup::text_of(name),
                    data@,
                    append,
                );
                &&& final(self).texts() == after.0
                &&& final(self).next == after.1
            }),
    {
        let ghost b = self.texts();
        let k: usize = self.place(name);
        if k < self.list.len() && (name.is_some() || append) {
            let was = self.list.remove(k);
            let ghost rest = self.texts();
            assert(rest =~= b.remove(k as int));
            let text = if append { joined2(was.1.as_str(), data) } else { data.to_owned() };
            self.list.insert(k, (was.0, text));
            assert(self.texts() =~= b.update(k as int, (b[k as int].0, text@)));
            return;
        }
        let label = match name {
            Some(n) => n.to_owned(),
            None => {
                let l = joined2("buffer", number_text(self.next as u64).as_str());
                self.next = self.next + 1;
                l
            },
        };
        self.list.insert(0, (label, data.to_owned()));
        assert(self.texts() =~= b.insert(0, (label@, data@)));
        let ghost all = self.texts();
        if self.list.len() > BUFFER_LIMIT {
            self.list.truncate(BUFFER_LIMIT);
            assert(self.texts() =~= all.take(BUFFER_LIMIT as int));
        }
    }

    /// `delete-buffer`: by name, or the newest one. False when there is none.
    pub fn delete(&mut self, name: Option<&str>) -> (done: bool)
        ensures
            ({
                let k = buffer_meant(old(self).texts(), crate::popup::text_of(name));
                &&& done == (k < old(self).texts().len())
                &&& final(self).texts() == if done {
                    old(self).texts().remove(k)
                } else {
                    old(self).texts()
                }
                &&& final(self).next == old(self).next
            }),
    {
        let ghost b = self.texts();
        let k: usize = self.place(name);
        if k < self.list.len() {
            let _ = self.list.remove(k);
            assert(self.texts() =~= b.remove(k as int));
            true
        } else {
            false
        }
    }

    /// `list-buffers`: a line for each.
    pub fn lines(&self) -> (out: Vec<String>)
        ensures
            out@.len() == self.texts().len(),
            forall|i: int| 0 <= i < out@.len() ==> (#[trigger] out@[i])@ == buffer_line(self.texts()[i]),
    {
        let mut out: Vec<String> = Vec::new();
        let mut i: usize = 0;
        while i < self.list.len()
            invariant
                i <= self.list@.len(),
                out@.len() == i,
                forall|j: int| 0 <= j < i ==> (#[trigger] out@[j])@ == buffer_line(self.texts()[j]),
            decreases self.list.len() - i,
        {
            let data = self.list[i].1.as_str();
            let mut line = joined2(self.list[i].0.as_str(), ": ");
            push_decimal(&mut line, bytes_of(data).len() as u64);
            line.push_str(" bytes: ");
            line.push_str(one_line(data, 60).as_str());
            assert(self.texts()[i as int] == (self.list@[i as int].0@, self.list@[i as int].1@));
            out.push(line);
            i = i + 1;
        }
        out
    }
}

/// What was stored last under no name is the newest buffer, and no more are
/// kept than the limit.
pub proof fn lemma_stored_is_newest(b: Seq<(Seq<char>, Seq<char>)>, next: int, data: Seq<char>)
    ensures
        ({
            let after = stored(b, next, None, data, false).0;
            &&& after.len() >= 1
            &&& after[0].1 == data
            &&& b.len() <= BUFFER_LIMIT ==> after.len() <= BUFFER_LIMIT
        }),
{
}

/// A named buffer reads back as it was stored.
pub proof fn lemma_stored_reads_back(b: Seq<(Seq<char>, Seq<char>)>, next: int, name: Seq<char>, data: Seq<char>)
    ensures
        ({
            let after = stored(b, next, Some(name), data, false).0;
            let k = buffer_place(after, name, 0);
            k < after.len() && after[k].1 == data
        }),
{
    let after = stored(b, next, Some(name), data, false).0;
    lemma_buffer_place(b, name, 0);
    let k = buffer_place(b, name, 0);
    if k < b.len() {
        lemma_same_place(b, after, name, 0, k);
    }
}

proof fn lemma_same_place(b: Seq<(Seq<char>, Seq<char>)>, c: Seq<(Seq<char>, Seq<char>)>, name: Seq<char>, i: int, k: int)
    requires
        b.len() == c.len(),
        0 <= i <= k < b.len(),
        forall|j: int| 0 <= j < b.len() ==> (#[trigger] b[j]).0 == c[j].0,
        buffer_place(b, name, i) == k,
    ensures
        buffer_place(c, name, i) == k,
    decreases k - i,
{
    assert(b[i].0 == c[i].0);
    lemma_buffer_place(b, name, i + 1);
    if i < k {
        lemma_same_place(b, c, name, i + 1, k);
    }
}

} // verus!
