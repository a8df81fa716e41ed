//! What is listed of sessions, windows, panes, clients and variables.
use vstd::prelude::*;

use crate::chooser::{ClientId, SessionId};
use crate::client::Client;
use crate::command::{Ended, Outcome, Target};
use crate::layout::{panes, PaneId};
use crate::server::{aimed, place_for, session_for, pane_id_part, session_part, Options, Server};
use crate::session::SessionState;
use crate::text::{chars_of, decimal, join_texts, joined2, joined3, joined_by, number_text, push_decimal, push_sum, same_text, texts_of};
use crate::tasks::clock;
use crate::time::{format_time, Time};
use crate::window::{ids, lemma_place_of, place_of, WindowState};

verus! {

/// How many of the first `k` clients look at a session.
pub open spec fn attached_to(cs: Seq<Client>, sid: SessionId, k: int) -> nat
    decreases k,
{
    if k <= 0 {
        0
    } else {
        attached_to(cs, sid, k - 1) + if cs[k - 1].session == Some(sid) {
            1nat
        } else {
            0nat
        }
    }
}

/// The whole seconds from `a` to `b`, nothing when `b` was first.
pub open spec fn seconds(a: u64, b: u64) -> nat {
    if b > a {
        ((b - a) / 1000) as nat
    } else {
        0
    }
}

/// The line of a session in `list-sessions`.
pub open spec fn session_line(s: SessionState, attached: bool, now: u64) -> Seq<char> {
    s.name + ": "@ + decimal(s.windows.len()) + " windows (created "@ + decimal(seconds(s.created, now)) + "s ago) ["@
        + decimal(s.cols as nat) + "x"@ + decimal(s.rows as nat) + "]"@ + (if attached {
        " (attached)"@
    } else {
        ""@
    })
}

/// The lines of all sessions.
pub open spec fn session_lines(ss: Seq<SessionState>, cs: Seq<Client>, now: u64) -> Seq<Seq<char>> {
    Seq::new(ss.len(), |i: int| session_line(ss[i], attached_to(cs, ss[i].id, cs.len() as int) > 0, now))
}

/// The line of window `i` of a session in `list-windows`.
pub open spec fn window_line(s: SessionState, i: int, base: usize) -> Seq<char> {
    let w = s.windows[i];
    decimal((i + base) as nat) + ": "@ + w.name + w.flag_text(i == s.cur, s.last == Some(w.id)) + " ("@ + decimal(
        w.panes.len(),
    ) + " panes) ["@ + decimal(s.cols as nat) + "x"@ + decimal(s.rows as nat) + "]"@
}

pub open spec fn window_lines(s: SessionState, base: usize) -> Seq<Seq<char>> {
    Seq::new(s.windows.len(), |i: int| window_line(s, i, base))
}

/// How far `list-panes` looks: one window, all of a session, or all there is.
#[derive(Clone, Copy, Debug, PartialEq, Eq, Structural)]
pub enum Span {
    Window,
    Session,
    All,
}

/// What stands before each pane of a window in a list of more than that.
pub open spec fn pane_prefix(s: SessionState, j: int, base: usize, span: Span) -> Seq<char> {
    match span {
        Span::All => s.name + ":"@ + decimal((j + base) as nat) + "."@,
        Span::Session => decimal((j + base) as nat) + "."@,
        Span::Window => Seq::empty(),
    }
}

/// The line of the pane at place `k` of a window's layout. `path` gives the
/// directory of a pane.
pub open spec fn pane_line(
    prefix: Seq<char>,
    w: WindowState,
    k: int,
    base: usize,
    path: spec_fn(PaneId) -> Option<Seq<char>>,
) -> Seq<char> {
    let id = panes(w.tree)[k];
    let p = w.panes[place_of(w.panes, id, 0)];
    prefix + decimal((k + base) as nat) + ": ["@ + decimal(p.cols as nat) + "x"@ + decimal(p.rows as nat) + "] %"@
        + decimal(id as nat) + " "@ + p.shown_title() + (match path(id) {
        Some(d) => " ["@ + d + "]"@,
        None => Seq::empty(),
    }) + (if id == w.active {
        " (active)"@
    } else {
        ""@
    })
}

/// The lines of the first `k` panes of a window.
pub open spec fn pane_lines(
    s: SessionState,
    j: int,
    opts: Options,
    span: Span,
    path: spec_fn(PaneId) -> Option<Seq<char>>,
    k: int,
) -> Seq<Seq<char>> {
    Seq::new(
        k as nat,
        |i: int| pane_line(pane_prefix(s, j, opts.base_index, span), s.windows[j], i, opts.pane_base_index, path),
    )
}

/// The lines of the first `k` windows of a session.
pub open spec fn windows_pane_lines(
    s: SessionState,
    opts: Options,
    span: Span,
    path: spec_fn(PaneId) -> Option<Seq<char>>,
    k: int,
) -> Seq<Seq<char>>
    decreases k,
{
    if k <= 0 {
        Seq::empty()
    } else {
        windows_pane_lines(s, opts, span, path, k - 1) + pane_lines(
            s,
            k - 1,
            opts,
            span,
            path,
            panes(s.windows[k - 1].tree).len() as int,
        )
    }
}

/// The lines of the first `k` sessions.
pub open spec fn all_pane_lines(
    ss: Seq<SessionState>,
    opts: Options,
    path: spec_fn(PaneId) -> Option<Seq<char>>,
    k: int,
) -> Seq<Seq<char>>
    decreases k,
{
    if k <= 0 {
        Seq::empty()
    } else {
        all_pane_lines(ss, opts, path, k - 1) + windows_pane_lines(
            ss[k - 1],
            opts,
            Span::All,
            path,
            ss[k - 1].windows.len() as int,
        )
    }
}

/// `list-panes` about window `j` of session `i`.
pub open spec fn listed_panes(
    ss: Seq<SessionState>,
    opts: Options,
    i: int,
    j: int,
    span: Span,
    path: spec_fn(PaneId) -> Option<Seq<char>>,
) -> Seq<Seq<char>> {
    match span {
        Span::All => all_pane_lines(ss, opts, path, ss.len() as int),
        Span::Session => windows_pane_lines(ss[i], opts, span, path, ss[i].windows.len() as int),
        Span::Window => pane_lines(ss[i], j, opts, span, path, panes(ss[i].windows[j].tree).len() as int),
    }
}

/// `find` gives the directory of a pane as `path` does.
pub open spec fn finds_path<F: Fn(PaneId) -> Option<String>>(find: F, path: spec_fn(PaneId) -> Option<Seq<char>>) -> bool {
    forall|id: PaneId, out: Option<String>| #[trigger]
        call_ensures(find, (id,), out) ==> crate::observe::opt_text(out) == path(id)
}

impl Server {
    /// How many clients look at a session.
    pub fn attached(&self, sid: SessionId) -> (n: usize)
        ensures
            n == attached_to(self.clients@, sid, self.clients@.len() as int),
    {
        let mut n: usize = 0;
        let mut k: usize = 0;
        while k < self.clients.len()
            invariant
                k <= self.clients@.len(),
                n <= k,
                n == attached_to(self.clients@, sid, k as int),
            decreases self.clients.len() - k,
        {
            if let Some(s) = self.clients[k].session {
                if s == sid {
                    n = n + 1;
                }
            }
            k = k + 1;
        }
        n
    }

    /// `list-sessions`.
    pub fn list_sessions(&self, now: u64) -> (out: Outcome)
        ensures
            out@ == if self.states().len() == 0 {
                Ended::Error("no sessions"@)
            } else {
                Ended::Text(
                    joined_by(
                        session_lines(self.states(), self.clients@, now),
                        "\n"@,
                        self.states().len() as int,
                    ),
                )
            },
    {
        let mut lines: Vec<String> = Vec::new();
        let ghost ss = self.states();
        let mut i: usize = 0;
        while i < self.sessions.len()
            invariant
                i <= self.sessions@.len(),
                i == lines@.len(),
                ss == self.states(),
                forall|k: int|
                    0 <= k < i ==> (#[trigger] lines@[k])@ == session_lines(ss, self.clients@, now)[k],
            decreases self.sessions.len() - i,
        {
            let s = &self.sessions[i];
            assert(ss[i as int] == s@);
            let ago: u64 = if now > s.created { (now - s.created) / 1000 } else { 0 };
            let mut l = joined3(s.name.as_str(), ": ", number_text(s.windows.len() as u64).as_str());
            l.push_str(" windows (created ");
            push_decimal(&mut l, ago);
            l.push_str("s ago) [");
            push_decimal(&mut l, s.cols as u64);
            l.push_str("x");
            push_decimal(&mut l, s.rows as u64);
            l.push_str("]");
            l.push_str(if self.attached(s.id) > 0 { " (attached)" } else { "" });
            lines.push(l);
            i = i + 1;
        }
        if lines.len() == 0 {
            return Outcome::Error("no sessions".to_owned());
        }
        assert(texts_of(lines@) =~= session_lines(ss, self.clients@, now));
        Outcome::Text(join_texts(&lines, "\n"))
    }

    /// `list-windows`.
    pub fn list_windows(&self, target: Option<&Target>, cid: Option<ClientId>) -> (out: Outcome)
        requires
            self.wf(),
        ensures
            out@ == match session_for(
                self.states(),
                self.clients@,
                pane_id_part(aimed(target)),
                session_part(aimed(target)),
                cid,
            ) {
                Err(e) => Ended::Error(e),
                Ok(i) => Ended::Text(
                    joined_by(
                        window_lines(self.states()[i], self.opts.base_index),
                        "\n"@,
                        self.states()[i].windows.len() as int,
                    ),
                ),
            },
    {
        let i: usize = match self.find_session(target, cid) {
            Ok(i) => i,
            Err(e) => {
                return Outcome::Error(e);
            },
        };
        let s = &self.sessions[i];
        assert(self.states()[i as int] == s@);
        let mut lines: Vec<String> = Vec::new();
        let mut j: usize = 0;
        while j < s.windows.len()
            invariant
                j <= s.windows@.len(),
                j == lines@.len(),
                forall|k: int| 0 <= k < j ==> (#[trigger] lines@[k])@ == window_lines(s@, self.opts.base_index)[k],
            decreases s.windows.len() - j,
        {
            let w = &s.windows[j];
            assert(s@.windows[j as int] == w@);
            let last: bool = match s.last {
                Some(l) => l == w.id,
                None => false,
            };
            let mut l = String::new();
            push_sum(&mut l, j as u64, self.opts.base_index as u64);
            assert(l@ =~= decimal((j + self.opts.base_index) as nat));
            l.push_str(": ");
            l.push_str(w.name.as_str());
            l.push_str(w.flags(j == s.cur, last).as_str());
            l.push_str(" (");
            push_decimal(&mut l, w.panes.len() as u64);
            l.push_str(" panes) [");
            push_decimal(&mut l, s.cols as u64);
            l.push_str("x");
            push_decimal(&mut l, s.rows as u64);
            l.push_str("]");
            lines.push(l);
            j = j + 1;
        }
        assert(texts_of(lines@) =~= window_lines(s@, self.opts.base_index));
        Outcome::Text(join_texts(&lines, "\n"))
    }

    fn prefix_of(&self, i: usize, j: usize, span: Span) -> (out: String)
        requires
            i < self.sessions@.len(),
        ensures
            out@ == pane_prefix(self.states()[i as int], j as int, self.opts.base_index, span),
    {
        assert(self.states()[i as int] == self.sessions@[i as int]@);
        let mut out = String::new();
        match span {
            Span::Window => {
                assert(out@ =~= Seq::<char>::empty());
            },
            Span::Session => {
                push_sum(&mut out, j as u64, self.opts.base_index as u64);
                out.push_str(".");
                assert(out@ =~= decimal((j + self.opts.base_index) as nat) + "."@);
            },
            Span::All => {
                out.push_str(self.sessions[i].name.as_str());
                out.push_str(":");
                push_sum(&mut out, j as u64, self.opts.base_index as u64);
                out.push_str(".");
                assert(out@ =~= self.sessions@[i as int].name@ + ":"@ + decimal((j + self.opts.base_index) as nat)
                    + "."@);
            },
        }
        out
    }

    fn push_panes<F: Fn(PaneId) -> Option<String>>(&self, lines: &mut Vec<String>, i: usize, j: usize, span: Span, find: &F)
        requires
            self.wf(),
            i < self.sessions@.len(),
            j < self.states()[i as int].windows.len(),
            forall|id: PaneId| #[trigger] call_requires(*find, (id,)),
        ensures
            forall|path: spec_fn(PaneId) -> Option<Seq<char>>| #[trigger]
                finds_path(*find, path) ==> texts_of(final(lines)@) == texts_of(old(lines)@) + pane_lines(
                    self.states()[i as int],
                    j as int,
                    self.opts,
                    span,
                    path,
                    panes(self.states()[i as int].windows[j as int].tree).len() as int,
                ),
    {
        let ghost s = self.states()[i as int];
        let ghost start = texts_of(lines@);
        assert(s == self.sessions@[i as int]@);
        let prefix = self.prefix_of(i, j, span);
        let w = &self.sessions[i].windows[j];
        assert(s.windows[j as int] == w@);
        assert(s.wf());
        assert(w@.settled());
        let order = w.layout.panes();
        let mut k: usize = 0;
        proof {
            assert forall|path: spec_fn(PaneId) -> Option<Seq<char>>| #[trigger] finds_path(*find, path) implies texts_of(
                lines@,
            ) == start + pane_lines(s, j as int, self.opts, span, path, 0) by {
                assert(start + pane_lines(s, j as int, self.opts, span, path, 0) =~= start);
            }
        }
        while k < order.len()
            invariant
                k <= order@.len(),
                order@ == panes(w@.tree),
                w@.settled(),
                s.windows[j as int] == w@,
                prefix@ == pane_prefix(s, j as int, self.opts.base_index, span),
                forall|id: PaneId| #[trigger] call_requires(*find, (id,)),
                forall|path: spec_fn(PaneId) -> Option<Seq<char>>| #[trigger]
                    finds_path(*find, path) ==> texts_of(lines@) == start + pane_lines(
                        s,
                        j as int,
                        self.opts,
                        span,
                        path,
                        k as int,
                    ),
            decreases order.len() - k,
        {
            let id: PaneId = order[k];
            let place: usize = w.place(id);
            proof {
                assert(panes(w@.tree).contains(id));
                assert(ids(w@.panes).contains(id));
                lemma_place_of(w@.panes, id, 0);
            }
            let p = &w.panes[place];
            let mut l = prefix.clone();
            push_sum(&mut l, k as u64, self.opts.pane_base_index as u64);
            l.push_str(": [");
            push_decimal(&mut l, p.cols as u64);
            l.push_str("x");
            push_decimal(&mut l, p.rows as u64);
            l.push_str("] %");
            push_decimal(&mut l, id as u64);
            l.push_str(" ");
            l.push_str(p.display_title());
            let dir = find(id);
            let ghost head = l@;
            if let Some(d) = &dir {
                l.push_str(" [");
                l.push_str(d.as_str());
                l.push_str("]");
            }
            assert(l@ =~= head + (match crate::observe::opt_text(dir) {
                Some(d) => " ["@ + d + "]"@,
                None => Seq::empty(),
            }));
            l.push_str(if id == w.active { " (active)" } else { "" });
            let ghost text = l@;
            let ghost before = texts_of(lines@);
            lines.push(l);
            k = k + 1;
            proof {
                assert(texts_of(lines@) =~= before.push(text));
                assert forall|path: spec_fn(PaneId) -> Option<Seq<char>>| #[trigger]
                    finds_path(*find, path) implies texts_of(lines@) == start + pane_lines(
                    s,
                    j as int,
                    self.opts,
                    span,
                    path,
                    k as int,
                ) by {
                    assert(call_ensures(*find, (id,), dir));
                    assert(text == pane_line(prefix@, w@, k - 1, self.opts.pane_base_index, path));
                    assert(pane_lines(s, j as int, self.opts, span, path, k as int) =~= pane_lines(
                        s,
                        j as int,
                        self.opts,
                        span,
                        path,
                        k - 1,
                    ).push(text));
                    assert(texts_of(lines@) =~= start + pane_lines(s, j as int, self.opts, span, path, k as int));
                }
            }
        }
    }

    fn push_windows<F: Fn(PaneId) -> Option<String>>(&self, lines: &mut Vec<String>, i: usize, span: Span, find: &F)
        requires
            self.wf(),
            i < self.sessions@.len(),
            forall|id: PaneId| #[trigger] call_requires(*find, (id,)),
        ensures
            forall|path: spec_fn(PaneId) -> Option<Seq<char>>| #[trigger]
                finds_path(*find, path) ==> texts_of(final(lines)@) == texts_of(old(lines)@) + windows_pane_lines(
                    self.states()[i as int],
                    self.opts,
                    span,
                    path,
                    self.states()[i as int].windows.len() as int,
                ),
    {
        let ghost s = self.states()[i as int];
        let ghost start = texts_of(lines@);
        assert(s == self.sessions@[i as int]@);
        let mut j: usize = 0;
        assert(start + Seq::<Seq<char>>::empty() =~= start);
        while j < self.sessions[i].windows.len()
            invariant
                self.wf(),
                i < self.sessions@.len(),
                j <= self.sessions@[i as int].windows@.len() == s.windows.len(),
                s == self.states()[i as int],
                forall|id: PaneId| #[trigger] call_requires(*find, (id,)),
                forall|path: spec_fn(PaneId) -> Option<Seq<char>>| #[trigger]
                    finds_path(*find, path) ==> texts_of(lines@) == start + windows_pane_lines(
                        s,
                        self.opts,
                        span,
                        path,
                        j as int,
                    ),
            decreases self.sessions@[i as int].windows@.len() - j,
        {
            self.push_panes(lines, i, j, span, find);
            j = j + 1;
            proof {
                assert forall|path: spec_fn(PaneId) -> Option<Seq<char>>| #[trigger]
                    finds_path(*find, path) implies texts_of(lines@) == start + windows_pane_lines(
                    s,
                    self.opts,
                    span,
                    path,
                    j as int,
                ) by {
                    let l = windows_pane_lines(s, self.opts, span, path, j - 1);
                    let more = pane_lines(
                        s,
                        j - 1,
                        self.opts,
                        span,
                        path,
                        panes(s.windows[j - 1].tree).len() as int,
                    );
                    assert((start + l) + more =~= start + (l + more));
                }
            }
        }
    }

    /// `list-panes`; `find` gives the directory a pane is in.
    pub fn list_panes<F: Fn(PaneId) -> Option<String>>(
        &self,
        target: Option<&Target>,
        cid: Option<ClientId>,
        span: Span,
        find: &F,
    ) -> (out: Outcome)
        requires
            self.wf(),
            forall|id: PaneId| #[trigger] call_requires(*find, (id,)),
        ensures
            match place_for(self.states(), self.clients@, self.opts, aimed(target), cid) {
                Err(e) => out@ == Ended::Error(e),
                Ok(p) => forall|path: spec_fn(PaneId) -> Option<Seq<char>>| #[trigger]
                    finds_path(*find, path) ==> ({
                        let lines = listed_panes(self.states(), self.opts, p.session, p.window, span, path);
                        out@ == Ended::Text(joined_by(lines, "\n"@, lines.len() as int))
                    }),
            },
    {
        let (i, j) = match self.find_place(target, cid) {
            Ok((i, j, _)) => (i, j),
            Err(e) => {
                return Outcome::Error(e);
            },
        };
        let mut lines: Vec<String> = Vec::new();
        let ghost none = texts_of(lines@);
        assert(none =~= Seq::empty());
        proof {
            assert forall|x: Seq<Seq<char>>| #[trigger] (none + x) == x by {
                assert(none + x =~= x);
            }
        }
        match span {
            Span::Window => self.push_panes(&mut lines, i, j, span, find),
            Span::Session => self.push_windows(&mut lines, i, span, find),
            Span::All => {
                let mut k: usize = 0;
                while k < self.sessions.len()
                    invariant
                        self.wf(),
                        k <= self.sessions@.len(),
                        forall|id: PaneId| #[trigger] call_requires(*find, (id,)),
                        forall|path: spec_fn(PaneId) -> Option<Seq<char>>| #[trigger]
                            finds_path(*find, path) ==> texts_of(lines@) == all_pane_lines(
                                self.states(),
                                self.opts,
                                path,
                                k as int,
                            ),
                    decreases self.sessions.len() - k,
                {
                    self.push_windows(&mut lines, k, Span::All, find);
                    k = k + 1;
                }
            },
        }
        Outcome::Text(join_texts(&lines, "\n"))
    }
}

/// A text comes before another, character by character.
pub open spec fn text_before(a: Seq<char>, b: Seq<char>, i: int) -> bool
    decreases a.len() - i,
{
    if i >= a.len() {
        i < b.len()
    } else if i >= b.len() {
        false
    } else if a[i] == b[i] {
        text_before(a, b, i + 1)
    } else {
        a[i] < b[i]
    }
}

/// No text comes before the one in front of it.
pub open spec fn in_text_order(v: Seq<Seq<char>>) -> bool {
    forall|i: int, j: int| 0 <= i < j < v.len() ==> !text_before(#[trigger] v[j], #[trigger] v[i], 0)
}

proof fn lemma_before_goes_on(a: Seq<char>, b: Seq<char>, c: Seq<char>, i: int)
    requires
        0 <= i,
        !text_before(b, a, i),
        !text_before(c, b, i),
    ensures
        !text_before(c, a, i),
    decreases c.len() - i,
{
    if i < c.len() && i < a.len() && c[i] == a[i] {
        if i < b.len() && b[i] == a[i] {
            lemma_before_goes_on(a, b, c, i + 1);
        }
    }
}

fn comes_before(a: &str, b: &str) -> (r: bool)
    ensures
        r == text_before(a@, b@, 0),
{
    let x = chars_of(a);
    let y = chars_of(b);
    let mut i: usize = 0;
    while i < x.len()
        invariant
            i <= x@.len(),
            x@ == a@,
            y@ == b@,
            i <= y@.len(),
            text_before(x@, y@, 0) == text_before(x@, y@, i as int),
        decreases x.len() - i,
    {
        if i >= y.len() {
            return false;
        }
        if x[i] != y[i] {
            return x[i] < y[i];
        }
        i = i + 1;
    }
    i < y.len()
}

/// Lines in the order of their text.
pub fn sort_texts(v: Vec<String>) -> (out: Vec<String>)
    ensures
        in_text_order(texts_of(out@)),
        texts_of(out@).to_multiset() == texts_of(v@).to_multiset(),
{
    broadcast use vstd::seq_lib::group_to_multiset_ensures;

    let mut out: Vec<String> = Vec::new();
    let mut k: usize = 0;
    assert(texts_of(out@) =~= texts_of(v@).take(0));
    while k < v.len()
        invariant
            k <= v@.len(),
            in_text_order(texts_of(out@)),
            texts_of(out@).to_multiset() == texts_of(v@).take(k as int).to_multiset(),
        decreases v.len() - k,
    {
        let ghost before = texts_of(out@);
        let ghost x = v@[k as int]@;
        let mut i: usize = out.len();
        while i > 0 && comes_before(v[k].as_str(), out[i - 1].as_str())
            invariant
                k < v@.len(),
                x == v@[k as int]@,
                i <= out@.len(),
                before == texts_of(out@),
                forall|j: int| i <= j < before.len() ==> text_before(x, #[trigger] before[j], 0),
            decreases i,
        {
            assert(before[i - 1] == out@[i - 1]@);
            i = i - 1;
        }
        out.insert(i, v[k].as_str().to_owned());
        proof {
            broadcast use vstd::seq_lib::group_to_multiset_ensures;

            let after = texts_of(out@);
            assert(after =~= before.insert(i as int, x));
            assert(after.to_multiset() == before.to_multiset().insert(x));
            lemma_inserted(before, x, i as int);
            assert(texts_of(v@).take(k + 1) =~= texts_of(v@).take(k as int).push(x));
        }
        k = k + 1;
    }
    assert(texts_of(v@).take(k as int) =~= texts_of(v@));
    out
}

proof fn lemma_not_both(a: Seq<char>, b: Seq<char>, i: int)
    requires
        0 <= i,
        text_before(a, b, i),
    ensures
        !text_before(b, a, i),
    decreases a.len() - i,
{
    if i < a.len() && i < b.len() && a[i] == b[i] {
        lemma_not_both(a, b, i + 1);
    }
}

proof fn lemma_inserted(v: Seq<Seq<char>>, x: Seq<char>, i: int)
    requires
        0 <= i <= v.len(),
        in_text_order(v),
        forall|j: int| i <= j < v.len() ==> text_before(x, #[trigger] v[j], 0),
        i > 0 ==> !text_before(x, v[i - 1], 0),
    ensures
        in_text_order(v.insert(i, x)),
{
    let w = v.insert(i, x);
    assert forall|a: int, b: int| 0 <= a < b < w.len() implies !text_before(#[trigger] w[b], #[trigger] w[a], 0) by {
        if a == i {
            assert(w[b] == v[b - 1]);
            lemma_not_both(x, v[b - 1], 0);
        } else if b == i {
            assert(w[a] == v[a]);
            if a < i - 1 {
                assert(!text_before(v[i - 1], v[a], 0));
                lemma_before_goes_on(v[a], v[i - 1], x, 0);
            }
        } else {
            let a0 = if a < i {
                a
            } else {
                a - 1
            };
            let b0 = if b < i {
                b
            } else {
                b - 1
            };
            assert(w[a] == v[a0] && w[b] == v[b0]);
        }
    }
}

/// The line of a client in `list-clients`.
pub open spec fn client_line(ss: Seq<SessionState>, c: Client) -> Seq<char> {
    "client-"@ + decimal(c.id as nat) + ": "@ + ss[crate::server::session_place(ss, c.session->0, 0)].name + " ["@
        + decimal(c.cols as nat) + "x"@ + decimal(c.rows as nat) + "]"@
}

/// The lines of the first `k` clients, of those that look at a session.
pub open spec fn client_lines(ss: Seq<SessionState>, cs: Seq<Client>, k: int) -> Seq<Seq<char>>
    decreases k,
{
    if k <= 0 {
        Seq::empty()
    } else if cs[k - 1].session is Some {
        client_lines(ss, cs, k - 1).push(client_line(ss, cs[k - 1]))
    } else {
        client_lines(ss, cs, k - 1)
    }
}

impl Server {
    /// `list-clients`: a line for every client that looks at a session, in
    /// the order of their text.
    pub fn list_clients(&self) -> (out: Outcome)
        requires
            self.wf(),
        ensures
            ({
                let lines = client_lines(self.states(), self.clients@, self.clients@.len() as int);
                if lines.len() == 0 {
                    out@ == Ended::Text("no clients attached"@)
                } else {
                    exists|sorted: Seq<Seq<char>>| #[trigger]
                        in_text_order(sorted) && sorted.to_multiset() == lines.to_multiset() && out@ == Ended::Text(
                            joined_by(sorted, "\n"@, lines.len() as int),
                        )
                }
            }),
    {
        let mut lines: Vec<String> = Vec::new();
        let ghost ss = self.states();
        let mut k: usize = 0;
        assert(texts_of(lines@) =~= Seq::empty());
        while k < self.clients.len()
            invariant
                k <= self.clients@.len(),
                self.wf(),
                ss == self.states(),
                texts_of(lines@) == client_lines(ss, self.clients@, k as int),
            decreases self.clients.len() - k,
        {
            let c = &self.clients[k];
            if let Some(sid) = c.session {
                let i: usize = self.session_at(sid);
                assert(i < self.sessions@.len());
                assert(ss[i as int] == self.sessions@[i as int]@);
                let mut l = joined3("client-", number_text(c.id as u64).as_str(), ": ");
                l.push_str(self.sessions[i].name.as_str());
                l.push_str(" [");
                push_decimal(&mut l, c.cols as u64);
                l.push_str("x");
                push_decimal(&mut l, c.rows as u64);
                l.push_str("]");
                let ghost before = texts_of(lines@);
                let ghost text = l@;
                lines.push(l);
                assert(texts_of(lines@) =~= before.push(text));
            }
            k = k + 1;
        }
        if lines.len() == 0 {
            return Outcome::Text("no clients attached".to_owned());
        }
        let ghost all = texts_of(lines@);
        let sorted = sort_texts(lines);
        proof {
            broadcast use vstd::seq_lib::group_to_multiset_ensures;

            assert(texts_of(sorted@).to_multiset().len() == all.to_multiset().len());
            assert(texts_of(sorted@).len() == all.len());
        }
        Outcome::Text(join_texts(&sorted, "\n"))
    }
}

/// The variables set for new panes.
#[derive(Debug)]
pub struct Environment {
    pub vars: Vec<(String, String)>,
}

/// The variables as mathematics.
pub open spec fn variables(v: Seq<(String, String)>) -> Seq<(Seq<char>, Seq<char>)> {
    Seq::new(v.len(), |i: int| (v[i].0@, v[i].1@))
}

/// The first `k` variables but the one of that name.
pub open spec fn vars_without(v: Seq<(Seq<char>, Seq<char>)>, name: Seq<char>, k: int) -> Seq<(Seq<char>, Seq<char>)>
    decreases k,
{
    if k <= 0 {
        Seq::empty()
    } else if v[k - 1].0 != name {
        vars_without(v, name, k - 1).push(v[k - 1])
    } else {
        vars_without(v, name, k - 1)
    }
}

/// The first variable of that name from `i` on.
pub open spec fn var_at(v: Seq<(Seq<char>, Seq<char>)>, name: Seq<char>, i: int) -> Option<Seq<char>>
    decreases v.len() - i,
{
    if i >= v.len() {
        None
    } else if v[i].0 == name {
        Some(v[i].1)
    } else {
        var_at(v, name, i + 1)
    }
}

/// A variable as `show-environment` writes it.
pub open spec fn var_line(x: (Seq<char>, Seq<char>)) -> Seq<char> {
    x.0 + "="@ + x.1
}

impl Environment {
    /// `set-environment`: a variable is set anew, last, or taken away.
    pub fn set(&mut self, name: String, value: Option<String>, remove: bool)
        ensures
            ({
                let v = variables(old(self).vars@);
                let left = vars_without(v, name@, v.len() as int);
                variables(final(self).vars@) == match value {
                    Some(x) => if remove {
                        left
                    } else {
                        left.push((name@, x@))
                    },
                    None => left,
                }
            }),
    {
        let ghost v = variables(self.vars@);
        let mut left: Vec<(String, String)> = Vec::new();
        let mut k: usize = 0;
        assert(variables(left@) =~= Seq::empty());
        while k < self.vars.len()
            invariant
                k <= self.vars@.len(),
                v == variables(self.vars@),
                variables(left@) == vars_without(v, name@, k as int),
            decreases self.vars.len() - k,
        {
            let ghost before = variables(left@);
            if !same_text(self.vars[k].0.as_str(), name.as_str()) {
                left.push((self.vars[k].0.as_str().to_owned(), self.vars[k].1.as_str().to_owned()));
                assert(variables(left@) =~= before.push(v[k as int]));
            }
            k = k + 1;
        }
        let ghost before = variables(left@);
        if let Some(x) = value {
            if !remove {
                let ghost pair = (name@, x@);
                left.push((name, x));
                assert(variables(left@) =~= before.push(pair));
            }
        }
        self.vars = left;
    }

    /// `show-environment`: one variable, or all of them.
    pub fn show(&self, name: Option<&str>) -> (out: Outcome)
        ensures
            ({
                let v = variables(self.vars@);
                out@ == match crate::popup::text_of(name) {
                    Some(n) => match var_at(v, n, 0) {
                        Some(x) => Ended::Text(var_line((n, x))),
                        None => Ended::Error("unknown variable: "@ + n),
                    },
                    None => if v.len() == 0 {
                        Ended::Text("no variables set"@)
                    } else {
                        Ended::Text(
                            joined_by(Seq::new(v.len(), |i: int| var_line(v[i])), "\n"@, v.len() as int),
                        )
                    },
                }
            }),
    {
        let ghost v = variables(self.vars@);
        match name {
            Some(n) => {
                let mut k: usize = 0;
                while k < self.vars.len()
                    invariant
                        k <= self.vars@.len(),
                        v == variables(self.vars@),
                        name == Some(n),
                        var_at(v, n@, 0) == var_at(v, n@, k as int),
                    decreases self.vars.len() - k,
                {
                    assert(v[k as int] == (self.vars@[k as int].0@, self.vars@[k as int].1@));
                    if same_text(self.vars[k].0.as_str(), n) {
                        return Outcome::Text(joined3(n, "=", self.vars[k].1.as_str()));
                    }
                    k = k + 1;
                }
                Outcome::Error(joined2("unknown variable: ", n))
            },
            None => {
                if self.vars.len() == 0 {
                    return Outcome::Text("no variables set".to_owned());
                }
                let mut lines: Vec<String> = Vec::new();
                let mut k: usize = 0;
                while k < self.vars.len()
                    invariant
                        k <= self.vars@.len(),
                        k == lines@.len(),
                        v == variables(self.vars@),
                        forall|i: int| 0 <= i < k ==> (#[trigger] lines@[i])@ == var_line(v[i]),
                    decreases self.vars.len() - k,
                {
                    lines.push(joined3(self.vars[k].0.as_str(), "=", self.vars[k].1.as_str()));
                    k = k + 1;
                }
                assert(texts_of(lines@) =~= Seq::new(v.len(), |i: int| var_line(v[i])));
                Outcome::Text(join_texts(&lines, "\n"))
            },
        }
    }
}

proof fn lemma_without_name(v: Seq<(Seq<char>, Seq<char>)>, name: Seq<char>, k: int)
    requires
        0 <= k <= v.len(),
    ensures
        forall|i: int| 0 <= i < vars_without(v, name, k).len() ==> (#[trigger] vars_without(v, name, k)[i]).0 != name,
    decreases k,
{
    if k > 0 {
        lemma_without_name(v, name, k - 1);
        let w = vars_without(v, name, k - 1);
        let x = vars_without(v, name, k);
        assert forall|i: int| 0 <= i < x.len() implies (#[trigger] x[i]).0 != name by {
            if i < w.len() {
                assert(x[i] == w[i]);
            }
        }
    }
}

proof fn lemma_var_behind(v: Seq<(Seq<char>, Seq<char>)>, name: Seq<char>, x: Seq<char>, i: int)
    requires
        0 <= i <= v.len(),
        forall|j: int| i <= j < v.len() ==> (#[trigger] v[j]).0 != name,
    ensures
        var_at(v.push((name, x)), name, i) == Some(x),
        var_at(v, name, i) is None,
    decreases v.len() - i,
{
    if i < v.len() {
        lemma_var_behind(v, name, x, i + 1);
    }
}

/// A variable that was set reads back, and one that was taken away is gone.
pub proof fn lemma_variable_reads_back(v: Seq<(Seq<char>, Seq<char>)>, name: Seq<char>, x: Seq<char>)
    ensures
        var_at(vars_without(v, name, v.len() as int).push((name, x)), name, 0) == Some(x),
        var_at(vars_without(v, name, v.len() as int), name, 0) is None,
{
    lemma_without_name(v, name, v.len() as int);
    lemma_var_behind(vars_without(v, name, v.len() as int), name, x, 0);
}

/// How many messages are remembered.
pub const MESSAGES: usize = 100;

/// The messages remembered after one more.
pub open spec fn remembered(all: Seq<Seq<char>>, text: Seq<char>) -> Seq<Seq<char>> {
    let more = all.push(text);
    if more.len() > MESSAGES {
        more.skip(1)
    } else {
        more
    }
}

/// The messages shown lately, oldest first.
#[derive(Debug)]
pub struct Messages {
    pub texts: Vec<String>,
}

impl Messages {
    /// Remember a message, with the time of day.
    pub fn note(&mut self, text: &str, now: Time)
        requires
            now.valid(),
        ensures
            texts_of(final(self).texts@) == remembered(texts_of(old(self).texts@), clock(now) + " "@ + text@),
    {
        let ghost before = texts_of(self.texts@);
        let line = joined3(format_time(now, "%H:%M:%S").as_str(), " ", text);
        let ghost l = line@;
        self.texts.push(line);
        assert(texts_of(self.texts@) =~= before.push(l));
        if self.texts.len() > MESSAGES {
            let _ = self.texts.remove(0);
            assert(texts_of(self.texts@) =~= before.push(l).skip(1));
        }
    }

    /// `show-messages`.
    pub fn show(&self) -> (out: Outcome)
        ensures
            out@ == if self.texts@.len() == 0 {
                Ended::Text("no messages"@)
            } else {
                Ended::Text(joined_by(texts_of(self.texts@), "\n"@, self.texts@.len() as int))
            },
    {
        if self.texts.len() == 0 {
            return Outcome::Text("no messages".to_owned());
        }
        Outcome::Text(join_texts(&self.texts, "\n"))
    }
}

/// The panes of the first `k` windows of `s`, each window's in the order of
/// its layout.
pub open spec fn session_panes(s: SessionState, k: int) -> Seq<PaneId>
    decreases k,
{
    if k <= 0 {
        Seq::empty()
    } else {
        session_panes(s, k - 1) + panes(s.windows[k - 1].tree)
    }
}

/// The panes of the first `k` sessions.
pub open spec fn sessions_panes(ss: Seq<SessionState>, k: int) -> Seq<PaneId>
    decreases k,
{
    if k <= 0 {
        Seq::empty()
    } else {
        sessions_panes(ss, k - 1) + session_panes(ss[k - 1], ss[k - 1].windows.len() as int)
    }
}

/// The panes that `list-panes` lists around window `j` of session `i`.
pub open spec fn panes_listed(ss: Seq<SessionState>, i: int, j: int, span: Span) -> Seq<PaneId> {
    match span {
        Span::Window => panes(ss[i].windows[j].tree),
        Span::Session => session_panes(ss[i], ss[i].windows.len() as int),
        Span::All => sessions_panes(ss, ss.len() as int),
    }
}

impl Server {
    fn push_ids(&self, out: &mut Vec<PaneId>, i: usize)
        requires
            i < self.states().len(),
        ensures
            final(out)@ == old(out)@ + session_panes(
                self.states()[i as int],
                self.states()[i as int].windows.len() as int,
            ),
    {
        let ghost s = self.states()[i as int];
        let ghost start = out@;
        let mut j: usize = 0;
        assert(s == self.sessions@[i as int]@);
        assert(start + session_panes(s, 0) =~= start);
        while j < self.sessions[i].windows.len()
            invariant
                i < self.sessions@.len(),
                s == self.sessions@[i as int]@,
                j <= self.sessions@[i as int].windows@.len() == s.windows.len(),
                out@ == start + session_panes(s, j as int),
            decreases self.sessions@[i as int].windows@.len() - j,
        {
            let mut more = self.sessions[i].windows[j].layout.panes();
            assert(s.windows[j as int] == self.sessions@[i as int].windows@[j as int]@);
            assert(start + (session_panes(s, j as int) + more@) =~= out@ + more@);
            out.append(&mut more);
            j = j + 1;
        }
    }

    /// The panes that `list-panes -F` prints a line each for, in order.
    pub fn panes_to_list(&self, target: Option<&Target>, cid: Option<ClientId>, span: Span) -> (r: Result<
        Vec<PaneId>,
        String,
    >)
        requires
            self.wf(),
        ensures
            match place_for(self.states(), self.clients@, self.opts, aimed(target), cid) {
                Err(e) => r is Err && r->Err_0@ == e,
                Ok(p) => r is Ok && r->Ok_0@ == panes_listed(self.states(), p.session, p.window, span),
            },
    {
        let (i, j) = match self.find_place(target, cid) {
            Ok((i, j, _)) => (i, j),
            Err(e) => {
                return Err(e);
            },
        };
        let ghost ss = self.states();
        assert(ss[i as int] == self.sessions@[i as int]@);
        assert(ss[i as int].windows[j as int] == self.sessions@[i as int].windows@[j as int]@);
        let mut out: Vec<PaneId> = Vec::new();
        match span {
            Span::Window => {
                out = self.sessions[i].windows[j].layout.panes();
            },
            Span::Session => {
                self.push_ids(&mut out, i);
                assert(out@ =~= session_panes(ss[i as int], ss[i as int].windows.len() as int));
            },
            Span::All => {
                let mut k: usize = 0;
                while k < self.sessions.len()
                    invariant
                        ss == self.states(),
                        k <= self.sessions@.len(),
                        out@ == sessions_panes(ss, k as int),
                    decreases self.sessions.len() - k,
                {
                    self.push_ids(&mut out, k);
                    k = k + 1;
                }
            },
        }
        Ok(out)
    }
}

} // verus!
