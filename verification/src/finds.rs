//! Looking for text in panes, and for windows by what they are called.
use vstd::prelude::*;

use crate::chooser::{Chooser, ChooserItem, ChooserKind, ClientId, SessionId, WindowId};
use crate::command::{Ended, Outcome, Target};
use crate::display::{listed, one_line, push_spaces, spaces};
use crate::layout::{panes, PaneId};
use crate::screen::Screen;
use crate::server::{aimed, pane_for, pane_id_part, pane_part, session_for, session_part, window_part, Options, Server};
use crate::session::SessionState;
use crate::text::{chars_of, decimal, find_text, holds, join_texts, joined2, joined3, joined_by, lower, lowercase, number_text, push_sum, texts_of};
use crate::window::{lemma_place_of, place_of, WindowState};

verus! {

/// Where to look: everywhere, or in one session, one of its windows, one of
/// its panes.
#[derive(Clone, Copy, Debug, PartialEq, Eq, Structural)]
pub struct Scope {
    pub session: Option<usize>,
    pub window: Option<usize>,
    pub pane: Option<PaneId>,
}

/// Where a `find-text` target says to look.
pub open spec fn scope_for(
    ss: Seq<SessionState>,
    cs: Seq<crate::client::Client>,
    opts: Options,
    t: Option<Target>,
    cid: Option<ClientId>,
) -> Result<Scope, Seq<char>> {
    match t {
        None => Ok(Scope { session: None, window: None, pane: None }),
        Some(x) => match session_for(ss, cs, pane_id_part(t), session_part(t), cid) {
            Err(e) => Err(e),
            Ok(i) => {
                let named = ss[i].window_named(pane_id_part(t), window_part(t), opts.base_index);
                if x.window is Some && named is Err {
                    Err(named->Err_0)
                } else {
                    let window: Option<int> = if x.window is Some {
                        Some(named->Ok_0)
                    } else {
                        None
                    };
                    let j = match window {
                        Some(j) => j,
                        None => ss[i].cur,
                    };
                    let p = pane_for(ss[i].windows[j], pane_id_part(t), pane_part(t), opts.pane_base_index);
                    if x.pane is Some && p is Err {
                        Err(p->Err_0)
                    } else {
                        Ok(
                            Scope {
                                session: Some(i as usize),
                                window: match window {
                                    Some(j) => Some(j as usize),
                                    None => None,
                                },
                                pane: if x.pane is Some {
                                    Some(p->Ok_0)
                                } else {
                                    None
                                },
                            },
                        )
                    }
                }
            },
        },
    }
}

/// What a pane is called in a list of hits.
pub open spec fn place_label(s: SessionState, j: int, k: int, opts: Options) -> Seq<char> {
    s.name + ":"@ + decimal((j + opts.base_index) as nat) + "."@ + decimal((k + opts.pane_base_index) as nat)
}

/// The panes of a window to look in, of the first `k`.
pub open spec fn window_places(s: SessionState, j: int, only: Option<PaneId>, opts: Options, k: int) -> Seq<
    (Seq<char>, PaneId),
>
    decreases k,
{
    if k <= 0 {
        Seq::empty()
    } else {
        let before = window_places(s, j, only, opts, k - 1);
        let id = panes(s.windows[j].tree)[k - 1];
        if only is None || only == Some(id) {
            before.push((place_label(s, j, k - 1, opts), id))
        } else {
            before
        }
    }
}

/// The panes of the first `k` windows of a session to look in.
pub open spec fn session_places(s: SessionState, window: Option<usize>, only: Option<PaneId>, opts: Options, k: int) -> Seq<
    (Seq<char>, PaneId),
>
    decreases k,
{
    if k <= 0 {
        Seq::empty()
    } else {
        let before = session_places(s, window, only, opts, k - 1);
        if window is None || window == Some((k - 1) as usize) {
            before + window_places(s, k - 1, only, opts, panes(s.windows[k - 1].tree).len() as int)
        } else {
            before
        }
    }
}

/// The panes of the first `k` sessions to look in.
pub open spec fn all_places(ss: Seq<SessionState>, scope: Scope, opts: Options, k: int) -> Seq<(Seq<char>, PaneId)>
    decreases k,
{
    if k <= 0 {
        Seq::empty()
    } else {
        let before = all_places(ss, scope, opts, k - 1);
        if scope.session is None || scope.session == Some((k - 1) as usize) {
            before + session_places(ss[k - 1], scope.window, scope.pane, opts, ss[k - 1].windows.len() as int)
        } else {
            before
        }
    }
}

/// Places as mathematics.
pub open spec fn places_of(v: Seq<(String, PaneId)>) -> Seq<(Seq<char>, PaneId)> {
    Seq::new(v.len(), |i: int| (v[i].0@, v[i].1))
}

impl Server {
    /// Where `find-text` looks. No target at all is everywhere; one that
    /// names something that is not there is said to be so, rather than
    /// reported as an empty search.
    pub fn search_scope(&self, target: Option<&Target>, cid: Option<ClientId>) -> (r: Result<Scope, String>)
        requires
            self.wf(),
        ensures
            match (r, scope_for(self.states(), self.clients@, self.opts, aimed(target), cid)) {
                (Ok(a), Ok(b)) => a == b,
                (Err(a), Err(b)) => a@ == b,
                _ => false,
            },
    {
        match target {
            None => Ok(Scope { session: None, window: None, pane: None }),
            Some(t) => {
                let i: usize = match self.find_session(target, cid) {
                    Ok(i) => i,
                    Err(e) => {
                        return Err(e);
                    },
                };
                assert(self.states()[i as int] == self.sessions@[i as int]@);
                assert(self.states()[i as int].wf());
                let mut window: Option<usize> = None;
                let mut j: usize = self.sessions[i].cur;
                if t.window.is_some() {
                    match self.window_in(i, target) {
                        Ok(w) => {
                            window = Some(w);
                            j = w;
                        },
                        Err(e) => {
                            return Err(e);
                        },
                    }
                }
                let mut pane: Option<PaneId> = None;
                if t.pane.is_some() {
                    match self.pane_in(i, j, target) {
                        Ok(p) => {
                            pane = Some(p);
                        },
                        Err(e) => {
                            return Err(e);
                        },
                    }
                }
                Ok(Scope { session: Some(i), window, pane })
            },
        }
    }

    fn push_places(&self, out: &mut Vec<(String, PaneId)>, i: usize, j: usize, only: Option<PaneId>)
        requires
            i < self.sessions@.len(),
            j < self.states()[i as int].windows.len(),
        ensures
            places_of(final(out)@) == places_of(old(out)@) + window_places(
                self.states()[i as int],
                j as int,
                only,
                self.opts,
                panes(self.states()[i as int].windows[j as int].tree).len() as int,
            ),
    {
        let ghost s = self.states()[i as int];
        let ghost start = places_of(out@);
        assert(s == self.sessions@[i as int]@);
        assert(s.windows[j as int] == self.sessions@[i as int].windows@[j as int]@);
        let order = self.sessions[i].windows[j].layout.panes();
        let mut k: usize = 0;
        assert(start + Seq::<(Seq<char>, PaneId)>::empty() =~= start);
        while k < order.len()
            invariant
                k <= order@.len(),
                i < self.sessions@.len(),
                s == self.sessions@[i as int]@,
                order@ == panes(s.windows[j as int].tree),
                places_of(out@) == start + window_places(s, j as int, only, self.opts, k as int),
            decreases order.len() - k,
        {
            let id: PaneId = order[k];
            let wanted: bool = match only {
                Some(o) => o == id,
                None => true,
            };
            if wanted {
                let mut l = joined2(self.sessions[i].name.as_str(), ":");
                push_sum(&mut l, j as u64, self.opts.base_index as u64);
                l.push_str(".");
                push_sum(&mut l, k as u64, self.opts.pane_base_index as u64);
                let ghost before = places_of(out@);
                let ghost l0 = l@;
                let ghost so_far = window_places(s, j as int, only, self.opts, k as int);
                out.push((l, id));
                assert(places_of(out@) =~= before.push((l0, id)));
                assert((start + so_far).push((l0, id)) =~= start + so_far.push((l0, id)));
            }
            k = k + 1;
        }
    }

    /// The panes to look in: what each is called, and its number.
    pub fn search_places(&self, scope: &Scope) -> (out: Vec<(String, PaneId)>)
        ensures
            places_of(out@) == all_places(self.states(), *scope, self.opts, self.states().len() as int),
    {
        let mut out: Vec<(String, PaneId)> = Vec::new();
        let ghost ss = self.states();
        let mut i: usize = 0;
        assert(places_of(out@) =~= Seq::empty());
        while i < self.sessions.len()
            invariant
                i <= self.sessions@.len(),
                ss == self.states(),
                places_of(out@) == all_places(ss, *scope, self.opts, i as int),
            decreases self.sessions.len() - i,
        {
            let inside: bool = match scope.session {
                Some(s) => s == i,
                None => true,
            };
            if inside {
                let ghost start = places_of(out@);
                let ghost s = ss[i as int];
                assert(s == self.sessions@[i as int]@);
                let mut j: usize = 0;
                assert(start + Seq::<(Seq<char>, PaneId)>::empty() =~= start);
                while j < self.sessions[i].windows.len()
                    invariant
                        i < self.sessions@.len(),
                        s == self.sessions@[i as int]@,
                        s == self.states()[i as int],
                        j <= self.sessions@[i as int].windows@.len() == s.windows.len(),
                        places_of(out@) == start + session_places(s, scope.window, scope.pane, self.opts, j as int),
                    decreases self.sessions@[i as int].windows@.len() - j,
                {
                    let here: bool = match scope.window {
                        Some(w) => w == j,
                        None => true,
                    };
                    if here {
                        let ghost so_far = session_places(s, scope.window, scope.pane, self.opts, j as int);
                        let ghost more = window_places(
                            s,
                            j as int,
                            scope.pane,
                            self.opts,
                            panes(s.windows[j as int].tree).len() as int,
                        );
                        self.push_places(&mut out, i, j, scope.pane);
                        assert((start + so_far) + more =~= start + (so_far + more));
                    }
                    j = j + 1;
                }
            }
            i = i + 1;
        }
        out
    }
}

/// A line found: the pane's name, how far back from the newest line, and the
/// text.
#[derive(Debug)]
pub struct Hit {
    pub label: String,
    pub back: usize,
    pub text: String,
}

/// Hits as mathematics.
pub open spec fn hit_values(v: Seq<Hit>) -> Seq<(Seq<char>, int, Seq<char>)> {
    Seq::new(v.len(), |i: int| (v[i].label@, v[i].back as int, v[i].text@))
}

/// What was found in a pane, as it is listed.
pub open spec fn pane_hits(label: Seq<char>, total: int, found: Seq<(int, Seq<char>)>) -> Seq<(Seq<char>, int, Seq<char>)> {
    Seq::new(
        found.len(),
        |i: int|
            (
                label,
                if total > found[i].0 + 1 {
                    total - (found[i].0 + 1)
                } else {
                    0
                },
                listed(found[i].1, 120),
            ),
    )
}

/// Look for text in a pane: its newest lines first, at most `max`.
pub fn search_pane(label: &str, screen: &Screen, pattern: &str, max: usize, case_sensitive: bool) -> (hits: Vec<Hit>)
    requires
        screen.wf(),
    ensures
        hit_values(hits@) == pane_hits(
            label@,
            screen.lines@.len() as int,
            if pattern@.len() == 0 {
                Seq::empty()
            } else {
                screen.found(pattern@, case_sensitive, screen.lines@.len() as int, max as int)
            },
        ),
{
    let found = screen.search(pattern, max, case_sensitive);
    let ghost all = Seq::new(found@.len(), |k: int| (found@[k].0 as int, found@[k].1@));
    let total: usize = screen.lines.len();
    let mut hits: Vec<Hit> = Vec::new();
    let mut k: usize = 0;
    while k < found.len()
        invariant
            k <= found@.len(),
            k == hits@.len(),
            total == screen.lines@.len(),
            all == Seq::new(found@.len(), |k: int| (found@[k].0 as int, found@[k].1@)),
            forall|i: int| 0 <= i < k ==> ({
                let h = #[trigger] hits@[i];
                (h.label@, h.back as int, h.text@) == pane_hits(label@, total as int, all)[i]
            }),
        decreases found.len() - k,
    {
        let at: usize = found[k].0;
        let back: usize = if at < total { total - at - 1 } else { 0 };
        let text = one_line(found[k].1.as_str(), 120);
        hits.push(Hit { label: label.to_owned(), back, text });
        k = k + 1;
    }
    assert(hit_values(hits@) =~= pane_hits(label@, total as int, all));
    hits
}

/// The longest label among the first `k` hits.
pub open spec fn widest(hits: Seq<(Seq<char>, int, Seq<char>)>, k: int) -> int
    decreases k,
{
    if k <= 0 {
        0
    } else if hits[k - 1].0.len() > widest(hits, k - 1) {
        hits[k - 1].0.len() as int
    } else {
        widest(hits, k - 1)
    }
}

/// The longest number among the first `k` hits.
pub open spec fn longest(hits: Seq<(Seq<char>, int, Seq<char>)>, k: int) -> int
    decreases k,
{
    if k <= 0 {
        0
    } else if decimal(hits[k - 1].1 as nat).len() > longest(hits, k - 1) {
        decimal(hits[k - 1].1 as nat).len() as int
    } else {
        longest(hits, k - 1)
    }
}

/// A hit as a line, its columns this wide.
pub open spec fn hit_line(h: (Seq<char>, int, Seq<char>), wide: int, back: int) -> Seq<char> {
    h.0 + spaces(wide - h.0.len()) + "  -"@ + spaces(back - decimal(h.1 as nat).len()) + decimal(h.1 as nat) + "  "@ + h.2
}

pub open spec fn hit_lines(hits: Seq<(Seq<char>, int, Seq<char>)>) -> Seq<Seq<char>> {
    let n = hits.len() as int;
    Seq::new(hits.len(), |i: int| hit_line(hits[i], widest(hits, n), longest(hits, n)))
}

/// All that was found, one column each for the pane and how far back it was,
/// so a list of hits reads down the page.
pub fn list_hits(hits: &Vec<Hit>, pattern: &str) -> (out: Outcome)
    ensures
        out@ == if hits@.len() == 0 {
            Ended::Error("no pane has: "@ + listed(pattern@, 60))
        } else {
            Ended::Text(joined_by(hit_lines(hit_values(hits@)), "\n"@, hits@.len() as int))
        },
{
    if hits.len() == 0 {
        return Outcome::Error(joined2("no pane has: ", one_line(pattern, 60).as_str()));
    }
    let ghost hs = hit_values(hits@);
    let mut wide: usize = 0;
    let mut back: usize = 0;
    let mut k: usize = 0;
    while k < hits.len()
        invariant
            k <= hits@.len(),
            hs == hit_values(hits@),
            wide == widest(hs, k as int),
            back == longest(hs, k as int),
        decreases hits.len() - k,
    {
        let n: usize = chars_of(hits[k].label.as_str()).len();
        if n > wide {
            wide = n;
        }
        let d: usize = chars_of(number_text(hits[k].back as u64).as_str()).len();
        if d > back {
            back = d;
        }
        k = k + 1;
    }
    let mut lines: Vec<String> = Vec::new();
    k = 0;
    while k < hits.len()
        invariant
            k <= hits@.len(),
            k == lines@.len(),
            hs == hit_values(hits@),
            wide == widest(hs, hs.len() as int),
            back == longest(hs, hs.len() as int),
            forall|i: int| 0 <= i < k ==> (#[trigger] lines@[i])@ == hit_lines(hs)[i],
        decreases hits.len() - k,
    {
        let h = &hits[k];
        assert(hs[k as int] == (h.label@, h.back as int, h.text@));
        let n: usize = chars_of(h.label.as_str()).len();
        let number = number_text(h.back as u64);
        let d: usize = chars_of(number.as_str()).len();
        proof {
            lemma_widest(hs, k as int, hs.len() as int);
        }
        let mut l = h.label.clone();
        push_spaces(&mut l, wide - n);
        l.push_str("  -");
        push_spaces(&mut l, back - d);
        l.push_str(number.as_str());
        l.push_str("  ");
        l.push_str(h.text.as_str());
        lines.push(l);
        k = k + 1;
    }
    assert(texts_of(lines@) =~= hit_lines(hs));
    Outcome::Text(join_texts(&lines, "\n"))
}

proof fn lemma_widest(hits: Seq<(Seq<char>, int, Seq<char>)>, i: int, k: int)
    requires
        0 <= i < k <= hits.len(),
    ensures
        hits[i].0.len() <= widest(hits, k),
        decimal(hits[i].1 as nat).len() <= longest(hits, k),
    decreases k,
{
    if i < k - 1 {
        lemma_widest(hits, i, k - 1);
    }
}

/// What a window is searched by: its name, the title of its active pane, and
/// its number.
pub open spec fn window_words(w: WindowState, j: int, base: usize) -> Seq<char> {
    w.name + " "@ + w.panes[place_of(w.panes, w.active, 0)].shown_title() + " "@ + decimal((j + base) as nat)
}

/// The first `k` windows of a session that have the words.
pub open spec fn windows_found(s: SessionState, needle: Seq<char>, base: usize, k: int) -> Seq<
    (SessionId, WindowId, Seq<char>),
>
    decreases k,
{
    if k <= 0 {
        Seq::empty()
    } else {
        let before = windows_found(s, needle, base, k - 1);
        let w = s.windows[k - 1];
        if holds(lower(window_words(w, k - 1, base)), needle) {
            before.push((s.id, w.id, s.name + ":"@ + w.name))
        } else {
            before
        }
    }
}

/// The windows of the first `k` sessions that have the words.
pub open spec fn all_found(ss: Seq<SessionState>, needle: Seq<char>, base: usize, k: int) -> Seq<
    (SessionId, WindowId, Seq<char>),
>
    decreases k,
{
    if k <= 0 {
        Seq::empty()
    } else {
        all_found(ss, needle, base, k - 1) + windows_found(ss[k - 1], needle, base, ss[k - 1].windows.len() as int)
    }
}

/// Windows found, as mathematics.
pub open spec fn found_values(v: Seq<(SessionId, WindowId, String)>) -> Seq<(SessionId, WindowId, Seq<char>)> {
    Seq::new(v.len(), |i: int| (v[i].0, v[i].1, v[i].2@))
}

/// What `find-window` leads to.
pub enum Found {
    /// Nothing has the words.
    Nothing(String),
    /// One window: go there.
    One(SessionId, WindowId),
    /// Several: a picker of them.
    Several(Chooser),
}

/// The line of the hit at `i` in the picker.
pub open spec fn found_line(i: int, label: Seq<char>) -> Seq<char> {
    if i < 10 {
        "("@ + decimal(i as nat) + ") "@ + label
    } else {
        "    "@ + label
    }
}

impl Server {
    fn windows_with(&self, pattern: &str) -> (hits: Vec<(SessionId, WindowId, String)>)
        requires
            self.wf(),
        ensures
            found_values(hits@) == all_found(
                self.states(),
                lower(pattern@),
                self.opts.base_index,
                self.states().len() as int,
            ),
    {
        let lowered = lowercase(pattern);
        let needle = chars_of(lowered.as_str());
        let ghost ss = self.states();
        let mut hits: Vec<(SessionId, WindowId, String)> = Vec::new();
        let mut i: usize = 0;
        assert(found_values(hits@) =~= Seq::empty());
        while i < self.sessions.len()
            invariant
                self.wf(),
                i <= self.sessions@.len(),
                ss == self.states(),
                needle@ == lower(pattern@),
                found_values(hits@) == all_found(ss, needle@, self.opts.base_index, i as int),
            decreases self.sessions.len() - i,
        {
            let s = &self.sessions[i];
            let ghost start = found_values(hits@);
            assert(ss[i as int] == s@);
            assert(s@.wf());
            let mut j: usize = 0;
            assert(start + Seq::<(SessionId, WindowId, Seq<char>)>::empty() =~= start);
            while j < s.windows.len()
                invariant
                    j <= s.windows@.len(),
                    s@.wf(),
                    found_values(hits@) == start + windows_found(s@, needle@, self.opts.base_index, j as int),
                decreases s.windows.len() - j,
            {
                let w = &s.windows[j];
                assert(s@.windows[j as int] == w@);
                assert(w@.settled());
                proof {
                    lemma_place_of(w@.panes, w@.active, 0);
                }
                let place: usize = w.place(w.active);
                let mut words = joined3(w.name.as_str(), " ", w.panes[place].display_title());
                words.push_str(" ");
                push_sum(&mut words, j as u64, self.opts.base_index as u64);
                let hay = chars_of(lowercase(words.as_str()).as_str());
                if find_text(&hay, &needle).is_some() {
                    let label = joined3(s.name.as_str(), ":", w.name.as_str());
                    let ghost before = found_values(hits@);
                    let ghost l0 = label@;
                    let ghost so_far = windows_found(s@, needle@, self.opts.base_index, j as int);
                    hits.push((s.id, w.id, label));
                    assert(found_values(hits@) =~= before.push((s.id, w.id, l0)));
                    assert((start + so_far).push((s.id, w.id, l0)) =~= start + so_far.push((s.id, w.id, l0)));
                }
                j = j + 1;
            }
            i = i + 1;
        }
        hits
    }

    /// `find-window`: the windows whose name, title or number has the words.
    pub fn find_window(&self, pattern: &str) -> (found: Found)
        requires
            self.wf(),
        ensures
            ({
                let hits = all_found(
                    self.states(),
                    lower(pattern@),
                    self.opts.base_index,
                    self.states().len() as int,
                );
                match found {
                    Found::Nothing(e) => hits.len() == 0 && e@ == "no window matching: "@ + pattern@,
                    Found::One(s, w) => hits.len() == 1 && hits[0].0 == s && hits[0].1 == w,
                    Found::Several(ch) => {
                        &&& hits.len() > 1
                        &&& ch.kind is Found
                        &&& ch.sel == 0 && ch.top == 0
                        &&& ch.filter@.len() == 0 && ch.tagged@.len() == 0
                        &&& ch.items@ == Seq::new(hits.len(), |i: int| ChooserItem::Tree(hits[i].0, Some(hits[i].1)))
                        &&& texts_of(ch.lines@) == Seq::new(hits.len(), |i: int| found_line(i, hits[i].2))
                    },
                }
            }),
    {
        let hits = self.windows_with(pattern);
        let ghost hs = found_values(hits@);
        if hits.len() == 0 {
            return Found::Nothing(joined2("no window matching: ", pattern));
        }
        if hits.len() == 1 {
            assert(hs[0] == (hits@[0].0, hits@[0].1, hits@[0].2@));
            return Found::One(hits[0].0, hits[0].1);
        }
        let mut items: Vec<ChooserItem> = Vec::new();
        let mut lines: Vec<String> = Vec::new();
        let mut k: usize = 0;
        while k < hits.len()
            invariant
                k <= hits@.len(),
                k == items@.len(),
                k == lines@.len(),
                hs == found_values(hits@),
                forall|i: int| 0 <= i < k ==> #[trigger] items@[i] == ChooserItem::Tree(hs[i].0, Some(hs[i].1)),
                forall|i: int| 0 <= i < k ==> (#[trigger] lines@[i])@ == found_line(i, hs[i].2),
            decreases hits.len() - k,
        {
            items.push(ChooserItem::Tree(hits[k].0, Some(hits[k].1)));
            if k < 10 {
                let mut l = joined3("(", number_text(k as u64).as_str(), ") ");
                l.push_str(hits[k].2.as_str());
                lines.push(l);
            } else {
                lines.push(joined2("    ", hits[k].2.as_str()));
            }
            k = k + 1;
        }
        assert(items@ =~= Seq::new(hs.len(), |i: int| ChooserItem::Tree(hs[i].0, Some(hs[i].1))));
        assert(texts_of(lines@) =~= Seq::new(hs.len(), |i: int| found_line(i, hs[i].2)));
        Found::Several(Chooser::new(ChooserKind::Found, items, lines, 0))
    }
}

} // verus!
