//! The lines of the live pickers, what they show through a filter, and where
//! they take a client.
use std::collections::HashSet;
use vstd::prelude::*;

use crate::arrange::{place_in, position};
use crate::buffers::{buffer_line, Buffers};
use crate::chooser::{chooser_filter, hits, keeps, Chooser, ChooserItem, ClientId, SessionId, WindowId};
use crate::chooser_keys::rows_of;
use crate::client::Client;
use crate::command::Target;
use crate::display::{align_columns, cells_of_rows, jobs_header, padded};
use crate::finds::Scope;
use crate::layout::{panes, PaneId};
use crate::listings::{attached_to, client_line};
use crate::server::{session_place, Server};
use crate::session::{window_place, SessionState};
use crate::text::{decimal, joined2, joined3, lower, number_text, push_decimal, push_sum, texts_of, trim, trim_end};
use crate::window::{lemma_place_of, place_of};

verus! {

/// A pane on the task board: its session, the place of its window, its number.
pub type JobPlace = (SessionId, usize, PaneId);

/// The panes of window `j` that are listed, of the first `k`.
pub open spec fn window_jobs(s: SessionState, j: int, only: Option<PaneId>, k: int) -> Seq<JobPlace>
    decreases k,
{
    if k <= 0 {
        Seq::empty()
    } else {
        let before = window_jobs(s, j, only, k - 1);
        let id = panes(s.windows[j].tree)[k - 1];
        if only is None || only == Some(id) {
            before.push((s.id, j as usize, id))
        } else {
            before
        }
    }
}

/// The panes of the first `k` windows of a session that are listed.
pub open spec fn session_jobs(s: SessionState, window: Option<usize>, only: Option<PaneId>, k: int) -> Seq<JobPlace>
    decreases k,
{
    if k <= 0 {
        Seq::empty()
    } else {
        let before = session_jobs(s, window, only, k - 1);
        if window is None || window == Some((k - 1) as usize) {
            before + window_jobs(s, k - 1, only, panes(s.windows[k - 1].tree).len() as int)
        } else {
            before
        }
    }
}

/// The panes of the first `k` sessions that `jobs` lists.
pub open spec fn all_jobs(ss: Seq<SessionState>, scope: Scope, k: int) -> Seq<JobPlace>
    decreases k,
{
    if k <= 0 {
        Seq::empty()
    } else {
        let before = all_jobs(ss, scope, k - 1);
        if scope.session is None || scope.session == Some((k - 1) as usize) {
            before + session_jobs(ss[k - 1], scope.window, scope.pane, ss[k - 1].windows.len() as int)
        } else {
            before
        }
    }
}

/// The item of a pane on the task board.
pub open spec fn job_item(ss: Seq<SessionState>, p: JobPlace) -> ChooserItem {
    let s = ss[session_place(ss, p.0, 0)];
    ChooserItem::Job(p.0, s.windows[p.1 as int].id, p.2)
}

impl Server {
    /// The panes `jobs` lists, in session, window and layout order, narrowed
    /// to a session, a window of it, or one pane.
    pub fn jobs_panes(&self, scope: &Scope) -> (out: Vec<JobPlace>)
        ensures
            out@ == all_jobs(self.states(), *scope, self.states().len() as int),
    {
        let mut out: Vec<JobPlace> = Vec::new();
        let ghost ss = self.states();
        let mut i: usize = 0;
        assert(out@ =~= Seq::empty());
        while i < self.sessions.len()
            invariant
                i <= self.sessions@.len(),
                ss == self.states(),
                out@ == all_jobs(ss, *scope, i as int),
            decreases self.sessions.len() - i,
        {
            let inside: bool = match scope.session {
                Some(s) => s == i,
                None => true,
            };
            if inside {
                let s = &self.sessions[i];
                let ghost start = out@;
                assert(ss[i as int] == s@);
                let mut j: usize = 0;
                assert(start + Seq::<JobPlace>::empty() =~= start);
                while j < s.windows.len()
                    invariant
                        j <= s.windows@.len(),
                        out@ == start + session_jobs(s@, scope.window, scope.pane, j as int),
                    decreases s.windows.len() - j,
                {
                    let here: bool = match scope.window {
                        Some(w) => w == j,
                        None => true,
                    };
                    if here {
                        let ghost mid = out@;
                        let ghost so_far = session_jobs(s@, scope.window, scope.pane, j as int);
                        assert(s@.windows[j as int] == s.windows@[j as int]@);
                        let order = s.windows[j].layout.panes();
                        let mut k: usize = 0;
                        assert(mid + Seq::<JobPlace>::empty() =~= mid);
                        while k < order.len()
                            invariant
                                k <= order@.len(),
                                order@ == panes(s@.windows[j as int].tree),
                                out@ == mid + window_jobs(s@, j as int, scope.pane, k as int),
                            decreases order.len() - k,
                        {
                            let id: PaneId = order[k];
                            let wanted: bool = match scope.pane {
                                Some(o) => o == id,
                                None => true,
                            };
                            if wanted {
                                let ghost w = window_jobs(s@, j as int, scope.pane, k as int);
                                out.push((s.id, j, id));
                                assert((mid + w).push((s.id, j, id)) =~= mid + w.push((s.id, j, id)));
                            }
                            k = k + 1;
                        }
                        assert((start + so_far) + window_jobs(
                            s@,
                            j as int,
                            scope.pane,
                            order@.len() as int,
                        ) =~= start + (so_far + window_jobs(s@, j as int, scope.pane, order@.len() as int)));
                    }
                    j = j + 1;
                }
            }
            i = i + 1;
        }
        out
    }
}

/// A pane's row of the task board, its columns those of `jobs_header`: how
/// long it has run and been quiet are given as words, and where it is.
pub open spec fn job_row(
    label: Seq<char>,
    dead: Option<u32>,
    up: Seq<char>,
    idle: Seq<char>,
    pid: Option<u32>,
    title: Seq<char>,
    dir: Seq<char>,
) -> Seq<Seq<char>> {
    seq![
        label,
        match dead {
            Some(code) => "exit "@ + decimal(code as nat),
            None => "running"@,
        },
        up,
        idle,
        match pid {
            Some(p) => decimal(p as nat),
            None => "-"@,
        },
        title,
        dir,
    ]
}

/// One pane's row of the task board.
pub fn jobs_row(
    label: String,
    dead: Option<u32>,
    up: String,
    idle: String,
    pid: Option<u32>,
    title: String,
    dir: String,
) -> (row: Vec<String>)
    ensures
        texts_of(row@) == job_row(label@, dead, up@, idle@, pid, title@, dir@),
{
    let ghost cells = job_row(label@, dead, up@, idle@, pid, title@, dir@);
    let mut row: Vec<String> = Vec::new();
    row.push(label);
    row.push(
        match dead {
            Some(code) => joined2("exit ", number_text(code as u64).as_str()),
            None => "running".to_owned(),
        },
    );
    row.push(up);
    row.push(idle);
    row.push(
        match pid {
            Some(p) => number_text(p as u64),
            None => "-".to_owned(),
        },
    );
    row.push(title);
    row.push(dir);
    assert(texts_of(row@) =~= cells);
    row
}

/// The seconds a pane has run: until it died, if it did.
pub fn up_seconds(now: i64, start: i64, dead: i64) -> (s: i64)
    requires
        0 <= now,
        0 <= dead,
        0 <= start,
    ensures
        s == (if dead > 0 {
            dead
        } else {
            now
        }) - start,
{
    if dead > 0 {
        dead - start
    } else {
        now - start
    }
}

/// The line of a session in the tree.
pub open spec fn tree_session_row(s: SessionState, open: bool, attached: bool) -> (ChooserItem, Seq<char>) {
    (
        ChooserItem::Tree(s.id, None),
        (if open {
            "-"@
        } else {
            "+"@
        }) + " "@ + s.name + ": "@ + decimal(s.windows.len()) + " windows"@ + (if attached {
            " (attached)"@
        } else {
            ""@
        }),
    )
}

/// The line of window `j` of a session in the tree.
pub open spec fn tree_window_row(s: SessionState, j: int, base: usize) -> (ChooserItem, Seq<char>) {
    let w = s.windows[j];
    (
        ChooserItem::Tree(s.id, Some(w.id)),
        "  - "@ + decimal((j + base) as nat) + ": "@ + w.name + (if j == s.cur {
            "*"@
        } else if s.last == Some(w.id) {
            "-"@
        } else {
            ""@
        }) + " ("@ + decimal(w.panes.len()) + " panes) \""@ + w.panes[place_of(w.panes, w.active, 0)].title@ + "\""@,
    )
}

/// The lines of the first `k` windows of a session.
pub open spec fn tree_windows(s: SessionState, base: usize, k: int) -> Seq<(ChooserItem, Seq<char>)> {
    Seq::new(k as nat, |j: int| tree_window_row(s, j, base))
}

/// The lines of the first `k` sessions: each with its windows, when the tree
/// is expanded and the session is not folded.
pub open spec fn tree_rows(
    ss: Seq<SessionState>,
    cs: Seq<Client>,
    expand: bool,
    folded: Set<SessionId>,
    base: usize,
    k: int,
) -> Seq<(ChooserItem, Seq<char>)>
    decreases k,
{
    if k <= 0 {
        Seq::empty()
    } else {
        let s = ss[k - 1];
        let open = expand && !folded.contains(s.id);
        let before = tree_rows(ss, cs, expand, folded, base, k - 1).push(
            tree_session_row(s, open, attached_to(cs, s.id, cs.len() as int) > 0),
        );
        if open {
            before + tree_windows(s, base, s.windows.len() as int)
        } else {
            before
        }
    }
}

impl Server {
    fn window_row(&self, i: usize, j: usize) -> (line: String)
        requires
            self.wf(),
            i < self.sessions@.len(),
            j < self.states()[i as int].windows.len(),
        ensures
            line@ == tree_window_row(self.states()[i as int], j as int, self.opts.base_index).1,
    {
        let s = &self.sessions[i];
        assert(self.states()[i as int] == s@);
        let w = &s.windows[j];
        assert(s@.windows[j as int] == w@);
        assert(s@.wf());
        assert(w@.settled());
        proof {
            lemma_place_of(w@.panes, w@.active, 0);
        }
        let last: bool = match s.last {
            Some(l) => l == w.id,
            None => false,
        };
        let mut l = "  - ".to_owned();
        push_sum(&mut l, j as u64, self.opts.base_index as u64);
        l.push_str(": ");
        l.push_str(w.name.as_str());
        l.push_str(
            if j == s.cur {
                "*"
            } else if last {
                "-"
            } else {
                ""
            },
        );
        l.push_str(" (");
        push_decimal(&mut l, w.panes.len() as u64);
        l.push_str(" panes) \"");
        let place: usize = w.place(w.active);
        l.push_str(w.panes[place].title.as_str());
        l.push_str("\"");
        l
    }

    /// The lines of the session tree.
    pub fn tree_lines(&self, expand: bool, folded: &HashSet<SessionId>) -> (r: (Vec<ChooserItem>, Vec<String>))
        requires
            self.wf(),
        ensures
            r.0@.len() == r.1@.len(),
            rows_of(r.0@, r.1@) == tree_rows(
                self.states(),
                self.clients@,
                expand,
                folded@,
                self.opts.base_index,
                self.states().len() as int,
            ),
    {
        broadcast use vstd::std_specs::hash::group_hash_axioms;

        let mut items: Vec<ChooserItem> = Vec::new();
        let mut lines: Vec<String> = Vec::new();
        let ghost ss = self.states();
        let base: usize = self.opts.base_index;
        let mut i: usize = 0;
        assert(rows_of(items@, lines@) =~= Seq::empty());
        while i < self.sessions.len()
            invariant
                self.wf(),
                i <= self.sessions@.len(),
                ss == self.states(),
                base == self.opts.base_index,
                items@.len() == lines@.len(),
                rows_of(items@, lines@) == tree_rows(ss, self.clients@, expand, folded@, base, i as int),
            decreases self.sessions.len() - i,
        {
            broadcast use vstd::std_specs::hash::group_hash_axioms;

            let s = &self.sessions[i];
            assert(ss[i as int] == s@);
            let open: bool = expand && !folded.contains(&s.id);
            let ghost before = rows_of(items@, lines@);
            let mut l = joined3(if open { "-" } else { "+" }, " ", s.name.as_str());
            l.push_str(": ");
            push_decimal(&mut l, s.windows.len() as u64);
            l.push_str(" windows");
            l.push_str(if self.attached(s.id) > 0 { " (attached)" } else { "" });
            let ghost row = tree_session_row(
                s@,
                open,
                attached_to(self.clients@, s.id, self.clients@.len() as int) > 0,
            );
            assert(l@ == row.1);
            items.push(ChooserItem::Tree(s.id, None));
            lines.push(l);
            let ghost head = before.push(row);
            assert(rows_of(items@, lines@) =~= head);
            if open {
                let mut j: usize = 0;
                assert(head + tree_windows(s@, base, 0) =~= head);
                while j < s.windows.len()
                    invariant
                        self.wf(),
                        i < self.sessions@.len(),
                        s == &self.sessions@[i as int],
                        s@ == self.states()[i as int],
                        base == self.opts.base_index,
                        j <= s.windows@.len(),
                        items@.len() == lines@.len(),
                        rows_of(items@, lines@) == head + tree_windows(s@, base, j as int),
                    decreases s.windows.len() - j,
                {
                    let ghost mid = rows_of(items@, lines@);
                    let line = self.window_row(i, j);
                    let ghost row = tree_window_row(s@, j as int, base);
                    items.push(ChooserItem::Tree(s.id, Some(s.windows[j].id)));
                    lines.push(line);
                    j = j + 1;
                    assert(s@.windows[j - 1] == s.windows@[j - 1]@);
                    assert(rows_of(items@, lines@) =~= mid.push(row));
                    assert(tree_windows(s@, base, j as int) =~= tree_windows(s@, base, j - 1).push(row));
                    assert(rows_of(items@, lines@) =~= head + tree_windows(s@, base, j as int));
                }
            }
            i = i + 1;
        }
        (items, lines)
    }
}

/// The rows of the buffer picker.
pub open spec fn buffer_rows(b: Seq<(Seq<char>, Seq<char>)>) -> Seq<(ChooserItem, Seq<char>)> {
    Seq::new(b.len(), |i: int| (ChooserItem::Buffer(i as usize), buffer_line(b[i])))
}

/// The lines of the buffer picker.
pub fn buffer_lines(buffers: &Buffers) -> (r: (Vec<ChooserItem>, Vec<String>))
    ensures
        r.0@.len() == r.1@.len(),
        rows_of(r.0@, r.1@) == buffer_rows(buffers.texts()),
{
    let lines = buffers.lines();
    let mut items: Vec<ChooserItem> = Vec::new();
    let mut i: usize = 0;
    while i < lines.len()
        invariant
            i <= lines@.len(),
            i == items@.len(),
            forall|k: int| 0 <= k < i ==> #[trigger] items@[k] == ChooserItem::Buffer(k as usize),
        decreases lines.len() - i,
    {
        items.push(ChooserItem::Buffer(i));
        i = i + 1;
    }
    assert(rows_of(items@, lines@) =~= buffer_rows(buffers.texts()));
    (items, lines)
}

/// The numbers of the first `k` clients that look at a session.
pub open spec fn looking(cs: Seq<Client>, k: int) -> Seq<ClientId>
    decreases k,
{
    if k <= 0 {
        Seq::empty()
    } else if cs[k - 1].session is Some {
        looking(cs, k - 1).push(cs[k - 1].id)
    } else {
        looking(cs, k - 1)
    }
}

/// Numbers in ascending order.
pub open spec fn ascending(v: Seq<ClientId>) -> bool {
    forall|i: int, j: int| 0 <= i < j < v.len() ==> #[trigger] v[i] <= #[trigger] v[j]
}

/// The row of a client in the picker of clients.
pub open spec fn client_row(ss: Seq<SessionState>, cs: Seq<Client>, id: ClientId) -> (ChooserItem, Seq<char>) {
    (ChooserItem::Client(id), client_line(ss, cs[crate::server::client_place(cs, id, 0)]))
}

fn sort_numbers(v: &Vec<ClientId>) -> (out: Vec<ClientId>)
    ensures
        ascending(out@),
        out@.to_multiset() == v@.to_multiset(),
{
    let mut out: Vec<ClientId> = Vec::new();
    let mut k: usize = 0;
    assert(out@ =~= v@.take(0));
    while k < v.len()
        invariant
            k <= v@.len(),
            ascending(out@),
            out@.to_multiset() == v@.take(k as int).to_multiset(),
        decreases v.len() - k,
    {
        let x: ClientId = v[k];
        let mut i: usize = out.len();
        while i > 0 && out[i - 1] > x
            invariant
                i <= out@.len(),
                ascending(out@),
                forall|j: int| i <= j < out@.len() ==> #[trigger] out@[j] > x,
            decreases i,
        {
            i = i - 1;
        }
        let ghost before = out@;
        out.insert(i, x);
        proof {
            broadcast use vstd::seq_lib::group_to_multiset_ensures;

            assert(out@ == before.insert(i as int, x));
            assert(v@.take(k + 1) =~= v@.take(k as int).push(x));
            assert forall|a: int, b: int| 0 <= a < b < out@.len() implies #[trigger] out@[a] <= #[trigger] out@[b] by {
                if a < i && b == i {
                    assert(before[a] <= before[i - 1]);
                }
            }
        }
        k = k + 1;
    }
    assert(v@.take(k as int) =~= v@);
    out
}

impl Server {
    /// The lines of the client picker, by number.
    pub fn client_rows(&self) -> (r: (Vec<ChooserItem>, Vec<String>))
        requires
            self.wf(),
        ensures
            r.0@.len() == r.1@.len(),
            exists|order: Seq<ClientId>| #[trigger]
                ascending(order) && order.to_multiset() == looking(
                    self.clients@,
                    self.clients@.len() as int,
                ).to_multiset() && rows_of(r.0@, r.1@) == Seq::new(
                    order.len(),
                    |i: int| client_row(self.states(), self.clients@, order[i]),
                ),
    {
        let mut all: Vec<ClientId> = Vec::new();
        let ghost cs = self.clients@;
        let ghost ss = self.states();
        let mut k: usize = 0;
        assert(all@ =~= Seq::empty());
        while k < self.clients.len()
            invariant
                k <= self.clients@.len(),
                cs == self.clients@,
                all@ == looking(cs, k as int),
                forall|i: int| 0 <= i < all@.len() ==> is_looking(cs, #[trigger] all@[i]),
            decreases self.clients.len() - k,
        {
            if self.clients[k].session.is_some() {
                all.push(self.clients[k].id);
                assert(is_looking(cs, cs[k as int].id)) by {
                    assert(cs[k as int].session is Some);
                }
            }
            k = k + 1;
        }
        let order = sort_numbers(&all);
        assert forall|i: int| 0 <= i < order@.len() implies is_looking(cs, #[trigger] order@[i]) by {
            broadcast use vstd::seq_lib::group_to_multiset_ensures;

            assert(order@.contains(order@[i]));
            assert(all@.to_multiset().count(order@[i]) > 0);
            assert(all@.contains(order@[i]));
            let j = choose|j: int| 0 <= j < all@.len() && all@[j] == order@[i];
            assert(is_looking(cs, all@[j]));
        }
        let mut items: Vec<ChooserItem> = Vec::new();
        let mut lines: Vec<String> = Vec::new();
        k = 0;
        assert(rows_of(items@, lines@) =~= Seq::new(0, |i: int| client_row(ss, cs, order@[i])));
        while k < order.len()
            invariant
                self.wf(),
                cs == self.clients@,
                ss == self.states(),
                k <= order@.len(),
                k == items@.len(),
                k == lines@.len(),
                forall|i: int| 0 <= i < order@.len() ==> is_looking(cs, #[trigger] order@[i]),
                rows_of(items@, lines@) == Seq::new(k as nat, |i: int| client_row(ss, cs, order@[i])),
            decreases order.len() - k,
        {
            let id: ClientId = order[k];
            let c: usize = self.client_at(id);
            proof {
                assert(is_looking(cs, order@[k as int]));
                let d = choose|d: int| 0 <= d < cs.len() && (#[trigger] cs[d]).id == id && cs[d].session is Some;
                crate::server::lemma_client_place(cs, id, 0);
                assert(c <= d);
                if c < d {
                    assert(cs[c as int].id != cs[d].id);
                }
            }
            let client = &self.clients[c];
            let ghost before = rows_of(items@, lines@);
            if let Some(sid) = client.session {
                let i: usize = self.session_at(sid);
                assert(i < self.sessions@.len());
                assert(ss[i as int] == self.sessions@[i as int]@);
                let mut l = joined3("client-", number_text(client.id as u64).as_str(), ": ");
                l.push_str(self.sessions[i].name.as_str());
                l.push_str(" [");
                push_decimal(&mut l, client.cols as u64);
                l.push_str("x");
                push_decimal(&mut l, client.rows as u64);
                l.push_str("]");
                items.push(ChooserItem::Client(id));
                lines.push(l);
            }
            assert(rows_of(items@, lines@) =~= before.push(client_row(ss, cs, id)));
            k = k + 1;
            assert(rows_of(items@, lines@) =~= Seq::new(k as nat, |i: int| client_row(ss, cs, order@[i])));
        }
        (items, lines)
    }
}

/// A client of that number looks at a session.
spec fn is_looking(cs: Seq<Client>, id: ClientId) -> bool {
    exists|d: int| 0 <= d < cs.len() && (#[trigger] cs[d]).id == id && cs[d].session is Some
}

/// The rows of the task board: its header, and a line for each pane.
pub open spec fn board_rows(ss: Seq<SessionState>, places: Seq<JobPlace>, rows: Seq<Seq<Seq<char>>>) -> Seq<
    (ChooserItem, Seq<char>),
> {
    Seq::new(
        rows.len(),
        |i: int|
            (
                if i == 0 {
                    ChooserItem::Separator
                } else {
                    job_item(ss, places[i - 1])
                },
                trim_end(padded(rows, i, rows[i].len())),
            ),
    )
}

impl Server {
    /// The lines of the task board: the header is a title line, every other
    /// line is a pane to jump to, kill or restart. `rows` holds a row for
    /// each of the places.
    pub fn job_lines(&self, places: &Vec<JobPlace>, rows: Vec<Vec<String>>) -> (r: (Vec<ChooserItem>, Vec<String>))
        requires
            rows@.len() == places@.len(),
            forall|k: int| 0 <= k < places@.len() ==> ({
                let p = #[trigger] places@[k];
                let i = session_place(self.states(), p.0, 0);
                i < self.states().len() && p.1 < self.states()[i].windows.len()
            }),
        ensures
            r.0@.len() == r.1@.len(),
            r.0@.len() == places@.len() + 1,
            exists|head: Vec<String>| #[trigger]
                is_jobs_header(head@) && rows_of(r.0@, r.1@) == board_rows(
                    self.states(),
                    places@,
                    cells_of_rows(seq![head] + rows@),
                ),
    {
        let head = jobs_header();
        let ghost h = head;
        let ghost rs = rows@;
        let mut all = rows;
        all.insert(0, head);
        assert(all@ =~= seq![h] + rs);
        let lines = align_columns(all.as_slice());
        let mut items: Vec<ChooserItem> = Vec::new();
        items.push(ChooserItem::Separator);
        let ghost ss = self.states();
        let mut k: usize = 0;
        while k < places.len()
            invariant
                k <= places@.len(),
                ss == self.states(),
                items@.len() == k + 1,
                items@[0] is Separator,
                forall|k: int| 0 <= k < places@.len() ==> ({
                    let p = #[trigger] places@[k];
                    let i = session_place(ss, p.0, 0);
                    i < ss.len() && p.1 < ss[i].windows.len()
                }),
                forall|i: int| 0 <= i < k ==> #[trigger] items@[i + 1] == job_item(ss, places@[i]),
            decreases places.len() - k,
        {
            let p = places[k];
            assert(places@[k as int] == p);
            let i: usize = self.session_at(p.0);
            assert(ss[i as int] == self.sessions@[i as int]@);
            assert(ss[i as int].windows[p.1 as int] == self.sessions@[i as int].windows@[p.1 as int]@);
            let ghost before = items@;
            items.push(ChooserItem::Job(p.0, self.sessions[i].windows[p.1].id, p.2));
            assert forall|i: int| 0 <= i < k + 1 implies #[trigger] items@[i + 1] == job_item(ss, places@[i]) by {
                if i < k {
                    assert(items@[i + 1] == before[i + 1]);
                }
            }
            k = k + 1;
        }
        proof {
            assert(texts_of(h@) =~= seq!["PANE"@, "STATE"@, "UP"@, "IDLE"@, "PID"@, "COMMAND"@, "DIR"@]);
            assert(is_jobs_header(h@));
            let cells = cells_of_rows(all@);
            assert forall|i: int| 0 <= i < cells.len() implies rows_of(items@, lines@)[i] == board_rows(
                ss,
                places@,
                cells,
            )[i] by {
                assert(cells[i].len() == all@[i]@.len());
                if i > 0 {
                    assert(items@[(i - 1) + 1] == job_item(ss, places@[i - 1]));
                }
            }
            assert(rows_of(items@, lines@) =~= board_rows(ss, places@, cells));
        }
        (items, lines)
    }
}

/// The words above the task board.
pub open spec fn is_jobs_header(head: Seq<String>) -> bool {
    texts_of(head) == seq!["PANE"@, "STATE"@, "UP"@, "IDLE"@, "PID"@, "COMMAND"@, "DIR"@]
}

/// Whether row `i` is kept by a filter.
pub open spec fn shown(items: Seq<ChooserItem>, lines: Seq<String>, filter: Seq<char>, i: int) -> bool {
    let needle = lower(trim(filter));
    needle.len() == 0 || keeps(items, hits(lines, needle), i)
}

/// A line as a picker shows it: its number for the digit keys, and whether it
/// is tagged.
pub open spec fn numbered(n: int, item: ChooserItem, tagged: bool, line: Seq<char>) -> Seq<char> {
    (if n < 10 && item != ChooserItem::Separator {
        "("@ + decimal(n as nat) + ")"@
    } else {
        "   "@
    }).push(
        if tagged {
            '*'
        } else {
            ' '
        },
    ) + line
}

/// The first `k` lines of a picker through its filter.
pub open spec fn view_rows(
    items: Seq<ChooserItem>,
    lines: Seq<String>,
    filter: Seq<char>,
    tagged: Seq<ChooserItem>,
    k: int,
) -> Seq<(ChooserItem, Seq<char>)>
    decreases k,
{
    if k <= 0 {
        Seq::empty()
    } else {
        let before = view_rows(items, lines, filter, tagged, k - 1);
        if shown(items, lines, filter, k - 1) {
            before.push(
                (
                    items[k - 1],
                    numbered(before.len() as int, items[k - 1], tagged.contains(items[k - 1]), lines[k - 1]@),
                ),
            )
        } else {
            before
        }
    }
}

/// What a live picker shows right now: its lines through the filter (a
/// session stays when one of its windows matches, and its windows stay when
/// it does), numbered for the digit keys, tagged ones marked.
pub fn chooser_view(ch: &Chooser, items: &Vec<ChooserItem>, lines: &Vec<String>) -> (r: (Vec<ChooserItem>, Vec<String>))
    requires
        items@.len() == lines@.len(),
    ensures
        r.0@.len() == r.1@.len(),
        rows_of(r.0@, r.1@) == view_rows(items@, lines@, ch.filter@, ch.tagged@, items@.len() as int),
{
    let keep = chooser_filter(items.as_slice(), lines.as_slice(), ch.filter.as_str());
    let mut out_items: Vec<ChooserItem> = Vec::new();
    let mut out_lines: Vec<String> = Vec::new();
    let ghost f = ch.filter@;
    let ghost t = ch.tagged@;
    let mut k: usize = 0;
    assert(rows_of(out_items@, out_lines@) =~= Seq::empty());
    while k < items.len()
        invariant
            k <= items@.len() == lines@.len(),
            keep@.len() == items@.len(),
            f == ch.filter@,
            t == ch.tagged@,
            forall|i: int| 0 <= i < keep@.len() ==> #[trigger] keep@[i] == shown(items@, lines@, f, i),
            out_items@.len() == out_lines@.len(),
            out_items@.len() <= k,
            rows_of(out_items@, out_lines@) == view_rows(items@, lines@, f, t, k as int),
        decreases items.len() - k,
    {
        assert(keep@[k as int] == shown(items@, lines@, f, k as int));
        if keep[k] {
            let ghost before = rows_of(out_items@, out_lines@);
            let n: usize = out_items.len();
            let item: ChooserItem = items[k];
            let mut l = if n < 10 && item != ChooserItem::Separator {
                joined3("(", number_text(n as u64).as_str(), ")")
            } else {
                "   ".to_owned()
            };
            l.push(if ch.is_tagged(&item) { '*' } else { ' ' });
            l.push_str(lines[k].as_str());
            let ghost row = (item, numbered(n as int, item, t.contains(item), lines@[k as int]@));
            assert(l@ == row.1);
            out_lines.push(l);
            out_items.push(item);
            assert(rows_of(out_items@, out_lines@) =~= before.push(row));
        }
        k = k + 1;
    }
    (out_items, out_lines)
}

impl Server {
    /// `session:window.pane` for a pane, as the commands want it; none when
    /// it is gone.
    pub fn pane_target(&self, sid: SessionId, wid: WindowId, pid: PaneId) -> (t: Option<Target>)
        ensures
            ({
                let ss = self.states();
                let i = session_place(ss, sid, 0);
                let j = window_place(ss[i].windows, wid, 0);
                let k = place_in(panes(ss[i].windows[j].tree), pid, 0);
                if i < ss.len() && j < ss[i].windows.len() && k < panes(ss[i].windows[j].tree).len() && k
                    + self.opts.pane_base_index <= usize::MAX {
                    &&& t is Some
                    &&& crate::observe::opt_text(t->0.session) == Some(ss[i].name)
                    &&& crate::observe::opt_text(t->0.window) == Some(decimal((j + self.opts.base_index) as nat))
                    &&& t->0.pane == Some((k + self.opts.pane_base_index) as usize)
                    &&& t->0.pane_id is None
                } else {
                    t is None
                }
            }),
    {
        let i: usize = self.session_at(sid);
        if i >= self.sessions.len() {
            return None;
        }
        assert(self.states()[i as int] == self.sessions@[i as int]@);
        let s = &self.sessions[i];
        let j: usize = s.place(wid);
        if j >= s.windows.len() {
            return None;
        }
        assert(s@.windows[j as int] == s.windows@[j as int]@);
        let order = s.windows[j].layout.panes();
        let k: usize = position(&order, pid);
        if k >= order.len() || k > usize::MAX - self.opts.pane_base_index {
            return None;
        }
        let mut window = String::new();
        push_sum(&mut window, j as u64, self.opts.base_index as u64);
        assert(window@ =~= decimal((j + self.opts.base_index) as nat));
        Some(
            Target {
                session: Some(s.name.as_str().to_owned()),
                window: Some(window),
                pane: Some(k + self.opts.pane_base_index),
                pane_id: None,
            },
        )
    }
}

} // verus!
