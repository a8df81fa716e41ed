//! What every change of the server's sessions keeps, and the changes that the
//! others are made of: sizes, and panes, windows and sessions that end.
use vstd::prelude::*;

use crate::chooser::{ClientId, SessionId, WindowId};
use crate::client::{Client, ServerMsg};
use crate::layout::PaneId;
use crate::pane::at_least_one;
use crate::server::{apart, area_of, border_of, client_place, clients_wf, kept, killed_wf, lives, numbered_below, session_place, sessions_wf, stands, KilledState, Options, Server};
use crate::session::{lemma_fitted_to, SessionState};
use crate::text::same_text;
use crate::window::{ids, Window, WindowState};

verus! {

/// The sessions are sound, though what is drawn may be out of date.
pub open spec fn sessions_sound(ss: Seq<SessionState>) -> bool {
    forall|i: int| 0 <= i < ss.len() ==> (#[trigger] ss[i]).sound()
}

/// Window `j` of session `i` is there.
pub open spec fn at(ss: Seq<SessionState>, i: int, j: int) -> bool {
    0 <= i < ss.len() && 0 <= j < ss[i].windows.len()
}

/// Every window of `b` is one of `a`, with no panes but its own: window `j`
/// of session `i` is the one that `from` says, and no window comes twice.
pub open spec fn descends(a: Seq<SessionState>, b: Seq<SessionState>, from: spec_fn(int, int) -> (int, int)) -> bool {
    &&& forall|i: int, j: int| #[trigger]
        at(b, i, j) ==> {
            let (k, l) = from(i, j);
            &&& at(a, k, l)
            &&& b[i].windows[j].id == a[k].windows[l].id
            &&& forall|id: PaneId| #[trigger] b[i].windows[j].has(id) ==> a[k].windows[l].has(id)
        }
    &&& forall|i: int, j: int, k: int, l: int| #[trigger]
        at(b, i, j) && #[trigger] at(b, k, l) && from(i, j) == from(k, l) ==> i == k && j == l
    &&& forall|i: int| 0 <= i < b.len() ==> exists|k: int| 0 <= k < a.len() && (#[trigger] a[k]).id == (#[trigger] b[i]).id
    &&& forall|i: int, k: int| 0 <= i < k < b.len() ==> (#[trigger] b[i]).id != (#[trigger] b[k]).id
}

/// What descends from sessions in order is in order.
pub proof fn lemma_descends(
    a: Seq<SessionState>,
    b: Seq<SessionState>,
    from: spec_fn(int, int) -> (int, int),
    next: u32,
    ks: Seq<KilledState>,
)
    requires
        apart(a),
        numbered_below(a, next),
        killed_wf(ks, a, next),
        descends(a, b, from),
    ensures
        apart(b),
        numbered_below(b, next),
        killed_wf(ks, b, next),
{
    assert forall|i: int, j: int, id: PaneId| #[trigger] lives(b, i, j, id) implies lives(
        a,
        from(i, j).0,
        from(i, j).1,
        id,
    ) by {
        assert(at(b, i, j));
        assert(b[i].windows[j].has(id));
    }
    assert forall|i: int, j: int, id: WindowId| #[trigger] stands(b, i, j, id) implies stands(
        a,
        from(i, j).0,
        from(i, j).1,
        id,
    ) by {
        assert(at(b, i, j));
    }
    assert forall|i: int, j: int, k: int, l: int, id: PaneId| #[trigger] lives(b, i, j, id) && #[trigger] lives(
        b,
        k,
        l,
        id,
    ) implies i == k && j == l by {
        assert(lives(a, from(i, j).0, from(i, j).1, id));
        assert(lives(a, from(k, l).0, from(k, l).1, id));
        assert(at(b, i, j) && at(b, k, l));
    }
    assert forall|i: int, j: int, k: int, l: int, id: WindowId| #[trigger] stands(b, i, j, id) && #[trigger] stands(
        b,
        k,
        l,
        id,
    ) implies i == k && j == l by {
        assert(stands(a, from(i, j).0, from(i, j).1, id));
        assert(stands(a, from(k, l).0, from(k, l).1, id));
        assert(at(b, i, j) && at(b, k, l));
    }
    assert forall|i: int| 0 <= i < b.len() implies (#[trigger] b[i]).id < next by {
        let k = choose|k: int| 0 <= k < a.len() && (#[trigger] a[k]).id == b[i].id;
        assert(a[k].id < next);
    }
    assert forall|k: int, i: int, j: int, id: PaneId| #[trigger] kept(ks, k, id) implies !#[trigger] lives(b, i, j, id) by {
        if lives(b, i, j, id) {
            assert(lives(a, from(i, j).0, from(i, j).1, id));
        }
    }
    assert forall|k: int, i: int, j: int|
        0 <= k < ks.len() && 0 <= i < b.len() && 0 <= j < b[i].windows.len() implies match #[trigger] ks[k] {
        KilledState::Window { window, .. } => (#[trigger] b[i].windows[j]).id != window.id,
        _ => true,
    } by {
        assert(at(b, i, j));
        let (p, q) = from(i, j);
        assert(a[p].windows[q].id == b[i].windows[j].id);
    }
}

/// Session `i` with `w` as its window `j`.
pub open spec fn put_window(s: SessionState, j: int, w: WindowState) -> SessionState {
    SessionState { windows: s.windows.update(j, w), ..s }
}

pub open spec fn edited(ss: Seq<SessionState>, i: int, j: int, w: WindowState) -> Seq<SessionState> {
    ss.update(i, put_window(ss[i], j, w))
}

/// Session `s` laid out anew at the size it has.
pub open spec fn laid_anew(s: SessionState, opts: Options) -> SessionState {
    s.fitted_to(s.cols, s.rows, area_of(opts, at_least_one(s.cols), at_least_one(s.rows)), border_of(opts))
}

pub open spec fn relaid(ss: Seq<SessionState>, i: int, opts: Options) -> Seq<SessionState> {
    ss.update(i, laid_anew(ss[i], opts))
}

/// A session whose window changed, and not which panes it may have, descends
/// from what it was.
pub proof fn lemma_edited(ss: Seq<SessionState>, i: int, j: int, w: WindowState, next: u32, ks: Seq<KilledState>)
    requires
        sessions_sound(ss),
        apart(ss),
        numbered_below(ss, next),
        killed_wf(ks, ss, next),
        at(ss, i, j),
        w.wf(),
        w.id == ss[i].windows[j].id,
        forall|id: PaneId| #[trigger] w.has(id) ==> ss[i].windows[j].has(id),
    ensures
        sessions_sound(edited(ss, i, j, w)),
        apart(edited(ss, i, j, w)),
        numbered_below(edited(ss, i, j, w), next),
        killed_wf(ks, edited(ss, i, j, w), next),
        sessions_wf(ss) && w.settled() ==> sessions_wf(edited(ss, i, j, w)),
{
    let b = edited(ss, i, j, w);
    let from = |k: int, l: int| (k, l);
    assert(ss[i].sound());
    assert(put_window(ss[i], j, w).sound());
    assert(descends(ss, b, from)) by {
        assert forall|k: int| 0 <= k < b.len() implies exists|m: int|
            0 <= m < ss.len() && (#[trigger] ss[m]).id == (#[trigger] b[k]).id by {
            assert(ss[k].id == b[k].id);
        }
        assert forall|k: int, l: int| 0 <= k < l < b.len() implies (#[trigger] b[k]).id != (#[trigger] b[l]).id by {
            assert(ss[k].id != ss[l].id);
        }
        assert forall|k: int, l: int| #[trigger] at(b, k, l) implies at(ss, k, l) && b[k].windows[l].id
            == ss[k].windows[l].id && forall|id: PaneId| #[trigger]
            b[k].windows[l].has(id) ==> ss[k].windows[l].has(id) by {}
    }
    lemma_descends(ss, b, from, next, ks);
    if sessions_wf(ss) && w.settled() {
        assert(ss[i].wf());
        assert(put_window(ss[i], j, w).wf());
    }
}

/// Laying a session out anew keeps everything where it is.
pub proof fn lemma_relaid(ss: Seq<SessionState>, i: int, s: SessionState, next: u32, ks: Seq<KilledState>)
    requires
        sessions_sound(ss),
        apart(ss),
        numbered_below(ss, next),
        killed_wf(ks, ss, next),
        0 <= i < ss.len(),
        s.wf(),
        s.id == ss[i].id,
        s.windows.len() == ss[i].windows.len(),
        forall|j: int| 0 <= j < s.windows.len() ==> (#[trigger] s.windows[j]).id == ss[i].windows[j].id,
        forall|j: int| 0 <= j < s.windows.len() ==> ids((#[trigger] s.windows[j]).panes) == ids(ss[i].windows[j].panes),
    ensures
        sessions_sound(ss.update(i, s)),
        apart(ss.update(i, s)),
        numbered_below(ss.update(i, s), next),
        killed_wf(ks, ss.update(i, s), next),
        (forall|k: int| 0 <= k < ss.len() && k != i ==> (#[trigger] ss[k]).wf()) ==> sessions_wf(ss.update(i, s)),
{
    let b = ss.update(i, s);
    let from = |k: int, l: int| (k, l);
    assert(descends(ss, b, from)) by {
        assert forall|k: int| 0 <= k < b.len() implies exists|m: int|
            0 <= m < ss.len() && (#[trigger] ss[m]).id == (#[trigger] b[k]).id by {
            assert(ss[k].id == b[k].id);
        }
        assert forall|k: int, l: int| 0 <= k < l < b.len() implies (#[trigger] b[k]).id != (#[trigger] b[l]).id by {
            assert(ss[k].id != ss[l].id);
        }
        assert forall|k: int, l: int| #[trigger] at(b, k, l) implies at(ss, k, l) && b[k].windows[l].id
            == ss[k].windows[l].id && forall|id: PaneId| #[trigger]
            b[k].windows[l].has(id) ==> ss[k].windows[l].has(id) by {
            if k == i {
                assert(s.windows[l].id == ss[i].windows[l].id);
                assert(ids(s.windows[l].panes) == ids(ss[i].windows[l].panes));
            }
        }
    }
    lemma_descends(ss, b, from, next, ks);
}

/// Sessions with the same numbers are looked up the same.
pub proof fn lemma_same_sessions(a: Seq<SessionState>, b: Seq<SessionState>, id: SessionId, i: int)
    requires
        a.len() == b.len(),
        0 <= i <= a.len(),
        forall|k: int| 0 <= k < a.len() ==> (#[trigger] a[k]).id == b[k].id,
    ensures
        session_place(a, id, i) == session_place(b, id, i),
    decreases a.len() - i,
{
    if i < a.len() {
        assert(a[i].id == b[i].id);
        lemma_same_sessions(a, b, id, i + 1);
    }
}

pub proof fn lemma_clients_stay(cs: Seq<Client>, a: Seq<SessionState>, b: Seq<SessionState>)
    requires
        clients_wf(cs, a),
        a.len() == b.len(),
        forall|k: int| 0 <= k < a.len() ==> (#[trigger] a[k]).id == b[k].id,
    ensures
        clients_wf(cs, b),
{
    assert forall|c: int| 0 <= c < cs.len() && (#[trigger] cs[c]).session is Some implies session_place(
        b,
        cs[c].session->0,
        0,
    ) < b.len() by {
        lemma_same_sessions(a, b, cs[c].session->0, 0);
    }
}

/// The smaller of the sizes of the first `k` clients of a session, each way,
/// or the larger ones.
pub open spec fn folded_size(cs: Seq<Client>, sid: SessionId, least: bool, k: int) -> Option<(u16, u16)>
    decreases k,
{
    if k <= 0 {
        None
    } else {
        let before = folded_size(cs, sid, least, k - 1);
        let c = cs[k - 1];
        if c.session != Some(sid) {
            before
        } else {
            match before {
                None => Some((c.cols, c.rows)),
                Some((w, h)) => Some(
                    (
                        if (c.cols < w) == least {
                            c.cols
                        } else {
                            w
                        },
                        if (c.rows < h) == least {
                            c.rows
                        } else {
                            h
                        },
                    ),
                ),
            }
        }
    }
}

/// The size that the clients of a session give it, if they do.
pub open spec fn size_for(opts: Options, cs: Seq<Client>, sid: SessionId, latest: Option<ClientId>) -> Option<
    (u16, u16),
> {
    let n = cs.len() as int;
    if opts.window_size@ == "smallest"@ {
        folded_size(cs, sid, true, n)
    } else if opts.window_size@ == "largest"@ {
        folded_size(cs, sid, false, n)
    } else if opts.window_size@ == "manual"@ {
        None
    } else {
        match latest {
            None => None,
            Some(id) => {
                let c = client_place(cs, id, 0);
                if c < n && cs[c].session == Some(sid) {
                    Some((cs[c].cols, cs[c].rows))
                } else {
                    None
                }
            },
        }
    }
}

/// The sessions with session `i` at a size.
pub open spec fn sized_session(ss: Seq<SessionState>, i: int, opts: Options, cols: u16, rows: u16) -> Seq<SessionState> {
    if 0 <= i < ss.len() {
        ss.update(
            i,
            ss[i].fitted_to(cols, rows, area_of(opts, at_least_one(cols), at_least_one(rows)), border_of(opts)),
        )
    } else {
        ss
    }
}

/// The sessions with session `sid` at the size its clients give it.
pub open spec fn fitted_session(
    ss: Seq<SessionState>,
    opts: Options,
    cs: Seq<Client>,
    sid: SessionId,
    latest: Option<ClientId>,
) -> Seq<SessionState> {
    match size_for(opts, cs, sid, latest) {
        Some((cols, rows)) => sized_session(ss, session_place(ss, sid, 0), opts, cols, rows),
        None => ss,
    }
}

/// Client `before` after it was sent away.
pub open spec fn is_detached(before: Client, after: Client, reason: Seq<char>) -> bool {
    &&& after == (Client { session: None, popup: None, outbox: after.outbox, ..before })
    &&& !after.outbox.in_step
    &&& after.outbox.pending@.len() == before.outbox.pending@.len() + 1
    &&& after.outbox.pending@.drop_last() == before.outbox.pending@
    &&& after.outbox.pending@.last() matches ServerMsg::Detached { reason: r } && r@ == reason
}

/// The clients of session `sid` are sent away, and the others stay.
pub open spec fn all_detached(before: Seq<Client>, after: Seq<Client>, sid: SessionId, reason: Seq<char>) -> bool {
    &&& after.len() == before.len()
    &&& forall|c: int|
        0 <= c < before.len() ==> if before[c].session == Some(sid) {
            is_detached(before[c], #[trigger] after[c], reason)
        } else {
            after[c] == before[c]
        }
}

impl Server {
    /// Everything is where it belongs, though what is drawn may be out of
    /// date.
    pub open spec fn sound(self) -> bool {
        &&& sessions_sound(self.states())
        &&& apart(self.states())
        &&& numbered_below(self.states(), self.next_id)
        &&& clients_wf(self.clients@, self.states())
        &&& killed_wf(self.killed_list(), self.states(), self.next_id)
    }

    /// Give a session a size.
    pub fn fit_at(&mut self, i: usize, cols: u16, rows: u16)
        requires
            old(self).sound(),
            i < old(self).states().len(),
        ensures
            final(self).states() == sized_session(old(self).states(), i as int, old(self).opts, cols, rows),
            final(self).sound(),
            final(self).states()[i as int].wf(),
            (forall|k: int| 0 <= k < old(self).states().len() && k != i ==> (#[trigger] old(self).states()[k]).wf())
                ==> final(self).wf(),
            *final(self) == (Server { sessions: final(self).sessions, ..*old(self) }),
    {
        let ghost ss = self.states();
        let area = self.window_area(if cols == 0 { 1 } else { cols }, if rows == 0 { 1 } else { rows });
        let border = self.border_rows();
        assert(ss[i as int] == self.sessions@[i as int]@);
        self.sessions[i].fit(cols, rows, area, border);
        proof {
            let s = self.sessions@[i as int]@;
            assert(self.states() =~= ss.update(i as int, s));
            lemma_fitted_to(ss[i as int], cols, rows, area, border);
            lemma_relaid(ss, i as int, s, self.next_id, self.killed_list());
            lemma_clients_stay(self.clients@, ss, self.states());
        }
    }

    /// Lay a session out anew.
    pub fn relayout_at(&mut self, i: usize)
        requires
            old(self).sound(),
            i < old(self).states().len(),
        ensures
            final(self).states() == relaid(old(self).states(), i as int, old(self).opts),
            final(self).sound(),
            final(self).states()[i as int].wf(),
            (forall|k: int| 0 <= k < old(self).states().len() && k != i ==> (#[trigger] old(self).states()[k]).wf())
                ==> final(self).wf(),
            *final(self) == (Server { sessions: final(self).sessions, ..*old(self) }),
    {
        assert(self.states()[i as int] == self.sessions@[i as int]@);
        let cols: u16 = self.sessions[i].cols;
        let rows: u16 = self.sessions[i].rows;
        self.fit_at(i, cols, rows);
    }

    /// Give session `sid` a size, if there is one.
    pub fn resize_session(&mut self, sid: SessionId, cols: u16, rows: u16)
        requires
            old(self).wf(),
        ensures
            final(self).states() == sized_session(
                old(self).states(),
                session_place(old(self).states(), sid, 0),
                old(self).opts,
                cols,
                rows,
            ),
            final(self).wf(),
            *final(self) == (Server { sessions: final(self).sessions, ..*old(self) }),
    {
        let i: usize = self.session_at(sid);
        if i < self.sessions.len() {
            self.fit_at(i, cols, rows);
        }
    }

    pub fn folded(&self, sid: SessionId, least: bool) -> (r: Option<(u16, u16)>)
        ensures
            r == folded_size(self.clients@, sid, least, self.clients@.len() as int),
    {
        let mut out: Option<(u16, u16)> = None;
        let mut i: usize = 0;
        while i < self.clients.len()
            invariant
                i <= self.clients@.len(),
                out == folded_size(self.clients@, sid, least, i as int),
            decreases self.clients.len() - i,
        {
            let here: bool = match self.clients[i].session {
                Some(s) => s == sid,
                None => false,
            };
            if here {
                let (cols, rows) = (self.clients[i].cols, self.clients[i].rows);
                out = match out {
                    None => Some((cols, rows)),
                    Some((w, h)) => Some(
                        (if (cols < w) == least { cols } else { w }, if (rows < h) == least { rows } else { h }),
                    ),
                };
            }
            i = i + 1;
        }
        out
    }

    /// Size a session from its attached clients the way `window-size` says.
    pub fn fit_session(&mut self, sid: SessionId, latest: Option<ClientId>)
        requires
            old(self).wf(),
        ensures
            final(self).states() == fitted_session(
                old(self).states(),
                old(self).opts,
                old(self).clients@,
                sid,
                latest,
            ),
            final(self).wf(),
            *final(self) == (Server { sessions: final(self).sessions, ..*old(self) }),
    {
        let pick: Option<(u16, u16)> = if same_text(self.opts.window_size.as_str(), "smallest") {
            self.folded(sid, true)
        } else if same_text(self.opts.window_size.as_str(), "largest") {
            self.folded(sid, false)
        } else if same_text(self.opts.window_size.as_str(), "manual") {
            None
        } else {
            match latest {
                None => None,
                Some(id) => {
                    let c: usize = self.client_at(id);
                    let here: bool = c < self.clients.len() && match self.clients[c].session {
                        Some(s) => s == sid,
                        None => false,
                    };
                    if here {
                        Some((self.clients[c].cols, self.clients[c].rows))
                    } else {
                        None
                    }
                },
            }
        };
        if let Some((cols, rows)) = pick {
            self.resize_session(sid, cols, rows);
        }
    }

    /// Send one client away: it looks at nothing any more.
    fn detach_at(&mut self, c: usize, reason: &str)
        requires
            c < old(self).clients@.len(),
        ensures
            *final(self) == (Server { clients: final(self).clients, ..*old(self) }),
            final(self).clients@ == old(self).clients@.update(c as int, final(self).clients@[c as int]),
            is_detached(old(self).clients@[c as int], final(self).clients@[c as int], reason@),
    {
        let ghost before = self.clients@[c as int];
        self.clients[c].session = None;
        self.clients[c].popup = None;
        self.clients[c].outbox.in_step = false;
        self.clients[c].outbox.post(ServerMsg::Detached { reason: reason.to_owned() });
        proof {
            let after = self.clients@[c as int];
            assert(after.outbox.pending@.drop_last() =~= before.outbox.pending@);
        }
    }

    /// Send every client of a session away.
    pub fn detach_all(&mut self, sid: SessionId, reason: &str)
        ensures
            *final(self) == (Server { clients: final(self).clients, ..*old(self) }),
            all_detached(old(self).clients@, final(self).clients@, sid, reason@),
    {
        let ghost before = self.clients@;
        let mut c: usize = 0;
        while c < self.clients.len()
            invariant
                c <= self.clients@.len(),
                self.clients@.len() == before.len(),
                before == old(self).clients@,
                *self == (Server { clients: self.clients, ..*old(self) }),
                forall|d: int|
                    0 <= d < c ==> if before[d].session == Some(sid) {
                        is_detached(before[d], #[trigger] self.clients@[d], reason@)
                    } else {
                        self.clients@[d] == before[d]
                    },
                forall|d: int| c <= d < before.len() ==> #[trigger] self.clients@[d] == before[d],
            decreases self.clients.len() - c,
        {
            let here: bool = match self.clients[c].session {
                Some(s) => s == sid,
                None => false,
            };
            if here {
                self.detach_at(c, reason);
            }
            c = c + 1;
        }
    }

    /// Send a client away from the session it looks at, which may then have
    /// another size.
    pub fn detach(&mut self, cid: ClientId, reason: &str)
        requires
            old(self).wf(),
        ensures
            final(self).wf(),
            ({
                let c = client_place(old(self).clients@, cid, 0);
                if c < old(self).clients@.len() && old(self).clients@[c].session is Some {
                    &&& final(self).clients@ == old(self).clients@.update(c, final(self).clients@[c])
                    &&& is_detached(old(self).clients@[c], final(self).clients@[c], reason@)
                    &&& final(self).states() == fitted_session(
                        old(self).states(),
                        old(self).opts,
                        final(self).clients@,
                        old(self).clients@[c].session->0,
                        None,
                    )
                    &&& *final(self) == (Server {
                        clients: final(self).clients,
                        sessions: final(self).sessions,
                        ..*old(self)
                    })
                } else {
                    *final(self) == *old(self)
                }
            }),
    {
        let c: usize = self.client_at(cid);
        if c >= self.clients.len() {
            return;
        }
        if let Some(sid) = self.clients[c].session {
            let ghost before = self.clients@;
            self.detach_at(c, reason);
            proof {
                assert forall|d: int, e: int| 0 <= d < e < before.len() implies (#[trigger] self.clients@[d]).id != (
                #[trigger] self.clients@[e]).id by {
                    assert(before[d].id != before[e].id);
                }
            }
            self.fit_session(sid, None);
        }
    }
}

} // verus!
