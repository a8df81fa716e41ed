//! The commands that end panes, windows and sessions.
use vstd::prelude::*;

use crate::chooser::{ClientId, SessionId, WindowId};
use crate::client::Client;
use crate::command::{Ended, Outcome, Target};
use crate::endings::{is_all_of_a_session, trimmed_kills};
use crate::layout::PaneId;
use crate::server::{aimed, clients_wf, lemma_session_place, lemma_session_with, pane_id_part, place_for, session_for, session_part, session_place, session_with, KilledState, Options, Server};
use crate::server_edit::{all_detached, is_detached, lemma_same_sessions, relaid};
use crate::session::{lemma_window_with, window_place, SessionState};
use crate::undo::{kept_after, only_lost_detached, sessions_after};
use crate::window::{ids, WindowState};

verus! {

/// Session `id` is there.
pub open spec fn there(ss: Seq<SessionState>, id: SessionId) -> bool {
    session_place(ss, id, 0) < ss.len()
}

/// Which sessions are there is a matter of their numbers.
proof fn lemma_there(ss: Seq<SessionState>, id: SessionId)
    ensures
        there(ss, id) <==> exists|k: int| 0 <= k < ss.len() && (#[trigger] ss[k]).id == id,
{
    lemma_session_place(ss, id, 0);
    if exists|k: int| 0 <= k < ss.len() && (#[trigger] ss[k]).id == id {
        let k = choose|k: int| 0 <= k < ss.len() && (#[trigger] ss[k]).id == id;
        assert(session_place(ss, id, 0) <= k);
    }
}

/// Ending one session takes its clients, and no others.
proof fn lemma_lost(before: Seq<Client>, mid: Seq<Client>, after: Seq<Client>, ss: Seq<SessionState>, i: int, reason: Seq<char>)
    requires
        only_lost_detached(before, mid, ss, reason),
        0 <= i < ss.len(),
        forall|k: int, l: int| 0 <= k < l < ss.len() ==> (#[trigger] ss[k]).id != (#[trigger] ss[l]).id,
        all_detached(mid, after, ss[i].id, reason),
    ensures
        only_lost_detached(before, after, ss.remove(i), reason),
{
    let b = ss.remove(i);
    assert forall|c: int| 0 <= c < before.len() implies if before[c].session is Some && session_place(
        b,
        before[c].session->0,
        0,
    ) >= b.len() {
        is_detached(before[c], #[trigger] after[c], reason)
    } else {
        after[c] == before[c]
    } by {
        if before[c].session is Some {
            let id = before[c].session->0;
            lemma_there(ss, id);
            lemma_there(b, id);
            if there(ss, id) {
                assert(mid[c] == before[c]);
                let k = choose|k: int| 0 <= k < ss.len() && (#[trigger] ss[k]).id == id;
                if k == i {
                    if there(b, id) {
                        let m = choose|m: int| 0 <= m < b.len() && (#[trigger] b[m]).id == id;
                        let n = if m < i {
                            m
                        } else {
                            m + 1
                        };
                        assert(ss[n].id == id);
                    }
                } else {
                    let m = if k < i {
                        k
                    } else {
                        k - 1
                    };
                    assert(b[m].id == id);
                }
            } else {
                assert(mid[c].session is None);
                if there(b, id) {
                    let m = choose|m: int| 0 <= m < b.len() && (#[trigger] b[m]).id == id;
                    let n = if m < i {
                        m
                    } else {
                        m + 1
                    };
                    assert(ss[n].id == id);
                }
            }
        } else {
            assert(mid[c] == before[c]);
        }
    }
}

proof fn lemma_lost_same(before: Seq<Client>, after: Seq<Client>, a: Seq<SessionState>, b: Seq<SessionState>, reason: Seq<char>)
    requires
        only_lost_detached(before, after, a, reason),
        a.len() == b.len(),
        forall|k: int| 0 <= k < a.len() ==> (#[trigger] a[k]).id == b[k].id,
    ensures
        only_lost_detached(before, after, b, reason),
{
    assert forall|c: int| 0 <= c < before.len() && (#[trigger] before[c]).session is Some implies session_place(
        a,
        before[c].session->0,
        0,
    ) == session_place(b, before[c].session->0, 0) by {
        lemma_same_sessions(a, b, before[c].session->0, 0);
    }
}

/// The panes of a window that a kill takes: pane `id`, or all the others.
pub open spec fn victims(w: WindowState, id: PaneId, all_but: bool, k: int) -> Seq<PaneId>
    decreases k,
{
    if k <= 0 {
        Seq::empty()
    } else {
        let before = victims(w, id, all_but, k - 1);
        if (w.panes[k - 1].id == id) != all_but {
            before.push(w.panes[k - 1].id)
        } else {
            before
        }
    }
}

/// The sessions, what is kept, and how many kills were kept, after the first
/// `k` of `ids` were killed.
pub open spec fn killed_all(
    ss: Seq<SessionState>,
    ks: Seq<KilledState>,
    opts: Options,
    victims: Seq<PaneId>,
    k: int,
    now: u64,
) -> (Seq<SessionState>, Seq<KilledState>, int)
    decreases k,
{
    if k <= 0 {
        (ss, ks, 0)
    } else {
        let (a, b, n) = killed_all(ss, ks, opts, victims, k - 1, now);
        let id = victims[k - 1];
        (
            sessions_after(a, opts, id),
            kept_after(a, b, opts, id, now),
            n + if opts.undo_kill_time > 0 && session_with(a, id, 0) < a.len() && !is_all_of_a_session(a, id) {
                1int
            } else {
                0int
            },
        )
    }
}

/// The sessions after the first `k` of `ids` ended.
pub open spec fn closed_all(ss: Seq<SessionState>, opts: Options, victims: Seq<PaneId>, k: int) -> Seq<SessionState>
    decreases k,
{
    if k <= 0 {
        ss
    } else {
        sessions_after(closed_all(ss, opts, victims, k - 1), opts, victims[k - 1])
    }
}

/// The sessions, what is kept, and whether the kill was kept, after window
/// `wid` of session `sid` was killed. Without keeping, its panes end one by
/// one; so they do when it is the session's only window.
pub open spec fn window_killed(
    ss: Seq<SessionState>,
    ks: Seq<KilledState>,
    opts: Options,
    sid: SessionId,
    wid: WindowId,
    now: u64,
) -> (Seq<SessionState>, Seq<KilledState>, bool) {
    let i = session_place(ss, sid, 0);
    let j = window_place(ss[i].windows, wid, 0);
    if i >= ss.len() || j >= ss[i].windows.len() {
        (ss, ks, false)
    } else {
        let w = ss[i].windows[j];
        if opts.undo_kill_time > 0 && ss[i].windows.len() >= 2 {
            (
                relaid(ss.update(i, ss[i].less_window(j)), i, opts),
                trimmed_kills(ks.push(KilledState::Window { window: w, session: ss[i].id, index: j, at: now })),
                true,
            )
        } else {
            (closed_all(ss, opts, ids(w.panes), w.panes.len() as int), ks, false)
        }
    }
}

/// The windows of a session that a kill takes: number `j`, or all the others.
pub open spec fn window_victims(s: SessionState, j: int, all_but: bool, k: int) -> Seq<WindowId>
    decreases k,
{
    if k <= 0 {
        Seq::empty()
    } else {
        let before = window_victims(s, j, all_but, k - 1);
        if (k - 1 == j) != all_but {
            before.push(s.windows[k - 1].id)
        } else {
            before
        }
    }
}

pub open spec fn windows_killed(
    ss: Seq<SessionState>,
    ks: Seq<KilledState>,
    opts: Options,
    sid: SessionId,
    wids: Seq<WindowId>,
    k: int,
    now: u64,
) -> (Seq<SessionState>, Seq<KilledState>, int)
    decreases k,
{
    if k <= 0 {
        (ss, ks, 0)
    } else {
        let (a, b, n) = windows_killed(ss, ks, opts, sid, wids, k - 1, now);
        let (c, d, kept) = window_killed(a, b, opts, sid, wids[k - 1], now);
        (
            c,
            d,
            n + if kept {
                1int
            } else {
                0int
            },
        )
    }
}

/// A pane that goes takes its session with it or leaves every session there
/// was.
proof fn lemma_sessions_after(ss: Seq<SessionState>, opts: Options, id: PaneId)
    ensures
        ({
            let after = sessions_after(ss, opts, id);
            let i = session_with(ss, id, 0);
            if i < ss.len() && is_all_of_a_session(ss, id) {
                after == ss.remove(i)
            } else {
                after.len() == ss.len() && forall|k: int| 0 <= k < ss.len() ==> (#[trigger] ss[k]).id == after[k].id
            }
        }),
{
    if session_with(ss, id, 0) < ss.len() {
        lemma_session_with(ss, id, 0);
        let i = session_with(ss, id, 0);
        lemma_window_with(ss[i].windows, id, 0);
    }
}

impl Server {
    /// Kill panes one after the other; how many were kept.
    fn kill_all(&mut self, list: &Vec<PaneId>, now: u64) -> (count: usize)
        requires
            old(self).wf(),
        ensures
            final(self).wf(),
            ({
                let (ss, ks, n) = killed_all(
                    old(self).states(),
                    old(self).killed_list(),
                    old(self).opts,
                    list@,
                    list@.len() as int,
                    now,
                );
                &&& final(self).states() == ss
                &&& final(self).killed_list() == ks
                &&& count == n
            }),
            only_lost_detached(old(self).clients@, final(self).clients@, final(self).states(), "exited"@),
            *final(self) == (Server {
                sessions: final(self).sessions,
                clients: final(self).clients,
                killed: final(self).killed,
                ..*old(self)
            }),
    {
        let ghost start = *self;
        let mut count: usize = 0;
        let mut k: usize = 0;
        while k < list.len()
            invariant
                k <= list@.len(),
                count <= k,
                self.wf(),
                start == *old(self),
                ({
                    let (ss, ks, n) = killed_all(
                        start.states(),
                        start.killed_list(),
                        start.opts,
                        list@,
                        k as int,
                        now,
                    );
                    &&& self.states() == ss
                    &&& self.killed_list() == ks
                    &&& count == n
                }),
                only_lost_detached(start.clients@, self.clients@, self.states(), "exited"@),
                *self == (Server {
                    sessions: self.sessions,
                    clients: self.clients,
                    killed: self.killed,
                    ..start
                }),
            decreases list.len() - k,
        {
            let ghost mid = *self;
            let id: PaneId = list[k];
            if self.kill_one(id, now) {
                count = count + 1;
            }
            proof {
                let ss = mid.states();
                lemma_sessions_after(ss, mid.opts, id);
                lemma_session_with(ss, id, 0);
                if session_with(ss, id, 0) < ss.len() && is_all_of_a_session(ss, id) {
                    lemma_lost(start.clients@, mid.clients@, self.clients@, ss, session_with(ss, id, 0), "exited"@);
                } else {
                    lemma_lost_same(start.clients@, self.clients@, ss, self.states(), "exited"@);
                }
            }
            k = k + 1;
        }
        count
    }

    /// End panes one after the other.
    fn close_all(&mut self, list: &Vec<PaneId>)
        requires
            old(self).wf(),
        ensures
            final(self).wf(),
            final(self).states() == closed_all(old(self).states(), old(self).opts, list@, list@.len() as int),
            only_lost_detached(old(self).clients@, final(self).clients@, final(self).states(), "exited"@),
            *final(self) == (Server {
                sessions: final(self).sessions,
                clients: final(self).clients,
                ..*old(self)
            }),
    {
        let ghost start = *self;
        let mut k: usize = 0;
        while k < list.len()
            invariant
                k <= list@.len(),
                self.wf(),
                start == *old(self),
                self.states() == closed_all(start.states(), start.opts, list@, k as int),
                only_lost_detached(start.clients@, self.clients@, self.states(), "exited"@),
                *self == (Server { sessions: self.sessions, clients: self.clients, ..start }),
            decreases list.len() - k,
        {
            let ghost mid = *self;
            let id: PaneId = list[k];
            let _ = self.remove_pane(id, Some(0));
            proof {
                let ss = mid.states();
                lemma_sessions_after(ss, mid.opts, id);
                lemma_session_with(ss, id, 0);
                if session_with(ss, id, 0) < ss.len() && is_all_of_a_session(ss, id) {
                    lemma_lost(start.clients@, mid.clients@, self.clients@, ss, session_with(ss, id, 0), "exited"@);
                } else {
                    lemma_lost_same(start.clients@, self.clients@, ss, self.states(), "exited"@);
                }
            }
            k = k + 1;
        }
    }

    /// `kill-pane`: a pane, or (`-a`) all the others of its window. How many
    /// can be brought back.
    pub fn kill_pane(&mut self, target: Option<&Target>, all_but: bool, cid: Option<ClientId>, now: u64) -> (r: Result<
        usize,
        String,
    >)
        requires
            old(self).wf(),
        ensures
            final(self).wf(),
            match place_for(old(self).states(), old(self).clients@, old(self).opts, aimed(target), cid) {
                Err(e) => r is Err && r->Err_0@ == e && *final(self) == *old(self),
                Ok(p) => {
                    let w = old(self).states()[p.session].windows[p.window];
                    let list = victims(w, p.pane, all_but, w.panes.len() as int);
                    let (ss, ks, n) = killed_all(
                        old(self).states(),
                        old(self).killed_list(),
                        old(self).opts,
                        list,
                        list.len() as int,
                        now,
                    );
                    &&& r is Ok && r->Ok_0 == n
                    &&& final(self).states() == ss
                    &&& final(self).killed_list() == ks
                    &&& only_lost_detached(old(self).clients@, final(self).clients@, ss, "exited"@)
                    &&& *final(self) == (Server {
                        sessions: final(self).sessions,
                        clients: final(self).clients,
                        killed: final(self).killed,
                        ..*old(self)
                    })
                },
            },
    {
        let (i, j, pid) = match self.find_place(target, cid) {
            Ok(p) => p,
            Err(e) => {
                return Err(e);
            },
        };
        let ghost w = self.states()[i as int].windows[j as int];
        assert(self.states()[i as int] == self.sessions@[i as int]@);
        assert(w == self.sessions@[i as int].windows@[j as int]@);
        let mut list: Vec<PaneId> = Vec::new();
        let mut k: usize = 0;
        while k < self.sessions[i].windows[j].panes.len()
            invariant
                i < self.sessions@.len(),
                j < self.sessions@[i as int].windows@.len(),
                w == self.sessions@[i as int].windows@[j as int]@,
                k <= w.panes.len(),
                list@ == victims(w, pid, all_but, k as int),
            decreases w.panes.len() - k,
        {
            let id: PaneId = self.sessions[i].windows[j].panes[k].id;
            if (id == pid) != all_but {
                list.push(id);
            }
            k = k + 1;
        }
        Ok(self.kill_all(&list, now))
    }

    fn kill_window_named(&mut self, sid: SessionId, wid: WindowId, now: u64) -> (kept: bool)
        requires
            old(self).wf(),
        ensures
            final(self).wf(),
            ({
                let (ss, ks, n) = window_killed(
                    old(self).states(),
                    old(self).killed_list(),
                    old(self).opts,
                    sid,
                    wid,
                    now,
                );
                &&& final(self).states() == ss
                &&& final(self).killed_list() == ks
                &&& kept == n
            }),
            only_lost_detached(old(self).clients@, final(self).clients@, final(self).states(), "exited"@),
            *final(self) == (Server {
                sessions: final(self).sessions,
                clients: final(self).clients,
                killed: final(self).killed,
                ..*old(self)
            }),
    {
        let ghost ss = self.states();
        let i: usize = self.session_at(sid);
        if i >= self.sessions.len() {
            return false;
        }
        assert(ss[i as int] == self.sessions@[i as int]@);
        let j: usize = self.sessions[i].place(wid);
        if j >= self.sessions[i].windows.len() {
            return false;
        }
        let ghost w = ss[i as int].windows[j as int];
        assert(w == self.sessions@[i as int].windows@[j as int]@);
        if self.opts.undo_kill_time > 0 {
            if self.keep_killed_window(i, j, now) {
                proof {
                    lemma_lost_same(self.clients@, self.clients@, ss, self.states(), "exited"@);
                }
                return true;
            }
        }
        let mut list: Vec<PaneId> = Vec::new();
        let mut k: usize = 0;
        while k < self.sessions[i].windows[j].panes.len()
            invariant
                i < self.sessions@.len(),
                j < self.sessions@[i as int].windows@.len(),
                w == self.sessions@[i as int].windows@[j as int]@,
                k <= w.panes.len(),
                list@ == ids(w.panes).take(k as int),
            decreases w.panes.len() - k,
        {
            list.push(self.sessions[i].windows[j].panes[k].id);
            assert(ids(w.panes).take(k + 1) =~= ids(w.panes).take(k as int).push(w.panes[k as int].id));
            k = k + 1;
        }
        assert(list@ =~= ids(w.panes));
        self.close_all(&list);
        false
    }

    /// `kill-window`: a window, or (`-a`) all the others of its session. How
    /// many can be brought back.
    pub fn kill_window(&mut self, target: Option<&Target>, all_but: bool, cid: Option<ClientId>, now: u64) -> (r:
        Result<usize, String>)
        requires
            old(self).wf(),
        ensures
            final(self).wf(),
            match place_for(old(self).states(), old(self).clients@, old(self).opts, aimed(target), cid) {
                Err(e) => r is Err && r->Err_0@ == e && *final(self) == *old(self),
                Ok(p) => {
                    let s = old(self).states()[p.session];
                    let wids = window_victims(s, p.window, all_but, s.windows.len() as int);
                    let (ss, ks, n) = windows_killed(
                        old(self).states(),
                        old(self).killed_list(),
                        old(self).opts,
                        s.id,
                        wids,
                        wids.len() as int,
                        now,
                    );
                    &&& r is Ok && r->Ok_0 == n
                    &&& final(self).states() == ss
                    &&& final(self).killed_list() == ks
                    &&& only_lost_detached(old(self).clients@, final(self).clients@, ss, "exited"@)
                    &&& *final(self) == (Server {
                        sessions: final(self).sessions,
                        clients: final(self).clients,
                        killed: final(self).killed,
                        ..*old(self)
                    })
                },
            },
    {
        let (i, j, _) = match self.find_place(target, cid) {
            Ok(p) => p,
            Err(e) => {
                return Err(e);
            },
        };
        let ghost start = *self;
        let ghost s = self.states()[i as int];
        assert(s == self.sessions@[i as int]@);
        let sid: SessionId = self.sessions[i].id;
        let mut wids: Vec<WindowId> = Vec::new();
        let mut k: usize = 0;
        while k < self.sessions[i].windows.len()
            invariant
                i < self.sessions@.len(),
                s == self.sessions@[i as int]@,
                k <= s.windows.len(),
                wids@ == window_victims(s, j as int, all_but, k as int),
            decreases s.windows.len() - k,
        {
            assert(s.windows[k as int] == self.sessions@[i as int].windows@[k as int]@);
            if (k == j) != all_but {
                wids.push(self.sessions[i].windows[k].id);
            }
            k = k + 1;
        }
        let mut count: usize = 0;
        let mut m: usize = 0;
        while m < wids.len()
            invariant
                m <= wids@.len(),
                count <= m,
                self.wf(),
                ({
                    let (ss, ks, n) = windows_killed(
                        start.states(),
                        start.killed_list(),
                        start.opts,
                        sid,
                        wids@,
                        m as int,
                        now,
                    );
                    &&& self.states() == ss
                    &&& self.killed_list() == ks
                    &&& count == n
                }),
                only_lost_detached(start.clients@, self.clients@, self.states(), "exited"@),
                *self == (Server {
                    sessions: self.sessions,
                    clients: self.clients,
                    killed: self.killed,
                    ..start
                }),
            decreases wids.len() - m,
        {
            let ghost mid = *self;
            if self.kill_window_named(sid, wids[m], now) {
                count = count + 1;
            }
            proof {
                assert forall|id: SessionId| #[trigger] there(self.states(), id) implies there(mid.states(), id) by {
                    lemma_window_killed_there(
                        mid.states(),
                        mid.killed_list(),
                        mid.opts,
                        sid,
                        wids@[m as int],
                        now,
                        id,
                    );
                }
                lemma_lost_on(start.clients@, mid.clients@, self.clients@, mid.states(), self.states(), "exited"@);
            }
            m = m + 1;
        }
        Ok(count)
    }
}

/// The sessions that are left after `kill-session`: all but session `sid`, or
/// that one alone.
pub open spec fn sessions_left(ss: Seq<SessionState>, sid: SessionId, all_but: bool, k: int) -> Seq<SessionState>
    decreases k,
{
    if k <= 0 {
        Seq::empty()
    } else {
        let before = sessions_left(ss, sid, all_but, k - 1);
        if (ss[k - 1].id == sid) != all_but {
            before
        } else {
            before.push(ss[k - 1])
        }
    }
}

impl Server {
    /// `kill-session`: a session, or (`-a`) all the others.
    pub fn kill_sessions(&mut self, target: Option<&Target>, all_but: bool, cid: Option<ClientId>) -> (out: Outcome)
        requires
            old(self).wf(),
        ensures
            final(self).wf(),
            match session_for(
                old(self).states(),
                old(self).clients@,
                pane_id_part(aimed(target)),
                session_part(aimed(target)),
                cid,
            ) {
                Err(e) => out@ == Ended::Error(e) && *final(self) == *old(self),
                Ok(i) => {
                    let ss = old(self).states();
                    &&& out@ == Ended::Done
                    &&& final(self).states() == sessions_left(ss, ss[i].id, all_but, ss.len() as int)
                    &&& only_lost_detached(
                        old(self).clients@,
                        final(self).clients@,
                        final(self).states(),
                        "session killed"@,
                    )
                    &&& *final(self) == (Server {
                        sessions: final(self).sessions,
                        clients: final(self).clients,
                        ..*old(self)
                    })
                },
            },
    {
        let i: usize = match self.find_session(target, cid) {
            Ok(i) => i,
            Err(e) => {
                return Outcome::Error(e);
            },
        };
        assert(self.states()[i as int] == self.sessions@[i as int]@);
        let sid: SessionId = self.sessions[i].id;
        let ghost start = *self;
        let ghost ss = self.states();
        let mut k: usize = 0;
        let n: usize = self.sessions.len();
        let mut left: usize = n;
        assert(self.states() =~= sessions_left(ss, sid, all_but, 0) + ss.skip(0));
        while left > 0
            invariant
                self.wf(),
                start.wf(),
                ss == start.states(),
                k + left <= n == ss.len(),
                k == sessions_left(ss, sid, all_but, ss.len() - left).len(),
                self.states() == sessions_left(ss, sid, all_but, ss.len() - left) + ss.skip(ss.len() - left),
                only_lost_detached(start.clients@, self.clients@, self.states(), "session killed"@),
                *self == (Server { sessions: self.sessions, clients: self.clients, ..start }),
            decreases left,
        {
            let ghost done = ss.len() - left;
            let ghost mid = *self;
            assert(self.states()[k as int] == ss[done]);
            assert(self.states()[k as int] == self.sessions@[k as int]@);
            let id: SessionId = self.sessions[k].id;
            if (id == sid) != all_but {
                proof {
                    lemma_session_place(mid.states(), id, 0);
                    let p = session_place(mid.states(), id, 0);
                    if p < k {
                        assert(mid.states()[p].id != mid.states()[k as int].id);
                    }
                }
                self.kill_session(id, "session killed");
                proof {
                    lemma_lost(start.clients@, mid.clients@, self.clients@, mid.states(), k as int, "session killed"@);
                    assert(self.states() =~= sessions_left(ss, sid, all_but, done + 1) + ss.skip(done + 1));
                }
            } else {
                assert(self.states() =~= sessions_left(ss, sid, all_but, done + 1) + ss.skip(done + 1));
                k = k + 1;
            }
            left = left - 1;
        }
        assert(self.states() =~= sessions_left(ss, sid, all_but, ss.len() as int));
        Outcome::Done
    }
}

/// No session comes while panes end.
proof fn lemma_closed_there(ss: Seq<SessionState>, opts: Options, list: Seq<PaneId>, k: int, id: SessionId)
    requires
        there(closed_all(ss, opts, list, k), id),
    ensures
        there(ss, id),
    decreases k,
{
    if k > 0 {
        let mid = closed_all(ss, opts, list, k - 1);
        let end = closed_all(ss, opts, list, k);
        lemma_sessions_after(mid, opts, list[k - 1]);
        lemma_there(end, id);
        lemma_there(mid, id);
        let m = choose|m: int| 0 <= m < end.len() && (#[trigger] end[m]).id == id;
        let i = session_with(mid, list[k - 1], 0);
        if i < mid.len() && is_all_of_a_session(mid, list[k - 1]) {
            lemma_session_with(mid, list[k - 1], 0);
            let n = if m < i {
                m
            } else {
                m + 1
            };
            assert(mid[n].id == id);
        } else {
            assert(mid[m].id == id);
        }
        lemma_closed_there(ss, opts, list, k - 1, id);
    }
}

proof fn lemma_window_killed_there(
    ss: Seq<SessionState>,
    ks: Seq<KilledState>,
    opts: Options,
    sid: SessionId,
    wid: WindowId,
    now: u64,
    id: SessionId,
)
    requires
        there(window_killed(ss, ks, opts, sid, wid, now).0, id),
    ensures
        there(ss, id),
{
    let i = session_place(ss, sid, 0);
    let j = window_place(ss[i].windows, wid, 0);
    if i < ss.len() && j < ss[i].windows.len() {
        let w = ss[i].windows[j];
        if opts.undo_kill_time > 0 && ss[i].windows.len() >= 2 {
            let end = relaid(ss.update(i, ss[i].less_window(j)), i, opts);
            lemma_session_place(ss, sid, 0);
            lemma_same_sessions(ss, end, id, 0);
        } else {
            lemma_closed_there(ss, opts, ids(w.panes), w.panes.len() as int, id);
        }
    }
}

/// What is lost in two steps is lost.
proof fn lemma_lost_on(
    a: Seq<Client>,
    b: Seq<Client>,
    c: Seq<Client>,
    mid: Seq<SessionState>,
    end: Seq<SessionState>,
    reason: Seq<char>,
)
    requires
        only_lost_detached(a, b, mid, reason),
        only_lost_detached(b, c, end, reason),
        clients_wf(b, mid),
        forall|id: SessionId| #[trigger] there(end, id) ==> there(mid, id),
    ensures
        only_lost_detached(a, c, end, reason),
{
    assert forall|k: int| 0 <= k < a.len() implies if a[k].session is Some && session_place(end, a[k].session->0, 0)
        >= end.len() {
        is_detached(a[k], #[trigger] c[k], reason)
    } else {
        c[k] == a[k]
    } by {
        if a[k].session is Some {
            let id = a[k].session->0;
            if there(mid, id) {
                assert(b[k] == a[k]);
            } else {
                assert(!there(end, id));
                assert(is_detached(a[k], b[k], reason));
                assert(c[k] == b[k]);
            }
        } else {
            assert(b[k] == a[k]);
        }
    }
}

} // verus!
