//! The commands about sessions and who looks at them.
use vstd::prelude::*;

use crate::chooser::{ClientId, SessionId};
use crate::client::{Client, Outbox, ServerMsg};
use crate::command::{Dir, Ended, Outcome, Target};
use crate::layout::PaneId;
use crate::openings::{bad_name, is_bad_name, name_taken};
use crate::server::{aimed, client_place, lemma_session_place, pane_id_part, place_for, session_for, session_part, session_place, Server};
use crate::server_edit::{fitted_session, folded_size, lemma_clients_stay, lemma_relaid, sized_session};
use crate::session::{step_back, SessionState};
use crate::text::joined2;

verus! {

/// Session `i` with another name.
pub open spec fn renamed(ss: Seq<SessionState>, i: int, name: Seq<char>) -> Seq<SessionState> {
    ss.update(i, SessionState { name, ..ss[i] })
}

/// Session `sid`, if it is there, used at `now`.
pub open spec fn touched(ss: Seq<SessionState>, sid: SessionId, now: u64) -> Seq<SessionState> {
    let i = session_place(ss, sid, 0);
    if i < ss.len() {
        ss.update(i, SessionState { last_used: now, ..ss[i] })
    } else {
        ss
    }
}

/// What `resize-window` makes of a size: the largest or smallest attached
/// client's, then what is given, then a step.
pub open spec fn asked_size(
    cols: u16,
    rows: u16,
    client: Option<(u16, u16)>,
    width: Option<u16>,
    height: Option<u16>,
    adjust: Option<(Dir, u16)>,
) -> (u16, u16) {
    let c = match width {
        Some(w) => w,
        None => match client {
            Some(s) => s.0,
            None => cols,
        },
    };
    let r = match height {
        Some(h) => h,
        None => match client {
            Some(s) => s.1,
            None => rows,
        },
    };
    match adjust {
        None => (c, r),
        Some((d, n)) => match d {
            Dir::Left => (
                if c > n {
                    (c - n) as u16
                } else {
                    0
                },
                r,
            ),
            Dir::Right => (
                if c + n > u16::MAX {
                    u16::MAX
                } else {
                    (c + n) as u16
                },
                r,
            ),
            Dir::Up => (
                c,
                if r > n {
                    (r - n) as u16
                } else {
                    0
                },
            ),
            Dir::Down => (
                c,
                if r + n > u16::MAX {
                    u16::MAX
                } else {
                    (r + n) as u16
                },
            ),
        },
    }
}

/// No less than `least`.
pub open spec fn no_less(n: u16, least: u16) -> u16 {
    if n < least {
        least
    } else {
        n
    }
}

fn step_size(c: u16, r: u16, adjust: Option<(Dir, u16)>) -> (s: (u16, u16))
    ensures
        s == asked_size(c, r, None, None, None, adjust),
{
    match adjust {
        None => (c, r),
        Some((d, n)) => match d {
            Dir::Left => (if c > n { c - n } else { 0 }, r),
            Dir::Right => (if c > u16::MAX - n { u16::MAX } else { c + n }, r),
            Dir::Up => (c, if r > n { r - n } else { 0 }),
            Dir::Down => (c, if r > u16::MAX - n { u16::MAX } else { r + n }),
        },
    }
}

/// Client `before` after it attached to session `sid`, named `name`.
pub open spec fn is_attached(
    before: Client,
    after: Client,
    sid: SessionId,
    name: Seq<char>,
    mouse: bool,
    errors: Option<Vec<String>>,
) -> bool {
    &&& after == (Client {
        session: Some(sid),
        prefix: false,
        repeat_until: None,
        prompt: None,
        overlay: errors,
        chooser: None,
        popup: None,
        message: None,
        drag: None,
        mouse_buttons: 0,
        swallow_up: after.swallow_up,
        outbox: after.outbox,
        ..before
    })
    &&& after.swallow_up@.len() == 0
    &&& !after.outbox.in_step
    &&& after.outbox.pending@.len() == before.outbox.pending@.len() + 2
    &&& forall|k: int|
        0 <= k < before.outbox.pending@.len() ==> after.outbox.pending@[k] == before.outbox.pending@[k]
    &&& after.outbox.pending@[before.outbox.pending@.len() as int] matches ServerMsg::Attached { session } && session@
        == name
    &&& after.outbox.pending@.last() == ServerMsg::SetMouse(mouse)
}

/// The session that `switch-client` goes to from session `cur`.
pub open spec fn switch_to(
    ss: Seq<SessionState>,
    cs: Seq<Client>,
    c: Client,
    next: bool,
    prev: bool,
    last: bool,
    target: Option<Target>,
) -> Result<SessionId, Seq<char>> {
    let n = ss.len() as int;
    let pos = session_place(ss, c.session->0, 0);
    if next {
        Ok(ss[(pos + 1) % n].id)
    } else if prev {
        Ok(ss[(pos + n - 1) % n].id)
    } else if last {
        if c.last_session is Some && session_place(ss, c.last_session->0, 0) < n {
            Ok(c.last_session->0)
        } else {
            Err("no last session"@)
        }
    } else {
        match session_for(ss, cs, pane_id_part(target), session_part(target), None) {
            Ok(i) => Ok(ss[i].id),
            Err(e) => Err(e),
        }
    }
}

/// A client at another session, whose picture has to be drawn afresh.
pub open spec fn moved_client(c: Client, to: SessionId) -> Client {
    Client {
        last_session: c.session,
        session: Some(to),
        outbox: Outbox { in_step: false, ..c.outbox },
        ..c
    }
}

impl Server {
    /// Note that a session is used.
    fn touch(&mut self, sid: SessionId, now: u64)
        requires
            old(self).wf(),
        ensures
            final(self).wf(),
            final(self).states() == touched(old(self).states(), sid, now),
            *final(self) == (Server { sessions: final(self).sessions, ..*old(self) }),
    {
        let ghost ss = self.states();
        let i: usize = self.session_at(sid);
        if i < self.sessions.len() {
            proof {
                assert(ss[i as int] == self.sessions@[i as int]@);
                crate::moves::lemma_sound_of_wf(ss);
            }
            self.sessions[i].last_used = now;
            proof {
                let s = SessionState { last_used: now, ..ss[i as int] };
                assert(ss[i as int].wf());
                assert(s.wf());
                assert(self.sessions@[i as int]@ =~= s);
                assert(self.states() =~= ss.update(i as int, s));
                lemma_relaid(ss, i as int, s, self.next_id, self.killed_list());
                lemma_clients_stay(self.clients@, ss, self.states());
            }
        }
    }

    /// `rename-session`. The name it had comes back.
    pub fn rename_session(&mut self, target: Option<&Target>, name: String, cid: Option<ClientId>) -> (r: Result<
        String,
        String,
    >)
        requires
            old(self).wf(),
        ensures
            final(self).wf(),
            if is_bad_name(name@) {
                r is Err && r->Err_0@ == "bad session name: "@ + name@ && *final(self) == *old(self)
            } else if name_taken(old(self).states(), name@) {
                r is Err && r->Err_0@ == "duplicate session: "@ + name@ && *final(self) == *old(self)
            } else {
                match session_for(
                    old(self).states(),
                    old(self).clients@,
                    pane_id_part(aimed(target)),
                    session_part(aimed(target)),
                    cid,
                ) {
                    Err(e) => r is Err && r->Err_0@ == e && *final(self) == *old(self),
                    Ok(i) => {
                        &&& r is Ok && r->Ok_0@ == old(self).states()[i].name
                        &&& final(self).states() == renamed(old(self).states(), i, name@)
                        &&& *final(self) == (Server { sessions: final(self).sessions, ..*old(self) })
                    },
                }
            },
    {
        if bad_name(name.as_str()) {
            return Err(joined2("bad session name: ", name.as_str()));
        }
        if self.taken(name.as_str()) {
            return Err(joined2("duplicate session: ", name.as_str()));
        }
        let i: usize = match self.find_session(target, cid) {
            Ok(i) => i,
            Err(e) => {
                return Err(e);
            },
        };
        let ghost ss = self.states();
        proof {
            assert(ss[i as int] == self.sessions@[i as int]@);
            assert(ss[i as int].wf());
            crate::moves::lemma_sound_of_wf(ss);
        }
        let mut was = name;
        std::mem::swap(&mut self.sessions[i].name, &mut was);
        proof {
            let s = SessionState { name: name@, ..ss[i as int] };
            assert(s.wf());
            assert(self.sessions@[i as int]@ =~= s);
            assert(self.states() =~= ss.update(i as int, s));
            lemma_relaid(ss, i as int, s, self.next_id, self.killed_list());
            lemma_clients_stay(self.clients@, ss, self.states());
        }
        Ok(was)
    }

    /// `resize-window`: a session's size by hand; never less than ten columns
    /// and three rows.
    pub fn resize_window(
        &mut self,
        target: Option<&Target>,
        width: Option<u16>,
        height: Option<u16>,
        adjust: Option<(Dir, u16)>,
        largest: bool,
        smallest: bool,
        cid: Option<ClientId>,
    ) -> (out: Outcome)
        requires
            old(self).wf(),
        ensures
            final(self).wf(),
            match session_for(
                old(self).states(),
                old(self).clients@,
                pane_id_part(aimed(target)),
                session_part(aimed(target)),
                cid,
            ) {
                Err(e) => out@ == Ended::Error(e) && *final(self) == *old(self),
                Ok(i) => {
                    let s = old(self).states()[i];
                    let n = old(self).clients@.len() as int;
                    let client = if largest || smallest {
                        folded_size(old(self).clients@, s.id, !largest, n)
                    } else {
                        None
                    };
                    if (largest || smallest) && client is None {
                        out@ == Ended::Error("resize-window: no client attached"@) && *final(self) == *old(self)
                    } else {
                        let size = asked_size(s.cols, s.rows, client, width, height, adjust);
                        &&& out@ == Ended::Done
                        &&& final(self).states() == sized_session(
                            old(self).states(),
                            i,
                            old(self).opts,
                            no_less(size.0, 10),
                            no_less(size.1, 3),
                        )
                        &&& *final(self) == (Server { sessions: final(self).sessions, ..*old(self) })
                    }
                },
            },
    {
        let i: usize = match self.find_session(target, cid) {
            Ok(i) => i,
            Err(e) => {
                return Outcome::Error(e);
            },
        };
        assert(self.states()[i as int] == self.sessions@[i as int]@);
        let mut cols: u16 = self.sessions[i].cols;
        let mut rows: u16 = self.sessions[i].rows;
        if largest || smallest {
            match self.folded(self.sessions[i].id, !largest) {
                Some((c, r)) => {
                    cols = c;
                    rows = r;
                },
                None => {
                    return Outcome::Error("resize-window: no client attached".to_owned());
                },
            }
        }
        if let Some(w) = width {
            cols = w;
        }
        if let Some(h) = height {
            rows = h;
        }
        let (cols, rows) = step_size(cols, rows, adjust);
        proof {
            crate::moves::lemma_sound_of_wf(self.states());
        }
        self.fit_at(i, if cols < 10 { 10 } else { cols }, if rows < 3 { 3 } else { rows });
        Outcome::Done
    }

    /// `select-pane -T` / `-m` / `-M`: a pane's title, and which pane is
    /// marked. Marking the marked pane unmarks it.
    pub fn mark_pane(&mut self, target: Option<&Target>, mark: bool, unmark: bool, cid: Option<ClientId>) -> (r: Result<
        PaneId,
        String,
    >)
        requires
            old(self).wf(),
        ensures
            final(self).wf(),
            match place_for(old(self).states(), old(self).clients@, old(self).opts, aimed(target), cid) {
                Err(e) => r is Err && r->Err_0@ == e && *final(self) == *old(self),
                Ok(p) => {
                    let held = if unmark {
                        None
                    } else {
                        old(self).marked
                    };
                    &&& r is Ok && r->Ok_0 == p.pane
                    &&& *final(self) == (Server {
                        marked: if !mark {
                            held
                        } else if held == Some(p.pane) {
                            None
                        } else {
                            Some(p.pane)
                        },
                        ..*old(self)
                    })
                },
            },
    {
        let (_, _, pid) = match self.find_place(target, cid) {
            Ok(p) => p,
            Err(e) => {
                return Err(e);
            },
        };
        if unmark {
            self.marked = None;
        }
        if mark {
            let same: bool = match self.marked {
                Some(p) => p == pid,
                None => false,
            };
            self.marked = if same { None } else { Some(pid) };
        }
        Ok(pid)
    }

    /// Attach a client to a session: it starts afresh there, is told the
    /// session's name and whether the mouse is wanted, and shows what was
    /// wrong with the configuration. The session takes its size, if clients
    /// size it.
    #[verifier::spinoff_prover]
    pub fn attach(&mut self, cid: ClientId, sid: SessionId, errors: Option<Vec<String>>, now: u64) -> (done: bool)
        requires
            old(self).wf(),
            session_place(old(self).states(), sid, 0) < old(self).states().len(),
        ensures
            final(self).wf(),
            ({
                let c = client_place(old(self).clients@, cid, 0);
                if c >= old(self).clients@.len() {
                    !done && *final(self) == *old(self)
                } else {
                    &&& done
                    &&& final(self).clients@ == old(self).clients@.update(c, final(self).clients@[c])
                    &&& is_attached(
                        old(self).clients@[c],
                        final(self).clients@[c],
                        sid,
                        old(self).states()[session_place(old(self).states(), sid, 0)].name,
                        old(self).opts.mouse,
                        errors,
                    )
                    &&& final(self).states() == touched(
                        fitted_session(
                            old(self).states(),
                            old(self).opts,
                            final(self).clients@,
                            sid,
                            Some(cid),
                        ),
                        sid,
                        now,
                    )
                    &&& *final(self) == (Server {
                        sessions: final(self).sessions,
                        clients: final(self).clients,
                        ..*old(self)
                    })
                }
            }),
    {
        let c: usize = self.client_at(cid);
        if c >= self.clients.len() {
            return false;
        }
        let ghost cs = self.clients@;
        let i: usize = self.session_at(sid);
        assert(self.states()[i as int] == self.sessions@[i as int]@);
        let name = self.sessions[i].name.as_str().to_owned();
        let mouse: bool = self.opts.mouse;
        self.clients[c].session = Some(sid);
        self.clients[c].outbox.in_step = false;
        self.clients[c].prefix = false;
        self.clients[c].repeat_until = None;
        self.clients[c].prompt = None;
        self.clients[c].overlay = errors;
        self.clients[c].chooser = None;
        self.clients[c].popup = None;
        self.clients[c].message = None;
        self.clients[c].drag = None;
        self.clients[c].mouse_buttons = 0;
        self.clients[c].swallow_up = Vec::new();
        self.clients[c].outbox.post(ServerMsg::Attached { session: name });
        self.clients[c].outbox.post(ServerMsg::SetMouse(mouse));
        proof {
            let after = self.clients@;
            assert(after =~= cs.update(c as int, after[c as int]));
            assert forall|d: int, e: int| 0 <= d < e < after.len() implies (#[trigger] after[d]).id != (
            #[trigger] after[e]).id by {
                assert(cs[d].id != cs[e].id);
            }
        }
        self.fit_session(sid, Some(cid));
        self.touch(sid, now);
        true
    }

    /// `switch-client`: look at another session.
    #[verifier::spinoff_prover]
    pub fn switch_client(
        &mut self,
        next: bool,
        prev: bool,
        last: bool,
        target: Option<&Target>,
        cid: Option<ClientId>,
        now: u64,
    ) -> (out: Outcome)
        requires
            old(self).wf(),
        ensures
            final(self).wf(),
            match cid {
                None => out@ == Ended::Error("switch-client: no client"@) && *final(self) == *old(self),
                Some(id) => {
                    let cs = old(self).clients@;
                    let ss = old(self).states();
                    let c = client_place(cs, id, 0);
                    if c >= cs.len() || cs[c].session is None {
                        out@ == Ended::Error("client not attached"@) && *final(self) == *old(self)
                    } else {
                        match switch_to(ss, cs, cs[c], next, prev, last, aimed(target)) {
                            Err(e) => out@ == Ended::Error(e) && *final(self) == *old(self),
                            Ok(sid) => {
                                &&& out@ == Ended::Done
                                &&& if Some(sid) == cs[c].session {
                                    *final(self) == *old(self)
                                } else {
                                    let now_cs = cs.update(c, moved_client(cs[c], sid));
                                    &&& final(self).clients@ == now_cs
                                    &&& final(self).states() == touched(
                                        fitted_session(
                                            fitted_session(ss, old(self).opts, now_cs, sid, Some(id)),
                                            old(self).opts,
                                            now_cs,
                                            cs[c].session->0,
                                            None,
                                        ),
                                        sid,
                                        now,
                                    )
                                    &&& *final(self) == (Server {
                                        sessions: final(self).sessions,
                                        clients: final(self).clients,
                                        ..*old(self)
                                    })
                                }
                            },
                        }
                    }
                },
            },
    {
        let id: ClientId = match cid {
            Some(id) => id,
            None => {
                return Outcome::Error("switch-client: no client".to_owned());
            },
        };
        let c: usize = self.client_at(id);
        if c >= self.clients.len() {
            return Outcome::Error("client not attached".to_owned());
        }
        let cur: SessionId = match self.clients[c].session {
            Some(s) => s,
            None => {
                return Outcome::Error("client not attached".to_owned());
            },
        };
        let sid: SessionId = match self.session_to_switch(c, cur, next, prev, last, target) {
            Ok(s) => s,
            Err(e) => {
                return Outcome::Error(e);
            },
        };
        if sid == cur {
            return Outcome::Done;
        }
        self.go_to(c, id, cur, sid, now);
        Outcome::Done
    }

    fn session_to_switch(
        &self,
        c: usize,
        cur: SessionId,
        next: bool,
        prev: bool,
        last: bool,
        target: Option<&Target>,
    ) -> (r: Result<SessionId, String>)
        requires
            self.wf(),
            c < self.clients@.len(),
            self.clients@[c as int].session == Some(cur),
        ensures
            match (r, switch_to(
                self.states(),
                self.clients@,
                self.clients@[c as int],
                next,
                prev,
                last,
                aimed(target),
            )) {
                (Ok(a), Ok(b)) => a == b && session_place(self.states(), a, 0) < self.states().len(),
                (Err(a), Err(b)) => a@ == b,
                _ => false,
            },
    {
        let ghost ss = self.states();
        let n: usize = self.sessions.len();
        let pos: usize = self.session_at(cur);
        assert(session_place(ss, self.clients@[c as int].session->0, 0) < ss.len());
        if next || prev {
            let k: usize = if next { (pos + 1) % n } else { step_back(pos, n) };
            assert(ss[k as int] == self.sessions@[k as int]@);
            proof {
                lemma_there_at(ss, k as int);
            }
            return Ok(self.sessions[k].id);
        }
        if last {
            if let Some(s) = self.clients[c].last_session {
                if self.session_at(s) < n {
                    return Ok(s);
                }
            }
            return Err("no last session".to_owned());
        }
        match self.find_session(target, None) {
            Ok(k) => {
                assert(ss[k as int] == self.sessions@[k as int]@);
                proof {
                    lemma_there_at(ss, k as int);
                }
                Ok(self.sessions[k].id)
            },
            Err(e) => Err(e),
        }
    }

    /// Take a client to another session; both may change their size.
    pub fn go_to(&mut self, c: usize, id: ClientId, cur: SessionId, sid: SessionId, now: u64)
        requires
            old(self).wf(),
            c == client_place(old(self).clients@, id, 0),
            c < old(self).clients@.len(),
            old(self).clients@[c as int].session == Some(cur),
            session_place(old(self).states(), sid, 0) < old(self).states().len(),
        ensures
            final(self).wf(),
            ({
                let cs = old(self).clients@;
                let now_cs = cs.update(c as int, moved_client(cs[c as int], sid));
                &&& final(self).clients@ == now_cs
                &&& final(self).states() == touched(
                    fitted_session(
                        fitted_session(old(self).states(), old(self).opts, now_cs, sid, Some(id)),
                        old(self).opts,
                        now_cs,
                        cur,
                        None,
                    ),
                    sid,
                    now,
                )
            }),
            *final(self) == (Server { sessions: final(self).sessions, clients: final(self).clients, ..*old(self) }),
    {
        let ghost cs = self.clients@;
        self.clients[c].last_session = Some(cur);
        self.clients[c].session = Some(sid);
        self.clients[c].outbox.in_step = false;
        proof {
            let after = self.clients@;
            assert(after =~= cs.update(c as int, moved_client(cs[c as int], sid)));
            assert forall|d: int, e: int| 0 <= d < e < after.len() implies (#[trigger] after[d]).id != (
            #[trigger] after[e]).id by {
                assert(cs[d].id != cs[e].id);
            }
        }
        self.fit_session(sid, Some(id));
        self.fit_session(cur, None);
        self.touch(sid, now);
    }
}

/// A session that is listed is found.
proof fn lemma_there_at(ss: Seq<SessionState>, k: int)
    requires
        0 <= k < ss.len(),
    ensures
        session_place(ss, ss[k].id, 0) < ss.len(),
{
    lemma_session_place(ss, ss[k].id, 0);
}

} // verus!
