//! Making sessions for clients, attaching them, and sending them away.
use vstd::prelude::*;

use crate::chooser::{ClientId, SessionId};
use crate::client::Client;
use crate::command::{Ended, Outcome, Target};
use crate::openings::name_taken;
use crate::popup::text_of;
use crate::server::{aimed, client_place, lemma_client_place, pane_id_part, session_for, session_part, session_place, Options, Server};
use crate::server_edit::{fitted_session, folded_size, is_detached};
use crate::session::SessionState;
use crate::text::{decimal, join_texts, joined3, joined_by, number_text, texts_of};

verus! {

/// What `new-session` is to do.
pub enum Opening {
    /// Nothing: it cannot be done here.
    Refused(String),
    /// Nothing: the session is there already.
    There,
    /// Attach to the session of that name, which is there already.
    Join,
    /// Make a session of a size, and attach to it or not.
    Make { cols: u16, rows: u16, attach: bool },
}

/// The client a number names.
pub open spec fn client_named(cs: Seq<Client>, cid: Option<ClientId>) -> Option<Client> {
    match cid {
        None => None,
        Some(id) => {
            let k = client_place(cs, id, 0);
            if k < cs.len() {
                Some(cs[k])
            } else {
                None
            }
        },
    }
}

/// Whether a client is a terminal that could attach.
pub open spec fn is_terminal(c: Option<Client>) -> bool {
    c is Some && c->0.interactive
}

/// A size, where it is asked for.
pub open spec fn asked(size: Option<u16>, own: u16) -> u16 {
    match size {
        Some(n) => n,
        None => own,
    }
}

/// `new-session` was planned: a session in a session is refused, one of a name
/// that is there may be joined, and one that nobody attaches to has the size
/// asked for.
pub open spec fn is_planned(
    ss: Seq<SessionState>,
    c: Option<Client>,
    name: Option<Seq<char>>,
    detached: bool,
    attach_existing: bool,
    size: (Option<u16>, Option<u16>),
    plan: Opening,
) -> bool {
    let quiet = detached || !is_terminal(c);
    let own = match c {
        Some(c) => (c.cols, c.rows),
        None => (80u16, 24u16),
    };
    if !quiet && c->0.pane_env is Some && c->0.session is None {
        plan matches Opening::Refused(e) && e@ == "sessions should be nested with care, unset WMUX to force"@
    } else if attach_existing && name is Some && name_taken(ss, name->0) {
        if quiet {
            plan is There
        } else {
            plan is Join
        }
    } else {
        plan == Opening::Make {
            cols: if quiet {
                asked(size.0, own.0)
            } else {
                own.0
            },
            rows: if quiet {
                asked(size.1, own.1)
            } else {
                own.1
            },
            attach: !quiet,
        }
    }
}

/// Which clients are sent away.
#[derive(Clone, Copy, Debug, PartialEq, Eq, Structural)]
pub enum Whom {
    /// One client.
    One(ClientId),
    /// All that look at a session, or at that one.
    Attached(Option<SessionId>),
    /// All that look at a session but one.
    Others(SessionId, ClientId),
}

/// The client is sent away.
pub open spec fn meant(c: Client, whom: Whom) -> bool {
    match whom {
        Whom::One(id) => c.id == id && c.session is Some,
        Whom::Attached(only) => c.session is Some && (only is None || c.session == only),
        Whom::Others(sid, id) => c.session == Some(sid) && c.id != id,
    }
}

/// The clients of whom the first `k`, where they are meant, look at nothing.
pub open spec fn cleared(cs: Seq<Client>, whom: Whom, k: int) -> Seq<Client> {
    Seq::new(
        cs.len(),
        |i: int|
            if i < k && meant(cs[i], whom) {
                Client { session: None, ..cs[i] }
            } else {
                cs[i]
            },
    )
}

/// The sessions after the clients meant among the first `k` went, one after
/// the other.
pub open spec fn left_by(ss: Seq<SessionState>, opts: Options, cs: Seq<Client>, whom: Whom, k: int) -> Seq<SessionState>
    decreases k,
{
    if k <= 0 {
        ss
    } else {
        let before = left_by(ss, opts, cs, whom, k - 1);
        if meant(cs[k - 1], whom) {
            fitted_session(before, opts, cleared(cs, whom, k), cs[k - 1].session->0, None)
        } else {
            before
        }
    }
}

/// Two lists of clients that look at the same and have the same sizes.
pub open spec fn alike(a: Seq<Client>, b: Seq<Client>) -> bool {
    &&& a.len() == b.len()
    &&& forall|i: int|
        0 <= i < a.len() ==> (#[trigger] a[i]).session == b[i].session && a[i].cols == b[i].cols && a[i].rows == b[i].rows
}

proof fn lemma_folded_alike(a: Seq<Client>, b: Seq<Client>, sid: SessionId, least: bool, k: int)
    requires
        alike(a, b),
        k <= a.len(),
    ensures
        folded_size(a, sid, least, k) == folded_size(b, sid, least, k),
    decreases k,
{
    if k > 0 {
        lemma_folded_alike(a, b, sid, least, k - 1);
        assert(a[k - 1].session == b[k - 1].session);
    }
}

proof fn lemma_fitted_alike(ss: Seq<SessionState>, opts: Options, a: Seq<Client>, b: Seq<Client>, sid: SessionId)
    requires
        alike(a, b),
    ensures
        fitted_session(ss, opts, a, sid, None) == fitted_session(ss, opts, b, sid, None),
{
    lemma_folded_alike(a, b, sid, true, a.len() as int);
    lemma_folded_alike(a, b, sid, false, a.len() as int);
}

/// A client was sent away, or stayed.
pub open spec fn went(before: Client, after: Client, whom: Whom, reason: Seq<char>) -> bool {
    if meant(before, whom) {
        is_detached(before, after, reason)
    } else {
        after == before
    }
}

/// Clients were sent away, and the others stayed.
pub open spec fn sent_away(before: Seq<Client>, after: Seq<Client>, whom: Whom, reason: Seq<char>) -> bool {
    &&& after.len() == before.len()
    &&& forall|i: int| 0 <= i < before.len() ==> went(before[i], #[trigger] after[i], whom, reason)
}

impl Server {
    /// What `new-session` is to do for a client.
    pub fn plan_session(
        &self,
        cid: Option<ClientId>,
        name: Option<&str>,
        detached: bool,
        attach_existing: bool,
        size: (Option<u16>, Option<u16>),
    ) -> (plan: Opening)
        ensures
            is_planned(
                self.states(),
                client_named(self.clients@, cid),
                text_of(name),
                detached,
                attach_existing,
                size,
                plan,
            ),
    {
        let mut own: (u16, u16) = (80, 24);
        let mut terminal: bool = false;
        let mut inside: bool = false;
        if let Some(id) = cid {
            let k: usize = self.client_at(id);
            if k < self.clients.len() {
                let c = &self.clients[k];
                own = (c.cols, c.rows);
                terminal = c.interactive;
                inside = c.pane_env.is_some() && c.session.is_none();
            }
        }
        let quiet: bool = detached || !terminal;
        if inside && !quiet {
            return Opening::Refused("sessions should be nested with care, unset WMUX to force".to_owned());
        }
        if attach_existing {
            if let Some(n) = name {
                if self.taken(n) {
                    return if quiet { Opening::There } else { Opening::Join };
                }
            }
        }
        let mut cols: u16 = own.0;
        let mut rows: u16 = own.1;
        if quiet {
            if let Some(n) = size.0 {
                cols = n;
            }
            if let Some(n) = size.1 {
                rows = n;
            }
        }
        Opening::Make { cols, rows, attach: !quiet }
    }

    /// Send clients away, one after the other; the sessions they looked at
    /// may then have other sizes.
    pub fn send_away(&mut self, whom: &Whom, reason: &str)
        requires
            old(self).wf(),
        ensures
            final(self).wf(),
            sent_away(old(self).clients@, final(self).clients@, *whom, reason@),
            final(self).states() == left_by(
                old(self).states(),
                old(self).opts,
                old(self).clients@,
                *whom,
                old(self).clients@.len() as int,
            ),
            *final(self) == (Server { clients: final(self).clients, sessions: final(self).sessions, ..*old(self) }),
    {
        let ghost cs = self.clients@;
        let ghost ss = self.states();
        let mut k: usize = 0;
        while k < self.clients.len()
            invariant
                self.wf(),
                k <= self.clients@.len() == cs.len(),
                cs == old(self).clients@,
                ss == old(self).states(),
                forall|i: int| 0 <= i < k ==> went(cs[i], #[trigger] self.clients@[i], *whom, reason@),
                forall|i: int| k <= i < cs.len() ==> #[trigger] self.clients@[i] == cs[i],
                self.states() == left_by(ss, old(self).opts, cs, *whom, k as int),
                *self == (Server { clients: self.clients, sessions: self.sessions, ..*old(self) }),
            decreases self.clients.len() - k,
        {
            let id: ClientId = self.clients[k].id;
            let goes: bool = match self.clients[k].session {
                None => false,
                Some(s) => match *whom {
                    Whom::One(o) => o == id,
                    Whom::Attached(only) => match only {
                        None => true,
                        Some(x) => x == s,
                    },
                    Whom::Others(sid, but) => s == sid && id != but,
                },
            };
            assert(goes == meant(cs[k as int], *whom));
            if goes {
                let ghost mid = self.clients@;
                proof {
                    lemma_client_place(mid, id, 0);
                    let p = client_place(mid, id, 0);
                    if p < k {
                        assert(mid[p].id != mid[k as int].id);
                    }
                }
                self.detach(id, reason);
                proof {
                    let now = self.clients@;
                    assert(now =~= mid.update(k as int, now[k as int]));
                    assert forall|i: int| 0 <= i < cs.len() implies (#[trigger] now[i]).session == cleared(
                        cs,
                        *whom,
                        k + 1,
                    )[i].session && now[i].cols == cleared(cs, *whom, k + 1)[i].cols && now[i].rows == cleared(
                        cs,
                        *whom,
                        k + 1,
                    )[i].rows by {
                        if i < k {
                            assert(went(cs[i], mid[i], *whom, reason@));
                        }
                    }
                    assert(alike(now, cleared(cs, *whom, k + 1)));
                    lemma_fitted_alike(
                        left_by(ss, old(self).opts, cs, *whom, k as int),
                        old(self).opts,
                        now,
                        cleared(cs, *whom, k + 1),
                        cs[k as int].session->0,
                    );
                }
            }
            k = k + 1;
        }
    }

    /// `detach-client`: this client; with `-a` or a session, every client of
    /// it or of all.
    pub fn detach_client(&mut self, all: bool, target: Option<&Target>, cid: Option<ClientId>) -> (out: Outcome)
        requires
            old(self).wf(),
        ensures
            final(self).wf(),
            ({
                let t = aimed(target);
                let named = t is Some && t->0.session is Some;
                let found = session_for(
                    old(self).states(),
                    old(self).clients@,
                    pane_id_part(t),
                    session_part(t),
                    cid,
                );
                if named && found is Err {
                    out@ == Ended::Error(found->Err_0) && *final(self) == *old(self)
                } else if !all && !named && cid is None {
                    out@ == Ended::Done && *final(self) == *old(self)
                } else {
                    let whom = if named {
                        Whom::Attached(Some(old(self).states()[found->Ok_0].id))
                    } else if all {
                        Whom::Attached(None)
                    } else {
                        Whom::One(cid->0)
                    };
                    &&& out@ == Ended::Done
                    &&& sent_away(old(self).clients@, final(self).clients@, whom, "detached"@)
                    &&& final(self).states() == left_by(
                        old(self).states(),
                        old(self).opts,
                        old(self).clients@,
                        whom,
                        old(self).clients@.len() as int,
                    )
                    &&& *final(self) == (Server {
                        clients: final(self).clients,
                        sessions: final(self).sessions,
                        ..*old(self)
                    })
                }
            }),
    {
        let mut only: Option<SessionId> = None;
        if let Some(t) = target {
            if t.session.is_some() {
                match self.find_session(target, cid) {
                    Err(e) => {
                        return Outcome::Error(e);
                    },
                    Ok(i) => {
                        assert(self.states()[i as int] == self.sessions@[i as int]@);
                        only = Some(self.sessions[i].id);
                    },
                }
            }
        }
        let whom = if all || only.is_some() {
            Whom::Attached(only)
        } else {
            match cid {
                None => {
                    return Outcome::Done;
                },
                Some(id) => Whom::One(id),
            }
        };
        self.send_away(&whom, "detached");
        Outcome::Done
    }

    /// `attach-session`: the session to attach to; `-d` sends the others that
    /// look at it away. A client that is attached already switches instead.
    #[verifier::spinoff_prover]
    #[verifier::rlimit(40)]
    pub fn attach_session(&mut self, target: Option<&Target>, detach_others: bool, cid: Option<ClientId>) -> (r: Result<
        (SessionId, bool),
        String,
    >)
        requires
            old(self).wf(),
            cid is Some ==> client_place(old(self).clients@, cid->0, 0) < old(self).clients@.len(),
        ensures
            final(self).wf(),
            ({
                let found = session_for(
                    old(self).states(),
                    old(self).clients@,
                    pane_id_part(aimed(target)),
                    session_part(aimed(target)),
                    cid,
                );
                if cid is None {
                    r is Err && r->Err_0@ == "attach-session: no client"@ && *final(self) == *old(self)
                } else if found is Err {
                    r is Err && r->Err_0@ == found->Err_0 && *final(self) == *old(self)
                } else {
                    let sid = old(self).states()[found->Ok_0].id;
                    let whom = Whom::Others(sid, cid->0);
                    let c = client_named(old(self).clients@, cid)->0;
                    &&& if c.interactive {
                        r == Ok::<(SessionId, bool), String>((sid, c.session is Some))
                    } else {
                        r is Err && r->Err_0@ == "not a terminal"@
                    }
                    &&& if detach_others {
                        &&& sent_away(old(self).clients@, final(self).clients@, whom, "detached (attach -d)"@)
                        &&& final(self).states() == left_by(
                            old(self).states(),
                            old(self).opts,
                            old(self).clients@,
                            whom,
                            old(self).clients@.len() as int,
                        )
                        &&& *final(self) == (Server {
                            clients: final(self).clients,
                            sessions: final(self).sessions,
                            ..*old(self)
                        })
                    } else {
                        *final(self) == *old(self)
                    }
                }
            }),
    {
        let id: ClientId = match cid {
            Some(id) => id,
            None => {
                return Err("attach-session: no client".to_owned());
            },
        };
        let i: usize = match self.find_session(target, cid) {
            Ok(i) => i,
            Err(e) => {
                return Err(e);
            },
        };
        assert(self.states()[i as int] == self.sessions@[i as int]@);
        let sid: SessionId = self.sessions[i].id;
        let k: usize = self.client_at(id);
        let terminal: bool = self.clients[k].interactive;
        let attached: bool = self.clients[k].session.is_some();
        if detach_others {
            self.send_away(&Whom::Others(sid, id), "detached (attach -d)");
        }
        if !terminal {
            return Err("not a terminal".to_owned());
        }
        Ok((sid, attached))
    }

    /// `kill-server`: every session ends, and the clients are told why.
    pub fn kill_server(&mut self, reason: &str)
        requires
            old(self).wf(),
        ensures
            final(self).wf(),
            final(self).quit,
            final(self).states().len() == 0,
            sent_away(old(self).clients@, final(self).clients@, Whom::Attached(None), reason@),
            *final(self) == (Server {
                clients: final(self).clients,
                sessions: final(self).sessions,
                quit: true,
                ..*old(self)
            }),
    {
        let ghost cs = self.clients@;
        assert(forall|i: int| 0 <= i < cs.len() ==> mid_way(cs[i], #[trigger] self.clients@[i], reason@));
        while self.sessions.len() > 0
            invariant
                self.wf(),
                cs == old(self).clients@,
                self.clients@.len() == cs.len(),
                forall|i: int|
                    0 <= i < cs.len() ==> mid_way(cs[i], #[trigger] self.clients@[i], reason@),
                *self == (Server { clients: self.clients, sessions: self.sessions, ..*old(self) }),
            decreases self.sessions@.len(),
        {
            let ghost before = *self;
            assert(self.states()[0] == self.sessions@[0]@);
            let sid: SessionId = self.sessions[0].id;
            assert(session_place(self.states(), sid, 0) == 0);
            self.kill_session(sid, reason);
            proof {
                assert(self.states() =~= before.states().remove(0));
                assert(self.states().len() == self.sessions@.len());
                assert(before.states().len() == before.sessions@.len());
                assert forall|i: int| 0 <= i < cs.len() implies mid_way(
                    cs[i],
                    #[trigger] self.clients@[i],
                    reason@,
                ) by {
                    assert(mid_way(cs[i], before.clients@[i], reason@));
                    if before.clients@[i].session == Some(sid) {
                        assert(is_detached(before.clients@[i], self.clients@[i], reason@));
                    }
                }
            }
        }
        proof {
            assert forall|i: int| 0 <= i < cs.len() implies went(
                cs[i],
                #[trigger] self.clients@[i],
                Whom::Attached(None),
                reason@,
            ) by {
                assert(mid_way(cs[i], self.clients@[i], reason@));
                if self.clients@[i].session is Some {
                    assert(session_place(self.states(), self.clients@[i].session->0, 0) < self.states().len());
                }
            }
        }
        self.quit = true;
    }
}

/// While sessions end: a client is as it was, or was sent away from one that
/// ended.
spec fn mid_way(before: Client, now: Client, reason: Seq<char>) -> bool {
    now == before || (before.session is Some && is_detached(before, now, reason))
}

/// What `restore-session` says when nobody attaches.
pub open spec fn restored_text(created: nat, problems: Seq<Seq<char>>, named: bool) -> Seq<char> {
    let first = if created == 0 && problems.len() == 0 && !named {
        "nothing to restore (see list-saved)"@
    } else {
        "restored "@ + decimal(created) + " session(s)"@
    };
    let lines = seq![first] + problems;
    joined_by(lines, "\n"@, lines.len() as int)
}

/// What `restore-session` ends with: how many sessions came back and what went
/// wrong, or the session that a terminal attaches to.
pub fn restore_outcome(created: usize, problems: Vec<String>, named: bool, attach: Option<SessionId>) -> (out: Outcome)
    ensures
        out@ == match attach {
            Some(s) => Ended::Attach(s),
            None => Ended::Text(restored_text(created as nat, texts_of(problems@), named)),
        },
{
    if let Some(s) = attach {
        return Outcome::Attach(s);
    }
    let ghost ps = texts_of(problems@);
    let first = if created == 0 && problems.len() == 0 && !named {
        "nothing to restore (see list-saved)".to_owned()
    } else {
        joined3("restored ", number_text(created as u64).as_str(), " session(s)")
    };
    let ghost f = first@;
    let mut lines = problems;
    lines.insert(0, first);
    assert(texts_of(lines@) =~= seq![f] + ps);
    Outcome::Text(join_texts(&lines, "\n"))
}

} // verus!
