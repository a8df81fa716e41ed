//! Who runs a command, whom it is about, and which pane made which.
use vstd::prelude::*;

use crate::arrange::{place_in, position};
use crate::actor::{mode_name, MsgId, Origin, Sender, WorkMode};
use crate::chooser::ClientId;
use crate::client::Client;
use crate::command::Target;
use crate::endings::pane_named;
use crate::layout::{panes, PaneId};
use crate::observe::{opt_text, Store};
use crate::pane::Pane;
use crate::replay::{address_pane, last_percent};
use crate::server::{aimed, client_place, lemma_session_with, place_for, session_with, Options, Server};
use crate::session::{lemma_window_with, window_with, SessionState};
use crate::text::{chars_of, decimal, is_digit, joined2, lemma_decimal, number_of, number_text, part_of, push_decimal, read_number, same_text, unsigned};
use crate::window::{lemma_place_of, place_of, WindowState};

verus! {

/// How far a line of creators is followed.
pub const CREATORS: usize = 1024;

/// Pane `id` is in a window.
pub open spec fn is_there(ss: Seq<SessionState>, id: PaneId) -> bool {
    session_with(ss, id, 0) < ss.len()
}

/// The window that has pane `id`.
pub open spec fn home_of(ss: Seq<SessionState>, id: PaneId) -> WindowState {
    let s = ss[session_with(ss, id, 0)];
    s.windows[window_with(s.windows, id, 0)]
}

/// The address of a pane: its session, window and pane numbers.
pub open spec fn address_text(ss: Seq<SessionState>, id: PaneId) -> Seq<char> {
    if is_there(ss, id) {
        "$"@ + decimal(ss[session_with(ss, id, 0)].id as nat) + ":@"@ + decimal(home_of(ss, id).id as nat) + ".%"@
            + decimal(id as nat)
    } else {
        "%"@ + decimal(id as nat)
    }
}

/// The pane a client runs in, when it is still there.
pub open spec fn caller(ss: Seq<SessionState>, cs: Seq<Client>, cid: Option<ClientId>) -> Option<PaneId> {
    match cid {
        None => None,
        Some(c) => {
            let k = client_place(cs, c, 0);
            if k < cs.len() && cs[k].pane_env is Some && is_there(ss, cs[k].pane_env->0) {
                cs[k].pane_env
            } else {
                None
            }
        },
    }
}

/// The caller, when it is an agent's pane.
pub open spec fn agent(ss: Seq<SessionState>, cs: Seq<Client>, cid: Option<ClientId>) -> Option<PaneId> {
    match caller(ss, cs, cid) {
        None => None,
        Some(me) => {
            let a = pane_named(ss, me).actor;
            if a.mode is Ai || a.creator is Some {
                Some(me)
            } else {
                None
            }
        },
    }
}

/// The pane a message command is about.
pub open spec fn mail_place(
    ss: Seq<SessionState>,
    cs: Seq<Client>,
    opts: Options,
    t: Option<Target>,
    cid: Option<ClientId>,
) -> Result<PaneId, Seq<char>> {
    match (t, caller(ss, cs, cid)) {
        (None, Some(p)) => Ok(p),
        _ => match place_for(ss, cs, opts, t, cid) {
            Ok(p) => Ok(p.pane),
            Err(e) => Err(e),
        },
    }
}

/// The sender of what a client sends.
pub open spec fn origin_of(ss: Seq<SessionState>, cs: Seq<Client>, cid: Option<ClientId>) -> Origin {
    match caller(ss, cs, cid) {
        None => Origin::User,
        Some(id) => Origin::Pane {
            id,
            address: address_text(ss, id),
            name: opt_text(pane_named(ss, id).actor.name),
            mode: pane_named(ss, id).actor.mode,
        },
    }
}

/// Who did it, for the event log.
pub open spec fn doer(ss: Seq<SessionState>, cs: Seq<Client>, cid: Option<ClientId>) -> Seq<char> {
    match caller(ss, cs, cid) {
        None => "user"@,
        Some(p) => address_text(ss, p),
    }
}

/// The pane that made pane `id`.
pub open spec fn maker(ss: Seq<SessionState>, id: PaneId) -> Option<PaneId> {
    if is_there(ss, id) {
        pane_named(ss, id).actor.creator
    } else {
        None
    }
}

/// `by` is among the first `n` of `p` and its line of creators.
pub open spec fn in_line(ss: Seq<SessionState>, p: Option<PaneId>, by: PaneId, n: nat) -> bool
    decreases n,
{
    match p {
        None => false,
        Some(id) => n > 0 && (id == by || in_line(ss, maker(ss, id), by, (n - 1) as nat)),
    }
}

/// The pane at the top of the line of creators of `p`, as far as they are
/// still there.
pub open spec fn top_of(ss: Seq<SessionState>, p: PaneId, n: nat) -> PaneId
    decreases n,
{
    match maker(ss, p) {
        Some(c) => if n > 0 && is_there(ss, c) {
            top_of(ss, c, (n - 1) as nat)
        } else {
            p
        },
        None => p,
    }
}

/// The panes of the first `k` windows, in order.
pub open spec fn panes_in(ws: Seq<WindowState>, k: int) -> Seq<Pane>
    decreases k,
{
    if k <= 0 {
        Seq::empty()
    } else {
        panes_in(ws, k - 1) + ws[k - 1].panes
    }
}

/// The panes of the first `k` sessions, in order.
pub open spec fn panes_within(ss: Seq<SessionState>, k: int) -> Seq<Pane>
    decreases k,
{
    if k <= 0 {
        Seq::empty()
    } else {
        panes_within(ss, k - 1) + panes_in(ss[k - 1].windows, ss[k - 1].windows.len() as int)
    }
}

/// Every pane, in order.
pub open spec fn every_pane(ss: Seq<SessionState>) -> Seq<Pane> {
    panes_within(ss, ss.len() as int)
}

/// How many of the first `k` panes `top` and the panes it made have made.
pub open spec fn made_by(ss: Seq<SessionState>, ps: Seq<Pane>, top: PaneId, k: int) -> nat
    decreases k,
{
    if k <= 0 {
        0
    } else {
        made_by(ss, ps, top, k - 1) + if ps[k - 1].id != top && in_line(ss, Some(ps[k - 1].id), top, CREATORS as nat) {
            1nat
        } else {
            0nat
        }
    }
}

/// The pane from `i` on in whose inbox message `id` waits.
pub open spec fn holder_of(ps: Seq<Pane>, id: MsgId, i: int) -> Option<PaneId>
    decreases ps.len() - i,
{
    if i >= ps.len() {
        None
    } else if ps[i].actor@.place_of(id, 0) is Some {
        Some(ps[i].id)
    } else {
        holder_of(ps, id, i + 1)
    }
}

/// The pane from `i` on that has the name.
pub open spec fn named_from(ps: Seq<Pane>, name: Seq<char>, i: int) -> Option<PaneId>
    decreases ps.len() - i,
{
    if i >= ps.len() {
        None
    } else if opt_text(ps[i].actor.name) == Some(name) {
        Some(ps[i].id)
    } else {
        named_from(ps, name, i + 1)
    }
}

/// How many messages are before message `id` in the inbox of the pane its
/// address names.
pub open spec fn ahead_of(ss: Seq<SessionState>, to: Seq<char>, id: MsgId) -> nat {
    match last_percent(to, to.len() as int) {
        None => 0,
        Some(i) => match number_of(to.skip(i + 1), u32::MAX as int) {
            None => 0,
            Some(n) => if is_there(ss, n as PaneId) {
                match pane_named(ss, n as PaneId).actor@.place_of(id, 0) {
                    Some(k) => k as nat,
                    None => 0,
                }
            } else {
                0
            },
        },
    }
}

/// Who and where a pane is.
pub open spec fn whoami_text(ss: Seq<SessionState>, opts: Options, id: PaneId) -> Seq<char> {
    if is_there(ss, id) {
        let i = session_with(ss, id, 0);
        let s = ss[i];
        let place = place_in(panes(home_of(ss, id).tree), id, 0);
        let a = pane_named(ss, id).actor;
        address_text(ss, id) + "  "@ + s.name + ":"@ + decimal(
            (window_with(s.windows, id, 0) + opts.base_index) as nat,
        ) + "."@ + decimal((place + opts.pane_base_index) as nat) + "  "@ + (match a.name {
            Some(n) => n@,
            None => "-"@,
        }) + "  "@ + mode_name(a.mode)
    } else {
        "%"@ + decimal(id as nat)
    }
}

/// The panes behind references.
pub open spec fn pointed(v: Seq<&Pane>) -> Seq<Pane> {
    Seq::new(v.len(), |i: int| *v[i])
}

impl Server {
    /// A pane by its number.
    pub fn pane_ref(&self, id: PaneId) -> (p: Option<&Pane>)
        ensures
            match p {
                Some(p) => is_there(self.states(), id) && *p == pane_named(self.states(), id) && p.id == id,
                None => !is_there(self.states(), id),
            },
    {
        match self.place_of_pane(id) {
            None => None,
            Some((i, j)) => {
                proof {
                    assert(self.states()[i as int] == self.sessions@[i as int]@);
                    let w = self.states()[i as int].windows[j as int];
                    assert(w == self.sessions@[i as int].windows@[j as int]@);
                    lemma_place_of(w.panes, id, 0);
                }
                let k: usize = self.sessions[i].windows[j].place(id);
                Some(&self.sessions[i].windows[j].panes[k])
            },
        }
    }

    pub fn address_of(&self, id: PaneId) -> (s: String)
        ensures
            s@ == address_text(self.states(), id),
    {
        match self.place_of_pane(id) {
            None => joined2("%", number_text(id as u64).as_str()),
            Some((i, j)) => {
                proof {
                    assert(self.states()[i as int] == self.sessions@[i as int]@);
                    assert(self.states()[i as int].windows[j as int] == self.sessions@[i as int].windows@[j as int]@);
                }
                let mut s = joined2("$", number_text(self.sessions[i].id as u64).as_str());
                s.push_str(":@");
                push_decimal(&mut s, self.sessions[i].windows[j].id as u64);
                s.push_str(".%");
                push_decimal(&mut s, id as u64);
                s
            },
        }
    }

    /// The pane the command was run from, when it was run in one that still
    /// exists.
    pub fn caller_pane(&self, cid: Option<ClientId>) -> (p: Option<PaneId>)
        ensures
            p == caller(self.states(), self.clients@, cid),
    {
        match cid {
            None => None,
            Some(c) => {
                let k: usize = self.client_at(c);
                if k < self.clients.len() {
                    match self.clients[k].pane_env {
                        Some(id) => if self.session_with_pane(id) < self.sessions.len() {
                            Some(id)
                        } else {
                            None
                        },
                        None => None,
                    }
                } else {
                    None
                }
            },
        }
    }

    /// The caller, when it is an agent's pane: one in `ai` work mode, or one
    /// another pane made. What a person types in a shell pane of their own is
    /// a person's command.
    pub fn agent_caller(&self, cid: Option<ClientId>) -> (p: Option<PaneId>)
        ensures
            p == agent(self.states(), self.clients@, cid),
    {
        let me: PaneId = match self.caller_pane(cid) {
            Some(p) => p,
            None => {
                return None;
            },
        };
        match self.pane_ref(me) {
            Some(p) => {
                let ai: bool = match p.actor.mode {
                    WorkMode::Ai => true,
                    _ => false,
                };
                if ai || p.actor.creator.is_some() {
                    Some(me)
                } else {
                    None
                }
            },
            None => None,
        }
    }

    /// The pane a message command is about: the one named, else the caller's
    /// own, else the current pane of the attached client.
    pub fn mail_target(&self, target: Option<&Target>, cid: Option<ClientId>) -> (r: Result<PaneId, String>)
        requires
            self.wf(),
        ensures
            match (r, mail_place(self.states(), self.clients@, self.opts, aimed(target), cid)) {
                (Ok(a), Ok(b)) => a == b && is_there(self.states(), a),
                (Err(a), Err(b)) => a@ == b,
                _ => false,
            },
    {
        if target.is_none() {
            if let Some(p) = self.caller_pane(cid) {
                return Ok(p);
            }
        }
        match self.find_place(target, cid) {
            Ok((i, j, p)) => {
                proof {
                    lemma_there(self.states(), i as int, j as int, p);
                }
                Ok(p)
            },
            Err(e) => Err(e),
        }
    }

    pub fn sender_of(&self, cid: Option<ClientId>) -> (s: Sender)
        ensures
            s@ == origin_of(self.states(), self.clients@, cid),
    {
        match self.caller_pane(cid) {
            None => Sender::User,
            Some(id) => match self.pane_ref(id) {
                None => Sender::User,
                Some(p) => {
                    let name = match &p.actor.name {
                        Some(n) => Some(n.as_str().to_owned()),
                        None => None,
                    };
                    Sender::Pane { id, address: self.address_of(id), name, mode: p.actor.mode }
                },
            },
        }
    }

    /// Who did it, for the event log: a pane's address, or `user`.
    pub fn doer_of(&self, cid: Option<ClientId>) -> (s: String)
        ensures
            s@ == doer(self.states(), self.clients@, cid),
    {
        match self.caller_pane(cid) {
            None => "user".to_owned(),
            Some(p) => self.address_of(p),
        }
    }

    fn maker_of(&self, id: PaneId) -> (c: Option<PaneId>)
        ensures
            c == maker(self.states(), id),
    {
        match self.pane_ref(id) {
            Some(p) => p.actor.creator,
            None => None,
        }
    }

    /// `pane` is `by`, or was created by it or by one it created.
    pub fn created_by(&self, pane: PaneId, by: PaneId) -> (b: bool)
        ensures
            b == in_line(self.states(), Some(pane), by, CREATORS as nat),
    {
        let mut p: Option<PaneId> = Some(pane);
        let mut n: usize = CREATORS;
        while n > 0
            invariant
                n <= CREATORS,
                in_line(self.states(), Some(pane), by, CREATORS as nat) == in_line(self.states(), p, by, n as nat),
            decreases n,
        {
            match p {
                None => {
                    return false;
                },
                Some(id) => {
                    if id == by {
                        return true;
                    }
                    p = self.maker_of(id);
                },
            }
            n = n - 1;
        }
        false
    }

    /// The pane at the top of `p`'s line of creators (itself when nobody
    /// alive created it): its panes and theirs are one budget.
    pub fn top_creator(&self, p: PaneId) -> (top: PaneId)
        ensures
            top == top_of(self.states(), p, CREATORS as nat),
    {
        let mut at: PaneId = p;
        let mut n: usize = CREATORS;
        while n > 0
            invariant
                n <= CREATORS,
                top_of(self.states(), p, CREATORS as nat) == top_of(self.states(), at, n as nat),
            decreases n,
        {
            match self.maker_of(at) {
                Some(c) => {
                    if self.session_with_pane(c) >= self.sessions.len() {
                        return at;
                    }
                    at = c;
                },
                None => {
                    return at;
                },
            }
            n = n - 1;
        }
        at
    }

    /// Every pane, in order.
    pub fn all_panes(&self) -> (out: Vec<&Pane>)
        ensures
            pointed(out@) == every_pane(self.states()),
    {
        let mut out: Vec<&Pane> = Vec::new();
        let ghost ss = self.states();
        let mut i: usize = 0;
        assert(pointed(out@) =~= panes_within(ss, 0));
        while i < self.sessions.len()
            invariant
                i <= self.sessions@.len(),
                ss == self.states(),
                pointed(out@) == panes_within(ss, i as int),
            decreases self.sessions.len() - i,
        {
            let s = &self.sessions[i];
            let ghost ws = ss[i as int].windows;
            assert(ss[i as int] == s@);
            let mut j: usize = 0;
            assert(pointed(out@) =~= panes_within(ss, i as int) + panes_in(ws, 0));
            while j < s.windows.len()
                invariant
                    j <= s.windows@.len() == ws.len(),
                    ws == s@.windows,
                    pointed(out@) == panes_within(ss, i as int) + panes_in(ws, j as int),
                decreases s.windows.len() - j,
            {
                let w = &s.windows[j];
                assert(ws[j as int] == w@);
                let ghost head = pointed(out@);
                let mut k: usize = 0;
                assert(pointed(out@) =~= head + w.panes@.take(0));
                while k < w.panes.len()
                    invariant
                        k <= w.panes@.len(),
                        pointed(out@) == head + w.panes@.take(k as int),
                    decreases w.panes.len() - k,
                {
                    let ghost before = pointed(out@);
                    out.push(&w.panes[k]);
                    assert(pointed(out@) =~= before.push(w.panes@[k as int]));
                    assert(w.panes@.take(k + 1) =~= w.panes@.take(k as int).push(w.panes@[k as int]));
                    k = k + 1;
                    assert(pointed(out@) =~= head + w.panes@.take(k as int));
                }
                assert(w.panes@.take(k as int) =~= w@.panes);
                j = j + 1;
                assert(panes_in(ws, j as int) == panes_in(ws, j - 1) + ws[j - 1].panes);
                assert(pointed(out@) =~= panes_within(ss, i as int) + panes_in(ws, j as int));
            }
            i = i + 1;
        }
        out
    }

    /// How many panes `top` and the panes it made have made.
    pub fn panes_made(&self, top: PaneId) -> (n: usize)
        ensures
            n == made_by(self.states(), every_pane(self.states()), top, every_pane(self.states()).len() as int),
    {
        let all = self.all_panes();
        let ghost ps = every_pane(self.states());
        assert(ps.len() == all@.len());
        let mut n: usize = 0;
        let mut k: usize = 0;
        while k < all.len()
            invariant
                k <= all@.len(),
                n <= k,
                ps == pointed(all@),
                n == made_by(self.states(), ps, top, k as int),
            decreases all.len() - k,
        {
            assert(ps[k as int] == *all@[k as int]);
            if all[k].id != top && self.created_by(all[k].id, top) {
                n = n + 1;
            }
            k = k + 1;
        }
        n
    }

    /// Which pane holds a queued message.
    pub fn holder(&self, id: MsgId) -> (p: Option<PaneId>)
        ensures
            p == holder_of(every_pane(self.states()), id, 0),
    {
        let all = self.all_panes();
        let ghost ps = every_pane(self.states());
        let mut k: usize = 0;
        while k < all.len()
            invariant
                k <= all@.len(),
                ps == pointed(all@),
                ps == every_pane(self.states()),
                holder_of(ps, id, 0) == holder_of(ps, id, k as int),
            decreases all.len() - k,
        {
            assert(ps[k as int] == *all@[k as int]);
            if all[k].actor.find(id).is_some() {
                return Some(all[k].id);
            }
            k = k + 1;
        }
        None
    }

    /// The pane with a name.
    pub fn pane_by_name(&self, name: &str) -> (p: Option<PaneId>)
        ensures
            p == named_from(every_pane(self.states()), name@, 0),
    {
        let all = self.all_panes();
        let ghost ps = every_pane(self.states());
        let mut k: usize = 0;
        while k < all.len()
            invariant
                k <= all@.len(),
                ps == pointed(all@),
                ps == every_pane(self.states()),
                named_from(ps, name@, 0) == named_from(ps, name@, k as int),
            decreases all.len() - k,
        {
            assert(ps[k as int] == *all@[k as int]);
            if let Some(n) = &all[k].actor.name {
                if same_text(n.as_str(), name) {
                    return Some(all[k].id);
                }
            }
            k = k + 1;
        }
        None
    }

    /// How many messages are before this one where its address says it waits.
    pub fn waiting_ahead(&self, to: &str, id: MsgId) -> (n: usize)
        ensures
            n == ahead_of(self.states(), to@, id),
    {
        let s = chars_of(to);
        let mut k: usize = s.len();
        while k > 0
            invariant
                k <= s@.len(),
                s@ == to@,
                last_percent(s@, s@.len() as int) == last_percent(s@, k as int),
            decreases k,
        {
            if s[k - 1] == '%' {
                let rest = part_of(&s, k, s.len());
                assert(rest@ =~= to@.skip(k as int));
                return match read_number(&rest, u32::MAX as u64) {
                    None => 0,
                    Some(n) => match self.pane_ref(n as PaneId) {
                        None => 0,
                        Some(p) => match p.actor.find(id) {
                            Some(i) => i,
                            None => 0,
                        },
                    },
                };
            }
            k = k - 1;
        }
        0
    }

    /// Where a message stands, the way `send-message` reports it.
    pub fn stand(&self, store: &Store, id: MsgId) -> (s: String)
        requires
            store.wf(),
        ensures
            s@ == crate::mail::stand_text(
                id,
                store@.life(id),
                match store@.life(id) {
                    Some(r) => ahead_of(self.states(), r.msg.to, id),
                    None => 0,
                },
            ),
    {
        let ahead: usize = match store.get(id) {
            Some(r) => self.waiting_ahead(r.msg.to.as_str(), id),
            None => 0,
        };
        crate::mail::stand(store, id, ahead)
    }

    /// `whoami`: the address of a pane, where it is, its name and work mode.
    pub fn whoami(&self, id: PaneId) -> (s: String)
        requires
            self.wf(),
        ensures
            s@ == whoami_text(self.states(), self.opts, id),
    {
        match (self.place_of_pane(id), self.pane_ref(id)) {
            (Some((i, j)), Some(p)) => {
                proof {
                    assert(self.states()[i as int] == self.sessions@[i as int]@);
                    let w = self.states()[i as int].windows[j as int];
                    assert(w == self.sessions@[i as int].windows@[j as int]@);
                    assert(self.states()[i as int].wf());
                    assert(w.settled());
                    lemma_place_of(w.panes, id, 0);
                    assert(crate::window::ids(w.panes).contains(id));
                }
                let order = self.sessions[i].windows[j].layout.panes();
                let k: usize = position(&order, id);
                let mut s = self.address_of(id);
                s.push_str("  ");
                s.push_str(self.sessions[i].name.as_str());
                s.push_str(":");
                crate::text::push_sum(&mut s, j as u64, self.opts.base_index as u64);
                s.push_str(".");
                crate::text::push_sum(&mut s, k as u64, self.opts.pane_base_index as u64);
                s.push_str("  ");
                match &p.actor.name {
                    Some(n) => s.push_str(n.as_str()),
                    None => s.push_str("-"),
                }
                s.push_str("  ");
                s.push_str(p.actor.mode.as_str());
                s
            },
            _ => joined2("%", number_text(id as u64).as_str()),
        }
    }
}

/// A pane of a window of a session is there.
pub proof fn lemma_there(ss: Seq<SessionState>, i: int, j: int, id: PaneId)
    requires
        0 <= i < ss.len(),
        0 <= j < ss[i].windows.len(),
        ss[i].windows[j].has(id),
    ensures
        is_there(ss, id),
{
    lemma_session_with(ss, id, 0);
    lemma_window_with(ss[i].windows, id, 0);
}

/// Each of all the panes is the one found by its number.
pub proof fn lemma_every_pane(ss: Seq<SessionState>, k: int)
    requires
        crate::server::sessions_wf(ss),
        crate::server::apart(ss),
        0 <= k < every_pane(ss).len(),
    ensures
        is_there(ss, every_pane(ss)[k].id),
        pane_named(ss, every_pane(ss)[k].id) == every_pane(ss)[k],
{
    let n = ss.len() as int;
    lemma_panes_within(ss, n, k);
    let p = every_pane(ss)[k];
    let (i, j, l) = choose|i: int, j: int, l: int|
        0 <= i < n && 0 <= j < ss[i].windows.len() && 0 <= l < ss[i].windows[j].panes.len() && #[trigger] ss[i].windows[j].panes[l]
            == p;
    let w = ss[i].windows[j];
    assert(crate::window::ids(w.panes)[l] == p.id);
    assert(w.has(p.id));
    lemma_there(ss, i, j, p.id);
    lemma_session_with(ss, p.id, 0);
    let i2 = session_with(ss, p.id, 0);
    lemma_window_with(ss[i2].windows, p.id, 0);
    let j2 = window_with(ss[i2].windows, p.id, 0);
    assert(crate::server::lives(ss, i, j, p.id));
    assert(crate::server::lives(ss, i2, j2, p.id));
    assert(ss[i].wf());
    assert(w.settled());
    lemma_place_of(w.panes, p.id, 0);
    let l2 = place_of(w.panes, p.id, 0);
    assert(crate::window::ids(w.panes)[l2] == p.id);
}

proof fn lemma_panes_in(ws: Seq<WindowState>, n: int, k: int)
    requires
        0 <= n <= ws.len(),
        0 <= k < panes_in(ws, n).len(),
    ensures
        exists|j: int, l: int|
            0 <= j < n && 0 <= l < ws[j].panes.len() && #[trigger] ws[j].panes[l] == panes_in(ws, n)[k],
    decreases n,
{
    if n > 0 {
        let before = panes_in(ws, n - 1);
        if k < before.len() {
            lemma_panes_in(ws, n - 1, k);
            let (j, l) = choose|j: int, l: int|
                0 <= j < n - 1 && 0 <= l < ws[j].panes.len() && #[trigger] ws[j].panes[l] == before[k];
            assert(ws[j].panes[l] == panes_in(ws, n)[k]);
        } else {
            assert(ws[n - 1].panes[k - before.len()] == panes_in(ws, n)[k]);
        }
    }
}

proof fn lemma_panes_within(ss: Seq<SessionState>, n: int, k: int)
    requires
        0 <= n <= ss.len(),
        0 <= k < panes_within(ss, n).len(),
    ensures
        exists|i: int, j: int, l: int|
            0 <= i < n && 0 <= j < ss[i].windows.len() && 0 <= l < ss[i].windows[j].panes.len()
                && #[trigger] ss[i].windows[j].panes[l] == panes_within(ss, n)[k],
    decreases n,
{
    if n > 0 {
        let before = panes_within(ss, n - 1);
        if k < before.len() {
            lemma_panes_within(ss, n - 1, k);
            let (i, j, l) = choose|i: int, j: int, l: int|
                0 <= i < n - 1 && 0 <= j < ss[i].windows.len() && 0 <= l < ss[i].windows[j].panes.len()
                    && #[trigger] ss[i].windows[j].panes[l] == before[k];
            assert(ss[i].windows[j].panes[l] == panes_within(ss, n)[k]);
        } else {
            let ws = ss[n - 1].windows;
            let m = ws.len() as int;
            lemma_panes_in(ws, m, k - before.len());
            let (j, l) = choose|j: int, l: int|
                0 <= j < m && 0 <= l < ws[j].panes.len() && #[trigger] ws[j].panes[l] == panes_in(ws, m)[k - before.len()];
            assert(ss[n - 1].windows[j].panes[l] == panes_within(ss, n)[k]);
        }
    }
}

/// The top of a line of creators is in the line: what a pane and its line
/// made is counted where its makers' is.
pub proof fn lemma_top_in_line(ss: Seq<SessionState>, p: PaneId, n: nat)
    requires
        n > 0,
    ensures
        in_line(ss, Some(p), top_of(ss, p, (n - 1) as nat), n),
    decreases n,
{
    match maker(ss, p) {
        Some(c) => {
            if n > 1 && is_there(ss, c) {
                lemma_top_in_line(ss, c, (n - 1) as nat);
            }
        },
        None => {},
    }
}

proof fn lemma_percent_before(s: Seq<char>, k: int, i: int)
    requires
        0 <= k < i <= s.len(),
        s[k] == '%',
        forall|j: int| k < j < s.len() ==> s[j] != '%',
    ensures
        last_percent(s, i) == Some(k),
    decreases i,
{
    if i - 1 > k {
        lemma_percent_before(s, k, i - 1);
    }
}

/// The address of a pane names it, and is no person's.
pub proof fn lemma_address_names_its_pane(ss: Seq<SessionState>, id: PaneId)
    ensures
        address_pane(address_text(ss, id)) == id,
        address_text(ss, id) != "user"@,
{
    let s = address_text(ss, id);
    let d = decimal(id as nat);
    lemma_decimal(id as nat);
    reveal_strlit("$");
    reveal_strlit("%");
    reveal_strlit(".%");
    reveal_strlit("user");
    let k = s.len() - d.len() - 1;
    assert(s.skip(k + 1) =~= d);
    assert(s[k] == '%');
    assert forall|j: int| k < j < s.len() implies s[j] != '%' by {
        assert(s[j] == d[j - k - 1]);
        assert(is_digit(d[j - k - 1]));
    }
    lemma_percent_before(s, k, s.len() as int);
    assert(is_digit(d[0]));
    assert(unsigned(d) == d);
    assert(s[0] == '$' || s[0] == '%');
    assert("user"@[0] == 'u');
}

} // verus!
