//! Work modes, names and statuses of panes, the panes agents make, and what
//! becomes of messages that were deleted or whose pane goes away.
use vstd::prelude::*;

use crate::actor::{check_name, mode_name, name_fault, named_mode, ActorState, End, WorkMode};
use crate::callers::{address_text, agent, caller, doer, every_pane, is_there, made_by, mail_place, named_from, top_of, whoami_text, CREATORS};
use crate::chooser::ClientId;
use crate::client::Client;
use crate::command::Target;
use crate::endings::pane_named;
use crate::json::json_string;
use crate::layout::PaneId;
use crate::mail::{all_dropped, event_field, status_fields};
use crate::messages::{Dropped, Mailroom};
use crate::observe::{id_field, opt_text, Life, Stage, Store, StoreState};
use crate::pane_commands::actor_set;
use crate::server::{aimed, Options, Server};
use crate::session::SessionState;
use crate::text::{chars_of, decimal, is_white, is_whitespace, joined2, joined3, number_text, push_decimal, same_text};
use crate::time::Time;

verus! {

/// The line a change of a pane leaves in the event log.
pub open spec fn pane_event(s: StoreState, address: Seq<char>, what: Seq<char>, fields: Seq<char>, now: Time) -> StoreState {
    s.wrote(now, "pane"@, ",\"pane\":"@ + json_string(address) + ",\"what\":\""@ + what + "\""@ + fields)
}

/// Why a pane's mode is not changed from another pane.
pub open spec fn not_from_here(me: PaneId, id: PaneId) -> Seq<char> {
    "set-work-mode changes only the pane it runs in (%"@ + decimal(me as nat) + ", not %"@ + decimal(id as nat)
        + "); for another, run it there, or at the C-b : prompt"@
}

/// The pane a `set-work-mode` changes, and to what.
pub open spec fn mode_change(
    ss: Seq<SessionState>,
    cs: Seq<Client>,
    opts: Options,
    t: Option<Target>,
    cid: Option<ClientId>,
    mode: Seq<char>,
) -> Result<(PaneId, WorkMode), Seq<char>> {
    match named_mode(mode) {
        None => Err("bad work mode '"@ + mode + "'"@),
        Some(m) => match mail_place(ss, cs, opts, t, cid) {
            Err(e) => Err(e),
            Ok(id) => match caller(ss, cs, cid) {
                Some(me) => if me != id {
                    Err(not_from_here(me, id))
                } else {
                    Ok((id, m))
                },
                None => Ok((id, m)),
            },
        },
    }
}

/// The pane a `rename-pane` names.
pub open spec fn name_change(
    ss: Seq<SessionState>,
    cs: Seq<Client>,
    opts: Options,
    t: Option<Target>,
    cid: Option<ClientId>,
    name: Seq<char>,
) -> Result<PaneId, Seq<char>> {
    match mail_place(ss, cs, opts, t, cid) {
        Err(e) => Err(e),
        Ok(id) => if name.len() == 0 {
            Ok(id)
        } else if name_fault(name) is Some {
            Err(name_fault(name)->0)
        } else {
            match named_from(every_pane(ss), name, 0) {
                Some(other) => if other != id {
                    Err("pane name '"@ + name + "' is taken by %"@ + decimal(other as nat))
                } else {
                    Ok(id)
                },
                None => Ok(id),
            }
        },
    }
}

impl Server {
    /// `set-work-mode`. A pane's mode is changed in that pane: nothing run in
    /// one pane turns another into a shell that runs what it is sent. From
    /// outside every pane it goes where it is aimed.
    pub fn set_work_mode(
        &mut self,
        store: &mut Store,
        cid: Option<ClientId>,
        target: Option<&Target>,
        mode: &str,
        now: Time,
    ) -> (r: Result<PaneId, String>)
        requires
            old(self).wf(),
            old(store).wf(),
            now.valid(),
        ensures
            final(self).wf(),
            final(store).wf(),
            ({
                let ss = old(self).states();
                let cs = old(self).clients@;
                match mode_change(ss, cs, old(self).opts, aimed(target), cid, mode@) {
                    Err(e) => r is Err && r->Err_0@ == e && *final(self) == *old(self) && final(store)@ == old(store)@,
                    Ok((id, m)) => {
                        &&& r == Ok::<PaneId, String>(id)
                        &&& *final(self) == (Server { sessions: final(self).sessions, ..*old(self) })
                        &&& actor_set(
                            ss,
                            final(self).states(),
                            id,
                            (ActorState { mode: m, ..pane_named(ss, id).actor@ }),
                        )
                        &&& final(store)@ == pane_event(
                            old(store)@,
                            address_text(ss, id),
                            "mode"@,
                            ",\"value\":\""@ + mode_name(m) + "\""@ + event_field("by"@, doer(ss, cs, cid)),
                            now,
                        )
                    },
                }
            }),
    {
        let m: WorkMode = match WorkMode::parse(mode) {
            Some(m) => m,
            None => {
                return Err(joined3("bad work mode '", mode, "'"));
            },
        };
        let id: PaneId = match self.mail_target(target, cid) {
            Ok(p) => p,
            Err(e) => {
                return Err(e);
            },
        };
        if let Some(me) = self.caller_pane(cid) {
            if me != id {
                let mut e = joined2("set-work-mode changes only the pane it runs in (%", number_text(me as u64).as_str());
                e.push_str(", not %");
                push_decimal(&mut e, id as u64);
                e.push_str("); for another, run it there, or at the C-b : prompt");
                return Err(e);
            }
        }
        let by = self.doer_of(cid);
        let address = self.address_of(id);
        match self.find_pane_mut(id) {
            None => {},
            Some(p) => crate::mail::set_mode(p, store, m, address.as_str(), by.as_str(), now),
        }
        Ok(id)
    }

    /// The pane a `rename-pane` names, when the name can be given.
    fn pane_to_rename(&self, cid: Option<ClientId>, target: Option<&Target>, name: &str) -> (r: Result<PaneId, String>)
        requires
            self.wf(),
        ensures
            match (r, name_change(self.states(), self.clients@, self.opts, aimed(target), cid, name@)) {
                (Ok(a), Ok(b)) => a == b && is_there(self.states(), a),
                (Err(a), Err(b)) => a@ == b,
                _ => false,
            },
    {
        let id: PaneId = match self.mail_target(target, cid) {
            Ok(p) => p,
            Err(e) => {
                return Err(e);
            },
        };
        if !name.is_empty() {
            if let Err(e) = check_name(name) {
                return Err(e);
            }
            if let Some(other) = self.pane_by_name(name) {
                if other != id {
                    let mut e = joined3("pane name '", name, "' is taken by %");
                    push_decimal(&mut e, other as u64);
                    return Err(e);
                }
            }
        }
        Ok(id)
    }

    /// `rename-pane`; an empty name takes the name away.
    #[verifier::spinoff_prover]
    #[verifier::rlimit(40)]
    pub fn rename_pane(
        &mut self,
        store: &mut Store,
        cid: Option<ClientId>,
        target: Option<&Target>,
        name: &str,
        now: Time,
    ) -> (r: Result<(), String>)
        requires
            old(self).wf(),
            old(store).wf(),
            now.valid(),
        ensures
            final(self).wf(),
            final(store).wf(),
            ({
                let ss = old(self).states();
                let cs = old(self).clients@;
                match name_change(ss, cs, old(self).opts, aimed(target), cid, name@) {
                    Err(e) => r is Err && r->Err_0@ == e && *final(self) == *old(self) && final(store)@ == old(store)@,
                    Ok(id) => {
                        let p = pane_named(final(self).states(), id);
                        &&& r is Ok
                        &&& *final(self) == (Server { sessions: final(self).sessions, ..*old(self) })
                        &&& actor_set(
                            ss,
                            final(self).states(),
                            id,
                            (ActorState { name: p.actor.name, ..pane_named(ss, id).actor@ }),
                        )
                        &&& opt_text(p.actor.name) == if name@.len() == 0 {
                            None
                        } else {
                            Some(name@)
                        }
                        &&& final(store)@ == pane_event(
                            old(store)@,
                            address_text(ss, id),
                            "name"@,
                            event_field("value"@, name@) + event_field("by"@, doer(ss, cs, cid)),
                            now,
                        )
                    },
                }
            }),
    {
        let id: PaneId = match self.pane_to_rename(cid, target, name) {
            Ok(p) => p,
            Err(e) => {
                return Err(e);
            },
        };
        let by = self.doer_of(cid);
        let address = self.address_of(id);
        match self.find_pane_mut(id) {
            None => {},
            Some(p) => crate::mail::set_name(p, store, name, address.as_str(), by.as_str(), now),
        }
        Ok(())
    }

    /// `pane-status`: what the pane it is run in says it is doing. `program`
    /// is the program in the foreground there.
    pub fn pane_status(
        &mut self,
        store: &mut Store,
        cid: Option<ClientId>,
        text: String,
        program: &str,
        now: Time,
    ) -> (r: Result<(), String>)
        requires
            old(self).wf(),
            old(store).wf(),
            now.valid(),
        ensures
            final(self).wf(),
            final(store).wf(),
            ({
                let ss = old(self).states();
                match caller(ss, old(self).clients@, cid) {
                    None => {
                        &&& r is Err
                        &&& r->Err_0@ == "pane-status: not run inside a keepane pane"@
                        &&& *final(self) == *old(self)
                        &&& final(store)@ == old(store)@
                    },
                    Some(me) => {
                        let a = pane_named(ss, me).actor;
                        let status = pane_named(final(self).states(), me).actor.status;
                        &&& r is Ok
                        &&& *final(self) == (Server { sessions: final(self).sessions, ..*old(self) })
                        &&& actor_set(ss, final(self).states(), me, (ActorState { status, ..a@ }))
                        &&& match status {
                            Some((t, at)) => text@.len() > 0 && t@ == text@ && at == now,
                            None => text@.len() == 0,
                        }
                        &&& final(store)@ == pane_event(
                            old(store)@,
                            address_text(ss, me),
                            "status"@,
                            status_fields(opt_text(a.name), a.mode, program@, text@),
                            now,
                        )
                    },
                }
            }),
    {
        let me: PaneId = match self.caller_pane(cid) {
            Some(p) => p,
            None => {
                return Err("pane-status: not run inside a keepane pane".to_owned());
            },
        };
        let address = self.address_of(me);
        match self.find_pane_mut(me) {
            None => {},
            Some(p) => crate::mail::set_status(p, store, text, program, address.as_str(), now),
        }
        Ok(())
    }

    /// A pane is going away: what waited in its inbox is dropped, and what it
    /// was working on ends unfinished.
    pub fn pane_closing(&mut self, store: &mut Store, id: PaneId, now: Time)
        requires
            old(self).wf(),
            old(store).wf(),
            now.valid(),
        ensures
            final(self).wf(),
            final(store).wf(),
            !is_there(old(self).states(), id) ==> *final(self) == *old(self) && final(store)@ == old(store)@,
            is_there(old(self).states(), id) ==> {
                let ss = old(self).states();
                let a = pane_named(ss, id).actor@;
                let dropped = all_dropped(old(store)@, a.inbox, a.inbox.len() as int, now);
                &&& *final(self) == (Server { sessions: final(self).sessions, ..*old(self) })
                &&& actor_set(ss, final(self).states(), id, (ActorState { inbox: Seq::empty(), current: None, ..a }))
                &&& final(store)@ == match a.current {
                    Some(m) => dropped.ended_with(m.id, End::Abandoned, None, None, now),
                    None => dropped,
                }
            },
    {
        match self.find_pane_mut(id) {
            None => {},
            Some(p) => crate::mail::pane_closing(p, store, now),
        }
    }
}

/// What was deleted so lately that it can be brought back, of the first `k`.
pub open spec fn lately(ds: Seq<Dropped>, now: u64, keep: u64, k: int) -> Seq<Dropped>
    decreases k,
{
    if k <= 0 {
        Seq::empty()
    } else if (now < ds[k - 1].at || (now - ds[k - 1].at) < keep * 1000) && ds[k - 1].pane != 0 {
        lately(ds, now, keep, k - 1).push(ds[k - 1])
    } else {
        lately(ds, now, keep, k - 1)
    }
}

impl Mailroom {
    /// Forget what was deleted too long ago to be brought back.
    fn forget_old(&mut self, now: u64, keep: u64)
        ensures
            final(self).dropped@ == lately(old(self).dropped@, now, keep, old(self).dropped@.len() as int),
            *final(self) == (Mailroom { dropped: final(self).dropped, ..*old(self) }),
    {
        let ghost all = self.dropped@;
        let ghost mut seen: int = 0;
        let mut i: usize = 0;
        assert(lately(all, now, keep, 0) + all.skip(0) =~= all);
        while i < self.dropped.len()
            invariant
                0 <= seen <= all.len(),
                i <= self.dropped@.len(),
                self.dropped@ == lately(all, now, keep, seen) + all.skip(seen),
                i == lately(all, now, keep, seen).len(),
                *self == (Mailroom { dropped: self.dropped, ..*old(self) }),
            decreases self.dropped@.len() - i,
        {
            let ghost head = lately(all, now, keep, seen);
            assert(self.dropped@[i as int] == all[seen]);
            let d = &self.dropped[i];
            let young: bool = now < d.at || ((now - d.at) as u128) < (keep as u128) * 1000;
            if young && d.pane != 0 {
                i = i + 1;
                assert(head.push(all[seen]) + all.skip(seen + 1) =~= head + all.skip(seen));
            } else {
                let _ = self.dropped.remove(i);
                assert(self.dropped@ =~= head + all.skip(seen + 1));
            }
            proof {
                seen = seen + 1;
            }
        }
        assert(seen == all.len());
        assert(self.dropped@ =~= lately(all, now, keep, all.len() as int));
    }
}

/// The place in an inbox of `n` that `place` stands for.
pub open spec fn place_within(place: usize, n: nat) -> int {
    if place < n {
        place as int
    } else {
        n as int
    }
}

impl Server {
    /// `drop-message -u`: bring back the message deleted last, where it
    /// stood, if its pane is still there.
    pub fn undrop_message(
        &mut self,
        store: &mut Store,
        room: &mut Mailroom,
        cid: Option<ClientId>,
        at: u64,
        now: Time,
    ) -> (r: Result<PaneId, String>)
        requires
            old(self).wf(),
            old(store).wf(),
            now.valid(),
        ensures
            final(self).wf(),
            final(store).wf(),
            ({
                let ss = old(self).states();
                let ds = lately(
                    old(room).dropped@,
                    at,
                    old(self).opts.undo_kill_time,
                    old(room).dropped@.len() as int,
                );
                &&& *final(room) == (Mailroom { dropped: final(room).dropped, ..*old(room) })
                &&& if ds.len() == 0 {
                    &&& r is Err
                    &&& r->Err_0@ == "drop-message -u: nothing deleted to bring back"@
                    &&& *final(self) == *old(self)
                    &&& final(store)@ == old(store)@
                    &&& final(room).dropped@ == ds
                } else if !is_there(ss, ds.last().pane) {
                    &&& r is Err
                    &&& r->Err_0@ == "drop-message -u: %"@ + decimal(ds.last().pane as nat) + " is gone"@
                    &&& *final(self) == *old(self)
                    &&& final(store)@ == old(store)@
                    &&& final(room).dropped@ == ds.drop_last()
                } else {
                    let d = ds.last();
                    let a = pane_named(ss, d.pane).actor@;
                    &&& r == Ok::<PaneId, String>(d.pane)
                    &&& final(room).dropped@ == ds.drop_last()
                    &&& *final(self) == (Server { sessions: final(self).sessions, ..*old(self) })
                    &&& actor_set(
                        ss,
                        final(self).states(),
                        d.pane,
                        (ActorState { inbox: a.inbox.insert(place_within(d.place, a.inbox.len()), d.msg), ..a }),
                    )
                    &&& final(store)@ == old(store)@.wrote(
                        now,
                        "restored"@,
                        id_field(d.msg.id) + ",\"by\":"@ + json_string(doer(ss, old(self).clients@, cid)),
                    ).with(d.msg.id, |r: Life| Life { stage: Stage::Queued, ended: None, why: None, ..r })
                }
            }),
    {
        let by = self.doer_of(cid);
        room.forget_old(at, self.opts.undo_kill_time);
        match room.dropped.pop() {
            None => Err("drop-message -u: nothing deleted to bring back".to_owned()),
            Some(d) => {
                let id: PaneId = d.pane;
                match self.find_pane_mut(id) {
                    None => Err(joined3("drop-message -u: %", number_text(id as u64).as_str(), " is gone")),
                    Some(p) => {
                        crate::mail::restore_message(p, store, d.msg, d.place, by.as_str(), now);
                        Ok(id)
                    },
                }
            },
        }
    }
}

/// An ASCII capital as its small letter.
pub open spec fn ascii_lower(c: char) -> char {
    if 'A' <= c && c <= 'Z' {
        ((c as u32 + 32) as u8) as char
    } else {
        c
    }
}

pub fn lower_ascii(c: char) -> (l: char)
    ensures
        l == ascii_lower(c),
{
    if 'A' <= c && c <= 'Z' {
        ((c as u32 + 32) as u8) as char
    } else {
        c
    }
}

/// A program as `agent-commands` names it, from the stem of its file's name:
/// in small letters.
pub fn program_name(stem: Option<&str>) -> (name: String)
    ensures
        name@ == match stem {
            Some(s) => s@.map_values(|c: char| ascii_lower(c)),
            None => Seq::empty(),
        },
{
    let mut name = String::new();
    assert(name@ =~= Seq::empty());
    if let Some(s) = stem {
        let all = chars_of(s);
        let ghost want = s@.map_values(|c: char| ascii_lower(c));
        let mut i: usize = 0;
        assert(name@ =~= want.take(0));
        while i < all.len()
            invariant
                i <= all@.len(),
                all@ == s@,
                want == s@.map_values(|c: char| ascii_lower(c)),
                name@ == want.take(i as int),
            decreases all.len() - i,
        {
            let ghost before = name@;
            name.push(lower_ascii(all[i]));
            i = i + 1;
            assert(want.take(i as int) =~= before.push(want[i - 1]));
        }
        assert(want.take(all@.len() as int) =~= want);
    }
    name
}

/// Where the word that begins at `i` ends.
pub open spec fn word_end(s: Seq<char>, i: int) -> int
    decreases s.len() - i,
{
    if i >= s.len() || is_white(s[i]) {
        i
    } else {
        word_end(s, i + 1)
    }
}

proof fn lemma_word_end(s: Seq<char>, i: int)
    requires
        0 <= i <= s.len(),
    ensures
        i <= word_end(s, i) <= s.len(),
    decreases s.len() - i,
{
    if i < s.len() && !is_white(s[i]) {
        lemma_word_end(s, i + 1);
    }
}

/// `w` is one of the words of `s` from `i` on, whatever the case of its ASCII
/// letters there.
pub open spec fn has_word(s: Seq<char>, w: Seq<char>, i: int) -> bool
    decreases s.len() - i,
    when 0 <= i
    via has_word_ends
{
    if i >= s.len() {
        false
    } else if is_white(s[i]) {
        has_word(s, w, i + 1)
    } else {
        s.subrange(i, word_end(s, i)).map_values(|c: char| ascii_lower(c)) == w || has_word(s, w, word_end(s, i))
    }
}

#[via_fn]
proof fn has_word_ends(s: Seq<char>, w: Seq<char>, i: int) {
    if 0 <= i < s.len() && !is_white(s[i]) {
        lemma_word_end(s, i + 1);
    }
}

/// Whether a word is in a list of words.
pub fn lists_word(list: &str, word: &str) -> (b: bool)
    ensures
        b == has_word(list@, word@, 0),
{
    let s = chars_of(list);
    let w = chars_of(word);
    let n: usize = s.len();
    let mut i: usize = 0;
    while i < n
        invariant
            i <= n == s@.len(),
            s@ == list@,
            w@ == word@,
            has_word(s@, w@, 0) == has_word(s@, w@, i as int),
        decreases n - i,
    {
        if is_whitespace(s[i]) {
            i = i + 1;
        } else {
            let mut e: usize = i;
            while e < n && !is_whitespace(s[e])
                invariant
                    i <= e <= n == s@.len(),
                    word_end(s@, i as int) == word_end(s@, e as int),
                decreases n - e,
            {
                e = e + 1;
            }
            assert(word_end(s@, i as int) == e);
            let ghost part = s@.subrange(i as int, e as int).map_values(|c: char| ascii_lower(c));
            assert(e > i) by {
                lemma_word_end(s@, i + 1);
            }
            let mut same: bool = e - i == w.len();
            let mut k: usize = 0;
            while same && k < w.len()
                invariant
                    k <= w@.len(),
                    i < e <= n == s@.len(),
                    same ==> e - i == w@.len(),
                    part == s@.subrange(i as int, e as int).map_values(|c: char| ascii_lower(c)),
                    same ==> forall|j: int| 0 <= j < k ==> #[trigger] part[j] == w@[j],
                    !same ==> part != w@,
                decreases w@.len() - k,
            {
                assert(part[k as int] == ascii_lower(s@[i + k]));
                if lower_ascii(s[i + k]) != w[k] {
                    same = false;
                }
                k = k + 1;
            }
            if same {
                assert(part =~= w@);
                return true;
            }
            i = e;
        }
    }
    false
}

/// What a pane that is made for a program is: an agent takes prompts, a shell
/// made for an agent takes commands. `agents` are the names of the programs
/// that are agents.
pub open spec fn made_for(mode: Option<Seq<char>>, stem: Seq<char>, agents: Seq<char>) -> WorkMode {
    match mode {
        Some(m) => match named_mode(m) {
            Some(w) => w,
            None => WorkMode::Normal,
        },
        None => if has_word(agents, stem, 0) {
            WorkMode::Ai
        } else if stem == "pwsh"@ || stem == "powershell"@ {
            WorkMode::Shell
        } else {
            WorkMode::Normal
        },
    }
}

/// The work mode of a new pane: the one asked for, else the program's.
pub fn mode_for(mode: Option<&str>, stem: &str, agents: &str) -> (m: WorkMode)
    ensures
        m == made_for(
            match mode {
                Some(m) => Some(m@),
                None => None,
            },
            stem@,
            agents@,
        ),
{
    match mode {
        Some(m) => match WorkMode::parse(m) {
            Some(w) => w,
            None => WorkMode::Normal,
        },
        None => if lists_word(agents, stem) {
            WorkMode::Ai
        } else if same_text(stem, "pwsh") || same_text(stem, "powershell") {
            WorkMode::Shell
        } else {
            WorkMode::Normal
        },
    }
}

/// Why `create-pane` makes none, if it does not.
pub open spec fn creation_fault(
    ss: Seq<SessionState>,
    cs: Seq<Client>,
    cid: Option<ClientId>,
    stem: Seq<char>,
    name: Option<Seq<char>>,
    commands: Seq<char>,
    limit: u32,
) -> Option<Seq<char>> {
    let by_agent = match agent(ss, cs, cid) {
        None => None,
        Some(me) => {
            let top = top_of(ss, me, CREATORS as nat);
            let made = made_by(ss, every_pane(ss), top, every_pane(ss).len() as int);
            if !has_word(commands, stem, 0) {
                Some("create-pane: '"@ + stem + "' is not in agent-commands ("@ + commands + ")"@)
            } else if made >= limit {
                Some(
                    "create-pane: agent-pane-limit "@ + decimal(limit as nat) + " reached (%"@ + decimal(top as nat)
                        + " and the panes it made have "@ + decimal(made) + ")"@,
                )
            } else {
                None
            }
        },
    };
    match (by_agent, name) {
        (Some(e), _) => Some(e),
        (None, None) => None,
        (None, Some(n)) => if name_fault(n) is Some {
            name_fault(n)
        } else if named_from(every_pane(ss), n, 0) is Some {
            Some("pane name '"@ + n + "' is taken"@)
        } else {
            None
        },
    }
}

impl Server {
    /// Whether `create-pane` may make a pane: from inside an agent's pane
    /// only `agent-commands` programs, within `agent-pane-limit` for the
    /// whole line of creators; and no name twice. `stem` is the program's
    /// name, in small letters.
    pub fn may_create(
        &self,
        cid: Option<ClientId>,
        stem: &str,
        name: Option<&str>,
        commands: &str,
        limit: u32,
    ) -> (r: Result<(), String>)
        requires
            self.wf(),
        ensures
            match (r, creation_fault(
                self.states(),
                self.clients@,
                cid,
                stem@,
                match name {
                    Some(n) => Some(n@),
                    None => None,
                },
                commands@,
                limit,
            )) {
                (Ok(_), None) => true,
                (Err(a), Some(b)) => a@ == b,
                _ => false,
            },
    {
        if let Some(me) = self.agent_caller(cid) {
            if !lists_word(commands, stem) {
                let mut e = joined3("create-pane: '", stem, "' is not in agent-commands (");
                e.push_str(commands);
                e.push_str(")");
                return Err(e);
            }
            let top: PaneId = self.top_creator(me);
            let made: usize = self.panes_made(top);
            if made as u64 >= limit as u64 {
                let mut e = joined3("create-pane: agent-pane-limit ", number_text(limit as u64).as_str(), " reached (%");
                push_decimal(&mut e, top as u64);
                e.push_str(" and the panes it made have ");
                push_decimal(&mut e, made as u64);
                e.push_str(")");
                return Err(e);
            }
        }
        if let Some(n) = name {
            if let Err(e) = check_name(n) {
                return Err(e);
            }
            if self.pane_by_name(n).is_some() {
                return Err(joined3("pane name '", n, "' is taken"));
            }
        }
        Ok(())
    }

    /// A pane that `create-pane` made: whose it is, its name and work mode.
    /// The text that says who it is.
    pub fn adopt_pane(
        &mut self,
        store: &mut Store,
        cid: Option<ClientId>,
        id: PaneId,
        name: Option<String>,
        mode: WorkMode,
        stem: &str,
        now: Time,
    ) -> (who: String)
        requires
            old(self).wf(),
            old(store).wf(),
            now.valid(),
            is_there(old(self).states(), id),
        ensures
            final(self).wf(),
            final(store).wf(),
            ({
                let ss = old(self).states();
                let cs = old(self).clients@;
                &&& *final(self) == (Server { sessions: final(self).sessions, ..*old(self) })
                &&& actor_set(
                    ss,
                    final(self).states(),
                    id,
                    (ActorState { creator: agent(ss, cs, cid), name, mode, ..pane_named(ss, id).actor@ }),
                )
                &&& final(store)@ == pane_event(
                    old(store)@,
                    address_text(ss, id),
                    "created"@,
                    event_field("by"@, doer(ss, cs, cid)) + event_field("program"@, stem@) + ",\"mode\":\""@ + mode_name(
                        mode,
                    ) + "\""@,
                    now,
                )
                &&& who@ == whoami_text(final(self).states(), old(self).opts, id)
            }),
    {
        let me = self.agent_caller(cid);
        let by = self.doer_of(cid);
        let address = self.address_of(id);
        if let Some(p) = self.find_pane_mut(id) {
            p.actor.creator = me;
            p.actor.name = name;
            p.actor.mode = mode;
        }
        let mut fields = crate::mail::field("by", by.as_str());
        fields.push_str(crate::mail::field("program", stem).as_str());
        fields.push_str(",\"mode\":\"");
        fields.push_str(mode.as_str());
        fields.push_str("\"");
        store.pane(address.as_str(), "created", fields.as_str(), now);
        self.whoami(id)
    }
}

/// The pane a command made: the oldest of the new ones, since a hook may have
/// made more after it.
pub fn first_new(before: &Vec<PaneId>, after: &Vec<PaneId>) -> (id: Option<PaneId>)
    ensures
        match id {
            Some(p) => {
                &&& after@.contains(p) && !before@.contains(p)
                &&& forall|k: int|
                    0 <= k < after@.len() && !before@.contains(#[trigger] after@[k]) ==> p <= after@[k]
            },
            None => forall|k: int| 0 <= k < after@.len() ==> before@.contains(#[trigger] after@[k]),
        },
{
    let mut best: Option<PaneId> = None;
    let mut i: usize = 0;
    while i < after.len()
        invariant
            i <= after@.len(),
            match best {
                Some(p) => {
                    &&& after@.contains(p) && !before@.contains(p)
                    &&& forall|k: int| 0 <= k < i && !before@.contains(#[trigger] after@[k]) ==> p <= after@[k]
                },
                None => forall|k: int| 0 <= k < i ==> before@.contains(#[trigger] after@[k]),
            },
        decreases after.len() - i,
    {
        let id: PaneId = after[i];
        let known: bool = crate::arrange::position(before, id) < before.len();
        if !known {
            assert(after@.contains(id)) by {
                assert(after@[i as int] == id);
            }
            best = match best {
                Some(p) => if id < p {
                    Some(id)
                } else {
                    Some(p)
                },
                None => Some(id),
            };
        }
        i = i + 1;
    }
    best
}

} // verus!
