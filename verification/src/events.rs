//! What happens to the server: programs that end, clients that come, go and
//! change their size, and the passing of time.
use vstd::prelude::*;

use crate::chooser::ClientId;
use crate::client::{is_new, Client, Outbox, Popup};
use crate::client_commands::client_set;
use crate::endings::pane_named;
use crate::layout::{panes, PaneId};
use crate::pane::{at_least_one, Pane};
use crate::server::{client_place, kept, killed_wf, lemma_client_place, lives, session_place, session_with, Killed, KilledState, Server};
use crate::server_edit::fitted_session;
use crate::session::SessionState;
use crate::text::{decimal, joined3, number_text, push_decimal};
use crate::window::{lemma_place_of, place_of, Window, WindowState};
use crate::window_edit::lemma_without;

verus! {

/// The first client from `i` on whose popup runs pane `id`.
pub open spec fn popup_place(cs: Seq<Client>, id: PaneId, i: int) -> int
    decreases cs.len() - i,
{
    if i >= cs.len() {
        cs.len() as int
    } else if cs[i].popup is Some && cs[i].popup->0.pane.id == id {
        i
    } else {
        popup_place(cs, id, i + 1)
    }
}

/// The first of what was killed, from `i` on, that has pane `id`.
pub open spec fn killed_with(ks: Seq<KilledState>, id: PaneId, i: int) -> int
    decreases ks.len() - i,
{
    if i >= ks.len() {
        ks.len() as int
    } else if ks[i].has(id) {
        i
    } else {
        killed_with(ks, id, i + 1)
    }
}

proof fn lemma_killed_with(ks: Seq<KilledState>, id: PaneId, i: int)
    requires
        0 <= i <= ks.len(),
    ensures
        i <= killed_with(ks, id, i) <= ks.len(),
        killed_with(ks, id, i) < ks.len() ==> ks[killed_with(ks, id, i)].has(id),
    decreases ks.len() - i,
{
    if i < ks.len() && !ks[i].has(id) {
        lemma_killed_with(ks, id, i + 1);
    }
}

/// A pane of what was killed.
pub open spec fn killed_pane(k: KilledState, id: PaneId) -> Pane {
    match k {
        KilledState::Pane { pane, .. } => pane,
        KilledState::Window { window, .. } => window.panes[place_of(window.panes, id, 0)],
    }
}

/// A killed window after the program of one of its panes ended.
pub open spec fn emptied(w: WindowState, id: PaneId) -> WindowState {
    WindowState { active: w.heir(id), ..w.without(id) }
}

/// What is kept of what was killed after the program of pane `id` ended:
/// nothing is left of a pane to bring back, nor of a window of which it was
/// the last.
pub open spec fn kept_without(ks: Seq<KilledState>, id: PaneId) -> Seq<KilledState> {
    let k = killed_with(ks, id, 0);
    match ks[k] {
        KilledState::Pane { .. } => ks.remove(k),
        KilledState::Window { window, session, index, at } => if window.panes.len() <= 1 {
            ks.remove(k)
        } else {
            ks.update(k, (KilledState::Window { window: emptied(window, id), session, index, at }))
        },
    }
}

/// The pane `id`, wherever it is: in a window, among what was killed, or in a
/// popup.
pub open spec fn any_pane(server: Server, id: PaneId) -> Option<Pane> {
    let ss = server.states();
    let ks = server.killed_list();
    let cs = server.clients@;
    if session_with(ss, id, 0) < ss.len() {
        Some(pane_named(ss, id))
    } else if killed_with(ks, id, 0) < ks.len() {
        Some(killed_pane(ks[killed_with(ks, id, 0)], id))
    } else if popup_place(cs, id, 0) < cs.len() {
        Some(cs[popup_place(cs, id, 0)].popup->0.pane)
    } else {
        None
    }
}

proof fn lemma_kept_less(ks: Seq<KilledState>, ss: Seq<SessionState>, next: u32, k: int)
    requires
        killed_wf(ks, ss, next),
        0 <= k < ks.len(),
    ensures
        killed_wf(ks.remove(k), ss, next),
{
    let b = ks.remove(k);
    assert forall|i: int| 0 <= i < b.len() implies #[trigger] b[i] == ks[if i < k {
        i
    } else {
        i + 1
    }] by {}
    assert forall|i: int, id: PaneId| #[trigger] kept(b, i, id) implies kept(
        ks,
        if i < k {
            i
        } else {
            i + 1
        },
        id,
    ) by {}
    assert forall|i: int, l: int, id: PaneId| #[trigger] kept(b, i, id) && #[trigger] kept(b, l, id) implies i == l by {
        assert(kept(
            ks,
            if i < k {
                i
            } else {
                i + 1
            },
            id,
        ));
        assert(kept(
            ks,
            if l < k {
                l
            } else {
                l + 1
            },
            id,
        ));
    }
}

proof fn lemma_kept_trimmed(ks: Seq<KilledState>, ss: Seq<SessionState>, next: u32, k: int, id: PaneId)
    requires
        killed_wf(ks, ss, next),
        0 <= k < ks.len(),
        ks[k] is Window,
        ks[k]->Window_window.has(id),
        ks[k]->Window_window.panes.len() > 1,
    ensures
        killed_wf(
            ks.update(
                k,
                (KilledState::Window {
                    window: emptied(ks[k]->Window_window, id),
                    session: ks[k]->Window_session,
                    index: ks[k]->index,
                    at: ks[k]->Window_at,
                }),
            ),
            ss,
            next,
        ),
        emptied(ks[k]->Window_window, id).wf(),
{
    let w = ks[k]->Window_window;
    let v = emptied(w, id);
    lemma_without(w, id);
    assert(w.wf());
    assert forall|p: PaneId| #[trigger] v.has(p) implies w.has(p) && p != id by {
        assert(w.without(id).has(p));
    }
    assert(v.has(v.active)) by {
        if w.active == id {
            assert(w.without(id).has(panes(w.without(id).tree)[0]));
        } else {
            assert(w.has(w.active));
            assert(w.without(id).has(w.active));
        }
    }
    let b = ks.update(
        k,
        (KilledState::Window { window: v, session: ks[k]->Window_session, index: ks[k]->index, at: ks[k]->Window_at }),
    );
    assert forall|i: int, p: PaneId| #[trigger] kept(b, i, p) implies kept(ks, i, p) by {
        if i == k {
            assert(v.has(p));
        }
    }
    assert forall|i: int| 0 <= i < b.len() implies match #[trigger] b[i] {
        KilledState::Window { window, .. } => window.wf() && window.id < next,
        KilledState::Pane { pane, tree, .. } => crate::layout::shape(tree) && panes(tree).no_duplicates() && panes(
            tree,
        ).contains(pane.id),
    } by {
        assert(ks[i] == ks[i]);
    }
    assert forall|i: int, l: int, p: PaneId| #[trigger] kept(b, i, p) && #[trigger] kept(b, l, p) implies i == l by {
        assert(kept(ks, i, p) && kept(ks, l, p));
    }
    assert forall|i: int, a: int, c: int, p: PaneId| #[trigger] kept(b, i, p) implies !#[trigger] lives(ss, a, c, p) by {
        assert(kept(ks, i, p));
    }
    assert forall|i: int, a: int, c: int|
        0 <= i < b.len() && 0 <= a < ss.len() && 0 <= c < ss[a].windows.len() implies match #[trigger] b[i] {
        KilledState::Window { window, .. } => (#[trigger] ss[a].windows[c]).id != window.id,
        _ => true,
    } by {
        assert(ks[i] == ks[i]);
    }
    assert forall|i: int, l: int| 0 <= i < l < b.len() implies match (#[trigger] b[i], #[trigger] b[l]) {
        (KilledState::Window { window: a, .. }, KilledState::Window { window: c, .. }) => a.id != c.id,
        _ => true,
    } by {
        assert(ks[i] == ks[i] && ks[l] == ks[l]);
    }
}

impl Server {
    fn popup_at(&self, id: PaneId) -> (k: usize)
        ensures
            k == popup_place(self.clients@, id, 0),
            k <= self.clients@.len(),
            k < self.clients@.len() ==> self.clients@[k as int].popup is Some,
    {
        let mut i: usize = 0;
        while i < self.clients.len()
            invariant
                i <= self.clients@.len(),
                popup_place(self.clients@, id, 0) == popup_place(self.clients@, id, i as int),
            decreases self.clients.len() - i,
        {
            if let Some(p) = &self.clients[i].popup {
                if p.pane.id == id {
                    return i;
                }
            }
            i = i + 1;
        }
        i
    }

    /// The client whose popup runs a pane.
    pub fn popup_of_pane(&self, id: PaneId) -> (cid: Option<ClientId>)
        ensures
            ({
                let k = popup_place(self.clients@, id, 0);
                cid == if k < self.clients@.len() {
                    Some(self.clients@[k].id)
                } else {
                    None
                }
            }),
    {
        let k: usize = self.popup_at(id);
        if k < self.clients.len() {
            Some(self.clients[k].id)
        } else {
            None
        }
    }

    fn killed_at(&self, id: PaneId) -> (k: usize)
        ensures
            k == killed_with(self.killed_list(), id, 0),
            k <= self.killed@.len(),
            k < self.killed@.len() ==> self.killed_list()[k as int].has(id),
    {
        let ghost ks = self.killed_list();
        let mut i: usize = 0;
        while i < self.killed.len()
            invariant
                i <= self.killed@.len(),
                ks == self.killed_list(),
                killed_with(ks, id, 0) == killed_with(ks, id, i as int),
            decreases self.killed.len() - i,
        {
            assert(ks[i as int] == self.killed@[i as int]@);
            let found: bool = match &self.killed[i] {
                Killed::Pane { pane, .. } => pane.id == id,
                Killed::Window { window, .. } => window.has(id),
            };
            if found {
                return i;
            }
            i = i + 1;
        }
        i
    }

    /// A pane wherever it is: in a window, among what was killed (which still
    /// prints), or in a popup.
    pub fn any_pane(&self, id: PaneId) -> (p: Option<&Pane>)
        ensures
            match p {
                Some(p) => any_pane(*self, id) == Some(*p),
                None => any_pane(*self, id) is None,
            },
    {
        if let Some(p) = self.pane_ref(id) {
            return Some(p);
        }
        let k: usize = self.killed_at(id);
        if k < self.killed.len() {
            assert(self.killed_list()[k as int] == self.killed@[k as int]@);
            return match &self.killed[k] {
                Killed::Pane { pane, .. } => Some(pane),
                Killed::Window { window, .. } => {
                    proof {
                        lemma_place_of(window@.panes, id, 0);
                    }
                    let place: usize = window.place(id);
                    Some(&window.panes[place])
                },
            };
        }
        let c: usize = self.popup_at(id);
        if c < self.clients.len() {
            return match &self.clients[c].popup {
                Some(p) => Some(&p.pane),
                None => None,
            };
        }
        None
    }

    /// The program of a pane that was killed, and could have been brought
    /// back, ended.
    fn killed_ended(&mut self, k: usize, id: PaneId)
        requires
            old(self).wf(),
            k == killed_with(old(self).killed_list(), id, 0),
            k < old(self).killed@.len(),
        ensures
            final(self).wf(),
            final(self).killed_list() == kept_without(old(self).killed_list(), id),
            *final(self) == (Server { killed: final(self).killed, ..*old(self) }),
    {
        let ghost ks = self.killed_list();
        let ghost ss = self.states();
        proof {
            lemma_killed_with(ks, id, 0);
            assert(ks[k as int] == self.killed@[k as int]@);
        }
        let entry = self.killed.remove(k);
        assert(self.killed_list() =~= ks.remove(k as int));
        match entry {
            Killed::Pane { .. } => {
                proof {
                    lemma_kept_less(ks, ss, self.next_id, k as int);
                }
            },
            Killed::Window { mut window, session, index, at } => {
                if window.panes.len() > 1 {
                    let ghost w = window@;
                    proof {
                        lemma_kept_trimmed(ks, ss, self.next_id, k as int, id);
                        lemma_without(w, id);
                    }
                    let _ = window.drop_pane(id);
                    if window.active == id {
                        window.active = window.first();
                    }
                    assert(window@ =~= emptied(w, id));
                    self.killed.insert(k, Killed::Window { window, session, index, at });
                    assert(self.killed_list() =~= kept_without(ks, id));
                } else {
                    proof {
                        lemma_kept_less(ks, ss, self.next_id, k as int);
                    }
                }
            },
        }
    }
}

/// What the end of a pane's program led to.
#[derive(Debug)]
pub enum Exited {
    /// It was the program before the one that runs now.
    Old,
    /// The pane was killed before; it cannot be brought back any more.
    Forgotten,
    /// It ran in a popup, which is gone or waits for a key.
    InPopup,
    /// The pane stays: what is printed in it, and the message.
    Stays { note: String, text: String },
    /// The pane is to be closed.
    Closes,
}

/// The client of a popup after its program ended: it goes away now, or waits
/// for a key, showing what the command left.
pub open spec fn popup_ended(c: Client) -> Client {
    let p = c.popup->0;
    Client {
        popup: if p.close_on_exit {
            None
        } else {
            Some(Popup { finished: true, ..p })
        },
        outbox: Outbox { in_step: false, ..c.outbox },
        ..c
    }
}

/// What is printed in a pane that stays when its program ends.
pub open spec fn exit_note(command: Seq<char>, code: u32) -> Seq<char> {
    "\r\n\x1b[7m["@ + command + " exited with "@ + decimal(code as nat)
        + "; respawn-pane or kill-pane]\x1b[0m\r\n"@
}

/// The message of a pane that stays when its program ends.
pub open spec fn exit_text(id: PaneId, command: Seq<char>, code: u32) -> Seq<char> {
    "pane %"@ + decimal(id as nat) + " ("@ + command + ") exited with "@ + decimal(code as nat)
}

/// The command of a pane, wherever it is.
pub open spec fn command_of(p: Option<Pane>) -> Seq<char> {
    match p {
        Some(p) => p.command@,
        None => Seq::empty(),
    }
}

impl Server {
    /// The program of a pane ended. A pane that closes is closed by
    /// `remove_pane`.
    #[verifier::spinoff_prover]
    #[verifier::rlimit(60)]
    pub fn pane_exited(&mut self, id: PaneId, generation: u32, code: u32, now: u64) -> (what: Exited)
        requires
            old(self).wf(),
        ensures
            final(self).wf(),
            ({
                let p = any_pane(*old(self), id);
                let ks = old(self).killed_list();
                let cs = old(self).clients@;
                let c = popup_place(cs, id, 0);
                if p is Some && p->0.generation != generation {
                    what is Old && *final(self) == *old(self)
                } else if killed_with(ks, id, 0) < ks.len() {
                    &&& what is Forgotten
                    &&& final(self).killed_list() == kept_without(ks, id)
                    &&& *final(self) == (Server { killed: final(self).killed, ..*old(self) })
                } else if c < cs.len() {
                    &&& what is InPopup
                    &&& client_set(*old(self), *final(self), c)
                    &&& final(self).clients@[c] == popup_ended(cs[c])
                } else if old(self).opts.remain_on_exit {
                    &&& what is Stays
                    &&& what->note@ == exit_note(command_of(p), code)
                    &&& what->text@ == exit_text(id, command_of(p), code)
                    &&& *final(self) == (Server { sessions: final(self).sessions, ..*old(self) })
                    &&& final(self).states() == if session_with(old(self).states(), id, 0) < old(self).states().len() {
                        crate::pane_commands::pane_set(
                            old(self).states(),
                            (Pane {
                                exit_code: Some(code),
                                died_at: Some(now),
                                ..pane_named(old(self).states(), id)
                            }),
                        )
                    } else {
                        old(self).states()
                    }
                } else {
                    what is Closes && *final(self) == *old(self)
                }
            }),
    {
        let mut command = String::new();
        assert(command@ =~= Seq::<char>::empty());
        if let Some(p) = self.any_pane(id) {
            if p.generation != generation {
                return Exited::Old;
            }
            command = p.command.as_str().to_owned();
        }
        let k: usize = self.killed_at(id);
        if k < self.killed.len() {
            self.killed_ended(k, id);
            return Exited::Forgotten;
        }
        let c: usize = self.popup_at(id);
        if c < self.clients.len() {
            let ghost before = *self;
            let close: bool = match &self.clients[c].popup {
                Some(p) => p.close_on_exit,
                None => true,
            };
            let mut popup = self.clients[c].popup.take();
            if !close {
                if let Some(mut p) = popup {
                    p.finished = true;
                    self.clients[c].popup = Some(p);
                }
            }
            self.clients[c].outbox.in_step = false;
            proof {
                assert(self.clients@[c as int] == popup_ended(before.clients@[c as int]));
                assert(self.clients@ =~= before.clients@.update(c as int, self.clients@[c as int]));
                crate::client_commands::lemma_client_set(before, *self, c as int);
            }
            return Exited::InPopup;
        }
        if self.opts.remain_on_exit {
            let mut note = joined3("\r\n\x1b[7m[", command.as_str(), " exited with ");
            push_decimal(&mut note, code as u64);
            note.push_str("; respawn-pane or kill-pane]\x1b[0m\r\n");
            let mut text = joined3("pane %", number_text(id as u64).as_str(), " (");
            text.push_str(command.as_str());
            text.push_str(") exited with ");
            push_decimal(&mut text, code as u64);
            let _ = self.mark_dead(id, code, now);
            return Exited::Stays { note, text };
        }
        Exited::Closes
    }

    /// A client went away; the session it looked at may then have another
    /// size.
    pub fn client_gone(&mut self, cid: ClientId)
        requires
            old(self).wf(),
        ensures
            final(self).wf(),
            ({
                let cs = old(self).clients@;
                let k = client_place(cs, cid, 0);
                if k < cs.len() {
                    &&& final(self).clients@ == cs.remove(k)
                    &&& final(self).states() == match cs[k].session {
                        Some(sid) => fitted_session(
                            old(self).states(),
                            old(self).opts,
                            cs.remove(k),
                            sid,
                            None,
                        ),
                        None => old(self).states(),
                    }
                    &&& *final(self) == (Server {
                        sessions: final(self).sessions,
                        clients: final(self).clients,
                        ..*old(self)
                    })
                } else {
                    *final(self) == *old(self)
                }
            }),
    {
        let k: usize = self.client_at(cid);
        if k >= self.clients.len() {
            return;
        }
        let ghost cs = self.clients@;
        let c = self.clients.remove(k);
        proof {
            let after = self.clients@;
            assert forall|d: int, e: int| 0 <= d < e < after.len() implies (#[trigger] after[d]).id != (
            #[trigger] after[e]).id by {
                let d0 = if d < k {
                    d
                } else {
                    d + 1
                };
                let e0 = if e < k {
                    e
                } else {
                    e + 1
                };
                assert(cs[d0].id != cs[e0].id);
            }
            assert forall|d: int| 0 <= d < after.len() && (#[trigger] after[d]).session is Some implies session_place(
                self.states(),
                after[d].session->0,
                0,
            ) < self.states().len() by {
                let d0 = if d < k {
                    d
                } else {
                    d + 1
                };
                assert(cs[d0] == after[d]);
            }
        }
        if let Some(sid) = c.session {
            self.fit_session(sid, None);
        }
    }

    /// A client came.
    pub fn client_came(&mut self, cid: ClientId, now: u64)
        requires
            old(self).wf(),
            client_place(old(self).clients@, cid, 0) >= old(self).clients@.len(),
        ensures
            final(self).wf(),
            *final(self) == (Server { clients: final(self).clients, ..*old(self) }),
            final(self).clients@.len() == old(self).clients@.len() + 1,
            final(self).clients@.drop_last() == old(self).clients@,
            is_new(final(self).clients@.last(), cid, now),
    {
        let ghost cs = self.clients@;
        self.clients.push(Client::connected(cid, now));
        proof {
            let after = self.clients@;
            assert(after.drop_last() =~= cs);
            lemma_client_place(cs, cid, 0);
            assert forall|d: int, e: int| 0 <= d < e < after.len() implies (#[trigger] after[d]).id != (
            #[trigger] after[e]).id by {
                if e < cs.len() {
                    assert(cs[d].id != cs[e].id);
                } else {
                    assert(cs[d].id != cid);
                }
            }
            assert forall|d: int| 0 <= d < after.len() && (#[trigger] after[d]).session is Some implies session_place(
                self.states(),
                after[d].session->0,
                0,
            ) < self.states().len() by {
                assert(cs[d] == after[d]);
            }
        }
    }

    /// What a client that sends a command says of itself.
    pub fn client_says(
        &mut self,
        cid: ClientId,
        cols: u16,
        rows: u16,
        cwd: String,
        interactive: bool,
        pane_env: Option<PaneId>,
    )
        requires
            old(self).wf(),
        ensures
            final(self).wf(),
            ({
                let k = client_place(old(self).clients@, cid, 0);
                if k < old(self).clients@.len() {
                    client_set(*old(self), *final(self), k) && final(self).clients@[k] == (Client {
                        cols: at_least_one(cols),
                        rows: at_least_one(rows),
                        cwd,
                        interactive,
                        pane_env,
                        ..old(self).clients@[k]
                    })
                } else {
                    *final(self) == *old(self)
                }
            }),
    {
        let k: usize = self.client_at(cid);
        if k >= self.clients.len() {
            return;
        }
        let ghost before = *self;
        self.clients[k].cols = if cols == 0 { 1 } else { cols };
        self.clients[k].rows = if rows == 0 { 1 } else { rows };
        self.clients[k].cwd = cwd;
        self.clients[k].interactive = interactive;
        self.clients[k].pane_env = pane_env;
        proof {
            assert(self.clients@ =~= before.clients@.update(k as int, self.clients@[k as int]));
            crate::client_commands::lemma_client_set(before, *self, k as int);
        }
    }

    /// A client's terminal has another size; so may the session it looks at.
    pub fn client_resized(&mut self, cid: ClientId, cols: u16, rows: u16)
        requires
            old(self).wf(),
        ensures
            final(self).wf(),
            ({
                let cs = old(self).clients@;
                let k = client_place(cs, cid, 0);
                if k < cs.len() {
                    let after = cs.update(
                        k,
                        (Client {
                            cols: at_least_one(cols),
                            rows: at_least_one(rows),
                            outbox: Outbox { in_step: false, ..cs[k].outbox },
                            ..cs[k]
                        }),
                    );
                    &&& final(self).clients@ == after
                    &&& final(self).states() == match cs[k].session {
                        Some(sid) => fitted_session(
                            old(self).states(),
                            old(self).opts,
                            after,
                            sid,
                            Some(cid),
                        ),
                        None => old(self).states(),
                    }
                    &&& *final(self) == (Server {
                        sessions: final(self).sessions,
                        clients: final(self).clients,
                        ..*old(self)
                    })
                } else {
                    *final(self) == *old(self)
                }
            }),
    {
        let k: usize = self.client_at(cid);
        if k >= self.clients.len() {
            return;
        }
        let ghost before = *self;
        self.clients[k].cols = if cols == 0 { 1 } else { cols };
        self.clients[k].rows = if rows == 0 { 1 } else { rows };
        self.clients[k].outbox.in_step = false;
        proof {
            assert(self.clients@ =~= before.clients@.update(k as int, self.clients@[k as int]));
            crate::client_commands::lemma_client_set(before, *self, k as int);
        }
        if let Some(sid) = self.clients[k].session {
            self.fit_session(sid, Some(cid));
        }
    }
}

/// What of the first `k` kills is still kept.
pub open spec fn unexpired(ks: Seq<KilledState>, keep: u64, now: u64, k: int) -> Seq<KilledState>
    decreases k,
{
    if k <= 0 {
        Seq::empty()
    } else if now < ks[k - 1].killed_at() || now - ks[k - 1].killed_at() < keep * 1000 {
        unexpired(ks, keep, now, k - 1).push(ks[k - 1])
    } else {
        unexpired(ks, keep, now, k - 1)
    }
}

impl Server {
    /// Time passed: what was killed long enough ago is gone for good, and a
    /// server nobody uses has no reason to live. `up` is how long it has
    /// run, in milliseconds.
    pub fn tick(&mut self, now: u64, up: u64)
        requires
            old(self).wf(),
        ensures
            final(self).wf(),
            final(self).killed_list() == unexpired(
                old(self).killed_list(),
                old(self).opts.undo_kill_time,
                now,
                old(self).killed_list().len() as int,
            ),
            final(self).quit == (old(self).quit || (old(self).sessions@.len() == 0 && old(self).clients@.len() == 0 && up
                > 10_000)),
            *final(self) == (Server { killed: final(self).killed, quit: final(self).quit, ..*old(self) }),
    {
        let ghost ks = self.killed_list();
        let keep: u64 = self.opts.undo_kill_time;
        let ghost mut seen: int = 0;
        let mut i: usize = 0;
        assert(unexpired(ks, keep, now, 0) + ks.skip(0) =~= ks);
        while i < self.killed.len()
            invariant
                self.wf(),
                0 <= seen <= ks.len(),
                i <= self.killed@.len(),
                keep == self.opts.undo_kill_time,
                self.killed_list() == unexpired(ks, keep, now, seen) + ks.skip(seen),
                i == unexpired(ks, keep, now, seen).len(),
                *self == (Server { killed: self.killed, ..*old(self) }),
            decreases self.killed@.len() - i,
        {
            let ghost head = unexpired(ks, keep, now, seen);
            let ghost before = self.killed_list();
            assert(before[i as int] == ks[seen]);
            assert(before[i as int] == self.killed@[i as int]@);
            let at: u64 = match &self.killed[i] {
                Killed::Pane { at, .. } => *at,
                Killed::Window { at, .. } => *at,
            };
            assert(at == ks[seen].killed_at());
            let young: bool = now < at || ((now - at) as u128) < (keep as u128) * 1000;
            if young {
                i = i + 1;
                assert(head.push(ks[seen]) + ks.skip(seen + 1) =~= head + ks.skip(seen));
            } else {
                let _ = self.killed.remove(i);
                proof {
                    assert(self.killed_list() =~= before.remove(i as int));
                    assert(self.killed_list() =~= head + ks.skip(seen + 1));
                    lemma_kept_less(before, self.states(), self.next_id, i as int);
                }
            }
            proof {
                seen = seen + 1;
            }
        }
        proof {
            assert(self.killed_list().len() == self.killed@.len());
            assert(seen == ks.len());
            assert(self.killed_list() =~= unexpired(ks, keep, now, ks.len() as int));
        }
        if self.sessions.len() == 0 && self.clients.len() == 0 && up > 10_000 {
            self.quit = true;
        }
    }

    /// After whatever happened: a server that had a session and has none is
    /// done.
    pub fn settle(&mut self)
        requires
            old(self).wf(),
        ensures
            final(self).wf(),
            final(self).quit == (old(self).quit || (old(self).had_session && old(self).sessions@.len() == 0)),
            *final(self) == (Server { quit: final(self).quit, ..*old(self) }),
    {
        if self.had_session && self.sessions.len() == 0 {
            self.quit = true;
        }
    }
}

} // verus!
