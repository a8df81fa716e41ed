//! What commands do to the client they come from: prompts, menus, popups and
//! the view; and what they send to panes.
use vstd::prelude::*;

use crate::agents::ascii_lower;
use crate::attending::client_named;
use crate::chooser::{settled, Chooser, ChooserItem, ChooserKind, ClientId, SessionId};
use crate::client::{Client, Popup};
use crate::command::{Dir, Ended, MenuItem, Outcome, Target};
use crate::input::{encode_paste, encode_send_key, paste_text, send_bytes};
use crate::keys::{Key, KeyCode};
use crate::layout::{panes, PaneId, Rect};
use crate::popup::{popup_extent, popup_rect, popup_start, text_of};
use crate::prompt::{Prompt, PromptKind};
use crate::server::{aimed, area_of, client_place, place_for, session_for, Server};
use crate::text::{bytes_of, chars_of, joined2, joined3, same_text, string_of, texts_of, trim, trimmed};
use crate::window::{ids, lemma_place_of, place_of, WindowState};
use vstd::utf8::encode_utf8;

verus! {

/// `a + b`, or the most there is.
pub open spec fn sum16(a: u16, b: u16) -> u16 {
    if a + b <= u16::MAX {
        (a + b) as u16
    } else {
        u16::MAX
    }
}

/// `a - b`, or nothing.
pub open spec fn less16(a: u16, b: u16) -> u16 {
    if a > b {
        (a - b) as u16
    } else {
        0
    }
}

/// A client after `refresh-client`: drawn anew, and its view panned. The view
/// is kept to the window, and the cursor in sight, where it is drawn.
pub open spec fn refreshed(c: Client, pan: Option<(Dir, u16)>) -> Client {
    let fresh = Client { outbox: crate::client::Outbox { in_step: false, ..c.outbox }, ..c };
    match pan {
        None => fresh,
        Some((d, n)) => Client {
            view_x: match d {
                Dir::Left => less16(c.view_x, n),
                Dir::Right => sum16(c.view_x, n),
                _ => c.view_x,
            },
            view_y: match d {
                Dir::Up => less16(c.view_y, n),
                Dir::Down => sum16(c.view_y, n),
                _ => c.view_y,
            },
            view_pinned: true,
            ..fresh
        },
    }
}

/// Until when pane numbers show.
pub open spec fn numbers_until(now: u64, display_time: u64) -> u64 {
    let ms: u64 = if display_time > 1000 {
        display_time
    } else {
        1000
    };
    if now + ms <= u64::MAX {
        (now + ms) as u64
    } else {
        u64::MAX
    }
}

/// Only the client at `k` changed.
pub open spec fn client_set(before: Server, after: Server, k: int) -> bool {
    &&& after == (Server { clients: after.clients, ..before })
    &&& after.clients@ == before.clients@.update(k, after.clients@[k])
}

pub proof fn lemma_client_set(before: Server, after: Server, k: int)
    requires
        before.wf(),
        0 <= k < before.clients@.len(),
        client_set(before, after, k),
        after.clients@[k].id == before.clients@[k].id,
        after.clients@[k].session == before.clients@[k].session,
    ensures
        after.wf(),
{
    let a = before.clients@;
    let b = after.clients@;
    assert forall|c: int| 0 <= c < b.len() && (#[trigger] b[c]).session is Some implies crate::server::session_place(
        after.states(),
        b[c].session->0,
        0,
    ) < after.states().len() by {
        assert(a[c].session == b[c].session);
    }
    assert forall|c: int, d: int| 0 <= c < d < b.len() implies (#[trigger] b[c]).id != (#[trigger] b[d]).id by {
        assert(a[c].id != a[d].id);
    }
}

impl Server {
    /// `refresh-client`.
    pub fn refresh_client(&mut self, cid: Option<ClientId>, pan: Option<(Dir, u16)>)
        requires
            old(self).wf(),
        ensures
            final(self).wf(),
            match cid {
                None => *final(self) == *old(self),
                Some(id) => {
                    let k = client_place(old(self).clients@, id, 0);
                    if k < old(self).clients@.len() {
                        client_set(*old(self), *final(self), k) && final(self).clients@[k] == refreshed(
                            old(self).clients@[k],
                            pan,
                        )
                    } else {
                        *final(self) == *old(self)
                    }
                },
            },
    {
        let id: ClientId = match cid {
            Some(id) => id,
            None => {
                return;
            },
        };
        let k: usize = self.client_at(id);
        if k >= self.clients.len() {
            return;
        }
        let ghost before = *self;
        self.clients[k].outbox.in_step = false;
        if let Some((d, n)) = pan {
            let x: u16 = self.clients[k].view_x;
            let y: u16 = self.clients[k].view_y;
            match d {
                Dir::Up => {
                    self.clients[k].view_y = y.saturating_sub(n);
                },
                Dir::Down => {
                    self.clients[k].view_y = y.saturating_add(n);
                },
                Dir::Left => {
                    self.clients[k].view_x = x.saturating_sub(n);
                },
                Dir::Right => {
                    self.clients[k].view_x = x.saturating_add(n);
                },
            }
            self.clients[k].view_pinned = true;
        }
        proof {
            assert(self.clients@ =~= before.clients@.update(k as int, self.clients@[k as int]));
            lemma_client_set(before, *self, k as int);
        }
    }

    /// `display-panes`: pane numbers show for a second at least.
    pub fn display_panes(&mut self, cid: Option<ClientId>, now: u64) -> (out: Outcome)
        requires
            old(self).wf(),
        ensures
            final(self).wf(),
            match cid {
                None => out@ == Ended::Error("display-panes: no client"@) && *final(self) == *old(self),
                Some(id) => {
                    let k = client_place(old(self).clients@, id, 0);
                    &&& out@ == Ended::Done
                    &&& if k < old(self).clients@.len() {
                        client_set(*old(self), *final(self), k) && final(self).clients@[k] == (Client {
                            panes_until: Some(numbers_until(now, old(self).opts.display_time_ms)),
                            ..old(self).clients@[k]
                        })
                    } else {
                        *final(self) == *old(self)
                    }
                },
            },
    {
        let id: ClientId = match cid {
            Some(id) => id,
            None => {
                return Outcome::Error("display-panes: no client".to_owned());
            },
        };
        let ms: u64 = if self.opts.display_time_ms > 1000 { self.opts.display_time_ms } else { 1000 };
        let k: usize = self.client_at(id);
        if k < self.clients.len() {
            let ghost before = *self;
            self.clients[k].panes_until = Some(now.saturating_add(ms));
            proof {
                assert(self.clients@ =~= before.clients@.update(k as int, self.clients@[k as int]));
                lemma_client_set(before, *self, k as int);
            }
        }
        Outcome::Done
    }

    /// Open a prompt at a client's status line.
    pub fn open_prompt(&mut self, cid: ClientId, prompt: Prompt)
        requires
            old(self).wf(),
        ensures
            final(self).wf(),
            ({
                let k = client_place(old(self).clients@, cid, 0);
                if k < old(self).clients@.len() {
                    client_set(*old(self), *final(self), k) && final(self).clients@[k] == (Client {
                        prompt: Some(prompt),
                        ..old(self).clients@[k]
                    })
                } else {
                    *final(self) == *old(self)
                }
            }),
    {
        let k: usize = self.client_at(cid);
        if k < self.clients.len() {
            let ghost before = *self;
            self.clients[k].prompt = Some(prompt);
            proof {
                assert(self.clients@ =~= before.clients@.update(k as int, self.clients@[k as int]));
                lemma_client_set(before, *self, k as int);
            }
        }
    }

    /// Open a picker over a client's window: one modal at a time.
    pub fn open_chooser(&mut self, cid: Option<ClientId>, command: &str, chooser: Chooser) -> (out: Outcome)
        requires
            old(self).wf(),
        ensures
            final(self).wf(),
            match cid {
                None => out@ == Ended::Error(command@ + ": no client"@) && *final(self) == *old(self),
                Some(id) => {
                    let k = client_place(old(self).clients@, id, 0);
                    if k < old(self).clients@.len() && old(self).clients@[k].session is Some {
                        &&& out@ == Ended::Done
                        &&& client_set(*old(self), *final(self), k)
                        &&& final(self).clients@[k] == (Client {
                            prompt: None,
                            overlay: None,
                            chooser: Some(chooser),
                            ..old(self).clients@[k]
                        })
                    } else {
                        out@ == Ended::Error(command@ + ": client not attached"@) && *final(self) == *old(self)
                    }
                },
            },
    {
        let id: ClientId = match cid {
            Some(id) => id,
            None => {
                return Outcome::Error(joined2(command, ": no client"));
            },
        };
        let k: usize = self.client_at(id);
        if k >= self.clients.len() || self.clients[k].session.is_none() {
            return Outcome::Error(joined2(command, ": client not attached"));
        }
        let ghost before = *self;
        self.clients[k].prompt = None;
        self.clients[k].overlay = None;
        self.clients[k].chooser = Some(chooser);
        proof {
            assert(self.clients@ =~= before.clients@.update(k as int, self.clients@[k as int]));
            lemma_client_set(before, *self, k as int);
        }
        Outcome::Done
    }
}

/// The label of a command prompt, with a space behind it unless it is a colon.
pub open spec fn labelled(label: Seq<char>) -> Seq<char> {
    if (label.len() > 0 && label.last() == ' ') || label == ":"@ {
        label
    } else {
        label + " "@
    }
}

/// A prompt for a command line, or for what goes into a template.
pub fn command_prompt(label: Option<String>, initial: String, template: Option<String>) -> (p: Prompt)
    ensures
        p.wf(),
        p.kind == (PromptKind::Command { template }),
        p.label@ == labelled(
            match label {
                Some(l) => l@,
                None => ":"@,
            },
        ),
        p.input == initial,
        p.cursor == initial@.len(),
        p.hint is None,
{
    let label = match label {
        Some(l) => l,
        None => ":".to_owned(),
    };
    let chars = chars_of(label.as_str());
    let spaced: bool = chars.len() > 0 && chars[chars.len() - 1] == ' ';
    let label = if spaced || same_text(label.as_str(), ":") { label } else { joined2(label.as_str(), " ") };
    let cursor: usize = chars_of(initial.as_str()).len();
    Prompt { kind: PromptKind::Command { template }, label, input: initial, cursor, hint: None }
}

/// A question to be answered before a command runs.
pub fn confirm_prompt(label: Option<String>, cmd: String) -> (p: Prompt)
    ensures
        p.wf(),
        p.kind == PromptKind::Confirm(cmd),
        p.label@ == (match label {
            Some(l) => l@,
            None => "Confirm '"@ + cmd@ + "'? (y/n)"@,
        }) + " "@,
        p.input@.len() == 0,
        p.cursor == 0,
        p.hint is None,
{
    let label = match label {
        Some(l) => l,
        None => joined3("Confirm '", cmd.as_str(), "'? (y/n)"),
    };
    Prompt { kind: PromptKind::Confirm(cmd), label: joined2(label.as_str(), " "), input: String::new(), cursor: 0, hint: None }
}

/// The line and the item of a menu's entry: one without a key or a command is
/// a label nobody can pick.
pub open spec fn menu_row(e: MenuItem, i: int, name: Seq<char>) -> (ChooserItem, Seq<char>) {
    if e.key is Some && e.cmd is Some {
        (ChooserItem::Menu(i as usize), "("@ + e.key->0@ + ") "@ + name)
    } else {
        (
            ChooserItem::Separator,
            if e.name@.len() == 0 {
                "--------------------"@
            } else {
                e.name@
            },
        )
    }
}

/// The rows of a menu, its title first.
pub open spec fn menu_rows(title: Option<Seq<char>>, entries: Seq<MenuItem>, names: Seq<Seq<char>>, k: int) -> Seq<
    (ChooserItem, Seq<char>),
>
    decreases k,
{
    if k <= 0 {
        match title {
            Some(t) => seq![(ChooserItem::Separator, t)],
            None => Seq::empty(),
        }
    } else {
        menu_rows(title, entries, names, k - 1).push(menu_row(entries[k - 1], k - 1, names[k - 1]))
    }
}

/// The picker of a `display-menu`, on its first entry that can be picked.
/// `names` are the entries' names with their formats expanded.
pub fn menu_chooser(title: Option<String>, entries: Vec<MenuItem>, names: &Vec<String>) -> (ch: Chooser)
    requires
        entries@.len() == names@.len(),
    ensures
        ({
            let rows = menu_rows(
                crate::observe::opt_text(title),
                entries@,
                texts_of(names@),
                entries@.len() as int,
            );
            &&& ch.kind == ChooserKind::Menu(entries)
            &&& crate::chooser_keys::rows_of(ch.items@, ch.lines@) == rows
            &&& ch.items@.len() == ch.lines@.len()
            &&& ch.sel == match settled(ch.items@, 0, 1) {
                Some(i) => i as usize,
                None => 0,
            }
            &&& ch.top == 0 && ch.filter@.len() == 0 && ch.tagged@.len() == 0
        }),
{
    let ghost t = crate::observe::opt_text(title);
    let ghost es = entries@;
    let ghost ns = texts_of(names@);
    let mut items: Vec<ChooserItem> = Vec::new();
    let mut lines: Vec<String> = Vec::new();
    if let Some(l) = title {
        items.push(ChooserItem::Separator);
        lines.push(l);
    }
    assert(crate::chooser_keys::rows_of(items@, lines@) =~= menu_rows(t, es, ns, 0));
    let mut i: usize = 0;
    while i < entries.len()
        invariant
            i <= entries@.len() == names@.len(),
            es == entries@,
            ns == texts_of(names@),
            items@.len() == lines@.len(),
            crate::chooser_keys::rows_of(items@, lines@) == menu_rows(t, es, ns, i as int),
        decreases entries.len() - i,
    {
        let ghost before = crate::chooser_keys::rows_of(items@, lines@);
        let e = &entries[i];
        let ghost row = menu_row(*e, i as int, ns[i as int]);
        match (&e.key, &e.cmd) {
            (Some(k), Some(_)) => {
                items.push(ChooserItem::Menu(i));
                let mut l = joined3("(", k.as_str(), ") ");
                l.push_str(names[i].as_str());
                lines.push(l);
            },
            _ => {
                items.push(ChooserItem::Separator);
                lines.push(
                    if e.name.as_str().is_empty() {
                        "--------------------".to_owned()
                    } else {
                        e.name.as_str().to_owned()
                    },
                );
            },
        }
        assert(items@.last() == row.0 && lines@.last()@ == row.1);
        assert(crate::chooser_keys::rows_of(items@, lines@) =~= before.push(row));
        i = i + 1;
    }
    let mut ch = Chooser::new(ChooserKind::Menu(entries), items, lines, 0);
    let _ = ch.settle(1);
    ch
}

/// Which clients lose their popup to `display-popup -C`: the client, or
/// without a popup of its own those that look at the session.
pub open spec fn closes(server: Server, cid: ClientId, c: Client) -> bool {
    let k = client_place(server.clients@, cid, 0);
    let found = session_for(server.states(), server.clients@, None, None, Some(cid));
    let own = k < server.clients@.len() && server.clients@[k].popup is Some;
    if own || found is Err {
        c.id == cid
    } else {
        c.session == Some(server.states()[found->Ok_0].id)
    }
}

/// A client after its popup was closed, where it was.
pub open spec fn popup_closed(c: Client, closed: bool) -> Client {
    if closed {
        Client { popup: None, outbox: crate::client::Outbox { in_step: false, ..c.outbox }, ..c }
    } else {
        c
    }
}

impl Server {
    /// `display-popup -C`: from an attached client, close its own popup; from
    /// a script or a pane, the popups of whoever looks at that session.
    pub fn close_popups(&mut self, cid: ClientId)
        requires
            old(self).wf(),
        ensures
            final(self).wf(),
            *final(self) == (Server { clients: final(self).clients, ..*old(self) }),
            final(self).clients@ == Seq::new(
                old(self).clients@.len(),
                |i: int| popup_closed(old(self).clients@[i], closes(*old(self), cid, old(self).clients@[i])),
            ),
    {
        let ghost start = *self;
        let ghost cs = self.clients@;
        let k: usize = self.client_at(cid);
        let own: bool = k < self.clients.len() && self.clients[k].popup.is_some();
        let mut of: Option<SessionId> = None;
        if !own {
            if let Ok(i) = self.find_session(None, Some(cid)) {
                assert(self.states()[i as int] == self.sessions@[i as int]@);
                of = Some(self.sessions[i].id);
            }
        }
        let mut j: usize = 0;
        while j < self.clients.len()
            invariant
                j <= self.clients@.len() == cs.len(),
                start == *old(self),
                cs == start.clients@,
                *self == (Server { clients: self.clients, ..start }),
                forall|c: Client|
                    closes(start, cid, c) == match of {
                        Some(s) => c.session == Some(s),
                        None => c.id == cid,
                    },
                forall|i: int| 0 <= i < j ==> #[trigger] self.clients@[i] == popup_closed(cs[i], closes(start, cid, cs[i])),
                forall|i: int| j <= i < cs.len() ==> #[trigger] self.clients@[i] == cs[i],
            decreases self.clients.len() - j,
        {
            let goes: bool = match of {
                Some(s) => match self.clients[j].session {
                    Some(t) => t == s,
                    None => false,
                },
                None => self.clients[j].id == cid,
            };
            if goes {
                self.clients[j].popup = None;
                self.clients[j].outbox.in_step = false;
            }
            j = j + 1;
        }
        proof {
            let after = self.clients@;
            assert(after =~= Seq::new(cs.len(), |i: int| popup_closed(cs[i], closes(start, cid, cs[i]))));
            assert forall|c: int| 0 <= c < after.len() && (#[trigger] after[c]).session is Some implies crate::server::session_place(
                self.states(),
                after[c].session->0,
                0,
            ) < self.states().len() by {
                assert(cs[c].session == after[c].session);
            }
            assert forall|c: int, d: int| 0 <= c < d < after.len() implies (#[trigger] after[c]).id != (
            #[trigger] after[d]).id by {
                assert(cs[c].id != cs[d].id);
            }
        }
    }

    /// Where the box of a `display-popup` goes, or why there is none.
    pub fn plan_popup(
        &self,
        cid: Option<ClientId>,
        width: Option<&str>,
        height: Option<&str>,
        x: Option<&str>,
        y: Option<&str>,
    ) -> (r: Result<Rect, String>)
        requires
            match crate::attending::client_named(self.clients@, cid) {
                Some(c) => c.cols >= 1 && c.rows >= 1,
                None => true,
            },
        ensures
            ({
                let c = crate::attending::client_named(self.clients@, cid);
                if c is None {
                    r is Err && r->Err_0@ == "display-popup: no client"@
                } else if c->0.session is None {
                    r is Err && r->Err_0@ == "display-popup: client not attached"@
                } else {
                    let area = area_of(self.opts, c->0.cols, c->0.rows);
                    let w = popup_extent(text_of(width), area.w as int);
                    let h = popup_extent(text_of(height), area.h as int);
                    if w < 3 || h < 3 {
                        r is Err && r->Err_0@ == "display-popup: no room for a popup"@
                    } else {
                        &&& r is Ok
                        &&& r->Ok_0.w == w && r->Ok_0.h == h
                        &&& r->Ok_0.x == area.x + popup_start(text_of(x), area.w as int, w)
                        &&& r->Ok_0.y == area.y + popup_start(text_of(y), area.h as int, h)
                    }
                }
            }),
    {
        let id: ClientId = match cid {
            Some(id) => id,
            None => {
                return Err("display-popup: no client".to_owned());
            },
        };
        let k: usize = self.client_at(id);
        if k >= self.clients.len() {
            return Err("display-popup: no client".to_owned());
        }
        if self.clients[k].session.is_none() {
            return Err("display-popup: client not attached".to_owned());
        }
        let area: Rect = self.window_area(self.clients[k].cols, self.clients[k].rows);
        let rect: Rect = popup_rect(area, width, height, x, y);
        if rect.w < 3 || rect.h < 3 {
            return Err("display-popup: no room for a popup".to_owned());
        }
        Ok(rect)
    }

    /// Show a popup: it replaces a prompt, an overlay or a picker, whose keys
    /// it would otherwise take.
    pub fn open_popup(&mut self, cid: ClientId, popup: Popup) -> (done: bool)
        requires
            old(self).wf(),
        ensures
            final(self).wf(),
            ({
                let k = client_place(old(self).clients@, cid, 0);
                if k < old(self).clients@.len() {
                    &&& done
                    &&& client_set(*old(self), *final(self), k)
                    &&& final(self).clients@[k] == (Client {
                        prompt: None,
                        overlay: None,
                        chooser: None,
                        popup: Some(popup),
                        outbox: crate::client::Outbox { in_step: false, ..old(self).clients@[k].outbox },
                        ..old(self).clients@[k]
                    })
                } else {
                    !done && *final(self) == *old(self)
                }
            }),
    {
        let k: usize = self.client_at(cid);
        if k >= self.clients.len() {
            return false;
        }
        let ghost before = *self;
        self.clients[k].prompt = None;
        self.clients[k].overlay = None;
        self.clients[k].chooser = None;
        self.clients[k].outbox.in_step = false;
        self.clients[k].popup = Some(popup);
        proof {
            assert(self.clients@ =~= before.clients@.update(k as int, self.clients@[k as int]));
            lemma_client_set(before, *self, k as int);
        }
        true
    }

    /// The panes that what is typed for a pane goes to: with
    /// `synchronize-panes` on, all of its window.
    pub fn receivers(&self, id: PaneId) -> (out: Vec<PaneId>)
        requires
            self.wf(),
        ensures
            ({
                let ss = self.states();
                out@ == if !crate::callers::is_there(ss, id) {
                    Seq::empty()
                } else if crate::callers::home_of(ss, id).synchronized {
                    ids(crate::callers::home_of(ss, id).panes)
                } else {
                    seq![id]
                }
            }),
    {
        let mut out: Vec<PaneId> = Vec::new();
        match self.place_of_pane(id) {
            None => {},
            Some((i, j)) => {
                let w = &self.sessions[i].windows[j];
                proof {
                    assert(self.states()[i as int] == self.sessions@[i as int]@);
                    assert(self.states()[i as int].windows[j as int] == w@);
                }
                if w.synchronized {
                    let mut k: usize = 0;
                    while k < w.panes.len()
                        invariant
                            k <= w.panes@.len(),
                            out@ == ids(w@.panes).take(k as int),
                        decreases w.panes.len() - k,
                    {
                        out.push(w.panes[k].id);
                        assert(ids(w@.panes).take(k + 1) =~= ids(w@.panes).take(k as int).push(ids(w@.panes)[k as int]));
                        k = k + 1;
                    }
                    assert(out@ =~= ids(w@.panes));
                } else {
                    out.push(id);
                    assert(out@ =~= seq![id]);
                }
            },
        }
        out
    }
}

/// The bytes of the first `k` words of a `send-keys`.
pub open spec fn keys_bytes(words: Seq<Seq<char>>, literal: bool, app: bool, k: int) -> Seq<u8>
    decreases k,
{
    if k <= 0 {
        Seq::empty()
    } else {
        keys_bytes(words, literal, app, k - 1) + if literal {
            encode_utf8(words[k - 1])
        } else {
            send_bytes(words[k - 1], app)
        }
    }
}

fn push_bytes(out: &mut Vec<u8>, more: &Vec<u8>)
    ensures
        final(out)@ == old(out)@ + more@,
{
    let mut i: usize = 0;
    assert(out@ =~= old(out)@ + more@.take(0));
    while i < more.len()
        invariant
            i <= more@.len(),
            out@ == old(out)@ + more@.take(i as int),
        decreases more.len() - i,
    {
        out.push(more[i]);
        assert(more@.take(i + 1) =~= more@.take(i as int).push(more@[i as int]));
        i = i + 1;
        assert(out@ =~= old(out)@ + more@.take(i as int));
    }
    assert(more@.take(more@.len() as int) =~= more@);
}

/// What `send-keys` types: the words as they are, or as the keys they name.
pub fn send_keys(words: &Vec<String>, literal: bool, app: bool) -> (out: Vec<u8>)
    ensures
        out@ == keys_bytes(texts_of(words@), literal, app, words@.len() as int),
{
    let mut out: Vec<u8> = Vec::new();
    let mut k: usize = 0;
    assert(out@ =~= Seq::empty());
    while k < words.len()
        invariant
            k <= words@.len(),
            out@ == keys_bytes(texts_of(words@), literal, app, k as int),
        decreases words.len() - k,
    {
        let more = if literal { bytes_of(words[k].as_str()) } else { encode_send_key(words[k].as_str(), app) };
        push_bytes(&mut out, &more);
        k = k + 1;
    }
    out
}

/// What a command of copy mode is.
#[derive(Clone, Copy, Debug, PartialEq, Eq, Structural)]
pub enum CopyStep {
    /// The key that does it.
    Press(Key),
    /// A search, back or forward, with the pattern given.
    Search { back: bool },
}

/// The key of a copy-mode command.
pub open spec fn copy_key_for(name: Seq<char>) -> Option<Key> {
    if name == "cursor-up"@ {
        Some(Key::bare(KeyCode::Char('k')))
    } else if name == "cursor-down"@ {
        Some(Key::bare(KeyCode::Char('j')))
    } else if name == "cursor-left"@ {
        Some(Key::bare(KeyCode::Char('h')))
    } else if name == "cursor-right"@ {
        Some(Key::bare(KeyCode::Char('l')))
    } else if name == "next-word"@ || name == "next-space"@ {
        Some(Key::bare(KeyCode::Char('w')))
    } else if name == "next-word-end"@ || name == "next-space-end"@ {
        Some(Key::bare(KeyCode::Char('e')))
    } else if name == "previous-word"@ || name == "previous-space"@ {
        Some(Key::bare(KeyCode::Char('b')))
    } else if name == "start-of-line"@ {
        Some(Key::bare(KeyCode::Char('0')))
    } else if name == "back-to-indentation"@ {
        Some(Key::bare(KeyCode::Char('^')))
    } else if name == "end-of-line"@ {
        Some(Key::bare(KeyCode::Char('$')))
    } else if name == "top-line"@ {
        Some(Key::bare(KeyCode::Char('H')))
    } else if name == "middle-line"@ {
        Some(Key::bare(KeyCode::Char('M')))
    } else if name == "bottom-line"@ {
        Some(Key::bare(KeyCode::Char('L')))
    } else if name == "previous-paragraph"@ {
        Some(Key::bare(KeyCode::Char('{')))
    } else if name == "next-paragraph"@ {
        Some(Key::bare(KeyCode::Char('}')))
    } else if name == "history-top"@ {
        Some(Key::bare(KeyCode::Char('g')))
    } else if name == "history-bottom"@ {
        Some(Key::bare(KeyCode::Char('G')))
    } else if name == "page-up"@ {
        Some(control('b'))
    } else if name == "page-down"@ {
        Some(control('f'))
    } else if name == "halfpage-up"@ {
        Some(control('u'))
    } else if name == "halfpage-down"@ {
        Some(control('d'))
    } else if name == "begin-selection"@ {
        Some(Key::bare(KeyCode::Char(' ')))
    } else if name == "rectangle-toggle"@ || name == "rectangle-on"@ {
        Some(control('v'))
    } else if name == "copy-selection"@ || name == "copy-selection-and-cancel"@ || name == "copy-pipe-and-cancel"@ {
        Some(Key::bare(KeyCode::Char('y')))
    } else if name == "cancel"@ || name == "stop-selection"@ {
        Some(Key::bare(KeyCode::Char('q')))
    } else if name == "search-forward"@ {
        Some(Key::bare(KeyCode::Char('/')))
    } else if name == "search-backward"@ {
        Some(Key::bare(KeyCode::Char('?')))
    } else if name == "search-again"@ {
        Some(Key::bare(KeyCode::Char('n')))
    } else if name == "search-reverse"@ {
        Some(Key::bare(KeyCode::Char('N')))
    } else {
        None
    }
}

/// A letter with Control.
pub open spec fn control(c: char) -> Key {
    Key { ctrl: true, ..Key::bare(KeyCode::Char(c)) }
}

fn is_one_of(name: &str, a: &str, b: &str) -> (r: bool)
    ensures
        r == (name@ == a@ || name@ == b@),
{
    same_text(name, a) || same_text(name, b)
}

fn motion_key(name: &str) -> (k: Option<Key>)
    ensures
        k is Some ==> k == copy_key_for(name@),
        k is None ==> name@ != "cursor-up"@ && name@ != "cursor-down"@ && name@ != "cursor-left"@ && name@
            != "cursor-right"@ && name@ != "next-word"@ && name@ != "next-space"@ && name@ != "next-word-end"@ && name@
            != "next-space-end"@ && name@ != "previous-word"@ && name@ != "previous-space"@ && name@ != "start-of-line"@
            && name@ != "back-to-indentation"@ && name@ != "end-of-line"@ && name@ != "top-line"@ && name@
            != "middle-line"@ && name@ != "bottom-line"@ && name@ != "previous-paragraph"@ && name@
            != "next-paragraph"@ && name@ != "history-top"@ && name@ != "history-bottom"@,
{
    let c: char = if same_text(name, "cursor-up") {
        'k'
    } else if same_text(name, "cursor-down") {
        'j'
    } else if same_text(name, "cursor-left") {
        'h'
    } else if same_text(name, "cursor-right") {
        'l'
    } else if is_one_of(name, "next-word", "next-space") {
        'w'
    } else if is_one_of(name, "next-word-end", "next-space-end") {
        'e'
    } else if is_one_of(name, "previous-word", "previous-space") {
        'b'
    } else if same_text(name, "start-of-line") {
        '0'
    } else if same_text(name, "back-to-indentation") {
        '^'
    } else if same_text(name, "end-of-line") {
        '$'
    } else if same_text(name, "top-line") {
        'H'
    } else if same_text(name, "middle-line") {
        'M'
    } else if same_text(name, "bottom-line") {
        'L'
    } else if same_text(name, "previous-paragraph") {
        '{'
    } else if same_text(name, "next-paragraph") {
        '}'
    } else if same_text(name, "history-top") {
        'g'
    } else if same_text(name, "history-bottom") {
        'G'
    } else {
        return None;
    };
    Some(Key::ch(c))
}

/// What a copy-mode command does: the key that already does it, so there is
/// one way of each motion, or a search straight away when there is a pattern.
pub fn copy_command(name: &str, has_pattern: bool) -> (r: Result<CopyStep, String>)
    ensures
        if has_pattern && (name@ == "search-forward"@ || name@ == "search-backward"@) {
            r == Ok::<CopyStep, String>(CopyStep::Search { back: name@ == "search-backward"@ })
        } else {
            match copy_key_for(name@) {
                Some(k) => r == Ok::<CopyStep, String>(CopyStep::Press(k)),
                None => r is Err && r->Err_0@ == "send-keys -X: unknown command '"@ + name@ + "'"@,
            }
        },
{
    proof {
        reveal_strlit("search-forward");
        reveal_strlit("search-backward");
        assert("search-forward"@.len() != "search-backward"@.len());
    }
    if has_pattern && same_text(name, "search-forward") {
        return Ok(CopyStep::Search { back: false });
    }
    if has_pattern && same_text(name, "search-backward") {
        return Ok(CopyStep::Search { back: true });
    }
    if let Some(k) = motion_key(name) {
        return Ok(CopyStep::Press(k));
    }
    let key: Key = if same_text(name, "page-up") {
        Key::ctrl('b')
    } else if same_text(name, "page-down") {
        Key::ctrl('f')
    } else if same_text(name, "halfpage-up") {
        Key::ctrl('u')
    } else if same_text(name, "halfpage-down") {
        Key::ctrl('d')
    } else if same_text(name, "begin-selection") {
        Key::ch(' ')
    } else if is_one_of(name, "rectangle-toggle", "rectangle-on") {
        Key::ctrl('v')
    } else if same_text(name, "copy-selection") || is_one_of(name, "copy-selection-and-cancel", "copy-pipe-and-cancel") {
        Key::ch('y')
    } else if is_one_of(name, "cancel", "stop-selection") {
        Key::ch('q')
    } else if same_text(name, "search-forward") {
        Key::ch('/')
    } else if same_text(name, "search-backward") {
        Key::ch('?')
    } else if same_text(name, "search-again") {
        Key::ch('n')
    } else if same_text(name, "search-reverse") {
        Key::ch('N')
    } else {
        return Err(joined3("send-keys -X: unknown command '", name, "'"));
    };
    Ok(CopyStep::Press(key))
}

/// Whether a format that was expanded for `if-shell -F` is true: it is not
/// blank and not zero.
pub fn is_true(value: &str) -> (b: bool)
    ensures
        b == (trim(value@).len() > 0 && trim(value@) != "0"@),
{
    let t = trimmed(&chars_of(value));
    if t.len() == 0 {
        return false;
    }
    let s = string_of(&t, 0, t.len());
    assert(s@ =~= trim(value@));
    !same_text(s.as_str(), "0")
}

/// `s` with its ASCII capitals as small letters.
pub open spec fn lowered(s: Seq<char>) -> Seq<char> {
    s.map_values(|c: char| ascii_lower(c))
}

/// A boolean as options take it: nothing for one to be turned round.
pub open spec fn boolean(s: Seq<char>) -> Option<Option<bool>> {
    let v = lowered(trim(s));
    if v == "on"@ || v == "true"@ || v == "yes"@ || v == "1"@ {
        Some(Some(true))
    } else if v == "off"@ || v == "false"@ || v == "no"@ || v == "0"@ {
        Some(Some(false))
    } else if v.len() == 0 {
        Some(None)
    } else {
        None
    }
}

/// Read a boolean option.
pub fn read_boolean(value: &str) -> (r: Result<Option<bool>, String>)
    ensures
        match boolean(value@) {
            Some(b) => r == Ok::<Option<bool>, String>(b),
            None => r is Err && r->Err_0@ == "bad boolean '"@ + lowered(trim(value@)) + "'"@,
        },
{
    let t = trimmed(&chars_of(value));
    let mut v = String::new();
    let mut i: usize = 0;
    assert(v@ =~= lowered(t@).take(0));
    while i < t.len()
        invariant
            i <= t@.len(),
            v@ == lowered(t@).take(i as int),
        decreases t.len() - i,
    {
        v.push(crate::agents::lower_ascii(t[i]));
        assert(lowered(t@).take(i + 1) =~= lowered(t@).take(i as int).push(lowered(t@)[i as int]));
        i = i + 1;
    }
    assert(v@ =~= lowered(t@));
    proof {
        reveal_strlit("on");
        reveal_strlit("off");
        reveal_strlit("true");
        reveal_strlit("false");
        reveal_strlit("yes");
        reveal_strlit("no");
        reveal_strlit("1");
        reveal_strlit("0");
        reveal_strlit("");
    }
    let s = v.as_str();
    if same_text(s, "on") || same_text(s, "true") || same_text(s, "yes") || same_text(s, "1") {
        return Ok(Some(true));
    }
    if same_text(s, "off") || same_text(s, "false") || same_text(s, "no") || same_text(s, "0") {
        return Ok(Some(false));
    }
    if s.is_empty() {
        return Ok(None);
    }
    Err(joined3("bad boolean '", s, "'"))
}

/// What `paste-buffer` types: a named buffer, or without a name the clipboard,
/// which is also where copy mode puts what it copies.
pub fn paste(name: Option<&str>, text: Option<&str>, bracketed: bool) -> (r: Result<Vec<u8>, String>)
    ensures
        match (text_of(text), text_of(name)) {
            (None, Some(n)) => r is Err && r->Err_0@ == "no buffer "@ + n,
            (None, None) => r is Err && r->Err_0@ == "clipboard is empty"@,
            (Some(t), n) => if t.len() == 0 {
                r is Err && r->Err_0@ == if n is Some {
                    "buffer is empty"@
                } else {
                    "clipboard is empty"@
                }
            } else {
                r is Ok && r->Ok_0@ == encode_utf8(paste_text(t, bracketed))
            },
        },
{
    match text {
        None => match name {
            Some(n) => Err(joined2("no buffer ", n)),
            None => Err("clipboard is empty".to_owned()),
        },
        Some(t) => {
            if t.is_empty() {
                return Err(
                    if name.is_some() {
                        "buffer is empty".to_owned()
                    } else {
                        "clipboard is empty".to_owned()
                    },
                );
            }
            Ok(encode_paste(t, bracketed))
        },
    }
}

/// The panes, of the first `k`, whose program may be started again.
pub open spec fn restartable(w: WindowState, list: Seq<PaneId>, kill: bool, k: int) -> Seq<PaneId>
    decreases k,
{
    if k <= 0 {
        Seq::empty()
    } else {
        let p = w.panes[place_of(w.panes, list[k - 1], 0)];
        if p.exit_code is Some || kill {
            restartable(w, list, kill, k - 1).push(list[k - 1])
        } else {
            restartable(w, list, kill, k - 1)
        }
    }
}

impl Server {
    /// The panes that `respawn-pane` or `respawn-window` starts again: those
    /// whose program ended, or with `-k` all.
    pub fn panes_to_restart(&self, target: Option<&Target>, window: bool, kill: bool, cid: Option<ClientId>) -> (r: Result<
        Vec<PaneId>,
        String,
    >)
        requires
            self.wf(),
        ensures
            match place_for(self.states(), self.clients@, self.opts, aimed(target), cid) {
                Err(e) => r is Err && r->Err_0@ == e,
                Ok(p) => {
                    let w = self.states()[p.session].windows[p.window];
                    let list = if window {
                        panes(w.tree)
                    } else {
                        seq![p.pane]
                    };
                    let all = restartable(w, list, kill, list.len() as int);
                    if all.len() == 0 {
                        r is Err && r->Err_0@ == "pane is still running (use -k)"@
                    } else {
                        r is Ok && r->Ok_0@ == all
                    }
                },
            },
    {
        let (i, j, id) = match self.find_place(target, cid) {
            Ok(p) => p,
            Err(e) => {
                return Err(e);
            },
        };
        let w = &self.sessions[i].windows[j];
        proof {
            assert(self.states()[i as int] == self.sessions@[i as int]@);
            assert(self.states()[i as int].windows[j as int] == w@);
            assert(self.states()[i as int].wf());
            assert(w@.settled());
        }
        let list: Vec<PaneId> = if window {
            w.layout.panes()
        } else {
            let mut one: Vec<PaneId> = Vec::new();
            one.push(id);
            assert(one@ =~= seq![id]);
            one
        };
        assert forall|k: int| 0 <= k < list@.len() implies ids(w@.panes).contains(#[trigger] list@[k]) by {
            if window {
                assert(panes(w@.tree).contains(list@[k]));
            }
        }
        let mut out: Vec<PaneId> = Vec::new();
        let mut k: usize = 0;
        assert(out@ =~= Seq::empty());
        while k < list.len()
            invariant
                k <= list@.len(),
                forall|k: int| 0 <= k < list@.len() ==> ids(w@.panes).contains(#[trigger] list@[k]),
                out@ == restartable(w@, list@, kill, k as int),
            decreases list.len() - k,
        {
            proof {
                assert(ids(w@.panes).contains(list@[k as int]));
                lemma_place_of(w@.panes, list@[k as int], 0);
            }
            let place: usize = w.place(list[k]);
            if w.panes[place].exit_code.is_some() || kill {
                out.push(list[k]);
            }
            k = k + 1;
        }
        if out.len() == 0 {
            return Err("pane is still running (use -k)".to_owned());
        }
        Ok(out)
    }
}

impl Server {
    /// The pane that `send-prefix` types into. With a popup open whose program
    /// runs, and no target named, it is for the program in the box: that is
    /// how it gets the key.
    pub fn prefix_pane(&self, target: Option<&Target>, cid: Option<ClientId>) -> (r: Result<PaneId, String>)
        requires
            self.wf(),
        ensures
            ({
                let c = client_named(self.clients@, cid);
                let boxed = target is None && c is Some && c->0.popup is Some && !c->0.popup->0.finished;
                match place_for(self.states(), self.clients@, self.opts, aimed(target), cid) {
                    _ if boxed => r == Ok::<PaneId, String>(c->0.popup->0.pane.id),
                    Ok(p) => r == Ok::<PaneId, String>(p.pane),
                    Err(e) => r is Err && r->Err_0@ == e,
                }
            }),
    {
        if target.is_none() {
            if let Some(id) = cid {
                let k: usize = self.client_at(id);
                if k < self.clients.len() {
                    if let Some(p) = &self.clients[k].popup {
                        if !p.finished {
                            return Ok(p.pane.id);
                        }
                    }
                }
            }
        }
        match self.find_place(target, cid) {
            Ok((_, _, id)) => Ok(id),
            Err(e) => Err(e),
        }
    }
}

} // verus!
