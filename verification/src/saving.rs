//! Sessions on their way to files and back: what is saved of them, when, and
//! what a saved one comes back with.
use vstd::prelude::*;

use crate::arrange::{place_in, position};
use crate::attending::client_named;
use crate::callers::caller;
use crate::chooser::{ClientId, SessionId};
use crate::command::{Ended, Outcome, Target};
use crate::screen::{bytes_in, char_bytes, size_of_char};
use crate::layout::{panes, PaneId};
use crate::listings::variables;
use crate::openings::name_taken;
use crate::saved::{lemma_saved_starts, saved_tree, starts, SavedNode};
use crate::server::{aimed, place_for, session_place, Server};
use crate::server_edit::{lemma_clients_stay, lemma_relaid, relaid};
use crate::session::SessionState;
use crate::text::{chars_of, decimal, join_texts, joined2, joined3, joined_by, number_text, same_text, texts_of};
use crate::window::{lemma_place_of, place_of, WindowState};

verus! {

/// What is saved of a window: its layout, and which of the panes there is
/// the active one.
#[derive(Debug)]
pub struct SavedWindow {
    pub name: String,
    pub layout: SavedNode,
    pub active: usize,
    pub zoomed: bool,
}

/// What is saved of a session.
#[derive(Debug)]
pub struct SavedSession {
    pub name: String,
    pub current: usize,
    pub size: (u16, u16),
    pub windows: Vec<SavedWindow>,
}

/// `saved` is what is saved of window `w`, with the lines that `h` and the
/// directories that `d` have for its panes.
pub open spec fn window_saved(
    saved: SavedWindow,
    w: WindowState,
    h: Seq<(PaneId, Vec<String>)>,
    d: Seq<(PaneId, String)>,
) -> bool {
    &&& saved.name@ == w.name
    &&& saved.layout@ == saved_tree(w.tree, w.panes, h, d)
    &&& saved.active == place_in(panes(w.tree), w.active, 0)
    &&& saved.zoomed == w.zoomed
}

/// `saved` is what is saved of session `s`.
pub open spec fn session_saved(
    saved: SavedSession,
    s: SessionState,
    h: Seq<(PaneId, Vec<String>)>,
    d: Seq<(PaneId, String)>,
) -> bool {
    &&& saved.name@ == s.name
    &&& saved.current == s.cur
    &&& saved.size == (s.cols, s.rows)
    &&& saved.windows@.len() == s.windows.len()
    &&& forall|k: int| 0 <= k < s.windows.len() ==> window_saved(#[trigger] saved.windows@[k], s.windows[k], h, d)
}

impl Server {
    /// What is saved of the session at `i`: `history` has the last lines of
    /// its panes, and `dirs` the directories that their programs are in, as
    /// far as they are known.
    pub fn snapshot(
        &self,
        i: usize,
        history: &Vec<(PaneId, Vec<String>)>,
        dirs: &Vec<(PaneId, String)>,
    ) -> (saved: SavedSession)
        requires
            self.wf(),
            i < self.states().len(),
        ensures
            session_saved(saved, self.states()[i as int], history@, dirs@),
            forall|k: int|
                0 <= k < saved.windows@.len() ==> (#[trigger] saved.windows@[k]).active < starts(
                    saved.windows@[k].layout@,
                ).len(),
    {
        let ghost s = self.states()[i as int];
        assert(s == self.sessions@[i as int]@);
        assert(s.wf());
        let mut windows: Vec<SavedWindow> = Vec::new();
        let mut j: usize = 0;
        while j < self.sessions[i].windows.len()
            invariant
                i < self.sessions@.len(),
                s == self.sessions@[i as int]@,
                s.wf(),
                j <= self.sessions@[i as int].windows@.len() == s.windows.len(),
                windows@.len() == j,
                forall|k: int| 0 <= k < j ==> window_saved(#[trigger] windows@[k], s.windows[k], history@, dirs@),
                forall|k: int|
                    0 <= k < j ==> (#[trigger] windows@[k]).active < starts(windows@[k].layout@).len(),
            decreases self.sessions@[i as int].windows@.len() - j,
        {
            let w = &self.sessions[i].windows[j];
            assert(w@ == s.windows[j as int]);
            assert(w@.wf());
            let order = w.layout.panes();
            let active: usize = position(&order, w.active);
            let layout = w.saved_layout(history, dirs);
            proof {
                lemma_saved_starts(w@.tree, w@.panes, history@, dirs@);
            }
            windows.push(SavedWindow { name: w.name.clone(), layout, active, zoomed: w.zoomed });
            j = j + 1;
        }
        let s = &self.sessions[i];
        SavedSession { name: s.name.clone(), current: s.cur, size: (s.cols, s.rows), windows }
    }
}

/// The size a saved session comes back at: that of the terminal about to
/// attach, or else the one it was saved at, neither too small to lay out.
pub open spec fn size_again(size: Option<(u16, u16)>, saved: Option<(u16, u16)>) -> (u16, u16) {
    let want = if size is Some {
        size
    } else {
        saved
    };
    match want {
        Some((c, r)) => (
            if c < 10 {
                10
            } else {
                c
            },
            if r < 3 {
                3
            } else {
                r
            },
        ),
        None => (80, 24),
    }
}

impl Server {
    /// The size at which a saved session of that name and so many windows
    /// comes back, or why it does not.
    pub fn plan_restore(&self, name: &str, windows: usize, size: Option<(u16, u16)>, saved: Option<(u16, u16)>) -> (r:
        Result<(u16, u16), String>)
        ensures
            if name_taken(self.states(), name@) {
                r is Err && r->Err_0@ == "session "@ + name@ + " already exists"@
            } else if windows == 0 {
                r is Err && r->Err_0@ == "session "@ + name@ + " has no windows"@
            } else {
                r == Ok::<(u16, u16), String>(size_again(size, saved))
            },
    {
        if self.taken(name) {
            return Err(joined3("session ", name, " already exists"));
        }
        if windows == 0 {
            return Err(joined3("session ", name, " has no windows"));
        }
        let want: Option<(u16, u16)> = if size.is_some() { size } else { saved };
        Ok(
            match want {
                Some((c, r)) => (if c < 10 { 10 } else { c }, if r < 3 { 3 } else { r }),
                None => (80, 24),
            },
        )
    }

    /// A saved session is back: the window that was current is again, and all
    /// is laid out.
    pub fn finish_restore(&mut self, sid: SessionId, current: usize)
        requires
            old(self).wf(),
        ensures
            final(self).wf(),
            *final(self) == (Server { sessions: final(self).sessions, ..*old(self) }),
            ({
                let ss = old(self).states();
                let i = session_place(ss, sid, 0);
                final(self).states() == if i < ss.len() {
                    relaid(ss.update(i, came_back(ss[i], current as int)), i, old(self).opts)
                } else {
                    ss
                }
            }),
    {
        let i: usize = self.session_at(sid);
        if i >= self.sessions.len() {
            return;
        }
        let ghost ss = self.states();
        assert(ss[i as int] == self.sessions@[i as int]@);
        assert(ss[i as int].wf());
        let n: usize = self.sessions[i].windows.len();
        self.sessions[i].cur = if current < n { current } else { n - 1 };
        self.sessions[i].last = None;
        proof {
            let s = came_back(ss[i as int], current as int);
            assert(self.sessions@[i as int]@ =~= s);
            assert(self.states() =~= ss.update(i as int, s));
            assert(s.wf());
            lemma_relaid(ss, i as int, s, self.next_id, self.killed_list());
            lemma_clients_stay(self.clients@, ss, self.states());
        }
        self.relayout_at(i);
    }
}

/// A session with another window current, or its last one, and no window to
/// go back to.
pub open spec fn came_back(s: SessionState, current: int) -> SessionState {
    SessionState {
        cur: if current < s.windows.len() {
            current
        } else {
            s.windows.len() - 1
        },
        last: None,
        ..s
    }
}

/// The line that tells why a window of a saved session did not come back.
pub fn restore_fault(session: &str, window: &str, why: &str) -> (out: String)
    ensures
        out@ == session@ + ":"@ + window@ + ": "@ + why@,
{
    let head = joined3(session, ":", window);
    joined3(head.as_str(), ": ", why)
}

/// What is printed into a pane that comes back before its program starts: the
/// lines it showed.
pub fn replay_text(history: &Vec<String>) -> (text: Option<String>)
    ensures
        match text {
            Some(t) => history@.len() > 0 && t@ == joined_by(texts_of(history@), "\r\n"@, history@.len() as int) + "\r\n"@,
            None => history@.len() == 0,
        },
{
    if history.len() == 0 {
        return None;
    }
    let mut text = join_texts(history, "\r\n");
    text.push_str("\r\n");
    Some(text)
}

/// Which session files hold what is there: each file and the structure it
/// was written from.
#[derive(Debug)]
pub struct Autosave {
    pub saved: Vec<(String, String)>,
}

/// The structure that file was written from, from entry `i` on.
pub open spec fn written_from(v: Seq<(Seq<char>, Seq<char>)>, path: Seq<char>, i: int) -> Option<Seq<char>>
    decreases v.len() - i,
{
    if i < 0 || i >= v.len() {
        None
    } else if v[i].0 == path {
        Some(v[i].1)
    } else {
        written_from(v, path, i + 1)
    }
}

impl Autosave {
    pub open spec fn key_of(self, path: Seq<char>) -> Option<Seq<char>> {
        written_from(variables(self.saved@), path, 0)
    }

    /// Whether a session is written to its file: when its structure is not
    /// what was written there, or the output of its panes is due.
    pub fn due(&self, refresh: bool, path: &str, key: &str) -> (b: bool)
        ensures
            b == (refresh || self.key_of(path@) != Some(key@)),
    {
        if refresh {
            return true;
        }
        let ghost v = variables(self.saved@);
        let mut i: usize = 0;
        while i < self.saved.len()
            invariant
                i <= self.saved@.len(),
                v == variables(self.saved@),
                !refresh,
                self.key_of(path@) == written_from(v, path@, i as int),
            decreases self.saved.len() - i,
        {
            assert(v[i as int] == (self.saved@[i as int].0@, self.saved@[i as int].1@));
            if same_text(self.saved[i].0.as_str(), path) {
                return !same_text(self.saved[i].1.as_str(), key);
            }
            i = i + 1;
        }
        true
    }

    /// The file was written from that structure, or is not to be tried again
    /// for it.
    pub fn note(&mut self, path: String, key: String)
        ensures
            final(self).key_of(path@) == Some(key@),
            forall|other: Seq<char>| other != path@ ==> #[trigger] final(self).key_of(other) == old(self).key_of(other),
    {
        let ghost v = variables(self.saved@);
        let mut i: usize = 0;
        while i < self.saved.len() && !same_text(self.saved[i].0.as_str(), path.as_str())
            invariant
                i <= self.saved@.len(),
                v == variables(self.saved@),
                self.saved == old(self).saved,
                forall|k: int| 0 <= k < i ==> (#[trigger] v[k]).0 != path@,
            decreases self.saved.len() - i,
        {
            assert(v[i as int] == (self.saved@[i as int].0@, self.saved@[i as int].1@));
            i = i + 1;
        }
        let ghost entry = (path@, key@);
        if i < self.saved.len() {
            self.saved.set(i, (path, key));
        } else {
            self.saved.push((path, key));
        }
        proof {
            let now = variables(self.saved@);
            let all = if i < v.len() {
                v.update(i as int, entry)
            } else {
                v.push(entry)
            };
            assert(now =~= all);
            lemma_written_at(now, entry.0, 0, i as int);
            assert forall|other: Seq<char>| other != entry.0 implies #[trigger] self.key_of(other) == old(self).key_of(other) by {
                lemma_written_else(v, now, other, 0, i as int);
            }
        }
    }
}

impl Autosave {
    /// The file is no longer what was written there.
    pub fn forget(&mut self, path: &str)
        ensures
            final(self).key_of(path@) is None,
            forall|other: Seq<char>| other != path@ ==> #[trigger] final(self).key_of(other) == old(self).key_of(other),
    {
        let mut i: usize = 0;
        while i < self.saved.len()
            invariant
                i <= self.saved@.len(),
                forall|k: int| 0 <= k < i ==> (#[trigger] variables(self.saved@)[k]).0 != path@,
                forall|other: Seq<char>| other != path@ ==> #[trigger] self.key_of(other) == old(self).key_of(other),
            decreases self.saved.len() - i,
        {
            let ghost v = variables(self.saved@);
            let ghost was = *self;
            if same_text(self.saved[i].0.as_str(), path) {
                self.saved.remove(i);
                proof {
                    let now = variables(self.saved@);
                    assert(now =~= v.remove(i as int));
                    assert forall|other: Seq<char>| other != path@ implies #[trigger] self.key_of(other) == old(
                        self,
                    ).key_of(other) by {
                        lemma_written_without(v, other, 0, i as int);
                        assert(was.key_of(other) == old(self).key_of(other));
                    }
                }
            } else {
                i = i + 1;
            }
        }
        proof {
            lemma_not_written(variables(self.saved@), path@, 0);
        }
    }
}

/// Without the entry at `k`, which is not of `other`.
proof fn lemma_written_without(v: Seq<(Seq<char>, Seq<char>)>, other: Seq<char>, i: int, k: int)
    requires
        0 <= i <= k < v.len(),
        v[k].0 != other,
    ensures
        written_from(v.remove(k), other, i) == written_from(v, other, i),
    decreases k - i,
{
    if i < k {
        lemma_written_without(v, other, i + 1, k);
    } else {
        lemma_written_shifted(v, other, k, k + 1);
    }
}

proof fn lemma_written_shifted(v: Seq<(Seq<char>, Seq<char>)>, other: Seq<char>, k: int, i: int)
    requires
        0 <= k < i <= v.len(),
    ensures
        written_from(v.remove(k), other, i - 1) == written_from(v, other, i),
    decreases v.len() - i,
{
    if i < v.len() {
        lemma_written_shifted(v, other, k, i + 1);
    }
}

proof fn lemma_not_written(v: Seq<(Seq<char>, Seq<char>)>, path: Seq<char>, i: int)
    requires
        0 <= i <= v.len(),
        forall|k: int| 0 <= k < v.len() ==> (#[trigger] v[k]).0 != path,
    ensures
        written_from(v, path, i) is None,
    decreases v.len() - i,
{
    if i < v.len() {
        assert(v[i].0 != path);
        lemma_not_written(v, path, i + 1);
    }
}

proof fn lemma_written_at(v: Seq<(Seq<char>, Seq<char>)>, path: Seq<char>, i: int, k: int)
    requires
        0 <= i <= k < v.len(),
        v[k].0 == path,
        forall|j: int| i <= j < k ==> (#[trigger] v[j]).0 != path,
    ensures
        written_from(v, path, i) == Some(v[k].1),
    decreases k - i,
{
    if i < k {
        assert(v[i].0 != path);
        lemma_written_at(v, path, i + 1, k);
    }
}

/// Only the entry at `k` is another or new, and it is not of `other`.
proof fn lemma_written_else(v: Seq<(Seq<char>, Seq<char>)>, now: Seq<(Seq<char>, Seq<char>)>, other: Seq<char>, i: int, k: int)
    requires
        0 <= i <= now.len(),
        0 <= k < now.len(),
        now.len() == if k < v.len() {
            v.len()
        } else {
            v.len() + 1
        },
        now[k].0 != other,
        k < v.len() ==> v[k].0 != other,
        forall|j: int| 0 <= j < v.len() && j != k ==> now[j] == #[trigger] v[j],
    ensures
        written_from(now, other, i) == written_from(v, other, i),
    decreases now.len() - i,
{
    if i < now.len() {
        lemma_written_else(v, now, other, i + 1, k);
        if i < v.len() && i != k {
            assert(now[i] == v[i]);
        }
    }
}

impl Server {
    /// The directory a client was started in, when it told one.
    pub fn client_cwd(&self, cid: Option<ClientId>) -> (dir: Option<String>)
        ensures
            match dir {
                Some(d) => client_named(self.clients@, cid) is Some && d@ == client_named(self.clients@, cid)->0.cwd@
                    && d@.len() > 0,
                None => client_named(self.clients@, cid) is None || client_named(self.clients@, cid)->0.cwd@.len() == 0,
            },
    {
        match cid {
            None => None,
            Some(id) => {
                let k: usize = self.client_at(id);
                if k < self.clients.len() && !self.clients[k].cwd.as_str().is_empty() {
                    Some(self.clients[k].cwd.clone())
                } else {
                    None
                }
            },
        }
    }

    /// Where a new pane starts: where it was told to, else where the active
    /// pane of the session is, else where the client is.
    pub fn pane_cwd(&self, explicit: Option<&str>, sid: SessionId, cid: Option<ClientId>) -> (dir: Option<String>)
        requires
            self.wf(),
        ensures
            ({
                let c = client_named(self.clients@, cid);
                let i = session_place(self.states(), sid, 0);
                let want = if explicit is Some {
                    Some(explicit->0@)
                } else if i < self.states().len() && start_of_active(self.states()[i]) is Some {
                    start_of_active(self.states()[i])
                } else if c is Some && c->0.cwd@.len() > 0 {
                    Some(c->0.cwd@)
                } else {
                    None
                };
                match dir {
                    Some(d) => want == Some(d@),
                    None => want is None,
                }
            }),
    {
        if let Some(d) = explicit {
            return Some(d.to_string());
        }
        let i: usize = self.session_at(sid);
        if i < self.sessions.len() {
            let s = &self.sessions[i];
            assert(s@ == self.states()[i as int]);
            assert(s@.wf());
            let w = &s.windows[s.cur];
            assert(w@ == s@.windows[s@.cur]);
            assert(w@.wf());
            proof {
                lemma_place_of(w.panes@, w.active, 0);
            }
            let k: usize = w.place(w.active);
            if let Some(d) = &w.panes[k].cwd {
                return Some(d.clone());
            }
        }
        self.client_cwd(cid)
    }
}

impl Server {
    /// The pane and the directory of `set-cwd`. Without a target it is the
    /// pane the client was started in, when that is still there; without a
    /// directory it is the client's.
    pub fn plan_cwd(&self, target: Option<&Target>, dir: Option<&str>, cid: Option<ClientId>) -> (r: Result<
        (PaneId, String),
        String,
    >)
        requires
            self.wf(),
        ensures
            ({
                let ss = self.states();
                let own = caller(ss, self.clients@, cid);
                let found = place_for(ss, self.clients@, self.opts, aimed(target), cid);
                let c = client_named(self.clients@, cid);
                let to = if dir is Some {
                    Some(dir->0@)
                } else if c is Some && c->0.cwd@.len() > 0 {
                    Some(c->0.cwd@)
                } else {
                    None
                };
                if !(target is None && own is Some) && found is Err {
                    r is Err && r->Err_0@ == found->Err_0
                } else if to is None {
                    r is Err && r->Err_0@ == "set-cwd: no directory given and the client has none"@
                } else {
                    &&& r is Ok && r->Ok_0.1@ == to->0
                    &&& r->Ok_0.0 == if target is None && own is Some {
                        own->0
                    } else {
                        found->Ok_0.pane
                    }
                }
            }),
    {
        let own: Option<PaneId> = if target.is_none() { self.caller_pane(cid) } else { None };
        let pid: PaneId = match own {
            Some(id) => id,
            None => match self.find_place(target, cid) {
                Ok((_, _, id)) => id,
                Err(e) => {
                    return Err(e);
                },
            },
        };
        let to: Option<String> = match dir {
            Some(d) => Some(d.to_string()),
            None => self.client_cwd(cid),
        };
        match to {
            Some(d) => Ok((pid, d)),
            None => Err("set-cwd: no directory given and the client has none".to_owned()),
        }
    }
}

/// Where the active pane of the current window of `s` is.
pub open spec fn start_of_active(s: SessionState) -> Option<Seq<char>> {
    let w = s.windows[s.cur];
    match w.panes[place_of(w.panes, w.active, 0)].cwd {
        Some(d) => Some(d@),
        None => None,
    }
}

/// Where programs are found: on `path`, and first in the directory of the
/// server's own program (`dir`), unless that is on it `already`.
pub fn pane_path(path: &str, dir: Option<&str>, already: bool) -> (out: String)
    ensures
        out@ == match dir {
            Some(d) => if already {
                path@
            } else {
                d@ + ";"@ + path@
            },
            None => path@,
        },
{
    match dir {
        Some(d) => {
            if already {
                path.to_string()
            } else {
                joined3(d, ";", path)
            }
        },
        None => path.to_string(),
    }
}

/// The variables a program in a pane gets beside those of the server: where
/// the server is, which pane it is in, where programs are found; and those
/// that were set, last, so that they win.
pub fn pane_env(socket: &str, id: PaneId, path: &str, env: &Vec<(String, String)>) -> (out: Vec<(String, String)>)
    ensures
        variables(out@) == seq![("WMUX"@, socket@), ("WMUX_PANE"@, decimal(id as nat)), ("PATH"@, path@)] + variables(env@),
{
    let mut out: Vec<(String, String)> = Vec::new();
    out.push(("WMUX".to_string(), socket.to_string()));
    out.push(("WMUX_PANE".to_string(), number_text(id as u64)));
    out.push(("PATH".to_string(), path.to_string()));
    let ghost head = variables(out@);
    let mut i: usize = 0;
    assert(variables(env@).take(0) =~= Seq::empty());
    assert(head =~= head + variables(env@).take(0));
    while i < env.len()
        invariant
            i <= env@.len(),
            variables(out@) == head + variables(env@).take(i as int),
        decreases env.len() - i,
    {
        let ghost before = variables(out@);
        out.push((env[i].0.clone(), env[i].1.clone()));
        i = i + 1;
        assert(variables(out@) =~= before.push(variables(env@)[i - 1]));
        assert(variables(env@).take(i as int) =~= variables(env@).take(i - 1).push(variables(env@)[i - 1]));
    }
    assert(variables(env@).take(env@.len() as int) =~= variables(env@));
    assert(head =~= seq![("WMUX"@, socket@), ("WMUX_PANE"@, decimal(id as nat)), ("PATH"@, path@)]);
    out
}

/// The first `n` bytes of a text, when they are whole characters of it.
pub open spec fn first_bytes(s: Seq<char>, n: int) -> Option<Seq<char>>
    decreases s.len(),
{
    if n == 0 {
        Some(Seq::empty())
    } else if s.len() == 0 || char_bytes(s[0]) > n {
        None
    } else {
        match first_bytes(s.skip(1), n - char_bytes(s[0])) {
            Some(rest) => Some(seq![s[0]] + rest),
            None => None,
        }
    }
}

/// A moment of a session file as it is listed: to the second, without the
/// letter between its day and its time.
pub open spec fn saved_at(at: Seq<char>) -> Seq<char> {
    let head = match first_bytes(at, 19) {
        Some(h) => h,
        None => at,
    };
    Seq::new(
        head.len(),
        |i: int|
            if head[i] == 'T' {
                ' '
            } else {
                head[i]
            },
    )
}

/// The line of a saved session.
pub open spec fn saved_line(ss: Seq<SessionState>, name: Seq<char>, at: Seq<char>) -> Seq<char> {
    name + ": saved "@ + saved_at(at) + (if name_taken(ss, name) {
        " (running)"@
    } else {
        ""@
    })
}

/// The lines of saved sessions, each a name and when it was saved.
pub open spec fn saved_list(ss: Seq<SessionState>, saved: Seq<(Seq<char>, Seq<char>)>) -> Seq<Seq<char>> {
    Seq::new(saved.len(), |i: int| saved_line(ss, saved[i].0, saved[i].1))
}

proof fn lemma_first_bytes(s: Seq<char>, k: int, n: int, want: int)
    requires
        0 <= k <= s.len(),
        n == bytes_in(s.take(k)),
        n <= want,
        n == want || k == s.len() || n + char_bytes(s[k]) > want,
    ensures
        first_bytes(s, want) == if n == want {
            Some(s.take(k))
        } else {
            None
        },
    decreases k,
{
    if k > 0 {
        let rest = s.skip(1);
        assert(rest.take(k - 1) =~= s.take(k).skip(1));
        lemma_bytes_first(s.take(k));
        assert(s.take(k)[0] == s[0]);
        if k < s.len() {
            assert(rest[k - 1] == s[k]);
        }
        lemma_first_bytes(rest, k - 1, n - char_bytes(s[0]), want - char_bytes(s[0]));
        assert(seq![s[0]] + rest.take(k - 1) =~= s.take(k));
    } else {
        assert(s.take(0) =~= Seq::empty());
    }
}

proof fn lemma_bytes_first(s: Seq<char>)
    requires
        s.len() > 0,
    ensures
        bytes_in(s) == char_bytes(s[0]) + bytes_in(s.skip(1)),
        bytes_in(s) > 0,
    decreases s.len(),
{
    if s.len() > 1 {
        lemma_bytes_first(s.drop_last());
        assert(s.skip(1).drop_last() =~= s.drop_last().skip(1));
    } else {
        assert(s.drop_last() =~= Seq::empty());
        assert(s.skip(1) =~= Seq::empty());
    }
}

fn shown_time(at: &str) -> (out: String)
    ensures
        out@ == saved_at(at@),
{
    let all = chars_of(at);
    let mut k: usize = 0;
    let mut n: usize = 0;
    assert(all@.take(0) =~= Seq::empty());
    while k < all.len() && n + size_of_char(all[k]) <= 19
        invariant
            k <= all@.len(),
            n <= 19,
            n == bytes_in(all@.take(k as int)),
        decreases all.len() - k,
    {
        n = n + size_of_char(all[k]);
        assert(all@.take(k + 1).drop_last() =~= all@.take(k as int));
        k = k + 1;
    }
    proof {
        lemma_first_bytes(all@, k as int, n as int, 19);
    }
    let upto: usize = if n == 19 { k } else { all.len() };
    let ghost head = all@.take(upto as int);
    assert(all@.take(all@.len() as int) =~= all@);
    let mut out = String::new();
    let mut i: usize = 0;
    while i < upto
        invariant
            i <= upto <= all@.len(),
            head == all@.take(upto as int),
            out@ == saved_chars(head.take(i as int)),
        decreases upto - i,
    {
        let c: char = all[i];
        assert(head.take(i + 1) =~= head.take(i as int).push(c));
        let ghost before = out@;
        out.push(if c == 'T' { ' ' } else { c });
        assert(saved_chars(head.take(i + 1)) =~= before.push(
            if c == 'T' {
                ' '
            } else {
                c
            },
        ));
        i = i + 1;
    }
    assert(head.take(upto as int) =~= head);
    assert(out@ =~= saved_at(at@));
    out
}

/// A text with a blank for each `T`.
spec fn saved_chars(s: Seq<char>) -> Seq<char> {
    Seq::new(
        s.len(),
        |i: int|
            if s[i] == 'T' {
                ' '
            } else {
                s[i]
            },
    )
}

impl Server {
    /// `list-saved`: the saved sessions, in the order given, each with when it
    /// was saved and whether it is running; `dir` is where they are.
    pub fn list_saved(&self, saved: &Vec<(String, String)>, dir: &str) -> (out: Outcome)
        ensures
            out@ == Ended::Text(
                if saved@.len() == 0 {
                    "no saved sessions in "@ + dir@
                } else {
                    joined_by(saved_list(self.states(), variables(saved@)), "\n"@, saved@.len() as int)
                },
            ),
    {
        if saved.len() == 0 {
            return Outcome::Text(joined2("no saved sessions in ", dir));
        }
        let mut lines: Vec<String> = Vec::new();
        let mut i: usize = 0;
        while i < saved.len()
            invariant
                i <= saved@.len(),
                lines@.len() == i,
                forall|j: int|
                    0 <= j < i ==> (#[trigger] lines@[j])@ == saved_line(self.states(), saved@[j].0@, saved@[j].1@),
            decreases saved.len() - i,
        {
            let when = shown_time(saved[i].1.as_str());
            let mut l = joined3(saved[i].0.as_str(), ": saved ", when.as_str());
            l.push_str(if self.taken(saved[i].0.as_str()) { " (running)" } else { "" });
            lines.push(l);
            i = i + 1;
        }
        assert(texts_of(lines@) =~= saved_list(self.states(), variables(saved@)));
        Outcome::Text(join_texts(&lines, "\n"))
    }

    /// Whether the file of a saved session may be deleted: not while the
    /// session runs and is saved by itself, since it would come right back.
    pub fn may_delete_saved(&self, name: &str, autosave: bool) -> (r: Result<(), String>)
        ensures
            if autosave && name_taken(self.states(), name@) {
                r is Err && r->Err_0@ == "session "@ + name@ + " is running; kill it first (or set autosave off)"@
            } else {
                r is Ok
            },
    {
        if autosave && self.taken(name) {
            Err(joined3("session ", name, " is running; kill it first (or set autosave off)"))
        } else {
            Ok(())
        }
    }
}

} // verus!
