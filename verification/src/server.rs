//! The server: its sessions, the clients that look at them, and how a
//! command finds what it is about.
use vstd::prelude::*;

use crate::arrange::past;
use crate::chooser::{ClientId, SessionId, WindowId};
use crate::client::Client;
use crate::command::Target;
use crate::layout::{panes, Node, PaneId, Rect, Tree};
use crate::pane::Pane;
use crate::session::{id_behind, number_behind, window_with, Session, SessionState};
use crate::text::{begins_with, chars_of, decimal, joined2, number_text, same_text};
use crate::window::{Window, WindowState};

verus! {

/// The settings that the server's rules read.
#[derive(Debug)]
pub struct Options {
    /// There is a status line, and it is the top line.
    pub status: bool,
    pub status_top: bool,
    /// `top` or `bottom` reserve a row of each pane for a border line.
    pub pane_border_status: String,
    /// `smallest`, `largest`, `manual`, or the client used last.
    pub window_size: String,
    /// Where windows and panes are counted from.
    pub base_index: usize,
    pub pane_base_index: usize,
    /// Selecting a pane of a zoomed window moves the zoom.
    pub keep_zoom: bool,
    /// How many seconds a killed pane is kept; zero keeps none.
    pub undo_kill_time: u64,
    /// A pane stays when its program ends.
    pub remain_on_exit: bool,
    pub monitor_activity: bool,
    pub monitor_bell: bool,
    /// Seconds of silence that are an alert; zero for never.
    pub monitor_silence: u64,
    pub visual_bell: bool,
    pub visual_activity: bool,
    pub mouse: bool,
    pub display_time_ms: u64,
    pub repeat_time_ms: u64,
}

/// A pane or window a command killed, kept a while with its programs still
/// running, so it can be put back as it was.
#[derive(Debug)]
pub enum Killed {
    Pane {
        pane: Pane,
        session: SessionId,
        /// The window it was in.
        home: WindowId,
        /// The window's layout with the pane still in it.
        layout: Node,
        at: u64,
    },
    Window { window: Window, session: SessionId, index: usize, at: u64 },
}

pub ghost enum KilledState {
    Pane { pane: Pane, session: SessionId, home: WindowId, tree: Tree, at: u64 },
    Window { window: WindowState, session: SessionId, index: int, at: u64 },
}

impl View for Killed {
    type V = KilledState;

    open spec fn view(&self) -> KilledState {
        match *self {
            Killed::Pane { pane, session, home, layout, at } => KilledState::Pane {
                pane,
                session,
                home,
                tree: layout@,
                at,
            },
            Killed::Window { window, session, index, at } => KilledState::Window {
                window: window@,
                session,
                index: index as int,
                at,
            },
        }
    }
}

impl KilledState {
    pub open spec fn has(self, id: PaneId) -> bool {
        match self {
            KilledState::Pane { pane, .. } => pane.id == id,
            KilledState::Window { window, .. } => window.has(id),
        }
    }

    pub open spec fn killed_at(self) -> u64 {
        match self {
            KilledState::Pane { at, .. } => at,
            KilledState::Window { at, .. } => at,
        }
    }
}

pub struct Server {
    pub opts: Options,
    pub sessions: Vec<Session>,
    pub clients: Vec<Client>,
    pub next_id: u32,
    /// What was killed lately, newest last.
    pub killed: Vec<Killed>,
    /// The pane marked as the default source of `join-pane`.
    pub marked: Option<PaneId>,
    pub had_session: bool,
    pub quit: bool,
}

pub open spec fn session_states(v: Seq<Session>) -> Seq<SessionState> {
    Seq::new(v.len(), |i: int| v[i]@)
}

pub open spec fn killed_states(v: Seq<Killed>) -> Seq<KilledState> {
    Seq::new(v.len(), |i: int| v[i]@)
}

/// The part of a client's screen that a window has.
pub open spec fn area_of(opts: Options, cols: u16, rows: u16) -> Rect {
    if opts.status && rows > 1 {
        Rect {
            x: 0,
            y: if opts.status_top {
                1
            } else {
                0
            },
            w: cols,
            h: (rows - 1) as u16,
        }
    } else {
        Rect { x: 0, y: 0, w: cols, h: rows }
    }
}

/// Whether a row above (`Some(true)`) or below (`Some(false)`) each pane is
/// reserved.
pub open spec fn border_of(opts: Options) -> Option<bool> {
    if opts.pane_border_status@ == "top"@ {
        Some(true)
    } else if opts.pane_border_status@ == "bottom"@ {
        Some(false)
    } else {
        None
    }
}

/// The place of session `id` from `i` on; the end when it is not there.
pub open spec fn session_place(ss: Seq<SessionState>, id: SessionId, i: int) -> int
    decreases ss.len() - i,
{
    if i >= ss.len() {
        ss.len() as int
    } else if ss[i].id == id {
        i
    } else {
        session_place(ss, id, i + 1)
    }
}

pub proof fn lemma_session_place(ss: Seq<SessionState>, id: SessionId, i: int)
    requires
        0 <= i <= ss.len(),
    ensures
        i <= session_place(ss, id, i) <= ss.len(),
        session_place(ss, id, i) < ss.len() ==> ss[session_place(ss, id, i)].id == id,
        forall|j: int| i <= j < session_place(ss, id, i) ==> (#[trigger] ss[j]).id != id,
    decreases ss.len() - i,
{
    if i < ss.len() && ss[i].id != id {
        lemma_session_place(ss, id, i + 1);
    }
}

/// The session has pane `id` in one of its windows.
pub open spec fn session_has(s: SessionState, id: PaneId) -> bool {
    window_with(s.windows, id, 0) < s.windows.len()
}

/// The first session from `i` on that has pane `id`; the end when none has.
pub open spec fn session_with(ss: Seq<SessionState>, id: PaneId, i: int) -> int
    decreases ss.len() - i,
{
    if i >= ss.len() {
        ss.len() as int
    } else if session_has(ss[i], id) {
        i
    } else {
        session_with(ss, id, i + 1)
    }
}

pub proof fn lemma_session_with(ss: Seq<SessionState>, id: PaneId, i: int)
    requires
        0 <= i <= ss.len(),
    ensures
        i <= session_with(ss, id, i) <= ss.len(),
        session_with(ss, id, i) < ss.len() ==> session_has(ss[session_with(ss, id, i)], id),
        forall|j: int| i <= j < session_with(ss, id, i) ==> !session_has(#[trigger] ss[j], id),
    decreases ss.len() - i,
{
    if i < ss.len() && !session_has(ss[i], id) {
        lemma_session_with(ss, id, i + 1);
    }
}

/// The first session from `i` on with that name or number (`$3`).
pub open spec fn session_called(ss: Seq<SessionState>, name: Seq<char>, i: int) -> int
    decreases ss.len() - i,
{
    if i >= ss.len() {
        ss.len() as int
    } else if ss[i].name == name || id_behind(name, '$') == Some(ss[i].id as int) {
        i
    } else {
        session_called(ss, name, i + 1)
    }
}

/// The sessions from `i` on whose name begins with `name`.
pub open spec fn sessions_begun(ss: Seq<SessionState>, name: Seq<char>, i: int) -> Seq<int>
    decreases ss.len() - i,
{
    if i >= ss.len() {
        Seq::empty()
    } else if name.is_prefix_of(ss[i].name) {
        seq![i] + sessions_begun(ss, name, i + 1)
    } else {
        sessions_begun(ss, name, i + 1)
    }
}

/// The session used last among the first `k`; of two used at one moment the
/// later one.
pub open spec fn latest_used(ss: Seq<SessionState>, k: int) -> int
    decreases k,
{
    if k <= 1 {
        0
    } else {
        let best = latest_used(ss, k - 1);
        if ss[k - 1].last_used >= ss[best].last_used {
            k - 1
        } else {
            best
        }
    }
}

pub proof fn lemma_latest_used(ss: Seq<SessionState>, k: int)
    requires
        1 <= k <= ss.len(),
    ensures
        0 <= latest_used(ss, k) < k,
        forall|i: int| 0 <= i < k ==> (#[trigger] ss[i]).last_used <= ss[latest_used(ss, k)].last_used,
    decreases k,
{
    if k > 1 {
        lemma_latest_used(ss, k - 1);
    }
}

/// The place of client `id` from `i` on; the end when it is not there.
pub open spec fn client_place(cs: Seq<Client>, id: ClientId, i: int) -> int
    decreases cs.len() - i,
{
    if i >= cs.len() {
        cs.len() as int
    } else if cs[i].id == id {
        i
    } else {
        client_place(cs, id, i + 1)
    }
}

pub proof fn lemma_client_place(cs: Seq<Client>, id: ClientId, i: int)
    requires
        0 <= i <= cs.len(),
    ensures
        i <= client_place(cs, id, i) <= cs.len(),
        client_place(cs, id, i) < cs.len() ==> cs[client_place(cs, id, i)].id == id,
        forall|j: int| i <= j < client_place(cs, id, i) ==> (#[trigger] cs[j]).id != id,
    decreases cs.len() - i,
{
    if i < cs.len() && cs[i].id != id {
        lemma_client_place(cs, id, i + 1);
    }
}

/// Pane `id` is in window `j` of session `i`.
pub open spec fn lives(ss: Seq<SessionState>, i: int, j: int, id: PaneId) -> bool {
    0 <= i < ss.len() && 0 <= j < ss[i].windows.len() && ss[i].windows[j].has(id)
}

/// Window `j` of session `i` is there, with number `id`.
pub open spec fn stands(ss: Seq<SessionState>, i: int, j: int, id: WindowId) -> bool {
    0 <= i < ss.len() && 0 <= j < ss[i].windows.len() && ss[i].windows[j].id == id
}

/// Pane `id` is in what was killed as number `k`.
pub open spec fn kept(ks: Seq<KilledState>, k: int, id: PaneId) -> bool {
    0 <= k < ks.len() && ks[k].has(id)
}

/// No pane is in two windows, and no window in two places.
pub open spec fn apart(ss: Seq<SessionState>) -> bool {
    &&& forall|i: int, j: int, k: int, l: int, id: PaneId| #[trigger]
        lives(ss, i, j, id) && #[trigger] lives(ss, k, l, id) ==> i == k && j == l
    &&& forall|i: int, j: int, k: int, l: int, id: WindowId| #[trigger]
        stands(ss, i, j, id) && #[trigger] stands(ss, k, l, id) ==> i == k && j == l
    &&& forall|i: int, j: int| 0 <= i < j < ss.len() ==> (#[trigger] ss[i]).id != (#[trigger] ss[j]).id
}

/// Every number in use is below `next`.
pub open spec fn numbered_below(ss: Seq<SessionState>, next: u32) -> bool {
    &&& forall|i: int, j: int, id: PaneId| #[trigger] lives(ss, i, j, id) ==> id < next
    &&& forall|i: int, j: int, id: WindowId| #[trigger] stands(ss, i, j, id) ==> id < next
    &&& forall|i: int| 0 <= i < ss.len() ==> (#[trigger] ss[i]).id < next
}

pub open spec fn sessions_wf(ss: Seq<SessionState>) -> bool {
    forall|i: int| 0 <= i < ss.len() ==> (#[trigger] ss[i]).wf()
}

/// Every client looks at a session there is, or at none; no two have one
/// number.
pub open spec fn clients_wf(cs: Seq<Client>, ss: Seq<SessionState>) -> bool {
    &&& forall|c: int|
        0 <= c < cs.len() && (#[trigger] cs[c]).session is Some ==> session_place(ss, cs[c].session->0, 0) < ss.len()
    &&& forall|c: int, d: int| 0 <= c < d < cs.len() ==> (#[trigger] cs[c]).id != (#[trigger] cs[d]).id
}

/// What is kept of what was killed: windows in order, and panes that are
/// nowhere else.
pub open spec fn killed_wf(ks: Seq<KilledState>, ss: Seq<SessionState>, next: u32) -> bool {
    &&& forall|k: int| 0 <= k < ks.len() ==> match #[trigger] ks[k] {
        KilledState::Window { window, .. } => window.wf() && window.id < next,
        KilledState::Pane { pane, tree, .. } => crate::layout::shape(tree) && panes(tree).no_duplicates() && panes(
            tree,
        ).contains(pane.id),
    }
    &&& forall|k: int, id: PaneId| #[trigger] kept(ks, k, id) ==> id < next
    &&& forall|k: int, l: int, id: PaneId| #[trigger] kept(ks, k, id) && #[trigger] kept(ks, l, id) ==> k == l
    &&& forall|k: int, i: int, j: int, id: PaneId| #[trigger] kept(ks, k, id) ==> !#[trigger] lives(ss, i, j, id)
    &&& forall|k: int, i: int, j: int|
        0 <= k < ks.len() && 0 <= i < ss.len() && 0 <= j < ss[i].windows.len() ==> match #[trigger] ks[k] {
            KilledState::Window { window, .. } => (#[trigger] ss[i].windows[j]).id != window.id,
            _ => true,
        }
    &&& forall|k: int, l: int|
        0 <= k < l < ks.len() ==> match (#[trigger] ks[k], #[trigger] ks[l]) {
            (KilledState::Window { window: a, .. }, KilledState::Window { window: b, .. }) => a.id != b.id,
            _ => true,
        }
}

/// The session a command is about: by a pane it names, by its name, number or
/// the beginning of its name; else the client's; else the one whose pane the
/// client runs in; else the one used last.
pub open spec fn session_for(
    ss: Seq<SessionState>,
    cs: Seq<Client>,
    pane_id: Option<PaneId>,
    name: Option<Seq<char>>,
    cid: Option<ClientId>,
) -> Result<int, Seq<char>> {
    let n = ss.len() as int;
    match pane_id {
        Some(id) => if session_with(ss, id, 0) < n {
            Ok(session_with(ss, id, 0))
        } else {
            Err("can't find pane: %"@ + decimal(id as nat))
        },
        None => match name {
            Some(name) => if session_called(ss, name, 0) < n {
                Ok(session_called(ss, name, 0))
            } else if sessions_begun(ss, name, 0).len() == 1 {
                Ok(sessions_begun(ss, name, 0)[0])
            } else {
                Err("can't find session: "@ + name)
            },
            None => {
                let c = match cid {
                    Some(id) => client_place(cs, id, 0),
                    None => cs.len() as int,
                };
                if c < cs.len() && cs[c].session is Some {
                    Ok(session_place(ss, cs[c].session->0, 0))
                } else if c < cs.len() && cs[c].pane_env is Some && session_with(ss, cs[c].pane_env->0, 0) < n {
                    Ok(session_with(ss, cs[c].pane_env->0, 0))
                } else if n == 0 {
                    Err("no sessions"@)
                } else {
                    Ok(latest_used(ss, n))
                }
            },
        },
    }
}

/// The pane of a window that a target names: by its number, or its place in
/// the layout counted from `base`; else the active one.
pub open spec fn pane_for(w: WindowState, pane_id: Option<PaneId>, pane: Option<usize>, base: usize) -> Result<
    PaneId,
    Seq<char>,
> {
    match pane_id {
        Some(id) => if w.has(id) {
            Ok(id)
        } else {
            Err("can't find pane: %"@ + decimal(id as nat))
        },
        None => match pane {
            None => Ok(w.active),
            Some(i) => if past(i, base) < panes(w.tree).len() {
                Ok(panes(w.tree)[past(i, base)])
            } else {
                Err("no pane "@ + decimal(i as nat))
            },
        },
    }
}

pub open spec fn session_part(t: Option<Target>) -> Option<Seq<char>> {
    match t {
        Some(t) => crate::observe::opt_text(t.session),
        None => None,
    }
}

pub open spec fn window_part(t: Option<Target>) -> Option<Seq<char>> {
    match t {
        Some(t) => crate::observe::opt_text(t.window),
        None => None,
    }
}

pub open spec fn pane_part(t: Option<Target>) -> Option<usize> {
    match t {
        Some(t) => t.pane,
        None => None,
    }
}

pub open spec fn pane_id_part(t: Option<Target>) -> Option<PaneId> {
    match t {
        Some(t) => t.pane_id,
        None => None,
    }
}

/// The target behind a reference, if there is one.
pub open spec fn aimed(t: Option<&Target>) -> Option<Target> {
    match t {
        Some(t) => Some(*t),
        None => None,
    }
}

/// A place: a session, one of its windows, and a pane of that.
pub ghost struct Place {
    pub session: int,
    pub window: int,
    pub pane: PaneId,
}

/// What a command is about.
pub open spec fn place_for(
    ss: Seq<SessionState>,
    cs: Seq<Client>,
    opts: Options,
    t: Option<Target>,
    cid: Option<ClientId>,
) -> Result<Place, Seq<char>> {
    match session_for(ss, cs, pane_id_part(t), session_part(t), cid) {
        Err(e) => Err(e),
        Ok(i) => match ss[i].window_named(pane_id_part(t), window_part(t), opts.base_index) {
            Err(e) => Err(e),
            Ok(j) => match pane_for(ss[i].windows[j], pane_id_part(t), pane_part(t), opts.pane_base_index) {
                Err(e) => Err(e),
                Ok(p) => Ok(Place { session: i, window: j, pane: p }),
            },
        },
    }
}

impl Server {
    pub open spec fn states(self) -> Seq<SessionState> {
        session_states(self.sessions@)
    }

    pub open spec fn killed_list(self) -> Seq<KilledState> {
        killed_states(self.killed@)
    }

    /// Everything is where it belongs: each pane in one window, each window
    /// in one session, each client at a session there is.
    pub open spec fn wf(self) -> bool {
        &&& sessions_wf(self.states())
        &&& apart(self.states())
        &&& numbered_below(self.states(), self.next_id)
        &&& clients_wf(self.clients@, self.states())
        &&& killed_wf(self.killed_list(), self.states(), self.next_id)
    }

    /// A server with nothing on it yet.
    pub fn new(opts: Options) -> (server: Server)
        ensures
            server.wf(),
            server.opts == opts,
            server.states().len() == 0 && server.clients@.len() == 0 && server.killed_list().len() == 0,
            server.next_id == 1 && server.marked is None && !server.had_session && !server.quit,
    {
        Server {
            opts,
            sessions: Vec::new(),
            clients: Vec::new(),
            next_id: 1,
            killed: Vec::new(),
            marked: None,
            had_session: false,
            quit: false,
        }
    }

    /// The place of a session, or the number of sessions.
    pub fn session_at(&self, id: SessionId) -> (k: usize)
        ensures
            k == session_place(self.states(), id, 0),
            k <= self.sessions@.len(),
            k < self.sessions@.len() ==> self.sessions@[k as int].id == id,
    {
        let mut i: usize = 0;
        while i < self.sessions.len()
            invariant
                i <= self.sessions@.len(),
                session_place(self.states(), id, 0) == session_place(self.states(), id, i as int),
            decreases self.sessions.len() - i,
        {
            assert(self.states()[i as int] == self.sessions@[i as int]@);
            if self.sessions[i].id == id {
                return i;
            }
            i = i + 1;
        }
        i
    }

    /// The place of a client, or the number of clients.
    pub fn client_at(&self, id: ClientId) -> (k: usize)
        ensures
            k == client_place(self.clients@, id, 0),
            k <= self.clients@.len(),
            k < self.clients@.len() ==> self.clients@[k as int].id == id,
    {
        let mut i: usize = 0;
        while i < self.clients.len()
            invariant
                i <= self.clients@.len(),
                client_place(self.clients@, id, 0) == client_place(self.clients@, id, i as int),
            decreases self.clients.len() - i,
        {
            if self.clients[i].id == id {
                return i;
            }
            i = i + 1;
        }
        i
    }

    /// The place of the session that has a pane, or the number of sessions.
    pub fn session_with_pane(&self, id: PaneId) -> (k: usize)
        ensures
            k == session_with(self.states(), id, 0),
            k <= self.sessions@.len(),
    {
        let mut i: usize = 0;
        while i < self.sessions.len()
            invariant
                i <= self.sessions@.len(),
                session_with(self.states(), id, 0) == session_with(self.states(), id, i as int),
            decreases self.sessions.len() - i,
        {
            assert(self.states()[i as int] == self.sessions@[i as int]@);
            if self.sessions[i].place_with(id) < self.sessions[i].windows.len() {
                return i;
            }
            i = i + 1;
        }
        i
    }

    /// The session that has a pane.
    pub fn session_of_pane(&self, id: PaneId) -> (sid: Option<SessionId>)
        ensures
            match sid {
                Some(s) => session_with(self.states(), id, 0) < self.states().len() && s
                    == self.states()[session_with(self.states(), id, 0)].id,
                None => session_with(self.states(), id, 0) >= self.states().len(),
            },
    {
        let k: usize = self.session_with_pane(id);
        if k < self.sessions.len() {
            assert(self.states()[k as int] == self.sessions@[k as int]@);
            Some(self.sessions[k].id)
        } else {
            None
        }
    }

    /// The session and the place of the window that has a pane.
    pub fn window_of_pane(&self, id: PaneId) -> (found: Option<(SessionId, usize)>)
        ensures
            match found {
                Some((s, w)) => {
                    let i = session_with(self.states(), id, 0);
                    &&& i < self.states().len()
                    &&& s == self.states()[i].id
                    &&& w == window_with(self.states()[i].windows, id, 0)
                },
                None => session_with(self.states(), id, 0) >= self.states().len(),
            },
    {
        let k: usize = self.session_with_pane(id);
        if k < self.sessions.len() {
            assert(self.states()[k as int] == self.sessions@[k as int]@);
            Some((self.sessions[k].id, self.sessions[k].place_with(id)))
        } else {
            None
        }
    }

    fn session_by_name(&self, name: &str) -> (r: Result<usize, String>)
        ensures
            match (r, session_for(self.states(), self.clients@, None, Some(name@), None)) {
                (Ok(a), Ok(b)) => a == b && a < self.sessions@.len(),
                (Err(a), Err(b)) => a@ == b,
                _ => false,
            },
    {
        let ghost ss = self.states();
        let number = number_behind(name, '$');
        let word = chars_of(name);
        let n: usize = self.sessions.len();
        let mut i: usize = 0;
        while i < n
            invariant
                i <= n == self.sessions@.len(),
                ss == self.states(),
                match number {
                    Some(v) => id_behind(name@, '$') == Some(v as int),
                    None => id_behind(name@, '$') is None,
                },
                session_called(ss, name@, 0) == session_called(ss, name@, i as int),
            decreases n - i,
        {
            assert(ss[i as int] == self.sessions@[i as int]@);
            let by_number: bool = match number {
                Some(v) => v == self.sessions[i].id,
                None => false,
            };
            if by_number || same_text(self.sessions[i].name.as_str(), name) {
                return Ok(i);
            }
            i = i + 1;
        }
        // A beginning that only one session's name has.
        let mut hits: usize = 0;
        let mut hit: usize = 0;
        let mut k: usize = n;
        assert(sessions_begun(ss, name@, n as int) =~= Seq::<int>::empty());
        while k > 0
            invariant
                k <= n == self.sessions@.len(),
                ss == self.states(),
                word@ == name@,
                hits == sessions_begun(ss, name@, k as int).len(),
                hits <= n - k,
                hits > 0 ==> hit == sessions_begun(ss, name@, k as int)[0] && hit < n,
            decreases k,
        {
            k = k - 1;
            assert(ss[k as int] == self.sessions@[k as int]@);
            if begins_with(&chars_of(self.sessions[k].name.as_str()), &word) {
                hits = hits + 1;
                hit = k;
            }
        }
        if hits == 1 {
            Ok(hit)
        } else {
            Err(joined2("can't find session: ", name))
        }
    }

    fn latest_session(&self) -> (k: usize)
        requires
            self.sessions@.len() > 0,
        ensures
            k == latest_used(self.states(), self.sessions@.len() as int),
            k < self.sessions@.len(),
    {
        let ghost ss = self.states();
        let mut best: usize = 0;
        let mut i: usize = 1;
        while i < self.sessions.len()
            invariant
                1 <= i <= self.sessions@.len(),
                ss == self.states(),
                best < i,
                best == latest_used(ss, i as int),
            decreases self.sessions.len() - i,
        {
            assert(ss[i as int] == self.sessions@[i as int]@);
            assert(ss[best as int] == self.sessions@[best as int]@);
            if self.sessions[i].last_used >= self.sessions[best].last_used {
                best = i;
            }
            i = i + 1;
        }
        best
    }

    /// The place of the session a command is about.
    pub fn find_session(&self, target: Option<&Target>, cid: Option<ClientId>) -> (r: Result<usize, String>)
        requires
            clients_wf(self.clients@, self.states()),
        ensures
            match (r, session_for(
                self.states(),
                self.clients@,
                pane_id_part(aimed(target)),
                session_part(aimed(target)),
                cid,
            )) {
                (Ok(a), Ok(b)) => a == b && a < self.sessions@.len(),
                (Err(a), Err(b)) => a@ == b,
                _ => false,
            },
    {
        if let Some(t) = target {
            if let Some(id) = t.pane_id {
                let k: usize = self.session_with_pane(id);
                if k < self.sessions.len() {
                    return Ok(k);
                }
                return Err(joined2("can't find pane: %", number_text(id as u64).as_str()));
            }
            if let Some(name) = &t.session {
                return self.session_by_name(name.as_str());
            }
        }
        if let Some(id) = cid {
            let c: usize = self.client_at(id);
            if c < self.clients.len() {
                if let Some(s) = self.clients[c].session {
                    return Ok(self.session_at(s));
                }
                if let Some(p) = self.clients[c].pane_env {
                    let k: usize = self.session_with_pane(p);
                    if k < self.sessions.len() {
                        return Ok(k);
                    }
                }
            }
        }
        if self.sessions.len() == 0 {
            return Err("no sessions".to_owned());
        }
        Ok(self.latest_session())
    }

    /// The session a command is about.
    pub fn resolve_session(&self, target: Option<&Target>, cid: Option<ClientId>) -> (r: Result<SessionId, String>)
        requires
            clients_wf(self.clients@, self.states()),
        ensures
            match (r, session_for(
                self.states(),
                self.clients@,
                pane_id_part(aimed(target)),
                session_part(aimed(target)),
                cid,
            )) {
                (Ok(a), Ok(b)) => 0 <= b < self.states().len() && a == self.states()[b].id,
                (Err(a), Err(b)) => a@ == b,
                _ => false,
            },
    {
        match self.find_session(target, cid) {
            Ok(i) => {
                assert(self.states()[i as int] == self.sessions@[i as int]@);
                Ok(self.sessions[i].id)
            },
            Err(e) => Err(e),
        }
    }

    /// The place of the window a command is about, in session `sid`.
    pub fn resolve_window(&self, sid: SessionId, target: Option<&Target>) -> (r: Result<usize, String>)
        requires
            sessions_wf(self.states()),
        ensures
            ({
                let i = session_place(self.states(), sid, 0);
                if i >= self.states().len() {
                    r is Err && r->Err_0@ == "no such session"@
                } else {
                    match (r, self.states()[i].window_named(
                        pane_id_part(aimed(target)),
                        window_part(aimed(target)),
                        self.opts.base_index,
                    )) {
                        (Ok(a), Ok(b)) => a == b && a < self.states()[i].windows.len(),
                        (Err(a), Err(b)) => a@ == b,
                        _ => false,
                    }
                }
            }),
    {
        let i: usize = self.session_at(sid);
        if i >= self.sessions.len() {
            return Err("no such session".to_owned());
        }
        self.window_in(i, target)
    }

    pub fn window_in(&self, i: usize, target: Option<&Target>) -> (r: Result<usize, String>)
        requires
            sessions_wf(self.states()),
            i < self.sessions@.len(),
        ensures
            match (r, self.states()[i as int].window_named(
                pane_id_part(aimed(target)),
                window_part(aimed(target)),
                self.opts.base_index,
            )) {
                (Ok(a), Ok(b)) => a == b && a < self.states()[i as int].windows.len(),
                (Err(a), Err(b)) => a@ == b,
                _ => false,
            },
    {
        assert(self.states()[i as int] == self.sessions@[i as int]@);
        let base: usize = self.opts.base_index;
        match target {
            Some(t) => match &t.window {
                Some(w) => self.sessions[i].resolve_window(t.pane_id, Some(w.as_str()), base),
                None => self.sessions[i].resolve_window(t.pane_id, None, base),
            },
            None => self.sessions[i].resolve_window(None, None, base),
        }
    }

    pub fn pane_in(&self, i: usize, j: usize, target: Option<&Target>) -> (r: Result<PaneId, String>)
        requires
            sessions_wf(self.states()),
            i < self.sessions@.len(),
            j < self.states()[i as int].windows.len(),
        ensures
            match (r, pane_for(
                self.states()[i as int].windows[j as int],
                pane_id_part(aimed(target)),
                pane_part(aimed(target)),
                self.opts.pane_base_index,
            )) {
                (Ok(a), Ok(b)) => a == b && self.states()[i as int].windows[j as int].has(a),
                (Err(a), Err(b)) => a@ == b,
                _ => false,
            },
    {
        let ghost w = self.states()[i as int].windows[j as int];
        assert(self.states()[i as int] == self.sessions@[i as int]@);
        assert(w == self.sessions@[i as int].windows@[j as int]@);
        assert(self.states()[i as int].wf());
        assert(w.settled());
        let mut number: Option<PaneId> = None;
        let mut place: Option<usize> = None;
        if let Some(t) = target {
            number = t.pane_id;
            place = t.pane;
        }
        if let Some(id) = number {
            if self.sessions[i].windows[j].has(id) {
                return Ok(id);
            }
            return Err(joined2("can't find pane: %", number_text(id as u64).as_str()));
        }
        match place {
            None => Ok(self.sessions[i].windows[j].active),
            Some(p) => {
                let order = self.sessions[i].windows[j].layout.panes();
                let k: usize = p.wrapping_sub(self.opts.pane_base_index);
                if k < order.len() {
                    assert(panes(w.tree).contains(order@[k as int]));
                    Ok(order[k])
                } else {
                    Err(joined2("no pane ", number_text(p as u64).as_str()))
                }
            },
        }
    }

    /// The pane a command is about, in a window of a session.
    pub fn resolve_pane(&self, sid: SessionId, widx: usize, target: Option<&Target>) -> (r: Result<PaneId, String>)
        requires
            sessions_wf(self.states()),
        ensures
            ({
                let i = session_place(self.states(), sid, 0);
                if i >= self.states().len() {
                    r is Err && r->Err_0@ == "no such session"@
                } else if widx >= self.states()[i].windows.len() {
                    r is Err && r->Err_0@ == "no such window"@
                } else {
                    match (r, pane_for(
                        self.states()[i].windows[widx as int],
                        pane_id_part(aimed(target)),
                        pane_part(aimed(target)),
                        self.opts.pane_base_index,
                    )) {
                        (Ok(a), Ok(b)) => a == b,
                        (Err(a), Err(b)) => a@ == b,
                        _ => false,
                    }
                }
            }),
    {
        let i: usize = self.session_at(sid);
        if i >= self.sessions.len() {
            return Err("no such session".to_owned());
        }
        assert(self.states()[i as int] == self.sessions@[i as int]@);
        if widx >= self.sessions[i].windows.len() {
            return Err("no such window".to_owned());
        }
        self.pane_in(i, widx, target)
    }

    /// The places of the session and the window a command is about, and the
    /// pane.
    pub fn find_place(&self, target: Option<&Target>, cid: Option<ClientId>) -> (r: Result<
        (usize, usize, PaneId),
        String,
    >)
        requires
            sessions_wf(self.states()),
            clients_wf(self.clients@, self.states()),
        ensures
            match (r, place_for(self.states(), self.clients@, self.opts, aimed(target), cid)) {
                (Ok(a), Ok(b)) => {
                    &&& a.0 == b.session
                    &&& a.1 == b.window
                    &&& a.2 == b.pane
                    &&& a.0 < self.states().len()
                    &&& a.1 < self.states()[a.0 as int].windows.len()
                    &&& self.states()[a.0 as int].windows[a.1 as int].has(a.2)
                },
                (Err(a), Err(b)) => a@ == b,
                _ => false,
            },
    {
        let i: usize = match self.find_session(target, cid) {
            Ok(i) => i,
            Err(e) => {
                return Err(e);
            },
        };
        let j: usize = match self.window_in(i, target) {
            Ok(j) => j,
            Err(e) => {
                return Err(e);
            },
        };
        match self.pane_in(i, j, target) {
            Ok(p) => Ok((i, j, p)),
            Err(e) => Err(e),
        }
    }

    /// The session, window place and pane a command is about.
    pub fn resolve(&self, target: Option<&Target>, cid: Option<ClientId>) -> (r: Result<
        (SessionId, usize, PaneId),
        String,
    >)
        requires
            sessions_wf(self.states()),
            clients_wf(self.clients@, self.states()),
        ensures
            match (r, place_for(self.states(), self.clients@, self.opts, aimed(target), cid)) {
                (Ok(a), Ok(b)) => 0 <= b.session < self.states().len() && a.0 == self.states()[b.session].id && a.1
                    == b.window && a.2 == b.pane,
                (Err(a), Err(b)) => a@ == b,
                _ => false,
            },
    {
        match self.find_place(target, cid) {
            Ok((i, j, p)) => {
                assert(self.states()[i as int] == self.sessions@[i as int]@);
                Ok((self.sessions[i].id, j, p))
            },
            Err(e) => Err(e),
        }
    }

    /// The part of a screen that a window has.
    pub fn window_area(&self, cols: u16, rows: u16) -> (r: Rect)
        ensures
            r == area_of(self.opts, cols, rows),
            r.fits(),
    {
        if self.opts.status && rows > 1 {
            Rect { x: 0, y: if self.opts.status_top { 1 } else { 0 }, w: cols, h: rows - 1 }
        } else {
            Rect { x: 0, y: 0, w: cols, h: rows }
        }
    }

    /// Whether `pane-border-status` reserves a row of each pane.
    pub fn border_rows(&self) -> (b: Option<bool>)
        ensures
            b == border_of(self.opts),
    {
        if same_text(self.opts.pane_border_status.as_str(), "top") {
            Some(true)
        } else if same_text(self.opts.pane_border_status.as_str(), "bottom") {
            Some(false)
        } else {
            None
        }
    }
}

} // verus!
