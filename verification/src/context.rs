//! What formats are told of the server, a session, a window and a pane.
use vstd::prelude::*;

use crate::arrange::{place_in, position};
use crate::attending::client_named;
use crate::chooser::{ClientId, SessionId, WindowId};
use crate::client::Client;
use crate::layout::{panes, PaneId, Rect};
use crate::layout_text::{layout_string, layout_text};
use crate::listings::attached_to;
use crate::pane::Pane;
use crate::server::{area_of, session_place, Server};
use crate::session::SessionState;
use crate::text::{decimal, join_texts, joined2, joined_by, number_text, texts_of};
use crate::window::{lemma_place_of, place_of, rect_in, WindowState};

verus! {

/// The two clocks: milliseconds of the server's own, and seconds of the
/// world's.
#[derive(Clone, Copy, Debug, PartialEq, Eq, Structural)]
pub struct Clock {
    pub ms: u64,
    pub unix: i64,
}

/// A moment of the server's clock in the world's seconds.
pub open spec fn unix(at: u64, now: Clock) -> int {
    now.unix - if now.ms > at {
        (now.ms - at) / 1000
    } else {
        0
    }
}

fn to_unix(at: u64, now: &Clock) -> (t: i64)
    requires
        now.unix >= 0,
    ensures
        t == unix(at, *now),
{
    let ago: u64 = if now.ms > at { (now.ms - at) / 1000 } else { 0 };
    now.unix - ago as i64
}

/// What is said of a session.
#[derive(Debug)]
pub struct SessionFacts {
    pub name: String,
    pub id: SessionId,
    pub windows: usize,
    pub attached: usize,
    pub created: i64,
    pub activity: i64,
    pub last_attached: i64,
}

/// What is said of a client.
#[derive(Debug)]
pub struct ClientFacts {
    pub width: u16,
    pub height: u16,
    pub name: String,
    pub session: String,
    pub created: i64,
    pub activity: i64,
    pub prefix: bool,
}

/// What is said of a window.
#[derive(Debug)]
pub struct WindowFacts {
    pub name: String,
    pub id: WindowId,
    pub index: u128,
    pub panes: usize,
    pub active: bool,
    pub last: bool,
    pub zoomed: bool,
    pub width: u16,
    pub height: u16,
    pub bell: bool,
    pub activity: bool,
    pub silence: bool,
    pub flags: String,
    pub activity_time: i64,
    /// The first, and the last, of its session.
    pub start: bool,
    pub end: bool,
    /// The layout as text, which `select-layout` takes back.
    pub layout: String,
    pub synchronized: bool,
}

/// What is said of a pane.
#[derive(Debug)]
pub struct PaneFacts {
    pub index: u128,
    pub id: PaneId,
    pub active: bool,
    pub title: String,
    pub command: String,
    pub start_command: String,
    pub width: u16,
    pub height: u16,
    pub dead_status: Option<u32>,
    pub in_mode: bool,
    pub pid: Option<u32>,
    pub start_time: i64,
    pub activity: i64,
    pub output_count: u64,
    pub dead_time: i64,
    pub last: bool,
}

/// Where a pane is in its window, and which of the window's edges it touches.
#[derive(Clone, Copy, Debug, PartialEq, Eq, Structural)]
pub struct Edges {
    pub top: u16,
    pub left: u16,
    pub bottom: u16,
    pub right: u16,
    pub at_top: bool,
    pub at_left: bool,
    pub at_bottom: bool,
    pub at_right: bool,
}

/// What a format is told.
#[derive(Debug)]
pub struct Context {
    pub session: Option<SessionFacts>,
    pub client: Option<ClientFacts>,
    pub window: Option<WindowFacts>,
    pub pane: Option<PaneFacts>,
    pub edges: Option<Edges>,
}

/// When the first `k` windows of a session last printed.
pub open spec fn last_activity(ws: Seq<WindowState>, now: Clock, k: int) -> int
    decreases k,
{
    if k <= 1 {
        unix(ws[0].last_output, now)
    } else {
        let before = last_activity(ws, now, k - 1);
        let this = unix(ws[k - 1].last_output, now);
        if this > before {
            this
        } else {
            before
        }
    }
}

/// The facts of a session.
pub open spec fn tells_session(f: SessionFacts, s: SessionState, cs: Seq<Client>, now: Clock) -> bool {
    &&& f.name@ == s.name
    &&& f.id == s.id
    &&& f.windows == s.windows.len()
    &&& f.attached == attached_to(cs, s.id, cs.len() as int)
    &&& f.created == s.created_at
    &&& f.activity == if s.windows.len() == 0 {
        s.created_at as int
    } else {
        last_activity(s.windows, now, s.windows.len() as int)
    }
    &&& f.last_attached == unix(s.last_used, now)
}

/// The facts of a client.
pub open spec fn tells_client(f: ClientFacts, c: Client, ss: Seq<SessionState>, now: Clock) -> bool {
    &&& f.width == c.cols
    &&& f.height == c.rows
    &&& f.name@ == "client-"@ + decimal(c.id as nat)
    &&& f.session@ == match c.session {
        Some(sid) => if session_place(ss, sid, 0) < ss.len() {
            ss[session_place(ss, sid, 0)].name
        } else {
            Seq::empty()
        },
        None => Seq::empty(),
    }
    &&& f.created == unix(c.created, now)
    &&& f.activity == unix(c.last_activity, now)
    &&& f.prefix == c.prefix
}

/// The facts of window `j` of a session.
pub open spec fn tells_window(f: WindowFacts, s: SessionState, j: int, base: usize, now: Clock) -> bool {
    let w = s.windows[j];
    &&& f.name@ == w.name
    &&& f.id == w.id
    &&& f.index == j + base
    &&& f.panes == w.panes.len()
    &&& f.active == (j == s.cur)
    &&& f.last == (s.last == Some(w.id))
    &&& f.zoomed == w.zoomed
    &&& f.width == s.cols
    &&& f.height == s.rows
    &&& f.bell == w.bell
    &&& f.activity == w.activity
    &&& f.silence == w.silence
    &&& f.flags@ == w.flag_text(j == s.cur, s.last == Some(w.id))
    &&& f.activity_time == unix(w.last_output, now)
    &&& f.start == (j == 0)
    &&& f.end == (j + 1 == s.windows.len())
    &&& f.layout@ == layout_text(w.tree, w.rects)
    &&& f.synchronized == w.synchronized
}

/// The facts of pane `p` of window `w`.
pub open spec fn tells_pane(f: PaneFacts, w: WindowState, p: Pane, base: usize, now: Clock) -> bool {
    let place = place_in(panes(w.tree), p.id, 0);
    &&& f.index == base + if place < panes(w.tree).len() {
        place
    } else {
        0
    }
    &&& f.id == p.id
    &&& f.active == (p.id == w.active)
    &&& f.title@ == p.shown_title()
    &&& f.command@ == p.command@
    &&& f.start_command@ == joined_by(texts_of(p.argv@), " "@, p.argv@.len() as int)
    &&& f.width == p.cols
    &&& f.height == p.rows
    &&& f.dead_status == p.exit_code
    &&& f.in_mode == p.copy is Some
    &&& f.pid == p.pid
    &&& f.start_time == unix(p.spawned_at, now)
    &&& f.activity == unix(p.last_output, now)
    &&& f.output_count == p.output_count
    &&& f.dead_time == match p.died_at {
        Some(t) => unix(t, now),
        None => 0,
    }
    &&& f.last == (w.last_pane == Some(p.id))
}

/// `a - b`, or nothing.
pub open spec fn less(a: int, b: int) -> int {
    if a > b {
        a - b
    } else {
        0
    }
}

/// Where a rectangle is in an area.
pub open spec fn tells_edges(e: Edges, r: Rect, area: Rect) -> bool {
    &&& e.top == less(r.y as int, area.y as int)
    &&& e.left == less(r.x as int, area.x as int)
    &&& e.bottom == less(r.y + r.h, area.y + 1)
    &&& e.right == less(r.x + r.w, area.x + 1)
    &&& e.at_top == (r.y <= area.y)
    &&& e.at_left == (r.x <= area.x)
    &&& e.at_bottom == (r.y + r.h >= area.y + area.h)
    &&& e.at_right == (r.x + r.w >= area.x + area.w)
}

fn edges_of(r: Rect, area: Rect) -> (e: Edges)
    requires
        r.fits(),
        area.fits(),
    ensures
        tells_edges(e, r, area),
{
    let foot: u16 = r.y + r.h;
    let side: u16 = r.x + r.w;
    Edges {
        top: r.y.saturating_sub(area.y),
        left: r.x.saturating_sub(area.x),
        bottom: if foot > area.y { foot - area.y - 1 } else { 0 },
        right: if side > area.x { side - area.x - 1 } else { 0 },
        at_top: r.y <= area.y,
        at_left: r.x <= area.x,
        at_bottom: foot >= area.y + area.h,
        at_right: side >= area.x + area.w,
    }
}

impl Server {
    fn session_facts(&self, i: usize, now: &Clock) -> (f: SessionFacts)
        requires
            i < self.sessions@.len(),
            now.unix >= 0,
        ensures
            tells_session(f, self.states()[i as int], self.clients@, *now),
    {
        let s = &self.sessions[i];
        assert(self.states()[i as int] == s@);
        let mut activity: i64 = s.created_at;
        let mut k: usize = 0;
        while k < s.windows.len()
            invariant
                k <= s.windows@.len(),
                now.unix >= 0,
                activity == if k == 0 {
                    s.created_at as int
                } else {
                    last_activity(s@.windows, *now, k as int)
                },
            decreases s.windows.len() - k,
        {
            assert(s@.windows[k as int] == s.windows@[k as int]@);
            let t: i64 = to_unix(s.windows[k].last_output, now);
            if k == 0 || t > activity {
                activity = t;
            }
            k = k + 1;
        }
        SessionFacts {
            name: s.name.as_str().to_owned(),
            id: s.id,
            windows: s.windows.len(),
            attached: self.attached(s.id),
            created: s.created_at,
            activity,
            last_attached: to_unix(s.last_used, now),
        }
    }

    fn client_facts(&self, k: usize, now: &Clock) -> (f: ClientFacts)
        requires
            k < self.clients@.len(),
            now.unix >= 0,
        ensures
            tells_client(f, self.clients@[k as int], self.states(), *now),
    {
        let c = &self.clients[k];
        let mut session = String::new();
        assert(session@ =~= Seq::<char>::empty());
        if let Some(sid) = c.session {
            let i: usize = self.session_at(sid);
            if i < self.sessions.len() {
                assert(self.states()[i as int] == self.sessions@[i as int]@);
                session = self.sessions[i].name.as_str().to_owned();
            }
        }
        ClientFacts {
            width: c.cols,
            height: c.rows,
            name: joined2("client-", number_text(c.id as u64).as_str()),
            session,
            created: to_unix(c.created, now),
            activity: to_unix(c.last_activity, now),
            prefix: c.prefix,
        }
    }

    fn window_facts(&self, i: usize, j: usize, now: &Clock) -> (f: WindowFacts)
        requires
            self.wf(),
            i < self.sessions@.len(),
            j < self.states()[i as int].windows.len(),
            now.unix >= 0,
        ensures
            tells_window(f, self.states()[i as int], j as int, self.opts.base_index, *now),
    {
        let s = &self.sessions[i];
        assert(self.states()[i as int] == s@);
        let w = &s.windows[j];
        assert(s@.windows[j as int] == w@);
        assert(s@.wf());
        assert(w@.settled());
        assert(w@.rects == w.rects@);
        assert(crate::layout_text::rects_fit(w.rects@));
        let last: bool = match s.last {
            Some(l) => l == w.id,
            None => false,
        };
        WindowFacts {
            name: w.name.as_str().to_owned(),
            id: w.id,
            index: j as u128 + self.opts.base_index as u128,
            panes: w.panes.len(),
            active: j == s.cur,
            last,
            zoomed: w.zoomed,
            width: s.cols,
            height: s.rows,
            bell: w.alert_bell,
            activity: w.alert_activity,
            silence: w.alert_silence,
            flags: w.flags(j == s.cur, last),
            activity_time: to_unix(w.last_output, now),
            start: j == 0,
            end: j == s.windows.len() - 1,
            layout: layout_string(&w.layout, w.rects.as_slice()),
            synchronized: w.synchronized,
        }
    }

    fn pane_facts(&self, i: usize, j: usize, k: usize, now: &Clock) -> (f: PaneFacts)
        requires
            i < self.sessions@.len(),
            j < self.states()[i as int].windows.len(),
            k < self.states()[i as int].windows[j as int].panes.len(),
            now.unix >= 0,
        ensures
            ({
                let w = self.states()[i as int].windows[j as int];
                tells_pane(f, w, w.panes[k as int], self.opts.pane_base_index, *now)
            }),
    {
        let s = &self.sessions[i];
        assert(self.states()[i as int] == s@);
        let w = &s.windows[j];
        assert(s@.windows[j as int] == w@);
        let p = &w.panes[k];
        let order = w.layout.panes();
        let place: usize = position(&order, p.id);
        let place: usize = if place < order.len() { place } else { 0 };
        PaneFacts {
            index: place as u128 + self.opts.pane_base_index as u128,
            id: p.id,
            active: p.id == w.active,
            title: p.display_title().to_owned(),
            command: p.command.as_str().to_owned(),
            start_command: join_texts(&p.argv, " "),
            width: p.cols,
            height: p.rows,
            dead_status: p.exit_code,
            in_mode: p.copy.is_some(),
            pid: p.pid,
            start_time: to_unix(p.spawned_at, now),
            activity: to_unix(p.last_output, now),
            output_count: p.output_count,
            dead_time: match p.died_at {
                Some(t) => to_unix(t, now),
                None => 0,
            },
            last: match w.last_pane {
                Some(l) => l == p.id,
                None => false,
            },
        }
    }

    /// What a format is told of a session, one of its windows, one of its
    /// panes (the active one when none is named), and a client.
    #[verifier::spinoff_prover]
    pub fn context(&self, sid: SessionId, widx: usize, pid: Option<PaneId>, cid: Option<ClientId>, now: &Clock) -> (
        ctx: Context)
        requires
            self.wf(),
            now.unix >= 0,
        ensures
            ({
                let ss = self.states();
                let i = session_place(ss, sid, 0);
                let c = client_named(self.clients@, cid);
                &&& ctx.session is Some == (i < ss.len())
                &&& ctx.session is Some ==> tells_session(ctx.session->0, ss[i], self.clients@, *now)
                &&& ctx.client is Some == (i < ss.len() && c is Some)
                &&& ctx.client is Some ==> tells_client(ctx.client->0, c->0, ss, *now)
                &&& ctx.window is Some == (i < ss.len() && widx < ss[i].windows.len())
                &&& ctx.window is Some ==> tells_window(
                    ctx.window->0,
                    ss[i],
                    widx as int,
                    self.opts.base_index,
                    *now,
                )
                &&& ctx.window is None ==> ctx.pane is None && ctx.edges is None
                &&& ctx.window is Some ==> {
                    let w = ss[i].windows[widx as int];
                    let id = match pid {
                        Some(p) => p,
                        None => w.active,
                    };
                    let r = rect_in(w.rects, id, 0);
                    &&& ctx.pane is Some == w.has(id)
                    &&& ctx.pane is Some ==> tells_pane(
                        ctx.pane->0,
                        w,
                        w.panes[place_of(w.panes, id, 0)],
                        self.opts.pane_base_index,
                        *now,
                    )
                    &&& ctx.edges is Some == r is Some
                    &&& ctx.edges is Some ==> tells_edges(
                        ctx.edges->0,
                        r->0,
                        area_of(self.opts, ss[i].cols, ss[i].rows),
                    )
                }
            }),
    {
        let mut ctx = Context { session: None, client: None, window: None, pane: None, edges: None };
        let i: usize = self.session_at(sid);
        if i >= self.sessions.len() {
            return ctx;
        }
        let ghost s = self.states()[i as int];
        assert(s == self.sessions@[i as int]@);
        assert(s.wf());
        ctx.session = Some(self.session_facts(i, now));
        if let Some(c) = cid {
            let k: usize = self.client_at(c);
            if k < self.clients.len() {
                ctx.client = Some(self.client_facts(k, now));
            }
        }
        if widx >= self.sessions[i].windows.len() {
            return ctx;
        }
        let w = &self.sessions[i].windows[widx];
        assert(s.windows[widx as int] == w@);
        assert(w@.settled());
        ctx.window = Some(self.window_facts(i, widx, now));
        let id: PaneId = match pid {
            Some(p) => p,
            None => w.active,
        };
        let k: usize = w.place(id);
        proof {
            lemma_place_of(w@.panes, id, 0);
        }
        if k < w.panes.len() {
            ctx.pane = Some(self.pane_facts(i, widx, k, now));
        }
        if let Some(r) = w.rect_of(id) {
            proof {
                lemma_rect_fits(w@.rects, id, 0);
            }
            let area: Rect = self.window_area(self.sessions[i].cols, self.sessions[i].rows);
            ctx.edges = Some(edges_of(r, area));
        }
        ctx
    }
}

proof fn lemma_rect_fits(rects: Seq<(PaneId, Rect)>, id: PaneId, i: int)
    requires
        0 <= i,
        forall|k: int| 0 <= k < rects.len() ==> (#[trigger] rects[k]).1.fits(),
    ensures
        rect_in(rects, id, i) is Some ==> rect_in(rects, id, i)->0.fits(),
    decreases rects.len() - i,
{
    if i < rects.len() {
        assert(rects[i].1.fits());
        lemma_rect_fits(rects, id, i + 1);
    }
}

} // verus!
