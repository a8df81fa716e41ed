//! The commands that change a window or which one is current, and nothing
//! about where panes are.
use vstd::prelude::*;

use crate::arrange::{is_laid_by, is_picked, told, PaneSel};
use crate::chooser::ClientId;
use crate::command::{Dir, Ended, Outcome, Target};
use crate::layout::{panes, PaneId, Rect};
use crate::popup::{parse_size, size_of};
use crate::preset::Preset;
use crate::server::{aimed, area_of, border_of, pane_id_part, place_for, session_for, session_part, window_part, Server};
use crate::server_edit::{at, edited, lemma_clients_stay, lemma_edited, put_window, relaid};
use crate::session::SessionState;
use crate::text::joined3;
use crate::undo::lemma_selected;
use crate::window::{ids, WindowState};

verus! {

/// A change of one window that brings no pane in.
pub proof fn lemma_window_set(before: Server, after: Server, i: int, j: int, w: WindowState)
    requires
        before.wf(),
        at(before.states(), i, j),
        after == (Server { sessions: after.sessions, ..before }),
        after.sessions@.len() == before.sessions@.len(),
        forall|k: int| 0 <= k < before.sessions@.len() && k != i ==> after.sessions@[k] == before.sessions@[k],
        after.sessions@[i]@ == put_window(before.states()[i], j, w),
        w.wf(),
        w.id == before.states()[i].windows[j].id,
        forall|id: PaneId| #[trigger] w.has(id) ==> before.states()[i].windows[j].has(id),
    ensures
        after.states() == edited(before.states(), i, j, w),
        after.sound(),
        forall|k: int| 0 <= k < after.states().len() && k != i ==> (#[trigger] after.states()[k]).wf(),
        w.settled() ==> after.wf(),
{
    let ss = before.states();
    assert forall|k: int| 0 <= k < ss.len() implies (#[trigger] ss[k]).sound() by {
        assert(ss[k].wf());
    }
    assert(after.states() =~= edited(ss, i, j, w));
    lemma_edited(ss, i, j, w, before.next_id, before.killed_list());
    lemma_clients_stay(after.clients@, ss, after.states());
}

/// Putting the same window in place changes nothing.
proof fn lemma_edited_same(ss: Seq<SessionState>, i: int, j: int)
    requires
        at(ss, i, j),
    ensures
        edited(ss, i, j, ss[i].windows[j]) == ss,
{
    assert(ss[i].windows.update(j, ss[i].windows[j]) =~= ss[i].windows);
    assert(edited(ss, i, j, ss[i].windows[j]) =~= ss);
}

impl Server {
    /// `select-window`: make a window of a session the current one.
    pub fn select_window(&mut self, target: Option<&Target>, cid: Option<ClientId>) -> (out: Outcome)
        requires
            old(self).wf(),
        ensures
            final(self).wf(),
            match session_for(
                old(self).states(),
                old(self).clients@,
                pane_id_part(aimed(target)),
                session_part(aimed(target)),
                cid,
            ) {
                Err(e) => out@ == Ended::Error(e) && *final(self) == *old(self),
                Ok(i) => match old(self).states()[i].window_named(
                    pane_id_part(aimed(target)),
                    window_part(aimed(target)),
                    old(self).opts.base_index,
                ) {
                    Err(e) => out@ == Ended::Error(e) && *final(self) == *old(self),
                    Ok(j) => {
                        &&& out@ == Ended::Done
                        &&& final(self).states() == old(self).states().update(
                            i,
                            old(self).states()[i].with_current(j),
                        )
                        &&& *final(self) == (Server { sessions: final(self).sessions, ..*old(self) })
                    },
                },
            },
    {
        let i: usize = match self.find_session(target, cid) {
            Ok(i) => i,
            Err(e) => {
                return Outcome::Error(e);
            },
        };
        match self.window_in(i, target) {
            Err(e) => Outcome::Error(e),
            Ok(j) => {
                self.make_current(i, j);
                Outcome::Done
            },
        }
    }

    /// Make window `j` of session `i` the current one.
    pub fn make_current(&mut self, i: usize, j: usize)
        requires
            old(self).wf(),
            at(old(self).states(), i as int, j as int),
        ensures
            final(self).wf(),
            final(self).states() == old(self).states().update(
                i as int,
                old(self).states()[i as int].with_current(j as int),
            ),
            *final(self) == (Server { sessions: final(self).sessions, ..*old(self) }),
    {
        let ghost ss = self.states();
        assert(ss[i as int] == self.sessions@[i as int]@);
        self.sessions[i].select_window(j);
        proof {
            assert forall|k: int| 0 <= k < ss.len() implies (#[trigger] ss[k]).sound() by {
                assert(ss[k].wf());
            }
            assert(self.states() =~= ss.update(i as int, ss[i as int].with_current(j as int)));
            lemma_selected(ss, i as int, j as int, self.next_id, self.killed_list());
            lemma_clients_stay(self.clients@, ss, self.states());
        }
    }

    /// `next-window -a` / `previous-window -a`: the next window with an
    /// alert.
    pub fn select_alert(&mut self, target: Option<&Target>, forward: bool, cid: Option<ClientId>) -> (out: Outcome)
        requires
            old(self).wf(),
        ensures
            final(self).wf(),
            match session_for(
                old(self).states(),
                old(self).clients@,
                pane_id_part(aimed(target)),
                session_part(aimed(target)),
                cid,
            ) {
                Err(e) => out@ == Ended::Error(e) && *final(self) == *old(self),
                Ok(i) => match old(self).states()[i].alert_from(1, forward) {
                    None => out@ == Ended::Error("no window with an alert"@) && *final(self) == *old(self),
                    Some(j) => {
                        &&& out@ == Ended::Done
                        &&& final(self).states() == old(self).states().update(
                            i,
                            old(self).states()[i].with_current(j),
                        )
                        &&& *final(self) == (Server { sessions: final(self).sessions, ..*old(self) })
                    },
                },
            },
    {
        let i: usize = match self.find_session(target, cid) {
            Ok(i) => i,
            Err(e) => {
                return Outcome::Error(e);
            },
        };
        assert(self.states()[i as int] == self.sessions@[i as int]@);
        assert(self.states()[i as int].wf());
        match self.sessions[i].next_alert(forward) {
            Some(j) => {
                self.make_current(i, j);
                Outcome::Done
            },
            None => Outcome::Error("no window with an alert".to_owned()),
        }
    }

    /// `next-window`, `previous-window`, `last-window`: `way` is the step
    /// (`+`, `-` or `!`) in the session that the target names.
    pub fn step_window(&mut self, target: Option<&Target>, way: &str, cid: Option<ClientId>) -> (out: Outcome)
        requires
            old(self).wf(),
        ensures
            final(self).wf(),
            match session_for(old(self).states(), old(self).clients@, None, session_part(aimed(target)), cid) {
                Err(e) => out@ == Ended::Error(e) && *final(self) == *old(self),
                Ok(i) => match old(self).states()[i].window_named(None, Some(way@), old(self).opts.base_index) {
                    Err(e) => out@ == Ended::Error(e) && *final(self) == *old(self),
                    Ok(j) => {
                        &&& out@ == Ended::Done
                        &&& final(self).states() == old(self).states().update(
                            i,
                            old(self).states()[i].with_current(j),
                        )
                        &&& *final(self) == (Server { sessions: final(self).sessions, ..*old(self) })
                    },
                },
            },
    {
        let mut session: Option<String> = None;
        if let Some(t) = target {
            if let Some(s) = &t.session {
                session = Some(s.as_str().to_owned());
            }
        }
        let t = Target { session, window: Some(way.to_owned()), pane: None, pane_id: None };
        self.select_window(Some(&t), cid)
    }

    /// `rename-window`.
    pub fn rename_window(&mut self, target: Option<&Target>, name: String, cid: Option<ClientId>) -> (out: Outcome)
        requires
            old(self).wf(),
        ensures
            final(self).wf(),
            match place_for(old(self).states(), old(self).clients@, old(self).opts, aimed(target), cid) {
                Err(e) => out@ == Ended::Error(e) && *final(self) == *old(self),
                Ok(p) => {
                    &&& out@ == Ended::Done
                    &&& final(self).states() == edited(
                        old(self).states(),
                        p.session,
                        p.window,
                        WindowState { name: name@, ..old(self).states()[p.session].windows[p.window] },
                    )
                    &&& *final(self) == (Server { sessions: final(self).sessions, ..*old(self) })
                },
            },
    {
        let (i, j, _) = match self.find_place(target, cid) {
            Ok(p) => p,
            Err(e) => {
                return Outcome::Error(e);
            },
        };
        let ghost w = self.states()[i as int].windows[j as int];
        proof {
            assert(self.states()[i as int] == self.sessions@[i as int]@);
            assert(self.states()[i as int].wf());
            assert(w == self.sessions@[i as int].windows@[j as int]@);
            assert(w.settled());
        }
        let ghost before = *self;
        self.sessions[i].windows[j].name = name;
        proof {
            let after = WindowState { name: name@, ..w };
            assert(self.sessions@[i as int]@ =~= put_window(before.states()[i as int], j as int, after));
            assert forall|id: PaneId| #[trigger] after.has(id) implies w.has(id) by {}
            lemma_window_set(before, *self, i as int, j as int, after);
        }
        Outcome::Done
    }

    /// `set synchronize-panes`: on, off, or the other way round.
    pub fn synchronize(&mut self, target: Option<&Target>, on: Option<bool>, cid: Option<ClientId>) -> (out: Outcome)
        requires
            old(self).wf(),
        ensures
            final(self).wf(),
            match place_for(old(self).states(), old(self).clients@, old(self).opts, aimed(target), cid) {
                Err(e) => out@ == Ended::Error(e) && *final(self) == *old(self),
                Ok(p) => {
                    let w = old(self).states()[p.session].windows[p.window];
                    &&& out@ == Ended::Done
                    &&& final(self).states() == edited(
                        old(self).states(),
                        p.session,
                        p.window,
                        WindowState {
                            synchronized: match on {
                                Some(b) => b,
                                None => !w.synchronized,
                            },
                            ..w
                        },
                    )
                    &&& *final(self) == (Server { sessions: final(self).sessions, ..*old(self) })
                },
            },
    {
        let (i, j, _) = match self.find_place(target, cid) {
            Ok(p) => p,
            Err(e) => {
                return Outcome::Error(e);
            },
        };
        let ghost w = self.states()[i as int].windows[j as int];
        proof {
            assert(self.states()[i as int] == self.sessions@[i as int]@);
            assert(self.states()[i as int].wf());
            assert(w == self.sessions@[i as int].windows@[j as int]@);
            assert(w.settled());
        }
        let ghost before = *self;
        let set: bool = match on {
            Some(b) => b,
            None => !self.sessions[i].windows[j].synchronized,
        };
        self.sessions[i].windows[j].synchronized = set;
        proof {
            let after = WindowState { synchronized: set, ..w };
            assert(self.sessions@[i as int]@ =~= put_window(before.states()[i as int], j as int, after));
            assert forall|id: PaneId| #[trigger] after.has(id) implies w.has(id) by {}
            lemma_window_set(before, *self, i as int, j as int, after);
        }
        Outcome::Done
    }

    /// `rotate-window`: the panes move one place on or back.
    pub fn rotate_window(&mut self, target: Option<&Target>, down: bool, cid: Option<ClientId>) -> (out: Outcome)
        requires
            old(self).wf(),
        ensures
            final(self).wf(),
            match place_for(old(self).states(), old(self).clients@, old(self).opts, aimed(target), cid) {
                Err(e) => out@ == Ended::Error(e) && *final(self) == *old(self),
                Ok(p) => {
                    let ss = old(self).states();
                    let w = ss[p.session].windows[p.window];
                    &&& out@ == Ended::Done
                    &&& panes(w.tree).len() < 2 ==> final(self).states() == ss
                    &&& panes(w.tree).len() >= 2 ==> final(self).states() == relaid(
                        edited(ss, p.session, p.window, w.rotated(down)),
                        p.session,
                        old(self).opts,
                    )
                    &&& *final(self) == (Server { sessions: final(self).sessions, ..*old(self) })
                },
            },
    {
        let (i, j, _) = match self.find_place(target, cid) {
            Ok(p) => p,
            Err(e) => {
                return Outcome::Error(e);
            },
        };
        let ghost w = self.states()[i as int].windows[j as int];
        proof {
            assert(self.states()[i as int] == self.sessions@[i as int]@);
            assert(self.states()[i as int].wf());
            assert(w == self.sessions@[i as int].windows@[j as int]@);
            assert(w.settled());
        }
        let ghost before = *self;
        let done: bool = self.sessions[i].windows[j].rotate(down);
        proof {
            assert(self.sessions@[i as int]@ =~= put_window(before.states()[i as int], j as int, w.rotated(down)));
            assert forall|id: PaneId| #[trigger] w.rotated(down).has(id) implies w.has(id) by {}
            lemma_window_set(before, *self, i as int, j as int, w.rotated(down));
            if !done {
                lemma_edited_same(before.states(), i as int, j as int);
            }
        }
        if done {
            self.relayout_at(i);
        }
        Outcome::Done
    }

    /// `select-layout`. The preset that was applied comes back.
    pub fn select_layout(
        &mut self,
        target: Option<&Target>,
        name: Option<&str>,
        next: bool,
        spread: bool,
        cid: Option<ClientId>,
    ) -> (r: Result<Option<Preset>, String>)
        requires
            old(self).wf(),
        ensures
            final(self).wf(),
            match place_for(old(self).states(), old(self).clients@, old(self).opts, aimed(target), cid) {
                Err(e) => r is Err && r->Err_0@ == e && *final(self) == *old(self),
                Ok(p) => {
                    let ss = old(self).states();
                    let w = ss[p.session].windows[p.window];
                    &&& exists|after: WindowState| #[trigger]
                        is_laid_by(
                            w,
                            after,
                            p.pane,
                            crate::popup::text_of(name),
                            next,
                            spread,
                            told(r),
                        ) && final(self).states() == if r is Ok {
                            relaid(edited(ss, p.session, p.window, after), p.session, old(self).opts)
                        } else {
                            ss
                        }
                    &&& *final(self) == (Server { sessions: final(self).sessions, ..*old(self) })
                },
            },
    {
        let (i, j, pid) = match self.find_place(target, cid) {
            Ok(p) => p,
            Err(e) => {
                return Err(e);
            },
        };
        let ghost w = self.states()[i as int].windows[j as int];
        proof {
            assert(self.states()[i as int] == self.sessions@[i as int]@);
            assert(self.states()[i as int].wf());
            assert(w == self.sessions@[i as int].windows@[j as int]@);
            assert(w.settled());
        }
        let ghost before = *self;
        let r = self.sessions[i].windows[j].select_layout(pid, name, next, spread);
        let ghost after = self.sessions@[i as int].windows@[j as int]@;
        proof {
            assert(self.sessions@[i as int]@ =~= put_window(before.states()[i as int], j as int, after));
            assert forall|id: PaneId| #[trigger] after.has(id) implies w.has(id) by {}
            lemma_window_set(before, *self, i as int, j as int, after);
            if r is Err {
                lemma_edited_same(before.states(), i as int, j as int);
            }
        }
        if r.is_ok() {
            self.relayout_at(i);
        }
        r
    }

    /// `select-pane`: make a pane the active one of its window. Whether the
    /// active pane changed, or nothing when there is no such pane.
    #[verifier::rlimit(30)]
    pub fn select_pane(&mut self, target: Option<&Target>, sel: PaneSel, cid: Option<ClientId>) -> (out: Outcome)
        requires
            old(self).wf(),
        ensures
            final(self).wf(),
            match place_for(old(self).states(), old(self).clients@, old(self).opts, aimed(target), cid) {
                Err(e) => out@ == Ended::Error(e) && *final(self) == *old(self),
                Ok(p) => {
                    let ss = old(self).states();
                    let s = ss[p.session];
                    let w = s.windows[p.window];
                    let area = area_of(old(self).opts, s.cols, s.rows);
                    let seen = w.looked_over(sel, area);
                    &&& exists|found: Option<PaneId>| #[trigger]
                        is_picked(w, sel, p.pane, area, old(self).opts.pane_base_index, found) && match found {
                            None => {
                                &&& out@ == Ended::Error("no such pane"@)
                                &&& final(self).states() == edited(ss, p.session, p.window, seen)
                            },
                            Some(id) => {
                                &&& out@ == Ended::Done
                                &&& final(self).states() == if id == w.active {
                                    edited(ss, p.session, p.window, seen)
                                } else if w.zoomed {
                                    relaid(
                                        edited(
                                            ss,
                                            p.session,
                                            p.window,
                                            seen.selected(id, old(self).opts.keep_zoom),
                                        ),
                                        p.session,
                                        old(self).opts,
                                    )
                                } else {
                                    edited(
                                        ss,
                                        p.session,
                                        p.window,
                                        seen.selected(id, old(self).opts.keep_zoom),
                                    )
                                }
                            },
                        }
                    &&& *final(self) == (Server { sessions: final(self).sessions, ..*old(self) })
                },
            },
    {
        let (i, j, named) = match self.find_place(target, cid) {
            Ok(p) => p,
            Err(e) => {
                return Outcome::Error(e);
            },
        };
        let ghost w = self.states()[i as int].windows[j as int];
        proof {
            assert(self.states()[i as int] == self.sessions@[i as int]@);
            assert(self.states()[i as int].wf());
            assert(w == self.sessions@[i as int].windows@[j as int]@);
            assert(w.settled());
        }
        let area = self.window_area(self.sessions[i].cols, self.sessions[i].rows);
        let base: usize = self.opts.pane_base_index;
        let keep: bool = self.opts.keep_zoom;
        let ghost before = *self;
        let zoomed: bool = self.sessions[i].windows[j].zoomed;
        let moved = self.sessions[i].windows[j].select_pane(sel, named, area, base, keep);
        let ghost after = self.sessions@[i as int].windows@[j as int]@;
        proof {
            assert(self.sessions@[i as int]@ =~= put_window(before.states()[i as int], j as int, after));
            assert forall|id: PaneId| #[trigger] after.has(id) implies w.has(id) by {}
            lemma_window_set(before, *self, i as int, j as int, after);
        }
        match moved {
            None => Outcome::Error("no such pane".to_owned()),
            Some(m) => {
                if m && zoomed {
                    self.relayout_at(i);
                }
                Outcome::Done
            },
        }
    }

    /// `swap-pane -U` / `-D`: a pane changes places with the one before or
    /// after it.
    pub fn exchange_pane(&mut self, target: Option<&Target>, up: bool, cid: Option<ClientId>) -> (out: Outcome)
        requires
            old(self).wf(),
        ensures
            final(self).wf(),
            match place_for(old(self).states(), old(self).clients@, old(self).opts, aimed(target), cid) {
                Err(e) => out@ == Ended::Error(e) && *final(self) == *old(self),
                Ok(p) => {
                    let ss = old(self).states();
                    let w = ss[p.session].windows[p.window];
                    &&& out@ == Ended::Done
                    &&& panes(w.tree).len() < 2 ==> final(self).states() == ss
                    &&& panes(w.tree).len() >= 2 ==> final(self).states() == relaid(
                        edited(ss, p.session, p.window, w.exchanged(p.pane, up)),
                        p.session,
                        old(self).opts,
                    )
                    &&& *final(self) == (Server { sessions: final(self).sessions, ..*old(self) })
                },
            },
    {
        let (i, j, pid) = match self.find_place(target, cid) {
            Ok(p) => p,
            Err(e) => {
                return Outcome::Error(e);
            },
        };
        let ghost w = self.states()[i as int].windows[j as int];
        proof {
            assert(self.states()[i as int] == self.sessions@[i as int]@);
            assert(self.states()[i as int].wf());
            assert(w == self.sessions@[i as int].windows@[j as int]@);
            assert(w.settled());
        }
        let ghost before = *self;
        let done: bool = self.sessions[i].windows[j].exchange(pid, up);
        proof {
            let after = w.exchanged(pid, up);
            assert(self.sessions@[i as int]@ =~= put_window(before.states()[i as int], j as int, after));
            assert forall|id: PaneId| #[trigger] after.has(id) implies w.has(id) by {}
            lemma_window_set(before, *self, i as int, j as int, after);
            if !done {
                lemma_edited_same(before.states(), i as int, j as int);
            }
        }
        if done {
            self.relayout_at(i);
        }
        Outcome::Done
    }

    /// `resize-pane`: zoom, or move an edge; then to a width and a height.
    pub fn resize_pane(
        &mut self,
        target: Option<&Target>,
        zoom: bool,
        dir: Option<Dir>,
        amount: u16,
        width: Option<&str>,
        height: Option<&str>,
        cid: Option<ClientId>,
    ) -> (out: Outcome)
        requires
            old(self).wf(),
        ensures
            final(self).wf(),
            match place_for(old(self).states(), old(self).clients@, old(self).opts, aimed(target), cid) {
                Err(e) => out@ == Ended::Error(e) && *final(self) == *old(self),
                Ok(p) => {
                    let ss = old(self).states();
                    let s = ss[p.session];
                    let opts = old(self).opts;
                    let r = resized_window(
                        s.windows[p.window],
                        p.pane,
                        zoom,
                        dir,
                        amount,
                        crate::popup::text_of(width),
                        crate::popup::text_of(height),
                        area_of(opts, s.cols, s.rows),
                        border_of(opts),
                    );
                    &&& out@ == match r.1 {
                        None => Ended::Done,
                        Some(spec) => Ended::Error("resize-pane: bad size '"@ + spec + "'"@),
                    }
                    &&& r.1 is None ==> final(self).states() == relaid(
                        edited(ss, p.session, p.window, r.0),
                        p.session,
                        opts,
                    )
                    &&& r.1 is Some ==> final(self).states() == edited(ss, p.session, p.window, r.0)
                    &&& *final(self) == (Server { sessions: final(self).sessions, ..*old(self) })
                },
            },
    {
        let (i, j, pid) = match self.find_place(target, cid) {
            Ok(p) => p,
            Err(e) => {
                return Outcome::Error(e);
            },
        };
        let ghost w = self.states()[i as int].windows[j as int];
        proof {
            assert(self.states()[i as int] == self.sessions@[i as int]@);
            assert(self.states()[i as int].wf());
            assert(w == self.sessions@[i as int].windows@[j as int]@);
            assert(w.settled());
        }
        let area = self.window_area(self.sessions[i].cols, self.sessions[i].rows);
        let border = self.border_rows();
        let ghost before = *self;
        let fault = self.sessions[i].windows[j].resize_to(pid, zoom, dir, amount, width, height, area, border);
        let ghost after = self.sessions@[i as int].windows@[j as int]@;
        proof {
            assert(self.sessions@[i as int]@ =~= put_window(before.states()[i as int], j as int, after));
            assert forall|id: PaneId| #[trigger] after.has(id) implies w.has(id) by {}
            lemma_window_set(before, *self, i as int, j as int, after);
        }
        match fault {
            None => {
                self.relayout_at(i);
                Outcome::Done
            },
            Some(spec) => Outcome::Error(joined3("resize-pane: bad size '", spec.as_str(), "'")),
        }
    }
}

/// A window after `resize-pane`, and the size that could not be read, if one
/// could not: then what came before it was done.
pub open spec fn resized_window(
    w: WindowState,
    id: PaneId,
    zoom: bool,
    dir: Option<Dir>,
    amount: u16,
    width: Option<Seq<char>>,
    height: Option<Seq<char>>,
    area: Rect,
    border: Option<bool>,
) -> (WindowState, Option<Seq<char>>) {
    let a = if zoom {
        WindowState { zoomed: !w.zoomed && w.panes.len() > 1, ..w }
    } else {
        match dir {
            Some(d) => WindowState { zoomed: false, ..w }.nudged(id, d, crate::pane::at_least_one(amount)),
            None => w,
        }
    };
    match stretched_to(a, id, true, width, area, border) {
        Err(spec) => (a, Some(spec)),
        Ok(b) => match stretched_to(b, id, false, height, area, border) {
            Err(spec) => (b, Some(spec)),
            Ok(c) => (c, None),
        },
    }
}

/// A window whose pane was made as long as `spec` says.
pub open spec fn stretched_to(
    w: WindowState,
    id: PaneId,
    horizontal: bool,
    spec: Option<Seq<char>>,
    area: Rect,
    border: Option<bool>,
) -> Result<WindowState, Seq<char>> {
    let full = area.extent(horizontal);
    match spec {
        None => Ok(w),
        Some(s) => match size_of(s, full) {
            None => Err(s),
            Some(want) => Ok(
                WindowState { zoomed: false, ..w }.stretched(area, border, id, horizontal, want, false, full as nat),
            ),
        },
    }
}

impl crate::window::Window {
    /// Make a pane as long as `spec` says; the size when it cannot be read.
    fn stretch_to(&mut self, id: PaneId, horizontal: bool, spec: Option<&str>, area: Rect, border: Option<bool>) -> (
        fault: Option<String>)
        requires
            old(self)@.settled(),
            area.fits(),
        ensures
            final(self)@.settled(),
            ids(final(self)@.panes) == ids(old(self)@.panes),
            final(self)@.id == old(self)@.id,
            match stretched_to(old(self)@, id, horizontal, crate::popup::text_of(spec), area, border) {
                Ok(after) => fault is None && final(self)@ == after,
                Err(s) => fault is Some && fault->0@ == s && final(self)@ == old(self)@,
            },
    {
        let s = match spec {
            None => {
                return None;
            },
            Some(s) => s,
        };
        let full: u16 = if horizontal { area.w } else { area.h };
        match parse_size(s, full) {
            None => Some(s.to_owned()),
            Some(want) => {
                self.zoomed = false;
                proof {
                    crate::arrange::lemma_stretched_id(self@, area, border, id, horizontal, want as int, false, full as nat);
                }
                self.stretch(area, border, id, horizontal, want, full);
                None
            },
        }
    }

    /// `resize-pane` on this window; the size that could not be read.
    pub fn resize_to(
        &mut self,
        id: PaneId,
        zoom: bool,
        dir: Option<Dir>,
        amount: u16,
        width: Option<&str>,
        height: Option<&str>,
        area: Rect,
        border: Option<bool>,
    ) -> (fault: Option<String>)
        requires
            old(self)@.settled(),
            area.fits(),
        ensures
            final(self)@.settled(),
            ids(final(self)@.panes) == ids(old(self)@.panes),
            final(self)@.id == old(self)@.id,
            ({
                let r = resized_window(
                    old(self)@,
                    id,
                    zoom,
                    dir,
                    amount,
                    crate::popup::text_of(width),
                    crate::popup::text_of(height),
                    area,
                    border,
                );
                &&& final(self)@ == r.0
                &&& crate::observe::opt_text(fault) == r.1
            }),
    {
        let ghost start = self@;
        if zoom {
            self.zoomed = !self.zoomed && self.panes.len() > 1;
        } else if let Some(d) = dir {
            self.zoomed = false;
            let n: u16 = if amount == 0 { 1 } else { amount };
            assert(self@ =~= WindowState { zoomed: false, ..start });
            self.nudge(id, d, n);
            proof {
                crate::arrange::lemma_nudged_settled(WindowState { zoomed: false, ..start }, id, d, n);
            }
        }
        let first = self.stretch_to(id, true, width, area, border);
        if first.is_some() {
            return first;
        }
        self.stretch_to(id, false, height, area, border)
    }
}

} // verus!
