//! `split-window` after the split: several panes at once stay even, and the
//! newest gets the focus.
use vstd::prelude::*;

use crate::arrange::in_preset;
use crate::layout::{panes, PaneId};
use crate::openings::largest;
use crate::preset::Preset;
use crate::server::{lives, Server};
use crate::server_edit::{at, edited, put_window, relaid};
use crate::text::{decimal, push_decimal};
use crate::window::WindowState;
use crate::window_commands::lemma_window_set;

verus! {

impl Server {
    /// Tile a window, as after each of several splits.
    pub fn tile(&mut self, i: usize, j: usize)
        requires
            old(self).wf(),
            at(old(self).states(), i as int, j as int),
        ensures
            final(self).wf(),
            *final(self) == (Server { sessions: final(self).sessions, ..*old(self) }),
            ({
                let ss = old(self).states();
                exists|after: WindowState| #[trigger]
                    in_preset(ss[i as int].windows[j as int], after, Preset::Tiled) && final(self).states() == relaid(
                        edited(ss, i as int, j as int, after),
                        i as int,
                        old(self).opts,
                    )
            }),
    {
        let ghost before = *self;
        let ghost w = self.states()[i as int].windows[j as int];
        proof {
            assert(self.states()[i as int] == self.sessions@[i as int]@);
            assert(self.states()[i as int].wf());
            assert(w == self.sessions@[i as int].windows@[j as int]@);
            assert(w.settled());
        }
        self.sessions[i].windows[j].apply_preset(Preset::Tiled);
        let ghost after = self.sessions@[i as int].windows@[j as int]@;
        proof {
            assert(self.sessions@[i as int]@ =~= put_window(before.states()[i as int], j as int, after));
            assert forall|id: PaneId| #[trigger] after.has(id) implies w.has(id) by {}
            lemma_window_set(before, *self, i as int, j as int, after);
        }
        self.relayout_at(i);
    }

    /// A new pane gets the focus of its window; `was` is the pane that had it
    /// before.
    pub fn focus_split(&mut self, i: usize, j: usize, id: PaneId, was: PaneId)
        requires
            old(self).wf(),
            lives(old(self).states(), i as int, j as int, id),
        ensures
            final(self).wf(),
            *final(self) == (Server { sessions: final(self).sessions, ..*old(self) }),
            final(self).states() == edited(
                old(self).states(),
                i as int,
                j as int,
                (WindowState {
                    active: id,
                    last_pane: Some(was),
                    ..old(self).states()[i as int].windows[j as int]
                }),
            ),
    {
        let ghost before = *self;
        let ghost w = self.states()[i as int].windows[j as int];
        proof {
            assert(self.states()[i as int] == self.sessions@[i as int]@);
            assert(self.states()[i as int].wf());
            assert(w == self.sessions@[i as int].windows@[j as int]@);
            assert(w.settled());
        }
        self.sessions[i].windows[j].focus(id);
        self.sessions[i].windows[j].last_pane = Some(was);
        proof {
            let after = WindowState { active: id, last_pane: Some(was), ..w };
            assert(self.sessions@[i as int]@ =~= put_window(before.states()[i as int], j as int, after));
            assert forall|q: PaneId| #[trigger] after.has(q) implies w.has(q) by {}
            lemma_window_set(before, *self, i as int, j as int, after);
        }
    }

    /// One of the splits of `split-window` was tried, after `made` others:
    /// what comes next. Of several panes each split takes the largest pane,
    /// and the window is tiled after it, so the panes stay even and none gets
    /// too small to split.
    pub fn split_next(&mut self, i: usize, j: usize, made: usize, count: usize, tried: Result<PaneId, String>) -> (next:
        SplitNext)
        requires
            old(self).wf(),
            at(old(self).states(), i as int, j as int),
        ensures
            final(self).wf(),
            *final(self) == (Server { sessions: final(self).sessions, ..*old(self) }),
            match tried {
                Err(e) => {
                    &&& final(self).states() == old(self).states()
                    &&& if made == 0 {
                        next is Refused && next->Refused_0@ == e@
                    } else {
                        next is Stopped && next->Stopped_0@ == stopped_text(made as nat, count as nat, e@)
                    }
                },
                Ok(_) => if count <= 1 {
                    next is Done && final(self).states() == old(self).states()
                } else {
                    let ss = old(self).states();
                    let w = final(self).states()[i as int].windows[j as int];
                    &&& exists|after: WindowState| #[trigger]
                        in_preset(ss[i as int].windows[j as int], after, Preset::Tiled) && final(self).states() == relaid(
                            edited(ss, i as int, j as int, after),
                            i as int,
                            old(self).opts,
                        )
                    &&& next == if made + 1 < count {
                        SplitNext::Go(largest(w, panes(w.tree).len() as int))
                    } else {
                        SplitNext::Done
                    }
                    &&& next is Go ==> lives(final(self).states(), i as int, j as int, next->Go_0)
                },
            },
    {
        if let Err(e) = tried {
            return if made == 0 {
                SplitNext::Refused(e)
            } else {
                SplitNext::Stopped(split_stopped(made, count, e.as_str()))
            };
        }
        if count <= 1 {
            return SplitNext::Done;
        }
        self.tile(i, j);
        if made < count - 1 {
            SplitNext::Go(self.largest_pane(i, j))
        } else {
            SplitNext::Done
        }
    }
}

/// What comes after one of the splits of `split-window`.
#[derive(Debug, PartialEq, Eq)]
pub enum SplitNext {
    /// None could be made.
    Refused(String),
    /// No more can be made; what is told of those that were.
    Stopped(String),
    /// That pane is split next.
    Go(PaneId),
    /// All were made.
    Done,
}

/// What is told when not all of several panes could be made.
pub open spec fn stopped_text(made: nat, count: nat, why: Seq<char>) -> Seq<char> {
    "split-window: made "@ + decimal(made) + " of "@ + decimal(count) + " panes: "@ + why
}

/// What is told when not all of several panes could be made.
pub fn split_stopped(made: usize, count: usize, why: &str) -> (out: String)
    ensures
        out@ == stopped_text(made as nat, count as nat, why@),
{
    let mut out = "split-window: made ".to_owned();
    push_decimal(&mut out, made as u64);
    out.push_str(" of ");
    push_decimal(&mut out, count as u64);
    out.push_str(" panes: ");
    out.push_str(why);
    out
}

} // verus!
