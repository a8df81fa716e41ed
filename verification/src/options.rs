//! Options that change while the server runs, and pickers that open where
//! their client is.
use std::collections::HashSet;

use vstd::prelude::*;

use crate::chooser::{Chooser, ChooserItem, ChooserKind, ClientId, Kept};
use crate::chooser_keys::{history_lines, history_rows, place_of, rows_of};
use crate::client::{Client, ServerMsg};
use crate::client_commands::{client_set, lemma_client_set};
use crate::command::{Ended, Outcome};
use crate::layout::PaneId;
use crate::server::{aimed, place_for, Options, Place, Server};
use crate::server_edit::relaid;
use crate::session::SessionState;
use crate::text::{join_texts, joined2, joined3, joined_by, same_text, texts_of};
use crate::window::WindowState;

verus! {

/// The first `k` sessions laid out anew.
pub open spec fn all_relaid(ss: Seq<SessionState>, opts: Options, k: int) -> Seq<SessionState>
    decreases k,
{
    if k <= 0 {
        ss
    } else {
        relaid(all_relaid(ss, opts, k - 1), k - 1, opts)
    }
}

/// A client after options changed: it is drawn anew, and a terminal that looks
/// at a session is told of the mouse when `told`.
pub open spec fn is_refreshed(before: Client, after: Client, told: bool, mouse: bool) -> bool {
    &&& after == (Client { outbox: after.outbox, ..before })
    &&& !after.outbox.in_step
    &&& after.outbox.pending@ == if told && before.session is Some {
        before.outbox.pending@.push(ServerMsg::SetMouse(mouse))
    } else {
        before.outbox.pending@
    }
}

impl Server {
    /// Options changed: every session is laid out as they say, and every
    /// client drawn anew; `mouse` when it is the option of the mouse that
    /// was set.
    pub fn apply_options(&mut self, opts: Options, mouse: bool)
        requires
            old(self).wf(),
        ensures
            final(self).wf(),
            *final(self) == (Server {
                opts,
                sessions: final(self).sessions,
                clients: final(self).clients,
                ..*old(self)
            }),
            final(self).states() == all_relaid(old(self).states(), opts, old(self).states().len() as int),
            final(self).clients@.len() == old(self).clients@.len(),
            forall|k: int|
                0 <= k < old(self).clients@.len() ==> is_refreshed(
                    old(self).clients@[k],
                    #[trigger] final(self).clients@[k],
                    mouse,
                    opts.mouse,
                ),
    {
        let ghost ss = self.states();
        let ghost cs = self.clients@;
        let on: bool = opts.mouse;
        self.opts = opts;
        assert(self.states() =~= ss);
        let mut i: usize = 0;
        while i < self.sessions.len()
            invariant
                i <= self.sessions@.len() == ss.len(),
                self.wf(),
                self.clients@ == cs,
                *self == (Server { opts, sessions: self.sessions, ..*old(self) }),
                self.states() == all_relaid(ss, opts, i as int),
            decreases self.sessions.len() - i,
        {
            self.relayout_at(i);
            i = i + 1;
        }
        let ghost laid = *self;
        let mut k: usize = 0;
        while k < self.clients.len()
            invariant
                k <= self.clients@.len() == cs.len(),
                self.wf(),
                *self == (Server { clients: self.clients, ..laid }),
                on == opts.mouse,
                forall|j: int| 0 <= j < k ==> is_refreshed(cs[j], #[trigger] self.clients@[j], mouse, on),
                forall|j: int| k <= j < cs.len() ==> #[trigger] self.clients@[j] == cs[j],
            decreases self.clients.len() - k,
        {
            let ghost before = *self;
            self.clients[k].outbox.in_step = false;
            if mouse && self.clients[k].session.is_some() {
                self.clients[k].outbox.post(ServerMsg::SetMouse(on));
            }
            proof {
                assert(self.clients@ =~= before.clients@.update(k as int, self.clients@[k as int]));
                assert(client_set(before, *self, k as int));
                lemma_client_set(before, *self, k as int);
                assert(is_refreshed(cs[k as int], self.clients@[k as int], mouse, on));
            }
            k = k + 1;
        }
    }
}

/// The line of the job picker it opens on: the client's own pane, or the first
/// below the titles.
pub open spec fn own_line(items: Seq<ChooserItem>, pid: Option<PaneId>, i: int) -> int
    decreases items.len() - i,
{
    if i < 0 || i >= items.len() {
        1
    } else if items[i] is Job && Some(items[i]->Job_2) == pid {
        i
    } else {
        own_line(items, pid, i + 1)
    }
}

/// The picker of `choose-jobs`, on the line of pane `pid`.
pub fn jobs_chooser(items: Vec<ChooserItem>, lines: Vec<String>, pid: Option<PaneId>) -> (ch: Chooser)
    ensures
        ch.kind is Jobs,
        ch.items == items,
        ch.lines == lines,
        ch.sel == own_line(items@, pid, 0),
        ch.top == 0 && ch.filter@.len() == 0 && ch.tagged@.len() == 0,
{
    let mut sel: usize = 1;
    let mut i: usize = 0;
    let mut found: bool = false;
    while i < items.len() && !found
        invariant
            i <= items@.len(),
            !found ==> sel == 1 && own_line(items@, pid, 0) == own_line(items@, pid, i as int),
            found ==> sel == own_line(items@, pid, 0),
        decreases items.len() - i + if found {
            0int
        } else {
            1int
        },
    {
        let own: bool = match (items[i], pid) {
            (ChooserItem::Job(_, _, p), Some(id)) => p == id,
            _ => false,
        };
        if own {
            sel = i;
            found = true;
        } else {
            i = i + 1;
        }
    }
    Chooser::new(ChooserKind::Jobs, items, lines, sel)
}

/// The picker of `choose-history`, open at position `here`, on its newest day.
pub fn history_chooser(kept: Vec<Kept>, here: Option<usize>) -> (ch: Chooser)
    ensures
        ch.kind matches ChooserKind::History { kept: k, open } && k == kept && open@ == (match here {
            Some(i) => Set::<usize>::empty().insert(i),
            None => Set::<usize>::empty(),
        }) && rows_of(ch.items@, ch.lines@) == history_rows(kept@, open@, 0),
        ch.sel == match here {
            Some(i) => match place_of(ch.items@, ChooserItem::Log(i, Some(0)), 0) {
                Some(k) => k,
                None => 0,
            },
            None => 0,
        },
        ch.top == 0 && ch.filter@.len() == 0 && ch.tagged@.len() == 0,
{
    broadcast use vstd::std_specs::hash::group_hash_axioms;

    let mut open: HashSet<usize> = HashSet::new();
    if let Some(i) = here {
        open.insert(i);
    }
    let (items, lines) = history_lines(&kept, &open);
    let mut sel: usize = 0;
    if let Some(i) = here {
        let want = ChooserItem::Log(i, Some(0));
        let mut k: usize = 0;
        let mut found: bool = false;
        while k < items.len() && !found
            invariant
                k <= items@.len(),
                want == ChooserItem::Log(i, Some(0)),
                !found ==> sel == 0 && place_of(items@, want, 0) == place_of(items@, want, k as int),
                found ==> place_of(items@, want, 0) == Some(sel as int),
            decreases items.len() - k + if found {
                0int
            } else {
                1int
            },
        {
            if items[k] == want {
                sel = k;
                found = true;
            } else {
                k = k + 1;
            }
        }
    }
    Chooser::new(ChooserKind::History { kept, open }, items, lines, sel)
}

impl Server {
    /// A client's command keys repeat until then.
    pub fn repeat_until(&mut self, cid: ClientId, until: Option<u64>)
        requires
            old(self).wf(),
        ensures
            final(self).wf(),
            ({
                let k = crate::server::client_place(old(self).clients@, cid, 0);
                if k < old(self).clients@.len() {
                    client_set(*old(self), *final(self), k) && final(self).clients@[k] == (Client {
                        repeat_until: until,
                        ..old(self).clients@[k]
                    })
                } else {
                    *final(self) == *old(self)
                }
            }),
    {
        let k: usize = self.client_at(cid);
        if k < self.clients.len() {
            let ghost before = *self;
            self.clients[k].repeat_until = until;
            proof {
                assert(self.clients@ =~= before.clients@.update(k as int, self.clients@[k as int]));
                assert(client_set(before, *self, k as int));
                lemma_client_set(before, *self, k as int);
            }
        }
    }
}

/// An option as it is shown: its value, and how that is written in a command
/// line.
#[derive(Debug)]
pub struct ShownOption {
    pub name: String,
    pub value: String,
    pub written: String,
}

/// The line of an option.
pub open spec fn option_line(o: ShownOption) -> Seq<char> {
    o.name@ + " "@ + o.written@
}

pub open spec fn option_lines(v: Seq<ShownOption>) -> Seq<Seq<char>> {
    Seq::new(v.len(), |i: int| option_line(v[i]))
}

/// Whether the panes of a window are typed into together.
pub open spec fn together(w: WindowState) -> Seq<char> {
    if w.synchronized {
        "on"@
    } else {
        "off"@
    }
}

/// What `show-options` prints: of the options `listed` for all and `own` for
/// those the user made up; `asked` is the one named, when there is one of
/// that name. `synchronize-panes` is an option of the window at `at`.
pub open spec fn options_shown(
    ss: Seq<SessionState>,
    at: Result<Place, Seq<char>>,
    name: Option<Seq<char>>,
    value_only: bool,
    quiet: bool,
    asked: Option<ShownOption>,
    listed: Seq<ShownOption>,
    own: Seq<ShownOption>,
) -> Ended {
    match name {
        Some(n) => if n == "synchronize-panes"@ {
            match at {
                Err(e) => Ended::Error(e),
                Ok(p) => {
                    let v = together(ss[p.session].windows[p.window]);
                    Ended::Text(
                        if value_only {
                            v
                        } else {
                            "synchronize-panes "@ + v
                        },
                    )
                },
            }
        } else {
            match asked {
                Some(o) => Ended::Text(
                    if value_only {
                        o.value@
                    } else {
                        n + " "@ + o.written@
                    },
                ),
                None => if quiet {
                    Ended::Text(Seq::empty())
                } else {
                    Ended::Error("unknown option: "@ + n)
                },
            }
        },
        None => {
            let here = match at {
                Ok(p) => seq!["synchronize-panes "@ + together(ss[p.session].windows[p.window])],
                Err(_) => Seq::empty(),
            };
            let lines = option_lines(listed) + here + option_lines(own);
            Ended::Text(joined_by(lines, "\n"@, lines.len() as int))
        },
    }
}

fn push_options(lines: &mut Vec<String>, v: &Vec<ShownOption>)
    ensures
        texts_of(final(lines)@) == texts_of(old(lines)@) + option_lines(v@),
{
    let ghost before = texts_of(lines@);
    let mut i: usize = 0;
    assert(before + option_lines(v@).take(0) =~= before);
    while i < v.len()
        invariant
            i <= v@.len(),
            texts_of(lines@) == before + option_lines(v@).take(i as int),
        decreases v.len() - i,
    {
        let ghost so_far = texts_of(lines@);
        lines.push(joined3(v[i].name.as_str(), " ", v[i].written.as_str()));
        i = i + 1;
        assert(texts_of(lines@) =~= so_far.push(option_lines(v@)[i - 1]));
        assert(option_lines(v@).take(i as int) =~= option_lines(v@).take(i - 1).push(option_lines(v@)[i - 1]));
    }
    assert(option_lines(v@).take(v@.len() as int) =~= option_lines(v@));
}

impl Server {
    /// `show-options`.
    pub fn show_options(
        &self,
        name: Option<&str>,
        value_only: bool,
        quiet: bool,
        asked: Option<ShownOption>,
        listed: &Vec<ShownOption>,
        own: &Vec<ShownOption>,
        cid: Option<ClientId>,
    ) -> (out: Outcome)
        requires
            self.wf(),
        ensures
            out@ == options_shown(
                self.states(),
                place_for(self.states(), self.clients@, self.opts, aimed(None), cid),
                match name {
                    Some(n) => Some(n@),
                    None => None,
                },
                value_only,
                quiet,
                asked,
                listed@,
                own@,
            ),
    {
        let here: Result<&str, String> = match self.find_place(None, cid) {
            Ok((i, j, _)) => {
                assert(self.states()[i as int] == self.sessions@[i as int]@);
                Ok(if self.sessions[i].windows[j].synchronized { "on" } else { "off" })
            },
            Err(e) => Err(e),
        };
        match name {
            Some(n) => {
                if same_text(n, "synchronize-panes") {
                    return match here {
                        Err(e) => Outcome::Error(e),
                        Ok(v) => Outcome::Text(
                            if value_only {
                                v.to_string()
                            } else {
                                joined2("synchronize-panes ", v)
                            },
                        ),
                    };
                }
                match asked {
                    Some(o) => Outcome::Text(
                        if value_only {
                            o.value
                        } else {
                            joined3(n, " ", o.written.as_str())
                        },
                    ),
                    None => {
                        if quiet {
                            let none = String::new();
                            assert(none@ =~= Seq::empty());
                            Outcome::Text(none)
                        } else {
                            Outcome::Error(joined2("unknown option: ", n))
                        }
                    },
                }
            },
            None => {
                let mut lines: Vec<String> = Vec::new();
                assert(texts_of(lines@) =~= Seq::empty());
                push_options(&mut lines, listed);
                assert(texts_of(lines@) =~= option_lines(listed@));
                let ghost head = texts_of(lines@);
                if let Ok(v) = here {
                    lines.push(joined2("synchronize-panes ", v));
                    assert(texts_of(lines@) =~= head + seq!["synchronize-panes "@ + v@]);
                } else {
                    assert(texts_of(lines@) =~= head + Seq::empty());
                }
                push_options(&mut lines, own);
                Outcome::Text(join_texts(&lines, "\n"))
            },
        }
    }
}

} // verus!
