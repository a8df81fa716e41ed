//! `swap-window` and `move-window`: windows change places, in one session or
//! between two.
use vstd::prelude::*;

use crate::chooser::{ClientId, WindowId};
use crate::client::Client;
use crate::command::{Ended, Outcome, Target};
use crate::moves::lemma_sound_of_wf;
use crate::server::{aimed, apart, clients_wf, killed_wf, numbered_below, pane_id_part, place_for, session_for, session_part, sessions_wf, stands, window_part, KilledState, Options, Server};
use crate::server_edit::{all_detached, at, descends, lemma_clients_stay, lemma_descends, relaid, sessions_sound};
use crate::session::{lemma_window_place, window_place, window_states, Session, SessionState};
use crate::text::{chars_of, number_of, read_number};
use crate::window::{Window, WindowState};

verus! {

/// `s` with window `id` current, wherever it is now; the same place when it
/// is not there.
pub open spec fn following(s: SessionState, id: WindowId) -> SessionState {
    let k = window_place(s.windows, id, 0);
    if k < s.windows.len() {
        SessionState { cur: k, ..s }
    } else {
        s
    }
}

/// Windows `a` and `b` in each other's place.
pub open spec fn traded_places(ws: Seq<WindowState>, a: int, b: int) -> Seq<WindowState> {
    ws.update(a, ws[b]).update(b, ws[a])
}

/// Window `a` at place `b`, as far as the list goes.
pub open spec fn moved_to(ws: Seq<WindowState>, a: int, b: int) -> Seq<WindowState> {
    let rest = ws.remove(a);
    rest.insert(
        if b < rest.len() {
            b
        } else {
            rest.len() as int
        },
        ws[a],
    )
}

/// A session after `swap-window` or `move-window` within it: the window that
/// was current still is.
pub open spec fn rearranged(s: SessionState, a: int, b: int, move_it: bool) -> SessionState {
    let ws = if move_it {
        moved_to(s.windows, a, b)
    } else {
        traded_places(s.windows, a, b)
    };
    following(SessionState { windows: ws, ..s }, s.windows[s.cur].id)
}

/// Two sessions after window `a` of the one and `b` of the other changed
/// places: each keeps looking at the window it was looking at, or at the one
/// that came in its place.
pub open spec fn swapped_windows(ss: Seq<SessionState>, i: int, a: int, k: int, b: int) -> Seq<SessionState> {
    let s = ss[i];
    let d = ss[k];
    ss.update(
        i,
        following(
            SessionState { windows: s.windows.update(a, d.windows[b]), last: None, ..s },
            s.windows[s.cur].id,
        ),
    ).update(
        k,
        following(
            SessionState { windows: d.windows.update(b, s.windows[a]), last: None, ..d },
            d.windows[d.cur].id,
        ),
    )
}

/// A session that window `a` left.
pub open spec fn left_by(s: SessionState, a: int) -> SessionState {
    let rest = s.windows.remove(a);
    let id = s.windows[s.cur].id;
    let wid = s.windows[a].id;
    let k = window_place(rest, id, 0);
    SessionState {
        windows: rest,
        last: if s.last == Some(wid) {
            None
        } else {
            s.last
        },
        cur: if id != wid && k < rest.len() {
            k
        } else if s.cur < rest.len() {
            s.cur
        } else if rest.len() == 0 {
            0
        } else {
            rest.len() - 1
        },
        ..s
    }
}

/// A session that window `w` came to, at place `b` as far as the list goes.
pub open spec fn joined_by_window(d: SessionState, b: int, w: WindowState) -> SessionState {
    let at = if b < d.windows.len() {
        b
    } else {
        d.windows.len() as int
    };
    following(SessionState { windows: d.windows.insert(at, w), ..d }, d.windows[d.cur].id)
}

/// The sessions after window `a` of session `i` moved to session `k`: a
/// session left without windows goes.
pub open spec fn moved_window(ss: Seq<SessionState>, opts: Options, i: int, a: int, k: int, b: int) -> Seq<SessionState> {
    let both = ss.update(k, joined_by_window(ss[k], b, ss[i].windows[a])).update(i, left_by(ss[i], a));
    if ss[i].windows.len() == 1 {
        let rest = both.remove(i);
        let d = if k > i {
            k - 1
        } else {
            k
        };
        relaid(rest, d, opts)
    } else {
        relaid(relaid(both, i, opts), k, opts)
    }
}

/// Where `swap-window` or `move-window` goes: a window's place, or for a move
/// a place that is still free.
pub open spec fn destination(
    ss: Seq<SessionState>,
    cs: Seq<Client>,
    opts: Options,
    t: Option<Target>,
    move_it: bool,
    cid: Option<ClientId>,
) -> Result<(int, int), Seq<char>> {
    match place_for(ss, cs, opts, t, cid) {
        Ok(p) => Ok((p.session, p.window)),
        Err(e) => {
            let free = if move_it && window_part(t) is Some {
                number_of(window_part(t)->0, usize::MAX as int)
            } else {
                None
            };
            match (free, session_for(ss, cs, pane_id_part(t), session_part(t), cid)) {
                (Some(n), Ok(i)) => Ok(
                    (
                        i,
                        if n > opts.base_index {
                            n - opts.base_index
                        } else {
                            0
                        },
                    ),
                ),
                _ => Err(e),
            }
        },
    }
}

/// Windows that are the same ones in another order leave a session sound.
proof fn lemma_permuted(s: SessionState, t: SessionState, from: spec_fn(int) -> int)
    requires
        s.sound(),
        t.windows.len() == s.windows.len(),
        t.cols == s.cols && t.rows == s.rows,
        0 <= t.cur < t.windows.len(),
        forall|j: int| 0 <= j < t.windows.len() ==> 0 <= #[trigger] from(j) < s.windows.len() && t.windows[j]
            == s.windows[from(j)],
        forall|j: int, l: int|
            0 <= j < t.windows.len() && 0 <= l < t.windows.len() && #[trigger] from(j) == #[trigger] from(l) ==> j == l,
    ensures
        t.sound(),
        s.wf() ==> t.wf(),
{
    assert forall|j: int| 0 <= j < t.windows.len() implies (#[trigger] t.windows[j]).wf() && (s.wf()
        ==> t.windows[j].settled()) by {
        assert(t.windows[j] == s.windows[from(j)]);
    }
    assert forall|j: int, l: int| 0 <= j < l < t.windows.len() implies (#[trigger] t.windows[j]).id != (
    #[trigger] t.windows[l]).id by {
        assert(from(j) != from(l));
        assert(t.windows[j] == s.windows[from(j)] && t.windows[l] == s.windows[from(l)]);
    }
}

/// Rearranging a session leaves every pane and window in it, and the window
/// looked at is the same.
#[verifier::spinoff_prover]
pub proof fn lemma_rearranged(
    ss: Seq<SessionState>,
    i: int,
    a: int,
    b: int,
    move_it: bool,
    next: u32,
    ks: Seq<KilledState>,
)
    requires
        sessions_wf(ss),
        apart(ss),
        numbered_below(ss, next),
        killed_wf(ks, ss, next),
        at(ss, i, a),
        0 <= b,
        !move_it ==> b < ss[i].windows.len(),
    ensures
        sessions_wf(ss.update(i, rearranged(ss[i], a, b, move_it))),
        apart(ss.update(i, rearranged(ss[i], a, b, move_it))),
        numbered_below(ss.update(i, rearranged(ss[i], a, b, move_it)), next),
        killed_wf(ks, ss.update(i, rearranged(ss[i], a, b, move_it)), next),
        ({
            let s = ss[i];
            let t = rearranged(s, a, b, move_it);
            t.windows[t.cur].id == s.windows[s.cur].id
        }),
{
    let s = ss[i];
    let t = rearranged(s, a, b, move_it);
    let n = s.windows.len() as int;
    assert(s.wf());
    let to = if b < n - 1 {
        b
    } else {
        n - 1
    };
    let from = |j: int|
        if move_it {
            if j == to {
                a
            } else {
                let k = if j < to {
                    j
                } else {
                    j - 1
                };
                if k < a {
                    k
                } else {
                    k + 1
                }
            }
        } else if j == a {
            b
        } else if j == b {
            a
        } else {
            j
        };
    assert forall|j: int| 0 <= j < n implies 0 <= #[trigger] from(j) < n && t.windows[j] == s.windows[from(j)] by {}
    // The current window is there, somewhere.
    let back = if move_it {
        if s.cur == a {
            to
        } else {
            let k = if s.cur < a {
                s.cur
            } else {
                s.cur - 1
            };
            if k < to {
                k
            } else {
                k + 1
            }
        }
    } else if s.cur == a {
        b
    } else if s.cur == b {
        a
    } else {
        s.cur
    };
    assert(from(back) == s.cur);
    assert(t.windows[back].id == s.windows[s.cur].id);
    lemma_window_place(t.windows, s.windows[s.cur].id, 0);
    lemma_permuted(s, t, from);
    let c = ss.update(i, t);
    let whole = |k: int, l: int|
        if k == i {
            (k, from(l))
        } else {
            (k, l)
        };
    assert(descends(ss, c, whole)) by {
        assert forall|k: int| 0 <= k < c.len() implies exists|m: int|
            0 <= m < ss.len() && (#[trigger] ss[m]).id == (#[trigger] c[k]).id by {
            assert(ss[k].id == c[k].id);
        }
        assert forall|k: int, l: int| 0 <= k < l < c.len() implies (#[trigger] c[k]).id != (#[trigger] c[l]).id by {
            assert(ss[k].id != ss[l].id);
        }
        assert forall|k: int, l: int| #[trigger] at(c, k, l) implies at(ss, whole(k, l).0, whole(k, l).1)
            && c[k].windows[l] == ss[whole(k, l).0].windows[whole(k, l).1] by {
            if k == i {
                assert(0 <= from(l) < n);
            }
        }
        assert forall|k: int, l: int, x: int, y: int| #[trigger] at(c, k, l) && #[trigger] at(c, x, y) && whole(k, l)
            == whole(x, y) implies k == x && l == y by {
            if k == i && x == i {
                assert(from(l) == from(y));
            }
        }
    }
    lemma_descends(ss, c, whole, next, ks);
}

/// Lists of windows change as their views do.
proof fn lemma_window_lists(v: Seq<Window>, k: int, w: Window)
    ensures
        0 <= k < v.len() ==> window_states(v.remove(k)) == window_states(v).remove(k),
        0 <= k <= v.len() ==> window_states(v.insert(k, w)) == window_states(v).insert(k, w@),
{
    if 0 <= k < v.len() {
        assert(window_states(v.remove(k)) =~= window_states(v).remove(k));
    }
    if 0 <= k <= v.len() {
        assert(window_states(v.insert(k, w)) =~= window_states(v).insert(k, w@));
    }
}

fn trade_windows(v: &mut Vec<Window>, a: usize, b: usize)
    requires
        a < b < old(v)@.len(),
    ensures
        window_states(final(v)@) == traded_places(window_states(old(v)@), a as int, b as int),
{
    let ghost ws = window_states(v@);
    let ghost v0 = v@;
    let y = v.remove(b);
    let ghost v1 = v@;
    let x = v.remove(a);
    let ghost v2 = v@;
    v.insert(a, y);
    let ghost v3 = v@;
    v.insert(b, x);
    proof {
        lemma_window_lists(v0, b as int, y);
        lemma_window_lists(v1, a as int, x);
        lemma_window_lists(v2, a as int, y);
        lemma_window_lists(v3, b as int, x);
        assert(window_states(v@) =~= traded_places(ws, a as int, b as int));
    }
}

fn move_window_to(v: &mut Vec<Window>, a: usize, b: usize)
    requires
        a < old(v)@.len(),
    ensures
        window_states(final(v)@) == moved_to(window_states(old(v)@), a as int, b as int),
{
    let ghost v0 = v@;
    let w = v.remove(a);
    let ghost v1 = v@;
    let n: usize = v.len();
    let to: usize = if b < n { b } else { n };
    v.insert(to, w);
    proof {
        lemma_window_lists(v0, a as int, w);
        lemma_window_lists(v1, to as int, w);
    }
}

impl Session {
    /// Rearrange the windows; the one that is current stays so.
    pub fn rearrange(&mut self, a: usize, b: usize, move_it: bool)
        requires
            old(self)@.sound(),
            a < old(self)@.windows.len(),
            !move_it ==> b < old(self)@.windows.len(),
        ensures
            final(self)@ == rearranged(old(self)@, a as int, b as int, move_it),
    {
        let ghost s = self@;
        assert(s.windows[s.cur] == self.windows@[s.cur]@);
        let id: WindowId = self.windows[self.cur].id;
        if move_it {
            move_window_to(&mut self.windows, a, b);
        } else if a < b {
            trade_windows(&mut self.windows, a, b);
        } else if b < a {
            trade_windows(&mut self.windows, b, a);
            assert(traded_places(s.windows, a as int, b as int) =~= traded_places(s.windows, b as int, a as int));
        } else {
            assert(self@.windows =~= traded_places(s.windows, a as int, b as int));
        }
        self.follow(id);
        assert(self@ =~= rearranged(s, a as int, b as int, move_it));
    }

    /// Make window `id` current, if it is there.
    fn follow(&mut self, id: WindowId)
        ensures
            final(self)@ == following(old(self)@, id),
    {
        let ghost s = self@;
        let k: usize = self.place(id);
        if k < self.windows.len() {
            self.cur = k;
        }
        assert(self@ =~= following(s, id));
    }

    /// Let a window go.
    fn let_go(&mut self, a: usize) -> (w: Window)
        requires
            old(self)@.sound(),
            a < old(self)@.windows.len(),
        ensures
            final(self)@ == left_by(old(self)@, a as int),
            w@ == old(self)@.windows[a as int],
    {
        let ghost s = self@;
        assert(s.windows[s.cur] == self.windows@[s.cur]@);
        assert(s.windows[a as int] == self.windows@[a as int]@);
        let id: WindowId = self.windows[self.cur].id;
        let ghost v0 = self.windows@;
        let w = self.windows.remove(a);
        proof {
            lemma_window_lists(v0, a as int, w);
            lemma_window_place(self@.windows, id, 0);
        }
        if let Some(l) = self.last {
            if l == w.id {
                self.last = None;
            }
        }
        let n: usize = self.windows.len();
        let k: usize = self.place(id);
        if id != w.id && k < n {
            self.cur = k;
        } else if self.cur >= n {
            self.cur = if n == 0 { 0 } else { n - 1 };
        }
        assert(self@ =~= left_by(s, a as int));
        w
    }

    /// Take a window in.
    fn take_up(&mut self, b: usize, w: Window)
        requires
            old(self)@.sound(),
        ensures
            final(self)@ == joined_by_window(old(self)@, b as int, w@),
    {
        let ghost s = self@;
        assert(s.windows[s.cur] == self.windows@[s.cur]@);
        let id: WindowId = self.windows[self.cur].id;
        let n: usize = self.windows.len();
        let to: usize = if b < n { b } else { n };
        proof {
            lemma_window_lists(self.windows@, to as int, w);
        }
        self.windows.insert(to, w);
        self.follow(id);
        assert(self@ =~= joined_by_window(s, b as int, w@));
    }
}

/// Windows that change sessions leave every pane in its window.
#[verifier::spinoff_prover]
#[verifier::rlimit(40)]
proof fn lemma_swapped_windows(ss: Seq<SessionState>, i: int, a: int, k: int, b: int, next: u32, ks: Seq<KilledState>)
    requires
        sessions_wf(ss),
        apart(ss),
        numbered_below(ss, next),
        killed_wf(ks, ss, next),
        at(ss, i, a),
        at(ss, k, b),
        i != k,
    ensures
        sessions_sound(swapped_windows(ss, i, a, k, b)),
        apart(swapped_windows(ss, i, a, k, b)),
        numbered_below(swapped_windows(ss, i, a, k, b), next),
        killed_wf(ks, swapped_windows(ss, i, a, k, b), next),
{
    let t = swapped_windows(ss, i, a, k, b);
    assert(ss[i].wf() && ss[k].wf());
    lemma_sound_of_wf(ss);
    let from = |x: int, y: int|
        if x == i && y == a {
            (k, b)
        } else if x == k && y == b {
            (i, a)
        } else {
            (x, y)
        };
    lemma_window_place(t[i].windows, ss[i].windows[ss[i].cur].id, 0);
    lemma_window_place(t[k].windows, ss[k].windows[ss[k].cur].id, 0);
    assert forall|x: int, y: int| #[trigger] at(t, x, y) implies at(ss, from(x, y).0, from(x, y).1) && t[x].windows[y]
        == ss[from(x, y).0].windows[from(x, y).1] by {}
    assert(descends(ss, t, from)) by {
        assert forall|x: int| 0 <= x < t.len() implies exists|m: int|
            0 <= m < ss.len() && (#[trigger] ss[m]).id == (#[trigger] t[x]).id by {
            assert(ss[x].id == t[x].id);
        }
        assert forall|x: int, y: int| 0 <= x < y < t.len() implies (#[trigger] t[x]).id != (#[trigger] t[y]).id by {
            assert(ss[x].id != ss[y].id);
        }
    }
    lemma_descends(ss, t, from, next, ks);
    assert forall|x: int| 0 <= x < t.len() implies (#[trigger] t[x]).sound() by {
        assert(ss[x].wf());
        assert forall|y: int| 0 <= y < t[x].windows.len() implies (#[trigger] t[x].windows[y]).wf() by {
            assert(at(t, x, y));
            let f = from(x, y);
            assert(ss[f.0].wf());
            assert(ss[f.0].windows[f.1].wf());
        }
        assert forall|y: int, z: int| 0 <= y < z < t[x].windows.len() implies (#[trigger] t[x].windows[y]).id != (
        #[trigger] t[x].windows[z]).id by {
            assert(stands(t, x, y, t[x].windows[y].id));
            assert(stands(t, x, z, t[x].windows[z].id));
        }
    }
}

/// The two sessions after window `a` of session `i` went to session `k`.
pub open spec fn handed_over(ss: Seq<SessionState>, i: int, a: int, k: int, b: int) -> Seq<SessionState> {
    ss.update(k, joined_by_window(ss[k], b, ss[i].windows[a])).update(i, left_by(ss[i], a))
}

/// A window that goes to another session is there, and nowhere else.
#[verifier::spinoff_prover]
#[verifier::rlimit(60)]
proof fn lemma_handed_over(ss: Seq<SessionState>, i: int, a: int, k: int, b: int, next: u32, ks: Seq<KilledState>)
    requires
        sessions_wf(ss),
        apart(ss),
        numbered_below(ss, next),
        killed_wf(ks, ss, next),
        at(ss, i, a),
        0 <= k < ss.len(),
        0 <= b,
        i != k,
    ensures
        apart(handed_over(ss, i, a, k, b)),
        numbered_below(handed_over(ss, i, a, k, b), next),
        killed_wf(ks, handed_over(ss, i, a, k, b), next),
        forall|x: int|
            0 <= x < ss.len() && (x != i || ss[i].windows.len() > 1) ==> (#[trigger] handed_over(
                ss,
                i,
                a,
                k,
                b,
            )[x]).sound(),
        forall|x: int| 0 <= x < ss.len() ==> (#[trigger] handed_over(ss, i, a, k, b)[x]).id == ss[x].id,
        forall|x: int|
            0 <= x < ss.len() && x != i && x != k ==> (#[trigger] handed_over(ss, i, a, k, b)[x]) == ss[x],
{
    let t = handed_over(ss, i, a, k, b);
    let to = if b < ss[k].windows.len() {
        b
    } else {
        ss[k].windows.len() as int
    };
    assert(ss[i].wf() && ss[k].wf());
    let from = |x: int, y: int|
        if x == i {
            (
                i,
                if y < a {
                    y
                } else {
                    y + 1
                },
            )
        } else if x == k {
            if y == to {
                (i, a)
            } else {
                (
                    k,
                    if y < to {
                        y
                    } else {
                        y - 1
                    },
                )
            }
        } else {
            (x, y)
        };
    lemma_window_place(ss[i].windows.remove(a), ss[i].windows[ss[i].cur].id, 0);
    lemma_window_place(ss[k].windows.insert(to, ss[i].windows[a]), ss[k].windows[ss[k].cur].id, 0);
    assert forall|x: int, y: int| #[trigger] at(t, x, y) implies at(ss, from(x, y).0, from(x, y).1) && t[x].windows[y]
        == ss[from(x, y).0].windows[from(x, y).1] by {}
    assert forall|x: int| 0 <= x < ss.len() implies (#[trigger] t[x]).id == ss[x].id by {}
    assert(descends(ss, t, from)) by {
        assert forall|x: int| 0 <= x < t.len() implies exists|m: int|
            0 <= m < ss.len() && (#[trigger] ss[m]).id == (#[trigger] t[x]).id by {
            assert(ss[x].id == t[x].id);
        }
        assert forall|x: int, y: int| 0 <= x < y < t.len() implies (#[trigger] t[x]).id != (#[trigger] t[y]).id by {
            assert(ss[x].id != ss[y].id);
            assert(ss[x].id == t[x].id && ss[y].id == t[y].id);
        }
    }
    lemma_descends(ss, t, from, next, ks);
    assert forall|x: int| 0 <= x < t.len() && (x != i || ss[i].windows.len() > 1) implies (#[trigger] t[x]).sound() by {
        assert(ss[x].wf());
        assert forall|y: int| 0 <= y < t[x].windows.len() implies (#[trigger] t[x].windows[y]).wf() by {
            assert(at(t, x, y));
            let f = from(x, y);
            assert(ss[f.0].wf());
            assert(ss[f.0].windows[f.1].wf());
        }
        assert forall|y: int, z: int| 0 <= y < z < t[x].windows.len() implies (#[trigger] t[x].windows[y]).id != (
        #[trigger] t[x].windows[z]).id by {
            assert(stands(t, x, y, t[x].windows[y].id));
            assert(stands(t, x, z, t[x].windows[z].id));
        }
    }
}

/// What `swap-window` or `move-window` makes of the sessions.
pub open spec fn windows_moved(
    ss: Seq<SessionState>,
    opts: Options,
    i: int,
    a: int,
    k: int,
    b: int,
    move_it: bool,
) -> Seq<SessionState> {
    if i == k {
        if a == b {
            ss
        } else {
            ss.update(i, rearranged(ss[i], a, b, move_it))
        }
    } else if move_it {
        moved_window(ss, opts, i, a, k, b)
    } else {
        relaid(relaid(swapped_windows(ss, i, a, k, b), i, opts), k, opts)
    }
}

impl Server {
    #[verifier::spinoff_prover]
    fn swap_between(&mut self, i: usize, a: usize, k: usize, b: usize)
        requires
            old(self).wf(),
            at(old(self).states(), i as int, a as int),
            at(old(self).states(), k as int, b as int),
            i != k,
        ensures
            final(self).wf(),
            final(self).states() == relaid(
                relaid(
                    swapped_windows(old(self).states(), i as int, a as int, k as int, b as int),
                    i as int,
                    old(self).opts,
                ),
                k as int,
                old(self).opts,
            ),
            *final(self) == (Server { sessions: final(self).sessions, ..*old(self) }),
    {
        let ghost ss = self.states();
        proof {
            lemma_swapped_windows(
                ss,
                i as int,
                a as int,
                k as int,
                b as int,
                self.next_id,
                self.killed_list(),
            );
            assert(ss[i as int] == self.sessions@[i as int]@);
            assert(ss[k as int] == self.sessions@[k as int]@);
            assert(ss[i as int].wf() && ss[k as int].wf());
        }
        self.exchange_windows(i, a, k, b);
        let ghost mid = self.states();
        proof {
            lemma_clients_stay(self.clients@, ss, mid);
        }
        self.relayout_at(i);
        let ghost one = self.states();
        proof {
            assert forall|x: int| 0 <= x < one.len() && x != k implies (#[trigger] one[x]).wf() by {
                if x != i {
                    assert(one[x] == mid[x]);
                    assert(mid[x] == ss[x]);
                    assert(ss[x].wf());
                }
            }
        }
        self.relayout_at(k);
    }

    #[verifier::spinoff_prover]
    fn exchange_windows(&mut self, i: usize, a: usize, k: usize, b: usize)
        requires
            sessions_wf(old(self).states()),
            at(old(self).states(), i as int, a as int),
            at(old(self).states(), k as int, b as int),
            i != k,
        ensures
            final(self).states() == swapped_windows(
                old(self).states(),
                i as int,
                a as int,
                k as int,
                b as int,
            ),
            *final(self) == (Server { sessions: final(self).sessions, ..*old(self) }),
    {
        let ghost ss = self.states();
        proof {
            assert(ss[i as int] == self.sessions@[i as int]@);
            assert(ss[k as int] == self.sessions@[k as int]@);
            assert(ss[i as int].wf() && ss[k as int].wf());
        }
        let wa = self.sessions[i].windows.remove(a);
        let wb = self.sessions[k].windows.remove(b);
        let ghost xa = wa@;
        let ghost xb = wb@;
        proof {
            assert(xa == ss[i as int].windows[a as int]);
            assert(xb == ss[k as int].windows[b as int]);
        }
        let ia: WindowId = if self.sessions[i].cur == a {
            wa.id
        } else if self.sessions[i].cur < a {
            let c: usize = self.sessions[i].cur;
            self.sessions[i].windows[c].id
        } else {
            let c: usize = self.sessions[i].cur - 1;
            self.sessions[i].windows[c].id
        };
        let ik: WindowId = if self.sessions[k].cur == b {
            wb.id
        } else if self.sessions[k].cur < b {
            let c: usize = self.sessions[k].cur;
            self.sessions[k].windows[c].id
        } else {
            let c: usize = self.sessions[k].cur - 1;
            self.sessions[k].windows[c].id
        };
        proof {
            let s = ss[i as int];
            let d = ss[k as int];
            assert(ia == s.windows[s.cur].id);
            assert(ik == d.windows[d.cur].id);
        }
        self.sessions[i].windows.insert(a, wb);
        self.sessions[i].last = None;
        self.sessions[k].windows.insert(b, wa);
        self.sessions[k].last = None;
        proof {
            let s = ss[i as int];
            let d = ss[k as int];
            assert(self.sessions@[i as int]@ =~= (SessionState {
                windows: s.windows.update(a as int, xb),
                last: None,
                ..s
            }));
            assert(self.sessions@[k as int]@ =~= (SessionState {
                windows: d.windows.update(b as int, xa),
                last: None,
                ..d
            }));
        }
        self.sessions[i].follow(ia);
        self.sessions[k].follow(ik);
        assert(self.states() =~= swapped_windows(ss, i as int, a as int, k as int, b as int));
    }

    #[verifier::spinoff_prover]
    #[verifier::rlimit(40)]
    fn hand_over(&mut self, i: usize, a: usize, k: usize, b: usize)
        requires
            old(self).wf(),
            at(old(self).states(), i as int, a as int),
            k < old(self).states().len(),
            i != k,
        ensures
            final(self).wf(),
            final(self).states() == moved_window(
                old(self).states(),
                old(self).opts,
                i as int,
                a as int,
                k as int,
                b as int,
            ),
            *final(self) == (Server { sessions: final(self).sessions, clients: final(self).clients, ..*old(self) }),
            if old(self).states()[i as int].windows.len() == 1 {
                all_detached(
                    old(self).clients@,
                    final(self).clients@,
                    old(self).states()[i as int].id,
                    "moved away"@,
                )
            } else {
                final(self).clients == old(self).clients
            },
    {
        let ghost ss = self.states();
        let ghost cs = self.clients@;
        let ghost both = handed_over(ss, i as int, a as int, k as int, b as int);
        proof {
            lemma_handed_over(ss, i as int, a as int, k as int, b as int, self.next_id, self.killed_list());
            assert(ss[i as int] == self.sessions@[i as int]@);
            assert(ss[k as int] == self.sessions@[k as int]@);
            assert(ss[i as int].wf() && ss[k as int].wf());
        }
        let only: bool = self.sessions[i].windows.len() == 1;
        let w = self.sessions[i].let_go(a);
        self.sessions[k].take_up(b, w);
        assert(self.states() =~= both);
        if only {
            let gone = self.sessions.remove(i);
            let ghost rest = both.remove(i as int);
            proof {
                assert(self.states() =~= rest);
                lemma_rest(both, i as int, self.next_id, self.killed_list());
            }
            self.detach_all(gone.id, "moved away");
            proof {
                lemma_left_clients(cs, self.clients@, ss, both, i as int);
            }
            let d: usize = if k > i { k - 1 } else { k };
            proof {
                assert forall|x: int| 0 <= x < rest.len() && x != d implies (#[trigger] rest[x]).wf() by {
                    let y = if x >= i {
                        x + 1
                    } else {
                        x
                    };
                    assert(rest[x] == both[y]);
                    assert(both[y] == ss[y]);
                    assert(ss[y].wf());
                }
            }
            self.relayout_at(d);
        } else {
            proof {
                lemma_clients_stay(self.clients@, ss, both);
            }
            self.relayout_at(i);
            let ghost one = self.states();
            proof {
                assert forall|x: int| 0 <= x < one.len() && x != k implies (#[trigger] one[x]).wf() by {
                    if x != i {
                        assert(one[x] == both[x]);
                        assert(both[x] == ss[x]);
                        assert(ss[x].wf());
                    }
                }
            }
            self.relayout_at(k);
        }
    }

    /// `swap-window` / `move-window`.
    pub fn swap_window(&mut self, src: Option<&Target>, dst: Option<&Target>, move_it: bool, cid: Option<ClientId>) -> (
        out: Outcome)
        requires
            old(self).wf(),
        ensures
            final(self).wf(),
            match place_for(old(self).states(), old(self).clients@, old(self).opts, aimed(src), cid) {
                Err(e) => out@ == Ended::Error(e) && *final(self) == *old(self),
                Ok(s) => match destination(
                    old(self).states(),
                    old(self).clients@,
                    old(self).opts,
                    aimed(dst),
                    move_it,
                    cid,
                ) {
                    Err(e) => out@ == Ended::Error(e) && *final(self) == *old(self),
                    Ok(d) => {
                        let ss = old(self).states();
                        &&& out@ == Ended::Done
                        &&& final(self).states() == windows_moved(
                            ss,
                            old(self).opts,
                            s.session,
                            s.window,
                            d.0,
                            d.1,
                            move_it,
                        )
                        &&& *final(self) == (Server {
                            sessions: final(self).sessions,
                            clients: final(self).clients,
                            ..*old(self)
                        })
                        &&& if s.session != d.0 && move_it && ss[s.session].windows.len() == 1 {
                            all_detached(old(self).clients@, final(self).clients@, ss[s.session].id, "moved away"@)
                        } else {
                            final(self).clients == old(self).clients
                        }
                    },
                },
            },
    {
        let (i, a, _) = match self.find_place(src, cid) {
            Ok(p) => p,
            Err(e) => {
                return Outcome::Error(e);
            },
        };
        let (k, b) = match self.find_destination(dst, move_it, cid) {
            Ok(p) => p,
            Err(e) => {
                return Outcome::Error(e);
            },
        };
        if i != k {
            if move_it {
                self.hand_over(i, a, k, b);
            } else {
                self.swap_between(i, a, k, b);
            }
            return Outcome::Done;
        }
        if a == b {
            return Outcome::Done;
        }
        let ghost ss = self.states();
        proof {
            lemma_rearranged(ss, i as int, a as int, b as int, move_it, self.next_id, self.killed_list());
            assert(ss[i as int] == self.sessions@[i as int]@);
            assert(ss[i as int].wf());
        }
        self.sessions[i].rearrange(a, b, move_it);
        proof {
            assert(self.states() =~= ss.update(i as int, rearranged(ss[i as int], a as int, b as int, move_it)));
            lemma_clients_stay(self.clients@, ss, self.states());
        }
        Outcome::Done
    }

    fn find_destination(&self, dst: Option<&Target>, move_it: bool, cid: Option<ClientId>) -> (r: Result<
        (usize, usize),
        String,
    >)
        requires
            self.wf(),
        ensures
            match (r, destination(self.states(), self.clients@, self.opts, aimed(dst), move_it, cid)) {
                (Ok(x), Ok(y)) => x.0 == y.0 && x.1 == y.1 && x.0 < self.states().len() && (move_it || x.1
                    < self.states()[x.0 as int].windows.len()),
                (Err(x), Err(y)) => x@ == y,
                _ => false,
            },
    {
        match self.find_place(dst, cid) {
            Ok((i, j, _)) => Ok((i, j)),
            Err(e) => {
                if move_it {
                    if let Some(t) = dst {
                        if let Some(w) = &t.window {
                            if let Some(n) = read_number(&chars_of(w.as_str()), usize::MAX as u64) {
                                if let Ok(i) = self.find_session(dst, cid) {
                                    let base: usize = self.opts.base_index;
                                    let n: usize = n as usize;
                                    return Ok((i, if n > base { n - base } else { 0 }));
                                }
                            }
                        }
                    }
                }
                Err(e)
            },
        }
    }
}

/// Without a session that has no windows left, the others are in order.
proof fn lemma_rest(ss: Seq<SessionState>, i: int, next: u32, ks: Seq<KilledState>)
    requires
        0 <= i < ss.len(),
        apart(ss),
        numbered_below(ss, next),
        killed_wf(ks, ss, next),
        forall|x: int| 0 <= x < ss.len() && x != i ==> (#[trigger] ss[x]).sound(),
    ensures
        sessions_sound(ss.remove(i)),
        apart(ss.remove(i)),
        numbered_below(ss.remove(i), next),
        killed_wf(ks, ss.remove(i), next),
{
    let t = ss.remove(i);
    let up = |x: int|
        if x < i {
            x
        } else {
            x + 1
        };
    let from = |x: int, y: int| (up(x), y);
    assert forall|x: int| 0 <= x < t.len() implies t[x] == ss[#[trigger] up(x)] by {}
    assert(descends(ss, t, from)) by {
        assert forall|x: int| 0 <= x < t.len() implies exists|m: int|
            0 <= m < ss.len() && (#[trigger] ss[m]).id == (#[trigger] t[x]).id by {
            assert(ss[up(x)].id == t[x].id);
        }
        assert forall|x: int, y: int| 0 <= x < y < t.len() implies (#[trigger] t[x]).id != (#[trigger] t[y]).id by {
            assert(ss[up(x)].id != ss[up(y)].id);
        }
        assert forall|x: int, y: int| #[trigger] at(t, x, y) implies at(ss, up(x), y) && t[x].windows[y]
            == ss[up(x)].windows[y] by {
            assert(t[x] == ss[up(x)]);
        }
    }
    lemma_descends(ss, t, from, next, ks);
    assert forall|x: int| 0 <= x < t.len() implies (#[trigger] t[x]).sound() by {
        assert(ss[up(x)].sound());
    }
}

/// The clients that stay look at sessions that stay.
proof fn lemma_left_clients(
    cs: Seq<Client>,
    after: Seq<Client>,
    ss: Seq<SessionState>,
    both: Seq<SessionState>,
    i: int,
)
    requires
        clients_wf(cs, ss),
        0 <= i < ss.len(),
        both.len() == ss.len(),
        forall|x: int| 0 <= x < ss.len() ==> (#[trigger] both[x]).id == ss[x].id,
        all_detached(cs, after, ss[i].id, "moved away"@),
    ensures
        clients_wf(after, both.remove(i)),
{
    crate::endings::lemma_clients_left(cs, after, ss, i, "moved away"@);
    let a = ss.remove(i);
    let b = both.remove(i);
    assert forall|x: int| 0 <= x < a.len() implies (#[trigger] a[x]).id == b[x].id by {
        let y = if x < i {
            x
        } else {
            x + 1
        };
        assert(both[y].id == ss[y].id);
    }
    lemma_clients_stay(after, a, b);
}

} // verus!
