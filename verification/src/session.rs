//! A session: a list of windows, one of them the current one.
use vstd::prelude::*;

use crate::chooser::{SessionId, WindowId};
use crate::layout::{PaneId, Rect};
use crate::pane::at_least_one;
use crate::text::{chars_of, decimal, joined2, number_of, number_text, part_of, read_number, same_text};
use crate::window::{ids, lemma_laid_out, Window, WindowState};

verus! {

#[derive(Debug)]
pub struct Session {
    pub id: SessionId,
    pub name: String,
    pub windows: Vec<Window>,
    pub cur: usize,
    pub last: Option<WindowId>,
    pub cols: u16,
    pub rows: u16,
    /// When it was made and last used, in milliseconds of the server's clock.
    pub created: u64,
    pub last_used: u64,
    /// Unix time of creation.
    pub created_at: i64,
}

/// A session as mathematics.
#[verifier::ext_equal]
pub ghost struct SessionState {
    pub id: SessionId,
    pub name: Seq<char>,
    pub windows: Seq<WindowState>,
    pub cur: int,
    pub last: Option<WindowId>,
    pub cols: u16,
    pub rows: u16,
    pub created: u64,
    pub last_used: u64,
    pub created_at: i64,
}

pub open spec fn window_states(v: Seq<Window>) -> Seq<WindowState> {
    Seq::new(v.len(), |i: int| v[i]@)
}

impl View for Session {
    type V = SessionState;

    open spec fn view(&self) -> SessionState {
        SessionState {
            id: self.id,
            name: self.name@,
            windows: window_states(self.windows@),
            cur: self.cur as int,
            last: self.last,
            cols: self.cols,
            rows: self.rows,
            created: self.created,
            last_used: self.last_used,
            created_at: self.created_at,
        }
    }
}

/// The place of window `id` from `i` on; the end when it is not there.
pub open spec fn window_place(ws: Seq<WindowState>, id: WindowId, i: int) -> int
    decreases ws.len() - i,
{
    if i >= ws.len() {
        ws.len() as int
    } else if ws[i].id == id {
        i
    } else {
        window_place(ws, id, i + 1)
    }
}

pub proof fn lemma_window_place(ws: Seq<WindowState>, id: WindowId, i: int)
    requires
        0 <= i <= ws.len(),
    ensures
        i <= window_place(ws, id, i) <= ws.len(),
        window_place(ws, id, i) < ws.len() ==> ws[window_place(ws, id, i)].id == id,
        forall|j: int| i <= j < window_place(ws, id, i) ==> (#[trigger] ws[j]).id != id,
    decreases ws.len() - i,
{
    if i < ws.len() && ws[i].id != id {
        lemma_window_place(ws, id, i + 1);
    }
}

/// The first window from `i` on that has pane `id`; the end when none has.
pub open spec fn window_with(ws: Seq<WindowState>, id: PaneId, i: int) -> int
    decreases ws.len() - i,
{
    if i >= ws.len() {
        ws.len() as int
    } else if ws[i].has(id) {
        i
    } else {
        window_with(ws, id, i + 1)
    }
}

pub proof fn lemma_window_with(ws: Seq<WindowState>, id: PaneId, i: int)
    requires
        0 <= i <= ws.len(),
    ensures
        i <= window_with(ws, id, i) <= ws.len(),
        window_with(ws, id, i) < ws.len() ==> ws[window_with(ws, id, i)].has(id),
        forall|j: int| i <= j < window_with(ws, id, i) ==> !(#[trigger] ws[j]).has(id),
    decreases ws.len() - i,
{
    if i < ws.len() && !ws[i].has(id) {
        lemma_window_with(ws, id, i + 1);
    }
}

/// A name that is a number behind `sign`: the number.
pub open spec fn id_behind(name: Seq<char>, sign: char) -> Option<int> {
    if name.len() > 0 && name[0] == sign {
        number_of(name.skip(1), u32::MAX as int)
    } else {
        None
    }
}

/// The first window from `i` on with that name or number (`@3`).
pub open spec fn window_called(ws: Seq<WindowState>, name: Seq<char>, i: int) -> int
    decreases ws.len() - i,
{
    if i >= ws.len() {
        ws.len() as int
    } else if ws[i].name == name || id_behind(name, '@') == Some(ws[i].id as int) {
        i
    } else {
        window_called(ws, name, i + 1)
    }
}

pub open spec fn all_laid_out(ws: Seq<WindowState>, area: Rect, border: Option<bool>) -> Seq<WindowState> {
    Seq::new(ws.len(), |i: int| ws[i].laid_out(area, border))
}

/// Every window is well formed but for what is drawn, and no two have the
/// same number.
pub open spec fn windows_wf(ws: Seq<WindowState>) -> bool {
    &&& forall|i: int| 0 <= i < ws.len() ==> (#[trigger] ws[i]).wf()
    &&& forall|i: int, j: int| 0 <= i < j < ws.len() ==> (#[trigger] ws[i]).id != (#[trigger] ws[j]).id
}

impl SessionState {
    /// The session has windows, one of them current, but what is drawn may
    /// be out of date.
    pub open spec fn sound(self) -> bool {
        &&& windows_wf(self.windows)
        &&& 0 <= self.cur < self.windows.len()
        &&& self.cols >= 1
        &&& self.rows >= 1
    }

    pub open spec fn wf(self) -> bool {
        &&& self.sound()
        &&& forall|i: int| 0 <= i < self.windows.len() ==> (#[trigger] self.windows[i]).settled()
    }

    /// With window `idx` current; the one that was is the last one.
    pub open spec fn with_current(self, idx: int) -> SessionState {
        if idx < self.windows.len() && idx != self.cur {
            SessionState {
                last: if self.cur < self.windows.len() {
                    Some(self.windows[self.cur].id)
                } else {
                    None
                },
                cur: idx,
                ..self
            }
        } else {
            self
        }
    }

    /// At a size, every window laid out in `area`.
    pub open spec fn fitted_to(self, cols: u16, rows: u16, area: Rect, border: Option<bool>) -> SessionState {
        SessionState {
            cols: at_least_one(cols),
            rows: at_least_one(rows),
            windows: all_laid_out(self.windows, area, border),
            ..self
        }
    }

    /// Without window `w`. The window that was current before takes its
    /// place when there is one; otherwise the current one stays, or moves
    /// one towards the front when it stood behind or was the last of the
    /// list.
    pub open spec fn less_window(self, w: int) -> SessionState {
        let rest = self.windows.remove(w);
        let last = if self.last == Some(self.windows[w].id) {
            None
        } else {
            self.last
        };
        let back = match last {
            Some(id) => window_place(rest, id, 0),
            None => rest.len() as int,
        };
        if back < rest.len() {
            SessionState { windows: rest, cur: back, last: None, ..self }
        } else if self.cur >= rest.len() || self.cur > w {
            SessionState {
                windows: rest,
                cur: if self.cur == 0 {
                    0
                } else {
                    self.cur - 1
                },
                last,
                ..self
            }
        } else {
            SessionState { windows: rest, last, ..self }
        }
    }

    /// Without window `w`, which moved elsewhere: the current place stays,
    /// as far as the list goes.
    pub open spec fn given_window(self, w: int) -> SessionState {
        let rest = self.windows.remove(w);
        SessionState {
            windows: rest,
            cur: if self.cur < rest.len() {
                self.cur
            } else {
                rest.len() - 1
            },
            last: if self.last == Some(self.windows[w].id) {
                None
            } else {
                self.last
            },
            ..self
        }
    }

    /// The window `t` names: by a pane of it, by its place (counted from
    /// `base`), a step from the current one, its name or its number.
    pub open spec fn window_named(self, pane_id: Option<PaneId>, window: Option<Seq<char>>, base: usize) -> Result<
        int,
        Seq<char>,
    > {
        let n = self.windows.len() as int;
        match pane_id {
            Some(id) => if window_with(self.windows, id, 0) < n {
                Ok(window_with(self.windows, id, 0))
            } else {
                Err("can't find pane: %"@ + decimal(id as nat))
            },
            None => match window {
                None => Ok(self.cur),
                Some(w) => match number_of(w, usize::MAX as int) {
                    Some(k) => if 0 <= crate::arrange::past(k as usize, base) < n {
                        Ok(crate::arrange::past(k as usize, base))
                    } else {
                        Err("no window "@ + decimal(k as nat))
                    },
                    None => if w == "+"@ || w == "next"@ {
                        Ok((self.cur + 1) % n)
                    } else if w == "-"@ || w == "prev"@ {
                        Ok((self.cur + n - 1) % n)
                    } else if w == "!"@ || w == "last"@ {
                        if self.last is Some && window_place(self.windows, self.last->0, 0) < n {
                            Ok(window_place(self.windows, self.last->0, 0))
                        } else {
                            Err("no last window"@)
                        }
                    } else if window_called(self.windows, w, 0) < n {
                        Ok(window_called(self.windows, w, 0))
                    } else {
                        Err("can't find window: "@ + w)
                    },
                },
            },
        }
    }

    /// The `d`-th window on from the current one, going round.
    pub open spec fn on_by(self, d: int, forward: bool) -> int {
        let n = self.windows.len() as int;
        if forward {
            (self.cur + d) % n
        } else {
            (self.cur + n - d % n) % n
        }
    }

    /// The first window with an alert, `d` or more places on.
    pub open spec fn alert_from(self, d: int, forward: bool) -> Option<int>
        decreases self.windows.len() - d + 1,
    {
        if d > self.windows.len() {
            None
        } else if self.windows[self.on_by(d, forward)].alerting() {
            Some(self.on_by(d, forward))
        } else {
            self.alert_from(d + 1, forward)
        }
    }
}

/// Windows laid out are still those windows.
pub proof fn lemma_fitted_to(s: SessionState, cols: u16, rows: u16, area: Rect, border: Option<bool>)
    requires
        s.sound(),
        area.fits(),
    ensures
        s.fitted_to(cols, rows, area, border).wf(),
        forall|i: int|
            0 <= i < s.windows.len() ==> ids((#[trigger] s.fitted_to(cols, rows, area, border).windows[i]).panes)
                == ids(s.windows[i].panes),
{
    let after = s.fitted_to(cols, rows, area, border);
    assert forall|i: int| 0 <= i < s.windows.len() implies (#[trigger] after.windows[i]).settled() && ids(
        after.windows[i].panes,
    ) == ids(s.windows[i].panes) by {
        lemma_laid_out(s.windows[i], area, border);
    }
}

/// A session that loses a window, and has another, is still sound.
pub proof fn lemma_less_window(s: SessionState, w: int)
    requires
        s.sound(),
        0 <= w < s.windows.len(),
        s.windows.len() > 1,
    ensures
        s.less_window(w).sound(),
        s.given_window(w).sound(),
        s.wf() ==> s.less_window(w).wf(),
        s.wf() ==> s.given_window(w).wf(),
{
    let rest = s.windows.remove(w);
    if let Some(id) = s.last {
        lemma_window_place(rest, id, 0);
    }
    assert forall|i: int| 0 <= i < rest.len() implies (#[trigger] rest[i]).wf() && (s.wf() ==> rest[i].settled()) by {
        let j = if i < w {
            i
        } else {
            i + 1
        };
        assert(rest[i] == s.windows[j]);
    }
    assert forall|i: int, j: int| 0 <= i < j < rest.len() implies (#[trigger] rest[i]).id != (#[trigger] rest[j]).id by {
        let a = if i < w {
            i
        } else {
            i + 1
        };
        let b = if j < w {
            j
        } else {
            j + 1
        };
        assert(s.windows[a].id != s.windows[b].id);
    }
}

/// Going to the next window and then to the previous one comes back.
pub proof fn lemma_next_then_previous(s: SessionState, base: usize)
    requires
        s.sound(),
    ensures
        ({
            let there = s.with_current(s.window_named(None, Some("+"@), base)->Ok_0);
            there.window_named(None, Some("-"@), base) == Ok::<int, Seq<char>>(s.cur)
        }),
{
    reveal_strlit("+");
    reveal_strlit("-");
    reveal_strlit("next");
    reveal_strlit("prev");
    let n = s.windows.len() as int;
    assert("+"@.skip(1) =~= Seq::<char>::empty());
    assert("-"@[0] == '-');
    assert(crate::text::unsigned("-"@) == "-"@);
    assert(!crate::text::all_digits("-"@)) by {
        assert(!crate::text::is_digit("-"@[0]));
    }
    assert("-"@ != "+"@) by {
        assert("+"@[0] == '+');
    }
    assert("-"@.len() != "next"@.len());
    let k = (s.cur + 1) % n;
    lemma_round(s.cur, 1, n);
    if k == 0 {
        vstd::arithmetic::div_mod::lemma_small_mod((n - 1) as nat, n as nat);
    } else {
        vstd::arithmetic::div_mod::lemma_mod_add_multiples_vanish(s.cur, n);
        vstd::arithmetic::div_mod::lemma_small_mod(s.cur as nat, n as nat);
    }
}

/// The last window of the last window is the one there was.
pub proof fn lemma_last_goes_back(s: SessionState, idx: int, base: usize)
    requires
        s.sound(),
        0 <= idx < s.windows.len(),
        idx != s.cur,
    ensures
        s.with_current(idx).window_named(None, Some("!"@), base) == Ok::<int, Seq<char>>(s.cur),
{
    reveal_strlit("!");
    reveal_strlit("+");
    reveal_strlit("-");
    reveal_strlit("next");
    reveal_strlit("prev");
    assert("!"@[0] == '!');
    assert("+"@[0] == '+');
    assert("-"@[0] == '-');
    assert(crate::text::unsigned("!"@) == "!"@);
    assert(!crate::text::all_digits("!"@)) by {
        assert(!crate::text::is_digit("!"@[0]));
    }
    assert("!"@.len() != "next"@.len() && "!"@.len() != "prev"@.len());
    let there = s.with_current(idx);
    lemma_window_place(there.windows, s.windows[s.cur].id, 0);
    let k = window_place(there.windows, s.windows[s.cur].id, 0);
    if k < s.cur {
        assert(s.windows[k].id != s.windows[s.cur].id);
    }
}

impl Session {
    /// The current window.
    pub fn window(&self) -> (w: Option<&Window>)
        ensures
            w is Some <==> self@.cur < self@.windows.len(),
            w matches Some(x) ==> x@ == self@.windows[self@.cur],
    {
        if self.cur < self.windows.len() {
            Some(&self.windows[self.cur])
        } else {
            None
        }
    }

    /// The place of a window, or the length of the list.
    pub fn place(&self, id: WindowId) -> (k: usize)
        ensures
            k == window_place(self@.windows, id, 0),
            k <= self@.windows.len(),
            k < self@.windows.len() ==> self@.windows[k as int].id == id,
    {
        let mut i: usize = 0;
        while i < self.windows.len()
            invariant
                i <= self.windows@.len(),
                window_place(self@.windows, id, 0) == window_place(self@.windows, id, i as int),
            decreases self.windows.len() - i,
        {
            assert(self@.windows[i as int] == self.windows@[i as int]@);
            if self.windows[i].id == id {
                return i;
            }
            i = i + 1;
        }
        i
    }

    /// The place of the window that has a pane, or the length of the list.
    pub fn place_with(&self, id: PaneId) -> (k: usize)
        ensures
            k == window_with(self@.windows, id, 0),
            k <= self@.windows.len(),
            k < self@.windows.len() ==> self@.windows[k as int].has(id),
    {
        let mut i: usize = 0;
        while i < self.windows.len()
            invariant
                i <= self.windows@.len(),
                window_with(self@.windows, id, 0) == window_with(self@.windows, id, i as int),
            decreases self.windows.len() - i,
        {
            assert(self@.windows[i as int] == self.windows@[i as int]@);
            if self.windows[i].has(id) {
                return i;
            }
            i = i + 1;
        }
        i
    }

    fn place_called(&self, name: &str) -> (k: usize)
        ensures
            k == window_called(self@.windows, name@, 0),
            k <= self@.windows.len(),
    {
        let number = number_behind(name, '@');
        let mut i: usize = 0;
        while i < self.windows.len()
            invariant
                i <= self.windows@.len(),
                match number {
                    Some(n) => id_behind(name@, '@') == Some(n as int),
                    None => id_behind(name@, '@') is None,
                },
                window_called(self@.windows, name@, 0) == window_called(self@.windows, name@, i as int),
            decreases self.windows.len() - i,
        {
            assert(self@.windows[i as int] == self.windows@[i as int]@);
            let by_number: bool = match number {
                Some(n) => n == self.windows[i].id,
                None => false,
            };
            if by_number || same_text(self.windows[i].name.as_str(), name) {
                return i;
            }
            i = i + 1;
        }
        i
    }

    /// Make a window the current one.
    pub fn select_window(&mut self, idx: usize)
        ensures
            final(self)@ == old(self)@.with_current(idx as int),
    {
        let ghost before = self@;
        if idx < self.windows.len() && idx != self.cur {
            self.last = if self.cur < self.windows.len() {
                assert(self@.windows[self.cur as int] == self.windows@[self.cur as int]@);
                Some(self.windows[self.cur].id)
            } else {
                None
            };
            self.cur = idx;
        }
        assert(self@ =~= before.with_current(idx as int));
    }

    /// Give the session a size, and its windows the area they have then.
    pub fn fit(&mut self, cols: u16, rows: u16, area: Rect, border: Option<bool>)
        requires
            old(self)@.sound(),
            area.fits(),
        ensures
            final(self)@ == old(self)@.fitted_to(cols, rows, area, border),
            final(self)@.wf(),
    {
        let ghost before = self@;
        self.cols = if cols == 0 { 1 } else { cols };
        self.rows = if rows == 0 { 1 } else { rows };
        let ghost start = self@;
        let mut i: usize = 0;
        while i < self.windows.len()
            invariant
                i <= self.windows@.len(),
                self.windows@.len() == before.windows.len(),
                before.sound(),
                area.fits(),
                self@ == (SessionState { windows: self@.windows, ..start }),
                forall|j: int|
                    0 <= j < i ==> (#[trigger] self.windows@[j])@ == before.windows[j].laid_out(area, border),
                forall|j: int| i <= j < before.windows.len() ==> (#[trigger] self.windows@[j])@ == before.windows[j],
            decreases self.windows.len() - i,
        {
            assert(before.windows[i as int].wf());
            self.windows[i].relayout(area, border);
            i = i + 1;
        }
        proof {
            assert(self@.windows =~= all_laid_out(before.windows, area, border));
            lemma_fitted_to(before, cols, rows, area, border);
            assert(self@ =~= before.fitted_to(cols, rows, area, border));
        }
    }

    /// Take a window out; the session has another.
    pub fn take_window(&mut self, w: usize) -> (window: Window)
        requires
            old(self)@.sound(),
            w < old(self)@.windows.len(),
            old(self)@.windows.len() > 1,
        ensures
            final(self)@ == old(self)@.less_window(w as int),
            final(self)@.sound(),
            window@ == old(self)@.windows[w as int],
    {
        let ghost before = self@;
        proof {
            lemma_less_window(before, w as int);
        }
        let window = self.windows.remove(w);
        assert(self@.windows =~= before.windows.remove(w as int));
        if let Some(l) = self.last {
            if l == window.id {
                self.last = None;
            }
        }
        let n: usize = self.windows.len();
        let back: usize = match self.last {
            Some(l) => self.place(l),
            None => n,
        };
        if back < n {
            self.cur = back;
            self.last = None;
        } else if self.cur >= n || self.cur > w {
            self.cur = if self.cur == 0 { 0 } else { self.cur - 1 };
        }
        assert(self@ =~= before.less_window(w as int));
        window
    }

    /// Hand a window over; the session has another.
    pub fn give_window(&mut self, w: usize) -> (window: Window)
        requires
            old(self)@.sound(),
            w < old(self)@.windows.len(),
            old(self)@.windows.len() > 1,
        ensures
            final(self)@ == old(self)@.given_window(w as int),
            final(self)@.sound(),
            window@ == old(self)@.windows[w as int],
    {
        let ghost before = self@;
        proof {
            lemma_less_window(before, w as int);
        }
        let window = self.windows.remove(w);
        assert(self@.windows =~= before.windows.remove(w as int));
        if let Some(l) = self.last {
            if l == window.id {
                self.last = None;
            }
        }
        let n: usize = self.windows.len();
        if self.cur >= n {
            self.cur = n - 1;
        }
        assert(self@ =~= before.given_window(w as int));
        window
    }

    /// The place of the window that a target names.
    pub fn resolve_window(&self, pane_id: Option<PaneId>, window: Option<&str>, base: usize) -> (r: Result<
        usize,
        String,
    >)
        requires
            self@.sound(),
        ensures
            match (r, self@.window_named(
                pane_id,
                match window {
                    Some(w) => Some(w@),
                    None => None,
                },
                base,
            )) {
                (Ok(a), Ok(b)) => a == b && a < self@.windows.len(),
                (Err(a), Err(b)) => a@ == b,
                _ => false,
            },
    {
        let n: usize = self.windows.len();
        if let Some(id) = pane_id {
            let k: usize = self.place_with(id);
            if k < n {
                return Ok(k);
            }
            return Err(joined2("can't find pane: %", number_text(id as u64).as_str()));
        }
        let w = match window {
            Some(w) => w,
            None => {
                return Ok(self.cur);
            },
        };
        if let Some(k) = read_number(&chars_of(w), usize::MAX as u64) {
            let idx: usize = (k as usize).wrapping_sub(base);
            if idx < n {
                return Ok(idx);
            }
            return Err(joined2("no window ", number_text(k).as_str()));
        }
        if same_text(w, "+") || same_text(w, "next") {
            return Ok((self.cur + 1) % n);
        }
        if same_text(w, "-") || same_text(w, "prev") {
            return Ok(step_back(self.cur, n));
        }
        if same_text(w, "!") || same_text(w, "last") {
            if let Some(l) = self.last {
                let k: usize = self.place(l);
                if k < n {
                    return Ok(k);
                }
            }
            return Err("no last window".to_owned());
        }
        let k: usize = self.place_called(w);
        if k < n {
            return Ok(k);
        }
        Err(joined2("can't find window: ", w))
    }

    /// `next-window -a` / `previous-window -a`: walk the ring from the
    /// current window and stop at the first one waiting to say something.
    pub fn next_alert(&self, forward: bool) -> (found: Option<usize>)
        requires
            self@.sound(),
        ensures
            match found {
                Some(k) => self@.alert_from(1, forward) == Some(k as int) && k < self@.windows.len(),
                None => self@.alert_from(1, forward) is None,
            },
    {
        let n: usize = self.windows.len();
        let mut d: usize = 0;
        while d < n
            invariant
                d <= n == self@.windows.len(),
                n == self.windows@.len(),
                self@.sound(),
                self@.alert_from(1, forward) == self@.alert_from(d + 1, forward),
            decreases n - d,
        {
            // One place beyond `d`, going round.
            let k: usize = if forward {
                let room: usize = n - self.cur;
                if d + 1 < room {
                    self.cur + (d + 1)
                } else {
                    d + 1 - room
                }
            } else if d + 1 <= self.cur {
                self.cur - (d + 1)
            } else {
                n - (d + 1 - self.cur)
            };
            proof {
                lemma_round(self.cur as int, d + 1, n as int);
            }
            assert(k == self@.on_by(d + 1, forward));
            assert(self@.windows[k as int] == self.windows@[k as int]@);
            if self.windows[k].alert_activity || self.windows[k].alert_bell || self.windows[k].alert_silence {
                return Some(k);
            }
            d = d + 1;
        }
        None
    }
}

proof fn lemma_round(cur: int, d: int, n: int)
    requires
        0 <= cur < n,
        1 <= d <= n,
    ensures
        (cur + d) % n == if cur + d < n {
            cur + d
        } else {
            cur + d - n
        },
        (cur + n - d % n) % n == if d <= cur {
            cur - d
        } else {
            n - (d - cur)
        },
{
    vstd::arithmetic::div_mod::lemma_mod_self_0(n);
    if d < n {
        vstd::arithmetic::div_mod::lemma_small_mod(d as nat, n as nat);
    }
    if cur + d < n {
        vstd::arithmetic::div_mod::lemma_small_mod((cur + d) as nat, n as nat);
    } else {
        vstd::arithmetic::div_mod::lemma_mod_add_multiples_vanish(cur + d - n, n);
        vstd::arithmetic::div_mod::lemma_small_mod((cur + d - n) as nat, n as nat);
    }
    let back = cur + n - d % n;
    if back < n {
        vstd::arithmetic::div_mod::lemma_small_mod(back as nat, n as nat);
    } else {
        vstd::arithmetic::div_mod::lemma_mod_add_multiples_vanish(back - n, n);
        vstd::arithmetic::div_mod::lemma_small_mod((back - n) as nat, n as nat);
    }
}

/// One place back, going round.
pub fn step_back(cur: usize, n: usize) -> (k: usize)
    requires
        cur < n,
    ensures
        k == (cur + n - 1) % (n as int),
{
    proof {
        lemma_round(cur as int, n as int - 1 + if n == 1 { 1int } else { 0int }, n as int);
        if cur == 0 {
            vstd::arithmetic::div_mod::lemma_small_mod((n - 1) as nat, n as nat);
        } else {
            vstd::arithmetic::div_mod::lemma_mod_add_multiples_vanish(cur - 1, n as int);
            vstd::arithmetic::div_mod::lemma_small_mod((cur - 1) as nat, n as nat);
        }
    }
    if cur == 0 {
        n - 1
    } else {
        cur - 1
    }
}

/// The number written behind `sign`.
pub fn number_behind(name: &str, sign: char) -> (n: Option<u32>)
    ensures
        match n {
            Some(v) => id_behind(name@, sign) == Some(v as int),
            None => id_behind(name@, sign) is None,
        },
{
    let s = chars_of(name);
    if s.len() == 0 || s[0] != sign {
        return None;
    }
    let rest = part_of(&s, 1, s.len());
    assert(rest@ =~= name@.skip(1));
    match read_number(&rest, u32::MAX as u64) {
        Some(v) => Some(v as u32),
        None => None,
    }
}

} // verus!
