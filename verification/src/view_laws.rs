//! Layouts in turn, completion, what formats are told, and what becomes of
//! waits and pickers.
use vstd::prelude::*;

use crate::actor::{ActorState, Message, MsgId, WorkMode};
use crate::arrange::{is_laid_by, preset_before, preset_beside};
use crate::attending::{cleared, is_planned, meant, Opening, Whom};
use crate::chooser::{Chooser, ChooserItem, ClientId};
use crate::client::{is_new, Client};
use crate::command::Target;
use crate::context::{
    tells_client, tells_edges, tells_pane, tells_session, tells_window, ClientFacts, Clock, Edges, PaneFacts,
    SessionFacts, WindowFacts,
};
use crate::drawing::is_relisted;
use crate::finds::{scope_for, Scope};
use crate::frames::drawn_panes;
use crate::key_flow::{is_keyed, Keyed, KeyRules};
use crate::keys::{Key, KeyRecord};
use crate::layout::{panes, PaneId, Rect};
use crate::listings::{pane_lines, Span};
use crate::message_lists::{inbox_lines, task_touches};
use crate::message_waits::{timed, waits_without};
use crate::messages::MsgWait;
use crate::observe::{Life, StoreState};
use crate::pane::Pane;
use crate::pickers::window_jobs;
use crate::preset::{preset_after, Preset};
use crate::prompt::{hint_text, is_common, is_completion};
use crate::server::Options;
use crate::session::SessionState;
use crate::session_commands::is_attached;
use crate::time::Time;
use crate::window::WindowState;
use crate::window_moves::destination;

verus! {

/// The layouts follow each other in a ring: even columns, even rows, a main
/// row, a main column, tiles; going back undoes going on. A window that has
/// none gets even columns.
pub proof fn lemma_layouts_in_turn(p: Preset)
    ensures
        preset_before(preset_after(p)) == p,
        preset_after(preset_before(p)) == p,
        preset_after(Preset::EvenHorizontal) is EvenVertical,
        preset_after(Preset::EvenVertical) is MainHorizontal,
        preset_after(Preset::MainHorizontal) is MainVertical,
        preset_after(Preset::MainVertical) is Tiled,
        preset_after(Preset::Tiled) is EvenHorizontal,
        preset_beside(Some(p), true) == preset_after(p),
        preset_beside(Some(p), false) == preset_before(p),
        preset_beside(None, true) is EvenHorizontal,
        preset_beside(None, false) is EvenHorizontal,
{
}

/// `select-layout` without a name takes the next layout, or the one before;
/// the same panes are there, in the same order, the same one active, and none
/// is zoomed.
pub proof fn lemma_next_layout(
    w: WindowState,
    after: WindowState,
    id: PaneId,
    next: bool,
    r: Result<Option<Preset>, Seq<char>>,
    p: Preset,
)
    requires
        is_laid_by(w, after, id, None, next, false, r),
        w.preset == Some(p),
    ensures
        next ==> after.preset == Some(preset_after(p)),
        !next ==> after.preset is Some && preset_after(after.preset->0) == p,
        after.active == w.active && after.panes == w.panes && !after.zoomed,
{
    reveal(is_laid_by);
}

/// A completion is what all the words that fit begin with, and as much of it
/// as they share; a single word is taken whole.
pub proof fn lemma_completion(words: Seq<Seq<char>>, s: Seq<char>)
    requires
        is_completion(words, true, s),
    ensures
        words.len() == 0 ==> s.len() == 0,
        words.len() == 1 ==> s == words[0].push(' '),
        words.len() > 1 ==> forall|i: int| 0 <= i < words.len() ==> s.is_prefix_of(#[trigger] words[i]),
        words.len() > 1 ==> exists|i: int|
            0 <= i < words.len() && ((#[trigger] words[i]).len() == s.len() || words[0].len() == s.len() || words[i][s.len() as int]
                != words[0][s.len() as int]),
{
    reveal_strlit(" ");
    assert(" "@ =~= seq![' ']);
    if words.len() == 1 {
        assert(words[0] + " "@ =~= words[0].push(' '));
    }
    if words.len() > 1 {
        let n = s.len() as int;
        assert forall|i: int| 0 <= i < words.len() implies s.is_prefix_of(#[trigger] words[i]) by {
            assert(words[i].take(n) == words[0].take(n));
            assert(words[i].take(n) =~= words[i].subrange(0, n));
        }
        assert(is_common(words, s));
        let i = choose|i: int|
            0 <= i < words.len() && !(n + 1 <= (#[trigger] words[i]).len() && words[i].take(n + 1) == words[0].take(n + 1));
        assert(n <= words[i].len());
        if words[i].len() > n && words[0].len() > n && words[i][n] == words[0][n] {
            let (a, b) = (words[i].take(n + 1), words[0].take(n + 1));
            assert forall|j: int| 0 <= j < n + 1 implies #[trigger] a[j] == b[j] by {
                if j < n {
                    assert(words[i].take(n)[j] == words[0].take(n)[j]);
                }
            }
            assert(a =~= b);
        }
    }
}

/// With one word to complete to there is no hint, with several they are
/// listed, the first six and how many more there are.
pub proof fn lemma_hints(words: Seq<Seq<char>>)
    ensures
        words.len() == 1 <==> hint_text(words) is None,
        words.len() == 2 ==> hint_text(words) == Some(seq!['('] + words[0] + seq![' '] + words[1] + seq![')', ' ']),
{
    reveal_strlit("(");
    reveal_strlit(") ");
    reveal_strlit(" ");
    if words.len() == 2 {
        let l = crate::prompt::listed(words, 2);
        assert(crate::prompt::listed(words, 1) == words[0]);
        assert(l == words[0] + " "@ + words[1]);
        assert("("@ + l + ") "@ =~= seq!['('] + words[0] + seq![' '] + words[1] + seq![')', ' ']);
    }
}

/// What a format is told of a pane.
pub proof fn lemma_pane_told(f: PaneFacts, w: WindowState, p: Pane, base: usize, now: Clock, n: int)
    requires
        tells_pane(f, w, p, base, now),
        0 <= n < panes(w.tree).len(),
        panes(w.tree)[n] == p.id,
        panes(w.tree).no_duplicates(),
    ensures
        f.index == n + base,
        f.width == p.cols && f.height == p.rows,
        f.active <==> w.active == p.id,
        f.last <==> w.last_pane == Some(p.id),
        f.in_mode <==> p.copy is Some,
        f.dead_status == p.exit_code && f.pid == p.pid,
        p.title@.len() > 0 ==> f.title@ == p.title@,
        p.title@.len() == 0 ==> f.title@ == p.command@,
{
    crate::arrange::lemma_place_in(panes(w.tree), p.id, 0);
    assert(panes(w.tree).contains(p.id));
}

/// What a format is told of a window, a session and a client.
pub proof fn lemma_others_told(
    w: WindowFacts,
    s: SessionState,
    j: int,
    base: usize,
    now: Clock,
    sf: SessionFacts,
    cs: Seq<Client>,
    cf: ClientFacts,
    c: Client,
    ss: Seq<SessionState>,
)
    requires
        0 <= j < s.windows.len(),
        tells_window(w, s, j, base, now),
        tells_session(sf, s, cs, now),
        tells_client(cf, c, ss, now),
    ensures
        w.index == j + base && w.name@ == s.windows[j].name && w.panes == s.windows[j].panes.len(),
        w.width == s.cols && w.height == s.rows,
        w.active <==> s.cur == j,
        w.last <==> s.last == Some(s.windows[j].id),
        w.start <==> j == 0,
        w.end <==> j == s.windows.len() - 1,
        w.zoomed == s.windows[j].zoomed && w.bell == s.windows[j].bell && w.activity == s.windows[j].activity,
        w.silence == s.windows[j].silence && w.synchronized == s.windows[j].synchronized,
        sf.name@ == s.name && sf.windows == s.windows.len() && sf.created == s.created_at,
        cf.width == c.cols && cf.height == c.rows && cf.prefix == c.prefix,
{
}

/// A pane is at an edge of the area if it reaches it.
pub proof fn lemma_edges_told(e: Edges, r: Rect, area: Rect)
    requires
        tells_edges(e, r, area),
        area.x <= r.x && area.y <= r.y && r.x + r.w <= area.x + area.w && r.y + r.h <= area.y + area.h,
        r.w > 0 && r.h > 0,
    ensures
        e.left == r.x - area.x && e.top == r.y - area.y,
        e.right == r.x - area.x + r.w - 1 && e.bottom == r.y - area.y + r.h - 1,
        e.at_left <==> r.x == area.x,
        e.at_top <==> r.y == area.y,
        e.at_right <==> r.x + r.w == area.x + area.w,
        e.at_bottom <==> r.y + r.h == area.y + area.h,
{
}

/// A wait whose time is up is answered with an error and gone; the others
/// stay, in their order.
pub proof fn lemma_waits_end(b: Map<PaneId, ActorState>, s: StoreState, ws: Seq<MsgWait>, now: u64, k: int)
    requires
        0 <= k <= ws.len(),
    ensures
        ({
            let (left, told) = timed(b, s, ws, now, k);
            &&& left.len() + told.len() == k
            &&& forall|i: int| 0 <= i < left.len() ==> (#[trigger] left[i]).until > now
            &&& forall|i: int| 0 <= i < told.len() ==> (#[trigger] told[i]).1 is Error
            &&& forall|i: int| 0 <= i < k && (#[trigger] ws[i]).until > now ==> left.contains(ws[i])
        }),
    decreases k,
{
    if k > 0 {
        lemma_waits_end(b, s, ws, now, k - 1);
        let (was, _) = timed(b, s, ws, now, k - 1);
        let (left, _) = timed(b, s, ws, now, k);
        assert forall|i: int| 0 <= i < k && (#[trigger] ws[i]).until > now implies left.contains(ws[i]) by {
            if i == k - 1 {
                assert(left[left.len() - 1] == ws[i]);
            } else {
                assert(was.contains(ws[i]));
                let j = choose|j: int| 0 <= j < was.len() && was[j] == ws[i];
                assert(left[j] == ws[i]);
            }
        }
    }
}

/// The waits of a client that goes go with it, and no others.
pub proof fn lemma_waits_without(ws: Seq<MsgWait>, cid: ClientId, k: int)
    requires
        0 <= k <= ws.len(),
    ensures
        forall|i: int| 0 <= i < waits_without(ws, cid, k).len() ==> (#[trigger] waits_without(ws, cid, k)[i]).cid != cid,
        forall|i: int| 0 <= i < k && (#[trigger] ws[i]).cid != cid ==> waits_without(ws, cid, k).contains(ws[i]),
    decreases k,
{
    if k > 0 {
        lemma_waits_without(ws, cid, k - 1);
        let was = waits_without(ws, cid, k - 1);
        let left = waits_without(ws, cid, k);
        assert forall|i: int| 0 <= i < k && (#[trigger] ws[i]).cid != cid implies left.contains(ws[i]) by {
            if i == k - 1 {
                assert(left[left.len() - 1] == ws[i]);
            } else {
                assert(was.contains(ws[i]));
                let j = choose|j: int| 0 <= j < was.len() && was[j] == ws[i];
                assert(left[j] == ws[i]);
            }
        }
    }
}

/// A pane is drawn where it is, and the active one as such.
pub proof fn lemma_panes_drawn(w: WindowState, k: int)
    requires
        0 <= k <= w.rects.len(),
        forall|i: int| 0 <= i < w.rects.len() ==> w.has((#[trigger] w.rects[i]).0),
    ensures
        drawn_panes(w, k).len() == k,
        forall|i: int|
            0 <= i < k ==> #[trigger] drawn_panes(w, k)[i] == (w.rects[i].0, w.rects[i].1, w.rects[i].0 == w.active),
    decreases k,
{
    if k > 0 {
        lemma_panes_drawn(w, k - 1);
        assert(w.has(w.rects[k - 1].0));
    }
}

/// The selection of a picker stays on what it was on when lines come or go.
pub proof fn lemma_selection_stays(before: Chooser, after: Chooser, items: Vec<ChooserItem>, lines: Vec<String>, k: int)
    requires
        is_relisted(before, after, items, lines),
        before.sel < before.items@.len(),
        0 <= k < items@.len(),
        items@[k] == before.items@[before.sel as int],
        !(items@[k] is Separator),
        forall|j: int| 0 <= j < k ==> #[trigger] items@[j] != items@[k],
    ensures
        after.sel == k,
        after.items == items && after.lines == lines && after.tagged == before.tagged && after.filter == before.filter,
{
    lemma_item_there(items@, items@[k], k, 0);
    assert(items.len() == items@.len());
}

proof fn lemma_item_there(items: Seq<ChooserItem>, it: ChooserItem, k: int, i: int)
    requires
        0 <= i <= k < items.len(),
        items[k] == it,
        forall|j: int| i <= j < k ==> #[trigger] items[j] != it,
    ensures
        crate::chooser_keys::place_of(items, it, i) == Some(k),
    decreases k - i,
{
    if i < k {
        lemma_item_there(items, it, k, i + 1);
    }
}

/// What `new-session` does: within a pane it is refused; a session of that
/// name is joined where that is allowed; else one is made, at the size asked
/// for or the client's, and a terminal attaches to it unless it is told not
/// to.
pub proof fn lemma_opening(
    ss: Seq<SessionState>,
    c: Client,
    name: Option<Seq<char>>,
    detached: bool,
    attach_existing: bool,
    size: (Option<u16>, Option<u16>),
    plan: Opening,
)
    requires
        is_planned(ss, Some(c), name, detached, attach_existing, size, plan),
        c.interactive,
    ensures
        !detached && c.pane_env is Some && c.session is None ==> plan is Refused,
        !detached && c.pane_env is None && !attach_existing ==> plan == (Opening::Make {
            cols: c.cols,
            rows: c.rows,
            attach: true,
        }),
        detached && !attach_existing ==> plan == (Opening::Make {
            cols: if size.0 is Some {
                size.0->0
            } else {
                c.cols
            },
            rows: if size.1 is Some {
                size.1->0
            } else {
                c.rows
            },
            attach: false,
        }),
        attach_existing && name is Some && crate::openings::name_taken(ss, name->0) && c.pane_env is None && !detached
            ==> plan is Join,
        attach_existing && name is Some && crate::openings::name_taken(ss, name->0) && detached ==> plan is There,
{
}

/// A client that was sent away is in no session, and the others are where they
/// were.
pub proof fn lemma_cleared(cs: Seq<Client>, whom: Whom)
    ensures
        cleared(cs, whom, cs.len() as int).len() == cs.len(),
        forall|i: int|
            0 <= i < cs.len() ==> if meant(cs[i], whom) {
                (#[trigger] cleared(cs, whom, cs.len() as int)[i]).session is None
            } else {
                cleared(cs, whom, cs.len() as int)[i] == cs[i]
            },
{
}

/// A client that attaches has nothing open over its panes, and is told which
/// session it is in and whether the mouse is on.
pub proof fn lemma_attached_client(
    before: Client,
    after: Client,
    sid: u32,
    name: Seq<char>,
    mouse: bool,
)
    requires
        is_attached(before, after, sid, name, mouse, None),
    ensures
        after.session == Some(sid),
        after.prompt is None && after.chooser is None && after.popup is None && after.overlay is None && after.message is None,
        !after.prefix && after.drag is None && after.mouse_buttons == 0,
        after.cols == before.cols && after.rows == before.rows && after.id == before.id,
{
}

/// A key moves on the client's time, and what it closes is closed.
pub proof fn lemma_key_taken(before: Client, after: Client, key: Option<Key>, rec: KeyRecord, rules: KeyRules, d: Keyed)
    requires
        is_keyed(before, after, key, rec, rules, d),
    ensures
        after.last_activity == rules.now,
        after.prefix == d.prefix,
        after.repeat_until == d.repeat_until,
        d.close_overlay ==> after.overlay is None,
        !d.close_overlay ==> after.overlay == before.overlay,
        d.hide_numbers ==> after.panes_until is None,
        d.follow ==> after.view_follow && !after.view_pinned,
        after.session == before.session && after.cols == before.cols && after.rows == before.rows,
{
    reveal(is_keyed);
}

/// A client that just came is in no session, of the usual size, and has
/// nothing open.
pub proof fn lemma_new_client(c: Client, id: ClientId, now: u64)
    requires
        is_new(c, id, now),
    ensures
        c.id == id && c.session is None && c.cols == 80 && c.rows == 24 && c.created == now,
        c.prompt is None && c.chooser is None && c.popup is None && c.overlay is None && !c.prefix,
{
}

/// Without a target everything is searched.
pub proof fn lemma_scope_of_all(ss: Seq<SessionState>, cs: Seq<Client>, opts: Options, cid: Option<ClientId>)
    ensures
        scope_for(ss, cs, opts, None, cid) == Ok::<Scope, Seq<char>>(Scope { session: None, window: None, pane: None }),
{
}

/// A window can be moved to a number that no window has, counted from the
/// base; it cannot change places with none.
pub proof fn lemma_free_number(
    ss: Seq<SessionState>,
    cs: Seq<Client>,
    opts: Options,
    t: Target,
    cid: Option<ClientId>,
    n: nat,
    i: int,
)
    requires
        crate::server::place_for(ss, cs, opts, Some(t), cid) is Err,
        crate::server::window_part(Some(t)) == Some(crate::text::decimal(n)),
        n <= usize::MAX,
        crate::server::session_for(
            ss,
            cs,
            crate::server::pane_id_part(Some(t)),
            crate::server::session_part(Some(t)),
            cid,
        ) == Ok::<int, Seq<char>>(i),
    ensures
        n >= opts.base_index ==> destination(ss, cs, opts, Some(t), true, cid) == Ok::<(int, int), Seq<char>>(
            (i, n - opts.base_index),
        ),
        destination(ss, cs, opts, Some(t), false, cid) is Err,
{
    crate::text_laws::lemma_number_read(n, usize::MAX as int);
}

/// The messages of an inbox are listed one a line, in their order.
pub proof fn lemma_inbox_listed(
    inbox: Seq<Message>,
    mode: WorkMode,
    now: Time,
    words: spec_fn(i64) -> Seq<char>,
    k: int,
    j: int,
)
    requires
        0 <= j < k <= inbox.len(),
    ensures
        inbox_lines(inbox, mode, now, words, k).len() == k,
        inbox_lines(inbox, mode, now, words, k)[j] == crate::message_lists::inbox_line(
            inbox[j]@,
            mode,
            words(crate::time::elapsed(inbox[j].at, now) as i64),
        ),
    decreases k,
{
    if j < k - 1 {
        lemma_inbox_listed(inbox, mode, now, words, k - 1, j);
    } else if k > 1 {
        lemma_inbox_listed(inbox, mode, now, words, k - 1, 0);
    } else {
        assert(inbox_lines(inbox, mode, now, words, 0).len() == 0);
    }
}

/// A task is listed for a pane if one of its messages came from it or went to
/// it.
pub proof fn lemma_task_of_pane(records: Seq<Life>, task: MsgId, p: Seq<char>, k: int)
    requires
        0 <= k <= records.len(),
    ensures
        task_touches(records, task, p, k) <==> exists|i: int|
            0 <= i < k && (#[trigger] records[i]).msg.task == task && crate::message_lists::touches(records[i], p),
    decreases k,
{
    if k > 0 {
        lemma_task_of_pane(records, task, p, k - 1);
        let i = k - 1;
        assert(records[i] == records[k - 1]);
    }
}

/// The jobs of a window are its panes, in the order of the layout.
pub proof fn lemma_jobs_listed(s: SessionState, j: int, k: int)
    requires
        0 <= j < s.windows.len(),
        0 <= k <= panes(s.windows[j].tree).len(),
    ensures
        window_jobs(s, j, None, k).len() == k,
        forall|p: int|
            0 <= p < k ==> #[trigger] window_jobs(s, j, None, k)[p] == (s.id, j as usize, panes(s.windows[j].tree)[p]),
    decreases k,
{
    if k > 0 {
        lemma_jobs_listed(s, j, k - 1);
    }
}

/// A window's panes are listed in the order of the layout, each under the
/// number that it is named by; with the window's in front where the whole
/// session is listed.
pub proof fn lemma_panes_listed(
    s: SessionState,
    j: int,
    opts: Options,
    path: spec_fn(PaneId) -> Option<Seq<char>>,
    k: int,
    i: int,
)
    requires
        0 <= i < k <= panes(s.windows[j].tree).len(),
        0 <= j < s.windows.len(),
    ensures
        ({
            let line = pane_lines(s, j, opts, Span::Window, path, k)[i];
            let long = pane_lines(s, j, opts, Span::Session, path, k)[i];
            let number = crate::text::decimal((i + opts.pane_base_index) as nat) + seq![':', ' ', '['];
            &&& number.is_prefix_of(line)
            &&& (crate::text::decimal((j + opts.base_index) as nat) + seq!['.'] + number).is_prefix_of(long)
        }),
{
    reveal_strlit(": [");
    reveal_strlit(".");
    assert(": ["@ =~= seq![':', ' ', '['] && "."@ =~= seq!['.']);
    let line = pane_lines(s, j, opts, Span::Window, path, k)[i];
    let long = pane_lines(s, j, opts, Span::Session, path, k)[i];
    let number = crate::text::decimal((i + opts.pane_base_index) as nat) + seq![':', ' ', '['];
    let head = crate::text::decimal((j + opts.base_index) as nat) + seq!['.'] + number;
    assert(number =~= line.subrange(0, number.len() as int));
    assert(head =~= long.subrange(0, head.len() as int));
}

} // verus!
