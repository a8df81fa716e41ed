//! What listings and finds show, and who leaves and what is kept when
//! something ends.
use vstd::prelude::*;

use crate::attending::{client_named, meant, Whom};
use crate::chooser::{ChooserItem, ClientId, SessionId};
use crate::client::Client;
use crate::command::Ended;
use crate::finds::{longest, pane_hits, widest, window_places, windows_found};
use crate::frames::{message_left, numbers_over};
use crate::going::lookers;
use crate::kills::window_killed;
use crate::layout::{panes, PaneId, Rect};
use crate::listings::{attached_to, client_line, client_lines, remembered, seconds, session_panes, text_before};
use crate::options::{options_shown, ShownOption};
use crate::pickers::{numbered, tree_rows, view_rows};
use crate::server::{KilledState, Options, Place};
use crate::session::{window_place, SessionState};
use crate::text::{decimal, lower};
use crate::undo::kept_after;
use crate::window::WindowState;

verus! {

/// A session is attached if some client is in it, and its clients are counted
/// once each.
pub proof fn lemma_attached(cs: Seq<Client>, sid: SessionId, k: int)
    requires
        0 <= k <= cs.len(),
    ensures
        attached_to(cs, sid, k) > 0 <==> exists|i: int| 0 <= i < k && (#[trigger] cs[i]).session == Some(sid),
        k < cs.len() && cs[k].session == Some(sid) ==> attached_to(cs, sid, k + 1) == attached_to(cs, sid, k) + 1,
        k < cs.len() && cs[k].session != Some(sid) ==> attached_to(cs, sid, k + 1) == attached_to(cs, sid, k),
    decreases k,
{
    if k > 0 {
        lemma_attached(cs, sid, k - 1);
        let i = k - 1;
        assert(cs[i] == cs[k - 1]);
    }
}

/// The clients that are listed are those with a session, one line each, in
/// their order.
pub proof fn lemma_clients_listed(ss: Seq<SessionState>, cs: Seq<Client>, k: int, j: int)
    requires
        0 <= j < k <= cs.len(),
        cs[j].session is Some,
    ensures
        ({
            let at = client_lines(ss, cs, j).len();
            at < client_lines(ss, cs, k).len() && client_lines(ss, cs, k)[at as int] == client_line(ss, cs[j])
        }),
        client_lines(ss, cs, k).len() <= k,
    decreases k,
{
    if j < k - 1 {
        lemma_clients_listed(ss, cs, k - 1, j);
    }
    lemma_client_lines_len(ss, cs, k);
}

proof fn lemma_client_lines_len(ss: Seq<SessionState>, cs: Seq<Client>, k: int)
    requires
        0 <= k <= cs.len(),
    ensures
        client_lines(ss, cs, k).len() <= k,
    decreases k,
{
    if k > 0 {
        lemma_client_lines_len(ss, cs, k - 1);
    }
}

/// Of the messages shown the last hundred are remembered, the newest last.
pub proof fn lemma_messages_remembered(all: Seq<Seq<char>>, text: Seq<char>)
    requires
        all.len() <= 100,
    ensures
        remembered(all, text).len() == if all.len() < 100 {
            all.len() + 1
        } else {
            100
        },
        remembered(all, text).last() == text,
        all.len() < 100 ==> remembered(all, text).drop_last() == all,
        all.len() == 100 ==> remembered(all, text).drop_last() == all.skip(1),
{
    assert(all.push(text).drop_last() =~= all);
    if all.len() == 100 {
        assert(all.push(text).skip(1).drop_last() =~= all.skip(1));
    }
}

/// The age of a session in whole seconds.
pub proof fn lemma_age(a: u64, b: u64)
    ensures
        b >= a ==> 1000 * seconds(a, b) <= b - a < 1000 * (seconds(a, b) + 1),
        b < a ==> seconds(a, b) == 0,
{
}

/// Names are listed in the order of their characters: the first that differs
/// decides, and a name comes before those that it begins.
pub proof fn lemma_name_order(a: Seq<char>, b: Seq<char>, i: int, k: int)
    requires
        0 <= i <= k,
        k <= a.len() && k <= b.len(),
        forall|j: int| i <= j < k ==> a[j] == #[trigger] b[j],
        k == a.len() || k == b.len() || a[k] != b[k],
    ensures
        k < a.len() && k < b.len() ==> text_before(a, b, i) == (a[k] < b[k]),
        k == a.len() ==> text_before(a, b, i) == (a.len() < b.len()),
        k == b.len() && k < a.len() ==> !text_before(a, b, i),
    decreases k - i,
{
    if i < k {
        assert(a[i] == b[i]);
        lemma_name_order(a, b, i + 1, k);
    }
}

/// The panes of a session come window by window, each window's in the order of
/// its layout.
pub proof fn lemma_panes_in_order(s: SessionState, k: int, j: int, p: int)
    requires
        0 <= j < k <= s.windows.len(),
        0 <= p < panes(s.windows[j].tree).len(),
    ensures
        session_panes(s, j).len() + p < session_panes(s, k).len(),
        session_panes(s, k)[session_panes(s, j).len() + p] == panes(s.windows[j].tree)[p],
    decreases k,
{
    if j < k - 1 {
        lemma_panes_in_order(s, k - 1, j, p);
    }
}

/// A find lists the windows that hold the text, whatever the case, and no
/// others.
pub proof fn lemma_windows_found(s: SessionState, needle: Seq<char>, base: usize, k: int)
    requires
        0 <= k <= s.windows.len(),
    ensures
        forall|j: int|
            0 <= j < k && crate::text::holds(lower(crate::finds::window_words(#[trigger] s.windows[j], j, base)), needle)
                ==> windows_found(s, needle, base, k).contains((s.id, s.windows[j].id, s.name + ":"@ + s.windows[j].name)),
        forall|i: int|
            0 <= i < windows_found(s, needle, base, k).len() ==> (#[trigger] windows_found(s, needle, base, k)[i]).0 == s.id
                && exists|j: int|
                0 <= j < k && (#[trigger] s.windows[j]).id == windows_found(s, needle, base, k)[i].1 && crate::text::holds(
                    lower(crate::finds::window_words(s.windows[j], j, base)),
                    needle,
                ),
    decreases k,
{
    if k > 0 {
        lemma_windows_found(s, needle, base, k - 1);
        let before = windows_found(s, needle, base, k - 1);
        let all = windows_found(s, needle, base, k);
        assert forall|j: int|
            0 <= j < k && crate::text::holds(
                lower(crate::finds::window_words(#[trigger] s.windows[j], j, base)),
                needle,
            ) implies all.contains((s.id, s.windows[j].id, s.name + ":"@ + s.windows[j].name)) by {
            let it = (s.id, s.windows[j].id, s.name + ":"@ + s.windows[j].name);
            if j == k - 1 {
                assert(all[all.len() - 1] == it);
            } else {
                assert(before.contains(it));
                let i = choose|i: int| 0 <= i < before.len() && before[i] == it;
                assert(all[i] == it);
            }
        }
        assert forall|i: int| 0 <= i < all.len() implies (#[trigger] all[i]).0 == s.id && exists|j: int|
            0 <= j < k && (#[trigger] s.windows[j]).id == all[i].1 && crate::text::holds(
                lower(crate::finds::window_words(s.windows[j], j, base)),
                needle,
            ) by {
            if i < before.len() {
                assert(all[i] == before[i]);
                let j = choose|j: int|
                    0 <= j < k - 1 && (#[trigger] s.windows[j]).id == before[i].1 && crate::text::holds(
                        lower(crate::finds::window_words(s.windows[j], j, base)),
                        needle,
                    );
                assert(s.windows[j].id == all[i].1);
            } else {
                let j = k - 1;
                assert(s.windows[j].id == all[i].1);
            }
        }
    }
}

/// A hit is listed with how many lines it is above the last one.
pub proof fn lemma_hits_listed(label: Seq<char>, total: int, found: Seq<(int, Seq<char>)>, i: int)
    requires
        0 <= i < found.len(),
        0 <= found[i].0 < total,
    ensures
        pane_hits(label, total, found)[i].0 == label,
        found[i].0 + pane_hits(label, total, found)[i].1 == total - 1,
        pane_hits(label, total, found).len() == found.len(),
{
}

/// The columns of hits are as wide as the widest.
pub proof fn lemma_hit_columns(hits: Seq<(Seq<char>, int, Seq<char>)>, k: int)
    requires
        0 <= k <= hits.len(),
    ensures
        forall|i: int|
            0 <= i < k ==> (#[trigger] hits[i]).0.len() <= widest(hits, k) && decimal(hits[i].1 as nat).len() <= longest(
                hits,
                k,
            ),
        widest(hits, k) == 0 || exists|i: int| 0 <= i < k && (#[trigger] hits[i]).0.len() == widest(hits, k),
    decreases k,
{
    if k > 0 {
        lemma_hit_columns(hits, k - 1);
        let i = k - 1;
        assert(hits[i] == hits[k - 1]);
    }
}

/// The places that are searched in a window are all its panes, in the order of
/// the layout, or the one that was asked for.
pub proof fn lemma_places_searched(s: SessionState, j: int, opts: Options, k: int, only: PaneId)
    requires
        0 <= j < s.windows.len(),
        0 <= k <= panes(s.windows[j].tree).len(),
    ensures
        window_places(s, j, None, opts, k).len() == k,
        forall|p: int| 0 <= p < k ==> (#[trigger] window_places(s, j, None, opts, k)[p]).1 == panes(s.windows[j].tree)[p],
        forall|p: int|
            0 <= p < window_places(s, j, Some(only), opts, k).len() ==> (#[trigger] window_places(
                s,
                j,
                Some(only),
                opts,
                k,
            )[p]).1 == only,
    decreases k,
{
    if k > 0 {
        lemma_places_searched(s, j, opts, k - 1, only);
        let before = window_places(s, j, Some(only), opts, k - 1);
        let all = window_places(s, j, Some(only), opts, k);
        assert forall|p: int| 0 <= p < all.len() implies (#[trigger] all[p]).1 == only by {
            if p < before.len() {
                assert(all[p] == before[p]);
            }
        }
    }
}

/// The lines of a list are numbered from 0 to 9 by the keys that choose them,
/// and a star marks those that are tagged.
pub proof fn lemma_lines_numbered(n: int, item: ChooserItem, line: Seq<char>)
    ensures
        0 <= n < 10 && !(item is Separator) ==> numbered(n, item, false, line) == seq!['('] + decimal(n as nat) + seq![
            ')',
            ' ',
        ] + line,
        0 <= n < 10 && !(item is Separator) ==> numbered(n, item, true, line) == seq!['('] + decimal(n as nat) + seq![
            ')',
            '*',
        ] + line,
        n >= 10 || item is Separator ==> numbered(n, item, false, line) == seq![' ', ' ', ' ', ' '] + line,
{
    reveal_strlit("(");
    reveal_strlit(")");
    reveal_strlit("   ");
    assert("("@ =~= seq!['('] && ")"@ =~= seq![')'] && "   "@ =~= seq![' ', ' ', ' ']);
    assert(("("@ + decimal(n as nat) + ")"@).push(' ') + line =~= seq!['('] + decimal(n as nat) + seq![')', ' '] + line);
    assert(("("@ + decimal(n as nat) + ")"@).push('*') + line =~= seq!['('] + decimal(n as nat) + seq![')', '*'] + line);
    assert("   "@.push(' ') =~= seq![' ', ' ', ' ', ' ']);
}

/// With an empty filter every line is shown, in its order, under its own number.
pub proof fn lemma_all_lines_shown(
    items: Seq<ChooserItem>,
    lines: Seq<String>,
    filter: Seq<char>,
    tagged: Seq<ChooserItem>,
    k: int,
)
    requires
        lower(crate::text::trim(filter)).len() == 0,
        0 <= k <= items.len(),
        items.len() <= lines.len(),
    ensures
        ({
            let rows = view_rows(items, lines, filter, tagged, k);
            &&& rows.len() == k
            &&& forall|i: int|
                0 <= i < k ==> (#[trigger] rows[i]).0 == items[i] && rows[i].1 == numbered(
                    i,
                    items[i],
                    tagged.contains(items[i]),
                    lines[i]@,
                )
        }),
    decreases k,
{
    if k > 0 {
        lemma_all_lines_shown(items, lines, filter, tagged, k - 1);
    }
}

/// The tree lists each session, and under one that is open its windows; a
/// folded one has a line alone.
pub proof fn lemma_tree_listed(ss: Seq<SessionState>, cs: Seq<Client>, folded: Set<SessionId>, base: usize, k: int)
    requires
        0 < k <= ss.len(),
    ensures
        ({
            let before = tree_rows(ss, cs, true, folded, base, k - 1);
            let all = tree_rows(ss, cs, true, folded, base, k);
            let s = ss[k - 1];
            let n = before.len() as int;
            &&& forall|i: int| 0 <= i < n ==> #[trigger] all[i] == before[i]
            &&& all[n].0 == ChooserItem::Tree(s.id, None)
            &&& folded.contains(s.id) ==> all.len() == n + 1
            &&& !folded.contains(s.id) ==> all.len() == n + 1 + s.windows.len() && forall|j: int|
                0 <= j < s.windows.len() ==> (#[trigger] all[n + 1 + j]).0 == ChooserItem::Tree(s.id, Some(s.windows[j].id))
        }),
{
}

/// The number that is shown over a pane is the one that it is named by.
pub proof fn lemma_numbers_over(w: WindowState, at: Seq<(PaneId, Rect)>, base: usize, k: int, n: int)
    requires
        0 <= k < at.len(),
        0 <= n < panes(w.tree).len(),
        panes(w.tree)[n] == at[k].0,
        panes(w.tree).no_duplicates(),
    ensures
        numbers_over(w, at, base)[k] == (at[k].1, n + base, at[k].0 == w.active),
{
    crate::arrange::lemma_place_in(panes(w.tree), at[k].0, 0);
    assert(panes(w.tree).contains(at[k].0));
}

/// A message goes after the time that is set for it, and stays for ever where
/// none is.
pub proof fn lemma_message_goes(c: Client, ttl: u64, now: u64)
    requires
        c.message is Some,
        (c.message->0).1 <= now,
    ensures
        ttl > 0 && now > (c.message->0).1 + ttl ==> message_left(c, ttl, now).message is None,
        ttl == 0 || now <= (c.message->0).1 + ttl ==> message_left(c, ttl, now) == c,
{
}

/// Who is sent away: the client that is named, all of a session, or all of it
/// but one.
pub proof fn lemma_sent_away(c: Client, id: ClientId, sid: SessionId)
    ensures
        meant(c, Whom::One(id)) <==> c.id == id && c.session is Some,
        meant(c, Whom::Attached(None)) <==> c.session is Some,
        meant(c, Whom::Attached(Some(sid))) <==> c.session == Some(sid),
        meant(c, Whom::Others(sid, id)) <==> c.session == Some(sid) && c.id != id,
{
}

/// The client that is named has that number.
pub proof fn lemma_client_named(cs: Seq<Client>, id: ClientId)
    ensures
        match client_named(cs, Some(id)) {
            Some(c) => c.id == id,
            None => forall|i: int| 0 <= i < cs.len() ==> (#[trigger] cs[i]).id != id,
        },
        client_named(cs, None) is None,
{
    lemma_client_found(cs, id, 0);
}

proof fn lemma_client_found(cs: Seq<Client>, id: ClientId, i: int)
    requires
        0 <= i <= cs.len(),
    ensures
        ({
            let k = crate::server::client_place(cs, id, i);
            &&& i <= k <= cs.len()
            &&& k < cs.len() ==> cs[k].id == id
            &&& k == cs.len() ==> forall|j: int| i <= j < cs.len() ==> (#[trigger] cs[j]).id != id
        }),
    decreases cs.len() - i,
{
    if i < cs.len() && cs[i].id != id {
        lemma_client_found(cs, id, i + 1);
    }
}

/// Those who look are the interactive clients in a session.
pub proof fn lemma_lookers(cs: Seq<Client>, k: int)
    requires
        0 <= k <= cs.len(),
    ensures
        forall|i: int|
            0 <= i < k && (#[trigger] cs[i]).interactive && cs[i].session is Some ==> lookers(cs, k).contains(cs[i].id),
        forall|j: int|
            0 <= j < lookers(cs, k).len() ==> exists|i: int|
                0 <= i < k && (#[trigger] cs[i]).id == #[trigger] lookers(cs, k)[j] && cs[i].interactive && cs[i].session is Some,
    decreases k,
{
    if k > 0 {
        lemma_lookers(cs, k - 1);
        let before = lookers(cs, k - 1);
        let all = lookers(cs, k);
        assert forall|i: int| 0 <= i < k && (#[trigger] cs[i]).interactive && cs[i].session is Some implies all.contains(
            cs[i].id,
        ) by {
            if i == k - 1 {
                assert(all[all.len() - 1] == cs[i].id);
            } else {
                assert(before.contains(cs[i].id));
                let j = choose|j: int| 0 <= j < before.len() && before[j] == cs[i].id;
                assert(all[j] == cs[i].id);
            }
        }
        assert forall|j: int| 0 <= j < all.len() implies exists|i: int|
            0 <= i < k && (#[trigger] cs[i]).id == #[trigger] all[j] && cs[i].interactive && cs[i].session is Some by {
            if j < before.len() {
                assert(all[j] == before[j]);
                let i = choose|i: int|
                    0 <= i < k - 1 && (#[trigger] cs[i]).id == before[j] && cs[i].interactive && cs[i].session is Some;
                assert(cs[i].id == all[j]);
            } else {
                let i = k - 1;
                assert(cs[i].id == all[j]);
            }
        }
    }
}

/// A window that is killed is kept to be brought back, the last of the list,
/// where kills can be undone and the session has another window.
pub proof fn lemma_window_kept(
    ss: Seq<SessionState>,
    ks: Seq<KilledState>,
    opts: Options,
    i: int,
    j: int,
    now: u64,
)
    requires
        0 <= i < ss.len(),
        crate::server::session_place(ss, ss[i].id, 0) == i,
        0 <= j < ss[i].windows.len(),
        window_place(ss[i].windows, ss[i].windows[j].id, 0) == j,
        ks.len() < 20,
    ensures
        ({
            let (after, kills, kept) = window_killed(ss, ks, opts, ss[i].id, ss[i].windows[j].id, now);
            &&& kept <==> opts.undo_kill_time > 0 && ss[i].windows.len() >= 2
            &&& kept ==> kills == ks.push(
                KilledState::Window { window: ss[i].windows[j], session: ss[i].id, index: j, at: now },
            )
            &&& kept ==> after.len() == ss.len() && after[i].windows.len() == ss[i].windows.len() - 1
            &&& !kept ==> kills == ks
        }),
{
}

/// A pane that is killed is kept with the layout that it was in, and the last
/// pane of a window with the window; nothing is kept of a session that ends
/// with it, nor where kills are not undone.
pub proof fn lemma_pane_kept(ss: Seq<SessionState>, ks: Seq<KilledState>, opts: Options, id: PaneId, now: u64)
    requires
        crate::server::session_with(ss, id, 0) < ss.len(),
        ks.len() < 20,
    ensures
        ({
            let i = crate::server::session_with(ss, id, 0);
            let j = crate::session::window_with(ss[i].windows, id, 0);
            let w = ss[i].windows[j];
            let after = kept_after(ss, ks, opts, id, now);
            let none = opts.undo_kill_time == 0 || ss[i].windows.len() == 1 && ss[i].windows[0].panes.len() == 1;
            &&& none ==> after == ks
            &&& !none && w.panes.len() > 1 ==> {
                &&& after.len() == ks.len() + 1 && after.drop_last() == ks
                &&& after.last() matches KilledState::Pane { session, home, tree, at, .. } && session == ss[i].id && home
                    == w.id && tree == w.tree && at == now
            }
            &&& !none && w.panes.len() <= 1 ==> after == ks.push(
                KilledState::Window { window: w, session: ss[i].id, index: j, at: now },
            )
        }),
{
    let after = kept_after(ss, ks, opts, id, now);
    if after.len() == ks.len() + 1 {
        assert(after.drop_last() =~= ks);
    }
}

/// An option is shown with its name, or its value alone; one that is not known
/// is an error, unless it may be passed over.
pub proof fn lemma_option_shown(
    ss: Seq<SessionState>,
    at: Result<Place, Seq<char>>,
    name: Seq<char>,
    o: ShownOption,
    listed: Seq<ShownOption>,
    own: Seq<ShownOption>,
)
    requires
        name != "synchronize-panes"@,
    ensures
        options_shown(ss, at, Some(name), true, false, Some(o), listed, own) == Ended::Text(o.value@),
        options_shown(ss, at, Some(name), false, false, Some(o), listed, own) == Ended::Text(
            name + seq![' '] + o.written@,
        ),
        options_shown(ss, at, Some(name), false, false, None, listed, own) is Error,
        options_shown(ss, at, Some(name), false, true, None, listed, own) == Ended::Text(Seq::empty()),
{
    reveal_strlit(" ");
    assert(" "@ =~= seq![' ']);
}

/// Whether the panes of a window are typed in together is shown as on or off.
pub proof fn lemma_together_shown(ss: Seq<SessionState>, p: Place, listed: Seq<ShownOption>, own: Seq<ShownOption>)
    ensures
        ({
            let w = ss[p.session].windows[p.window];
            let shown = options_shown(ss, Ok(p), Some("synchronize-panes"@), true, false, None, listed, own);
            &&& w.synchronized ==> shown == Ended::Text(seq!['o', 'n'])
            &&& !w.synchronized ==> shown == Ended::Text(seq!['o', 'f', 'f'])
        }),
{
    reveal_strlit("on");
    reveal_strlit("off");
    assert("on"@ =~= seq!['o', 'n'] && "off"@ =~= seq!['o', 'f', 'f']);
}

} // verus!
