//! What moves between sessions, what is gone to, and what a choice does.
use vstd::prelude::*;

use crate::chooser::{ClientId, Chooser, ChooserItem, ChooserKind};
use crate::chooser_keys::ChooserAction;
use crate::client::Client;
use crate::client_commands::{labelled, menu_rows, popup_closed};
use crate::command::{MenuItem, Target};
use crate::events::any_pane;
use crate::going::{clients_gone, with_pane_shown, with_window_shown};
use crate::join::taken_in;
use crate::keeping::window_logs;
use crate::keys::Key;
use crate::layout::{panes, shape, PaneId};
use crate::messages::addressee_for;
use crate::message_lists::{is_listed, listed_lines};
use crate::moves::swapped_across;
use crate::observe::Life;
use crate::options::all_relaid;
use crate::pane::Pane;
use crate::picking::{entry_line, filter_after, is_edited, is_picked_by, Picked};
use crate::prompt::{completed, Prompt, PromptAction, PromptKind};
use crate::screen::{bytes_in, fits_upto, Screen};
use crate::server::{Options, Place, Server};
use crate::session::{window_place, SessionState};
use crate::sourcing::undo_text;
use crate::tables::key_outcome;
use crate::tasks::task_status;
use crate::text::decimal;
use crate::window_moves::{moved_window, windows_moved};

verus! {

/// Panes of two windows that change places: each has the other's place in the
/// layout, and nothing else moves.
pub proof fn lemma_panes_swapped_across(ss: Seq<SessionState>, a: Place, b: Place, i: int, k: int)
    requires
        0 <= a.session < ss.len(),
        0 <= b.session < ss.len(),
        a.session != b.session,
        0 <= a.window < ss[a.session].windows.len(),
        0 <= b.window < ss[b.session].windows.len(),
        shape(ss[a.session].windows[a.window].tree),
        shape(ss[b.session].windows[b.window].tree),
        0 <= i < panes(ss[a.session].windows[a.window].tree).len(),
        panes(ss[a.session].windows[a.window].tree)[i] == a.pane,
        0 <= k < panes(ss[b.session].windows[b.window].tree).len(),
        panes(ss[b.session].windows[b.window].tree)[k] == b.pane,
        ss[a.session].windows[a.window].has(a.pane),
        ss[b.session].windows[b.window].has(b.pane),
    ensures
        ({
            let after = swapped_across(ss, a, b);
            &&& after.len() == ss.len()
            &&& panes(after[a.session].windows[a.window].tree)[i] == b.pane
            &&& panes(after[b.session].windows[b.window].tree)[k] == a.pane
            &&& panes(after[a.session].windows[a.window].tree).len() == panes(ss[a.session].windows[a.window].tree).len()
            &&& forall|j: int| 0 <= j < ss.len() && j != a.session && j != b.session ==> #[trigger] after[j] == ss[j]
        }),
{
    let wa = ss[a.session].windows[a.window];
    let wb = ss[b.session].windows[b.window];
    crate::window::lemma_place_of(wa.panes, a.pane, 0);
    crate::window::lemma_place_of(wb.panes, b.pane, 0);
    let pa = wa.panes[crate::window::place_of(wa.panes, a.pane, 0)];
    let pb = wb.panes[crate::window::place_of(wb.panes, b.pane, 0)];
    crate::session_laws::lemma_pane_traded(wa, a.pane, pb);
    crate::session_laws::lemma_pane_traded(wb, b.pane, pa);
    let (is_a, is_b) = (panes(wa.traded(a.pane, pb).tree), panes(wb.traded(b.pane, pa).tree));
    assert(is_a[i] == pb.id);
    assert(is_b[k] == pa.id);
}

/// A window that moves to another session is there and no more here; with its
/// last window a session goes.
pub proof fn lemma_window_moved_across(ss: Seq<SessionState>, opts: Options, i: int, a: int, k: int, b: int)
    requires
        0 <= i < ss.len(),
        0 <= k < ss.len(),
        i != k,
        0 <= a < ss[i].windows.len(),
        0 <= b,
    ensures
        ({
            let after = moved_window(ss, opts, i, a, k, b);
            let to = if ss[i].windows.len() == 1 && i < k {
                k - 1
            } else {
                k
            };
            let at = if b < ss[k].windows.len() {
                b
            } else {
                ss[k].windows.len() as int
            };
            &&& ss[i].windows.len() == 1 ==> after.len() == ss.len() - 1
            &&& ss[i].windows.len() > 1 ==> after.len() == ss.len() && after[i].windows.len() == ss[i].windows.len() - 1
            &&& after[to].id == ss[k].id
            &&& after[to].windows.len() == ss[k].windows.len() + 1
            &&& after[to].windows[at].id == ss[i].windows[a].id
        }),
{
}

/// To go to a window makes it the current one of its session, to go to a pane
/// the active one of its window; nothing else changes.
pub proof fn lemma_gone_to(ss: Seq<SessionState>, opts: Options, i: int, j: int, pid: PaneId, cs: Seq<Client>, c: int)
    requires
        0 <= i < ss.len(),
        crate::server::session_place(ss, ss[i].id, 0) == i,
        0 <= j < ss[i].windows.len(),
        window_place(ss[i].windows, ss[i].windows[j].id, 0) == j,
        ss[i].windows[j].has(pid),
        ss[i].windows[j].active != pid,
        !ss[i].windows[j].zoomed,
        0 <= c < cs.len(),
    ensures
        with_window_shown(ss, ss[i].id, ss[i].windows[j].id)[i].cur == j,
        with_window_shown(ss, ss[i].id, ss[i].windows[j].id)[i].windows == ss[i].windows,
        with_pane_shown(ss, opts, ss[i].id, ss[i].windows[j].id, pid)[i].windows[j].active == pid,
        with_pane_shown(ss, opts, ss[i].id, ss[i].windows[j].id, pid)[i].windows[j].last_pane == Some(
            ss[i].windows[j].active,
        ),
        clients_gone(cs, c, ss[i].id)[c].session == Some(ss[i].id),
        cs[c].session != Some(ss[i].id) ==> clients_gone(cs, c, ss[i].id)[c].last_session == cs[c].session,
        forall|k: int| 0 <= k < cs.len() && k != c ==> #[trigger] clients_gone(cs, c, ss[i].id)[k] == cs[k],
{
}

/// A choice closes the list and goes to what was chosen.
pub proof fn lemma_choice(before: Client, after: Client, left: Chooser, item: ChooserItem, r: Picked)
    requires
        is_picked_by(before, after, left, ChooserAction::Choose(Some(item)), r),
    ensures
        after.chooser is None,
        r == Picked::Go(item),
        after.session == before.session && after.prompt == before.prompt,
{
}

/// A list stays open until it is closed; asking for a filter leaves it open,
/// with the one that it has to be changed.
pub proof fn lemma_choice_left(before: Client, after: Client, left: Chooser, r: Picked)
    ensures
        is_picked_by(before, after, left, ChooserAction::Stay, r) ==> after.chooser == Some(left) && r is Nothing,
        is_picked_by(before, after, left, ChooserAction::Close, r) ==> after.chooser is None && r is Nothing,
        is_picked_by(before, after, left, ChooserAction::AskFilter, r) ==> after.chooser == Some(left) && after.prompt is Some
            && after.prompt->0.input@ == left.filter@ && after.prompt->0.cursor == left.filter@.len(),
{
}

/// A menu entry runs its command.
pub proof fn lemma_entry_runs(ch: Chooser, n: int)
    ensures
        ch.kind matches ChooserKind::Menu(entries) ==> 0 <= n < entries@.len() && entries@[n].cmd is Some ==> entry_line(
            ch,
            n,
        ) == Some(entries@[n].cmd->0@),
{
}

/// While a filter is typed the list follows it; giving it up brings back the
/// one before.
pub proof fn lemma_filter_typed(p: Prompt, left: Prompt, filter: Seq<char>)
    ensures
        p.kind matches PromptKind::Filter { prev } ==> {
            &&& filter_after(p, Some(left), PromptAction::Stay, filter) == left.input@
            &&& filter_after(p, Some(left), PromptAction::Cancel, filter) == prev@
            &&& filter_after(p, Some(left), PromptAction::Accept, filter) == filter
        },
        !(p.kind is Filter) ==> filter_after(p, Some(left), PromptAction::Stay, filter) == filter,
{
}

/// A character typed at a prompt stands before the cursor, and the hint is
/// gone.
pub proof fn lemma_typed_at_prompt(before: Prompt, after: Prompt, k: Key)
    requires
        is_edited(before, after, k, PromptAction::Stay),
        before.cursor <= before.input@.len(),
        !(before.kind is Confirm),
        k.code is Char && !k.ctrl && !k.alt,
    ensures
        after.input@ == before.input@.take(before.cursor as int) + seq![k.code->Char_0] + before.input@.skip(
            before.cursor as int,
        ),
        after.cursor == before.cursor + 1,
        after.hint is None,
        after.label == before.label && after.kind == before.kind,
{
    crate::client_laws::lemma_prompt_edits(before.input@, before.cursor as int, k);
}

/// Completion changes only the word before the cursor: what is in front of it
/// and behind the cursor stays.
pub proof fn lemma_completed(input: Seq<char>, cursor: int, after: (Seq<char>, int), words: Seq<Seq<char>>, ends: bool, start: int)
    requires
        0 <= start <= cursor <= input.len(),
        start == 0 || input[start - 1] == ' ',
        forall|i: int| start <= i < cursor ==> #[trigger] input[i] != ' ',
        completed((input, cursor), after, words, ends),
    ensures
        after == (input, cursor) || exists|s: Seq<char>|
            #[trigger] crate::prompt::is_completion(words, ends, s) && after == (
                input.take(start) + s + input.skip(cursor),
                (start + s.len()) as int,
            ),
{
    let head = input.take(cursor);
    lemma_word_start(head, start, cursor);
}

proof fn lemma_word_start(head: Seq<char>, start: int, i: int)
    requires
        0 <= start <= i <= head.len(),
        start == 0 || head[start - 1] == ' ',
        forall|j: int| start <= j < i ==> #[trigger] head[j] != ' ',
    ensures
        crate::prompt::after_space(head, i) == start,
    decreases i - start,
{
    if i > start {
        lemma_word_start(head, start, i - 1);
    }
}

/// A menu has its title first, and then its entries in their order.
pub proof fn lemma_menu_rows(title: Seq<char>, entries: Seq<MenuItem>, names: Seq<Seq<char>>, k: int, j: int)
    requires
        0 <= j < k <= entries.len(),
        entries.len() == names.len(),
    ensures
        menu_rows(Some(title), entries, names, k).len() == k + 1,
        menu_rows(Some(title), entries, names, k)[0] == (ChooserItem::Separator, title),
        menu_rows(Some(title), entries, names, k)[j + 1] == crate::client_commands::menu_row(entries[j], j, names[j]),
        menu_rows(None, entries, names, k).len() == k,
        menu_rows(None, entries, names, k)[j] == crate::client_commands::menu_row(entries[j], j, names[j]),
    decreases k,
{
    if k > 1 {
        lemma_menu_rows(
            title,
            entries,
            names,
            k - 1,
            if j < k - 1 {
                j
            } else {
                0
            },
        );
    } else {
        assert(menu_rows(Some(title), entries, names, 0).len() == 1);
        assert(menu_rows(None, entries, names, 0).len() == 0);
    }
}

/// The label of a prompt has a blank behind it.
pub proof fn lemma_labels(label: Seq<char>)
    ensures
        label.len() > 0 && label.last() == ' ' ==> labelled(label) == label,
        label.len() > 1 && label.last() != ' ' ==> labelled(label) == label.push(' '),
        labelled(seq![':']) == seq![':'],
{
    reveal_strlit(" ");
    reveal_strlit(":");
    assert(":"@ =~= seq![':']);
    assert(label + " "@ =~= label.push(' '));
    assert(":"@.len() == 1);
}

/// A popup that is closed is gone.
pub proof fn lemma_popup_closed(c: Client)
    ensures
        popup_closed(c, true).popup is None,
        popup_closed(c, true).session == c.session,
        popup_closed(c, false) == c,
{
}

/// All windows of all sessions are laid out anew; nothing is lost.
pub proof fn lemma_all_relaid(ss: Seq<SessionState>, opts: Options, k: int)
    requires
        0 <= k <= ss.len(),
    ensures
        all_relaid(ss, opts, k).len() == ss.len(),
        forall|i: int|
            0 <= i < ss.len() ==> (#[trigger] all_relaid(ss, opts, k)[i]).id == ss[i].id && all_relaid(ss, opts, k)[i].cur
                == ss[i].cur && all_relaid(ss, opts, k)[i].windows.len() == ss[i].windows.len(),
    decreases k,
{
    if k > 0 {
        lemma_all_relaid(ss, opts, k - 1);
    }
}

/// A task is done when all its messages are, running while one is not; it
/// failed if one did, and was cancelled if one was and none failed.
pub proof fn lemma_task_status(s: Seq<Life>, i: int)
    requires
        0 <= i < s.len(),
    ensures
        s[i].stage is Queued || s[i].stage is Delivered ==> task_status(s) == "running"@,
        (s[i].stage is Failed || s[i].stage is Rejected) && (forall|j: int|
            0 <= j < s.len() ==> !((#[trigger] s[j]).stage is Queued) && !(s[j].stage is Delivered)) ==> task_status(s)
            == "failed"@,
        (forall|j: int| 0 <= j < s.len() ==> ((#[trigger] s[j]).stage is Done || s[j].stage is Read)) ==> task_status(s)
            == "done"@,
        (s[i].stage is Dropped || s[i].stage is Abandoned) && (forall|j: int|
            0 <= j < s.len() ==> ((#[trigger] s[j]).stage is Done || s[j].stage is Read || s[j].stage is Dropped
                || s[j].stage is Abandoned)) ==> task_status(s) == "cancelled"@,
{
}

/// The events that are listed are those that hold the text asked for, in their
/// order.
pub proof fn lemma_events_listed(lines: Seq<Seq<char>>, about: Seq<char>, k: int)
    requires
        0 <= k <= lines.len(),
    ensures
        forall|i: int|
            0 <= i < listed_lines(lines, Some(about), None, k).len() ==> crate::text::holds(
                #[trigger] listed_lines(lines, Some(about), None, k)[i],
                about,
            ),
        forall|i: int|
            0 <= i < k && crate::text::holds(#[trigger] lines[i], about) ==> listed_lines(lines, Some(about), None, k).contains(
                lines[i],
            ),
        listed_lines(lines, None, None, k) == lines.take(k),
    decreases k,
{
    if k > 0 {
        lemma_events_listed(lines, about, k - 1);
        assert(lines.take(k - 1).push(lines[k - 1]) =~= lines.take(k));
        assert(is_listed(lines[k - 1], None, None));
        let before = listed_lines(lines, Some(about), None, k - 1);
        let all = listed_lines(lines, Some(about), None, k);
        assert forall|i: int| 0 <= i < all.len() implies crate::text::holds(#[trigger] all[i], about) by {
            if i < before.len() {
                assert(all[i] == before[i]);
            }
        }
        assert forall|i: int| 0 <= i < k && crate::text::holds(#[trigger] lines[i], about) implies all.contains(lines[i]) by {
            if i == k - 1 {
                assert(all[all.len() - 1] == lines[i]);
            } else {
                assert(before.contains(lines[i]));
                let j = choose|j: int| 0 <= j < before.len() && before[j] == lines[i];
                assert(all[j] == lines[i]);
            }
        }
    } else {
        assert(lines.take(0) =~= Seq::<Seq<char>>::empty());
    }
}

/// A text that is cut to so many bytes fits, and with one more character would
/// not.
pub proof fn lemma_bytes_fit(s: Seq<char>, max: int, k: int)
    requires
        0 <= k <= s.len(),
        bytes_in(s.take(k)) <= max,
    ensures
        ({
            let e = fits_upto(s, max, k);
            &&& k <= e <= s.len()
            &&& bytes_in(s.take(e)) <= max
            &&& e < s.len() ==> bytes_in(s.take(e + 1)) > max
        }),
    decreases s.len() - k,
{
    if k < s.len() && bytes_in(s.take(k + 1)) <= max {
        lemma_bytes_fit(s, max, k + 1);
    }
}

/// The logs of a window are under the session's name and the numbers that the
/// window and the pane are named by.
pub proof fn lemma_logs_named(s: SessionState, j: int, opts: Options, k: int, i: int)
    requires
        0 <= i < k,
    ensures
        window_logs(s, j, opts, k)[i] == (
            panes(s.windows[j].tree)[i],
            s.name,
            j + opts.base_index,
            i + opts.pane_base_index,
        ),
{
}

/// A key that is bound must be one.
pub proof fn lemma_key_outcome(key: Seq<char>)
    ensures
        crate::keys::named_key(key) is Some ==> key_outcome(key) is Done,
        key_outcome(key) is Done || key_outcome(key) is Error,
{
}

/// What is said of kills that can be undone.
pub proof fn lemma_undo_text(what: Seq<char>, kept: nat, secs: u64)
    ensures
        undo_text(1, what, secs) == what + " killed"@ + "; undo-kill (prefix u) brings it back within "@ + decimal(
            secs as nat,
        ) + "s"@,
        kept != 1 ==> undo_text(kept, what, secs) == decimal(kept) + " "@ + what + "s killed"@
            + "; undo-kill (prefix u) brings it back within "@ + decimal(secs as nat) + "s"@,
{
}

/// A pane that is put beside another is in its window and has the focus there.
pub proof fn lemma_taken_in(
    ss: Seq<SessionState>,
    beside: PaneId,
    p: Pane,
    horizontal: bool,
    extent: int,
    before: bool,
    i: int,
    j: int,
)
    requires
        0 <= i < ss.len(),
        crate::server::session_with(ss, beside, 0) == i,
        crate::session::window_with(ss[i].windows, beside, 0) == j,
        0 <= j < ss[i].windows.len(),
    ensures
        ({
            let after = taken_in(ss, beside, p, horizontal, extent, before);
            &&& after.len() == ss.len() && after[i].windows.len() == ss[i].windows.len()
            &&& after[i].windows[j].active == p.id
            &&& after[i].windows[j].last_pane == Some(ss[i].windows[j].active)
            &&& after[i].windows[j].preset is None
            &&& forall|k: int| 0 <= k < ss.len() && k != i ==> #[trigger] after[k] == ss[k]
        }),
{
}

/// A message must be for some pane; an answer is for who is answered.
pub proof fn lemma_addressee(ss: Seq<SessionState>, cs: Seq<Client>, opts: Options, t: Target, cid: Option<ClientId>)
    ensures
        addressee_for(ss, cs, opts, None, cid, false) is Err,
        crate::server::place_for(ss, cs, opts, Some(t), cid) is Ok ==> addressee_for(ss, cs, opts, Some(t), cid, false)
            == Ok::<PaneId, Seq<char>>(crate::server::place_for(ss, cs, opts, Some(t), cid)->Ok_0.pane),
        crate::callers::caller(ss, cs, cid) is None ==> addressee_for(ss, cs, opts, Some(t), cid, true) is Err,
{
}

/// What was printed is read row by row.
pub proof fn lemma_rows_read(s: Screen, i: int, k: int, j: int)
    requires
        0 <= i <= k <= j <= s.lines@.len(),
    ensures
        s.pieces(i, j) == s.pieces(i, k) + s.pieces(k, j),
        i < j && !s.lines@[i].wrapped ==> s.pieces(i, j) == crate::text::trim_end(s.lines@[i].text@) + seq!['\n'] + s.pieces(
            i + 1,
            j,
        ),
    decreases k - i,
{
    if i < k {
        lemma_rows_read(s, i + 1, k, j);
        assert(s.pieces(i, j) =~= s.pieces(i, k) + s.pieces(k, j));
    } else {
        assert(s.pieces(i, k) =~= Seq::<char>::empty());
        assert(s.pieces(i, j) =~= s.pieces(i, k) + s.pieces(k, j));
    }
    if i < j && !s.lines@[i].wrapped {
        let t = crate::text::trim_end(s.lines@[i].text@);
        assert(t.push('\n') =~= t + seq!['\n']);
    }
}

/// Windows of one session change places within it, and no other session
/// changes.
pub proof fn lemma_moved_within(ss: Seq<SessionState>, opts: Options, i: int, a: int, b: int, move_it: bool)
    requires
        0 <= i < ss.len(),
        a != b,
    ensures
        windows_moved(ss, opts, i, a, i, b, move_it).len() == ss.len(),
        windows_moved(ss, opts, i, a, i, b, move_it)[i] == crate::window_moves::rearranged(ss[i], a, b, move_it),
        forall|k: int| 0 <= k < ss.len() && k != i ==> #[trigger] windows_moved(ss, opts, i, a, i, b, move_it)[k] == ss[k],
        windows_moved(ss, opts, i, a, i, a, move_it) == ss,
{
}

/// A pane that is in a session is found there.
pub proof fn lemma_any_pane(server: Server, id: PaneId)
    ensures
        crate::server::session_with(server.states(), id, 0) < server.states().len() ==> any_pane(server, id) == Some(
            crate::endings::pane_named(server.states(), id),
        ),
{
}

} // verus!
