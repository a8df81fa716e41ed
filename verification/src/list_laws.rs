//! Lists to choose from, commands at a client, and how lines are shown.
use vstd::prelude::*;
use vstd::utf8::encode_utf8;

use crate::chooser::{acted_on, keeps, nearest, open_at, parent_of, stepped, Chooser, ChooserItem};
use crate::chooser_keys::{chosen, folded_log, meaning, menu_hit, toggled, ChooserAction, Meaning};
use crate::client::Client;
use crate::client_commands::{boolean, copy_key_for, keys_bytes, menu_row, numbers_until, refreshed, restartable};
use crate::command::{Dir, MenuItem};
use crate::config::{after_directive, home_path, parent_reads, reads, Block};
use crate::context::{last_activity, unix, Clock};
use crate::display::{column_width, fitting, half_even, listed, size_text, truncated};
use crate::drawing::brought;
use crate::events::{popup_ended, unexpired};
use crate::keys::{Key, KeyCode};
use crate::layout::PaneId;
use crate::server::KilledState;
use crate::text::decimal;
use crate::window::WindowState;

verus! {

/// The nearest line that can be chosen: it can, and none in between can.
pub proof fn lemma_nearest_line(items: Seq<ChooserItem>, i: int, d: int)
    requires
        d == 1 || d == -1,
    ensures
        match nearest(items, i, d) {
            Some(k) => {
                &&& 0 <= k < items.len() && !(items[k] is Separator)
                &&& d == 1 ==> i <= k && forall|j: int| i <= j < k ==> (#[trigger] items[j]) is Separator
                &&& d == -1 ==> k <= i && forall|j: int| k < j <= i ==> (#[trigger] items[j]) is Separator
            },
            None => true,
        },
    decreases
            if d == 1 {
                items.len() + 1 - i
            } else {
                i + 1
            },
{
    if 0 <= i <= crate::chooser::last_line(items) && !open_at(items, i) {
        lemma_nearest_line(items, i + d, d);
    }
}

/// In a list without titles a step goes as many lines as it says, and stops at
/// the first and at the last.
pub proof fn lemma_list_steps(items: Seq<ChooserItem>, sel: int, delta: int)
    requires
        0 <= sel < items.len(),
        forall|k: int| 0 <= k < items.len() ==> !((#[trigger] items[k]) is Separator),
    ensures
        0 <= sel + delta < items.len() ==> stepped(items, sel, delta) == sel + delta,
        sel + delta < 0 ==> stepped(items, sel, delta) == 0,
        sel + delta >= items.len() ==> stepped(items, sel, delta) == items.len() - 1,
{
}

/// A step over titles ends on the next line that can be chosen, if there is
/// one that way.
pub proof fn lemma_list_step_down(items: Seq<ChooserItem>, sel: int, next: int)
    requires
        0 <= sel < items.len(),
        0 <= next < items.len(),
        !(items[next] is Separator),
        sel < next && (forall|j: int| sel < j < next ==> (#[trigger] items[j]) is Separator) || next < sel && (forall|j: int|
            next < j < sel ==> (#[trigger] items[j]) is Separator),
    ensures
        stepped(
            items,
            sel,
            if sel < next {
                1
            } else {
                -1
            },
        ) == next,
{
    if sel < next {
        lemma_nearest_line(items, sel + 1, 1);
        crate::chooser::lemma_nearest(items, sel + 1, 1);
        assert(open_at(items, next));
    } else {
        lemma_nearest_line(items, sel - 1, -1);
        crate::chooser::lemma_nearest(items, sel - 1, -1);
        assert(open_at(items, next));
    }
}

/// The keys of a list: Down and `j` go down, Up and `k` up, `g` to the first
/// line and `G` to the last, the page keys a page, and half a page with `C-d`
/// and `C-u`; `q` and Escape close it, Enter chooses, `t` tags, and a digit
/// names a line.
pub proof fn lemma_list_keys(ch: Chooser, page: int, k: Key)
    requires
        menu_hit(ch, k) is None,
        !k.alt,
    ensures
        ({
            let m = meaning(ch, page, k);
            let live = ch.kind is Tree || ch.kind is Buffers || ch.kind is Clients || ch.kind is Jobs;
            &&& k.code is Down || k.code == KeyCode::Char('j') && !k.ctrl ==> m == Meaning::Step(1)
            &&& k.code is Up || k.code == KeyCode::Char('k') && !k.ctrl ==> m == Meaning::Step(-1)
            &&& k.code is Home || k.code == KeyCode::Char('g') && !k.ctrl ==> m is First
            &&& k.code is End || k.code == KeyCode::Char('G') && !k.ctrl ==> m is Last
            &&& k.code is NPage || k.code == KeyCode::Char('f') && k.ctrl ==> m == Meaning::Step(page)
            &&& k.code is PPage || k.code == KeyCode::Char('b') && k.ctrl ==> m == Meaning::Step(-page)
            &&& k.code == KeyCode::Char('d') && k.ctrl ==> m == Meaning::Step(page / 2)
            &&& k.code == KeyCode::Char('u') && k.ctrl ==> m == Meaning::Step(-(page / 2))
            &&& k.code is Escape || k.code == KeyCode::Char('q') && !k.ctrl ==> m is Close
            &&& k.code is Enter && !(ch.kind is History) ==> m is Enter
            &&& k.code == KeyCode::Char('t') && !k.ctrl && live ==> m is Tag
            &&& k.code == KeyCode::Char('T') && !k.ctrl && live ==> m is ClearTags
            &&& k.code == KeyCode::Char('f') && !k.ctrl && live ==> m is AskFilter
            &&& k.code == KeyCode::Char('x') && !k.ctrl && ch.kind is Jobs ==> m == Meaning::Act(false)
            &&& k.code == KeyCode::Char('r') && !k.ctrl && ch.kind is Jobs ==> m == Meaning::Act(true)
            &&& k.code is Left && ch.kind is Tree && ch.kind->expand ==> m is Fold
            &&& k.code is Right && ch.kind is Tree && ch.kind->expand ==> m is Unfold
            &&& k.code is Char && !k.ctrl && '0' <= k.code->Char_0 <= '9' ==> m == Meaning::Digit(
                k.code->Char_0 as int - '0' as int,
            )
        }),
{
}

/// Tagging turns: what was tagged is not any more, what was not is, and
/// nothing else changes. What is acted on is all that is tagged, or else the
/// selected line alone.
pub proof fn lemma_tags(tagged: Seq<ChooserItem>, item: ChooserItem, ch: Chooser)
    requires
        tagged.no_duplicates(),
    ensures
        toggled(tagged, item).contains(item) <==> !tagged.contains(item),
        forall|x: ChooserItem| x != item ==> (#[trigger] toggled(tagged, item).contains(x) <==> tagged.contains(x)),
        ch.tagged@.len() > 0 ==> acted_on(ch) == ch.tagged@,
        ch.tagged@.len() == 0 && ch.sel < ch.items@.len() ==> acted_on(ch) == seq![ch.items@[ch.sel as int]],
        ch.tagged@.len() == 0 && ch.sel >= ch.items@.len() ==> acted_on(ch).len() == 0,
{
    lemma_item_place(tagged, item, 0);
    match crate::chooser_keys::place_of(tagged, item, 0) {
        Some(i) => {
            let after = tagged.remove(i);
            if after.contains(item) {
                let j = choose|j: int| 0 <= j < after.len() && after[j] == item;
                let was = if j < i {
                    j
                } else {
                    j + 1
                };
                assert(tagged[was] == item);
            }
            assert forall|x: ChooserItem| x != item implies (#[trigger] after.contains(x) <==> tagged.contains(x)) by {
                if tagged.contains(x) {
                    let j = choose|j: int| 0 <= j < tagged.len() && tagged[j] == x;
                    let is = if j < i {
                        j
                    } else {
                        j - 1
                    };
                    assert(after[is] == x);
                }
                if after.contains(x) {
                    let j = choose|j: int| 0 <= j < after.len() && after[j] == x;
                    let was = if j < i {
                        j
                    } else {
                        j + 1
                    };
                    assert(tagged[was] == x);
                }
            }
        },
        None => {
            let after = tagged.push(item);
            assert(after[tagged.len() as int] == item);
            assert forall|x: ChooserItem| x != item implies (#[trigger] after.contains(x) <==> tagged.contains(x)) by {
                if tagged.contains(x) {
                    let j = choose|j: int| 0 <= j < tagged.len() && tagged[j] == x;
                    assert(after[j] == x);
                }
            }
        },
    }
}

proof fn lemma_item_place(items: Seq<ChooserItem>, item: ChooserItem, i: int)
    requires
        0 <= i,
    ensures
        match crate::chooser_keys::place_of(items, item, i) {
            Some(k) => i <= k < items.len() && items[k] == item,
            None => forall|k: int| i <= k < items.len() ==> #[trigger] items[k] != item,
        },
    decreases items.len() - i,
{
    if i < items.len() && items[i] != item {
        lemma_item_place(items, item, i + 1);
    }
}

/// Left folds the days of a log, Right unfolds them, and Enter turns them.
pub proof fn lemma_log_folds(ch: Chooser, after: Chooser, k: Key)
    requires
        ch.kind is History,
        ch.sel < ch.items@.len(),
        ch.items@[ch.sel as int] is Log,
        folded_log(ch, after, k),
    ensures
        ({
            let i = ch.items@[ch.sel as int]->Log_0;
            &&& k.code is Left ==> !after.kind->open@.contains(i)
            &&& k.code is Right ==> after.kind->open@.contains(i)
            &&& k.code is Enter ==> (after.kind->open@.contains(i) <==> !ch.kind->open@.contains(i))
            &&& forall|j: usize| j != i ==> (#[trigger] after.kind->open@.contains(j) <==> ch.kind->open@.contains(j))
        }),
{
}

/// Enter on a line chooses it; on a menu's line it runs that entry, on the day
/// of a log it shows it.
pub proof fn lemma_line_chosen(ch: Chooser)
    requires
        ch.sel < ch.items@.len(),
    ensures
        ch.kind is Tree || ch.kind is Buffers || ch.kind is Clients || ch.kind is Jobs ==> chosen(ch)
            == ChooserAction::Choose(Some(ch.items@[ch.sel as int])),
        ch.kind matches crate::chooser::ChooserKind::Menu(entries) ==> ch.items@[ch.sel as int] matches ChooserItem::Menu(
            i,
        ) ==> i < entries@.len() && entries@[i as int].cmd is Some ==> chosen(ch) == ChooserAction::Menu(i),
{
}

/// Filtering keeps a line that matches, the windows of a session that does,
/// and the session of a window that does; no other line but titles.
pub proof fn lemma_filter_keeps(items: Seq<ChooserItem>, hit: Seq<bool>, i: int, j: int)
    requires
        items.len() == hit.len(),
        0 <= j < i < items.len(),
        items[j] is Tree,
        items[j]->Tree_1 is None,
        forall|k: int| j < k <= i ==> (#[trigger] items[k]) is Tree && items[k]->Tree_1 is Some,
    ensures
        hit[i] ==> keeps(items, hit, i) && keeps(items, hit, j),
        hit[j] ==> keeps(items, hit, i) && keeps(items, hit, j),
        !hit[i] && !hit[j] ==> !keeps(items, hit, i),
{
    lemma_parent(items, i, j);
    assert(crate::chooser::is_window(items[i]));
    if !hit[i] && !hit[j] && keeps(items, hit, i) {
        let w = choose|w: int|
            0 <= w < items.len() && #[trigger] crate::chooser::is_window(items[w]) && parent_of(items, w) == Some(i)
                && hit[w];
        lemma_parent_line(items, w);
    }
}

proof fn lemma_parent(items: Seq<ChooserItem>, i: int, j: int)
    requires
        0 <= j < i <= items.len(),
        items[j] is Tree,
        items[j]->Tree_1 is None,
        forall|k: int| j < k < i ==> (#[trigger] items[k]) is Tree && items[k]->Tree_1 is Some,
    ensures
        parent_of(items, i) == Some(j),
    decreases i,
{
    if i - 1 > j {
        lemma_parent(items, i - 1, j);
    }
}

proof fn lemma_parent_line(items: Seq<ChooserItem>, i: int)
    requires
        0 <= i <= items.len(),
    ensures
        match parent_of(items, i) {
            Some(k) => 0 <= k < i && items[k] is Tree && items[k]->Tree_1 is None,
            None => true,
        },
    decreases i,
{
    if i > 0 && !(items[i - 1] is Tree && items[i - 1]->Tree_1 is None) {
        lemma_parent_line(items, i - 1);
    }
}

/// A character typed, with Control or without.
pub open spec fn key_for(c: char, ctrl: bool) -> Key {
    Key { code: KeyCode::Char(c), ctrl, alt: false, shift: false }
}

/// The commands of copy mode by the keys that do the same.
pub proof fn lemma_copy_commands()
    ensures
        copy_key_for("cursor-up"@) == Some(key_for('k', false)),
        copy_key_for("cursor-down"@) == Some(key_for('j', false)),
        copy_key_for("cursor-left"@) == Some(key_for('h', false)),
        copy_key_for("cursor-right"@) == Some(key_for('l', false)),
        copy_key_for("next-word"@) == Some(key_for('w', false)),
        copy_key_for("next-word-end"@) == Some(key_for('e', false)),
        copy_key_for("previous-word"@) == Some(key_for('b', false)),
        copy_key_for("start-of-line"@) == Some(key_for('0', false)),
        copy_key_for("back-to-indentation"@) == Some(key_for('^', false)),
        copy_key_for("end-of-line"@) == Some(key_for('$', false)),
        copy_key_for("top-line"@) == Some(key_for('H', false)),
        copy_key_for("middle-line"@) == Some(key_for('M', false)),
        copy_key_for("bottom-line"@) == Some(key_for('L', false)),
        copy_key_for("previous-paragraph"@) == Some(key_for('{', false)),
        copy_key_for("next-paragraph"@) == Some(key_for('}', false)),
        copy_key_for("history-top"@) == Some(key_for('g', false)),
        copy_key_for("history-bottom"@) == Some(key_for('G', false)),
        copy_key_for("page-up"@) == Some(key_for('b', true)),
        copy_key_for("page-down"@) == Some(key_for('f', true)),
        copy_key_for("halfpage-up"@) == Some(key_for('u', true)),
        copy_key_for("halfpage-down"@) == Some(key_for('d', true)),
        copy_key_for("begin-selection"@) == Some(key_for(' ', false)),
        copy_key_for("rectangle-toggle"@) == Some(key_for('v', true)),
        copy_key_for("copy-selection"@) == Some(key_for('y', false)),
        copy_key_for("copy-selection-and-cancel"@) == Some(key_for('y', false)),
        copy_key_for("cancel"@) == Some(key_for('q', false)),
        copy_key_for("search-forward"@) == Some(key_for('/', false)),
        copy_key_for("search-backward"@) == Some(key_for('?', false)),
        copy_key_for("search-again"@) == Some(key_for('n', false)),
        copy_key_for("search-reverse"@) == Some(key_for('N', false)),
{
    reveal_strlit("cursor-up");
    reveal_strlit("cursor-down");
    reveal_strlit("cursor-left");
    reveal_strlit("cursor-right");
    reveal_strlit("next-word");
    reveal_strlit("next-space");
    reveal_strlit("next-word-end");
    reveal_strlit("next-space-end");
    reveal_strlit("previous-word");
    reveal_strlit("previous-space");
    reveal_strlit("start-of-line");
    reveal_strlit("back-to-indentation");
    reveal_strlit("end-of-line");
    reveal_strlit("top-line");
    reveal_strlit("middle-line");
    reveal_strlit("bottom-line");
    reveal_strlit("previous-paragraph");
    reveal_strlit("next-paragraph");
    reveal_strlit("history-top");
    reveal_strlit("history-bottom");
    reveal_strlit("page-up");
    reveal_strlit("page-down");
    reveal_strlit("halfpage-up");
    reveal_strlit("halfpage-down");
    reveal_strlit("begin-selection");
    reveal_strlit("rectangle-toggle");
    reveal_strlit("rectangle-on");
    reveal_strlit("copy-selection");
    reveal_strlit("copy-selection-and-cancel");
    reveal_strlit("copy-pipe-and-cancel");
    reveal_strlit("cancel");
    reveal_strlit("stop-selection");
    reveal_strlit("search-forward");
    reveal_strlit("search-backward");
    reveal_strlit("search-again");
    reveal_strlit("search-reverse");
    assert("cursor-up"@.len() == 9 && "cursor-up"@[0] == 'c');
    assert("cursor-down"@.len() == 11 && "cursor-down"@[0] == 'c' && "cursor-down"@[7] == 'd');
    assert("cursor-left"@.len() == 11 && "cursor-left"@[0] == 'c' && "cursor-left"@[7] == 'l');
    assert("cursor-right"@.len() == 12 && "cursor-right"@[0] == 'c');
    assert("next-word"@.len() == 9 && "next-word"@[0] == 'n');
    assert("next-space"@.len() == 10);
    assert("next-word-end"@.len() == 13 && "next-word-end"@[0] == 'n');
    assert("next-space-end"@.len() == 14 && "next-space-end"@[0] == 'n' && "next-space-end"@[5] == 's');
    assert("previous-word"@.len() == 13 && "previous-word"@[0] == 'p');
    assert("previous-space"@.len() == 14 && "previous-space"@[0] == 'p');
    assert("start-of-line"@.len() == 13 && "start-of-line"@[0] == 's');
    assert("back-to-indentation"@.len() == 19);
    assert("end-of-line"@.len() == 11 && "end-of-line"@[0] == 'e');
    assert("top-line"@.len() == 8);
    assert("middle-line"@.len() == 11 && "middle-line"@[0] == 'm');
    assert("bottom-line"@.len() == 11 && "bottom-line"@[0] == 'b');
    assert("previous-paragraph"@.len() == 18);
    assert("next-paragraph"@.len() == 14 && "next-paragraph"@[0] == 'n' && "next-paragraph"@[5] == 'p');
    assert("history-top"@.len() == 11 && "history-top"@[0] == 'h' && "history-top"@[1] == 'i');
    assert("history-bottom"@.len() == 14 && "history-bottom"@[0] == 'h');
    assert("page-up"@.len() == 7);
    assert("page-down"@.len() == 9 && "page-down"@[0] == 'p');
    assert("halfpage-up"@.len() == 11 && "halfpage-up"@[0] == 'h' && "halfpage-up"@[1] == 'a');
    assert("halfpage-down"@.len() == 13 && "halfpage-down"@[0] == 'h');
    assert("begin-selection"@.len() == 15 && "begin-selection"@[0] == 'b');
    assert("rectangle-toggle"@.len() == 16);
    assert("rectangle-on"@.len() == 12 && "rectangle-on"@[0] == 'r');
    assert("copy-selection"@.len() == 14 && "copy-selection"@[0] == 'c');
    assert("copy-selection-and-cancel"@.len() == 25);
    assert("copy-pipe-and-cancel"@.len() == 20);
    assert("cancel"@.len() == 6);
    assert("stop-selection"@.len() == 14 && "stop-selection"@[0] == 's' && "stop-selection"@[1] == 't');
    assert("search-forward"@.len() == 14 && "search-forward"@[0] == 's' && "search-forward"@[1] == 'e' && "search-forward"@[7] == 'f');
    assert("search-backward"@.len() == 15 && "search-backward"@[0] == 's');
    assert("search-again"@.len() == 12 && "search-again"@[0] == 's');
    assert("search-reverse"@.len() == 14 && "search-reverse"@[0] == 's' && "search-reverse"@[1] == 'e' && "search-reverse"@[7] == 'r');
}

/// A view that is moved goes by so many cells where it is told to, not before
/// the first one, and stays there.
pub proof fn lemma_view_panned(c: Client, n: u16)
    ensures
        ({
            let l = refreshed(c, Some((Dir::Left, n)));
            l.view_x == (if c.view_x > n {
                c.view_x - n
            } else {
                0
            }) && l.view_y == c.view_y && l.view_pinned
        }),
        ({
            let u = refreshed(c, Some((Dir::Up, n)));
            u.view_y == (if c.view_y > n {
                c.view_y - n
            } else {
                0
            }) && u.view_x == c.view_x && u.view_pinned
        }),
        c.view_x + n <= u16::MAX ==> refreshed(c, Some((Dir::Right, n))).view_x == c.view_x + n && refreshed(
            c,
            Some((Dir::Right, n)),
        ).view_y == c.view_y,
        c.view_y + n <= u16::MAX ==> refreshed(c, Some((Dir::Down, n))).view_y == c.view_y + n && refreshed(
            c,
            Some((Dir::Down, n)),
        ).view_x == c.view_x,
        refreshed(c, None).view_x == c.view_x && refreshed(c, None).view_y == c.view_y && refreshed(c, None).view_pinned
            == c.view_pinned,
{
}

/// A pane whose program still runs is started anew only if it may be killed.
pub proof fn lemma_restarts(w: WindowState, list: Seq<PaneId>, kill: bool, k: int)
    requires
        0 <= k <= list.len(),
    ensures
        kill ==> restartable(w, list, kill, k) == list.take(k),
        forall|i: int|
            0 <= i < k && w.panes[crate::window::place_of(w.panes, #[trigger] list[i], 0)].exit_code is Some ==> restartable(
                w,
                list,
                kill,
                k,
            ).contains(list[i]),
        !kill ==> forall|i: int|
            0 <= i < restartable(w, list, kill, k).len() ==> w.panes[crate::window::place_of(
                w.panes,
                #[trigger] restartable(w, list, kill, k)[i],
                0,
            )].exit_code is Some,
    decreases k,
{
    if k > 0 {
        lemma_restarts(w, list, kill, k - 1);
        assert(list.take(k - 1).push(list[k - 1]) =~= list.take(k));
        let before = restartable(w, list, kill, k - 1);
        let all = restartable(w, list, kill, k);
        assert forall|i: int|
            0 <= i < k && w.panes[crate::window::place_of(w.panes, #[trigger] list[i], 0)].exit_code is Some implies all.contains(
            list[i],
        ) by {
            if i == k - 1 {
                assert(all[all.len() - 1] == list[i]);
            } else {
                assert(before.contains(list[i]));
                let j = choose|j: int| 0 <= j < before.len() && before[j] == list[i];
                assert(all[j] == list[i]);
            }
        }
    } else {
        assert(restartable(w, list, kill, k) =~= list.take(k));
    }
}

/// The entries of a menu: one with a key and a command can be chosen, any
/// other is a title or a rule.
pub proof fn lemma_menu_lines(e: MenuItem, i: int, name: Seq<char>)
    ensures
        e.key is Some && e.cmd is Some ==> menu_row(e, i, name) == (
            ChooserItem::Menu(i as usize),
            seq!['('] + e.key->0@ + seq![')', ' '] + name,
        ),
        e.key is None || e.cmd is None ==> menu_row(e, i, name).0 is Separator,
        (e.key is None || e.cmd is None) && e.name@.len() > 0 ==> menu_row(e, i, name).1 == e.name@,
{
    reveal_strlit("(");
    reveal_strlit(") ");
    assert("("@ =~= seq!['(']);
    assert(") "@ =~= seq![')', ' ']);
}

/// What is sent literally is the bytes of the words, one after the other.
pub proof fn lemma_sent_literally(a: Seq<char>, b: Seq<char>, app: bool)
    ensures
        keys_bytes(seq![a, b], true, app, 2) == encode_utf8(a) + encode_utf8(b),
{
    assert(keys_bytes(seq![a, b], true, app, 1) =~= encode_utf8(a)) by {
        assert(keys_bytes(seq![a, b], true, app, 0) =~= Seq::<u8>::empty());
    }
}

/// The numbers of the panes are shown for the time that is set, and for a
/// second at least.
pub proof fn lemma_numbers_shown(now: u64, time: u64)
    requires
        now + time <= u64::MAX - 1000,
    ensures
        time >= 1000 ==> numbers_until(now, time) == now + time,
        time < 1000 ==> numbers_until(now, time) == now + 1000,
{
}

/// How a setting is turned on, off, or round.
pub proof fn lemma_switch_words()
    ensures
        boolean("on"@) == Some(Some(true)),
        boolean("yes"@) == Some(Some(true)),
        boolean("1"@) == Some(Some(true)),
        boolean("off"@) == Some(Some(false)),
        boolean("no"@) == Some(Some(false)),
        boolean("0"@) == Some(Some(false)),
        boolean(Seq::empty()) == Some(None::<bool>),
{
    reveal_strlit("on");
    reveal_strlit("yes");
    reveal_strlit("true");
    reveal_strlit("1");
    reveal_strlit("off");
    reveal_strlit("no");
    reveal_strlit("false");
    reveal_strlit("0");
    lemma_same_word("on"@);
    lemma_same_word("yes"@);
    lemma_same_word("1"@);
    lemma_same_word("off"@);
    lemma_same_word("no"@);
    lemma_same_word("0"@);
    assert("on"@.len() == 2 && "on"@[0] == 'o' && "no"@.len() == 2 && "no"@[0] == 'n');
    assert("yes"@.len() == 3 && "yes"@[0] == 'y' && "off"@.len() == 3 && "off"@[0] == 'o');
    assert("1"@.len() == 1 && "1"@[0] == '1' && "0"@.len() == 1 && "0"@[0] == '0');
    assert("true"@.len() == 4 && "false"@.len() == 5);
    assert(crate::text::trim(Seq::<char>::empty()) =~= Seq::<char>::empty());
    assert(crate::client_commands::lowered(Seq::<char>::empty()) =~= Seq::<char>::empty());
}

proof fn lemma_same_word(s: Seq<char>)
    requires
        s.len() > 0,
        forall|i: int| 0 <= i < s.len() ==> 'a' <= #[trigger] s[i] <= 'z' || '0' <= s[i] <= '9',
    ensures
        crate::client_commands::lowered(crate::text::trim(s)) == s,
{
    assert('a' <= s[0] <= 'z' || '0' <= s[0] <= '9');
    assert('a' <= s[s.len() - 1] <= 'z' || '0' <= s[s.len() - 1] <= '9');
    assert(!crate::text::is_white(s[0]) && !crate::text::is_white(s.last()));
    assert(crate::client_commands::lowered(s) =~= s);
}

/// A block of conditions: the first branch is read if its condition holds,
/// `%else` if no branch before was, and after `%endif` all is as it was.
/// Nothing is read within a block that is not.
pub proof fn lemma_blocks(blocks: Seq<Block>, n: int, cond: Seq<char>, truth: spec_fn(Seq<char>) -> bool)
    requires
        cond.len() > 0,
        !crate::text::is_white(cond[0]) && !crate::text::is_white(cond.last()),
    ensures
        ({
            let line = seq!['%', 'i', 'f', ' '] + cond;
            let first = after_directive(blocks, n, line, truth);
            let other = after_directive(first, n + 1, "%else"@, truth);
            &&& reads(first) <==> reads(blocks) && truth(cond)
            &&& reads(other) <==> reads(blocks) && !truth(cond)
            &&& after_directive(first, n + 1, "%endif"@, truth) == blocks
            &&& after_directive(other, n + 2, "%endif"@, truth) == blocks
        }),
{
    reveal_strlit("%if");
    reveal_strlit("%elif");
    reveal_strlit("%else");
    reveal_strlit("%endif");
    let line = seq!['%', 'i', 'f', ' '] + cond;
    assert(line[0] == '%' && line[1] == 'i' && line[2] == 'f' && line[3] == ' ');
    lemma_first_white(line, 0, 3);
    assert(line.take(3) =~= "%if"@);
    assert(line.skip(4) =~= cond);
    lemma_first_white("%else"@, 0, 5);
    lemma_first_white("%endif"@, 0, 6);
    assert("%else"@.take(5) =~= "%else"@);
    assert("%endif"@.take(6) =~= "%endif"@);
    assert("%else"@.len() == 5 && "%else"@[2] == 'l' && "%elif"@.len() == 5 && "%elif"@[3] == 'i' && "%else"@[3] == 's');
    assert("%endif"@.len() == 6 && "%if"@.len() == 3);
    let first = after_directive(blocks, n, line, truth);
    let other = after_directive(first, n + 1, "%else"@, truth);
    assert(first.drop_last() =~= blocks);
    assert(other.drop_last() =~= blocks);
    assert(parent_reads(first) == reads(blocks));
}

proof fn lemma_first_white(s: Seq<char>, i: int, e: int)
    requires
        0 <= i <= e <= s.len(),
        e == s.len() || crate::text::is_white(s[e]),
        forall|j: int| i <= j < e ==> !crate::text::is_white(#[trigger] s[j]),
    ensures
        crate::config::first_white(s, i) == e,
    decreases e - i,
{
    if i < e {
        lemma_first_white(s, i + 1, e);
    }
}

/// `~` at the head of a path is the home directory.
pub proof fn lemma_home(home: Seq<char>, rest: Seq<char>, path: Seq<char>)
    ensures
        home_path(seq!['~', '/'] + rest, Some(home)) == home + seq!['/'] + rest,
        home_path(seq!['~'], Some(home)) == home,
        path.len() > 0 && path[0] != '~' ==> home_path(path, Some(home)) == path,
        home_path(path, None) == path,
{
    reveal_strlit("~");
    reveal_strlit("~/");
    reveal_strlit("~\\");
    let p = seq!['~', '/'] + rest;
    assert("~/"@ =~= p.subrange(0, 2));
    assert(p.skip(1) =~= seq!['/'] + rest);
    assert(home + (seq!['/'] + rest) =~= home + seq!['/'] + rest);
    assert(seq!['~'] =~= "~"@);
    assert(home + seq!['~'].skip(1) =~= home);
    if path.len() > 0 && path[0] != '~' {
        assert("~"@[0] == '~' && "~/"@[0] == '~' && "~\\"@[0] == '~');
        if "~/"@.is_prefix_of(path) {
            assert(path.subrange(0, 2)[0] == path[0]);
        }
        if "~\\"@.is_prefix_of(path) {
            assert(path.subrange(0, 2)[0] == path[0]);
        }
    }
}

/// The clock time of a moment of this server's is as many whole seconds ago
/// as have passed since; the last activity of several windows is the latest.
pub proof fn lemma_activity(ws: Seq<WindowState>, now: Clock, k: int)
    requires
        1 <= k <= ws.len(),
    ensures
        forall|at: u64| at <= now.ms ==> 1000 * (now.unix - #[trigger] unix(at, now)) <= now.ms - at < 1000 * (now.unix
            - unix(at, now) + 1),
        forall|i: int| 0 <= i < k ==> last_activity(ws, now, k) >= unix((#[trigger] ws[i]).last_output, now),
        exists|i: int| 0 <= i < k && last_activity(ws, now, k) == unix((#[trigger] ws[i]).last_output, now),
    decreases k,
{
    if k > 1 {
        lemma_activity(ws, now, k - 1);
        let i = k - 1;
        assert(ws[i] == ws[k - 1]);
    } else {
        let i = 0;
        assert(last_activity(ws, now, k) == unix(ws[i].last_output, now));
    }
}

/// A text that is cut to so many characters is that long, an ellipsis at its
/// end, and what was short enough is itself.
pub proof fn lemma_cut(s: Seq<char>, n: int)
    requires
        n >= 1,
    ensures
        s.len() <= n ==> truncated(s, n) == s,
        s.len() > n ==> truncated(s, n).len() == n && truncated(s, n).last() == '\u{2026}' && forall|i: int|
            0 <= i < n - 1 ==> #[trigger] truncated(s, n)[i] == s[i],
{
}

/// A text in a listing is on one line, without the blanks at its ends, and has
/// so many characters at most, not counting the ellipsis.
pub proof fn lemma_listed(s: Seq<char>, max: int)
    requires
        max >= 0,
    ensures
        listed(s, max).len() <= max + 1,
        forall|i: int|
            0 <= i < listed(s, max).len() ==> (#[trigger] listed(s, max)[i]) != '\n' && listed(s, max)[i] != '\t'
                && listed(s, max)[i] != '\r',
        listed(s, max).len() == max + 1 ==> listed(s, max).last() == '\u{2026}',
{
    let flat = crate::display::flattened(s);
    let t = crate::text::trim(flat);
    crate::text_laws::lemma_trim(flat);
    assert forall|i: int| 0 <= i < t.len() implies t[i] != '\n' && t[i] != '\t' && t[i] != '\r' by {
        assert(flat.contains(t[i])) by {
            lemma_trim_from(flat, i);
        }
        let j = choose|j: int| 0 <= j < flat.len() && flat[j] == t[i];
        assert(flat[j] != '\n');
    }
}

proof fn lemma_trim_from(s: Seq<char>, i: int)
    requires
        0 <= i < crate::text::trim(s).len(),
    ensures
        s.contains(crate::text::trim(s)[i]),
{
    crate::text_laws::lemma_trim_end(s);
    crate::text_laws::lemma_trim_start(s);
    crate::text_laws::lemma_trim_end(crate::text::trim_start(s));
    crate::text_laws::lemma_trim_start(crate::text::trim_end(s));
}

/// The size of a file: bytes, whole kilobytes, or megabytes with one place
/// after the point.
pub proof fn lemma_sizes(n: int)
    requires
        0 <= n,
    ensures
        n < 1024 ==> size_text(n) == decimal(n as nat) + seq![' ', 'B'],
        1024 <= n < 1024 * 1024 ==> size_text(n) == decimal((n / 1024) as nat) + seq![' ', 'K', 'B'],
{
    reveal_strlit(" B");
    reveal_strlit(" KB");
    assert(" B"@ =~= seq![' ', 'B']);
    assert(" KB"@ =~= seq![' ', 'K', 'B']);
}

/// A quotient rounded to the nearest is off by no more than a half, and one
/// in the middle is even.
pub proof fn lemma_rounded(n: int, d: int)
    requires
        0 <= n,
        0 < d,
    ensures
        ({
            let q = half_even(n, d);
            &&& -d <= 2 * (n - q * d) <= d
            &&& 2 * (n - q * d) == d || 2 * (n - q * d) == -d ==> q % 2 == 0
        }),
{
    let q = n / d;
    let r = n % d;
    vstd::arithmetic::div_mod::lemma_fundamental_div_mod(n, d);
    vstd::arithmetic::div_mod::lemma_mod_bound(n, d);
    assert(n == d * q + r);
    assert(q * d == d * q) by (nonlinear_arith);
    assert((q + 1) * d == d * q + d) by (nonlinear_arith);
}

/// A column is as wide as its widest cell.
pub proof fn lemma_column(rows: Seq<Seq<Seq<char>>>, c: int, k: nat)
    requires
        k <= rows.len(),
        0 <= c,
        forall|i: int| 0 <= i < rows.len() ==> c < (#[trigger] rows[i]).len(),
    ensures
        forall|i: int|
            0 <= i < k ==> crate::display::text_columns(#[trigger] rows[i][c]) <= column_width(rows, c, k),
        column_width(rows, c, k) == 0 || exists|i: int|
            0 <= i < k && crate::display::text_columns(#[trigger] rows[i][c]) == column_width(rows, c, k),
    decreases k,
{
    if k > 0 {
        lemma_column(rows, c, (k - 1) as nat);
        assert(c < rows[k - 1].len());
        let i = k - 1;
        assert(rows[i][c] == rows[k - 1][c]);
        let before = column_width(rows, c, (k - 1) as nat);
        if column_width(rows, c, k) == before && before != 0 {
            let j = choose|j: int|
                0 <= j < k - 1 && crate::display::text_columns(#[trigger] rows[j][c]) == before;
            assert(crate::display::text_columns(rows[j][c]) == column_width(rows, c, k));
        }
    }
}

/// The columns that the first `e` characters of `s` take from the `i`th on.
pub open spec fn columns_of(s: Seq<char>, i: int, e: int) -> int
    decreases e - i,
{
    if i >= e {
        0
    } else {
        (match crate::display::char_columns(s[i]) {
            Some(w) => w as int,
            None => 0,
        }) + columns_of(s, i + 1, e)
    }
}

/// As much of a text as fits is shown: it fits, and with one more character it
/// would not.
pub proof fn lemma_as_much_as_fits(s: Seq<char>, i: int, left: int)
    requires
        0 <= i <= s.len(),
        0 <= left,
    ensures
        ({
            let e = fitting(s, i, left);
            &&& i <= e <= s.len()
            &&& columns_of(s, i, e) <= left
            &&& e < s.len() ==> columns_of(s, i, e + 1) > left
        }),
    decreases s.len() - i,
{
    if i < s.len() {
        let w = match crate::display::char_columns(s[i]) {
            Some(w) => w as int,
            None => 0,
        };
        if w <= left {
            lemma_as_much_as_fits(s, i + 1, left - w);
        } else {
            assert(columns_of(s, i, i + 1) == w + columns_of(s, i + 1, i + 1));
        }
    }
}

/// A view is moved as little as shows the place: not at all if it is on it,
/// else so that it is at the edge.
pub proof fn lemma_brought_into_view(at: int, v: int, size: int)
    requires
        size > 0,
    ensures
        brought(at, v, size) <= at < brought(at, v, size) + size,
        v <= at < v + size ==> brought(at, v, size) == v,
        at < v ==> brought(at, v, size) == at,
        at >= v + size ==> brought(at, v, size) + size == at + 1,
{
}

/// What was killed is kept for so many seconds; it is in its order.
pub proof fn lemma_kept_killed(ks: Seq<KilledState>, keep: u64, now: u64, k: int)
    requires
        0 <= k <= ks.len(),
    ensures
        forall|i: int|
            0 <= i < unexpired(ks, keep, now, k).len() ==> now - (#[trigger] unexpired(ks, keep, now, k)[i]).killed_at()
                < 1000 * keep || now < unexpired(ks, keep, now, k)[i].killed_at(),
        forall|i: int|
            0 <= i < k && now - (#[trigger] ks[i]).killed_at() < 1000 * keep ==> unexpired(ks, keep, now, k).contains(ks[i]),
    decreases k,
{
    if k > 0 {
        lemma_kept_killed(ks, keep, now, k - 1);
        let before = unexpired(ks, keep, now, k - 1);
        let all = unexpired(ks, keep, now, k);
        assert forall|i: int| 0 <= i < k && now - (#[trigger] ks[i]).killed_at() < 1000 * keep implies all.contains(ks[i]) by {
            if i == k - 1 {
                assert(all[all.len() - 1] == ks[i]);
            } else {
                assert(before.contains(ks[i]));
                let j = choose|j: int| 0 <= j < before.len() && before[j] == ks[i];
                assert(all[j] == ks[i]);
            }
        }
    }
}

/// A popup whose program ended is closed if it was asked to be, and else is
/// left to be read.
pub proof fn lemma_popup_ended(c: Client)
    requires
        c.popup is Some,
    ensures
        c.popup->0.close_on_exit ==> popup_ended(c).popup is None,
        !c.popup->0.close_on_exit ==> popup_ended(c).popup is Some && popup_ended(c).popup->0.finished
            && popup_ended(c).popup->0.pane == c.popup->0.pane,
{
}

} // verus!
