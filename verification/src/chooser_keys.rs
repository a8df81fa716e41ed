//! The keys of the pickers, and the lines of the history picker.
use std::collections::HashSet;
use vstd::prelude::*;
use vstd::std_specs::hash::*;
use crate::chooser::{acted_on, lemma_stepped, settled, stepped, Chooser, ChooserItem, ChooserKind, Day, Kept};
use crate::command::MenuItem;
use crate::display::{human_size, size_text, spaces};
use crate::keys::{named_key, Key, KeyCode};
use crate::text::{chars_of, decimal, push_decimal};

verus! {

broadcast use vstd::std_specs::hash::group_hash_axioms;

/// The line of a pane position with a log.
pub open spec fn kept_line(k: Kept, open: bool) -> Seq<char> {
    (if open {
        "- "@
    } else {
        "+ "@
    }) + k.session@ + ":"@ + k.key@ + "  "@ + decimal(k.days@.len()) + (if k.days@.len() == 1 {
        " day, newest "@
    } else {
        " days, newest "@
    }) + (if k.days@.len() > 0 {
        k.days@[0].date@
    } else {
        Seq::empty()
    })
}

/// The line of one of its days.
pub open spec fn day_line(d: Day) -> Seq<char> {
    let size = size_text(d.size as int);
    "    "@ + d.date@ + " "@ + d.weekday@ + "  "@ + spaces(8 - size.len()) + size + (if d.ago == 0 {
        "  today"@
    } else if d.ago == 1 {
        "  yesterday"@
    } else {
        Seq::empty()
    })
}

/// The days of position `i` from day `d` on.
pub open spec fn day_rows(k: Kept, i: int, d: int) -> Seq<(ChooserItem, Seq<char>)>
    decreases k.days@.len() - d,
{
    if d < 0 || d >= k.days@.len() {
        Seq::empty()
    } else {
        seq![(ChooserItem::Log(i as usize, Some(d as usize)), day_line(k.days@[d]))] + day_rows(k, i, d + 1)
    }
}

/// The positions from `i` on, each with its days when it is open.
pub open spec fn history_rows(kept: Seq<Kept>, open: Set<usize>, i: int) -> Seq<(ChooserItem, Seq<char>)>
    decreases kept.len() - i,
{
    if i < 0 || i >= kept.len() {
        Seq::empty()
    } else {
        let is_open = open.contains(i as usize);
        seq![(ChooserItem::Log(i as usize, None), kept_line(kept[i], is_open))] + (if is_open {
            day_rows(kept[i], i, 0)
        } else {
            Seq::empty()
        }) + history_rows(kept, open, i + 1)
    }
}

/// Items with their lines.
pub open spec fn rows_of(items: Seq<ChooserItem>, lines: Seq<String>) -> Seq<(ChooserItem, Seq<char>)> {
    Seq::new(items.len(), |i: int| (items[i], lines[i]@))
}

fn push_blank(out: &mut String, n: usize)
    ensures
        final(out)@ == old(out)@ + spaces(n as int),
{
    let mut i: usize = 0;
    assert(out@ =~= old(out)@ + spaces(0));
    while i < n
        invariant
            i <= n,
            out@ == old(out)@ + spaces(i as int),
        decreases n - i,
    {
        out.push(' ');
        i = i + 1;
        assert(out@ =~= old(out)@ + spaces(i as int));
    }
}

fn line_of_kept(k: &Kept, open: bool) -> (line: String)
    ensures
        line@ == kept_line(*k, open),
{
    let mut line = if open { "- ".to_owned() } else { "+ ".to_owned() };
    line.push_str(k.session.as_str());
    line.push_str(":");
    line.push_str(k.key.as_str());
    line.push_str("  ");
    push_decimal(&mut line, k.days.len() as u64);
    line.push_str(if k.days.len() == 1 { " day, newest " } else { " days, newest " });
    let ghost most = line@;
    if k.days.len() > 0 {
        line.push_str(k.days[0].date.as_str());
    }
    assert(line@ =~= kept_line(*k, open));
    line
}

fn line_of_day(d: &Day) -> (line: String)
    ensures
        line@ == day_line(*d),
{
    let mut line = "    ".to_owned();
    line.push_str(d.date.as_str());
    line.push_str(" ");
    line.push_str(d.weekday.as_str());
    line.push_str("  ");
    let size = human_size(d.size);
    let n: usize = chars_of(size.as_str()).len();
    if n < 8 {
        push_blank(&mut line, 8 - n);
    } else {
        assert(spaces(8 - n) =~= Seq::<char>::empty());
    }
    line.push_str(size.as_str());
    let ghost most = line@;
    if d.ago == 0 {
        line.push_str("  today");
    } else if d.ago == 1 {
        line.push_str("  yesterday");
    }
    assert(line@ =~= day_line(*d));
    line
}

/// The history picker's lines: each pane position with a log, and under
/// an open one its days, newest first.
pub fn history_lines(kept: &Vec<Kept>, open: &HashSet<usize>) -> (r: (Vec<ChooserItem>, Vec<String>))
    ensures
        r.0@.len() == r.1@.len(),
        rows_of(r.0@, r.1@) == history_rows(kept@, open@, 0),
{
    let mut items: Vec<ChooserItem> = Vec::new();
    let mut lines: Vec<String> = Vec::new();
    let ghost goal = history_rows(kept@, open@, 0);
    let mut i: usize = 0;
    assert(rows_of(items@, lines@) + goal =~= goal);
    while i < kept.len()
        invariant
            i <= kept@.len(),
            items@.len() == lines@.len(),
            rows_of(items@, lines@) + history_rows(kept@, open@, i as int) == goal,
        decreases kept.len() - i,
    {
        let ghost before = rows_of(items@, lines@);
        let is_open: bool = open.contains(&i);
        items.push(ChooserItem::Log(i, None));
        lines.push(line_of_kept(&kept[i], is_open));
        let ghost head = before.push((ChooserItem::Log(i, None), kept_line(kept@[i as int], is_open)));
        assert(rows_of(items@, lines@) =~= head);
        if is_open {
            let days = &kept[i].days;
            let ghost all = day_rows(kept@[i as int], i as int, 0);
            let mut d: usize = 0;
            assert(rows_of(items@, lines@) + all =~= head + all);
            while d < days.len()
                invariant
                    d <= days@.len(),
                    i < kept@.len(),
                    *days == kept@[i as int].days,
                    items@.len() == lines@.len(),
                    rows_of(items@, lines@) + day_rows(kept@[i as int], i as int, d as int) == head + all,
                decreases days.len() - d,
            {
                let ghost sofar = rows_of(items@, lines@);
                items.push(ChooserItem::Log(i, Some(d)));
                lines.push(line_of_day(&days[d]));
                proof {
                    let row = (ChooserItem::Log(i, Some(d)), day_line(days@[d as int]));
                    assert(rows_of(items@, lines@) =~= sofar.push(row));
                    assert(rows_of(items@, lines@) + day_rows(kept@[i as int], i as int, d + 1) =~= sofar + day_rows(
                        kept@[i as int],
                        i as int,
                        d as int,
                    ));
                }
                d = d + 1;
            }
            assert(rows_of(items@, lines@) =~= head + all);
        }
        assert(rows_of(items@, lines@) + history_rows(kept@, open@, i + 1) =~= before + history_rows(
            kept@,
            open@,
            i as int,
        ));
        i = i + 1;
    }
    assert(rows_of(items@, lines@) =~= goal);
    (items, lines)
}

/// What is to be done after a key in a picker.
#[derive(Debug, PartialEq, Eq)]
pub enum ChooserAction {
    /// The picker stays.
    Stay,
    Close,
    /// It goes, and an entry of the menu runs.
    Menu(usize),
    /// A filter is asked for.
    AskFilter,
    /// Panes or windows are killed, or restarted; the picker stays.
    Act { restart: bool, targets: Vec<ChooserItem> },
    /// It goes, and the line chosen is gone to.
    Choose(Option<ChooserItem>),
    /// It goes, and a day of the history log is shown.
    View(usize, usize),
}

/// What a key means in a picker.
pub ghost enum Meaning {
    Menu(int),
    Close,
    Step(int),
    First,
    Last,
    Tag,
    ClearTags,
    FoldLog,
    Fold,
    Unfold,
    AskFilter,
    Act(bool),
    Digit(int),
    Enter,
    Nothing,
}

/// Menu entry `e` is picked by key `k`.
pub open spec fn picks(e: MenuItem, k: Key) -> bool {
    e.cmd is Some && e.key is Some && named_key(e.key->0@) == Some(k)
}

/// The first entry from `i` on that a key picks.
pub open spec fn picked(entries: Seq<MenuItem>, k: Key, i: int) -> Option<int>
    decreases entries.len() - i,
{
    if i < 0 || i >= entries.len() {
        None
    } else if picks(entries[i], k) {
        Some(i)
    } else {
        picked(entries, k, i + 1)
    }
}

/// The entry of a menu a key picks. A menu entry's own key picks it, ahead of
/// the movement keys, so a menu is free to use `j` or `q` for something.
pub open spec fn menu_hit(ch: Chooser, k: Key) -> Option<int> {
    match ch.kind {
        ChooserKind::Menu(entries) => if k.code is Escape {
            None
        } else {
            picked(entries@, k, 0)
        },
        _ => None,
    }
}

/// The current line is a day of the history log.
pub open spec fn on_day(ch: Chooser) -> bool {
    ch.sel < ch.items@.len() && ch.items@[ch.sel as int] is Log && ch.items@[ch.sel as int]->Log_1 is Some
}

pub open spec fn typed(k: Key, c: char) -> bool {
    k.code == KeyCode::Char(c) && !k.ctrl && !k.alt
}

pub open spec fn held(k: Key, c: char) -> bool {
    k.code == KeyCode::Char(c) && k.ctrl
}

/// What a key means in picker `ch`, whose page is `page` lines.
pub open spec fn meaning(ch: Chooser, page: int, k: Key) -> Meaning {
    let history = ch.kind is History;
    let tree = ch.kind is Tree && ch.kind->expand;
    if menu_hit(ch, k) is Some {
        Meaning::Menu(menu_hit(ch, k)->0)
    } else if k.code is Escape || typed(k, 'q') || held(k, 'c') {
        Meaning::Close
    } else if k.code is Down || typed(k, 'j') || held(k, 'n') {
        Meaning::Step(1)
    } else if k.code is Up || typed(k, 'k') || held(k, 'p') {
        Meaning::Step(-1)
    } else if k.code is Home || typed(k, 'g') {
        Meaning::First
    } else if k.code is End || typed(k, 'G') {
        Meaning::Last
    } else if k.code is NPage || held(k, 'f') {
        Meaning::Step(page)
    } else if k.code is PPage || held(k, 'b') {
        Meaning::Step(-page)
    } else if held(k, 'd') {
        Meaning::Step(page / 2)
    } else if held(k, 'u') {
        Meaning::Step(-(page / 2))
    } else if typed(k, 't') && ch.kind.is_live() {
        Meaning::Tag
    } else if typed(k, 'T') && ch.kind.is_live() {
        Meaning::ClearTags
    } else if (k.code is Left || k.code is Right || k.code is Enter || typed(k, '-') || typed(k, '+')) && history && !(
    k.code is Enter && on_day(ch)) {
        Meaning::FoldLog
    } else if (k.code is Left || typed(k, '-')) && tree {
        Meaning::Fold
    } else if (k.code is Right || typed(k, '+') || typed(k, '=')) && tree {
        Meaning::Unfold
    } else if typed(k, 'f') && ch.kind.is_live() {
        Meaning::AskFilter
    } else if (typed(k, 'x') && (ch.kind is Jobs || ch.kind is Tree)) || (typed(k, 'r') && ch.kind is Jobs) {
        Meaning::Act(typed(k, 'r'))
    } else if k.code is Char && !k.ctrl && !k.alt && '0' <= k.code->Char_0 <= '9' {
        Meaning::Digit(k.code->Char_0 as u32 - '0' as u32)
    } else if k.code is Enter {
        Meaning::Enter
    } else {
        Meaning::Nothing
    }
}

/// Where the first `item` from `i` on stands.
pub open spec fn place_of(items: Seq<ChooserItem>, item: ChooserItem, i: int) -> Option<int>
    decreases items.len() - i,
{
    if i < 0 || i >= items.len() {
        None
    } else if items[i] == item {
        Some(i)
    } else {
        place_of(items, item, i + 1)
    }
}

/// The selection at rest at or near `sel`.
pub open spec fn rested(ch: Chooser, sel: int, d: int) -> Chooser {
    Chooser {
        sel: match settled(ch.items@, sel, d) {
            Some(i) => i as usize,
            None => sel as usize,
        },
        ..ch
    }
}

pub open spec fn stepped_by(ch: Chooser, delta: int) -> Chooser {
    Chooser { sel: stepped(ch.items@, ch.sel as int, delta) as usize, ..ch }
}

/// Everything but what the given key changes is as it was.
pub open spec fn same_lists(a: Chooser, b: Chooser) -> bool {
    a.kind == b.kind && a.items == b.items && a.lines == b.lines && a.top == b.top && a.filter == b.filter
}

/// The tags with `item` tagged, or no longer tagged.
pub open spec fn toggled(tagged: Seq<ChooserItem>, item: ChooserItem) -> Seq<ChooserItem> {
    match place_of(tagged, item, 0) {
        Some(i) => tagged.remove(i),
        None => tagged.push(item),
    }
}

/// What a key does to the picker and what is to be done then.
pub open spec fn keyed(ch: Chooser, after: Chooser, action: ChooserAction, page: int, k: Key) -> bool {
    match meaning(ch, page, k) {
        Meaning::Menu(i) => after == ch && action == ChooserAction::Menu(i as usize),
        Meaning::Close => after == ch && action is Close,
        Meaning::Step(n) => after == stepped_by(ch, n) && action is Stay,
        Meaning::First => after == rested(ch, 0, 1) && action is Stay,
        Meaning::Last => after == rested(ch, crate::chooser::last_line(ch.items@), -1) && action is Stay,
        Meaning::Tag => {
            &&& action is Stay
            &&& if ch.sel < ch.items@.len() && !(ch.items@[ch.sel as int] is Separator) {
                &&& same_lists(ch, after)
                &&& after.collapsed == ch.collapsed
                &&& after.tagged@ == toggled(ch.tagged@, ch.items@[ch.sel as int])
                &&& after.sel == stepped(ch.items@, ch.sel as int, 1)
            } else {
                after == ch
            }
        },
        Meaning::ClearTags => {
            &&& action is Stay
            &&& same_lists(ch, after)
            &&& after.sel == ch.sel
            &&& after.collapsed == ch.collapsed
            &&& after.tagged@.len() == 0
        },
        Meaning::FoldLog => action is Stay && folded_log(ch, after, k),
        Meaning::Fold => {
            &&& action is Stay
            &&& same_lists(ch, after)
            &&& after.tagged == ch.tagged
            &&& if ch.sel < ch.items@.len() && ch.items@[ch.sel as int] is Tree {
                let sid = ch.items@[ch.sel as int]->Tree_0;
                &&& after.collapsed@ == ch.collapsed@.insert(sid)
                // The cursor goes to its line, since its windows are gone
                // from the list.
                &&& after.sel == match place_of(ch.items@, ChooserItem::Tree(sid, None), 0) {
                    Some(i) => i,
                    None => ch.sel as int,
                }
            } else {
                after == ch
            }
        },
        Meaning::Unfold => {
            &&& action is Stay
            &&& same_lists(ch, after)
            &&& after.tagged == ch.tagged
            &&& after.sel == ch.sel
            &&& if ch.sel < ch.items@.len() && ch.items@[ch.sel as int] is Tree {
                after.collapsed@ == ch.collapsed@.remove(ch.items@[ch.sel as int]->Tree_0)
            } else {
                after == ch
            }
        },
        Meaning::AskFilter => after == ch && action is AskFilter,
        Meaning::Act(restart) => {
            &&& action is Act
            &&& action->restart == restart
            &&& action->targets@ == acted_on(ch)
            &&& same_lists(ch, after)
            &&& after.sel == ch.sel
            &&& after.collapsed == ch.collapsed
            &&& after.tagged@.len() == 0
        },
        Meaning::Digit(d) => {
            &&& action is Stay
            &&& after == if d < ch.items@.len() && !(ch.items@[d] is Separator) {
                Chooser { sel: d as usize, ..ch }
            } else {
                ch
            }
        },
        Meaning::Enter => after == ch && action == chosen(ch),
        Meaning::Nothing => after == ch && action is Stay,
    }
}

/// What Enter chooses: the entry of a menu, a day of the log, or the line.
pub open spec fn chosen(ch: Chooser) -> ChooserAction {
    if ch.sel < ch.items@.len() {
        let item = ch.items@[ch.sel as int];
        match (ch.kind, item) {
            (ChooserKind::Menu(entries), ChooserItem::Menu(i)) => if i < entries@.len() && entries@[i as int].cmd is Some {
                ChooserAction::Menu(i)
            } else {
                ChooserAction::Choose(Some(item))
            },
            (ChooserKind::History { kept, .. }, ChooserItem::Log(i, Some(d))) => if i < kept@.len() && d
                < kept@[i as int].days@.len() {
                ChooserAction::View(i, d)
            } else {
                ChooserAction::Choose(Some(item))
            },
            _ => ChooserAction::Choose(Some(item)),
        }
    } else {
        ChooserAction::Choose(None)
    }
}

/// A position of the history picker folded or unfolded.
pub open spec fn folded_log(ch: Chooser, after: Chooser, k: Key) -> bool {
    if ch.sel < ch.items@.len() && ch.items@[ch.sel as int] is Log {
        let i = ch.items@[ch.sel as int]->Log_0;
        let open = ch.kind->open@;
        let unfold = if k.code is Left || typed(k, '-') {
            false
        } else if k.code is Right || typed(k, '+') {
            true
        } else {
            !open.contains(i)
        };
        &&& after.kind is History
        &&& after.kind->kept == ch.kind->kept
        &&& after.kind->open@ == if unfold {
            open.insert(i)
        } else {
            open.remove(i)
        }
        &&& after.items@.len() == after.lines@.len()
        &&& rows_of(after.items@, after.lines@) == history_rows(ch.kind->kept@, after.kind->open@, 0)
        // Unfolded: on its newest day; folded: on the position.
        &&& after.sel == match place_of(
            after.items@,
            ChooserItem::Log(
                i,
                if unfold {
                    Some(0usize)
                } else {
                    None
                },
            ),
            0,
        ) {
            Some(p) => p,
            None => 0,
        }
        &&& after.top == ch.top
        &&& after.filter == ch.filter
        &&& after.tagged == ch.tagged
        &&& after.collapsed == ch.collapsed
    } else {
        after == ch
    }
}

fn find_item(items: &Vec<ChooserItem>, item: ChooserItem) -> (at: Option<usize>)
    ensures
        match at {
            Some(i) => place_of(items@, item, 0) == Some(i as int) && i < items@.len(),
            None => place_of(items@, item, 0) is None,
        },
{
    let mut i: usize = 0;
    while i < items.len()
        invariant
            i <= items@.len(),
            place_of(items@, item, 0) == place_of(items@, item, i as int),
        decreases items.len() - i,
    {
        if items[i] == item {
            return Some(i);
        }
        i = i + 1;
    }
    None
}

fn find_entry(entries: &Vec<MenuItem>, k: Key) -> (at: Option<usize>)
    ensures
        match at {
            Some(i) => picked(entries@, k, 0) == Some(i as int),
            None => picked(entries@, k, 0) is None,
        },
{
    let mut i: usize = 0;
    while i < entries.len()
        invariant
            i <= entries@.len(),
            picked(entries@, k, 0) == picked(entries@, k, i as int),
        decreases entries.len() - i,
    {
        if entries[i].cmd.is_some() {
            if let Some(name) = &entries[i].key {
                if let Some(key) = Key::parse(name.as_str()) {
                    if key == k {
                        return Some(i);
                    }
                }
            }
        }
        i = i + 1;
    }
    None
}

fn hit_entry(ch: &Chooser, k: Key) -> (at: Option<usize>)
    ensures
        match at {
            Some(i) => menu_hit(*ch, k) == Some(i as int),
            None => menu_hit(*ch, k) is None,
        },
{
    match &ch.kind {
        ChooserKind::Menu(entries) => {
            if k.code == KeyCode::Escape {
                None
            } else {
                find_entry(entries, k)
            }
        },
        _ => None,
    }
}

/// The same meanings, for running code.
#[derive(Clone, Copy, PartialEq, Eq, Structural)]
enum Told {
    Menu(usize),
    Close,
    Step(i64),
    First,
    Last,
    Tag,
    ClearTags,
    FoldLog,
    Fold,
    Unfold,
    AskFilter,
    Act(bool),
    Digit(usize),
    Enter,
    Nothing,
}

spec fn same_meaning(t: Told, m: Meaning) -> bool {
    match (t, m) {
        (Told::Menu(a), Meaning::Menu(b)) => a == b,
        (Told::Close, Meaning::Close) => true,
        (Told::Step(a), Meaning::Step(b)) => a == b,
        (Told::First, Meaning::First) => true,
        (Told::Last, Meaning::Last) => true,
        (Told::Tag, Meaning::Tag) => true,
        (Told::ClearTags, Meaning::ClearTags) => true,
        (Told::FoldLog, Meaning::FoldLog) => true,
        (Told::Fold, Meaning::Fold) => true,
        (Told::Unfold, Meaning::Unfold) => true,
        (Told::AskFilter, Meaning::AskFilter) => true,
        (Told::Act(a), Meaning::Act(b)) => a == b,
        (Told::Digit(a), Meaning::Digit(b)) => a == b,
        (Told::Enter, Meaning::Enter) => true,
        (Told::Nothing, Meaning::Nothing) => true,
        _ => false,
    }
}

fn is_typed(k: Key, c: char) -> (b: bool)
    ensures
        b == typed(k, c),
{
    k.code == KeyCode::Char(c) && !k.ctrl && !k.alt
}

fn is_held(k: Key, c: char) -> (b: bool)
    ensures
        b == held(k, c),
{
    k.code == KeyCode::Char(c) && k.ctrl
}

fn means(ch: &Chooser, page: i64, k: Key) -> (t: Told)
    requires
        1 <= page <= u16::MAX,
    ensures
        same_meaning(t, meaning(*ch, page as int, k)),
{
    if let Some(i) = hit_entry(ch, k) {
        return Told::Menu(i);
    }
    let history: bool = matches!(ch.kind, ChooserKind::History { .. });
    let tree: bool = matches!(ch.kind, ChooserKind::Tree { expand: true });
    let any_tree: bool = matches!(ch.kind, ChooserKind::Tree { .. });
    let jobs: bool = matches!(ch.kind, ChooserKind::Jobs);
    let live: bool = ch.kind.live();
    let day: bool = ch.sel < ch.items.len() && matches!(ch.items[ch.sel], ChooserItem::Log(_, Some(_)));
    assert(day == on_day(*ch));
    let left: bool = k.code == KeyCode::Left;
    let right: bool = k.code == KeyCode::Right;
    let enter: bool = k.code == KeyCode::Enter;
    if k.code == KeyCode::Escape || is_typed(k, 'q') || is_held(k, 'c') {
        Told::Close
    } else if k.code == KeyCode::Down || is_typed(k, 'j') || is_held(k, 'n') {
        Told::Step(1)
    } else if k.code == KeyCode::Up || is_typed(k, 'k') || is_held(k, 'p') {
        Told::Step(-1)
    } else if k.code == KeyCode::Home || is_typed(k, 'g') {
        Told::First
    } else if k.code == KeyCode::End || is_typed(k, 'G') {
        Told::Last
    } else if k.code == KeyCode::NPage || is_held(k, 'f') {
        Told::Step(page)
    } else if k.code == KeyCode::PPage || is_held(k, 'b') {
        Told::Step(-page)
    } else if is_held(k, 'd') {
        Told::Step(page / 2)
    } else if is_held(k, 'u') {
        Told::Step(-(page / 2))
    } else if is_typed(k, 't') && live {
        Told::Tag
    } else if is_typed(k, 'T') && live {
        Told::ClearTags
    } else if (left || right || enter || is_typed(k, '-') || is_typed(k, '+')) && history && !(enter && day) {
        Told::FoldLog
    } else if (left || is_typed(k, '-')) && tree {
        Told::Fold
    } else if (right || is_typed(k, '+') || is_typed(k, '=')) && tree {
        Told::Unfold
    } else if is_typed(k, 'f') && live {
        Told::AskFilter
    } else if (is_typed(k, 'x') && (jobs || any_tree)) || (is_typed(k, 'r') && jobs) {
        Told::Act(is_typed(k, 'r'))
    } else {
        if let KeyCode::Char(d) = k.code {
            if !k.ctrl && !k.alt && '0' <= d && d <= '9' {
                return Told::Digit((d as u32 - '0' as u32) as usize);
            }
        }
        if enter {
            Told::Enter
        } else {
            Told::Nothing
        }
    }
}

fn toggle(tagged: &mut Vec<ChooserItem>, item: ChooserItem)
    ensures
        final(tagged)@ == toggled(old(tagged)@, item),
{
    match find_item(tagged, item) {
        Some(i) => {
            tagged.remove(i);
        },
        None => tagged.push(item),
    }
}

fn entered_line(ch: &Chooser) -> (action: ChooserAction)
    ensures
        action == chosen(*ch),
{
    if ch.sel >= ch.items.len() {
        return ChooserAction::Choose(None);
    }
    let item = ch.items[ch.sel];
    match (&ch.kind, item) {
        (ChooserKind::Menu(entries), ChooserItem::Menu(i)) => {
            if i < entries.len() && entries[i].cmd.is_some() {
                return ChooserAction::Menu(i);
            }
        },
        (ChooserKind::History { kept, .. }, ChooserItem::Log(i, Some(d))) => {
            if i < kept.len() && d < kept[i].days.len() {
                return ChooserAction::View(i, d);
            }
        },
        _ => {},
    }
    ChooserAction::Choose(Some(item))
}

fn fold_log(ch: &mut Chooser, k: Key)
    requires
        old(ch).kind is History,
    ensures
        folded_log(*old(ch), *final(ch), k),
{
    if ch.sel >= ch.items.len() {
        return;
    }
    let i: usize = match ch.items[ch.sel] {
        ChooserItem::Log(i, _) => i,
        _ => return,
    };
    let mut items: Vec<ChooserItem> = Vec::new();
    let mut lines: Vec<String> = Vec::new();
    let mut unfold: bool = false;
    if let ChooserKind::History { kept, open } = &mut ch.kind {
        unfold = if k.code == KeyCode::Left || is_typed(k, '-') {
            false
        } else if k.code == KeyCode::Right || is_typed(k, '+') {
            true
        } else {
            !open.contains(&i)
        };
        if unfold {
            open.insert(i);
        } else {
            open.remove(&i);
        }
        let (a, b) = history_lines(kept, open);
        items = a;
        lines = b;
    }
    let at = ChooserItem::Log(i, if unfold { Some(0) } else { None });
    ch.sel = match find_item(&items, at) {
        Some(p) => p,
        None => 0,
    };
    ch.items = items;
    ch.lines = lines;
}

/// A key in a picker, whose page is `page` lines.
pub fn chooser_key(ch: &mut Chooser, page: i64, k: Key) -> (action: ChooserAction)
    requires
        1 <= page <= u16::MAX,
    ensures
        keyed(*old(ch), *final(ch), action, page as int, k),
{
    match means(ch, page, k) {
        Told::Menu(i) => ChooserAction::Menu(i),
        Told::Close => ChooserAction::Close,
        Told::Step(n) => {
            ch.step(n);
            ChooserAction::Stay
        },
        Told::First => {
            ch.sel = 0;
            ch.settle(1);
            ChooserAction::Stay
        },
        Told::Last => {
            ch.sel = if ch.items.len() > 0 { ch.items.len() - 1 } else { 0 };
            ch.settle(-1);
            ChooserAction::Stay
        },
        // Tags: `t` marks the line and moves on, `T` clears them; an
        // action key then works on the tagged lines instead of the
        // current one.
        Told::Tag => {
            if ch.sel < ch.items.len() {
                let item = ch.items[ch.sel];
                if item != ChooserItem::Separator {
                    proof {
                        lemma_stepped(ch.items@, ch.sel as int, 1);
                    }
                    toggle(&mut ch.tagged, item);
                    ch.step(1);
                }
            }
            ChooserAction::Stay
        },
        Told::ClearTags => {
            ch.tagged = Vec::new();
            ChooserAction::Stay
        },
        Told::FoldLog => {
            fold_log(ch, k);
            ChooserAction::Stay
        },
        // Fold and unfold one session of the tree.
        Told::Fold => {
            if let Some(sid) = ch.current_session() {
                ch.collapsed.insert(sid);
                if let Some(i) = find_item(&ch.items, ChooserItem::Tree(sid, None)) {
                    ch.sel = i;
                }
            }
            ChooserAction::Stay
        },
        Told::Unfold => {
            if let Some(sid) = ch.current_session() {
                ch.collapsed.remove(&sid);
            }
            ChooserAction::Stay
        },
        Told::AskFilter => ChooserAction::AskFilter,
        // The task board and the tree act on the tagged lines, else the
        // one under the cursor, and stay open (the list is live, so the
        // rows change in place).
        Told::Act(restart) => {
            let targets = ch.targets();
            ch.tagged = Vec::new();
            ChooserAction::Act { restart, targets }
        },
        Told::Digit(i) => {
            if i < ch.items.len() && !matches!(ch.items[i], ChooserItem::Separator) {
                ch.sel = i;
            }
            ChooserAction::Stay
        },
        Told::Enter => entered_line(ch),
        Told::Nothing => ChooserAction::Stay,
    }
}

} // verus!
