use wmux::chooser::{chooser_filter, Chooser, ChooserItem, ChooserKind};

#[test]
fn menu_selection_skips_the_separators() {
    let items = vec![
        ChooserItem::Separator, // title
        ChooserItem::Menu(0),
        ChooserItem::Separator,
        ChooserItem::Menu(1),
    ];
    let mut ch =
        Chooser::new(ChooserKind::Menu(Vec::new()), items, vec!["t".into(), "a".into(), "-".into(), "b".into()], 0);
    ch.settle(1);
    assert_eq!(ch.sel, 1, "opening a menu lands on the first real entry");
    ch.step(1);
    assert_eq!(ch.sel, 3, "j jumps over the separator");
    ch.step(1);
    assert_eq!(ch.sel, 3, "and stops at the end");
    ch.sel = ch.items.len() - 1;
    ch.settle(-1);
    assert_eq!(ch.sel, 3, "G lands on a real entry");
    ch.step(-1);
    assert_eq!(ch.sel, 1, "k jumps back over it");
    ch.step(-1);
    assert_eq!(ch.sel, 1, "and never onto the title");

    // A list of nothing but separators leaves the selection alone.
    let mut empty =
        Chooser::new(ChooserKind::Menu(Vec::new()), vec![ChooserItem::Separator; 3], vec!["-".into(); 3], 1);
    empty.step(1);
    assert_eq!(empty.sel, 1);
}

#[test]
fn a_picker_filter_keeps_a_session_with_its_matching_windows() {
    let items = vec![
        ChooserItem::Separator,
        ChooserItem::Tree(1, None),
        ChooserItem::Tree(1, Some(10)),
        ChooserItem::Tree(1, Some(11)),
        ChooserItem::Tree(2, None),
        ChooserItem::Tree(2, Some(20)),
        ChooserItem::Buffer(0),
    ];
    let lines: Vec<String> =
        ["HEAD", "- alpha", "  - 0: cmd", "  - 1: Beta", "- gamma", "  - 0: cmd", "beta: 3 bytes"]
            .iter()
            .map(|s| s.to_string())
            .collect();
    assert_eq!(chooser_filter(&items, &lines, ""), vec![true; 7], "no filter keeps everything");
    assert_eq!(
        chooser_filter(&items, &lines, "beta"),
        vec![true, true, false, true, false, false, true],
        "case-insensitive; the title stays, a session stays for its window"
    );
    assert_eq!(
        chooser_filter(&items, &lines, "gamma"),
        vec![true, false, false, false, true, true, false],
        "a session's windows stay with it"
    );
    assert_eq!(chooser_filter(&items, &lines, "zzz"), vec![true, false, false, false, false, false, false]);
}

#[test]
fn tagged_lines_are_what_an_action_key_works_on() {
    let items = vec![ChooserItem::Tree(1, None), ChooserItem::Tree(1, Some(10)), ChooserItem::Tree(2, None)];
    let mut ch = Chooser::new(ChooserKind::Tree { expand: true }, items, vec!["a".into(); 3], 1);
    assert_eq!(ch.targets(), vec![ChooserItem::Tree(1, Some(10))], "nothing tagged: the current line");
    ch.tagged.push(ChooserItem::Tree(2, None));
    ch.tagged.push(ChooserItem::Tree(1, None));
    assert_eq!(ch.targets(), vec![ChooserItem::Tree(2, None), ChooserItem::Tree(1, None)], "tagged, in tag order");
    assert!(ch.is_tagged(&ChooserItem::Tree(2, None)) && !ch.is_tagged(&ChooserItem::Tree(1, Some(10))));
}
