use wmux::command::Dir;
use wmux::layout::{Node, PaneId, Rect};
use wmux::layout_text::{layout_checksum, layout_string, parse_layout};
use wmux::neighbour::neighbour;
use wmux::preset::{Preset, PRESETS};

fn rects(n: &mut Node, w: u16, h: u16) -> Vec<(PaneId, Rect)> {
    let mut out = Vec::new();
    n.layout(Rect { x: 0, y: 0, w, h }, &mut out);
    out
}

fn rect_of(r: &[(PaneId, Rect)], id: PaneId) -> Rect {
    r.iter().find(|(i, _)| *i == id).unwrap().1
}

#[test]
fn spread_evens_out_the_panes_beside_one() {
    // Three panes side by side, dragged out of shape.
    let mut n = Node::Leaf(1);
    let r = rects(&mut n, 80, 24);
    n.split(1, true, 2, rect_of(&r, 1));
    let r = rects(&mut n, 80, 24);
    n.split(2, true, 3, rect_of(&r, 2));
    let _ = rects(&mut n, 80, 24);
    assert!(n.resize(1, Dir::Right, 12));
    let before: Vec<u16> = rects(&mut n, 80, 24).iter().map(|(_, r)| r.w).collect();
    assert!(before[0] > before[1] + 10, "lopsided to start with: {before:?}");
    assert!(n.spread(2), "the pane has panes beside it");
    let after: Vec<u16> = rects(&mut n, 80, 24).iter().map(|(_, r)| r.w).collect();
    assert!(after.iter().max().unwrap() - after.iter().min().unwrap() <= 1, "evened out: {after:?}");
    assert_eq!(after.iter().sum::<u16>(), before.iter().sum::<u16>(), "the same total width");

    // Only the split the pane is in changes; the rest of the tree stands.
    let mut nested = Node::Split {
        horizontal: true,
        sizes: vec![60, 19],
        children: vec![
            Node::Leaf(1),
            Node::Split { horizontal: false, sizes: vec![20, 3], children: vec![Node::Leaf(2), Node::Leaf(3)] },
        ],
    };
    assert!(nested.spread(3));
    let r = rects(&mut nested, 80, 24);
    assert_eq!(rect_of(&r, 1).w, 60, "the outer split is untouched");
    assert!(rect_of(&r, 2).h.abs_diff(rect_of(&r, 3).h) <= 1, "{r:?}");
    // A pane with nothing beside it says so.
    assert!(!Node::Leaf(1).spread(1));
    assert!(!nested.spread(99), "a pane that is not there");
}

/// A window squeezed until a pane is down to one row, then grown back,
/// gets its old proportions back; a moderate squeeze keeps them to a
/// cell; resize-pane on a smaller window moves the edge by whole cells;
/// and rounding leftovers go to the first entries.
#[test]
fn proportions_survive_a_squeeze() {
    let heights = |n: &mut Node, h: u16| -> Vec<u16> { rects(n, 80, h).iter().map(|(_, r)| r.h).collect() };
    let mut n =
        Node::Split { horizontal: false, children: vec![Node::Leaf(1), Node::Leaf(2)], sizes: vec![30, 10] };
    assert_eq!(heights(&mut n, 41), [30, 10]);
    let squeezed = heights(&mut n, 4);
    assert_eq!(squeezed.iter().sum::<u16>(), 3, "{squeezed:?}");
    assert_eq!(heights(&mut n, 41), [30, 10], "back to the old split");
    // Halving and back: within a cell of where it was.
    let half = heights(&mut n, 21);
    assert_eq!(half, [15, 5]);
    let back = heights(&mut n, 41);
    assert!(back[0].abs_diff(30) <= 1 && back.iter().sum::<u16>() == 40, "{back:?}");
    // On the smaller window, resize moves the edge by the cells asked.
    heights(&mut n, 21);
    assert!(n.resize(1, Dir::Down, 2));
    assert_eq!(heights(&mut n, 21), [17, 3]);
    // Three columns in 158 cells: the two cells of rounding go first.
    let mut cols = Preset::EvenHorizontal.build(&[1, 2, 3]).unwrap();
    let w: Vec<u16> = rects(&mut cols, 160, 24).iter().map(|(_, r)| r.w).collect();
    assert_eq!(w, [53, 53, 52]);
}

#[test]
fn presets_arrange_every_pane() {
    let ids = [1, 2, 3, 4];
    let sizes = |p: Preset| -> Vec<(u16, u16)> {
        let mut n = p.build(&ids).unwrap();
        assert_eq!(n.panes(), ids, "{}: keeps every pane, in order", p.name());
        rects(&mut n, 80, 24).iter().map(|(_, r)| (r.w, r.h)).collect()
    };
    // Four rows and four columns, the leftover cell going to the first
    // one, as tmux spreads them (24 rows minus 3 separators is 6/5/5/5).
    assert_eq!(sizes(Preset::EvenVertical), [(80, 6), (80, 5), (80, 5), (80, 5)]);
    assert_eq!(sizes(Preset::EvenHorizontal), [(20, 24), (19, 24), (19, 24), (19, 24)]);
    // One big pane plus a stack of the rest.
    let main_v = sizes(Preset::MainVertical);
    assert_eq!(main_v[0], (40, 24), "the main pane keeps half the width, and the odd cell");
    assert!(main_v[1..].iter().all(|(w, h)| *w == 39 && (7..=8).contains(h)), "{main_v:?}");
    let main_h = sizes(Preset::MainHorizontal);
    assert_eq!(main_h[0].0, 80, "the main pane spans the width: {main_h:?}");
    assert!(main_h[1..].iter().all(|(w, _)| *w == 26), "{main_h:?}");
    // A 2x2 grid.
    let tiled = sizes(Preset::Tiled);
    assert!(tiled.iter().all(|(w, h)| (39..=40).contains(w) && (11..=12).contains(h)), "{tiled:?}");

    // Degenerate counts still produce a tree with exactly those panes.
    for p in PRESETS.iter().map(|(_, p)| *p) {
        assert!(p.build(&[]).is_none(), "{}: nothing to arrange", p.name());
        assert_eq!(p.build(&[7]).unwrap(), Node::Leaf(7));
        let mut many: Node = p.build(&(1..=9).collect::<Vec<PaneId>>()).unwrap();
        assert_eq!(many.panes().len(), 9);
        assert_eq!(rects(&mut many, 80, 24).len(), 9, "{}: nine panes get nine rects", p.name());
    }
}

#[test]
fn preset_names_take_prefixes_and_cycle() {
    assert_eq!(Preset::parse("tiled"), Some(Preset::Tiled));
    assert_eq!(Preset::parse("til"), Some(Preset::Tiled));
    assert_eq!(Preset::parse("even-h"), Some(Preset::EvenHorizontal));
    assert_eq!(Preset::parse("main"), None, "main-horizontal and main-vertical both match");
    assert_eq!(Preset::parse("nope"), None);
    assert_eq!(Preset::EvenHorizontal.next(), Preset::EvenVertical);
    assert_eq!(Preset::Tiled.next(), Preset::EvenHorizontal, "the cycle wraps");
    assert_eq!(Preset::EvenHorizontal.prev(), Preset::Tiled);
    for (name, p) in PRESETS.iter() {
        assert_eq!(p.name(), *name);
    }
}

fn assert_tiling(r: &[(PaneId, Rect)], w: u16, h: u16) {
    // No overlaps, everything inside, and every pane has size >= 1.
    for (i, (_, a)) in r.iter().enumerate() {
        assert!(a.w >= 1 && a.h >= 1, "{a:?}");
        assert!(a.x + a.w <= w && a.y + a.h <= h, "{a:?} outside {w}x{h}");
        for (_, b) in &r[i + 1..] {
            let sep = a.x + a.w < b.x || b.x + b.w < a.x || a.y + a.h < b.y || b.y + b.h < a.y;
            assert!(sep, "overlap/adjacent without border: {a:?} {b:?}");
        }
    }
}

#[test]
fn single_leaf_fills() {
    let mut n = Node::Leaf(1);
    let r = rects(&mut n, 80, 24);
    assert_eq!(r, vec![(1, Rect { x: 0, y: 0, w: 80, h: 24 })]);
}

#[test]
fn split_horizontal_and_vertical() {
    let mut n = Node::Leaf(1);
    let r = rects(&mut n, 80, 24);
    assert!(n.split(1, true, 2, rect_of(&r, 1)));
    let r = rects(&mut n, 80, 24);
    assert_eq!(rect_of(&r, 1), Rect { x: 0, y: 0, w: 40, h: 24 });
    assert_eq!(rect_of(&r, 2), Rect { x: 41, y: 0, w: 39, h: 24 });
    assert_tiling(&r, 80, 24);
    assert!(n.split(2, false, 3, rect_of(&r, 2)));
    let r = rects(&mut n, 80, 24);
    assert_eq!(rect_of(&r, 2), Rect { x: 41, y: 0, w: 39, h: 12 });
    assert_eq!(rect_of(&r, 3), Rect { x: 41, y: 13, w: 39, h: 11 });
    assert_tiling(&r, 80, 24);
    assert_eq!(n.panes(), vec![1, 2, 3]);
    assert!(!n.split(99, true, 4, Rect::default()));
}

#[test]
fn split_before_and_root() {
    let mut n = Node::Leaf(1);
    let r = rects(&mut n, 80, 24);
    assert!(n.split_at(1, true, 2, rect_of(&r, 1), true));
    assert_eq!(n.panes(), vec![2, 1]);
    let r = rects(&mut n, 80, 24);
    assert_eq!(rect_of(&r, 2), Rect { x: 0, y: 0, w: 39, h: 24 });
    assert_eq!(rect_of(&r, 1), Rect { x: 40, y: 0, w: 40, h: 24 });
    // Flat insert before inside an existing same-direction split.
    assert!(n.split_at(1, true, 3, rect_of(&r, 1), true));
    assert_eq!(n.panes(), vec![2, 3, 1]);
    assert_tiling(&rects(&mut n, 80, 24), 80, 24);
    // Full-width split below everything.
    n.split_root(false, 4, Rect { x: 0, y: 0, w: 80, h: 24 }, false);
    let r = rects(&mut n, 80, 24);
    assert_eq!(rect_of(&r, 4), Rect { x: 0, y: 13, w: 80, h: 11 });
    assert_tiling(&r, 80, 24);
    n.split_root(true, 5, Rect { x: 0, y: 0, w: 80, h: 24 }, true);
    let r = rects(&mut n, 80, 24);
    assert_eq!(rect_of(&r, 5), Rect { x: 0, y: 0, w: 39, h: 24 });
    assert_tiling(&r, 80, 24);
}

#[test]
fn same_direction_split_is_flat() {
    let mut n = Node::Leaf(1);
    let r = rects(&mut n, 80, 24);
    n.split(1, true, 2, rect_of(&r, 1));
    let r = rects(&mut n, 80, 24);
    n.split(1, true, 3, rect_of(&r, 1));
    match &n {
        Node::Split { children, .. } => assert_eq!(children.len(), 3),
        _ => panic!(),
    }
    assert_eq!(n.panes(), vec![1, 3, 2]);
}

#[test]
fn remove_collapses() {
    let mut n = Node::Leaf(1);
    let r = rects(&mut n, 80, 24);
    n.split(1, true, 2, rect_of(&r, 1));
    let r = rects(&mut n, 80, 24);
    n.split(2, false, 3, rect_of(&r, 2));
    assert!(n.remove(3));
    let r = rects(&mut n, 80, 24);
    assert_eq!(rect_of(&r, 2), Rect { x: 41, y: 0, w: 39, h: 24 });
    assert!(n.remove(1));
    assert_eq!(n, Node::Leaf(2));
    assert!(!n.remove(1));
}

#[test]
fn remove_flattens_nested_same_direction() {
    // [1 | [2 / 3]] then split 3 horizontally -> [1 | [2 / [3 | 4]]]; remove 2
    // -> [1 | [3 | 4]] which flattens to [1 | 3 | 4].
    let mut n = Node::Leaf(1);
    let r = rects(&mut n, 80, 24);
    n.split(1, true, 2, rect_of(&r, 1));
    let r = rects(&mut n, 80, 24);
    n.split(2, false, 3, rect_of(&r, 2));
    let r = rects(&mut n, 80, 24);
    n.split(3, true, 4, rect_of(&r, 3));
    assert!(n.remove(2));
    match &n {
        Node::Split { children, horizontal, .. } => {
            assert!(*horizontal);
            assert_eq!(children.len(), 3, "{n:?}");
        }
        _ => panic!("{n:?}"),
    }
    assert_tiling(&rects(&mut n, 80, 24), 80, 24);
}

#[test]
fn resize_moves_edges() {
    let mut n = Node::Leaf(1);
    let r = rects(&mut n, 80, 24);
    n.split(1, true, 2, rect_of(&r, 1));
    let _ = rects(&mut n, 80, 24);
    assert!(n.resize(1, Dir::Right, 5));
    let r = rects(&mut n, 80, 24);
    assert_eq!(rect_of(&r, 1).w, 45);
    assert_eq!(rect_of(&r, 2).w, 34);
    // Rightmost pane resized -R moves its left edge right (shrinks).
    assert!(n.resize(2, Dir::Right, 4));
    let r = rects(&mut n, 80, 24);
    assert_eq!(rect_of(&r, 2).w, 30);
    assert_eq!(rect_of(&r, 1).w, 49);
    // Cannot shrink below 1.
    assert!(n.resize(2, Dir::Right, 100));
    let r = rects(&mut n, 80, 24);
    assert_eq!(rect_of(&r, 2).w, 1);
    assert!(!n.resize(2, Dir::Right, 1));
    // Vertical resize on a horizontal-only tree does nothing.
    assert!(!n.resize(1, Dir::Down, 3));
    assert_tiling(&r, 80, 24);
}

#[test]
fn window_resize_rescales() {
    let mut n = Node::Leaf(1);
    let r = rects(&mut n, 80, 24);
    n.split(1, true, 2, rect_of(&r, 1));
    let _ = rects(&mut n, 80, 24);
    let r = rects(&mut n, 120, 40);
    assert_tiling(&r, 120, 40);
    assert_eq!(rect_of(&r, 1).w + rect_of(&r, 2).w + 1, 120);
    let r = rects(&mut n, 3, 2);
    assert_tiling(&r, 3, 2);
    // Degenerate: narrower than the number of panes.
    let mut out = Vec::new();
    n.layout(Rect { x: 0, y: 0, w: 1, h: 1 }, &mut out);
    assert_eq!(out.len(), 2);
}

#[test]
fn degenerate_areas_never_panic() {
    // Three panes in a 1x1 (and 0x0) area: everyone gets a rectangle,
    // some of them empty, and nothing overflows.
    let mut n = Node::Leaf(1);
    let r = rects(&mut n, 80, 24);
    n.split(1, true, 2, rect_of(&r, 1));
    let r = rects(&mut n, 80, 24);
    n.split(2, false, 3, rect_of(&r, 2));
    for (w, h) in [(1, 1), (0, 0), (2, 1), (1, 3), (3, 3)] {
        let mut out = Vec::new();
        n.layout(Rect { x: 0, y: 0, w, h }, &mut out);
        assert_eq!(out.len(), 3, "{w}x{h}");
        for (_, r) in &out {
            assert!(r.x + r.w <= w && r.y + r.h <= h, "{w}x{h}: {r:?}");
        }
        // Neighbour lookup and resize must not panic either.
        for id in [1, 2, 3] {
            for d in [Dir::Left, Dir::Right, Dir::Up, Dir::Down] {
                let _ = neighbour(&out, id, d);
                let _ = n.resize(id, d, 1);
            }
        }
    }
    // Growing back restores a proper tiling.
    assert_tiling(&rects(&mut n, 80, 24), 80, 24);
}

#[test]
fn many_splits_random_walk_stays_tiled() {
    let mut n = Node::Leaf(0);
    let mut next = 1;
    let mut seed = 12345u32;
    for _ in 0..40 {
        seed = seed.wrapping_mul(1103515245).wrapping_add(12345);
        let ids = n.panes();
        let target = ids[(seed >> 8) as usize % ids.len()];
        let r = rects(&mut n, 200, 60);
        let horizontal = (seed >> 3) & 1 == 0;
        let tr = rect_of(&r, target);
        if (horizontal && tr.w < 3) || (!horizontal && tr.h < 3) {
            continue;
        }
        n.split(target, horizontal, next, tr);
        next += 1;
        let r = rects(&mut n, 200, 60);
        assert_tiling(&r, 200, 60);
        assert_eq!(r.len(), n.panes().len());
    }
    while n.panes().len() > 1 {
        let ids = n.panes();
        seed = seed.wrapping_mul(1103515245).wrapping_add(12345);
        n.remove(ids[(seed >> 8) as usize % ids.len()]);
        assert_tiling(&rects(&mut n, 200, 60), 200, 60);
    }
}

#[test]
fn neighbours() {
    let mut n = Node::Leaf(1);
    let r = rects(&mut n, 80, 24);
    n.split(1, true, 2, rect_of(&r, 1));
    let r = rects(&mut n, 80, 24);
    n.split(2, false, 3, rect_of(&r, 2));
    let r = rects(&mut n, 80, 24);
    assert_eq!(neighbour(&r, 1, Dir::Right), Some(2));
    assert_eq!(neighbour(&r, 3, Dir::Left), Some(1));
    assert_eq!(neighbour(&r, 2, Dir::Down), Some(3));
    assert_eq!(neighbour(&r, 3, Dir::Up), Some(2));
    assert_eq!(neighbour(&r, 1, Dir::Left), None);
    assert_eq!(neighbour(&r, 1, Dir::Up), None);
}

#[test]
fn layout_strings_round_trip_and_read_tmux_ones() {
    // [1 | [2 / 3]] in 80x24, dumped the way tmux writes it.
    let mut n = Node::Leaf(1);
    let r = rects(&mut n, 80, 24);
    n.split(1, true, 2, rect_of(&r, 1));
    let r = rects(&mut n, 80, 24);
    n.split(2, false, 3, rect_of(&r, 2));
    let r = rects(&mut n, 80, 24);
    let s = layout_string(&n, &r);
    let body = &s[5..];
    assert_eq!(body, "80x24,0,0{40x24,0,0,1,39x24,41,0[39x12,41,0,2,39x11,41,13,3]}");
    assert_eq!(&s[..5], &format!("{:04x},", layout_checksum(body)));
    // Back in: the same shape and sizes, the pane ids from the window.
    let mut back = parse_layout(&s).unwrap();
    back.set_panes(&[1, 2, 3]);
    assert_eq!(rects(&mut back, 80, 24), r, "the same rectangles come out");
    // ...and the shape survives a different window size.
    assert_tiling(&rects(&mut back, 120, 40), 120, 40);
    // A string tmux itself produced (checksum included), and one without.
    let body = "159x48,0,0{79x48,0,0,0,79x48,80,0[79x24,80,0,1,79x23,80,25,2]}";
    let tmux = format!("{:04x},{body}", layout_checksum(body));
    let mut t = parse_layout(&tmux).unwrap();
    assert_eq!(t.panes().len(), 3);
    t.set_panes(&[7, 8, 9]);
    assert_tiling(&rects(&mut t, 80, 24), 80, 24);
    assert!(parse_layout("159x48,0,0{79x48,0,0,0,79x48,80,0,1}").is_ok(), "no checksum is fine");
    // Bad ones say what is wrong instead of panicking.
    assert!(parse_layout("0000,159x48,0,0,0").unwrap_err().contains("checksum"));
    assert!(parse_layout("159x48,0,0{79x48,0,0,0}").unwrap_err().contains("fewer than two"));
    assert!(parse_layout("159x48,0,0{79x48,0,0,0,79x48,80,0,1").unwrap_err().contains("expected"));
    assert!(parse_layout("tiled").unwrap_err().contains("expected"));
    assert!(parse_layout("").is_err());
    let deep = "{".repeat(100);
    assert!(parse_layout(&format!("1x1,0,0{deep}")).is_err());
}

#[test]
fn swap_ids() {
    let mut n = Node::Leaf(1);
    let r = rects(&mut n, 80, 24);
    n.split(1, true, 2, rect_of(&r, 1));
    n.swap(1, 2);
    assert_eq!(n.panes(), vec![2, 1]);
}

#[test]
fn removing_collapses_splits_of_one_cell() {
    let mut n = Preset::MainVertical.build(&[1, 2]).unwrap();
    assert!(n.remove(1));
    assert_eq!(n, Node::Leaf(2));
    assert!(!n.remove(2), "a pane is not removed from itself");
    let mut one = Node::Split { horizontal: true, children: vec![Node::Leaf(5)], sizes: vec![1] };
    assert!(!one.remove(4));
    assert!(one.remove(5));
    assert!(one.panes().is_empty());
}

#[test]
fn a_layout_read_back_lies_as_it_lay() {
    let mut n = Preset::Tiled.build(&[1, 2, 3, 4, 5]).unwrap();
    let area = Rect { x: 0, y: 0, w: 81, h: 25 };
    let mut before = Vec::new();
    n.layout(area, &mut before);
    let mut again = parse_layout(&layout_string(&n, &before)).unwrap();
    again.set_panes(&n.panes());
    let mut after = Vec::new();
    again.layout(area, &mut after);
    assert_eq!(after, before);
}

#[test]
fn a_pane_alone_has_nothing_beside_it() {
    let mut one = Node::Split { horizontal: true, children: vec![Node::Leaf(5)], sizes: vec![9] };
    assert!(!one.spread(5));
    let mut two = Preset::MainVertical.build(&[1, 2]).unwrap();
    if let Node::Split { sizes, .. } = &mut two {
        *sizes = vec![30, 10];
    }
    assert!(two.spread(2), "the other pane is beside it");
    assert!(matches!(&two, Node::Split { sizes, .. } if *sizes == [20, 20]));
}

#[test]
fn laying_out_twice_is_laying_out_once() {
    let mut n = Node::Leaf(1);
    let whole = Rect { x: 0, y: 0, w: 80, h: 24 };
    n.split(1, true, 2, whole);
    n.split(2, false, 3, Rect { x: 41, y: 0, w: 39, h: 24 });
    let mut once = Vec::new();
    let area = Rect { x: 0, y: 0, w: 57, h: 19 };
    n.layout(area, &mut once);
    let kept = n.clone();
    let mut twice = Vec::new();
    n.layout(area, &mut twice);
    assert_eq!((twice, n), (once, kept));
}

#[test]
fn removing_a_pane_leaves_no_split_of_one_or_in_its_own_direction() {
    let mut n = Node::Leaf(1);
    let whole = Rect { x: 0, y: 0, w: 80, h: 24 };
    n.split(1, true, 2, whole);
    n.split(2, false, 3, Rect { x: 41, y: 0, w: 39, h: 24 });
    n.split(3, true, 4, Rect { x: 41, y: 13, w: 39, h: 11 });
    assert!(n.remove(2), "the row of 3 and 4 joins the row around it");
    match &n {
        Node::Split { horizontal, children, .. } => {
            assert!(*horizontal);
            assert_eq!(children[..], [Node::Leaf(1), Node::Leaf(3), Node::Leaf(4)]);
        }
        other => panic!("{other:?}"),
    }
    assert!(n.remove(1) && n.remove(4));
    assert_eq!(n, Node::Leaf(3));
}
