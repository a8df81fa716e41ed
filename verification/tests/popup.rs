use wmux::layout::Rect;
use wmux::popup::popup_rect;

#[test]
fn popups_are_centred_and_sized_as_asked() {
    let area = Rect { x: 0, y: 0, w: 80, h: 23 };
    let centred = |w, h| popup_rect(area, w, h, None, None);
    // Default: four fifths of the window, centred.
    let r = centred(None, None);
    assert_eq!((r.w, r.h), (64, 18));
    assert_eq!((r.x, r.y), ((80 - 64) / 2, (23 - 18) / 2));
    // Cells and percentages, and never bigger than the window.
    assert_eq!(centred(Some("40"), Some("10")).w, 40);
    assert_eq!(centred(Some("50%"), Some("50%")).h, 11);
    let big = centred(Some("500"), Some("500"));
    assert_eq!((big.w, big.h, big.x, big.y), (80, 23, 0, 0));
    // Nonsense falls back to the default instead of vanishing.
    assert_eq!(centred(Some("wide"), None).w, 64);
    // A window with no room gives a box too small to draw, which the
    // caller refuses rather than drawing a broken border.
    let tiny = popup_rect(Rect { x: 0, y: 0, w: 2, h: 2 }, None, None, None, None);
    assert!(tiny.w < 3 || tiny.h < 3, "{tiny:?}");
}

#[test]
fn popups_go_where_x_and_y_say() {
    // The window area starts below a top status line, so positions are
    // relative to it, not to the terminal.
    let area = Rect { x: 0, y: 1, w: 80, h: 23 };
    let at = |x, y| {
        let r = popup_rect(area, Some("20"), Some("5"), x, y);
        (r.x, r.y)
    };
    assert_eq!(at(None, None), (30, 1 + 9), "centred without -x/-y");
    assert_eq!(at(Some("0"), Some("0")), (0, 1), "a column and a row");
    assert_eq!(at(Some("10"), Some("2")), (10, 3));
    assert_eq!(at(Some("C"), Some("C")), (30, 10), "C centres");
    assert_eq!(at(Some("R"), Some("B")), (60, 1 + 18), "R and B hug the edges");
    assert_eq!(at(Some("50%"), Some("50%")), (40, 1 + 11), "a percentage of the window");
    assert_eq!(at(Some("79"), Some("22")), (60, 19), "pulled back in when it would stick out");
    assert_eq!(at(Some("500"), Some("500")), (60, 19));
    assert_eq!(at(Some("left"), Some("top")), (30, 10), "nonsense centres");
}
