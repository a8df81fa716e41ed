//! Where a popup goes.
use vstd::prelude::*;
use crate::layout::Rect;
use crate::text::{chars_of, number_of, part_of, read_number, rest_is, trim, trimmed};

verus! {

/// A size as asked for: cells, or a percentage of the window; at least one.
pub open spec fn size_of(spec: Seq<char>, full: int) -> Option<int> {
    let s = trim(spec);
    if s.len() > 0 && s.last() == '%' {
        match number_of(trim(s.drop_last()), u32::MAX as int) {
            None => None,
            Some(p) => {
                let v = full * (if p < 100 {
                    p
                } else {
                    100
                }) / 100;
                Some(
                    if v > 1 {
                        v
                    } else {
                        1
                    },
                )
            },
        }
    } else {
        match number_of(s, u16::MAX as int) {
            None => None,
            Some(v) => Some(
                if v > 1 {
                    v
                } else {
                    1
                },
            ),
        }
    }
}

/// A `-x`/`-y` size: cells, or a percentage of the window.
pub fn parse_size(spec: &str, full: u16) -> (v: Option<u16>)
    ensures
        match v {
            Some(n) => size_of(spec@, full as int) == Some(n as int),
            None => size_of(spec@, full as int) is None,
        },
{
    let s = trimmed(&chars_of(spec));
    size_in(&s, full)
}

fn size_in(s: &Vec<char>, full: u16) -> (v: Option<u16>)
    ensures
        forall|spec: Seq<char>| #[trigger]
            trim(spec) == s@ ==> (match v {
                Some(n) => size_of(spec, full as int) == Some(n as int),
                None => size_of(spec, full as int) is None,
            }),
{
    if s.len() > 0 && s[s.len() - 1] == '%' {
        let head = part_of(s, 0, s.len() - 1);
        assert(head@ =~= s@.drop_last());
        match read_number(&trimmed(&head), u32::MAX as u64) {
            None => None,
            Some(p) => {
                let pct: u32 = if p < 100 { p as u32 } else { 100 };
                assert(full * pct <= 65535 * 100) by (nonlinear_arith)
                    requires
                        0 <= full <= 65535,
                        0 <= pct <= 100,
                ;
                let v: u32 = (full as u32) * pct / 100;
                Some(
                    if v > 1 {
                        v as u16
                    } else {
                        1
                    },
                )
            },
        }
    } else {
        match read_number(s, u16::MAX as u64) {
            None => None,
            Some(v) => Some(
                if v > 1 {
                    v as u16
                } else {
                    1
                },
            ),
        }
    }
}

/// The extent of a popup: as asked for, or four fifths of the window, but
/// never more than the window.
pub open spec fn popup_extent(spec: Option<Seq<char>>, full: int) -> int {
    let asked = match spec {
        Some(s) => size_of(s, full),
        None => None,
    };
    let v = match asked {
        Some(v) => v,
        None => full * 4 / 5,
    };
    if v < 1 {
        1
    } else if v > full {
        full
    } else {
        v
    }
}

/// Where a popup of `size` begins in a window of `full` cells.
pub open spec fn popup_start(spec: Option<Seq<char>>, full: int, size: int) -> int {
    let room = full - size;
    let at = match spec {
        None => room / 2,
        Some(text) => {
            let s = trim(text);
            if s == "C"@ || s == "c"@ {
                room / 2
            } else if s == "R"@ || s == "r"@ || s == "B"@ || s == "b"@ {
                room
            } else {
                let asked = if s.len() > 0 && s.last() == '%' {
                    size_of(s, full)
                } else {
                    number_of(s, u16::MAX as int)
                };
                match asked {
                    Some(v) => v,
                    None => room / 2,
                }
            }
        },
    };
    if at < room {
        at
    } else {
        room
    }
}

pub open spec fn text_of(s: Option<&str>) -> Option<Seq<char>> {
    match s {
        Some(t) => Some(t@),
        None => None,
    }
}

fn extent_of(spec: Option<&str>, full: u16) -> (v: u16)
    requires
        full >= 1,
    ensures
        v == popup_extent(text_of(spec), full as int),
        1 <= v <= full,
{
    let asked: Option<u16> = match spec {
        Some(s) => parse_size(s, full),
        None => None,
    };
    let v: u16 = match asked {
        Some(v) => v,
        None => ((full as u32) * 4 / 5) as u16,
    };
    if v < 1 {
        1
    } else if v > full {
        full
    } else {
        v
    }
}

fn start_at(spec: Option<&str>, full: u16, size: u16) -> (at: u16)
    requires
        1 <= size <= full,
    ensures
        at == popup_start(text_of(spec), full as int, size as int),
        at + size <= full,
{
    let room: u16 = full - size;
    let at: u16 = match spec {
        None => room / 2,
        Some(text) => {
            let s = trimmed(&chars_of(text));
            proof {
                lemma_trim_twice(text@);
                assert(s@.skip(0) =~= s@);
            }
            if rest_is(&s, 0, "C") || rest_is(&s, 0, "c") {
                room / 2
            } else if rest_is(&s, 0, "R") || rest_is(&s, 0, "r") || rest_is(&s, 0, "B") || rest_is(&s, 0, "b") {
                room
            } else {
                let asked: Option<u16> = if s.len() > 0 && s[s.len() - 1] == '%' {
                    size_in(&s, full)
                } else {
                    match read_number(&s, u16::MAX as u64) {
                        Some(v) => Some(v as u16),
                        None => None,
                    }
                };
                match asked {
                    Some(v) => v,
                    None => room / 2,
                }
            }
        },
    };
    if at < room {
        at
    } else {
        room
    }
}

proof fn lemma_trim_start_done(s: Seq<char>)
    ensures
        ({
            let t = crate::text::trim_start(s);
            t.len() == 0 || !crate::text::is_white(t[0])
        }),
    decreases s.len(),
{
    if s.len() > 0 && crate::text::is_white(s[0]) {
        lemma_trim_start_done(s.skip(1));
    }
}

proof fn lemma_trim_end_done(s: Seq<char>)
    ensures
        ({
            let t = crate::text::trim_end(s);
            &&& t.len() == 0 || !crate::text::is_white(t.last())
            &&& t.len() > 0 ==> s.len() > 0 && t[0] == s[0]
        }),
    decreases s.len(),
{
    if s.len() > 0 && crate::text::is_white(s.last()) {
        lemma_trim_end_done(s.drop_last());
    }
}

/// Trimmed text has nothing more to trim.
pub proof fn lemma_trim_twice(s: Seq<char>)
    ensures
        trim(trim(s)) == trim(s),
{
    lemma_trim_start_done(s);
    lemma_trim_end_done(crate::text::trim_start(s));
}

/// Where a `display-popup` box goes: the asked-for size (`80`, `50%`),
/// defaulting to four fifths of the window, at the asked-for position
/// (`-x`/`-y`: a column or row, a percentage of the window, `C` centred,
/// `R`/`B` against the right or bottom edge), centred when not given. A
/// box that would stick out is pulled back in.
pub fn popup_rect(area: Rect, width: Option<&str>, height: Option<&str>, x: Option<&str>, y: Option<&str>) -> (r: Rect)
    requires
        area.fits(),
        area.w >= 1,
        area.h >= 1,
    ensures
        r.w == popup_extent(text_of(width), area.w as int),
        r.h == popup_extent(text_of(height), area.h as int),
        r.x == area.x + popup_start(text_of(x), area.w as int, r.w as int),
        r.y == area.y + popup_start(text_of(y), area.h as int, r.h as int),
        r.inside(area),
        r.shown(),
{
    let w: u16 = extent_of(width, area.w);
    let h: u16 = extent_of(height, area.h);
    Rect { x: area.x + start_at(x, area.w, w), y: area.y + start_at(y, area.h, h), w, h }
}

} // verus!
