//! Finding the pane beside another on screen.
use vstd::prelude::*;
use crate::command::Dir;
use crate::layout::{PaneId, Rect};

verus! {

/// How many cells lie between `a` and `r` when `r` is on the `dir` side of
/// `a`; negative when it is not.
pub open spec fn gap(a: Rect, r: Rect, dir: Dir) -> int {
    match dir {
        Dir::Left => a.x - (r.x + r.w),
        Dir::Right => r.x - (a.x + a.w),
        Dir::Up => a.y - (r.y + r.h),
        Dir::Down => r.y - (a.y + a.h),
    }
}

/// How many cells two stretches share.
pub open spec fn shared(a0: int, a1: int, b0: int, b1: int) -> int {
    (if a1 < b1 {
        a1
    } else {
        b1
    }) - (if a0 > b0 {
        a0
    } else {
        b0
    })
}

/// How much of the edge of `a` on the `dir` side `r` faces.
pub open spec fn facing(a: Rect, r: Rect, dir: Dir) -> int {
    match dir {
        Dir::Left | Dir::Right => shared(a.y as int, a.y + a.h, r.y as int, r.y + r.h),
        Dir::Up | Dir::Down => shared(a.x as int, a.x + a.w, r.x as int, r.x + r.w),
    }
}

/// Entry `k` could be the neighbour.
pub open spec fn beside(rects: Seq<(PaneId, Rect)>, from: PaneId, a: Rect, dir: Dir, k: int) -> bool {
    &&& 0 <= k < rects.len()
    &&& rects[k].0 != from
    &&& gap(a, rects[k].1, dir) >= 0
    &&& facing(a, rects[k].1, dir) > 0
}

/// Entry `k` is no worse a neighbour than entry `j`: nearer, or as near and
/// facing more of the edge, or the same and the lower number.
pub open spec fn no_worse(rects: Seq<(PaneId, Rect)>, a: Rect, dir: Dir, k: int, j: int) -> bool {
    let (dk, dj) = (gap(a, rects[k].1, dir), gap(a, rects[j].1, dir));
    let (fk, fj) = (facing(a, rects[k].1, dir), facing(a, rects[j].1, dir));
    dk < dj || (dk == dj && (fk > fj || (fk == fj && rects[k].0 <= rects[j].0)))
}

/// Entry `k` is the first for pane `id`.
pub open spec fn first_entry(rects: Seq<(PaneId, Rect)>, id: PaneId, k: int) -> bool {
    0 <= k < rects.len() && rects[k].0 == id && forall|j: int| 0 <= j < k ==> (#[trigger] rects[j]).0 != id
}

fn gap_of(a: Rect, r: Rect, dir: Dir) -> (d: i32)
    ensures
        d == gap(a, r, dir),
        -131070 <= d <= 65535,
{
    match dir {
        Dir::Left => a.x as i32 - (r.x as i32 + r.w as i32),
        Dir::Right => r.x as i32 - (a.x as i32 + a.w as i32),
        Dir::Up => a.y as i32 - (r.y as i32 + r.h as i32),
        Dir::Down => r.y as i32 - (a.y as i32 + a.h as i32),
    }
}

fn shared_of(a0: i32, a1: i32, b0: i32, b1: i32) -> (n: i32)
    requires
        0 <= a0 <= 131070,
        0 <= a1 <= 131070,
        0 <= b0 <= 131070,
        0 <= b1 <= 131070,
    ensures
        n == shared(a0 as int, a1 as int, b0 as int, b1 as int),
{
    let hi: i32 = if a1 < b1 { a1 } else { b1 };
    let lo: i32 = if a0 > b0 { a0 } else { b0 };
    hi - lo
}

fn facing_of(a: Rect, r: Rect, dir: Dir) -> (n: i32)
    ensures
        n == facing(a, r, dir),
{
    match dir {
        Dir::Left | Dir::Right => shared_of(
            a.y as i32,
            a.y as i32 + a.h as i32,
            r.y as i32,
            r.y as i32 + r.h as i32,
        ),
        Dir::Up | Dir::Down => shared_of(a.x as i32, a.x as i32 + a.w as i32, r.x as i32, r.x as i32 + r.w as i32),
    }
}

/// `found` is the pane to go to from pane `from` in direction `dir`: one
/// that lies beside it on that side, and none lies better; nothing when none
/// lies there.
pub open spec fn is_neighbour(rects: Seq<(PaneId, Rect)>, from: PaneId, dir: Dir, found: Option<PaneId>) -> bool {
    match found {
        Some(id) => exists|at: int, k: int|
            #[trigger] first_entry(rects, from, at) && #[trigger] beside(rects, from, rects[at].1, dir, k)
                && rects[k].0 == id && forall|j: int|
                beside(rects, from, rects[at].1, dir, j) ==> #[trigger] no_worse(
                    rects,
                    rects[at].1,
                    dir,
                    k,
                    j,
                ),
        None => forall|at: int, k: int|
            !(#[trigger] first_entry(rects, from, at) && #[trigger] beside(rects, from, rects[at].1, dir, k)),
    }
}

/// What no pane lies better than is on that side of the pane at `at`, shares
/// rows or columns with its edge, and no other pane that does is closer; of
/// those as close none shares more of the edge, and of those that share as
/// much none has a lower number.
pub proof fn lemma_nearest(rects: Seq<(PaneId, Rect)>, from: PaneId, dir: Dir, at: int, k: int)
    requires
        first_entry(rects, from, at),
        beside(rects, from, rects[at].1, dir, k),
        forall|j: int|
            beside(rects, from, rects[at].1, dir, j) ==> #[trigger] no_worse(rects, rects[at].1, dir, k, j),
    ensures
        rects[k].0 != from,
        ({
            let (a, r) = (rects[at].1, rects[k].1);
            match dir {
                Dir::Left => r.x + r.w <= a.x && r.y < a.y + a.h && a.y < r.y + r.h,
                Dir::Right => a.x + a.w <= r.x && r.y < a.y + a.h && a.y < r.y + r.h,
                Dir::Up => r.y + r.h <= a.y && r.x < a.x + a.w && a.x < r.x + r.w,
                Dir::Down => a.y + a.h <= r.y && r.x < a.x + a.w && a.x < r.x + r.w,
            }
        }),
        forall|j: int|
            0 <= j < rects.len() && (#[trigger] rects[j]).0 != from ==> {
                let (a, r, o) = (rects[at].1, rects[k].1, rects[j].1);
                match dir {
                    Dir::Left => o.x + o.w <= a.x && o.y < a.y + a.h && a.y < o.y + o.h && o.h > 0 && a.h > 0 ==> o.x
                        + o.w <= r.x + r.w,
                    Dir::Right => a.x + a.w <= o.x && o.y < a.y + a.h && a.y < o.y + o.h && o.h > 0 && a.h > 0 ==> r.x
                        <= o.x,
                    Dir::Up => o.y + o.h <= a.y && o.x < a.x + a.w && a.x < o.x + o.w && o.w > 0 && a.w > 0 ==> o.y
                        + o.h <= r.y + r.h,
                    Dir::Down => a.y + a.h <= o.y && o.x < a.x + a.w && a.x < o.x + o.w && o.w > 0 && a.w > 0 ==> r.y
                        <= o.y,
                }
            },
        forall|j: int|
            0 <= j < rects.len() && (#[trigger] rects[j]).0 != from ==> {
                let (a, r, o) = (rects[at].1, rects[k].1, rects[j].1);
                // How much of a row or column of cells the edges share.
                let rows = |p: Rect|
                    (if a.y + a.h < p.y + p.h {
                        a.y + a.h
                    } else {
                        p.y + p.h
                    }) - (if a.y > p.y {
                        a.y
                    } else {
                        p.y
                    });
                let columns = |p: Rect|
                    (if a.x + a.w < p.x + p.w {
                        a.x + a.w
                    } else {
                        p.x + p.w
                    }) - (if a.x > p.x {
                        a.x
                    } else {
                        p.x
                    });
                match dir {
                    Dir::Left => o.x + o.w == r.x + r.w && rows(o) > 0 ==> rows(r) >= rows(o) && (rows(r) == rows(o)
                        ==> rects[k].0 <= rects[j].0),
                    Dir::Right => o.x == r.x && rows(o) > 0 ==> rows(r) >= rows(o) && (rows(r) == rows(o) ==> rects[k].0
                        <= rects[j].0),
                    Dir::Up => o.y + o.h == r.y + r.h && columns(o) > 0 ==> columns(r) >= columns(o) && (columns(r)
                        == columns(o) ==> rects[k].0 <= rects[j].0),
                    Dir::Down => o.y == r.y && columns(o) > 0 ==> columns(r) >= columns(o) && (columns(r) == columns(o)
                        ==> rects[k].0 <= rects[j].0),
                }
            },
{
    assert forall|j: int| 0 <= j < rects.len() && (#[trigger] rects[j]).0 != from && beside(
        rects,
        from,
        rects[at].1,
        dir,
        j,
    ) implies no_worse(rects, rects[at].1, dir, k, j) by {}
}

/// Where no pane can be the neighbour, none is on that side that shares rows
/// or columns with the edge.
pub proof fn lemma_none_there(rects: Seq<(PaneId, Rect)>, from: PaneId, dir: Dir)
    requires
        is_neighbour(rects, from, dir, None),
    ensures
        forall|at: int, j: int|
            #![trigger rects[at], rects[j]]
            0 <= at < rects.len() && 0 <= j < rects.len() && rects[at].0 == from && rects[j].0 != from && (forall|i: int|
                0 <= i < at ==> (#[trigger] rects[i]).0 != from) ==> {
                let (a, o) = (rects[at].1, rects[j].1);
                !match dir {
                    Dir::Left => o.x + o.w <= a.x && o.y < a.y + a.h && a.y < o.y + o.h && o.h > 0 && a.h > 0,
                    Dir::Right => a.x + a.w <= o.x && o.y < a.y + a.h && a.y < o.y + o.h && o.h > 0 && a.h > 0,
                    Dir::Up => o.y + o.h <= a.y && o.x < a.x + a.w && a.x < o.x + o.w && o.w > 0 && a.w > 0,
                    Dir::Down => a.y + a.h <= o.y && o.x < a.x + a.w && a.x < o.x + o.w && o.w > 0 && a.w > 0,
                }
            },
{
    assert forall|at: int, j: int|
        #![trigger rects[at], rects[j]]
        0 <= at < rects.len() && 0 <= j < rects.len() && rects[at].0 == from && rects[j].0 != from && (forall|i: int|
            0 <= i < at ==> (#[trigger] rects[i]).0 != from) implies !beside(rects, from, rects[at].1, dir, j) by {
        assert(first_entry(rects, from, at));
    }
}

/// Pick the neighbouring pane of `from` in direction `dir` among `rects`.
pub fn neighbour(rects: &[(PaneId, Rect)], from: PaneId, dir: Dir) -> (found: Option<PaneId>)
    ensures
        is_neighbour(rects@, from, dir, found),
        // The pane found is on that side, shares rows or columns with the
        // edge, and nothing else does that is closer.
        found is Some ==> exists|at: int, k: int|
            #![trigger rects@[at], rects@[k]]
            {
                let (a, r) = (rects@[at].1, rects@[k].1);
                &&& 0 <= at < rects@.len() && rects@[at].0 == from
                &&& forall|i: int| 0 <= i < at ==> (#[trigger] rects@[i]).0 != from
                &&& 0 <= k < rects@.len() && rects@[k].0 == found->0 && found->0 != from
                &&& match dir {
                    Dir::Left => r.x + r.w <= a.x && r.y < a.y + a.h && a.y < r.y + r.h,
                    Dir::Right => a.x + a.w <= r.x && r.y < a.y + a.h && a.y < r.y + r.h,
                    Dir::Up => r.y + r.h <= a.y && r.x < a.x + a.w && a.x < r.x + r.w,
                    Dir::Down => a.y + a.h <= r.y && r.x < a.x + a.w && a.x < r.x + r.w,
                }
                &&& forall|j: int|
                    0 <= j < rects@.len() && (#[trigger] rects@[j]).0 != from ==> {
                        let o = rects@[j].1;
                        match dir {
                            Dir::Left => o.x + o.w <= a.x && o.y < a.y + a.h && a.y < o.y + o.h && o.h > 0 && a.h > 0
                                ==> o.x + o.w <= r.x + r.w,
                            Dir::Right => a.x + a.w <= o.x && o.y < a.y + a.h && a.y < o.y + o.h && o.h > 0 && a.h > 0
                                ==> r.x <= o.x,
                            Dir::Up => o.y + o.h <= a.y && o.x < a.x + a.w && a.x < o.x + o.w && o.w > 0 && a.w > 0
                                ==> o.y + o.h <= r.y + r.h,
                            Dir::Down => a.y + a.h <= o.y && o.x < a.x + a.w && a.x < o.x + o.w && o.w > 0 && a.w > 0
                                ==> r.y <= o.y,
                        }
                    }
            },
        // Nothing is found only where nothing is on that side.
        found is None ==> forall|at: int, j: int|
            #![trigger rects@[at], rects@[j]]
            0 <= at < rects@.len() && 0 <= j < rects@.len() && rects@[at].0 == from && rects@[j].0 != from && (forall|
                i: int,
            | 0 <= i < at ==> (#[trigger] rects@[i]).0 != from) ==> {
                let (a, o) = (rects@[at].1, rects@[j].1);
                !match dir {
                    Dir::Left => o.x + o.w <= a.x && o.y < a.y + a.h && a.y < o.y + o.h && o.h > 0 && a.h > 0,
                    Dir::Right => a.x + a.w <= o.x && o.y < a.y + a.h && a.y < o.y + o.h && o.h > 0 && a.h > 0,
                    Dir::Up => o.y + o.h <= a.y && o.x < a.x + a.w && a.x < o.x + o.w && o.w > 0 && a.w > 0,
                    Dir::Down => a.y + a.h <= o.y && o.x < a.x + a.w && a.x < o.x + o.w && o.w > 0 && a.w > 0,
                }
            },
{
    let mut at: usize = 0;
    while at < rects.len() && rects[at].0 != from
        invariant
            at <= rects@.len(),
            forall|j: int| 0 <= j < at ==> (#[trigger] rects@[j]).0 != from,
        decreases rects.len() - at,
    {
        at = at + 1;
    }
    if at >= rects.len() {
        return None;
    }
    let a: Rect = rects[at].1;
    assert(first_entry(rects@, from, at as int));
    let mut best: Option<usize> = None;
    let mut k: usize = 0;
    while k < rects.len()
        invariant
            k <= rects@.len(),
            match best {
                Some(b) => b < k && beside(rects@, from, a, dir, b as int) && forall|j: int|
                    0 <= j < k && beside(rects@, from, a, dir, j) ==> #[trigger] no_worse(rects@, a, dir, b as int, j),
                None => forall|j: int| 0 <= j < k ==> !#[trigger] beside(rects@, from, a, dir, j),
            },
        decreases rects.len() - k,
    {
        let (id, r) = rects[k];
        let g: i32 = gap_of(a, r, dir);
        let f: i32 = facing_of(a, r, dir);
        if id != from && g >= 0 && f > 0 {
            assert(beside(rects@, from, a, dir, k as int));
            match best {
                None => {
                    best = Some(k);
                    assert(forall|j: int| 0 <= j < k ==> !#[trigger] beside(rects@, from, a, dir, j));
                },
                Some(b) => {
                    let (bid, br) = rects[b];
                    let bg: i32 = gap_of(a, br, dir);
                    let bf: i32 = facing_of(a, br, dir);
                    if g < bg || (g == bg && (f > bf || (f == bf && id < bid))) {
                        assert forall|j: int| 0 <= j <= k && beside(rects@, from, a, dir, j) implies #[trigger] no_worse(
                            rects@,
                            a,
                            dir,
                            k as int,
                            j,
                        ) by {
                            if j < k {
                                assert(no_worse(rects@, a, dir, b as int, j));
                            }
                        }
                        best = Some(k);
                    }
                },
            }
        } else {
            assert(!beside(rects@, from, a, dir, k as int));
        }
        k = k + 1;
    }
    match best {
        Some(b) => {
            assert(beside(rects@, from, rects@[at as int].1, dir, b as int));
            proof {
                lemma_nearest(rects@, from, dir, at as int, b as int);
            }
            Some(rects[b].0)
        },
        None => {
            assert forall|at2: int, k2: int|
                !(#[trigger] first_entry(rects@, from, at2) && #[trigger] beside(
                    rects@,
                    from,
                    rects@[at2].1,
                    dir,
                    k2,
                )) by {
                if first_entry(rects@, from, at2) {
                    assert(at2 == at) by {
                        if at2 < at {
                            assert(rects@[at2].0 != from);
                        }
                        if at2 > at {
                            assert(rects@[at as int].0 != from);
                        }
                    }
                }
            }
            proof {
                lemma_none_there(rects@, from, dir);
            }
            None
        },
    }
}

} // verus!
