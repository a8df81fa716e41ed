//! Sharing out the cells of a row or a column among its entries.
use vstd::prelude::*;
use vstd::arithmetic::div_mod::{lemma_div_is_ordered, lemma_fundamental_div_mod, lemma_div_multiples_vanish, lemma_mod_bound};
use vstd::arithmetic::mul::lemma_mul_inequality;

verus! {

/// What a row of sizes adds up to.
pub open spec fn total(s: Seq<int>) -> int
    decreases s.len(),
{
    if s.len() == 0 {
        0
    } else {
        total(s.drop_last()) + s.last()
    }
}

/// Entry `j` goes before entry `i`: the bigger key first, the earlier entry
/// first on a tie.
pub open spec fn goes_before(keys: Seq<int>, j: int, i: int) -> bool {
    keys[j] > keys[i] || (keys[j] == keys[i] && j < i)
}

/// The entries that go before entry `i`.
pub open spec fn ahead(keys: Seq<int>, i: int) -> Set<int> {
    Set::range(0, keys.len() as int).filter(|j: int| goes_before(keys, j, i))
}

/// The sum of the first `k` of `vals`, those in `set` only.
pub open spec fn sum_in(set: Set<int>, vals: Seq<int>, k: nat) -> int
    decreases k,
{
    if k == 0 {
        0
    } else {
        sum_in(set, vals, (k - 1) as nat) + (if set.contains(k - 1) {
            vals[k - 1]
        } else {
            0
        })
    }
}

/// The weight of entry `i`. A row without any weight is shared evenly.
pub open spec fn weight(s: Seq<int>, i: int) -> int {
    if total(s) == 0 {
        1
    } else {
        s[i]
    }
}

/// All the weights together.
pub open spec fn weights(s: Seq<int>) -> int {
    if total(s) == 0 {
        s.len() as int
    } else {
        total(s)
    }
}

/// The proportional share of entry `i`, rounded down.
pub open spec fn floor_share(s: Seq<int>, avail: int, i: int) -> int {
    (weight(s, i) * avail) / weights(s)
}

/// The shares, none of them less than one cell.
pub open spec fn shares(s: Seq<int>, avail: int) -> Seq<int> {
    Seq::new(
        s.len(),
        |i: int|
            if floor_share(s, avail, i) == 0 {
                1
            } else {
                floor_share(s, avail, i)
            },
    )
}

/// What rounding down took from each entry; nothing from one that was given
/// its one cell anyway.
pub open spec fn dropped(s: Seq<int>, avail: int) -> Seq<int> {
    Seq::new(
        s.len(),
        |i: int|
            if floor_share(s, avail, i) == 0 {
                0
            } else {
                (weight(s, i) * avail) % weights(s)
            },
    )
}

/// How many cells entry `i` could still give and keep one.
pub open spec fn spare(sh: Seq<int>) -> Seq<int> {
    Seq::new(sh.len(), |i: int| sh[i] - 1)
}

pub open spec fn clamp(v: int, lo: int, hi: int) -> int {
    if v < lo {
        lo
    } else if v > hi {
        hi
    } else {
        v
    }
}

/// What entry `i` gives up when `over` cells must go, the biggest entries
/// giving first.
pub open spec fn given_up(sh: Seq<int>, over: int, i: int) -> int {
    clamp(over - sum_in(ahead(sh, i), spare(sh), sh.len()), 0, sh[i] - 1)
}

/// `s` scaled so that it adds up to `avail`, every entry at least one cell
/// where there are that many cells: the proportional shares, then the cells
/// that rounding left over one each to the entries that lost the most (the
/// earlier first on a tie), or the excess taken from the biggest.
pub open spec fn fitted(s: Seq<int>, avail: int) -> Seq<int> {
    let n = s.len() as int;
    let sh = shares(s, avail);
    if n == 0 || (total(s) == avail && (avail < n || forall|i: int| 0 <= i < n ==> s[i] >= 1)) {
        s
    } else if avail < n {
        Seq::new(
            s.len(),
            |i: int|
                if i < avail {
                    1
                } else {
                    0
                },
        )
    } else if total(sh) <= avail {
        Seq::new(
            s.len(),
            |i: int|
                sh[i] + if ahead(dropped(s, avail), i).len() < avail - total(sh) {
                    1int
                } else {
                    0int
                },
        )
    } else {
        Seq::new(s.len(), |i: int| sh[i] - given_up(sh, total(sh) - avail, i))
    }
}

/// `order` lists the entries of `keys`, each once, the one that goes first
/// at the front.
pub open spec fn is_order(order: Seq<int>, keys: Seq<int>) -> bool {
    &&& order.len() == keys.len()
    &&& order.no_duplicates()
    &&& forall|m: int| 0 <= m < order.len() ==> 0 <= #[trigger] order[m] < keys.len()
    &&& forall|j: int| 0 <= j < keys.len() ==> #[trigger] order.contains(j)
    &&& forall|a: int, b: int|
        0 <= a < b < order.len() ==> goes_before(keys, #[trigger] order[a], #[trigger] order[b])
}

proof fn lemma_total_push(s: Seq<int>, v: int)
    ensures
        total(s.push(v)) == total(s) + v,
{
    assert(s.push(v).drop_last() =~= s);
}

pub proof fn lemma_total_concat(a: Seq<int>, b: Seq<int>)
    ensures
        total(a + b) == total(a) + total(b),
    decreases b.len(),
{
    if b.len() == 0 {
        assert(a + b =~= a);
    } else {
        assert((a + b).drop_last() =~= a + b.drop_last());
        lemma_total_concat(a, b.drop_last());
    }
}

pub proof fn lemma_total_update(s: Seq<int>, i: int, v: int)
    requires
        0 <= i < s.len(),
    ensures
        total(s.update(i, v)) == total(s) - s[i] + v,
    decreases s.len(),
{
    if i == s.len() - 1 {
        assert(s.update(i, v).drop_last() =~= s.drop_last());
    } else {
        assert(s.update(i, v).drop_last() =~= s.drop_last().update(i, v));
        lemma_total_update(s.drop_last(), i, v);
    }
}

/// A row whose entries are not negative does not add up to less than any
/// part of it.
pub proof fn lemma_total_bounds(s: Seq<int>, lo: int, hi: int)
    requires
        forall|i: int| 0 <= i < s.len() ==> lo <= #[trigger] s[i] <= hi,
    ensures
        s.len() * lo <= total(s) <= s.len() * hi,
    decreases s.len(),
{
    if s.len() > 0 {
        lemma_total_bounds(s.drop_last(), lo, hi);
        let n = s.len() as int;
        assert(n * lo == (n - 1) * lo + lo) by (nonlinear_arith);
        assert(n * hi == (n - 1) * hi + hi) by (nonlinear_arith);
    }
}

pub proof fn lemma_total_take(s: Seq<int>, k: int)
    requires
        0 <= k < s.len(),
    ensures
        total(s.take(k + 1)) == total(s.take(k)) + s[k],
{
    assert(s.take(k + 1) =~= s.take(k).push(s[k]));
    lemma_total_push(s.take(k), s[k]);
}

/// One entry of a row without negative entries is at most the whole.
pub proof fn lemma_total_part(s: Seq<int>, k: int)
    requires
        0 <= k < s.len(),
        forall|i: int| 0 <= i < s.len() ==> 0 <= #[trigger] s[i],
    ensures
        0 <= s[k] <= total(s),
        0 <= total(s.take(k)) <= total(s) - s[k],
    decreases s.len(),
{
    assert(s =~= s.take(k) + seq![s[k]] + s.skip(k + 1));
    lemma_total_concat(s.take(k) + seq![s[k]], s.skip(k + 1));
    lemma_total_concat(s.take(k), seq![s[k]]);
    assert(seq![s[k]].drop_last() =~= Seq::<int>::empty());
    reveal_with_fuel(total, 2);
    assert(total(seq![s[k]]) == s[k]);
    lemma_total_nonneg(s.take(k));
    lemma_total_nonneg(s.skip(k + 1));
}

pub proof fn lemma_total_nonneg(s: Seq<int>)
    requires
        forall|i: int| 0 <= i < s.len() ==> 0 <= #[trigger] s[i],
    ensures
        total(s) >= 0,
    decreases s.len(),
{
    if s.len() > 0 {
        lemma_total_nonneg(s.drop_last());
    }
}

proof fn lemma_sum_in_insert(set: Set<int>, x: int, vals: Seq<int>, k: nat)
    requires
        !set.contains(x),
        0 <= x,
    ensures
        sum_in(set.insert(x), vals, k) == sum_in(set, vals, k) + (if x < k {
            vals[x]
        } else {
            0
        }),
    decreases k,
{
    if k > 0 {
        lemma_sum_in_insert(set, x, vals, (k - 1) as nat);
    }
}

proof fn lemma_sum_in_empty(vals: Seq<int>, k: nat)
    ensures
        sum_in(Set::empty(), vals, k) == 0,
    decreases k,
{
    if k > 0 {
        lemma_sum_in_empty(vals, (k - 1) as nat);
    }
}

proof fn lemma_sum_in_all(set: Set<int>, vals: Seq<int>, k: nat)
    requires
        k <= vals.len(),
        forall|j: int| 0 <= j < k ==> set.contains(j),
    ensures
        sum_in(set, vals, k) == total(vals.take(k as int)),
    decreases k,
{
    if k > 0 {
        lemma_sum_in_all(set, vals, (k - 1) as nat);
        lemma_total_take(vals, k - 1);
    } else {
        assert(vals.take(0) =~= Seq::<int>::empty());
    }
}

/// What goes before the entry at place `m` of an order is what stands in
/// front of it there.
proof fn lemma_ahead_is_prefix(order: Seq<int>, keys: Seq<int>, m: int)
    requires
        is_order(order, keys),
        0 <= m < order.len(),
    ensures
        ahead(keys, order[m]) == order.take(m).to_set(),
        ahead(keys, order[m]).len() == m,
{
    let i = order[m];
    let front = order.take(m);
    assert forall|j: int| ahead(keys, i).contains(j) <==> front.to_set().contains(j) by {
        if ahead(keys, i).contains(j) {
            assert(order.contains(j));
            let p = choose|p: int| 0 <= p < order.len() && order[p] == j;
            if p > m {
                assert(goes_before(keys, order[m], order[p]));
            }
            assert(p < m);
            assert(front[p] == j);
        }
        if front.to_set().contains(j) {
            assert(front.contains(j));
            let p = choose|p: int| 0 <= p < front.len() && front[p] == j;
            assert(order[p] == j);
            assert(goes_before(keys, order[p], order[m]));
        }
    }
    assert(ahead(keys, i) =~= front.to_set());
    assert(front.no_duplicates());
    front.unique_seq_to_set();
}

/// The sum over the front of an order, one entry further.
proof fn lemma_prefix_sum(order: Seq<int>, keys: Seq<int>, vals: Seq<int>, m: int)
    requires
        is_order(order, keys),
        vals.len() == keys.len(),
        0 <= m < order.len(),
    ensures
        sum_in(order.take(m + 1).to_set(), vals, vals.len()) == sum_in(
            order.take(m).to_set(),
            vals,
            vals.len(),
        ) + vals[order[m]],
{
    let a = order.take(m);
    let b = order.take(m + 1);
    assert(b =~= a.push(order[m]));
    assert(!a.contains(order[m]));
    assert forall|j: int| b.to_set().contains(j) <==> a.to_set().insert(order[m]).contains(j) by {
        if b.contains(j) {
            let p = choose|p: int| 0 <= p < b.len() && b[p] == j;
            if p < m {
                assert(a[p] == j);
            }
        }
        if a.contains(j) {
            let p = choose|p: int| 0 <= p < a.len() && a[p] == j;
            assert(b[p] == j);
        }
        if j == order[m] {
            assert(b[m] == j);
        }
    }
    assert(b.to_set() =~= a.to_set().insert(order[m]));
    lemma_sum_in_insert(a.to_set(), order[m], vals, vals.len());
}

/// The shares of `s` and what they add up to.
proof fn lemma_shares(s: Seq<int>, avail: int)
    requires
        s.len() > 0,
        s.len() <= avail,
        forall|i: int| 0 <= i < s.len() ==> 0 <= #[trigger] s[i],
    ensures
        weights(s) > 0,
        forall|i: int|
            0 <= i < s.len() ==> 0 <= #[trigger] weight(s, i) <= weights(s) && 0 <= floor_share(s, avail, i) <= avail
                && 1 <= shares(s, avail)[i] <= avail,
        avail - s.len() < total(shares(s, avail)) <= avail + s.len(),
{
    lemma_total_nonneg(s);
    let w = weights(s);
    assert forall|i: int| 0 <= i < s.len() implies 0 <= #[trigger] weight(s, i) <= weights(s) && 0 <= floor_share(
        s,
        avail,
        i,
    ) <= avail && 1 <= shares(s, avail)[i] <= avail by {
        lemma_total_part(s, i);
        let v = weight(s, i);
        lemma_mul_inequality(v, w, avail);
        assert(0 <= v * avail) by (nonlinear_arith)
            requires
                0 <= v,
                0 <= avail,
        ;
        lemma_div_is_ordered(0, v * avail, w);
        lemma_div_is_ordered(v * avail, w * avail, w);
        lemma_div_multiples_vanish(avail, w);
        assert(w * avail == avail * w) by (nonlinear_arith);
    }
    let ws = Seq::new(s.len(), |i: int| weight(s, i));
    assert(total(ws) == w) by {
        if total(s) == 0 {
            lemma_total_bounds(ws, 1, 1);
        } else {
            assert(ws =~= s);
        }
    }
    lemma_floor_total(ws, avail, w, s.len() as int);
    let fl = Seq::new(s.len(), |i: int| (ws[i] * avail) / w);
    assert(fl.take(s.len() as int) =~= fl);
    assert(ws.take(s.len() as int) =~= ws);
    let sh = shares(s, avail);
    lemma_total_le(fl, sh, 0);
    let fl1 = Seq::new(s.len(), |i: int| fl[i] + 1);
    lemma_total_le(sh, fl1, 0);
    lemma_total_shift(fl, 1);
    assert(fl1 =~= Seq::new(fl.len(), |i: int| fl[i] + 1));
}

proof fn lemma_total_shift(a: Seq<int>, d: int)
    ensures
        total(Seq::new(a.len(), |i: int| a[i] + d)) == total(a) + a.len() * d,
    decreases a.len(),
{
    let b = Seq::new(a.len(), |i: int| a[i] + d);
    if a.len() > 0 {
        lemma_total_shift(a.drop_last(), d);
        assert(b.drop_last() =~= Seq::new(a.drop_last().len(), |i: int| a.drop_last()[i] + d));
        let n = a.len() as int;
        assert(n * d == (n - 1) * d + d) by (nonlinear_arith);
    }
}

proof fn lemma_total_le(a: Seq<int>, b: Seq<int>, d: int)
    requires
        a.len() == b.len(),
        forall|i: int| 0 <= i < a.len() ==> a[i] <= #[trigger] b[i],
    ensures
        total(a) <= total(b),
    decreases a.len(),
{
    if a.len() > 0 {
        lemma_total_le(a.drop_last(), b.drop_last(), d);
    }
}

/// Rounding down loses less than one cell per entry.
proof fn lemma_floor_total(ws: Seq<int>, avail: int, w: int, k: int)
    requires
        0 <= k <= ws.len(),
        w > 0,
        avail >= 0,
        forall|i: int| 0 <= i < ws.len() ==> 0 <= #[trigger] ws[i],
        total(ws) == w,
    ensures
        ({
            let fl = Seq::new(ws.len(), |i: int| (ws[i] * avail) / w);
            &&& total(fl.take(k)) * w <= total(ws.take(k)) * avail
            &&& total(ws.take(k)) * avail <= total(fl.take(k)) * w + k * (w - 1)
            &&& k == ws.len() && k > 0 ==> avail - ws.len() < total(fl.take(k)) <= avail
        }),
    decreases k,
{
    let fl = Seq::new(ws.len(), |i: int| (ws[i] * avail) / w);
    if k == 0 {
        assert(fl.take(0) =~= Seq::<int>::empty());
        assert(ws.take(0) =~= Seq::<int>::empty());
    } else {
        lemma_floor_total(ws, avail, w, k - 1);
        lemma_total_take(fl, k - 1);
        lemma_total_take(ws, k - 1);
        let x = ws[k - 1] * avail;
        lemma_fundamental_div_mod(x, w);
        lemma_mod_bound(x, w);
        let f0 = total(fl.take(k - 1));
        let w0 = total(ws.take(k - 1));
        let q = x / w;
        assert((f0 + q) * w == f0 * w + w * q) by (nonlinear_arith);
        assert((w0 + ws[k - 1]) * avail == w0 * avail + ws[k - 1] * avail) by (nonlinear_arith);
        assert(k * (w - 1) == (k - 1) * (w - 1) + (w - 1)) by (nonlinear_arith);
    }
    if k == ws.len() && k > 0 {
        assert(ws.take(k) =~= ws);
        let t = total(fl.take(k));
        assert(t <= avail) by (nonlinear_arith)
            requires
                t * w <= w * avail,
                w > 0,
        ;
        assert(avail - k < t) by (nonlinear_arith)
            requires
                w * avail <= t * w + k * (w - 1),
                w > 0,
                k > 0,
        ;
    }
}


/// Where the last entry of `keys` belongs in an order of the others: after
/// all of those that go before it.
proof fn insertion_place(order: Seq<int>, keys: Seq<int>) -> (p: int)
    requires
        keys.len() > 0,
        is_order(order, keys.drop_last()),
    ensures
        0 <= p <= order.len(),
        forall|m: int| 0 <= m < p ==> goes_before(keys, #[trigger] order[m], keys.len() - 1),
        forall|m: int| p <= m < order.len() ==> goes_before(keys, keys.len() - 1, #[trigger] order[m]),
{
    lowest_cut(order, keys, order.len() as int)
}

proof fn lowest_cut(order: Seq<int>, keys: Seq<int>, k: int) -> (p: int)
    requires
        keys.len() > 0,
        is_order(order, keys.drop_last()),
        0 <= k <= order.len(),
        forall|m: int| k <= m < order.len() ==> goes_before(keys, keys.len() - 1, #[trigger] order[m]),
    ensures
        0 <= p <= order.len(),
        forall|m: int| 0 <= m < p ==> goes_before(keys, #[trigger] order[m], keys.len() - 1),
        forall|m: int| p <= m < order.len() ==> goes_before(keys, keys.len() - 1, #[trigger] order[m]),
    decreases k,
{
    let x = keys.len() - 1;
    if k == 0 {
        0
    } else if goes_before(keys, x, order[k - 1]) {
        lowest_cut(order, keys, k - 1)
    } else {
        assert forall|m: int| 0 <= m < k implies goes_before(keys, #[trigger] order[m], x) by {
            if m < k - 1 {
                assert(goes_before(keys.drop_last(), order[m], order[k - 1]));
            }
        }
        k
    }
}

/// The last entry of `keys` put where it belongs in an order of the others.
proof fn lemma_insert_order(o: Seq<int>, keys: Seq<int>, p: int)
    requires
        keys.len() > 0,
        is_order(o, keys.drop_last()),
        0 <= p <= o.len(),
        forall|m: int| 0 <= m < p ==> goes_before(keys, #[trigger] o[m], keys.len() - 1),
        forall|m: int| p <= m < o.len() ==> goes_before(keys, keys.len() - 1, #[trigger] o[m]),
    ensures
        is_order(o.insert(p, keys.len() - 1), keys),
{
    let x = keys.len() - 1;
    let order = o.insert(p, x);
    assert forall|j: int| 0 <= j < keys.len() implies #[trigger] order.contains(j) by {
        if j == x {
            assert(order[p] == x);
        } else {
            assert(o.contains(j));
            let m = choose|m: int| 0 <= m < o.len() && o[m] == j;
            if m < p {
                assert(order[m] == j);
            } else {
                assert(order[m + 1] == j);
            }
        }
    }
    assert forall|a: int, b: int| 0 <= a < b < order.len() implies goes_before(
        keys,
        #[trigger] order[a],
        #[trigger] order[b],
    ) by {
        let a0 = if a < p { a } else { a - 1 };
        let b0 = if b < p { b } else { b - 1 };
        if a == p {
            assert(order[b] == o[b0]);
        } else if b == p {
            assert(order[a] == o[a0]);
        } else {
            assert(order[a] == o[a0]);
            assert(order[b] == o[b0]);
            assert(goes_before(keys.drop_last(), o[a0], o[b0]));
        }
    }
    assert(order.no_duplicates()) by {
        assert forall|a: int, b: int| 0 <= a < order.len() && 0 <= b < order.len() && a != b implies order[a]
            != order[b] by {
            if a < b {
                assert(goes_before(keys, order[a], order[b]));
            } else {
                assert(goes_before(keys, order[b], order[a]));
            }
        }
    }
}

/// Every row of keys has an order.
proof fn an_order(keys: Seq<int>) -> (order: Seq<int>)
    ensures
        is_order(order, keys),
    decreases keys.len(),
{
    if keys.len() == 0 {
        Seq::empty()
    } else {
        let o = an_order(keys.drop_last());
        let p = insertion_place(o, keys);
        lemma_insert_order(o, keys, p);
        o.insert(p, keys.len() - 1)
    }
}

/// The row after the first `m` entries of `order` got one more cell.
pub open spec fn one_more(sh: Seq<int>, order: Seq<int>, m: int) -> Seq<int> {
    Seq::new(
        sh.len(),
        |i: int|
            sh[i] + if order.take(m).contains(i) {
                1int
            } else {
                0int
            },
    )
}

proof fn lemma_one_more_step(sh: Seq<int>, keys: Seq<int>, order: Seq<int>, m: int)
    requires
        is_order(order, keys),
        sh.len() == keys.len(),
        0 <= m < order.len(),
    ensures
        one_more(sh, order, m)[order[m]] == sh[order[m]],
        one_more(sh, order, m + 1) == one_more(sh, order, m).update(order[m], sh[order[m]] + 1),
        total(one_more(sh, order, m + 1)) == total(one_more(sh, order, m)) + 1,
{
    let a = order.take(m);
    let b = order.take(m + 1);
    assert(b =~= a.push(order[m]));
    assert(!a.contains(order[m])) by {
        if a.contains(order[m]) {
            let p = choose|p: int| 0 <= p < a.len() && a[p] == order[m];
            assert(order[p] == order[m]);
        }
    }
    assert forall|i: int| 0 <= i < sh.len() implies b.contains(i) == (a.contains(i) || i == order[m]) by {
        if b.contains(i) {
            let p = choose|p: int| 0 <= p < b.len() && b[p] == i;
            if p < m {
                assert(a[p] == i);
            }
        }
        if a.contains(i) {
            let p = choose|p: int| 0 <= p < a.len() && a[p] == i;
            assert(b[p] == i);
        }
        if i == order[m] {
            assert(b[m] == i);
        }
    }
    assert(one_more(sh, order, m + 1) =~= one_more(sh, order, m).update(order[m], sh[order[m]] + 1));
    lemma_total_update(one_more(sh, order, m), order[m], sh[order[m]] + 1);
}

proof fn lemma_one_more_total(sh: Seq<int>, keys: Seq<int>, order: Seq<int>, m: int)
    requires
        is_order(order, keys),
        sh.len() == keys.len(),
        0 <= m <= order.len(),
    ensures
        total(one_more(sh, order, m)) == total(sh) + m,
    decreases m,
{
    if m == 0 {
        assert(one_more(sh, order, 0) =~= sh);
    } else {
        lemma_one_more_total(sh, keys, order, m - 1);
        lemma_one_more_step(sh, keys, order, m - 1);
    }
}

/// Handing one cell each to the first `left` of an order is what `fitted`
/// says of the entries with fewer than `left` ahead of them.
proof fn lemma_one_more_fitted(sh: Seq<int>, keys: Seq<int>, order: Seq<int>, left: int)
    requires
        is_order(order, keys),
        sh.len() == keys.len(),
        0 <= left <= order.len(),
    ensures
        one_more(sh, order, left) == Seq::new(
            sh.len(),
            |i: int|
                sh[i] + if ahead(keys, i).len() < left {
                    1int
                } else {
                    0int
                },
        ),
{
    assert forall|i: int| 0 <= i < sh.len() implies order.take(left).contains(i) == (ahead(keys, i).len() < left) by {
        assert(order.contains(i));
        let p = choose|p: int| 0 <= p < order.len() && order[p] == i;
        lemma_ahead_is_prefix(order, keys, p);
        if p < left {
            assert(order.take(left)[p] == i);
        }
        if order.take(left).contains(i) {
            let q = choose|q: int| 0 <= q < left && order.take(left)[q] == i;
            assert(order[q] == order[p]);
        }
    }
    assert(one_more(sh, order, left) =~= Seq::new(
        sh.len(),
        |i: int|
            sh[i] + if ahead(keys, i).len() < left {
                1int
            } else {
                0int
            },
    ));
}

/// The row after the first `m` entries of `order` gave up what they must.
pub open spec fn lowered(sh: Seq<int>, order: Seq<int>, over: int, m: int) -> Seq<int> {
    Seq::new(
        sh.len(),
        |i: int|
            sh[i] - if order.take(m).contains(i) {
                given_up(sh, over, i)
            } else {
                0int
            },
    )
}

/// The cells still to go after the first `m` entries of `order` gave theirs.
pub open spec fn still_over(sh: Seq<int>, order: Seq<int>, over: int, m: int) -> int {
    clamp(over - sum_in(order.take(m).to_set(), spare(sh), sh.len()), 0, over)
}

proof fn lemma_lowered_step(sh: Seq<int>, order: Seq<int>, over: int, m: int)
    requires
        is_order(order, sh),
        forall|i: int| 0 <= i < sh.len() ==> 1 <= #[trigger] sh[i],
        over >= 0,
        0 <= m < order.len(),
    ensures
        ({
            let i = order[m];
            let can = clamp(still_over(sh, order, over, m), 0, sh[i] - 1);
            &&& lowered(sh, order, over, m)[i] == sh[i]
            &&& given_up(sh, over, i) == can
            &&& lowered(sh, order, over, m + 1) == lowered(sh, order, over, m).update(i, sh[i] - can)
            &&& still_over(sh, order, over, m + 1) == still_over(sh, order, over, m) - can
        }),
{
    let i = order[m];
    let a = order.take(m);
    let b = order.take(m + 1);
    lemma_ahead_is_prefix(order, sh, m);
    lemma_prefix_sum(order, sh, spare(sh), m);
    lemma_sum_in_nonneg(a.to_set(), spare(sh), sh.len());
    assert(b =~= a.push(i));
    assert(!a.contains(i)) by {
        if a.contains(i) {
            let p = choose|p: int| 0 <= p < a.len() && a[p] == i;
            assert(order[p] == order[m]);
        }
    }
    assert forall|k: int| 0 <= k < sh.len() implies b.contains(k) == (a.contains(k) || k == i) by {
        if b.contains(k) {
            let p = choose|p: int| 0 <= p < b.len() && b[p] == k;
            if p < m {
                assert(a[p] == k);
            }
        }
        if a.contains(k) {
            let p = choose|p: int| 0 <= p < a.len() && a[p] == k;
            assert(b[p] == k);
        }
        if k == i {
            assert(b[m] == k);
        }
    }
    let can = clamp(still_over(sh, order, over, m), 0, sh[i] - 1);
    assert(given_up(sh, over, i) == can);
    assert(lowered(sh, order, over, m + 1) =~= lowered(sh, order, over, m).update(i, sh[i] - can));
}

proof fn lemma_sum_in_nonneg(set: Set<int>, vals: Seq<int>, k: nat)
    requires
        k <= vals.len(),
        forall|i: int| 0 <= i < vals.len() ==> 0 <= #[trigger] vals[i],
    ensures
        sum_in(set, vals, k) >= 0,
    decreases k,
{
    if k > 0 {
        lemma_sum_in_nonneg(set, vals, (k - 1) as nat);
    }
}

proof fn lemma_lowered_start(sh: Seq<int>, order: Seq<int>, over: int)
    requires
        over >= 0,
    ensures
        lowered(sh, order, over, 0) == sh,
        still_over(sh, order, over, 0) == over,
{
    assert(lowered(sh, order, over, 0) =~= sh);
    assert(order.take(0).to_set() =~= Set::<int>::empty());
    lemma_sum_in_empty(spare(sh), sh.len());
}

proof fn lemma_lowered_total(sh: Seq<int>, order: Seq<int>, over: int, m: int)
    requires
        is_order(order, sh),
        forall|i: int| 0 <= i < sh.len() ==> 1 <= #[trigger] sh[i],
        over >= 0,
        0 <= m <= order.len(),
    ensures
        total(lowered(sh, order, over, m)) == total(sh) - over + still_over(sh, order, over, m),
    decreases m,
{
    if m == 0 {
        lemma_lowered_start(sh, order, over);
    } else {
        lemma_lowered_total(sh, order, over, m - 1);
        lemma_lowered_step(sh, order, over, m - 1);
        let i = order[m - 1];
        lemma_total_update(lowered(sh, order, over, m - 1), i, lowered(sh, order, over, m)[i]);
    }
}

/// The end of the walk: every entry gave what `fitted` says, and with enough
/// to give nothing is left over.
proof fn lemma_lowered_end(sh: Seq<int>, order: Seq<int>, over: int)
    requires
        is_order(order, sh),
        forall|i: int| 0 <= i < sh.len() ==> 1 <= #[trigger] sh[i],
        0 <= over <= total(sh) - sh.len(),
    ensures
        lowered(sh, order, over, order.len() as int) == Seq::new(sh.len(), |i: int| sh[i] - given_up(sh, over, i)),
        still_over(sh, order, over, order.len() as int) == 0,
{
    let n = order.len() as int;
    assert(order.take(n) =~= order);
    assert(lowered(sh, order, over, n) =~= Seq::new(sh.len(), |i: int| sh[i] - given_up(sh, over, i)));
    assert forall|j: int| 0 <= j < sh.len() implies order.to_set().contains(j) by {
        assert(order.contains(j));
    }
    lemma_sum_in_all(order.to_set(), spare(sh), sh.len());
    assert(spare(sh).take(sh.len() as int) =~= spare(sh));
    lemma_total_shift(sh, -1);
    assert(spare(sh) =~= Seq::new(sh.len(), |i: int| sh[i] + -1));
}

/// The cells of a fitted row add up to what there is.
pub proof fn lemma_fitted_total(s: Seq<int>, avail: int)
    requires
        s.len() > 0,
        avail >= 0,
        forall|i: int| 0 <= i < s.len() ==> 0 <= #[trigger] s[i],
    ensures
        total(fitted(s, avail)) == avail,
        fitted(s, avail).len() == s.len(),
{
    let n = s.len() as int;
    if total(s) == avail && (avail < n || forall|i: int| 0 <= i < n ==> s[i] >= 1) {
    } else if avail < n {
        lemma_ones_total(n, avail, n);
        assert(fitted(s, avail) =~= ones(n, avail));
        assert(ones(n, avail).take(n) =~= ones(n, avail));
    } else {
        lemma_shares(s, avail);
        let sh = shares(s, avail);
        if total(sh) <= avail {
            let keys = dropped(s, avail);
            let order = an_order(keys);
            lemma_one_more_total(sh, keys, order, avail - total(sh));
            lemma_one_more_fitted(sh, keys, order, avail - total(sh));
        } else {
            let order = an_order(sh);
            let over = total(sh) - avail;
            assert forall|i: int| 0 <= i < sh.len() implies 1 <= #[trigger] sh[i] by {
                assert(0 <= weight(s, i));
            }
            lemma_lowered_total(sh, order, over, order.len() as int);
            lemma_lowered_end(sh, order, over);
        }
    }
}

/// Every entry of a fitted row has a cell where there are enough cells, and
/// none is negative or more than there is.
pub proof fn lemma_fitted_entries(s: Seq<int>, avail: int)
    requires
        avail >= 0,
        forall|i: int| 0 <= i < s.len() ==> 0 <= #[trigger] s[i],
    ensures
        fitted(s, avail).len() == s.len(),
        forall|i: int| 0 <= i < s.len() ==> 0 <= #[trigger] fitted(s, avail)[i] <= avail,
        s.len() <= avail ==> forall|i: int| 0 <= i < s.len() ==> 1 <= #[trigger] fitted(s, avail)[i],
{
    if s.len() > 0 {
        let f = fitted(s, avail);
        assert forall|i: int| 0 <= i < s.len() implies 0 <= #[trigger] f[i] && (s.len() <= avail ==> 1 <= f[i]) by {
            if s.len() <= avail {
                lemma_shares(s, avail);
                assert(0 <= weight(s, i));
            }
        }
        lemma_fitted_total(s, avail);
        assert forall|i: int| 0 <= i < s.len() implies #[trigger] f[i] <= avail by {
            lemma_total_part(f, i);
        }
    }
}

/// A row that is scaled keeps its proportions: where every entry's share is a
/// cell or more, it gets its share rounded down, or one cell more.
pub proof fn lemma_fit_in_proportion(s: Seq<int>, avail: int)
    requires
        s.len() > 0,
        s.len() <= avail,
        total(s) > 0,
        forall|i: int| 0 <= i < s.len() ==> 0 <= #[trigger] s[i] && s[i] * avail >= total(s),
    ensures
        forall|i: int|
            0 <= i < s.len() ==> (s[i] * avail) / total(s) <= #[trigger] fitted(s, avail)[i] <= (s[i] * avail) / total(s) + 1,
{
    let w = total(s);
    let sh = shares(s, avail);
    lemma_shares(s, avail);
    assert forall|i: int| 0 <= i < s.len() implies #[trigger] sh[i] == (s[i] * avail) / w && sh[i] >= 1 by {
        assert(weight(s, i) == s[i]);
        lemma_div_is_ordered(w, s[i] * avail, w);
        assert(w / w == 1) by (nonlinear_arith)
            requires
                w > 0,
        ;
    }
    lemma_floor_total(s, avail, w, s.len() as int);
    let fl = Seq::new(s.len(), |i: int| (s[i] * avail) / w);
    assert(fl.take(s.len() as int) =~= fl);
    assert(s.take(s.len() as int) =~= s);
    assert(sh =~= fl);
    if total(s) == avail {
        assert forall|i: int| 0 <= i < s.len() implies (s[i] * avail) / w == #[trigger] s[i] by {
            lemma_div_multiples_vanish(s[i], w);
            assert(s[i] * w == w * s[i]) by (nonlinear_arith);
        }
    }
}

/// A row of equal entries is shared out evenly: what cannot be is given to the
/// first, one cell each.
pub proof fn lemma_fit_even(n: nat, each: int, avail: int)
    requires
        0 < n <= avail,
        each >= 1,
    ensures
        fitted(Seq::new(n, |k: int| each), avail) =~= Seq::new(
            n,
            |i: int|
                avail / n as int + if i < avail % n as int {
                    1int
                } else {
                    0int
                },
        ),
{
    let s = Seq::new(n, |k: int| each);
    let m = n as int;
    let q = avail / m;
    lemma_total_bounds(s, each, each);
    assert(total(s) == m * each);
    assert(m * each > 0) by (nonlinear_arith)
        requires
            m > 0,
            each >= 1,
    ;
    let sh = shares(s, avail);
    let keys = dropped(s, avail);
    assert(q >= 1 && q * m + avail % m == avail && 0 <= avail % m < m) by (nonlinear_arith)
        requires
            q == avail / m,
            0 < m <= avail,
    ;
    assert forall|i: int| 0 <= i < n implies #[trigger] floor_share(s, avail, i) == q by {
        assert((each * avail) / (m * each) == avail / m) by (nonlinear_arith)
            requires
                each >= 1,
                m > 0,
                avail > 0,
        ;
    }
    assert forall|i: int, j: int| 0 <= i < n && 0 <= j < n implies #[trigger] keys[i] == #[trigger] keys[j] by {}
    lemma_total_bounds(sh, q, q);
    assert(m * q == q * m) by (nonlinear_arith);
    if total(s) == avail {
        assert(avail / m == each && avail % m == 0) by (nonlinear_arith)
            requires
                avail == m * each,
                m > 0,
        ;
    } else {
        assert forall|i: int| 0 <= i < n implies #[trigger] ahead(keys, i).len() == i by {
            assert(ahead(keys, i) =~= Set::range(0, i));
        }
    }
}

/// With fewer cells than entries the first entries have one each.
pub proof fn lemma_fit_few(s: Seq<int>, avail: int)
    requires
        0 <= avail < s.len(),
        total(s) != avail,
    ensures
        fitted(s, avail).len() == s.len(),
        forall|i: int| 0 <= i < avail ==> #[trigger] fitted(s, avail)[i] == 1,
        forall|i: int| avail <= i < s.len() ==> #[trigger] fitted(s, avail)[i] == 0,
{
}

proof fn lemma_ahead_grows(keys: Seq<int>, j: int, i: int)
    requires
        0 <= j < keys.len(),
        0 <= i < keys.len(),
        goes_before(keys, j, i),
    ensures
        ahead(keys, j).len() < ahead(keys, i).len(),
{
    let (a, b) = (ahead(keys, j), ahead(keys, i));
    assert(a.insert(j).subset_of(b));
    assert(!a.contains(j));
    vstd::set_lib::lemma_len_subset(a.insert(j), b);
}

/// The cells that rounding left over go to the entries that lost the most by
/// it, the earlier first on a tie.
pub proof fn lemma_largest_remainder(s: Seq<int>, avail: int, i: int, j: int)
    requires
        s.len() <= avail,
        total(s) > 0,
        total(s) != avail,
        forall|k: int| 0 <= k < s.len() ==> 0 <= #[trigger] s[k] && s[k] * avail >= total(s),
        0 <= i < s.len(),
        0 <= j < s.len(),
        fitted(s, avail)[i] == (s[i] * avail) / total(s) + 1,
        fitted(s, avail)[j] == (s[j] * avail) / total(s),
    ensures
        (s[i] * avail) % total(s) >= (s[j] * avail) % total(s),
        (s[i] * avail) % total(s) == (s[j] * avail) % total(s) ==> i < j,
{
    let w = total(s);
    let sh = shares(s, avail);
    let keys = dropped(s, avail);
    lemma_shares(s, avail);
    assert forall|k: int| 0 <= k < s.len() implies #[trigger] sh[k] == (s[k] * avail) / w && sh[k] >= 1 && keys[k] == (s[k]
        * avail) % w by {
        assert(weight(s, k) == s[k]);
        lemma_div_is_ordered(w, s[k] * avail, w);
        assert(w / w == 1) by (nonlinear_arith)
            requires
                w > 0,
        ;
    }
    lemma_floor_total(s, avail, w, s.len() as int);
    let fl = Seq::new(s.len(), |k: int| (s[k] * avail) / w);
    assert(fl.take(s.len() as int) =~= fl);
    assert(s.take(s.len() as int) =~= s);
    assert(sh =~= fl);
    assert(sh[i] == (s[i] * avail) / w && sh[j] == (s[j] * avail) / w);
    if goes_before(keys, j, i) {
        lemma_ahead_grows(keys, j, i);
    }
}

proof fn lemma_sum_more(a: Set<int>, b: Set<int>, j: int, vals: Seq<int>, k: nat)
    requires
        k <= vals.len(),
        a.insert(j).subset_of(b),
        !a.contains(j),
        0 <= j < vals.len(),
        forall|i: int| 0 <= i < vals.len() ==> #[trigger] vals[i] >= 0,
    ensures
        sum_in(b, vals, k) >= sum_in(a, vals, k) + if j < k {
            vals[j]
        } else {
            0
        },
    decreases k,
{
    if k > 0 {
        lemma_sum_more(a, b, j, vals, (k - 1) as nat);
        assert(vals[k - 1] >= 0);
        if a.contains(k - 1) {
            assert(a.insert(j).contains(k - 1));
        }
        assert(a.insert(j).contains(j));
    }
}

/// Where the entries have too much, the biggest give first: one that gives
/// anything up leaves no bigger one with more than a cell.
pub proof fn lemma_biggest_give_first(sh: Seq<int>, over: int, j: int, i: int)
    requires
        forall|k: int| 0 <= k < sh.len() ==> #[trigger] sh[k] >= 1,
        0 <= i < sh.len(),
        0 <= j < sh.len(),
        sh[j] > sh[i] || sh[j] == sh[i] && j < i,
        given_up(sh, over, i) > 0,
    ensures
        given_up(sh, over, j) == sh[j] - 1,
{
    let vals = spare(sh);
    assert forall|k: int| 0 <= k < vals.len() implies #[trigger] vals[k] >= 0 by {
        assert(sh[k] >= 1);
    }
    let (a, b) = (ahead(sh, j), ahead(sh, i));
    assert(a.insert(j).subset_of(b));
    assert(!a.contains(j));
    lemma_sum_more(a, b, j, vals, sh.len());
}

/// `k` ones, then zeros.
spec fn ones(n: int, k: int) -> Seq<int> {
    Seq::new(
        n as nat,
        |i: int|
            if i < k {
                1
            } else {
                0
            },
    )
}

proof fn lemma_ones_total(n: int, k: int, m: int)
    requires
        0 <= k <= n,
        0 <= m <= n,
    ensures
        total(ones(n, k).take(m)) == if m < k {
            m
        } else {
            k
        },
    decreases m,
{
    if m == 0 {
        assert(ones(n, k).take(0) =~= Seq::<int>::empty());
    } else {
        lemma_ones_total(n, k, m - 1);
        lemma_total_take(ones(n, k), m - 1);
    }
}


/// The numbers of a row of cells.
pub open spec fn ints(v: Seq<u16>) -> Seq<int> {
    Seq::new(v.len(), |i: int| v[i] as int)
}

spec fn key_ints(v: Seq<u32>) -> Seq<int> {
    Seq::new(v.len(), |i: int| v[i] as int)
}

spec fn places(v: Seq<usize>) -> Seq<int> {
    Seq::new(v.len(), |i: int| v[i] as int)
}

/// The entries of `keys`, the one that goes first at the front.
fn order_of(keys: &Vec<u32>) -> (order: Vec<usize>)
    ensures
        is_order(places(order@), key_ints(keys@)),
{
    let mut order: Vec<usize> = Vec::new();
    let mut x: usize = 0;
    while x < keys.len()
        invariant
            x <= keys@.len(),
            is_order(places(order@), key_ints(keys@).take(x as int)),
        decreases keys.len() - x,
    {
        let ghost all = key_ints(keys@).take(x + 1);
        assert(all.drop_last() =~= key_ints(keys@).take(x as int));
        let mut p: usize = order.len();
        assert forall|m: int| 0 <= m < order@.len() implies #[trigger] order@[m] < x by {
            assert(places(order@)[m] == order@[m]);
        }
        while p > 0 && keys[order[p - 1]] < keys[x]
            invariant
                p <= order@.len(),
                x < keys@.len(),
                all == key_ints(keys@).take(x + 1),
                all.drop_last() == key_ints(keys@).take(x as int),
                is_order(places(order@), all.drop_last()),
                forall|m: int| 0 <= m < order@.len() ==> #[trigger] order@[m] < x,
                forall|m: int| p <= m < order@.len() ==> goes_before(all, x as int, #[trigger] places(order@)[m]),
            decreases p,
        {
            p = p - 1;
        }
        proof {
            let o = places(order@);
            assert forall|m: int| 0 <= m < p implies goes_before(all, #[trigger] o[m], x as int) by {
                if m < p - 1 {
                    assert(goes_before(all.drop_last(), o[m], o[p - 1]));
                }
            }
            lemma_insert_order(o, all, p as int);
            assert(places(order@.insert(p as int, x)) =~= o.insert(p as int, x as int));
        }
        order.insert(p, x);
        x = x + 1;
    }
    assert(key_ints(keys@).take(x as int) =~= key_ints(keys@));
    order
}

/// The sum of a row of cells.
pub fn total_of(sizes: &Vec<u16>) -> (sum: u32)
    requires
        sizes@.len() <= u16::MAX,
    ensures
        sum == total(ints(sizes@)),
        sum <= sizes@.len() * u16::MAX,
{
    let mut sum: u32 = 0;
    let mut i: usize = 0;
    while i < sizes.len()
        invariant
            i <= sizes@.len() <= u16::MAX,
            sum == total(ints(sizes@).take(i as int)),
            sum <= i * u16::MAX,
        decreases sizes.len() - i,
    {
        proof {
            lemma_total_take(ints(sizes@), i as int);
        }
        assert((i + 1) * u16::MAX == i * u16::MAX + u16::MAX) by (nonlinear_arith);
        sum = sum + sizes[i] as u32;
        i = i + 1;
    }
    assert(ints(sizes@).take(i as int) =~= ints(sizes@));
    sum
}

/// Scale `sizes` so they sum to `avail`, keeping every entry >= 1 where possible.
pub fn fit_sizes(sizes: &mut Vec<u16>, avail: u16)
    requires
        old(sizes)@.len() <= u16::MAX,
    ensures
        ints(final(sizes)@) == fitted(ints(old(sizes)@), avail as int),
        final(sizes)@.len() == old(sizes)@.len(),
{
    let n: usize = sizes.len();
    if n == 0 {
        return;
    }
    let ghost s = ints(sizes@);
    let sum: u32 = total_of(sizes);
    let mut all_shown: bool = true;
    let mut i: usize = 0;
    while i < n
        invariant
            i <= n == sizes@.len(),
            all_shown == forall|j: int| 0 <= j < i ==> sizes@[j] >= 1,
        decreases n - i,
    {
        if sizes[i] == 0 {
            all_shown = false;
        }
        i = i + 1;
    }
    assert(all_shown == forall|j: int| 0 <= j < n ==> s[j] >= 1) by {
        if all_shown {
            assert(forall|j: int| 0 <= j < n ==> s[j] >= 1);
        } else {
            let j = choose|j: int| 0 <= j < n && sizes@[j] < 1;
            assert(s[j] < 1);
        }
    }
    if sum == avail as u32 && ((avail as usize) < n || all_shown) {
        return;
    }
    if (avail as usize) < n {
        // Not enough room for everyone; give what we can from the left.
        let mut left: u16 = avail;
        let mut i: usize = 0;
        while i < n
            invariant
                i <= n == sizes@.len(),
                avail < n,
                left == if i < avail {
                    avail - i
                } else {
                    0
                },
                forall|j: int| 0 <= j < i ==> #[trigger] sizes@[j] == if j < avail {
                    1int
                } else {
                    0int
                },
            decreases n - i,
        {
            let one: u16 = if left > 0 { 1 } else { 0 };
            sizes[i] = one;
            left = left - one;
            i = i + 1;
        }
        assert(ints(sizes@) =~= fitted(s, avail as int));
        return;
    }
    share_out(sizes, avail, sum);
}

/// The part of `fit_sizes` with a cell for every entry.
fn share_out(sizes: &mut Vec<u16>, avail: u16, sum: u32)
    requires
        0 < old(sizes)@.len() <= avail,
        sum == total(ints(old(sizes)@)),
        !(sum == avail && forall|i: int| 0 <= i < old(sizes)@.len() ==> ints(old(sizes)@)[i] >= 1),
    ensures
        ints(final(sizes)@) == fitted(ints(old(sizes)@), avail as int),
        final(sizes)@.len() == old(sizes)@.len(),
{
    let n: usize = sizes.len();
    let ghost s = ints(sizes@);
    let ghost sh = shares(s, avail as int);
    let ghost keys = dropped(s, avail as int);
    proof {
        lemma_shares(s, avail as int);
    }
    let whole: u32 = if sum == 0 { n as u32 } else { sum };
    let mut acc: u32 = 0;
    // What rounding down dropped from each entry, and the entries themselves.
    let mut lost: Vec<u32> = Vec::new();
    let mut big: Vec<u32> = Vec::new();
    let mut i: usize = 0;
    while i < n
        invariant
            i <= n == sizes@.len(),
            n <= avail,
            s.len() == n,
            sh == shares(s, avail as int),
            keys == dropped(s, avail as int),
            sum == total(s),
            whole == weights(s),
            whole > 0,
            forall|j: int| 0 <= j < n ==> 0 <= #[trigger] s[j],
            lost@.len() == i,
            big@.len() == i,
            forall|j: int| 0 <= j < i ==> #[trigger] sizes@[j] == sh[j],
            forall|j: int| 0 <= j < i ==> #[trigger] big@[j] == sh[j],
            forall|j: int| i <= j < n ==> #[trigger] sizes@[j] == s[j],
            forall|j: int| 0 <= j < i ==> #[trigger] lost@[j] == keys[j],
            acc == total(sh.take(i as int)),
            acc <= i * avail,
        decreases n - i,
    {
        let w: u32 = if sum == 0 { 1 } else { sizes[i] as u32 };
        proof {
            lemma_shares(s, avail as int);
            assert(0 <= weight(s, i as int));
            assert(w == weight(s, i as int));
            assert(w * avail <= 65535 * 65535) by (nonlinear_arith)
                requires
                    0 <= w <= 65535,
                    0 <= avail <= 65535,
            ;
            lemma_total_take(sh, i as int);
            assert((i + 1) * avail == i * avail + avail) by (nonlinear_arith);
            assert((i + 1) * avail <= 65535 * 65535) by (nonlinear_arith)
                requires
                    0 <= i + 1 <= 65535,
                    0 <= avail <= 65535,
            ;
        }
        let exact: u32 = w * (avail as u32);
        let floor: u32 = exact / whole;
        let v: u32 = if floor == 0 { 1 } else { floor };
        let d: u32 = if floor == 0 { 0 } else { exact % whole };
        assert(floor == floor_share(s, avail as int, i as int));
        assert(v == sh[i as int] && v <= avail);
        lost.push(d);
        big.push(v);
        sizes[i] = v as u16;
        assert(sizes@[i as int] == sh[i as int] && big@[i as int] == sh[i as int]);
        acc = acc + v;
        i = i + 1;
    }
    assert(sh.take(n as int) =~= sh);
    assert(ints(sizes@) =~= sh);
    assert(key_ints(lost@) =~= keys);
    assert(key_ints(big@) =~= sh);
    if acc <= avail as u32 {
        // The cells rounding left over go one each to the entries that lost
        // the most, the earlier first on a tie: 158 columns in three are
        // 53/53/52, not 52/52/54. Fewer cells are left over than there are
        // entries.
        let order = order_of(&lost);
        let left: usize = (avail as u32 - acc) as usize;
        let ghost ord = places(order@);
        assert(one_more(sh, ord, 0) =~= sh);
        let mut m: usize = 0;
        while m < left
            invariant
                m <= left < n == sizes@.len(),
                left == avail - total(sh),
                sh.len() == n == keys.len(),
                is_order(ord, keys),
                ord == places(order@),
                forall|j: int| 0 <= j < n ==> 1 <= #[trigger] sh[j] <= avail,
                ints(sizes@) == one_more(sh, ord, m as int),
            decreases left - m,
        {
            proof {
                lemma_one_more_step(sh, keys, ord, m as int);
                lemma_one_more_total(sh, keys, ord, m as int);
                lemma_total_part(one_more(sh, ord, m as int), ord[m as int]);
            }
            let at: usize = order[m];
            assert(sizes@[at as int] as int == ints(sizes@)[at as int]);
            let ghost before = sizes@;
            sizes[at] = sizes[at] + 1;
            assert(ints(sizes@) =~= ints(before).update(at as int, before[at as int] + 1));
            m = m + 1;
        }
        proof {
            lemma_one_more_fitted(sh, keys, ord, left as int);
            assert(ints(sizes@) =~= fitted(s, avail as int));
        }
    } else {
        // Take from entries larger than 1, biggest first.
        let order = order_of(&big);
        let ghost ord = places(order@);
        let ghost excess = total(sh) - avail;
        let mut over: u32 = acc - avail as u32;
        proof {
            lemma_lowered_start(sh, ord, excess);
        }
        let mut m: usize = 0;
        while m < n
            invariant
                m <= n == sizes@.len(),
                sh.len() == n,
                is_order(ord, sh),
                ord == places(order@),
                forall|j: int| 0 <= j < n ==> 1 <= #[trigger] sh[j] <= avail,
                excess >= 0,
                ints(sizes@) == lowered(sh, ord, excess, m as int),
                over == still_over(sh, ord, excess, m as int),
            decreases n - m,
        {
            proof {
                lemma_lowered_step(sh, ord, excess, m as int);
            }
            let at: usize = order[m];
            assert(sizes@[at as int] as int == ints(sizes@)[at as int]);
            let can: u16 = if (sizes[at] - 1) as u32 <= over { sizes[at] - 1 } else { over as u16 };
            let ghost before = sizes@;
            sizes[at] = sizes[at] - can;
            assert(ints(sizes@) =~= ints(before).update(at as int, before[at as int] - can));
            over = over - can as u32;
            m = m + 1;
        }
        proof {
            lemma_lowered_end(sh, ord, excess);
            assert(ints(sizes@) =~= fitted(s, avail as int));
        }
    }
}

} // verus!
