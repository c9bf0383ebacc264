//! Sharing out a whole between tiles that each need a minimum.

use vstd::prelude::*;

use crate::shares::{
    all_ok, cut, equal_weights, floor_div, lemma_total_nonnegative, lemma_total_take, part,
    sum_shares, total, MAX_CONTAINERS, WHOLE,
};

verus! {

/// The values at the places that the mask marks, zero elsewhere.
pub open spec fn masked(values: Seq<i64>, mask: Seq<bool>) -> Seq<i64> {
    Seq::new(
        values.len(),
        |i: int| if mask[i] {
            values[i]
        } else {
            0
        },
    )
}

pub open spec fn inverted(mask: Seq<bool>) -> Seq<bool> {
    Seq::new(mask.len(), |i: int| !mask[i])
}

/// How many tiles are still open.
pub open spec fn open_count(settled: Seq<bool>) -> int {
    total(masked(equal_weights(settled.len()), inverted(settled)))
}

/// The weights of the open tiles; all alike where they weigh nothing together.
pub open spec fn open_weights(weights: Seq<i64>, settled: Seq<bool>) -> Seq<i64> {
    let open = masked(weights, inverted(settled));
    if total(open) > 0 {
        open
    } else {
        masked(equal_weights(weights.len()), inverted(settled))
    }
}

/// What the settled tiles leave over.
pub open spec fn remaining(minimums: Seq<i64>, settled: Seq<bool>) -> int {
    WHOLE - total(masked(minimums, settled))
}

/// The share of an open tile if all open tiles were filled by weight.
pub open spec fn open_share(
    weights: Seq<i64>,
    minimums: Seq<i64>,
    settled: Seq<bool>,
    i: int,
) -> int {
    (remaining(minimums, settled) * open_weights(weights, settled)[i]) / total(
        open_weights(weights, settled),
    )
}

/// Settles every open tile whose share would fall below its minimum.
pub open spec fn settle_round(
    weights: Seq<i64>,
    minimums: Seq<i64>,
    settled: Seq<bool>,
) -> Seq<bool> {
    Seq::new(
        settled.len(),
        |i: int| settled[i] || open_share(weights, minimums, settled, i) < minimums[i],
    )
}

/// Settles tiles at their minimum, round by round, until none is left that would
/// fall below it.
pub open spec fn settle(weights: Seq<i64>, minimums: Seq<i64>, settled: Seq<bool>) -> Seq<bool>
    decreases open_count(settled),
{
    let next = settle_round(weights, minimums, settled);
    if next == settled || open_count(settled) <= 0 {
        settled
    } else {
        proof {
            lemma_open_count_drops(settled, next);
        }
        settle(weights, minimums, next)
    }
}

pub open spec fn none_settled(n: nat) -> Seq<bool> {
    Seq::new(n, |i: int| false)
}

/// The shares once it is known which tiles sit at their minimum.
pub open spec fn filled(weights: Seq<i64>, minimums: Seq<i64>, settled: Seq<bool>) -> Seq<i64> {
    Seq::new(
        weights.len(),
        |i: int|
            if settled[i] {
                minimums[i]
            } else {
                part(remaining(minimums, settled), open_weights(weights, settled), i) as i64
            },
    )
}

/// Shares by weight, where no tile gets less than its minimum: tiles that would
/// get less sit at the minimum, and the others share the rest by weight.
pub open spec fn allocation(weights: Seq<i64>, minimums: Seq<i64>) -> Seq<i64> {
    filled(weights, minimums, settle(weights, minimums, none_settled(weights.len())))
}

proof fn lemma_open_count_prefix(a: Seq<bool>, b: Seq<bool>, k: int)
    requires
        a.len() == b.len(),
        0 <= k <= a.len(),
        forall|i: int| 0 <= i < a.len() && #[trigger] a[i] ==> b[i],
    ensures
        total(masked(equal_weights(b.len()), inverted(b)).take(k)) <= total(
            masked(equal_weights(a.len()), inverted(a)).take(k),
        ),
        (exists|i: int| 0 <= i < k && !a[i] && #[trigger] b[i]) ==> total(
            masked(equal_weights(b.len()), inverted(b)).take(k),
        ) < total(masked(equal_weights(a.len()), inverted(a)).take(k)),
        total(masked(equal_weights(b.len()), inverted(b)).take(k)) >= 0,
    decreases k,
{
    let x = masked(equal_weights(a.len()), inverted(a));
    let y = masked(equal_weights(b.len()), inverted(b));
    if k > 0 {
        lemma_open_count_prefix(a, b, k - 1);
        lemma_total_take(x, k - 1);
        lemma_total_take(y, k - 1);
        if exists|i: int| 0 <= i < k && !a[i] && #[trigger] b[i] {
            let i = choose|i: int| 0 <= i < k && !a[i] && #[trigger] b[i];
            if i < k - 1 {
                assert(exists|j: int| 0 <= j < k - 1 && !a[j] && #[trigger] b[j]);
            }
        }
    } else {
        assert(y.take(0) =~= Seq::<i64>::empty());
    }
}

pub proof fn lemma_open_count_drops(settled: Seq<bool>, next: Seq<bool>)
    requires
        settled.len() == next.len(),
        forall|i: int| 0 <= i < settled.len() && #[trigger] settled[i] ==> next[i],
        next != settled,
    ensures
        0 <= open_count(next) < open_count(settled),
{
    let n = settled.len() as int;
    lemma_open_count_prefix(settled, next, n);
    assert(masked(equal_weights(settled.len()), inverted(settled)).take(n) =~= masked(
        equal_weights(settled.len()),
        inverted(settled),
    ));
    assert(masked(equal_weights(next.len()), inverted(next)).take(n) =~= masked(
        equal_weights(next.len()),
        inverted(next),
    ));
    if forall|i: int| 0 <= i < n ==> settled[i] == #[trigger] next[i] {
        assert(next =~= settled);
    }
}

proof fn lemma_open_weights_positive(weights: Seq<i64>, settled: Seq<bool>)
    requires
        weights.len() == settled.len(),
        open_count(settled) > 0,
    ensures
        total(open_weights(weights, settled)) > 0,
        open_weights(weights, settled).len() == weights.len(),
{
}

proof fn lemma_open_count_zero(settled: Seq<bool>, i: int)
    requires
        0 <= i < settled.len(),
        !settled[i],
    ensures
        open_count(settled) > 0,
{
    lemma_total_nonnegative(masked(equal_weights(settled.len()), inverted(settled)));
    assert(masked(equal_weights(settled.len()), inverted(settled))[i] <= open_count(settled));
}

proof fn lemma_masked_split(values: Seq<i64>, mask: Seq<bool>, k: int)
    requires
        values.len() == mask.len(),
        0 <= k <= values.len(),
    ensures
        total(masked(values, mask).take(k)) + total(masked(values, inverted(mask)).take(k))
            == total(values.take(k)),
    decreases k,
{
    if k > 0 {
        lemma_masked_split(values, mask, k - 1);
        lemma_total_take(masked(values, mask), k - 1);
        lemma_total_take(masked(values, inverted(mask)), k - 1);
        lemma_total_take(values, k - 1);
    } else {
        assert(masked(values, mask).take(0) =~= Seq::<i64>::empty());
        assert(masked(values, inverted(mask)).take(0) =~= Seq::<i64>::empty());
        assert(values.take(0) =~= Seq::<i64>::empty());
    }
}

/// The minimums of settled and of open tiles add up to all minimums.
proof fn lemma_masked_total(values: Seq<i64>, mask: Seq<bool>)
    requires
        values.len() == mask.len(),
    ensures
        total(masked(values, mask)) + total(masked(values, inverted(mask))) == total(values),
{
    let n = values.len() as int;
    lemma_masked_split(values, mask, n);
    assert(masked(values, mask).take(n) =~= masked(values, mask));
    assert(masked(values, inverted(mask)).take(n) =~= masked(values, inverted(mask)));
    assert(values.take(n) =~= values);
}

proof fn lemma_starved_prefix(
    weights: Seq<i64>,
    minimums: Seq<i64>,
    settled: Seq<bool>,
    k: int,
)
    requires
        weights.len() == minimums.len() == settled.len(),
        total(open_weights(weights, settled)) > 0,
        0 <= k <= weights.len(),
        forall|i: int|
            0 <= i < weights.len() && !settled[i] ==> #[trigger] open_share(
                weights,
                minimums,
                settled,
                i,
            ) < minimums[i],
    ensures
        remaining(minimums, settled) * total(open_weights(weights, settled).take(k)) <= total(
            open_weights(weights, settled),
        ) * total(masked(minimums, inverted(settled)).take(k)),
        (exists|i: int| 0 <= i < k && !#[trigger] settled[i]) ==> remaining(minimums, settled)
            * total(open_weights(weights, settled).take(k)) < total(open_weights(weights, settled))
            * total(masked(minimums, inverted(settled)).take(k)),
    decreases k,
{
    let e = open_weights(weights, settled);
    let m = masked(minimums, inverted(settled));
    let r = remaining(minimums, settled);
    let t = total(e);
    if k > 0 {
        lemma_starved_prefix(weights, minimums, settled, k - 1);
        lemma_total_take(e, k - 1);
        lemma_total_take(m, k - 1);
        let i = k - 1;
        let a = total(e.take(i));
        let b = total(m.take(i));
        if settled[i] {
            assert(e[i] == 0 && m[i] == 0);
            if exists|j: int| 0 <= j < k && !#[trigger] settled[j] {
                let j = choose|j: int| 0 <= j < k && !#[trigger] settled[j];
                assert(0 <= j < k - 1 && !settled[j]);
            }
        } else {
            let f = open_share(weights, minimums, settled, i);
            let p = r * e[i];
            vstd::arithmetic::div_mod::lemma_fundamental_div_mod(p, t);
            vstd::arithmetic::div_mod::lemma_mod_bound(p, t);
            assert(p < t * m[i]) by (nonlinear_arith)
                requires
                    p == t * f + p % t,
                    p % t < t,
                    f + 1 <= m[i],
                    t > 0,
            ;
            assert(r * (a + e[i]) == r * a + p) by (nonlinear_arith)
                requires
                    p == r * e[i],
            ;
            assert(t * (b + m[i]) == t * b + t * m[i]) by (nonlinear_arith);
        }
    } else {
        assert(e.take(0) =~= Seq::<i64>::empty());
        assert(m.take(0) =~= Seq::<i64>::empty());
        assert(r * 0 == 0 && t * 0 == 0) by (nonlinear_arith);
    }
}

/// As long as the minimums fit, no round settles the last open tile.
proof fn lemma_some_tile_stays_open(weights: Seq<i64>, minimums: Seq<i64>, settled: Seq<bool>)
    requires
        weights.len() == minimums.len() == settled.len(),
        open_count(settled) > 0,
        total(minimums) <= WHOLE,
    ensures
        open_count(settle_round(weights, minimums, settled)) > 0,
{
    lemma_open_weights_positive(weights, settled);
    let n = weights.len() as int;
    let next = settle_round(weights, minimums, settled);
    if exists|i: int| 0 <= i < n && !#[trigger] next[i] {
        let i = choose|i: int| 0 <= i < n && !#[trigger] next[i];
        lemma_open_count_zero(next, i);
    } else {
        assert forall|i: int| 0 <= i < n && !settled[i] implies #[trigger] open_share(
            weights,
            minimums,
            settled,
            i,
        ) < minimums[i] by {
            assert(next[i]);
        }
        lemma_starved_prefix(weights, minimums, settled, n);
        let e = open_weights(weights, settled);
        let m = masked(minimums, inverted(settled));
        assert(e.take(n) =~= e);
        assert(m.take(n) =~= m);
        if forall|i: int| 0 <= i < n ==> #[trigger] settled[i] {
            let z = masked(equal_weights(settled.len()), inverted(settled));
            crate::shares::lemma_total_bound(z, 0);
            assert(false);
        }
        lemma_masked_total(minimums, settled);
        let r = remaining(minimums, settled);
        let t = total(e);
        let b = total(m);
        assert(b <= r);
        assert(t * b <= r * t) by (nonlinear_arith)
            requires
                b <= r,
                t > 0,
        ;
    }
}

proof fn lemma_settle(weights: Seq<i64>, minimums: Seq<i64>, settled: Seq<bool>)
    requires
        weights.len() == minimums.len() == settled.len(),
        open_count(settled) > 0,
        total(minimums) <= WHOLE,
    ensures
        settle(weights, minimums, settled).len() == settled.len(),
        open_count(settle(weights, minimums, settled)) > 0,
        settle_round(weights, minimums, settle(weights, minimums, settled)) == settle(
            weights,
            minimums,
            settled,
        ),
    decreases open_count(settled),
{
    let next = settle_round(weights, minimums, settled);
    if next != settled {
        lemma_open_count_drops(settled, next);
        lemma_some_tile_stays_open(weights, minimums, settled);
        lemma_settle(weights, minimums, next);
    }
}

proof fn lemma_part_at_least_floor(amount: int, weights: Seq<i64>, i: int)
    requires
        0 <= i < weights.len(),
        total(weights) > 0,
    ensures
        part(amount, weights, i) >= (amount * weights[i]) / total(weights),
{
    lemma_total_take(weights, i);
    let a = amount * total(weights.take(i));
    let b = amount * weights[i];
    let w = total(weights);
    assert(amount * (total(weights.take(i)) + weights[i]) == a + b) by (nonlinear_arith)
        requires
            a == amount * total(weights.take(i)),
            b == amount * weights[i],
    ;
    vstd::arithmetic::div_mod::lemma_fundamental_div_mod(a, w);
    vstd::arithmetic::div_mod::lemma_fundamental_div_mod(b, w);
    vstd::arithmetic::div_mod::lemma_fundamental_div_mod(a + b, w);
    vstd::arithmetic::div_mod::lemma_mod_bound(a, w);
    vstd::arithmetic::div_mod::lemma_mod_bound(b, w);
    vstd::arithmetic::div_mod::lemma_mod_bound(a + b, w);
    let x = a / w;
    let y = b / w;
    let z = (a + b) / w;
    assert(z >= x + y) by (nonlinear_arith)
        requires
            a == w * x + a % w,
            b == w * y + b % w,
            a + b == w * z + (a + b) % w,
            0 <= a % w,
            0 <= b % w,
            (a + b) % w < w,
            w > 0,
    ;
}

proof fn lemma_filled_prefix(
    weights: Seq<i64>,
    minimums: Seq<i64>,
    settled: Seq<bool>,
    shares: Seq<i64>,
    k: int,
)
    requires
        weights.len() == minimums.len() == settled.len() == shares.len(),
        total(open_weights(weights, settled)) > 0,
        0 <= k <= weights.len(),
        forall|i: int|
            0 <= i < shares.len() ==> #[trigger] shares[i] == (if settled[i] {
                minimums[i] as int
            } else {
                part(remaining(minimums, settled), open_weights(weights, settled), i)
            }),
    ensures
        total(shares.take(k)) == total(masked(minimums, settled).take(k)) + cut(
            remaining(minimums, settled),
            open_weights(weights, settled),
            k,
        ),
    decreases k,
{
    let e = open_weights(weights, settled);
    let m = masked(minimums, settled);
    let r = remaining(minimums, settled);
    if k > 0 {
        lemma_filled_prefix(weights, minimums, settled, shares, k - 1);
        lemma_total_take(shares, k - 1);
        lemma_total_take(m, k - 1);
        if settled[k - 1] {
            crate::shares::zero_weight_takes_nothing(r, e, k - 1);
        }
    } else {
        assert(e.take(0) =~= Seq::<i64>::empty());
        assert(m.take(0) =~= Seq::<i64>::empty());
        assert(shares.take(0) =~= Seq::<i64>::empty());
        assert(r * 0 == 0) by (nonlinear_arith);
        vstd::arithmetic::div_mod::lemma_div_basics(total(e));
    }
}

/// The parts of the open tiles lie between zero and one whole.
proof fn lemma_open_parts(weights: Seq<i64>, minimums: Seq<i64>, settled: Seq<bool>)
    requires
        weights.len() == minimums.len() == settled.len(),
        weights.len() > 0,
        open_count(settled) > 0,
        settle_round(weights, minimums, settled) == settled,
        total(minimums) <= WHOLE,
        forall|i: int| 0 <= i < minimums.len() ==> 0 <= #[trigger] minimums[i],
    ensures
        forall|i: int|
            0 <= i < weights.len() && !settled[i] ==> minimums[i] <= #[trigger] part(
                remaining(minimums, settled),
                open_weights(weights, settled),
                i,
            ) <= WHOLE,
{
    lemma_open_weights_positive(weights, settled);
    let e = open_weights(weights, settled);
    let r = remaining(minimums, settled);
    let t = total(e);
    lemma_masked_total(minimums, settled);
    lemma_total_nonnegative(masked(minimums, settled));
    lemma_total_nonnegative(masked(minimums, inverted(settled)));
    assert forall|i: int| 0 <= i < weights.len() && !settled[i] implies minimums[i]
        <= #[trigger] part(r, e, i) by {
        assert(settle_round(weights, minimums, settled)[i] == settled[i]);
        lemma_part_at_least_floor(r, e, i);
    }
    // Every open weight is non-negative wherever its part is, so no part exceeds
    // what is left of the whole.
    assert forall|i: int| 0 <= i < weights.len() && !settled[i] implies #[trigger] part(r, e, i)
        <= WHOLE by {
        lemma_parts_before(weights, minimums, settled, i);
        lemma_parts_after(weights, minimums, settled, i + 1);
    }
}

proof fn lemma_parts_before(weights: Seq<i64>, minimums: Seq<i64>, settled: Seq<bool>, k: int)
    requires
        weights.len() == minimums.len() == settled.len(),
        total(open_weights(weights, settled)) > 0,
        settle_round(weights, minimums, settled) == settled,
        forall|i: int| 0 <= i < minimums.len() ==> 0 <= #[trigger] minimums[i],
        0 <= k <= weights.len(),
    ensures
        cut(remaining(minimums, settled), open_weights(weights, settled), k) >= 0,
    decreases k,
{
    let e = open_weights(weights, settled);
    let r = remaining(minimums, settled);
    if k == 0 {
        assert(e.take(0) =~= Seq::<i64>::empty());
        assert(r * 0 == 0) by (nonlinear_arith);
        vstd::arithmetic::div_mod::lemma_div_basics(total(e));
    } else {
        lemma_parts_before(weights, minimums, settled, k - 1);
        lemma_part_nonnegative(weights, minimums, settled, k - 1);
    }
}

proof fn lemma_part_nonnegative(weights: Seq<i64>, minimums: Seq<i64>, settled: Seq<bool>, i: int)
    requires
        weights.len() == minimums.len() == settled.len(),
        total(open_weights(weights, settled)) > 0,
        settle_round(weights, minimums, settled) == settled,
        forall|i: int| 0 <= i < minimums.len() ==> 0 <= #[trigger] minimums[i],
        0 <= i < weights.len(),
    ensures
        part(remaining(minimums, settled), open_weights(weights, settled), i) >= 0,
{
    let e = open_weights(weights, settled);
    let r = remaining(minimums, settled);
    if settled[i] {
        crate::shares::zero_weight_takes_nothing(r, e, i);
    } else {
        assert(settle_round(weights, minimums, settled)[i] == settled[i]);
        lemma_part_at_least_floor(r, e, i);
    }
}

proof fn lemma_parts_after(weights: Seq<i64>, minimums: Seq<i64>, settled: Seq<bool>, k: int)
    requires
        weights.len() == minimums.len() == settled.len(),
        total(open_weights(weights, settled)) > 0,
        settle_round(weights, minimums, settled) == settled,
        forall|i: int| 0 <= i < minimums.len() ==> 0 <= #[trigger] minimums[i],
        0 <= k <= weights.len(),
    ensures
        cut(remaining(minimums, settled), open_weights(weights, settled), k) <= remaining(
            minimums,
            settled,
        ),
        remaining(minimums, settled) <= WHOLE,
    decreases weights.len() - k,
{
    let e = open_weights(weights, settled);
    let r = remaining(minimums, settled);
    lemma_total_nonnegative(masked(minimums, settled));
    if k == weights.len() {
        assert(e.take(k) =~= e);
        let w = total(e);
        vstd::arithmetic::div_mod::lemma_div_multiples_vanish(r, w);
        assert(r * w == w * r) by (nonlinear_arith);
    } else {
        lemma_parts_after(weights, minimums, settled, k + 1);
        lemma_part_nonnegative(weights, minimums, settled, k);
    }
}

/// Where the minimums fit, the allocation hands out exactly one whole, and no
/// tile gets less than its minimum.
pub proof fn allocation_is_fair(weights: Seq<i64>, minimums: Seq<i64>)
    requires
        weights.len() == minimums.len(),
        weights.len() > 0,
        total(minimums) <= WHOLE,
        forall|i: int| 0 <= i < minimums.len() ==> 0 <= #[trigger] minimums[i],
    ensures
        allocation(weights, minimums).len() == weights.len(),
        total(allocation(weights, minimums)) == WHOLE,
        forall|i: int|
            0 <= i < weights.len() ==> minimums[i] <= #[trigger] allocation(weights, minimums)[i]
                <= WHOLE,
{
    let start = none_settled(weights.len());
    lemma_open_count_zero(start, 0);
    lemma_settle(weights, minimums, start);
    let settled = settle(weights, minimums, start);
    lemma_open_parts(weights, minimums, settled);
    let res = allocation(weights, minimums);
    let e = open_weights(weights, settled);
    let r = remaining(minimums, settled);
    let n = weights.len() as int;
    lemma_total_nonnegative(minimums);
    lemma_open_weights_positive(weights, settled);
    assert forall|i: int| 0 <= i < n implies #[trigger] res[i] == (if settled[i] {
        minimums[i] as int
    } else {
        part(r, e, i)
    }) by {
        if !settled[i] {
            assert(minimums[i] <= part(r, e, i) <= WHOLE);
        }
    }
    lemma_filled_prefix(weights, minimums, settled, res, n);
    assert(res.take(n) =~= res);
    assert(e.take(n) =~= e);
    assert(masked(minimums, settled).take(n) =~= masked(minimums, settled));
    let w = total(e);
    vstd::arithmetic::div_mod::lemma_div_multiples_vanish(r, w);
    assert(r * w == w * r) by (nonlinear_arith);
}

fn masked_vec(values: &Vec<i64>, mask: &Vec<bool>, pick: bool) -> (res: Vec<i64>)
    requires
        values.len() == mask.len(),
        all_ok(values@),
    ensures
        res@ == masked(
            values@,
            if pick {
                mask@
            } else {
                inverted(mask@)
            },
        ),
        all_ok(res@),
{
    let mut res: Vec<i64> = Vec::new();
    for i in 0..values.len()
        invariant
            values.len() == mask.len(),
            all_ok(values@),
            res.len() == i,
            all_ok(res@),
            forall|j: int|
                0 <= j < i ==> #[trigger] res[j] == masked(
                    values@,
                    if pick {
                        mask@
                    } else {
                        inverted(mask@)
                    },
                )[j],
    {
        if mask[i] == pick {
            res.push(values[i]);
        } else {
            res.push(0);
        }
    }
    assert(res@ =~= masked(
        values@,
        if pick {
            mask@
        } else {
            inverted(mask@)
        },
    ));
    res
}

/// Shares one whole between tiles by weight, so that no tile gets less than its
/// minimum. `None` where the minimums do not fit.
pub fn allocate_shares(weights: &Vec<i64>, minimums: &Vec<i64>) -> (res: Option<Vec<i64>>)
    requires
        weights.len() == minimums.len(),
        weights.len() <= MAX_CONTAINERS,
        all_ok(weights@),
        all_ok(minimums@),
        forall|i: int| 0 <= i < minimums.len() ==> 0 <= #[trigger] minimums[i],
    ensures
        res is None <==> total(minimums@) > WHOLE,
        res matches Some(shares) ==> shares@ == allocation(weights@, minimums@) && all_ok(shares@),
{
    if sum_shares(minimums) > WHOLE as i128 {
        return None;
    }
    let n: usize = weights.len();
    let mut units: Vec<i64> = Vec::new();
    let mut settled: Vec<bool> = Vec::new();
    for i in 0..n
        invariant
            units.len() == i,
            settled.len() == i,
            forall|j: int| 0 <= j < i ==> #[trigger] units[j] == 1,
            forall|j: int| 0 <= j < i ==> #[trigger] settled[j] == false,
    {
        units.push(1);
        settled.push(false);
    }
    assert(units@ =~= equal_weights(n as nat));
    assert(settled@ =~= none_settled(n as nat));
    if n == 0 {
        assert(Seq::<i64>::empty() =~= allocation(weights@, minimums@));
        let empty: Vec<i64> = Vec::new();
        return Some(empty);
    }
    proof {
        lemma_open_count_zero(settled@, 0);
        lemma_settle(weights@, minimums@, settled@);
        lemma_total_nonnegative(minimums@);
    }
    let ghost start = settled@;
    let mut done: bool = false;
    let mut eff: Vec<i64> = Vec::new();
    let mut left: i64 = 0;
    let mut whole: i128 = 0;
    while !done
        invariant
            n == weights.len() == minimums.len() == settled.len() == units.len(),
            0 < n <= MAX_CONTAINERS,
            all_ok(weights@),
            all_ok(minimums@),
            units@ == equal_weights(n as nat),
            forall|i: int| 0 <= i < minimums.len() ==> 0 <= #[trigger] minimums[i],
            total(minimums@) <= WHOLE,
            open_count(settled@) > 0,
            settle(weights@, minimums@, settled@) == settle(weights@, minimums@, start),
            done ==> settle_round(weights@, minimums@, settled@) == settled@,
            done ==> eff@ == open_weights(weights@, settled@),
            done ==> all_ok(eff@),
            done ==> left == remaining(minimums@, settled@),
            done ==> 0 <= left <= WHOLE,
            done ==> whole == total(eff@),
            done ==> 0 < whole <= 0x2_0000_0000_0000_0000_0000,
        decreases
            open_count(settled@),
            (if done {
                0int
            } else {
                1int
            }),
    {
        let open = masked_vec(weights, &settled, false);
        let open_units = masked_vec(&units, &settled, false);
        let open_total: i128 = sum_shares(&open);
        if open_total > 0 {
            eff = open;
        } else {
            eff = open_units;
        }
        proof {
            lemma_open_weights_positive(weights@, settled@);
            lemma_masked_total(minimums@, settled@);
            lemma_total_nonnegative(masked(minimums@, settled@));
            lemma_total_nonnegative(masked(minimums@, inverted(settled@)));
        }
        whole = sum_shares(&eff);
        let fixed = masked_vec(minimums, &settled, true);
        let fixed_total: i128 = sum_shares(&fixed);
        left = (WHOLE as i128 - fixed_total) as i64;
        let mut next: Vec<bool> = Vec::new();
        let mut changed: bool = false;
        for i in 0..n
            invariant
                n == weights.len() == minimums.len() == settled.len() == eff.len(),
                n <= MAX_CONTAINERS,
                eff@ == open_weights(weights@, settled@),
                all_ok(eff@),
                left == remaining(minimums@, settled@),
                0 <= left <= WHOLE,
                whole == total(eff@),
                0 < whole <= 0x2_0000_0000_0000_0000_0000,
                next.len() == i,
                forall|j: int|
                    0 <= j < i ==> #[trigger] next[j] == settle_round(
                        weights@,
                        minimums@,
                        settled@,
                    )[j],
                changed <==> exists|j: int| 0 <= j < i && #[trigger] next[j] != settled[j],
        {
            assert(-0x3fff_ffff_ffff_ffff_ffff_ffff_ffff_ffff <= left * eff[i as int]
                <= 0x3fff_ffff_ffff_ffff_ffff_ffff_ffff_ffff) by (nonlinear_arith)
                requires
                    0 <= left <= 1073741824,
                    -1099511627776 <= eff[i as int] <= 1099511627776,
            ;
            let share: i128 = floor_div(left as i128 * eff[i] as i128, whole);
            let now: bool = settled[i] || share < minimums[i] as i128;
            let ghost before = next@;
            next.push(now);
            if now != settled[i] {
                changed = true;
            }
            proof {
                assert forall|j: int| 0 <= j < i + 1 implies #[trigger] next[j] == settle_round(
                    weights@,
                    minimums@,
                    settled@,
                )[j] by {
                    if j < i {
                        assert(before[j] == next[j]);
                    }
                }
                assert(next[i as int] == now);
                if exists|j: int| 0 <= j < i && #[trigger] before[j] != settled[j] {
                    let j = choose|j: int| 0 <= j < i && #[trigger] before[j] != settled[j];
                    assert(next[j] != settled[j]);
                }
            }
        }
        assert(next@ =~= settle_round(weights@, minimums@, settled@));
        if changed {
            proof {
                lemma_some_tile_stays_open(weights@, minimums@, settled@);
                let j = choose|j: int| 0 <= j < n && #[trigger] next[j] != settled[j];
                assert(next@[j] != settled@[j]);
                lemma_open_count_drops(settled@, next@);
            }
            settled = next;
        } else {
            assert(next@ =~= settled@);
            done = true;
        }
    }
    assert(settle(weights@, minimums@, settled@) == settled@);
    let mut shares: Vec<i64> = Vec::new();
    let mut prefix: i128 = 0;
    let mut previous: i128 = 0;
    proof {
        lemma_open_parts(weights@, minimums@, settled@);
        assert(eff@.take(0) =~= Seq::<i64>::empty());
        assert(left * 0 == 0);
        vstd::arithmetic::div_mod::lemma_div_basics(total(eff@));
    }
    for i in 0..n
        invariant
            n == weights.len() == minimums.len() == settled.len() == eff.len(),
            n <= MAX_CONTAINERS,
            all_ok(eff@),
            all_ok(minimums@),
            eff@ == open_weights(weights@, settled@),
            left == remaining(minimums@, settled@),
            0 <= left <= WHOLE,
            whole == total(eff@),
            0 < whole <= 0x2_0000_0000_0000_0000_0000,
            prefix == total(eff@.take(i as int)),
            -(i * 1099511627776) <= prefix <= i * 1099511627776,
            previous == cut(left as int, eff@, i as int),
            -0x0fff_ffff_ffff_ffff_ffff_ffff_ffff_ffff <= previous
                <= 0x0fff_ffff_ffff_ffff_ffff_ffff_ffff_ffff,
            forall|j: int|
                0 <= j < n && !settled[j] ==> 0 <= #[trigger] part(left as int, eff@, j) <= WHOLE,
            shares.len() == i,
            all_ok(shares@),
            forall|j: int|
                0 <= j < i ==> #[trigger] shares[j] == filled(weights@, minimums@, settled@)[j],
    {
        proof {
            lemma_total_take(eff@, i as int);
        }
        prefix = prefix + eff[i] as i128;
        assert(-0x0fff_ffff_ffff_ffff_ffff_ffff_ffff_ffff <= left * prefix
            <= 0x0fff_ffff_ffff_ffff_ffff_ffff_ffff_ffff) by (nonlinear_arith)
            requires
                0 <= left <= 1073741824,
                -0x2_0000_0000_0000_0000_0000 <= prefix <= 0x2_0000_0000_0000_0000_0000,
        ;
        let product: i128 = left as i128 * prefix;
        let next: i128 = floor_div(product, whole);
        proof {
            let p = product as int;
            let w = whole as int;
            assert(-0x0fff_ffff_ffff_ffff_ffff_ffff_ffff_ffff <= p / w
                <= 0x0fff_ffff_ffff_ffff_ffff_ffff_ffff_ffff) by (nonlinear_arith)
                requires
                    -0x0fff_ffff_ffff_ffff_ffff_ffff_ffff_ffff <= p
                        <= 0x0fff_ffff_ffff_ffff_ffff_ffff_ffff_ffff,
                    w >= 1,
            ;
        }
        if settled[i] {
            shares.push(minimums[i]);
        } else {
            assert(0 <= part(left as int, eff@, i as int) <= WHOLE);
            shares.push((next - previous) as i64);
        }
        previous = next;
    }
    assert(shares@ =~= allocation(weights@, minimums@));
    Some(shares)
}

} // verus!
