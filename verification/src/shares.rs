//! Shares of a container's length, as fixed-point numbers.
//!
//! A share is counted in units of one part in 2^30 of the whole. Every
//! single-precision share from the smallest tile upwards is a whole number of
//! these units. Parts are rounded so that what one tile gives, its siblings
//! take: nothing is lost to rounding.

use vstd::prelude::*;

use crate::geometry::{int_max, int_min};

verus! {

/// The share of a container that is alone: one whole.
pub const WHOLE: i64 = 1073741824;

/// The smallest share that a tile is resized to: one hundredth.
pub const MIN_TILING_SIZE: i64 = 10737418;

/// Differences below this share are taken to be zero.
pub const EPSILON: i64 = 128;

/// Shares are kept within this distance of zero, a thousand wholes.
pub const SHARE_LIMIT: i64 = 1099511627776;

/// The largest number of containers in a layout. A container takes more than a hundred bytes, so
/// this many have no place in the memory of any machine.
pub const MAX_CONTAINERS: u64 = 1099511627776;

pub open spec fn share_ok(share: int) -> bool {
    -SHARE_LIMIT <= share <= SHARE_LIMIT
}

pub open spec fn all_ok(shares: Seq<i64>) -> bool {
    forall|i: int| 0 <= i < shares.len() ==> share_ok(#[trigger] shares[i] as int)
}

/// The sum of a sequence.
pub open spec fn total(s: Seq<i64>) -> int
    decreases s.len(),
{
    if s.len() == 0 {
        0
    } else {
        total(s.drop_last()) + s.last()
    }
}

/// How much of `amount` falls to the first `k` weights, rounded down.
pub open spec fn cut(amount: int, weights: Seq<i64>, k: int) -> int {
    (amount * total(weights.take(k))) / total(weights)
}

/// How much of `amount` falls to the weight at `i`.
pub open spec fn part(amount: int, weights: Seq<i64>, i: int) -> int {
    cut(amount, weights, i + 1) - cut(amount, weights, i)
}

/// Keeps a number within the range of shares.
pub open spec fn saturated(x: int) -> i64 {
    int_max(-SHARE_LIMIT as int, int_min(x, SHARE_LIMIT as int)) as i64
}

pub open spec fn above_minimum(shares: Seq<i64>) -> Seq<i64> {
    Seq::new(shares.len(), |i: int| (shares[i] - MIN_TILING_SIZE) as i64)
}

pub open spec fn equal_weights(n: nat) -> Seq<i64> {
    Seq::new(n, |i: int| 1i64)
}

/// By how much each tile takes part in a change: as far as it exceeds the
/// minimum, or all alike where nothing does.
pub open spec fn spread_weights(shares: Seq<i64>) -> Seq<i64> {
    if total(above_minimum(shares)) > EPSILON {
        above_minimum(shares)
    } else {
        equal_weights(shares.len())
    }
}

/// The shares after giving up `amount` between them, by weight.
pub open spec fn taken(shares: Seq<i64>, amount: int, weights: Seq<i64>) -> Seq<i64> {
    Seq::new(shares.len(), |i: int| saturated(shares[i] - part(amount, weights, i)))
}

/// The shares after giving up `amount` between them.
pub open spec fn spread(shares: Seq<i64>, amount: int) -> Seq<i64> {
    taken(shares, amount, spread_weights(shares))
}

/// The largest share that leaves each of `siblings` tiles the minimum.
pub open spec fn largest_share(siblings: nat) -> int {
    WHOLE - siblings * MIN_TILING_SIZE
}

/// The share that a tile with this many siblings is given for `target`.
pub open spec fn clamped_target(target: int, siblings: nat) -> int {
    int_max(MIN_TILING_SIZE as int, int_min(target, largest_share(siblings)))
}

pub proof fn lemma_total_push(s: Seq<i64>, x: i64)
    ensures
        total(s.push(x)) == total(s) + x,
{
    assert(s.push(x).drop_last() =~= s);
}

pub proof fn lemma_total_take(s: Seq<i64>, k: int)
    requires
        0 <= k < s.len(),
    ensures
        total(s.take(k + 1)) == total(s.take(k)) + s[k],
{
    assert(s.take(k + 1) =~= s.take(k).push(s[k]));
    lemma_total_push(s.take(k), s[k]);
}

pub proof fn lemma_total_bound(s: Seq<i64>, bound: int)
    requires
        forall|i: int| 0 <= i < s.len() ==> -bound <= #[trigger] s[i] <= bound,
        bound >= 0,
    ensures
        -(s.len() * bound) <= total(s) <= s.len() * bound,
    decreases s.len(),
{
    if s.len() > 0 {
        let front = s.drop_last();
        assert forall|i: int| 0 <= i < front.len() implies -bound <= #[trigger] front[i]
            <= bound by {
            assert(front[i] == s[i]);
        }
        lemma_total_bound(front, bound);
        assert(s.len() * bound == front.len() * bound + bound) by (nonlinear_arith)
            requires
                s.len() == front.len() + 1,
        ;
    } else {
        assert(s.len() * bound == 0) by (nonlinear_arith)
            requires
                s.len() == 0,
        ;
    }
}

pub proof fn lemma_total_nonnegative(s: Seq<i64>)
    requires
        forall|i: int| 0 <= i < s.len() ==> 0 <= #[trigger] s[i],
    ensures
        total(s) >= 0,
        forall|i: int| 0 <= i < s.len() ==> #[trigger] s[i] <= total(s),
    decreases s.len(),
{
    if s.len() > 0 {
        let front = s.drop_last();
        assert forall|i: int| 0 <= i < front.len() implies 0 <= #[trigger] front[i] by {
            assert(front[i] == s[i]);
        }
        lemma_total_nonnegative(front);
        assert forall|i: int| 0 <= i < s.len() implies #[trigger] s[i] <= total(s) by {
            if i < front.len() {
                assert(front[i] == s[i]);
            }
        }
    }
}

pub proof fn lemma_total_equal_weights(n: nat)
    ensures
        total(equal_weights(n)) == n,
    decreases n,
{
    if n > 0 {
        assert(equal_weights(n).drop_last() =~= equal_weights((n - 1) as nat));
        lemma_total_equal_weights((n - 1) as nat);
    }
}

/// What rounding down can do to a difference of two quotients.
proof fn lemma_quotient_gap(a: int, d: int, w: int)
    requires
        w > 0,
    ensures
        ((a + d) / w - a / w - 1) * w < d,
        d < ((a + d) / w - a / w + 1) * w,
{
    let q1 = (a + d) / w;
    let q0 = a / w;
    vstd::arithmetic::div_mod::lemma_fundamental_div_mod(a + d, w);
    vstd::arithmetic::div_mod::lemma_fundamental_div_mod(a, w);
    vstd::arithmetic::div_mod::lemma_mod_bound(a + d, w);
    vstd::arithmetic::div_mod::lemma_mod_bound(a, w);
    assert((q1 - q0 - 1) * w < d && d < (q1 - q0 + 1) * w) by (nonlinear_arith)
        requires
            a + d == w * q1 + (a + d) % w,
            a == w * q0 + a % w,
            0 <= (a + d) % w < w,
            0 <= a % w < w,
            w > 0,
    ;
}

/// A part differs by less than one unit from its exact proportion.
pub proof fn part_is_proportional(amount: int, weights: Seq<i64>, i: int)
    requires
        0 <= i < weights.len(),
        total(weights) > 0,
    ensures
        (part(amount, weights, i) - 1) * total(weights) < amount * weights[i],
        amount * weights[i] < (part(amount, weights, i) + 1) * total(weights),
{
    lemma_total_take(weights, i);
    let before = total(weights.take(i));
    assert(amount * (before + weights[i]) == amount * before + amount * weights[i])
        by (nonlinear_arith);
    lemma_quotient_gap(amount * before, amount * weights[i], total(weights));
}

/// A weight of zero takes no part in a change.
pub proof fn zero_weight_takes_nothing(amount: int, weights: Seq<i64>, i: int)
    requires
        0 <= i < weights.len(),
        weights[i] == 0,
    ensures
        part(amount, weights, i) == 0,
{
    lemma_total_take(weights, i);
}

/// No weight takes more than itself, as long as there is enough for all.
pub proof fn part_within_weight(amount: int, weights: Seq<i64>, i: int)
    requires
        0 <= i < weights.len(),
        forall|j: int| 0 <= j < weights.len() ==> 0 <= #[trigger] weights[j],
        total(weights) > 0,
        0 <= amount <= total(weights),
    ensures
        0 <= part(amount, weights, i) <= weights[i],
{
    let w = total(weights);
    let p = part(amount, weights, i);
    part_is_proportional(amount, weights, i);
    assert(0 <= p) by (nonlinear_arith)
        requires
            amount * weights[i] < (p + 1) * w,
            0 <= amount,
            0 <= weights[i],
            w > 0,
    ;
    assert(p <= weights[i]) by (nonlinear_arith)
        requires
            (p - 1) * w < amount * weights[i],
            0 <= amount <= w,
            0 <= weights[i],
            w > 0,
    ;
}

/// The first `k` parts add up to the cut at `k`.
pub proof fn parts_add_up_to_cut(amount: int, weights: Seq<i64>, parts: Seq<i64>, k: int)
    requires
        total(weights) > 0,
        parts.len() == weights.len(),
        forall|i: int| 0 <= i < parts.len() ==> #[trigger] parts[i] == part(amount, weights, i),
        0 <= k <= weights.len(),
    ensures
        total(parts.take(k)) == cut(amount, weights, k),
    decreases k,
{
    if k == 0 {
        assert(weights.take(0) =~= Seq::<i64>::empty());
        assert(parts.take(0) =~= Seq::<i64>::empty());
        assert(amount * 0 == 0);
        vstd::arithmetic::div_mod::lemma_div_basics(total(weights));
        assert(total(weights.take(0)) == 0);
    } else {
        parts_add_up_to_cut(amount, weights, parts, k - 1);
        lemma_total_take(parts, k - 1);
    }
}

/// Together the parts are the whole amount.
pub proof fn parts_add_up(amount: int, weights: Seq<i64>, parts: Seq<i64>)
    requires
        total(weights) > 0,
        parts.len() == weights.len(),
        forall|i: int| 0 <= i < parts.len() ==> #[trigger] parts[i] == part(amount, weights, i),
    ensures
        total(parts) == amount,
{
    let n = weights.len() as int;
    parts_add_up_to_cut(amount, weights, parts, n);
    assert(weights.take(n) =~= weights);
    assert(parts.take(n) =~= parts);
    let w = total(weights);
    assert(amount * w / w == amount) by {
        vstd::arithmetic::div_mod::lemma_div_multiples_vanish(amount, w);
        assert(amount * w == w * amount) by (nonlinear_arith);
    }
}

/// Floor division.
pub fn floor_div(a: i128, b: i128) -> (res: i128)
    requires
        0 < b <= 0x7fff_ffff_ffff_ffff_ffff_ffff,
        -0x3fff_ffff_ffff_ffff_ffff_ffff_ffff_ffff <= a
            <= 0x3fff_ffff_ffff_ffff_ffff_ffff_ffff_ffff,
    ensures
        res == (a as int) / (b as int),
{
    if a >= 0 {
        a / b
    } else {
        let m: i128 = -a;
        let q: i128 = (m + (b - 1)) / b;
        proof {
            let x = m + (b - 1);
            vstd::arithmetic::div_mod::lemma_fundamental_div_mod(x as int, b as int);
            vstd::arithmetic::div_mod::lemma_mod_bound(x as int, b as int);
            vstd::arithmetic::div_mod::lemma_fundamental_div_mod(a as int, b as int);
            vstd::arithmetic::div_mod::lemma_mod_bound(a as int, b as int);
            let r = (x as int) % (b as int);
            let f = (a as int) / (b as int);
            let s = (a as int) % (b as int);
            assert(-q == f) by (nonlinear_arith)
                requires
                    -a + (b - 1) == b * q + r,
                    0 <= r < b,
                    a == b * f + s,
                    0 <= s < b,
            ;
            assert(0 <= q <= x) by (nonlinear_arith)
                requires
                    x == b * q + r,
                    0 <= r < b,
                    x >= 0,
            ;
        }
        -q
    }
}

/// The number within the range of shares that is closest to `x`.
pub fn saturate(x: i128) -> (res: i64)
    ensures
        res == saturated(x as int),
        share_ok(res as int),
{
    if x > SHARE_LIMIT as i128 {
        SHARE_LIMIT
    } else if x < -(SHARE_LIMIT as i128) {
        -SHARE_LIMIT
    } else {
        x as i64
    }
}

/// The sum of the shares.
pub fn sum_shares(shares: &Vec<i64>) -> (res: i128)
    requires
        forall|i: int|
            0 <= i < shares.len() ==> -2199023255552 <= #[trigger] shares[i] <= 2199023255552,
        shares.len() <= MAX_CONTAINERS,
    ensures
        res == total(shares@),
        -0x2_0000_0000_0000_0000_0000 <= res <= 0x2_0000_0000_0000_0000_0000,
{
    let mut sum: i128 = 0;
    for i in 0..shares.len()
        invariant
            shares.len() <= MAX_CONTAINERS,
            forall|i: int|
                0 <= i < shares.len() ==> -2199023255552 <= #[trigger] shares[i]
                    <= 2199023255552,
            sum == total(shares@.take(i as int)),
            -(i * 2199023255552) <= sum <= i * 2199023255552,
    {
        proof {
            lemma_total_take(shares@, i as int);
        }
        sum = sum + shares[i] as i128;
    }
    assert(shares@.take(shares.len() as int) =~= shares@);
    sum
}

/// Takes `amount` from the shares, in proportion to the weights.
pub fn take_from(shares: &Vec<i64>, amount: i64, weights: &Vec<i64>) -> (res: Vec<i64>)
    requires
        all_ok(shares@),
        shares.len() == weights.len(),
        shares.len() <= MAX_CONTAINERS,
        forall|i: int|
            0 <= i < weights.len() ==> -2199023255552 <= #[trigger] weights[i]
                <= 2199023255552,
        -4398046511104 <= amount <= 4398046511104,
        shares.len() > 0 ==> total(weights@) > 0,
    ensures
        res@ == taken(shares@, amount as int, weights@),
        all_ok(res@),
{
    let whole: i128 = sum_shares(weights);
    let mut res: Vec<i64> = Vec::new();
    let mut prefix: i128 = 0;
    let mut previous: i128 = 0;
    proof {
        assert(weights@.take(0) =~= Seq::<i64>::empty());
        assert(amount * 0 == 0);
        if shares.len() > 0 {
            vstd::arithmetic::div_mod::lemma_div_basics(total(weights@));
        }
    }
    for i in 0..shares.len()
        invariant
            all_ok(shares@),
            shares.len() == weights.len(),
            shares.len() <= MAX_CONTAINERS,
            forall|i: int|
                0 <= i < weights.len() ==> -2199023255552 <= #[trigger] weights[i]
                    <= 2199023255552,
            -4398046511104 <= amount <= 4398046511104,
            shares.len() > 0 ==> total(weights@) > 0,
            whole == total(weights@),
            whole <= 0x2_0000_0000_0000_0000_0000,
            prefix == total(weights@.take(i as int)),
            -(i * 2199023255552) <= prefix <= i * 2199023255552,
            shares.len() > 0 ==> previous == cut(amount as int, weights@, i as int),
            -0x0fff_ffff_ffff_ffff_ffff_ffff_ffff_ffff <= previous
                <= 0x0fff_ffff_ffff_ffff_ffff_ffff_ffff_ffff,
            res.len() == i,
            forall|j: int|
                0 <= j < i ==> #[trigger] res[j] == saturated(
                    shares[j] - part(amount as int, weights@, j),
                ),
            all_ok(res@),
    {
        proof {
            lemma_total_take(weights@, i as int);
        }
        prefix = prefix + weights[i] as i128;
        assert(-0x0fff_ffff_ffff_ffff_ffff_ffff_ffff_ffff <= amount * prefix
            <= 0x0fff_ffff_ffff_ffff_ffff_ffff_ffff_ffff) by (nonlinear_arith)
            requires
                -4398046511104 <= amount <= 4398046511104,
                -0x2_0000_0000_0000_0000_0000 <= prefix <= 0x2_0000_0000_0000_0000_0000,
        ;
        let product: i128 = (amount as i128) * prefix;
        let next: i128 = floor_div(product, whole);
        proof {
            let p = product as int;
            let w = whole as int;
            assert(-0x0fff_ffff_ffff_ffff_ffff_ffff_ffff_ffff <= p / w
                <= 0x0fff_ffff_ffff_ffff_ffff_ffff_ffff_ffff) by (nonlinear_arith)
                requires
                    -0x0fff_ffff_ffff_ffff_ffff_ffff_ffff_ffff <= p
                        <= 0x0fff_ffff_ffff_ffff_ffff_ffff_ffff_ffff,
                    w >= 1,
            ;
        }
        let given: i128 = next - previous;
        let share = saturate(shares[i] as i128 - given);
        res.push(share);
        previous = next;
    }
    assert(res@ =~= taken(shares@, amount as int, weights@));
    res
}

/// By how much each tile takes part in a change of its sibling.
fn weights_for_spread(shares: &Vec<i64>) -> (res: Vec<i64>)
    requires
        all_ok(shares@),
        shares.len() <= MAX_CONTAINERS,
    ensures
        res@ == spread_weights(shares@),
        shares.len() > 0 ==> total(res@) > 0,
        forall|i: int|
            0 <= i < res.len() ==> -2199023255552 <= #[trigger] res[i] <= 2199023255552,
{
    let mut above: Vec<i64> = Vec::new();
    let mut equal: Vec<i64> = Vec::new();
    for i in 0..shares.len()
        invariant
            all_ok(shares@),
            above.len() == i,
            equal.len() == i,
            forall|j: int| 0 <= j < i ==> #[trigger] above[j] == shares[j] - MIN_TILING_SIZE,
            forall|j: int| 0 <= j < i ==> #[trigger] equal[j] == 1,
            forall|j: int|
                0 <= j < i ==> -2199023255552 <= #[trigger] above[j] <= 2199023255552,
    {
        above.push(shares[i] - MIN_TILING_SIZE);
        equal.push(1);
    }
    assert(above@ =~= above_minimum(shares@));
    assert(equal@ =~= equal_weights(shares@.len()));
    proof {
        lemma_total_equal_weights(shares@.len());
    }
    if sum_shares(&above) > EPSILON as i128 {
        above
    } else {
        equal
    }
}

/// Takes `amount` from the shares, so that tiles give up in proportion to how
/// far they exceed the minimum.
pub fn spread_over(shares: &Vec<i64>, amount: i64) -> (res: Vec<i64>)
    requires
        all_ok(shares@),
        shares.len() <= MAX_CONTAINERS,
        -4398046511104 <= amount <= 4398046511104,
    ensures
        res@ == spread(shares@, amount as int),
        all_ok(res@),
{
    let weights = weights_for_spread(shares);
    take_from(shares, amount, &weights)
}

/// The share that a tile with this many siblings is given for `target`.
pub fn clamp_target(target: i64, siblings: usize) -> (res: i64)
    requires
        siblings <= MAX_CONTAINERS,
    ensures
        res == clamped_target(target as int, siblings as nat),
        MIN_TILING_SIZE <= res <= WHOLE,
{
    assert(siblings * MIN_TILING_SIZE <= 0x100_0000_0000_0000_0000 && siblings * MIN_TILING_SIZE >= 0)
        by (nonlinear_arith)
        requires
            siblings <= 1099511627776,
            MIN_TILING_SIZE == 10737418,
    ;
    let largest: i128 = WHOLE as i128 - siblings as i128 * MIN_TILING_SIZE as i128;
    let capped: i128 = if target as i128 <= largest {
        target as i128
    } else {
        largest
    };
    if MIN_TILING_SIZE as i128 >= capped {
        MIN_TILING_SIZE
    } else {
        capped as i64
    }
}

/// A tile takes its new share from its siblings, and nothing is lost: the sum
/// of all shares stays what it was.
pub proof fn spread_keeps_total(shares: Seq<i64>, amount: int)
    requires
        shares.len() > 0,
        forall|i: int|
            0 <= i < shares.len() ==> MIN_TILING_SIZE <= #[trigger] shares[i] <= WHOLE,
        -WHOLE <= amount <= WHOLE,
    ensures
        total(spread(shares, amount)) == total(shares) - amount,
{
    let weights = spread_weights(shares);
    lemma_spread_weights(shares);
    let n = shares.len();
    let parts = Seq::new(n, |i: int| part(amount, weights, i) as i64);
    assert forall|i: int| 0 <= i < n implies #[trigger] parts[i] == part(amount, weights, i) && -(
    2 * WHOLE) <= parts[i] <= 2 * WHOLE by {
        lemma_part_bounded(amount, weights, i);
    }
    parts_add_up(amount, weights, parts);
    let after = spread(shares, amount);
    assert forall|i: int| 0 <= i < n implies #[trigger] after[i] == shares[i] - parts[i] by {
        assert(-(2 * WHOLE) <= parts[i] <= 2 * WHOLE);
    }
    lemma_total_difference(shares, parts, after);
}

/// Tiles at or above the minimum share stay there, as long as what they give up
/// is there to give.
pub proof fn spread_keeps_minimums(shares: Seq<i64>, amount: int, i: int)
    requires
        0 <= i < shares.len(),
        forall|j: int|
            0 <= j < shares.len() ==> MIN_TILING_SIZE <= #[trigger] shares[j] <= WHOLE,
        -WHOLE <= amount <= WHOLE,
        amount <= total(above_minimum(shares)),
        total(above_minimum(shares)) > EPSILON || amount <= 0,
    ensures
        spread(shares, amount)[i] >= MIN_TILING_SIZE,
{
    let weights = spread_weights(shares);
    lemma_spread_weights(shares);
    lemma_part_bounded(amount, weights, i);
    if amount >= 0 && total(above_minimum(shares)) > EPSILON {
        part_within_weight(amount, weights, i);
    } else {
        let p = part(amount, weights, i);
        let w = total(weights);
        part_is_proportional(amount, weights, i);
        assert(p <= 0) by (nonlinear_arith)
            requires
                (p - 1) * w < amount * weights[i],
                amount <= 0,
                0 <= weights[i],
                w > 0,
        ;
    }
}

proof fn lemma_spread_weights(shares: Seq<i64>)
    requires
        shares.len() > 0,
        forall|i: int|
            0 <= i < shares.len() ==> MIN_TILING_SIZE <= #[trigger] shares[i] <= WHOLE,
    ensures
        spread_weights(shares).len() == shares.len(),
        total(spread_weights(shares)) > 0,
        forall|i: int|
            0 <= i < shares.len() ==> 0 <= #[trigger] spread_weights(shares)[i] <= WHOLE,
{
    lemma_total_equal_weights(shares.len());
}

proof fn lemma_part_bounded(amount: int, weights: Seq<i64>, i: int)
    requires
        0 <= i < weights.len(),
        total(weights) > 0,
        forall|j: int| 0 <= j < weights.len() ==> 0 <= #[trigger] weights[j] <= WHOLE,
        -WHOLE <= amount <= WHOLE,
    ensures
        -(2 * WHOLE) <= part(amount, weights, i) <= 2 * WHOLE,
{
    part_is_proportional(amount, weights, i);
    lemma_total_nonnegative(weights);
    let p = part(amount, weights, i);
    let w = total(weights);
    let k = weights[i] as int;
    assert(p <= 2 * WHOLE) by (nonlinear_arith)
        requires
            (p - 1) * w < amount * k,
            amount <= WHOLE,
            0 <= k <= w,
            w > 0,
            WHOLE == 1073741824,
    ;
    assert(-(2 * WHOLE) <= p) by (nonlinear_arith)
        requires
            amount * k < (p + 1) * w,
            -WHOLE <= amount,
            0 <= k <= w,
            w > 0,
            WHOLE == 1073741824,
    ;
}

pub proof fn lemma_total_difference(a: Seq<i64>, b: Seq<i64>, c: Seq<i64>)
    requires
        a.len() == b.len() == c.len(),
        forall|i: int| 0 <= i < a.len() ==> #[trigger] c[i] == a[i] - b[i],
    ensures
        total(c) == total(a) - total(b),
    decreases a.len(),
{
    if a.len() > 0 {
        assert forall|i: int| 0 <= i < a.len() - 1 implies #[trigger] c.drop_last()[i]
            == a.drop_last()[i] - b.drop_last()[i] by {
            assert(c.drop_last()[i] == c[i]);
        }
        lemma_total_difference(a.drop_last(), b.drop_last(), c.drop_last());
    }
}

} // verus!
