//! The six scoring formulas, as specification functions over a player's
//! placement list and the catalog's entrant counts, together with the
//! verified loops that compute them.
//!
//! A placement list is a sequence of `(tournament_id, placement)` pairs,
//! strictly increasing by tournament id.  Every formula produces an exact
//! fraction: the (possibly worst-dropped) total over the denominator
//! `max(n - 1, 4)`, scaled by the formula's weight.

use crate::constants::points_halved;
use crate::constants::CalculationMethods;
use vstd::prelude::*;

verus! {

/// Placement entries are strictly increasing by tournament id, so each
/// tournament appears at most once.
pub open spec fn placements_wf(pl: Seq<(u32, u32)>) -> bool {
    forall|i: int, j: int| 0 <= i < j < pl.len() ==> pl[i].0 < pl[j].0
}

/// Every referenced tournament id is below `t`.
pub open spec fn ids_below(pl: Seq<(u32, u32)>, t: int) -> bool {
    forall|i: int| 0 <= i < pl.len() ==> pl[i].0 < t
}

/// A strictly increasing id list below `t` cannot have more than `t` entries.
pub proof fn lemma_wf_len(pl: Seq<(u32, u32)>, t: int)
    requires
        placements_wf(pl),
        ids_below(pl, t),
        t >= 0,
    ensures
        pl.len() <= t,
    decreases pl.len(),
{
    if pl.len() > 0 {
        let last = pl[pl.len() - 1];
        assert(forall|i: int, j: int|
            0 <= i < j < pl.len() - 1 ==> pl.drop_last()[i].0 < pl.drop_last()[j].0);
        assert(ids_below(pl.drop_last(), last.0 as int)) by {
            assert(forall|i: int|
                0 <= i < pl.len() - 1 ==> pl.drop_last()[i].0 == pl[i].0 && pl[i].0 < last.0);
        }
        lemma_wf_len(pl.drop_last(), last.0 as int);
    }
}

/// The divisor shared by all formulas: `max(n - 1, 4)`.
pub open spec fn denom_spec(n: int) -> int {
    if n - 1 > 4 {
        n - 1
    } else {
        4
    }
}

/// The sum of the raw placement numbers.
pub open spec fn sum_placements(pl: Seq<(u32, u32)>) -> int
    decreases pl.len(),
{
    if pl.len() == 0 {
        0
    } else {
        sum_placements(pl.drop_last()) + pl.last().1
    }
}

/// The largest (worst) raw placement number, 0 for an empty list.
pub open spec fn max_placement(pl: Seq<(u32, u32)>) -> int
    decreases pl.len(),
{
    if pl.len() == 0 {
        0
    } else if pl.last().1 >= max_placement(pl.drop_last()) {
        pl.last().1 as int
    } else {
        max_placement(pl.drop_last())
    }
}

/// The sum of the doubled point values of the placements.
pub open spec fn sum_points_h(pl: Seq<(u32, u32)>) -> int
    decreases pl.len(),
{
    if pl.len() == 0 {
        0
    } else {
        sum_points_h(pl.drop_last()) + points_halved(pl.last().1)
    }
}

/// The smallest doubled point value among the placements, 0 for an empty list.
pub open spec fn min_points_h(pl: Seq<(u32, u32)>) -> int
    decreases pl.len(),
{
    if pl.len() == 0 {
        0
    } else if pl.len() == 1 {
        points_halved(pl.last().1)
    } else if points_halved(pl.last().1) <= min_points_h(pl.drop_last()) {
        points_halved(pl.last().1)
    } else {
        min_points_h(pl.drop_last())
    }
}

/// One entry's doubled point value weighted by its tournament's entrant count.
pub open spec fn wval_h(e: (u32, u32), ts: Seq<u32>) -> int {
    points_halved(e.1) * ts[e.0 as int]
}

/// The sum of the weighted doubled point values.
pub open spec fn sum_weighted_h(pl: Seq<(u32, u32)>, ts: Seq<u32>) -> int
    decreases pl.len(),
{
    if pl.len() == 0 {
        0
    } else {
        sum_weighted_h(pl.drop_last(), ts) + wval_h(pl.last(), ts)
    }
}

/// The smallest weighted doubled point value, 0 for an empty list.
pub open spec fn min_weighted_h(pl: Seq<(u32, u32)>, ts: Seq<u32>) -> int
    decreases pl.len(),
{
    if pl.len() == 0 {
        0
    } else if pl.len() == 1 {
        wval_h(pl.last(), ts)
    } else if wval_h(pl.last(), ts) <= min_weighted_h(pl.drop_last(), ts) {
        wval_h(pl.last(), ts)
    } else {
        min_weighted_h(pl.drop_last(), ts)
    }
}

/// The unweighted total after the drop-worst rule: the single smallest
/// contribution leaves the total exactly when more than four tournaments
/// were entered.
pub open spec fn usum_drop(pl: Seq<(u32, u32)>) -> int {
    sum_points_h(pl) - if pl.len() > 4 {
        min_points_h(pl)
    } else {
        0
    }
}

/// The weighted total after the drop-worst rule.
pub open spec fn wsum_drop(pl: Seq<(u32, u32)>, ts: Seq<u32>) -> int {
    sum_weighted_h(pl, ts) - if pl.len() > 4 {
        min_weighted_h(pl, ts)
    } else {
        0
    }
}

/// The sum of a sequence of ranks.
pub open spec fn sum_ranks(h: Seq<u32>) -> int
    decreases h.len(),
{
    if h.len() == 0 {
        0
    } else {
        sum_ranks(h.drop_last()) + h.last()
    }
}

/// The most recent five entries of a rank history (all of it when it is
/// shorter than five).
pub open spec fn last_five(h: Seq<u32>) -> Seq<u32> {
    if h.len() > 5 {
        h.skip(h.len() - 5)
    } else {
        h
    }
}

/// The order on entrant counts used by the median.
pub open spec fn u32_leq() -> spec_fn(u32, u32) -> bool {
    |a: u32, b: u32| a <= b
}

pub proof fn lemma_u32_leq_total_ordering()
    ensures
        vstd::relations::total_ordering(u32_leq()),
{
    let leq = u32_leq();
    assert(vstd::relations::reflexive(leq)) by {
        assert(forall|a: u32| #[trigger] leq(a, a));
    }
    assert(vstd::relations::antisymmetric(leq)) by {
        assert(forall|a: u32, b: u32| #[trigger] leq(a, b) && #[trigger] leq(b, a) ==> a == b);
    }
    assert(vstd::relations::transitive(leq)) by {
        assert(forall|a: u32, b: u32, c: u32|
            #[trigger] leq(a, b) && #[trigger] leq(b, c) ==> leq(a, c));
    }
    assert(vstd::relations::strongly_connected(leq)) by {
        assert(forall|a: u32, b: u32| #[trigger] leq(a, b) || #[trigger] leq(b, a));
    }
}

/// Entrant counts in sorted order.
pub open spec fn sorted_entrants(ts: Seq<u32>) -> Seq<u32> {
    ts.sort_by(u32_leq())
}

/// Numerator of the median entrant count: the middle element for an odd
/// count, the sum of the two middle elements for an even count.
pub open spec fn median_num(ts: Seq<u32>) -> int
    recommends
        ts.len() >= 1,
{
    let s = sorted_entrants(ts);
    if ts.len() % 2 == 1 {
        s[ts.len() as int / 2] as int
    } else {
        s[ts.len() as int / 2 - 1] + s[ts.len() as int / 2]
    }
}

/// Denominator of the median entrant count.
pub open spec fn median_den(ts: Seq<u32>) -> int {
    if ts.len() % 2 == 1 {
        1
    } else {
        2
    }
}

/// The sum of all entrant counts.
pub open spec fn total_entrants(ts: Seq<u32>) -> int
    decreases ts.len(),
{
    if ts.len() == 0 {
        0
    } else {
        total_entrants(ts.drop_last()) + ts.last()
    }
}

/// Numerator of the score a formula assigns, over the catalog's entrant
/// counts, the player's placements and the player's rank history.
pub open spec fn score_num(
    m: CalculationMethods,
    ts: Seq<u32>,
    pl: Seq<(u32, u32)>,
    hist: Seq<u32>,
) -> int {
    match m {
        CalculationMethods::AveragePlacement => sum_placements(pl) - if pl.len() > 4 {
            max_placement(pl)
        } else {
            0
        },
        CalculationMethods::WeightedPoints => wsum_drop(pl, ts),
        CalculationMethods::MedianPoints => wsum_drop(pl, ts) * median_den(ts),
        CalculationMethods::MeanPoints => wsum_drop(pl, ts) * ts.len(),
        CalculationMethods::UnweightedPoints => usum_drop(pl),
        CalculationMethods::OverallPRPlacement => sum_ranks(last_five(hist)),
    }
}

/// Denominator of the score a formula assigns.
pub open spec fn score_den(m: CalculationMethods, ts: Seq<u32>, pl: Seq<(u32, u32)>) -> int {
    let d = denom_spec(pl.len() as int);
    match m {
        CalculationMethods::AveragePlacement => d,
        CalculationMethods::WeightedPoints => 20 * d,
        CalculationMethods::MedianPoints => 2 * median_num(ts) * d,
        CalculationMethods::MeanPoints => 2 * total_entrants(ts) * d,
        CalculationMethods::UnweightedPoints => 2 * d,
        CalculationMethods::OverallPRPlacement => 5,
    }
}

/// Every formula's denominator is built on `max(n - 1, 4)`, where `n` is
/// the number of tournaments the player entered.
pub proof fn lemma_denominator_is_max(n: int)
    ensures
        denom_spec(n) == vstd::math::max(n - 1, 4),
{
}

/// The worst contribution is dropped exactly when `n > 4`: with four or
/// fewer entries the total keeps every entered tournament's value.
pub proof fn lemma_drop_worst_iff(pl: Seq<(u32, u32)>, ts: Seq<u32>)
    ensures
        pl.len() <= 4 ==> usum_drop(pl) == sum_points_h(pl),
        pl.len() <= 4 ==> wsum_drop(pl, ts) == sum_weighted_h(pl, ts),
        pl.len() > 4 ==> usum_drop(pl) == sum_points_h(pl) - min_points_h(pl),
        pl.len() > 4 ==> wsum_drop(pl, ts) == sum_weighted_h(pl, ts) - min_weighted_h(pl, ts),
{
}

/// All point values lie between 0 and 22 half-points.
pub proof fn lemma_points_halved_bounds(p: u32)
    ensures
        0 <= points_halved(p) <= 22,
{
}

pub proof fn lemma_sum_placements_bounds(pl: Seq<(u32, u32)>)
    ensures
        0 <= sum_placements(pl) <= pl.len() * (u32::MAX as int),
        max_placement(pl) <= sum_placements(pl),
        0 <= max_placement(pl) <= u32::MAX as int,
    decreases pl.len(),
{
    if pl.len() > 0 {
        lemma_sum_placements_bounds(pl.drop_last());
    }
}

pub proof fn lemma_sum_points_bounds(pl: Seq<(u32, u32)>)
    ensures
        0 <= sum_points_h(pl) <= 22 * pl.len(),
        0 <= min_points_h(pl) <= 22,
        min_points_h(pl) <= sum_points_h(pl),
    decreases pl.len(),
{
    if pl.len() > 0 {
        lemma_sum_points_bounds(pl.drop_last());
        lemma_points_halved_bounds(pl.last().1);
    }
}

/// A weighted contribution lies between 0 and `22 * u32::MAX`.
pub proof fn lemma_wval_bounds(e: (u32, u32), ts: Seq<u32>)
    requires
        0 <= e.0 < ts.len(),
    ensures
        0 <= wval_h(e, ts) <= 22 * (u32::MAX as int),
{
    lemma_points_halved_bounds(e.1);
    vstd::arithmetic::mul::lemma_mul_nonnegative(points_halved(e.1), ts[e.0 as int] as int);
    vstd::arithmetic::mul::lemma_mul_upper_bound(
        points_halved(e.1),
        22,
        ts[e.0 as int] as int,
        u32::MAX as int,
    );
}

pub proof fn lemma_sum_weighted_bounds(pl: Seq<(u32, u32)>, ts: Seq<u32>)
    requires
        ids_below(pl, ts.len() as int),
    ensures
        0 <= sum_weighted_h(pl, ts) <= pl.len() * 22 * (u32::MAX as int),
        0 <= min_weighted_h(pl, ts) <= 22 * (u32::MAX as int),
        min_weighted_h(pl, ts) <= sum_weighted_h(pl, ts),
    decreases pl.len(),
{
    if pl.len() > 0 {
        assert(ids_below(pl.drop_last(), ts.len() as int)) by {
            assert(forall|i: int|
                0 <= i < pl.len() - 1 ==> pl.drop_last()[i].0 == pl[i].0 && pl[i].0 < ts.len());
        }
        lemma_sum_weighted_bounds(pl.drop_last(), ts);
        lemma_wval_bounds(pl.last(), ts);
    }
}

pub proof fn lemma_total_entrants_bounds(ts: Seq<u32>)
    ensures
        0 <= total_entrants(ts) <= ts.len() * (u32::MAX as int),
    decreases ts.len(),
{
    if ts.len() > 0 {
        lemma_total_entrants_bounds(ts.drop_last());
    }
}

/// The sorted entrant list is a permutation of the entrant list, so the
/// median reads in-range indices and is bounded by twice the largest count.
pub proof fn lemma_median_bounds(ts: Seq<u32>)
    requires
        ts.len() >= 1,
    ensures
        sorted_entrants(ts).len() == ts.len(),
        0 <= median_num(ts) <= 2 * (u32::MAX as int),
        1 <= median_den(ts) <= 2,
{
    broadcast use vstd::seq_lib::group_to_multiset_ensures;

    lemma_u32_leq_total_ordering();
    ts.lemma_sort_by_ensures(u32_leq());
    assert(ts.to_multiset().len() == ts.len());
    assert(sorted_entrants(ts).to_multiset().len() == sorted_entrants(ts).len());
}

/// A catalog whose tournaments all drew at least one entrant has a
/// positive median.
pub proof fn lemma_median_positive(ts: Seq<u32>)
    requires
        ts.len() >= 1,
        forall|i: int| 0 <= i < ts.len() ==> #[trigger] ts[i] >= 1,
    ensures
        median_num(ts) >= 1,
{
    broadcast use vstd::seq_lib::group_to_multiset_ensures;

    lemma_u32_leq_total_ordering();
    ts.lemma_sort_by_ensures(u32_leq());
    let s = sorted_entrants(ts);
    assert(ts.to_multiset().len() == ts.len());
    assert(s.to_multiset().len() == s.len());
    assert forall|k: int| 0 <= k < s.len() implies #[trigger] s[k] >= 1 by {
        assert(s.to_multiset().contains(s[k]));
        assert(ts.contains(s[k]));
    }
}

/// A catalog whose tournaments all drew at least one entrant has a
/// positive entrant total.
pub proof fn lemma_total_entrants_positive(ts: Seq<u32>)
    requires
        ts.len() >= 1,
        forall|i: int| 0 <= i < ts.len() ==> #[trigger] ts[i] >= 1,
    ensures
        total_entrants(ts) >= ts.len(),
    decreases ts.len(),
{
    assert(ts[ts.len() - 1] >= 1);
    if ts.len() > 1 {
        assert(forall|i: int|
            0 <= i < ts.len() - 1 ==> ts.drop_last()[i] == ts[i] && #[trigger] ts[i] >= 1);
        lemma_total_entrants_positive(ts.drop_last());
    } else {
        lemma_total_entrants_bounds(ts.drop_last());
    }
}

pub proof fn lemma_sum_ranks_bounds(h: Seq<u32>)
    ensures
        0 <= sum_ranks(h) <= h.len() * (u32::MAX as int),
    decreases h.len(),
{
    if h.len() > 0 {
        lemma_sum_ranks_bounds(h.drop_last());
    }
}

/// Every formula is a pure function of the catalog's entrant counts and
/// the player's placements, except the overall placement formula, which is
/// a pure function of the last five entries of the rank history.
pub proof fn lemma_scoring_pure(
    m: CalculationMethods,
    ts: Seq<u32>,
    pl: Seq<(u32, u32)>,
    h1: Seq<u32>,
    h2: Seq<u32>,
)
    ensures
        m != CalculationMethods::OverallPRPlacement ==> score_num(m, ts, pl, h1) == score_num(
            m,
            ts,
            pl,
            h2,
        ),
        last_five(h1) == last_five(h2) ==> score_num(m, ts, pl, h1) == score_num(m, ts, pl, h2),
{
}

/// One pass over the placements: the total and the largest (worst) raw
/// placement number.
pub fn sum_max_placements(pl: &Vec<(u32, u32)>) -> (r: (u128, u32))
    ensures
        r.0 as int == sum_placements(pl@),
        r.1 as int == max_placement(pl@),
{
    let n = pl.len();
    let mut total: u128 = 0;
    let mut worst: u32 = 0;
    let mut i: usize = 0;
    while i < n
        invariant
            0 <= i <= n,
            n == pl@.len(),
            total as int == sum_placements(pl@.take(i as int)),
            worst as int == max_placement(pl@.take(i as int)),
        decreases n - i,
    {
        proof {
            lemma_sum_placements_bounds(pl@.take(i as int));
            assert(pl@.take(i as int + 1).drop_last() =~= pl@.take(i as int));
            assert(pl@.take(i as int + 1).last() == pl@[i as int]);
        }
        let p = pl[i].1;
        if p > worst {
            worst = p;
        }
        total = total + p as u128;
        i += 1;
    }
    proof {
        assert(pl@.take(n as int) =~= pl@);
    }
    (total, worst)
}

/// One pass over the placements: the doubled point total and the smallest
/// (worst) doubled point value.
pub fn sum_min_points(pl: &Vec<(u32, u32)>) -> (r: (u128, u128))
    ensures
        r.0 as int == sum_points_h(pl@),
        r.1 as int == min_points_h(pl@),
{
    let n = pl.len();
    let mut total: u128 = 0;
    let mut worst: u128 = 0;
    let mut i: usize = 0;
    while i < n
        invariant
            0 <= i <= n,
            n == pl@.len(),
            total as int == sum_points_h(pl@.take(i as int)),
            worst as int == min_points_h(pl@.take(i as int)),
        decreases n - i,
    {
        proof {
            lemma_sum_points_bounds(pl@.take(i as int));
            lemma_points_halved_bounds(pl@[i as int].1);
            assert(pl@.take(i as int + 1).drop_last() =~= pl@.take(i as int));
            assert(pl@.take(i as int + 1).last() == pl@[i as int]);
        }
        let ph = crate::constants::point_values_halved(pl[i].1) as u128;
        if i == 0 || ph <= worst {
            worst = ph;
        }
        total = total + ph;
        i += 1;
    }
    proof {
        assert(pl@.take(n as int) =~= pl@);
    }
    (total, worst)
}

/// One pass over the placements: the entrant-weighted doubled point total
/// and the smallest (worst) weighted value.
pub fn sum_min_weighted(pl: &Vec<(u32, u32)>, es: &Vec<u32>) -> (r: (u128, u128))
    requires
        ids_below(pl@, es@.len() as int),
    ensures
        r.0 as int == sum_weighted_h(pl@, es@),
        r.1 as int == min_weighted_h(pl@, es@),
{
    let n = pl.len();
    let mut total: u128 = 0;
    let mut worst: u128 = 0;
    let mut i: usize = 0;
    while i < n
        invariant
            0 <= i <= n,
            n == pl@.len(),
            ids_below(pl@, es@.len() as int),
            total as int == sum_weighted_h(pl@.take(i as int), es@),
            worst as int == min_weighted_h(pl@.take(i as int), es@),
        decreases n - i,
    {
        proof {
            assert(ids_below(pl@.take(i as int), es@.len() as int)) by {
                assert(forall|k: int|
                    0 <= k < i ==> pl@.take(i as int)[k].0 == pl@[k].0 && pl@[k].0 < es@.len());
            }
            lemma_sum_weighted_bounds(pl@.take(i as int), es@);
            lemma_wval_bounds(pl@[i as int], es@);
            assert(pl@.take(i as int + 1).drop_last() =~= pl@.take(i as int));
            assert(pl@.take(i as int + 1).last() == pl@[i as int]);
            vstd::arithmetic::mul::lemma_mul_upper_bound(
                points_halved(pl@[i as int].1),
                22,
                es@[pl@[i as int].0 as int] as int,
                u32::MAX as int,
            );
        }
        let e = pl[i];
        let ph = crate::constants::point_values_halved(e.1) as u128;
        let w = ph * (es[e.0 as usize] as u128);
        if i == 0 || w <= worst {
            worst = w;
        }
        total = total + w;
        i += 1;
    }
    proof {
        assert(pl@.take(n as int) =~= pl@);
    }
    (total, worst)
}

/// The sum of all entrant counts.
pub fn total_entrants_exec(es: &Vec<u32>) -> (r: u128)
    ensures
        r as int == total_entrants(es@),
{
    let n = es.len();
    let mut total: u128 = 0;
    let mut i: usize = 0;
    while i < n
        invariant
            0 <= i <= n,
            n == es@.len(),
            total as int == total_entrants(es@.take(i as int)),
        decreases n - i,
    {
        proof {
            lemma_total_entrants_bounds(es@.take(i as int));
            assert(es@.take(i as int + 1).drop_last() =~= es@.take(i as int));
            assert(es@.take(i as int + 1).last() == es@[i as int]);
        }
        total = total + es[i] as u128;
        i += 1;
    }
    proof {
        assert(es@.take(n as int) =~= es@);
    }
    total
}

/// The sum of the most recent five ranks (all of them when there are fewer).
pub fn sum_last_five(h: &Vec<u32>) -> (r: u128)
    ensures
        r as int == sum_ranks(last_five(h@)),
{
    let n = h.len();
    let start: usize = if n > 5 {
        n - 5
    } else {
        0
    };
    let mut total: u128 = 0;
    let mut j: usize = start;
    while j < n
        invariant
            start <= j <= n,
            n == h@.len(),
            total as int == sum_ranks(h@.subrange(start as int, j as int)),
        decreases n - j,
    {
        proof {
            lemma_sum_ranks_bounds(h@.subrange(start as int, j as int));
            assert(h@.subrange(start as int, j as int + 1).drop_last() =~= h@.subrange(
                start as int,
                j as int,
            ));
            assert(h@.subrange(start as int, j as int + 1).last() == h@[j as int]);
        }
        total = total + h[j] as u128;
        j += 1;
    }
    proof {
        assert(h@.subrange(start as int, n as int) =~= last_five(h@));
    }
    total
}

/// The divisor `max(n - 1, 4)`.
pub fn denom_val(n: usize) -> (d: u128)
    ensures
        d as int == denom_spec(n as int),
{
    if n >= 6 {
        (n - 1) as u128
    } else {
        4
    }
}

/// Sorts a list of entrant counts in place, ascending.
pub fn sort_u32s(v: &mut Vec<u32>)
    ensures
        vstd::relations::sorted_by(final(v)@, u32_leq()),
        final(v)@.to_multiset() == old(v)@.to_multiset(),
        final(v)@.len() == old(v)@.len(),
{
    broadcast use vstd::seq_lib::group_to_multiset_ensures;

    if v.len() < 2 {
        return ;
    }
    let mut i: usize = 1;
    while i < v.len()
        invariant
            1 <= i <= v@.len(),
            v@.len() == old(v)@.len(),
            v@.len() >= 2,
            v@.to_multiset() == old(v)@.to_multiset(),
            forall|a: int, b: int| 0 <= a < b < i ==> v@[a] <= v@[b],
        decreases v@.len() - i,
    {
        let x = v[i];
        let mut j: usize = i;
        while j > 0 && v[j - 1] > x
            invariant
                0 <= j <= i < v@.len(),
                forall|k: int| j <= k < i ==> v@[k] > x,
            decreases j,
        {
            j -= 1;
        }
        let ghost before = v@;
        v.remove(i);
        v.insert(j, x);
        proof {
            broadcast use vstd::multiset::group_multiset_axioms;

            assert(v@ =~= before.remove(i as int).insert(j as int, x));
            assert(before.contains(x)) by {
                assert(before[i as int] == x);
            }
            vstd::seq_lib::to_multiset_remove(before, i as int);
            vstd::seq_lib::to_multiset_insert(before.remove(i as int), j as int, x);
            assert(before.remove(i as int).to_multiset() == before.to_multiset().remove(x));
            assert(v@.to_multiset() == before.remove(i as int).to_multiset().insert(x));
            vstd::seq_lib::to_multiset_contains(before, x);
            assert(before.to_multiset().count(x) >= 1);
            assert(v@.to_multiset() =~= before.to_multiset());
            assert forall|a: int, b: int| 0 <= a < b < i + 1 implies v@[a] <= v@[b] by {
                if b < j {
                } else if a < j && b == j {
                    assert(v@[a] == before[a] && before[a] <= before[j as int - 1]);
                } else if a == j {
                } else if a < j {
                } else {
                }
            }
        }
        i += 1;
    }
    proof {
        assert(vstd::relations::sorted_by(v@, u32_leq())) by {
            assert(forall|a: int, b: int|
                0 <= a < b < v@.len() ==> #[trigger] u32_leq()(v@[a], v@[b]));
        }
    }
}

/// The numerator and denominator of the median entrant count.
pub fn median_parts(es: &Vec<u32>) -> (r: (u128, u128))
    requires
        es@.len() >= 1,
    ensures
        r.0 as int == median_num(es@),
        r.1 as int == median_den(es@),
{
    broadcast use vstd::seq_lib::group_to_multiset_ensures;

    let n = es.len();
    let mut s: Vec<u32> = Vec::new();
    let mut i: usize = 0;
    while i < n
        invariant
            0 <= i <= n,
            n == es@.len(),
            s@ =~= es@.take(i as int),
        decreases n - i,
    {
        s.push(es[i]);
        i += 1;
    }
    proof {
        assert(s@ =~= es@);
    }
    sort_u32s(&mut s);
    proof {
        lemma_u32_leq_total_ordering();
        es@.lemma_sort_by_ensures(u32_leq());
        vstd::seq_lib::lemma_sorted_unique(s@, sorted_entrants(es@), u32_leq());
        assert(s@ =~= sorted_entrants(es@));
    }
    if n % 2 == 1 {
        (s[n / 2] as u128, 1)
    } else {
        ((s[n / 2 - 1] as u128) + (s[n / 2] as u128), 2)
    }
}

} // verus!
