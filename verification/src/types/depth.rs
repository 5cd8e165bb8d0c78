//! A walk through the book, held against exact arithmetic: how much it fills, and that no other
//! way of taking as much is better.
use vstd::prelude::*;
use crate::double::{Arithmetic, Double, ONE, ZERO};
use crate::rounding::{
    gap, law_exact_orders, law_powers_are_ordered, lemma_exact_power, lemma_product_near,
    lemma_quotient_near, lemma_sum_near, two_to, unit,
};
use crate::types::market::{
    law_walk_takes_the_best_first, taken, walk_result, walk_state, DepthLevel, WalkResult,
};
use crate::types::validate;

verus! {

/// The sum of whole amounts.
pub open spec fn sum_of(amounts: Seq<int>) -> int
    decreases amounts.len(),
{
    if amounts.len() == 0 {
        0
    } else {
        sum_of(amounts.drop_last()) + amounts.last()
    }
}

/// What amounts cost at the exact prices of the levels they are taken from.
pub open spec fn cost_of(amounts: Seq<int>, levels: Seq<DepthLevel>) -> int
    decreases amounts.len(),
{
    if amounts.len() == 0 {
        0
    } else {
        cost_of(amounts.drop_last(), levels.drop_last()) + amounts.last()
            * levels.last().price.exact()
    }
}

/// The exact sizes of the levels.
pub open spec fn sizes_of(levels: Seq<DepthLevel>) -> Seq<int> {
    levels.map_values(|l: DepthLevel| l.size.exact())
}

/// What a walk takes of each level, exactly.
pub open spec fn takes_of(c: &Arithmetic, levels: Seq<DepthLevel>, target: Double) -> Seq<int> {
    Seq::new(levels.len(), |i: int| taken(c, levels, target, i).exact())
}

/// A size as a distance.
pub open spec fn apart(a: int, b: int) -> int {
    if a < b {
        b - a
    } else {
        a - b
    }
}

/// What rounding moves of the remaining target, over all the steps of a walk.
pub open spec fn remainder_slack(c: &Arithmetic, levels: Seq<DepthLevel>, target: Double) -> int
    decreases levels.len(),
{
    if levels.len() == 0 {
        0
    } else {
        let before = remainder_slack(c, levels.drop_last(), target);
        let s = walk_state(c, levels.drop_last(), target);
        if s.remaining.le(Double::from_bits(ZERO)) {
            before
        } else {
            let take = levels.last().size.smaller(s.remaining);
            before + apart(
                c.minus(s.remaining, take).exact(),
                s.remaining.exact() - take.exact(),
            )
        }
    }
}

/// What rounding moves of the filled size, over all the steps of a walk.
pub open spec fn filled_slack(c: &Arithmetic, levels: Seq<DepthLevel>, target: Double) -> int
    decreases levels.len(),
{
    if levels.len() == 0 {
        0
    } else {
        let before = filled_slack(c, levels.drop_last(), target);
        let s = walk_state(c, levels.drop_last(), target);
        if s.remaining.le(Double::from_bits(ZERO)) {
            before
        } else {
            let take = levels.last().size.smaller(s.remaining);
            before + apart(c.plus(s.filled, take).exact(), s.filled.exact() + take.exact())
        }
    }
}

/// Whether every level has a size that is finite and not negative.
pub open spec fn are_sized(levels: Seq<DepthLevel>) -> bool {
    forall|i: int| 0 <= i < levels.len() ==> validate::is_non_negative((#[trigger] levels[i]).size)
}

proof fn lemma_takes_of_prefix(c: &Arithmetic, levels: Seq<DepthLevel>, target: Double)
    requires
        levels.len() > 0,
    ensures
        takes_of(c, levels, target).drop_last() == takes_of(c, levels.drop_last(), target),
        sizes_of(levels).drop_last() == sizes_of(levels.drop_last()),
{
    let rest = levels.drop_last();
    assert forall|i: int| 0 <= i < rest.len() implies taken(c, levels, target, i) == taken(
        c,
        rest,
        target,
        i,
    ) by {
        assert(levels.take(i) =~= rest.take(i));
        assert(levels[i] == rest[i]);
    }
    assert(takes_of(c, levels, target).drop_last() =~= takes_of(c, rest, target));
    assert(sizes_of(levels).drop_last() =~= sizes_of(rest));
}

proof fn lemma_walk(c: &Arithmetic, levels: Seq<DepthLevel>, target: Double)
    requires
        c.is_ieee(),
        c.keeps_order(),
        validate::is_non_negative(target),
        are_sized(levels),
    ensures
        ({
            let s = walk_state(c, levels, target);
            let took = sum_of(takes_of(c, levels, target));
            let total = sum_of(sizes_of(levels));
            &&& Double::from_bits(ZERO).le(s.remaining)
            &&& s.remaining.is_finite()
            &&& Double::from_bits(ZERO).le(s.filled)
            &&& apart(s.remaining.exact(), target.exact() - took) <= remainder_slack(
                c,
                levels,
                target,
            )
            &&& apart(s.filled.exact(), took) <= filled_slack(c, levels, target)
            &&& took <= total
            &&& took == total || s.remaining.is_zero()
        }),
    decreases levels.len(),
{
    let zero = Double::from_bits(ZERO);
    law_exact_orders(zero, zero);
    if levels.len() > 0 {
        let rest = levels.drop_last();
        let last = levels[levels.len() - 1];
        assert(last == levels.last());
        assert forall|i: int| 0 <= i < rest.len() implies validate::is_non_negative(
            (#[trigger] rest[i]).size,
        ) by {
            assert(rest[i] == levels[i]);
        }
        lemma_walk(c, rest, target);
        lemma_takes_of_prefix(c, levels, target);
        let s = walk_state(c, rest, target);
        let takes = takes_of(c, levels, target);
        assert(levels.take(levels.len() - 1) =~= rest);
        assert(takes.last() == taken(c, levels, target, levels.len() - 1).exact());
        assert(sizes_of(levels).last() == last.size.exact());
        law_exact_orders(zero, last.size);
        law_exact_orders(s.remaining, zero);
        if !s.remaining.le(zero) {
            let take = last.size.smaller(s.remaining);
            assert(zero.le(take) && take.le(s.remaining));
            assert(take.is_finite());
            let left = c.minus(s.remaining, take);
            assert(left.le(s.remaining));
            assert(c.minus(take, take).is_zero());
            assert(c.minus(take, take).le(left));
            assert(zero.le(c.plus(s.filled, take)));
            law_exact_orders(s.remaining, last.size);
            if take != last.size {
                assert(take == s.remaining);
                assert(left.is_zero());
            }
        }
    } else {
        assert(takes_of(c, levels, target) =~= Seq::<int>::empty());
        assert(sizes_of(levels) =~= Seq::<int>::empty());
    }
}

/// A walk fills the smaller of the target and all that the levels hold, up to what rounding moves
/// in the steps of the walk. Where no step rounds, it is exactly that.
pub proof fn law_walk_fills_the_smaller(c: &Arithmetic, levels: Seq<DepthLevel>, target: Double)
    requires
        c.is_ieee(),
        c.keeps_order(),
        validate::is_non_negative(target),
        are_sized(levels),
    ensures
        ({
            let filled = match walk_result(c, levels, target) {
                Some(w) => w.filled_size.exact(),
                None => 0,
            };
            let total = sum_of(sizes_of(levels));
            let smaller = if target.exact() < total {
                target.exact()
            } else {
                total
            };
            apart(filled, smaller) <= remainder_slack(c, levels, target) + filled_slack(
                c,
                levels,
                target,
            )
        }),
{
    let zero = Double::from_bits(ZERO);
    lemma_walk(c, levels, target);
    let s = walk_state(c, levels, target);
    law_exact_orders(zero, s.remaining);
    law_exact_orders(s.remaining, zero);
    law_exact_orders(s.filled, zero);
    law_exact_orders(zero, s.filled);
    law_exact_orders(zero, zero);
    law_exact_orders(target, zero);
    if target.le(zero) {
        lemma_nothing_asked(c, levels, target);
    }
    if levels.len() == 0 {
        assert(sizes_of(levels) =~= Seq::<int>::empty());
    }
}

proof fn lemma_nothing_asked(c: &Arithmetic, levels: Seq<DepthLevel>, target: Double)
    requires
        target.le(Double::from_bits(ZERO)),
    ensures
        walk_state(c, levels, target).remaining == target,
        walk_state(c, levels, target).filled == Double::from_bits(ZERO),
    decreases levels.len(),
{
    if levels.len() > 0 {
        lemma_nothing_asked(c, levels.drop_last(), target);
    }
}

proof fn lemma_whole_up_to(c: &Arithmetic, levels: Seq<DepthLevel>, target: Double, n: int) -> (p:
    int)
    requires
        0 <= n <= levels.len(),
    ensures
        0 <= p <= n,
        forall|i: int| 0 <= i < p ==> #[trigger] taken(c, levels, target, i) == levels[i].size,
        p < n ==> taken(c, levels, target, p) != levels[p].size,
    decreases n,
{
    if n == 0 {
        0
    } else {
        let p = lemma_whole_up_to(c, levels, target, n - 1);
        if p == n - 1 && taken(c, levels, target, p) == levels[p].size {
            n
        } else {
            p
        }
    }
}

proof fn lemma_exchange(
    takes: Seq<int>,
    other: Seq<int>,
    levels: Seq<DepthLevel>,
    price: int,
    dearer: bool,
)
    requires
        takes.len() == levels.len(),
        other.len() == levels.len(),
        forall|i: int|
            0 <= i < levels.len() ==> ({
                let x = (#[trigger] levels[i]).price.exact();
                let (more, less) = (takes[i] >= other[i], takes[i] <= other[i]);
                if dearer {
                    (more && x >= price) || (less && x <= price)
                } else {
                    (more && x <= price) || (less && x >= price)
                }
            }),
    ensures
        !dearer ==> cost_of(takes, levels) - cost_of(other, levels) <= price * (sum_of(takes)
            - sum_of(other)),
        dearer ==> cost_of(takes, levels) - cost_of(other, levels) >= price * (sum_of(takes)
            - sum_of(other)),
    decreases levels.len(),
{
    if levels.len() > 0 {
        let n = levels.len() - 1;
        let (a, b, rest) = (takes.drop_last(), other.drop_last(), levels.drop_last());
        assert forall|i: int| 0 <= i < rest.len() implies ({
            let x = (#[trigger] rest[i]).price.exact();
            let (more, less) = (a[i] >= b[i], a[i] <= b[i]);
            if dearer {
                (more && x >= price) || (less && x <= price)
            } else {
                (more && x <= price) || (less && x >= price)
            }
        }) by {
            assert(rest[i] == levels[i]);
        }
        lemma_exchange(a, b, rest, price, dearer);
        let (t, o, x) = (takes[n], other[n], levels[n].price.exact());
        let d = sum_of(a) - sum_of(b);
        assert(price * (d + (t - o)) == price * d + price * (t - o)) by (nonlinear_arith);
        assert(t * x - o * x == x * (t - o)) by (nonlinear_arith);
        if dearer {
            assert(x * (t - o) >= price * (t - o)) by (nonlinear_arith)
                requires
                    (t >= o && x >= price) || (t <= o && x <= price),
            ;
        } else {
            assert(x * (t - o) <= price * (t - o)) by (nonlinear_arith)
                requires
                    (t >= o && x <= price) || (t <= o && x >= price),
            ;
        }
    } else {
        assert(price * 0 == 0);
    }
}

/// No other way of taking as much is better: where asks ascend nothing costs less than what the
/// walk takes, and where bids descend nothing brings more. The other way takes of each level what
/// it likes, up to its size.
pub proof fn law_no_other_way_is_better(
    c: &Arithmetic,
    levels: Seq<DepthLevel>,
    target: Double,
    other: Seq<int>,
)
    requires
        c.is_ieee(),
        c.keeps_order(),
        validate::is_non_negative(target),
        are_sized(levels),
        other.len() == levels.len(),
        forall|i: int|
            0 <= i < levels.len() ==> 0 <= #[trigger] other[i] <= levels[i].size.exact(),
        sum_of(other) == sum_of(takes_of(c, levels, target)),
    ensures
        (forall|i: int, j: int|
            0 <= i <= j < levels.len() ==> (#[trigger] levels[i]).price.le(
                (#[trigger] levels[j]).price,
            )) ==> cost_of(takes_of(c, levels, target), levels) <= cost_of(other, levels),
        (forall|i: int, j: int|
            0 <= i <= j < levels.len() ==> (#[trigger] levels[i]).price.ge(
                (#[trigger] levels[j]).price,
            )) ==> cost_of(takes_of(c, levels, target), levels) >= cost_of(other, levels),
{
    let takes = takes_of(c, levels, target);
    if levels.len() > 0 {
        let whole = lemma_whole_up_to(c, levels, target, levels.len() as int);
        let p = if whole < levels.len() {
            whole
        } else {
            levels.len() - 1
        };
        let price = levels[p].price.exact();
        assert forall|i: int| 0 <= i < levels.len() implies 0 <= #[trigger] takes[i] && (i < p
            ==> takes[i] == levels[i].size.exact()) && (i > p ==> takes[i] == 0) by {
            lemma_taken(c, levels, target, i, p);
        }
        let ascend = forall|i: int, j: int|
            0 <= i <= j < levels.len() ==> (#[trigger] levels[i]).price.le(
                (#[trigger] levels[j]).price,
            );
        let descend = forall|i: int, j: int|
            0 <= i <= j < levels.len() ==> (#[trigger] levels[i]).price.ge(
                (#[trigger] levels[j]).price,
            );
        assert(price * 0 == 0);
        if ascend {
            assert forall|i: int| 0 <= i < levels.len() implies ({
                let x = (#[trigger] levels[i]).price.exact();
                (takes[i] >= other[i] && x <= price) || (takes[i] <= other[i] && x >= price)
            }) by {
                assert(0 <= other[i] <= levels[i].size.exact());
                assert(0 <= takes[i]);
                law_exact_orders(levels[i].price, levels[p].price);
                law_exact_orders(levels[p].price, levels[i].price);
            }
            lemma_exchange(takes, other, levels, price, false);
        }
        if descend {
            assert forall|i: int| 0 <= i < levels.len() implies ({
                let x = (#[trigger] levels[i]).price.exact();
                (takes[i] >= other[i] && x >= price) || (takes[i] <= other[i] && x <= price)
            }) by {
                assert(0 <= other[i] <= levels[i].size.exact());
                assert(0 <= takes[i]);
                law_exact_orders(levels[i].price, levels[p].price);
                law_exact_orders(levels[p].price, levels[i].price);
            }
            lemma_exchange(takes, other, levels, price, true);
        }
    }
}

proof fn lemma_taken(c: &Arithmetic, levels: Seq<DepthLevel>, target: Double, i: int, p: int)
    requires
        c.is_ieee(),
        c.keeps_order(),
        validate::is_non_negative(target),
        are_sized(levels),
        0 <= i < levels.len(),
        0 <= p < levels.len(),
        forall|j: int| 0 <= j < p ==> #[trigger] taken(c, levels, target, j) == levels[j].size,
        p < levels.len() - 1 ==> taken(c, levels, target, p) != levels[p].size,
    ensures
        0 <= taken(c, levels, target, i).exact(),
        i < p ==> taken(c, levels, target, i) == levels[i].size,
        i > p ==> taken(c, levels, target, i).exact() == 0,
{
    let zero = Double::from_bits(ZERO);
    let upto = levels.take(i);
    assert forall|j: int| 0 <= j < upto.len() implies validate::is_non_negative(
        (#[trigger] upto[j]).size,
    ) by {
        assert(upto[j] == levels[j]);
    }
    lemma_walk(c, upto, target);
    let take = taken(c, levels, target, i);
    assert(validate::is_non_negative(levels[i].size));
    assert(zero.le(take));
    law_exact_orders(zero, zero);
    law_exact_orders(zero, take);
    law_exact_orders(take, zero);
    if i > p && take.gt(zero) {
        assert(validate::is_non_negative(levels[p].size));
        law_walk_takes_the_best_first(c, levels, target, i, p);
    }
}

/// The exact size that a walk filled.
pub open spec fn filled_by(w: Option<WalkResult>) -> int {
    match w {
        Some(r) => r.filled_size.exact(),
        None => 0,
    }
}

/// What a walk paid, exactly: its size at its average price.
pub open spec fn paid_by(w: Option<WalkResult>) -> int {
    match w {
        Some(r) => r.avg_price.exact() * r.filled_size.exact(),
        None => 0,
    }
}

/// Whether every level has a price between 0 and 1.
pub open spec fn are_priced(levels: Seq<DepthLevel>) -> bool {
    forall|i: int| 0 <= i < levels.len() ==> validate::is_probability((#[trigger] levels[i]).price)
}

/// What one more level adds to a walk is paid at that level's price, up to a few roundings, and
/// no average price is above one.
pub proof fn law_each_level_is_paid_at_its_price(
    c: &Arithmetic,
    levels: Seq<DepthLevel>,
    target: Double,
    next: DepthLevel,
)
    requires
        c.is_ieee(),
        c.keeps_order(),
        c.rounds(),
        c.is_accurate(),
        validate::is_non_negative(target),
        are_sized(levels.push(next)),
        are_priced(levels.push(next)),
        walk_result(c, levels, target) matches Some(w) ==> w.filled_size.le(two_to(20)),
        walk_result(c, levels.push(next), target) matches Some(w) ==> w.filled_size.le(two_to(20)),
    ensures
        ({
            let before = walk_result(c, levels, target);
            let after = walk_result(c, levels.push(next), target);
            &&& gap(
                paid_by(after),
                paid_by(before) + (filled_by(after) - filled_by(before)) * next.price.exact(),
            ) <= 5 * two_to(-33).exact() * unit()
            &&& after matches Some(w) ==> w.avg_price.abs().le(Double::from_bits(ONE))
        }),
{
    let zero = Double::from_bits(ZERO);
    let one = Double::from_bits(ONE);
    let all = levels.push(next);
    assert(all.drop_last() =~= levels);
    assert(all.last() == next && all[levels.len() as int] == next);
    assert forall|i: int| 0 <= i < levels.len() implies validate::is_non_negative(
        (#[trigger] levels[i]).size,
    ) && validate::is_probability(levels[i].price) by {
        assert(all[i] == levels[i]);
    }
    let (s, t) = (walk_state(c, levels, target), walk_state(c, all, target));
    lemma_walk(c, levels, target);
    lemma_walk(c, all, target);
    lemma_notional(c, levels, target);
    lemma_notional(c, all, target);
    let (u, e) = (unit(), two_to(-33).exact());
    lemma_exact_power(-33);
    lemma_exact_power(0);
    lemma_exact_power(20);
    law_powers_are_ordered(0, 20);
    assert(two_to(0) == one);
    let eu = e * u;
    assert(eu >= 0 && 5 * e * u == 5 * eu) by (nonlinear_arith)
        requires
            e >= 0,
            u >= 0,
            eu == e * u,
    ;
    if target.le(zero) {
        lemma_nothing_asked(c, all, target);
        lemma_nothing_asked(c, levels, target);
    }
    lemma_paid(c, levels, target);
    lemma_paid(c, all, target);
    law_exact_orders(zero, next.price);
    law_exact_orders(next.price, one);
    let p = next.price.exact();
    if s.remaining.le(zero) {
        assert(t == s);
        assert(0 * p == 0) by (nonlinear_arith);
        assert(levels.len() == 0 ==> walk_result(c, levels, target) is None);
        if levels.len() == 0 {
            assert(s.remaining == target);
        }
    } else {
        let take = next.size.smaller(s.remaining);
        assert(zero.le(take) && take.is_finite());
        law_exact_orders(s.filled, two_to(20));
        law_exact_orders(t.filled, two_to(20));
        law_exact_orders(zero, two_to(20));
        law_exact_orders(zero, zero);
        law_exact_orders(zero, s.filled);
        law_exact_orders(zero, t.filled);
        law_exact_orders(zero, take);
        assert(s.filled.le(two_to(20)) && t.filled.le(two_to(20)));
        reveal(Arithmetic::rounds_sums);
        assert(c.plus(take, s.filled) == t.filled);
        assert(take.le(t.filled));
        law_exact_orders(take, two_to(20));
        let k = take.exact();
        let most = two_to(20).exact();
        lemma_sum_near(c, s.filled, take, 20);
        assert(gap(k * p, 0) <= most * u) by (nonlinear_arith)
            requires
                0 <= k <= most,
                0 <= p <= u,
        ;
        lemma_product_near(c, take, next.price, 20);
        let cost = c.times(take, next.price);
        law_exact_orders(s.notional, s.filled);
        law_exact_orders(zero, s.notional);
        law_exact_orders(t.notional, t.filled);
        law_exact_orders(zero, t.notional);
        assert(t.notional == c.plus(s.notional, cost));
        assert(t.notional.abs().le(two_to(20)));
        lemma_sum_near(c, s.notional, cost, 20);
        let (n, m, v) = (s.notional.exact(), t.notional.exact(), cost.exact());
        let (f, g) = (s.filled.exact(), t.filled.exact());
        assert(gap(m * u, n * u + v * u) <= eu) by (nonlinear_arith)
            requires
                gap(m, n + v) <= e,
                u >= 0,
                eu == e * u,
        ;
        assert(gap(k * p, (g - f) * p) <= eu) by (nonlinear_arith)
            requires
                gap(g, f + k) <= e,
                0 <= p <= u,
                eu == e * u,
                e >= 0,
        ;
    }
}

proof fn lemma_notional(c: &Arithmetic, levels: Seq<DepthLevel>, target: Double)
    requires
        c.is_ieee(),
        c.keeps_order(),
        c.rounds(),
        validate::is_non_negative(target),
        are_sized(levels),
        are_priced(levels),
    ensures
        ({
            let s = walk_state(c, levels, target);
            &&& Double::from_bits(ZERO).le(s.notional)
            &&& s.notional.le(s.filled)
        }),
    decreases levels.len(),
{
    let zero = Double::from_bits(ZERO);
    let one = Double::from_bits(ONE);
    if levels.len() > 0 {
        let rest = levels.drop_last();
        let last = levels[levels.len() - 1];
        assert(last == levels.last());
        assert forall|i: int| 0 <= i < rest.len() implies validate::is_non_negative(
            (#[trigger] rest[i]).size,
        ) && validate::is_probability(rest[i].price) by {
            assert(rest[i] == levels[i]);
        }
        lemma_notional(c, rest, target);
        lemma_walk(c, rest, target);
        let s = walk_state(c, rest, target);
        if !s.remaining.le(zero) {
            let take = last.size.smaller(s.remaining);
            assert(zero.le(take) && take.is_finite());
            let cost = c.times(take, last.price);
            assert(c.times(take, one) == take);
            assert(zero.le(cost) && cost.le(take));
            reveal(Arithmetic::rounds_sums);
            assert(zero.le(c.plus(s.notional, cost)));
            assert(c.plus(s.notional, cost).le(c.plus(s.notional, take)));
            assert(c.plus(s.notional, take) == c.plus(take, s.notional));
            assert(c.plus(s.filled, take) == c.plus(take, s.filled));
            assert(c.plus(take, s.notional).le(c.plus(take, s.filled)));
        }
    }
}

proof fn lemma_paid(c: &Arithmetic, levels: Seq<DepthLevel>, target: Double)
    requires
        c.is_accurate(),
        Double::from_bits(ZERO).le(walk_state(c, levels, target).notional),
        walk_state(c, levels, target).notional.le(walk_state(c, levels, target).filled),
        walk_result(c, levels, target) matches Some(w) ==> w.filled_size.le(two_to(20)),
        Double::from_bits(ZERO).lt(target) || walk_state(c, levels, target).filled.is_zero(),
    ensures
        ({
            let r = walk_result(c, levels, target);
            let s = walk_state(c, levels, target);
            &&& filled_by(r) == s.filled.exact()
            &&& gap(paid_by(r), s.notional.exact() * unit()) <= two_to(-33).exact() * unit()
            &&& r is None ==> s.filled.exact() == 0 && s.notional.exact() == 0
            &&& r matches Some(w) ==> w.avg_price.abs().le(Double::from_bits(ONE))
        }),
{
    let zero = Double::from_bits(ZERO);
    let one = Double::from_bits(ONE);
    let r = walk_result(c, levels, target);
    let s = walk_state(c, levels, target);
    let (u, e) = (unit(), two_to(-33).exact());
    lemma_exact_power(-33);
    lemma_exact_power(-53);
    lemma_exact_power(0);
    lemma_exact_power(20);
    law_powers_are_ordered(20, 20);
    assert(two_to(0) == one);
    law_exact_orders(zero, s.notional);
    law_exact_orders(s.notional, s.filled);
    law_exact_orders(s.filled, zero);
    law_exact_orders(zero, zero);
    let (n, f) = (s.notional.exact(), s.filled.exact());
    assert(e * u >= 0) by (nonlinear_arith)
        requires
            e >= 0,
            u >= 0,
    ;
    if r is Some {
        law_exact_orders(s.filled, two_to(20));
        assert(gap(n * u, 0) <= u * gap(f, 0)) by (nonlinear_arith)
            requires
                0 <= n <= f,
                u >= 0,
        ;
        lemma_quotient_near(c, s.notional, s.filled, 0);
        vstd::arithmetic::power2::lemma_pow2_adds(1094, 1021);
        vstd::arithmetic::power2::lemma_pow2_adds(1041, 1074);
        let (d, most) = (two_to(-53).exact(), two_to(20).exact());
        assert(d * gap(f, 0) <= e * u) by (nonlinear_arith)
            requires
                0 <= f <= most,
                most * d == e * u,
                d >= 0,
        ;
    } else {
        assert(f == 0);
        assert(0 * u == 0) by (nonlinear_arith);
    }
}

} // verus!
