//! What holds of fees: what they are a share of, who pays which rate, and how they are rounded.
use vstd::prelude::*;
use crate::double::{Arithmetic, Double, ONE, ZERO};
use crate::rounding::{
    gap, law_exact_orders, law_powers_are_ordered, lemma_difference_near, lemma_exact_power,
    lemma_product_near, lemma_quotient_near, lemma_size, lemma_sum_near, two_to, unit,
};
use crate::types::venue::{FeeModel, FeeSchedule, VenueId};

verus! {

/// A fee that is not rounded is the rate of its side, times the contracts, times the price, times
/// what the price leaves to one, up to a few roundings.
pub proof fn law_fee_is_a_share_of_the_variance(
    c: &Arithmetic,
    model: FeeModel,
    is_maker: bool,
    contracts: Double,
    price: Double,
)
    requires
        c.is_accurate(),
        model.maker_rate.abs().le(Double::from_bits(ONE)),
        model.taker_rate.abs().le(Double::from_bits(ONE)),
        model.round_up_to.is_zero(),
        contracts.abs().le(two_to(20)),
        Double::from_bits(ZERO).le(price),
        price.le(Double::from_bits(ONE)),
    ensures
        ({
            let rate = if is_maker {
                model.maker_rate.exact()
            } else {
                model.taker_rate.exact()
            };
            let fee = model.fee_of(c, is_maker, contracts, price);
            &&& fee.is_finite()
            &&& gap(
                fee.exact() * unit() * unit() * unit(),
                rate * contracts.exact() * price.exact() * (unit() - price.exact()),
            ) <= 4 * two_to(-33).exact() * unit() * unit() * unit()
        }),
{
    let one = Double::from_bits(ONE);
    let zero = Double::from_bits(ZERO);
    let rate = if is_maker {
        model.maker_rate
    } else {
        model.taker_rate
    };
    let (u, big, e) = (unit(), two_to(20).exact(), two_to(-33).exact());
    lemma_exact_power(-33);
    lemma_exact_power(-53);
    lemma_exact_power(0);
    lemma_exact_power(20);
    assert(two_to(0) == one);
    lemma_powers_between();
    law_exact_orders(zero, price);
    law_exact_orders(price, one);
    lemma_size(rate, one);
    lemma_size(contracts, two_to(20));
    let (r, n, p) = (rate.exact(), contracts.exact(), price.exact());
    assert(gap(r * n, 0) <= big * u) by (nonlinear_arith)
        requires
            -u <= r <= u,
            -big <= n <= big,
    ;
    lemma_product_near(c, rate, contracts, 20);
    let a = c.times(rate, contracts);
    lemma_size(a, two_to(20));
    let x = a.exact();
    assert(gap(x * p, 0) <= big * u) by (nonlinear_arith)
        requires
            -big <= x <= big,
            0 <= p <= u,
    ;
    lemma_product_near(c, a, price, 20);
    let b = c.times(a, price);
    lemma_size(b, two_to(20));
    let y = b.exact();
    lemma_difference_near(c, one, price, 0);
    let left = c.minus(one, price);
    lemma_size(left, one);
    let q = left.exact();
    assert(gap(y * q, 0) <= big * u) by (nonlinear_arith)
        requires
            -big <= y <= big,
            -u <= q <= u,
    ;
    lemma_product_near(c, b, left, 20);
    let z = c.times(b, left).exact();
    let d = two_to(-53).exact();
    assert(big * d == e * u);
    lemma_scaled(z * u, y * q, e * u, u * u);
    lemma_scaled(y * u, x * p, e * u, q * u);
    lemma_scaled(x * u, r * n, e * u, p * q);
    lemma_scaled(q, u - p, d, r * n * p);
    assert(gap(q * u, 0) <= u * u && gap(p * q, 0) <= u * u) by (nonlinear_arith)
        requires
            0 <= p <= u,
            -u <= q <= u,
    ;
    assert(gap(r * n * p, 0) <= big * u * u) by (nonlinear_arith)
        requires
            gap(r * n, 0) <= big * u,
            0 <= p <= u,
    ;
    lemma_regroup(r, n, p, q, u, x, y, z);
    assert(e * u * gap(q * u, 0) <= e * u * (u * u) && e * u * gap(p * q, 0) <= e * u * (u * u))
        by (nonlinear_arith)
        requires
            e * u >= 0,
            gap(q * u, 0) <= u * u,
            gap(p * q, 0) <= u * u,
    ;
    assert(e * u >= 0 && gap(u * u, 0) == u * u) by (nonlinear_arith)
        requires
            e >= 0,
            u >= 0,
    ;
    assert(d * gap(r * n * p, 0) <= e * u * (u * u)) by (nonlinear_arith)
        requires
            d >= 0,
            gap(r * n * p, 0) <= big * u * u,
            big * d == e * u,
    ;
    assert(4 * e * u * u * u == 4 * (e * u * (u * u))) by (nonlinear_arith);
}

/// How two numbers that are near each other are after both were multiplied.
proof fn lemma_scaled(a: int, b: int, near: int, by: int)
    requires
        gap(a, b) <= near,
    ensures
        gap(a * by, b * by) <= near * gap(by, 0),
{
    assert(gap(a * by, b * by) <= near * gap(by, 0)) by (nonlinear_arith)
        requires
            gap(a, b) <= near,
    ;
}

proof fn lemma_regroup(r: int, n: int, p: int, q: int, u: int, x: int, y: int, z: int)
    ensures
        (z * u) * (u * u) == z * u * u * u,
        (y * q) * (u * u) == (y * u) * (q * u),
        (x * p) * (q * u) == (x * u) * (p * q),
        (r * n) * (p * q) == q * (r * n * p),
        r * n * p * (u - p) == (u - p) * (r * n * p),
{
    assert((z * u) * (u * u) == z * u * u * u) by (nonlinear_arith);
    assert((y * q) * (u * u) == (y * u) * (q * u)) by (nonlinear_arith);
    assert((x * p) * (q * u) == (x * u) * (p * q)) by (nonlinear_arith);
    assert((r * n) * (p * q) == q * (r * n * p)) by (nonlinear_arith);
    assert(r * n * p * (u - p) == (u - p) * (r * n * p)) by (nonlinear_arith);
}

proof fn lemma_powers_between()
    ensures
        two_to(20).exact() * two_to(-53).exact() == two_to(-33).exact() * unit(),
{
    lemma_exact_power(20);
    lemma_exact_power(-53);
    lemma_exact_power(-33);
    vstd::arithmetic::power2::lemma_pow2_adds(1094, 1021);
    vstd::arithmetic::power2::lemma_pow2_adds(1041, 1074);
}

/// A side's fee has nothing to do with the other side's rate.
pub proof fn law_each_side_pays_its_own_rate(
    c: &Arithmetic,
    model: FeeModel,
    other: Double,
    contracts: Double,
    price: Double,
)
    ensures
        model.fee_of(c, true, contracts, price) == (FeeModel { taker_rate: other, ..model }).fee_of(
            c,
            true,
            contracts,
            price,
        ),
        model.fee_of(c, false, contracts, price) == (FeeModel {
            maker_rate: other,
            ..model
        }).fee_of(c, false, contracts, price),
        (FeeModel { maker_rate: model.taker_rate, ..model }).fee_of(c, true, contracts, price)
            == model.fee_of(c, false, contracts, price),
{
}

/// Whether `fee` is `k` steps, up to a rounding.
pub open spec fn is_multiple(fee: int, k: int, step: int) -> bool {
    gap(fee * unit(), k * unit() * step) <= two_to(-22).exact() * unit()
}

/// Rounding to a unit takes a fee up to the next multiple of it: never below what it was, and
/// never a whole unit above, up to a few roundings.
pub proof fn law_fees_round_up(
    c: &Arithmetic,
    model: FeeModel,
    is_maker: bool,
    contracts: Double,
    price: Double,
)
    requires
        c.is_accurate(),
        c.rounds_up(),
        two_to(-20).le(model.round_up_to),
        model.round_up_to.le(Double::from_bits(ONE)),
        (FeeModel { round_up_to: Double::from_bits(ZERO), ..model }).fee_of(
            c,
            is_maker,
            contracts,
            price,
        ).abs().le(two_to(10)),
    ensures
        ({
            let raw = (FeeModel { round_up_to: Double::from_bits(ZERO), ..model }).fee_of(
                c,
                is_maker,
                contracts,
                price,
            ).exact();
            let fee = model.fee_of(c, is_maker, contracts, price).exact();
            &&& raw - 3 * two_to(-22).exact() <= fee
            &&& fee < raw + model.round_up_to.exact() + 3 * two_to(-22).exact()
            &&& exists|k: int| is_multiple(fee, k, model.round_up_to.exact())
        }),
{
    let plain = FeeModel { round_up_to: Double::from_bits(ZERO), ..model };
    let raw = plain.fee_of(c, is_maker, contracts, price);
    let step = model.round_up_to;
    let (one, zero) = (Double::from_bits(ONE), Double::from_bits(ZERO));
    let (u, e) = (unit(), two_to(-22).exact());
    lemma_exact_power(-22);
    lemma_exact_power(-23);
    lemma_exact_power(0);
    lemma_exact_power(-20);
    lemma_exact_power(10);
    lemma_exact_power(30);
    assert(two_to(0) == one);
    law_exact_orders(two_to(-20), step);
    law_exact_orders(step, one);
    law_exact_orders(step, zero);
    lemma_size(raw, two_to(10));
    law_powers_are_ordered(10, 10);
    let (w, s) = (raw.exact(), step.exact());
    vstd::arithmetic::power2::lemma_pow2_adds(1084, 1074);
    vstd::arithmetic::power2::lemma_pow2_adds(1104, 1054);
    assert(two_to(10).exact() * u == two_to(30).exact() * two_to(-20).exact());
    let below_20 = two_to(-20).exact();
    let above_10 = two_to(10).exact();
    let above_30 = two_to(30).exact();
    assert(gap(w * u, 0) <= above_30 * gap(s, 0)) by (nonlinear_arith)
        requires
            gap(w, 0) <= above_10,
            above_10 * u == above_30 * below_20,
            below_20 <= s,
            above_30 >= 0,
            u >= 0,
            s >= 0,
    ;
    lemma_quotient_near(c, raw, step, 30);
    let ratio = c.over(raw, step);
    lemma_size(ratio, two_to(30));
    reveal(Arithmetic::rounds_up);
    let up = c.ceil(ratio);
    let (q, g) = (ratio.exact(), up.exact());
    lemma_exact_power(31);
    assert(two_to(31).exact() >= two_to(30).exact() + u) by {
        vstd::arithmetic::power2::lemma_pow2_adds(30, 1074);
        vstd::arithmetic::power2::lemma_pow2_pos(30);
        let above_30 = two_to(30).exact();
        assert(above_30 >= u) by (nonlinear_arith)
            requires
                above_30 == vstd::arithmetic::power2::pow2(30) * u,
                vstd::arithmetic::power2::pow2(30) >= 1,
                u >= 0,
        ;
    }
    let above_31 = two_to(31).exact();
    assert(gap(g * s, 0) <= above_31 * u) by (nonlinear_arith)
        requires
            gap(g, 0) <= above_31,
            0 <= s <= u,
    ;
    lemma_product_near(c, up, step, 31);
    let f = c.times(up, step).exact();
    // f * u is within e * u of g * s, and q * s within e * s of w * u.
    assert(q * s <= g * s <= q * s + u * s && (s > 0 && g < q + u ==> g * s < q * s + u * s))
        by (nonlinear_arith)
        requires
            q <= g < q + u,
            s >= 0,
    ;
    let d = two_to(-23).exact();
    assert(d * gap(s, 0) <= e * u) by (nonlinear_arith)
        requires
            d <= e,
            0 <= s <= u,
            d >= 0,
    ;
    assert(w - 3 * e <= f) by (nonlinear_arith)
        requires
            gap(f * u, g * s) <= e * u,
            q * s <= g * s,
            gap(q * s, w * u) <= e * u,
            u > 0,
            e > 0,
    ;
    assert(f < w + s + 3 * e) by (nonlinear_arith)
        requires
            gap(f * u, g * s) <= e * u,
            g * s <= q * s + u * s,
            gap(q * s, w * u) <= e * u,
            u > 0,
            e > 0,
    ;
    let k = g / u;
    assert(k * u == g) by (nonlinear_arith)
        requires
            k == g / u,
            g % u == 0,
            u > 0,
    ;
    assert(k * u * s == g * s);
    assert(is_multiple(f, k, s));
}

/// Getting in and out costs the dearer side's fee twice.
pub proof fn law_round_trip_is_two_of_the_dearer_legs(
    c: &Arithmetic,
    model: FeeModel,
    price: Double,
)
    requires
        c.is_accurate(),
        forall|is_maker: bool|
            (#[trigger] model.fee_of(c, is_maker, Double::from_bits(ONE), price)).abs().le(
                Double::from_bits(ONE),
            ),
    ensures
        ({
            let maker = model.fee_of(c, true, Double::from_bits(ONE), price).exact();
            let taker = model.fee_of(c, false, Double::from_bits(ONE), price).exact();
            gap(
                model.round_trip_of(c, price).exact(),
                if maker < taker {
                    2 * taker
                } else {
                    2 * maker
                },
            ) <= two_to(-52).exact()
        }),
{
    let one = Double::from_bits(ONE);
    let (maker, taker) = (
        model.fee_of(c, true, one, price),
        model.fee_of(c, false, one, price),
    );
    lemma_exact_power(-52);
    lemma_exact_power(0);
    assert(two_to(0) == one);
    lemma_size(maker, one);
    lemma_size(taker, one);
    law_exact_orders(maker, taker);
    law_exact_orders(taker, maker);
    let leg = maker.larger(taker);
    lemma_sum_near(c, leg, leg, 1);
}

/// Each venue is charged by its own model, whatever the others charge.
pub proof fn law_each_venue_has_its_own_fees(a: FeeSchedule, b: FeeSchedule)
    ensures
        a.polymarket == b.polymarket ==> a.at(VenueId::Polymarket) == b.at(VenueId::Polymarket),
        a.kalshi == b.kalshi ==> a.at(VenueId::Kalshi) == b.at(VenueId::Kalshi),
        a.paper == b.paper ==> a.at(VenueId::Paper) == b.at(VenueId::Paper),
        a.at(VenueId::Polymarket) == a.polymarket,
        a.at(VenueId::Kalshi) == a.kalshi,
        a.at(VenueId::Paper) == a.paper,
{
}

} // verus!
