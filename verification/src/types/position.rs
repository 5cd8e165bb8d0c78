//! Positions: signed holdings with their cost basis.
use vstd::prelude::*;
use crate::double::{Arithmetic, Double, ONE, SIGN, ZERO};
use crate::rounding::{
    gap, law_exact_orders, law_powers_are_ordered, lemma_exact_power, lemma_product_near,
    lemma_quotient_near, lemma_size, lemma_sum_near, two_to, unit,
};
use crate::types::contract::CanonicalContractId;
use crate::types::validate;
use crate::types::validate::{Fault, ValidationError};
use crate::types::venue::VenueId;

verus! {

/// The holding in one contract on one venue. `qty` is signed: positive is long YES,
/// negative is short YES.
#[derive(Debug, PartialEq)]
pub struct Position {
    pub venue: VenueId,
    pub contract: CanonicalContractId,
    pub qty: Double,
    pub avg_price: Double,
    /// What every fill that reduced or flipped the position has realized.
    pub realized_pnl: Double,
    /// What every fill has cost in fees, apart from `realized_pnl`.
    pub fees_paid: Double,
}

/// 1e-9. A smaller quantity is residue of rounding and counts as flat, so that nothing
/// divides by it.
pub const DUST_EPSILON: u64 = 0x3E11_2E0B_E826_D695;

/// Whether a quantity counts as none.
pub open spec fn is_dust(qty: Double) -> bool {
    qty.abs().lt(Double::from_bits(DUST_EPSILON))
}

impl Clone for Position {
    fn clone(&self) -> (r: Self)
        ensures
            r == *self,
    {
        Position {
            venue: self.venue,
            contract: self.contract.clone(),
            qty: self.qty,
            avg_price: self.avg_price,
            realized_pnl: self.realized_pnl,
            fees_paid: self.fees_paid,
        }
    }
}

impl Position {
    /// No holding, nothing realized.
    pub open spec fn flat_spec(venue: VenueId, contract: CanonicalContractId) -> Position {
        Position {
            venue,
            contract,
            qty: Double::from_bits(ZERO),
            avg_price: Double::from_bits(ZERO),
            realized_pnl: Double::from_bits(ZERO),
            fees_paid: Double::from_bits(ZERO),
        }
    }

    /// No holding, nothing realized.
    #[verifier::when_used_as_spec(flat_spec)]
    pub fn flat(venue: VenueId, contract: CanonicalContractId) -> (r: Position)
        ensures
            r == Position::flat_spec(venue, contract),
    {
        let zero = Double::from_bits(ZERO);
        Position {
            venue,
            contract,
            qty: zero,
            avg_price: zero,
            realized_pnl: zero,
            fees_paid: zero,
        }
    }

    /// Whether the holding counts as none.
    pub fn is_flat(&self) -> (r: bool)
        ensures
            r == is_dust(self.qty),
    {
        self.qty.abs().lt(Double::from_bits(DUST_EPSILON))
    }

    /// The first field that is out of range.
    pub open spec fn fault(&self, c: &Arithmetic) -> Option<Fault> {
        validate::first_fault(
            validate::finite_fault(c, "qty"@, self.qty),
            validate::first_fault(
                validate::finite_fault(c, "avg_price"@, self.avg_price),
                validate::first_fault(
                    if is_dust(self.qty) {
                        None
                    } else {
                        validate::probability_fault(c, "avg_price"@, self.avg_price)
                    },
                    validate::first_fault(
                        validate::finite_fault(c, "realized_pnl"@, self.realized_pnl),
                        validate::non_negative_fault(c, "fees_paid"@, self.fees_paid),
                    ),
                ),
            ),
        )
    }

    /// Accepts finite numbers, fees that are not negative and, for a position that is not
    /// flat, an average price that is a probability.
    pub fn validate(&self, c: &Arithmetic) -> (r: Result<(), ValidationError>)
        ensures
            validate::fault_in(r) == self.fault(c),
    {
        match validate::finite(c, "qty", self.qty) {
            Err(e) => return Err(e),
            Ok(_) => {},
        }
        match validate::finite(c, "avg_price", self.avg_price) {
            Err(e) => return Err(e),
            Ok(_) => {},
        }
        if !self.is_flat() {
            match validate::probability(c, "avg_price", self.avg_price) {
                Err(e) => return Err(e),
                Ok(_) => {},
            }
        }
        match validate::finite(c, "realized_pnl", self.realized_pnl) {
            Err(e) => return Err(e),
            Ok(_) => {},
        }
        validate::non_negative(c, "fees_paid", self.fees_paid)
    }

    /// The gain or loss not yet realized, against a fair value.
    pub open spec fn unrealized(&self, c: &Arithmetic, fair_mid: Double) -> Double {
        c.times(self.qty, c.minus(fair_mid, self.avg_price))
    }

    /// The gain or loss not yet realized, against a fair value.
    pub fn unrealized_pnl(&self, c: &Arithmetic, fair_mid: Double) -> (r: Double)
        ensures
            r == self.unrealized(c, fair_mid),
    {
        c.times(self.qty, c.minus(fair_mid, self.avg_price))
    }

    /// Whether a fill adds to the holding: there is none, or both have one sign.
    pub open spec fn adds(&self, fill: Double) -> bool {
        self.qty.same(Double::from_bits(ZERO)) || self.qty.signum().same(fill.signum())
    }

    /// What a fill realizes: nothing where it adds; else the closed quantity against the
    /// average price that the holding had.
    pub open spec fn realized_by(&self, c: &Arithmetic, fill: Double, price: Double) -> Double {
        if self.adds(fill) {
            Double::from_bits(ZERO)
        } else {
            c.times(
                c.times(fill.abs().smaller(self.qty.abs()), c.minus(price, self.avg_price)),
                self.qty.signum(),
            )
        }
    }

    /// The position after a fill:
    /// - dust left over becomes flat, with no average price;
    /// - a fill that adds blends the average price;
    /// - a fill that reduces leaves the average price as it was;
    /// - a fill that flips opens the remainder at the price of the fill.
    pub open spec fn filled(
        &self,
        c: &Arithmetic,
        fill: Double,
        price: Double,
        fee: Double,
    ) -> Position {
        let new_qty = c.plus(self.qty, fill);
        let (qty, avg_price) = if is_dust(new_qty) {
            (Double::from_bits(ZERO), Double::from_bits(ZERO))
        } else if self.adds(fill) {
            (
                new_qty,
                c.over(c.plus(c.times(self.avg_price, self.qty), c.times(price, fill)), new_qty),
            )
        } else if new_qty.signum().same(self.qty.signum()) {
            (new_qty, self.avg_price)
        } else {
            (new_qty, price)
        };
        Position {
            venue: self.venue,
            contract: self.contract,
            qty,
            avg_price,
            realized_pnl: c.plus(self.realized_pnl, self.realized_by(c, fill, price)),
            fees_paid: c.plus(self.fees_paid, fee),
        }
    }

    /// Applies one signed fill and returns what it realized.
    pub fn apply_fill(
        &mut self,
        c: &Arithmetic,
        fill_qty_signed: Double,
        fill_price: Double,
        fee: Double,
    ) -> (r: Double)
        ensures
            r == old(self).realized_by(c, fill_qty_signed, fill_price),
            *final(self) == old(self).filled(c, fill_qty_signed, fill_price, fee),
    {
        let zero = Double::from_bits(ZERO);
        let dust = Double::from_bits(DUST_EPSILON);
        let adding = self.qty.same(zero) || self.qty.signum().same(fill_qty_signed.signum());
        let new_qty = c.plus(self.qty, fill_qty_signed);
        let mut realized = zero;
        if adding {
            if new_qty.abs().lt(dust) {
                self.qty = zero;
                self.avg_price = zero;
            } else {
                self.avg_price =
                c.over(
                    c.plus(c.times(self.avg_price, self.qty), c.times(fill_price, fill_qty_signed)),
                    new_qty,
                );
                self.qty = new_qty;
            }
        } else {
            let closing_qty = fill_qty_signed.abs().smaller(self.qty.abs());
            realized =
            c.times(
                c.times(closing_qty, c.minus(fill_price, self.avg_price)),
                self.qty.signum(),
            );
            if new_qty.abs().lt(dust) {
                self.qty = zero;
                self.avg_price = zero;
            } else if new_qty.signum().same(self.qty.signum()) {
                self.qty = new_qty;
            } else {
                self.qty = new_qty;
                self.avg_price = fill_price;
            }
        }
        self.realized_pnl = c.plus(self.realized_pnl, realized);
        self.fees_paid = c.plus(self.fees_paid, fee);
        realized
    }
}

/// After any fill the quantity is zero or no dust, and a position that became flat has no
/// average price to divide by later.
pub proof fn law_fill_leaves_no_dust(
    c: &Arithmetic,
    p: Position,
    fill: Double,
    price: Double,
    fee: Double,
)
    ensures
        ({
            let after = p.filled(c, fill, price, fee);
            is_dust(after.qty) ==> after.qty == Double::from_bits(ZERO) && after.avg_price
                == Double::from_bits(ZERO)
        }),
{
}

/// A fill on the same side realizes nothing. One on the other side that does not cross
/// through flat leaves the average price alone; one that crosses restarts it at the price
/// of the fill.
pub proof fn law_fill_cases(c: &Arithmetic, p: Position, fill: Double, price: Double, fee: Double)
    ensures
        ({
            let after = p.filled(c, fill, price, fee);
            let crossed = c.plus(p.qty, fill);
            &&& p.adds(fill) ==> p.realized_by(c, fill, price) == Double::from_bits(ZERO)
            &&& !p.adds(fill) && !is_dust(crossed) && crossed.signum().same(p.qty.signum())
                ==> after.avg_price == p.avg_price
            &&& !p.adds(fill) && !is_dust(crossed) && !crossed.signum().same(p.qty.signum())
                ==> after.avg_price == price
        }),
{
}

/// Closing realizes what was not realized yet: where a fill closes the whole holding, what it
/// realizes is what the holding was up at that price, and nothing is held after it.
pub proof fn law_closing_realizes_the_unrealized(
    c: &Arithmetic,
    p: Position,
    price: Double,
    fee: Double,
)
    requires
        c.is_ieee(),
        c.keeps_order(),
        c.rounds(),
        c.rounds_differences(),
        p.qty.is_finite(),
        !is_dust(p.qty),
        validate::is_probability(p.avg_price),
        validate::is_probability(price),
    ensures
        p.realized_by(c, p.qty.neg(), price).same(c.times(p.qty, c.minus(price, p.avg_price))),
        p.unrealized(c, price).same(c.times(p.qty, c.minus(price, p.avg_price))),
        p.filled(c, p.qty.neg(), price, fee).qty == Double::from_bits(ZERO),
{
    reveal(Arithmetic::rounds_products);
    reveal(Arithmetic::rounds_differences);
    let zero = Double::from_bits(ZERO);
    let one = Double::from_bits(ONE);
    let fill = p.qty.neg();
    let size = p.qty.abs();
    assert(fill.abs() == size);
    assert(size.smaller(size) == size);
    let d = c.minus(price, p.avg_price);
    crate::sim::equity::lemma_distance(c, price, p.avg_price);
    crate::sim::equity::lemma_product_sign(c, size, d);
    crate::sim::equity::lemma_product_sign(c, p.qty, d);
    let x = c.times(size, d);
    assert(x.is_finite()) by {
        assert(x.abs().le(size.abs()));
    }
    assert(c.times(x, one) == x);
    assert(c.times(x, one.neg()) == c.times(x, one).neg());
    assert(Double::from_bits(0xBFF0_0000_0000_0000) == one.neg());
    if p.qty.bits >= SIGN {
        assert(p.qty == size.neg());
        assert(c.times(d, size) == x);
        assert(c.times(d, size.neg()) == x.neg());
        assert(c.times(size.neg(), d) == c.times(d, size.neg()));
    } else {
        assert(p.qty == size);
    }
    assert(c.minus(p.qty, p.qty) == c.plus(p.qty, fill));
    assert(c.plus(p.qty, fill).is_zero());
}

/// Selling dearer than it cost is a gain and selling cheaper a loss, and the other way round for
/// what is short: a fill against the holding realizes the closed quantity times the distance of its
/// price from the average price, in the holding's favour. It closes no more than is held.
pub proof fn law_closing_fills_realize_gains_and_losses(
    c: &Arithmetic,
    p: Position,
    fill: Double,
    price: Double,
)
    requires
        c.is_ieee(),
        c.keeps_order(),
        c.rounds(),
        c.rounds_differences(),
        p.qty.is_finite(),
        fill.is_finite(),
        !p.qty.is_zero(),
        p.qty.gt(Double::from_bits(ZERO)) ==> fill.lt(Double::from_bits(ZERO)),
        p.qty.lt(Double::from_bits(ZERO)) ==> fill.gt(Double::from_bits(ZERO)),
        validate::is_probability(p.avg_price),
        validate::is_probability(price),
    ensures
        ({
            let zero = Double::from_bits(ZERO);
            let realized = p.realized_by(c, fill, price);
            let closed = if fill.abs().lt(p.qty.abs()) {
                fill.abs()
            } else {
                p.qty.abs()
            };
            let up = p.qty.gt(zero) && p.avg_price.le(price) || p.qty.lt(zero) && price.le(
                p.avg_price,
            );
            let down = p.qty.gt(zero) && price.le(p.avg_price) || p.qty.lt(zero) && p.avg_price.le(
                price,
            );
            &&& up ==> zero.le(realized)
            &&& down ==> realized.le(zero)
            &&& p.qty.gt(zero) ==> realized.same(c.times(closed, c.minus(price, p.avg_price)))
            &&& p.qty.lt(zero) ==> realized.same(
                c.times(closed, c.minus(price, p.avg_price)).neg(),
            )
        }),
{
    reveal(Arithmetic::rounds_products);
    let zero = Double::from_bits(ZERO);
    let one = Double::from_bits(ONE);
    let closed = fill.abs().smaller(p.qty.abs());
    let d = c.minus(price, p.avg_price);
    crate::sim::equity::lemma_distance(c, price, p.avg_price);
    crate::sim::equity::lemma_product_sign(c, closed, d);
    let x = c.times(closed, d);
    assert(x.is_finite()) by {
        assert(x.abs().le(closed.abs()));
    }
    assert(c.times(x, one) == x);
    assert(c.times(x, one.neg()) == c.times(x, one).neg());
    assert(Double::from_bits(0xBFF0_0000_0000_0000) == one.neg());
}

/// A fill moves the quantity by itself, unless only dust is left; what it realized and its fee are
/// added to what was realized and paid before; and a first fill is held at its own price.
pub proof fn law_fill_moves_the_holding_by_itself(
    c: &Arithmetic,
    p: Position,
    fill: Double,
    price: Double,
    fee: Double,
)
    ensures
        ({
            let after = p.filled(c, fill, price, fee);
            let sum = c.plus(p.qty, fill);
            &&& !sum.abs().lt(Double::from_bits(DUST_EPSILON)) ==> after.qty == sum
            &&& sum.abs().lt(Double::from_bits(DUST_EPSILON)) ==> after.qty == Double::from_bits(
                ZERO,
            )
            &&& after.realized_pnl == c.plus(p.realized_pnl, p.realized_by(c, fill, price))
            &&& after.fees_paid == c.plus(p.fees_paid, fee)
            &&& after.venue == p.venue && after.contract == p.contract
        }),
{
}

/// Adding to a holding keeps its cost: what is held after it, at its average price, cost what was
/// held before and what was added together, up to 2^-29. Quantities lie between 2^-10 and 2^20.
pub proof fn law_adding_keeps_the_cost(
    c: &Arithmetic,
    p: Position,
    fill: Double,
    price: Double,
    fee: Double,
)
    requires
        c.is_ieee(),
        c.keeps_order(),
        c.rounds(),
        c.is_accurate(),
        two_to(-10).le(p.qty),
        p.qty.le(two_to(20)),
        two_to(-10).le(fill),
        fill.le(two_to(20)),
        validate::is_probability(p.avg_price),
        validate::is_probability(price),
    ensures
        ({
            let after = p.filled(c, fill, price, fee);
            let before = p.avg_price.exact() * p.qty.exact();
            let added = price.exact() * fill.exact();
            gap(after.avg_price.exact() * (p.qty.exact() + fill.exact()), before + added) <= 16
                * two_to(-33).exact() * unit()
        }),
{
    let zero = Double::from_bits(ZERO);
    let one = Double::from_bits(ONE);
    let u = unit();
    law_powers_are_ordered(-10, 20);
    law_powers_are_ordered(20, 21);
    law_powers_are_ordered(0, 1);
    lemma_cost_powers();
    let e = two_to(-33).exact();
    let top = two_to(20).exact();
    let (a, q, x, f) = (p.avg_price.exact(), p.qty.exact(), price.exact(), fill.exact());
    law_exact_orders(two_to(-10), p.qty);
    law_exact_orders(p.qty, two_to(20));
    law_exact_orders(two_to(-10), fill);
    law_exact_orders(fill, two_to(20));
    law_exact_orders(zero, p.avg_price);
    law_exact_orders(p.avg_price, one);
    law_exact_orders(zero, price);
    law_exact_orders(price, one);
    lemma_exact_power(0);
    lemma_exact_power(-10);
    assert(two_to(0) == one);
    assert(0 <= a * q <= top * u) by (nonlinear_arith)
        requires
            0 <= a <= u,
            0 <= q <= top,
    ;
    assert(0 <= x * f <= top * u) by (nonlinear_arith)
        requires
            0 <= x <= u,
            0 <= f <= top,
    ;
    lemma_product_near(c, p.avg_price, p.qty, 20);
    lemma_product_near(c, price, fill, 20);
    let (s, t) = (c.times(p.avg_price, p.qty), c.times(price, fill));
    assert(zero.le(s) && zero.le(t));
    law_exact_orders(zero, s);
    law_exact_orders(zero, t);
    lemma_size(s, two_to(20));
    lemma_size(t, two_to(20));
    lemma_sum_near(c, s, t, 21);
    lemma_sum_near(c, p.qty, fill, 21);
    let (sum, n) = (c.plus(s, t), c.plus(p.qty, fill));
    lemma_size(sum, two_to(21));
    lemma_size(n, two_to(21));
    // What it cost is no more than one a piece.
    lemma_cost_bound(a, q, x, f, u, e, s.exact(), t.exact(), sum.exact(), n.exact());
    assert(!n.is_zero()) by {
        law_exact_orders(n, zero);
    }
    lemma_quotient_near(c, sum, n, 1);
    let avg = c.over(sum, n);
    lemma_size(avg, two_to(1));
    lemma_cost_kept(
        a,
        q,
        x,
        f,
        u,
        e,
        s.exact(),
        t.exact(),
        sum.exact(),
        n.exact(),
        avg.exact(),
    );
    assert(!is_dust(n)) by {
        law_exact_orders(two_to(-10), n);
        assert(two_to(-10).le(n));
    }
    assert(p.adds(fill));
}

proof fn lemma_cost_powers()
    ensures
        two_to(-33).exact() > 0,
        two_to(-32).exact() == 2 * two_to(-33).exact(),
        two_to(-52).exact() * two_to(21).exact() == 4 * two_to(-33).exact() * unit(),
        two_to(21).exact() == 2 * two_to(20).exact(),
        two_to(1).exact() == 2 * unit(),
        two_to(-10).exact() >= 64 * two_to(-33).exact(),
        two_to(-52).exact() > 0,
        unit() > 0,
{
    lemma_exact_power(-52);
    lemma_exact_power(-33);
    lemma_exact_power(-32);
    lemma_exact_power(-31);
    lemma_exact_power(-30);
    lemma_exact_power(-29);
    lemma_exact_power(-28);
    lemma_exact_power(20);
    lemma_exact_power(0);
    law_powers_are_ordered(-27, -10);
    law_exact_orders(two_to(-27), two_to(-10));
    assert(two_to(0) == Double::from_bits(ONE));
    crate::alpha::log_odds::lemma_power_product(-52, 21);
    assert(4 * two_to(-33).exact() * unit() == two_to(-31).exact() * unit());
}

proof fn lemma_cost_bound(
    a: int,
    q: int,
    x: int,
    f: int,
    u: int,
    e: int,
    s: int,
    t: int,
    sum: int,
    n: int,
)
    requires
        0 <= a <= u,
        0 <= x <= u,
        q >= 64 * e,
        f >= 64 * e,
        e > 0,
        u > 0,
        gap(s * u, a * q) <= e * u,
        gap(t * u, x * f) <= e * u,
        gap(sum, s + t) <= 2 * e,
        gap(n, q + f) <= 2 * e,
    ensures
        gap(sum * u, 0) <= 2 * u * gap(n, 0),
        n > 0,
        n >= q,
{
    assert(s <= q + e) by (nonlinear_arith)
        requires
            s * u <= a * q + e * u,
            a <= u,
            q >= 0,
            u > 0,
    ;
    assert(t <= f + e) by (nonlinear_arith)
        requires
            t * u <= x * f + e * u,
            x <= u,
            f >= 0,
            u > 0,
    ;
    assert(s >= -e) by (nonlinear_arith)
        requires
            s * u >= a * q - e * u,
            a >= 0,
            q >= 0,
            u > 0,
    ;
    assert(t >= -e) by (nonlinear_arith)
        requires
            t * u >= x * f - e * u,
            x >= 0,
            f >= 0,
            u > 0,
    ;
    assert(-2 * n <= sum <= 2 * n);
    assert(gap(sum * u, 0) <= 2 * u * n) by (nonlinear_arith)
        requires
            -2 * n <= sum <= 2 * n,
            u > 0,
    ;
}

proof fn lemma_cost_kept(
    a: int,
    q: int,
    x: int,
    f: int,
    u: int,
    e: int,
    s: int,
    t: int,
    sum: int,
    n: int,
    avg: int,
)
    requires
        u > 0,
        e > 0,
        n > 0,
        gap(s * u, a * q) <= e * u,
        gap(t * u, x * f) <= e * u,
        gap(sum, s + t) <= 2 * e,
        gap(n, q + f) <= 2 * e,
        -2 * u <= avg <= 2 * u,
        gap(avg * n, sum * u) <= two_to(-52).exact() * gap(n, 0),
        n <= two_to(21).exact(),
        two_to(-52).exact() * two_to(21).exact() == 4 * e * u,
        two_to(-52).exact() > 0,
    ensures
        gap(avg * (q + f), a * q + x * f) <= 16 * e * u,
{
    let k = two_to(-52).exact();
    let top = two_to(21).exact();
    assert(k * n <= 4 * e * u) by (nonlinear_arith)
        requires
            n <= top,
            k > 0,
            k * top == 4 * e * u,
    ;
    let d = n - (q + f);
    assert(avg * n == avg * (q + f) + avg * d) by (nonlinear_arith)
        requires
            d == n - (q + f),
    ;
    assert(gap(avg * d, 0) <= 4 * (e * u)) by (nonlinear_arith)
        requires
            -2 * u <= avg <= 2 * u,
            -2 * e <= d <= 2 * e,
            u > 0,
            e > 0,
    ;
    let r = sum - (s + t);
    assert(sum * u == s * u + t * u + r * u) by (nonlinear_arith)
        requires
            r == sum - (s + t),
    ;
    assert(gap(r * u, 0) <= 2 * (e * u)) by (nonlinear_arith)
        requires
            -2 * e <= r <= 2 * e,
            u > 0,
    ;
    assert(4 * e * u == 4 * (e * u)) by (nonlinear_arith);
    assert(16 * e * u == 16 * (e * u)) by (nonlinear_arith);
    let w = e * u;
    assert(gap(n, 0) == n);
    assert(k * gap(n, 0) == k * n);
    lemma_add_up(
        avg * n,
        sum * u,
        s * u,
        t * u,
        a * q,
        x * f,
        avg * d,
        r * u,
        avg * (q + f),
        k * n,
        w,
    );
}

proof fn lemma_add_up(
    p1: int,
    p2: int,
    su: int,
    tu: int,
    aq: int,
    xf: int,
    ad: int,
    ru: int,
    p3: int,
    kn: int,
    w: int,
)
    requires
        gap(p1, p2) <= kn,
        kn <= 4 * w,
        gap(su, aq) <= w,
        gap(tu, xf) <= w,
        gap(ad, 0) <= 4 * w,
        gap(ru, 0) <= 2 * w,
        p1 == p3 + ad,
        p2 == su + tu + ru,
    ensures
        gap(p3, aq + xf) <= 16 * w,
{
}


/// Which way a fill goes decides what it does. On the side of the holding, or on a flat one, it
/// realizes nothing; against it, it realizes, and leaves the average price where it was as long as
/// the holding stays on its side; and where it crosses to the other side, what is left is held at
/// the price of the fill.
pub proof fn law_direction_of_a_fill_decides(
    c: &Arithmetic,
    p: Position,
    fill: Double,
    price: Double,
    fee: Double,
)
    requires
        p.qty.is_finite(),
        fill.is_finite(),
        !fill.is_zero(),
    ensures
        ({
            let zero = Double::from_bits(ZERO);
            let after = p.filled(c, fill, price, fee);
            let sum = c.plus(p.qty, fill);
            let same_side = zero.lt(p.qty) && zero.lt(fill) || p.qty.lt(zero) && fill.lt(zero);
            let against = zero.lt(p.qty) && fill.lt(zero) || p.qty.lt(zero) && zero.lt(fill);
            let left = !sum.abs().lt(Double::from_bits(DUST_EPSILON)) && !sum.is_nan();
            &&& p.qty.is_zero() || same_side ==> p.realized_by(c, fill, price) == zero
            &&& against && left && (zero.lt(p.qty) && zero.lt(sum) || p.qty.lt(zero)
                && sum.lt(zero)) ==> after.avg_price == p.avg_price
            &&& against && left && (zero.lt(p.qty) && sum.lt(zero) || p.qty.lt(zero)
                && zero.lt(sum)) ==> after.avg_price == price
            &&& against ==> p.realized_by(c, fill, price) == c.times(
                c.times(fill.abs().smaller(p.qty.abs()), c.minus(price, p.avg_price)),
                if zero.lt(p.qty) {
                    Double::from_bits(ONE)
                } else {
                    Double::from_bits(ONE).neg()
                },
            )
        }),
{
}

} // verus!
