//! Relative value: how unusual the gap of a pair of markets is, by its own history.
use vstd::prelude::*;
use crate::double::{Arithmetic, Double, ONE, ZERO};
use crate::keyed::TextMap;
use crate::rounding::{
    gap, law_exact_orders, law_powers_are_ordered, lemma_difference_near, lemma_exact_power,
    lemma_product_near, lemma_quotient_near, lemma_size, lemma_sum_near, two_to, unit,
};
use crate::text;
use crate::types::contract::CanonicalContractId;

verus! {

/// Mean and variance of a stream of numbers, by Welford's method.
#[derive(Debug, Clone, Copy, PartialEq, Eq, Structural)]
pub struct WelfordState {
    pub count: u64,
    pub mean: Double,
    pub m2: Double,
}

impl WelfordState {
    /// Before the first number.
    pub open spec fn start() -> WelfordState {
        WelfordState { count: 0, mean: Double::from_bits(ZERO), m2: Double::from_bits(ZERO) }
    }

    /// The state after one more number.
    pub open spec fn after(self, c: &Arithmetic, x: Double) -> WelfordState {
        let count = (self.count + 1) as u64;
        let delta = c.minus(x, self.mean);
        let mean = c.plus(self.mean, c.over(delta, c.of_count(count)));
        WelfordState { count, mean, m2: c.plus(self.m2, c.times(delta, c.minus(x, mean))) }
    }

    /// Takes one more number in.
    pub fn update(&mut self, c: &Arithmetic, x: Double)
        requires
            old(self).count < u64::MAX,
        ensures
            *final(self) == old(self).after(c, x),
    {
        self.count = self.count + 1;
        let delta = c.minus(x, self.mean);
        self.mean = c.plus(self.mean, c.over(delta, c.of_count(self.count)));
        let delta2 = c.minus(x, self.mean);
        self.m2 = c.plus(self.m2, c.times(delta, delta2));
    }

    /// The standard deviation of the sample; none for fewer than two numbers.
    pub open spec fn deviation(self, c: &Arithmetic) -> Option<Double> {
        if self.count < 2 {
            None
        } else {
            Some(
                c.sqrt(c.over(self.m2, c.minus(c.of_count(self.count), Double::from_bits(ONE)))),
            )
        }
    }

    /// The standard deviation of the sample; none for fewer than two numbers.
    pub fn std_dev(&self, c: &Arithmetic) -> (r: Option<Double>)
        ensures
            r == self.deviation(c),
    {
        if self.count < 2 {
            return None;
        }
        Some(c.sqrt(c.over(self.m2, c.minus(c.of_count(self.count), Double::from_bits(ONE)))))
    }
}

impl Default for WelfordState {
    fn default() -> (r: WelfordState)
        ensures
            r == WelfordState::start(),
    {
        WelfordState { count: 0, mean: Double::from_bits(ZERO), m2: Double::from_bits(ZERO) }
    }
}

/// Scores the gap of each pair of markets against that pair's own past.
#[derive(Debug)]
pub struct RelativeValueMonitor {
    pairs: TextMap<TextMap<WelfordState>>,
    min_std_dev: Double,
}

/// Two markets in order, and the gap between them in that order.
pub struct OrderedGap {
    pub first: Seq<char>,
    pub second: Seq<char>,
    pub gap: Double,
}

/// The pair in the order of its ids; the gap changes sign where the pair is turned round.
pub open spec fn ordered(a: Seq<char>, b: Seq<char>, gap: Double) -> OrderedGap {
    if text::before(b, a) {
        OrderedGap { first: b, second: a, gap: gap.neg() }
    } else {
        OrderedGap { first: a, second: b, gap }
    }
}

impl RelativeValueMonitor {
    /// The floor of the deviation.
    pub closed spec fn floor(&self) -> Double {
        self.min_std_dev
    }

    /// Whether a pair, in order, has been seen.
    pub closed spec fn knows(&self, first: Seq<char>, second: Seq<char>) -> bool {
        self.pairs@.contains_key(first) && self.pairs@[first]@.contains_key(second)
    }

    /// The history of a pair, in order.
    pub closed spec fn history(&self, first: Seq<char>, second: Seq<char>) -> WelfordState {
        if self.knows(first, second) {
            self.pairs@[first]@[second]
        } else {
            WelfordState::start()
        }
    }

    /// No history yet.
    pub fn new(min_std_dev: Double) -> (r: RelativeValueMonitor)
        ensures
            r.floor() == min_std_dev,
            forall|a: Seq<char>, b: Seq<char>| !#[trigger] r.knows(a, b),
            forall|a: Seq<char>, b: Seq<char>| #[trigger]
                r.history(a, b) == WelfordState::start(),
    {
        RelativeValueMonitor { pairs: TextMap::new(), min_std_dev }
    }

    fn canonicalize<'a>(
        a: &'a CanonicalContractId,
        b: &'a CanonicalContractId,
        gap: Double,
    ) -> (r: (&'a CanonicalContractId, &'a CanonicalContractId, Double))
        ensures
            ordered(a@, b@, gap) == (OrderedGap { first: r.0@, second: r.1@, gap: r.2 }),
    {
        if text::text_before(b.0.as_str(), a.0.as_str()) {
            (b, a, gap.neg())
        } else {
            (a, b, gap)
        }
    }

    fn look_up(&self, first: &CanonicalContractId, second: &CanonicalContractId) -> (r: Option<
        WelfordState,
    >)
        ensures
            r == (if self.knows(first@, second@) {
                Some(self.history(first@, second@))
            } else {
                None
            }),
    {
        match self.pairs.get(first.0.as_str()) {
            Some(row) => match row.get(second.0.as_str()) {
                Some(state) => Some(*state),
                None => None,
            },
            None => None,
        }
    }

    /// The score of a gap against a history: its distance from the mean in deviations.
    pub open spec fn score(
        c: &Arithmetic,
        history: WelfordState,
        gap: Double,
        floor: Double,
    ) -> Option<Double> {
        match history.deviation(c) {
            Some(std) => Some(c.over(c.minus(gap, history.mean), std.larger(floor))),
            None => None,
        }
    }

    /// Scores a gap against the history before it, then adds it. The order of the two markets
    /// does not matter. `None` until the pair has been seen twice.
    pub fn update_and_score(
        &mut self,
        c: &Arithmetic,
        a: &CanonicalContractId,
        b: &CanonicalContractId,
        current_gap: Double,
    ) -> (r: Option<Double>)
        requires
            ({
                let o = ordered(a@, b@, current_gap);
                old(self).history(o.first, o.second).count < u64::MAX
            }),
        ensures
            ({
                let o = ordered(a@, b@, current_gap);
                let before = old(self).history(o.first, o.second);
                &&& r == RelativeValueMonitor::score(c, before, o.gap, old(self).floor())
                &&& final(self).knows(o.first, o.second)
                &&& final(self).history(o.first, o.second) == before.after(c, o.gap)
                &&& forall|x: Seq<char>, y: Seq<char>|
                    !(x == o.first && y == o.second) ==> #[trigger] final(self).knows(x, y) == old(
                        self,
                    ).knows(x, y) && final(self).history(x, y) == old(self).history(x, y)
            }),
            final(self).floor() == old(self).floor(),
    {
        let (first, second, gap) = RelativeValueMonitor::canonicalize(a, b, current_gap);
        let mut state = match self.look_up(first, second) {
            Some(state) => state,
            None => WelfordState {
                count: 0,
                mean: Double::from_bits(ZERO),
                m2: Double::from_bits(ZERO),
            },
        };
        let score = match state.std_dev(c) {
            Some(std) => Some(c.over(c.minus(gap, state.mean), std.larger(self.min_std_dev))),
            None => None,
        };
        state.update(c, gap);
        let mut row = match self.pairs.take(first.0.as_str()) {
            Some(row) => row,
            None => TextMap::new(),
        };
        row.insert(second.0.clone(), state);
        self.pairs.insert(first.0.clone(), row);
        score
    }

    /// The mean gap of a pair, in the order in which the markets are given.
    pub fn typical_gap(
        &self,
        c: &Arithmetic,
        a: &CanonicalContractId,
        b: &CanonicalContractId,
    ) -> (r: Option<Double>)
        ensures
            ({
                let o = ordered(a@, b@, Double::from_bits(ONE));
                r == (if self.knows(o.first, o.second) {
                    Some(c.times(self.history(o.first, o.second).mean, o.gap))
                } else {
                    None
                })
            }),
    {
        let (first, second, sign) = RelativeValueMonitor::canonicalize(
            a,
            b,
            Double::from_bits(ONE),
        );
        match self.look_up(first, second) {
            Some(s) => Some(c.times(s.mean, sign)),
            None => None,
        }
    }

    /// The deviation of a pair's gap.
    pub fn gap_volatility(
        &self,
        c: &Arithmetic,
        a: &CanonicalContractId,
        b: &CanonicalContractId,
    ) -> (r: Option<Double>)
        ensures
            ({
                let o = ordered(a@, b@, Double::from_bits(ONE));
                r == (if self.knows(o.first, o.second) {
                    self.history(o.first, o.second).deviation(c)
                } else {
                    None
                })
            }),
    {
        let (first, second, _) = RelativeValueMonitor::canonicalize(a, b, Double::from_bits(ONE));
        match self.look_up(first, second) {
            Some(s) => s.std_dev(c),
            None => None,
        }
    }
}

impl Default for RelativeValueMonitor {
    fn default() -> (r: RelativeValueMonitor)
        ensures
            r.floor() == Double::from_bits(ZERO),
            forall|a: Seq<char>, b: Seq<char>| !#[trigger] r.knows(a, b),
            forall|a: Seq<char>, b: Seq<char>| #[trigger]
                r.history(a, b) == WelfordState::start(),
    {
        RelativeValueMonitor::new(Double::from_bits(ZERO))
    }
}

/// Turning a pair round, with the sign of its gap, names the same pair and the same gap.
pub proof fn law_order_of_the_pair_does_not_matter(a: Seq<char>, b: Seq<char>, gap: Double)
    requires
        a != b,
    ensures
        ordered(a, b, gap) == ordered(b, a, gap.neg()),
{
    text::lemma_before_total(a, b);
}

/// The mean that is reported for a pair changes sign, and nothing else, where the pair is turned
/// round; in the order of the ids it is the mean of the gaps themselves.
pub proof fn law_typical_gap_turns_round(
    c: &Arithmetic,
    mean: Double,
    a: Seq<char>,
    b: Seq<char>,
)
    requires
        c.keeps_order(),
        c.rounds(),
        mean.is_finite(),
        text::before(a, b),
        a != b,
    ensures
        c.times(mean, ordered(a, b, Double::from_bits(ONE)).gap) == mean,
        c.times(mean, ordered(b, a, Double::from_bits(ONE)).gap) == mean.neg(),
        ordered(a, b, Double::from_bits(ONE)).first == a,
        ordered(b, a, Double::from_bits(ONE)).first == a,
        ordered(a, b, Double::from_bits(ONE)).second == b,
        ordered(b, a, Double::from_bits(ONE)).second == b,
{
    reveal(Arithmetic::rounds_products);
    let one = Double::from_bits(ONE);
    law_order_of_the_pair_does_not_matter(a, b, one);
    assert(c.times(mean, one) == mean);
    assert(c.times(mean, one.neg()) == c.times(mean, one).neg());
    assert(!text::before(b, a)) by {
        text::lemma_before_total(a, b);
    }
}

/// There is no score before the second number of a pair, and there is one from then on.
pub proof fn law_scores_need_two_numbers(
    c: &Arithmetic,
    history: WelfordState,
    gap: Double,
    floor: Double,
)
    ensures
        RelativeValueMonitor::score(c, history, gap, floor) is Some <==> history.count >= 2,
        history.count < u64::MAX ==> history.after(c, gap).count == history.count + 1,
{
}

/// The mean is that of all the numbers: each new one moves it so that the mean times the count
/// grows by the number, up to a few roundings.
pub proof fn law_mean_takes_each_number_in(c: &Arithmetic, history: WelfordState, x: Double)
    requires
        c.keeps_order(),
        c.is_accurate(),
        history.count < 1_000_000,
        history.mean.abs().le(Double::from_bits(ONE)),
        x.abs().le(Double::from_bits(ONE)),
    ensures
        ({
            let n = history.count + 1;
            let mean = history.after(c, x).mean;
            &&& mean.is_finite()
            &&& gap(mean.exact() * n, history.mean.exact() * (n - 1) + x.exact()) <= 2 * two_to(
                -50,
            ).exact() * n
        }),
{
    let one = Double::from_bits(ONE);
    let n = history.count + 1;
    let k = c.of_count(n as u64);
    let u = unit();
    lemma_mean_step(c, history.mean, x, n);
}

proof fn lemma_mean_step(c: &Arithmetic, mean: Double, x: Double, n: int)
    requires
        c.keeps_order(),
        c.is_accurate(),
        1 <= n <= 1_000_000,
        mean.abs().le(Double::from_bits(ONE)),
        x.abs().le(Double::from_bits(ONE)),
    ensures
        ({
            let next = c.plus(mean, c.over(c.minus(x, mean), c.of_count(n as u64)));
            &&& next.is_finite()
            &&& gap(next.exact(), 0) <= 4 * unit()
            &&& gap(c.minus(x, mean).exact(), x.exact() - mean.exact()) <= two_to(-52).exact()
            &&& c.minus(x, mean).is_finite()
            &&& gap(c.minus(x, mean).exact(), 0) <= 2 * unit()
            &&& gap(next.exact() * n, mean.exact() * (n - 1) + x.exact()) <= 2 * two_to(
                -50,
            ).exact() * n
        }),
{
    let zero = Double::from_bits(ZERO);
    let one = Double::from_bits(ONE);
    let k = c.of_count(n as u64);
    let u = unit();
    lemma_exact_power(0);
    lemma_exact_power(1);
    lemma_exact_power(-52);
    lemma_exact_power(-51);
    assert(two_to(0) == one);
    lemma_size(mean, one);
    lemma_size(x, one);
    lemma_difference_near(c, x, mean, 1);
    let delta = c.minus(x, mean);
    lemma_size(delta, two_to(1));
    assert(k.exact() == n * u && k.is_finite()) by {
        reveal(Arithmetic::is_accurate);
    }
    assert(n * u >= u) by (nonlinear_arith)
        requires
            n >= 1,
            u > 0,
    ;
    law_exact_orders(k, zero);
    law_exact_orders(zero, zero);
    let (d, b) = (delta.exact(), k.exact());
    assert(gap(d * u, 0) <= (2 * u) * gap(b, 0)) by (nonlinear_arith)
        requires
            -2 * u <= d <= 2 * u,
            b >= u,
            u > 0,
    ;
    lemma_quotient_near(c, delta, k, 1);
    let share = c.over(delta, k);
    lemma_size(share, two_to(1));
    lemma_sum_near(c, mean, share, 2);
    let next = c.plus(mean, share);
    lemma_size(next, two_to(2));
    let (m, q, s, y) = (mean.exact(), share.exact(), next.exact(), x.exact());
    let e = two_to(-52).exact();
    assert(gap(q * n, d) <= e * n) by (nonlinear_arith)
        requires
            gap(q * b, d * u) <= e * gap(b, 0),
            b == n * u,
            n >= 1,
            u > 0,
    ;
    assert(gap(s * n, m * n + q * n) <= 2 * e * n) by (nonlinear_arith)
        requires
            gap(s, m + q) <= 2 * e,
            n >= 1,
    ;
    assert(m * (n - 1) == m * n - m) by (nonlinear_arith);
    assert(2 * e * n == 2 * (e * n) && e <= e * n) by (nonlinear_arith)
        requires
            n >= 1,
            e > 0,
    ;
    let g = two_to(-50).exact();
    assert(2 * g * n == 8 * (e * n)) by (nonlinear_arith)
        requires
            g == 4 * e,
    ;
}

/// The spread is the sum of the squared distances from the mean: each new number adds its distance
/// from the mean before times its distance from the mean after, up to a few roundings. The first
/// one adds nothing.
pub proof fn law_spread_adds_squared_distances(c: &Arithmetic, history: WelfordState, x: Double)
    requires
        c.keeps_order(),
        c.is_accurate(),
        history.count < 1_000_000,
        history.mean.abs().le(Double::from_bits(ONE)),
        history.m2.abs().le(two_to(10)),
        x.abs().le(Double::from_bits(ONE)),
    ensures
        ({
            let after = history.after(c, x);
            gap(
                (after.m2.exact() - history.m2.exact()) * unit(),
                (x.exact() - history.mean.exact()) * (x.exact() - after.mean.exact()),
            ) <= 4 * two_to(-42).exact() * unit()
        }),
{
    let one = Double::from_bits(ONE);
    let n = history.count + 1;
    let u = unit();
    lemma_mean_step(c, history.mean, x, n);
    let after = history.after(c, x);
    let first = c.minus(x, history.mean);
    lemma_exact_power(0);
    lemma_exact_power(1);
    lemma_exact_power(2);
    lemma_exact_power(3);
    lemma_exact_power(4);
    lemma_exact_power(10);
    lemma_exact_power(-52);
    lemma_exact_power(-50);
    lemma_exact_power(-42);
    assert(two_to(0) == one);
    lemma_size(x, one);
    lemma_difference_near(c, x, after.mean, 3);
    let second = c.minus(x, after.mean);
    lemma_size(second, two_to(3));
    let (d, f) = (first.exact(), second.exact());
    assert(gap(d * f, 0) <= (16 * u) * u) by (nonlinear_arith)
        requires
            -2 * u <= d <= 2 * u,
            -8 * u <= f <= 8 * u,
    ;
    lemma_product_near(c, first, second, 4);
    let add = c.times(first, second);
    lemma_size(add, two_to(4));
    lemma_size(history.m2, two_to(10));
    law_powers_are_ordered(4, 10);
    law_exact_orders(two_to(4), two_to(10));
    lemma_sum_near(c, history.m2, add, 11);
    let (a, b, t) = (after.m2.exact(), history.m2.exact(), add.exact());
    let g = two_to(-42).exact();
    let h = two_to(-49).exact();
    lemma_exact_power(-49);
    law_powers_are_ordered(-49, -46);
    law_powers_are_ordered(-50, -46);
    law_powers_are_ordered(-52, -46);
    lemma_exact_power(-46);
    lemma_exact_power(-45);
    lemma_exact_power(-44);
    lemma_exact_power(-43);
    law_exact_orders(two_to(-49), two_to(-46));
    law_exact_orders(two_to(-50), two_to(-46));
    law_exact_orders(two_to(-52), two_to(-46));
    let z = two_to(-46).exact();
    assert(g == 16 * z);
    let (p, q) = (x.exact() - history.mean.exact(), x.exact() - after.mean.exact());
    assert(gap((a - b) * u, t * u) <= 16 * (z * u)) by (nonlinear_arith)
        requires
            gap(a, b + t) <= 16 * z,
            u > 0,
    ;
    assert(gap(d * f, p * f) <= 8 * (z * u)) by (nonlinear_arith)
        requires
            gap(d, p) <= z,
            -8 * u <= f <= 8 * u,
            u > 0,
    ;
    lemma_size(history.mean, one);
    assert(gap(p * f, p * q) <= 2 * (z * u)) by (nonlinear_arith)
        requires
            gap(f, q) <= z,
            -2 * u <= p <= 2 * u,
            u > 0,
    ;
    let below_49 = two_to(-49).exact();
    assert(below_49 * u <= z * u) by (nonlinear_arith)
        requires
            below_49 <= z,
            u > 0,
    ;
    assert(4 * g * u == 64 * (z * u) && z * u >= 0) by (nonlinear_arith)
        requires
            g == 16 * z,
            z > 0,
            u > 0,
    ;
}

/// The deviation is that of a sample: its square times one less than the count is the spread, up
/// to a few roundings.
pub proof fn law_deviation_is_of_a_sample(c: &Arithmetic, history: WelfordState)
    requires
        c.keeps_order(),
        c.rounds(),
        c.is_accurate(),
        c.has_roots(),
        2 <= history.count <= 1_000_000,
        Double::from_bits(ZERO).le(history.m2),
        history.m2.is_finite(),
        history.m2.exact() <= (history.count - 1) * unit(),
    ensures
        match history.deviation(c) {
            Some(std) => gap(
                std.exact() * std.exact() * (history.count - 1),
                history.m2.exact() * unit(),
            ) <= 8 * two_to(-30).exact() * unit(),
            None => false,
        },
{
    let zero = Double::from_bits(ZERO);
    let one = Double::from_bits(ONE);
    let u = unit();
    let n = history.count as int;
    let k = c.of_count(history.count);
    lemma_exact_power(0);
    lemma_exact_power(1);
    lemma_exact_power(20);
    lemma_exact_power(-33);
    lemma_exact_power(-32);
    lemma_exact_power(-31);
    lemma_exact_power(-52);
    lemma_exact_power(-51);
    assert(two_to(0) == one);
    law_powers_are_ordered(1, 2);
    assert(k.exact() == n * u && k.is_finite()) by {
        reveal(Arithmetic::is_accurate);
    }
    lemma_million();
    let most = two_to(20).exact();
    assert(2 * u <= n * u <= most && (n - 1) * u == n * u - u) by (nonlinear_arith)
        requires
            2 <= n <= 1_000_000,
            1_000_000 * u <= most,
            u > 0,
    ;
    lemma_difference_near(c, k, one, 20);
    let less = c.minus(k, one);
    lemma_size(less, two_to(20));
    let (b, d) = (less.exact(), two_to(-33).exact());
    law_powers_are_ordered(-33, -1);
    law_exact_orders(two_to(-33), two_to(-1));
    lemma_exact_power(-1);
    law_exact_orders(less, zero);
    law_exact_orders(zero, zero);
    law_exact_orders(zero, history.m2);
    let m = history.m2.exact();
    assert(gap(m * u, 0) <= (2 * u) * gap(b, 0)) by (nonlinear_arith)
        requires
            0 <= m <= (n - 1) * u,
            2 * b >= (n - 1) * u,
            u > 0,
            b > 0,
    ;
    lemma_quotient_near(c, history.m2, less, 1);
    let v = c.over(history.m2, less);
    lemma_size(v, two_to(1));
    let q = v.exact();
    let t = two_to(-52).exact();
    reveal(Arithmetic::has_roots);
    assert(zero.le(v)) by {
        reveal(Arithmetic::rounds_quotients);
        assert(less.bits <= crate::double::INFINITY);
    }
    assert(zero.le(v) && v.le(two_to(2)));
    let root = c.sqrt(v);
    law_powers_are_ordered(1, 1);
    lemma_size(root, two_to(1));
    let r = root.exact();
    let g = two_to(-50).exact();
    let rr = r * r;
    assert(0 <= rr <= 4 * (u * u)) by (nonlinear_arith)
        requires
            rr == r * r,
            -2 * u <= r <= 2 * u,
    ;
    lemma_deviation(rr, q, b, m, n, u, d, g, t, most);
    let below_30 = two_to(-30).exact();
    assert(8 * below_30 * u == 64 * d * u) by (nonlinear_arith)
        requires
            below_30 == 8 * d,
    ;
}

proof fn lemma_deviation(
    rr: int,
    q: int,
    b: int,
    m: int,
    n: int,
    u: int,
    d: int,
    g: int,
    t: int,
    most: int,
)
    requires
        gap(rr, q * u) <= g * u,
        gap(q * b, m * u) <= t * gap(b, 0),
        gap(b, (n - 1) * u) <= d,
        0 < b <= most,
        0 <= rr <= 4 * (u * u),
        0 < t <= g,
        d > 0,
        u > 0,
        most * g == (8 * d) * u,
    ensures
        gap(rr * (n - 1), m * u) <= 64 * d * u,
{
    let uu = u * u;
    assert(gap(rr * ((n - 1) * u), rr * b) <= 4 * (d * uu)) by (nonlinear_arith)
        requires
            gap(b, (n - 1) * u) <= d,
            0 <= rr <= 4 * uu,
            d > 0,
    ;
    assert(gap(rr * b, (q * b) * u) <= g * u * b) by (nonlinear_arith)
        requires
            gap(rr, q * u) <= g * u,
            b > 0,
    ;
    assert(g * u * b <= 8 * (d * uu)) by (nonlinear_arith)
        requires
            0 < b <= most,
            most * g == (8 * d) * u,
            uu == u * u,
            u > 0,
            g > 0,
    ;
    assert(gap((q * b) * u, (m * u) * u) <= t * b * u) by (nonlinear_arith)
        requires
            gap(q * b, m * u) <= t * b,
            u > 0,
    ;
    assert(t * b * u <= 8 * (d * uu)) by (nonlinear_arith)
        requires
            0 < b <= most,
            0 < t <= g,
            most * g == (8 * d) * u,
            uu == u * u,
            u > 0,
    ;
    assert(rr * ((n - 1) * u) == (rr * (n - 1)) * u) by (nonlinear_arith);
    let (x, y) = (rr * (n - 1), m * u);
    assert(gap(x * u, y * u) <= 20 * (d * uu));
    assert(gap(x, y) <= 64 * d * u) by (nonlinear_arith)
        requires
            gap(x * u, y * u) <= 20 * (d * uu),
            uu == u * u,
            u > 0,
            d > 0,
    ;
}

proof fn lemma_million()
    ensures
        1_000_000 * unit() <= two_to(20).exact(),
        two_to(20).exact() * two_to(-50).exact() == two_to(-30).exact() * unit(),
        two_to(-52).exact() <= two_to(-50).exact(),
        two_to(-50).exact() > 0,
        two_to(-30).exact() == 8 * two_to(-33).exact(),
{
    lemma_exact_power(0);
    lemma_exact_power(20);
    lemma_exact_power(-50);
    lemma_exact_power(-51);
    lemma_exact_power(-52);
    lemma_exact_power(-30);
    lemma_exact_power(-31);
    lemma_exact_power(-32);
    lemma_exact_power(-33);
    vstd::arithmetic::power2::lemma2_to64();
    vstd::arithmetic::power2::lemma_pow2_adds(20, 1074);
    vstd::arithmetic::power2::lemma_pow2_adds(1094, 1024);
    vstd::arithmetic::power2::lemma_pow2_adds(1044, 1074);
    let u = unit();
    assert(1_000_000 * u <= 1_048_576 * u) by (nonlinear_arith)
        requires
            u > 0,
    ;
}

/// The score is the distance of the gap from the mean in deviations, or in units of the floor where
/// the deviation is smaller: times that unit it is the distance, up to a few roundings. So a gap
/// above the mean scores above zero and one below it below zero.
pub proof fn law_score_is_the_distance_in_deviations(
    c: &Arithmetic,
    history: WelfordState,
    x: Double,
    floor: Double,
)
    requires
        c.is_accurate(),
        history.mean.abs().le(Double::from_bits(ONE)),
        x.abs().le(Double::from_bits(ONE)),
        history.deviation(c) matches Some(std) && std.is_finite(),
        floor.is_finite(),
        two_to(-20).le(floor),
    ensures
        ({
            let std = history.deviation(c)->0.exact();
            let scale = if std < floor.exact() {
                floor.exact()
            } else {
                std
            };
            match RelativeValueMonitor::score(c, history, x, floor) {
                Some(score) => gap(
                    score.exact() * scale,
                    (x.exact() - history.mean.exact()) * unit(),
                ) <= 2 * two_to(-31).exact() * scale,
                None => false,
            }
        }),
{
    let zero = Double::from_bits(ZERO);
    let one = Double::from_bits(ONE);
    let std = history.deviation(c)->0;
    let u = unit();
    lemma_exact_power(0);
    lemma_exact_power(1);
    lemma_exact_power(-20);
    lemma_exact_power(21);
    lemma_exact_power(-52);
    lemma_exact_power(-32);
    lemma_exact_power(-31);
    assert(two_to(0) == one);
    lemma_size(history.mean, one);
    lemma_size(x, one);
    law_exact_orders(two_to(-20), floor);
    law_exact_orders(std, floor);
    law_exact_orders(floor, std);
    lemma_difference_near(c, x, history.mean, 1);
    let d = c.minus(x, history.mean);
    lemma_size(d, two_to(1));
    let scale = std.larger(floor);
    let (a, b) = (d.exact(), scale.exact());
    law_exact_orders(scale, zero);
    law_exact_orders(zero, zero);
    vstd::arithmetic::power2::lemma_pow2_adds(1095, 1054);
    vstd::arithmetic::power2::lemma_pow2_adds(1075, 1074);
    let h = two_to(-20).exact();
    let above_21 = two_to(21).exact();
    assert(gap(a * u, 0) <= above_21 * gap(b, 0)) by (nonlinear_arith)
        requires
            -2 * u <= a <= 2 * u,
            b >= h,
            above_21 * h == (2 * u) * u,
            above_21 > 0,
            u > 0,
            h > 0,
    ;
    lemma_quotient_near(c, d, scale, 21);
    let s = c.over(d, scale).exact();
    let (e, g) = (two_to(-52).exact(), two_to(-32).exact());
    vstd::arithmetic::power2::lemma_pow2_adds(1022, 1074);
    vstd::arithmetic::power2::lemma_pow2_adds(1042, 1054);
    let y = x.exact() - history.mean.exact();
    assert(gap(a * u, y * u) <= g * b) by (nonlinear_arith)
        requires
            gap(a, y) <= e,
            e * u == g * h,
            b >= h,
            u > 0,
            g > 0,
    ;
    let below_31 = two_to(-31).exact();
    assert(2 * below_31 * b == 4 * (g * b) && g * b >= 0) by (nonlinear_arith)
        requires
            below_31 == 2 * g,
            g > 0,
            b > 0,
    ;
}

} // verus!
