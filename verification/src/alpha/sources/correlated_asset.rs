//! A correlated asset: only the part of its move that its driver does not explain counts.
use vstd::prelude::*;
use crate::alpha::payload::CorrelatedAssetPayload;
use crate::alpha::source;
use crate::alpha::source::AlphaSource;
use crate::alpha::stats;
use crate::double::{Arithmetic, Double, HALF, ONE, ZERO};
use crate::rounding::{gap, law_exact_orders, lemma_quotient_near, two_to, unit};
use crate::types::alpha::{AlphaEventKind, ProbabilityEstimate, RawEvent};

verus! {

/// 0.15
pub const DEFAULT_RESIDUAL_SENSITIVITY: u64 = 0x3FC3_3333_3333_3333;

/// 0.02
pub const DEFAULT_RESIDUAL_STD: u64 = 0x3F94_7AE1_47AE_147B;

/// 1e-12
pub const MIN_DRIVER_VARIANCE: u64 = 0x3D71_9799_812D_EA11;

/// The sum of the products of two rows of equal length, from the left.
pub open spec fn dot(c: &Arithmetic, x: Seq<Double>, y: Seq<Double>) -> Double
    decreases x.len(),
{
    if x.len() == 0 {
        Double::from_bits(ZERO)
    } else {
        c.plus(dot(c, x.drop_last(), y.drop_last()), c.times(x.last(), y.last()))
    }
}

/// The sum of the products of two rows, as far as the shorter one goes.
pub open spec fn paired(c: &Arithmetic, x: Seq<Double>, y: Seq<Double>) -> Double {
    let n = if x.len() < y.len() {
        x.len() as int
    } else {
        y.len() as int
    };
    dot(c, x.take(n), y.take(n))
}

fn dot_product(c: &Arithmetic, x: &Vec<Double>, y: &Vec<Double>) -> (r: Double)
    ensures
        r == paired(c, x@, y@),
{
    let mut acc = Double::from_bits(ZERO);
    let mut i: usize = 0;
    while i < x.len() && i < y.len()
        invariant
            i <= x.len(),
            i <= y.len(),
            acc == dot(c, x@.take(i as int), y@.take(i as int)),
        decreases x.len() - i,
    {
        assert(x@.take(i + 1).drop_last() == x@.take(i as int));
        assert(y@.take(i + 1).drop_last() == y@.take(i as int));
        acc = c.plus(acc, c.times(x[i], y[i]));
        i += 1;
    }
    acc
}

/// The slope of `y` on `x` through the origin; nothing where `x` does not vary.
pub open spec fn beta_of(c: &Arithmetic, x: Seq<Double>, y: Seq<Double>) -> Option<Double> {
    if paired(c, x, x).lt(Double::from_bits(MIN_DRIVER_VARIANCE)) {
        None
    } else {
        Some(c.over(paired(c, x, y), paired(c, x, x)))
    }
}

/// The slope of `y` on `x` through the origin; nothing where `x` does not vary.
pub fn estimate_beta(c: &Arithmetic, x: &Vec<Double>, y: &Vec<Double>) -> (r: Option<Double>)
    ensures
        r == beta_of(c, x@, y@),
{
    let sum_xy = dot_product(c, x, y);
    let sum_xx = dot_product(c, x, x);
    if sum_xx.lt(Double::from_bits(MIN_DRIVER_VARIANCE)) {
        return None;
    }
    Some(c.over(sum_xy, sum_xx))
}

/// What the driver leaves unexplained in each return.
pub open spec fn residuals(
    c: &Arithmetic,
    correlated: Seq<Double>,
    driver: Seq<Double>,
    beta: Double,
) -> Seq<Double> {
    Seq::new(correlated.len(), |i: int| c.minus(correlated[i], c.times(beta, driver[i])))
}

fn residuals_of(
    c: &Arithmetic,
    correlated: &Vec<Double>,
    driver: &Vec<Double>,
    beta: Double,
) -> (r: Vec<Double>)
    requires
        correlated.len() == driver.len(),
    ensures
        r@ == residuals(c, correlated@, driver@, beta),
{
    let mut out: Vec<Double> = Vec::new();
    let mut i: usize = 0;
    while i < correlated.len()
        invariant
            i <= correlated.len(),
            correlated.len() == driver.len(),
            out.len() == i,
            forall|j: int|
                0 <= j < i ==> #[trigger] out@[j] == c.minus(
                    correlated@[j],
                    c.times(beta, driver@[j]),
                ),
        decreases correlated.len() - i,
    {
        out.push(c.minus(correlated[i], c.times(beta, driver[i])));
        i += 1;
    }
    assert(out@ == residuals(c, correlated@, driver@, beta));
    out
}

/// Votes with the residual of a correlated asset. A move that the driver predicts contributes
/// nothing.
#[derive(Debug)]
pub struct CorrelatedAssetSource {
    pub name: String,
    pub kinds: Vec<AlphaEventKind>,
    /// The largest displacement from one half.
    pub sensitivity: Double,
    pub min_std_dev: Double,
    pub base_std_dev: Double,
    pub correlation_group: Option<String>,
}

impl CorrelatedAssetSource {
    pub fn new(name: &str) -> (r: CorrelatedAssetSource)
        ensures
            r.name@ == name@,
            r.kinds@ == seq![AlphaEventKind::ReferenceAsset],
            r.sensitivity == Double::from_bits(DEFAULT_RESIDUAL_SENSITIVITY),
            r.min_std_dev == Double::from_bits(DEFAULT_RESIDUAL_STD),
            r.base_std_dev == Double::from_bits(DEFAULT_RESIDUAL_SENSITIVITY),
            r.correlation_group is None,
    {
        CorrelatedAssetSource {
            name: name.to_owned(),
            kinds: vec![AlphaEventKind::ReferenceAsset],
            sensitivity: Double::from_bits(DEFAULT_RESIDUAL_SENSITIVITY),
            min_std_dev: Double::from_bits(DEFAULT_RESIDUAL_STD),
            base_std_dev: Double::from_bits(DEFAULT_RESIDUAL_SENSITIVITY),
            correlation_group: None,
        }
    }

    /// The source with every estimate marked as one of a group.
    pub fn with_correlation_group(self, group: &str) -> (r: CorrelatedAssetSource)
        ensures
            r.correlation_group matches Some(g) && g@ == group@,
            r == (CorrelatedAssetSource { correlation_group: r.correlation_group, ..self }),
    {
        CorrelatedAssetSource { correlation_group: Some(group.to_owned()), ..self }
    }

    /// One half, displaced by the current residual in units of its own deviation.
    pub open spec fn leaning(
        &self,
        c: &Arithmetic,
        p: CorrelatedAssetPayload,
        beta: Double,
    ) -> Double {
        let rest = residuals(c, p.correlated_returns@, p.driver_returns@, beta);
        let n = c.of_count(rest.len() as u64);
        let mean = c.over(stats::total(c, rest), n);
        let std = c.sqrt(
            c.over(stats::squares(c, rest, mean), c.minus(n, Double::from_bits(ONE))),
        ).larger(self.min_std_dev);
        let now = c.minus(p.current_correlated_return, c.times(beta, p.current_driver_return));
        stats::clamp_probability(
            c.plus(
                Double::from_bits(HALF),
                c.times(self.sensitivity, c.tanh(c.over(now, std))),
            ),
        )
    }
}

impl AlphaSource for CorrelatedAssetSource {
    open spec fn named(&self) -> Seq<char> {
        self.name@
    }

    open spec fn kinds(&self) -> Seq<AlphaEventKind> {
        self.kinds@
    }

    open spec fn opinion(&self, c: &Arithmetic, event: &RawEvent) -> Option<ProbabilityEstimate> {
        match event.payload.correlated_asset {
            Some(p) => if event.kind != AlphaEventKind::ReferenceAsset || p.correlated_returns.len()
                != p.driver_returns.len() || p.correlated_returns.len() < 2 {
                None
            } else {
                match beta_of(c, p.driver_returns@, p.correlated_returns@) {
                    Some(beta) => Some(
                        source::decaying(
                            self.name,
                            p.contract,
                            self.leaning(c, p, beta),
                            self.base_std_dev,
                            event.receive_ts,
                            self.correlation_group,
                        ),
                    ),
                    None => None,
                }
            },
            None => None,
        }
    }

    fn name(&self) -> (r: &str) {
        self.name.as_str()
    }

    fn event_kinds(&self) -> (r: &[AlphaEventKind]) {
        self.kinds.as_slice()
    }

    fn on_event(&self, c: &Arithmetic, event: &RawEvent) -> (r: Option<ProbabilityEstimate>) {
        if event.kind != AlphaEventKind::ReferenceAsset {
            return None;
        }
        let payload = match &event.payload.correlated_asset {
            Some(p) => p,
            None => return None,
        };
        if payload.correlated_returns.len() != payload.driver_returns.len()
            || payload.correlated_returns.len() < 2 {
            return None;
        }
        let beta = match estimate_beta(c, &payload.driver_returns, &payload.correlated_returns) {
            Some(beta) => beta,
            None => return None,
        };
        let rest = residuals_of(c, &payload.correlated_returns, &payload.driver_returns, beta);
        let n = c.of_count(rest.len() as u64);
        let mean_residual = c.over(stats::sum(c, &rest), n);
        let residual_std = c.sqrt(
            c.over(
                stats::sum_of_squares(c, &rest, mean_residual),
                c.minus(n, Double::from_bits(ONE)),
            ),
        ).larger(self.min_std_dev);
        let current_residual = c.minus(
            payload.current_correlated_return,
            c.times(beta, payload.current_driver_return),
        );
        let z = c.over(current_residual, residual_std);
        let shift = c.times(self.sensitivity, c.tanh(z));
        let probability = stats::clamp_probability(c.plus(Double::from_bits(HALF), shift));
        Some(
            source::decaying_estimate(
                &self.name,
                &payload.contract,
                probability,
                self.base_std_dev,
                event.receive_ts,
                &self.correlation_group,
            ),
        )
    }
}

/// The slope is that of least squares through the origin: the slope times the sum of the squares of
/// the driver's returns is the sum of the products of both, each pair of returns adding its own
/// product; and an asset that moves as its driver does has the slope one.
pub proof fn law_slope_is_of_least_squares(
    c: &Arithmetic,
    x: Seq<Double>,
    y: Seq<Double>,
    a: Double,
    b: Double,
)
    requires
        c.is_accurate(),
        c.keeps_one(),
        x.len() == y.len(),
    ensures
        paired(c, Seq::<Double>::empty(), y) == Double::from_bits(ZERO),
        paired(c, x.push(a), y.push(b)) == c.plus(paired(c, x, y), c.times(a, b)),
        ({
            let (squares, products) = (paired(c, x, x), paired(c, x, y));
            &&& squares.is_finite() && !squares.lt(Double::from_bits(MIN_DRIVER_VARIANCE))
                ==> beta_of(c, x, x) == Some(Double::from_bits(ONE))
            &&& squares.is_finite() && products.is_finite() && !squares.lt(
                Double::from_bits(MIN_DRIVER_VARIANCE),
            ) && gap(products.exact() * unit(), 0) <= two_to(20).exact() * squares.exact() ==> {
                let beta = beta_of(c, x, y);
                &&& beta is Some
                &&& gap(beta->0.exact() * squares.exact(), products.exact() * unit()) <= two_to(
                    -33,
                ).exact() * squares.exact()
            }
            &&& squares.lt(Double::from_bits(MIN_DRIVER_VARIANCE)) ==> beta_of(c, x, y) is None
        }),
{
    reveal(Arithmetic::keeps_one);
    let zero = Double::from_bits(ZERO);
    let n = x.len() as int;
    assert(x.take(n) =~= x && y.take(n) =~= y);
    let (xs, ys) = (x.push(a), y.push(b));
    assert(xs.take(n + 1) =~= xs && ys.take(n + 1) =~= ys);
    assert(xs.drop_last() =~= x && ys.drop_last() =~= y);
    let squares = paired(c, x, x);
    let least = Double::from_bits(MIN_DRIVER_VARIANCE);
    if squares.is_finite() && !squares.lt(least) {
        law_exact_orders(zero, least);
        law_exact_orders(least, least);
        law_exact_orders(least, squares);
        law_exact_orders(squares, squares);
        law_exact_orders(zero, zero);
        let products = paired(c, x, y);
        if products.is_finite() && gap(products.exact() * unit(), 0) <= two_to(20).exact()
            * squares.exact() {
            lemma_quotient_near(c, products, squares, 20);
        }
    }
}

} // verus!
