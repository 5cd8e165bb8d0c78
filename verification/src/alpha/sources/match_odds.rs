//! What holds of the odds of a tennis match: each is the mean of what the next point, game or set
//! makes of it, and the two players share one.
use vstd::prelude::*;
use crate::alpha::payload::TennisPayload;
use crate::alpha::source::AlphaSource;
use crate::alpha::sources::tennis::{
    game, game_after, match_win, set_win, state_of, MatchState, TennisMatchStateSource,
};
use crate::alpha::stats;
use crate::double::{Arithmetic, Double, HALF, ONE, ZERO};
use crate::rounding::{
    gap, law_exact_orders, law_powers_are_ordered, lemma_difference_near, lemma_exact_power,
    lemma_product_near, lemma_quotient_near, lemma_size, lemma_sum_near, two_to, unit,
};
use crate::types::alpha::RawEvent;

verus! {

/// 2^-53, in units of the smallest double.
pub open spec fn ulp() -> int {
    two_to(-53).exact()
}

/// Whether `x` is between 0 and 1, up to `slack`.
pub open spec fn is_chance(x: Double, slack: int) -> bool {
    x.is_finite() && -slack <= x.exact() <= unit() + slack
}

/// Whether `now` is the mean of `won` and `lost` where the first comes with the chance `p`, up to
/// roundings.
pub open spec fn is_mean(now: Double, p: int, won: Double, lost: Double) -> bool {
    gap(now.exact() * unit(), p * won.exact() + (unit() - p) * lost.exact()) <= 32 * (ulp()
        * unit())
}

proof fn lemma_ulp()
    ensures
        ulp() > 0,
        unit() > 0,
        two_to(-52).exact() == 2 * ulp(),
        two_to(-51).exact() == 4 * ulp(),
        two_to(0) == Double::from_bits(ONE),
        two_to(-1) == Double::from_bits(HALF),
        two_to(1).exact() == 2 * unit(),
        two_to(2).exact() == 4 * unit(),
        2 * Double::from_bits(HALF).exact() == unit(),
        Double::from_bits(ZERO).exact() == 0,
        4096 * ulp() <= unit(),
{
    lemma_exact_power(-53);
    lemma_exact_power(-52);
    lemma_exact_power(-1);
    lemma_exact_power(0);
    lemma_exact_power(1);
    lemma_exact_power(-12);
    lemma_exact_power(-11);
    lemma_exact_power(-10);
    lemma_exact_power(-9);
    lemma_exact_power(-8);
    lemma_exact_power(-7);
    lemma_exact_power(-6);
    lemma_exact_power(-5);
    lemma_exact_power(-4);
    lemma_exact_power(-3);
    lemma_exact_power(-2);
    law_powers_are_ordered(-53, -12);
    law_exact_orders(two_to(-53), two_to(-12));
}

/// What mixing two chances gives.
proof fn lemma_mix(c: &Arithmetic, p: Double, a: Double, b: Double, slack: int)
    requires
        c.is_accurate(),
        is_chance(p, 0),
        is_chance(a, slack),
        is_chance(b, slack),
        0 <= 2 * slack <= unit(),
    ensures
        ({
            let r = c.plus(c.times(p, a), c.times(c.minus(Double::from_bits(ONE), p), b));
            &&& gap(
                r.exact() * unit(),
                p.exact() * a.exact() + (unit() - p.exact()) * b.exact(),
            ) <= 16 * (ulp() * unit())
            &&& is_mean(r, p.exact(), a, b)
            &&& is_chance(r, slack + 16 * ulp())
        }),
{
    let one = Double::from_bits(ONE);
    let (u, e) = (unit(), ulp());
    lemma_ulp();
    let (x, y, z) = (p.exact(), a.exact(), b.exact());
    assert(gap(x * y, 0) <= (2 * u) * u) by (nonlinear_arith)
        requires
            0 <= x <= u,
            -u <= y <= 2 * u,
            u > 0,
    ;
    lemma_product_near(c, p, a, 1);
    let s = c.times(p, a);
    lemma_difference_near(c, one, p, 0);
    let rest = c.minus(one, p);
    lemma_size(rest, one);
    let q = rest.exact();
    assert(gap(q * z, 0) <= (2 * u) * u) by (nonlinear_arith)
        requires
            -u <= q <= u,
            -u <= z <= 2 * u,
            u > 0,
    ;
    lemma_product_near(c, rest, b, 1);
    let t = c.times(rest, b);
    lemma_size(s, two_to(1));
    lemma_size(t, two_to(1));
    lemma_sum_near(c, s, t, 2);
    let r = c.plus(s, t);
    let (k, l, m, v) = (s.exact(), t.exact(), r.exact(), u - x);
    assert(gap(m * u, k * u + l * u) <= 4 * (e * u)) by (nonlinear_arith)
        requires
            gap(m, k + l) <= 4 * e,
            u > 0,
    ;
    assert(2 * e * u == 2 * (e * u)) by (nonlinear_arith);
    assert(gap(q * z, v * z) <= 2 * (e * u)) by (nonlinear_arith)
        requires
            gap(q, v) <= e,
            -u <= z <= 2 * u,
            e > 0,
            u > 0,
    ;
    let mean = x * y + v * z;
    assert(e * u >= 0) by (nonlinear_arith)
        requires
            e > 0,
            u > 0,
    ;
    assert(gap(m * u, mean) <= 16 * (e * u));
    assert(-(slack * u) <= mean <= (u + slack) * u) by (nonlinear_arith)
        requires
            mean == x * y + v * z,
            v == u - x,
            0 <= x <= u,
            -slack <= y <= u + slack,
            -slack <= z <= u + slack,
            slack >= 0,
    ;
    assert(-(slack + 16 * e) <= m <= u + slack + 16 * e) by (nonlinear_arith)
        requires
            gap(m * u, mean) <= 16 * (e * u),
            -(slack * u) <= mean <= (u + slack) * u,
            u > 0,
    ;
}

/// What a game is worth at deuce.
proof fn lemma_deuce(c: &Arithmetic, p: Double)
    requires
        is_unit(c),
        is_chance(p, 0),
    ensures
        is_chance(game(c, p, 3, 3), 0),
        ({
            let (d, x) = (game(c, p, 3, 3).exact(), p.exact());
            let v = unit() - x;
            gap(d * (x * x + v * v), x * x * unit()) <= 10 * (ulp() * (unit() * unit()))
        }),
{
    let zero = Double::from_bits(ZERO);
    let one = Double::from_bits(ONE);
    let (u, e) = (unit(), ulp());
    lemma_ulp();
    law_exact_orders(zero, p);
    law_exact_orders(p, one);
    law_exact_orders(zero, zero);
    lemma_difference_near(c, one, p, 0);
    let rest = c.minus(one, p);
    lemma_size(rest, one);
    let (x, q, v) = (p.exact(), rest.exact(), u - p.exact());
    assert(gap(x * x, 0) <= u * u && gap(q * q, 0) <= u * u) by (nonlinear_arith)
        requires
            0 <= x <= u,
            -u <= q <= u,
    ;
    lemma_product_near(c, p, p, 0);
    lemma_product_near(c, rest, rest, 0);
    let (pp, qq) = (c.times(p, p), c.times(rest, rest));
    lemma_size(pp, one);
    lemma_size(qq, one);
    let (a, b) = (pp.exact(), qq.exact());
    lemma_sum_near(c, pp, qq, 1);
    let sum = c.plus(pp, qq);
    let s = sum.exact();
    assert(gap(q * q, v * v) <= 3 * (e * u)) by (nonlinear_arith)
        requires
            gap(q, v) <= e,
            0 <= v <= u,
            -u <= q <= u,
            0 < e <= u,
    ;
    let (xx, vv) = (x * x, v * v);
    assert(2 * xx + 2 * vv >= u * u && xx >= 0 && vv >= 0) by (nonlinear_arith)
        requires
            xx == x * x,
            vv == v * v,
            x + v == u,
    ;
    assert(xx + vv <= u * u) by (nonlinear_arith)
        requires
            xx == x * x,
            vv == v * v,
            x + v == u,
            x >= 0,
            v >= 0,
    ;
    assert(gap(s * u, xx + vv) <= 7 * (e * u)) by {
        assert(gap(s * u, a * u + b * u) <= 2 * (e * u)) by (nonlinear_arith)
            requires
                gap(s, a + b) <= 2 * e,
                u > 0,
        ;
    }
    assert(4 * s >= u && s <= 2 * u) by (nonlinear_arith)
        requires
            gap(s * u, xx + vv) <= 7 * (e * u),
            2 * xx + 2 * vv >= u * u,
            xx + vv <= u * u,
            28 * e <= u,
            u > 0,
    ;
    law_exact_orders(sum, zero);
    // The numerator is no more than the sum.
    assert(zero.le(pp)) by {
        assert(zero.le(c.times(p, p)));
    }
    assert(zero.le(rest)) by {
        assert(c.minus(p, p).is_zero());
        assert(c.minus(p, p).le(rest));
    }
    assert(zero.le(qq));
    assert(pp.le(sum));
    law_exact_orders(pp, sum);
    law_exact_orders(zero, pp);
    assert(gap(a * u, 0) <= u * gap(s, 0)) by (nonlinear_arith)
        requires
            0 <= a <= s,
            u > 0,
    ;
    lemma_quotient_near(c, pp, sum, 0);
    let deuce = c.over(pp, sum);
    lemma_size(deuce, one);
    let d = deuce.exact();
    assert(d >= 0) by {
        reveal(Arithmetic::rounds_quotients);
        assert(sum.bits <= crate::double::INFINITY);
        assert(zero.le(deuce));
        law_exact_orders(zero, deuce);
    }
    let uu = u * u;
    let f = xx + vv;
    assert(gap(d * f, (d * s) * u) <= 7 * (e * uu)) by (nonlinear_arith)
        requires
            gap(s * u, f) <= 7 * (e * u),
            0 <= d <= u,
            uu == u * u,
            e > 0,
            u > 0,
    ;
    assert(gap((d * s) * u, (a * u) * u) <= 2 * (e * uu)) by (nonlinear_arith)
        requires
            gap(d * s, a * u) <= e * s,
            0 < s <= 2 * u,
            uu == u * u,
            e > 0,
            u > 0,
    ;
    assert(gap((a * u) * u, xx * u) <= e * uu) by (nonlinear_arith)
        requires
            gap(a * u, xx) <= e * u,
            uu == u * u,
            u > 0,
    ;
}

/// How far a score is from deuce.
spec fn to_deuce(s: int, r: int) -> int {
    if s == 3 && r == 3 {
        0
    } else if s == 4 || r == 4 {
        1
    } else {
        8 - s - r
    }
}

proof fn lemma_game(c: &Arithmetic, p: Double, s: int, r: int)
    requires
        is_unit(c),
        is_chance(p, 0),
        0 <= s <= 4,
        0 <= r <= 4,
    ensures
        is_chance(game(c, p, s, r), 16 * ulp() * to_deuce(s, r)),
        to_deuce(s, r) <= 8,
    decreases to_deuce(s, r),
{
    let zero = Double::from_bits(ZERO);
    let one = Double::from_bits(ONE);
    let e = ulp();
    lemma_ulp();
    law_exact_orders(zero, zero);
    if s == 3 && r == 3 {
        lemma_deuce(c, p);
    } else if s == 4 {
        lemma_deuce(c, p);
        lemma_mix(c, p, one, game(c, p, 3, 3), 0);
        assert(c.times(p, one) == p);
    } else if r == 4 {
        lemma_deuce(c, p);
        lemma_mix(c, p, game(c, p, 3, 3), zero, 0);
        lemma_nothing_added(c, p, game(c, p, 3, 3));
    } else {
        let win = if s == 3 {
            one
        } else {
            game(c, p, s + 1, r)
        };
        let lose = if r == 3 {
            zero
        } else {
            game(c, p, s, r + 1)
        };
        if s < 3 {
            lemma_game(c, p, s + 1, r);
        }
        if r < 3 {
            lemma_game(c, p, s, r + 1);
        }
        let slack = 16 * e * (to_deuce(s, r) - 1);
        let near = to_deuce(s, r);
        assert(0 <= slack <= 112 * e && 16 * e * near == slack + 16 * e) by (nonlinear_arith)
            requires
                slack == 16 * e * (near - 1),
                1 <= near <= 8,
                e > 0,
        ;
        assert(is_chance(win, slack)) by {
            if s < 3 {
                let m = to_deuce(s + 1, r);
                assert(16 * e * m <= slack) by (nonlinear_arith)
                    requires
                        slack == 16 * e * (near - 1),
                        m <= near - 1,
                        e > 0,
                ;
            }
        }
        assert(is_chance(lose, slack)) by {
            if r < 3 {
                let m = to_deuce(s, r + 1);
                assert(16 * e * m <= slack) by (nonlinear_arith)
                    requires
                        slack == 16 * e * (near - 1),
                        m <= near - 1,
                        e > 0,
                ;
            }
        }
        lemma_mix(c, p, win, lose, slack);
    }
}

proof fn lemma_nothing_added(c: &Arithmetic, p: Double, x: Double)
    requires
        is_unit(c),
        is_chance(p, 0),
        is_chance(x, 0),
    ensures
        ({
            let zero = Double::from_bits(ZERO);
            let one = Double::from_bits(ONE);
            &&& c.times(p, x).is_finite()
            &&& c.times(p, x).exact() == c.plus(
                c.times(p, x),
                c.times(c.minus(one, p), zero),
            ).exact()
        }),
{
    let zero = Double::from_bits(ZERO);
    let one = Double::from_bits(ONE);
    let u = unit();
    lemma_ulp();
    lemma_difference_near(c, one, p, 0);
    let (a, b) = (p.exact(), x.exact());
    assert(gap(a * b, 0) <= u * u) by (nonlinear_arith)
        requires
            0 <= a <= u,
            0 <= b <= u,
    ;
    lemma_product_near(c, p, x, 0);
    let t = c.times(p, x);
    let none = c.times(c.minus(one, p), zero);
    assert(none.is_zero());
    let r = c.plus(t, none);
    if t.is_zero() {
        assert(r.is_zero());
        law_exact_orders(t, t);
        law_exact_orders(r, r);
    } else {
        assert(r == t);
    }
}

proof fn lemma_deuce_is_fair(x: int, d: int, won: int, lost: int, u: int, e: int)
    requires
        0 <= x <= u,
        u > 0,
        e > 0,
        gap(d * (x * x + (u - x) * (u - x)), x * x * u) <= 10 * (e * (u * u)),
        gap(won * u, x * u + (u - x) * d) <= 16 * (e * u),
        gap(lost * u, x * d + (u - x) * 0) <= 16 * (e * u),
    ensures
        gap(d * u, x * won + (u - x) * lost) <= 32 * (e * u),
{
    let v = u - x;
    let (w, l) = (won * u, lost * u);
    let (a, b) = (x * u + v * d, x * d);
    assert(v * 0 == 0) by (nonlinear_arith);
    assert(gap(x * w, x * a) <= x * (16 * (e * u))) by (nonlinear_arith)
        requires
            gap(w, a) <= 16 * (e * u),
            x >= 0,
    ;
    assert(gap(v * l, v * b) <= v * (16 * (e * u))) by (nonlinear_arith)
        requires
            gap(l, b) <= 16 * (e * u),
            v >= 0,
    ;
    assert(x * (16 * (e * u)) + v * (16 * (e * u)) == 16 * (e * (u * u))) by (nonlinear_arith)
        requires
            x + v == u,
    ;
    let mean = x * won + v * lost;
    assert(mean * u == x * w + v * l) by (nonlinear_arith)
        requires
            mean == x * won + v * lost,
            w == won * u,
            l == lost * u,
    ;
    assert(x * a + v * b == x * x * u + 2 * (x * v * d)) by (nonlinear_arith)
        requires
            a == x * u + v * d,
            b == x * d,
    ;
    assert((d * u) * u == d * (x * x + v * v) + 2 * (x * v * d)) by (nonlinear_arith)
        requires
            x + v == u,
    ;
    assert(gap((d * u) * u, mean * u) <= 26 * (e * (u * u)));
    assert(26 * (e * (u * u)) == 26 * (e * u) * u) by (nonlinear_arith);
    assert(gap(d * u, mean) <= 26 * (e * u)) by (nonlinear_arith)
        requires
            gap((d * u) * u, mean * u) <= 26 * (e * u) * u,
            u > 0,
    ;
    assert(e * u > 0) by (nonlinear_arith)
        requires
            e > 0,
            u > 0,
    ;
}

/// Whether the arithmetic is that of a floating-point unit whose results are near the exact ones.
pub open spec fn is_unit(c: &Arithmetic) -> bool {
    c.is_ieee() && c.keeps_order() && c.rounds() && c.is_accurate()
}

/// The next point is priced fairly at every score of a game, deuce and advantage among them: the
/// server's chance is the mean of what it is after a point won and after a point lost, by the
/// chance of winning a point.
pub proof fn law_next_point_is_fair(c: &Arithmetic, p: Double, s: int, r: int)
    requires
        is_unit(c),
        is_chance(p, 0),
        0 <= s <= 3 && 0 <= r <= 3 || s == 4 && r == 3 || s == 3 && r == 4,
    ensures
        is_mean(
            game(c, p, s, r),
            p.exact(),
            game_after(c, p, s, r, true),
            game_after(c, p, s, r, false),
        ),
        s == 4 ==> game_after(c, p, s, r, true) == Double::from_bits(ONE) && game_after(
            c,
            p,
            s,
            r,
            false,
        ) == game(c, p, 3, 3),
        r == 4 ==> game_after(c, p, s, r, false) == Double::from_bits(ZERO) && game_after(
            c,
            p,
            s,
            r,
            true,
        ) == game(c, p, 3, 3),
{
    let zero = Double::from_bits(ZERO);
    let one = Double::from_bits(ONE);
    let (u, e) = (unit(), ulp());
    lemma_ulp();
    lemma_deuce(c, p);
    law_exact_orders(zero, zero);
    assert(c.times(p, one) == p);
    let deuce = game(c, p, 3, 3);
    if s == 3 && r == 3 {
        lemma_mix(c, p, one, deuce, 0);
        lemma_mix(c, p, deuce, zero, 0);
        lemma_nothing_added(c, p, deuce);
        let (won, lost) = (game(c, p, 4, 3).exact(), game(c, p, 3, 4).exact());
        let q = c.minus(one, p);
        assert(game(c, p, 4, 3) == c.plus(p, c.times(q, deuce)));
        assert(game(c, p, 3, 4) == c.times(p, deuce));
        lemma_deuce_is_fair(p.exact(), deuce.exact(), won, lost, u, e);
        assert(is_mean(deuce, p.exact(), game(c, p, 4, 3), game(c, p, 3, 4)));
    } else if s == 4 {
        lemma_mix(c, p, one, deuce, 0);
        assert(game(c, p, 4, 3) == c.plus(p, c.times(c.minus(one, p), deuce)));
        assert(is_mean(game(c, p, 4, 3), p.exact(), one, deuce));
    } else if r == 4 {
        lemma_mix(c, p, deuce, zero, 0);
        lemma_nothing_added(c, p, deuce);
        assert(game(c, p, 3, 4) == c.times(p, deuce));
        assert(is_mean(game(c, p, 3, 4), p.exact(), deuce, zero));
    } else {
        let won = game_after(c, p, s, r, true);
        let lost = game_after(c, p, s, r, false);
        if s < 3 {
            lemma_game(c, p, s + 1, r);
        }
        if r < 3 {
            lemma_game(c, p, s, r + 1);
        }
        let slack = 128 * e;
        assert(is_chance(won, slack)) by {
            if s < 3 {
                let m = to_deuce(s + 1, r);
                assert(16 * e * m <= slack) by (nonlinear_arith)
                    requires
                        slack == 128 * e,
                        m <= 8,
                        e > 0,
                ;
            }
        }
        assert(is_chance(lost, slack)) by {
            if r < 3 {
                let m = to_deuce(s, r + 1);
                assert(16 * e * m <= slack) by (nonlinear_arith)
                    requires
                        slack == 128 * e,
                        m <= 8,
                        e > 0,
                ;
            }
        }
        lemma_mix(c, p, won, lost, slack);
        assert(game(c, p, s, r) == c.plus(c.times(p, won), c.times(c.minus(one, p), lost)));
    }
}

/// How many games at most are left of a set.
spec fn games_left(g1: int, g2: int) -> int {
    if g1 <= 6 && g2 <= 6 {
        13 - g1 - g2
    } else {
        0
    }
}

/// Whether a set is over.
pub open spec fn set_is_over(g1: int, g2: int) -> bool {
    g1 >= 7 || g2 >= 7 || (g1 == 6 && g2 <= 4) || (g2 == 6 && g1 <= 4)
}

/// A set is won with six games and two more than the other, or with seven; it is even at six all;
/// else its odds are the mean of what they are after the next game, which the server holds with the
/// chance `hold`, and the other player serves after it.
pub proof fn law_next_game_is_fair(
    c: &Arithmetic,
    hold: Double,
    g1: int,
    g2: int,
    p1_serves: bool,
)
    requires
        is_unit(c),
        is_chance(hold, 0),
        0 <= g1 <= 7,
        0 <= g2 <= 7,
    ensures
        set_is_over(g1, g2) && g1 > g2 ==> set_win(c, hold, g1, g2, p1_serves)
            == Double::from_bits(ONE),
        set_is_over(g1, g2) && g1 < g2 ==> set_win(c, hold, g1, g2, p1_serves)
            == Double::from_bits(ZERO),
        g1 == 6 && g2 == 6 ==> set_win(c, hold, g1, g2, p1_serves) == Double::from_bits(HALF),
        !set_is_over(g1, g2) && !(g1 == 6 && g2 == 6) ==> gap(
            set_win(c, hold, g1, g2, p1_serves).exact() * unit(),
            if p1_serves {
                hold.exact() * set_win(c, hold, g1 + 1, g2, false).exact() + (unit()
                    - hold.exact()) * set_win(c, hold, g1, g2 + 1, false).exact()
            } else {
                (unit() - hold.exact()) * set_win(c, hold, g1 + 1, g2, true).exact()
                    + hold.exact() * set_win(c, hold, g1, g2 + 1, true).exact()
            },
        ) <= 32 * (ulp() * unit()),
        is_chance(set_win(c, hold, g1, g2, p1_serves), 512 * ulp()),
{
    let e = ulp();
    lemma_ulp();
    lemma_set(c, hold, g1, g2, p1_serves);
    let n = games_left(g1, g2);
    assert(32 * e * n <= 512 * e) by (nonlinear_arith)
        requires
            n <= 13,
            e > 0,
    ;
    if !set_is_over(g1, g2) && !(g1 == 6 && g2 == 6) {
        lemma_set(c, hold, g1 + 1, g2, !p1_serves);
        lemma_set(c, hold, g1, g2 + 1, !p1_serves);
        lemma_step(c, hold, g1, g2, p1_serves);
    }
}

proof fn lemma_step(c: &Arithmetic, hold: Double, g1: int, g2: int, p1_serves: bool)
    requires
        is_unit(c),
        is_chance(hold, 0),
        0 <= g1 <= 7,
        0 <= g2 <= 7,
        !set_is_over(g1, g2),
        !(g1 == 6 && g2 == 6),
        is_chance(set_win(c, hold, g1 + 1, g2, !p1_serves), 32 * ulp() * games_left(g1 + 1, g2)),
        is_chance(set_win(c, hold, g1, g2 + 1, !p1_serves), 32 * ulp() * games_left(g1, g2 + 1)),
    ensures
        ({
            let won = set_win(c, hold, g1 + 1, g2, !p1_serves).exact();
            let lost = set_win(c, hold, g1, g2 + 1, !p1_serves).exact();
            let now = set_win(c, hold, g1, g2, p1_serves);
            let h = hold.exact();
            let mean = if p1_serves {
                h * won + (unit() - h) * lost
            } else {
                (unit() - h) * won + h * lost
            };
            &&& gap(now.exact() * unit(), mean) <= 20 * (ulp() * unit())
            &&& is_chance(now, 32 * ulp() * games_left(g1, g2))
        }),
{
    let one = Double::from_bits(ONE);
    let (u, e) = (unit(), ulp());
    lemma_ulp();
    let (won, lost) = (
        set_win(c, hold, g1 + 1, g2, !p1_serves),
        set_win(c, hold, g1, g2 + 1, !p1_serves),
    );
    let n = games_left(g1, g2);
    let slack = 32 * e * (n - 1);
    assert(0 <= slack <= 400 * e && 32 * e * n == slack + 32 * e) by (nonlinear_arith)
        requires
            slack == 32 * e * (n - 1),
            1 <= n <= 13,
            e > 0,
    ;
    let (k, l) = (games_left(g1 + 1, g2), games_left(g1, g2 + 1));
    assert(32 * e * k <= slack && 32 * e * l <= slack) by (nonlinear_arith)
        requires
            slack == 32 * e * (n - 1),
            k <= n - 1,
            l <= n - 1,
            e > 0,
    ;
    lemma_difference_near(c, one, hold, 0);
    let other = c.minus(one, hold);
    lemma_size(other, one);
    let p1_game = if p1_serves {
        hold
    } else {
        other
    };
    assert(is_chance(p1_game, 0)) by {
        let zero = Double::from_bits(ZERO);
        law_exact_orders(zero, hold);
        law_exact_orders(hold, one);
        law_exact_orders(zero, other);
        assert(c.minus(hold, hold).is_zero());
        assert(c.minus(hold, hold).le(other));
    }
    lemma_mix(c, p1_game, won, lost, slack);
    if !p1_serves {
        let (h, q, a, b) = (hold.exact(), other.exact(), won.exact(), lost.exact());
        let (d, f) = (q - (u - h), a - b);
        assert(q * a + (u - q) * b == (u - h) * a + h * b + d * f) by (nonlinear_arith)
            requires
                d == q - (u - h),
                f == a - b,
        ;
        assert(gap(d * f, 0) <= 3 * (e * u)) by (nonlinear_arith)
            requires
                -e <= d <= e,
                -3 * u <= f <= 3 * u,
                e > 0,
                u > 0,
        ;
    }
}

proof fn lemma_set(c: &Arithmetic, hold: Double, g1: int, g2: int, p1_serves: bool)
    requires
        is_unit(c),
        is_chance(hold, 0),
        0 <= g1 <= 8,
        0 <= g2 <= 8,
    ensures
        is_chance(set_win(c, hold, g1, g2, p1_serves), 32 * ulp() * games_left(g1, g2)),
        games_left(g1, g2) <= 13,
    decreases games_left(g1, g2),
{
    lemma_ulp();
    let e = ulp();
    let n = games_left(g1, g2);
    assert(32 * e * n >= 0) by (nonlinear_arith)
        requires
            n >= 0,
            e > 0,
    ;
    if !(g1 >= 7 || g2 >= 7) && !set_is_over(g1, g2) && !(g1 == 6 && g2 == 6) {
        lemma_set(c, hold, g1 + 1, g2, !p1_serves);
        lemma_set(c, hold, g1, g2 + 1, !p1_serves);
        lemma_step(c, hold, g1, g2, p1_serves);
    }
}

/// The two players share a set: what one wins from a score the other loses from it, so their odds
/// add up to one, up to roundings.
pub proof fn law_players_share_a_set(
    c: &Arithmetic,
    hold: Double,
    g1: int,
    g2: int,
    p1_serves: bool,
)
    requires
        is_unit(c),
        is_chance(hold, 0),
        0 <= g1 <= 7,
        0 <= g2 <= 7,
        !(g1 == 7 && g2 == 7),
    ensures
        gap(
            set_win(c, hold, g1, g2, p1_serves).exact() + set_win(
                c,
                hold,
                g2,
                g1,
                !p1_serves,
            ).exact(),
            unit(),
        ) <= 64 * ulp() * 14,
{
    let e = ulp();
    lemma_ulp();
    lemma_mirror(c, hold, g1, g2, p1_serves);
    let n = games_left(g1, g2);
    assert(64 * e * n <= 64 * e * 14) by (nonlinear_arith)
        requires
            n <= 13,
            e > 0,
    ;
}

proof fn lemma_mirror(c: &Arithmetic, hold: Double, g1: int, g2: int, p1_serves: bool)
    requires
        is_unit(c),
        is_chance(hold, 0),
        0 <= g1 <= 7,
        0 <= g2 <= 7,
        !(g1 == 7 && g2 == 7),
    ensures
        gap(
            set_win(c, hold, g1, g2, p1_serves).exact() + set_win(
                c,
                hold,
                g2,
                g1,
                !p1_serves,
            ).exact(),
            unit(),
        ) <= 64 * ulp() * games_left(g1, g2),
        games_left(g1, g2) <= 13,
    decreases games_left(g1, g2),
{
    let (u, e) = (unit(), ulp());
    lemma_ulp();
    let n = games_left(g1, g2);
    assert(64 * e * n >= 0) by (nonlinear_arith)
        requires
            n >= 0,
            e > 0,
    ;
    if !set_is_over(g1, g2) && !(g1 == 6 && g2 == 6) {
        lemma_mirror(c, hold, g1 + 1, g2, !p1_serves);
        lemma_mirror(c, hold, g1, g2 + 1, !p1_serves);
        lemma_set(c, hold, g1 + 1, g2, !p1_serves);
        lemma_set(c, hold, g1, g2 + 1, !p1_serves);
        lemma_set(c, hold, g2 + 1, g1, p1_serves);
        lemma_set(c, hold, g2, g1 + 1, p1_serves);
        lemma_step(c, hold, g1, g2, p1_serves);
        lemma_step(c, hold, g2, g1, !p1_serves);
        let near = 64 * e * (n - 1);
        let (k, l) = (games_left(g1 + 1, g2), games_left(g1, g2 + 1));
        assert(64 * e * k <= near && 64 * e * l <= near && 64 * e * n == near + 64 * e)
            by (nonlinear_arith)
            requires
                near == 64 * e * (n - 1),
                k <= n - 1,
                l <= n - 1,
                e > 0,
        ;
        let (a, b) = (
            set_win(c, hold, g1 + 1, g2, !p1_serves).exact(),
            set_win(c, hold, g1, g2 + 1, !p1_serves).exact(),
        );
        let (x, y) = (
            set_win(c, hold, g2, g1 + 1, p1_serves).exact(),
            set_win(c, hold, g2 + 1, g1, p1_serves).exact(),
        );
        let (m, w) = (
            set_win(c, hold, g1, g2, p1_serves).exact(),
            set_win(c, hold, g2, g1, !p1_serves).exact(),
        );
        let f = if p1_serves {
            hold.exact()
        } else {
            u - hold.exact()
        };
        assert(gap(m * u, f * a + (u - f) * b) <= 20 * (e * u));
        assert(gap(w * u, (u - f) * y + f * x) <= 20 * (e * u));
        lemma_shared(m, w, a, b, x, y, f, u, e, near);
    }
}

proof fn lemma_shared(
    m: int,
    w: int,
    a: int,
    b: int,
    x: int,
    y: int,
    f: int,
    u: int,
    e: int,
    near: int,
)
    requires
        u > 0,
        e > 0,
        0 <= f <= u,
        gap(m * u, f * a + (u - f) * b) <= 20 * (e * u),
        gap(w * u, (u - f) * y + f * x) <= 20 * (e * u),
        gap(a + x, u) <= near,
        gap(b + y, u) <= near,
    ensures
        gap(m + w, u) <= near + 64 * e,
{
    let v = u - f;
    assert(gap(f * (a + x), f * u) <= f * near) by (nonlinear_arith)
        requires
            gap(a + x, u) <= near,
            f >= 0,
    ;
    assert(gap(v * (b + y), v * u) <= v * near) by (nonlinear_arith)
        requires
            gap(b + y, u) <= near,
            v >= 0,
    ;
    assert(f * (a + x) == f * a + f * x && v * (b + y) == v * b + v * y) by (nonlinear_arith);
    assert(f * near + v * near == near * u && f * u + v * u == u * u) by (nonlinear_arith)
        requires
            f + v == u,
    ;
    assert((m + w) * u == m * u + w * u) by (nonlinear_arith);
    let sum = m + w;
    assert(gap(sum * u, u * u) <= near * u + 40 * (e * u));
    assert(near * u + 40 * (e * u) == (near + 40 * e) * u) by (nonlinear_arith);
    assert(gap(sum, u) <= near + 40 * e) by (nonlinear_arith)
        requires
            gap(sum * u, u * u) <= (near + 40 * e) * u,
            u > 0,
    ;
}

/// How many sets at most are left of a match.
spec fn sets_left(s1: int, s2: int, sets_to_win: int) -> int {
    if s1 < sets_to_win && s2 < sets_to_win {
        2 * sets_to_win - s1 - s2
    } else {
        0
    }
}

proof fn lemma_even(c: &Arithmetic, a: Double, b: Double, slack: int)
    requires
        is_unit(c),
        is_chance(a, slack),
        is_chance(b, slack),
        0 <= 2 * slack <= unit(),
    ensures
        ({
            let half = Double::from_bits(HALF);
            let r = c.plus(c.times(half, a), c.times(half, b));
            &&& gap(2 * r.exact(), a.exact() + b.exact()) <= 16 * ulp()
            &&& is_chance(r, slack + 16 * ulp())
        }),
{
    let half = Double::from_bits(HALF);
    let (u, e) = (unit(), ulp());
    lemma_ulp();
    law_exact_orders(half, half);
    let (h, y, z) = (half.exact(), a.exact(), b.exact());
    assert(gap(h * y, 0) <= u * u && gap(h * z, 0) <= u * u) by (nonlinear_arith)
        requires
            2 * h == u,
            -u <= y <= 2 * u,
            -u <= z <= 2 * u,
            u > 0,
    ;
    lemma_product_near(c, half, a, 0);
    lemma_product_near(c, half, b, 0);
    let (s, t) = (c.times(half, a), c.times(half, b));
    let one = Double::from_bits(ONE);
    lemma_size(s, one);
    lemma_size(t, one);
    lemma_sum_near(c, s, t, 1);
    let (k, l) = (s.exact(), t.exact());
    assert(gap(2 * k, y) <= 2 * e && gap(2 * l, z) <= 2 * e) by (nonlinear_arith)
        requires
            gap(k * u, h * y) <= e * u,
            gap(l * u, h * z) <= e * u,
            2 * h == u,
            u > 0,
    ;
}

proof fn lemma_match(c: &Arithmetic, s1: int, s2: int, sets_to_win: int)
    requires
        is_unit(c),
        0 <= s1 <= 4,
        0 <= s2 <= 4,
        1 <= sets_to_win <= 3,
    ensures
        is_chance(match_win(c, s1, s2, sets_to_win), 16 * ulp() * sets_left(s1, s2, sets_to_win)),
        sets_left(s1, s2, sets_to_win) <= 6,
    decreases sets_left(s1, s2, sets_to_win),
{
    lemma_ulp();
    let e = ulp();
    let n = sets_left(s1, s2, sets_to_win);
    assert(16 * e * n >= 0) by (nonlinear_arith)
        requires
            n >= 0,
            e > 0,
    ;
    if s1 < sets_to_win && s2 < sets_to_win {
        lemma_match(c, s1 + 1, s2, sets_to_win);
        lemma_match(c, s1, s2 + 1, sets_to_win);
        let slack = 16 * e * (n - 1);
        let (k, l) = (
            sets_left(s1 + 1, s2, sets_to_win),
            sets_left(s1, s2 + 1, sets_to_win),
        );
        assert(16 * e * k <= slack && 16 * e * l <= slack && 0 <= slack <= 80 * e && 16 * e * n
            == slack + 16 * e) by (nonlinear_arith)
            requires
                slack == 16 * e * (n - 1),
                k <= n - 1,
                l <= n - 1,
                1 <= n <= 6,
                e > 0,
        ;
        lemma_even(
            c,
            match_win(c, s1 + 1, s2, sets_to_win),
            match_win(c, s1, s2 + 1, sets_to_win),
            slack,
        );
    }
}

/// A match is won with the sets it takes; before that its odds are half way between those after a
/// set won and after a set lost, and the two players share one, up to roundings.
pub proof fn law_next_set_is_even(c: &Arithmetic, s1: int, s2: int, sets_to_win: int)
    requires
        is_unit(c),
        1 <= sets_to_win <= 3,
        0 <= s1 <= sets_to_win,
        0 <= s2 <= sets_to_win,
        s1 < sets_to_win || s2 < sets_to_win,
    ensures
        s1 == sets_to_win ==> match_win(c, s1, s2, sets_to_win) == Double::from_bits(ONE),
        s2 == sets_to_win ==> match_win(c, s1, s2, sets_to_win) == Double::from_bits(ZERO),
        s1 < sets_to_win && s2 < sets_to_win ==> gap(
            2 * match_win(c, s1, s2, sets_to_win).exact(),
            match_win(c, s1 + 1, s2, sets_to_win).exact() + match_win(
                c,
                s1,
                s2 + 1,
                sets_to_win,
            ).exact(),
        ) <= 16 * ulp(),
        gap(
            match_win(c, s1, s2, sets_to_win).exact() + match_win(c, s2, s1, sets_to_win).exact(),
            unit(),
        ) <= 16 * ulp() * 7,
{
    lemma_ulp();
    let e = ulp();
    lemma_match_mirror(c, s1, s2, sets_to_win);
    let n = sets_left(s1, s2, sets_to_win);
    assert(16 * e * n <= 16 * e * 7) by (nonlinear_arith)
        requires
            n <= 6,
            e > 0,
    ;
    if s1 < sets_to_win && s2 < sets_to_win {
        lemma_match_step(c, s1, s2, sets_to_win);
    }
}

proof fn lemma_match_step(c: &Arithmetic, s1: int, s2: int, sets_to_win: int)
    requires
        is_unit(c),
        1 <= sets_to_win <= 3,
        0 <= s1 < sets_to_win,
        0 <= s2 < sets_to_win,
    ensures
        gap(
            2 * match_win(c, s1, s2, sets_to_win).exact(),
            match_win(c, s1 + 1, s2, sets_to_win).exact() + match_win(
                c,
                s1,
                s2 + 1,
                sets_to_win,
            ).exact(),
        ) <= 16 * ulp(),
{
    lemma_ulp();
    let e = ulp();
    lemma_match(c, s1 + 1, s2, sets_to_win);
    lemma_match(c, s1, s2 + 1, sets_to_win);
    let (k, l) = (sets_left(s1 + 1, s2, sets_to_win), sets_left(s1, s2 + 1, sets_to_win));
    assert(16 * e * k <= 96 * e && 16 * e * l <= 96 * e) by (nonlinear_arith)
        requires
            k <= 6,
            l <= 6,
            e > 0,
    ;
    lemma_even(
        c,
        match_win(c, s1 + 1, s2, sets_to_win),
        match_win(c, s1, s2 + 1, sets_to_win),
        96 * e,
    );
}

proof fn lemma_match_mirror(c: &Arithmetic, s1: int, s2: int, sets_to_win: int)
    requires
        is_unit(c),
        1 <= sets_to_win <= 3,
        0 <= s1 <= sets_to_win,
        0 <= s2 <= sets_to_win,
        s1 < sets_to_win || s2 < sets_to_win,
    ensures
        gap(
            match_win(c, s1, s2, sets_to_win).exact() + match_win(c, s2, s1, sets_to_win).exact(),
            unit(),
        ) <= 16 * ulp() * sets_left(s1, s2, sets_to_win),
        sets_left(s1, s2, sets_to_win) <= 6,
    decreases sets_left(s1, s2, sets_to_win),
{
    lemma_ulp();
    let e = ulp();
    let n = sets_left(s1, s2, sets_to_win);
    if s1 < sets_to_win && s2 < sets_to_win {
        lemma_match_mirror(c, s1 + 1, s2, sets_to_win);
        lemma_match_mirror(c, s1, s2 + 1, sets_to_win);
        lemma_match_step(c, s1, s2, sets_to_win);
        lemma_match_step(c, s2, s1, sets_to_win);
        let near = 16 * e * (n - 1);
        let (k, l) = (
            sets_left(s1 + 1, s2, sets_to_win),
            sets_left(s1, s2 + 1, sets_to_win),
        );
        assert(16 * e * k <= near && 16 * e * l <= near && 16 * e * n == near + 16 * e)
            by (nonlinear_arith)
            requires
                near == 16 * e * (n - 1),
                k <= n - 1,
                l <= n - 1,
                e > 0,
        ;
    }
}

/// A game that the server is sure of helps the player who serves: between a game surely held and
/// one surely lost, the odds of the first player differ by what the game is worth in the set times
/// what the set is worth in the match, up where they serve and down where the other one does; and
/// the next game is served from the other end.
pub proof fn law_a_hold_helps_the_server(
    c: &Arithmetic,
    source: TennisMatchStateSource,
    state: MatchState,
)
    requires
        is_unit(c),
        c.rounds_differences(),
        state.is_valid(),
        ({
            let hold = game(c, source.serve_point_win, 0, 0);
            let (g1, g2) = (state.games_p1 as int, state.games_p2 as int);
            &&& is_chance(set_win(c, hold, g1 + 1, g2, !state.p1_serving), 0)
            &&& is_chance(set_win(c, hold, g1, g2 + 1, !state.p1_serving), 0)
        }),
    ensures
        ({
            let hold = game(c, source.serve_point_win, 0, 0);
            let (g1, g2) = (state.games_p1 as int, state.games_p2 as int);
            let (s1, s2, n) = (
                state.sets_p1 as int,
                state.sets_p2 as int,
                state.sets_to_win as int,
            );
            let in_set = set_win(c, hold, g1 + 1, g2, !state.p1_serving).exact() - set_win(
                c,
                hold,
                g1,
                g2 + 1,
                !state.p1_serving,
            ).exact();
            let in_match = match_win(c, s1 + 1, s2, n).exact() - match_win(
                c,
                s1,
                s2 + 1,
                n,
            ).exact();
            let swing = source.fair_at(c, state, Double::from_bits(ONE)).exact()
                - source.fair_at(c, state, Double::from_bits(ZERO)).exact();
            gap(
                swing * unit(),
                if state.p1_serving {
                    in_set * in_match
                } else {
                    -(in_set * in_match)
                },
            ) <= 32 * (ulp() * unit())
        }),
{
    let zero = Double::from_bits(ZERO);
    let one = Double::from_bits(ONE);
    let (u, e) = (unit(), ulp());
    lemma_ulp();
    law_exact_orders(zero, zero);
    let hold = game(c, source.serve_point_win, 0, 0);
    let (g1, g2) = (state.games_p1 as int, state.games_p2 as int);
    let (s1, s2, n) = (state.sets_p1 as int, state.sets_p2 as int, state.sets_to_win as int);
    let (up, down) = (
        set_win(c, hold, g1 + 1, g2, !state.p1_serving),
        set_win(c, hold, g1, g2 + 1, !state.p1_serving),
    );
    let (won, lost) = (match_win(c, s1 + 1, s2, n), match_win(c, s1, s2 + 1, n));
    lemma_match(c, s1 + 1, s2, n);
    lemma_match(c, s1, s2 + 1, n);
    let (k, l) = (sets_left(s1 + 1, s2, n), sets_left(s1, s2 + 1, n));
    assert(16 * e * k <= 96 * e && 16 * e * l <= 96 * e) by (nonlinear_arith)
        requires
            k <= 6,
            l <= 6,
            e > 0,
    ;
    assert(c.minus(one, one).is_zero());
    lemma_sure(c, one, up, down);
    lemma_sure(c, zero, up, down);
    lemma_sure(c, c.minus(one, one), up, down);
    assert(c.minus(one, zero) == one);
    let (high, low) = if state.p1_serving {
        (one, zero)
    } else {
        (c.minus(one, one), c.minus(one, zero))
    };
    let x = c.plus(c.times(high, up), c.times(c.minus(one, high), down));
    let y = c.plus(c.times(low, up), c.times(c.minus(one, low), down));
    lemma_mix(c, x, won, lost, 96 * e);
    lemma_mix(c, y, won, lost, 96 * e);
    let (a, b, w, m) = (x.exact(), y.exact(), won.exact(), lost.exact());
    assert((a * w + (u - a) * m) - (b * w + (u - b) * m) == (a - b) * (w - m)) by (nonlinear_arith);
    let (f, g) = (
        source.fair_at(c, state, one).exact(),
        source.fair_at(c, state, zero).exact(),
    );
    assert((f - g) * u == f * u - g * u) by (nonlinear_arith);
    let (p, q) = (up.exact(), down.exact());
    assert((q - p) * (w - m) == -((p - q) * (w - m))) by (nonlinear_arith);
}

/// What mixing gives where one side is sure.
proof fn lemma_sure(c: &Arithmetic, p: Double, a: Double, b: Double)
    requires
        is_unit(c),
        c.rounds_differences(),
        p == Double::from_bits(ONE) || p.is_zero(),
        is_chance(a, 0),
        is_chance(b, 0),
    ensures
        ({
            let one = Double::from_bits(ONE);
            let r = c.plus(c.times(p, a), c.times(c.minus(one, p), b));
            &&& is_chance(r, 0)
            &&& r.exact() == (if p.is_zero() {
                b.exact()
            } else {
                a.exact()
            })
            &&& p.is_zero() ==> c.minus(one, p) == one
        }),
{
    reveal(Arithmetic::rounds_products);
    reveal(Arithmetic::rounds_differences);
    let one = Double::from_bits(ONE);
    let rest = c.minus(one, p);
    lemma_ulp();
    assert(c.times(a, one) == a);
    assert(c.times(one, a) == c.times(a, one));
    assert(c.times(b, one) == b);
    assert(c.times(one, b) == c.times(b, one));
    if p.is_zero() {
        assert(p.neg().is_zero());
        assert(rest == c.plus(one, p.neg()));
        assert(rest == one);
        assert(c.times(a, p).is_zero());
        assert(c.times(p, a) == c.times(a, p));
        let r = c.plus(c.times(p, a), b);
        if b.is_zero() {
            assert(r.is_zero());
            law_exact_orders(b, b);
            law_exact_orders(r, r);
        } else {
            assert(r == b);
        }
    } else {
        assert(rest.is_zero());
        assert(c.times(b, rest).is_zero());
        assert(c.times(rest, b) == c.times(b, rest));
        let r = c.plus(a, c.times(rest, b));
        if a.is_zero() {
            assert(r.is_zero());
            law_exact_orders(a, a);
            law_exact_orders(r, r);
        } else {
            assert(r == a);
        }
    }
}

/// The two sides of a match share one: the opinion for the one player and that for the other add
/// up to one, up to a rounding, and are as sure.
pub proof fn law_sides_share_a_match(
    c: &Arithmetic,
    source: TennisMatchStateSource,
    event: RawEvent,
    p: TennisPayload,
    state: MatchState,
)
    requires
        c.is_accurate(),
        event.payload.tennis == Some(p),
        p.yes_side == 1,
        state_of(p) == Some(state),
        Double::from_bits(stats::PROB_EPSILON).lt(source.priced(c, state).0),
        source.priced(c, state).0.lt(Double::from_bits(stats::PROB_CEILING)),
        ({
            let rest = c.minus(Double::from_bits(ONE), source.priced(c, state).0);
            Double::from_bits(stats::PROB_EPSILON).lt(rest) && rest.lt(
                Double::from_bits(stats::PROB_CEILING),
            )
        }),
        source.opinion(c, &event) is Some,
    ensures
        ({
            let turned = TennisPayload { yes_side: 2, ..p };
            let other = RawEvent {
                payload: crate::alpha::payload::Payload { tennis: Some(turned), ..event.payload },
                ..event
            };
            let first = source.opinion(c, &event)->0;
            match source.opinion(c, &other) {
                Some(second) => {
                    &&& gap(first.probability.exact() + second.probability.exact(), unit())
                        <= ulp()
                    &&& first.std_dev == second.std_dev
                },
                None => false,
            }
        }),
{
    let one = Double::from_bits(ONE);
    lemma_ulp();
    let p1 = source.priced(c, state).0;
    let zero = Double::from_bits(ZERO);
    law_exact_orders(zero, p1);
    law_exact_orders(p1, one);
    lemma_difference_near(c, one, p1, 0);
    let turned = TennisPayload { yes_side: 2, ..p };
    assert(state_of(turned) == state_of(p));
}

} // verus!
