//! Tennis: a live match priced from its score alone.
use vstd::prelude::*;
use std::collections::HashMap;
use crate::alpha::config::TennisConfig;
use crate::alpha::payload::TennisPayload;
use crate::alpha::source;
use crate::alpha::source::AlphaSource;
use crate::alpha::stats;
use crate::double::{Arithmetic, Double, HALF, ONE, TWO, ZERO};
use crate::text;
use crate::types::alpha::{AlphaEventKind, ProbabilityEstimate, RawEvent};

verus! {

broadcast use vstd::std_specs::hash::group_hash_axioms;

/// The place of a point in a game: 0, 15, 30, 40 are 0 to 3, advantage is 4.
pub open spec fn point_place(s: Seq<char>) -> Option<u8> {
    if s == "0"@ {
        Some(0)
    } else if s == "15"@ {
        Some(1)
    } else if s == "30"@ {
        Some(2)
    } else if s == "40"@ {
        Some(3)
    } else if s == "AD"@ {
        Some(4)
    } else {
        None
    }
}

/// The place of a point in a game; `None` for anything outside the vocabulary.
pub fn point_index(s: &str) -> (r: Option<u8>)
    ensures
        r == point_place(s@),
{
    if text::same_text(s, "0") {
        Some(0)
    } else if text::same_text(s, "15") {
        Some(1)
    } else if text::same_text(s, "30") {
        Some(2)
    } else if text::same_text(s, "40") {
        Some(3)
    } else if text::same_text(s, "AD") {
        Some(4)
    } else {
        None
    }
}

/// The probability that the server wins the game from `(s, r)`, each a place of a point, where
/// the server wins a point with probability `p`. Deuce has a closed form; everything else leads
/// to it.
pub open spec fn game(c: &Arithmetic, p: Double, s: int, r: int) -> Double
    decreases
            (if s == 3 && r == 3 {
                0int
            } else if s == 4 || r == 4 {
                1int
            } else {
                8 - s - r
            }),
{
    let one = Double::from_bits(ONE);
    let q = c.minus(one, p);
    if !(0 <= s <= 4 && 0 <= r <= 4) {
        Double::from_bits(ZERO)
    } else if s == 3 && r == 3 {
        c.over(c.times(p, p), c.plus(c.times(p, p), c.times(q, q)))
    } else if s == 4 {
        c.plus(p, c.times(q, game(c, p, 3, 3)))
    } else if r == 4 {
        c.times(p, game(c, p, 3, 3))
    } else {
        let win = if s == 3 {
            one
        } else {
            game(c, p, s + 1, r)
        };
        let lose = if r == 3 {
            Double::from_bits(ZERO)
        } else {
            game(c, p, s, r + 1)
        };
        c.plus(c.times(p, win), c.times(q, lose))
    }
}

fn game_win_prob(c: &Arithmetic, p: Double, s: u8, r: u8) -> (w: Double)
    requires
        s <= 4,
        r <= 4,
    ensures
        w == game(c, p, s as int, r as int),
    decreases
            (if s == 3 && r == 3 {
                0int
            } else if s == 4 || r == 4 {
                1int
            } else {
                8 - s - r
            }),
{
    let one = Double::from_bits(ONE);
    let q = c.minus(one, p);
    if s == 3 && r == 3 {
        return c.over(c.times(p, p), c.plus(c.times(p, p), c.times(q, q)));
    }
    if s == 4 {
        return c.plus(p, c.times(q, game_win_prob(c, p, 3, 3)));
    }
    if r == 4 {
        return c.times(p, game_win_prob(c, p, 3, 3));
    }
    let win = if s == 3 {
        one
    } else {
        game_win_prob(c, p, s + 1, r)
    };
    let lose = if r == 3 {
        Double::from_bits(ZERO)
    } else {
        game_win_prob(c, p, s, r + 1)
    };
    c.plus(c.times(p, win), c.times(q, lose))
}

/// The probability that the server wins the game once the next point is played: the two that
/// `game` is the mean of. Against an advantage, a point leads back to deuce.
pub open spec fn game_after(c: &Arithmetic, p: Double, s: int, r: int, server_won: bool) -> Double {
    if server_won {
        if s == 4 {
            Double::from_bits(ONE)
        } else if r == 4 {
            game(c, p, 3, 3)
        } else if s == 3 && r == 3 {
            game(c, p, 4, 3)
        } else if s == 3 {
            Double::from_bits(ONE)
        } else {
            game(c, p, s + 1, r)
        }
    } else {
        if r == 4 {
            Double::from_bits(ZERO)
        } else if s == 4 {
            game(c, p, 3, 3)
        } else if s == 3 && r == 3 {
            game(c, p, 3, 4)
        } else if r == 3 {
            Double::from_bits(ZERO)
        } else {
            game(c, p, s, r + 1)
        }
    }
}

fn game_win_prob_after_point(c: &Arithmetic, p: Double, s: u8, r: u8, server_won_point: bool) -> (w:
    Double)
    requires
        s <= 4,
        r <= 4,
    ensures
        w == game_after(c, p, s as int, r as int, server_won_point),
{
    if server_won_point {
        if s == 4 {
            Double::from_bits(ONE)
        } else if r == 4 {
            game_win_prob(c, p, 3, 3)
        } else if s == 3 && r == 3 {
            game_win_prob(c, p, 4, 3)
        } else if s == 3 {
            Double::from_bits(ONE)
        } else {
            game_win_prob(c, p, s + 1, r)
        }
    } else {
        if r == 4 {
            Double::from_bits(ZERO)
        } else if s == 4 {
            game_win_prob(c, p, 3, 3)
        } else if s == 3 && r == 3 {
            game_win_prob(c, p, 3, 4)
        } else if r == 3 {
            Double::from_bits(ZERO)
        } else {
            game_win_prob(c, p, s, r + 1)
        }
    }
}

/// The probability that player 1 wins the set from a score in games, with a fresh game about to
/// start and both players holding serve with probability `hold`. At 6-6 it is a coin flip.
pub open spec fn set_win(c: &Arithmetic, hold: Double, g1: int, g2: int, p1_serves: bool) -> Double
    decreases
            (if g1 <= 6 && g2 <= 6 {
                13 - g1 - g2
            } else {
                0int
            }),
{
    let one = Double::from_bits(ONE);
    let zero = Double::from_bits(ZERO);
    if g1 >= 6 && g1 - g2 >= 2 {
        one
    } else if g2 >= 6 && g2 - g1 >= 2 {
        zero
    } else if g1 >= 7 {
        one
    } else if g2 >= 7 {
        zero
    } else if g1 == 6 && g2 == 6 {
        Double::from_bits(HALF)
    } else {
        let p1_game = if p1_serves {
            hold
        } else {
            c.minus(one, hold)
        };
        c.plus(
            c.times(p1_game, set_win(c, hold, g1 + 1, g2, !p1_serves)),
            c.times(c.minus(one, p1_game), set_win(c, hold, g1, g2 + 1, !p1_serves)),
        )
    }
}

fn set_win_prob(c: &Arithmetic, hold: Double, g1: i64, g2: i64, p1_serves: bool) -> (w: Double)
    requires
        0 <= g1 <= 8,
        0 <= g2 <= 8,
    ensures
        w == set_win(c, hold, g1 as int, g2 as int, p1_serves),
    decreases
            (if g1 <= 6 && g2 <= 6 {
                13 - g1 - g2
            } else {
                0int
            }),
{
    let one = Double::from_bits(ONE);
    let zero = Double::from_bits(ZERO);
    if g1 >= 6 && g1 - g2 >= 2 {
        return one;
    }
    if g2 >= 6 && g2 - g1 >= 2 {
        return zero;
    }
    if g1 >= 7 {
        return one;
    }
    if g2 >= 7 {
        return zero;
    }
    if g1 == 6 && g2 == 6 {
        return Double::from_bits(HALF);
    }
    let p1_game = if p1_serves {
        hold
    } else {
        c.minus(one, hold)
    };
    c.plus(
        c.times(p1_game, set_win_prob(c, hold, g1 + 1, g2, !p1_serves)),
        c.times(c.minus(one, p1_game), set_win_prob(c, hold, g1, g2 + 1, !p1_serves)),
    )
}

/// The probability that player 1 wins the match from a score in sets, every set to come a coin
/// flip.
pub open spec fn match_win(c: &Arithmetic, s1: int, s2: int, sets_to_win: int) -> Double
    decreases
            (if s1 < sets_to_win && s2 < sets_to_win {
                2 * sets_to_win - s1 - s2
            } else {
                0int
            }),
{
    let half = Double::from_bits(HALF);
    if s1 >= sets_to_win {
        Double::from_bits(ONE)
    } else if s2 >= sets_to_win {
        Double::from_bits(ZERO)
    } else {
        c.plus(
            c.times(half, match_win(c, s1 + 1, s2, sets_to_win)),
            c.times(half, match_win(c, s1, s2 + 1, sets_to_win)),
        )
    }
}

fn match_win_prob(c: &Arithmetic, s1: i64, s2: i64, sets_to_win: i64) -> (w: Double)
    requires
        0 <= s1 <= 4,
        0 <= s2 <= 4,
        sets_to_win <= 3,
    ensures
        w == match_win(c, s1 as int, s2 as int, sets_to_win as int),
    decreases
            (if s1 < sets_to_win && s2 < sets_to_win {
                2 * sets_to_win - s1 - s2
            } else {
                0int
            }),
{
    let half = Double::from_bits(HALF);
    if s1 >= sets_to_win {
        return Double::from_bits(ONE);
    }
    if s2 >= sets_to_win {
        return Double::from_bits(ZERO);
    }
    c.plus(
        c.times(half, match_win_prob(c, s1 + 1, s2, sets_to_win)),
        c.times(half, match_win_prob(c, s1, s2 + 1, sets_to_win)),
    )
}

/// The places of both points, where both are given and known.
pub open spec fn both_places(points: Seq<Option<String>>) -> Option<(u8, u8)> {
    match (points[0], points[1]) {
        (Some(a), Some(b)) => match (point_place(a@), point_place(b@)) {
            (Some(x), Some(y)) => Some((x, y)),
            _ => None,
        },
        _ => None,
    }
}

fn read_places(points: &[Option<String>]) -> (r: Option<(u8, u8)>)
    requires
        points.len() == 2,
    ensures
        r == both_places(points@),
{
    match (&points[0], &points[1]) {
        (Some(a), Some(b)) => match (point_index(a.as_str()), point_index(b.as_str())) {
            (Some(x), Some(y)) => Some((x, y)),
            _ => None,
        },
        _ => None,
    }
}

/// Whether the receiver is one point from taking the server's game: at advantage, or at 40
/// against at most 30. Never in a tiebreak, and never where the server or a point is not known.
pub open spec fn break_point(
    server: Option<i64>,
    points: Option<Seq<Option<String>>>,
    is_tiebreak: bool,
) -> bool {
    &&& !is_tiebreak
    &&& server == Some(1i64) || server == Some(2i64)
    &&& match points {
        Some(p) => match both_places(p) {
            Some((a, b)) => {
                let (srv, rcv) = if server == Some(1i64) {
                    (a, b)
                } else {
                    (b, a)
                };
                p.len() == 2 && (rcv == 4 || (rcv == 3 && srv <= 2))
            },
            None => false,
        },
        None => false,
    }
}

/// The points as a sequence, where they are given.
pub open spec fn given(points: Option<&[Option<String>]>) -> Option<Seq<Option<String>>> {
    match points {
        Some(p) => Some(p@),
        None => None,
    }
}

/// Whether the receiver is one point from taking the server's game.
pub fn is_break_point(
    server: Option<i64>,
    points: Option<&[Option<String>]>,
    is_tiebreak: bool,
) -> (r: bool)
    ensures
        r == break_point(server, given(points), is_tiebreak),
{
    if is_tiebreak {
        return false;
    }
    let p1_serves = match server {
        Some(n) => if n == 1 {
            true
        } else if n == 2 {
            false
        } else {
            return false;
        },
        None => return false,
    };
    let points = match points {
        Some(p) => if p.len() == 2 {
            p
        } else {
            return false;
        },
        None => return false,
    };
    match read_places(points) {
        Some((a, b)) => {
            let (srv, rcv) = if p1_serves {
                (a, b)
            } else {
                (b, a)
            };
            rcv == 4 || (rcv == 3 && srv <= 2)
        },
        None => false,
    }
}

/// A score that is valid and has a server.
#[derive(Debug, Clone, Copy, PartialEq, Eq)]
pub struct MatchState {
    pub sets_p1: i64,
    pub sets_p2: i64,
    pub games_p1: i64,
    pub games_p2: i64,
    /// The points of server and receiver; none in a tiebreak.
    pub in_game: Option<(u8, u8)>,
    pub p1_serving: bool,
    pub tiebreak: bool,
    pub sets_to_win: i64,
}

impl MatchState {
    /// The bounds that every parsed score keeps.
    pub open spec fn is_valid(&self) -> bool {
        &&& 2 <= self.sets_to_win <= 3
        &&& 0 <= self.sets_p1 < self.sets_to_win
        &&& 0 <= self.sets_p2 < self.sets_to_win
        &&& 0 <= self.games_p1 <= 7
        &&& 0 <= self.games_p2 <= 7
        &&& self.in_game matches Some((s, r)) ==> s <= 4 && r <= 4
    }
}

/// How many sets win the match, by its format. A format that is absent or unknown is no match
/// that can be priced.
pub open spec fn length_of(format: Option<String>) -> Option<i64> {
    match format {
        Some(f) => if f@ == "BO3"@ {
            Some(2i64)
        } else if f@ == "BO5"@ {
            Some(3i64)
        } else {
            None
        },
        None => None,
    }
}

/// The points of server and receiver; without points the game is priced from its start. One
/// missing entry, a wrong number of entries, an unknown point or an impossible advantage is
/// malformed.
pub open spec fn game_points(points: Option<Vec<Option<String>>>, p1_serving: bool) -> Option<
    (u8, u8),
> {
    match points {
        None => Some((0u8, 0u8)),
        Some(v) => if v.len() != 2 {
            None
        } else if v[0] is None && v[1] is None {
            Some((0u8, 0u8))
        } else {
            match both_places(v@) {
                Some((a, b)) => if (a == 4 && b != 3) || (b == 4 && a != 3) {
                    None
                } else if p1_serving {
                    Some((a, b))
                } else {
                    Some((b, a))
                },
                None => None,
            }
        },
    }
}

/// The score of a payload, if it is live, complete and possible.
pub open spec fn state_of(payload: TennisPayload) -> Option<MatchState> {
    let live = match payload.status {
        Some(s) => s@ == "live"@,
        None => true,
    };
    let games_known = payload.games.len() == 2 && payload.games[0].len() > 0
        && payload.games[0].len() == payload.games[1].len();
    let known = live && payload.sets.len() == 2 && games_known && (payload.server == Some(1i64)
        || payload.server == Some(2i64));
    match length_of(payload.format) {
        None => None,
        Some(sets_to_win) => {
            let sets_p1 = payload.sets[0];
            let sets_p2 = payload.sets[1];
            let games_p1 = payload.games[0]@.last();
            let games_p2 = payload.games[1]@.last();
            let p1_serving = payload.server == Some(1i64);
            let tiebreak = payload.is_tiebreak || (games_p1 == 6 && games_p2 == 6);
            let points = game_points(payload.points, p1_serving);
            if !known || !(0 <= sets_p1 < sets_to_win) || !(0 <= sets_p2 < sets_to_win) || !(0
                <= games_p1 <= 7) || !(0 <= games_p2 <= 7) || (!tiebreak && points is None) {
                None
            } else {
                Some(
                    MatchState {
                        sets_p1,
                        sets_p2,
                        games_p1,
                        games_p2,
                        in_game: if tiebreak {
                            None
                        } else {
                            points
                        },
                        p1_serving,
                        tiebreak,
                        sets_to_win,
                    },
                )
            }
        },
    }
}

fn read_points(points: &Option<Vec<Option<String>>>, p1_serving: bool) -> (r: Option<(u8, u8)>)
    ensures
        r == game_points(*points, p1_serving),
        r matches Some((s, t)) ==> s <= 4 && t <= 4,
{
    match points {
        None => Some((0, 0)),
        Some(v) => {
            if v.len() != 2 {
                return None;
            }
            if v[0].is_none() && v[1].is_none() {
                return Some((0, 0));
            }
            match read_places(v.as_slice()) {
                Some((a, b)) => if (a == 4 && b != 3) || (b == 4 && a != 3) {
                    None
                } else if p1_serving {
                    Some((a, b))
                } else {
                    Some((b, a))
                },
                None => None,
            }
        },
    }
}

/// The score of a payload; `None`, that is silence, for anything that is not live, not complete
/// or not possible.
pub fn parse_state(payload: &TennisPayload) -> (r: Option<MatchState>)
    ensures
        r == state_of(*payload),
        r matches Some(state) ==> state.is_valid(),
{
    match &payload.status {
        Some(status) => if !text::same_text(status.as_str(), "live") {
            return None;
        },
        None => {},
    }
    let sets_to_win: i64 = match &payload.format {
        Some(f) => if text::same_text(f.as_str(), "BO3") {
            2
        } else if text::same_text(f.as_str(), "BO5") {
            3
        } else {
            return None;
        },
        None => return None,
    };
    if payload.sets.len() != 2 {
        return None;
    }
    let sets_p1: i64 = payload.sets[0];
    let sets_p2: i64 = payload.sets[1];
    if !(0 <= sets_p1 && sets_p1 < sets_to_win) || !(0 <= sets_p2 && sets_p2 < sets_to_win) {
        return None;
    }
    if payload.games.len() != 2 || payload.games[0].len() == 0 || payload.games[0].len()
        != payload.games[1].len() {
        return None;
    }
    let last: usize = payload.games[0].len() - 1;
    let games_p1: i64 = payload.games[0][last];
    let games_p2: i64 = payload.games[1][last];
    if !(0 <= games_p1 && games_p1 <= 7) || !(0 <= games_p2 && games_p2 <= 7) {
        return None;
    }
    let p1_serving = match payload.server {
        Some(n) => if n == 1 {
            true
        } else if n == 2 {
            false
        } else {
            return None;
        },
        None => return None,
    };
    let tiebreak = payload.is_tiebreak || (games_p1 == 6 && games_p2 == 6);
    let in_game = if tiebreak {
        None
    } else {
        match read_points(&payload.points, p1_serving) {
            Some(points) => Some(points),
            None => return None,
        }
    };
    Some(
        MatchState {
            sets_p1,
            sets_p2,
            games_p1,
            games_p2,
            in_game,
            p1_serving,
            tiebreak,
            sets_to_win,
        },
    )
}

/// The probability of the match, given that of the set.
pub open spec fn given_set(c: &Arithmetic, p1_set: Double, won: Double, lost: Double) -> Double {
    c.plus(c.times(p1_set, won), c.times(c.minus(Double::from_bits(ONE), p1_set), lost))
}

/// Prices a live match from its score through points, games, sets and match, with one
/// parameter: the probability that the server wins a point. The uncertainty is half of what the
/// next point can move, widest on break points. In a tiebreak the set is a coin flip and the
/// band spans both of its outcomes.
#[derive(Debug)]
pub struct TennisMatchStateSource {
    pub name: String,
    pub kinds: Vec<AlphaEventKind>,
    pub correlation_group: Option<String>,
    pub serve_point_win: Double,
    pub min_std_dev: Double,
}

impl TennisMatchStateSource {
    /// A source with the default constants.
    pub fn new(name: &str) -> (r: TennisMatchStateSource)
        ensures
            r.name@ == name@,
            r.kinds@ == seq![AlphaEventKind::SportsMatchState],
            r.correlation_group is None,
            r.serve_point_win == Double::from_bits(crate::alpha::config::DEFAULT_SERVE_POINT_WIN),
            r.min_std_dev == Double::from_bits(crate::alpha::config::DEFAULT_TENNIS_STD_DEV),
    {
        let config = TennisConfig::default();
        TennisMatchStateSource::from_config(name, &config)
    }

    /// A source with the constants of a configuration.
    pub fn from_config(name: &str, config: &TennisConfig) -> (r: TennisMatchStateSource)
        ensures
            r.name@ == name@,
            r.kinds@ == seq![AlphaEventKind::SportsMatchState],
            r.correlation_group is None,
            r.serve_point_win == config.serve_point_win,
            r.min_std_dev == config.min_std_dev,
    {
        TennisMatchStateSource {
            name: name.to_owned(),
            kinds: vec![AlphaEventKind::SportsMatchState],
            correlation_group: None,
            serve_point_win: config.serve_point_win,
            min_std_dev: config.min_std_dev,
        }
    }

    /// The source with every estimate marked as one of a group.
    pub fn with_correlation_group(self, group: &str) -> (r: TennisMatchStateSource)
        ensures
            r.correlation_group matches Some(g) && g@ == group@,
            r == (TennisMatchStateSource { correlation_group: r.correlation_group, ..self }),
    {
        TennisMatchStateSource { correlation_group: Some(group.to_owned()), ..self }
    }

    /// The probability that player 1 wins the match, given the server's chance in this game.
    pub open spec fn fair_at(
        &self,
        c: &Arithmetic,
        state: MatchState,
        server_game: Double,
    ) -> Double {
        let one = Double::from_bits(ONE);
        let hold = game(c, self.serve_point_win, 0, 0);
        let won = match_win(c, state.sets_p1 + 1, state.sets_p2 as int, state.sets_to_win as int);
        let lost = match_win(c, state.sets_p1 as int, state.sets_p2 + 1, state.sets_to_win as int);
        let game_won = set_win(
            c,
            hold,
            state.games_p1 + 1,
            state.games_p2 as int,
            !state.p1_serving,
        );
        let game_lost = set_win(
            c,
            hold,
            state.games_p1 as int,
            state.games_p2 + 1,
            !state.p1_serving,
        );
        let p1_game = if state.p1_serving {
            server_game
        } else {
            c.minus(one, server_game)
        };
        given_set(c, given_set(c, p1_game, game_won, game_lost), won, lost)
    }

    /// The probability that player 1 wins the match, and half of what the next point can move.
    pub open spec fn priced(&self, c: &Arithmetic, state: MatchState) -> (Double, Double) {
        let two = Double::from_bits(TWO);
        let p = self.serve_point_win;
        let won = match_win(c, state.sets_p1 + 1, state.sets_p2 as int, state.sets_to_win as int);
        let lost = match_win(c, state.sets_p1 as int, state.sets_p2 + 1, state.sets_to_win as int);
        if state.tiebreak {
            (
                given_set(c, Double::from_bits(HALF), won, lost),
                c.over(c.minus(won, lost).abs(), two),
            )
        } else {
            let (s, r) = match state.in_game {
                Some((s, r)) => (s as int, r as int),
                None => (0int, 0int),
            };
            let up = self.fair_at(c, state, game_after(c, p, s, r, true));
            let down = self.fair_at(c, state, game_after(c, p, s, r, false));
            (self.fair_at(c, state, game(c, p, s, r)), c.over(c.minus(up, down).abs(), two))
        }
    }

    /// The probability that player 1 wins the match, and half of what the next point can move.
    pub fn price(&self, c: &Arithmetic, state: &MatchState) -> (r: (Double, Double))
        requires
            state.is_valid(),
        ensures
            r == self.priced(c, *state),
    {
        let one = Double::from_bits(ONE);
        let two = Double::from_bits(TWO);
        let p = self.serve_point_win;
        let hold = game_win_prob(c, p, 0, 0);
        let won = match_win_prob(c, state.sets_p1 + 1, state.sets_p2, state.sets_to_win);
        let lost = match_win_prob(c, state.sets_p1, state.sets_p2 + 1, state.sets_to_win);
        if state.tiebreak {
            let half = Double::from_bits(HALF);
            return (
                c.plus(c.times(half, won), c.times(c.minus(one, half), lost)),
                c.over(c.minus(won, lost).abs(), two),
            );
        }
        let game_won = set_win_prob(
            c,
            hold,
            state.games_p1 + 1,
            state.games_p2,
            !state.p1_serving,
        );
        let game_lost = set_win_prob(
            c,
            hold,
            state.games_p1,
            state.games_p2 + 1,
            !state.p1_serving,
        );
        let (s, r) = match state.in_game {
            Some(points) => points,
            None => (0, 0),
        };
        let fair = self.chain(
            c,
            state.p1_serving,
            game_win_prob(c, p, s, r),
            game_won,
            game_lost,
            won,
            lost,
        );
        let up = self.chain(
            c,
            state.p1_serving,
            game_win_prob_after_point(c, p, s, r, true),
            game_won,
            game_lost,
            won,
            lost,
        );
        let down = self.chain(
            c,
            state.p1_serving,
            game_win_prob_after_point(c, p, s, r, false),
            game_won,
            game_lost,
            won,
            lost,
        );
        (fair, c.over(c.minus(up, down).abs(), two))
    }

    fn chain(
        &self,
        c: &Arithmetic,
        p1_serving: bool,
        server_game: Double,
        game_won: Double,
        game_lost: Double,
        won: Double,
        lost: Double,
    ) -> (r: Double)
        ensures
            r == given_set(
                c,
                given_set(
                    c,
                    if p1_serving {
                        server_game
                    } else {
                        c.minus(Double::from_bits(ONE), server_game)
                    },
                    game_won,
                    game_lost,
                ),
                won,
                lost,
            ),
    {
        let one = Double::from_bits(ONE);
        let p1_game = if p1_serving {
            server_game
        } else {
            c.minus(one, server_game)
        };
        let p1_set = c.plus(
            c.times(p1_game, game_won),
            c.times(c.minus(one, p1_game), game_lost),
        );
        c.plus(c.times(p1_set, won), c.times(c.minus(one, p1_set), lost))
    }
}

impl AlphaSource for TennisMatchStateSource {
    open spec fn named(&self) -> Seq<char> {
        self.name@
    }

    open spec fn kinds(&self) -> Seq<AlphaEventKind> {
        self.kinds@
    }

    open spec fn opinion(&self, c: &Arithmetic, event: &RawEvent) -> Option<ProbabilityEstimate> {
        match event.payload.tennis {
            Some(p) => match state_of(p) {
                Some(state) => if event.kind != AlphaEventKind::SportsMatchState || p.sport@
                    != "tennis"@ || (p.yes_side != 1 && p.yes_side != 2) {
                    None
                } else {
                    let (p1, half_swing) = self.priced(c, state);
                    let probability = if p.yes_side == 1 {
                        p1
                    } else {
                        c.minus(Double::from_bits(ONE), p1)
                    };
                    Some(
                        source::decaying(
                            self.name,
                            p.contract,
                            stats::clamp_probability(probability),
                            half_swing.larger(self.min_std_dev),
                            event.receive_ts,
                            self.correlation_group,
                        ),
                    )
                },
                None => None,
            },
            None => None,
        }
    }

    fn name(&self) -> (r: &str) {
        self.name.as_str()
    }

    fn event_kinds(&self) -> (r: &[AlphaEventKind]) {
        self.kinds.as_slice()
    }

    fn on_event(&self, c: &Arithmetic, event: &RawEvent) -> (r: Option<ProbabilityEstimate>) {
        if event.kind != AlphaEventKind::SportsMatchState {
            return None;
        }
        let payload = match &event.payload.tennis {
            Some(p) => p,
            None => return None,
        };
        if !text::same_text(payload.sport.as_str(), "tennis") {
            return None;
        }
        let state = match parse_state(payload) {
            Some(state) => state,
            None => return None,
        };
        let (p1_prob, half_swing) = self.price(c, &state);
        let probability = if payload.yes_side == 1 {
            p1_prob
        } else if payload.yes_side == 2 {
            c.minus(Double::from_bits(ONE), p1_prob)
        } else {
            return None;
        };
        Some(
            source::decaying_estimate(
                &self.name,
                &payload.contract,
                stats::clamp_probability(probability),
                half_swing.larger(self.min_std_dev),
                event.receive_ts,
                &self.correlation_group,
            ),
        )
    }
}

/// A match whose feed has failed too often in a row.
#[derive(Debug, Clone, Copy, PartialEq, Eq, Structural)]
pub struct TennisFeedAlert {
    pub match_id: i64,
    pub consecutive_failures: u32,
}

/// Counts failures in a row by match: one failure is the internet, many are a problem. Alerts
/// repeat for as long as the outage lasts.
#[derive(Debug)]
pub struct TennisFeedHealth {
    halt_after: u32,
    streaks: HashMap<i64, u32>,
}

impl TennisFeedHealth {
    /// The number of failures in a row that raises an alert.
    pub closed spec fn threshold(&self) -> u32 {
        self.halt_after
    }

    /// The present number of failures in a row of a match.
    pub closed spec fn streak(&self, match_id: i64) -> nat {
        if self.streaks@.contains_key(match_id) {
            self.streaks@[match_id] as nat
        } else {
            0
        }
    }

    /// Alerts after `halt_after` failures in a row, at least one.
    pub fn new(halt_after: u32) -> (r: TennisFeedHealth)
        ensures
            r.threshold() == (if halt_after == 0 {
                1u32
            } else {
                halt_after
            }),
            forall|id: i64| #[trigger] r.streak(id) == 0,
    {
        TennisFeedHealth {
            halt_after: if halt_after == 0 {
                1
            } else {
                halt_after
            },
            streaks: HashMap::new(),
        }
    }

    /// Records one attempt. A success ends the streak; a failure lengthens it, and alerts once
    /// it is long enough.
    pub fn record(&mut self, match_id: i64, success: bool) -> (r: Option<TennisFeedAlert>)
        requires
            success || old(self).streak(match_id) < u32::MAX,
        ensures
            final(self).threshold() == old(self).threshold(),
            final(self).streak(match_id) == (if success {
                0
            } else {
                old(self).streak(match_id) + 1
            }),
            forall|id: i64|
                id != match_id ==> #[trigger] final(self).streak(id) == old(self).streak(id),
            r == (if !success && final(self).streak(match_id) >= old(self).threshold() {
                Some(
                    TennisFeedAlert {
                        match_id,
                        consecutive_failures: final(self).streak(match_id) as u32,
                    },
                )
            } else {
                None
            }),
    {
        let before: u32 = match self.streaks.get(&match_id) {
            Some(n) => *n,
            None => 0,
        };
        if success {
            self.streaks.insert(match_id, 0);
            return None;
        }
        let streak: u32 = before + 1;
        self.streaks.insert(match_id, streak);
        if streak >= self.halt_after {
            Some(TennisFeedAlert { match_id, consecutive_failures: streak })
        } else {
            None
        }
    }
}

/// A side that is neither player is silence, and so is a score without a server, of another
/// sport, or of a match that is not live.
pub proof fn law_unreadable_score_is_silent(
    source: TennisMatchStateSource,
    c: &Arithmetic,
    event: RawEvent,
)
    requires
        event.payload.tennis matches Some(p) && ((p.yes_side != 1 && p.yes_side != 2) || (p.server
            != Some(1i64) && p.server != Some(2i64)) || p.sport@ != "tennis"@ || (
        p.status matches Some(s) && s@ != "live"@)),
    ensures
        source.opinion(c, &event) is None,
{
}

/// No match is ever priced as certain: a probability that is a number lies strictly between 0
/// and 1.
pub proof fn law_match_is_never_certain(
    source: TennisMatchStateSource,
    c: &Arithmetic,
    event: RawEvent,
)
    ensures
        source.opinion(c, &event) matches Some(e) ==> (e.probability.is_nan() || (e.probability.gt(
            Double::from_bits(ZERO),
        ) && e.probability.lt(Double::from_bits(ONE)))),
{
}

} // verus!
