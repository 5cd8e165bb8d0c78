//! What the sources read in an event: each its own shape of the payload.
use vstd::prelude::*;
use crate::double::Double;

verus! {

/// The payload of an event, read as each source's shape in turn: a reading is `None`
/// where the payload does not have that shape.
#[derive(Debug)]
pub struct Payload {
    pub weather: Option<WeatherPayload>,
    pub econ: Option<EconPayload>,
    pub news: Option<NewsPayload>,
    pub oracle: Option<OraclePayload>,
    pub order_flow: Option<OrderFlowPayload>,
    pub reference_distance: Option<ReferenceDistancePayload>,
    pub correlated_asset: Option<CorrelatedAssetPayload>,
    pub tennis: Option<TennisPayload>,
}

impl Payload {
    /// A payload without any known shape.
    pub fn unknown() -> (r: Payload)
        ensures
            r == (Payload {
                weather: None,
                econ: None,
                news: None,
                oracle: None,
                order_flow: None,
                reference_distance: None,
                correlated_asset: None,
                tennis: None,
            }),
    {
        Payload {
            weather: None,
            econ: None,
            news: None,
            oracle: None,
            order_flow: None,
            reference_distance: None,
            correlated_asset: None,
            tennis: None,
        }
    }
}

/// A weather ensemble update for a contract that is already resolved.
#[derive(Debug, Clone)]
pub struct WeatherPayload {
    pub contract: String,
    pub threshold_tenths: i64,
    /// `gt`, `lt` or `between`; where it is absent the contract's id says it.
    pub direction: Option<String>,
    /// The upper bound for an explicit `between`; where it is absent the contract's id says it.
    pub upper_tenths: Option<i64>,
    /// One forecast per ensemble member, in the unit of the threshold.
    pub ensemble_forecast_tenths: Vec<i64>,
}

/// A scheduled economic release, before or after its print.
#[derive(Debug, Clone)]
pub struct EconPayload {
    pub contract: String,
    /// The historical series; the contract's id where it is absent.
    pub series: Option<String>,
    pub threshold: Double,
    pub consensus: Double,
    /// The standard deviation of actual less consensus, used where no fitted value exists.
    pub surprise_std: Double,
    /// The print, once there is one.
    pub actual: Option<Double>,
    /// The residual uncertainty after the print.
    pub post_release_std: Double,
}

/// A headline that has been scored elsewhere.
#[derive(Debug, Clone)]
pub struct NewsPayload {
    pub contract: String,
    /// From -1 (bearish for YES) to 1 (bullish).
    pub polarity: Double,
    /// From 0 (barely concerns the contract) to 1.
    pub relevance: Double,
}

/// A proposed or final resolution.
#[derive(Debug, Clone)]
pub struct OraclePayload {
    pub contract: String,
    pub resolved_yes: bool,
    /// When the challenge window ends; `None` for a source without one.
    pub challenge_window_ends_ns: Option<i64>,
    pub disputed: bool,
}

/// Resting size near the touch on the reference asset's own book.
#[derive(Debug, Clone)]
pub struct OrderFlowPayload {
    pub contract: String,
    pub bid_size: Double,
    pub ask_size: Double,
}

/// A reference asset's price with a short window of past prices.
#[derive(Debug, Clone)]
pub struct ReferenceDistancePayload {
    pub contract: String,
    pub reference_price: Double,
    pub current_price: Double,
    pub seconds_remaining: Double,
    pub recent_prices: Vec<Double>,
    pub tick_interval_secs: Double,
}

/// Paired returns of an asset and its driver.
#[derive(Debug, Clone)]
pub struct CorrelatedAssetPayload {
    pub contract: String,
    pub correlated_returns: Vec<Double>,
    pub driver_returns: Vec<Double>,
    pub current_correlated_return: Double,
    pub current_driver_return: Double,
}

/// A live tennis score.
#[derive(Debug, Clone)]
pub struct TennisPayload {
    pub contract: String,
    /// Only "tennis" is priced.
    pub sport: String,
    /// The player, 1 or 2, on whom YES resolves.
    pub yes_side: i64,
    /// Only a live match is priced.
    pub status: Option<String>,
    /// "BO3" or "BO5".
    pub format: Option<String>,
    /// Sets won by player 1 and player 2.
    pub sets: Vec<i64>,
    /// Games per set of player 1 and of player 2; the last entry is the set in progress.
    pub games: Vec<Vec<i64>>,
    /// The points in the game: "0", "15", "30", "40", "AD", each possibly absent.
    pub points: Option<Vec<Option<String>>>,
    /// 1 or 2, where it is known.
    pub server: Option<i64>,
    pub is_tiebreak: bool,
}

} // verus!
