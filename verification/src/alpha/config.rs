//! The constants of the sources, as data: fitted offline, or supplied by the operator.
use vstd::prelude::*;
use crate::double::{Arithmetic, Double, Style, ONE, ZERO};
use crate::keyed::TextMap;

verus! {

#[derive(Debug, Clone, Copy, PartialEq, Eq, Structural)]
pub struct WeatherConfig {
    pub min_std_dev: Double,
}

#[derive(Debug)]
pub struct EconConfig {
    pub surprise_std_by_series: TextMap<Double>,
}

#[derive(Debug, Clone, Copy, PartialEq, Eq, Structural)]
pub struct NewsConfig {
    pub sensitivity: Double,
}

/// 0.62
pub const DEFAULT_SERVE_POINT_WIN: u64 = 0x3FE3_D70A_3D70_A3D7;

/// 0.01
pub const DEFAULT_TENNIS_STD_DEV: u64 = 0x3F84_7AE1_47AE_147B;

/// The constants of the tennis source. They come from the deployment, not from the offline fit,
/// and so are no part of `AlphaConfig`.
#[derive(Debug, Clone, Copy, PartialEq, Eq, Structural)]
pub struct TennisConfig {
    /// The probability that the server wins a point.
    pub serve_point_win: Double,
    /// A floor on the standard deviation.
    pub min_std_dev: Double,
}

impl Default for TennisConfig {
    fn default() -> (r: TennisConfig)
        ensures
            r == (TennisConfig {
                serve_point_win: Double::from_bits(DEFAULT_SERVE_POINT_WIN),
                min_std_dev: Double::from_bits(DEFAULT_TENNIS_STD_DEV),
            }),
    {
        TennisConfig {
            serve_point_win: Double::from_bits(DEFAULT_SERVE_POINT_WIN),
            min_std_dev: Double::from_bits(DEFAULT_TENNIS_STD_DEV),
        }
    }
}

/// Why a configuration cannot be used.
#[derive(Debug)]
pub enum ConfigError {
    /// The file could not be read; the text says why.
    Io(String),
    /// The text is no configuration; the text says why.
    Parse(String),
    /// A constant would disable its model rather than tune it.
    Invalid(String),
}

impl ConfigError {
    /// The error as text.
    pub fn to_text(&self) -> (r: String)
        ensures
            r@ == (match self {
                ConfigError::Io(why) => "failed to read config file: "@ + why@,
                ConfigError::Parse(why) => "failed to parse config JSON: "@ + why@,
                ConfigError::Invalid(why) => "invalid config: "@ + why@,
            }),
    {
        let (lead, why) = match self {
            ConfigError::Io(why) => ("failed to read config file: ", why),
            ConfigError::Parse(why) => ("failed to parse config JSON: ", why),
            ConfigError::Invalid(why) => ("invalid config: ", why),
        };
        let mut s = lead.to_owned();
        s.append(why.as_str());
        s
    }
}

/// The message of a refused configuration, if it was refused.
pub open spec fn complaint_in(r: Result<(), ConfigError>) -> Option<Seq<char>> {
    match r {
        Ok(_) => None,
        Err(ConfigError::Invalid(why)) => Some(why@),
        Err(_) => Some(Seq::empty()),
    }
}

fn complaint(c: &Arithmetic, lead: &str, value: Double) -> (r: ConfigError)
    ensures
        r matches ConfigError::Invalid(why) && why@ == lead@ + c.text_of(Style::Shortest, value),
{
    let mut s = lead.to_owned();
    s.append(c.text(Style::Shortest, value).as_str());
    ConfigError::Invalid(s)
}

/// Whether a constant is finite and above zero.
pub open spec fn usable_std(x: Double) -> bool {
    x.is_finite() && x.gt(Double::from_bits(ZERO))
}

impl TennisConfig {
    /// What is wrong with the constants, if anything.
    pub open spec fn complaint(&self, c: &Arithmetic) -> Option<Seq<char>> {
        if !(self.serve_point_win.gt(Double::from_bits(ZERO)) && self.serve_point_win.lt(
            Double::from_bits(ONE),
        )) {
            Some(
                "tennis.serve_point_win must lie strictly inside (0, 1), got "@ + c.text_of(
                    Style::Shortest,
                    self.serve_point_win,
                ),
            )
        } else if !usable_std(self.min_std_dev) {
            Some(
                "tennis.min_std_dev must be positive and finite, got "@ + c.text_of(
                    Style::Shortest,
                    self.min_std_dev,
                ),
            )
        } else {
            None
        }
    }

    /// Refuses constants that would disable the model: a serve that always or never wins, a
    /// standard deviation that is not positive.
    pub fn validate(&self, c: &Arithmetic) -> (r: Result<(), ConfigError>)
        ensures
            complaint_in(r) == self.complaint(c),
            r matches Err(e) ==> e is Invalid,
    {
        if !(self.serve_point_win.gt(Double::from_bits(ZERO)) && self.serve_point_win.lt(
            Double::from_bits(ONE),
        )) {
            return Err(
                complaint(
                    c,
                    "tennis.serve_point_win must lie strictly inside (0, 1), got ",
                    self.serve_point_win,
                ),
            );
        }
        if !(self.min_std_dev.gt(Double::from_bits(ZERO)) && self.min_std_dev.is_finite()) {
            return Err(
                complaint(
                    c,
                    "tennis.min_std_dev must be positive and finite, got ",
                    self.min_std_dev,
                ),
            );
        }
        Ok(())
    }
}

/// The constants that are fitted offline.
#[derive(Debug)]
pub struct AlphaConfig {
    pub weather: WeatherConfig,
    pub econ: EconConfig,
    pub news: NewsConfig,
}

/// What is wrong with the series among `names`, if anything: the first whose deviation is not
/// positive and finite.
pub open spec fn series_complaint(
    c: &Arithmetic,
    names: Seq<Seq<char>>,
    stds: Map<Seq<char>, Double>,
) -> Option<Seq<char>>
    decreases names.len(),
{
    if names.len() == 0 {
        None
    } else {
        let before = series_complaint(c, names.drop_last(), stds);
        let name = names.last();
        if before is Some {
            before
        } else if !usable_std(stds[name]) {
            Some(
                "econ.surprise_std_by_series["@ + name + "] must be positive and finite, got "@
                    + c.text_of(Style::Shortest, stds[name]),
            )
        } else {
            None
        }
    }
}

proof fn lemma_first_complaint(
    c: &Arithmetic,
    names: Seq<Seq<char>>,
    stds: Map<Seq<char>, Double>,
    i: int,
)
    requires
        0 <= i <= names.len(),
        series_complaint(c, names.take(i), stds) is Some,
    ensures
        series_complaint(c, names, stds) == series_complaint(c, names.take(i), stds),
    decreases names.len() - i,
{
    if i < names.len() {
        assert(names.take(i + 1).drop_last() == names.take(i));
        lemma_first_complaint(c, names, stds, i + 1);
    } else {
        assert(names.take(i) == names);
    }
}

impl AlphaConfig {
    /// The configuration, from what parsing its text gave: the parsed constants, or why there
    /// are none. A configuration that is not valid is refused.
    pub fn from_parsed(c: &Arithmetic, parsed: Result<AlphaConfig, String>) -> (r: Result<
        AlphaConfig,
        ConfigError,
    >)
        ensures
            match parsed {
                Err(why) => r matches Err(ConfigError::Parse(w)) && w == why,
                Ok(config) => match config.complaint(c) {
                    Some(text) => r matches Err(ConfigError::Invalid(w)) && w@ == text,
                    None => r == Ok::<AlphaConfig, ConfigError>(config),
                },
            },
    {
        match parsed {
            Err(why) => Err(ConfigError::Parse(why)),
            Ok(config) => match config.validate(c) {
                Err(e) => Err(e),
                Ok(_) => Ok(config),
            },
        }
    }

    /// What is wrong with the constants, if anything.
    pub open spec fn complaint(&self, c: &Arithmetic) -> Option<Seq<char>> {
        if !usable_std(self.weather.min_std_dev) {
            Some(
                "weather.min_std_dev must be positive and finite, got "@ + c.text_of(
                    Style::Shortest,
                    self.weather.min_std_dev,
                ),
            )
        } else if !(self.news.sensitivity.is_finite() && self.news.sensitivity.gt(
            Double::from_bits(ZERO),
        )) {
            Some(
                "news.sensitivity must be positive and finite, got "@ + c.text_of(
                    Style::Shortest,
                    self.news.sensitivity,
                ),
            )
        } else {
            series_complaint(
                c,
                self.econ.surprise_std_by_series.order(),
                self.econ.surprise_std_by_series@,
            )
        }
    }

    /// Refuses constants that would read downstream as "more confident" where they are broken.
    pub fn validate(&self, c: &Arithmetic) -> (r: Result<(), ConfigError>)
        ensures
            complaint_in(r) == self.complaint(c),
            r matches Err(e) ==> e is Invalid,
    {
        if !(self.weather.min_std_dev.gt(Double::from_bits(ZERO))
            && self.weather.min_std_dev.is_finite()) {
            return Err(
                complaint(
                    c,
                    "weather.min_std_dev must be positive and finite, got ",
                    self.weather.min_std_dev,
                ),
            );
        }
        if !(self.news.sensitivity.is_finite() && self.news.sensitivity.gt(
            Double::from_bits(ZERO),
        )) {
            return Err(
                complaint(
                    c,
                    "news.sensitivity must be positive and finite, got ",
                    self.news.sensitivity,
                ),
            );
        }
        let series = &self.econ.surprise_std_by_series;
        let ghost names = series.order();
        let n: usize = series.len();
        let mut i: usize = 0;
        while i < n
            invariant
                i <= n,
                n == series.order().len(),
                names == series.order(),
                *series == self.econ.surprise_std_by_series,
                usable_std(self.weather.min_std_dev),
                self.news.sensitivity.is_finite(),
                self.news.sensitivity.gt(Double::from_bits(ZERO)),
                series_complaint(c, names.take(i as int), series@) is None,
            decreases n - i,
        {
            assert(names.take(i + 1).drop_last() == names.take(i as int));
            assert(names.take(i + 1).last() == names[i as int]);
            let std = *series.value_at(i);
            if !(std.is_finite() && std.gt(Double::from_bits(ZERO))) {
                let mut s = "econ.surprise_std_by_series[".to_owned();
                s.append(series.name_at(i).as_str());
                s.append("] must be positive and finite, got ");
                s.append(c.text(Style::Shortest, std).as_str());
                proof {
                    assert(series_complaint(c, names.take(i + 1), series@) == Some(s@));
                    lemma_first_complaint(c, names, series@, i + 1);
                }
                return Err(ConfigError::Invalid(s));
            }
            i += 1;
        }
        assert(names.take(i as int) == names);
        Ok(())
    }
}

} // verus!
