use parallax::alpha::payload::{Payload, WeatherPayload};
use parallax::double::Double;
use parallax::sim::replay::{line_error, replay_lines, ReplayEvent};
use parallax::types::alpha::{AlphaEventKind, RawEvent};
use parallax::types::contract::CanonicalContractId;
use parallax::types::market::NormalizedTick;
use parallax::types::time::Timestamp;
use parallax::types::venue::VenueId;
use serde_json::Value;

fn number(value: &Value) -> Option<Double> {
    value.as_f64().map(|x| Double::from_bits(x.to_bits()))
}

fn tick(value: &Value) -> Option<NormalizedTick> {
    Some(NormalizedTick {
        venue: match value.get("venue")?.as_str()? {
            "polymarket" => VenueId::Polymarket,
            "kalshi" => VenueId::Kalshi,
            "paper" => VenueId::Paper,
            _ => return None,
        },
        contract: CanonicalContractId(value.get("contract")?.as_str()?.to_string()),
        bid: number(value.get("bid")?)?,
        bid_size: number(value.get("bid_size")?)?,
        ask: number(value.get("ask")?)?,
        ask_size: number(value.get("ask_size")?)?,
        venue_ts: value.get("venue_ts")?.as_i64().map(Timestamp::from_nanos),
        receive_ts: Timestamp::from_nanos(value.get("receive_ts")?.as_i64()?),
    })
}

fn alpha(value: &Value) -> Option<RawEvent> {
    let payload = value.get("payload")?;
    let members = payload.get("ensemble_forecast_tenths")?.as_array()?;
    Some(RawEvent {
        source: value.get("source")?.as_str()?.to_string(),
        kind: match value.get("kind")?.as_str()? {
            "weather" => AlphaEventKind::Weather,
            _ => return None,
        },
        publish_ts: value.get("publish_ts")?.as_i64().map(Timestamp::from_nanos),
        receive_ts: Timestamp::from_nanos(value.get("receive_ts")?.as_i64()?),
        payload: Payload {
            weather: Some(WeatherPayload {
                contract: payload.get("contract")?.as_str()?.to_string(),
                threshold_tenths: payload.get("threshold_tenths")?.as_i64()?,
                direction: None,
                upper_tenths: None,
                ensemble_forecast_tenths: members.iter().filter_map(Value::as_i64).collect(),
            }),
            ..Payload::unknown()
        },
    })
}

fn event(line: &str) -> Result<ReplayEvent, String> {
    let value: Value = serde_json::from_str(line).map_err(|e| e.to_string())?;
    let read = match (value.get("tick"), value.get("alpha")) {
        (Some(inner), None) => tick(inner).map(ReplayEvent::Tick),
        (None, Some(inner)) => alpha(inner).map(ReplayEvent::Alpha),
        _ => None,
    };
    read.ok_or_else(|| "neither a tick nor an alpha event".to_string())
}

fn parse_jsonl(content: &str) -> Result<Vec<ReplayEvent>, String> {
    let mut events = Vec::new();
    for numbered in replay_lines(content) {
        match event(&numbered.line) {
            Ok(read) => events.push(read),
            Err(why) => return Err(line_error(numbered.number, &why)),
        }
    }
    Ok(events)
}

#[test]
fn parses_interleaved_tick_and_alpha_lines() {
    let content = r#"
{"tick":{"venue":"polymarket","contract":"wx.temp.chicago.gt.869.2026-08-12.nws_official","bid":0.55,"bid_size":50.0,"ask":0.58,"ask_size":50.0,"venue_ts":null,"receive_ts":0}}
{"alpha":{"source":"hrrr","kind":"weather","publish_ts":null,"receive_ts":1000,"payload":{"contract":"wx.temp.chicago.gt.869.2026-08-12.nws_official","threshold_tenths":869,"ensemble_forecast_tenths":[900,910,895]}}}
"#;
    let events = parse_jsonl(content).unwrap();
    assert_eq!(events.len(), 2);
    assert!(matches!(events[0], ReplayEvent::Tick(_)));
    assert!(matches!(events[1], ReplayEvent::Alpha(_)));
}

#[test]
fn skips_blank_lines_and_comments() {
    let content = "\n# a comment\n\n{\"tick\":{\"venue\":\"kalshi\",\"contract\":\"c\",\"bid\":0.5,\"bid_size\":1.0,\"ask\":0.51,\"ask_size\":1.0,\"venue_ts\":null,\"receive_ts\":0}}\n";
    let events = parse_jsonl(content).unwrap();
    assert_eq!(events.len(), 1);
}

#[test]
fn malformed_line_is_a_clear_error_with_line_number() {
    let content = "{\"tick\": \"not an object\"}";
    let err = parse_jsonl(content).unwrap_err();
    assert!(err.to_string().contains("line 1"));
}
