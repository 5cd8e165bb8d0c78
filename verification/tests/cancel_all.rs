use parallax::cancel_all::{CancelAll, CancelAllReport};
use parallax::types::orders::{ExecError, OrderId};
use parallax::types::venue::VenueId;
use std::collections::HashMap;

struct FakeVenue {
    open_orders: Vec<OrderId>,
    cancel_results: HashMap<String, Result<(), ExecError>>,
    list_fails: bool,
}

impl FakeVenue {
    fn list_open_orders(&self) -> Result<Vec<OrderId>, ExecError> {
        if self.list_fails {
            Err(ExecError::Connection {
                venue: VenueId::Kalshi,
                message: "listing failed".into(),
            })
        } else {
            Ok(self.open_orders.clone())
        }
    }

    fn cancel(&mut self, order_id: OrderId) -> Result<(), ExecError> {
        self.cancel_results.remove(&order_id.0).unwrap_or(Ok(()))
    }
}

fn cancel_all(venue: &mut FakeVenue) -> Result<CancelAllReport, ExecError> {
    let mut sweep = CancelAll::start(venue.list_open_orders())?;
    while let Some(order_id) = sweep.next() {
        let answer = venue.cancel(order_id);
        sweep.on_cancel(answer);
    }
    Ok(sweep.finish())
}

#[test]
fn cancels_every_open_order_when_all_succeed() {
    let mut venue = FakeVenue {
        open_orders: vec![
            OrderId("a".into()),
            OrderId("b".into()),
            OrderId("c".into()),
        ],
        cancel_results: HashMap::new(),
        list_fails: false,
    };
    let report = cancel_all(&mut venue).unwrap();
    assert_eq!(report.attempted, 3);
    assert_eq!(report.canceled, 3);
    assert!(report.all_succeeded());
}

#[test]
fn a_failed_cancel_does_not_stop_the_rest() {
    let mut cancel_results = HashMap::new();
    cancel_results.insert(
        "b".to_string(),
        Err(ExecError::Connection {
            venue: VenueId::Kalshi,
            message: "network blip".into(),
        }),
    );
    let mut venue = FakeVenue {
        open_orders: vec![
            OrderId("a".into()),
            OrderId("b".into()),
            OrderId("c".into()),
        ],
        cancel_results: cancel_results,
        list_fails: false,
    };
    let report = cancel_all(&mut venue).unwrap();
    assert_eq!(report.attempted, 3);
    assert_eq!(report.canceled, 2);
    assert_eq!(report.failed.len(), 1);
    assert_eq!(report.failed[0].0, OrderId("b".into()));
    assert!(!report.all_succeeded());
}

#[test]
fn no_open_orders_is_a_trivially_successful_no_op() {
    let mut venue = FakeVenue {
        open_orders: Vec::new(),
        cancel_results: HashMap::new(),
        list_fails: false,
    };
    let report = cancel_all(&mut venue).unwrap();
    assert_eq!(report.attempted, 0);
    assert!(report.all_succeeded());
}

#[test]
fn a_failed_listing_propagates_rather_than_reporting_a_false_zero() {
    let mut venue = FakeVenue {
        open_orders: Vec::new(),
        cancel_results: HashMap::new(),
        list_fails: true,
    };
    assert!(cancel_all(&mut venue).is_err());
}
