//! Orders: what an engine proposes, what a venue answers, and how a resend is recognised.
use vstd::prelude::*;
use crate::double::{Arithmetic, Double, Style, ONE, ZERO};
use crate::rounding::{
    gap, law_exact_orders, lemma_difference_near, lemma_exact_power, lemma_product_near, lemma_size,
    two_to, unit,
};
use crate::text;
use crate::types::contract::CanonicalContractId;
use crate::types::time::Timestamp;
use crate::types::validate;
use crate::types::validate::{Fault, ValidationError};
use crate::types::venue::VenueId;

verus! {

#[derive(Debug, Clone, Copy, PartialEq, Eq, Hash, Structural)]
pub enum Outcome {
    Yes,
    No,
}

impl Outcome {
    /// The name of the variant.
    pub open spec fn name(self) -> Seq<char> {
        match self {
            Outcome::Yes => "Yes"@,
            Outcome::No => "No"@,
        }
    }

    fn label(self) -> (r: &'static str)
        ensures
            r@ == self.name(),
    {
        match self {
            Outcome::Yes => "Yes",
            Outcome::No => "No",
        }
    }
}

#[derive(Debug, Clone, Copy, PartialEq, Eq, Structural)]
pub enum Side {
    Buy,
    Sell,
}

impl Side {
    /// The name of the variant.
    pub open spec fn name(self) -> Seq<char> {
        match self {
            Side::Buy => "Buy"@,
            Side::Sell => "Sell"@,
        }
    }

    fn label(self) -> (r: &'static str)
        ensures
            r@ == self.name(),
    {
        match self {
            Side::Buy => "Buy",
            Side::Sell => "Sell",
        }
    }
}

#[derive(Debug, Clone, Copy, PartialEq, Eq, Structural)]
pub enum OrderType {
    Limit,
    /// A marketable limit against one stale quote. There is no unbounded market order.
    ImmediateOrCancel,
}

impl OrderType {
    /// The name of the variant.
    pub open spec fn name(self) -> Seq<char> {
        match self {
            OrderType::Limit => "Limit"@,
            OrderType::ImmediateOrCancel => "ImmediateOrCancel"@,
        }
    }

    fn label(self) -> (r: &'static str)
        ensures
            r@ == self.name(),
    {
        match self {
            OrderType::Limit => "Limit",
            OrderType::ImmediateOrCancel => "ImmediateOrCancel",
        }
    }
}

/// Which engine an order comes from. Not shown to venues.
#[derive(Debug, Clone, Copy, PartialEq, Eq, Structural)]
pub enum EngineId {
    MarketMaking,
    StatArb,
    LiquiditySniping,
}

impl EngineId {
    /// The name of the variant.
    pub open spec fn name(self) -> Seq<char> {
        match self {
            EngineId::MarketMaking => "MarketMaking"@,
            EngineId::StatArb => "StatArb"@,
            EngineId::LiquiditySniping => "LiquiditySniping"@,
        }
    }

    fn label(self) -> (r: &'static str)
        ensures
            r@ == self.name(),
    {
        match self {
            EngineId::MarketMaking => "MarketMaking",
            EngineId::StatArb => "StatArb",
            EngineId::LiquiditySniping => "LiquiditySniping",
        }
    }

    /// The engine as text, in snake case.
    pub fn to_text(&self) -> (r: String)
        ensures
            r@ == (match self {
                EngineId::MarketMaking => "market_making"@,
                EngineId::StatArb => "stat_arb"@,
                EngineId::LiquiditySniping => "liquidity_sniping"@,
            }),
    {
        match self {
            EngineId::MarketMaking => "market_making".to_owned(),
            EngineId::StatArb => "stat_arb".to_owned(),
            EngineId::LiquiditySniping => "liquidity_sniping".to_owned(),
        }
    }
}

/// A venue's name for an order.
#[derive(Debug, PartialEq, Eq, Hash, PartialOrd, Ord)]
pub struct OrderId(pub String);

impl Clone for OrderId {
    fn clone(&self) -> (r: Self)
        ensures
            r == *self,
    {
        OrderId(self.0.clone())
    }
}

impl OrderId {
    /// The id as text.
    pub fn to_text(&self) -> (r: String)
        ensures
            r@ == self.0@,
    {
        self.0.clone()
    }
}

/// An order as an engine proposes it, before the risk gate has seen it.
#[derive(Debug)]
pub struct OrderIntent {
    pub venue: VenueId,
    pub contract: CanonicalContractId,
    pub outcome: Outcome,
    pub side: Side,
    /// The limit price, a probability.
    pub price: Double,
    pub size: Double,
    pub order_type: OrderType,
    pub engine: EngineId,
    pub created_at: Timestamp,
}

impl Clone for OrderIntent {
    fn clone(&self) -> (r: Self)
        ensures
            r == *self,
    {
        OrderIntent {
            venue: self.venue,
            contract: self.contract.clone(),
            outcome: self.outcome,
            side: self.side,
            price: self.price,
            size: self.size,
            order_type: self.order_type,
            engine: self.engine,
            created_at: self.created_at,
        }
    }
}

impl OrderIntent {
    /// Whether the price is a probability and the size positive.
    pub open spec fn is_valid(&self) -> bool {
        validate::is_probability(self.price) && validate::is_positive(self.size)
    }

    /// The first field that is out of range.
    pub open spec fn fault(&self, c: &Arithmetic) -> Option<Fault> {
        validate::first_fault(
            validate::probability_fault(c, "price"@, self.price),
            validate::positive_fault(c, "size"@, self.size),
        )
    }

    /// Refuses a price or size that would compare false against every limit.
    pub fn validate(&self, c: &Arithmetic) -> (r: Result<(), ValidationError>)
        ensures
            r is Ok <==> self.is_valid(),
            validate::fault_in(r) == self.fault(c),
    {
        match validate::probability(c, "price", self.price) {
            Err(e) => return Err(e),
            Ok(_) => {},
        }
        validate::positive(c, "size", self.size)
    }

    /// The money at risk if the order fills and is never closed: `size * price` for a
    /// buy, `size * (1 - price)` for a sell.
    pub open spec fn notional(&self, c: &Arithmetic) -> Double {
        match self.side {
            Side::Buy => c.times(self.size, self.price),
            Side::Sell => c.times(self.size, c.minus(Double::from_bits(ONE), self.price)),
        }
    }

    /// The money at risk if the order fills and is never closed.
    pub fn risk_notional(&self, c: &Arithmetic) -> (r: Double)
        ensures
            r == self.notional(c),
    {
        match self.side {
            Side::Buy => c.times(self.size, self.price),
            Side::Sell => c.times(self.size, c.minus(Double::from_bits(ONE), self.price)),
        }
    }
}

/// What a venue says became of an order.
#[derive(Debug, PartialEq)]
pub enum AckStatus {
    Accepted,
    Rejected { reason: String },
    Filled { qty: Double, price: Double },
    PartiallyFilled { filled_qty: Double, remaining_qty: Double, price: Double },
    Canceled,
}

impl Clone for AckStatus {
    fn clone(&self) -> (r: Self)
        ensures
            r == *self,
    {
        match self {
            AckStatus::Accepted => AckStatus::Accepted,
            AckStatus::Rejected { reason } => AckStatus::Rejected { reason: reason.clone() },
            AckStatus::Filled { qty, price } => AckStatus::Filled { qty: *qty, price: *price },
            AckStatus::PartiallyFilled { filled_qty, remaining_qty, price } =>
                AckStatus::PartiallyFilled {
                filled_qty: *filled_qty,
                remaining_qty: *remaining_qty,
                price: *price,
            },
            AckStatus::Canceled => AckStatus::Canceled,
        }
    }
}

/// A venue's answer to an order.
#[derive(Debug, PartialEq)]
pub struct OrderAck {
    pub order_id: OrderId,
    pub venue: VenueId,
    pub status: AckStatus,
    pub ts: Timestamp,
}

impl Clone for OrderAck {
    fn clone(&self) -> (r: Self)
        ensures
            r == *self,
    {
        OrderAck {
            order_id: self.order_id.clone(),
            venue: self.venue,
            status: self.status.clone(),
            ts: self.ts,
        }
    }
}

/// Why an order could not be placed.
#[derive(Debug)]
pub enum ExecError {
    Rejected { venue: VenueId, reason: String },
    RateLimited { venue: VenueId, retry_after_ms: u64 },
    Connection { venue: VenueId, message: String },
    NotFound(OrderId),
    /// The request was sent and no answer came: the venue may or may not have acted on it.
    /// A blind resend could place the order twice; reconcile first.
    Indeterminate { venue: VenueId },
}

impl ExecError {
    /// Whether the same order may be sent again without looking. Only an indeterminate
    /// outcome forbids it.
    pub fn is_safely_retryable(&self) -> (r: bool)
        ensures
            r == !(self is Indeterminate),
    {
        match self {
            ExecError::Indeterminate { .. } => false,
            _ => true,
        }
    }

    /// The error as text.
    pub open spec fn message(&self) -> Seq<char> {
        match self {
            ExecError::Rejected { venue, reason } => "venue "@ + venue.name() + " rejected order: "@
                + reason@,
            ExecError::RateLimited { venue, retry_after_ms } => "rate limited by venue "@
                + venue.name() + ", retry after "@ + text::decimal(*retry_after_ms as int) + "ms"@,
            ExecError::Connection { venue, message } => "venue "@ + venue.name()
                + " connection error: "@ + message@,
            ExecError::NotFound(id) => "order "@ + id.0@ + " not found"@,
            ExecError::Indeterminate { venue } => "venue "@ + venue.name()
                + " request outcome is indeterminate — reconcile before retrying"@,
        }
    }

    /// The error as text.
    pub fn to_text(&self) -> (r: String)
        ensures
            r@ == self.message(),
    {
        match self {
            ExecError::Rejected { venue, reason } => {
                let mut s = "venue ".to_owned();
                s.append(venue.to_text().as_str());
                s.append(" rejected order: ");
                s.append(reason.as_str());
                s
            },
            ExecError::RateLimited { venue, retry_after_ms } => {
                let mut s = "rate limited by venue ".to_owned();
                s.append(venue.to_text().as_str());
                s.append(", retry after ");
                s.append(text::decimal_u64(*retry_after_ms).as_str());
                s.append("ms");
                s
            },
            ExecError::Connection { venue, message } => {
                let mut s = "venue ".to_owned();
                s.append(venue.to_text().as_str());
                s.append(" connection error: ");
                s.append(message.as_str());
                s
            },
            ExecError::NotFound(id) => {
                let mut s = "order ".to_owned();
                s.append(id.0.as_str());
                s.append(" not found");
                s
            },
            ExecError::Indeterminate { venue } => {
                let mut s = "venue ".to_owned();
                s.append(venue.to_text().as_str());
                s.append(" request outcome is indeterminate — reconcile before retrying");
                s
            },
        }
    }
}

/// A key derived from an order's content, so that a venue can recognise the resend of an
/// order that it has already seen.
#[derive(Debug, PartialEq, Eq, Hash)]
pub struct ClientOrderId(pub String);

impl Clone for ClientOrderId {
    fn clone(&self) -> (r: Self)
        ensures
            r == *self,
    {
        ClientOrderId(self.0.clone())
    }
}

/// The FNV-1a offset basis for 64 bits.
pub const FNV_OFFSET: u64 = 0xcbf2_9ce4_8422_2325;

/// The FNV-1a prime for 64 bits.
pub const FNV_PRIME: u64 = 0x0000_0100_0000_01b3;

/// The FNV-1a hash of a row of bytes: each byte is mixed in by exclusive or, then the
/// whole is multiplied by the prime.
pub open spec fn fnv1a(bytes: Seq<u8>) -> u64
    decreases bytes.len(),
{
    if bytes.len() == 0 {
        FNV_OFFSET
    } else {
        (fnv1a(bytes.drop_last()) ^ (bytes.last() as u64)).wrapping_mul(FNV_PRIME)
    }
}

/// The FNV-1a hash of `bytes`.
pub fn fnv1a_64(bytes: &[u8]) -> (r: u64)
    ensures
        r == fnv1a(bytes@),
{
    let mut hash: u64 = FNV_OFFSET;
    let mut i: usize = 0;
    while i < bytes.len()
        invariant
            i <= bytes.len(),
            hash == fnv1a(bytes@.take(i as int)),
        decreases bytes.len() - i,
    {
        assert(bytes@.take(i + 1).drop_last() == bytes@.take(i as int));
        hash = hash ^ (bytes[i] as u64);
        hash = hash.wrapping_mul(FNV_PRIME);
        i += 1;
    }
    assert(bytes@.take(i as int) == bytes@);
    hash
}

/// The content of an order that its key is derived from.
pub open spec fn order_content(c: &Arithmetic, intent: &OrderIntent) -> Seq<char> {
    intent.venue.name() + "|"@ + intent.contract@ + "|"@ + intent.outcome.name() + "|"@
        + intent.side.name() + "|"@ + c.text_of(Style::Shortest, intent.price) + "|"@ + c.text_of(
        Style::Shortest,
        intent.size,
    ) + "|"@ + intent.order_type.name() + "|"@ + intent.engine.name() + "|"@ + text::decimal(
        intent.created_at.0 as int,
    )
}

impl ClientOrderId {
    /// The key of an order: `plx-` and the hash of its content in sixteen hex digits.
    pub open spec fn key_of(c: &Arithmetic, intent: &OrderIntent) -> Seq<char> {
        "plx-"@ + text::hex(fnv1a(vstd::utf8::encode_utf8(order_content(c, intent))) as nat, 16)
    }

    /// The key of an order.
    pub fn derive(c: &Arithmetic, intent: &OrderIntent) -> (r: ClientOrderId)
        ensures
            r.0@ == ClientOrderId::key_of(c, intent),
    {
        let mut s = intent.venue.to_text();
        s.append("|");
        s.append(intent.contract.0.as_str());
        s.append("|");
        s.append(intent.outcome.label());
        s.append("|");
        s.append(intent.side.label());
        s.append("|");
        s.append(c.text(Style::Shortest, intent.price).as_str());
        s.append("|");
        s.append(c.text(Style::Shortest, intent.size).as_str());
        s.append("|");
        s.append(intent.order_type.label());
        s.append("|");
        s.append(intent.engine.label());
        s.append("|");
        s.append(text::decimal_i64(intent.created_at.0).as_str());
        let mut id = "plx-".to_owned();
        id.append(text::hex_16(fnv1a_64(s.as_str().as_bytes())).as_str());
        ClientOrderId(id)
    }

    /// The key as text.
    pub fn to_text(&self) -> (r: String)
        ensures
            r@ == self.0@,
    {
        self.0.clone()
    }
}

/// The same order, sent again, has the same key.
pub proof fn law_resend_keeps_the_key(c: &Arithmetic, a: &OrderIntent, b: &OrderIntent)
    requires
        a.venue == b.venue,
        a.contract@ == b.contract@,
        a.outcome == b.outcome,
        a.side == b.side,
        a.price == b.price,
        a.size == b.size,
        a.order_type == b.order_type,
        a.engine == b.engine,
        a.created_at == b.created_at,
    ensures
        ClientOrderId::key_of(c, a) == ClientOrderId::key_of(c, b),
{
}

/// The key's content tells orders apart: two orders that differ in one respect alone have different
/// contents, whether that is the venue, the contract, the outcome, the side, the price or the size
/// as they are printed, the type, the engine or the time.
pub proof fn law_content_tells_orders_apart(c: &Arithmetic, a: &OrderIntent, b: &OrderIntent)
    requires
        order_content(c, a) == order_content(c, b),
    ensures
        ({
            let venue = a.venue == b.venue;
            let contract = a.contract@ == b.contract@;
            let outcome = a.outcome == b.outcome;
            let side = a.side == b.side;
            let price = c.text_of(Style::Shortest, a.price) == c.text_of(Style::Shortest, b.price);
            let size = c.text_of(Style::Shortest, a.size) == c.text_of(Style::Shortest, b.size);
            let kind = a.order_type == b.order_type;
            let engine = a.engine == b.engine;
            let time = a.created_at == b.created_at;
            &&& contract && outcome && side && price && size && kind && engine && time ==> venue
            &&& venue && outcome && side && price && size && kind && engine && time ==> contract
            &&& venue && contract && side && price && size && kind && engine && time ==> outcome
            &&& venue && contract && outcome && price && size && kind && engine && time ==> side
            &&& venue && contract && outcome && side && size && kind && engine && time ==> price
            &&& venue && contract && outcome && side && price && kind && engine && time ==> size
            &&& venue && contract && outcome && side && price && size && engine && time ==> kind
            &&& venue && contract && outcome && side && price && size && kind && time ==> engine
            &&& venue && contract && outcome && side && price && size && kind && engine ==> time
        }),
{
    let (p, q) = (parts_of(c, a), parts_of(c, b));
    lemma_parts(c, a);
    lemma_parts(c, b);
    lemma_names(a, b);
    if forall|k: int| 0 <= k < 9 && k != 0 ==> p[k] == q[k] {
        lemma_one_differs(p, q, 0);
    }
    if forall|k: int| 0 <= k < 9 && k != 1 ==> p[k] == q[k] {
        lemma_one_differs(p, q, 1);
    }
    if forall|k: int| 0 <= k < 9 && k != 2 ==> p[k] == q[k] {
        lemma_one_differs(p, q, 2);
    }
    if forall|k: int| 0 <= k < 9 && k != 3 ==> p[k] == q[k] {
        lemma_one_differs(p, q, 3);
    }
    if forall|k: int| 0 <= k < 9 && k != 4 ==> p[k] == q[k] {
        lemma_one_differs(p, q, 4);
    }
    if forall|k: int| 0 <= k < 9 && k != 5 ==> p[k] == q[k] {
        lemma_one_differs(p, q, 5);
    }
    if forall|k: int| 0 <= k < 9 && k != 6 ==> p[k] == q[k] {
        lemma_one_differs(p, q, 6);
    }
    if forall|k: int| 0 <= k < 9 && k != 7 ==> p[k] == q[k] {
        lemma_one_differs(p, q, 7);
    }
    if forall|k: int| 0 <= k < 9 && k != 8 ==> p[k] == q[k] {
        lemma_one_differs(p, q, 8);
        lemma_same_time(a.created_at, b.created_at);
    }
}

/// The parts of an order's content.
spec fn parts_of(c: &Arithmetic, intent: &OrderIntent) -> Seq<Seq<char>> {
    seq![
        intent.venue.name(),
        intent.contract@,
        intent.outcome.name(),
        intent.side.name(),
        c.text_of(Style::Shortest, intent.price),
        c.text_of(Style::Shortest, intent.size),
        intent.order_type.name(),
        intent.engine.name(),
        text::decimal(intent.created_at.0 as int),
    ]
}

/// Parts with bars between them.
spec fn barred(parts: Seq<Seq<char>>) -> Seq<char>
    decreases parts.len(),
{
    if parts.len() <= 1 {
        parts[0]
    } else {
        barred(parts.drop_last()) + "|"@ + parts.last()
    }
}

proof fn lemma_parts(c: &Arithmetic, intent: &OrderIntent)
    ensures
        order_content(c, intent) == barred(parts_of(c, intent)),
{
    let p = parts_of(c, intent);
    reveal_with_fuel(barred, 9);
    let (p8, p7, p6, p5, p4, p3, p2, p1) = (
        p.take(8),
        p.take(7),
        p.take(6),
        p.take(5),
        p.take(4),
        p.take(3),
        p.take(2),
        p.take(1),
    );
    assert(p.drop_last() =~= p8);
    assert(p8.drop_last() =~= p7);
    assert(p7.drop_last() =~= p6);
    assert(p6.drop_last() =~= p5);
    assert(p5.drop_last() =~= p4);
    assert(p4.drop_last() =~= p3);
    assert(p3.drop_last() =~= p2);
    assert(p2.drop_last() =~= p1);
    assert(barred(p1) == intent.venue.name());
    assert(barred(p2) == barred(p1) + "|"@ + intent.contract@);
    assert(barred(p3) == barred(p2) + "|"@ + intent.outcome.name());
    assert(barred(p4) == barred(p3) + "|"@ + intent.side.name());
}

proof fn lemma_one_differs(p: Seq<Seq<char>>, q: Seq<Seq<char>>, i: int)
    requires
        p.len() == q.len(),
        0 <= i < p.len(),
        forall|k: int| 0 <= k < p.len() && k != i ==> p[k] == q[k],
        barred(p) == barred(q),
    ensures
        p[i] == q[i],
    decreases p.len(),
{
    if p.len() > 1 {
        let (a, b) = (p.drop_last(), q.drop_last());
        let bar = "|"@;
        if i == p.len() - 1 {
            assert(a =~= b);
            lemma_same_middle(barred(a) + bar, p.last(), q.last(), Seq::empty());
        } else {
            assert(p.last() == q.last());
            let tail = bar + p.last();
            assert(barred(p) =~= Seq::<char>::empty() + barred(a) + tail);
            assert(barred(q) =~= Seq::<char>::empty() + barred(b) + tail);
            lemma_same_middle(Seq::empty(), barred(a), barred(b), tail);
            lemma_one_differs(a, b, i);
        }
    }
}

proof fn lemma_same_middle(head: Seq<char>, x: Seq<char>, y: Seq<char>, tail: Seq<char>)
    requires
        head + x + tail =~= head + y + tail,
    ensures
        x == y,
{
    let (a, b) = (head + x + tail, head + y + tail);
    assert(a.len() == head.len() + x.len() + tail.len());
    assert(b.len() == head.len() + y.len() + tail.len());
    assert forall|i: int| 0 <= i < x.len() implies x[i] == y[i] by {
        assert(a[head.len() + i] == x[i]);
        assert(b[head.len() + i] == y[i]);
    }
    assert(x =~= y);
}

proof fn lemma_names(a: &OrderIntent, b: &OrderIntent)
    ensures
        a.venue.name() == b.venue.name() ==> a.venue == b.venue,
        a.outcome.name() == b.outcome.name() ==> a.outcome == b.outcome,
        a.side.name() == b.side.name() ==> a.side == b.side,
        a.order_type.name() == b.order_type.name() ==> a.order_type == b.order_type,
        a.engine.name() == b.engine.name() ==> a.engine == b.engine,
{
    reveal_strlit("polymarket");
    reveal_strlit("kalshi");
    reveal_strlit("paper");
    reveal_strlit("Yes");
    reveal_strlit("No");
    reveal_strlit("Buy");
    reveal_strlit("Sell");
    reveal_strlit("Limit");
    reveal_strlit("ImmediateOrCancel");
    reveal_strlit("MarketMaking");
    reveal_strlit("StatArb");
    reveal_strlit("LiquiditySniping");
    assert("polymarket"@.len() == 10 && "kalshi"@.len() == 6 && "paper"@.len() == 5);
    assert("Yes"@.len() == 3 && "No"@.len() == 2);
    assert("Buy"@.len() == 3 && "Sell"@.len() == 4);
    assert("Limit"@.len() == 5 && "ImmediateOrCancel"@.len() == 17);
    assert("MarketMaking"@.len() == 12 && "StatArb"@.len() == 7);
    assert("LiquiditySniping"@.len() == 16);
}

proof fn lemma_same_time(a: Timestamp, b: Timestamp)
    requires
        text::decimal(a.0 as int) == text::decimal(b.0 as int),
    ensures
        a == b,
{
    text::law_decimal_reads_back(a.0);
    text::law_decimal_reads_back(b.0);
}

/// The money at risk in an order is what it can lose: its price a share for a buy, what the price
/// leaves to one for a sale, up to a rounding. So a buy and a sale of one size at one price put up
/// the size between them.
pub proof fn law_risk_is_what_an_order_can_lose(c: &Arithmetic, intent: OrderIntent)
    requires
        c.is_accurate(),
        intent.is_valid(),
        intent.size.le(two_to(20)),
    ensures
        ({
            let paid = if intent.side == Side::Buy {
                intent.price.exact()
            } else {
                unit() - intent.price.exact()
            };
            gap(intent.notional(c).exact() * unit(), intent.size.exact() * paid) <= 2 * two_to(
                -33,
            ).exact() * unit()
        }),
{
    let (zero, one) = (Double::from_bits(ZERO), Double::from_bits(ONE));
    let (u, most, e) = (unit(), two_to(20).exact(), two_to(-33).exact());
    lemma_exact_power(-53);
    lemma_exact_power(-33);
    lemma_exact_power(0);
    lemma_exact_power(20);
    assert(two_to(0) == one);
    law_exact_orders(zero, intent.size);
    law_exact_orders(intent.size, two_to(20));
    law_exact_orders(zero, intent.price);
    law_exact_orders(intent.price, one);
    lemma_difference_near(c, one, intent.price, 0);
    let rest = c.minus(one, intent.price);
    lemma_size(rest, one);
    let factor = if intent.side == Side::Buy {
        intent.price
    } else {
        rest
    };
    let (q, f) = (intent.size.exact(), factor.exact());
    assert(gap(q * f, 0) <= most * u) by (nonlinear_arith)
        requires
            0 <= q <= most,
            -u <= f <= u,
    ;
    lemma_product_near(c, intent.size, factor, 20);
    let d = two_to(-53).exact();
    vstd::arithmetic::power2::lemma_pow2_adds(1094, 1021);
    vstd::arithmetic::power2::lemma_pow2_adds(1041, 1074);
    let paid = if intent.side == Side::Buy {
        intent.price.exact()
    } else {
        u - intent.price.exact()
    };
    assert(gap(q * f, q * paid) <= e * u) by (nonlinear_arith)
        requires
            gap(f, paid) <= d,
            0 <= q <= most,
            most * d == e * u,
            d > 0,
    ;
    assert(2 * e * u == e * u + e * u) by (nonlinear_arith);
}

/// An order is accepted for a price between 0 and 1 and a size that is positive and finite.
pub proof fn law_accepted_orders_are_in_range(c: &Arithmetic, intent: OrderIntent)
    ensures
        ({
            let (zero, one) = (Double::from_bits(ZERO), Double::from_bits(ONE));
            let price = zero.le(intent.price) && intent.price.le(one);
            let size = intent.size.is_finite() && zero.lt(intent.size);
            &&& intent.is_valid() <==> price && size
            &&& match intent.fault(c) {
                Some(fault) => {
                    ||| fault.field == "price"@ && !price
                    ||| fault.field == "size"@ && price && !size
                },
                None => price && size,
            }
        }),
{
}

} // verus!
