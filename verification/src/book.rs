//! The consolidated book: many venues' quotes on one contract, as one view.
use vstd::prelude::*;
use crate::double::{Arithmetic, Double, ONE, TWO, ZERO};
use crate::keyed::{TextMap, VenueMap};
use crate::rounding::{
    gap, law_exact_orders, lemma_exact_power, lemma_quotient_near, lemma_size, lemma_sum_near,
    two_to, unit,
};
use crate::types::contract::CanonicalContractId;
use crate::types::market;
use crate::types::market::{BookDepth, NormalizedTick, WalkResult};
use crate::types::time::Timestamp;
use crate::types::venue::VenueId;

verus! {

/// The best price of one side, and whose it is.
#[derive(Debug, Clone, Copy, PartialEq, Eq, Structural)]
pub struct BestQuote {
    pub venue: VenueId,
    pub price: Double,
    pub size: Double,
}

/// A mispricing between two venues on one contract: buying at `buy_price` and selling at
/// `sell_price` locks in `edge` a share before fees, whatever any model says.
#[derive(Debug, PartialEq)]
pub struct CrossVenueArb {
    pub contract: CanonicalContractId,
    pub buy_venue: VenueId,
    pub buy_price: Double,
    pub sell_venue: VenueId,
    pub sell_price: Double,
    pub edge: Double,
    /// The smaller of the two sizes at the touch.
    pub executable_size: Double,
}

/// What is known of one contract: the best quotes and the depth of each venue.
#[derive(Debug)]
pub struct ContractBook {
    pub ticks: VenueMap<NormalizedTick>,
    pub depths: VenueMap<BookDepth>,
}

impl ContractBook {
    /// Nothing is known.
    pub open spec fn blank() -> ContractBook {
        ContractBook { ticks: VenueMap::empty(), depths: VenueMap::empty() }
    }

    /// The quotes in the order of the venues.
    pub open spec fn quotes(&self) -> Seq<NormalizedTick> {
        one(self.ticks.polymarket) + one(self.ticks.kalshi) + one(self.ticks.paper)
    }

    /// Whether nothing is known.
    pub open spec fn is_blank(&self) -> bool {
        &&& self.ticks.polymarket is None
        &&& self.ticks.kalshi is None
        &&& self.ticks.paper is None
        &&& self.depths.polymarket is None
        &&& self.depths.kalshi is None
        &&& self.depths.paper is None
    }

    /// What is left when everything older than `max_age_ns` is dropped.
    pub open spec fn pruned(&self, now: Timestamp, max_age_ns: i64) -> ContractBook {
        ContractBook {
            ticks: VenueMap {
                polymarket: fresh_tick(self.ticks.polymarket, now, max_age_ns),
                kalshi: fresh_tick(self.ticks.kalshi, now, max_age_ns),
                paper: fresh_tick(self.ticks.paper, now, max_age_ns),
            },
            depths: VenueMap {
                polymarket: fresh_depth(self.depths.polymarket, now, max_age_ns),
                kalshi: fresh_depth(self.depths.kalshi, now, max_age_ns),
                paper: fresh_depth(self.depths.paper, now, max_age_ns),
            },
        }
    }
}

/// A quote that may be absent, as a list.
pub open spec fn one(tick: Option<NormalizedTick>) -> Seq<NormalizedTick> {
    match tick {
        Some(t) => seq![t],
        None => Seq::empty(),
    }
}

/// A quote, if it is fresh.
pub open spec fn fresh_tick(
    tick: Option<NormalizedTick>,
    now: Timestamp,
    max_age_ns: i64,
) -> Option<NormalizedTick> {
    match tick {
        Some(t) => if now.age(t.receive_ts) <= max_age_ns {
            Some(t)
        } else {
            None
        },
        None => None,
    }
}

/// A depth, if it is fresh.
pub open spec fn fresh_depth(depth: Option<BookDepth>, now: Timestamp, max_age_ns: i64) -> Option<
    BookDepth,
> {
    match depth {
        Some(d) => if now.age(d.receive_ts) <= max_age_ns {
            Some(d)
        } else {
            None
        },
        None => None,
    }
}

fn keep_tick(tick: Option<NormalizedTick>, now: Timestamp, max_age_ns: i64) -> (r: Option<
    NormalizedTick,
>)
    ensures
        r == fresh_tick(tick, now, max_age_ns),
{
    match tick {
        Some(t) => if now.since(t.receive_ts) <= max_age_ns {
            Some(t)
        } else {
            None
        },
        None => None,
    }
}

fn keep_depth(depth: Option<BookDepth>, now: Timestamp, max_age_ns: i64) -> (r: Option<BookDepth>)
    ensures
        r == fresh_depth(depth, now, max_age_ns),
{
    match depth {
        Some(d) => if now.since(d.receive_ts) <= max_age_ns {
            Some(d)
        } else {
            None
        },
        None => None,
    }
}

/// The quote with the highest bid; of equal ones the last.
pub open spec fn top_bid(quotes: Seq<NormalizedTick>) -> NormalizedTick
    decreases quotes.len(),
{
    if quotes.len() <= 1 {
        quotes[0]
    } else {
        let best = top_bid(quotes.drop_last());
        if quotes.last().bid.total_lt(best.bid) {
            best
        } else {
            quotes.last()
        }
    }
}

/// The quote with the lowest ask; of equal ones the first.
pub open spec fn top_ask(quotes: Seq<NormalizedTick>) -> NormalizedTick
    decreases quotes.len(),
{
    if quotes.len() <= 1 {
        quotes[0]
    } else {
        let best = top_ask(quotes.drop_last());
        if quotes.last().ask.total_lt(best.ask) {
            quotes.last()
        } else {
            best
        }
    }
}

/// The bid side of a quote.
pub open spec fn bid_side(t: NormalizedTick) -> BestQuote {
    BestQuote { venue: t.venue, price: t.bid, size: t.bid_size }
}

/// The ask side of a quote.
pub open spec fn ask_side(t: NormalizedTick) -> BestQuote {
    BestQuote { venue: t.venue, price: t.ask, size: t.ask_size }
}

/// The arbitrage of buying at one quote and selling at another.
pub open spec fn arb_between(
    c: &Arithmetic,
    contract: CanonicalContractId,
    buy: NormalizedTick,
    sell: NormalizedTick,
) -> CrossVenueArb {
    CrossVenueArb {
        contract,
        buy_venue: buy.venue,
        buy_price: buy.ask,
        sell_venue: sell.venue,
        sell_price: sell.bid,
        edge: c.minus(sell.bid, buy.ask),
        executable_size: buy.ask_size.smaller(sell.bid_size),
    }
}

/// The better of the best arbitrage so far and the one between two quotes: the new one
/// counts where the venues differ and its edge is positive and larger.
pub open spec fn better_arb(
    c: &Arithmetic,
    contract: CanonicalContractId,
    buy: NormalizedTick,
    sell: NormalizedTick,
    best: Option<CrossVenueArb>,
) -> Option<CrossVenueArb> {
    let next = arb_between(c, contract, buy, sell);
    if buy.venue != sell.venue && next.edge.gt(Double::from_bits(ZERO)) && (best matches Some(b)
        ==> next.edge.gt(b.edge)) {
        Some(next)
    } else {
        best
    }
}

/// The best arbitrage over all sales, for one purchase.
pub open spec fn best_sale(
    c: &Arithmetic,
    contract: CanonicalContractId,
    buy: NormalizedTick,
    sells: Seq<NormalizedTick>,
    best: Option<CrossVenueArb>,
) -> Option<CrossVenueArb>
    decreases sells.len(),
{
    if sells.len() == 0 {
        best
    } else {
        better_arb(
            c,
            contract,
            buy,
            sells.last(),
            best_sale(c, contract, buy, sells.drop_last(), best),
        )
    }
}

/// The best arbitrage over all purchases and sales, in the order of the venues.
pub open spec fn best_arb(
    c: &Arithmetic,
    contract: CanonicalContractId,
    buys: Seq<NormalizedTick>,
    sells: Seq<NormalizedTick>,
) -> Option<CrossVenueArb>
    decreases buys.len(),
{
    if buys.len() == 0 {
        None
    } else {
        best_sale(
            c,
            contract,
            buys.last(),
            sells,
            best_arb(c, contract, buys.drop_last(), sells),
        )
    }
}

/// The latest quotes by contract and venue, last write wins, with depth beside them.
#[derive(Debug)]
pub struct ConsolidatedBook {
    contracts: TextMap<ContractBook>,
    rejected_ticks: u64,
}

/// The contents of a book.
pub struct BookState {
    pub contracts: Map<Seq<char>, ContractBook>,
    pub rejected: nat,
}

impl BookState {
    /// What is known of a contract.
    pub open spec fn of(self, contract: Seq<char>) -> ContractBook {
        if self.contracts.contains_key(contract) {
            self.contracts[contract]
        } else {
            ContractBook::blank()
        }
    }

    /// The quotes on a contract, in the order of the venues.
    pub open spec fn quotes(self, contract: Seq<char>) -> Seq<NormalizedTick> {
        self.of(contract).quotes()
    }

    /// The best bid on a contract.
    pub open spec fn best_bid(self, contract: Seq<char>) -> Option<BestQuote> {
        if self.quotes(contract).len() == 0 {
            None
        } else {
            Some(bid_side(top_bid(self.quotes(contract))))
        }
    }

    /// The best ask on a contract.
    pub open spec fn best_ask(self, contract: Seq<char>) -> Option<BestQuote> {
        if self.quotes(contract).len() == 0 {
            None
        } else {
            Some(ask_side(top_ask(self.quotes(contract))))
        }
    }

    /// The middle between the best bid and the best ask on a contract.
    pub open spec fn mid(self, c: &Arithmetic, contract: Seq<char>) -> Option<Double> {
        match (self.best_bid(contract), self.best_ask(contract)) {
            (Some(bid), Some(ask)) => Some(
                c.over(c.plus(bid.price, ask.price), Double::from_bits(TWO)),
            ),
            _ => None,
        }
    }

    /// The book after a quote: a valid one replaces its venue's last, an invalid one is
    /// counted, and the count stops at `u64::MAX`.
    pub open spec fn after_tick(self, tick: NormalizedTick) -> BookState {
        if tick.is_valid() {
            let known = self.of(tick.contract@);
            BookState {
                contracts: self.contracts.insert(
                    tick.contract@,
                    ContractBook { ticks: known.ticks.with(tick.venue, Some(tick)), ..known },
                ),
                ..self
            }
        } else {
            BookState {
                rejected: if self.rejected < u64::MAX {
                    self.rejected + 1
                } else {
                    self.rejected
                },
                ..self
            }
        }
    }

    /// The book without what is older than `max_age_ns`, and without contracts of which
    /// nothing is left.
    pub open spec fn pruned(self, now: Timestamp, max_age_ns: i64) -> BookState {
        BookState {
            contracts: Map::new(
                |name: Seq<char>|
                    self.contracts.contains_key(name) && !self.contracts[name].pruned(
                        now,
                        max_age_ns,
                    ).is_blank(),
                |name: Seq<char>| self.contracts[name].pruned(now, max_age_ns),
            ),
            ..self
        }
    }
}

impl View for ConsolidatedBook {
    type V = BookState;

    closed spec fn view(&self) -> BookState {
        BookState { contracts: self.contracts@, rejected: self.rejected_ticks as nat }
    }
}

impl Default for ConsolidatedBook {
    fn default() -> (r: ConsolidatedBook)
        ensures
            r@ == (BookState { contracts: Map::empty(), rejected: 0 }),
    {
        ConsolidatedBook::new()
    }
}

impl ConsolidatedBook {
    /// An empty book.
    pub fn new() -> (r: ConsolidatedBook)
        ensures
            r@ == (BookState { contracts: Map::empty(), rejected: 0 }),
    {
        ConsolidatedBook { contracts: TextMap::new(), rejected_ticks: 0 }
    }

    /// Takes a quote in. One that is not valid is counted and not taken: a NaN in the book
    /// would compare false against every later check.
    pub fn update(&mut self, c: &Arithmetic, tick: NormalizedTick)
        ensures
            final(self)@ == old(self)@.after_tick(tick),
    {
        if tick.validate(c).is_err() {
            self.rejected_ticks = self.rejected_ticks.saturating_add(1);
            return;
        }
        let name = tick.contract.0.clone();
        let mut known = self.take_known(&tick.contract);
        let venue = tick.venue;
        known.ticks.set(venue, Some(tick));
        self.contracts.insert(name, known);
        assert(self@.contracts =~= old(self)@.after_tick(tick).contracts);
    }

    /// How many quotes were refused.
    pub fn rejected_ticks(&self) -> (r: u64)
        ensures
            r == self@.rejected,
    {
        self.rejected_ticks
    }

    /// Takes a venue's depth in.
    pub fn update_depth(&mut self, depth: BookDepth)
        ensures
            final(self)@ == (BookState {
                contracts: old(self)@.contracts.insert(
                    depth.contract@,
                    ContractBook {
                        depths: old(self)@.of(depth.contract@).depths.with(
                            depth.venue,
                            Some(depth),
                        ),
                        ..old(self)@.of(depth.contract@)
                    },
                ),
                ..old(self)@
            }),
    {
        let name = depth.contract.0.clone();
        let mut known = self.take_known(&depth.contract);
        let venue = depth.venue;
        known.depths.set(venue, Some(depth));
        self.contracts.insert(name, known);
        assert(self@.contracts =~= old(self)@.contracts.insert(
            depth.contract@,
            ContractBook {
                depths: old(self)@.of(depth.contract@).depths.with(depth.venue, Some(depth)),
                ..old(self)@.of(depth.contract@)
            },
        ));
    }

    fn take_known(&mut self, contract: &CanonicalContractId) -> (r: ContractBook)
        ensures
            r == old(self)@.of(contract@),
            final(self)@.rejected == old(self)@.rejected,
            final(self)@.contracts == old(self)@.contracts.remove(contract@),
    {
        match self.contracts.take(contract.0.as_str()) {
            Some(book) => book,
            None => ContractBook { ticks: VenueMap::new(), depths: VenueMap::new() },
        }
    }

    /// The depth of a contract on a venue.
    pub fn depth(&self, contract: &CanonicalContractId, venue: VenueId) -> (r: Option<&BookDepth>)
        ensures
            match r {
                Some(d) => self@.of(contract@).depths.at(venue) == Some(*d),
                None => self@.of(contract@).depths.at(venue) is None,
            },
    {
        match self.contracts.get(contract.0.as_str()) {
            Some(book) => book.depths.get(venue),
            None => None,
        }
    }

    /// The average price of buying `target_size` on a venue, by its resting asks.
    pub fn walk_ask(
        &self,
        c: &Arithmetic,
        contract: &CanonicalContractId,
        venue: VenueId,
        target_size: Double,
    ) -> (r: Option<WalkResult>)
        ensures
            r == (match self@.of(contract@).depths.at(venue) {
                Some(d) => market::walk_result(c, d.asks@, target_size),
                None => None,
            }),
    {
        match self.depth(contract, venue) {
            Some(d) => d.walk_asks(c, target_size),
            None => None,
        }
    }

    /// The average price of selling `target_size` on a venue, by its resting bids.
    pub fn walk_bid(
        &self,
        c: &Arithmetic,
        contract: &CanonicalContractId,
        venue: VenueId,
        target_size: Double,
    ) -> (r: Option<WalkResult>)
        ensures
            r == (match self@.of(contract@).depths.at(venue) {
                Some(d) => market::walk_result(c, d.bids@, target_size),
                None => None,
            }),
    {
        match self.depth(contract, venue) {
            Some(d) => d.walk_bids(c, target_size),
            None => None,
        }
    }

    /// The quotes on a contract, in the order of the venues.
    pub fn quotes(&self, contract: &CanonicalContractId) -> (r: Vec<NormalizedTick>)
        ensures
            r@ == self@.quotes(contract@),
    {
        let mut out: Vec<NormalizedTick> = Vec::new();
        match self.contracts.get(contract.0.as_str()) {
            Some(book) => {
                match &book.ticks.polymarket {
                    Some(t) => out.push(t.clone()),
                    None => {},
                }
                match &book.ticks.kalshi {
                    Some(t) => out.push(t.clone()),
                    None => {},
                }
                match &book.ticks.paper {
                    Some(t) => out.push(t.clone()),
                    None => {},
                }
            },
            None => {},
        }
        assert(out@ == self@.quotes(contract@));
        out
    }

    /// The highest bid over all venues.
    pub fn best_bid(&self, contract: &CanonicalContractId) -> (r: Option<BestQuote>)
        ensures
            r == self@.best_bid(contract@),
    {
        let quotes = self.quotes(contract);
        if quotes.len() == 0 {
            return None;
        }
        let mut best: usize = 0;
        let mut i: usize = 1;
        assert(quotes@.take(1).len() == 1 && quotes@.take(1)[0] == quotes@[0]);
        while i < quotes.len()
            invariant
                1 <= i <= quotes.len(),
                best < quotes.len(),
                quotes@[best as int] == top_bid(quotes@.take(i as int)),
            decreases quotes.len() - i,
        {
            assert(quotes@.take(i + 1).drop_last() == quotes@.take(i as int));
            if !quotes[i].bid.total_lt(quotes[best].bid) {
                best = i;
            }
            i += 1;
        }
        assert(quotes@.take(i as int) == quotes@);
        let t = &quotes[best];
        Some(BestQuote { venue: t.venue, price: t.bid, size: t.bid_size })
    }

    /// The lowest ask over all venues.
    pub fn best_ask(&self, contract: &CanonicalContractId) -> (r: Option<BestQuote>)
        ensures
            r == self@.best_ask(contract@),
    {
        let quotes = self.quotes(contract);
        if quotes.len() == 0 {
            return None;
        }
        let mut best: usize = 0;
        let mut i: usize = 1;
        assert(quotes@.take(1).len() == 1 && quotes@.take(1)[0] == quotes@[0]);
        while i < quotes.len()
            invariant
                1 <= i <= quotes.len(),
                best < quotes.len(),
                quotes@[best as int] == top_ask(quotes@.take(i as int)),
            decreases quotes.len() - i,
        {
            assert(quotes@.take(i + 1).drop_last() == quotes@.take(i as int));
            if quotes[i].ask.total_lt(quotes[best].ask) {
                best = i;
            }
            i += 1;
        }
        assert(quotes@.take(i as int) == quotes@);
        let t = &quotes[best];
        Some(BestQuote { venue: t.venue, price: t.ask, size: t.ask_size })
    }

    /// Half way between the best bid and the best ask over all venues.
    pub fn consolidated_mid(&self, c: &Arithmetic, contract: &CanonicalContractId) -> (r: Option<
        Double,
    >)
        ensures
            r == self@.mid(c, contract@),
    {
        match (self.best_bid(contract), self.best_ask(contract)) {
            (Some(bid), Some(ask)) => Some(
                c.over(c.plus(bid.price, ask.price), Double::from_bits(TWO)),
            ),
            _ => None,
        }
    }

    /// The largest edge between any two venues, if one venue's ask undercuts another's bid.
    pub fn detect_arb(&self, c: &Arithmetic, contract: &CanonicalContractId) -> (r: Option<
        CrossVenueArb,
    >)
        ensures
            r == best_arb(
                c,
                *contract,
                self@.quotes(contract@),
                self@.quotes(contract@),
            ),
    {
        let quotes = self.quotes(contract);
        let zero = Double::from_bits(ZERO);
        let mut best: Option<CrossVenueArb> = None;
        let mut i: usize = 0;
        while i < quotes.len()
            invariant
                i <= quotes.len(),
                zero == Double::from_bits(ZERO),
                best == best_arb(c, *contract, quotes@.take(i as int), quotes@),
            decreases quotes.len() - i,
        {
            assert(quotes@.take(i + 1).drop_last() == quotes@.take(i as int));
            let ghost before = best;
            let mut j: usize = 0;
            while j < quotes.len()
                invariant
                    i < quotes.len(),
                    j <= quotes.len(),
                    zero == Double::from_bits(ZERO),
                    best == best_sale(
                        c,
                        *contract,
                        quotes@[i as int],
                        quotes@.take(j as int),
                        before,
                    ),
                decreases quotes.len() - j,
            {
                assert(quotes@.take(j + 1).drop_last() == quotes@.take(j as int));
                let buy = &quotes[i];
                let sell = &quotes[j];
                if buy.venue != sell.venue {
                    let edge = c.minus(sell.bid, buy.ask);
                    let improves = match &best {
                        Some(b) => edge.gt(b.edge),
                        None => true,
                    };
                    if edge.gt(zero) && improves {
                        best =
                        Some(
                            CrossVenueArb {
                                contract: contract.clone(),
                                buy_venue: buy.venue,
                                buy_price: buy.ask,
                                sell_venue: sell.venue,
                                sell_price: sell.bid,
                                edge,
                                executable_size: buy.ask_size.smaller(sell.bid_size),
                            },
                        );
                    }
                }
                j += 1;
            }
            assert(quotes@.take(j as int) == quotes@);
            i += 1;
        }
        assert(quotes@.take(i as int) == quotes@);
        best
    }

    /// Drops quotes and depth older than `max_age_ns`, and contracts of which nothing is left.
    pub fn prune_stale(&mut self, now: Timestamp, max_age_ns: i64)
        ensures
            final(self)@ == old(self)@.pruned(now, max_age_ns),
    {
        let ghost before = self.contracts@;
        let ghost names = self.contracts.order();
        let mut left: Vec<(String, ContractBook)> = self.contracts.drain();
        let ghost all = left@;
        let mut kept: TextMap<ContractBook> = TextMap::new();
        proof {
            assert(names.take(left.len() as int) == names);
            assert(left@ == all.take(left.len() as int));
            assert forall|name: Seq<char>| before.contains_key(name) implies names.contains(
                name,
            ) by {
                assert(names.to_set().contains(name));
            }
        }
        while left.len() > 0
            invariant
                left@ == all.take(left.len() as int),
                left.len() <= all.len(),
                all.len() == names.len(),
                names.no_duplicates(),
                names.to_set() == before.dom(),
                forall|i: int|
                    0 <= i < all.len() ==> (#[trigger] all[i]).0@ == names[i]
                        && before.contains_key(names[i]) && all[i].1 == before[names[i]],
                forall|name: Seq<char>| #[trigger]
                    kept@.contains_key(name) <==> before.contains_key(name) && !before[name].pruned(
                        now,
                        max_age_ns,
                    ).is_blank() && !names.take(left.len() as int).contains(name),
                forall|name: Seq<char>| #[trigger]
                    kept@.contains_key(name) ==> kept@[name] == before[name].pruned(
                        now,
                        max_age_ns,
                    ),
            decreases left.len(),
        {
            let ghost k = left.len() - 1;
            let ghost kept_before = kept@;
            match left.pop() {
                Some((name, book)) => {
                    let ContractBook { ticks, depths } = book;
                    let pruned = ContractBook {
                        ticks: VenueMap {
                            polymarket: keep_tick(ticks.polymarket, now, max_age_ns),
                            kalshi: keep_tick(ticks.kalshi, now, max_age_ns),
                            paper: keep_tick(ticks.paper, now, max_age_ns),
                        },
                        depths: VenueMap {
                            polymarket: keep_depth(depths.polymarket, now, max_age_ns),
                            kalshi: keep_depth(depths.kalshi, now, max_age_ns),
                            paper: keep_depth(depths.paper, now, max_age_ns),
                        },
                    };
                    assert(all[k].0@ == names[k]);
                    assert(pruned == before[names[k]].pruned(now, max_age_ns));
                    let blank = pruned.ticks.polymarket.is_none() && pruned.ticks.kalshi.is_none()
                        && pruned.ticks.paper.is_none() && pruned.depths.polymarket.is_none()
                        && pruned.depths.kalshi.is_none() && pruned.depths.paper.is_none();
                    if !blank {
                        kept.insert(name, pruned);
                    }
                    assert forall|n: Seq<char>| #[trigger]
                        kept@.contains_key(n) <==> before.contains_key(n) && !before[n].pruned(
                            now,
                            max_age_ns,
                        ).is_blank() && !names.take(k).contains(n) by {
                        assert(names.take(k + 1) == names.take(k).push(names[k]));
                        if n == names[k] {
                            if names.take(k).contains(n) {
                                let j = names.take(k).index_of(n);
                                assert(names[j] == names[k]);
                            }
                            assert(names.take(k + 1)[k] == n);
                            assert(!kept_before.contains_key(n));
                        } else {
                            assert(names.take(k + 1).contains(n) <==> names.take(k).contains(n)) by {
                                if names.take(k + 1).contains(n) {
                                    let j = names.take(k + 1).index_of(n);
                                    assert(names.take(k)[j] == n);
                                }
                                if names.take(k).contains(n) {
                                    let j = names.take(k).index_of(n);
                                    assert(names.take(k + 1)[j] == n);
                                }
                            }
                        }
                    }
                    assert(left@ == all.take(left.len() as int));
                },
                None => {},
            }
        }
        self.contracts = kept;
        assert(self@.contracts =~= old(self)@.pruned(now, max_age_ns).contracts);
    }

    /// How many contracts are tracked.
    pub fn tracked_contracts(&self) -> (r: usize)
        ensures
            r == self@.contracts.dom().len(),
            self@.contracts.dom().finite(),
    {
        let n: usize = self.contracts.len();
        proof {
            self.contracts.order().unique_seq_to_set();
        }
        n
    }
}

impl BookState {
    /// Whether every quote in the book is valid and stands under its own contract and venue.
    pub open spec fn is_sound(self) -> bool {
        forall|name: Seq<char>, venue: VenueId|
            #![trigger self.contracts[name].ticks.at(venue)]
            self.contracts.contains_key(name) ==> match self.contracts[name].ticks.at(venue) {
                Some(t) => t.is_valid() && t.venue == venue && t.contract@ == name,
                None => true,
            }
    }
}

/// The book never holds a quote that is not valid, nor one under a wrong contract or venue:
/// quotes and pruning keep it so.
pub proof fn law_book_stays_sound(
    book: BookState,
    tick: NormalizedTick,
    now: Timestamp,
    max_age_ns: i64,
)
    requires
        book.is_sound(),
    ensures
        book.after_tick(tick).is_sound(),
        book.pruned(now, max_age_ns).is_sound(),
{
    assert forall|name: Seq<char>, venue: VenueId|
        #![trigger book.after_tick(tick).contracts[name].ticks.at(venue)]
        book.after_tick(tick).contracts.contains_key(name) implies match book.after_tick(
        tick,
    ).contracts[name].ticks.at(venue) {
        Some(t) => t.is_valid() && t.venue == venue && t.contract@ == name,
        None => true,
    } by {
        if book.contracts.contains_key(name) {
            assert(book.contracts[name].ticks.at(venue) == book.contracts[name].ticks.at(venue));
        }
    }
    assert forall|name: Seq<char>, venue: VenueId|
        #![trigger book.pruned(now, max_age_ns).contracts[name].ticks.at(venue)]
        book.pruned(now, max_age_ns).contracts.contains_key(name) implies match book.pruned(
        now,
        max_age_ns,
    ).contracts[name].ticks.at(venue) {
        Some(t) => t.is_valid() && t.venue == venue && t.contract@ == name,
        None => true,
    } by {
        assert(book.contracts[name].ticks.at(venue) == book.contracts[name].ticks.at(venue));
    }
}

/// The last valid quote of a venue stands; a refused one changes no quote and is counted;
/// neither touches another contract or venue.
pub proof fn law_last_valid_quote_stands(
    book: BookState,
    tick: NormalizedTick,
    name: Seq<char>,
    venue: VenueId,
)
    ensures
        ({
            let after = book.after_tick(tick);
            &&& tick.is_valid() ==> after.of(tick.contract@).ticks.at(tick.venue) == Some(tick)
                && after.rejected == book.rejected
            &&& !tick.is_valid() ==> after.contracts == book.contracts && (book.rejected
                < u64::MAX ==> after.rejected == book.rejected + 1)
            &&& name != tick.contract@ || venue != tick.venue ==> after.of(name).ticks.at(venue)
                == book.of(name).ticks.at(venue)
        }),
{
}

/// Pruning keeps exactly the quotes that are fresh enough, and no contract without anything.
pub proof fn law_prune_keeps_the_fresh(
    book: BookState,
    now: Timestamp,
    max_age_ns: i64,
    name: Seq<char>,
    venue: VenueId,
)
    ensures
        ({
            let after = book.pruned(now, max_age_ns);
            &&& after.of(name).ticks.at(venue) == fresh_tick(
                book.of(name).ticks.at(venue),
                now,
                max_age_ns,
            )
            &&& after.of(name).depths.at(venue) == fresh_depth(
                book.of(name).depths.at(venue),
                now,
                max_age_ns,
            )
            &&& after.contracts.contains_key(name) ==> !after.contracts[name].is_blank()
        }),
{
}

/// No quote bids more than the best bid, and none asks less than the best ask.
pub proof fn law_best_quotes_are_best(quotes: Seq<NormalizedTick>, i: int)
    requires
        0 <= i < quotes.len(),
    ensures
        quotes.contains(top_bid(quotes)),
        quotes.contains(top_ask(quotes)),
        !top_bid(quotes).bid.total_lt(quotes[i].bid),
        !quotes[i].ask.total_lt(top_ask(quotes).ask),
    decreases quotes.len(),
{
    if quotes.len() == 1 {
        assert(quotes[0] == top_bid(quotes));
        assert(quotes.contains(quotes[0]));
    } else {
        let rest = quotes.drop_last();
        let k = if i < rest.len() {
            i
        } else {
            0
        };
        law_best_quotes_are_best(rest, k);
        let b = rest.index_of(top_bid(rest));
        assert(quotes[b] == top_bid(rest));
        let a = rest.index_of(top_ask(rest));
        assert(quotes[a] == top_ask(rest));
        assert(quotes[quotes.len() - 1] == quotes.last());
        assert(i < rest.len() ==> rest[i] == quotes[i]);
    }
}

/// Whether two quotes make an arbitrage with this edge.
pub open spec fn crosses(c: &Arithmetic, buy: NormalizedTick, sell: NormalizedTick) -> bool {
    buy.venue != sell.venue && c.minus(sell.bid, buy.ask).gt(Double::from_bits(ZERO))
}

proof fn lemma_best_sale(
    c: &Arithmetic,
    contract: CanonicalContractId,
    buy: NormalizedTick,
    sells: Seq<NormalizedTick>,
    best: Option<CrossVenueArb>,
)
    requires
        best matches Some(b) ==> b.edge.gt(Double::from_bits(ZERO)),
    ensures
        ({
            let r = best_sale(c, contract, buy, sells, best);
            &&& r matches Some(a) ==> a.edge.gt(Double::from_bits(ZERO))
            &&& r is None ==> best is None
            &&& r == best || exists|j: int|
                0 <= j < sells.len() && crosses(c, buy, #[trigger] sells[j]) && r == Some(
                    arb_between(c, contract, buy, sells[j]),
                )
            &&& best matches Some(b) ==> r matches Some(a) && !b.edge.gt(a.edge)
            &&& forall|j: int|
                0 <= j < sells.len() && crosses(c, buy, #[trigger] sells[j]) ==> (
                r matches Some(a) && !c.minus(sells[j].bid, buy.ask).gt(a.edge))
        }),
    decreases sells.len(),
{
    if sells.len() > 0 {
        let rest = sells.drop_last();
        lemma_best_sale(c, contract, buy, rest, best);
        let mid = best_sale(c, contract, buy, rest, best);
        let r = best_sale(c, contract, buy, sells, best);
        let last = sells[sells.len() - 1];
        assert(last == sells.last());
        if mid != best {
            let j = choose|j: int|
                0 <= j < rest.len() && crosses(c, buy, #[trigger] rest[j]) && mid == Some(
                    arb_between(c, contract, buy, rest[j]),
                );
            assert(sells[j] == rest[j]);
        }
        if r != mid {
            assert(crosses(c, buy, last));
            assert(r == Some(arb_between(c, contract, buy, sells[sells.len() - 1])));
        }
        assert forall|j: int| 0 <= j < sells.len() && crosses(c, buy, #[trigger] sells[j]) implies (
        r matches Some(a) && !c.minus(sells[j].bid, buy.ask).gt(a.edge)) by {
            if j < rest.len() {
                assert(rest[j] == sells[j]);
                assert(crosses(c, buy, rest[j]));
            }
        }
    }
}

proof fn lemma_best_arb(
    c: &Arithmetic,
    contract: CanonicalContractId,
    buys: Seq<NormalizedTick>,
    sells: Seq<NormalizedTick>,
)
    ensures
        ({
            let r = best_arb(c, contract, buys, sells);
            &&& r matches Some(a) ==> a.edge.gt(Double::from_bits(ZERO)) && exists|i: int, j: int|
                0 <= i < buys.len() && 0 <= j < sells.len() && crosses(
                    c,
                    #[trigger] buys[i],
                    #[trigger] sells[j],
                ) && a == arb_between(c, contract, buys[i], sells[j])
            &&& forall|i: int, j: int|
                0 <= i < buys.len() && 0 <= j < sells.len() && crosses(
                    c,
                    #[trigger] buys[i],
                    #[trigger] sells[j],
                ) ==> (r matches Some(a) && !c.minus(sells[j].bid, buys[i].ask).gt(a.edge))
        }),
    decreases buys.len(),
{
    if buys.len() > 0 {
        let rest = buys.drop_last();
        let last = buys[buys.len() - 1];
        assert(last == buys.last());
        lemma_best_arb(c, contract, rest, sells);
        let before = best_arb(c, contract, rest, sells);
        lemma_best_sale(c, contract, last, sells, before);
        let r = best_arb(c, contract, buys, sells);
        if r is Some {
            let a = r->0;
            if r == before {
                let (i, j) = choose|i: int, j: int|
                    0 <= i < rest.len() && 0 <= j < sells.len() && crosses(
                        c,
                        #[trigger] rest[i],
                        #[trigger] sells[j],
                    ) && a == arb_between(c, contract, rest[i], sells[j]);
                assert(buys[i] == rest[i]);
                assert(crosses(c, buys[i], sells[j]));
            } else {
                let j = choose|j: int|
                    0 <= j < sells.len() && crosses(c, last, #[trigger] sells[j]) && r == Some(
                        arb_between(c, contract, last, sells[j]),
                    );
                assert(crosses(c, buys[buys.len() - 1], sells[j]));
            }
        }
        assert forall|i: int, j: int|
            0 <= i < buys.len() && 0 <= j < sells.len() && crosses(
                c,
                #[trigger] buys[i],
                #[trigger] sells[j],
            ) implies (r matches Some(a) && !c.minus(sells[j].bid, buys[i].ask).gt(a.edge)) by {
            if i < rest.len() {
                assert(rest[i] == buys[i]);
                assert(crosses(c, rest[i], sells[j]));
            }
        }
    }
}

/// The arbitrage that is reported is the one between two quotes of the list, of different venues,
/// at their prices and for the size that both have. Its edge is positive, and no pair of venues
/// has a larger one; where none is reported, no pair has any.
pub proof fn law_arb_is_the_largest(
    c: &Arithmetic,
    contract: CanonicalContractId,
    quotes: Seq<NormalizedTick>,
    i: int,
    j: int,
)
    requires
        0 <= i < quotes.len(),
        0 <= j < quotes.len(),
    ensures
        match best_arb(c, contract, quotes, quotes) {
            Some(a) => {
                &&& a.edge.gt(Double::from_bits(ZERO))
                &&& a.buy_venue != a.sell_venue
                &&& exists|b: int, s: int|
                    0 <= b < quotes.len() && 0 <= s < quotes.len() && crosses(
                        c,
                        #[trigger] quotes[b],
                        #[trigger] quotes[s],
                    ) && a == (CrossVenueArb {
                        contract,
                        buy_venue: quotes[b].venue,
                        buy_price: quotes[b].ask,
                        sell_venue: quotes[s].venue,
                        sell_price: quotes[s].bid,
                        edge: c.minus(quotes[s].bid, quotes[b].ask),
                        executable_size: quotes[b].ask_size.smaller(quotes[s].bid_size),
                    })
                &&& crosses(c, quotes[i], quotes[j]) ==> !c.minus(quotes[j].bid, quotes[i].ask).gt(
                    a.edge,
                )
            },
            None => !crosses(c, quotes[i], quotes[j]),
        },
{
    lemma_best_arb(c, contract, quotes, quotes);
}

/// The best bid is a venue's own bid for its own size, and no venue bids more; of equal ones the
/// venue that stands last has it. There is one where any venue quotes.
pub proof fn law_best_bid_is_a_venues_own(book: BookState, name: Seq<char>, other: VenueId)
    ensures
        match book.best_bid(name) {
            Some(b) => exists|venue: VenueId|
                {
                    &&& #[trigger] book.of(name).ticks.at(venue) matches Some(t) && t.venue
                        == b.venue && t.bid == b.price && t.bid_size == b.size
                    &&& book.of(name).ticks.at(other) matches Some(o) ==> !b.price.total_lt(o.bid)
                        && (venue.rank() < other.rank() ==> o.bid.total_lt(b.price))
                },
            None => book.of(name).ticks.at(other) is None,
        },
{
    let ticks = book.of(name).ticks;
    let quotes = book.quotes(name);
    reveal_with_fuel(top_bid, 4);
    lemma_listed(ticks.polymarket, ticks.kalshi, ticks.paper);
    assert(ticks.at(VenueId::Polymarket) == ticks.polymarket);
    assert(ticks.at(VenueId::Kalshi) == ticks.kalshi);
    assert(ticks.at(VenueId::Paper) == ticks.paper);
    if quotes.len() > 0 {
        let rest = quotes.drop_last();
        assert(quotes.len() > 1 ==> rest[0] == quotes[0]);
        assert(quotes.len() > 2 ==> rest.drop_last()[0] == quotes[0]);
    }
}

/// The best ask is a venue's own ask for its own size, and no venue asks less; of equal ones the
/// venue that stands first has it. There is one where any venue quotes.
pub proof fn law_best_ask_is_a_venues_own(book: BookState, name: Seq<char>, other: VenueId)
    ensures
        match book.best_ask(name) {
            Some(b) => exists|venue: VenueId|
                {
                    &&& #[trigger] book.of(name).ticks.at(venue) matches Some(t) && t.venue
                        == b.venue && t.ask == b.price && t.ask_size == b.size
                    &&& book.of(name).ticks.at(other) matches Some(o) ==> !o.ask.total_lt(b.price)
                        && (other.rank() < venue.rank() ==> b.price.total_lt(o.ask))
                },
            None => book.of(name).ticks.at(other) is None,
        },
{
    let ticks = book.of(name).ticks;
    let quotes = book.quotes(name);
    reveal_with_fuel(top_ask, 4);
    lemma_listed(ticks.polymarket, ticks.kalshi, ticks.paper);
    assert(ticks.at(VenueId::Polymarket) == ticks.polymarket);
    assert(ticks.at(VenueId::Kalshi) == ticks.kalshi);
    assert(ticks.at(VenueId::Paper) == ticks.paper);
    if quotes.len() > 0 {
        let rest = quotes.drop_last();
        assert(quotes.len() > 1 ==> rest[0] == quotes[0]);
        assert(quotes.len() > 2 ==> rest.drop_last()[0] == quotes[0]);
    }
}

proof fn lemma_listed(
    a: Option<NormalizedTick>,
    b: Option<NormalizedTick>,
    c: Option<NormalizedTick>,
)
    ensures
        ({
            let all = one(a) + one(b) + one(c);
            &&& all.len() == (if a is Some {
                1int
            } else {
                0
            }) + (if b is Some {
                1int
            } else {
                0
            }) + (if c is Some {
                1int
            } else {
                0
            })
            &&& a matches Some(t) ==> all[0] == t
            &&& b matches Some(t) ==> all[if a is Some {
                1int
            } else {
                0
            }] == t
            &&& c matches Some(t) ==> all[all.len() - 1] == t
        }),
{
}

/// Every venue's quote is listed, and nothing else.
pub proof fn law_every_venues_quote_is_listed(book: BookState, name: Seq<char>, venue: VenueId)
    ensures
        book.of(name).ticks.at(venue) matches Some(t) ==> book.quotes(name).contains(t),
        forall|i: int|
            0 <= i < book.quotes(name).len() ==> exists|v: VenueId|
                #[trigger] book.of(name).ticks.at(v) == Some(#[trigger] book.quotes(name)[i]),
{
    let ticks = book.of(name).ticks;
    let quotes = book.quotes(name);
    lemma_listed(ticks.polymarket, ticks.kalshi, ticks.paper);
    assert(ticks.at(VenueId::Polymarket) == ticks.polymarket);
    assert(ticks.at(VenueId::Kalshi) == ticks.kalshi);
    assert(ticks.at(VenueId::Paper) == ticks.paper);
    assert forall|i: int| 0 <= i < quotes.len() implies exists|v: VenueId|
        #[trigger] ticks.at(v) == Some(#[trigger] quotes[i]) by {
        let (p, k) = (ticks.polymarket is Some, ticks.kalshi is Some);
        if p && i == 0 {
            assert(ticks.at(VenueId::Polymarket) == Some(quotes[i]));
        } else if k && i == (if p {
            1int
        } else {
            0
        }) {
            assert(ticks.at(VenueId::Kalshi) == Some(quotes[i]));
        } else {
            assert(ticks.at(VenueId::Paper) == Some(quotes[i]));
        }
    }
}

/// The middle lies half way between the best bid and the best ask, up to a rounding, and there is
/// one where there are quotes.
pub proof fn law_mid_is_half_way(c: &Arithmetic, book: BookState, name: Seq<char>)
    requires
        c.is_accurate(),
        book.best_bid(name) matches Some(b) ==> b.price.abs().le(Double::from_bits(ONE)),
        book.best_ask(name) matches Some(a) ==> a.price.abs().le(Double::from_bits(ONE)),
    ensures
        match book.mid(c, name) {
            Some(mid) => {
                &&& book.best_bid(name) matches Some(bid)
                &&& book.best_ask(name) matches Some(ask)
                &&& gap(2 * mid.exact(), bid.price.exact() + ask.price.exact()) <= 4 * two_to(
                    -53,
                ).exact()
            },
            None => book.best_bid(name) is None || book.best_ask(name) is None,
        },
{
    match (book.best_bid(name), book.best_ask(name)) {
        (Some(bid), Some(ask)) => {
            let (one, two) = (Double::from_bits(ONE), Double::from_bits(TWO));
            let (b, a) = (bid.price, ask.price);
            let u = unit();
            lemma_exact_power(-53);
            lemma_exact_power(0);
            assert(two_to(0) == one && two_to(1) == two);
            lemma_size(b, one);
            lemma_size(a, one);
            lemma_sum_near(c, b, a, 1);
            let sum = c.plus(b, a);
            lemma_size(sum, two);
            law_exact_orders(two, two);
            let (s, d) = (sum.exact(), two.exact());
            assert(gap(s * u, 0) <= u * gap(d, 0)) by (nonlinear_arith)
                requires
                    -2 * u <= s <= 2 * u,
                    d == 2 * u,
                    u >= 0,
            ;
            lemma_quotient_near(c, sum, two, 0);
            let (m, e) = (c.over(sum, two).exact(), two_to(-53).exact());
            assert(gap(2 * m, s) <= 2 * e) by (nonlinear_arith)
                requires
                    gap(m * d, s * u) <= e * gap(d, 0),
                    d == 2 * u,
                    u > 0,
            ;
        },
        _ => {},
    }
}

/// Pruning goes by age alone: what was received no longer ago than the limit stays as it was, and
/// what was received longer ago is gone.
pub proof fn law_prune_goes_by_age(
    book: BookState,
    now: Timestamp,
    max_age_ns: i64,
    name: Seq<char>,
    venue: VenueId,
)
    ensures
        ({
            let after = book.pruned(now, max_age_ns);
            &&& match book.of(name).ticks.at(venue) {
                Some(t) => after.of(name).ticks.at(venue) == (if now.age(t.receive_ts)
                    <= max_age_ns {
                    Some(t)
                } else {
                    None
                }),
                None => after.of(name).ticks.at(venue) is None,
            }
            &&& match book.of(name).depths.at(venue) {
                Some(d) => after.of(name).depths.at(venue) == (if now.age(d.receive_ts)
                    <= max_age_ns {
                    Some(d)
                } else {
                    None
                }),
                None => after.of(name).depths.at(venue) is None,
            }
            &&& after.rejected == book.rejected
        }),
{
}

/// Wherever one venue bids more than another asks there is an arbitrage, and the one that is
/// reported gains no less; and where there is none, no venue bids more than another asks.
pub proof fn law_every_gain_between_venues_counts(
    c: &Arithmetic,
    contract: CanonicalContractId,
    quotes: Seq<NormalizedTick>,
    i: int,
    j: int,
)
    requires
        0 <= i < quotes.len(),
        0 <= j < quotes.len(),
        quotes[i].venue != quotes[j].venue,
        Double::from_bits(ZERO).lt(c.minus(quotes[j].bid, quotes[i].ask)),
    ensures
        match best_arb(c, contract, quotes, quotes) {
            Some(a) => !a.edge.lt(c.minus(quotes[j].bid, quotes[i].ask)),
            None => false,
        },
{
    law_arb_is_the_largest(c, contract, quotes, i, j);
}

} // verus!
