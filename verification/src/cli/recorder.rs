//! Recording live quotes: which markets are asked for their book, and what is recorded.
use vstd::prelude::*;
use crate::double::Double;
use crate::text;
use crate::types::contract::CanonicalContractId;
use crate::types::market::NormalizedTick;
use crate::types::time::Timestamp;
use crate::types::venue::VenueId;

verus! {

/// A field of a venue's answer.
#[derive(Debug)]
pub enum Field {
    Absent,
    Text(String),
    /// Something that is no text.
    Other,
}

/// A field of a venue's answer, as a plain value.
pub enum FieldView {
    Absent,
    Text(Seq<char>),
    Other,
}

impl View for Field {
    type V = FieldView;

    open spec fn view(&self) -> FieldView {
        match self {
            Field::Absent => FieldView::Absent,
            Field::Text(s) => FieldView::Text(s@),
            Field::Other => FieldView::Other,
        }
    }
}

/// What is read of one of Kalshi's markets.
#[derive(Debug)]
pub struct KalshiMarket {
    pub ticker: Field,
    pub title: Field,
    pub subtitle: Field,
    pub close_time: Field,
}

/// What is read of one of Polymarket's markets.
#[derive(Debug)]
pub struct PolymarketMarket {
    pub question: Field,
    /// A list of token ids, as JSON within the JSON.
    pub clob_token_ids: Field,
}

/// The best price and size on both sides.
#[derive(Debug, Clone, Copy, PartialEq, Eq, Structural)]
pub struct TopOfBook {
    pub bid: Double,
    pub bid_size: Double,
    pub ask: Double,
    pub ask_size: Double,
}

/// A market to ask for its book, or why one cannot be asked.
#[derive(Debug)]
pub enum Candidate {
    Ask(String),
    Broken(String),
}

/// A candidate as plain values.
pub enum CandidateView {
    Ask(Seq<char>),
    Broken(Seq<char>),
}

impl View for Candidate {
    type V = CandidateView;

    open spec fn view(&self) -> CandidateView {
        match self {
            Candidate::Ask(s) => CandidateView::Ask(s@),
            Candidate::Broken(s) => CandidateView::Broken(s@),
        }
    }
}

/// Candidates as plain values.
pub open spec fn views(candidates: Seq<Candidate>) -> Seq<CandidateView> {
    candidates.map_values(|k: Candidate| k@)
}

/// Texts as plain values.
pub open spec fn texts(list: Seq<String>) -> Seq<Seq<char>> {
    list.map_values(|s: String| s@)
}

/// What came of parsing strings, as plain values.
pub open spec fn plain(parsed: Result<Vec<String>, String>) -> Result<Seq<Seq<char>>, Seq<char>> {
    match parsed {
        Ok(list) => Ok(texts(list@)),
        Err(e) => Err(e@),
    }
}

/// What `serde_json::from_str` makes of a text that should be an array of strings: the strings,
/// or its error as text.
pub uninterp spec fn json_strings(json: Seq<char>) -> Result<Seq<Seq<char>>, Seq<char>>;

/// `serde_json::from_str` into strings: what it gives depends on the text alone. Which texts it
/// accepts, and the words of its errors, are not stated.
#[verifier::external_body]
pub(crate) fn parse_strings(json: &str) -> (r: Result<Vec<String>, String>)
    ensures
        plain(r) == json_strings(json@),
{
    serde_json::from_str::<Vec<String>>(json).map_err(|e| e.to_string())
}

/// Whether a market's field holds token ids at all.
pub open spec fn has_tokens(field: FieldView) -> bool {
    field matches FieldView::Text(s) && s.len() > 0 && s != "[]"@
}

/// Whether a market's field holds token ids at all.
pub fn token_ids(market: &PolymarketMarket) -> (r: Option<&String>)
    ensures
        match r {
            Some(s) => has_tokens(market.clob_token_ids@) && market.clob_token_ids@
                == FieldView::Text(s@),
            None => !has_tokens(market.clob_token_ids@),
        },
{
    match &market.clob_token_ids {
        Field::Text(s) => {
            let chars = text::chars_of(s.as_str());
            if chars.len() == 0 || text::same_text(s.as_str(), "[]") {
                None
            } else {
                Some(s)
            }
        },
        _ => None,
    }
}

/// The candidates that a list of token ids brings: one for each, or the complaint where there
/// is no list.
pub open spec fn token_views(json: Seq<char>, parsed: Result<Seq<Seq<char>>, Seq<char>>) -> Seq<
    CandidateView,
> {
    match parsed {
        Ok(ids) => ids.map_values(|id: Seq<char>| CandidateView::Ask(id)),
        Err(_) => seq![
            CandidateView::Broken("market had unparseable clobTokenIds: "@ + json),
        ],
    }
}

/// The candidates that a market's token ids bring, once they have been parsed.
pub fn token_candidates(json: &str, parsed: Result<Vec<String>, String>) -> (r: Vec<Candidate>)
    ensures
        views(r@) == token_views(json@, plain(parsed)),
{
    let mut out: Vec<Candidate> = Vec::new();
    match parsed {
        Ok(list) => {
            let mut i: usize = 0;
            while i < list.len()
                invariant
                    i <= list.len(),
                    views(out@) =~= texts(list@).take(i as int).map_values(
                        |id: Seq<char>| CandidateView::Ask(id),
                    ),
                decreases list.len() - i,
            {
                let ghost before = out@;
                out.push(Candidate::Ask(list[i].clone()));
                assert(views(out@) =~= views(before).push(CandidateView::Ask(list[i as int]@)));
                assert(texts(list@).take(i + 1) =~= texts(list@).take(i as int).push(
                    list[i as int]@,
                ));
                i += 1;
            }
            assert(texts(list@).take(i as int) =~= texts(list@));
        },
        Err(_) => {
            let mut s = "market had unparseable clobTokenIds: ".to_owned();
            s.append(json);
            out.push(Candidate::Broken(s));
            assert(views(out@) =~= seq![
                CandidateView::Broken("market had unparseable clobTokenIds: "@ + json@),
            ]);
        },
    }
    out
}

/// The candidates among Kalshi's markets: those with a ticker.
pub open spec fn kalshi_views(markets: Seq<KalshiMarket>) -> Seq<CandidateView>
    decreases markets.len(),
{
    if markets.len() == 0 {
        Seq::empty()
    } else {
        let before = kalshi_views(markets.drop_last());
        match markets.last().ticker@ {
            FieldView::Text(ticker) => before.push(CandidateView::Ask(ticker)),
            _ => before,
        }
    }
}

/// The candidates among Polymarket's markets: every token of every market that has some.
pub open spec fn polymarket_views(markets: Seq<PolymarketMarket>) -> Seq<CandidateView>
    decreases markets.len(),
{
    if markets.len() == 0 {
        Seq::empty()
    } else {
        let before = polymarket_views(markets.drop_last());
        match markets.last().clob_token_ids@ {
            FieldView::Text(json) => if has_tokens(FieldView::Text(json)) {
                before + token_views(json, json_strings(json))
            } else {
                before
            },
            _ => before,
        }
    }
}

/// A search for a market with a book that has two sides.
#[derive(Debug)]
pub struct BookScan {
    venue: VenueId,
    candidates: Vec<Candidate>,
    next: usize,
    last_error: String,
}

/// A search as plain values.
#[verifier::ext_equal]
pub struct ScanState {
    pub venue: VenueId,
    pub candidates: Seq<CandidateView>,
    /// How many of the candidates are behind.
    pub next: nat,
    /// What went wrong last.
    pub last_error: Seq<char>,
}

impl View for BookScan {
    type V = ScanState;

    closed spec fn view(&self) -> ScanState {
        ScanState {
            venue: self.venue,
            candidates: views(self.candidates@),
            next: self.next as nat,
            last_error: self.last_error@,
        }
    }
}

impl ScanState {
    /// The search with the candidates that cannot be asked behind it, and their complaints noted.
    pub open spec fn settled(self) -> ScanState
        decreases self.candidates.len() - self.next,
    {
        if self.next < self.candidates.len() {
            match self.candidates[self.next as int] {
                CandidateView::Ask(_) => self,
                CandidateView::Broken(why) => ScanState {
                    next: self.next + 1,
                    last_error: why,
                    ..self
                }.settled(),
            }
        } else {
            self
        }
    }

    /// The market to ask next, if the search is at one.
    pub open spec fn asked(self) -> Option<Seq<char>> {
        if self.next < self.candidates.len() {
            match self.candidates[self.next as int] {
                CandidateView::Ask(id) => Some(id),
                CandidateView::Broken(_) => None,
            }
        } else {
            None
        }
    }

    /// What is said where no market had a book with two sides.
    pub open spec fn complaint(self) -> Seq<char> {
        (match self.venue {
            VenueId::Kalshi =>
                "none of the open KXHIGHCHI markets had a two-sided book (last error: "@,
            _ => "no active Polymarket outcome token had a two-sided book (last error: "@,
        }) + self.last_error + ")"@
    }
}

/// What is recorded of a book: the venue's own name for the market, as no canonical contract is
/// known for it.
pub open spec fn is_recorded(
    tick: NormalizedTick,
    venue: VenueId,
    id: Seq<char>,
    book: TopOfBook,
    now: Timestamp,
) -> bool {
    &&& tick.contract@ == "raw."@ + venue.name() + "."@ + id
    &&& tick == (NormalizedTick {
        venue,
        contract: tick.contract,
        bid: book.bid,
        bid_size: book.bid_size,
        ask: book.ask,
        ask_size: book.ask_size,
        venue_ts: None,
        receive_ts: now,
    })
}

/// The quote that is recorded of a book.
pub fn recorded_tick(venue: VenueId, id: &str, book: TopOfBook, now: Timestamp) -> (r:
    NormalizedTick)
    ensures
        is_recorded(r, venue, id@, book, now),
{
    let mut name = "raw.".to_owned();
    name.append(venue.to_text().as_str());
    name.append(".");
    name.append(id);
    NormalizedTick {
        venue,
        contract: CanonicalContractId(name),
        bid: book.bid,
        bid_size: book.bid_size,
        ask: book.ask,
        ask_size: book.ask_size,
        venue_ts: None,
        receive_ts: now,
    }
}

/// What is said where Kalshi lists nothing.
pub const NO_KALSHI: &'static str = "no open KXHIGHCHI markets right now";

/// What is said where Polymarket's answer is no list.
pub const NO_LIST: &'static str = "expected an array of markets from the Gamma API";

impl BookScan {
    /// A search among Kalshi's markets. There has to be one.
    pub fn kalshi(markets: Option<&Vec<KalshiMarket>>) -> (r: Result<BookScan, String>)
        ensures
            match markets {
                Some(list) => if list@.len() > 0 {
                    r matches Ok(scan) && scan@ == (ScanState {
                        venue: VenueId::Kalshi,
                        candidates: kalshi_views(list@),
                        next: 0,
                        last_error: "no open KXHIGHCHI markets had a usable ticker"@,
                    })
                } else {
                    r matches Err(e) && e@ == NO_KALSHI@
                },
                None => r matches Err(e) && e@ == NO_KALSHI@,
            },
    {
        let list = match markets {
            Some(list) => list,
            None => return Err(NO_KALSHI.to_owned()),
        };
        if list.len() == 0 {
            return Err(NO_KALSHI.to_owned());
        }
        let mut candidates: Vec<Candidate> = Vec::new();
        let mut i: usize = 0;
        assert(views(candidates@) =~= kalshi_views(list@.take(0)));
        while i < list.len()
            invariant
                i <= list.len(),
                views(candidates@) == kalshi_views(list@.take(i as int)),
            decreases list.len() - i,
        {
            assert(list@.take(i + 1).drop_last() =~= list@.take(i as int));
            let ghost before = candidates@;
            match &list[i].ticker {
                Field::Text(ticker) => {
                    candidates.push(Candidate::Ask(ticker.clone()));
                    assert(views(candidates@) =~= views(before).push(CandidateView::Ask(ticker@)));
                },
                _ => {},
            }
            i += 1;
        }
        assert(list@.take(i as int) =~= list@);
        Ok(
            BookScan {
                venue: VenueId::Kalshi,
                candidates,
                next: 0,
                last_error: "no open KXHIGHCHI markets had a usable ticker".to_owned(),
            },
        )
    }

    /// A search among the tokens of Polymarket's markets.
    pub fn polymarket(markets: Option<&Vec<PolymarketMarket>>) -> (r: Result<BookScan, String>)
        ensures
            match markets {
                Some(list) => r matches Ok(scan) && scan@ == (ScanState {
                    venue: VenueId::Polymarket,
                    candidates: polymarket_views(list@),
                    next: 0,
                    last_error: "no active market with tradeable outcome tokens was returned"@,
                }),
                None => r matches Err(e) && e@ == NO_LIST@,
            },
    {
        let list = match markets {
            Some(list) => list,
            None => return Err(NO_LIST.to_owned()),
        };
        let mut candidates: Vec<Candidate> = Vec::new();
        let mut i: usize = 0;
        assert(views(candidates@) =~= polymarket_views(list@.take(0)));
        while i < list.len()
            invariant
                i <= list.len(),
                views(candidates@) == polymarket_views(list@.take(i as int)),
            decreases list.len() - i,
        {
            assert(list@.take(i + 1).drop_last() =~= list@.take(i as int));
            let ghost before = candidates@;
            match token_ids(&list[i]) {
                Some(json) => {
                    let mut more = token_candidates(json.as_str(), parse_strings(json.as_str()));
                    let ghost added = more@;
                    candidates.append(&mut more);
                    assert(views(candidates@) =~= views(before) + views(added));
                },
                None => {},
            }
            i += 1;
        }
        assert(list@.take(i as int) =~= list@);
        Ok(
            BookScan {
                venue: VenueId::Polymarket,
                candidates,
                next: 0,
                last_error:
                    "no active market with tradeable outcome tokens was returned".to_owned(),
            },
        )
    }

    /// The market whose book is to be fetched next; none where the search is at its end.
    pub fn next_market(&mut self) -> (r: Option<String>)
        ensures
            final(self)@ == old(self)@.settled(),
            match r {
                Some(id) => final(self)@.asked() == Some(id@),
                None => final(self)@.next >= final(self)@.candidates.len(),
            },
    {
        while self.next < self.candidates.len()
            invariant
                self@.settled() == old(self)@.settled(),
            decreases self.candidates.len() - self.next,
        {
            assert(self@.candidates[self.next as int] == self.candidates@[self.next as int]@);
            match &self.candidates[self.next] {
                Candidate::Ask(id) => return Some(id.clone()),
                Candidate::Broken(why) => {
                    let why = why.clone();
                    self.last_error = why;
                    self.next = self.next + 1;
                },
            }
        }
        None
    }

    /// Takes the book of the market that was asked for: a book is what is recorded, and an error
    /// is noted.
    pub fn on_book(&mut self, answer: Result<TopOfBook, String>, now: Timestamp) -> (r: Option<
        NormalizedTick,
    >)
        requires
            old(self)@.asked() is Some,
        ensures
            match answer {
                Ok(book) => {
                    &&& r matches Some(tick)
                    &&& is_recorded(
                        tick,
                        old(self)@.venue,
                        old(self)@.asked()->0,
                        book,
                        now,
                    )
                    &&& final(self)@ == old(self)@
                },
                Err(e) => {
                    &&& r is None
                    &&& final(self)@ == (ScanState {
                        next: old(self)@.next + 1,
                        last_error: e@,
                        ..old(self)@
                    })
                },
            },
    {
        assert(self.next < self.candidates.len());
        assert(self@.candidates[self.next as int] == self.candidates@[self.next as int]@);
        match answer {
            Ok(book) => match &self.candidates[self.next] {
                Candidate::Ask(id) => Some(recorded_tick(self.venue, id.as_str(), book, now)),
                Candidate::Broken(_) => None,
            },
            Err(e) => {
                self.last_error = e;
                self.next = self.next + 1;
                None
            },
        }
    }

    /// What is said where no market had a book with two sides.
    pub fn give_up(&self) -> (r: String)
        ensures
            r@ == self@.complaint(),
    {
        let mut s = match self.venue {
            VenueId::Kalshi =>
                "none of the open KXHIGHCHI markets had a two-sided book (last error: ".to_owned(),
            _ =>
                "no active Polymarket outcome token had a two-sided book (last error: ".to_owned(),
        };
        s.append(self.last_error.as_str());
        s.append(")");
        s
    }
}

/// How long the recorder waits between two looks where nothing usable is set, in seconds.
pub const DEFAULT_INTERVAL_SECS: u64 = 10;

/// The seconds between two looks: what is set, where that is a number above zero.
pub fn interval_secs(setting: Option<u64>) -> (r: u64)
    ensures
        r == (match setting {
            Some(n) => if n > 0 {
                n
            } else {
                DEFAULT_INTERVAL_SECS
            },
            None => DEFAULT_INTERVAL_SECS,
        }),
{
    match setting {
        Some(n) => if n > 0 {
            n
        } else {
            DEFAULT_INTERVAL_SECS
        },
        None => DEFAULT_INTERVAL_SECS,
    }
}

/// A search passes over what cannot be asked and stops at the first market that can, or at its
/// end.
pub proof fn law_search_stops_at_a_market(scan: ScanState)
    requires
        scan.next <= scan.candidates.len(),
    ensures
        scan.settled().asked() is Some || scan.settled().next == scan.candidates.len(),
        scan.next <= scan.settled().next,
        forall|i: int|
            scan.next <= i < scan.settled().next ==> (#[trigger] scan.candidates[i]) is Broken,
        scan.settled().candidates == scan.candidates,
        scan.settled().venue == scan.venue,
    decreases scan.candidates.len() - scan.next,
{
    if scan.next < scan.candidates.len() {
        match scan.candidates[scan.next as int] {
            CandidateView::Ask(_) => {},
            CandidateView::Broken(why) => {
                law_search_stops_at_a_market(
                    ScanState { next: scan.next + 1, last_error: why, ..scan },
                );
            },
        }
    }
}

} // verus!
