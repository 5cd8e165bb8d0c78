//! Live markets: which one is shown, and how.
use vstd::prelude::*;
use crate::cli::recorder;
use crate::cli::recorder::{Field, FieldView, KalshiMarket, PolymarketMarket, TopOfBook};
use crate::double::Double;
use crate::text;

verus! {

/// A quote as it is shown.
#[derive(Debug)]
pub struct LiveQuote {
    pub venue: String,
    pub label: String,
    pub detail: String,
    pub bid: Double,
    pub bid_size: Double,
    pub ask: Double,
    pub ask_size: Double,
    pub source_url: String,
}

/// Whether a quote shows a book under these texts.
pub open spec fn shows(
    quote: LiveQuote,
    venue: Seq<char>,
    label: Seq<char>,
    detail: Seq<char>,
    book: TopOfBook,
    source_url: Seq<char>,
) -> bool {
    &&& quote.venue@ == venue
    &&& quote.label@ == label
    &&& quote.detail@ == detail
    &&& quote.bid == book.bid
    &&& quote.bid_size == book.bid_size
    &&& quote.ask == book.ask
    &&& quote.ask_size == book.ask_size
    &&& quote.source_url@ == source_url
}

/// The Kalshi market that is shown.
#[derive(Debug)]
pub struct KalshiListing {
    pub ticker: String,
    pub title: String,
    pub close_time: String,
}

/// The title of a market: its own, or its subtitle where it has no title at all; its ticker
/// where the one that counts is no text.
pub open spec fn title_of(market: KalshiMarket, ticker: Seq<char>) -> Seq<char> {
    let counts = if market.title@ is Absent {
        market.subtitle@
    } else {
        market.title@
    };
    match counts {
        FieldView::Text(s) => s,
        _ => ticker,
    }
}

/// A field as text, or another text where it is none.
pub open spec fn text_or(field: FieldView, other: Seq<char>) -> Seq<char> {
    match field {
        FieldView::Text(s) => s,
        _ => other,
    }
}

fn field_or(field: &Field, other: &str) -> (r: String)
    ensures
        r@ == text_or(field@, other@),
{
    match field {
        Field::Text(s) => s.clone(),
        _ => other.to_owned(),
    }
}

/// The Kalshi market to show: the first. It must have a ticker.
pub fn kalshi_listing(markets: Option<&Vec<KalshiMarket>>) -> (r: Result<KalshiListing, String>)
    ensures
        match markets {
            Some(list) => if list@.len() > 0 {
                match list@[0].ticker@ {
                    FieldView::Text(ticker) => r matches Ok(l) && l.ticker@ == ticker && l.title@
                        == title_of(list@[0], ticker) && l.close_time@ == text_or(
                        list@[0].close_time@,
                        "unknown"@,
                    ),
                    _ => r matches Err(e) && e@ == "market missing a ticker"@,
                }
            } else {
                r matches Err(e) && e@ == recorder::NO_KALSHI@
            },
            None => r matches Err(e) && e@ == recorder::NO_KALSHI@,
        },
{
    let list = match markets {
        Some(list) => list,
        None => return Err(recorder::NO_KALSHI.to_owned()),
    };
    if list.len() == 0 {
        return Err(recorder::NO_KALSHI.to_owned());
    }
    let market = &list[0];
    let ticker = match &market.ticker {
        Field::Text(ticker) => ticker.clone(),
        _ => return Err("market missing a ticker".to_owned()),
    };
    let title = match &market.title {
        Field::Absent => field_or(&market.subtitle, ticker.as_str()),
        other => field_or(other, ticker.as_str()),
    };
    let close_time = field_or(&market.close_time, "unknown");
    Ok(KalshiListing { ticker, title, close_time })
}

/// The quote of a Kalshi market.
pub fn kalshi_quote(listing: &KalshiListing, book: TopOfBook) -> (r: LiveQuote)
    ensures
        shows(
            r,
            "kalshi"@,
            listing.title@,
            listing.ticker@ + " · closes "@ + listing.close_time@,
            book,
            "https://external-api.kalshi.com/trade-api/v2/markets/"@ + listing.ticker@
                + "/orderbook"@,
        ),
{
    let mut detail = listing.ticker.clone();
    detail.append(" · closes ");
    detail.append(listing.close_time.as_str());
    let mut source_url = "https://external-api.kalshi.com/trade-api/v2/markets/".to_owned();
    source_url.append(listing.ticker.as_str());
    source_url.append("/orderbook");
    LiveQuote {
        venue: "kalshi".to_owned(),
        label: listing.title.clone(),
        detail,
        bid: book.bid,
        bid_size: book.bid_size,
        ask: book.ask,
        ask_size: book.ask_size,
        source_url,
    }
}

/// The Polymarket token that is shown.
#[derive(Debug)]
pub struct PolymarketListing {
    pub question: String,
    pub token_id: String,
}

/// The place of the first market that has tokens, or the end.
pub open spec fn first_with_tokens(markets: Seq<PolymarketMarket>) -> int
    decreases markets.len(),
{
    if markets.len() == 0 || recorder::has_tokens(markets[0].clob_token_ids@) {
        0
    } else {
        1 + first_with_tokens(markets.drop_first())
    }
}

proof fn lemma_first_with_tokens(markets: Seq<PolymarketMarket>, i: int)
    requires
        0 <= i <= markets.len(),
        forall|j: int|
            0 <= j < i ==> !recorder::has_tokens((#[trigger] markets[j]).clob_token_ids@),
        i < markets.len() ==> recorder::has_tokens(markets[i].clob_token_ids@),
    ensures
        first_with_tokens(markets) == i,
    decreases markets.len(),
{
    if i > 0 {
        let rest = markets.drop_first();
        assert forall|j: int| 0 <= j < i - 1 implies !recorder::has_tokens(
            (#[trigger] rest[j]).clob_token_ids@,
        ) by {
            assert(rest[j] == markets[j + 1]);
        }
        lemma_first_with_tokens(rest, i - 1);
        assert(!recorder::has_tokens(markets[0].clob_token_ids@));
    }
}

/// The first of some token ids, or what is wrong with them.
pub open spec fn first_id(parsed: Result<Seq<Seq<char>>, Seq<char>>) -> Result<
    Seq<char>,
    Seq<char>,
> {
    match parsed {
        Ok(ids) => if ids.len() > 0 {
            Ok(ids[0])
        } else {
            Err("clobTokenIds was empty"@)
        },
        Err(e) => Err("could not parse clobTokenIds: "@ + e),
    }
}

/// The first of the token ids that were parsed, or what is wrong with them.
pub fn first_token(parsed: Result<Vec<String>, String>) -> (r: Result<String, String>)
    ensures
        match first_id(recorder::plain(parsed)) {
            Ok(id) => r matches Ok(same) && same@ == id,
            Err(e) => r matches Err(same) && same@ == e,
        },
{
    match parsed {
        Ok(list) => {
            if list.len() == 0 {
                return Err("clobTokenIds was empty".to_owned());
            }
            Ok(list[0].clone())
        },
        Err(e) => {
            let mut s = "could not parse clobTokenIds: ".to_owned();
            s.append(e.as_str());
            Err(s)
        },
    }
}

/// The Polymarket token to show: the first of the first market that has any.
pub fn polymarket_listing(markets: Option<&Vec<PolymarketMarket>>) -> (r: Result<
    PolymarketListing,
    String,
>)
    ensures
        match markets {
            Some(list) => {
                let at = first_with_tokens(list@);
                if at < list@.len() {
                    let market = list@[at];
                    match first_id(
                        recorder::json_strings(market.clob_token_ids@->Text_0),
                    ) {
                        Ok(id) => r matches Ok(l) && l.token_id@ == id && l.question@ == text_or(
                            market.question@,
                            "Polymarket market"@,
                        ),
                        Err(e) => r matches Err(same) && same@ == e,
                    }
                } else {
                    r matches Err(e) && e@
                        == "no active market with tradeable outcome tokens found"@
                }
            },
            None => r matches Err(e) && e@ == recorder::NO_LIST@,
        },
{
    let list = match markets {
        Some(list) => list,
        None => return Err(recorder::NO_LIST.to_owned()),
    };
    let mut i: usize = 0;
    while i < list.len()
        invariant
            i <= list.len(),
            markets == Some(list),
            forall|j: int|
                0 <= j < i ==> !recorder::has_tokens((#[trigger] list@[j]).clob_token_ids@),
        decreases list.len() - i,
    {
        let market = &list[i];
        match recorder::token_ids(market) {
            Some(json) => {
                proof {
                    lemma_first_with_tokens(list@, i as int);
                }
                let question = field_or(&market.question, "Polymarket market");
                let parsed = recorder::parse_strings(json.as_str());
                return match first_token(parsed) {
                    Ok(token_id) => Ok(PolymarketListing { question, token_id }),
                    Err(e) => Err(e),
                };
            },
            None => {},
        }
        i += 1;
    }
    proof {
        lemma_first_with_tokens(list@, i as int);
    }
    Err("no active market with tradeable outcome tokens found".to_owned())
}

/// How many bytes a character takes in UTF-8.
pub open spec fn width(ch: char) -> nat {
    if (ch as u32) < 0x80 {
        1
    } else if (ch as u32) < 0x800 {
        2
    } else if (ch as u32) < 0x1_0000 {
        3
    } else {
        4
    }
}

/// How many bytes a text takes in UTF-8.
pub open spec fn byte_len(s: Seq<char>) -> nat
    decreases s.len(),
{
    if s.len() == 0 {
        0
    } else {
        byte_len(s.drop_last()) + width(s.last())
    }
}

/// Whether the first `k` characters are the first `bytes` bytes.
pub open spec fn cuts(s: Seq<char>, k: int, bytes: int) -> bool {
    0 <= k <= s.len() && byte_len(s.take(k)) == bytes
}

/// How many bytes the head of a text has: six, or all of it.
pub open spec fn head_bytes(s: Seq<char>) -> int {
    if byte_len(s) < 6 {
        byte_len(s) as int
    } else {
        6
    }
}

/// How many bytes stand before the tail of a text: all but four, or none.
pub open spec fn lead_bytes(s: Seq<char>) -> int {
    if byte_len(s) < 4 {
        0
    } else {
        byte_len(s) - 4
    }
}

/// Whether both cuts fall between characters.
pub open spec fn is_cuttable(s: Seq<char>) -> bool {
    &&& exists|k: int| cuts(s, k, head_bytes(s))
    &&& exists|k: int| cuts(s, k, lead_bytes(s))
}

/// Whether `r` is a text's first six and last four bytes with dots between.
pub open spec fn is_abbreviation(r: Seq<char>, s: Seq<char>) -> bool {
    exists|h: int, t: int| #[trigger]
        cuts(s, h, head_bytes(s)) && #[trigger] cuts(s, t, lead_bytes(s)) && r == "token "@
            + s.take(h) + "…"@ + s.skip(t)
}

fn char_width(ch: char) -> (r: usize)
    ensures
        r == width(ch),
{
    let n: u32 = ch as u32;
    if n < 0x80 {
        1
    } else if n < 0x800 {
        2
    } else if n < 0x1_0000 {
        3
    } else {
        4
    }
}

proof fn lemma_byte_len_grows(s: Seq<char>, i: int, j: int)
    requires
        0 <= i <= j <= s.len(),
    ensures
        byte_len(s.take(i)) + (j - i) <= byte_len(s.take(j)) <= byte_len(s.take(i)) + 4 * (j - i),
    decreases j,
{
    if i < j {
        lemma_byte_len_grows(s, i, j - 1);
        assert(s.take(j).drop_last() =~= s.take(j - 1));
    }
}

fn total_bytes(chars: &Vec<char>) -> (r: u128)
    ensures
        r == byte_len(chars@),
        r <= 4 * chars.len(),
{
    let mut n: u128 = 0;
    let mut i: usize = 0;
    while i < chars.len()
        invariant
            i <= chars.len(),
            n == byte_len(chars@.take(i as int)),
            n <= 4 * i,
        decreases chars.len() - i,
    {
        assert(chars@.take(i + 1).drop_last() =~= chars@.take(i as int));
        n += char_width(chars[i]) as u128;
        i += 1;
    }
    assert(chars@.take(i as int) =~= chars@);
    n
}

fn find_cut(chars: &Vec<char>, bytes: u128) -> (r: Option<usize>)
    requires
        bytes <= byte_len(chars@),
    ensures
        match r {
            Some(k) => cuts(chars@, k as int, bytes as int),
            None => forall|k: int| !cuts(chars@, k, bytes as int),
        },
{
    let mut n: u128 = 0;
    let mut i: usize = 0;
    while i < chars.len() && n < bytes
        invariant
            i <= chars.len(),
            bytes <= byte_len(chars@),
            n == byte_len(chars@.take(i as int)),
            n <= 4 * i,
            forall|k: int| 0 <= k < i ==> byte_len(#[trigger] chars@.take(k)) < bytes,
        decreases chars.len() - i,
    {
        assert(chars@.take(i + 1).drop_last() =~= chars@.take(i as int));
        n += char_width(chars[i]) as u128;
        i += 1;
    }
    if n == bytes {
        return Some(i);
    }
    proof {
        if i == chars.len() && n < bytes {
            assert(chars@.take(i as int) =~= chars@);
        }
        assert forall|k: int| !cuts(chars@, k, bytes as int) by {
            if i <= k <= chars.len() {
                lemma_byte_len_grows(chars@, i as int, k);
            }
        }
    }
    None
}

/// Whether a token can be shown by its first and last bytes: the cuts must fall between
/// characters.
pub fn can_abbreviate(token_id: &str) -> (r: bool)
    ensures
        r == is_cuttable(token_id@),
{
    let chars = text::chars_of(token_id);
    let total: u128 = total_bytes(&chars);
    let head: u128 = if total < 6 {
        total
    } else {
        6
    };
    let lead: u128 = if total < 4 {
        0
    } else {
        total - 4
    };
    assert(head == head_bytes(token_id@) && lead == lead_bytes(token_id@));
    let h = find_cut(&chars, head);
    let t = find_cut(&chars, lead);
    assert(h is Some ==> cuts(token_id@, h->0 as int, head_bytes(token_id@)));
    assert(t is Some ==> cuts(token_id@, t->0 as int, lead_bytes(token_id@)));
    h.is_some() && t.is_some()
}

/// The first and last bytes of a token.
pub fn abbreviate(token_id: &str) -> (r: String)
    requires
        is_cuttable(token_id@),
    ensures
        is_abbreviation(r@, token_id@),
{
    let chars = text::chars_of(token_id);
    let total: u128 = total_bytes(&chars);
    let head: u128 = if total < 6 {
        total
    } else {
        6
    };
    let lead: u128 = if total < 4 {
        0
    } else {
        total - 4
    };
    let mut s = "token ".to_owned();
    match (find_cut(&chars, head), find_cut(&chars, lead)) {
        (Some(h), Some(t)) => {
            s.append(text::piece(chars.as_slice(), 0, h).as_str());
            s.append("…");
            s.append(text::piece(chars.as_slice(), t, chars.len()).as_str());
            assert(chars@.subrange(0, h as int) =~= chars@.take(h as int));
            assert(chars@.subrange(t as int, chars.len() as int) =~= chars@.skip(t as int));
            assert(cuts(token_id@, h as int, head_bytes(token_id@)));
            assert(cuts(token_id@, t as int, lead_bytes(token_id@)));
        },
        _ => {},
    }
    s
}

/// The quote of a Polymarket token.
pub fn polymarket_quote(listing: &PolymarketListing, book: TopOfBook) -> (r: LiveQuote)
    requires
        is_cuttable(listing.token_id@),
    ensures
        is_abbreviation(r.detail@, listing.token_id@),
        shows(
            r,
            "polymarket"@,
            listing.question@,
            r.detail@,
            book,
            "https://clob.polymarket.com/book?token_id="@ + listing.token_id@,
        ),
{
    let mut source_url = "https://clob.polymarket.com/book?token_id=".to_owned();
    source_url.append(listing.token_id.as_str());
    LiveQuote {
        venue: "polymarket".to_owned(),
        label: listing.question.clone(),
        detail: abbreviate(listing.token_id.as_str()),
        bid: book.bid,
        bid_size: book.bid_size,
        ask: book.ask,
        ask_size: book.ask_size,
        source_url,
    }
}

/// A text has one abbreviation at most.
pub proof fn law_abbreviation_is_unique(a: Seq<char>, b: Seq<char>, s: Seq<char>)
    requires
        is_abbreviation(a, s),
        is_abbreviation(b, s),
    ensures
        a == b,
{
    let (h1, t1) = choose|h: int, t: int| #[trigger]
        cuts(s, h, head_bytes(s)) && #[trigger] cuts(s, t, lead_bytes(s)) && a == "token "@
            + s.take(h) + "…"@ + s.skip(t);
    let (h2, t2) = choose|h: int, t: int| #[trigger]
        cuts(s, h, head_bytes(s)) && #[trigger] cuts(s, t, lead_bytes(s)) && b == "token "@
            + s.take(h) + "…"@ + s.skip(t);
    if h1 < h2 {
        lemma_byte_len_grows(s, h1, h2);
    } else {
        lemma_byte_len_grows(s, h2, h1);
    }
    if t1 < t2 {
        lemma_byte_len_grows(s, t1, t2);
    } else {
        lemma_byte_len_grows(s, t2, t1);
    }
}

/// A token of plain ASCII can always be shown.
pub proof fn law_ascii_can_be_shown(s: Seq<char>)
    requires
        forall|i: int| 0 <= i < s.len() ==> (#[trigger] s[i] as u32) < 0x80,
    ensures
        is_cuttable(s),
{
    lemma_ascii_bytes(s, s.len() as int);
    assert(s.take(s.len() as int) =~= s);
    lemma_ascii_bytes(s, head_bytes(s));
    assert(cuts(s, head_bytes(s), head_bytes(s)));
    lemma_ascii_bytes(s, lead_bytes(s));
    assert(cuts(s, lead_bytes(s), lead_bytes(s)));
}

proof fn lemma_ascii_bytes(s: Seq<char>, k: int)
    requires
        forall|i: int| 0 <= i < s.len() ==> (#[trigger] s[i] as u32) < 0x80,
        0 <= k <= s.len(),
    ensures
        byte_len(s.take(k)) == k,
    decreases k,
{
    if k > 0 {
        lemma_ascii_bytes(s, k - 1);
        assert(s.take(k).drop_last() =~= s.take(k - 1));
        assert(s.take(k).last() == s[k - 1]);
    }
}

} // verus!
