//! The trade-side data model: instruments and executed trades.
//!
//! Prices and amounts are fixed-point integers: the caller chooses the scale
//! (for example, hundredths of the quote currency for prices and hundred
//! millionths of the base currency for amounts) and all arithmetic in this
//! crate is exact integer arithmetic in those units. Timestamps are
//! milliseconds since the epoch.

use vstd::prelude::*;

verus! {

/// Kind of market an instrument trades on.
#[derive(Clone, Copy, Debug, PartialEq, Eq, Structural, Hash)]
pub enum MarketType {
    Spot,
    Futures,
    Margin,
    Unknown,
}

/// Taker side of a trade.
#[derive(Clone, Copy, Debug, PartialEq, Eq, Structural, Hash)]
pub enum Side {
    Buy,
    Sell,
    Unknown,
}

/// A traded pair: base and quote currency identifiers.
#[derive(Debug, PartialEq)]
pub struct Pair {
    pub base_id: String,
    pub quote_id: String,
}

/// Immutable identity of an instrument: pair, exchange and market type.
/// The grouping key for trades and candles.
#[derive(Debug, PartialEq)]
pub struct Instrument {
    pub pair: Pair,
    pub exchange: String,
    pub market_type: MarketType,
}

/// One executed trade. Immutable once constructed; the aggregator consumes
/// trades by reference and never mutates them.
#[derive(Debug, PartialEq)]
pub struct Trade {
    pub instrument: Instrument,
    pub id: String,
    pub price: u64,
    pub amount: u64,
    pub side: Side,
    /// Milliseconds since the epoch.
    pub timestamp: u64,
}

/// Mathematical model of a [`Pair`].
pub struct PairModel {
    pub base_id: Seq<char>,
    pub quote_id: Seq<char>,
}

/// Mathematical model of an [`Instrument`].
pub struct InstrumentModel {
    pub pair: PairModel,
    pub exchange: Seq<char>,
    pub market_type: MarketType,
}

/// Mathematical model of a [`Trade`]: unbounded integers and character
/// sequences.
pub struct TradeModel {
    pub instrument: InstrumentModel,
    pub id: Seq<char>,
    pub price: int,
    pub amount: int,
    pub side: Side,
    pub timestamp: int,
}

impl View for Pair {
    type V = PairModel;

    open spec fn view(&self) -> PairModel {
        PairModel { base_id: self.base_id@, quote_id: self.quote_id@ }
    }
}

impl View for Instrument {
    type V = InstrumentModel;

    open spec fn view(&self) -> InstrumentModel {
        InstrumentModel {
            pair: self.pair@,
            exchange: self.exchange@,
            market_type: self.market_type,
        }
    }
}

impl View for Trade {
    type V = TradeModel;

    open spec fn view(&self) -> TradeModel {
        TradeModel {
            instrument: self.instrument@,
            id: self.id@,
            price: self.price as int,
            amount: self.amount as int,
            side: self.side,
            timestamp: self.timestamp as int,
        }
    }
}

/// The models of a sequence of trades.
pub open spec fn trade_views(s: Seq<Trade>) -> Seq<TradeModel> {
    s.map_values(|t: Trade| t@)
}

impl Clone for Pair {
    fn clone(&self) -> (r: Self)
        ensures
            r == *self,
    {
        Pair { base_id: self.base_id.clone(), quote_id: self.quote_id.clone() }
    }
}

impl Clone for Instrument {
    fn clone(&self) -> (r: Self)
        ensures
            r == *self,
    {
        Instrument {
            pair: self.pair.clone(),
            exchange: self.exchange.clone(),
            market_type: self.market_type,
        }
    }
}

impl Clone for Trade {
    fn clone(&self) -> (r: Self)
        ensures
            r == *self,
    {
        Trade {
            instrument: self.instrument.clone(),
            id: self.id.clone(),
            price: self.price,
            amount: self.amount,
            side: self.side,
            timestamp: self.timestamp,
        }
    }
}

impl Side {
    /// Parses the exact variant names used by the row-oriented sources:
    /// `"Buy"` and `"Sell"`; anything else is [`Side::Unknown`].
    pub fn from_name(s: &str) -> (r: Side)
        ensures
            r == spec_side_from_name(s@),
    {
        if crate::text::str_eq(s, "Buy") {
            Side::Buy
        } else if crate::text::str_eq(s, "Sell") {
            Side::Sell
        } else {
            Side::Unknown
        }
    }
}

/// What [`side_from_text`] returns for a given character sequence.
pub open spec fn side_of_text(s: Seq<char>) -> Side {
    if crate::text::eq_ignore_ascii_case(s, "buy"@) {
        Side::Buy
    } else if crate::text::eq_ignore_ascii_case(s, "sell"@) {
        Side::Sell
    } else {
        Side::Unknown
    }
}

/// Parses a trade side leniently, ignoring letter case: `buy` and `sell` in
/// any case; anything else is [`Side::Unknown`].
pub fn side_from_text(s: &str) -> (r: Side)
    ensures
        r == side_of_text(s@),
{
    if crate::text::str_eq_ignore_ascii_case(s, "buy") {
        Side::Buy
    } else if crate::text::str_eq_ignore_ascii_case(s, "sell") {
        Side::Sell
    } else {
        Side::Unknown
    }
}

/// What [`Side::from_name`] returns for a given character sequence.
pub open spec fn spec_side_from_name(s: Seq<char>) -> Side {
    if s == "Buy"@ {
        Side::Buy
    } else if s == "Sell"@ {
        Side::Sell
    } else {
        Side::Unknown
    }
}

impl MarketType {
    /// Parses the exact variant names used by the row-oriented sources:
    /// `"Spot"`, `"Futures"` and `"Margin"`; anything else is
    /// [`MarketType::Unknown`].
    pub fn from_name(s: &str) -> (r: MarketType)
        ensures
            r == spec_market_type_from_name(s@),
    {
        if crate::text::str_eq(s, "Spot") {
            MarketType::Spot
        } else if crate::text::str_eq(s, "Futures") {
            MarketType::Futures
        } else if crate::text::str_eq(s, "Margin") {
            MarketType::Margin
        } else {
            MarketType::Unknown
        }
    }
}

/// What [`MarketType::from_name`] returns for a given character sequence.
pub open spec fn spec_market_type_from_name(s: Seq<char>) -> MarketType {
    if s == "Spot"@ {
        MarketType::Spot
    } else if s == "Futures"@ {
        MarketType::Futures
    } else if s == "Margin"@ {
        MarketType::Margin
    } else {
        MarketType::Unknown
    }
}

} // verus!
