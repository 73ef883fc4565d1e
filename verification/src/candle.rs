//! The candle data model: one OHLCV summary per instrument, timeframe and
//! period, together with its mathematical model and the sums that the
//! aggregators' contracts are stated over.

use vstd::prelude::*;

use crate::model::Instrument;
use crate::model::InstrumentModel;
use crate::timeframe::Timeframe;

verus! {

/// OHLCV summary of the trading activity of one instrument over one period
/// of one timeframe. Produced once per aggregation run and immutable.
#[derive(Debug, PartialEq)]
pub struct Candle {
    pub instrument: Instrument,
    pub interval: Timeframe,
    /// Period start, in milliseconds since the epoch.
    pub timestamp: u64,
    pub open: u64,
    pub high: u64,
    pub low: u64,
    pub close: u64,
    /// Sum of the trade amounts of the period.
    pub volume: u64,
    /// Number of trades of the period.
    pub trade_count: u64,
    /// Sum of price times amount over the period's trades, present when
    /// every constituent is priced in the USDT-equivalent quote.
    pub volume_usdt: Option<u128>,
    /// Extension values; the aggregators leave this empty.
    pub custom: Vec<(String, String)>,
}

/// Mathematical model of a [`Candle`]: unbounded integers.
pub struct CandleModel {
    pub instrument: InstrumentModel,
    pub interval: Timeframe,
    pub timestamp: int,
    pub open: int,
    pub high: int,
    pub low: int,
    pub close: int,
    pub volume: int,
    pub trade_count: int,
    pub volume_usdt: Option<int>,
    pub custom: Seq<(Seq<char>, Seq<char>)>,
}

impl View for Candle {
    type V = CandleModel;

    open spec fn view(&self) -> CandleModel {
        CandleModel {
            instrument: self.instrument@,
            interval: self.interval,
            timestamp: self.timestamp as int,
            open: self.open as int,
            high: self.high as int,
            low: self.low as int,
            close: self.close as int,
            volume: self.volume as int,
            trade_count: self.trade_count as int,
            volume_usdt: match self.volume_usdt {
                Some(v) => Some(v as int),
                None => None,
            },
            custom: self.custom@.map_values(|p: (String, String)| (p.0@, p.1@)),
        }
    }
}

/// The models of a sequence of candles.
pub open spec fn candle_views(s: Seq<Candle>) -> Seq<CandleModel> {
    s.map_values(|c: Candle| c@)
}

impl Clone for Candle {
    fn clone(&self) -> (r: Self)
        ensures
            r@ == self@,
    {
        let mut custom: Vec<(String, String)> = Vec::new();
        let mut i: usize = 0;
        while i < self.custom.len()
            invariant
                i <= self.custom.len(),
                custom@ =~= self.custom@.take(i as int),
            decreases self.custom.len() - i,
        {
            let pair = (self.custom[i].0.clone(), self.custom[i].1.clone());
            custom.push(pair);
            i = i + 1;
        }
        proof {
            assert(custom@ =~= self.custom@);
            assert(custom@.map_values(|p: (String, String)| (p.0@, p.1@)) =~= self.custom@
                .map_values(|p: (String, String)| (p.0@, p.1@)));
        }
        Candle {
            instrument: self.instrument.clone(),
            interval: self.interval,
            timestamp: self.timestamp,
            open: self.open,
            high: self.high,
            low: self.low,
            close: self.close,
            volume: self.volume,
            trade_count: self.trade_count,
            volume_usdt: self.volume_usdt,
            custom,
        }
    }
}

/// A candle built from at least one trade or source candle is well formed:
/// its extremes bound its open and close, and its counts and sums are
/// non-negative.
pub open spec fn candle_well_formed(c: CandleModel) -> bool {
    &&& c.low <= c.open <= c.high
    &&& c.low <= c.close <= c.high
    &&& c.volume >= 0
    &&& c.trade_count >= 1
    &&& match c.volume_usdt {
        Some(v) => v >= 0,
        None => true,
    }
    &&& c.timestamp >= 0
}

/// Sum of the volumes of a candle sequence.
pub open spec fn sum_volume(s: Seq<CandleModel>) -> int
    decreases s.len(),
{
    if s.len() == 0 {
        0
    } else {
        sum_volume(s.drop_last()) + s.last().volume
    }
}

/// Sum of the trade counts of a candle sequence.
pub open spec fn sum_trade_count(s: Seq<CandleModel>) -> int
    decreases s.len(),
{
    if s.len() == 0 {
        0
    } else {
        sum_trade_count(s.drop_last()) + s.last().trade_count
    }
}

/// Sum of the present `volume_usdt` values of a candle sequence; absent
/// values contribute nothing.
pub open spec fn sum_volume_usdt(s: Seq<CandleModel>) -> int
    decreases s.len(),
{
    if s.len() == 0 {
        0
    } else {
        sum_volume_usdt(s.drop_last()) + match s.last().volume_usdt {
            Some(v) => v,
            None => 0,
        }
    }
}

/// Whether every candle of the sequence carries a `volume_usdt`.
pub open spec fn all_have_usdt(s: Seq<CandleModel>) -> bool {
    forall|i: int| 0 <= i < s.len() ==> s[i].volume_usdt is Some
}

/// Whether every candle of the sequence is well formed.
pub open spec fn all_well_formed(s: Seq<CandleModel>) -> bool {
    forall|i: int| 0 <= i < s.len() ==> candle_well_formed(#[trigger] s[i])
}

/// A prefix of a sequence of well-formed candles keeps every sum below the
/// sum over the whole sequence, since every contribution is non-negative.
pub proof fn lemma_sums_monotonic(s: Seq<CandleModel>, n: int)
    requires
        all_well_formed(s),
        0 <= n <= s.len(),
    ensures
        sum_volume(s.take(n)) <= sum_volume(s),
        sum_trade_count(s.take(n)) <= sum_trade_count(s),
        sum_volume_usdt(s.take(n)) <= sum_volume_usdt(s),
        sum_volume(s.take(n)) >= 0,
        sum_trade_count(s.take(n)) >= 0,
        sum_volume_usdt(s.take(n)) >= 0,
    decreases s.len(),
{
    if s.len() > 0 {
        if n == s.len() {
            assert(s.take(n) =~= s);
            lemma_sums_monotonic(s.drop_last(), n - 1);
        } else {
            assert(s.drop_last().take(n) =~= s.take(n));
            lemma_sums_monotonic(s.drop_last(), n);
        }
    }
}

} // verus!
