//! The base aggregator: folds a trade sequence, ordered by timestamp, into
//! one candle per populated time bucket of a single timeframe.

use vstd::prelude::*;

use crate::candle::all_well_formed;
use crate::candle::candle_views;
use crate::candle::candle_well_formed;
use crate::candle::sum_trade_count;
use crate::candle::sum_volume;
use crate::candle::sum_volume_usdt;
use crate::candle::Candle;
use crate::candle::CandleModel;
use crate::model::trade_views;
use crate::model::Trade;
use crate::model::TradeModel;
use crate::timeframe::spec_duration_ms;
use crate::timeframe::Timeframe;

verus! {

/// Start of the bucket holding instant `ts`: the largest multiple of `dur`
/// that is at most `ts`.
pub open spec fn bucket_start_of(ts: int, dur: int) -> int
    recommends
        dur > 0,
{
    ts - ts % dur
}

/// The bucket a trade falls into at the given timeframe.
pub open spec fn trade_bucket(t: TradeModel, tf: Timeframe) -> int {
    bucket_start_of(t.timestamp, spec_duration_ms(tf))
}

/// Whether a quote currency counts as USDT-equivalent for the purpose of
/// `volume_usdt`.
pub open spec fn usdt_equivalent(quote_id: Seq<char>) -> bool {
    quote_id == "USDT"@
}

/// Whether a trade is priced in a USDT-equivalent quote.
pub open spec fn trade_usdt_quoted(t: TradeModel) -> bool {
    usdt_equivalent(t.instrument.pair.quote_id)
}

/// Price times amount of one trade.
pub open spec fn trade_quote_volume(t: TradeModel) -> int {
    t.price * t.amount
}

/// Sum of the amounts of a trade sequence.
pub open spec fn sum_amount(s: Seq<TradeModel>) -> int
    decreases s.len(),
{
    if s.len() == 0 {
        0
    } else {
        sum_amount(s.drop_last()) + s.last().amount
    }
}

/// Sum of price times amount over the USDT-quoted trades of a sequence.
pub open spec fn sum_quote_volume(s: Seq<TradeModel>) -> int
    decreases s.len(),
{
    if s.len() == 0 {
        0
    } else {
        sum_quote_volume(s.drop_last()) + if trade_usdt_quoted(s.last()) {
            trade_quote_volume(s.last())
        } else {
            0
        }
    }
}

/// Machine limits on a trade sequence: the aggregate sums must fit the
/// candle fields they are accumulated in.
pub open spec fn base_input_fits(s: Seq<TradeModel>) -> bool {
    &&& sum_amount(s) <= u64::MAX
    &&& sum_quote_volume(s) <= u128::MAX
}

/// The candle a single trade opens.
pub open spec fn candle_of_trade(t: TradeModel, tf: Timeframe) -> CandleModel {
    CandleModel {
        instrument: t.instrument,
        interval: tf,
        timestamp: trade_bucket(t, tf),
        open: t.price,
        high: t.price,
        low: t.price,
        close: t.price,
        volume: t.amount,
        trade_count: 1,
        volume_usdt: if trade_usdt_quoted(t) {
            Some(trade_quote_volume(t))
        } else {
            None
        },
        custom: Seq::empty(),
    }
}

/// The candle `c` extended by one further trade of the same bucket.
pub open spec fn merge_trade(c: CandleModel, t: TradeModel) -> CandleModel {
    CandleModel {
        instrument: c.instrument,
        interval: c.interval,
        timestamp: c.timestamp,
        open: c.open,
        high: vstd::math::max(c.high, t.price),
        low: vstd::math::min(c.low, t.price),
        close: t.price,
        volume: c.volume + t.amount,
        trade_count: c.trade_count + 1,
        volume_usdt: match c.volume_usdt {
            Some(v) => if trade_usdt_quoted(t) {
                Some(v + trade_quote_volume(t))
            } else {
                None
            },
            None => None,
        },
        custom: c.custom,
    }
}

/// One step of the fold: a trade either extends the most recent candle, when
/// it falls into that candle's bucket, or opens a new one.
pub open spec fn base_step(acc: Seq<CandleModel>, t: TradeModel, tf: Timeframe) -> Seq<
    CandleModel,
> {
    if acc.len() > 0 && trade_bucket(t, tf) == acc.last().timestamp {
        acc.update(acc.len() - 1, merge_trade(acc.last(), t))
    } else {
        acc.push(candle_of_trade(t, tf))
    }
}

/// The candles of a trade sequence at one timeframe: the fold of
/// [`base_step`] over the trades in order.
pub open spec fn base_candles(trades: Seq<TradeModel>, tf: Timeframe) -> Seq<CandleModel>
    decreases trades.len(),
{
    if trades.len() == 0 {
        Seq::empty()
    } else {
        base_step(base_candles(trades.drop_last(), tf), trades.last(), tf)
    }
}

/// A trade whose numeric fields carry values of the executable
/// representation: non-negative and bounded.
pub open spec fn trade_in_range(t: TradeModel) -> bool {
    &&& 0 <= t.price <= u64::MAX
    &&& 0 <= t.amount <= u64::MAX
    &&& 0 <= t.timestamp <= u64::MAX
}

/// Trades whose numeric fields carry values of the executable
/// representation: non-negative and bounded.
pub open spec fn trades_in_range(s: Seq<TradeModel>) -> bool {
    forall|i: int| 0 <= i < s.len() ==> trade_in_range(#[trigger] s[i])
}

/// The models of the trades of a `Vec` are in range.
pub proof fn lemma_trade_views_in_range(trades: Seq<Trade>)
    ensures
        trades_in_range(trade_views(trades)),
{
}

/// A prefix of a trade sequence with non-negative fields keeps every sum
/// below the sum over the whole sequence.
pub proof fn lemma_trade_sums_monotonic(s: Seq<TradeModel>, n: int)
    requires
        trades_in_range(s),
        0 <= n <= s.len(),
    ensures
        sum_amount(s.take(n)) <= sum_amount(s),
        sum_quote_volume(s.take(n)) <= sum_quote_volume(s),
        sum_amount(s.take(n)) >= 0,
        sum_quote_volume(s.take(n)) >= 0,
    decreases s.len(),
{
    if s.len() > 0 {
        assert(trades_in_range(s.drop_last())) by {
            assert(forall|i: int|
                0 <= i < s.len() - 1 ==> #[trigger] s.drop_last()[i] == s[i]);
        }
        assert(trade_in_range(s.last()));
        vstd::arithmetic::mul::lemma_mul_nonnegative(s.last().price, s.last().amount);
        if n == s.len() {
            assert(s.take(n) =~= s);
            assert(s.drop_last().take(s.len() - 1) =~= s.drop_last());
            lemma_trade_sums_monotonic(s.drop_last(), s.len() - 1);
        } else {
            assert(s.drop_last().take(n) =~= s.take(n));
            lemma_trade_sums_monotonic(s.drop_last(), n);
        }
    }
}

/// Structural facts of the base fold, all proved in one induction: every
/// output candle is well formed; the output is empty only for empty input;
/// volume and trade count are conserved exactly; the USDT volume never
/// exceeds the quote volume of the input; and the most recent candle sits in
/// the bucket of the most recent trade.
pub proof fn lemma_base_candles_props(s: Seq<TradeModel>, tf: Timeframe)
    requires
        trades_in_range(s),
    ensures
        all_well_formed(base_candles(s, tf)),
        base_candles(s, tf).len() <= s.len(),
        (base_candles(s, tf).len() == 0) == (s.len() == 0),
        sum_volume(base_candles(s, tf)) == sum_amount(s),
        sum_trade_count(base_candles(s, tf)) == s.len(),
        sum_volume_usdt(base_candles(s, tf)) <= sum_quote_volume(s),
        s.len() > 0 ==> base_candles(s, tf).last().timestamp == trade_bucket(s.last(), tf),
        forall|i: int|
            0 <= i < base_candles(s, tf).len() ==> #[trigger] base_candles(s, tf)[i].interval
                == tf,
    decreases s.len(),
{
    if s.len() > 0 {
        let s0 = s.drop_last();
        let t = s.last();
        let acc = base_candles(s0, tf);
        let out = base_candles(s, tf);
        lemma_base_candles_props(s0, tf);
        proof_trade_parts_nonneg(t, tf);
        if acc.len() > 0 && trade_bucket(t, tf) == acc.last().timestamp {
            let merged = merge_trade(acc.last(), t);
            assert(candle_well_formed(acc.last()));
            assert(candle_well_formed(merged));
            assert(out =~= acc.update(acc.len() - 1, merged));
            assert(out.drop_last() =~= acc.drop_last());
            assert(out.last() == merged);
        } else {
            assert(out =~= acc.push(candle_of_trade(t, tf)));
            assert(out.drop_last() =~= acc);
            assert(candle_well_formed(candle_of_trade(t, tf)));
        }
    }
}

/// Non-negativity of the pieces a trade contributes to a candle.
proof fn proof_trade_parts_nonneg(t: TradeModel, tf: Timeframe)
    requires
        0 <= t.price,
        0 <= t.amount,
        0 <= t.timestamp,
    ensures
        trade_quote_volume(t) >= 0,
        trade_bucket(t, tf) >= 0,
        trade_bucket(t, tf) <= t.timestamp,
{
    vstd::arithmetic::mul::lemma_mul_nonnegative(t.price, t.amount);
    let dur = spec_duration_ms(tf);
    vstd::arithmetic::div_mod::lemma_mod_bound(t.timestamp, dur);
    vstd::arithmetic::div_mod::lemma_mod_decreases(t.timestamp as nat, dur as nat);
}

/// Volume conservation: the volumes of the base candles sum to exactly the
/// amounts of the input trades.
pub proof fn lemma_volume_conserved(trades: Seq<TradeModel>, tf: Timeframe)
    requires
        trades_in_range(trades),
    ensures
        sum_volume(base_candles(trades, tf)) == sum_amount(trades),
{
    lemma_base_candles_props(trades, tf);
}

/// Idempotence: aggregating the same trade sequence at the same timeframe
/// twice yields identical candle sequences; the result is a function of the
/// input alone.
pub proof fn lemma_base_aggregation_deterministic(
    r1: Seq<CandleModel>,
    r2: Seq<CandleModel>,
    trades: Seq<TradeModel>,
    tf: Timeframe,
)
    requires
        r1 == base_candles(trades, tf),
        r2 == base_candles(trades, tf),
    ensures
        r1 == r2,
{
}

/// Buckets respect the order of timestamps.
pub proof fn lemma_bucket_monotonic(x: int, y: int, dur: int)
    requires
        0 <= x <= y,
        dur > 0,
    ensures
        bucket_start_of(x, dur) <= bucket_start_of(y, dur),
{
    vstd::arithmetic::div_mod::lemma_fundamental_div_mod(x, dur);
    vstd::arithmetic::div_mod::lemma_fundamental_div_mod(y, dur);
    vstd::arithmetic::div_mod::lemma_div_is_ordered(x, y, dur);
    vstd::arithmetic::mul::lemma_mul_inequality(x / dur, y / dur, dur);
    assert(x - x % dur == dur * (x / dur));
    assert(y - y % dur == dur * (y / dur));
    assert(dur * (x / dur) == (x / dur) * dur) by {
        vstd::arithmetic::mul::lemma_mul_is_commutative(dur, x / dur);
    }
    assert(dur * (y / dur) == (y / dur) * dur) by {
        vstd::arithmetic::mul::lemma_mul_is_commutative(dur, y / dur);
    }
}

/// Whether a trade sequence is sorted ascending by timestamp.
pub open spec fn sorted_by_timestamp(s: Seq<TradeModel>) -> bool {
    forall|i: int, j: int| 0 <= i < j < s.len() ==> #[trigger] s[i].timestamp <= #[trigger] s[j].timestamp
}

/// For trades sorted ascending by timestamp, the base fold emits candles
/// with strictly increasing bucket timestamps: ascending and free of
/// duplicates.
pub proof fn lemma_base_candles_ascending(s: Seq<TradeModel>, tf: Timeframe)
    requires
        trades_in_range(s),
        sorted_by_timestamp(s),
    ensures
        forall|i: int, j: int|
            0 <= i < j < base_candles(s, tf).len() ==> #[trigger] base_candles(s, tf)[i].timestamp
                < #[trigger] base_candles(s, tf)[j].timestamp,
    decreases s.len(),
{
    if s.len() > 0 {
        let s0 = s.drop_last();
        let t = s.last();
        let acc = base_candles(s0, tf);
        let out = base_candles(s, tf);
        lemma_base_candles_ascending(s0, tf);
        lemma_base_candles_props(s0, tf);
        lemma_base_candles_props(s, tf);
        if acc.len() > 0 && trade_bucket(t, tf) == acc.last().timestamp {
            assert(out =~= acc.update(acc.len() - 1, merge_trade(acc.last(), t)));
            assert(forall|i: int|
                0 <= i < out.len() ==> #[trigger] out[i].timestamp == acc[i].timestamp);
        } else {
            assert(out =~= acc.push(candle_of_trade(t, tf)));
            if acc.len() > 0 {
                assert(s0.len() > 0);
                assert(acc.last().timestamp == trade_bucket(s0.last(), tf));
                assert(s0.last() == s[s.len() - 2]);
                assert(s0.last().timestamp <= t.timestamp);
                lemma_bucket_monotonic(s0.last().timestamp, t.timestamp, spec_duration_ms(tf));
                assert(acc.last().timestamp <= trade_bucket(t, tf));
                assert(acc.last().timestamp < trade_bucket(t, tf));
                assert(forall|i: int|
                    0 <= i < acc.len() - 1 ==> #[trigger] acc[i].timestamp
                        < acc[acc.len() - 1].timestamp);
            }
        }
    }
}

/// Decides [`base_input_fits`]: whether the aggregate sums of a trade
/// sequence fit the candle fields they would be accumulated in. Callers that
/// cannot establish the aggregation entry points' precondition statically
/// test it with this function first.
pub fn input_fits(trades: &Vec<Trade>) -> (r: bool)
    ensures
        r == base_input_fits(trade_views(trades@)),
{
    let ghost tv = trade_views(trades@);
    let mut amounts: u128 = 0;
    let mut quotes: u128 = 0;
    let mut i: usize = 0;
    proof {
        assert(tv.take(0) =~= Seq::<TradeModel>::empty());
    }
    while i < trades.len()
        invariant
            i <= trades.len(),
            tv == trade_views(trades@),
            trades_in_range(tv),
            amounts == sum_amount(tv.take(i as int)),
            quotes == sum_quote_volume(tv.take(i as int)),
        decreases trades.len() - i,
    {
        let ghost pre = tv.take(i as int);
        let ghost pre1 = tv.take(i as int + 1);
        proof {
            assert(pre1.drop_last() =~= pre);
            assert(pre1.last() == tv[i as int]);
            lemma_trade_sums_monotonic(tv, i as int + 1);
            assert(tv.take(trades@.len() as int) =~= tv);
        }
        let t = &trades[i];
        match amounts.checked_add(t.amount as u128) {
            Some(a) => {
                amounts = a;
            },
            None => {
                return false;
            },
        };
        if crate::text::str_eq(t.instrument.pair.quote_id.as_str(), "USDT") {
            proof {
                vstd::arithmetic::mul::lemma_mul_upper_bound(
                    t@.price,
                    u64::MAX as int,
                    t@.amount,
                    u64::MAX as int,
                );
            }
            let q = (t.price as u128) * (t.amount as u128);
            match quotes.checked_add(q) {
                Some(s) => {
                    quotes = s;
                },
                None => {
                    return false;
                },
            };
        }
        i = i + 1;
    }
    proof {
        assert(tv.take(trades@.len() as int) =~= tv);
    }
    amounts <= u64::MAX as u128
}

/// The trades of `s` that fall into the bucket starting at `b`, in order.
pub open spec fn bucket_trades(s: Seq<TradeModel>, tf: Timeframe, b: int) -> Seq<TradeModel>
    decreases s.len(),
{
    if s.len() == 0 {
        Seq::empty()
    } else {
        let rest = bucket_trades(s.drop_last(), tf, b);
        if trade_bucket(s.last(), tf) == b {
            rest.push(s.last())
        } else {
            rest
        }
    }
}

/// Largest price of a non-empty trade sequence.
pub open spec fn max_price(g: Seq<TradeModel>) -> int
    recommends
        g.len() > 0,
    decreases g.len(),
{
    if g.len() <= 1 {
        g[0].price
    } else {
        vstd::math::max(max_price(g.drop_last()), g.last().price)
    }
}

/// Smallest price of a non-empty trade sequence.
pub open spec fn min_price(g: Seq<TradeModel>) -> int
    recommends
        g.len() > 0,
    decreases g.len(),
{
    if g.len() <= 1 {
        g[0].price
    } else {
        vstd::math::min(min_price(g.drop_last()), g.last().price)
    }
}

/// Whether every trade of the sequence is USDT-quoted.
pub open spec fn all_usdt_quoted(g: Seq<TradeModel>) -> bool {
    forall|i: int| 0 <= i < g.len() ==> trade_usdt_quoted(#[trigger] g[i])
}

/// Sum of price times amount over every trade of the sequence.
pub open spec fn sum_quote_volume_all(g: Seq<TradeModel>) -> int
    decreases g.len(),
{
    if g.len() == 0 {
        0
    } else {
        sum_quote_volume_all(g.drop_last()) + trade_quote_volume(g.last())
    }
}

/// Whether the candle is exactly the summary of its own bucket's trades
/// within `s`: it opens at the bucket's first trade price, closes at its
/// last, spans the price extremes, sums the amounts, counts the trades,
/// carries the first trade's instrument, and has a USDT volume exactly when
/// every trade of the bucket is USDT-quoted.
pub open spec fn summarizes_bucket(c: CandleModel, s: Seq<TradeModel>, tf: Timeframe) -> bool {
    let g = bucket_trades(s, tf, c.timestamp);
    &&& g.len() > 0
    &&& c.open == g[0].price
    &&& c.close == g.last().price
    &&& c.high == max_price(g)
    &&& c.low == min_price(g)
    &&& c.volume == sum_amount(g)
    &&& c.trade_count == g.len()
    &&& c.volume_usdt == (if all_usdt_quoted(g) {
        Some(sum_quote_volume_all(g))
    } else {
        None
    })
    &&& c.instrument == g[0].instrument
    &&& c.interval == tf
}

/// A sequence none of whose trades fall into bucket `b` contributes nothing
/// to it.
proof fn lemma_bucket_trades_empty(s: Seq<TradeModel>, tf: Timeframe, b: int)
    requires
        forall|x: int| 0 <= x < s.len() ==> trade_bucket(#[trigger] s[x], tf) != b,
    ensures
        bucket_trades(s, tf, b) =~= Seq::<TradeModel>::empty(),
    decreases s.len(),
{
    if s.len() > 0 {
        assert(forall|x: int| 0 <= x < s.len() - 1 ==> #[trigger] s.drop_last()[x] == s[x]);
        lemma_bucket_trades_empty(s.drop_last(), tf, b);
    }
}

/// Facts about a one-trade sequence.
proof fn lemma_trade_singleton(t: TradeModel)
    ensures
        sum_amount(seq![t]) == t.amount,
        sum_quote_volume_all(seq![t]) == trade_quote_volume(t),
        max_price(seq![t]) == t.price,
        min_price(seq![t]) == t.price,
        all_usdt_quoted(seq![t]) == trade_usdt_quoted(t),
{
    let e = Seq::<TradeModel>::empty();
    assert(sum_amount(e) == 0);
    assert(sum_quote_volume_all(e) == 0);
    assert(seq![t].last() == t);
    assert(seq![t][0] == t);
    assert((seq![t]).drop_last() =~= e);
    if trade_usdt_quoted(t) {
        assert(all_usdt_quoted(seq![t]));
    } else {
        assert(!all_usdt_quoted(seq![t]));
    }
}

/// The declarative reading of the base fold: for trades sorted ascending by
/// timestamp, every emitted candle summarizes exactly the trades of its own
/// bucket.
pub proof fn lemma_base_candles_summarize(s: Seq<TradeModel>, tf: Timeframe)
    requires
        trades_in_range(s),
        sorted_by_timestamp(s),
    ensures
        forall|j: int|
            0 <= j < base_candles(s, tf).len() ==> summarizes_bucket(
                #[trigger] base_candles(s, tf)[j],
                s,
                tf,
            ),
    decreases s.len(),
{
    if s.len() > 0 {
        let s0 = s.drop_last();
        let t = s.last();
        let acc = base_candles(s0, tf);
        let out = base_candles(s, tf);
        assert(forall|x: int| 0 <= x < s.len() - 1 ==> #[trigger] s0[x] == s[x]);
        assert(trades_in_range(s0));
        assert(sorted_by_timestamp(s0));
        lemma_base_candles_summarize(s0, tf);
        lemma_base_candles_props(s0, tf);
        lemma_base_candles_ascending(s0, tf);
        proof_trade_parts_nonneg(t, tf);
        // Buckets of the earlier trades never exceed the new trade's bucket.
        assert forall|x: int| 0 <= x < s0.len() implies trade_bucket(#[trigger] s0[x], tf)
            <= trade_bucket(t, tf) by {
            assert(s0[x].timestamp <= t.timestamp);
            lemma_bucket_monotonic(s0[x].timestamp, t.timestamp, spec_duration_ms(tf));
        }
        if acc.len() > 0 && trade_bucket(t, tf) == acc.last().timestamp {
            let b = acc.last().timestamp;
            let merged = merge_trade(acc.last(), t);
            let g = bucket_trades(s0, tf, b);
            let g1 = bucket_trades(s, tf, b);
            assert(summarizes_bucket(acc.last(), s0, tf));
            assert(g1 =~= g.push(t));
            assert(g1.drop_last() =~= g);
            assert(g1.last() == t);
            assert(g1[0] == g[0]);
            assert(max_price(g1) == vstd::math::max(max_price(g), t.price));
            assert(min_price(g1) == vstd::math::min(min_price(g), t.price));
            assert(sum_amount(g1) == sum_amount(g) + t.amount);
            assert(sum_quote_volume_all(g1) == sum_quote_volume_all(g) + trade_quote_volume(t));
            if all_usdt_quoted(g) && trade_usdt_quoted(t) {
                assert forall|x: int| 0 <= x < g1.len() implies trade_usdt_quoted(
                    #[trigger] g1[x],
                ) by {
                    if x < g.len() {
                        assert(g1[x] == g[x]);
                    }
                }
                assert(all_usdt_quoted(g1));
            } else {
                if !all_usdt_quoted(g) {
                    let x = choose|x: int|
                        0 <= x < g.len() && !trade_usdt_quoted(#[trigger] g[x]);
                    assert(g1[x] == g[x]);
                    assert(!all_usdt_quoted(g1));
                } else {
                    assert(!all_usdt_quoted(g1));
                }
            }
            assert(merged.timestamp == b);
            assert(summarizes_bucket(merged, s, tf));
            // Earlier candles sit in strictly earlier buckets, which the new
            // trade does not touch.
            assert forall|j: int| 0 <= j < out.len() implies summarizes_bucket(
                #[trigger] out[j],
                s,
                tf,
            ) by {
                assert(out =~= acc.update(acc.len() - 1, merged));
                if j < out.len() - 1 {
                    assert(out[j] == acc[j]);
                    assert(acc[j].timestamp < b);
                    assert(bucket_trades(s, tf, acc[j].timestamp) =~= bucket_trades(
                        s0,
                        tf,
                        acc[j].timestamp,
                    ));
                    assert(summarizes_bucket(acc[j], s0, tf));
                } else {
                    assert(out[j] == merged);
                }
            }
        } else {
            let b = trade_bucket(t, tf);
            let opened = candle_of_trade(t, tf);
            // No earlier trade falls into the new bucket.
            assert forall|x: int| 0 <= x < s0.len() implies trade_bucket(#[trigger] s0[x], tf)
                != b by {
                if s0.len() > 0 {
                    assert(acc.last().timestamp == trade_bucket(s0.last(), tf));
                    assert(s0[x].timestamp <= s0.last().timestamp);
                    lemma_bucket_monotonic(
                        s0[x].timestamp,
                        s0.last().timestamp,
                        spec_duration_ms(tf),
                    );
                    assert(trade_bucket(s0[x], tf) <= acc.last().timestamp);
                    assert(acc.last().timestamp < b);
                }
            }
            lemma_bucket_trades_empty(s0, tf, b);
            let g1 = bucket_trades(s, tf, b);
            assert(g1 =~= seq![t]);
            lemma_trade_singleton(t);
            assert(g1[0] == t);
            assert(g1.last() == t);
            assert(max_price(g1) == t.price) by {
                assert(g1 == seq![t]);
            }
            assert(summarizes_bucket(opened, s, tf));
            assert forall|j: int| 0 <= j < out.len() implies summarizes_bucket(
                #[trigger] out[j],
                s,
                tf,
            ) by {
                assert(out =~= acc.push(opened));
                if j < out.len() - 1 {
                    assert(out[j] == acc[j]);
                    assert(summarizes_bucket(acc[j], s0, tf));
                    assert(acc[j].timestamp <= acc.last().timestamp);
                    assert(acc[j].timestamp < b);
                    assert(bucket_trades(s, tf, acc[j].timestamp) =~= bucket_trades(
                        s0,
                        tf,
                        acc[j].timestamp,
                    ));
                } else {
                    assert(out[j] == opened);
                }
            }
        }
    }
}

/// The aggregation engine. Stateless: both aggregation entry points are
/// pure functions of their inputs.
pub struct CandleGenerator {}

impl Default for CandleGenerator {
    fn default() -> (r: Self)
        ensures
            r == (CandleGenerator {  }),
    {
        CandleGenerator {  }
    }
}

impl CandleGenerator {
    /// Folds a trade sequence into base-timeframe candles, one per populated
    /// bucket, in input order. Callers supply trades sorted ascending by
    /// timestamp and sharing one instrument; the aggregator neither re-sorts
    /// nor validates.
    pub fn aggregate(&self, trades: &Vec<Trade>, timeframe: Timeframe) -> (r: Vec<Candle>)
        requires
            base_input_fits(trade_views(trades@)),
        ensures
            candle_views(r@) == base_candles(trade_views(trades@), timeframe),
    {
        let ghost tv = trade_views(trades@);
        let duration = timeframe.duration_ms();
        let mut out: Vec<Candle> = Vec::new();
        let mut i: usize = 0;
        while i < trades.len()
            invariant
                i <= trades.len(),
                tv == trade_views(trades@),
                trades_in_range(tv),
                base_input_fits(tv),
                duration == spec_duration_ms(timeframe),
                candle_views(out@) =~= base_candles(tv.take(i as int), timeframe),
            decreases trades.len() - i,
        {
            let ghost prefix = tv.take(i as int);
            let ghost prefix1 = tv.take(i as int + 1);
            let ghost acc = base_candles(prefix, timeframe);
            proof {
                assert(prefix1.drop_last() =~= prefix);
                assert(prefix1.last() == tv[i as int]);
                lemma_base_candles_props(prefix, timeframe);
                lemma_trade_sums_monotonic(tv, i as int);
                lemma_trade_sums_monotonic(tv, i as int + 1);
                proof_trade_parts_nonneg(tv[i as int], timeframe);
            }
            let t = &trades[i];
            let bucket = t.timestamp - t.timestamp % duration;
            let usdt = crate::text::str_eq(t.instrument.pair.quote_id.as_str(), "USDT");
            let merge_last = out.len() > 0 && {
                let last_ts = out[out.len() - 1].timestamp;
                last_ts == bucket
            };
            if merge_last {
                let c = out.pop().unwrap();
                proof {
                    assert(c@ == acc.last());
                    assert(candle_well_formed(acc.last()));
                    lemma_sums_last_bounds(acc);
                    assert(c@.volume + t@.amount <= sum_amount(prefix1) <= u64::MAX);
                }
                let high = if t.price > c.high {
                    t.price
                } else {
                    c.high
                };
                let low = if t.price < c.low {
                    t.price
                } else {
                    c.low
                };
                let volume_usdt: Option<u128> = match c.volume_usdt {
                    Some(v) => {
                        if usdt {
                            proof {
                                lemma_quote_volume_fits(c@, acc, prefix, prefix1, tv[i as int]);
                            }
                            Some(v + (t.price as u128) * (t.amount as u128))
                        } else {
                            None
                        }
                    },
                    None => None,
                };
                let merged = Candle {
                    instrument: c.instrument,
                    interval: c.interval,
                    timestamp: c.timestamp,
                    open: c.open,
                    high,
                    low,
                    close: t.price,
                    volume: c.volume + t.amount,
                    trade_count: c.trade_count + 1,
                    volume_usdt,
                    custom: c.custom,
                };
                proof {
                    assert(merged@ == merge_trade(acc.last(), tv[i as int]));
                }
                out.push(merged);
                proof {
                    assert(candle_views(out@) =~= acc.update(
                        acc.len() - 1,
                        merge_trade(acc.last(), tv[i as int]),
                    ));
                    assert(candle_views(out@) =~= base_candles(prefix1, timeframe));
                }
            } else {
                let volume_usdt: Option<u128> = if usdt {
                    proof {
                        vstd::arithmetic::mul::lemma_mul_upper_bound(
                            t@.price,
                            u64::MAX as int,
                            t@.amount,
                            u64::MAX as int,
                        );
                    }
                    Some((t.price as u128) * (t.amount as u128))
                } else {
                    None
                };
                let opened = Candle {
                    instrument: t.instrument.clone(),
                    interval: timeframe,
                    timestamp: bucket,
                    open: t.price,
                    high: t.price,
                    low: t.price,
                    close: t.price,
                    volume: t.amount,
                    trade_count: 1,
                    volume_usdt,
                    custom: Vec::new(),
                };
                proof {
                    assert(opened@.custom =~= Seq::<(Seq<char>, Seq<char>)>::empty());
                    assert(opened@ == candle_of_trade(tv[i as int], timeframe));
                }
                out.push(opened);
                proof {
                    assert(candle_views(out@) =~= acc.push(candle_of_trade(tv[i as int], timeframe)));
                    assert(candle_views(out@) =~= base_candles(prefix1, timeframe));
                }
            }
            i = i + 1;
        }
        proof {
            assert(tv.take(trades@.len() as int) =~= tv);
        }
        out
    }
}

/// The last candle's sums are bounded by the sums over the whole sequence.
proof fn lemma_sums_last_bounds(s: Seq<CandleModel>)
    requires
        all_well_formed(s),
        s.len() > 0,
    ensures
        s.last().volume <= sum_volume(s),
        s.last().trade_count <= sum_trade_count(s),
        match s.last().volume_usdt {
            Some(v) => v <= sum_volume_usdt(s),
            None => true,
        },
{
    crate::candle::lemma_sums_monotonic(s, s.len() - 1);
    assert(s.take(s.len() - 1) =~= s.drop_last());
}

/// In the merge case, the running USDT volume plus the next trade's quote
/// volume still fits the accumulator.
proof fn lemma_quote_volume_fits(
    c: CandleModel,
    acc: Seq<CandleModel>,
    prefix: Seq<TradeModel>,
    prefix1: Seq<TradeModel>,
    t: TradeModel,
)
    requires
        all_well_formed(acc),
        acc.len() > 0,
        c == acc.last(),
        c.volume_usdt is Some,
        trade_usdt_quoted(t),
        sum_volume_usdt(acc) <= sum_quote_volume(prefix),
        prefix1.drop_last() == prefix,
        prefix1.last() == t,
        prefix1.len() > 0,
        sum_quote_volume(prefix1) <= u128::MAX,
        t.price >= 0,
        t.amount >= 0,
    ensures
        c.volume_usdt.unwrap() + trade_quote_volume(t) <= u128::MAX,
{
    lemma_sums_last_bounds(acc);
    assert(sum_quote_volume(prefix1) == sum_quote_volume(prefix) + trade_quote_volume(t));
}

} // verus!
