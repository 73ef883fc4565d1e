//! The chain aggregator: derives a coarser timeframe's candles from an
//! already-computed finer timeframe's candles by grouping consecutive runs
//! of a fixed size, dropping any trailing partial group.

use vstd::prelude::*;

use crate::candle::all_have_usdt;
use crate::candle::all_well_formed;
use crate::candle::candle_views;
use crate::candle::candle_well_formed;
use crate::candle::sum_trade_count;
use crate::candle::sum_volume;
use crate::candle::sum_volume_usdt;
use crate::candle::Candle;
use crate::candle::CandleModel;
use crate::timeframe::spec_source_count;
use crate::timeframe::Timeframe;

verus! {

/// Largest `high` of a non-empty candle sequence.
pub open spec fn max_high(g: Seq<CandleModel>) -> int
    recommends
        g.len() > 0,
    decreases g.len(),
{
    if g.len() <= 1 {
        g[0].high
    } else {
        vstd::math::max(max_high(g.drop_last()), g.last().high)
    }
}

/// Smallest `low` of a non-empty candle sequence.
pub open spec fn min_low(g: Seq<CandleModel>) -> int
    recommends
        g.len() > 0,
    decreases g.len(),
{
    if g.len() <= 1 {
        g[0].low
    } else {
        vstd::math::min(min_low(g.drop_last()), g.last().low)
    }
}

/// The candle derived from one full group of finer candles: first open, last
/// close, extremes and sums across the group, `volume_usdt` only when every
/// member carries one, and the first member's timestamp as the period start.
pub open spec fn group_candle(g: Seq<CandleModel>, tf: Timeframe) -> CandleModel
    recommends
        g.len() > 0,
{
    CandleModel {
        instrument: g[0].instrument,
        interval: tf,
        timestamp: g[0].timestamp,
        open: g[0].open,
        high: max_high(g),
        low: min_low(g),
        close: g.last().close,
        volume: sum_volume(g),
        trade_count: sum_trade_count(g),
        volume_usdt: if all_have_usdt(g) {
            Some(sum_volume_usdt(g))
        } else {
            None
        },
        custom: Seq::empty(),
    }
}

/// The coarser candles of a finer candle sequence: consecutive groups of
/// `source_count(tf)` candles each, in order, starting at the front; a
/// trailing group shorter than that is dropped.
pub open spec fn chain_candles(lower: Seq<CandleModel>, tf: Timeframe) -> Seq<CandleModel>
    decreases lower.len(),
{
    let k = spec_source_count(tf);
    if lower.len() < k || k < 1 {
        Seq::empty()
    } else {
        seq![group_candle(lower.take(k), tf)] + chain_candles(lower.skip(k), tf)
    }
}

/// A candle whose numeric fields carry values of the executable
/// representation: non-negative and bounded.
pub open spec fn candle_in_range(c: CandleModel) -> bool {
    &&& 0 <= c.timestamp <= u64::MAX
    &&& 0 <= c.open <= u64::MAX
    &&& 0 <= c.high <= u64::MAX
    &&& 0 <= c.low <= u64::MAX
    &&& 0 <= c.close <= u64::MAX
    &&& 0 <= c.volume <= u64::MAX
    &&& 0 <= c.trade_count <= u64::MAX
    &&& match c.volume_usdt {
        Some(v) => 0 <= v <= u128::MAX,
        None => true,
    }
}

/// Candles whose numeric fields carry values of the executable
/// representation.
pub open spec fn candles_in_range(s: Seq<CandleModel>) -> bool {
    forall|i: int| 0 <= i < s.len() ==> candle_in_range(#[trigger] s[i])
}

/// The models of the candles of a `Vec` are in range.
pub proof fn lemma_candle_views_in_range(candles: Seq<Candle>)
    ensures
        candles_in_range(candle_views(candles)),
{
}

/// Machine limits on a candle sequence handed to the chain aggregator: the
/// aggregate sums must fit the fields they are accumulated in.
pub open spec fn chain_fits(s: Seq<CandleModel>) -> bool {
    &&& sum_volume(s) <= u64::MAX
    &&& sum_trade_count(s) <= u64::MAX
    &&& sum_volume_usdt(s) <= u128::MAX
}

/// Splitting a candle sequence at `a` splits each of its sums.
pub proof fn lemma_sum_split(s: Seq<CandleModel>, a: int, b: int)
    requires
        0 <= a <= b <= s.len(),
    ensures
        sum_volume(s.take(b)) == sum_volume(s.take(a)) + sum_volume(s.subrange(a, b)),
        sum_trade_count(s.take(b)) == sum_trade_count(s.take(a)) + sum_trade_count(
            s.subrange(a, b),
        ),
        sum_volume_usdt(s.take(b)) == sum_volume_usdt(s.take(a)) + sum_volume_usdt(
            s.subrange(a, b),
        ),
    decreases b - a,
{
    if a == b {
        assert(s.take(b) =~= s.take(a));
        assert(s.subrange(a, b) =~= Seq::<CandleModel>::empty());
    } else {
        lemma_sum_split(s, a, b - 1);
        assert(s.take(b).drop_last() =~= s.take(b - 1));
        assert(s.subrange(a, b).drop_last() =~= s.subrange(a, b - 1));
        assert(s.take(b).last() == s[b - 1]);
        assert(s.subrange(a, b).last() == s[b - 1]);
    }
}

/// Sums of in-range candles are non-negative.
pub proof fn lemma_sums_nonneg(s: Seq<CandleModel>)
    requires
        candles_in_range(s),
    ensures
        sum_volume(s) >= 0,
        sum_trade_count(s) >= 0,
        sum_volume_usdt(s) >= 0,
    decreases s.len(),
{
    if s.len() > 0 {
        assert(forall|i: int| 0 <= i < s.len() - 1 ==> #[trigger] s.drop_last()[i] == s[i]);
        lemma_sums_nonneg(s.drop_last());
    }
}

/// The extremes of a non-empty candle sequence are attained: the largest
/// `high` bounds every member's `high` from above and is one of them, and
/// symmetrically for the smallest `low`.
pub proof fn lemma_extremes(g: Seq<CandleModel>)
    requires
        g.len() > 0,
    ensures
        forall|i: int| 0 <= i < g.len() ==> #[trigger] g[i].high <= max_high(g),
        exists|i: int| 0 <= i < g.len() && max_high(g) == #[trigger] g[i].high,
        forall|i: int| 0 <= i < g.len() ==> #[trigger] g[i].low >= min_low(g),
        exists|i: int| 0 <= i < g.len() && min_low(g) == #[trigger] g[i].low,
    decreases g.len(),
{
    if g.len() == 1 {
        assert(max_high(g) == g[0].high);
        assert(min_low(g) == g[0].low);
    } else {
        let d = g.drop_last();
        lemma_extremes(d);
        assert(forall|i: int| 0 <= i < g.len() - 1 ==> #[trigger] d[i] == g[i]);
        assert forall|i: int| 0 <= i < g.len() implies #[trigger] g[i].high <= max_high(g) by {
            if i < g.len() - 1 {
                assert(g[i].high == d[i].high);
                assert(d[i].high <= max_high(d));
            } else {
                assert(g[i] == g.last());
            }
        }
        assert forall|i: int| 0 <= i < g.len() implies #[trigger] g[i].low >= min_low(g) by {
            if i < g.len() - 1 {
                assert(g[i].low == d[i].low);
                assert(d[i].low >= min_low(d));
            } else {
                assert(g[i] == g.last());
            }
        }
        let j = choose|j: int| 0 <= j < d.len() && max_high(d) == #[trigger] d[j].high;
        let l = choose|l: int| 0 <= l < d.len() && min_low(d) == #[trigger] d[l].low;
        if max_high(g) == g.last().high {
            assert(max_high(g) == g[g.len() - 1].high);
        } else {
            assert(max_high(g) == max_high(d));
            assert(max_high(g) == g[j].high);
        }
        if min_low(g) == g.last().low {
            assert(min_low(g) == g[g.len() - 1].low);
        } else {
            assert(min_low(g) == min_low(d));
            assert(min_low(g) == g[l].low);
        }
    }
}

/// Dropping the trailing partial group, the chain aggregator emits exactly
/// `floor(n / k)` candles for `n` finer candles and group size `k`.
pub proof fn lemma_chain_len(s: Seq<CandleModel>, tf: Timeframe)
    ensures
        chain_candles(s, tf).len() == s.len() as int / spec_source_count(tf),
    decreases s.len(),
{
    let k = spec_source_count(tf);
    crate::timeframe::lemma_source_count_positive(tf);
    if s.len() < k {
        assert(s.len() as int / k == 0) by {
            vstd::arithmetic::div_mod::lemma_basic_div(s.len() as int, k);
        }
    } else {
        lemma_chain_len(s.skip(k), tf);
        assert(s.skip(k).len() == s.len() - k);
        assert((s.len() - k) / k + 1 == s.len() as int / k) by {
            vstd::arithmetic::div_mod::lemma_hoist_over_denominator(s.len() - k, 1, k as nat);
            assert(s.len() - k + 1 * k == s.len());
        }
    }
}

/// Each chained candle is the group candle of its own consecutive slice of
/// the input: the candle at index `j` summarizes the members from `j * k` up
/// to `j * k + k`.
pub proof fn lemma_chain_index(s: Seq<CandleModel>, tf: Timeframe, j: int)
    requires
        0 <= j < chain_candles(s, tf).len(),
    ensures
        j * spec_source_count(tf) + spec_source_count(tf) <= s.len(),
        chain_candles(s, tf)[j] == group_candle(
            s.subrange(j * spec_source_count(tf), j * spec_source_count(tf) + spec_source_count(tf)),
            tf,
        ),
    decreases s.len(),
{
    let k = spec_source_count(tf);
    crate::timeframe::lemma_source_count_positive(tf);
    assert(s.len() >= k);
    if j == 0 {
        assert(s.take(k) =~= s.subrange(0, k));
        assert(0 * k == 0) by (nonlinear_arith);
        assert(s.subrange(0 * k, 0 * k + k) =~= s.subrange(0, k));
    } else {
        lemma_chain_index(s.skip(k), tf, j - 1);
        assert((j - 1) * k == j * k - k) by (nonlinear_arith);
        assert(j * k - k + k <= s.skip(k).len());
        assert(s.skip(k).subrange(j * k - k, j * k) =~= s.subrange(j * k, j * k + k));
        assert(chain_candles(s, tf)[j] == chain_candles(s.skip(k), tf)[j - 1]);
    }
}

/// A derived candle's `volume_usdt` is present exactly when every member of
/// its group carries one, and then equals their sum.
pub proof fn lemma_chain_usdt(s: Seq<CandleModel>, tf: Timeframe, j: int)
    requires
        0 <= j < chain_candles(s, tf).len(),
    ensures
        ({
            let k = spec_source_count(tf);
            let g = s.subrange(j * k, j * k + k);
            match chain_candles(s, tf)[j].volume_usdt {
                Some(v) => all_have_usdt(g) && v == sum_volume_usdt(g),
                None => !all_have_usdt(g),
            }
        }),
{
    lemma_chain_index(s, tf, j);
}

/// Chaining preserves well-formedness: every candle derived from well-formed
/// candles is well formed.
pub proof fn lemma_chain_wf(s: Seq<CandleModel>, tf: Timeframe)
    requires
        all_well_formed(s),
    ensures
        all_well_formed(chain_candles(s, tf)),
    decreases s.len(),
{
    let k = spec_source_count(tf);
    crate::timeframe::lemma_source_count_positive(tf);
    if s.len() >= k {
        let g = s.take(k);
        assert(forall|i: int| 0 <= i < k ==> #[trigger] g[i] == s[i]);
        lemma_group_candle_wf(g, tf);
        assert(all_well_formed(s.skip(k))) by {
            assert(forall|i: int| 0 <= i < s.len() - k ==> #[trigger] s.skip(k)[i] == s[i + k]);
        }
        lemma_chain_wf(s.skip(k), tf);
        let out = chain_candles(s, tf);
        assert(forall|i: int|
            1 <= i < out.len() ==> #[trigger] out[i] == chain_candles(s.skip(k), tf)[i - 1]);
    }
}

/// The candle of one well-formed group is well formed.
pub proof fn lemma_group_candle_wf(g: Seq<CandleModel>, tf: Timeframe)
    requires
        g.len() > 0,
        all_well_formed(g),
    ensures
        candle_well_formed(group_candle(g, tf)),
        sum_trade_count(g) >= g.len(),
{
    lemma_extremes(g);
    lemma_group_sums_wf(g);
    assert(candle_well_formed(g[0]));
    assert(candle_well_formed(g[g.len() - 1]));
    assert(g.last() == g[g.len() - 1]);
}

/// Sums over a well-formed candle sequence: volume and USDT volume are
/// non-negative and the trade count covers every member.
proof fn lemma_group_sums_wf(g: Seq<CandleModel>)
    requires
        all_well_formed(g),
    ensures
        sum_volume(g) >= 0,
        sum_volume_usdt(g) >= 0,
        sum_trade_count(g) >= g.len(),
    decreases g.len(),
{
    if g.len() > 0 {
        assert(forall|i: int| 0 <= i < g.len() - 1 ==> #[trigger] g.drop_last()[i] == g[i]);
        lemma_group_sums_wf(g.drop_last());
        assert(candle_well_formed(g[g.len() - 1]));
        assert(g.last() == g[g.len() - 1]);
    }
}

/// Chaining never increases a sum: each emitted candle adds up exactly one
/// full group and the trailing remainder is dropped.
pub proof fn lemma_chain_sums(s: Seq<CandleModel>, tf: Timeframe)
    requires
        candles_in_range(s),
    ensures
        sum_volume(chain_candles(s, tf)) <= sum_volume(s),
        sum_trade_count(chain_candles(s, tf)) <= sum_trade_count(s),
        sum_volume_usdt(chain_candles(s, tf)) <= sum_volume_usdt(s),
    decreases s.len(),
{
    let k = spec_source_count(tf);
    crate::timeframe::lemma_source_count_positive(tf);
    lemma_sums_nonneg(s);
    if s.len() >= k {
        let rest = s.skip(k);
        let g = s.take(k);
        assert(candles_in_range(rest)) by {
            assert(forall|i: int| 0 <= i < s.len() - k ==> #[trigger] rest[i] == s[i + k]);
        }
        assert(candles_in_range(g)) by {
            assert(forall|i: int| 0 <= i < k ==> #[trigger] g[i] == s[i]);
        }
        lemma_chain_sums(rest, tf);
        lemma_sums_nonneg(rest);
        lemma_sums_nonneg(g);
        // The sums over s split into the first group and the rest.
        lemma_sum_split(s, k, s.len() as int);
        assert(s.take(s.len() as int) =~= s);
        assert(s.subrange(k, s.len() as int) =~= rest);
        assert(s.take(k) =~= g);
        // The sums over the chained output split off its first candle.
        let out = chain_candles(s, tf);
        let first = group_candle(g, tf);
        assert(out =~= seq![first] + chain_candles(rest, tf));
        lemma_sum_cons(first, chain_candles(rest, tf));
        // The first candle's USDT volume is at most the group's USDT sum.
        assert(match first.volume_usdt {
            Some(v) => v == sum_volume_usdt(g),
            None => true,
        });
    }
}

/// Sums of a sequence with one candle prepended.
proof fn lemma_sum_cons(c: CandleModel, s: Seq<CandleModel>)
    ensures
        sum_volume(seq![c] + s) == c.volume + sum_volume(s),
        sum_trade_count(seq![c] + s) == c.trade_count + sum_trade_count(s),
        sum_volume_usdt(seq![c] + s) == (match c.volume_usdt {
            Some(v) => v,
            None => 0,
        }) + sum_volume_usdt(s),
    decreases s.len(),
{
    if s.len() == 0 {
        assert(seq![c] + s =~= seq![c]);
        lemma_sum_single(c);
        assert(sum_volume(s) == 0);
        assert(sum_trade_count(s) == 0);
        assert(sum_volume_usdt(s) == 0);
    } else {
        lemma_sum_cons(c, s.drop_last());
        assert((seq![c] + s).drop_last() =~= seq![c] + s.drop_last());
        assert((seq![c] + s).last() == s.last());
        assert(sum_volume(s) == sum_volume(s.drop_last()) + s.last().volume);
        assert(sum_trade_count(s) == sum_trade_count(s.drop_last()) + s.last().trade_count);
        assert(sum_volume_usdt(s) == sum_volume_usdt(s.drop_last()) + (match s.last().volume_usdt {
            Some(v) => v,
            None => 0,
        }));
    }
}

/// Derives the candles of the coarser timeframe `tf` from candles of a finer
/// timeframe: consecutive groups of `source_count(tf)` members are folded
/// into one candle each, in input order, and a trailing group shorter than
/// that is dropped rather than emitted as a partial candle.
pub fn aggregate_from_lower(lower: &Vec<Candle>, tf: Timeframe) -> (r: Vec<Candle>)
    requires
        chain_fits(candle_views(lower@)),
    ensures
        candle_views(r@) == chain_candles(candle_views(lower@), tf),
{
    let ghost lv = candle_views(lower@);
    proof {
        lemma_candle_views_in_range(lower@);
        crate::timeframe::lemma_source_count_positive(tf);
    }
    let k = tf.source_count();
    let n = lower.len();
    let mut out: Vec<Candle> = Vec::new();
    let mut i: usize = 0;
    proof {
        assert(lv.skip(0) =~= lv);
        assert(candle_views(out@) =~= Seq::<CandleModel>::empty());
        assert(candle_views(out@) + chain_candles(lv, tf) =~= chain_candles(lv, tf));
        assert(0 == out@.len() * k) by (nonlinear_arith)
            requires
                out@.len() == 0,
        ;
    }
    while k <= lower.len() - i
        invariant
            1 <= k == spec_source_count(tf),
            lv == candle_views(lower@),
            lv.len() == lower@.len(),
            n == lower@.len(),
            candles_in_range(lv),
            chain_fits(lv),
            i <= lower@.len(),
            i == out@.len() * k,
            chain_candles(lv, tf) =~= candle_views(out@) + chain_candles(
                lv.skip(i as int),
                tf,
            ),
        decreases lower.len() - i,
    {
        let ghost g = lv.subrange(i as int, i as int + k as int);
        proof {
            lemma_sums_nonneg(lv);
        }
        let first = &lower[i];
        let mut high = first.high;
        let mut low = first.low;
        let mut volume = first.volume;
        let mut trade_count = first.trade_count;
        let mut volume_usdt: Option<u128> = first.volume_usdt;
        proof {
            assert(lv[i as int] == lower@[i as int]@);
            assert(g.subrange(0, 1) =~= seq![lv[i as int]]);
            assert(g[0] == lv[i as int]);
            lemma_sum_single(lv[i as int]);
        }
        let mut j: usize = 1;
        while j < k
            invariant
                1 <= j <= k,
                1 <= k == spec_source_count(tf),
                lv == candle_views(lower@),
                lv.len() == lower@.len(),
                n == lower@.len(),
                candles_in_range(lv),
                chain_fits(lv),
                i + k <= lv.len(),
                g == lv.subrange(i as int, i as int + k as int),
                high == max_high(g.subrange(0, j as int)),
                low == min_low(g.subrange(0, j as int)),
                volume == sum_volume(g.subrange(0, j as int)),
                trade_count == sum_trade_count(g.subrange(0, j as int)),
                volume_usdt == (if all_have_usdt(g.subrange(0, j as int)) {
                    Some(sum_volume_usdt(g.subrange(0, j as int)) as u128)
                } else {
                    None::<u128>
                }),
            decreases k - j,
        {
            let ghost gj = g.subrange(0, j as int);
            let ghost gj1 = g.subrange(0, j as int + 1);
            proof {
                assert(lv[i as int + j as int] == lower@[i as int + j as int]@);
                assert(gj1.drop_last() =~= gj);
                assert(gj1.last() == lv[i as int + j as int]);
                assert(gj =~= lv.subrange(i as int, i as int + j as int));
                assert(gj1 =~= lv.subrange(i as int, i as int + j as int + 1));
                lemma_partial_group_fits(lv, i as int, j as int + 1, k as int);
                assert(sum_volume(gj1) == sum_volume(gj) + lv[i as int + j as int].volume);
                assert(sum_trade_count(gj1) == sum_trade_count(gj) + lv[i as int
                    + j as int].trade_count);
                assert(sum_volume_usdt(gj1) == sum_volume_usdt(gj) + (
                match lv[i as int + j as int].volume_usdt {
                    Some(v) => v,
                    None => 0,
                }));
                assert(sum_volume(gj1) <= u64::MAX);
                assert(sum_trade_count(gj1) <= u64::MAX);
                assert(sum_volume_usdt(gj1) <= u128::MAX);
                assert(sum_volume_usdt(gj) >= 0);
                assert(forall|x: int| 0 <= x < j as int ==> #[trigger] gj1[x] == gj[x]);
                if all_have_usdt(gj) && lv[i as int + j as int].volume_usdt is Some {
                    assert forall|x: int| 0 <= x < gj1.len() implies #[trigger] gj1[x].volume_usdt
                        is Some by {
                        if x < j as int {
                            assert(gj1[x] == gj[x]);
                        }
                    }
                    assert(all_have_usdt(gj1));
                } else {
                    if !all_have_usdt(gj) {
                        let x = choose|x: int|
                            0 <= x < gj.len() && !(#[trigger] gj[x].volume_usdt is Some);
                        assert(gj1[x] == gj[x]);
                        assert(!all_have_usdt(gj1));
                    } else {
                        assert(gj1[j as int] == lv[i as int + j as int]);
                        assert(!all_have_usdt(gj1));
                    }
                }
            }
            let c = &lower[i + j];
            if c.high > high {
                high = c.high;
            }
            if c.low < low {
                low = c.low;
            }
            volume = volume + c.volume;
            trade_count = trade_count + c.trade_count;
            volume_usdt = match (volume_usdt, c.volume_usdt) {
                (Some(a), Some(b)) => Some(a + b),
                _ => None,
            };
            j = j + 1;
        }
        proof {
            assert(g.subrange(0, k as int) =~= g);
            assert(candles_in_range(g)) by {
                assert(forall|x: int| 0 <= x < k as int ==> #[trigger] g[x] == lv[x + i]);
            }
            lemma_sums_nonneg(g);
            lemma_partial_group_fits(lv, i as int, k as int, k as int);
            assert(g =~= lv.subrange(i as int, i as int + k as int));
        }
        let derived = Candle {
            instrument: first.instrument.clone(),
            interval: tf,
            timestamp: first.timestamp,
            open: first.open,
            high,
            low,
            close: lower[i + k - 1].close,
            volume,
            trade_count,
            volume_usdt,
            custom: Vec::new(),
        };
        proof {
            assert(derived@.custom =~= Seq::<(Seq<char>, Seq<char>)>::empty());
            assert(g[0] == lv[i as int]);
            assert(g.last() == lv[i as int + k as int - 1]);
            assert(lv[i as int + k as int - 1] == lower@[i as int + k as int - 1]@);
            assert(derived@ == group_candle(g, tf));
        }
        let ghost out0 = out@;
        out.push(derived);
        i = i + k;
        proof {
            assert(candle_views(out@) =~= candle_views(out0).push(group_candle(g, tf)));
            let rest = lv.skip(i as int - k as int);
            assert(rest.len() >= k);
            assert(rest.take(k as int) =~= g);
            assert(rest.skip(k as int) =~= lv.skip(i as int));
            assert(chain_candles(rest, tf) =~= seq![group_candle(g, tf)] + chain_candles(
                lv.skip(i as int),
                tf,
            ));
            assert(out@.len() * k == (out0.len() + 1) * k);
            assert((out0.len() + 1) * k == out0.len() * k + k) by (nonlinear_arith);
        }
    }
    proof {
        assert(chain_candles(lv.skip(i as int), tf) =~= Seq::<CandleModel>::empty());
        assert(candle_views(out@) + Seq::<CandleModel>::empty() =~= candle_views(out@));
    }
    out
}

/// Sums of a one-candle sequence.
proof fn lemma_sum_single(c: CandleModel)
    ensures
        sum_volume(seq![c]) == c.volume,
        sum_trade_count(seq![c]) == c.trade_count,
        sum_volume_usdt(seq![c]) == match c.volume_usdt {
            Some(v) => v,
            None => 0,
        },
        max_high(seq![c]) == c.high,
        min_low(seq![c]) == c.low,
        seq![c].len() == 1 ==> all_have_usdt(seq![c]) == (c.volume_usdt is Some),
{
    let e = Seq::<CandleModel>::empty();
    assert(sum_volume(e) == 0);
    assert(sum_trade_count(e) == 0);
    assert(sum_volume_usdt(e) == 0);
    assert(seq![c].last() == c);
    assert(seq![c][0] == c);
    assert((seq![c]).drop_last() =~= e);
    if c.volume_usdt is Some {
        assert(all_have_usdt(seq![c]));
    } else {
        assert(!all_have_usdt(seq![c]));
    }
}

/// The sums accumulated over part of one group stay within the sums over the
/// whole input, so the running totals of the group loop fit their fields.
proof fn lemma_partial_group_fits(lv: Seq<CandleModel>, i: int, m: int, k: int)
    requires
        candles_in_range(lv),
        0 <= i,
        0 < m <= k,
        i + k <= lv.len(),
    ensures
        sum_volume(lv.subrange(i, i + m)) <= sum_volume(lv),
        sum_trade_count(lv.subrange(i, i + m)) <= sum_trade_count(lv),
        sum_volume_usdt(lv.subrange(i, i + m)) <= sum_volume_usdt(lv),
        sum_volume(lv.subrange(i, i + m)) == sum_volume(lv.subrange(i, i + m - 1)) + lv[i + m
            - 1].volume,
        sum_trade_count(lv.subrange(i, i + m)) == sum_trade_count(lv.subrange(i, i + m - 1))
            + lv[i + m - 1].trade_count,
        sum_volume_usdt(lv.subrange(i, i + m)) == sum_volume_usdt(lv.subrange(i, i + m - 1)) + (
        match lv[i + m - 1].volume_usdt {
            Some(v) => v,
            None => 0,
        }),
        sum_volume_usdt(lv.subrange(i, i + m - 1)) >= 0,
{
    lemma_sum_split(lv, i, i + m);
    lemma_sum_split(lv, i + m, lv.len() as int);
    assert(lv.take(lv.len() as int) =~= lv);
    assert(candles_in_range(lv.take(i))) by {
        assert(forall|x: int| 0 <= x < i ==> #[trigger] lv.take(i)[x] == lv[x]);
    }
    assert(candles_in_range(lv.subrange(i + m, lv.len() as int))) by {
        assert(forall|x: int|
            0 <= x < lv.len() - i - m ==> #[trigger] lv.subrange(i + m, lv.len() as int)[x] == lv[x
                + i + m]);
    }
    lemma_sums_nonneg(lv.take(i));
    lemma_sums_nonneg(lv.subrange(i + m, lv.len() as int));
    assert(lv.subrange(i, i + m).drop_last() =~= lv.subrange(i, i + m - 1));
    assert(lv.subrange(i, i + m).last() == lv[i + m - 1]);
    assert(candles_in_range(lv.subrange(i, i + m - 1))) by {
        assert(forall|x: int|
            0 <= x < m - 1 ==> #[trigger] lv.subrange(i, i + m - 1)[x] == lv[x + i]);
    }
    lemma_sums_nonneg(lv.subrange(i, i + m - 1));
}

} // verus!
