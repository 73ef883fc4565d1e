//! The aggregation pipeline: one base aggregation over the trade sequence,
//! then repeated chain aggregations across the requested timeframes, each
//! feeding on the previous step's output.

use vstd::prelude::*;

use crate::candle::candle_views;
use crate::candle::Candle;
use crate::candle::CandleModel;
use crate::chain::aggregate_from_lower;
use crate::chain::chain_candles;
use crate::chain::chain_fits;
use crate::chain::lemma_candle_views_in_range;
use crate::chain::lemma_chain_sums;
use crate::generator::base_candles;
use crate::generator::base_input_fits;
use crate::generator::lemma_base_candles_props;
use crate::generator::lemma_trade_views_in_range;
use crate::generator::CandleGenerator;
use crate::model::trade_views;
use crate::model::Trade;
use crate::model::TradeModel;
use crate::timeframe::Timeframe;

verus! {

/// The mapping an entry sequence denotes: later entries win.
pub open spec fn map_of_entries(s: Seq<(Timeframe, Vec<Candle>)>) -> Map<
    Timeframe,
    Seq<CandleModel>,
>
    decreases s.len(),
{
    if s.len() == 0 {
        Map::empty()
    } else {
        map_of_entries(s.drop_last()).insert(s.last().0, candle_views(s.last().1@))
    }
}

/// The key of each entry, in order.
pub open spec fn keys_of(s: Seq<(Timeframe, Vec<Candle>)>) -> Seq<Timeframe> {
    s.map_values(|e: (Timeframe, Vec<Candle>)| e.0)
}

/// Result of one aggregation run: an ordered mapping from each requested
/// timeframe to its candle sequence, keyed uniquely, in insertion order.
pub struct AggregationResult {
    entries: Vec<(Timeframe, Vec<Candle>)>,
}

impl AggregationResult {
    /// The timeframes held, in insertion order.
    pub closed spec fn spec_keys(self) -> Seq<Timeframe> {
        keys_of(self.entries@)
    }

    /// The mapping from timeframe to candle models.
    pub closed spec fn spec_map(self) -> Map<Timeframe, Seq<CandleModel>> {
        map_of_entries(self.entries@)
    }

    /// Each timeframe occurs at most once.
    pub open spec fn wf(self) -> bool {
        self.spec_keys().no_duplicates()
    }

    /// An empty result.
    pub fn new() -> (r: Self)
        ensures
            r.wf(),
            r.spec_map() == Map::<Timeframe, Seq<CandleModel>>::empty(),
            r.spec_keys() == Seq::<Timeframe>::empty(),
    {
        let r = AggregationResult { entries: Vec::new() };
        proof {
            assert(r.spec_keys() =~= Seq::<Timeframe>::empty());
        }
        r
    }

    /// Number of timeframes held.
    pub fn len(&self) -> (n: usize)
        ensures
            n == self.spec_keys().len(),
    {
        self.entries.len()
    }

    /// Binds `timeframe` to `candles`, replacing any earlier binding and
    /// keeping its position; a new timeframe goes to the end.
    pub fn insert(&mut self, timeframe: Timeframe, candles: Vec<Candle>)
        requires
            old(self).wf(),
        ensures
            final(self).wf(),
            final(self).spec_map() == old(self).spec_map().insert(
                timeframe,
                candle_views(candles@),
            ),
            final(self).spec_keys() == if old(self).spec_keys().contains(timeframe) {
                old(self).spec_keys()
            } else {
                old(self).spec_keys().push(timeframe)
            },
    {
        let n = self.entries.len();
        let mut idx: usize = n;
        let mut i: usize = 0;
        while i < n
            invariant
                i <= n,
                n == self.entries@.len(),
                idx == n || (idx < i && self.entries@[idx as int].0 == timeframe),
                idx == n ==> forall|x: int| 0 <= x < i ==> #[trigger] self.entries@[x].0
                    != timeframe,
            decreases n - i,
        {
            if idx == n && self.entries[i].0 == timeframe {
                idx = i;
            }
            i = i + 1;
        }
        let ghost entries0 = self.entries@;
        if idx < n {
            self.entries.set(idx, (timeframe, candles));
            proof {
                assert(entries0[idx as int].0 == timeframe);
                assert(keys_of(entries0)[idx as int] == timeframe);
                assert(old(self).spec_keys().contains(timeframe));
                assert(self.spec_keys() =~= old(self).spec_keys());
                lemma_map_of_update(entries0, idx as int, timeframe, candles);
            }
        } else {
            self.entries.push((timeframe, candles));
            proof {
                assert(self.entries@.drop_last() =~= entries0);
                assert(self.spec_keys() =~= old(self).spec_keys().push(timeframe));
                if old(self).spec_keys().contains(timeframe) {
                    let x = choose|x: int|
                        0 <= x < old(self).spec_keys().len() && #[trigger] old(
                            self,
                        ).spec_keys()[x] == timeframe;
                    assert(entries0[x].0 == timeframe);
                    assert(false);
                }
                lemma_no_dup_push(old(self).spec_keys(), timeframe);
            }
        }
    }

    /// Looks a timeframe up; present exactly when it was inserted.
    pub fn get(&self, timeframe: Timeframe) -> (r: Option<&Vec<Candle>>)
        requires
            self.wf(),
        ensures
            match r {
                Some(v) => self.spec_map().contains_key(timeframe) && candle_views(v@)
                    == self.spec_map()[timeframe],
                None => !self.spec_map().contains_key(timeframe),
            },
    {
        let n = self.entries.len();
        let mut i: usize = 0;
        while i < n
            invariant
                self.wf(),
                n == self.entries@.len(),
                i <= n,
                forall|x: int| 0 <= x < i ==> #[trigger] self.entries@[x].0 != timeframe,
            decreases n - i,
        {
            if self.entries[i].0 == timeframe {
                proof {
                    lemma_entries_map(self.entries@);
                    assert(self.spec_keys()[i as int] == timeframe);
                    assert(self.spec_keys().contains(timeframe));
                    assert(map_of_entries(self.entries@)[self.entries@[i as int].0]
                        == candle_views(self.entries@[i as int].1@));
                }
                return Some(&self.entries[i].1);
            }
            i = i + 1;
        }
        proof {
            lemma_entries_map(self.entries@);
            if self.spec_map().contains_key(timeframe) {
                assert(self.spec_keys().contains(timeframe));
                let x = choose|x: int|
                    0 <= x < self.spec_keys().len() && #[trigger] self.spec_keys()[x] == timeframe;
                assert(self.entries@[x].0 == timeframe);
                assert(false);
            }
        }
        None
    }

    /// The timeframe at one insertion position.
    pub fn timeframe_at(&self, i: usize) -> (tf: Timeframe)
        requires
            i < self.spec_keys().len(),
        ensures
            tf == self.spec_keys()[i as int],
    {
        self.entries[i].0
    }

    /// The candles at one insertion position.
    pub fn candles_at(&self, i: usize) -> (v: &Vec<Candle>)
        requires
            self.wf(),
            i < self.spec_keys().len(),
        ensures
            candle_views(v@) == self.spec_map()[self.spec_keys()[i as int]],
    {
        proof {
            lemma_entries_map(self.entries@);
        }
        &self.entries[i].1
    }
}

/// With unique keys, the mapping of an entry sequence holds each entry's
/// candles under its own key, and exactly the keys occur.
proof fn lemma_entries_map(s: Seq<(Timeframe, Vec<Candle>)>)
    requires
        keys_of(s).no_duplicates(),
    ensures
        forall|tf: Timeframe| map_of_entries(s).contains_key(tf) <==> keys_of(s).contains(tf),
        forall|i: int|
            0 <= i < s.len() ==> map_of_entries(s)[#[trigger] s[i].0] == candle_views(s[i].1@),
    decreases s.len(),
{
    let keys = keys_of(s);
    if s.len() > 0 {
        let s0 = s.drop_last();
        let keys0 = keys_of(s0);
        assert(keys0 =~= keys.drop_last());
        assert(forall|x: int| 0 <= x < keys0.len() ==> #[trigger] keys0[x] == keys[x]);
        assert(keys0.no_duplicates());
        lemma_entries_map(s0);
        assert(map_of_entries(s) == map_of_entries(s0).insert(s.last().0, candle_views(
            s.last().1@,
        )));
        assert forall|tf: Timeframe|
            map_of_entries(s).contains_key(tf) <==> keys.contains(tf) by {
            if map_of_entries(s).contains_key(tf) {
                if tf == s.last().0 {
                    assert(keys[keys.len() - 1] == s[s.len() - 1].0);
                    assert(keys[keys.len() - 1] == tf);
                    assert(keys.contains(tf));
                } else {
                    assert(map_of_entries(s0).contains_key(tf));
                    assert(keys0.contains(tf));
                    let x = choose|x: int| 0 <= x < keys0.len() && #[trigger] keys0[x] == tf;
                    assert(keys[x] == tf);
                    assert(keys.contains(tf));
                }
            }
            if keys.contains(tf) {
                let x = choose|x: int| 0 <= x < keys.len() && #[trigger] keys[x] == tf;
                if x < keys.len() - 1 {
                    assert(keys0[x] == tf);
                    assert(keys0.contains(tf));
                    assert(map_of_entries(s0).contains_key(tf));
                    assert(map_of_entries(s).contains_key(tf));
                } else {
                    assert(keys[x] == s[s.len() - 1].0);
                    assert(map_of_entries(s).contains_key(tf));
                }
            }
        }
        assert forall|i: int| 0 <= i < s.len() implies map_of_entries(s)[#[trigger] s[i].0]
            == candle_views(s[i].1@) by {
            if i < s.len() - 1 {
                assert(s0[i] == s[i]);
                assert(map_of_entries(s0)[s0[i].0] == candle_views(s0[i].1@));
                assert(keys[i] == s[i].0);
                assert(keys[keys.len() - 1] == s.last().0);
                assert(s[i].0 != s.last().0);
                assert(s0[i] == s[i]);
            }
        }
    }
}

/// Replacing the candles of the entry at `i` updates its key's binding and
/// nothing else.
proof fn lemma_map_of_update(
    s: Seq<(Timeframe, Vec<Candle>)>,
    i: int,
    tf: Timeframe,
    v: Vec<Candle>,
)
    requires
        keys_of(s).no_duplicates(),
        0 <= i < s.len(),
        s[i].0 == tf,
    ensures
        map_of_entries(s.update(i, (tf, v))) == map_of_entries(s).insert(tf, candle_views(v@)),
    decreases s.len(),
{
    let u = s.update(i, (tf, v));
    let keys = keys_of(s);
    if i == s.len() - 1 {
        assert(u.drop_last() =~= s.drop_last());
        assert(u.last() == (tf, v));
        assert(map_of_entries(u) =~= map_of_entries(s).insert(tf, candle_views(v@)));
    } else {
        let s0 = s.drop_last();
        let keys0 = keys_of(s0);
        assert(keys0 =~= keys.drop_last());
        assert(keys0.no_duplicates());
        assert(s0[i] == s[i]);
        lemma_map_of_update(s0, i, tf, v);
        assert(u.drop_last() =~= s0.update(i, (tf, v)));
        assert(u.last() == s.last());
        assert(keys[i] == tf);
        assert(keys[keys.len() - 1] == s.last().0);
        assert(s.last().0 != tf);
        assert(map_of_entries(u) =~= map_of_entries(s).insert(tf, candle_views(v@)));
    }
}

/// Pushing a fresh key keeps the keys free of duplicates.
proof fn lemma_no_dup_push(keys: Seq<Timeframe>, tf: Timeframe)
    requires
        keys.no_duplicates(),
        !keys.contains(tf),
    ensures
        keys.push(tf).no_duplicates(),
{
    let p = keys.push(tf);
    assert forall|i: int, j: int| 0 <= i < j < p.len() implies p[i] != p[j] by {
        if j < p.len() - 1 {
            assert(p[i] == keys[i] && p[j] == keys[j]);
        } else {
            assert(p[i] == keys[i]);
            if keys[i] == tf {
                assert(keys.contains(tf));
            }
        }
    }
}

/// The candle sequence after `i` chain steps over the requested timeframes,
/// starting from a seed at `tfs[0]`.
pub open spec fn chain_level(seed: Seq<CandleModel>, tfs: Seq<Timeframe>, i: int) -> Seq<
    CandleModel,
>
    decreases i,
{
    if i <= 0 {
        seed
    } else {
        chain_candles(chain_level(seed, tfs, i - 1), tfs[i])
    }
}

/// The candle sequence of the `i`-th requested timeframe when the seed is
/// aggregated from raw trades at `tfs[0]`.
pub open spec fn pipeline_level(trades: Seq<TradeModel>, tfs: Seq<Timeframe>, i: int) -> Seq<
    CandleModel,
> {
    chain_level(base_candles(trades, tfs[0]), tfs, i)
}

/// Whether position `i` holds the last occurrence of its timeframe within
/// the first `n` positions.
pub open spec fn last_occurrence_within(tfs: Seq<Timeframe>, i: int, n: int) -> bool {
    0 <= i < n <= tfs.len() && forall|j: int| i < j < n ==> tfs[j] != tfs[i]
}

/// Whether position `i` holds the last occurrence of its timeframe.
pub open spec fn last_occurrence(tfs: Seq<Timeframe>, i: int) -> bool {
    last_occurrence_within(tfs, i, tfs.len() as int)
}

/// Copies a candle sequence.
fn clone_candles(v: &Vec<Candle>) -> (r: Vec<Candle>)
    ensures
        candle_views(r@) == candle_views(v@),
{
    let mut r: Vec<Candle> = Vec::new();
    let mut i: usize = 0;
    while i < v.len()
        invariant
            i <= v@.len(),
            r@.len() == i,
            forall|x: int| 0 <= x < i ==> #[trigger] r@[x]@ == v@[x]@,
        decreases v@.len() - i,
    {
        r.push(v[i].clone());
        i = i + 1;
    }
    proof {
        assert(candle_views(r@) =~= candle_views(v@));
    }
    r
}

/// Inserts the seed under `tfs[0]`, then derives each later timeframe from
/// the previous step's output and inserts it, overwriting earlier bindings
/// of a repeated timeframe.
fn chain_from_seed(seed: Vec<Candle>, timeframes: &Vec<Timeframe>) -> (r: AggregationResult)
    requires
        timeframes@.len() >= 1,
        chain_fits(candle_views(seed@)),
    ensures
        r.wf(),
        timeframes@.no_duplicates() ==> r.spec_keys() == timeframes@,
        forall|tf: Timeframe| r.spec_map().contains_key(tf) <==> timeframes@.contains(tf),
        forall|i: int|
            last_occurrence(timeframes@, i) ==> r.spec_map()[timeframes@[i]] == chain_level(
                candle_views(seed@),
                timeframes@,
                i,
            ),
{
    let ghost s0 = candle_views(seed@);
    let ghost tfs = timeframes@;
    let mut result = AggregationResult::new();
    let first_copy = clone_candles(&seed);
    result.insert(timeframes[0], first_copy);
    proof {
        assert(result.spec_keys() =~= tfs.take(1));
        assert(tfs.take(1).contains(tfs[0])) by {
            assert(tfs.take(1)[0] == tfs[0]);
        }
        assert forall|tf: Timeframe|
            result.spec_map().contains_key(tf) <==> tfs.take(1).contains(tf) by {
            if tfs.take(1).contains(tf) {
                let x = choose|x: int| 0 <= x < 1 && #[trigger] tfs.take(1)[x] == tf;
                assert(tf == tfs[0]);
            }
        }
    }
    let mut prev = seed;
    let mut i: usize = 1;
    while i < timeframes.len()
        invariant
            1 <= i <= tfs.len(),
            tfs == timeframes@,
            s0 == candle_views(seed@),
            result.wf(),
            candle_views(prev@) == chain_level(s0, tfs, i - 1),
            chain_fits(candle_views(prev@)),
            tfs.take(i as int).no_duplicates() ==> result.spec_keys() == tfs.take(i as int),
            forall|tf: Timeframe|
                result.spec_map().contains_key(tf) <==> tfs.take(i as int).contains(tf),
            forall|j: int|
                last_occurrence_within(tfs, j, i as int) ==> result.spec_map()[tfs[j]]
                    == chain_level(s0, tfs, j),
        decreases tfs.len() - i,
    {
        let tf = timeframes[i];
        proof {
            lemma_candle_views_in_range(prev@);
            lemma_chain_sums(candle_views(prev@), tf);
        }
        let higher = aggregate_from_lower(&prev, tf);
        let copy = clone_candles(&higher);
        let ghost map0 = result.spec_map();
        result.insert(tf, copy);
        prev = higher;
        i = i + 1;
        proof {
            assert(candle_views(prev@) == chain_level(s0, tfs, i - 1));
            assert(tfs.take(i as int) =~= tfs.take(i as int - 1).push(tf));
            if tfs.take(i as int).no_duplicates() {
                assert(tfs.take(i as int - 1).no_duplicates()) by {
                    assert(forall|x: int|
                        0 <= x < i as int - 1 ==> #[trigger] tfs.take(i as int - 1)[x]
                            == tfs.take(i as int)[x]);
                }
                assert(!tfs.take(i as int - 1).contains(tf)) by {
                    if tfs.take(i as int - 1).contains(tf) {
                        let x = choose|x: int|
                            0 <= x < i as int - 1 && #[trigger] tfs.take(i as int - 1)[x] == tf;
                        assert(tfs.take(i as int)[x] == tf);
                        assert(tfs.take(i as int)[i - 1] == tf);
                    }
                }
                assert(result.spec_keys() =~= tfs.take(i as int));
            }
            assert forall|t: Timeframe|
                result.spec_map().contains_key(t) <==> tfs.take(i as int).contains(t) by {
                if t == tf {
                    assert(tfs.take(i as int)[i - 1] == tf);
                    assert(tfs.take(i as int).contains(t));
                } else {
                    if tfs.take(i as int).contains(t) {
                        let x = choose|x: int|
                            0 <= x < i as int && #[trigger] tfs.take(i as int)[x] == t;
                        assert(tfs.take(i as int - 1)[x] == t);
                        assert(tfs.take(i as int - 1).contains(t));
                    }
                    if tfs.take(i as int - 1).contains(t) {
                        let x = choose|x: int|
                            0 <= x < i as int - 1 && #[trigger] tfs.take(i as int - 1)[x] == t;
                        assert(tfs.take(i as int)[x] == t);
                        assert(tfs.take(i as int).contains(t));
                    }
                }
            }
            assert forall|j: int|
                last_occurrence_within(tfs, j, i as int) implies result.spec_map()[tfs[j]]
                == chain_level(s0, tfs, j) by {
                if j == i - 1 {
                    assert(result.spec_map()[tf] == candle_views(prev@));
                } else {
                    assert(tfs[j] != tf);
                    assert(last_occurrence_within(tfs, j, i as int - 1));
                    assert(result.spec_map()[tfs[j]] == map0[tfs[j]]);
                }
            }
        }
    }
    proof {
        assert(tfs.take(tfs.len() as int) =~= tfs);
    }
    result
}

/// Derives every requested coarser timeframe from an existing candle
/// sequence: the first requested timeframe is bound to the given candles
/// unchanged, and each later one is chained from the previous step's output.
/// An empty request yields an empty result.
pub fn aggregate_chain(candles: &Vec<Candle>, timeframes: &Vec<Timeframe>) -> (r:
    AggregationResult)
    requires
        chain_fits(candle_views(candles@)),
    ensures
        r.wf(),
        timeframes@.no_duplicates() ==> r.spec_keys() == timeframes@,
        forall|tf: Timeframe| r.spec_map().contains_key(tf) <==> timeframes@.contains(tf),
        forall|i: int|
            last_occurrence(timeframes@, i) ==> r.spec_map()[timeframes@[i]] == chain_level(
                candle_views(candles@),
                timeframes@,
                i,
            ),
{
    if timeframes.len() == 0 {
        let r = AggregationResult::new();
        proof {
            assert(forall|tf: Timeframe| !timeframes@.contains(tf));
            assert(r.spec_keys() =~= timeframes@);
        }
        return r;
    }
    let seed = clone_candles(candles);
    chain_from_seed(seed, timeframes)
}

/// Runs the whole pipeline over raw trades: aggregates the trade sequence at
/// the first (finest) requested timeframe, then chains each later timeframe
/// from the previous step's output. An empty request yields an empty result
/// without touching the trades.
pub fn aggregate_trades_chain(trades: &Vec<Trade>, timeframes: &Vec<Timeframe>) -> (r:
    AggregationResult)
    requires
        base_input_fits(trade_views(trades@)),
    ensures
        r.wf(),
        timeframes@.no_duplicates() ==> r.spec_keys() == timeframes@,
        forall|tf: Timeframe| r.spec_map().contains_key(tf) <==> timeframes@.contains(tf),
        forall|i: int|
            last_occurrence(timeframes@, i) ==> r.spec_map()[timeframes@[i]] == pipeline_level(
                trade_views(trades@),
                timeframes@,
                i,
            ),
{
    if timeframes.len() == 0 {
        let r = AggregationResult::new();
        proof {
            assert(forall|tf: Timeframe| !timeframes@.contains(tf));
            assert(r.spec_keys() =~= timeframes@);
        }
        return r;
    }
    let n = trades.len();
    let generator = CandleGenerator::default();
    let seed = generator.aggregate(trades, timeframes[0]);
    proof {
        lemma_trade_views_in_range(trades@);
        lemma_base_candles_props(trade_views(trades@), timeframes@[0]);
        assert(trades@.len() == n);
        assert(chain_fits(candle_views(seed@)));
    }
    chain_from_seed(seed, timeframes)
}

/// Aggregates a trade sequence into candles of one timeframe through the
/// engine's default generator.
pub fn aggregate_trades_to_candles(trades: &Vec<Trade>, interval: Timeframe) -> (r: Vec<Candle>)
    requires
        base_input_fits(trade_views(trades@)),
    ensures
        candle_views(r@) == base_candles(trade_views(trades@), interval),
{
    let generator = CandleGenerator::default();
    generator.aggregate(trades, interval)
}

} // verus!
