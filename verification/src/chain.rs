//! The chain of intervals: candles of a base interval rolled up level by
//! level, and the collection that holds one sequence of candles per interval.

use crate::candle::{bars, blank, customs, Bar, Candle};
use crate::generator::{
    all_wf, fold, fold_step, lemma_fold_wf, lemma_plain_rates, no_custom, plain_rates,
    rates_allowed, CandleConfig, CandleGenerator,
};
use crate::rollup::{
    aggregate_from_lower, lemma_prefix_totals, lemma_window_range, rollable, rollup, rollup_bar,
    total_count, total_volume, window, window_fits, window_len,
};
use crate::timeframe::{
    lemma_bucket_start_bounds, valid_timestamp, MAX_TIMESTAMP, MIN_TIMESTAMP,
};
use crate::types::{Timeframe, Trade};
use crate::volume::converted;
use vstd::prelude::*;

verus! {

/// One sequence of candles per interval, for the intervals that were asked
/// for.
#[derive(Debug, PartialEq, Eq)]
pub struct CandleChain {
    m1: Option<Vec<Candle>>,
    m5: Option<Vec<Candle>>,
    m15: Option<Vec<Candle>>,
    m30: Option<Vec<Candle>>,
    h1: Option<Vec<Candle>>,
    h4: Option<Vec<Candle>>,
    d1: Option<Vec<Candle>>,
}

impl CandleChain {
    /// The candles held for `tf`, if any.
    pub closed spec fn slot(&self, tf: Timeframe) -> Option<Vec<Candle>> {
        match tf {
            Timeframe::m1 => self.m1,
            Timeframe::m5 => self.m5,
            Timeframe::m15 => self.m15,
            Timeframe::m30 => self.m30,
            Timeframe::h1 => self.h1,
            Timeframe::h4 => self.h4,
            Timeframe::d1 => self.d1,
        }
    }

    /// The extension values of the candles held, by interval.
    pub open spec fn extras(&self) -> Map<Timeframe, Seq<Map<Seq<char>, int>>> {
        Map::new(
            |tf: Timeframe| self.slot(tf) is Some,
            |tf: Timeframe| customs(self.slot(tf)->0@),
        )
    }

    pub fn new() -> (chain: Self)
        ensures
            chain@ == Map::<Timeframe, Seq<Bar>>::empty(),
            chain.extras() == Map::<Timeframe, Seq<Map<Seq<char>, int>>>::empty(),
    {
        let chain = CandleChain {
            m1: None,
            m5: None,
            m15: None,
            m30: None,
            h1: None,
            h4: None,
            d1: None,
        };
        assert(chain@ =~= Map::<Timeframe, Seq<Bar>>::empty());
        assert(chain.extras() =~= Map::<Timeframe, Seq<Map<Seq<char>, int>>>::empty());
        chain
    }

    /// Puts `candles` under `tf`, in place of what was there.
    pub fn insert(&mut self, tf: Timeframe, candles: Vec<Candle>)
        ensures
            final(self)@ == old(self)@.insert(tf, bars(candles@)),
            final(self).extras() == old(self).extras().insert(tf, customs(candles@)),
            final(self).slot(tf) == Some(candles),
            forall|other: Timeframe| other != tf ==> final(self).slot(other) == old(self).slot(other),
    {
        match tf {
            Timeframe::m1 => {
                self.m1 = Some(candles);
            },
            Timeframe::m5 => {
                self.m5 = Some(candles);
            },
            Timeframe::m15 => {
                self.m15 = Some(candles);
            },
            Timeframe::m30 => {
                self.m30 = Some(candles);
            },
            Timeframe::h1 => {
                self.h1 = Some(candles);
            },
            Timeframe::h4 => {
                self.h4 = Some(candles);
            },
            Timeframe::d1 => {
                self.d1 = Some(candles);
            },
        }
        assert(self@ =~= old(self)@.insert(tf, bars(candles@)));
        assert(self.extras() =~= old(self).extras().insert(tf, customs(candles@)));
    }

    pub fn get(&self, tf: &Timeframe) -> (candles: Option<&Vec<Candle>>)
        ensures
            candles is Some <==> self@.contains_key(*tf),
            candles is Some ==> bars(candles->0@) == self@[*tf] && customs(candles->0@)
                == self.extras()[*tf] && self.slot(*tf) == Some(*candles->0),
    {
        match tf {
            Timeframe::m1 => self.m1.as_ref(),
            Timeframe::m5 => self.m5.as_ref(),
            Timeframe::m15 => self.m15.as_ref(),
            Timeframe::m30 => self.m30.as_ref(),
            Timeframe::h1 => self.h1.as_ref(),
            Timeframe::h4 => self.h4.as_ref(),
            Timeframe::d1 => self.d1.as_ref(),
        }
    }

    /// The intervals held, shortest first, each once.
    pub fn timeframes(&self) -> (held: Vec<Timeframe>)
        ensures
            forall|tf: Timeframe| held@.contains(tf) <==> self@.contains_key(tf),
            forall|i: int, j: int|
                0 <= i < j < held@.len() ==> (#[trigger] held@[i]).rank() < (
                #[trigger] held@[j]).rank(),
    {
        let mut held: Vec<Timeframe> = Vec::new();
        let mut rank: usize = 0;
        while rank < 7
            invariant
                rank <= 7,
                forall|tf: Timeframe|
                    held@.contains(tf) <==> (self@.contains_key(tf) && tf.rank() < rank),
                forall|i: int| 0 <= i < held@.len() ==> (#[trigger] held@[i]).rank() < rank,
                forall|i: int, j: int|
                    0 <= i < j < held@.len() ==> (#[trigger] held@[i]).rank() < (
                    #[trigger] held@[j]).rank(),
            decreases 7 - rank,
        {
            let tf = crate::engine::timeframe_of(rank);
            let ghost before = held@;
            if self.contains_key(&tf) {
                held.push(tf);
                proof {
                    assert forall|other: Timeframe| held@.contains(other) <==> (
                    self@.contains_key(other) && other.rank() < rank + 1) by {
                        if held@.contains(other) {
                            let i = choose|i: int| 0 <= i < held@.len() && held@[i] == other;
                            if i < before.len() {
                                assert(before[i] == other);
                                assert(before.contains(other));
                            }
                        }
                        if self@.contains_key(other) && other.rank() < rank + 1 {
                            if other.rank() < rank {
                                assert(before.contains(other));
                                let i = choose|i: int| 0 <= i < before.len() && before[i] == other;
                                assert(held@[i] == other);
                            } else {
                                assert(other == tf);
                                assert(held@[before.len() as int] == other);
                            }
                        }
                    }
                }
            } else {
                proof {
                    assert forall|other: Timeframe| held@.contains(other) <==> (
                    self@.contains_key(other) && other.rank() < rank + 1) by {
                        if other.rank() == rank {
                            assert(other == tf);
                        }
                    }
                }
            }
            rank += 1;
        }
        held
    }

    pub fn contains_key(&self, tf: &Timeframe) -> (held: bool)
        ensures
            held == self@.contains_key(*tf),
    {
        self.get(tf).is_some()
    }
}

impl View for CandleChain {
    type V = Map<Timeframe, Seq<Bar>>;

    open spec fn view(&self) -> Map<Timeframe, Seq<Bar>> {
        Map::new(
            |tf: Timeframe| self.slot(tf) is Some,
            |tf: Timeframe| bars(self.slot(tf)->0@),
        )
    }
}

/// The seven intervals, shortest first.
pub open spec fn hierarchy() -> Seq<Timeframe> {
    seq![
        Timeframe::m1,
        Timeframe::m5,
        Timeframe::m15,
        Timeframe::m30,
        Timeframe::h1,
        Timeframe::h4,
        Timeframe::d1,
    ]
}

/// The bars at position `i` of a chain over `tfs`: `base` at position 0, and
/// above it each level rolled up from the one before.
pub open spec fn level(base: Seq<Bar>, tfs: Seq<Timeframe>, i: int) -> Seq<Bar>
    decreases i,
{
    if i <= 0 {
        base
    } else {
        rollup(level(base, tfs, i - 1), tfs[i])
    }
}

/// The chain over the first `n` intervals of `tfs`; an interval listed twice
/// keeps its later level.
pub open spec fn chain_map(base: Seq<Bar>, tfs: Seq<Timeframe>, n: int) -> Map<
    Timeframe,
    Seq<Bar>,
>
    decreases n,
{
    if n <= 0 {
        Map::empty()
    } else {
        chain_map(base, tfs, n - 1).insert(tfs[n - 1], level(base, tfs, n - 1))
    }
}

/// The extension values at position `i` of a chain built without metrics:
/// those of the base candles at position 0, none above.
pub open spec fn level_customs(
    base: Seq<Bar>,
    base_customs: Seq<Map<Seq<char>, int>>,
    tfs: Seq<Timeframe>,
    i: int,
) -> Seq<Map<Seq<char>, int>> {
    if i <= 0 {
        base_customs
    } else {
        blank(level(base, tfs, i).len())
    }
}

/// The extension values of a chain built without metrics, over the first `n`
/// intervals of `tfs`.
pub open spec fn chain_customs(
    base: Seq<Bar>,
    base_customs: Seq<Map<Seq<char>, int>>,
    tfs: Seq<Timeframe>,
    n: int,
) -> Map<Timeframe, Seq<Map<Seq<char>, int>>>
    decreases n,
{
    if n <= 0 {
        Map::empty()
    } else {
        chain_customs(base, base_customs, tfs, n - 1).insert(
            tfs[n - 1],
            level_customs(base, base_customs, tfs, n - 1),
        )
    }
}

/// Candles without extension values have blank ones.
pub proof fn lemma_blank(candles: Seq<Candle>)
    requires
        no_custom(candles),
    ensures
        customs(candles) == blank(candles.len()),
{
    assert(customs(candles) =~= blank(candles.len()));
}

/// Every level of the chain can be rolled up into the next.
pub open spec fn chain_rollable(base: Seq<Bar>, tfs: Seq<Timeframe>) -> bool {
    forall|i: int| 1 <= i < tfs.len() ==> rollable(#[trigger] level(base, tfs, i - 1), tfs[i])
}

/// Bars at supported instants whose counts and volumes add up to
/// representable totals.
pub open spec fn bounded(bars: Seq<Bar>) -> bool {
    &&& forall|k: int| 0 <= k < bars.len() ==> valid_timestamp((#[trigger] bars[k]).timestamp)
    &&& total_count(bars) <= u64::MAX
    &&& total_volume(bars) <= u128::MAX
}

proof fn lemma_concat_totals(a: Seq<Bar>, b: Seq<Bar>)
    ensures
        total_count(a + b) == total_count(a) + total_count(b),
        total_volume(a + b) == total_volume(a) + total_volume(b),
    decreases b.len(),
{
    if b.len() == 0 {
        assert(a + b =~= a);
    } else {
        assert((a + b).drop_last() =~= a + b.drop_last());
        assert((a + b).last() == b.last());
        lemma_concat_totals(a, b.drop_last());
    }
}

proof fn lemma_window_within(all: Seq<Bar>, tf: Timeframe, k: int)
    requires
        0 <= k < all.len() / window_len(tf),
    ensures
        total_count(window(all, tf, k)) <= total_count(all),
        total_volume(window(all, tf, k)) <= total_volume(all),
        window(all, tf, k).len() == window_len(tf),
        window(all, tf, k)[0] == all[k * window_len(tf)],
{
    let w = window_len(tf) as int;
    lemma_window_range(all.len() as int, w, k);
    let lo = k * w;
    let hi = lo + w;
    let win = window(all, tf, k);
    assert(all =~= all.take(lo) + win + all.skip(hi));
    lemma_concat_totals(all.take(lo) + win, all.skip(hi));
    lemma_concat_totals(all.take(lo), win);
}

/// The first `k` rolled-up bars hold the counts and volumes of the first `k`
/// windows.
proof fn lemma_rollup_prefix(all: Seq<Bar>, tf: Timeframe, k: int)
    requires
        0 <= k <= all.len() / window_len(tf),
    ensures
        0 <= k * window_len(tf) <= all.len(),
        total_count(rollup(all, tf).take(k)) == total_count(all.take(k * window_len(tf))),
        total_volume(rollup(all, tf).take(k)) == total_volume(all.take(k * window_len(tf))),
    decreases k,
{
    let w = window_len(tf) as int;
    let up = rollup(all, tf);
    if k == 0 {
        assert(k * w == 0) by (nonlinear_arith)
            requires
                k == 0,
        ;
        assert(up.take(0) =~= Seq::<Bar>::empty());
        assert(all.take(0) =~= Seq::<Bar>::empty());
    } else {
        lemma_rollup_prefix(all, tf, k - 1);
        lemma_window_range(all.len() as int, w, k - 1);
        let lo = (k - 1) * w;
        assert(k * w == lo + w) by (nonlinear_arith)
            requires
                lo == (k - 1) * w,
        ;
        let win = window(all, tf, k - 1);
        assert(win == all.subrange(lo, lo + w));
        assert(up.take(k).drop_last() =~= up.take(k - 1));
        assert(up.take(k).last() == rollup_bar(win, tf));
        assert(all.take(k * w) =~= all.take(lo) + win);
        lemma_concat_totals(all.take(lo), win);
    }
}

/// Bounded bars can be rolled up, and what they roll up into is bounded too.
pub proof fn lemma_bounded_rollup(all: Seq<Bar>, tf: Timeframe)
    requires
        bounded(all),
    ensures
        rollable(all, tf),
        bounded(rollup(all, tf)),
{
    let w = window_len(tf) as int;
    let up = rollup(all, tf);
    assert forall|k: int| 0 <= k < all.len() / window_len(tf) implies window_fits(
        #[trigger] window(all, tf, k),
    ) by {
        lemma_window_within(all, tf, k);
        lemma_window_range(all.len() as int, w, k);
    }
    assert forall|k: int| 0 <= k < up.len() implies valid_timestamp((#[trigger] up[k]).timestamp) by {
        lemma_window_within(all, tf, k);
        lemma_window_range(all.len() as int, w, k);
        lemma_bucket_start_bounds(window(all, tf, k)[0].timestamp, tf);
    }
    lemma_rollup_prefix(all, tf, up.len() as int);
    assert(up.take(up.len() as int) =~= up);
    lemma_prefix_totals(all, up.len() * w);
}

/// A chain over bounded bars can be rolled up at every level.
pub proof fn lemma_bounded_chain(base: Seq<Bar>, tfs: Seq<Timeframe>)
    requires
        bounded(base),
    ensures
        chain_rollable(base, tfs),
{
    assert forall|i: int| 1 <= i < tfs.len() implies rollable(
        #[trigger] level(base, tfs, i - 1),
        tfs[i],
    ) by {
        lemma_bounded_level(base, tfs, i - 1);
        lemma_bounded_rollup(level(base, tfs, i - 1), tfs[i]);
    }
}

proof fn lemma_bounded_level(base: Seq<Bar>, tfs: Seq<Timeframe>, i: int)
    requires
        bounded(base),
    ensures
        bounded(level(base, tfs, i)),
    decreases i,
{
    if i > 0 {
        lemma_bounded_level(base, tfs, i - 1);
        lemma_bounded_rollup(level(base, tfs, i - 1), tfs[i]);
    }
}

/// The bars folded from trades hold every trade once.
pub proof fn lemma_fold_totals(trades: Seq<Trade>, rates: Seq<Option<u64>>, tf: Timeframe)
    ensures
        total_count(fold(trades, rates, tf)) == trades.len(),
        total_volume(fold(trades, rates, tf)) <= trades.len() * u64::MAX,
    decreases trades.len(),
{
    if trades.len() > 0 {
        let done = fold(trades.drop_last(), rates.drop_last(), tf);
        let trade = trades.last();
        let now = fold_step(done, trade, converted(trade, rates.last()), tf);
        lemma_fold_totals(trades.drop_last(), rates.drop_last(), tf);
        if now.len() == done.len() {
            assert(now.drop_last() =~= done.drop_last());
        } else {
            assert(now.drop_last() =~= done);
        }
        assert(trades.len() * u64::MAX == (trades.len() - 1) * u64::MAX + u64::MAX)
            by (nonlinear_arith);
    }
}

/// The bars folded from well-formed trades held in memory are bounded.
pub proof fn lemma_fold_bounded(trades: Seq<Trade>, rates: Seq<Option<u64>>, tf: Timeframe)
    requires
        all_wf(trades),
        trades.len() <= usize::MAX,
    ensures
        bounded(fold(trades, rates, tf)),
{
    lemma_fold_totals(trades, rates, tf);
    lemma_fold_wf(trades, rates, tf);
    assert(trades.len() * u64::MAX <= u64::MAX * u64::MAX) by (nonlinear_arith)
        requires
            trades.len() <= u64::MAX,
    ;
}

/// A copy of every candle, in order.
pub fn copy_candles(candles: &[Candle]) -> (copy: Vec<Candle>)
    ensures
        bars(copy@) == bars(candles@),
        customs(copy@) == customs(candles@),
        copy@.len() == candles@.len(),
        forall|k: int| 0 <= k < candles@.len() ==> (#[trigger] copy@[k]).custom@ == candles@[k].custom@,
{
    let mut copy: Vec<Candle> = Vec::new();
    let mut i: usize = 0;
    while i < candles.len()
        invariant
            i <= candles.len(),
            copy@.len() == i,
            forall|k: int| 0 <= k < i ==> (#[trigger] copy@[k])@ == candles@[k]@,
            forall|k: int| 0 <= k < i ==> (#[trigger] copy@[k]).custom@ == candles@[k].custom@,
        decreases candles.len() - i,
    {
        copy.push(candles[i].clone());
        i += 1;
    }
    assert(bars(copy@) =~= bars(candles@));
    assert(customs(copy@) =~= customs(candles@));
    copy
}

/// Builds the chain over `timeframes` from candles of the first of them.
pub(crate) fn chain_from(base: Vec<Candle>, timeframes: &[Timeframe], config: &CandleConfig) -> (chain:
    CandleChain)
    requires
        timeframes@.len() > 0,
        chain_rollable(bars(base@), timeframes@),
    ensures
        chain@ == chain_map(bars(base@), timeframes@, timeframes@.len() as int),
        config.custom_metrics@.len() == 0 ==> chain.extras() == chain_customs(
            bars(base@),
            customs(base@),
            timeframes@,
            timeframes@.len() as int,
        ),
{
    let ghost start = bars(base@);
    let ghost carried = customs(base@);
    let ghost tfs = timeframes@;
    let ghost quiet = config.custom_metrics@.len() == 0;
    let mut chain = CandleChain::new();
    let mut prev: Vec<Candle> = copy_candles(base.as_slice());
    chain.insert(timeframes[0], base);
    assert(chain_map(start, tfs, 0) =~= Map::<Timeframe, Seq<Bar>>::empty());
    assert(chain_customs(start, carried, tfs, 0) =~= Map::<
        Timeframe,
        Seq<Map<Seq<char>, int>>,
    >::empty());
    let mut i: usize = 1;
    while i < timeframes.len()
        invariant
            1 <= i <= timeframes.len(),
            tfs == timeframes@,
            quiet == (config.custom_metrics@.len() == 0),
            chain_rollable(start, tfs),
            bars(prev@) == level(start, tfs, i - 1),
            chain@ == chain_map(start, tfs, i as int),
            quiet ==> chain.extras() == chain_customs(start, carried, tfs, i as int),
        decreases timeframes.len() - i,
    {
        assert(rollable(level(start, tfs, i - 1), tfs[i as int]));
        let higher = aggregate_from_lower(prev.as_slice(), &timeframes[i], config);
        proof {
            assert(bars(higher@).len() == higher@.len());
            if quiet {
                lemma_blank(higher@);
            }
        }
        prev = copy_candles(higher.as_slice());
        chain.insert(timeframes[i], higher);
        i += 1;
    }
    chain
}

/// Rolls `candles`, which are of the first interval in `timeframes`, up
/// through the rest of the list: each interval from the level before it, in
/// windows of that interval's ratio. No interval gives an empty chain.
pub fn aggregate_chain(candles: &[Candle], timeframes: &[Timeframe]) -> (chain: CandleChain)
    requires
        chain_rollable(bars(candles@), timeframes@),
    ensures
        chain@ == chain_map(bars(candles@), timeframes@, timeframes@.len() as int),
        chain.extras() == chain_customs(
            bars(candles@),
            customs(candles@),
            timeframes@,
            timeframes@.len() as int,
        ),
{
    if timeframes.len() == 0 {
        return CandleChain::new();
    }
    let config = CandleConfig::default();
    chain_from(copy_candles(candles), timeframes, &config)
}

/// Whether the candles are bounded.
pub fn is_bounded(candles: &[Candle]) -> (ok: bool)
    ensures
        ok == bounded(bars(candles@)),
{
    let ghost all = bars(candles@);
    let mut count: u64 = 0;
    let mut volume: u128 = 0;
    let mut i: usize = 0;
    assert(all.take(0) =~= Seq::<Bar>::empty());
    while i < candles.len()
        invariant
            i <= candles.len(),
            all == bars(candles@),
            count == total_count(all.take(i as int)),
            volume == total_volume(all.take(i as int)),
            forall|k: int| 0 <= k < i ==> valid_timestamp((#[trigger] all[k]).timestamp),
        decreases candles.len() - i,
    {
        let c = &candles[i];
        proof {
            assert(all[i as int] == c@);
            assert(all.take(i + 1).drop_last() =~= all.take(i as int));
            assert(all.take(i + 1).last() == all[i as int]);
            lemma_prefix_totals(all, i + 1);
        }
        if c.timestamp < MIN_TIMESTAMP || c.timestamp > MAX_TIMESTAMP {
            return false;
        }
        match count.checked_add(c.trade_count) {
            Some(sum) => {
                count = sum;
            },
            None => {
                return false;
            },
        }
        match volume.checked_add(c.volume) {
            Some(sum) => {
                volume = sum;
            },
            None => {
                return false;
            },
        }
        i += 1;
    }
    assert(all.take(candles@.len() as int) =~= all);
    true
}

/// The chain over `timeframes` from `candles`, if the candles are bounded;
/// nothing if they are not.
pub fn checked_chain(candles: &[Candle], timeframes: &[Timeframe]) -> (chain: Option<CandleChain>)
    ensures
        chain is Some <==> bounded(bars(candles@)),
        chain is Some ==> chain->0@ == chain_map(
            bars(candles@),
            timeframes@,
            timeframes@.len() as int,
        ),
        chain is Some ==> chain->0.extras() == chain_customs(
            bars(candles@),
            customs(candles@),
            timeframes@,
            timeframes@.len() as int,
        ),
{
    if !is_bounded(candles) {
        return None;
    }
    proof {
        lemma_bounded_chain(bars(candles@), timeframes@);
    }
    Some(aggregate_chain(candles, timeframes))
}

impl CandleGenerator {
    /// Folds `trades` into `m1` candles and rolls them up through the whole
    /// hierarchy: `m5` from `m1`, `m15` from `m5`, and so on up to `d1`.
    pub fn aggregate_chain(&self, trades: &[Trade]) -> (chain: CandleChain)
        requires
            all_wf(trades@),
        ensures
            exists|rates: Seq<Option<u64>>|
                {
                    let base = fold(trades@, rates, Timeframe::m1);
                    &&& #[trigger] rates_allowed(self.config.volume_in_usdt, trades@, rates)
                    &&& chain@ == chain_map(base, hierarchy(), 7)
                    &&& self.config.custom_metrics@.len() == 0 ==> chain.extras() == chain_customs(
                        base,
                        blank(base.len()),
                        hierarchy(),
                        7,
                    )
                },
            !(self.config.volume_in_usdt is Callback) ==> ({
                let base = fold(
                    trades@,
                    plain_rates(self.config.volume_in_usdt, trades@),
                    Timeframe::m1,
                );
                &&& chain@ == chain_map(base, hierarchy(), 7)
                &&& self.config.custom_metrics@.len() == 0 ==> chain.extras() == chain_customs(
                    base,
                    blank(base.len()),
                    hierarchy(),
                    7,
                )
            }),
    {
        let order: Vec<Timeframe> = vec![
            Timeframe::m1,
            Timeframe::m5,
            Timeframe::m15,
            Timeframe::m30,
            Timeframe::h1,
            Timeframe::h4,
            Timeframe::d1,
        ];
        assert(order@ =~= hierarchy());
        let base = self.aggregate(trades, Timeframe::m1);
        let held: usize = trades.len();
        proof {
            assert(trades@.len() == held);
            let rates = choose|rates: Seq<Option<u64>>| #[trigger]
                rates_allowed(self.config.volume_in_usdt, trades@, rates) && bars(base@) == fold(
                    trades@,
                    rates,
                    Timeframe::m1,
                );
            if !(self.config.volume_in_usdt is Callback) {
                lemma_plain_rates(self.config.volume_in_usdt, trades@, rates);
            }
            lemma_fold_bounded(trades@, rates, Timeframe::m1);
            lemma_bounded_chain(bars(base@), order@);
            assert(bars(base@).len() == base@.len());
            if self.config.custom_metrics@.len() == 0 {
                lemma_blank(base@);
            }
        }
        chain_from(base, order.as_slice(), &self.config)
    }
}

} // verus!
