//! Batch folding: one pass over a sequence of trades, one candle per run of
//! trades that share a bucket. Buckets without trades produce nothing.

use crate::candle::{bars, lemma_bar_rules, merge_bar, open_bar, Bar, Candle};
use crate::timeframe::{bucket_start, lemma_bucket_start_bounds, truncate_to_tf};
use crate::types::{Timeframe, Trade};
use crate::volume::{
    calc_volume_usdt, converted, plain_rate, rate_allowed, resolve_rate, usdt_at_rate,
    usdt_model, UsdtVolumeSource,
};
use vstd::prelude::*;

verus! {

/// A metric that a caller plugs in. It keeps its results among the candle's
/// extension values and leaves every other field as it found it.
pub trait CandleMetric {
    /// Takes one trade into account. The candle already includes the trade
    /// in its prices, volume and count.
    fn update(&self, trade: &Trade, candle: &mut Candle)
        ensures
            final(candle)@ == old(candle)@,
    ;

    /// Fills the extension values of `dst`, a candle rolled up from the
    /// window `src` of candles of the interval below.
    fn aggregate(&self, src: &[Candle], dst: &mut Candle)
        ensures
            final(dst)@ == old(dst)@,
    ;
}

/// What a generator computes besides prices, volume and count.
pub struct CandleConfig {
    pub basic_ohlcv: bool,
    pub volume_in_usdt: UsdtVolumeSource,
    pub custom_metrics: Vec<Box<dyn CandleMetric>>,
}

impl Default for CandleConfig {
    fn default() -> (config: Self)
        ensures
            config.basic_ohlcv,
            config.volume_in_usdt is Disabled,
            config.custom_metrics@.len() == 0,
    {
        CandleConfig {
            basic_ohlcv: true,
            volume_in_usdt: UsdtVolumeSource::Disabled,
            custom_metrics: Vec::new(),
        }
    }
}

/// What one more trade does to the bars folded so far: it extends the last
/// bar if it falls in the same bucket, and opens a new bar otherwise.
pub open spec fn fold_step(done: Seq<Bar>, trade: Trade, usdt: Option<nat>, tf: Timeframe) -> Seq<
    Bar,
> {
    if done.len() > 0 && done.last().timestamp == bucket_start(trade.timestamp as int, tf) {
        done.update(done.len() - 1, merge_bar(done.last(), trade, usdt))
    } else {
        done.push(open_bar(trade, usdt, tf))
    }
}

/// The bars of `trades` at interval `tf`, in input order, where `rates[i]` is
/// the rate to USDT that applies to `trades[i]`.
pub open spec fn fold(trades: Seq<Trade>, rates: Seq<Option<u64>>, tf: Timeframe) -> Seq<Bar>
    decreases trades.len(),
{
    if trades.len() == 0 {
        Seq::empty()
    } else {
        fold_step(
            fold(trades.drop_last(), rates.drop_last(), tf),
            trades.last(),
            converted(trades.last(), rates.last()),
            tf,
        )
    }
}

/// One rate per trade, each of them one that `source` may give.
pub open spec fn rates_allowed(
    source: UsdtVolumeSource,
    trades: Seq<Trade>,
    rates: Seq<Option<u64>>,
) -> bool {
    &&& rates.len() == trades.len()
    &&& forall|i: int| 0 <= i < trades.len() ==> rate_allowed(source, trades[i], #[trigger] rates[i])
}

/// The rates of a source that is no callback, one per trade.
pub open spec fn plain_rates(source: UsdtVolumeSource, trades: Seq<Trade>) -> Seq<Option<u64>> {
    Seq::new(trades.len(), |i: int| plain_rate(source, trades[i]))
}

/// A source that is no callback allows one sequence of rates only.
pub proof fn lemma_plain_rates(
    source: UsdtVolumeSource,
    trades: Seq<Trade>,
    rates: Seq<Option<u64>>,
)
    requires
        !(source is Callback),
        rates_allowed(source, trades, rates),
    ensures
        rates == plain_rates(source, trades),
{
    assert(rates =~= plain_rates(source, trades));
}

pub open spec fn all_wf(trades: Seq<Trade>) -> bool {
    forall|i: int| 0 <= i < trades.len() ==> (#[trigger] trades[i]).wf()
}

/// Whether every trade is well-formed.
pub fn all_valid(trades: &[Trade]) -> (ok: bool)
    ensures
        ok == all_wf(trades@),
{
    let mut i: usize = 0;
    while i < trades.len()
        invariant
            i <= trades.len(),
            forall|j: int| 0 <= j < i ==> (#[trigger] trades@[j]).wf(),
        decreases trades.len() - i,
    {
        if !trades[i].is_valid() {
            return false;
        }
        i += 1;
    }
    true
}

/// Every candle carries no extension value.
pub open spec fn no_custom(candles: Seq<Candle>) -> bool {
    forall|k: int|
        0 <= k < candles.len() ==> (#[trigger] candles[k]).custom@ == Map::<Seq<char>, int>::empty()
}

/// Every folded bar is well-formed, holds at least one trade, and no more
/// trades than were folded.
pub proof fn lemma_fold_wf(trades: Seq<Trade>, rates: Seq<Option<u64>>, tf: Timeframe)
    requires
        all_wf(trades),
    ensures
        fold(trades, rates, tf).len() <= trades.len(),
        trades.len() > 0 ==> fold(trades, rates, tf).len() > 0,
        forall|k: int|
            0 <= k < fold(trades, rates, tf).len() ==> {
                let bar = #[trigger] fold(trades, rates, tf)[k];
                &&& bar.wf()
                &&& bar.interval == tf
                &&& 1 <= bar.trade_count <= trades.len()
                &&& bar.volume <= bar.trade_count * u64::MAX
            },
    decreases trades.len(),
{
    if trades.len() > 0 {
        let head = trades.drop_last();
        let done = fold(head, rates.drop_last(), tf);
        let trade = trades.last();
        let usdt = converted(trade, rates.last());
        assert(all_wf(head)) by {
            assert forall|i: int| 0 <= i < head.len() implies (#[trigger] head[i]).wf() by {
                assert(head[i] == trades[i]);
            }
        }
        lemma_fold_wf(head, rates.drop_last(), tf);
        assert(trade.wf());
        lemma_bucket_start_bounds(trade.timestamp as int, tf);
        let now = fold(trades, rates, tf);
        assert forall|k: int| 0 <= k < now.len() implies {
            let bar = #[trigger] now[k];
            &&& bar.wf()
            &&& bar.interval == tf
            &&& 1 <= bar.trade_count <= trades.len()
            &&& bar.volume <= bar.trade_count * u64::MAX
        } by {
            if k < now.len() - 1 {
                assert(now[k] == done[k]);
            } else if done.len() > 0 && done.last().timestamp == bucket_start(
                trade.timestamp as int,
                tf,
            ) {
                lemma_bar_rules(done.last(), trade, usdt, tf);
                assert(done.last() == done[done.len() - 1]);
            } else {
                lemma_bar_rules(now[k], trade, usdt, tf);
            }
        }
    }
}

proof fn lemma_no_custom_last(head: Seq<Candle>, before: Candle, after: Candle)
    requires
        no_custom(head.push(before)),
        after.custom == before.custom,
    ensures
        no_custom(head.push(after)),
{
    assert(head.push(before)[head.len() as int] == before);
    assert forall|k: int| 0 <= k < head.len() + 1 implies (#[trigger] head.push(after)[k]).custom@
        == Map::<Seq<char>, int>::empty() by {
        if k < head.len() {
            assert(head.push(before)[k] == head.push(after)[k]);
        }
    }
}

proof fn lemma_no_custom_push(head: Seq<Candle>, next: Candle)
    requires
        no_custom(head),
        next.custom@ == Map::<Seq<char>, int>::empty(),
    ensures
        no_custom(head.push(next)),
{
}

/// Lets every metric take `trade` into account, in registration order.
pub(crate) fn update_metrics(metrics: &Vec<Box<dyn CandleMetric>>, trade: &Trade, candle: &mut Candle)
    ensures
        final(candle)@ == old(candle)@,
        metrics@.len() == 0 ==> final(candle).custom == old(candle).custom,
{
    let mut m: usize = 0;
    while m < metrics.len()
        invariant
            m <= metrics.len(),
            candle@ == old(candle)@,
            metrics@.len() == 0 ==> candle.custom == old(candle).custom,
        decreases metrics.len() - m,
    {
        metrics[m].update(trade, candle);
        m += 1;
    }
}

/// The candle that `trade` opens at `ts`, the start of its bucket: seeded
/// with the trade, its USDT volume taken from the configured source, and
/// every metric updated once.
pub fn new_candle(trade: &Trade, tf: Timeframe, ts: i64, config: &CandleConfig) -> (candle: Candle)
    requires
        ts == bucket_start(trade.timestamp as int, tf),
    ensures
        exists|rate: Option<u64>|
            rate_allowed(config.volume_in_usdt, *trade, rate) && candle@ == open_bar(
                *trade,
                #[trigger] converted(*trade, rate),
                tf,
            ),
        config.custom_metrics@.len() == 0 ==> candle.custom@ == Map::<Seq<char>, int>::empty(),
{
    let usdt = calc_volume_usdt(trade, &config.volume_in_usdt);
    let mut candle = Candle::open_with(trade, tf, ts, usdt);
    update_metrics(&config.custom_metrics, trade, &mut candle);
    candle
}

/// The folding loop, with the rate that was used for each trade.
fn fold_trades(trades: &[Trade], tf: Timeframe, config: &CandleConfig) -> (out: (
    Vec<Candle>,
    Ghost<Seq<Option<u64>>>,
))
    requires
        all_wf(trades@),
    ensures
        bars(out.0@) == fold(trades@, out.1@, tf),
        rates_allowed(config.volume_in_usdt, trades@, out.1@),
        config.custom_metrics@.len() == 0 ==> no_custom(out.0@),
{
    let mut candles: Vec<Candle> = Vec::new();
    let ghost mut rates: Seq<Option<u64>> = Seq::empty();
    let ghost quiet = config.custom_metrics@.len() == 0;
    if trades.len() == 0 {
        proof {
            assert(bars(candles@) =~= fold(trades@, rates, tf));
        }
        return (candles, Ghost(rates));
    }
    let first_ts: i64 = truncate_to_tf(trades[0].timestamp, &tf);
    let first_rate = resolve_rate(&trades[0], &config.volume_in_usdt);
    proof {
        rates = rates.push(first_rate);
    }
    let mut current: Candle = Candle::open_with(
        &trades[0],
        tf,
        first_ts,
        usdt_at_rate(&trades[0], first_rate),
    );
    update_metrics(&config.custom_metrics, &trades[0], &mut current);
    proof {
        let head = trades@.take(1);
        assert(head.drop_last() =~= Seq::<Trade>::empty());
        assert(head.last() == trades@[0]);
        assert(fold(head.drop_last(), rates.drop_last(), tf) =~= Seq::<Bar>::empty());
        assert(bars(candles@).push(current@) =~= fold(head, rates, tf));
    }
    let mut i: usize = 1;
    while i < trades.len()
        invariant
            1 <= i <= trades.len(),
            all_wf(trades@),
            rates.len() == i,
            bars(candles@).push(current@) == fold(trades@.take(i as int), rates, tf),
            current.trade_count <= i,
            current.volume <= i * u64::MAX,
            quiet == (config.custom_metrics@.len() == 0),
            forall|j: int|
                0 <= j < i ==> rate_allowed(config.volume_in_usdt, trades@[j], #[trigger] rates[j]),
            quiet ==> no_custom(candles@.push(current)),
        decreases trades.len() - i,
    {
        let trade = &trades[i];
        assert(trade.wf());
        let ts: i64 = truncate_to_tf(trade.timestamp, &tf);
        let ghost before = bars(candles@).push(current@);
        let ghost old_rates = rates;
        let ghost old_candles = candles@;
        let ghost old_current = current;
        let rate = resolve_rate(trade, &config.volume_in_usdt);
        proof {
            rates = rates.push(rate);
        }
        let usdt: Option<u128> = usdt_at_rate(trade, rate);
        assert(usdt_model(usdt) == converted(*trade, rates.last()));
        proof {
            let upto = trades@.take(i as int + 1);
            assert(upto.drop_last() =~= trades@.take(i as int));
            assert(upto.last() == *trade);
            assert(rates.drop_last() =~= old_rates);
            assert(fold(upto, rates, tf) == fold_step(before, *trade, usdt_model(usdt), tf));
            assert(before.last() == current@);
            assert((i + 1) * u64::MAX == i * u64::MAX + u64::MAX) by (nonlinear_arith);
        }
        if current.timestamp == ts {
            current.absorb(trade, usdt);
            update_metrics(&config.custom_metrics, trade, &mut current);
            proof {
                assert(bars(candles@).push(current@) =~= fold(
                    trades@.take(i as int + 1),
                    rates,
                    tf,
                ));
                if quiet {
                    lemma_no_custom_last(old_candles, old_current, current);
                }
            }
        } else {
            let mut fresh = Candle::open_with(trade, tf, ts, usdt);
            update_metrics(&config.custom_metrics, trade, &mut fresh);
            let closed = current;
            current = fresh;
            candles.push(closed);
            proof {
                assert(bars(candles@) =~= before);
                assert(bars(candles@).push(current@) =~= fold(
                    trades@.take(i as int + 1),
                    rates,
                    tf,
                ));
                if quiet {
                    lemma_no_custom_push(candles@, current);
                }
            }
        }
        i += 1;
    }
    candles.push(current);
    proof {
        assert(trades@.take(trades@.len() as int) =~= trades@);
        assert(bars(candles@) =~= fold(trades@, rates, tf));
    }
    (candles, Ghost(rates))
}

/// The batch folder with USDT volume and metrics.
pub struct CandleGenerator {
    pub config: CandleConfig,
}

impl Default for CandleGenerator {
    fn default() -> (generator: Self)
        ensures
            generator.config.basic_ohlcv,
            generator.config.volume_in_usdt is Disabled,
            generator.config.custom_metrics@.len() == 0,
    {
        CandleGenerator { config: CandleConfig::default() }
    }
}

impl CandleGenerator {
    /// Folds `trades`, in the order given, into candles of `timeframe`: one
    /// candle per run of consecutive trades in the same bucket. The input is
    /// not sorted here; a bucket that comes back after another one opens a
    /// second candle.
    pub fn aggregate(&self, trades: &[Trade], timeframe: Timeframe) -> (candles: Vec<Candle>)
        requires
            all_wf(trades@),
        ensures
            exists|rates: Seq<Option<u64>>| #[trigger]
                rates_allowed(self.config.volume_in_usdt, trades@, rates) && bars(candles@) == fold(
                    trades@,
                    rates,
                    timeframe,
                ),
            !(self.config.volume_in_usdt is Callback) ==> bars(candles@) == fold(
                trades@,
                plain_rates(self.config.volume_in_usdt, trades@),
                timeframe,
            ),
            self.config.custom_metrics@.len() == 0 ==> no_custom(candles@),
            forall|k: int| 0 <= k < candles.len() ==> (#[trigger] candles[k])@.wf(),
    {
        let (candles, Ghost(rates)) = fold_trades(trades, timeframe, &self.config);
        proof {
            if !(self.config.volume_in_usdt is Callback) {
                lemma_plain_rates(self.config.volume_in_usdt, trades@, rates);
            }
            lemma_fold_wf(trades@, rates, timeframe);
            assert forall|k: int| 0 <= k < candles.len() implies (#[trigger] candles[k])@.wf() by {
                assert(bars(candles@)[k] == candles[k]@);
            }
        }
        candles
    }
}

/// The second batch folder. It folds as `CandleGenerator` does and computes
/// what its configuration asks for.
pub struct CandleAggregator {
    pub config: CandleConfig,
}

impl Default for CandleAggregator {
    fn default() -> (aggregator: Self)
        ensures
            aggregator.config.basic_ohlcv,
            aggregator.config.volume_in_usdt is Disabled,
            aggregator.config.custom_metrics@.len() == 0,
    {
        CandleAggregator { config: CandleConfig::default() }
    }
}

impl CandleAggregator {
    /// Folds `trades`, in the order given, into candles of `timeframe`: one
    /// candle per run of consecutive trades in the same bucket, with the USDT
    /// volume and the metrics of the configuration.
    pub fn aggregate(&self, trades: &[Trade], timeframe: Timeframe) -> (candles: Vec<Candle>)
        requires
            all_wf(trades@),
        ensures
            exists|rates: Seq<Option<u64>>| #[trigger]
                rates_allowed(self.config.volume_in_usdt, trades@, rates) && bars(candles@) == fold(
                    trades@,
                    rates,
                    timeframe,
                ),
            !(self.config.volume_in_usdt is Callback) ==> bars(candles@) == fold(
                trades@,
                plain_rates(self.config.volume_in_usdt, trades@),
                timeframe,
            ),
            self.config.custom_metrics@.len() == 0 ==> no_custom(candles@),
            forall|k: int| 0 <= k < candles.len() ==> (#[trigger] candles[k])@.wf(),
    {
        let (candles, Ghost(rates)) = fold_trades(trades, timeframe, &self.config);
        proof {
            if !(self.config.volume_in_usdt is Callback) {
                lemma_plain_rates(self.config.volume_in_usdt, trades@, rates);
            }
            lemma_fold_wf(trades@, rates, timeframe);
            assert forall|k: int| 0 <= k < candles.len() implies (#[trigger] candles[k])@.wf() by {
                assert(bars(candles@)[k] == candles[k]@);
            }
        }
        candles
    }
}

} // verus!
