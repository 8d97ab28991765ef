//! Live ingestion: a stateful engine that takes trades one by one, in any
//! order of arrival, and keeps a history of candles per interval.

use crate::candle::{bars, open_bar, Bar, Candle};
use crate::generator::no_custom;
use crate::generator::{update_metrics, CandleConfig, CandleMetric};
use crate::model::{
    base_ok, cascade, due, gaps, ingest, ingest_base, ingestible, lemma_cascade_step,
    lemma_ingest_wf, lemma_newest_window, level_ok, model_wf, newest_rollup, slot, timeframe_at,
    MAX_TRADES,
};
use crate::rollup::{roll_window, window_len, window_size};
use crate::timeframe::{truncate_to_tf, MAX_TIMESTAMP, MIN_TIMESTAMP};
use crate::types::{Instrument, Timeframe, Trade};
use crate::volume::{calc_volume_usdt, converted, rate_allowed, usdt_model, UsdtVolumeSource};
use vstd::prelude::*;
use vstd::slice::slice_subrange;

verus! {

/// The live engine for one instrument. It keeps a history for `m1` and for
/// every interval above it up to the highest one asked for.
pub struct CandleEngine {
    instrument: Instrument,
    config: CandleConfig,
    top: Timeframe,
    histories: Vec<Vec<Candle>>,
    seen: u64,
}

/// The interval at a position of the hierarchy.
pub fn timeframe_of(rank: usize) -> (tf: Timeframe)
    requires
        rank < 7,
    ensures
        tf == timeframe_at(rank as int),
        tf.rank() == rank,
{
    if rank == 0 {
        Timeframe::m1
    } else if rank == 1 {
        Timeframe::m5
    } else if rank == 2 {
        Timeframe::m15
    } else if rank == 3 {
        Timeframe::m30
    } else if rank == 4 {
        Timeframe::h1
    } else if rank == 5 {
        Timeframe::h4
    } else {
        Timeframe::d1
    }
}

/// The rank of the highest interval in a list; 0 for an empty list.
pub open spec fn highest_rank(timeframes: Seq<Timeframe>) -> nat
    decreases timeframes.len(),
{
    if timeframes.len() == 0 {
        0
    } else if timeframes.last().rank() > highest_rank(timeframes.drop_last()) {
        timeframes.last().rank()
    } else {
        highest_rank(timeframes.drop_last())
    }
}

/// Seven empty histories.
fn empty_histories() -> (histories: Vec<Vec<Candle>>)
    ensures
        histories@.len() == 7,
        forall|rank: int| 0 <= rank < 7 ==> (#[trigger] histories@[rank])@.len() == 0,
{
    let mut histories: Vec<Vec<Candle>> = Vec::new();
    let mut rank: usize = 0;
    while rank < 7
        invariant
            rank <= 7,
            histories@.len() == rank,
            forall|r: int| 0 <= r < rank ==> (#[trigger] histories@[r])@.len() == 0,
        decreases 7 - rank,
    {
        histories.push(Vec::new());
        rank += 1;
    }
    histories
}

/// The base step on an `m1` history, after `seen` trades.
fn ingest_into(
    history: &mut Vec<Candle>,
    trade: &Trade,
    usdt: Option<u128>,
    metrics: &Vec<Box<dyn CandleMetric>>,
    Ghost(seen): Ghost<nat>,
)
    requires
        base_ok(bars(old(history)@), seen),
        seen < MAX_TRADES,
        trade.wf(),
        ingestible(bars(old(history)@), *trade),
    ensures
        bars(final(history)@) == ingest_base(bars(old(history)@), *trade, usdt_model(usdt)),
        metrics@.len() == 0 && no_custom(old(history)@) ==> no_custom(final(history)@),
{
    let ghost before = bars(history@);
    let ghost held = history@;
    let ghost quiet = metrics@.len() == 0 && no_custom(history@);
    let ts: i64 = truncate_to_tf(trade.timestamp, &Timeframe::m1);
    let n: usize = history.len();
    proof {
        assert(seen * u64::MAX + u64::MAX <= u128::MAX) by (nonlinear_arith)
            requires
                seen < 9_007_199_254_740_992,
        ;
    }
    if n == 0 {
        let mut fresh = Candle::open_with(trade, Timeframe::m1, ts, usdt);
        update_metrics(metrics, trade, &mut fresh);
        history.push(fresh);
        assert(bars(history@) =~= ingest_base(before, *trade, usdt_model(usdt)));
        assert(quiet ==> no_custom(history@));
        return ;
    }
    let last_ts: i64 = history[n - 1].timestamp;
    assert(before[n - 1] == history@[n - 1]@);
    assert(before.last() == before[n - 1]);
    if ts == last_ts {
        history[n - 1].absorb(trade, usdt);
        update_metrics(metrics, trade, &mut history[n - 1]);
        assert(bars(history@) =~= ingest_base(before, *trade, usdt_model(usdt)));
        proof {
            if quiet {
                assert forall|k: int| 0 <= k < history@.len() implies (#[trigger] history@[k]).custom@
                    == Map::<Seq<char>, int>::empty() by {
                    assert(history@[k].custom == held[k].custom);
                }
            }
        }
    } else if ts > last_ts {
        let ghost last = before[n - 1];
        let ghost mut filled: int = 0;
        let mut t: i64 = last_ts + 60_000;
        assert(bars(history@) =~= before + gaps(last, 0));
        while t < ts
            invariant
                n >= 1,
                history@.len() == n + filled,
                0 <= filled,
                t == last_ts + (filled + 1) * 60_000,
                t <= ts,
                last_ts == last.timestamp,
                (ts - last_ts) % 60_000 == 0,
                ts <= MAX_TIMESTAMP,
                last == before[n - 1],
                before.len() == n,
                history@[n - 1]@ == last,
                bars(history@) == before + gaps(last, filled),
                quiet ==> no_custom(history@),
            decreases ts - t,
        {
            let ghost held = bars(history@);
            let gap = history[n - 1].gap_after(t);
            history.push(gap);
            assert(forall|i: int| 0 <= i < n + filled ==> bars(history@)[i] == held[i]);
            proof {
                let prior = before + gaps(last, filled);
                let next = before + gaps(last, filled + 1);
                assert(bars(history@).len() == next.len());
                assert forall|i: int| 0 <= i < next.len() implies bars(history@)[i] == next[i] by {
                    if i < n + filled {
                        assert(bars(history@)[i] == prior[i]);
                        if i >= n {
                            assert(prior[i] == gaps(last, filled)[i - n]);
                            assert(next[i] == gaps(last, filled + 1)[i - n]);
                        }
                    } else {
                        assert(next[i] == gaps(last, filled + 1)[filled]);
                    }
                }
                assert(bars(history@) =~= next);
                filled = filled + 1;
            }
            t = t + 60_000;
        }
        let ghost held = bars(history@);
        let mut fresh = Candle::open_with(trade, Timeframe::m1, ts, usdt);
        update_metrics(metrics, trade, &mut fresh);
        history.push(fresh);
        assert(forall|i: int| 0 <= i < n + filled ==> bars(history@)[i] == held[i]);
        assert(quiet ==> no_custom(history@));
        proof {
            assert(filled == (ts - last_ts) / 60_000 - 1);
            let fill = gaps(last, filled);
            let next = before + fill.push(open_bar(*trade, usdt_model(usdt), Timeframe::m1));
            assert(bars(history@).len() == next.len());
            assert forall|i: int| 0 <= i < next.len() implies bars(history@)[i] == next[i] by {
                if i < n + filled {
                    assert(bars(history@)[i] == held[i]);
                    assert(held[i] == (before + fill)[i]);
                    if i >= n {
                        assert(next[i] == fill.push(
                            open_bar(*trade, usdt_model(usdt), Timeframe::m1),
                        )[i - n]);
                    }
                }
            }
            assert(bars(history@) =~= next);
        }
    } else {
        let first_ts: i64 = history[0].timestamp;
        assert(before[0] == history@[0]@);
        let ghost at = slot(before, ts as int);
        proof {
            assert((ts - first_ts) % 60_000 == 0);
            assert(0 <= at < n - 1);
            assert(before[at].timestamp == ts);
        }
        let idx: usize = ((ts - first_ts) / 60_000) as usize;
        assert(idx == at);
        assert(before[idx as int] == history@[idx as int]@);
        history[idx].absorb(trade, usdt);
        update_metrics(metrics, trade, &mut history[idx]);
        assert(bars(history@) =~= ingest_base(before, *trade, usdt_model(usdt)));
        proof {
            if quiet {
                assert forall|k: int| 0 <= k < history@.len() implies (#[trigger] history@[k]).custom@
                    == Map::<Seq<char>, int>::empty() by {
                    assert(history@[k].custom == held[k].custom);
                }
            }
        }
    }
}

impl CandleEngine {
    /// The history of every interval, `m1` first.
    pub closed spec fn levels(&self) -> Seq<Seq<Bar>> {
        Seq::new(7, |rank: int| bars(self.histories@[rank]@))
    }

    /// The candles of one interval, oldest first.
    pub closed spec fn candles(&self, tf: Timeframe) -> Seq<Candle> {
        self.histories@[tf.rank() as int]@
    }

    /// Trades taken since the engine was made or last reset.
    pub closed spec fn seen(&self) -> nat {
        self.seen as nat
    }

    /// The highest interval the engine keeps.
    pub closed spec fn top(&self) -> Timeframe {
        self.top
    }

    /// What the engine computes besides prices, volume and count.
    pub closed spec fn config(&self) -> CandleConfig {
        self.config
    }

    /// Where the engine takes its rates from.
    pub open spec fn source(&self) -> UsdtVolumeSource {
        self.config().volume_in_usdt
    }

    /// No candle of any history carries an extension value.
    pub open spec fn plain(&self) -> bool {
        forall|tf: Timeframe| no_custom(#[trigger] self.candles(tf))
    }

    /// The same, history by history.
    closed spec fn bare(&self) -> bool {
        forall|rank: int| 0 <= rank < 7 ==> no_custom((#[trigger] self.histories@[rank])@)
    }

    proof fn lemma_bare(&self)
        ensures
            self.bare() <==> self.plain(),
    {
        if self.bare() {
            assert forall|tf: Timeframe| no_custom(#[trigger] self.candles(tf)) by {
                assert(no_custom(self.histories@[tf.rank() as int]@));
            }
        }
        if self.plain() {
            assert forall|rank: int| 0 <= rank < 7 implies no_custom(
                (#[trigger] self.histories@[rank])@,
            ) by {
                assert(timeframe_at(rank).rank() == rank);
                assert(no_custom(self.candles(timeframe_at(rank))));
            }
        }
    }

    /// The instrument the engine was made for.
    pub closed spec fn subject(&self) -> Instrument {
        self.instrument
    }

    pub closed spec fn shaped(&self) -> bool {
        self.histories@.len() == 7
    }

    /// The bars of one interval, oldest first.
    pub open spec fn history(&self, tf: Timeframe) -> Seq<Bar> {
        self.levels()[tf.rank() as int]
    }

    /// The engine's invariant: the `m1` history has no gap, every bar is at
    /// a supported instant with ordered prices, counts and volumes are
    /// within what the fields hold, and without a metric no candle carries an
    /// extension value.
    pub open spec fn wf(&self) -> bool {
        &&& self.shaped()
        &&& model_wf(self.levels(), self.seen())
        &&& self.config().custom_metrics@.len() == 0 ==> self.plain()
    }

    /// Whether the engine can take `trade`: the trade is well-formed, the
    /// engine has room, and the trade is not older than the first `m1` bar.
    pub open spec fn can_take(&self, trade: Trade) -> bool {
        &&& trade.wf()
        &&& self.seen() < MAX_TRADES
        &&& ingestible(self.history(Timeframe::m1), trade)
    }

    /// An engine with the default configuration that keeps `m1` and every
    /// interval up to the highest of `timeframes`.
    pub fn new(timeframes: Vec<Timeframe>, instrument: Instrument) -> (engine: Self)
        ensures
            engine.wf(),
            engine.seen() == 0,
            engine.top().rank() == highest_rank(timeframes@),
            engine.subject() == instrument,
            engine.config().basic_ohlcv,
            engine.source() is Disabled,
            engine.config().custom_metrics@.len() == 0,
            forall|tf: Timeframe| (#[trigger] engine.history(tf)).len() == 0,
    {
        Self::with_config(timeframes, instrument, CandleConfig::default())
    }

    /// An engine that computes what `config` asks for.
    pub fn with_config(timeframes: Vec<Timeframe>, instrument: Instrument, config: CandleConfig) -> (engine:
        Self)
        ensures
            engine.wf(),
            engine.seen() == 0,
            engine.top().rank() == highest_rank(timeframes@),
            engine.subject() == instrument,
            engine.config() == config,
            forall|tf: Timeframe| (#[trigger] engine.history(tf)).len() == 0,
    {
        let mut top: Timeframe = Timeframe::m1;
        let mut i: usize = 0;
        assert(timeframes@.take(0) =~= Seq::<Timeframe>::empty());
        while i < timeframes.len()
            invariant
                i <= timeframes.len(),
                top.rank() == highest_rank(timeframes@.take(i as int)),
            decreases timeframes.len() - i,
        {
            proof {
                assert(timeframes@.take(i + 1).drop_last() =~= timeframes@.take(i as int));
                assert(timeframes@.take(i + 1).last() == timeframes@[i as int]);
            }
            if timeframes[i].index() > top.index() {
                top = timeframes[i];
            }
            i += 1;
        }
        assert(timeframes@.take(timeframes@.len() as int) =~= timeframes@);
        let engine = CandleEngine { instrument, config, top, histories: empty_histories(), seen: 0 };
        proof {
            assert forall|tf: Timeframe| (#[trigger] engine.history(tf)).len() == 0 by {
                assert(engine.levels()[tf.rank() as int] == bars(
                    engine.histories@[tf.rank() as int]@,
                ));
            }
            assert forall|rank: int| 1 <= rank < 7 implies level_ok(
                #[trigger] engine.levels()[rank],
                rank,
            ) by {}
        }
        engine
    }

    /// The instrument the engine was made for.
    pub fn instrument(&self) -> (instrument: &Instrument)
        ensures
            *instrument == self.subject(),
    {
        &self.instrument
    }

    /// Whether the engine keeps a history for `tf`.
    pub fn tracks(&self, tf: &Timeframe) -> (kept: bool)
        ensures
            kept == (tf.rank() <= self.top().rank()),
    {
        tf.index() <= self.top.index()
    }

    /// Trades taken since the engine was made or last reset.
    pub fn trades_seen(&self) -> (count: u64)
        ensures
            count == self.seen(),
    {
        self.seen
    }

    /// Whether `add_trade` may be called with `trade`.
    pub fn accepts(&self, trade: &Trade) -> (ok: bool)
        requires
            self.wf(),
        ensures
            ok == self.can_take(*trade),
    {
        if trade.price == 0 || trade.amount == 0 || trade.timestamp < MIN_TIMESTAMP
            || trade.timestamp > MAX_TIMESTAMP || self.seen >= MAX_TRADES {
            return false;
        }
        let base = &self.histories[0];
        assert(self.history(Timeframe::m1) == bars(base@));
        if base.len() == 0 {
            return true;
        }
        assert(bars(base@)[0] == base@[0]@);
        base[0].timestamp <= truncate_to_tf(trade.timestamp, &Timeframe::m1)
    }

    /// Rolls the newest window of level `child` up into a candle for the
    /// level above, if that level is due one.
    fn roll_newest(&self, child: usize) -> (next: Option<Candle>)
        requires
            self.shaped(),
            child < 6,
            forall|rank: int| 0 <= rank < 7 ==> level_ok(#[trigger] self.levels()[rank], rank),
        ensures
            next is Some <==> due(self.levels(), child as int),
            next is Some ==> next->0@ == newest_rollup(self.levels(), child as int),
            next is Some && self.config.custom_metrics@.len() == 0 ==> next->0.custom@ == Map::<
                Seq<char>,
                int,
            >::empty(),
    {
        let up: Timeframe = timeframe_of(child + 1);
        let w: usize = window_size(&up);
        let below = &self.histories[child];
        let above = &self.histories[child + 1];
        let ghost lower = self.levels()[child as int];
        let ghost upper = self.levels()[child + 1];
        assert(lower == bars(below@));
        assert(upper == bars(above@));
        assert(level_ok(lower, child as int));
        let n: usize = below.len();
        if n < w {
            return None;
        }
        assert(lower.last() == below@[n - 1]@);
        let bucket: i64 = truncate_to_tf(below[n - 1].timestamp, &up);
        let held: usize = above.len();
        if held > 0 {
            assert(upper.last() == above@[held - 1]@);
            if above[held - 1].timestamp == bucket {
                return None;
            }
        }
        proof {
            lemma_newest_window(lower, child as int);
        }
        let src = slice_subrange(below.as_slice(), n - w, n);
        assert(bars(src@) =~= lower.subrange(lower.len() - window_len(up), lower.len() as int));
        Some(roll_window(src, &up, &self.config))
    }

    /// The cascade after a base step.
    fn cascade_up(&mut self)
        requires
            old(self).shaped(),
            forall|rank: int|
                0 <= rank < 7 ==> level_ok(#[trigger] old(self).levels()[rank], rank),
        ensures
            final(self).shaped(),
            final(self).levels() == cascade(old(self).levels(), old(self).top().rank() as int, 0),
            old(self).config.custom_metrics@.len() == 0 && old(self).bare() ==> final(self).bare(),
            final(self).seen() == old(self).seen(),
            final(self).top() == old(self).top(),
            final(self).config() == old(self).config(),
            final(self).subject() == old(self).subject(),
    {
        let ghost target = cascade(self.levels(), self.top.rank() as int, 0);
        let top: usize = self.top.index();
        let mut child: usize = 0;
        let mut more: bool = true;
        while child < top && more
            invariant
                self.shaped(),
                top == self.top.rank(),
                top <= 6,
                child <= top,
                self.seen == old(self).seen,
                self.top == old(self).top,
                self.config == old(self).config,
                self.instrument == old(self).instrument,
                old(self).config.custom_metrics@.len() == 0 && old(self).bare() ==> self.bare(),
                forall|rank: int| 0 <= rank < 7 ==> level_ok(#[trigger] self.levels()[rank], rank),
                more ==> cascade(self.levels(), top as int, child as int) == target,
                !more ==> self.levels() == target,
            decreases top - child + (if more {
                1int
            } else {
                0int
            }),
        {
            let ghost now = self.levels();
            let ghost held = self.histories@;
            match self.roll_newest(child) {
                Some(candle) => {
                    self.histories[child + 1].push(candle);
                    proof {
                        if old(self).config.custom_metrics@.len() == 0 && old(self).bare() {
                            assert forall|rank: int| 0 <= rank < 7 implies no_custom(
                                (#[trigger] self.histories@[rank])@,
                            ) by {
                                if rank != child + 1 {
                                    assert(self.histories@[rank] == held[rank]);
                                } else {
                                    assert(no_custom(held[rank]@));
                                    assert(self.histories@[rank]@ == held[rank]@.push(candle));
                                }
                            }
                        }
                        let next = now.update(
                            child + 1,
                            now[child + 1].push(newest_rollup(now, child as int)),
                        );
                        assert forall|rank: int| 0 <= rank < 7 implies self.levels()[rank]
                            =~= next[rank] by {}
                        assert(self.levels() =~= next);
                        lemma_cascade_step(now, child as int);
                    }
                    child += 1;
                },
                None => {
                    more = false;
                },
            }
        }
    }

    /// Takes one trade whose value in USDT is `usdt`: the base step on the
    /// `m1` history, then the cascade up to the highest interval kept.
    pub fn apply_trade(&mut self, trade: &Trade, usdt: Option<u128>)
        requires
            old(self).wf(),
            old(self).can_take(*trade),
        ensures
            final(self).wf(),
            final(self).levels() == ingest(
                old(self).levels(),
                *trade,
                usdt_model(usdt),
                old(self).top().rank() as int,
            ),
            final(self).history(Timeframe::m1) == ingest_base(
                old(self).history(Timeframe::m1),
                *trade,
                usdt_model(usdt),
            ),
            final(self).seen() == old(self).seen() + 1,
            final(self).top() == old(self).top(),
            final(self).config() == old(self).config(),
            final(self).subject() == old(self).subject(),
    {
        let ghost before = self.levels();
        let ghost seen = self.seen as nat;
        let ghost held = self.histories@;
        let ghost quiet = self.config.custom_metrics@.len() == 0;
        proof {
            self.lemma_bare();
        }
        assert(before[0] == bars(self.histories@[0]@));
        ingest_into(&mut self.histories[0], trade, usdt, &self.config.custom_metrics, Ghost(seen));
        self.seen = self.seen + 1;
        proof {
            if quiet {
                assert forall|rank: int| 0 <= rank < 7 implies no_custom(
                    (#[trigger] self.histories@[rank])@,
                ) by {
                    if rank != 0 {
                        assert(self.histories@[rank] == held[rank]);
                    }
                }
            }
        }
        proof {
            let based = before.update(0, ingest_base(before[0], *trade, usdt_model(usdt)));
            assert(self.levels() =~= based);
            lemma_ingest_wf(before, *trade, usdt_model(usdt), self.top.rank() as int, seen);
        }
        self.cascade_up();
        proof {
            self.lemma_bare();
        }
    }

    /// Takes one trade. Its USDT value comes from the configured source;
    /// everything else is decided by the trade and the histories.
    pub fn add_trade(&mut self, trade: Trade)
        requires
            old(self).wf(),
            old(self).can_take(trade),
        ensures
            final(self).wf(),
            exists|rate: Option<u64>|
                {
                    &&& rate_allowed(old(self).source(), trade, rate)
                    &&& final(self).levels() == ingest(
                        old(self).levels(),
                        trade,
                        #[trigger] converted(trade, rate),
                        old(self).top().rank() as int,
                    )
                    &&& final(self).history(Timeframe::m1) == ingest_base(
                        old(self).history(Timeframe::m1),
                        trade,
                        converted(trade, rate),
                    )
                },
            final(self).seen() == old(self).seen() + 1,
            final(self).top() == old(self).top(),
            final(self).config() == old(self).config(),
            final(self).subject() == old(self).subject(),
    {
        let usdt = calc_volume_usdt(&trade, &self.config.volume_in_usdt);
        self.apply_trade(&trade, usdt);
    }

    /// Up to `limit` of the most recent candles of `timeframe`, the most
    /// recent first.
    pub fn get_candles(&self, timeframe: Timeframe, limit: usize) -> (recent: Vec<Candle>)
        requires
            self.wf(),
        ensures
            recent@.len() == if limit <= self.candles(timeframe).len() {
                limit as nat
            } else {
                self.candles(timeframe).len()
            },
            forall|i: int|
                0 <= i < recent@.len() ==> {
                    let from = self.candles(timeframe)[self.candles(timeframe).len() - 1 - i];
                    &&& (#[trigger] recent@[i])@ == from@
                    &&& recent@[i].custom@ == from.custom@
                },
            bars(self.candles(timeframe)) == self.history(timeframe),
    {
        let history = &self.histories[timeframe.index()];
        let n: usize = history.len();
        let take: usize = if limit <= n {
            limit
        } else {
            n
        };
        let mut recent: Vec<Candle> = Vec::new();
        let mut i: usize = 0;
        while i < take
            invariant
                i <= take <= n,
                n == history@.len(),
                recent@.len() == i,
                forall|k: int|
                    0 <= k < i ==> (#[trigger] recent@[k])@ == history@[n - 1 - k]@ && recent@[k].custom@
                        == history@[n - 1 - k].custom@,
            decreases take - i,
        {
            recent.push(history[n - 1 - i].clone());
            i += 1;
        }
        recent
    }

    /// Forgets every candle and every trade counted.
    pub fn reset(&mut self)
        ensures
            final(self).wf(),
            final(self).seen() == 0,
            forall|tf: Timeframe| (#[trigger] final(self).history(tf)).len() == 0,
            final(self).top() == old(self).top(),
            final(self).config() == old(self).config(),
            final(self).subject() == old(self).subject(),
    {
        self.histories = empty_histories();
        self.seen = 0;
        proof {
            assert forall|tf: Timeframe| (#[trigger] self.history(tf)).len() == 0 by {
                assert(self.levels()[tf.rank() as int] == bars(self.histories@[tf.rank() as int]@));
            }
            assert forall|rank: int| 1 <= rank < 7 implies level_ok(
                #[trigger] self.levels()[rank],
                rank,
            ) by {}
        }
    }
}

} // verus!
