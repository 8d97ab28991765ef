//! The mathematical model of live ingestion: what one trade does to the
//! per-interval histories.

use crate::candle::{gap_bar, lemma_bar_rules, merge_bar, open_bar, Bar};
use crate::rollup::{
    lemma_rollup_ordered, rollup_bar, total_count, total_volume, window_len,
};
use crate::timeframe::{bucket_start, lemma_bucket_start_bounds, valid_timestamp};
use crate::types::{Timeframe, Trade};
use vstd::prelude::*;

verus! {

/// The most trades an engine takes between two resets.
pub const MAX_TRADES: u64 = 9_007_199_254_740_992;

/// The interval at a position of the hierarchy, `m1` being 0.
pub open spec fn timeframe_at(rank: int) -> Timeframe {
    if rank <= 0 {
        Timeframe::m1
    } else if rank == 1 {
        Timeframe::m5
    } else if rank == 2 {
        Timeframe::m15
    } else if rank == 3 {
        Timeframe::m30
    } else if rank == 4 {
        Timeframe::h1
    } else if rank == 5 {
        Timeframe::h4
    } else {
        Timeframe::d1
    }
}

/// Minutes in one bucket of the interval at `rank`.
pub open spec fn minutes(rank: int) -> nat {
    if rank <= 0 {
        1
    } else if rank == 1 {
        5
    } else if rank == 2 {
        15
    } else if rank == 3 {
        30
    } else if rank == 4 {
        60
    } else if rank == 5 {
        240
    } else {
        1440
    }
}

/// `n` synthetic bars for the buckets that follow `last`, minute by minute,
/// all flat at its close.
pub open spec fn gaps(last: Bar, n: int) -> Seq<Bar> {
    Seq::new(n as nat, |i: int| gap_bar(last, last.timestamp + (i + 1) * 60_000))
}

/// Position of the bar of bucket `bucket` in a gap-free `m1` history.
pub open spec fn slot(history: Seq<Bar>, bucket: int) -> int {
    (bucket - history[0].timestamp) / 60_000
}

/// Whether the history has a place for the trade: it is empty, or the trade
/// is not older than its first bar.
pub open spec fn ingestible(history: Seq<Bar>, trade: Trade) -> bool {
    history.len() > 0 ==> history[0].timestamp <= bucket_start(
        trade.timestamp as int,
        Timeframe::m1,
    )
}

/// The `m1` history after one trade, whose value in USDT is `usdt`:
/// - an empty history gets its first bar;
/// - a trade in the newest bucket extends the newest bar;
/// - a trade in a later bucket has every bucket in between filled with a
///   synthetic bar, then opens a new bar;
/// - a trade in an earlier bucket extends the bar of that bucket in place.
pub open spec fn ingest_base(history: Seq<Bar>, trade: Trade, usdt: Option<nat>) -> Seq<Bar> {
    let bucket = bucket_start(trade.timestamp as int, Timeframe::m1);
    if history.len() == 0 {
        seq![open_bar(trade, usdt, Timeframe::m1)]
    } else if bucket == history.last().timestamp {
        history.update(history.len() - 1, merge_bar(history.last(), trade, usdt))
    } else if bucket > history.last().timestamp {
        history + gaps(history.last(), (bucket - history.last().timestamp) / 60_000 - 1).push(
            open_bar(trade, usdt, Timeframe::m1),
        )
    } else {
        history.update(
            slot(history, bucket),
            merge_bar(history[slot(history, bucket)], trade, usdt),
        )
    }
}

/// Whether the level above `child` is due a new bar: the child level has a
/// full window, and the newest child bar falls in a parent bucket other than
/// that of the newest parent bar.
pub open spec fn due(levels: Seq<Seq<Bar>>, child: int) -> bool {
    let up = timeframe_at(child + 1);
    &&& levels[child].len() >= window_len(up)
    &&& (levels[child + 1].len() > 0 ==> levels[child + 1].last().timestamp != bucket_start(
        levels[child].last().timestamp,
        up,
    ))
}

/// The newest window of the level `child`, rolled up.
pub open spec fn newest_rollup(levels: Seq<Seq<Bar>>, child: int) -> Bar {
    let up = timeframe_at(child + 1);
    let below = levels[child];
    rollup_bar(below.subrange(below.len() - window_len(up), below.len() as int), up)
}

/// The cascade from level `child` upward, no further than level `top`: while
/// the level above is due a bar, the newest window is rolled up and appended
/// to it; the first level that is not due ends the cascade.
pub open spec fn cascade(levels: Seq<Seq<Bar>>, top: int, child: int) -> Seq<Seq<Bar>>
    decreases 6 - child,
{
    if 0 <= child < top && top <= 6 && due(levels, child) {
        cascade(
            levels.update(child + 1, levels[child + 1].push(newest_rollup(levels, child))),
            top,
            child + 1,
        )
    } else {
        levels
    }
}

/// All histories after one trade: the base step on `m1`, then the cascade.
pub open spec fn ingest(levels: Seq<Seq<Bar>>, trade: Trade, usdt: Option<nat>, top: int) -> Seq<
    Seq<Bar>,
> {
    cascade(levels.update(0, ingest_base(levels[0], trade, usdt)), top, 0)
}

/// A gap-free `m1` history: bar `i` starts `i` minutes after the first.
pub open spec fn contiguous(history: Seq<Bar>) -> bool {
    forall|i: int|
        0 <= i < history.len() ==> (#[trigger] history[i]).timestamp == history[0].timestamp + i
            * 60_000
}

/// What holds of every bar of the level at `rank`: a supported instant,
/// ordered prices, and count and volume within what the level can hold.
pub open spec fn bar_ok(bar: Bar, rank: int) -> bool {
    &&& valid_timestamp(bar.timestamp)
    &&& bar.ordered()
    &&& bar.trade_count <= minutes(rank) * 9_007_199_254_740_992
    &&& bar.volume <= minutes(rank) * 166_153_499_473_114_484_103_968_683_280_302_080
    &&& bar.interval == timeframe_at(rank)
}

pub open spec fn level_ok(level: Seq<Bar>, rank: int) -> bool {
    forall|k: int| 0 <= k < level.len() ==> bar_ok(#[trigger] level[k], rank)
}

/// What holds of every `m1` bar after `seen` trades.
pub open spec fn base_ok(history: Seq<Bar>, seen: nat) -> bool {
    &&& contiguous(history)
    &&& forall|k: int|
        0 <= k < history.len() ==> {
            let bar = #[trigger] history[k];
            &&& valid_timestamp(bar.timestamp)
            &&& bar.timestamp % 60_000 == 0
            &&& bar.ordered()
            &&& bar.flat_if_empty()
            &&& bar.interval == Timeframe::m1
            &&& bar.trade_count <= seen
            &&& bar.volume <= seen * u64::MAX
        }
}

/// The invariant of the histories after `seen` trades.
pub open spec fn model_wf(levels: Seq<Seq<Bar>>, seen: nat) -> bool {
    &&& levels.len() == 7
    &&& seen <= MAX_TRADES
    &&& base_ok(levels[0], seen)
    &&& forall|rank: int| 1 <= rank < 7 ==> level_ok(#[trigger] levels[rank], rank)
}

/// The base step keeps the `m1` history gap-free and within bounds.
pub proof fn lemma_base_step(history: Seq<Bar>, trade: Trade, usdt: Option<nat>, seen: nat)
    requires
        base_ok(history, seen),
        trade.wf(),
        ingestible(history, trade),
    ensures
        base_ok(ingest_base(history, trade, usdt), seen + 1),
        ingest_base(history, trade, usdt).len() > 0,
        ingest_base(history, trade, usdt).len() >= history.len(),
{
    let bucket = bucket_start(trade.timestamp as int, Timeframe::m1);
    let now = ingest_base(history, trade, usdt);
    let next = seen + 1;
    lemma_bucket_start_bounds(trade.timestamp as int, Timeframe::m1);
    assert(next * u64::MAX == seen * u64::MAX + u64::MAX) by (nonlinear_arith)
        requires
            next == seen + 1,
    ;
    if history.len() == 0 {
        lemma_bar_rules(now[0], trade, usdt, Timeframe::m1);
    } else if bucket == history.last().timestamp {
        let last = history.len() - 1;
        lemma_bar_rules(history[last], trade, usdt, Timeframe::m1);
        assert forall|i: int| 0 <= i < now.len() implies (#[trigger] now[i]).timestamp
            == now[0].timestamp + i * 60_000 by {
            assert(now[i].timestamp == history[i].timestamp);
            assert(now[0].timestamp == history[0].timestamp);
        }
    } else if bucket > history.last().timestamp {
        let last = history.last();
        assert(last == history[history.len() - 1]);
        let n = history.len() as int;
        let span = bucket - last.timestamp;
        let g = span / 60_000 - 1;
        assert(span % 60_000 == 0);
        assert(g >= 0);
        assert(span == (g + 1) * 60_000);
        let fill = gaps(last, g);
        assert(now.len() == n + g + 1);
        lemma_bar_rules(last, trade, usdt, Timeframe::m1);
        assert forall|i: int| 0 <= i < now.len() implies {
            let bar = #[trigger] now[i];
            &&& bar.timestamp == now[0].timestamp + i * 60_000
            &&& valid_timestamp(bar.timestamp)
            &&& bar.timestamp % 60_000 == 0
            &&& bar.ordered()
            &&& bar.flat_if_empty()
            &&& bar.interval == Timeframe::m1
            &&& bar.trade_count <= next
            &&& bar.volume <= next * u64::MAX
        } by {
            assert(now[0] == history[0]);
            if i < n {
                assert(now[i] == history[i]);
            } else if i < n + g {
                assert(now[i] == fill[i - n]);
                assert(now[i].timestamp == last.timestamp + (i - n + 1) * 60_000);
            } else {
                assert(now[i] == open_bar(trade, usdt, Timeframe::m1));
            }
        }
    } else {
        let first = history[0].timestamp;
        let at = slot(history, bucket);
        let n = history.len() as int;
        assert(history.last() == history[n - 1]);
        assert((bucket - first) % 60_000 == 0);
        assert(0 <= at < n - 1);
        assert(history[at].timestamp == bucket);
        lemma_bar_rules(history[at], trade, usdt, Timeframe::m1);
        assert forall|i: int| 0 <= i < now.len() implies (#[trigger] now[i]).timestamp
            == now[0].timestamp + i * 60_000 by {
            assert(now[i].timestamp == history[i].timestamp);
            assert(now[0].timestamp == history[0].timestamp);
        }
    }
}

/// Gap-fill shape: a trade in a bucket after that of the newest bar leaves
/// the bars before it as they were, gives every bucket in between a bar that
/// is flat at the close of the newest bar, with no volume and no trade, and
/// opens a bar in its own bucket. No bucket is left out or filled twice.
pub proof fn lemma_gap_fill(history: Seq<Bar>, trade: Trade, usdt: Option<nat>, seen: nat)
    requires
        base_ok(history, seen),
        trade.wf(),
        history.len() > 0,
        bucket_start(trade.timestamp as int, Timeframe::m1) > history.last().timestamp,
    ensures
        ({
            let now = ingest_base(history, trade, usdt);
            let n = history.len() as int;
            let last = history.last();
            let missing = (bucket_start(trade.timestamp as int, Timeframe::m1) - last.timestamp)
                / 60_000 - 1;
            &&& missing >= 0
            &&& now.len() == n + missing + 1
            &&& forall|k: int| 0 <= k < n ==> #[trigger] now[k] == history[k]
            &&& forall|k: int|
                n <= k < n + missing ==> {
                    let bar = #[trigger] now[k];
                    &&& bar.timestamp == last.timestamp + (k - n + 1) * 60_000
                    &&& bar.open == last.close
                    &&& bar.high == last.close
                    &&& bar.low == last.close
                    &&& bar.close == last.close
                    &&& bar.volume == 0
                    &&& bar.trade_count == 0
                    &&& bar.volume_usdt is None
                }
            &&& now[n + missing] == open_bar(trade, usdt, Timeframe::m1)
            &&& now[n + missing].timestamp == last.timestamp + (missing + 1) * 60_000
        }),
{
    let now = ingest_base(history, trade, usdt);
    let n = history.len() as int;
    let last = history.last();
    let bucket = bucket_start(trade.timestamp as int, Timeframe::m1);
    let missing = (bucket - last.timestamp) / 60_000 - 1;
    lemma_bucket_start_bounds(trade.timestamp as int, Timeframe::m1);
    assert(last == history[n - 1]);
    assert((bucket - last.timestamp) % 60_000 == 0);
    let fill = gaps(last, missing);
    assert forall|k: int| n <= k < n + missing implies {
        let bar = #[trigger] now[k];
        &&& bar.timestamp == last.timestamp + (k - n + 1) * 60_000
        &&& bar.open == last.close
        &&& bar.volume == 0
        &&& bar.trade_count == 0
        &&& bar.volume_usdt is None
    } by {
        assert(now[k] == fill[k - n]);
    }
}

/// Late-trade correction: a trade in a bucket before that of the newest bar
/// is merged into the bar of its bucket, in place; the history keeps its
/// length and every other bar.
pub proof fn lemma_late_trade(history: Seq<Bar>, trade: Trade, usdt: Option<nat>, seen: nat)
    requires
        base_ok(history, seen),
        trade.wf(),
        ingestible(history, trade),
        history.len() > 0,
        bucket_start(trade.timestamp as int, Timeframe::m1) < history.last().timestamp,
    ensures
        ({
            let now = ingest_base(history, trade, usdt);
            let at = slot(history, bucket_start(trade.timestamp as int, Timeframe::m1));
            &&& now.len() == history.len()
            &&& 0 <= at < history.len() - 1
            &&& history[at].timestamp == bucket_start(trade.timestamp as int, Timeframe::m1)
            &&& now[at] == merge_bar(history[at], trade, usdt)
            &&& forall|k: int| 0 <= k < now.len() && k != at ==> #[trigger] now[k] == history[k]
        }),
{
    let n = history.len() as int;
    let bucket = bucket_start(trade.timestamp as int, Timeframe::m1);
    let first = history[0].timestamp;
    lemma_bucket_start_bounds(trade.timestamp as int, Timeframe::m1);
    assert(history.last() == history[n - 1]);
    assert((bucket - first) % 60_000 == 0);
    let at = slot(history, bucket);
    assert(0 <= at < n - 1);
    assert(history[at].timestamp == first + at * 60_000);
}

/// What the base level promises is within what every level promises.
pub proof fn lemma_base_within(history: Seq<Bar>, seen: nat)
    requires
        base_ok(history, seen),
        seen <= MAX_TRADES,
    ensures
        level_ok(history, 0),
{
    assert(seen * u64::MAX <= 166_153_499_473_114_484_103_968_683_280_302_080)
        by (nonlinear_arith)
        requires
            seen <= 9_007_199_254_740_992,
    ;
}

proof fn lemma_total_bound(bars: Seq<Bar>, count_cap: nat, volume_cap: nat)
    requires
        forall|k: int|
            0 <= k < bars.len() ==> (#[trigger] bars[k]).trade_count <= count_cap && bars[k].volume
                <= volume_cap,
    ensures
        total_count(bars) <= bars.len() * count_cap,
        total_volume(bars) <= bars.len() * volume_cap,
    decreases bars.len(),
{
    if bars.len() > 0 {
        let head = bars.drop_last();
        assert forall|k: int| 0 <= k < head.len() implies (#[trigger] head[k]).trade_count
            <= count_cap && head[k].volume <= volume_cap by {
            assert(head[k] == bars[k]);
        }
        lemma_total_bound(head, count_cap, volume_cap);
        assert(bars.last() == bars[bars.len() - 1]);
        assert(bars.len() * count_cap == (bars.len() - 1) * count_cap + count_cap)
            by (nonlinear_arith);
        assert(bars.len() * volume_cap == (bars.len() - 1) * volume_cap + volume_cap)
            by (nonlinear_arith);
    } else {
        assert(bars.len() * count_cap == 0) by (nonlinear_arith)
            requires
                bars.len() == 0,
        ;
        assert(bars.len() * volume_cap == 0) by (nonlinear_arith)
            requires
                bars.len() == 0,
        ;
    }
}

/// The newest window of a level within bounds fits a candle, and rolls up
/// into a bar within the bounds of the level above.
pub proof fn lemma_newest_window(below: Seq<Bar>, child: int)
    requires
        0 <= child < 6,
        level_ok(below, child),
        below.len() >= window_len(timeframe_at(child + 1)),
    ensures
        ({
            let up = timeframe_at(child + 1);
            let win = below.subrange(below.len() - window_len(up), below.len() as int);
            &&& win.len() == window_len(up)
            &&& valid_timestamp(win[0].timestamp)
            &&& total_count(win) <= u64::MAX
            &&& total_volume(win) <= u128::MAX
            &&& bar_ok(rollup_bar(win, up), child + 1)
        }),
{
    let up = timeframe_at(child + 1);
    let w = window_len(up) as int;
    let win = below.subrange(below.len() - w, below.len() as int);
    let count_cap = minutes(child) * 9_007_199_254_740_992;
    let volume_cap = minutes(child) * 166_153_499_473_114_484_103_968_683_280_302_080;
    assert forall|k: int| 0 <= k < win.len() implies (#[trigger] win[k]).trade_count <= count_cap
        && win[k].volume <= volume_cap && win[k].ordered() by {
        assert(win[k] == below[below.len() - w + k]);
    }
    assert(win[0] == below[below.len() - w]);
    lemma_total_bound(win, count_cap, volume_cap);
    lemma_rollup_ordered(win, up);
    lemma_bucket_start_bounds(win[0].timestamp, up);
    let m = minutes(child);
    let n = win.len();
    assert(n * m == minutes(child + 1)) by {
        if child == 0 {
            assert(n == 5 && m == 1);
        } else if child == 1 {
            assert(n == 3 && m == 5);
        } else if child == 2 {
            assert(n == 2 && m == 15);
        } else if child == 3 {
            assert(n == 2 && m == 30);
        } else if child == 4 {
            assert(n == 4 && m == 60);
        } else {
            assert(n == 6 && m == 240);
        }
        lemma_small_product(n, m);
    }
    assert(n * (m * 9_007_199_254_740_992) == (n * m) * 9_007_199_254_740_992)
        by (nonlinear_arith);
    assert(n * (m * 166_153_499_473_114_484_103_968_683_280_302_080) == (n * m)
        * 166_153_499_473_114_484_103_968_683_280_302_080) by (nonlinear_arith);
}

/// Products of the hierarchy's ratios and minutes, by cases.
proof fn lemma_small_product(n: nat, m: nat)
    ensures
        n == 5 && m == 1 ==> n * m == 5,
        n == 3 && m == 5 ==> n * m == 15,
        n == 2 && m == 15 ==> n * m == 30,
        n == 2 && m == 30 ==> n * m == 60,
        n == 4 && m == 60 ==> n * m == 240,
        n == 6 && m == 240 ==> n * m == 1440,
{
    assert(n == 5 && m == 1 ==> n * m == 5) by (nonlinear_arith);
    assert(n == 3 && m == 5 ==> n * m == 15) by (nonlinear_arith);
    assert(n == 2 && m == 15 ==> n * m == 30) by (nonlinear_arith);
    assert(n == 2 && m == 30 ==> n * m == 60) by (nonlinear_arith);
    assert(n == 4 && m == 60 ==> n * m == 240) by (nonlinear_arith);
    assert(n == 6 && m == 240 ==> n * m == 1440) by (nonlinear_arith);
}

/// Appending the rollup of the newest window to the level above keeps every
/// level within bounds.
pub proof fn lemma_cascade_step(levels: Seq<Seq<Bar>>, child: int)
    requires
        levels.len() == 7,
        0 <= child < 6,
        levels[child].len() >= window_len(timeframe_at(child + 1)),
        forall|rank: int| 0 <= rank < 7 ==> level_ok(#[trigger] levels[rank], rank),
    ensures
        ({
            let next = levels.update(
                child + 1,
                levels[child + 1].push(newest_rollup(levels, child)),
            );
            forall|rank: int| 0 <= rank < 7 ==> level_ok(#[trigger] next[rank], rank)
        }),
{
    let next = levels.update(child + 1, levels[child + 1].push(newest_rollup(levels, child)));
    lemma_newest_window(levels[child], child);
    assert forall|rank: int| 0 <= rank < 7 implies level_ok(#[trigger] next[rank], rank) by {
        if rank == child + 1 {
            assert forall|k: int| 0 <= k < next[rank].len() implies bar_ok(
                #[trigger] next[rank][k],
                rank,
            ) by {
                if k < levels[rank].len() {
                    assert(next[rank][k] == levels[rank][k]);
                }
            }
        } else {
            assert(next[rank] == levels[rank]);
        }
    }
}

/// The cascade keeps every level within bounds.
pub proof fn lemma_cascade_ok(levels: Seq<Seq<Bar>>, top: int, child: int)
    requires
        levels.len() == 7,
        0 <= child <= 6,
        forall|rank: int| 0 <= rank < 7 ==> level_ok(#[trigger] levels[rank], rank),
    ensures
        cascade(levels, top, child).len() == 7,
        forall|rank: int|
            0 <= rank < 7 ==> level_ok(#[trigger] cascade(levels, top, child)[rank], rank),
        forall|rank: int| 0 <= rank <= child ==> cascade(levels, top, child)[rank] == levels[rank],
    decreases 6 - child,
{
    if 0 <= child < top && top <= 6 && due(levels, child) {
        let next = levels.update(child + 1, levels[child + 1].push(newest_rollup(levels, child)));
        lemma_cascade_step(levels, child);
        lemma_cascade_ok(next, top, child + 1);
        assert forall|rank: int| 0 <= rank <= child implies cascade(levels, top, child)[rank]
            == levels[rank] by {
            assert(cascade(next, top, child + 1)[rank] == next[rank]);
        }
    }
}

/// OHLC bounds in the engine: every bar of every history has
/// `low <= open, close <= high`.
pub proof fn lemma_histories_ordered(levels: Seq<Seq<Bar>>, seen: nat, rank: int, k: int)
    requires
        model_wf(levels, seen),
        0 <= rank < 7,
        0 <= k < levels[rank].len(),
    ensures
        levels[rank][k].ordered(),
{
    if rank > 0 {
        assert(level_ok(levels[rank], rank));
    }
}

/// One trade keeps the histories well-formed.
pub proof fn lemma_ingest_wf(
    levels: Seq<Seq<Bar>>,
    trade: Trade,
    usdt: Option<nat>,
    top: int,
    seen: nat,
)
    requires
        model_wf(levels, seen),
        seen < MAX_TRADES,
        trade.wf(),
        ingestible(levels[0], trade),
    ensures
        model_wf(ingest(levels, trade, usdt, top), seen + 1),
        ingest(levels, trade, usdt, top)[0] == ingest_base(levels[0], trade, usdt),
        forall|rank: int|
            0 <= rank < 7 ==> level_ok(
                #[trigger] levels.update(0, ingest_base(levels[0], trade, usdt))[rank],
                rank,
            ),
{
    let based = levels.update(0, ingest_base(levels[0], trade, usdt));
    lemma_base_step(levels[0], trade, usdt, seen);
    lemma_base_within(based[0], seen + 1);
    assert forall|rank: int| 0 <= rank < 7 implies level_ok(#[trigger] based[rank], rank) by {
        if rank > 0 {
            assert(based[rank] == levels[rank]);
        }
    }
    lemma_cascade_ok(based, top, 0);
}

} // verus!
