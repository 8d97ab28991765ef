//! Rolling candles of one interval up into candles of the next: fixed-size,
//! non-overlapping windows, a trailing partial window dropped.

use crate::candle::{bars, Bar, Candle};
use crate::custom::CustomMetrics;
use crate::generator::{no_custom, CandleConfig, CandleMetric};
use crate::timeframe::{bucket_start, truncate_to_tf, valid_timestamp};
use crate::types::Timeframe;
use crate::volume::{usdt_model, usdt_plus};
use vstd::arithmetic::div_mod::{
    lemma_div_is_ordered, lemma_div_multiples_vanish, lemma_fundamental_div_mod,
    lemma_fundamental_div_mod_converse,
};
use vstd::arithmetic::mul::lemma_mul_inequality;
use vstd::prelude::*;
use vstd::slice::slice_subrange;

verus! {

/// How many candles of the interval below make one candle of `tf`; one for
/// the base interval.
pub open spec fn window_len(tf: Timeframe) -> nat {
    match tf.children() {
        Some(n) => n,
        None => 1,
    }
}

/// Sum of the trade counts.
pub open spec fn total_count(bars: Seq<Bar>) -> nat
    decreases bars.len(),
{
    if bars.len() == 0 {
        0
    } else {
        total_count(bars.drop_last()) + bars.last().trade_count
    }
}

/// Sum of the volumes.
pub open spec fn total_volume(bars: Seq<Bar>) -> nat
    decreases bars.len(),
{
    if bars.len() == 0 {
        0
    } else {
        total_volume(bars.drop_last()) + bars.last().volume
    }
}

/// Sum of the USDT volumes: known only if every one of them is, and if the
/// sum is representable.
pub open spec fn total_usdt(bars: Seq<Bar>) -> Option<nat>
    decreases bars.len(),
{
    if bars.len() == 0 {
        Some(0)
    } else {
        usdt_plus(total_usdt(bars.drop_last()), bars.last().volume_usdt)
    }
}

/// The highest high; 0 for no bars.
pub open spec fn highest(bars: Seq<Bar>) -> nat
    decreases bars.len(),
{
    if bars.len() == 0 {
        0
    } else if bars.last().high > highest(bars.drop_last()) {
        bars.last().high
    } else {
        highest(bars.drop_last())
    }
}

/// The lowest low; the largest price for no bars.
pub open spec fn lowest(bars: Seq<Bar>) -> nat
    decreases bars.len(),
{
    if bars.len() == 0 {
        u64::MAX as nat
    } else if bars.last().low < lowest(bars.drop_last()) {
        bars.last().low
    } else {
        lowest(bars.drop_last())
    }
}

/// The bar of interval `tf` that a window of bars of the interval below rolls
/// up into.
pub open spec fn rollup_bar(window: Seq<Bar>, tf: Timeframe) -> Bar {
    Bar {
        instrument: window[0].instrument,
        interval: tf,
        timestamp: bucket_start(window[0].timestamp, tf),
        open: window[0].open,
        high: highest(window),
        low: lowest(window),
        close: window.last().close,
        volume: total_volume(window),
        trade_count: total_count(window),
        volume_usdt: total_usdt(window),
    }
}

/// The `k`-th window of `lower` for interval `tf`.
pub open spec fn window(lower: Seq<Bar>, tf: Timeframe, k: int) -> Seq<Bar> {
    lower.subrange(k * window_len(tf), k * window_len(tf) + window_len(tf))
}

/// The bars of `tf` rolled up from `lower`: one per complete window.
pub open spec fn rollup(lower: Seq<Bar>, tf: Timeframe) -> Seq<Bar> {
    Seq::new(lower.len() / window_len(tf), |k: int| rollup_bar(window(lower, tf, k), tf))
}

/// The sums of a window fit the candle's fields and its first bar is at a
/// supported instant.
pub open spec fn window_fits(window: Seq<Bar>) -> bool {
    &&& valid_timestamp(window[0].timestamp)
    &&& total_count(window) <= u64::MAX
    &&& total_volume(window) <= u128::MAX
}

/// Every complete window of `lower` fits.
pub open spec fn rollable(lower: Seq<Bar>, tf: Timeframe) -> bool {
    forall|k: int| 0 <= k < lower.len() / window_len(tf) ==> window_fits(#[trigger] window(lower, tf, k))
}

pub fn window_size(tf: &Timeframe) -> (n: usize)
    ensures
        n == window_len(*tf),
        1 <= n <= 6,
{
    match tf.ratio() {
        Some(n) => n,
        None => 1,
    }
}

proof fn lemma_take_step(bars: Seq<Bar>, j: int)
    requires
        0 <= j < bars.len(),
    ensures
        total_count(bars.take(j + 1)) == total_count(bars.take(j)) + bars[j].trade_count,
        total_volume(bars.take(j + 1)) == total_volume(bars.take(j)) + bars[j].volume,
        total_usdt(bars.take(j + 1)) == usdt_plus(total_usdt(bars.take(j)), bars[j].volume_usdt),
        highest(bars.take(j + 1)) == if bars[j].high > highest(bars.take(j)) {
            bars[j].high
        } else {
            highest(bars.take(j))
        },
        lowest(bars.take(j + 1)) == if bars[j].low < lowest(bars.take(j)) {
            bars[j].low
        } else {
            lowest(bars.take(j))
        },
{
    assert(bars.take(j + 1).drop_last() =~= bars.take(j));
    assert(bars.take(j + 1).last() == bars[j]);
}

/// The sums over a prefix do not exceed the sums over the whole.
pub(crate) proof fn lemma_prefix_totals(bars: Seq<Bar>, j: int)
    requires
        0 <= j <= bars.len(),
    ensures
        total_count(bars.take(j)) <= total_count(bars),
        total_volume(bars.take(j)) <= total_volume(bars),
    decreases bars.len() - j,
{
    if j < bars.len() {
        lemma_take_step(bars, j);
        lemma_prefix_totals(bars, j + 1);
    } else {
        assert(bars.take(j) =~= bars);
    }
}

/// The highest high is at least every high and, with the lowest low, spans
/// the bars: ordered bars roll up into an ordered bar.
pub proof fn lemma_span(bars: Seq<Bar>)
    requires
        bars.len() > 0,
        forall|k: int| 0 <= k < bars.len() ==> (#[trigger] bars[k]).ordered(),
    ensures
        forall|k: int|
            0 <= k < bars.len() ==> lowest(bars) <= (#[trigger] bars[k]).low && bars[k].high
                <= highest(bars),
    decreases bars.len(),
{
    let head = bars.drop_last();
    assert(bars.last() == bars[bars.len() - 1]);
    if head.len() > 0 {
        assert forall|k: int| 0 <= k < head.len() implies (#[trigger] head[k]).ordered() by {
            assert(head[k] == bars[k]);
        }
        lemma_span(head);
        assert forall|k: int| 0 <= k < bars.len() implies lowest(bars) <= (#[trigger] bars[k]).low
            && bars[k].high <= highest(bars) by {
            if k < head.len() {
                assert(head[k] == bars[k]);
            }
        }
    }
}

/// A rolled-up bar of ordered bars is ordered.
pub proof fn lemma_rollup_ordered(window: Seq<Bar>, tf: Timeframe)
    requires
        window.len() > 0,
        forall|k: int| 0 <= k < window.len() ==> (#[trigger] window[k]).ordered(),
    ensures
        rollup_bar(window, tf).ordered(),
{
    lemma_span(window);
    assert(window.last() == window[window.len() - 1]);
    assert(window[0].ordered());
    assert(window[window.len() - 1].ordered());
}

/// The `k`-th window ends within the sequence.
pub(crate) proof fn lemma_window_range(len: int, w: int, k: int)
    requires
        0 < w,
        0 <= k < len / w,
        0 <= len,
    ensures
        0 <= k * w,
        k * w + w <= len,
        (k + 1) * w == k * w + w,
{
    lemma_fundamental_div_mod(len, w);
    lemma_mul_inequality(k + 1, len / w, w);
    assert((k + 1) * w == k * w + w) by (nonlinear_arith);
    assert(0 <= k * w) by (nonlinear_arith)
        requires
            0 <= k,
            0 < w,
    ;
    assert(w * (len / w) == (len / w) * w) by (nonlinear_arith);
}

/// A known USDT total means that every bar's USDT volume is known.
pub proof fn lemma_usdt_known(bars: Seq<Bar>, j: int)
    requires
        0 <= j < bars.len(),
        total_usdt(bars) is Some,
    ensures
        bars[j].volume_usdt is Some,
    decreases bars.len(),
{
    assert(bars.last() == bars[bars.len() - 1]);
    if j < bars.len() - 1 {
        assert(bars.drop_last()[j] == bars[j]);
        lemma_usdt_known(bars.drop_last(), j);
    }
}

/// Volume additivity: the `k`-th rolled-up bar holds exactly the sum of the
/// volumes, and the sum of the trade counts, of the bars of its window.
pub proof fn lemma_volume_additive(lower: Seq<Bar>, tf: Timeframe, k: int)
    requires
        0 <= k < lower.len() / window_len(tf),
    ensures
        rollup(lower, tf)[k].volume == total_volume(window(lower, tf, k)),
        rollup(lower, tf)[k].trade_count == total_count(window(lower, tf, k)),
{
}

/// USDT strictness: a window in which one bar has no USDT volume rolls up
/// into a bar without one, whatever the others hold.
pub proof fn lemma_usdt_strict(lower: Seq<Bar>, tf: Timeframe, k: int, j: int)
    requires
        0 <= k < lower.len() / window_len(tf),
        0 <= j < window(lower, tf, k).len(),
        window(lower, tf, k)[j].volume_usdt is None,
    ensures
        rollup(lower, tf)[k].volume_usdt is None,
{
    if total_usdt(window(lower, tf, k)) is Some {
        lemma_usdt_known(window(lower, tf, k), j);
    }
}

/// OHLC bounds under rollup: bars with `low <= open, close <= high` roll up
/// into bars with the same property.
pub proof fn lemma_rollup_keeps_order(lower: Seq<Bar>, tf: Timeframe, k: int)
    requires
        0 <= k < lower.len() / window_len(tf),
        forall|i: int| 0 <= i < lower.len() ==> (#[trigger] lower[i]).ordered(),
    ensures
        rollup(lower, tf)[k].ordered(),
{
    let w = window_len(tf) as int;
    let win = window(lower, tf, k);
    lemma_window_range(lower.len() as int, w, k);
    assert forall|i: int| 0 <= i < win.len() implies (#[trigger] win[i]).ordered() by {
        assert(win[i] == lower[k * w + i]);
    }
    lemma_rollup_ordered(win, tf);
}

/// Lets every metric fill the extension values of a rolled-up candle, in
/// registration order.
fn aggregate_metrics(metrics: &Vec<Box<dyn CandleMetric>>, src: &[Candle], dst: &mut Candle)
    ensures
        final(dst)@ == old(dst)@,
        metrics@.len() == 0 ==> final(dst).custom == old(dst).custom,
{
    let mut m: usize = 0;
    while m < metrics.len()
        invariant
            m <= metrics.len(),
            dst@ == old(dst)@,
            metrics@.len() == 0 ==> dst.custom == old(dst).custom,
        decreases metrics.len() - m,
    {
        metrics[m].aggregate(src, dst);
        m += 1;
    }
}

/// Rolls one window up into a candle of `tf`.
pub(crate) fn roll_window(src: &[Candle], tf: &Timeframe, config: &CandleConfig) -> (candle: Candle)
    requires
        src@.len() > 0,
        window_fits(bars(src@)),
    ensures
        candle@ == rollup_bar(bars(src@), *tf),
        config.custom_metrics@.len() == 0 ==> candle.custom@ == Map::<Seq<char>, int>::empty(),
{
    let ghost win = bars(src@);
    let mut high: u64 = 0;
    let mut low: u64 = u64::MAX;
    let mut volume: u128 = 0;
    let mut trade_count: u64 = 0;
    let mut volume_usdt: Option<u128> = Some(0);
    let mut j: usize = 0;
    assert(win.take(0) =~= Seq::<Bar>::empty());
    while j < src.len()
        invariant
            j <= src.len(),
            win == bars(src@),
            total_count(win) <= u64::MAX,
            total_volume(win) <= u128::MAX,
            high == highest(win.take(j as int)),
            low == lowest(win.take(j as int)),
            volume == total_volume(win.take(j as int)),
            trade_count == total_count(win.take(j as int)),
            usdt_model(volume_usdt) == total_usdt(win.take(j as int)),
        decreases src.len() - j,
    {
        let child = &src[j];
        proof {
            assert(win[j as int] == child@);
            lemma_take_step(win, j as int);
            lemma_prefix_totals(win, j as int + 1);
        }
        if child.high > high {
            high = child.high;
        }
        if child.low < low {
            low = child.low;
        }
        volume = volume + child.volume;
        trade_count = trade_count + child.trade_count;
        volume_usdt = match (volume_usdt, child.volume_usdt) {
            (Some(a), Some(b)) => a.checked_add(b),
            _ => None,
        };
        j += 1;
    }
    assert(win.take(src@.len() as int) =~= win);
    let first = &src[0];
    let last = &src[src.len() - 1];
    assert(win[0] == first@);
    assert(win.last() == last@);
    let mut candle = Candle {
        instrument: first.instrument.clone(),
        interval: *tf,
        timestamp: truncate_to_tf(first.timestamp, tf),
        open: first.open,
        high,
        low,
        close: last.close,
        volume,
        trade_count,
        volume_usdt,
        custom: CustomMetrics::new(),
    };
    aggregate_metrics(&config.custom_metrics, src, &mut candle);
    candle
}

/// Rolls candles of one interval up into candles of `tf`: consecutive windows
/// of `ratio(tf)` candles, one candle per complete window. Each rolled-up
/// candle opens at the first child's open, closes at the last child's close,
/// spans the children's highs and lows, sums their volumes and counts, and
/// has a USDT volume only if every child has one.
pub fn aggregate_from_lower(lower: &[Candle], tf: &Timeframe, config: &CandleConfig) -> (higher:
    Vec<Candle>)
    requires
        rollable(bars(lower@), *tf),
    ensures
        bars(higher@) == rollup(bars(lower@), *tf),
        higher@.len() == lower@.len() / window_len(*tf),
        config.custom_metrics@.len() == 0 ==> no_custom(higher@),
{
    let count: usize = window_size(tf);
    let ghost all = bars(lower@);
    let ghost n = lower@.len() as int;
    let ghost w = count as int;
    let mut higher: Vec<Candle> = Vec::new();
    let mut i: usize = 0;
    while count <= lower.len() && i <= lower.len() - count
        invariant
            all == bars(lower@),
            n == lower@.len(),
            w == count,
            w == window_len(*tf),
            1 <= w <= 6,
            i == higher@.len() * w,
            i <= n,
            higher@.len() <= n / w,
            rollable(all, *tf),
            forall|k: int| 0 <= k < higher@.len() ==> (#[trigger] higher@[k])@ == rollup_bar(
                window(all, *tf, k),
                *tf,
            ),
            config.custom_metrics@.len() == 0 ==> no_custom(higher@),
        decreases n - i,
    {
        let ghost k = higher@.len() as int;
        proof {
            assert((k + 1) * w == k * w + w) by (nonlinear_arith);
            assert((k + 1) * w == w * (k + 1)) by (nonlinear_arith);
            lemma_div_multiples_vanish(k + 1, w);
            lemma_div_is_ordered((k + 1) * w, n, w);
            assert(k + 1 == ((k + 1) * w) / w);
            assert(k < n / w);
            assert(window_fits(window(all, *tf, k)));
        }
        let src = slice_subrange(lower, i, i + count);
        assert(bars(src@) =~= window(all, *tf, k));
        let candle = roll_window(src, tf, config);
        higher.push(candle);
        i += count;
    }
    proof {
        let k = higher@.len() as int;
        lemma_fundamental_div_mod_converse(n, w, k, n - k * w);
        assert(bars(higher@) =~= rollup(all, *tf));
    }
    higher
}

} // verus!
