//! What the order of arrival cannot change in the `m1` history.

use crate::candle::Bar;
use crate::generator::all_wf;
use crate::model::{base_ok, gaps, ingest_base, lemma_base_step, slot};
use crate::timeframe::{bucket_start, lemma_bucket_start_bounds, MIN_TIMESTAMP};
use crate::types::{Timeframe, Trade};
use vstd::prelude::*;
use vstd::seq_lib::{commutative_foldl, lemma_fold_left_permutation};

verus! {

/// The `m1` bucket of a trade.
pub open spec fn minute_of(trade: Trade) -> int {
    bucket_start(trade.timestamp as int, Timeframe::m1)
}

/// The `m1` history of a fresh engine after it took `trades` in this order,
/// `usdt[i]` being the value in USDT of `trades[i]`.
pub open spec fn replay(trades: Seq<Trade>, usdt: Seq<Option<nat>>) -> Seq<Bar>
    decreases trades.len(),
{
    if trades.len() == 0 {
        Seq::empty()
    } else {
        ingest_base(replay(trades.drop_last(), usdt.drop_last()), trades.last(), usdt.last())
    }
}

/// A fresh engine can take the trades in this order: none is in a bucket
/// before that of the first.
pub open spec fn replayable(trades: Seq<Trade>) -> bool {
    forall|i: int| 0 <= i < trades.len() ==> minute_of(trades[0]) <= minute_of(#[trigger] trades[i])
}

pub open spec fn counter(bucket: int) -> spec_fn(nat, Trade) -> nat {
    |seen: nat, trade: Trade|
        if minute_of(trade) == bucket {
            seen + 1
        } else {
            seen
        }
}

pub open spec fn adder(bucket: int) -> spec_fn(nat, Trade) -> nat {
    |sum: nat, trade: Trade|
        if minute_of(trade) == bucket {
            sum + trade.amount as nat
        } else {
            sum
        }
}

pub open spec fn later() -> spec_fn(int, Trade) -> int {
    |bucket: int, trade: Trade|
        if minute_of(trade) > bucket {
            minute_of(trade)
        } else {
            bucket
        }
}

/// How many of the trades fall in `bucket`.
pub open spec fn count_in(trades: Seq<Trade>, bucket: int) -> nat {
    trades.fold_left(0nat, counter(bucket))
}

/// The amounts of the trades that fall in `bucket`, added up.
pub open spec fn volume_in(trades: Seq<Trade>, bucket: int) -> nat {
    trades.fold_left(0nat, adder(bucket))
}

/// The latest bucket that any of the trades falls in.
pub open spec fn latest(trades: Seq<Trade>) -> int {
    trades.fold_left(MIN_TIMESTAMP as int, later())
}

proof fn lemma_step(trades: Seq<Trade>, bucket: int)
    requires
        trades.len() > 0,
    ensures
        count_in(trades, bucket) == count_in(trades.drop_last(), bucket) + (if minute_of(
            trades.last(),
        ) == bucket {
            1nat
        } else {
            0nat
        }),
        volume_in(trades, bucket) == volume_in(trades.drop_last(), bucket) + (if minute_of(
            trades.last(),
        ) == bucket {
            trades.last().amount as nat
        } else {
            0nat
        }),
        latest(trades) == if minute_of(trades.last()) > latest(trades.drop_last()) {
            minute_of(trades.last())
        } else {
            latest(trades.drop_last())
        },
{
}

/// No trade falls in a bucket after the latest.
proof fn lemma_beyond_latest(trades: Seq<Trade>, bucket: int)
    requires
        bucket > latest(trades),
    ensures
        count_in(trades, bucket) == 0,
        volume_in(trades, bucket) == 0,
    decreases trades.len(),
{
    if trades.len() > 0 {
        lemma_step(trades, bucket);
        lemma_beyond_latest(trades.drop_last(), bucket);
    }
}

/// The shape of a replayed history: it runs without a gap from the bucket of
/// the first trade to the latest bucket, and each bar holds the count and
/// the volume of the trades of its bucket.
pub proof fn lemma_replay_shape(trades: Seq<Trade>, usdt: Seq<Option<nat>>)
    requires
        trades.len() > 0,
        all_wf(trades),
        replayable(trades),
    ensures
        base_ok(replay(trades, usdt), trades.len()),
        replay(trades, usdt).len() > 0,
        replay(trades, usdt)[0].timestamp == minute_of(trades[0]),
        replay(trades, usdt).last().timestamp == latest(trades),
        forall|k: int|
            0 <= k < replay(trades, usdt).len() ==> {
                let bar = #[trigger] replay(trades, usdt)[k];
                &&& bar.trade_count == count_in(trades, bar.timestamp)
                &&& bar.volume == volume_in(trades, bar.timestamp)
            },
    decreases trades.len(),
{
    let head = trades.drop_last();
    let trade = trades.last();
    let value = usdt.last();
    let before = replay(head, usdt.drop_last());
    let now = replay(trades, usdt);
    let bucket = minute_of(trade);
    assert(trade == trades[trades.len() - 1]);
    assert(trade.wf());
    lemma_bucket_start_bounds(trade.timestamp as int, Timeframe::m1);
    assert forall|x: int| true implies count_in(trades, x) == count_in(head, x) + (if bucket == x {
        1nat
    } else {
        0nat
    }) && volume_in(trades, x) == volume_in(head, x) + (if bucket == x {
        trade.amount as nat
    } else {
        0nat
    }) by {
        lemma_step(trades, x);
    }
    lemma_step(trades, 0);
    if head.len() == 0 {
        assert(before =~= Seq::<Bar>::empty());
        lemma_base_step(before, trade, value, 0);
        assert(latest(head) == MIN_TIMESTAMP);
        assert(count_in(head, bucket) == 0 && volume_in(head, bucket) == 0);
    } else {
        assert(head[0] == trades[0]);
        assert(all_wf(head)) by {
            assert forall|i: int| 0 <= i < head.len() implies (#[trigger] head[i]).wf() by {
                assert(head[i] == trades[i]);
            }
        }
        assert(replayable(head)) by {
            assert forall|i: int| 0 <= i < head.len() implies minute_of(head[0]) <= minute_of(
                #[trigger] head[i],
            ) by {
                assert(head[i] == trades[i]);
            }
        }
        lemma_replay_shape(head, usdt.drop_last());
        let n = before.len() as int;
        let first = before[0].timestamp;
        let last = before[n - 1];
        assert(before.last() == last);
        lemma_base_step(before, trade, value, head.len());
        if bucket == last.timestamp {
            assert forall|k: int| 0 <= k < now.len() implies {
                let bar = #[trigger] now[k];
                &&& bar.trade_count == count_in(trades, bar.timestamp)
                &&& bar.volume == volume_in(trades, bar.timestamp)
            } by {
                if k < n - 1 {
                    assert(now[k] == before[k]);
                    assert(before[k].timestamp == first + k * 60_000);
                    assert(last.timestamp == first + (n - 1) * 60_000);
                }
            }
            assert(now.last() == now[n - 1]);
        } else if bucket > last.timestamp {
            let g = (bucket - last.timestamp) / 60_000 - 1;
            let fill = gaps(last, g);
            assert(now.len() == n + g + 1);
            assert(now.last() == now[n + g]);
            lemma_beyond_latest(head, bucket);
            assert forall|k: int| 0 <= k < now.len() implies {
                let bar = #[trigger] now[k];
                &&& bar.trade_count == count_in(trades, bar.timestamp)
                &&& bar.volume == volume_in(trades, bar.timestamp)
            } by {
                if k < n {
                    assert(now[k] == before[k]);
                    assert(before[k].timestamp == first + k * 60_000);
                    assert(last.timestamp == first + (n - 1) * 60_000);
                } else if k < n + g {
                    assert(now[k] == fill[k - n]);
                    let x = now[k].timestamp;
                    assert(x == last.timestamp + (k - n + 1) * 60_000);
                    assert(now[n + g].timestamp == now[0].timestamp + (n + g) * 60_000);
                    assert(now[k].timestamp == now[0].timestamp + k * 60_000);
                    lemma_beyond_latest(head, x);
                }
            }
        } else {
            let at = slot(before, bucket);
            assert((bucket - first) % 60_000 == 0);
            assert(last.timestamp == first + (n - 1) * 60_000);
            assert(0 <= at < n - 1);
            assert(before[at].timestamp == first + at * 60_000);
            assert forall|k: int| 0 <= k < now.len() implies {
                let bar = #[trigger] now[k];
                &&& bar.trade_count == count_in(trades, bar.timestamp)
                &&& bar.volume == volume_in(trades, bar.timestamp)
            } by {
                if k != at {
                    assert(now[k] == before[k]);
                    assert(before[k].timestamp == first + k * 60_000);
                }
            }
            assert(now.last() == now[n - 1]);
            assert(now[n - 1] == before[n - 1]);
        }
    }
}

/// Order independence, as far as it holds: two orders of arrival of the same
/// trades, each of which a fresh engine can take, give `m1` histories with
/// the same buckets, and in each bucket the same trade count and the same
/// volume.
pub proof fn lemma_order_independence(
    first: Seq<Trade>,
    second: Seq<Trade>,
    first_usdt: Seq<Option<nat>>,
    second_usdt: Seq<Option<nat>>,
)
    requires
        first.to_multiset() == second.to_multiset(),
        all_wf(first),
        replayable(first),
        replayable(second),
    ensures
        replay(first, first_usdt).len() == replay(second, second_usdt).len(),
        forall|k: int|
            0 <= k < replay(first, first_usdt).len() ==> {
                let a = #[trigger] replay(first, first_usdt)[k];
                let b = replay(second, second_usdt)[k];
                &&& a.timestamp == b.timestamp
                &&& a.trade_count == b.trade_count
                &&& a.volume == b.volume
            },
{
    broadcast use vstd::seq_lib::group_to_multiset_ensures;

    assert(first.len() == second.len()) by {
        first.to_multiset_ensures();
        second.to_multiset_ensures();
    }
    if first.len() > 0 {
        assert forall|j: int| 0 <= j < second.len() implies (#[trigger] second[j]).wf() by {
            assert(second.contains(second[j]));
            assert(second.to_multiset().count(second[j]) > 0);
            assert(first.contains(second[j]));
        }
        assert(minute_of(first[0]) == minute_of(second[0])) by {
            assert(first.contains(first[0]));
            assert(first.to_multiset().count(first[0]) > 0);
            assert(second.contains(first[0]));
            let j = choose|j: int| 0 <= j < second.len() && second[j] == first[0];
            assert(minute_of(second[0]) <= minute_of(second[j]));
            assert(second.contains(second[0]));
            assert(second.to_multiset().count(second[0]) > 0);
            assert(first.contains(second[0]));
            let i = choose|i: int| 0 <= i < first.len() && first[i] == second[0];
            assert(minute_of(first[0]) <= minute_of(first[i]));
        }
        assert(commutative_foldl(later()));
        lemma_fold_left_permutation(first, second, later(), MIN_TIMESTAMP as int);
        lemma_replay_shape(first, first_usdt);
        lemma_replay_shape(second, second_usdt);
        let x = replay(first, first_usdt);
        let y = replay(second, second_usdt);
        assert(x.last() == x[x.len() - 1]);
        assert(y.last() == y[y.len() - 1]);
        assert(x[x.len() - 1].timestamp == x[0].timestamp + (x.len() - 1) * 60_000);
        assert(y[y.len() - 1].timestamp == y[0].timestamp + (y.len() - 1) * 60_000);
        assert forall|k: int| 0 <= k < x.len() implies {
            let a = #[trigger] x[k];
            let b = y[k];
            &&& a.timestamp == b.timestamp
            &&& a.trade_count == b.trade_count
            &&& a.volume == b.volume
        } by {
            let at = x[k].timestamp;
            assert(x[k].timestamp == x[0].timestamp + k * 60_000);
            assert(y[k].timestamp == y[0].timestamp + k * 60_000);
            assert(commutative_foldl(counter(at)));
            assert(commutative_foldl(adder(at)));
            lemma_fold_left_permutation(first, second, counter(at), 0nat);
            lemma_fold_left_permutation(first, second, adder(at), 0nat);
        }
    } else {
        assert(replay(first, first_usdt) =~= replay(second, second_usdt));
    }
}

} // verus!
