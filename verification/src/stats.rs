//! Counters of a batch run.

use std::collections::HashMap;
use vstd::prelude::*;
use vstd::std_specs::hash::group_hash_axioms;

verus! {

broadcast use group_hash_axioms;

/// What a batch run has processed so far. Times are in nanoseconds.
#[derive(Debug)]
pub struct ProcessingStats {
    pub total_files: usize,
    pub total_trades: usize,
    /// Candles produced, by interval length in minutes.
    pub total_candles: HashMap<i64, usize>,
    pub processing_time: u128,
    pub trade_processing_time: u128,
    pub aggregation_time: u128,
    pub io_time: u128,
}

impl ProcessingStats {
    /// Candles counted so far for `interval`.
    pub open spec fn candles_for(&self, interval: i64) -> nat {
        if self.total_candles@.contains_key(interval) {
            self.total_candles@[interval] as nat
        } else {
            0
        }
    }

    /// Fresh statistics: nothing processed, no time spent.
    pub fn new() -> (stats: Self)
        ensures
            stats.total_files == 0,
            stats.total_trades == 0,
            stats.total_candles@ == Map::<i64, usize>::empty(),
            stats.processing_time == 0,
            stats.trade_processing_time == 0,
            stats.aggregation_time == 0,
            stats.io_time == 0,
    {
        ProcessingStats {
            total_files: 0,
            total_trades: 0,
            total_candles: HashMap::new(),
            processing_time: 0,
            trade_processing_time: 0,
            aggregation_time: 0,
            io_time: 0,
        }
    }

    /// Counts `count` more candles of `interval`.
    pub fn add_candles(&mut self, interval: i64, count: usize)
        requires
            old(self).candles_for(interval) + count <= usize::MAX,
        ensures
            final(self).total_candles@ == old(self).total_candles@.insert(
                interval,
                (old(self).candles_for(interval) + count) as usize,
            ),
            final(self).candles_for(interval) == old(self).candles_for(interval) + count,
            final(self).total_files == old(self).total_files,
            final(self).total_trades == old(self).total_trades,
            final(self).processing_time == old(self).processing_time,
            final(self).trade_processing_time == old(self).trade_processing_time,
            final(self).aggregation_time == old(self).aggregation_time,
            final(self).io_time == old(self).io_time,
    {
        let before: usize = match self.total_candles.get(&interval) {
            Some(n) => *n,
            None => 0,
        };
        self.total_candles.insert(interval, before + count);
    }
}

impl Default for ProcessingStats {
    fn default() -> (stats: Self)
        ensures
            stats.total_files == 0,
            stats.total_trades == 0,
            stats.total_candles@ == Map::<i64, usize>::empty(),
            stats.processing_time == 0,
            stats.trade_processing_time == 0,
            stats.aggregation_time == 0,
            stats.io_time == 0,
    {
        ProcessingStats::new()
    }
}

} // verus!
