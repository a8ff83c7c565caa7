//! The driver loop's configuration and its scheduling decisions: the hot/cold
//! ratio and the global memory-budget admission control.

use vstd::prelude::*;

verus! {

/// The compactor's configuration.
#[derive(Clone, Copy, Debug, PartialEq, Eq, Structural)]
pub struct CompactorConfig {
    /// Target L1 output size in bytes.
    pub max_desired_file_size_bytes: u64,
    /// Single-versus-split threshold, as a percentage of the target size.
    pub percentage_max_file_size: u64,
    /// Time-split ratio for L1 outputs, as a percentage of the time range.
    pub split_percentage: u64,
    /// Global admission budget in bytes.
    pub max_cold_concurrent_size_bytes: u64,
    /// Selector cap per tick.
    pub max_number_partitions_per_shard: u64,
    /// Hot eligibility threshold.
    pub min_number_recent_ingested_files_per_partition: u64,
    /// Cold filter size cap in bytes.
    pub cold_input_size_threshold_bytes: u64,
    /// L2 output target size in bytes.
    pub cold_max_desired_file_size_bytes: u64,
    /// Cold filter count cap.
    pub cold_input_file_count_threshold: u64,
    /// Hot compactions to run for every cold one.
    pub hot_multiple: u64,
    /// Per-operation memory estimate ceiling in bytes.
    pub memory_budget_bytes: u64,
}

impl CompactorConfig {
    /// Bounds the pipeline needs of a usable configuration.
    pub open spec fn wf(self) -> bool {
        &&& self.split_percentage <= 100
        &&& self.cold_max_desired_file_size_bytes > 0
    }

    /// Collect the configuration.
    pub fn new(
        max_desired_file_size_bytes: u64,
        percentage_max_file_size: u64,
        split_percentage: u64,
        max_cold_concurrent_size_bytes: u64,
        max_number_partitions_per_shard: u64,
        min_number_recent_ingested_files_per_partition: u64,
        cold_input_size_threshold_bytes: u64,
        cold_max_desired_file_size_bytes: u64,
        cold_input_file_count_threshold: u64,
        hot_multiple: u64,
        memory_budget_bytes: u64,
    ) -> (r: Self)
        requires
            split_percentage <= 100,
            cold_max_desired_file_size_bytes > 0,
        ensures
            r == (CompactorConfig {
                max_desired_file_size_bytes,
                percentage_max_file_size,
                split_percentage,
                max_cold_concurrent_size_bytes,
                max_number_partitions_per_shard,
                min_number_recent_ingested_files_per_partition,
                cold_input_size_threshold_bytes,
                cold_max_desired_file_size_bytes,
                cold_input_file_count_threshold,
                hot_multiple,
                memory_budget_bytes,
            }),
            r.wf(),
    {
        CompactorConfig {
            max_desired_file_size_bytes,
            percentage_max_file_size,
            split_percentage,
            max_cold_concurrent_size_bytes,
            max_number_partitions_per_shard,
            min_number_recent_ingested_files_per_partition,
            cold_input_size_threshold_bytes,
            cold_max_desired_file_size_bytes,
            cold_input_file_count_threshold,
            hot_multiple,
            memory_budget_bytes,
        }
    }
}

/// Which pool the next compaction cycle serves.
#[derive(Clone, Copy, Debug, PartialEq, Eq, Structural)]
pub enum CycleKind {
    /// Compact a hot candidate.
    Hot,
    /// Compact a cold candidate.
    Cold,
}

/// Scheduling state: hot cycles run since the last cold one.
#[derive(Clone, Copy, Debug, PartialEq, Eq, Structural)]
pub struct ScheduleState {
    /// Hot cycles since the last cold cycle.
    pub hot_runs_since_cold: u64,
}

/// Decide the next cycle's kind: for every cold compaction, `hot_multiple` hot
/// compactions run first.
pub fn next_cycle(s: ScheduleState, hot_multiple: u64) -> (r: (CycleKind, ScheduleState))
    ensures
        r == (if s.hot_runs_since_cold < hot_multiple {
            (
                CycleKind::Hot,
                ScheduleState { hot_runs_since_cold: (s.hot_runs_since_cold + 1) as u64 },
            )
        } else {
            (CycleKind::Cold, ScheduleState { hot_runs_since_cold: 0u64 })
        }),
{
    if s.hot_runs_since_cold < hot_multiple {
        (CycleKind::Hot, ScheduleState { hot_runs_since_cold: s.hot_runs_since_cold + 1 })
    } else {
        (CycleKind::Cold, ScheduleState { hot_runs_since_cold: 0 })
    }
}

/// The global admission budget: remaining bytes of
/// `max_cold_concurrent_size_bytes`.
#[derive(Clone, Copy, Debug, PartialEq, Eq, Structural)]
pub struct BudgetState {
    /// Bytes still admittable.
    pub remaining: u64,
}

impl BudgetState {
    /// A fresh budget of `total` bytes.
    pub fn new(total: u64) -> (r: Self)
        ensures
            r.remaining == total,
    {
        BudgetState { remaining: total }
    }

    /// Let a worker in when its estimated footprint fits the remaining
    /// budget; the budget then shrinks by the estimate.
    pub fn acquire(self, estimated: u64) -> (r: (bool, Self))
        ensures
            r.0 == (estimated <= self.remaining),
            r.0 ==> r.1.remaining == self.remaining - estimated,
            !r.0 ==> r.1 == self,
    {
        if estimated <= self.remaining {
            (true, BudgetState { remaining: self.remaining - estimated })
        } else {
            (false, self)
        }
    }

    /// Release an admitted worker's estimate back to the budget, capped at the
    /// configured total.
    pub fn release(self, estimated: u64, total: u64) -> (r: Self)
        ensures
            r.remaining == if self.remaining + estimated <= total {
                (self.remaining + estimated) as u64
            } else {
                total
            },
    {
        let back = self.remaining.saturating_add(estimated);
        if back <= total {
            BudgetState { remaining: back }
        } else {
            BudgetState { remaining: total }
        }
    }
}

} // verus!
