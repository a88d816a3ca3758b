//! How much memory aggregations may use.

use vstd::prelude::*;

verus! {

/// The budget when none is given.
pub const DEFAULT_MEMORY_LIMIT: u64 = 500_000_000;

/// More memory is in use than the budget allows.
#[derive(Clone, Copy, Debug, PartialEq, Eq, Structural)]
pub struct MemoryExceeded {
    /// The budget.
    pub limit: u64,
    /// The memory in use.
    pub current: u64,
}

/// The memory in use, and the budget for it.
#[derive(Clone, Copy, Debug, PartialEq, Eq, Structural)]
pub struct AggregationLimits {
    /// The budget.
    pub memory_limit: u64,
    /// The memory in use.
    pub memory_consumed: u64,
    /// The most memory that was ever in use.
    pub peak_memory: u64,
}

impl AggregationLimits {
    /// The budget with `num_bytes` more in use. A counter that is full stays full.
    pub open spec fn after_adding(self, num_bytes: u64) -> AggregationLimits {
        let consumed = if self.memory_consumed + num_bytes <= u64::MAX {
            (self.memory_consumed + num_bytes) as u64
        } else {
            u64::MAX
        };
        AggregationLimits {
            memory_limit: self.memory_limit,
            memory_consumed: consumed,
            peak_memory: if consumed > self.peak_memory {
                consumed
            } else {
                self.peak_memory
            },
        }
    }

    /// The error if more is in use than the budget allows.
    pub open spec fn excess(self) -> Option<MemoryExceeded> {
        if self.memory_consumed > self.memory_limit {
            Some(MemoryExceeded { limit: self.memory_limit, current: self.memory_consumed })
        } else {
            None
        }
    }

    /// Nothing in use, with the given budget or the default one.
    pub fn new(memory_limit: Option<u64>) -> (limits: AggregationLimits)
        ensures
            limits == (AggregationLimits {
                memory_limit: match memory_limit {
                    Some(limit) => limit,
                    None => DEFAULT_MEMORY_LIMIT,
                },
                memory_consumed: 0,
                peak_memory: 0,
            }),
    {
        let memory_limit: u64 = match memory_limit {
            Some(limit) => limit,
            None => DEFAULT_MEMORY_LIMIT,
        };
        AggregationLimits { memory_limit, memory_consumed: 0, peak_memory: 0 }
    }

    /// Counts `num_bytes` as in use, and fails if that is more than the budget allows.
    pub fn add_memory_consumed(&mut self, num_bytes: u64) -> (result: Result<(), MemoryExceeded>)
        ensures
            *final(self) == old(self).after_adding(num_bytes),
            match old(self).after_adding(num_bytes).excess() {
                Some(error) => result == Err::<(), MemoryExceeded>(error),
                None => result is Ok,
            },
    {
        let consumed: u64 = if num_bytes <= u64::MAX - self.memory_consumed {
            self.memory_consumed + num_bytes
        } else {
            u64::MAX
        };
        self.memory_consumed = consumed;
        if consumed > self.peak_memory {
            self.peak_memory = consumed;
        }
        if consumed > self.memory_limit {
            Err(MemoryExceeded { limit: self.memory_limit, current: consumed })
        } else {
            Ok(())
        }
    }

    /// Counts `num_bytes` as in use for a moment, and fails if that is more than the budget
    /// allows.
    pub fn add_transient_memory(&mut self, num_bytes: u64) -> (result: Result<(), MemoryExceeded>)
        ensures
            *final(self) == (AggregationLimits {
                memory_consumed: old(self).memory_consumed,
                ..old(self).after_adding(num_bytes)
            }),
            match old(self).after_adding(num_bytes).excess() {
                Some(error) => result == Err::<(), MemoryExceeded>(error),
                None => result is Ok,
            },
    {
        let before: u64 = self.memory_consumed;
        let result = self.add_memory_consumed(num_bytes);
        self.memory_consumed = before;
        result
    }
}

} // verus!
