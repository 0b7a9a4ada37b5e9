//! Budgets of a reader, and what it has used.
use crate::error::{exhausted, ErrorView, RuntimeError};
use vstd::prelude::*;

verus! {

/// Room for the engine's own pages unless the options say otherwise.
pub const DEFAULT_PAGE_CACHE_BYTES: usize = 4194304;

/// Budgets shared by readers opened through a cloned table instance.
#[derive(Clone, Copy, Debug, PartialEq, Eq, Structural)]
pub struct ReaderOptions {
    pub cache_budget_bytes: usize,
    pub engine_page_cache_bytes: usize,
    pub checkpoint_window_bytes: usize,
    pub max_inflight_reads: usize,
    /// Upper bound on a record, checked before its overflow pages are read.
    pub maximum_record_bytes: usize,
}

impl Default for ReaderOptions {
    fn default() -> (options: Self)
        ensures
            options == (ReaderOptions {
                cache_budget_bytes: 67108864,
                engine_page_cache_bytes: DEFAULT_PAGE_CACHE_BYTES,
                checkpoint_window_bytes: 65536,
                max_inflight_reads: 8,
                maximum_record_bytes: 1048576,
            }),
            options.valid(),
    {
        ReaderOptions {
            cache_budget_bytes: 67108864,
            engine_page_cache_bytes: DEFAULT_PAGE_CACHE_BYTES,
            checkpoint_window_bytes: 65536,
            max_inflight_reads: 8,
            maximum_record_bytes: 1048576,
        }
    }
}

impl ReaderOptions {
    /// Every budget has room for a page, windows are whole pages, and eight
    /// records fit the cache.
    pub open spec fn valid(&self) -> bool {
        &&& self.cache_budget_bytes >= 4096
        &&& self.engine_page_cache_bytes >= 4096
        &&& 4096 <= self.checkpoint_window_bytes <= self.cache_budget_bytes
        &&& self.checkpoint_window_bytes as int % 4096 == 0
        &&& 1 <= self.max_inflight_reads <= 8
        &&& 4096 <= self.maximum_record_bytes
        &&& self.maximum_record_bytes * 8 <= self.cache_budget_bytes
    }

    pub fn validate(&self) -> (r: Result<(), RuntimeError>)
        ensures
            match r {
                Ok(()) => self.valid(),
                Err(e) => {
                    &&& !self.valid()
                    &&& e@ == ErrorView::ResourceExhausted("invalid reader budgets"@)
                },
            },
    {
        if self.cache_budget_bytes < 4096 || self.engine_page_cache_bytes < 4096
            || self.checkpoint_window_bytes < 4096 || self.checkpoint_window_bytes % 4096 != 0
            || self.checkpoint_window_bytes > self.cache_budget_bytes || self.max_inflight_reads < 1
            || self.max_inflight_reads > 8 || self.maximum_record_bytes < 4096
            || self.maximum_record_bytes > self.cache_budget_bytes / 8 {
            return Err(exhausted("invalid reader budgets"));
        }
        Ok(())
    }
}

/// Cumulative counters for one shared metadata storage context.
#[derive(Clone, Copy, Debug, PartialEq, Eq, Structural)]
pub struct ReaderStatistics {
    pub bytes: u64,
    pub requests: u64,
    pub pages: u64,
    pub cache_hits: u64,
    pub cache_bytes: usize,
    pub peak_cache_bytes: usize,
}

impl Default for ReaderStatistics {
    fn default() -> (statistics: Self)
        ensures
            statistics == (ReaderStatistics {
                bytes: 0,
                requests: 0,
                pages: 0,
                cache_hits: 0,
                cache_bytes: 0,
                peak_cache_bytes: 0,
            }),
    {
        ReaderStatistics {
            bytes: 0,
            requests: 0,
            pages: 0,
            cache_hits: 0,
            cache_bytes: 0,
            peak_cache_bytes: 0,
        }
    }
}

} // verus!
