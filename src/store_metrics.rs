//! Per-operation counters of a storage decorator that forwards every call unchanged.

use vstd::prelude::*;
use crate::stats::wrapped_sum;

verus! {

/// The operations of a storage backend.
#[derive(Debug, Clone, Copy, PartialEq, Eq, Structural)]
pub enum StoreOp {
    PutOpts,
    PutMultipartOpts,
    GetOpts,
    Delete,
    List,
    ListWithDelimiter,
    Copy,
    CopyIfNotExists,
    GetRange,
}

/// The number of distinct operations.
pub const STORE_OP_COUNT: usize = 9;

/// The counter slot of an operation.
pub open spec fn op_slot(op: StoreOp) -> int {
    match op {
        StoreOp::PutOpts => 0,
        StoreOp::PutMultipartOpts => 1,
        StoreOp::GetOpts => 2,
        StoreOp::Delete => 3,
        StoreOp::List => 4,
        StoreOp::ListWithDelimiter => 5,
        StoreOp::Copy => 6,
        StoreOp::CopyIfNotExists => 7,
        StoreOp::GetRange => 8,
    }
}

impl StoreOp {
    /// The counter slot of this operation.
    pub fn slot(&self) -> (r: usize)
        ensures
            r == op_slot(*self),
            r < STORE_OP_COUNT,
    {
        match self {
            StoreOp::PutOpts => 0,
            StoreOp::PutMultipartOpts => 1,
            StoreOp::GetOpts => 2,
            StoreOp::Delete => 3,
            StoreOp::List => 4,
            StoreOp::ListWithDelimiter => 5,
            StoreOp::Copy => 6,
            StoreOp::CopyIfNotExists => 7,
            StoreOp::GetRange => 8,
        }
    }

    /// The exported metric name counting this operation.
    pub fn metric_name(&self) -> (r: &'static str)
        ensures
            r@ == spec_metric_name(*self),
    {
        match self {
            StoreOp::PutOpts => "plano_store_put_opts_total",
            StoreOp::PutMultipartOpts => "plano_store_put_multipart_opts_total",
            StoreOp::GetOpts => "plano_store_get_opts_total",
            StoreOp::Delete => "plano_store_delete_total",
            StoreOp::List => "plano_store_list_total",
            StoreOp::ListWithDelimiter => "plano_store_list_with_delimiter_total",
            StoreOp::Copy => "plano_store_copy_total",
            StoreOp::CopyIfNotExists => "plano_store_copy_if_not_exists_total",
            StoreOp::GetRange => "plano_store_get_range_total",
        }
    }
}

/// The exported metric name counting an operation.
pub open spec fn spec_metric_name(op: StoreOp) -> Seq<char> {
    match op {
        StoreOp::PutOpts => "plano_store_put_opts_total"@,
        StoreOp::PutMultipartOpts => "plano_store_put_multipart_opts_total"@,
        StoreOp::GetOpts => "plano_store_get_opts_total"@,
        StoreOp::Delete => "plano_store_delete_total"@,
        StoreOp::List => "plano_store_list_total"@,
        StoreOp::ListWithDelimiter => "plano_store_list_with_delimiter_total"@,
        StoreOp::Copy => "plano_store_copy_total"@,
        StoreOp::CopyIfNotExists => "plano_store_copy_if_not_exists_total"@,
        StoreOp::GetRange => "plano_store_get_range_total"@,
    }
}

/// How many times each operation was called.
#[derive(Debug)]
pub struct StoreCounters {
    counts: Vec<u64>,
}

impl StoreCounters {
    /// The count of each operation, by slot.
    pub closed spec fn counts(&self) -> Seq<u64> {
        self.counts@
    }

    pub open spec fn wf(&self) -> bool {
        self.counts().len() == STORE_OP_COUNT
    }

    /// Every count at zero.
    pub fn new() -> (r: Self)
        ensures
            r.wf(),
            forall|i: int| 0 <= i < STORE_OP_COUNT ==> #[trigger] r.counts()[i] == 0,
    {
        let mut counts: Vec<u64> = Vec::new();
        let mut i: usize = 0;
        while i < STORE_OP_COUNT
            invariant
                i <= STORE_OP_COUNT,
                counts@.len() == i,
                forall|j: int| 0 <= j < i ==> #[trigger] counts@[j] == 0,
            decreases STORE_OP_COUNT - i,
        {
            counts.push(0);
            i = i + 1;
        }
        StoreCounters { counts }
    }

    /// Counts one call of `op`; the other counts stay as they were.
    pub fn record(&mut self, op: StoreOp)
        requires
            old(self).wf(),
        ensures
            final(self).wf(),
            final(self).counts() == old(self).counts().update(
                op_slot(op),
                wrapped_sum(old(self).counts()[op_slot(op)], 1),
            ),
    {
        let i = op.slot();
        let next = self.counts[i].wrapping_add(1);
        self.counts.set(i, next);
    }

    /// How many calls of `op` were counted.
    pub fn count(&self, op: StoreOp) -> (r: u64)
        requires
            self.wf(),
        ensures
            r == self.counts()[op_slot(op)],
    {
        self.counts[op.slot()]
    }
}

} // verus!
