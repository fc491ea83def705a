use vstd::prelude::*;
use crate::queue::{index_lt, Queue};
use crate::types::{DeferredIndex, ParaId};

verus! {

impl Queue {
    /// No bucket ever holds more than the per-bucket capacity, and no origin's
    /// index set ever holds more than the per-origin capacity: both bounds are
    /// part of well-formedness, which every operation of the engine
    /// establishes and preserves.
    pub proof fn lemma_capacity_bounds(q: Queue, para: ParaId, index: DeferredIndex)
        requires
            q.wf(),
        ensures
            q.indices_of(para).len() <= q.max_buckets_per_origin,
            q.bucket_of(para, index) matches Some(b) ==> b.len() <= q.max_messages_per_bucket,
    {
        if q.has_origin(para) {
            let i = q.origin_pos(para);
            assert(q.origins@[i].wf(
                q.max_buckets_per_origin as int,
                q.max_messages_per_bucket as int,
            ));
        }
    }

    /// Overweight indices are assigned strictly increasing and never reused:
    /// entries are stored in increasing index order, and every stored index is
    /// below the next one to be assigned.
    pub proof fn lemma_overweight_indices(q: Queue, i: int, k: int)
        requires
            q.wf(),
            0 <= i < q.overweight@.len(),
            0 <= k < q.overweight@.len(),
            i < k,
        ensures
            q.overweight@[i].index < q.overweight@[k].index,
            q.overweight@[k].index < q.next_overweight_index,
    {
    }

    /// An origin's index set is kept in service order: ascending due block,
    /// then bucket number.
    pub proof fn lemma_service_order(q: Queue, para: ParaId, j: int, k: int)
        requires
            q.wf(),
            0 <= j < k < q.indices_of(para).len(),
        ensures
            index_lt(q.indices_of(para)[j], q.indices_of(para)[k]),
    {
        assert(q.has_origin(para));
        let i = q.origin_pos(para);
        assert(q.origins@[i].wf(
            q.max_buckets_per_origin as int,
            q.max_messages_per_bucket as int,
        ));
    }
}

} // verus!
