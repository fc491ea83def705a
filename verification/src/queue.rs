use vstd::prelude::*;
use crate::types::{
    DeferredIndex, DeferredMessage, Event, OverweightEntry, ParaId, QueueConfigData,
    RelayBlockNumber,
};

verus! {

/// A bucket: a fixed-order sequence of slots. A serviced or discarded slot
/// becomes `None` in place; slots are never shifted, so positions stay stable
/// across calls.
pub type Bucket = Vec<Option<DeferredMessage>>;

/// All deferred state of one origin: the (sorted, duplicate-free) index set
/// and one bucket per index, kept parallel.
pub struct OriginState {
    pub origin: ParaId,
    pub indices: Vec<DeferredIndex>,
    pub buckets: Vec<Bucket>,
}

/// A raw per-origin batch of message bytes: what the transport delivers to
/// one ingress call, and the form in which a suspended or budget-stopped
/// channel's payload is held back.
pub struct InboundPage {
    pub sender: ParaId,
    pub sent_at: RelayBlockNumber,
    pub data: Vec<u8>,
}

/// The service order on bucket indices: ascending due block, then sequence
/// number.
pub open spec fn index_lt(a: DeferredIndex, b: DeferredIndex) -> bool {
    a.0 < b.0 || (a.0 == b.0 && a.1 < b.1)
}

/// Messages are equal up to the abstract value of their payload bytes.
pub open spec fn slot_eq(a: Option<DeferredMessage>, b: Option<DeferredMessage>) -> bool {
    match (a, b) {
        (Option::None, Option::None) => true,
        (Option::Some(x), Option::Some(y)) => {
            &&& x.sent_at == y.sent_at
            &&& x.deferred_to == y.deferred_to
            &&& x.sender == y.sender
            &&& x.xcm.data@ == y.xcm.data@
        },
        _ => false,
    }
}

impl OriginState {
    pub open spec fn wf(&self, max_buckets: int, max_messages: int) -> bool {
        &&& self.indices@.len() == self.buckets@.len()
        &&& self.indices@.len() <= max_buckets
        &&& forall|j: int, k: int|
            0 <= j < k < self.indices@.len() ==> index_lt(self.indices@[j], self.indices@[k])
        &&& forall|j: int|
            0 <= j < self.buckets@.len() ==> self.buckets@[j]@.len() <= max_messages
        &&& forall|j: int, s: int|
            0 <= j < self.buckets@.len() && 0 <= s < self.buckets@[j]@.len() ==> ((#[trigger] self
                .buckets@[j]@[s]) matches Some(m) ==> m.deferred_to == self.indices@[j].0
                && m.sender == self.origin && m.xcm.data@.len() <= u32::MAX)
    }

    pub open spec fn has_index(&self, index: DeferredIndex) -> bool {
        exists|j: int| 0 <= j < self.indices@.len() && self.indices@[j] == index
    }

    pub open spec fn index_pos(&self, index: DeferredIndex) -> int {
        choose|j: int| 0 <= j < self.indices@.len() && self.indices@[j] == index
    }
}

/// The whole engine state: deferred buckets per origin, the overweight store,
/// held inbound pages, configuration and suspension flags, and the recorded
/// events. Mutated only by the operations of this crate, never concurrently.
pub struct Queue {
    pub origins: Vec<OriginState>,
    pub overweight: Vec<OverweightEntry>,
    pub next_overweight_index: u64,
    pub inbound: Vec<InboundPage>,
    pub events: Vec<Event>,
    pub config: QueueConfigData,
    /// Halts the ingress fast path, and deferred servicing with it.
    pub queue_suspended: bool,
    /// Halts deferred servicing alone.
    pub deferred_suspended: bool,
    /// The emergency override: when set, every inbound message is deferred by
    /// this many blocks from its arrival block, regardless of content.
    pub defer_all_by: Option<u32>,
    /// Blocks a classifier-matched message is deferred past its send block.
    pub defer_duration: u32,
    /// Capacity of each bucket.
    pub max_messages_per_bucket: usize,
    /// Capacity of each origin's index set.
    pub max_buckets_per_origin: usize,
    /// Buckets inspected per origin by one unprivileged scheduler call.
    pub max_buckets_processed: usize,
}

impl Queue {
    /// The structural invariant every operation preserves: parallel, sorted,
    /// duplicate-free index sets within capacity; buckets within capacity;
    /// slot metadata consistent with the owning index; unique origins; and
    /// strictly increasing, never reused overweight indices.
    pub open spec fn wf(&self) -> bool {
        &&& 1 <= self.max_messages_per_bucket
        &&& 1 <= self.max_buckets_per_origin
        &&& forall|i: int|
            0 <= i < self.origins@.len() ==> (#[trigger] self.origins@[i]).wf(
                self.max_buckets_per_origin as int,
                self.max_messages_per_bucket as int,
            )
        &&& forall|i: int, k: int|
            0 <= i < k < self.origins@.len() ==> self.origins@[i].origin
                != self.origins@[k].origin
        &&& forall|i: int|
            0 <= i < self.overweight@.len() ==> (#[trigger] self.overweight@[i]).index
                < self.next_overweight_index
        &&& forall|i: int, k: int|
            0 <= i < k < self.overweight@.len() ==> self.overweight@[i].index
                < self.overweight@[k].index
    }

    pub open spec fn has_origin(&self, para: ParaId) -> bool {
        exists|i: int| 0 <= i < self.origins@.len() && self.origins@[i].origin == para
    }

    pub open spec fn origin_pos(&self, para: ParaId) -> int {
        choose|i: int| 0 <= i < self.origins@.len() && self.origins@[i].origin == para
    }

    /// The index set of one origin, in service order; empty when the origin
    /// holds nothing.
    pub open spec fn indices_of(&self, para: ParaId) -> Seq<DeferredIndex> {
        if self.has_origin(para) {
            self.origins@[self.origin_pos(para)].indices@
        } else {
            Seq::empty()
        }
    }

    /// The slots of the bucket stored under `(para, index)`, if any.
    pub open spec fn bucket_of(&self, para: ParaId, index: DeferredIndex) -> Option<
        Seq<Option<DeferredMessage>>,
    > {
        if self.has_origin(para) {
            let o = self.origins@[self.origin_pos(para)];
            if o.has_index(index) {
                Some(o.buckets@[o.index_pos(index)]@)
            } else {
                None
            }
        } else {
            None
        }
    }

    /// A fresh queue with the given policy parameters and default
    /// configuration; it holds nothing and nothing is suspended.
    pub fn new(
        defer_duration: u32,
        max_messages_per_bucket: usize,
        max_buckets_per_origin: usize,
        max_buckets_processed: usize,
    ) -> (q: Queue)
        requires
            1 <= max_messages_per_bucket,
            1 <= max_buckets_per_origin,
        ensures
            q.wf(),
            q.origins@.len() == 0,
            q.overweight@.len() == 0,
            q.next_overweight_index == 0,
            q.inbound@.len() == 0,
            q.events@.len() == 0,
            q.config == crate::types::spec_default_config(),
            !q.queue_suspended,
            !q.deferred_suspended,
            q.defer_all_by is None,
            q.defer_duration == defer_duration,
            q.max_messages_per_bucket == max_messages_per_bucket,
            q.max_buckets_per_origin == max_buckets_per_origin,
            q.max_buckets_processed == max_buckets_processed,
    {
        Queue {
            origins: Vec::new(),
            overweight: Vec::new(),
            next_overweight_index: 0,
            inbound: Vec::new(),
            events: Vec::new(),
            config: QueueConfigData::default(),
            queue_suspended: false,
            deferred_suspended: false,
            defer_all_by: None,
            defer_duration,
            max_messages_per_bucket,
            max_buckets_per_origin,
            max_buckets_processed,
        }
    }

    /// Position of an origin's state, if the origin holds anything.
    pub(crate) fn find_origin(&self, para: ParaId) -> (r: Option<usize>)
        requires
            self.wf(),
        ensures
            match r {
                Some(i) => self.has_origin(para) && i == self.origin_pos(para) && i
                    < self.origins@.len() && self.origins@[i as int].origin == para,
                None => !self.has_origin(para),
            },
    {
        let mut i: usize = 0;
        while i < self.origins.len()
            invariant
                self.wf(),
                i <= self.origins@.len(),
                forall|k: int| 0 <= k < i ==> self.origins@[k].origin != para,
            decreases self.origins@.len() - i,
        {
            if self.origins[i].origin == para {
                proof {
                    self.lemma_origin_pos(para, i as int);
                }
                return Some(i);
            }
            i = i + 1;
        }
        None
    }

    /// Under `wf`, the position of an origin is unique.
    pub proof fn lemma_origin_pos(&self, para: ParaId, i: int)
        requires
            self.wf(),
            0 <= i < self.origins@.len(),
            self.origins@[i].origin == para,
        ensures
            self.has_origin(para),
            self.origin_pos(para) == i,
    {
        assert(self.has_origin(para));
        let j = self.origin_pos(para);
        if i < j {
            assert(self.origins@[i].origin != self.origins@[j].origin);
        } else if j < i {
            assert(self.origins@[j].origin != self.origins@[i].origin);
        }
    }

    /// Under a sorted index set, the position of an index is unique.
    pub proof fn lemma_index_pos(o: OriginState, max_b: int, max_m: int, index: DeferredIndex, j: int)
        requires
            o.wf(max_b, max_m),
            0 <= j < o.indices@.len(),
            o.indices@[j] == index,
        ensures
            o.has_index(index),
            o.index_pos(index) == j,
    {
        assert(o.has_index(index));
        let k = o.index_pos(index);
        if j < k {
            assert(index_lt(o.indices@[j], o.indices@[k]));
        } else if k < j {
            assert(index_lt(o.indices@[k], o.indices@[j]));
        }
    }

    /// Position of `index` in an origin state's index set, if present.
    pub(crate) fn find_index(o: &OriginState, index: DeferredIndex, max_b: usize, max_m: usize)
        -> (r: Option<usize>)
        requires
            o.wf(max_b as int, max_m as int),
        ensures
            match r {
                Some(j) => o.has_index(index) && j == o.index_pos(index) && j < o.indices@.len()
                    && o.indices@[j as int] == index,
                None => !o.has_index(index),
            },
    {
        let mut j: usize = 0;
        while j < o.indices.len()
            invariant
                o.wf(max_b as int, max_m as int),
                j <= o.indices@.len(),
                forall|k: int| 0 <= k < j ==> o.indices@[k] != index,
            decreases o.indices@.len() - j,
        {
            let cur = o.indices[j];
            if cur.0 == index.0 && cur.1 == index.1 {
                proof {
                    Self::lemma_index_pos(*o, max_b as int, max_m as int, index, j as int);
                }
                return Some(j);
            }
            j = j + 1;
        }
        None
    }

    /// The origin's index set, in service order.
    pub fn deferred_indices(&self, para: ParaId) -> (r: Vec<DeferredIndex>)
        requires
            self.wf(),
        ensures
            r@ == self.indices_of(para),
    {
        match self.find_origin(para) {
            None => Vec::new(),
            Some(i) => {
                let o = &self.origins[i];
                let mut r: Vec<DeferredIndex> = Vec::new();
                let mut j: usize = 0;
                while j < o.indices.len()
                    invariant
                        j <= o.indices@.len(),
                        r@ == o.indices@.take(j as int),
                    decreases o.indices@.len() - j,
                {
                    r.push(o.indices[j]);
                    j = j + 1;
                }
                proof {
                    assert(o.indices@.take(o.indices@.len() as int) == o.indices@);
                }
                r
            },
        }
    }

    /// The contents of the bucket under `(para, index)`; an empty sequence of
    /// slots when no such bucket is stored.
    pub fn messages_deferred_to(&self, para: ParaId, index: DeferredIndex) -> (r: Bucket)
        requires
            self.wf(),
        ensures
            match self.bucket_of(para, index) {
                Some(b) => r@.len() == b.len() && forall|s: int|
                    0 <= s < b.len() ==> slot_eq(r@[s], b[s]),
                None => r@.len() == 0,
            },
    {
        let io = match self.find_origin(para) {
            None => {
                return Vec::new();
            },
            Some(i) => i,
        };
        let o = &self.origins[io];
        let jb = match Self::find_index(
            o,
            index,
            self.max_buckets_per_origin,
            self.max_messages_per_bucket,
        ) {
            None => {
                return Vec::new();
            },
            Some(j) => j,
        };
        let bucket = &o.buckets[jb];
        let mut r: Bucket = Vec::new();
        let mut s: usize = 0;
        while s < bucket.len()
            invariant
                s <= bucket@.len(),
                r@.len() == s,
                forall|k: int| 0 <= k < s ==> slot_eq(r@[k], bucket@[k]),
            decreases bucket@.len() - s,
        {
            match &bucket[s] {
                Option::None => r.push(None),
                Option::Some(m) => r.push(Some(m.clone())),
            }
            s = s + 1;
        }
        r
    }

    /// How many overweight entries are stored.
    pub fn overweight_count(&self) -> (r: usize)
        ensures
            r == self.overweight@.len(),
    {
        self.overweight.len()
    }

    /// Whether an overweight entry is stored under this index.
    pub open spec fn has_overweight(&self, index: u64) -> bool {
        exists|i: int| 0 <= i < self.overweight@.len() && self.overweight@[i].index == index
    }

    pub open spec fn overweight_pos(&self, index: u64) -> int {
        choose|i: int| 0 <= i < self.overweight@.len() && self.overweight@[i].index == index
    }

    /// Under `wf`, the position of an overweight index is unique.
    pub proof fn lemma_overweight_pos(&self, index: u64, i: int)
        requires
            self.wf(),
            0 <= i < self.overweight@.len(),
            self.overweight@[i].index == index,
        ensures
            self.has_overweight(index),
            self.overweight_pos(index) == i,
    {
        assert(self.has_overweight(index));
        let k = self.overweight_pos(index);
        if i < k {
            assert(self.overweight@[i].index < self.overweight@[k].index);
        } else if k < i {
            assert(self.overweight@[k].index < self.overweight@[i].index);
        }
    }

    /// Position of the overweight entry under `index`, if any.
    pub(crate) fn find_overweight(&self, index: u64) -> (r: Option<usize>)
        requires
            self.wf(),
        ensures
            match r {
                Some(i) => self.has_overweight(index) && i == self.overweight_pos(index) && i
                    < self.overweight@.len() && self.overweight@[i as int].index == index,
                None => !self.has_overweight(index),
            },
    {
        let mut i: usize = 0;
        while i < self.overweight.len()
            invariant
                self.wf(),
                i <= self.overweight@.len(),
                forall|k: int| 0 <= k < i ==> self.overweight@[k].index != index,
            decreases self.overweight@.len() - i,
        {
            if self.overweight[i].index == index {
                proof {
                    self.lemma_overweight_pos(index, i as int);
                }
                return Some(i);
            }
            i = i + 1;
        }
        None
    }

    /// The overweight entry under `index`: its sender, its send block and its
    /// encoded message.
    pub fn overweight_entry(&self, index: u64) -> (r: Option<(ParaId, RelayBlockNumber, Vec<u8>)>)
        requires
            self.wf(),
        ensures
            self.has_overweight(index) ==> (r matches Some(t) && {
                let e = self.overweight@[self.overweight_pos(index)];
                t.0 == e.sender && t.1 == e.sent_at && t.2@ == e.encoded@
            }),
            !self.has_overweight(index) ==> r is None,
    {
        match self.find_overweight(index) {
            None => None,
            Some(i) => {
                let e = &self.overweight[i];
                let mut encoded: Vec<u8> = Vec::new();
                let mut k: usize = 0;
                while k < e.encoded.len()
                    invariant
                        k <= e.encoded@.len(),
                        encoded@ == e.encoded@.take(k as int),
                    decreases e.encoded@.len() - k,
                {
                    encoded.push(e.encoded[k]);
                    k = k + 1;
                }
                proof {
                    assert(e.encoded@.take(e.encoded@.len() as int) == e.encoded@);
                }
                Some((e.sender, e.sent_at, encoded))
            },
        }
    }

    /// The events recorded so far, oldest first.
    pub fn events(&self) -> (r: &Vec<Event>)
        ensures
            r@ == self.events@,
    {
        &self.events
    }

    /// The held-back raw bytes of a suspended channel's batch, concatenated in
    /// arrival order, for the given origin and send block.
    pub fn inbound_page(&self, para: ParaId, sent_at: RelayBlockNumber) -> (r: Vec<u8>)
        ensures
            r@ == self.spec_inbound_page(para, sent_at),
    {
        let mut r: Vec<u8> = Vec::new();
        let mut i: usize = 0;
        while i < self.inbound.len()
            invariant
                i <= self.inbound@.len(),
                r@ == Self::spec_inbound_page_upto(self.inbound@, para, sent_at, i as int),
            decreases self.inbound@.len() - i,
        {
            let page = &self.inbound[i];
            if page.sender == para && page.sent_at == sent_at {
                let mut k: usize = 0;
                let ghost before = r@;
                while k < page.data.len()
                    invariant
                        k <= page.data@.len(),
                        r@ == before + page.data@.take(k as int),
                    decreases page.data@.len() - k,
                {
                    r.push(page.data[k]);
                    k = k + 1;
                }
                proof {
                    assert(page.data@.take(page.data@.len() as int) == page.data@);
                }
            }
            proof {
                assert(Self::spec_inbound_page_upto(self.inbound@, para, sent_at, i + 1)
                    == Self::spec_inbound_page_upto(self.inbound@, para, sent_at, i as int) + (
                if self.inbound@[i as int].sender == para && self.inbound@[i as int].sent_at
                    == sent_at {
                    self.inbound@[i as int].data@
                } else {
                    Seq::empty()
                }));
                if !(page.sender == para && page.sent_at == sent_at) {
                    assert(r@ == Self::spec_inbound_page_upto(
                        self.inbound@,
                        para,
                        sent_at,
                        i + 1,
                    ));
                }
            }
            i = i + 1;
        }
        r
    }

    /// All bytes held for `(para, sent_at)`, in arrival order.
    pub open spec fn spec_inbound_page(&self, para: ParaId, sent_at: RelayBlockNumber) -> Seq<
        u8,
    > {
        Self::spec_inbound_page_upto(self.inbound@, para, sent_at, self.inbound@.len() as int)
    }

    pub open spec fn spec_inbound_page_upto(
        pages: Seq<InboundPage>,
        para: ParaId,
        sent_at: RelayBlockNumber,
        n: int,
    ) -> Seq<u8>
        recommends
            0 <= n <= pages.len(),
        decreases n,
    {
        if n <= 0 {
            Seq::empty()
        } else {
            Self::spec_inbound_page_upto(pages, para, sent_at, n - 1) + (
            if pages[n - 1].sender == para && pages[n - 1].sent_at == sent_at {
                pages[n - 1].data@
            } else {
                Seq::empty()
            })
        }
    }
}

} // verus!
