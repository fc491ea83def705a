use vstd::prelude::*;
use crate::queue::{index_lt, Bucket, OriginState, Queue};
use crate::scheduler::{
    bucket_messages, lemma_bucket_messages_push, lemma_bucket_messages_update,
    lemma_origin_messages_insert, lemma_origin_messages_update, lemma_stored_messages_push,
    lemma_stored_update, origin_messages, stored_messages,
};
use crate::types::{
    Caller, DeferredIndex, DeferredMessage, Error, OverweightEntry, ParaId, RelayBlockNumber,
};

verus! {

/// A slot that can take a message without growing the bucket.
pub open spec fn has_free_slot(b: Seq<Option<DeferredMessage>>) -> bool {
    exists|s: int| 0 <= s < b.len() && b[s] is None
}

/// A bucket that can take one more message: a free slot, or room to append.
pub open spec fn bucket_has_room(b: Seq<Option<DeferredMessage>>, max_messages: int) -> bool {
    has_free_slot(b) || b.len() < max_messages
}

/// A placement for `(para, to)` cannot be rejected: the origin is new, or
/// some bucket keyed to `to` has room, or a fresh bucket can still open.
#[verifier::opaque]
pub open spec fn can_accept(q: Queue, para: ParaId, to: RelayBlockNumber) -> bool {
    ||| !q.has_origin(para)
    ||| exists|j: int|
        0 <= j < q.indices_of(para).len() && (#[trigger] q.indices_of(para)[j]).0 == to
            && bucket_has_room(
            q.bucket_of(para, q.indices_of(para)[j]).unwrap(),
            q.max_messages_per_bucket as int,
        )
    ||| (q.indices_of(para).len() < q.max_buckets_per_origin && !q.indices_of(para).contains(
        (to, u16::MAX),
    ))
}

/// First free slot of a bucket, if any.
fn bucket_first_free(bucket: &Bucket) -> (r: Option<usize>)
    ensures
        match r {
            Some(s) => s < bucket@.len() && bucket@[s as int] is None && (forall|k: int|
                0 <= k < s ==> bucket@[k] is Some),
            None => !has_free_slot(bucket@),
        },
{
    let mut s: usize = 0;
    while s < bucket.len()
        invariant
            s <= bucket@.len(),
            forall|k: int| 0 <= k < s ==> bucket@[k] is Some,
        decreases bucket@.len() - s,
    {
        if bucket[s].is_none() {
            return Some(s);
        }
        s = s + 1;
    }
    None
}

/// Writes `msg` into the first free slot, or appends it when the bucket still
/// has room to grow; reports the position used, or `None` when the bucket is
/// full.
fn place_in_bucket(bucket: &mut Bucket, msg: DeferredMessage, max_messages: usize) -> (r: Option<
    usize,
>)
    requires
        old(bucket)@.len() <= max_messages,
    ensures
        match r {
            Some(pos) => (pos < old(bucket)@.len() && old(bucket)@[pos as int] is None && (
            forall|k: int| 0 <= k < pos ==> old(bucket)@[k] is Some) && final(bucket)@ == old(
                bucket,
            )@.update(pos as int, Some(msg))) || (pos == old(bucket)@.len() && old(bucket)@.len()
                < max_messages && !has_free_slot(old(bucket)@) && final(bucket)@ == old(
                bucket,
            )@.push(Some(msg))),
            None => final(bucket)@ == old(bucket)@ && !bucket_has_room(
                old(bucket)@,
                max_messages as int,
            ),
        },
        final(bucket)@.len() <= max_messages,
{
    match bucket_first_free(bucket) {
        Some(s) => {
            bucket[s] = Some(msg);
            Some(s)
        },
        None => {
            if bucket.len() < max_messages {
                let pos = bucket.len();
                bucket.push(Some(msg));
                Some(pos)
            } else {
                None
            }
        },
    }
}

/// First index of `o` keyed to `to` whose bucket has room, if any.
fn find_placement_bucket(o: &OriginState, to: RelayBlockNumber, max_b: usize, max_m: usize) -> (r:
    Option<usize>)
    requires
        o.wf(max_b as int, max_m as int),
    ensures
        match r {
            Some(j) => j < o.indices@.len() && o.indices@[j as int].0 == to && bucket_has_room(
                o.buckets@[j as int]@,
                max_m as int,
            ) && (forall|k: int|
                0 <= k < j && o.indices@[k].0 == to ==> !bucket_has_room(
                    o.buckets@[k]@,
                    max_m as int,
                )),
            None => forall|k: int|
                0 <= k < o.indices@.len() && o.indices@[k].0 == to ==> !bucket_has_room(
                    o.buckets@[k]@,
                    max_m as int,
                ),
        },
{
    let mut j: usize = 0;
    while j < o.indices.len()
        invariant
            o.wf(max_b as int, max_m as int),
            j <= o.indices@.len(),
            forall|k: int|
                0 <= k < j && o.indices@[k].0 == to ==> !bucket_has_room(
                    o.buckets@[k]@,
                    max_m as int,
                ),
        decreases o.indices@.len() - j,
    {
        if o.indices[j].0 == to {
            let bucket = &o.buckets[j];
            let free = bucket_first_free(bucket);
            if free.is_some() || bucket.len() < max_m {
                proof {
                    if free is Some {
                        assert(has_free_slot(bucket@));
                    }
                }
                return Some(j);
            }
            proof {
                assert(!has_free_slot(bucket@));
            }
        }
        j = j + 1;
    }
    None
}

/// Last position whose index is keyed to `to`, if any. Under the sorted
/// order, its bucket number is the highest in use for `to`.
fn last_index_at(o: &OriginState, to: RelayBlockNumber, max_b: usize, max_m: usize) -> (r: Option<
    usize,
>)
    requires
        o.wf(max_b as int, max_m as int),
    ensures
        match r {
            Some(j) => j < o.indices@.len() && o.indices@[j as int].0 == to && (forall|k: int|
                j < k < o.indices@.len() ==> o.indices@[k].0 != to),
            None => forall|k: int| 0 <= k < o.indices@.len() ==> o.indices@[k].0 != to,
        },
{
    let mut r: Option<usize> = None;
    let mut j: usize = 0;
    while j < o.indices.len()
        invariant
            o.wf(max_b as int, max_m as int),
            j <= o.indices@.len(),
            match r {
                Some(jr) => jr < j && o.indices@[jr as int].0 == to && (forall|k: int|
                    jr < k < j ==> o.indices@[k].0 != to),
                None => forall|k: int| 0 <= k < j ==> o.indices@[k].0 != to,
            },
        decreases o.indices@.len() - j,
    {
        if o.indices[j].0 == to {
            r = Some(j);
        }
        j = j + 1;
    }
    r
}

/// Where a fresh index sorts into `o`'s index set.
fn insert_pos(o: &OriginState, newidx: DeferredIndex, max_b: usize, max_m: usize) -> (p: usize)
    requires
        o.wf(max_b as int, max_m as int),
        !o.has_index(newidx),
    ensures
        p <= o.indices@.len(),
        forall|k: int| 0 <= k < p ==> index_lt(o.indices@[k], newidx),
        forall|k: int| p <= k < o.indices@.len() ==> index_lt(newidx, o.indices@[k]),
{
    let mut p: usize = 0;
    while p < o.indices.len()
        invariant
            o.wf(max_b as int, max_m as int),
            !o.has_index(newidx),
            p <= o.indices@.len(),
            forall|k: int| 0 <= k < p ==> index_lt(o.indices@[k], newidx),
        decreases o.indices@.len() - p,
    {
        let cur = o.indices[p];
        if newidx.0 < cur.0 || (newidx.0 == cur.0 && newidx.1 < cur.1) {
            proof {
                assert forall|k: int| p <= k < o.indices@.len() implies index_lt(
                    newidx,
                    o.indices@[k],
                ) by {
                    if k > p {
                        assert(index_lt(o.indices@[p as int], o.indices@[k]));
                    }
                }
            }
            return p;
        }
        proof {
            assert(o.indices@[p as int] != newidx);
        }
        p = p + 1;
    }
    p
}

impl Queue {
    /// Places one admitted message into the origin's bucket keyed to `to`:
    /// into the first such bucket with a free slot or room to append, else
    /// into a fresh bucket under the next unused number for `to`. Fails
    /// explicitly, changing nothing, when the origin's index set is full (or
    /// the bucket numbers for `to` are exhausted) and no bucket has room.
    #[verifier::rlimit(50)]
    pub fn try_place_in_deferred_queue(
        &mut self,
        para: ParaId,
        to: RelayBlockNumber,
        msg: DeferredMessage,
    ) -> (r: Result<(DeferredIndex, usize), Error>)
        requires
            old(self).wf(),
            msg.deferred_to == to,
            msg.sender == para,
            msg.xcm.data@.len() <= u32::MAX,
        ensures
            final(self).wf(),
            final(self).overweight@ == old(self).overweight@,
            final(self).next_overweight_index == old(self).next_overweight_index,
            final(self).inbound@ == old(self).inbound@,
            final(self).events@ == old(self).events@,
            final(self).config == old(self).config,
            final(self).queue_suspended == old(self).queue_suspended,
            final(self).deferred_suspended == old(self).deferred_suspended,
            final(self).defer_all_by == old(self).defer_all_by,
            final(self).defer_duration == old(self).defer_duration,
            final(self).max_messages_per_bucket == old(self).max_messages_per_bucket,
            final(self).max_buckets_per_origin == old(self).max_buckets_per_origin,
            final(self).max_buckets_processed == old(self).max_buckets_processed,
            forall|p: ParaId| p != para ==> final(self).indices_of(p) == old(self).indices_of(p),
            forall|p: ParaId, idx: DeferredIndex|
                p != para ==> final(self).bucket_of(p, idx) == old(self).bucket_of(p, idx),
            // A successful placement stores exactly one more message, and a
            // placement that cannot be rejected succeeds.
            r matches Ok(_) ==> stored_messages(final(self).origins@) == stored_messages(
                old(self).origins@,
            ) + 1,
            can_accept(*old(self), para, to) ==> r is Ok,
            r matches Err(_) ==> stored_messages(final(self).origins@) == stored_messages(
                old(self).origins@,
            ),
            match r {
                Ok(placed) => {
                    &&& placed.0.0 == to
                    &&& placed.1 < final(self).max_messages_per_bucket
                    &&& (final(self).bucket_of(para, placed.0) matches Some(b) && placed.1 < b.len()
                        && b[placed.1 as int] == Some(msg))
                    &&& forall|idx: DeferredIndex|
                        idx != placed.0 ==> final(self).bucket_of(para, idx) == old(self).bucket_of(
                            para,
                            idx,
                        )
                    &&& match old(self).bucket_of(para, placed.0) {
                        Some(b0) => {
                            &&& final(self).indices_of(para) == old(self).indices_of(para)
                            &&& ((placed.1 < b0.len() && b0[placed.1 as int] is None && (
                            forall|k: int|
                                0 <= k < placed.1 ==> b0[k] is Some) && final(self).bucket_of(
                                para,
                                placed.0,
                            ) == Some(b0.update(placed.1 as int, Some(msg)))) || (placed.1
                                == b0.len() && !has_free_slot(b0) && final(self).bucket_of(para, placed.0)
                                == Some(b0.push(Some(msg)))))
                            &&& forall|k: int|
                                0 <= k < old(self).indices_of(para).len() && old(self).indices_of(
                                    para,
                                )[k].0 == to && index_lt(
                                    old(self).indices_of(para)[k],
                                    placed.0,
                                ) ==> !bucket_has_room(
                                    old(self).bucket_of(
                                        para,
                                        old(self).indices_of(para)[k],
                                    ).unwrap(),
                                    final(self).max_messages_per_bucket as int,
                                )
                        },
                        None => {
                            &&& placed.1 == 0
                            &&& final(self).bucket_of(para, placed.0) == Some(seq![Some(msg)])
                            &&& final(self).indices_of(para).to_set() == old(self).indices_of(
                                para,
                            ).to_set().insert(placed.0)
                            &&& forall|k: int|
                                0 <= k < old(self).indices_of(para).len() && old(self).indices_of(
                                    para,
                                )[k].0 == to ==> !bucket_has_room(
                                    old(self).bucket_of(
                                        para,
                                        old(self).indices_of(para)[k],
                                    ).unwrap(),
                                    final(self).max_messages_per_bucket as int,
                                ) && old(self).indices_of(para)[k].1 < placed.0.1
                        },
                    }
                },
                Err(e) => {
                    &&& e == Error::DeferredQueueFull
                    &&& final(self).origins@ == old(self).origins@
                    &&& old(self).has_origin(para)
                    &&& forall|k: int|
                        0 <= k < old(self).indices_of(para).len() && old(self).indices_of(
                            para,
                        )[k].0 == to ==> !bucket_has_room(
                            old(self).bucket_of(para, old(self).indices_of(para)[k]).unwrap(),
                            final(self).max_messages_per_bucket as int,
                        )
                    &&& (old(self).indices_of(para).len() == final(self).max_buckets_per_origin || (
                    exists|k: int|
                        0 <= k < old(self).indices_of(para).len() && old(self).indices_of(
                            para,
                        )[k] == (to, u16::MAX)))
                },
            },
    {
        proof {
            reveal(can_accept);
        }
        let max_b = self.max_buckets_per_origin;
        let max_m = self.max_messages_per_bucket;
        let io = match self.find_origin(para) {
            None => {
                // First message of this origin: open its state with one fresh
                // bucket numbered zero.
                let mut bucket: Bucket = Vec::new();
                bucket.push(Some(msg));
                let mut indices: Vec<DeferredIndex> = Vec::new();
                indices.push((to, 0));
                let mut buckets: Vec<Bucket> = Vec::new();
                buckets.push(bucket);
                let o = OriginState { origin: para, indices, buckets };
                let ghost oldq = *self;
                self.origins.push(o);
                proof {
                    let n = oldq.origins@.len() as int;
                    assert(self.origins@ == oldq.origins@.push(o));
                    assert(self.origins@[n] == o);
                    assert(o.wf(max_b as int, max_m as int));
                    assert forall|i: int|
                        0 <= i < self.origins@.len() implies (#[trigger] self.origins@[i]).wf(
                        max_b as int,
                        max_m as int,
                    ) by {
                        if i < n {
                            assert(self.origins@[i] == oldq.origins@[i]);
                        }
                    }
                    self.lemma_origin_pos(para, n);
                    Self::lemma_unchanged_but_one(oldq, *self, n, para);
                    assert(o.indices@[0] == (to, 0u16));
                    Self::lemma_index_pos(o, max_b as int, max_m as int, (to, 0u16), 0);
                    assert(self.bucket_of(para, (to, 0u16)) == Some(o.buckets@[0]@));
                    assert(o.buckets@[0]@ =~= seq![Some(msg)]);
                    assert(self.indices_of(para) == o.indices@);
                    assert(self.indices_of(para).to_set() =~= oldq.indices_of(
                        para,
                    ).to_set().insert((to, 0u16)));
                    lemma_stored_messages_push(oldq.origins@, o);
                    assert(o.buckets@.skip(1) =~= Seq::<Bucket>::empty());
                    assert(origin_messages(Seq::<Bucket>::empty()) == 0);
                    assert(origin_messages(o.buckets@) == bucket_messages(o.buckets@[0]@)
                        + origin_messages(o.buckets@.skip(1)));
                    assert(o.buckets@[0]@ =~= seq![Some(msg)]);
                    assert(seq![Some(msg)].drop_last() =~= Seq::<
                        Option<DeferredMessage>,
                    >::empty());
                    assert(seq![Some(msg)].last() == Some(msg));
                    assert(bucket_messages(Seq::<Option<DeferredMessage>>::empty()) == 0);
                    assert(bucket_messages(seq![Some(msg)]) == 1);
                }
                return Ok(((to, 0), 0));
            },
            Some(io) => io,
        };
        let ghost oldq = *self;
        let ghost oldo = self.origins@[io as int];
        match find_placement_bucket(&self.origins[io], to, max_b, max_m) {
            Some(j) => {
                let ghost oldb = oldo.buckets@[j as int]@;
                let index = self.origins[io].indices[j];
                let o = &mut self.origins[io];
                let b = &mut o.buckets[j];
                let pos = match place_in_bucket(b, msg, max_m) {
                    Some(pos) => pos,
                    None => {
                        proof {
                            assert(false);
                        }
                        return Err(Error::DeferredQueueFull);
                    },
                };
                proof {
                    let newo = self.origins@[io as int];
                    assert(newo.indices@ == oldo.indices@);
                    assert(newo.buckets@ == oldo.buckets@.update(
                        j as int,
                        newo.buckets@[j as int],
                    ));
                    assert(newo.wf(max_b as int, max_m as int)) by {
                        assert forall|jj: int, s: int|
                            0 <= jj < newo.buckets@.len() && 0 <= s
                                < newo.buckets@[jj]@.len() implies ((#[trigger] newo
                            .buckets@[jj]@[s]) matches Some(m) ==> m.deferred_to
                            == newo.indices@[jj].0 && m.sender == newo.origin
                            && m.xcm.data@.len() <= u32::MAX) by {
                            if jj != j {
                                assert(newo.buckets@[jj] == oldo.buckets@[jj]);
                            } else {
                                assert(oldb[s] == newo.buckets@[jj]@[s] || newo.buckets@[jj]@[s]
                                    == Some(msg) || (s == oldb.len() && newo.buckets@[jj]@[s]
                                    == Some(msg)));
                            }
                        }
                    }
                    assert forall|i: int|
                        0 <= i < self.origins@.len() implies (#[trigger] self.origins@[i]).wf(
                        max_b as int,
                        max_m as int,
                    ) by {
                        if i != io as int {
                            assert(self.origins@[i] == oldq.origins@[i]);
                        }
                    }
                    Self::lemma_unchanged_but_one(oldq, *self, io as int, para);
                    self.lemma_origin_pos(para, io as int);
                    oldq.lemma_origin_pos(para, io as int);
                    Self::lemma_index_pos(oldo, max_b as int, max_m as int, index, j as int);
                    Self::lemma_index_pos(newo, max_b as int, max_m as int, index, j as int);
                    Self::lemma_same_indices_frame(oldo, newo, max_b as int, max_m as int);
                    assert(self.indices_of(para) == oldq.indices_of(para));
                    assert(self.bucket_of(para, index) == Some(newo.buckets@[j as int]@));
                    assert(oldq.bucket_of(para, index) == Some(oldb));
                    lemma_stored_update(oldq.origins@, io as int, newo);
                    lemma_origin_messages_update(
                        oldo.buckets@,
                        j as int,
                        newo.buckets@[j as int],
                    );
                    if pos < oldb.len() {
                        lemma_bucket_messages_update(oldb, pos as int, Some(msg));
                    } else {
                        lemma_bucket_messages_push(oldb, Some(msg));
                    }
                    assert(stored_messages(self.origins@) == stored_messages(oldq.origins@) + 1);
                    assert forall|k: int|
                        0 <= k < oldq.indices_of(para).len() && oldq.indices_of(para)[k].0 == to
                            && index_lt(oldq.indices_of(para)[k], index) implies !bucket_has_room(
                        oldq.bucket_of(para, oldq.indices_of(para)[k]).unwrap(),
                        max_m as int,
                    ) by {
                        if k < j as int {
                            Self::lemma_index_pos(
                                oldo,
                                max_b as int,
                                max_m as int,
                                oldo.indices@[k],
                                k,
                            );
                        } else if k > j as int {
                            assert(index_lt(oldo.indices@[j as int], oldo.indices@[k]));
                            assert(false);
                        }
                    }
                }
                Ok((index, pos))
            },
            None => {
                // No existing bucket for `to` has room: open a fresh one under
                // the next unused number, if capacity allows.
                let o = &self.origins[io];
                proof {
                    oldq.lemma_origin_pos(para, io as int);
                    assert forall|k: int|
                        0 <= k < oldq.indices_of(para).len() && oldq.indices_of(para)[k].0
                            == to implies !bucket_has_room(
                        oldq.bucket_of(para, oldq.indices_of(para)[k]).unwrap(),
                        max_m as int,
                    ) by {
                        Self::lemma_index_pos(oldo, max_b as int, max_m as int, oldo.indices@[k], k);
                    }
                }
                let last = last_index_at(o, to, max_b, max_m);
                let bn: u16 = match last {
                    None => 0,
                    Some(jl) => {
                        let b = o.indices[jl].1;
                        if b == u16::MAX {
                            proof {
                                assert(oldq.indices_of(para)[jl as int] == (to, u16::MAX));
                            }
                            return Err(Error::DeferredQueueFull);
                        }
                        b + 1
                    },
                };
                if self.origins[io].indices.len() >= max_b {
                    return Err(Error::DeferredQueueFull);
                }
                let newidx: DeferredIndex = (to, bn);
                proof {
                    assert(!oldo.has_index(newidx)) by {
                        if oldo.has_index(newidx) {
                            let k = oldo.index_pos(newidx);
                            assert(oldo.indices@[k] == newidx);
                            assert(oldo.indices@[k].0 == to);
                            match last {
                                Option::None => {
                                    assert(false);
                                },
                                Option::Some(jl) => {
                                    assert(k <= jl as int);
                                    if k < jl as int {
                                        assert(index_lt(
                                            oldo.indices@[k],
                                            oldo.indices@[jl as int],
                                        ));
                                    }
                                    assert(false);
                                },
                            }
                        }
                    }
                }
                let p = insert_pos(&self.origins[io], newidx, max_b, max_m);
                let mut bucket: Bucket = Vec::new();
                bucket.push(Some(msg));
                let o = &mut self.origins[io];
                o.indices.insert(p, newidx);
                o.buckets.insert(p, bucket);
                proof {
                    let newo = self.origins@[io as int];
                    assert(newo.indices@ == oldo.indices@.insert(p as int, newidx));
                    assert(newo.wf(max_b as int, max_m as int)) by {
                        assert forall|jj: int, kk: int|
                            0 <= jj < kk < newo.indices@.len() implies index_lt(
                            newo.indices@[jj],
                            newo.indices@[kk],
                        ) by {}
                        assert forall|jj: int, s: int|
                            0 <= jj < newo.buckets@.len() && 0 <= s
                                < newo.buckets@[jj]@.len() implies ((#[trigger] newo
                            .buckets@[jj]@[s]) matches Some(m) ==> m.deferred_to
                            == newo.indices@[jj].0 && m.sender == newo.origin
                            && m.xcm.data@.len() <= u32::MAX) by {
                            if jj < p as int {
                                assert(newo.buckets@[jj] == oldo.buckets@[jj]);
                                assert(newo.indices@[jj] == oldo.indices@[jj]);
                            } else if jj > p as int {
                                assert(newo.buckets@[jj] == oldo.buckets@[jj - 1]);
                                assert(newo.indices@[jj] == oldo.indices@[jj - 1]);
                            }
                        }
                    }
                    assert forall|i: int|
                        0 <= i < self.origins@.len() implies (#[trigger] self.origins@[i]).wf(
                        max_b as int,
                        max_m as int,
                    ) by {
                        if i != io as int {
                            assert(self.origins@[i] == oldq.origins@[i]);
                        }
                    }
                    Self::lemma_unchanged_but_one(oldq, *self, io as int, para);
                    self.lemma_origin_pos(para, io as int);
                    oldq.lemma_origin_pos(para, io as int);
                    Self::lemma_index_pos(newo, max_b as int, max_m as int, newidx, p as int);
                    assert(self.bucket_of(para, newidx) matches Some(bb) && bb =~= seq![
                        Some(msg),
                    ]);
                    // Buckets under other indices sit one position over, with
                    // the same contents.
                    assert forall|idx: DeferredIndex| idx != newidx implies self.bucket_of(
                        para,
                        idx,
                    ) == oldq.bucket_of(para, idx) by {
                        Self::lemma_insert_frame(
                            oldo,
                            newo,
                            max_b as int,
                            max_m as int,
                            p as int,
                            newidx,
                            idx,
                        );
                    }
                    assert(self.indices_of(para).to_set() =~= oldq.indices_of(
                        para,
                    ).to_set().insert(newidx)) by {
                        assert forall|idx: DeferredIndex|
                            #![auto]
                            self.indices_of(para).to_set().contains(idx) implies oldq.indices_of(
                            para,
                        ).to_set().insert(newidx).contains(idx) by {
                            let k = choose|k: int|
                                0 <= k < newo.indices@.len() && newo.indices@[k] == idx;
                            if k != p as int {
                                let k0 = if k < p as int {
                                    k
                                } else {
                                    k - 1
                                };
                                assert(oldo.indices@[k0] == idx);
                            }
                        }
                        assert forall|idx: DeferredIndex|
                            #![auto]
                            oldq.indices_of(para).to_set().insert(newidx).contains(
                                idx,
                            ) implies self.indices_of(para).to_set().contains(idx) by {
                            if idx == newidx {
                                assert(newo.indices@[p as int] == idx);
                            } else {
                                let k0 = choose|k0: int|
                                    0 <= k0 < oldo.indices@.len() && oldo.indices@[k0] == idx;
                                let k = if k0 < p as int {
                                    k0
                                } else {
                                    k0 + 1
                                };
                                assert(newo.indices@[k] == idx);
                            }
                        }
                    }
                    lemma_stored_update(oldq.origins@, io as int, newo);
                    lemma_origin_messages_insert(oldo.buckets@, p as int, newo.buckets@[p as int]);
                    assert(newo.buckets@[p as int]@ =~= seq![Some(msg)]);
                    assert(seq![Some(msg)].drop_last() =~= Seq::<
                        Option<DeferredMessage>,
                    >::empty());
                    assert(seq![Some(msg)].last() == Some(msg));
                    assert(bucket_messages(Seq::<Option<DeferredMessage>>::empty()) == 0);
                    assert(bucket_messages(seq![Some(msg)]) == 1);
                    assert(stored_messages(self.origins@) == stored_messages(oldq.origins@) + 1);
                    // The new bucket number exceeds every number in use for `to`.
                    assert forall|k: int|
                        0 <= k < oldq.indices_of(para).len() && oldq.indices_of(para)[k].0
                            == to implies !bucket_has_room(
                        oldq.bucket_of(para, oldq.indices_of(para)[k]).unwrap(),
                        max_m as int,
                    ) && oldq.indices_of(para)[k].1 < bn by {
                        Self::lemma_index_pos(oldo, max_b as int, max_m as int, oldo.indices@[k], k);
                        let jl = choose|jl: int|
                            0 <= jl < oldo.indices@.len() && oldo.indices@[jl].0 == to && (
                            forall|kk: int|
                                jl < kk < oldo.indices@.len() ==> oldo.indices@[kk].0 != to);
                        if k < jl {
                            assert(index_lt(oldo.indices@[k], oldo.indices@[jl]));
                        } else if k > jl {
                            assert(oldo.indices@[k].0 != to);
                        }
                    }
                }
                Ok((newidx, 0))
            },
        }
    }

    /// Two queues whose origin vectors agree except at one position, where the
    /// origin identity is kept, agree on every other origin's view.
    pub proof fn lemma_unchanged_but_one(pre: Queue, post: Queue, io: int, para: ParaId)
        requires
            pre.wf(),
            post.origins@.len() >= pre.origins@.len(),
            post.origins@.len() <= pre.origins@.len() + 1,
            0 <= io < post.origins@.len(),
            forall|i: int|
                0 <= i < post.origins@.len() && i != io ==> post.origins@[i] == pre.origins@[i]
                    && i < pre.origins@.len(),
            post.origins@[io].origin == para,
            io < pre.origins@.len() ==> pre.origins@[io].origin == para,
            io >= pre.origins@.len() ==> !pre.has_origin(para),
        ensures
            forall|p: ParaId| p != para ==> post.indices_of(p) == pre.indices_of(p),
            forall|p: ParaId, idx: DeferredIndex|
                p != para ==> post.bucket_of(p, idx) == pre.bucket_of(p, idx),
    {
        assert forall|p: ParaId| p != para implies post.indices_of(p) == pre.indices_of(p)
            && (forall|idx: DeferredIndex| post.bucket_of(p, idx) == pre.bucket_of(p, idx)) by {
            if post.has_origin(p) {
                let i = post.origin_pos(p);
                assert(post.origins@[i].origin == p);
                assert(i != io);
                assert(pre.origins@[i].origin == p);
                pre.lemma_origin_pos(p, i);
                assert(pre.origin_pos(p) == i);
                assert(pre.has_origin(p));
                assert(post.origins@[i] == pre.origins@[i]);
            } else {
                if pre.has_origin(p) {
                    let i = pre.origin_pos(p);
                    assert(pre.origins@[i].origin == p);
                    assert(i != io || p == para);
                    assert(post.origins@[i].origin == p);
                    assert(post.has_origin(p));
                }
                assert(!pre.has_origin(p));
            }
        }
    }

    /// Two origin states with the same index set have the same bucket keyed to
    /// any index whose bucket they share.
    pub proof fn lemma_same_indices_frame(pre: OriginState, post: OriginState, max_b: int, max_m: int)
        requires
            pre.wf(max_b, max_m),
            post.wf(max_b, max_m),
            post.indices@ == pre.indices@,
        ensures
            forall|idx: DeferredIndex| post.has_index(idx) == pre.has_index(idx),
            forall|idx: DeferredIndex|
                pre.has_index(idx) ==> post.index_pos(idx) == pre.index_pos(idx),
    {
        assert forall|idx: DeferredIndex| post.has_index(idx) == pre.has_index(idx) by {}
        assert forall|idx: DeferredIndex| pre.has_index(idx) implies post.index_pos(idx)
            == pre.index_pos(idx) by {
            let j = pre.index_pos(idx);
            Self::lemma_index_pos(post, max_b, max_m, idx, j);
        }
    }

    /// Inserting a fresh index and bucket at one position leaves the bucket
    /// under every other index unchanged.
    pub proof fn lemma_insert_frame(
        pre: OriginState,
        post: OriginState,
        max_b: int,
        max_m: int,
        p: int,
        newidx: DeferredIndex,
        idx: DeferredIndex,
    )
        requires
            pre.wf(max_b, max_m),
            post.wf(max_b, max_m),
            0 <= p <= pre.indices@.len(),
            post.indices@ == pre.indices@.insert(p, newidx),
            post.buckets@.len() == pre.buckets@.len() + 1,
            forall|k: int| 0 <= k < p ==> post.buckets@[k] == pre.buckets@[k],
            forall|k: int|
                p < k < post.buckets@.len() ==> post.buckets@[k] == pre.buckets@[k - 1],
            !pre.has_index(newidx),
            idx != newidx,
        ensures
            post.has_index(idx) == pre.has_index(idx),
            pre.has_index(idx) ==> post.buckets@[post.index_pos(idx)]@
                == pre.buckets@[pre.index_pos(idx)]@,
    {
        if pre.has_index(idx) {
            let k0 = pre.index_pos(idx);
            let k = if k0 < p {
                k0
            } else {
                k0 + 1
            };
            assert(post.indices@[k] == idx);
            Self::lemma_index_pos(post, max_b, max_m, idx, k);
        }
        if post.has_index(idx) {
            let k = post.index_pos(idx);
            assert(k != p);
            let k0 = if k < p {
                k
            } else {
                k - 1
            };
            assert(pre.indices@[k0] == idx);
            assert(pre.has_index(idx));
        }
    }
}

impl Queue {
    /// Clears exactly one slot (idempotently: an absent or already cleared
    /// slot is a no-op), or, without a position, empties the bucket's
    /// contents. Neither form retires the bucket's index from the index set:
    /// retirement only happens when the scheduler drains a bucket. Restricted
    /// to the privileged caller.
    pub fn discard_deferred(
        &mut self,
        caller: Caller,
        para: ParaId,
        index: DeferredIndex,
        position: Option<usize>,
    ) -> (r: Result<(), Error>)
        requires
            old(self).wf(),
        ensures
            final(self).wf(),
            final(self).overweight@ == old(self).overweight@,
            final(self).next_overweight_index == old(self).next_overweight_index,
            final(self).inbound@ == old(self).inbound@,
            final(self).events@ == old(self).events@,
            final(self).config == old(self).config,
            final(self).queue_suspended == old(self).queue_suspended,
            final(self).deferred_suspended == old(self).deferred_suspended,
            final(self).defer_all_by == old(self).defer_all_by,
            final(self).defer_duration == old(self).defer_duration,
            final(self).max_messages_per_bucket == old(self).max_messages_per_bucket,
            final(self).max_buckets_per_origin == old(self).max_buckets_per_origin,
            final(self).max_buckets_processed == old(self).max_buckets_processed,
            caller != Caller::Root ==> r == Err::<(), Error>(Error::BadOrigin)
                && final(self).origins@ == old(self).origins@,
            caller == Caller::Root ==> {
                &&& r == Ok::<(), Error>(())
                &&& forall|p: ParaId| final(self).indices_of(p) == old(self).indices_of(p)
                &&& forall|p: ParaId, idx: DeferredIndex|
                    p != para || idx != index ==> final(self).bucket_of(p, idx)
                        == old(self).bucket_of(p, idx)
                &&& match old(self).bucket_of(para, index) {
                    Some(b0) => final(self).bucket_of(para, index) == Some(
                        match position {
                            Some(pos) => if pos < b0.len() {
                                b0.update(pos as int, None)
                            } else {
                                b0
                            },
                            None => Seq::<Option<DeferredMessage>>::empty(),
                        },
                    ),
                    None => final(self).bucket_of(para, index) is None,
                }
            },
    {
        if caller != Caller::Root {
            return Err(Error::BadOrigin);
        }
        let max_b = self.max_buckets_per_origin;
        let max_m = self.max_messages_per_bucket;
        let io = match self.find_origin(para) {
            None => {
                return Ok(());
            },
            Some(io) => io,
        };
        let ghost oldq = *self;
        let ghost oldo = self.origins@[io as int];
        let j = match Self::find_index(&self.origins[io], index, max_b, max_m) {
            None => {
                proof {
                    oldq.lemma_origin_pos(para, io as int);
                }
                return Ok(());
            },
            Some(j) => j,
        };
        let o = &mut self.origins[io];
        let b = &mut o.buckets[j];
        match position {
            Some(pos) => {
                if pos < b.len() {
                    b[pos] = None;
                }
            },
            None => {
                b.clear();
            },
        }
        proof {
            let newo = self.origins@[io as int];
            assert(newo.indices@ == oldo.indices@);
            assert(newo.buckets@ == oldo.buckets@.update(j as int, newo.buckets@[j as int]));
            assert(newo.wf(max_b as int, max_m as int)) by {
                assert forall|jj: int, s: int|
                    0 <= jj < newo.buckets@.len() && 0 <= s < newo.buckets@[jj]@.len() implies ((
                #[trigger] newo.buckets@[jj]@[s]) matches Some(m) ==> m.deferred_to
                    == newo.indices@[jj].0 && m.sender == newo.origin && m.xcm.data@.len()
                    <= u32::MAX) by {
                    if jj != j {
                        assert(newo.buckets@[jj] == oldo.buckets@[jj]);
                    } else {
                        assert(newo.buckets@[jj]@[s] is None || newo.buckets@[jj]@[s]
                            == oldo.buckets@[jj]@[s]);
                    }
                }
            }
            assert forall|i: int|
                0 <= i < self.origins@.len() implies (#[trigger] self.origins@[i]).wf(
                max_b as int,
                max_m as int,
            ) by {
                if i != io as int {
                    assert(self.origins@[i] == oldq.origins@[i]);
                }
            }
            Self::lemma_unchanged_but_one(oldq, *self, io as int, para);
            self.lemma_origin_pos(para, io as int);
            oldq.lemma_origin_pos(para, io as int);
            Self::lemma_index_pos(oldo, max_b as int, max_m as int, index, j as int);
            Self::lemma_index_pos(newo, max_b as int, max_m as int, index, j as int);
            Self::lemma_same_indices_frame(oldo, newo, max_b as int, max_m as int);
            assert(oldq.bucket_of(para, index) == Some(oldo.buckets@[j as int]@));
            assert(final(self).bucket_of(para, index) == Some(newo.buckets@[j as int]@));
            if position matches Some(pos) && pos >= oldo.buckets@[j as int]@.len() {
                assert(newo.buckets@[j as int]@ == oldo.buckets@[j as int]@);
            }
            assert forall|p: ParaId, idx: DeferredIndex|
                p != para || idx != index implies final(self).bucket_of(p, idx)
                == old(self).bucket_of(p, idx) by {
                if p != para {
                } else {
                    assert(final(self).bucket_of(p, idx) == oldq.bucket_of(p, idx)) by {
                        if oldo.has_index(idx) {
                            let k = oldo.index_pos(idx);
                            assert(k != j as int);
                            Self::lemma_index_pos(newo, max_b as int, max_m as int, idx, k);
                            assert(newo.buckets@[k] == oldo.buckets@[k]);
                        }
                    }
                }
            }
        }
        Ok(())
    }

    /// Appends a message to the overweight store under a freshly assigned,
    /// strictly increasing index, and returns that index.
    pub fn inject_overweight_message(
        &mut self,
        sender: ParaId,
        sent_at: RelayBlockNumber,
        encoded: Vec<u8>,
    ) -> (idx: u64)
        requires
            old(self).wf(),
            old(self).next_overweight_index < u64::MAX,
        ensures
            final(self).wf(),
            idx == old(self).next_overweight_index,
            final(self).next_overweight_index == old(self).next_overweight_index + 1,
            final(self).overweight@ == old(self).overweight@.push(
                OverweightEntry { index: idx, sender, sent_at, encoded },
            ),
            final(self).origins@ == old(self).origins@,
            final(self).inbound@ == old(self).inbound@,
            final(self).events@ == old(self).events@,
            final(self).config == old(self).config,
            final(self).queue_suspended == old(self).queue_suspended,
            final(self).deferred_suspended == old(self).deferred_suspended,
            final(self).defer_all_by == old(self).defer_all_by,
            final(self).defer_duration == old(self).defer_duration,
            final(self).max_messages_per_bucket == old(self).max_messages_per_bucket,
            final(self).max_buckets_per_origin == old(self).max_buckets_per_origin,
            final(self).max_buckets_processed == old(self).max_buckets_processed,
    {
        let idx = self.next_overweight_index;
        self.overweight.push(OverweightEntry { index: idx, sender, sent_at, encoded });
        self.next_overweight_index = idx + 1;
        proof {
            assert forall|i: int|
                0 <= i < self.overweight@.len() implies (#[trigger] self.overweight@[i]).index
                < self.next_overweight_index by {
                if i < self.overweight@.len() - 1 {
                    assert(self.overweight@[i] == old(self).overweight@[i]);
                }
            }
        }
        idx
    }
}

} // verus!
