use vstd::prelude::*;

use rand_chacha::ChaCha8Rng;

verus! {

#[verifier::external_type_specification]
#[verifier::external_body]
pub struct ExChaCha8Rng(ChaCha8Rng);

/// Shuffles `v` in place with `rand::seq::SliceRandom::shuffle`, drawing from
/// `rng`. The outside code performs a Fisher–Yates pass of swaps, so what
/// comes out is a rearrangement of what went in; which rearrangement depends
/// on the state of `rng` and is not stated. With two or more items the pass
/// draws at least one number, so the generator moves on to another state.
#[verifier::external_body]
fn shuffle_indices(v: &mut Vec<usize>, rng: &mut ChaCha8Rng)
    ensures
        final(v)@.len() == old(v)@.len(),
        final(v)@.to_multiset() == old(v)@.to_multiset(),
        old(v)@.len() > 1 ==> *final(rng) != *old(rng),
{
    rand::seq::SliceRandom::shuffle(v.as_mut_slice(), rng);
}

/// `s` lists every index below `n` exactly once.
pub open spec fn is_index_permutation(s: Seq<usize>, n: int) -> bool {
    &&& s.len() == n
    &&& s.no_duplicates()
    &&& forall|i: int| 0 <= i < s.len() ==> #[trigger] s[i] < n
}

/// The indices `0, 1, …, n − 1` in order.
pub open spec fn identity_order(n: int) -> Seq<usize> {
    Seq::new(n as nat, |i: int| i as usize)
}

/// The end of the batch that starts at `cursor`: `batch_size` further
/// items, or the end of the data.
pub open spec fn batch_end(len: int, batch_size: int, cursor: int) -> int {
    if cursor + batch_size < len {
        cursor + batch_size
    } else {
        len
    }
}

/// The batches of one pass over `order` from `cursor` on, in order.
pub open spec fn epoch_batches(order: Seq<usize>, batch_size: int, cursor: int) -> Seq<Seq<usize>>
    decreases order.len() - cursor,
{
    if batch_size <= 0 || cursor >= order.len() || cursor < 0 {
        Seq::empty()
    } else {
        let end = batch_end(order.len() as int, batch_size, cursor);
        seq![order.subrange(cursor, end)] + epoch_batches(order, batch_size, end)
    }
}

proof fn lemma_permutation_of_rearrangement(s: Seq<usize>, t: Seq<usize>, n: int)
    requires
        is_index_permutation(s, n),
        t.to_multiset() == s.to_multiset(),
    ensures
        is_index_permutation(t, n),
{
    broadcast use vstd::seq_lib::group_to_multiset_ensures;

    assert(t.len() == t.to_multiset().len());
    assert(s.len() == s.to_multiset().len());
    assert forall|i: int| 0 <= i < t.len() implies #[trigger] t[i] < n by {
        assert(t.contains(t[i]));
        assert(t.to_multiset().count(t[i]) > 0);
        assert(s.contains(t[i]));
    }
    s.lemma_multiset_has_no_duplicates();
    assert forall|x: usize| t.to_multiset().contains(x) implies t.to_multiset().count(x) == 1 by {
    }
    t.lemma_multiset_has_no_duplicates_conv();
}

/// Serves the indices of a data set of `dataset_len` items in batches of
/// `batch_size`, one pass per epoch, reshuffling the order at the start of
/// every epoch when `shuffle` is set.
pub struct DataLoader {
    dataset_len: usize,
    batch_size: usize,
    shuffle: bool,
    indices: Vec<usize>,
    rng: ChaCha8Rng,
}

/// The position of an epoch in progress: the batches before `cursor` have
/// been served.
pub struct Epoch {
    pub cursor: usize,
}

impl DataLoader {
    /// The current order of the items.
    pub closed spec fn order(&self) -> Seq<usize> {
        self.indices@
    }

    pub closed spec fn len_spec(&self) -> int {
        self.dataset_len as int
    }

    pub closed spec fn batch_size_spec(&self) -> int {
        self.batch_size as int
    }

    pub closed spec fn shuffles(&self) -> bool {
        self.shuffle
    }

    /// The state of the loader's random generator.
    pub closed spec fn rng_state(&self) -> ChaCha8Rng {
        self.rng
    }

    /// The order lists every item of the data set exactly once.
    pub open spec fn wf(&self) -> bool {
        is_index_permutation(self.order(), self.len_spec())
    }

    /// A loader over `dataset_len` items, in their natural order until the
    /// first epoch starts.
    pub fn new(dataset_len: usize, batch_size: usize, shuffle: bool, rng: ChaCha8Rng) -> (l: DataLoader)
        ensures
            l.wf(),
            l.order() == identity_order(dataset_len as int),
            l.len_spec() == dataset_len,
            l.batch_size_spec() == batch_size,
            l.shuffles() == shuffle,
    {
        let mut indices: Vec<usize> = Vec::new();
        let mut i: usize = 0;
        while i < dataset_len
            invariant
                i <= dataset_len,
                indices@ == identity_order(i as int),
            decreases dataset_len - i,
        {
            indices.push(i);
            i = i + 1;
            assert(indices@ =~= identity_order(i as int));
        }
        DataLoader { dataset_len, batch_size, shuffle, indices, rng }
    }

    pub fn dataset_len(&self) -> (n: usize)
        ensures
            n == self.len_spec(),
    {
        self.dataset_len
    }

    pub fn batch_size(&self) -> (n: usize)
        ensures
            n == self.batch_size_spec(),
    {
        self.batch_size
    }

    /// The loader's random generator.
    pub fn rng(&self) -> (r: &ChaCha8Rng)
        ensures
            *r == self.rng_state(),
    {
        &self.rng
    }

    /// The order of the items in the current epoch.
    pub fn indices(&self) -> (v: &Vec<usize>)
        ensures
            v@ == self.order(),
    {
        &self.indices
    }

    /// Starts an epoch: reshuffles the order when the loader shuffles (the
    /// new order is again a permutation of the items, drawn from the
    /// generator, whose state moves on when there are two or more items),
    /// keeps the order and the generator otherwise, and puts the cursor at
    /// the first item.
    pub fn start_epoch(&mut self) -> (e: Epoch)
        requires
            old(self).wf(),
        ensures
            final(self).wf(),
            final(self).len_spec() == old(self).len_spec(),
            final(self).batch_size_spec() == old(self).batch_size_spec(),
            final(self).shuffles() == old(self).shuffles(),
            !old(self).shuffles() ==> final(self).order() == old(self).order(),
            final(self).order().to_multiset() == old(self).order().to_multiset(),
            old(self).shuffles() && old(self).len_spec() > 1 ==> final(self).rng_state() != old(self).rng_state(),
            !old(self).shuffles() ==> final(self).rng_state() == old(self).rng_state(),
            e.cursor == 0,
    {
        if self.shuffle {
            let ghost before = self.indices@;
            shuffle_indices(&mut self.indices, &mut self.rng);
            proof {
                lemma_permutation_of_rearrangement(before, self.indices@, self.dataset_len as int);
            }
        }
        Epoch { cursor: 0 }
    }

    /// The next batch of the epoch: the indices from the cursor up to
    /// `batch_size` further items or the end of the data, after which the
    /// cursor moves past them; `None` once the epoch is over.
    pub fn next_batch(&self, epoch: &mut Epoch) -> (b: Option<Vec<usize>>)
        requires
            self.wf(),
            self.batch_size_spec() > 0 || old(epoch).cursor >= self.len_spec(),
        ensures
            old(epoch).cursor >= self.len_spec() ==> b is None && final(epoch).cursor == old(epoch).cursor,
            old(epoch).cursor < self.len_spec() ==> {
                let end = batch_end(self.len_spec(), self.batch_size_spec(), old(epoch).cursor as int);
                &&& b matches Some(v) && v@ == self.order().subrange(old(epoch).cursor as int, end)
                &&& final(epoch).cursor == end
                &&& b matches Some(v) && epoch_batches(self.order(), self.batch_size_spec(), old(epoch).cursor as int)
                    == seq![v@] + epoch_batches(self.order(), self.batch_size_spec(), end)
            },
    {
        let len = self.dataset_len;
        let cursor = epoch.cursor;
        if cursor >= len {
            return None;
        }
        let end = if self.batch_size < len - cursor {
            cursor + self.batch_size
        } else {
            len
        };
        let mut batch: Vec<usize> = Vec::new();
        let mut k: usize = cursor;
        while k < end
            invariant
                cursor <= k <= end,
                end <= len,
                self.indices@.len() == len,
                batch@ == self.indices@.subrange(cursor as int, k as int),
            decreases end - k,
        {
            batch.push(self.indices[k]);
            k = k + 1;
            assert(batch@ =~= self.indices@.subrange(cursor as int, k as int));
        }
        epoch.cursor = end;
        Some(batch)
    }
}

/// The batches of an epoch, served one after the other from the start,
/// cover the order exactly: concatenated they give the order back, every
/// batch is non-empty and none is longer than `batch_size`; all but the last
/// hold exactly `batch_size` items; and there are `⌈remaining / batch_size⌉`
/// of them.
pub proof fn lemma_epoch_batches_partition(order: Seq<usize>, batch_size: int, cursor: int)
    requires
        batch_size > 0,
        0 <= cursor <= order.len(),
    ensures
        epoch_batches(order, batch_size, cursor).flatten() == order.subrange(cursor, order.len() as int),
        forall|k: int|
            0 <= k < epoch_batches(order, batch_size, cursor).len() ==> 0 < (#[trigger] epoch_batches(order, batch_size, cursor)[k]).len() <= batch_size,
        forall|k: int|
            0 <= k < epoch_batches(order, batch_size, cursor).len() - 1 ==> (#[trigger] epoch_batches(order, batch_size, cursor)[k]).len() == batch_size,
        epoch_batches(order, batch_size, cursor).len() == (order.len() - cursor + batch_size - 1) / batch_size,
    decreases order.len() - cursor,
{
    let bs = epoch_batches(order, batch_size, cursor);
    if cursor >= order.len() {
        assert(bs =~= Seq::<Seq<usize>>::empty());
        assert(order.subrange(cursor, order.len() as int) =~= Seq::<usize>::empty());
        vstd::arithmetic::div_mod::lemma_fundamental_div_mod_converse(batch_size - 1, batch_size, 0, batch_size - 1);
    } else {
        let end = batch_end(order.len() as int, batch_size, cursor);
        let rest = epoch_batches(order, batch_size, end);
        lemma_epoch_batches_partition(order, batch_size, end);
        let first = order.subrange(cursor, end);
        assert(bs == seq![first] + rest);
        assert(bs.first() == first);
        assert(bs.drop_first() =~= rest);
        assert(first + order.subrange(end, order.len() as int) =~= order.subrange(cursor, order.len() as int));
        assert forall|k: int| 0 <= k < bs.len() implies 0 < (#[trigger] bs[k]).len() <= batch_size by {
            if k > 0 {
                assert(bs[k] == rest[k - 1]);
            }
        }
        // the count: one batch more than the rest of the pass
        let remaining = order.len() - cursor;
        if end == order.len() {
            vstd::arithmetic::div_mod::lemma_fundamental_div_mod_converse(
                remaining + batch_size - 1,
                batch_size,
                1,
                remaining - 1,
            );
        } else {
            let q = (remaining - batch_size + batch_size - 1) / batch_size;
            let r = (remaining - batch_size + batch_size - 1) % batch_size;
            vstd::arithmetic::div_mod::lemma_fundamental_div_mod(remaining - 1, batch_size);
            assert(remaining + batch_size - 1 == (q + 1) * batch_size + r) by (nonlinear_arith)
                requires
                    remaining - 1 == batch_size * q + r,
            ;
            vstd::arithmetic::div_mod::lemma_mod_bound(remaining - 1, batch_size);
            vstd::arithmetic::div_mod::lemma_fundamental_div_mod_converse(remaining + batch_size - 1, batch_size, q + 1, r);
        }
        assert forall|k: int| 0 <= k < bs.len() - 1 implies (#[trigger] bs[k]).len() == batch_size by {
            if k > 0 {
                assert(bs[k] == rest[k - 1]);
            } else {
                assert(rest.len() > 0);
                assert(end < order.len());
            }
        }
    }
}

/// Serves a data set of `dataset_len` items as `batch_size` parallel
/// streams, without shuffling: stream `i` starts at item `i·jump`, where
/// `jump = dataset_len / batch_size`, and every step advances all streams by
/// one item; an epoch is `jump` steps.
pub struct SeqDataLoader {
    pub dataset_len: usize,
    pub batch_size: usize,
}

/// The position of an epoch of a `SeqDataLoader` in progress.
pub struct SeqEpoch {
    pub iteration: usize,
    pub max_iter: usize,
    pub jump: usize,
}

/// Item read by stream `i` at step `iteration`.
pub open spec fn stream_index(len: int, jump: int, i: int, iteration: int) -> int {
    (i * jump + iteration) % len
}

impl SeqDataLoader {
    pub fn new(dataset_len: usize, batch_size: usize) -> (l: SeqDataLoader)
        ensures
            l.dataset_len == dataset_len,
            l.batch_size == batch_size,
    {
        SeqDataLoader { dataset_len, batch_size }
    }

    /// Starts an epoch of `dataset_len / batch_size` steps.
    pub fn start_epoch(&self) -> (e: SeqEpoch)
        requires
            self.batch_size > 0,
        ensures
            e.iteration == 0,
            e.jump == self.dataset_len / self.batch_size,
            e.max_iter == e.jump,
    {
        let jump = self.dataset_len / self.batch_size;
        SeqEpoch { iteration: 0, max_iter: jump, jump }
    }

    /// The items of the next step, one per stream, or `None` once the epoch
    /// is over.
    pub fn next_batch(&self, epoch: &mut SeqEpoch) -> (b: Option<Vec<usize>>)
        requires
            self.batch_size > 0,
            old(epoch).jump == self.dataset_len / self.batch_size,
            old(epoch).max_iter == old(epoch).jump,
        ensures
            final(epoch).jump == old(epoch).jump,
            final(epoch).max_iter == old(epoch).max_iter,
            old(epoch).iteration >= old(epoch).max_iter ==> b is None && final(epoch).iteration == old(epoch).iteration,
            old(epoch).iteration < old(epoch).max_iter ==> {
                &&& final(epoch).iteration == old(epoch).iteration + 1
                &&& b matches Some(v) && v@.len() == self.batch_size && forall|i: int|
                    0 <= i < v@.len() ==> #[trigger] v@[i] == stream_index(
                        self.dataset_len as int,
                        old(epoch).jump as int,
                        i,
                        old(epoch).iteration as int,
                    )
            },
    {
        if epoch.iteration >= epoch.max_iter {
            return None;
        }
        let len = self.dataset_len;
        let bs = self.batch_size;
        let jump = epoch.jump;
        let it = epoch.iteration;
        proof {
            vstd::arithmetic::div_mod::lemma_fundamental_div_mod(len as int, bs as int);
            vstd::arithmetic::div_mod::lemma_mod_bound(len as int, bs as int);
        }
        let mut v: Vec<usize> = Vec::new();
        let mut i: usize = 0;
        while i < bs
            invariant
                bs > 0,
                len == bs * jump + len % bs,
                0 <= len % bs < bs,
                it < jump,
                i <= bs,
                v@.len() == i,
                forall|k: int| 0 <= k < i ==> #[trigger] v@[k] == stream_index(len as int, jump as int, k, it as int),
            decreases bs - i,
        {
            // i·jump stays below len and the step below jump, so one
            // subtraction brings the sum back below len.
            assert(i * jump + jump <= bs * jump) by (nonlinear_arith)
                requires
                    i < bs,
                    jump >= 0,
            ;
            let base = i * jump;
            let idx = if base >= len - it {
                base - (len - it)
            } else {
                base + it
            };
            proof {
                if base >= len - it {
                    vstd::arithmetic::div_mod::lemma_fundamental_div_mod_converse(base + it, len as int, 1, idx as int);
                } else {
                    vstd::arithmetic::div_mod::lemma_fundamental_div_mod_converse(base + it, len as int, 0, idx as int);
                }
            }
            v.push(idx);
            i = i + 1;
        }
        epoch.iteration = it + 1;
        Some(v)
    }
}

/// Within one epoch no item is read twice: the item of stream `i` at step
/// `t` differs from that of any other stream or step.
pub proof fn lemma_seq_streams_disjoint(len: int, batch_size: int, i1: int, t1: int, i2: int, t2: int)
    requires
        batch_size > 0,
        len >= 0,
        0 <= i1 < batch_size,
        0 <= i2 < batch_size,
        0 <= t1 < len / batch_size,
        0 <= t2 < len / batch_size,
        (i1, t1) != (i2, t2),
    ensures
        stream_index(len, len / batch_size, i1, t1) != stream_index(len, len / batch_size, i2, t2),
{
    let jump = len / batch_size;
    vstd::arithmetic::div_mod::lemma_div_pos_is_pos(len, batch_size);
    vstd::arithmetic::div_mod::lemma_fundamental_div_mod(len, batch_size);
    vstd::arithmetic::div_mod::lemma_mod_bound(len, batch_size);
    assert(i1 * jump + jump <= batch_size * jump) by (nonlinear_arith)
        requires
            i1 < batch_size,
            jump >= 0,
    ;
    assert(i1 * jump + t1 < len);
    assert(i2 * jump + jump <= batch_size * jump) by (nonlinear_arith)
        requires
            i2 < batch_size,
            jump >= 0,
    ;
    assert(i2 * jump + t2 < len);
    assert(0 <= i1 * jump) by (nonlinear_arith)
        requires
            i1 >= 0,
            jump >= 0,
    ;
    assert(0 <= i2 * jump) by (nonlinear_arith)
        requires
            i2 >= 0,
            jump >= 0,
    ;
    vstd::arithmetic::div_mod::lemma_small_mod((i1 * jump + t1) as nat, len as nat);
    vstd::arithmetic::div_mod::lemma_small_mod((i2 * jump + t2) as nat, len as nat);
    if i1 * jump + t1 == i2 * jump + t2 {
        vstd::arithmetic::div_mod::lemma_fundamental_div_mod_converse(i1 * jump + t1, jump, i1, t1);
        vstd::arithmetic::div_mod::lemma_fundamental_div_mod_converse(i2 * jump + t2, jump, i2, t2);
    }
}

} // verus!
