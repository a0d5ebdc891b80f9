use vstd::prelude::*;

verus! {

/// The low `depth` bits of `x` (all of `x` from 32 bits on).
pub open spec fn low_bits(x: u32, depth: u32) -> u32 {
    if depth >= 32 {
        x
    } else {
        x & (((1u32 << depth) - 1u32) as u32)
    }
}

/// The number of slots of a directory of global depth `depth`.
pub open spec fn slot_count(depth: u32) -> nat {
    if depth >= 32 {
        0x1_0000_0000
    } else {
        (1u32 << depth) as nat
    }
}

/// The slot that, after a split to local depth `depth`, refers to the new
/// bucket: `idx` with bit `depth - 1` flipped.
pub open spec fn split_image(idx: u32, depth: u32) -> u32 {
    if depth == 0 || depth - 1 >= 32 {
        idx
    } else {
        idx ^ (1u32 << ((depth - 1) as u32))
    }
}

proof fn lemma_low_bits_bound(x: u32, depth: u32)
    ensures
        (low_bits(x, depth) as nat) < slot_count(depth),
{
    if depth < 32 {
        assert(x & (((1u32 << depth) - 1u32) as u32) < (1u32 << depth)) by (bit_vector)
            requires depth < 32;
    }
}

proof fn lemma_low_bits_twice(x: u32, d: u32, e: u32)
    requires
        d <= e,
    ensures
        low_bits(low_bits(x, e), d) == low_bits(x, d),
{
    if e < 32 {
        assert((x & (((1u32 << e) - 1u32) as u32)) & (((1u32 << d) - 1u32) as u32) == x & (((1u32 << d) - 1u32) as u32))
            by (bit_vector)
            requires d <= e, e < 32;
    }
}

proof fn lemma_low_bits_weaker(x: u32, y: u32, d: u32, e: u32)
    requires
        d <= e,
        low_bits(x, e) == low_bits(y, e),
    ensures
        low_bits(x, d) == low_bits(y, d),
{
    lemma_low_bits_twice(x, d, e);
    lemma_low_bits_twice(y, d, e);
}

/// Of three values that share their low `d` bits, two that both differ from
/// the first in the next bit agree on their low `d + 1` bits.
proof fn lemma_low_bits_other_half(a: u32, b: u32, c: u32, d: u32)
    requires
        d < 32,
        low_bits(a, d) == low_bits(b, d),
        low_bits(a, d) == low_bits(c, d),
        low_bits(a, (d + 1) as u32) != low_bits(b, (d + 1) as u32),
        low_bits(a, (d + 1) as u32) != low_bits(c, (d + 1) as u32),
    ensures
        low_bits(b, (d + 1) as u32) == low_bits(c, (d + 1) as u32),
{
    let e = (d + 1) as u32;
    if e < 32 {
        assert(
            (a & (((1u32 << d) - 1u32) as u32)) == (b & (((1u32 << d) - 1u32) as u32))
            && (a & (((1u32 << d) - 1u32) as u32)) == (c & (((1u32 << d) - 1u32) as u32))
            && (a & (((1u32 << e) - 1u32) as u32)) != (b & (((1u32 << e) - 1u32) as u32))
            && (a & (((1u32 << e) - 1u32) as u32)) != (c & (((1u32 << e) - 1u32) as u32))
            ==> (b & (((1u32 << e) - 1u32) as u32)) == (c & (((1u32 << e) - 1u32) as u32))
        ) by (bit_vector)
            requires e == d + 1, e < 32;
    } else {
        assert(
            (a & (((1u32 << d) - 1u32) as u32)) == (b & (((1u32 << d) - 1u32) as u32))
            && (a & (((1u32 << d) - 1u32) as u32)) == (c & (((1u32 << d) - 1u32) as u32))
            && a != b && a != c ==> b == c
        ) by (bit_vector)
            requires d == 31;
    }
}

proof fn lemma_slot_count_double(d: u32)
    requires
        d < 32,
    ensures
        slot_count((d + 1) as u32) == 2 * slot_count(d),
        slot_count(d) <= 0x8000_0000,
{
    if d < 31 {
        assert((1u32 << ((d + 1) as u32)) == 2 * (1u32 << d) && (1u32 << d) <= 0x4000_0000u32) by (bit_vector)
            requires d < 31;
    } else {
        assert((1u32 << 31u32) == 0x8000_0000u32) by (bit_vector);
    }
}

/// Below twice the slot count, the low bits of a slot drop its top bit.
proof fn lemma_low_bits_wrap(x: u32, d: u32)
    requires
        d < 32,
        (x as nat) < 2 * slot_count(d),
    ensures
        (x as nat) < slot_count(d) ==> low_bits(x, d) == x,
        (x as nat) >= slot_count(d) ==> low_bits(x, d) == x - slot_count(d),
{
    assert(x < 2 * (1u32 << d) || d == 31 ==> (
        (x < (1u32 << d) ==> x & (((1u32 << d) - 1u32) as u32) == x)
        && (x >= (1u32 << d) ==> x & (((1u32 << d) - 1u32) as u32) == x - (1u32 << d)))) by (bit_vector)
        requires d < 32;
}

/// Below `2^(d+1)`, the slots that share their low `d` bits with `i` but
/// differ from it are exactly `i` with bit `d` flipped.
proof fn lemma_only_split_image(i: u32, j: u32, d: u32)
    requires
        d < 32,
        (i as nat) < slot_count((d + 1) as u32),
        (j as nat) < slot_count((d + 1) as u32),
    ensures
        (low_bits(i, d) == low_bits(j, d) && i != j) == (j == split_image(i, (d + 1) as u32)),
{
    let e = (d + 1) as u32;
    if e < 32 {
        assert(i < (1u32 << e) && j < (1u32 << e) ==> (((i & (((1u32 << d) - 1u32) as u32)) == (j & (((1u32 << d) - 1u32) as u32))
            && i != j) == (j == i ^ (1u32 << d)))) by (bit_vector)
            requires e == d + 1, e < 32;
    } else {
        assert((((i & (((1u32 << d) - 1u32) as u32)) == (j & (((1u32 << d) - 1u32) as u32)) && i != j) == (j == i ^ (1u32 << d))))
            by (bit_vector)
            requires d == 31;
    }
}

proof fn lemma_values_with_key_push(s: Seq<Tuple>, t: Tuple, k: u32)
    ensures
        values_with_key(s.push(t), k) == if t.key == k { values_with_key(s, k).push(t.value) } else { values_with_key(s, k) },
{
    assert(s.push(t).drop_last() =~= s);
}

/// One `(key, value)` entry of a bucket.
#[derive(Clone, Copy)]
pub struct Tuple {
    pub key: u32,
    pub value: u32,
}

/// The values of the entries of `s` whose key is `k`, in the order of `s`.
pub open spec fn values_with_key(s: Seq<Tuple>, k: u32) -> Seq<u32>
    decreases s.len(),
{
    if s.len() == 0 {
        Seq::empty()
    } else {
        let rest = values_with_key(s.drop_last(), k);
        if s.last().key == k {
            rest.push(s.last().value)
        } else {
            rest
        }
    }
}

/// The entries of `s`, in order, whose key agrees with `target` on the low
/// `depth` bits (`side` true) or does not (`side` false).
pub open spec fn entries_on_side(s: Seq<Tuple>, depth: u32, target: u32, side: bool) -> Seq<Tuple>
    decreases s.len(),
{
    if s.len() == 0 {
        Seq::empty()
    } else {
        let rest = entries_on_side(s.drop_last(), depth, target, side);
        if (low_bits(s.last().key, depth) == target) == side {
            rest.push(s.last())
        } else {
            rest
        }
    }
}

/// A bucket: a local depth and its entries in the order they arrived.
pub struct Bucket {
    pub depth: u32,
    pub tuples: Vec<Tuple>,
}

impl Bucket {
    pub fn new() -> (r: Bucket)
        ensures
            r.depth == 1,
            r.tuples@.len() == 0,
    {
        Bucket { depth: 1, tuples: Vec::new() }
    }

    /// The values stored under `key`, in insertion order.
    pub fn get(&self, key: u32) -> (r: Vec<u32>)
        ensures
            r@ == values_with_key(self.tuples@, key),
    {
        let mut r: Vec<u32> = Vec::new();
        let mut i: usize = 0;
        while i < self.tuples.len()
            invariant
                i <= self.tuples@.len(),
                r@ == values_with_key(self.tuples@.take(i as int), key),
            decreases self.tuples@.len() - i,
        {
            let t = self.tuples[i];
            if t.key == key {
                r.push(t.value);
            }
            assert(self.tuples@.take(i + 1).drop_last() =~= self.tuples@.take(i as int));
            i = i + 1;
        }
        assert(self.tuples@.take(i as int) =~= self.tuples@);
        r
    }

    pub fn is_full(&self, bucket_size_limit: usize) -> (r: bool)
        ensures
            r == (self.tuples@.len() >= bucket_size_limit),
    {
        self.tuples.len() >= bucket_size_limit
    }

    pub fn put(&mut self, key: u32, value: u32)
        ensures
            final(self).depth == old(self).depth,
            final(self).tuples@ == old(self).tuples@.push(Tuple { key, value }),
    {
        self.tuples.push(Tuple { key, value })
    }
}

/// An extendible hash table from `u32` keys to `u32` values that keeps every
/// value put under a key. Directory slot `i` holds the index in `buckets` of
/// the bucket for the keys whose low `depth` bits are `i`.
pub struct HashTable {
    pub depth: u32,
    pub directories: Vec<usize>,
    pub buckets: Vec<Bucket>,
    pub bucket_size_limit: usize,
}

impl HashTable {
    /// The bucket that directory slot `i` refers to.
    pub open spec fn slot_bucket(self, i: int) -> Bucket {
        self.buckets@[self.directories@[i] as int]
    }

    /// The entries of the bucket at slot `i` all agree with `i` on the
    /// bucket's low `depth` bits, and that depth is between 1 and the global
    /// depth.
    pub open spec fn slot_ok(self, i: int) -> bool {
        let b = self.slot_bucket(i);
        &&& 1 <= b.depth <= self.depth
        &&& forall|t: int| 0 <= t < b.tuples@.len() ==> low_bits(#[trigger] b.tuples@[t].key, b.depth) == low_bits(i as u32, b.depth)
    }

    pub open spec fn wf(self) -> bool {
        &&& 1 <= self.depth <= 32
        &&& self.directories@.len() == slot_count(self.depth)
        &&& forall|i: int| 0 <= i < self.directories@.len() ==> #[trigger] self.directories@[i] < self.buckets@.len()
        &&& forall|i: int| 0 <= i < self.directories@.len() ==> #[trigger] self.slot_ok(i)
        &&& forall|i: int, j: int|
            0 <= i < self.directories@.len() && 0 <= j < self.directories@.len()
                ==> (#[trigger] self.directories@[i] == #[trigger] self.directories@[j])
                == (low_bits(i as u32, self.slot_bucket(i).depth) == low_bits(j as u32, self.slot_bucket(i).depth))
    }

    /// The values stored under `key`, in insertion order.
    pub open spec fn values_for(self, key: u32) -> Seq<u32> {
        values_with_key(self.slot_bucket(low_bits(key, self.depth) as int).tuples@, key)
    }

    /// Every key in the bucket that slot `i` refers to agrees with `i` on the
    /// bucket's low `depth` bits, and that depth is at most the global depth.
    pub proof fn lemma_slot_keys_match(&self, i: int, t: int)
        requires
            self.wf(),
            0 <= i < self.directories@.len(),
            0 <= t < self.slot_bucket(i).tuples@.len(),
        ensures
            1 <= self.slot_bucket(i).depth <= self.depth,
            low_bits(self.slot_bucket(i).tuples@[t].key, self.slot_bucket(i).depth) == low_bits(i as u32, self.slot_bucket(i).depth),
    {
        assert(self.slot_ok(i));
    }

    pub fn new(bucket_size_limit: usize) -> (r: HashTable)
        ensures
            r.wf(),
            r.depth == 1,
            r.bucket_size_limit == bucket_size_limit,
            forall|k: u32| r.values_for(k).len() == 0,
    {
        let mut buckets: Vec<Bucket> = Vec::new();
        buckets.push(Bucket::new());
        buckets.push(Bucket::new());
        let mut directories: Vec<usize> = Vec::new();
        directories.push(0);
        directories.push(1);
        let r = HashTable { depth: 1, directories, buckets, bucket_size_limit };
        proof {
            assert(1u32 << 1u32 == 2u32) by (bit_vector);
            assert((0u32 & (((1u32 << 1u32) - 1u32) as u32)) != (1u32 & (((1u32 << 1u32) - 1u32) as u32))) by (bit_vector);
            assert forall|k: u32| r.values_for(k).len() == 0 by {
                lemma_low_bits_bound(k, 1);
            }
        }
        r
    }

    /// The values stored under `key`, in insertion order.
    pub fn get(&self, key: u32) -> (r: Vec<u32>)
        requires
            self.wf(),
        ensures
            r@ == self.values_for(key),
    {
        let i = self.idx(key);
        proof { lemma_low_bits_bound(key, self.depth); }
        self.buckets[self.directories[i as usize]].get(key)
    }

    /// Doubles the directory: new slot `j` refers to the bucket of old slot
    /// `low_bits(j, depth)`.
    fn expand_directories(&mut self)
        requires
            old(self).wf(),
            old(self).depth < 32,
        ensures
            final(self).wf(),
            final(self).depth == old(self).depth + 1,
            final(self).buckets@ == old(self).buckets@,
            final(self).bucket_size_limit == old(self).bucket_size_limit,
            forall|j: int| 0 <= j < final(self).directories@.len()
                ==> #[trigger] final(self).directories@[j] == old(self).directories@[low_bits(j as u32, old(self).depth) as int],
            forall|k: u32| #[trigger] final(self).values_for(k) == old(self).values_for(k),
    {
        proof { lemma_slot_count_double(self.depth); }
        let old_len: usize = self.directories.len();
        let mut new_dirs: Vec<usize> = Vec::new();
        let mut j: usize = 0;
        while j < old_len
            invariant
                old_len == self.directories@.len(),
                j <= old_len,
                new_dirs@ == self.directories@.take(j as int),
            decreases old_len - j,
        {
            new_dirs.push(self.directories[j]);
            j = j + 1;
        }
        let mut k: usize = 0;
        while k < old_len
            invariant
                old_len == self.directories@.len(),
                k <= old_len,
                new_dirs@ == self.directories@ + self.directories@.take(k as int),
            decreases old_len - k,
        {
            new_dirs.push(self.directories[k]);
            k = k + 1;
        }
        proof {
            assert(self.directories@.take(old_len as int) =~= self.directories@);
            assert forall|t: int| 0 <= t < new_dirs@.len()
                implies #[trigger] new_dirs@[t] == self.directories@[low_bits(t as u32, self.depth) as int] by {
                lemma_low_bits_wrap(t as u32, self.depth);
            }
        }
        let ghost o = *self;
        self.directories = new_dirs;
        self.depth = self.depth + 1;
        proof {
            let n = *self;
            assert forall|i: int| 0 <= i < n.directories@.len() implies #[trigger] n.directories@[i] < n.buckets@.len() by {
                lemma_low_bits_bound(i as u32, o.depth);
            }
            assert forall|i: int| 0 <= i < n.directories@.len() implies #[trigger] n.slot_ok(i) by {
                let oi = low_bits(i as u32, o.depth) as int;
                lemma_low_bits_bound(i as u32, o.depth);
                assert(o.slot_ok(oi));
                let b = n.slot_bucket(i);
                assert(b == o.slot_bucket(oi));
                lemma_low_bits_twice(i as u32, b.depth, o.depth);
                assert(oi as u32 == low_bits(i as u32, o.depth));
                assert forall|t: int| 0 <= t < b.tuples@.len() implies low_bits(#[trigger] b.tuples@[t].key, b.depth) == low_bits(i as u32, b.depth) by {
                    assert(low_bits(b.tuples@[t].key, b.depth) == low_bits(oi as u32, b.depth));
                }
            }
            assert forall|i: int, j: int|
                0 <= i < n.directories@.len() && 0 <= j < n.directories@.len()
                implies (#[trigger] n.directories@[i] == #[trigger] n.directories@[j])
                    == (low_bits(i as u32, n.slot_bucket(i).depth) == low_bits(j as u32, n.slot_bucket(i).depth)) by {
                let oi = low_bits(i as u32, o.depth) as int;
                let oj = low_bits(j as u32, o.depth) as int;
                lemma_low_bits_bound(i as u32, o.depth);
                lemma_low_bits_bound(j as u32, o.depth);
                assert(n.directories@[i] == o.directories@[oi] && n.directories@[j] == o.directories@[oj]);
                assert((o.directories@[oi] == o.directories@[oj])
                    == (low_bits(oi as u32, o.slot_bucket(oi).depth) == low_bits(oj as u32, o.slot_bucket(oi).depth)));
                let d = o.slot_bucket(oi).depth;
                assert(o.slot_ok(oi));
                lemma_low_bits_twice(i as u32, d, o.depth);
                lemma_low_bits_twice(j as u32, d, o.depth);
            }
            assert forall|k: u32| #[trigger] n.values_for(k) == o.values_for(k) by {
                let s = low_bits(k, n.depth);
                lemma_low_bits_bound(k, n.depth);
                lemma_low_bits_twice(k, o.depth, n.depth);
                assert(n.directories@[s as int] == o.directories@[low_bits(s, o.depth) as int]);
            }
        }
    }

    /// Splits the bucket at slot `bucket_idx` one level deeper: entries whose
    /// low bits at the new depth match the slot's stay, the others move to a
    /// new bucket, and every slot that referred to the old bucket now refers
    /// to the one whose low bits it shares.
    fn split_bucket(&mut self, bucket_idx: u32)
        requires
            old(self).wf(),
            (bucket_idx as nat) < old(self).directories@.len(),
            old(self).slot_bucket(bucket_idx as int).depth < old(self).depth,
        ensures
            final(self).wf(),
            final(self).depth == old(self).depth,
            final(self).bucket_size_limit == old(self).bucket_size_limit,
            forall|k: u32| #[trigger] final(self).values_for(k) == old(self).values_for(k),
            final(self).slot_bucket(bucket_idx as int).depth == old(self).slot_bucket(bucket_idx as int).depth + 1,
            forall|j: int| 0 <= j < final(self).directories@.len()
                && old(self).directories@[j] != old(self).directories@[bucket_idx as int]
                ==> #[trigger] final(self).slot_bucket(j) == old(self).slot_bucket(j),
            forall|j: int| 0 <= j < final(self).directories@.len()
                ==> (#[trigger] final(self).directories@[j] != old(self).directories@[j])
                == (old(self).directories@[j] == old(self).directories@[bucket_idx as int]
                    && low_bits(j as u32, final(self).slot_bucket(bucket_idx as int).depth)
                        != low_bits(bucket_idx, final(self).slot_bucket(bucket_idx as int).depth)),
            ({
                let bi = old(self).directories@[bucket_idx as int] as int;
                let nb = old(self).buckets@.len() as int;
                let nd = (old(self).buckets@[bi].depth + 1) as u32;
                let target = low_bits(bucket_idx, nd);
                let all = old(self).buckets@[bi].tuples@;
                &&& final(self).buckets@.len() == nb + 1
                &&& final(self).buckets@[bi].depth == nd
                &&& final(self).buckets@[bi].tuples@ == entries_on_side(all, nd, target, true)
                &&& final(self).buckets@[nb].depth == nd
                &&& final(self).buckets@[nb].tuples@ == entries_on_side(all, nd, target, false)
                &&& forall|x: int| 0 <= x < nb && x != bi ==> #[trigger] final(self).buckets@[x] == old(self).buckets@[x]
                &&& forall|j: int| 0 <= j < final(self).directories@.len()
                    && #[trigger] final(self).directories@[j] != old(self).directories@[j]
                    ==> final(self).directories@[j] == nb
            }),
            final(self).slot_bucket(bucket_idx as int).depth == old(self).depth ==> forall|j: int|
                0 <= j < final(self).directories@.len()
                ==> (#[trigger] final(self).directories@[j] != old(self).directories@[j])
                == (j == split_image(bucket_idx, old(self).depth) as int),
    {
        let ghost o = *self;
        let bi = self.directories[bucket_idx as usize];
        let old_depth = self.buckets[bi].depth;
        let new_depth = old_depth + 1;
        let target = HashTable::mask(bucket_idx, new_depth);
        proof { assert(o.slot_ok(bucket_idx as int)); }
        let mut keep: Vec<Tuple> = Vec::new();
        let mut moved: Vec<Tuple> = Vec::new();
        let n = self.buckets[bi].tuples.len();
        let mut t: usize = 0;
        while t < n
            invariant
                *self == o,
                o.wf(),
                (bucket_idx as nat) < o.directories@.len(),
                bi == o.directories@[bucket_idx as int],
                bi < o.buckets@.len(),
                n == o.buckets@[bi as int].tuples@.len(),
                old_depth == o.buckets@[bi as int].depth,
                new_depth == old_depth + 1,
                target == low_bits(bucket_idx, new_depth),
                o.slot_ok(bucket_idx as int),
                t <= n,
                keep@ == entries_on_side(o.buckets@[bi as int].tuples@.take(t as int), new_depth, target, true),
                moved@ == entries_on_side(o.buckets@[bi as int].tuples@.take(t as int), new_depth, target, false),
                forall|e: int| 0 <= e < keep@.len() ==> low_bits(#[trigger] keep@[e].key, new_depth) == target,
                forall|e: int| 0 <= e < moved@.len() ==> low_bits(#[trigger] moved@[e].key, new_depth) != target
                    && low_bits(moved@[e].key, old_depth) == low_bits(bucket_idx, old_depth),
                forall|k: u32| #[trigger] values_with_key(keep@, k) == if low_bits(k, new_depth) == target {
                    values_with_key(o.buckets@[bi as int].tuples@.take(t as int), k)
                } else {
                    Seq::empty()
                },
                forall|k: u32| #[trigger] values_with_key(moved@, k) == if low_bits(k, new_depth) != target {
                    values_with_key(o.buckets@[bi as int].tuples@.take(t as int), k)
                } else {
                    Seq::empty()
                },
            decreases n - t,
        {
            let tu = self.buckets[bi].tuples[t];
            let ghost all = o.buckets@[bi as int].tuples@;
            proof {
                assert(all.take(t + 1) =~= all.take(t as int).push(tu));
                assert(all.take(t + 1).drop_last() =~= all.take(t as int));
                assert(low_bits(all[t as int].key, old_depth) == low_bits(bucket_idx, old_depth));
            }
            let ghost keep0 = keep@;
            let ghost moved0 = moved@;
            if HashTable::mask(tu.key, new_depth) == target {
                keep.push(tu);
            } else {
                moved.push(tu);
            }
            proof {
                assert forall|k: u32| #[trigger] values_with_key(keep@, k) == if low_bits(k, new_depth) == target {
                    values_with_key(all.take(t + 1), k)
                } else {
                    Seq::empty()
                } by {
                    lemma_values_with_key_push(all.take(t as int), tu, k);
                    if keep@.len() > keep0.len() {
                        lemma_values_with_key_push(keep0, tu, k);
                        assert(keep@ == keep0.push(tu));
                    } else {
                        assert(keep@ == keep0);
                    }
                }
                assert forall|k: u32| #[trigger] values_with_key(moved@, k) == if low_bits(k, new_depth) != target {
                    values_with_key(all.take(t + 1), k)
                } else {
                    Seq::empty()
                } by {
                    lemma_values_with_key_push(all.take(t as int), tu, k);
                    if moved@.len() > moved0.len() {
                        lemma_values_with_key_push(moved0, tu, k);
                        assert(moved@ == moved0.push(tu));
                    } else {
                        assert(moved@ == moved0);
                    }
                }
            }
            t = t + 1;
        }
        proof {
            assert(o.buckets@[bi as int].tuples@.take(n as int) =~= o.buckets@[bi as int].tuples@);
            assert(o.buckets@.len() == self.buckets@.len());
        }
        let ghost keep_s = keep@;
        let ghost moved_s = moved@;
        self.buckets.set(bi, Bucket { depth: new_depth, tuples: keep });
        let nb = self.buckets.len();
        self.buckets.push(Bucket { depth: new_depth, tuples: moved });
        let ghost bks = self.buckets@;
        let size = self.directories.len();
        let mut j: usize = 0;
        while j < size
            invariant
                self.buckets@ == bks,
                self.depth == o.depth,
                self.bucket_size_limit == o.bucket_size_limit,
                size == o.directories@.len(),
                self.directories@.len() == size,
                j <= size,
                forall|s: int| 0 <= s < size ==> #[trigger] self.directories@[s] == if s < j
                    && o.directories@[s] == bi && low_bits(s as u32, new_depth) != target {
                    nb
                } else {
                    o.directories@[s]
                },
            decreases size - j,
        {
            if self.directories[j] == bi && HashTable::mask(j as u32, new_depth) != target {
                self.directories.set(j, nb);
            }
            j = j + 1;
        }
        proof {
            let nw = *self;
            assert(nw.buckets@.len() == nb + 1);
            assert(nw.buckets@[bi as int].tuples@ == keep_s);
            let mb = nw.buckets@[nb as int];
            assert(mb.tuples@ == moved_s && mb.depth == new_depth);
            let od = old_depth;
            assert(o.slot_ok(bucket_idx as int));
            assert forall|i: int| 0 <= i < nw.directories@.len() implies #[trigger] nw.directories@[i] < nw.buckets@.len() by {
            }
            assert forall|i: int| 0 <= i < nw.directories@.len() implies #[trigger] nw.slot_ok(i) by {
                assert(o.slot_ok(i));
                if o.directories@[i] == bi {
                    assert(low_bits(i as u32, od) == low_bits(bucket_idx, od));
                    if low_bits(i as u32, new_depth) != target {
                        assert forall|e: int| 0 <= e < mb.tuples@.len() implies low_bits(#[trigger] mb.tuples@[e].key, mb.depth) == low_bits(i as u32, mb.depth) by {
                            lemma_low_bits_other_half(bucket_idx, mb.tuples@[e].key, i as u32, od);
                        }
                    }
                }
            }
            assert forall|i: int, j: int|
                0 <= i < nw.directories@.len() && 0 <= j < nw.directories@.len()
                implies (#[trigger] nw.directories@[i] == #[trigger] nw.directories@[j])
                    == (low_bits(i as u32, nw.slot_bucket(i).depth) == low_bits(j as u32, nw.slot_bucket(i).depth)) by {
                assert(o.directories@[i] < o.buckets@.len() && o.directories@[j] < o.buckets@.len());
                assert((o.directories@[i] == o.directories@[j])
                    == (low_bits(i as u32, o.slot_bucket(i).depth) == low_bits(j as u32, o.slot_bucket(i).depth)));
                assert((o.directories@[j] == o.directories@[bucket_idx as int])
                    == (low_bits(j as u32, o.slot_bucket(j).depth) == low_bits(bucket_idx, o.slot_bucket(j).depth)));
                assert((o.directories@[i] == o.directories@[bucket_idx as int])
                    == (low_bits(i as u32, o.slot_bucket(i).depth) == low_bits(bucket_idx, o.slot_bucket(i).depth)));
                if o.directories@[i] == bi {
                    assert(low_bits(i as u32, od) == low_bits(bucket_idx, od));
                    if low_bits(i as u32, new_depth) == low_bits(j as u32, new_depth) {
                        lemma_low_bits_weaker(i as u32, j as u32, od, new_depth);
                    }
                    if o.directories@[j] == bi {
                        assert(low_bits(j as u32, od) == low_bits(bucket_idx, od));
                        if low_bits(i as u32, new_depth) != target && low_bits(j as u32, new_depth) != target {
                            lemma_low_bits_other_half(bucket_idx, i as u32, j as u32, od);
                        }
                    }
                } else {
                    assert(nw.directories@[i] == o.directories@[i]);
                    if o.directories@[j] == bi {
                        assert(low_bits(j as u32, od) == low_bits(bucket_idx, od));
                        if low_bits(i as u32, o.slot_bucket(i).depth) == low_bits(j as u32, o.slot_bucket(i).depth) {
                            assert(o.directories@[i] == o.directories@[j]);
                        }
                    }
                }
            }
            assert forall|k: u32| #[trigger] nw.values_for(k) == o.values_for(k) by {
                let sl = low_bits(k, o.depth) as int;
                lemma_low_bits_bound(k, o.depth);
                if o.directories@[sl] == bi {
                    lemma_low_bits_twice(k, new_depth, o.depth);
                }
            }
            assert(nw.directories@[bucket_idx as int] == bi);
            if new_depth == o.depth {
                assert forall|j: int| 0 <= j < nw.directories@.len()
                    implies (#[trigger] nw.directories@[j] != o.directories@[j])
                    == (j == split_image(bucket_idx, o.depth) as int) by {
                    let bix = bucket_idx as int;
                    assert((o.directories@[j] == o.directories@[bix])
                        == (low_bits(j as u32, o.slot_bucket(j).depth) == low_bits(bucket_idx, o.slot_bucket(j).depth)));
                    assert((o.directories@[bix] == o.directories@[j])
                        == (low_bits(bucket_idx, od) == low_bits(j as u32, od)));
                    lemma_only_split_image(bucket_idx, j as u32, od);
                    if o.depth < 32 {
                        lemma_slot_count_double(od);
                        lemma_low_bits_wrap(j as u32, o.depth);
                        lemma_low_bits_wrap(bucket_idx, o.depth);
                    }
                    lemma_low_bits_bound(split_image(bucket_idx, o.depth), o.depth);
                }
            }
        }
    }

    /// Adds `value` under `key`, splitting the key's bucket first when it is
    /// full, and doubling the directory first when that bucket's local depth
    /// equals the global depth. At global depth 32 the directory is not
    /// doubled and a full bucket of local depth 32 takes the entry unsplit.
    pub fn put(&mut self, key: u32, value: u32)
        requires
            old(self).wf(),
        ensures
            final(self).wf(),
            final(self).bucket_size_limit == old(self).bucket_size_limit,
            forall|k: u32| #[trigger] final(self).values_for(k) == if k == key {
                old(self).values_for(k).push(value)
            } else {
                old(self).values_for(k)
            },
            ({
                let b = old(self).slot_bucket(low_bits(key, old(self).depth) as int);
                final(self).depth == if b.tuples@.len() >= old(self).bucket_size_limit && b.depth == old(self).depth
                    && old(self).depth < 32 {
                    (old(self).depth + 1) as u32
                } else {
                    old(self).depth
                }
            }),
    {
        let idx = self.idx(key);
        proof { lemma_low_bits_bound(key, self.depth); }
        let bi = self.directories[idx as usize];
        let is_full = self.buckets[bi].is_full(self.bucket_size_limit);
        let needs_expansion = self.buckets[bi].depth == self.depth;
        if is_full {
            if needs_expansion && self.depth < 32 {
                self.expand_directories();
            }
            let idx = self.idx(key);
            proof { lemma_low_bits_bound(key, self.depth); }
            if self.buckets[self.directories[idx as usize]].depth < self.depth {
                self.split_bucket(idx);
            }
        }
        self.put_simple(key, value);
    }

    /// Appends `(key, value)` to the bucket of `key`'s slot.
    fn put_simple(&mut self, key: u32, value: u32)
        requires
            old(self).wf(),
        ensures
            final(self).wf(),
            final(self).depth == old(self).depth,
            final(self).bucket_size_limit == old(self).bucket_size_limit,
            forall|k: u32| #[trigger] final(self).values_for(k) == if k == key {
                old(self).values_for(k).push(value)
            } else {
                old(self).values_for(k)
            },
    {
        let ghost o = *self;
        let i = self.idx(key);
        proof { lemma_low_bits_bound(key, self.depth); }
        let bi = self.directories[i as usize];
        self.buckets[bi].put(key, value);
        proof {
            let nw = *self;
            assert(o.slot_ok(i as int));
            assert forall|s: int| 0 <= s < nw.directories@.len() implies #[trigger] nw.slot_ok(s) by {
                assert(o.slot_ok(s));
                if o.directories@[s] == bi {
                    let b = nw.slot_bucket(s);
                    let d = b.depth;
                    assert(low_bits(s as u32, d) == low_bits(i, d));
                    lemma_low_bits_twice(key, d, o.depth);
                    assert forall|t: int| 0 <= t < b.tuples@.len() implies low_bits(#[trigger] b.tuples@[t].key, d) == low_bits(s as u32, d) by {
                        if t < o.slot_bucket(s).tuples@.len() {
                            assert(b.tuples@[t] == o.slot_bucket(s).tuples@[t]);
                        }
                    }
                }
            }
            assert forall|k: u32| #[trigger] nw.values_for(k) == if k == key {
                o.values_for(k).push(value)
            } else {
                o.values_for(k)
            } by {
                let sl = low_bits(k, o.depth) as int;
                lemma_low_bits_bound(k, o.depth);
                if o.directories@[sl] == bi {
                    lemma_values_with_key_push(o.buckets@[bi as int].tuples@, Tuple { key, value }, k);
                }
            }
        }
    }

    /// The directory slot of `key` under the current global depth.
    pub fn idx(&self, key: u32) -> (r: u32)
        ensures
            r == low_bits(key, self.depth),
    {
        HashTable::mask(key, self.depth)
    }

    /// The low `depth` bits of `bucket_idx`; from 32 on, all of them.
    pub fn mask(bucket_idx: u32, depth: u32) -> (r: u32)
        ensures
            r == low_bits(bucket_idx, depth),
    {
        if depth >= 32 {
            bucket_idx
        } else {
            assert(1u32 << depth >= 1u32) by (bit_vector)
                requires depth < 32;
            bucket_idx & ((1u32 << depth) - 1)
        }
    }

    /// `bucket_idx` with bit `depth - 1` flipped; unchanged where that bit is
    /// past the 32nd.
    pub fn split_image_idx(bucket_idx: u32, depth: u32) -> (r: u32)
        requires
            depth >= 1,
        ensures
            r == split_image(bucket_idx, depth),
    {
        if depth - 1 >= 32 {
            bucket_idx
        } else {
            bucket_idx ^ (1u32 << (depth - 1))
        }
    }
}

} // verus!
