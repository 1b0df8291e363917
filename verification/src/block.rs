//! Blocks and the bounded index of recently seen blocks.

use vstd::prelude::*;

verus! {

/// A block observed from an upstream. `hash` and `number` never change once
/// the block is constructed; `received_at` is the monotonic-clock instant at
/// which the proxy first saw it.
#[derive(Clone, Copy, PartialEq, Eq, Structural, Debug)]
pub struct SavedBlock {
    pub hash: u64,
    pub number: u64,
    pub parent_hash: u64,
    pub received_at: u64,
}

impl SavedBlock {
    /// Age of the block relative to a later monotonic-clock reading.
    pub fn age(&self, now: u64) -> (r: u64)
        requires
            self.received_at <= now,
        ensures
            r == now - self.received_at,
    {
        now - self.received_at
    }
}

/// Holds of blocks at the given height.
pub open spec fn has_number(n: u64) -> spec_fn(SavedBlock) -> bool {
    |b: SavedBlock| b.number == n
}

/// Whether a hash stands in the list of live head hashes.
fn hash_listed(live: &Vec<u64>, h: u64) -> (r: bool)
    ensures
        r == live@.contains(h),
{
    let n = live.len();
    for i in 0..n
        invariant
            n == live@.len(),
            forall|j: int| 0 <= j < i ==> live@[j] != h,
    {
        if live[i] == h {
            proof {
                assert(live@[i as int] == h);
            }
            return true;
        }
    }
    false
}

/// An unchanged index keeps every hash it held.
proof fn lemma_live_preserved_same(idx: BlockIndex, live: Seq<u64>)
    ensures
        forall|h: u64| live.contains(h) && idx.contains_hash(h) ==> idx.contains_hash(h),
{
}

/// Finds the first block with hash `h` in a sequence of blocks.
pub open spec fn seq_find_block(s: Seq<SavedBlock>, h: u64) -> Option<SavedBlock>
    decreases s.len(),
{
    if s.len() == 0 {
        None
    } else if s[0].hash == h {
        Some(s[0])
    } else {
        seq_find_block(s.drop_first(), h)
    }
}

/// Canonical store of recently seen blocks: lookup by hash, fork discovery
/// by number, and orphan marking for reorg handling. Bounded: when full, the
/// oldest entry is evicted on insert — except that an insert aware of the
/// live head hashes never evicts one of them, so every hash a live
/// connection's head refers to stays present while capacity allows.
pub struct BlockIndex {
    pub blocks: Vec<SavedBlock>,
    pub orphaned: Vec<u64>,
    pub capacity: usize,
}

impl BlockIndex {
    /// All stored hashes are distinct and the store respects its bound.
    pub open spec fn wf(self) -> bool {
        &&& self.capacity >= 1
        &&& self.blocks@.len() <= self.capacity
        &&& forall|i: int, j: int|
            0 <= i < j < self.blocks@.len() ==> self.blocks@[i].hash != self.blocks@[j].hash
    }

    pub open spec fn spec_blocks(self) -> Seq<SavedBlock> {
        self.blocks@
    }

    pub open spec fn contains_hash(self, h: u64) -> bool {
        exists|i: int| 0 <= i < self.blocks@.len() && self.blocks@[i].hash == h
    }

    pub open spec fn spec_get(self, h: u64) -> Option<SavedBlock> {
        seq_find_block(self.blocks@, h)
    }

    pub open spec fn spec_orphaned(self, h: u64) -> bool {
        self.orphaned@.contains(h)
    }

    pub fn new(capacity: usize) -> (r: BlockIndex)
        requires
            capacity >= 1,
        ensures
            r.wf(),
            r.spec_blocks() == Seq::<SavedBlock>::empty(),
            forall|h: u64| !r.spec_orphaned(h),
    {
        BlockIndex { blocks: Vec::new(), orphaned: Vec::new(), capacity }
    }

    /// Looks a block up by hash.
    pub fn get_by_hash(&self, h: u64) -> (r: Option<SavedBlock>)
        ensures
            r == self.spec_get(h),
            r is Some <==> self.contains_hash(h),
    {
        proof {
            lemma_seq_find_block_contains(self.blocks@, h);
            assert(self.blocks@.skip(0) =~= self.blocks@);
        }
        let n = self.blocks.len();
        for i in 0..n
            invariant
                n == self.blocks@.len(),
                seq_find_block(self.blocks@.skip(i as int), h) == self.spec_get(h),
                forall|j: int| 0 <= j < i ==> self.blocks@[j].hash != h,
        {
            if self.blocks[i].hash == h {
                proof {
                    assert(self.blocks@.skip(i as int)[0] == self.blocks@[i as int]);
                }
                return Some(self.blocks[i]);
            }
            proof {
                assert(self.blocks@.skip(i as int).drop_first() =~= self.blocks@.skip(i + 1));
            }
        }
        proof {
            assert(self.blocks@.skip(n as int) =~= Seq::<SavedBlock>::empty());
        }
        None
    }

    /// Inserts a block. Idempotent on `hash`: a block whose hash is already
    /// present leaves the index unchanged. When the index is full, the
    /// oldest entry is evicted first.
    pub fn insert(&mut self, b: SavedBlock)
        requires
            old(self).wf(),
        ensures
            final(self).wf(),
            final(self).capacity == old(self).capacity,
            final(self).orphaned == old(self).orphaned,
            old(self).contains_hash(b.hash) ==> final(self).spec_blocks() == old(
                self,
            ).spec_blocks(),
            !old(self).contains_hash(b.hash) && old(self).spec_blocks().len() < old(
                self,
            ).capacity ==> final(self).spec_blocks() == old(self).spec_blocks().push(b),
            !old(self).contains_hash(b.hash) && old(self).spec_blocks().len() == old(
                self,
            ).capacity ==> final(self).spec_blocks() == old(self).spec_blocks().drop_first().push(
                b,
            ),
            final(self).contains_hash(b.hash),
    {
        let n = self.blocks.len();
        let mut present = false;
        for i in 0..n
            invariant
                n == self.blocks@.len(),
                present <==> exists|j: int| 0 <= j < i && self.blocks@[j].hash == b.hash,
        {
            if self.blocks[i].hash == b.hash {
                present = true;
            }
        }
        if present {
            return ;
        }
        if self.blocks.len() == self.capacity {
            self.blocks.remove(0);
            proof {
                assert(self.blocks@ =~= old(self).blocks@.drop_first());
            }
        }
        self.blocks.push(b);
        proof {
            assert(self.blocks@[self.blocks@.len() - 1] == b);
            assert forall|i: int, j: int|
                0 <= i < j < self.blocks@.len() implies self.blocks@[i].hash
                != self.blocks@[j].hash by {
                if j == self.blocks@.len() - 1 {
                    assert(self.blocks@[j] == b);
                }
            }
        }
    }

    /// Inserts a block without ever evicting a hash in `live` — the head
    /// hashes of live connections. Idempotent on `hash`. When the index
    /// is full, the oldest entry not in `live` is evicted; if every
    /// stored hash is live, nothing is inserted rather than evicting a
    /// live head.
    pub fn insert_protecting(&mut self, b: SavedBlock, live: &Vec<u64>)
        requires
            old(self).wf(),
        ensures
            final(self).wf(),
            final(self).capacity == old(self).capacity,
            final(self).orphaned == old(self).orphaned,
            forall|h: u64|
                live@.contains(h) && old(self).contains_hash(h) ==> final(self).contains_hash(h),
            old(self).contains_hash(b.hash) ==> final(self).spec_blocks() == old(
                self,
            ).spec_blocks(),
            !old(self).contains_hash(b.hash) && old(self).spec_blocks().len() < old(
                self,
            ).capacity ==> final(self).spec_blocks() == old(self).spec_blocks().push(b),
            !old(self).contains_hash(b.hash) && old(self).spec_blocks().len() == old(
                self,
            ).capacity ==> ((exists|k: int|
                0 <= k < old(self).spec_blocks().len() && !live@.contains(
                    (#[trigger] old(self).spec_blocks()[k]).hash,
                ) && final(self).spec_blocks() == old(self).spec_blocks().remove(k).push(b)) || ((
            forall|k: int|
                0 <= k < old(self).spec_blocks().len() ==> live@.contains(
                    (#[trigger] old(self).spec_blocks()[k]).hash,
                )) && final(self).spec_blocks() == old(self).spec_blocks())),
    {
        let n = self.blocks.len();
        let mut present = false;
        for i in 0..n
            invariant
                n == self.blocks@.len(),
                present <==> exists|j: int| 0 <= j < i && self.blocks@[j].hash == b.hash,
        {
            if self.blocks[i].hash == b.hash {
                present = true;
            }
        }
        if present {
            proof {
                lemma_live_preserved_same(*self, live@);
            }
            return ;
        }
        if self.blocks.len() < self.capacity {
            self.blocks.push(b);
            proof {
                assert(self.blocks@[self.blocks@.len() - 1] == b);
                assert forall|i: int, j: int|
                    0 <= i < j < self.blocks@.len() implies self.blocks@[i].hash
                    != self.blocks@[j].hash by {
                    if j == self.blocks@.len() - 1 {
                        assert(self.blocks@[j] == b);
                    }
                }
                assert forall|h: u64|
                    live@.contains(h) && old(self).contains_hash(h) implies self.contains_hash(
                    h,
                ) by {
                    let m = choose|m: int|
                        0 <= m < old(self).blocks@.len() && old(self).blocks@[m].hash == h;
                    assert(self.blocks@[m].hash == h);
                }
            }
            return ;
        }
        let mut victim: Option<usize> = None;
        let len = self.blocks.len();
        for k in 0..len
            invariant
                len == self.blocks@.len(),
                victim is None ==> forall|j: int| 0 <= j < k ==> live@.contains(
                    (#[trigger] self.blocks@[j]).hash,
                ),
                victim matches Some(x) ==> x < len && !live@.contains(
                    self.blocks@[x as int].hash,
                ),
        {
            if victim.is_none() && !hash_listed(live, self.blocks[k].hash) {
                victim = Some(k);
            }
        }
        match victim {
            Option::None => {
                proof {
                    lemma_live_preserved_same(*self, live@);
                }
            },
            Option::Some(k) => {
                let ghost before = self.blocks@;
                self.blocks.remove(k);
                self.blocks.push(b);
                proof {
                    assert(self.blocks@ =~= before.remove(k as int).push(b));
                    assert(self.blocks@[self.blocks@.len() - 1] == b);
                    assert forall|i: int, j: int|
                        0 <= i < j < self.blocks@.len() implies self.blocks@[i].hash
                        != self.blocks@[j].hash by {
                        let bi = if i < k { before[i] } else { before[i + 1] };
                        if i < self.blocks@.len() - 1 {
                            assert(self.blocks@[i] == bi);
                        }
                        if j == self.blocks@.len() - 1 {
                            assert(self.blocks@[j] == b);
                            assert(self.blocks@[i] == bi);
                            assert(!old(self).contains_hash(b.hash));
                        } else {
                            let bj = if j < k { before[j] } else { before[j + 1] };
                            assert(self.blocks@[j] == bj);
                        }
                    }
                    assert forall|h: u64|
                        live@.contains(h) && old(self).contains_hash(h) implies self.contains_hash(
                        h,
                    ) by {
                        let m = choose|m: int|
                            0 <= m < before.len() && before[m].hash == h;
                        assert(m != k);
                        if m < k {
                            assert(self.blocks@[m].hash == h);
                        } else {
                            assert(self.blocks@[m - 1] == before[m]);
                        }
                    }
                }
            },
        }
    }

    /// All stored blocks with the given number, in insertion order: the
    /// known forks at that height.
    pub fn forks_at_number(&self, n: u64) -> (r: Vec<SavedBlock>)
        ensures
            r@ == self.spec_blocks().filter(has_number(n)),
    {
        let mut r: Vec<SavedBlock> = Vec::new();
        let len = self.blocks.len();
        proof {
            reveal(Seq::filter);
            assert(self.blocks@.take(0).filter(has_number(n))
                =~= Seq::<SavedBlock>::empty());
        }
        for i in 0..len
            invariant
                len == self.blocks@.len(),
                r@ == self.blocks@.take(i as int).filter(has_number(n)),
        {
            if self.blocks[i].number == n {
                r.push(self.blocks[i]);
            }
            proof {
                broadcast use Seq::lemma_filter_push;

                assert(has_number(n)(self.blocks@[i as int]) == (self.blocks@[i as int].number
                    == n));
                assert(self.blocks@.take(i + 1) =~= self.blocks@.take(i as int).push(
                    self.blocks@[i as int],
                ));
                assert(self.blocks@.take(i + 1).filter(has_number(n))
                    == self.blocks@.take(i as int).push(self.blocks@[i as int]).filter(
                    has_number(n),
                ));
                assert(r@ == self.blocks@.take(i + 1).filter(has_number(n)));
            }
        }
        proof {
            assert(self.blocks@.take(len as int) =~= self.blocks@);
        }
        r
    }

    /// Marks a hash orphaned: a branch no longer on the canonical chain.
    pub fn mark_orphaned(&mut self, h: u64)
        requires
            old(self).wf(),
        ensures
            final(self).wf(),
            final(self).spec_blocks() == old(self).spec_blocks(),
            final(self).spec_orphaned(h),
            forall|x: u64| old(self).spec_orphaned(x) ==> final(self).spec_orphaned(x),
            forall|x: u64| final(self).spec_orphaned(x) ==> old(self).spec_orphaned(x) || x == h,
    {
        self.orphaned.push(h);
        proof {
            assert(self.orphaned@[self.orphaned@.len() - 1] == h);
            assert forall|x: u64| old(self).spec_orphaned(x) implies self.spec_orphaned(x) by {
                let i = choose|i: int| 0 <= i < old(self).orphaned@.len() && old(self).orphaned@[i]
                    == x;
                assert(self.orphaned@[i] == x);
            }
        }
    }

    pub fn is_orphaned(&self, h: u64) -> (r: bool)
        ensures
            r == self.spec_orphaned(h),
    {
        let len = self.orphaned.len();
        for i in 0..len
            invariant
                len == self.orphaned@.len(),
                forall|j: int| 0 <= j < i ==> self.orphaned@[j] != h,
        {
            if self.orphaned[i] == h {
                return true;
            }
        }
        false
    }
}

/// A new head is a reorg from the previous one when it does not extend it:
/// same-or-lower number under a different hash.
pub open spec fn spec_is_reorg(prev: SavedBlock, new_head: SavedBlock) -> bool {
    new_head.number <= prev.number && new_head.hash != prev.hash
}

/// Detects a reorg: a connection reporting this head has abandoned the
/// branch of its previous head.
pub fn detect_reorg(prev: &SavedBlock, new_head: &SavedBlock) -> (r: bool)
    ensures
        r == spec_is_reorg(*prev, *new_head),
{
    new_head.number <= prev.number && new_head.hash != prev.hash
}

proof fn lemma_seq_find_block_contains(s: Seq<SavedBlock>, h: u64)
    ensures
        seq_find_block(s, h) is Some <==> exists|i: int| 0 <= i < s.len() && s[i].hash == h,
        seq_find_block(s, h) matches Some(b) ==> exists|i: int|
            0 <= i < s.len() && s[i] == b && b.hash == h,
    decreases s.len(),
{
    if s.len() > 0 && s[0].hash != h {
        lemma_seq_find_block_contains(s.drop_first(), h);
        if seq_find_block(s.drop_first(), h) is Some {
            let i = choose|i: int|
                0 <= i < s.drop_first().len() && s.drop_first()[i].hash == h;
            assert(s[i + 1].hash == h);
        }
        if exists|i: int| 0 <= i < s.len() && s[i].hash == h {
            let i = choose|i: int| 0 <= i < s.len() && s[i].hash == h;
            assert(s.drop_first()[i - 1].hash == h);
        }
    }
}

} // verus!
