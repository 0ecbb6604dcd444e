//! A write-back block cache with clock (second chance) eviction, over an in-memory
//! block store.
use vstd::prelude::*;
use std::collections::HashMap;

verus! {

broadcast use vstd::std_specs::hash::group_hash_axioms;

/// The map key of block `offset` of `inode`: the two numbers side by side.
pub open spec fn block_key(inode: i32, offset: i32) -> u64 {
    ((inode as u32 as u64) << 32u64) | (offset as u32 as u64)
}

/// Distinct blocks have distinct keys.
pub proof fn lemma_block_key_injective(a: i32, b: i32, c: i32, d: i32)
    requires
        block_key(a, b) == block_key(c, d),
    ensures
        a == c,
        b == d,
{
    assert(((a as u32 as u64) << 32u64) | (b as u32 as u64) == ((c as u32 as u64) << 32u64) | (
    d as u32 as u64) ==> a == c && b == d) by (bit_vector);
}

fn key_of(inode: i32, offset: i32) -> (k: u64)
    ensures
        k == block_key(inode, offset),
{
    ((inode as u32 as u64) << 32u64) | (offset as u32 as u64)
}

/// The value the store gives for `p`: what was written there, or nothing.
pub open spec fn value_of(store: Map<(i32, i32), Seq<u8>>, p: (i32, i32)) -> Seq<u8> {
    if store.contains_key(p) {
        store[p]
    } else {
        Seq::empty()
    }
}

/// An in-memory store of blocks, keyed by inode and offset.
pub struct Below {
    mp: HashMap<u64, Vec<u8>>,
}

impl Below {
    /// The blocks held, by inode and offset.
    pub closed spec fn view(&self) -> Map<(i32, i32), Seq<u8>> {
        Map::new(
            |p: (i32, i32)| self.mp@.contains_key(block_key(p.0, p.1)),
            |p: (i32, i32)| self.mp@[block_key(p.0, p.1)]@,
        )
    }

    /// An empty store.
    pub fn new() -> (b: Self)
        ensures
            b.view() == Map::<(i32, i32), Seq<u8>>::empty(),
    {
        let b = Below { mp: HashMap::new() };
        assert(b.view() =~= Map::<(i32, i32), Seq<u8>>::empty());
        b
    }

    /// The block written at `offset` of `inode`, if any.
    pub fn read(&mut self, inode: i32, offset: i32) -> (r: Option<&Vec<u8>>)
        ensures
            *final(self) == *old(self),
            match r {
                Some(v) => old(self).view().contains_key((inode, offset)) && v@ == old(self).view()[(
                inode,
                offset,
                )],
                None => !old(self).view().contains_key((inode, offset)),
            },
    {
        let k = key_of(inode, offset);
        self.mp.get(&k)
    }

    /// Stores `data` at `offset` of `inode`.
    pub fn write(&mut self, inode: i32, offset: i32, data: Vec<u8>)
        ensures
            final(self).view() == old(self).view().insert((inode, offset), data@),
    {
        let ghost data_view = data@;
        let k = key_of(inode, offset);
        self.mp.insert(k, data);
        assert forall|p: (i32, i32)|
            #[trigger] self.mp@.contains_key(block_key(p.0, p.1)) && p != (inode, offset) implies old(
            self,
        ).mp@.contains_key(block_key(p.0, p.1)) by {
            if block_key(p.0, p.1) == k {
                lemma_block_key_injective(p.0, p.1, inode, offset);
            }
        }
        assert forall|p: (i32, i32)| p != (inode, offset) implies #[trigger] self.mp@[block_key(p.0, p.1)]
            == old(self).mp@[block_key(p.0, p.1)] by {
            if block_key(p.0, p.1) == k {
                lemma_block_key_injective(p.0, p.1, inode, offset);
            }
        }
        assert(self.view() =~= old(self).view().insert((inode, offset), data_view));
    }
}

/// What one slot of the cache holds.
pub struct Slot {
    pub inode: i32,
    pub offset: i32,
    pub data: Seq<u8>,
    pub ref_bit: bool,
    pub dirty: bool,
}

/// A cached block.
pub struct CacheBlock {
    pub data: Vec<u8>,
    pub ref_bit: bool,
    pub inode: i32,
    pub offset: i32,
    pub is_dirty: bool,
}

/// The slot a cached block stands for.
pub open spec fn slot_of_block(b: CacheBlock) -> Slot {
    Slot { inode: b.inode, offset: b.offset, data: b.data@, ref_bit: b.ref_bit, dirty: b.is_dirty }
}

/// Position `m` steps after `hand` on a clock face of `cap` slots (`m < cap`).
pub open spec fn pos(hand: int, m: int, cap: int) -> int {
    if hand + m < cap {
        hand + m
    } else {
        hand + m - cap
    }
}

/// How many steps after `hand` slot `i` lies on a clock face of `cap` slots.
pub open spec fn dist(hand: int, i: int, cap: int) -> int {
    if i >= hand {
        i - hand
    } else {
        i - hand + cap
    }
}

/// The number of set reference bits met from `hand`, starting `k` steps on, before the
/// first clear one (all of them when none is clear).
pub open spec fn run_len(bits: Seq<bool>, hand: int, k: int) -> int
    decreases bits.len() - k,
{
    if k >= bits.len() || k < 0 {
        bits.len() as int
    } else if !bits[pos(hand, k, bits.len() as int)] {
        k
    } else {
        run_len(bits, hand, k + 1)
    }
}

/// The slot the clock hand stops at: the first slot from `hand` whose reference bit is
/// clear, or `hand` itself when every bit is set.
pub open spec fn scan_victim(bits: Seq<bool>, hand: int) -> int {
    pos(hand, run_len(bits, hand, 0) % (bits.len() as int), bits.len() as int)
}

/// The reference bits once the hand has swept to `scan_victim`: those it passed are
/// cleared.
pub open spec fn scan_bits(bits: Seq<bool>, hand: int) -> Seq<bool> {
    Seq::new(
        bits.len(),
        |i: int| bits[i] && dist(hand, i, bits.len() as int) >= run_len(bits, hand, 0),
    )
}

proof fn lemma_run_len(bits: Seq<bool>, hand: int, k: int)
    requires
        0 <= hand < bits.len(),
        0 <= k <= bits.len(),
    ensures
        k <= run_len(bits, hand, k) <= bits.len(),
        forall|m: int|
            k <= m < run_len(bits, hand, k) ==> #[trigger] bits[pos(hand, m, bits.len() as int)],
        run_len(bits, hand, k) < bits.len() ==> !bits[pos(hand, run_len(bits, hand, k), bits.len() as int)],
    decreases bits.len() - k,
{
    if k < bits.len() && bits[pos(hand, k, bits.len() as int)] {
        lemma_run_len(bits, hand, k + 1);
    }
}

/// A write-back cache of at most `capacity` blocks.
pub struct ClockCache {
    capacity: usize,
    len: usize,
    arr: Vec<Option<CacheBlock>>,
    clock_hand: usize,
    lookup: HashMap<u64, usize>,
}

impl ClockCache {
    /// Number of slots.
    pub closed spec fn cap(&self) -> int {
        self.capacity as int
    }

    /// The slot the clock hand points at.
    pub closed spec fn hand(&self) -> int {
        self.clock_hand as int
    }

    /// The filled slots, in order.
    pub closed spec fn slots(&self) -> Seq<Slot> {
        Seq::new(self.len as nat, |i: int| slot_of_block(self.arr@[i].unwrap()))
    }

    /// The reference bits of all slots (clear for an empty slot).
    pub open spec fn ref_bits(&self) -> Seq<bool> {
        Seq::new(
            self.cap() as nat,
            |i: int| i < self.slots().len() && self.slots()[i].ref_bit,
        )
    }

    /// Whether block `p` is in the cache.
    pub open spec fn cached(&self, p: (i32, i32)) -> bool {
        exists|i: int|
            0 <= i < self.slots().len() && (#[trigger] self.slots()[i]).inode == p.0
                && self.slots()[i].offset == p.1
    }

    /// The slot holding block `p`, when cached.
    pub open spec fn slot_index(&self, p: (i32, i32)) -> int {
        choose|i: int|
            0 <= i < self.slots().len() && (#[trigger] self.slots()[i]).inode == p.0
                && self.slots()[i].offset == p.1
    }

    /// What reading `p` through the cache over `store` gives.
    pub open spec fn content(&self, store: Map<(i32, i32), Seq<u8>>, p: (i32, i32)) -> Seq<u8> {
        if self.cached(p) {
            self.slots()[self.slot_index(p)].data
        } else {
            value_of(store, p)
        }
    }

    /// Clean slots hold what the store holds.
    pub open spec fn coherent(&self, store: Map<(i32, i32), Seq<u8>>) -> bool {
        forall|i: int|
            0 <= i < self.slots().len() && !(#[trigger] self.slots()[i]).dirty ==> self.slots()[i].data
                == value_of(store, (self.slots()[i].inode, self.slots()[i].offset))
    }

    /// Structural invariant: the filled slots come first, the hand is on the face, and
    /// the lookup table maps exactly the cached blocks to their slots.
    pub closed spec fn wf(&self) -> bool {
        &&& self.capacity > 0
        &&& self.arr@.len() == self.capacity
        &&& self.len <= self.capacity
        &&& self.clock_hand < self.capacity
        &&& forall|i: int| 0 <= i < self.len ==> (#[trigger] self.arr@[i]) is Some
        &&& forall|i: int| self.len <= i < self.capacity ==> (#[trigger] self.arr@[i]) is None
        &&& forall|i: int|
            0 <= i < self.len ==> #[trigger] self.lookup@.contains_key(
                block_key(self.arr@[i].unwrap().inode, self.arr@[i].unwrap().offset),
            ) && self.lookup@[block_key(self.arr@[i].unwrap().inode, self.arr@[i].unwrap().offset)]
                == i
        &&& forall|k: u64|
            #[trigger] self.lookup@.contains_key(k) ==> self.lookup@[k] < self.len && block_key(
                self.arr@[self.lookup@[k] as int].unwrap().inode,
                self.arr@[self.lookup@[k] as int].unwrap().offset,
            ) == k
    }

    /// Facts the invariant gives about the slots.
    pub proof fn lemma_wf(&self)
        requires
            self.wf(),
        ensures
            self.cap() > 0,
            self.slots().len() <= self.cap(),
            0 <= self.hand() < self.cap(),
            forall|i: int, j: int|
                0 <= i < self.slots().len() && 0 <= j < self.slots().len() && #[trigger] self.slots()[i].inode
                    == #[trigger] self.slots()[j].inode && self.slots()[i].offset == self.slots()[j].offset
                    ==> i == j,
    {
        assert forall|i: int, j: int|
            0 <= i < self.slots().len() && 0 <= j < self.slots().len() && #[trigger] self.slots()[i].inode
                == #[trigger] self.slots()[j].inode && self.slots()[i].offset == self.slots()[j].offset
                implies i == j by {
            assert(self.arr@[i] is Some);
            assert(self.arr@[j] is Some);
            assert(self.lookup@.contains_key(
                block_key(self.arr@[i].unwrap().inode, self.arr@[i].unwrap().offset),
            ));
            assert(self.lookup@.contains_key(
                block_key(self.arr@[j].unwrap().inode, self.arr@[j].unwrap().offset),
            ));
        }
    }

    /// An empty cache of `capacity` slots.
    pub fn new(capacity: usize) -> (c: Self)
        ensures
            capacity > 0 ==> c.wf(),
            c.cap() == capacity,
            c.slots() == Seq::<Slot>::empty(),
            c.hand() == 0,
    {
        let mut arr: Vec<Option<CacheBlock>> = Vec::new();
        let mut i: usize = 0;
        while i < capacity
            invariant
                i <= capacity,
                arr@.len() == i,
                forall|k: int| 0 <= k < i ==> (#[trigger] arr@[k]) is None,
            decreases capacity - i,
        {
            arr.push(None);
            i = i + 1;
        }
        let c = ClockCache { capacity, len: 0, arr, clock_hand: 0, lookup: HashMap::new() };
        assert(c.slots() =~= Seq::<Slot>::empty());
        c
    }
}

impl ClockCache {
    /// Sets the reference bit of filled slot `idx`.
    fn set_ref_bit(&mut self, idx: usize, bit: bool)
        requires
            old(self).wf(),
            idx < old(self).slots().len(),
        ensures
            final(self).wf(),
            final(self).cap() == old(self).cap(),
            final(self).hand() == old(self).hand(),
            final(self).lookup@ == old(self).lookup@,
            final(self).len == old(self).len,
            final(self).slots() == old(self).slots().update(
                idx as int,
                Slot { ref_bit: bit, ..old(self).slots()[idx as int] },
            ),
    {
        let slot = self.arr[idx].take();
        match slot {
            Some(mut b) => {
                b.ref_bit = bit;
                self.arr.set(idx, Some(b));
            },
            None => {},
        }
        assert(self.slots() =~= old(self).slots().update(
            idx as int,
            Slot { ref_bit: bit, ..old(self).slots()[idx as int] },
        ));
    }

    /// Sweeps the hand past the slots whose reference bit is set, clearing those bits,
    /// and stops at the first slot whose bit is clear (every slot being filled).
    fn clock_find(&mut self) -> (r: usize)
        requires
            old(self).wf(),
            old(self).slots().len() == old(self).cap(),
        ensures
            final(self).wf(),
            final(self).cap() == old(self).cap(),
            r == scan_victim(old(self).ref_bits(), old(self).hand()),
            final(self).hand() == r,
            final(self).slots().len() == old(self).slots().len(),
            forall|i: int|
                0 <= i < old(self).slots().len() ==> #[trigger] final(self).slots()[i] == (Slot {
                    ref_bit: scan_bits(old(self).ref_bits(), old(self).hand())[i],
                    ..old(self).slots()[i]
                }),
    {
        let ghost bits0 = self.ref_bits();
        let ghost h0 = self.hand();
        let ghost s0 = self.slots();
        let ghost cap = self.cap();
        let ghost mut s: int = 0;
        proof {
            self.lemma_wf();
            lemma_run_len(bits0, h0, 0);
            assert(s0 =~= Seq::new(
                s0.len(),
                |i: int| Slot { ref_bit: bits0[i] && dist(h0, i, cap) >= 0, ..s0[i] },
            ));
        }
        while self.arr[self.clock_hand].as_ref().unwrap().ref_bit
            invariant
                self.wf(),
                self.cap() == cap,
                cap == old(self).cap(),
                self.slots().len() == cap,
                bits0.len() == cap,
                0 <= h0 < cap,
                bits0 == old(self).ref_bits(),
                s0 == old(self).slots(),
                h0 == old(self).hand(),
                0 <= s <= run_len(bits0, h0, 0),
                run_len(bits0, h0, 0) <= cap,
                forall|m: int| 0 <= m < run_len(bits0, h0, 0) ==> #[trigger] bits0[pos(h0, m, cap)],
                run_len(bits0, h0, 0) < cap ==> !bits0[pos(h0, run_len(bits0, h0, 0), cap)],
                self.hand() == pos(h0, s % cap, cap),
                forall|i: int|
                    0 <= i < cap ==> #[trigger] self.slots()[i] == (Slot {
                        ref_bit: bits0[i] && dist(h0, i, cap) >= s,
                        ..s0[i]
                    }),
            decreases cap - s,
        {
            proof {
                self.lemma_wf();
                if s == cap {
                    assert(s % cap == 0) by (nonlinear_arith)
                        requires
                            s == cap,
                            cap > 0,
                    ;
                    assert(self.slots()[h0].ref_bit == (bits0[h0] && dist(h0, h0, cap) >= s));
                    assert(false);
                }
                assert(s % cap == s) by (nonlinear_arith)
                    requires
                        0 <= s < cap,
                ;
                let cur = pos(h0, s, cap);
                assert(self.slots()[cur].ref_bit == (bits0[cur] && dist(h0, cur, cap) >= s));
                assert(dist(h0, cur, cap) == s);
                assert(s < run_len(bits0, h0, 0));
            }
            let h = self.clock_hand;
            self.set_ref_bit(h, false);
            self.clock_hand = (self.clock_hand + 1) % self.capacity;
            proof {
                let ns = s + 1;
                let hi = h as int;
                assert((hi + 1) % cap == if hi + 1 < cap { hi + 1 } else { 0 }) by (nonlinear_arith)
                    requires
                        0 <= hi < cap,
                ;
                if ns < cap {
                    assert(ns % cap == ns) by (nonlinear_arith)
                        requires
                            0 <= ns < cap,
                    ;
                } else {
                    assert(ns % cap == 0) by (nonlinear_arith)
                        requires
                            ns == cap,
                            cap > 0,
                    ;
                }
                assert forall|i: int| 0 <= i < cap implies #[trigger] self.slots()[i] == (Slot {
                    ref_bit: bits0[i] && dist(h0, i, cap) >= ns,
                    ..s0[i]
                }) by {
                    if i != h {
                        assert(dist(h0, i, cap) != s);
                    }
                }
                s = ns;
            }
        }
        proof {
            self.lemma_wf();
            let cur = self.hand();
            if s < cap {
                assert(s % cap == s) by (nonlinear_arith)
                    requires
                        0 <= s < cap,
                ;
                assert(self.slots()[cur].ref_bit == (bits0[cur] && dist(h0, cur, cap) >= s));
                assert(dist(h0, cur, cap) == s);
                if s < run_len(bits0, h0, 0) {
                    assert(bits0[pos(h0, s, cap)]);
                }
            }
            assert(s == run_len(bits0, h0, 0));
        }
        self.clock_hand
    }
}

/// A copy of `v`.
fn copy_bytes(v: &Vec<u8>) -> (r: Vec<u8>)
    ensures
        r@ == v@,
{
    let mut out: Vec<u8> = Vec::new();
    let mut i: usize = 0;
    while i < v.len()
        invariant
            i <= v@.len(),
            out@ == v@.subrange(0, i as int),
        decreases v@.len() - i,
    {
        out.push(v[i]);
        i = i + 1;
        assert(out@ =~= v@.subrange(0, i as int));
    }
    assert(out@ =~= v@);
    out
}

impl ClockCache {
    /// A block is cached exactly when the lookup table holds its key, and then the
    /// table gives its slot.
    proof fn lemma_lookup(&self, p: (i32, i32))
        requires
            self.wf(),
        ensures
            self.cached(p) <==> self.lookup@.contains_key(block_key(p.0, p.1)),
            self.cached(p) ==> self.slot_index(p) == self.lookup@[block_key(p.0, p.1)] as int,
            self.cached(p) ==> 0 <= self.slot_index(p) < self.slots().len()
                && self.slots()[self.slot_index(p)].inode == p.0 && self.slots()[self.slot_index(p)].offset
                == p.1,
    {
        self.lemma_wf();
        let k = block_key(p.0, p.1);
        if self.lookup@.contains_key(k) {
            let j = self.lookup@[k] as int;
            assert(self.arr@[j] is Some);
            lemma_block_key_injective(self.arr@[j].unwrap().inode, self.arr@[j].unwrap().offset, p.0, p.1);
            assert(self.slots()[j].inode == p.0 && self.slots()[j].offset == p.1);
        }
        if self.cached(p) {
            let i = self.slot_index(p);
            assert(self.arr@[i] is Some);
            assert(self.lookup@.contains_key(
                block_key(self.arr@[i].unwrap().inode, self.arr@[i].unwrap().offset),
            ));
            let j = self.lookup@[k] as int;
            assert(self.arr@[j] is Some);
            lemma_block_key_injective(self.arr@[j].unwrap().inode, self.arr@[j].unwrap().offset, p.0, p.1);
        }
    }

    /// The block at `offset` of `inode` in the store, as a clean cached block.
    fn read_below(&mut self, below: &mut Below, inode: i32, offset: i32) -> (b: CacheBlock)
        ensures
            *final(self) == *old(self),
            *final(below) == *old(below),
            b.data@ == value_of(old(below).view(), (inode, offset)),
            b.ref_bit,
            b.inode == inode,
            b.offset == offset,
            !b.is_dirty,
    {
        let data = match below.read(inode, offset) {
            Some(v) => copy_bytes(v),
            None => Vec::new(),
        };
        CacheBlock { data, ref_bit: true, inode, offset, is_dirty: false }
    }

    /// Stores `data` at `offset` of `inode` in the store.
    fn write_below(&mut self, below: &mut Below, inode: i32, offset: i32, data: Vec<u8>)
        ensures
            *final(self) == *old(self),
            final(below).view() == old(below).view().insert((inode, offset), data@),
    {
        below.write(inode, offset, data);
    }
}

/// `after` is `before` with `slot` put into the next empty slot, or else into the slot
/// the clock hand stops at (whose block is written back to the store first when dirty),
/// the hand left on it.
pub open spec fn installs(
    before: ClockCache,
    after: ClockCache,
    store: Map<(i32, i32), Seq<u8>>,
    store_after: Map<(i32, i32), Seq<u8>>,
    slot: Slot,
) -> bool {
    if before.slots().len() < before.cap() {
        &&& after.hand() == before.slots().len()
        &&& store_after == store
        &&& after.slots() == before.slots().push(slot)
    } else {
        let v = scan_victim(before.ref_bits(), before.hand());
        let victim = before.slots()[v];
        &&& after.hand() == v
        &&& store_after == (if victim.dirty {
            store.insert((victim.inode, victim.offset), victim.data)
        } else {
            store
        })
        &&& after.slots() == Seq::new(
            before.slots().len(),
            |i: int|
                if i == v {
                    slot
                } else {
                    Slot { ref_bit: scan_bits(before.ref_bits(), before.hand())[i], ..before.slots()[i] }
                },
        )
    }
}

impl ClockCache {
    /// Puts a block that is not cached into the cache: into the next empty slot, or
    /// else into the slot the clock hand stops at, whose block is written back to the
    /// store first when dirty.
    fn place(&mut self, below: &mut Below, block: CacheBlock) -> (idx: usize)
        requires
            old(self).wf(),
            old(self).coherent(old(below).view()),
            !old(self).cached((block.inode, block.offset)),
            !block.is_dirty ==> block.data@ == value_of(old(below).view(), (block.inode, block.offset)),
        ensures
            final(self).wf(),
            final(self).cap() == old(self).cap(),
            final(self).hand() == idx,
            final(self).coherent(final(below).view()),
            forall|q: (i32, i32)|
                #[trigger] final(self).content(final(below).view(), q) == if q == (
                    block.inode,
                    block.offset,
                ) {
                    block.data@
                } else {
                    old(self).content(old(below).view(), q)
                },
            installs(*old(self), *final(self), old(below).view(), final(below).view(), slot_of_block(block)),
    {
        let ghost p = (block.inode, block.offset);
        let ghost nslot = slot_of_block(block);
        let k = key_of(block.inode, block.offset);
        proof {
            old(self).lemma_lookup(p);
            old(self).lemma_wf();
        }
        if self.len < self.capacity {
            let idx = self.len;
            self.arr.set(idx, Some(block));
            self.lookup.insert(k, idx);
            self.clock_hand = idx;
            self.len = self.len + 1;
            proof {
                assert(self.slots() =~= old(self).slots().push(nslot));
                assert forall|i: int| 0 <= i < self.len implies #[trigger] self.lookup@.contains_key(
                    block_key(self.arr@[i].unwrap().inode, self.arr@[i].unwrap().offset),
                ) && self.lookup@[block_key(self.arr@[i].unwrap().inode, self.arr@[i].unwrap().offset)]
                    == i by {
                    if i < idx {
                        assert(old(self).lookup@.contains_key(
                            block_key(old(self).arr@[i].unwrap().inode, old(self).arr@[i].unwrap().offset),
                        ));
                    }
                }
                assert forall|kk: u64| #[trigger] self.lookup@.contains_key(kk) implies self.lookup@[kk]
                    < self.len && block_key(
                    self.arr@[self.lookup@[kk] as int].unwrap().inode,
                    self.arr@[self.lookup@[kk] as int].unwrap().offset,
                ) == kk by {
                    if kk != k {
                        assert(old(self).lookup@.contains_key(kk));
                    }
                }
                assert(self.wf());
                self.lemma_lookup(p);
                assert forall|q: (i32, i32)| #[trigger] self.content(below.view(), q) == if q == p {
                    nslot.data
                } else {
                    old(self).content(old(below).view(), q)
                } by {
                    old(self).lemma_lookup(q);
                    self.lemma_lookup(q);
                    if q != p && block_key(q.0, q.1) == k {
                        lemma_block_key_injective(q.0, q.1, p.0, p.1);
                    }
                }
                assert forall|i: int|
                    0 <= i < self.slots().len() && !(#[trigger] self.slots()[i]).dirty implies self.slots()[i].data
                    == value_of(below.view(), (self.slots()[i].inode, self.slots()[i].offset)) by {
                    if i < idx {
                        assert(self.slots()[i] == old(self).slots()[i]);
                    }
                }
            }
            idx
        } else {
            let idx = self.clock_find();
            let ghost mid = *self;
            let ghost v = idx as int;
            let ghost victim = mid.slots()[v];
            proof {
                mid.lemma_wf();
                assert(victim.inode == old(self).slots()[v].inode);
                assert(mid.arr@[v] is Some);
            }
            let evicted = self.arr[idx].take();
            let ghost below_before = below.view();
            let (vi, vo) = match evicted {
                Some(b) => {
                    let vi = b.inode;
                    let vo = b.offset;
                    if b.is_dirty {
                        self.write_below(below, b.inode, b.offset, b.data);
                    }
                    (vi, vo)
                },
                None => (0, 0),
            };
            let ghost vp = (vi, vo);
            self.arr.set(idx, Some(block));
            self.lookup.insert(k, idx);
            self.clock_hand = idx;
            let vk = key_of(vi, vo);
            self.lookup.remove(&vk);
            proof {
                let old_s = old(self).slots();
                let bits = scan_bits(old(self).ref_bits(), old(self).hand());
                assert(vp == (victim.inode, victim.offset));
                assert(mid.lookup@.contains_key(
                    block_key(mid.arr@[v].unwrap().inode, mid.arr@[v].unwrap().offset),
                ));
                assert(vk != k);
                assert forall|i: int| 0 <= i < old_s.len() && i != v implies #[trigger] self.slots()[i]
                    == (Slot { ref_bit: bits[i], ..old_s[i] }) by {
                    assert(mid.slots()[i] == (Slot { ref_bit: bits[i], ..old_s[i] }));
                    assert(mid.arr@[i] == self.arr@[i]);
                }
                assert(self.slots() =~= Seq::new(
                    old_s.len(),
                    |i: int| if i == v { nslot } else { Slot { ref_bit: bits[i], ..old_s[i] } },
                ));
                assert forall|i: int| 0 <= i < self.len implies #[trigger] self.lookup@.contains_key(
                    block_key(self.arr@[i].unwrap().inode, self.arr@[i].unwrap().offset),
                ) && self.lookup@[block_key(self.arr@[i].unwrap().inode, self.arr@[i].unwrap().offset)]
                    == i by {
                    if i != v {
                        assert(mid.lookup@.contains_key(
                            block_key(mid.arr@[i].unwrap().inode, mid.arr@[i].unwrap().offset),
                        ));
                        assert(mid.arr@[i] == self.arr@[i]);
                        assert(mid.slots()[i] == (Slot { ref_bit: bits[i], ..old_s[i] }));
                        assert(old(self).arr@[i] is Some);
                        assert(old(self).lookup@.contains_key(
                            block_key(old(self).arr@[i].unwrap().inode, old(self).arr@[i].unwrap().offset),
                        ));
                        assert(block_key(mid.arr@[i].unwrap().inode, mid.arr@[i].unwrap().offset) != k);
                        assert(block_key(mid.arr@[i].unwrap().inode, mid.arr@[i].unwrap().offset) != vk);
                    }
                }
                assert forall|kk: u64| #[trigger] self.lookup@.contains_key(kk) implies self.lookup@[kk]
                    < self.len && block_key(
                    self.arr@[self.lookup@[kk] as int].unwrap().inode,
                    self.arr@[self.lookup@[kk] as int].unwrap().offset,
                ) == kk by {
                    if kk != k {
                        assert(mid.lookup@.contains_key(kk));
                        assert(kk != vk);
                        assert(mid.lookup@[kk] != v);
                    }
                }
                assert(self.wf());
                self.lemma_lookup(p);
                old(self).lemma_lookup(vp);
                assert(old_s[v].inode == vp.0 && old_s[v].offset == vp.1);
                assert(old(self).cached(vp));
                assert forall|q: (i32, i32)| #[trigger] self.content(below.view(), q) == if q == p {
                    nslot.data
                } else {
                    old(self).content(old(below).view(), q)
                } by {
                    old(self).lemma_lookup(q);
                    self.lemma_lookup(q);
                    mid.lemma_lookup(q);
                    if q != p && block_key(q.0, q.1) == k {
                        lemma_block_key_injective(q.0, q.1, p.0, p.1);
                    }
                    if old(self).cached(q) {
                        let oi = old(self).slot_index(q);
                        assert(mid.slots()[oi] == (Slot { ref_bit: bits[oi], ..old_s[oi] }));
                        assert(mid.cached(q));
                        assert(mid.slot_index(q) == oi);
                    }
                    if mid.cached(q) {
                        let mi = mid.slot_index(q);
                        assert(mid.slots()[mi] == (Slot { ref_bit: bits[mi], ..old_s[mi] }));
                        assert(old(self).cached(q));
                    }
                    if q != vp && block_key(q.0, q.1) == vk {
                        lemma_block_key_injective(q.0, q.1, vp.0, vp.1);
                    }
                    if q == vp {
                        assert(old(self).slot_index(q) == v);
                        if !victim.dirty {
                            assert(!old_s[v].dirty);
                        }
                    }
                }
                assert forall|i: int|
                    0 <= i < self.slots().len() && !(#[trigger] self.slots()[i]).dirty implies self.slots()[i].data
                    == value_of(below.view(), (self.slots()[i].inode, self.slots()[i].offset)) by {
                    if i != v {
                        assert(!old_s[i].dirty);
                        assert((old_s[i].inode, old_s[i].offset) != vp);
                    }
                }
            }
            idx
        }
    }
}

impl ClockCache {
    /// Reads block `offset` of `inode` through the cache: a cached block gets its
    /// reference bit set; a missing one is fetched from the store (empty when the store
    /// has none) and installed as a clean block.
    pub fn read(&mut self, below: &mut Below, inode: i32, offset: i32) -> (r: Vec<u8>)
        requires
            old(self).wf(),
            old(self).coherent(old(below).view()),
        ensures
            final(self).wf(),
            final(self).cap() == old(self).cap(),
            final(self).coherent(final(below).view()),
            r@ == old(self).content(old(below).view(), (inode, offset)),
            forall|q: (i32, i32)|
                #[trigger] final(self).content(final(below).view(), q) == old(self).content(
                    old(below).view(),
                    q,
                ),
            if old(self).cached((inode, offset)) {
                let i = old(self).slot_index((inode, offset));
                &&& *final(below) == *old(below)
                &&& final(self).hand() == i
                &&& final(self).slots() == old(self).slots().update(
                    i,
                    Slot { ref_bit: true, ..old(self).slots()[i] },
                )
            } else {
                installs(
                    *old(self),
                    *final(self),
                    old(below).view(),
                    final(below).view(),
                    Slot {
                        inode,
                        offset,
                        data: value_of(old(below).view(), (inode, offset)),
                        ref_bit: true,
                        dirty: false,
                    },
                )
            },
    {
        let ghost p = (inode, offset);
        let k = key_of(inode, offset);
        proof {
            self.lemma_lookup(p);
        }
        let found: Option<usize> = match self.lookup.get(&k) {
            Some(i) => Some(*i),
            None => None,
        };
        match found {
            Some(idx) => {
                self.set_ref_bit(idx, true);
                self.clock_hand = idx;
                proof {
                    assert forall|q: (i32, i32)| #[trigger] self.content(below.view(), q) == old(self).content(
                        old(below).view(),
                        q,
                    ) by {
                        old(self).lemma_lookup(q);
                        self.lemma_lookup(q);
                    }
                    assert forall|i: int|
                        0 <= i < self.slots().len() && !(#[trigger] self.slots()[i]).dirty implies self.slots()[i].data
                        == value_of(below.view(), (self.slots()[i].inode, self.slots()[i].offset)) by {
                        assert(!old(self).slots()[i].dirty);
                    }
                }
                let entry = self.arr[idx].as_ref().unwrap();
                proof {
                    assert(old(self).lookup@.contains_key(k));
                    assert(old(self).cached(p));
                    assert(idx == old(self).slot_index(p));
                    assert(old(self).content(old(below).view(), p) == old(self).slots()[idx as int].data);
                    assert(self.slots()[idx as int].data == entry.data@);
                    assert(self.slots()[idx as int].data == old(self).slots()[idx as int].data);
                }
                let r = copy_bytes(&entry.data);
                assert(r@ == old(self).content(old(below).view(), p));
                r
            },
            None => {
                let block = self.read_below(below, inode, offset);
                let ghost bd = block.data@;
                let idx = self.place(below, block);
                proof {
                    self.lemma_lookup(p);
                    self.lemma_wf();
                    old(self).lemma_wf();
                    assert(self.slots()[idx as int].inode == inode && self.slots()[idx as int].offset == offset);
                    assert(self.cached(p));
                    assert(self.slot_index(p) == idx);
                    assert(self.content(below.view(), p) == bd);
                }
                let entry = self.arr[idx].as_ref().unwrap();
                let r = copy_bytes(&entry.data);
                assert(r@ == old(self).content(old(below).view(), p));
                r
            },
        }
    }

    /// Writes `data` as block `offset` of `inode` into the cache, as a dirty block:
    /// over the cached copy, or into a slot as `read` installs one.
    pub fn write(&mut self, below: &mut Below, inode: i32, offset: i32, data: Vec<u8>)
        requires
            old(self).wf(),
            old(self).coherent(old(below).view()),
        ensures
            final(self).wf(),
            final(self).cap() == old(self).cap(),
            final(self).coherent(final(below).view()),
            forall|q: (i32, i32)|
                #[trigger] final(self).content(final(below).view(), q) == if q == (inode, offset) {
                    data@
                } else {
                    old(self).content(old(below).view(), q)
                },
            ({
                let s = Slot { inode, offset, data: data@, ref_bit: true, dirty: true };
                if old(self).cached((inode, offset)) {
                    let i = old(self).slot_index((inode, offset));
                    &&& *final(below) == *old(below)
                    &&& final(self).hand() == i
                    &&& final(self).slots() == old(self).slots().update(i, s)
                } else {
                    installs(*old(self), *final(self), old(below).view(), final(below).view(), s)
                }
            }),
    {
        let ghost p = (inode, offset);
        let ghost dv = data@;
        let k = key_of(inode, offset);
        proof {
            self.lemma_lookup(p);
        }
        let found: Option<usize> = match self.lookup.get(&k) {
            Some(i) => Some(*i),
            None => None,
        };
        match found {
            Some(block_idx) => {
                self.arr.set(
                    block_idx,
                    Some(CacheBlock { data, ref_bit: true, inode, offset, is_dirty: true }),
                );
                self.clock_hand = block_idx;
                proof {
                    let s = Slot { inode, offset, data: dv, ref_bit: true, dirty: true };
                    assert(self.slots() =~= old(self).slots().update(block_idx as int, s));
                    assert forall|i: int| 0 <= i < self.len implies #[trigger] self.lookup@.contains_key(
                        block_key(self.arr@[i].unwrap().inode, self.arr@[i].unwrap().offset),
                    ) && self.lookup@[block_key(self.arr@[i].unwrap().inode, self.arr@[i].unwrap().offset)]
                        == i by {
                        assert(old(self).arr@[i] is Some);
                        assert(old(self).lookup@.contains_key(
                            block_key(old(self).arr@[i].unwrap().inode, old(self).arr@[i].unwrap().offset),
                        ));
                    }
                    assert(self.wf());
                    assert forall|q: (i32, i32)| #[trigger] self.content(below.view(), q) == if q == p {
                        dv
                    } else {
                        old(self).content(old(below).view(), q)
                    } by {
                        old(self).lemma_lookup(q);
                        self.lemma_lookup(q);
                    }
                    assert forall|i: int|
                        0 <= i < self.slots().len() && !(#[trigger] self.slots()[i]).dirty implies self.slots()[i].data
                        == value_of(below.view(), (self.slots()[i].inode, self.slots()[i].offset)) by {
                        assert(!old(self).slots()[i].dirty);
                    }
                }
            },
            None => {
                let block = CacheBlock { data, ref_bit: true, inode, offset, is_dirty: true };
                let _ = self.place(below, block);
            },
        }
    }
}

/// The store after the first `n` slots are written back in order: a dirty slot is
/// written when `inode` is `-1` or names its inode.
pub open spec fn flushed(store: Map<(i32, i32), Seq<u8>>, slots: Seq<Slot>, inode: i32, n: int) -> Map<
    (i32, i32),
    Seq<u8>,
>
    decreases n,
{
    if n <= 0 {
        store
    } else {
        let before = flushed(store, slots, inode, n - 1);
        let s = slots[n - 1];
        if s.dirty && (inode == -1 || s.inode == inode) {
            before.insert((s.inode, s.offset), s.data)
        } else {
            before
        }
    }
}

/// Whether `synch` for `inode` writes slot `s` back: it is dirty, and `inode` is `-1`
/// or names its inode.
pub open spec fn selected(s: Slot, inode: i32) -> bool {
    s.dirty && (inode == -1 || s.inode == inode)
}

/// The slots once those selected for `inode` are written back: they are clean, and
/// nothing else changes.
pub open spec fn synched(slots: Seq<Slot>, inode: i32) -> Seq<Slot> {
    Seq::new(slots.len(), |i: int| Slot { dirty: slots[i].dirty && !selected(slots[i], inode), ..slots[i] })
}

impl ClockCache {
    /// Writes back the dirty blocks (of every inode when `inode` is `-1`, else of
    /// `inode` only) in slot order, and marks them clean. Every block stays cached with
    /// the same data, so reads through the cache give what they gave before.
    pub fn synch(&mut self, below: &mut Below, inode: i32)
        requires
            old(self).wf(),
        ensures
            final(self).wf(),
            final(self).cap() == old(self).cap(),
            final(self).hand() == old(self).hand(),
            final(self).slots() == synched(old(self).slots(), inode),
            final(below).view() == flushed(
                old(below).view(),
                old(self).slots(),
                inode,
                old(self).slots().len() as int,
            ),
            old(self).coherent(old(below).view()) ==> final(self).coherent(final(below).view()),
            old(self).coherent(old(below).view()) ==> forall|q: (i32, i32)|
                #[trigger] final(self).content(final(below).view(), q) == old(self).content(
                    old(below).view(),
                    q,
                ),
    {
        let ghost s0 = self.slots();
        let ghost b0 = below.view();
        let mut block_idx: usize = 0;
        while block_idx < self.len
            invariant
                self.capacity == old(self).capacity,
                self.clock_hand == old(self).clock_hand,
                self.len == old(self).len,
                self.lookup@ == old(self).lookup@,
                self.len <= self.capacity,
                self.arr@.len() == self.capacity,
                s0 == old(self).slots(),
                old(self).wf(),
                block_idx <= self.len,
                forall|j: int|
                    0 <= j < block_idx ==> (#[trigger] self.arr@[j]) is Some && slot_of_block(
                        self.arr@[j].unwrap(),
                    ) == synched(s0, inode)[j],
                forall|j: int| block_idx <= j < self.capacity ==> #[trigger] self.arr@[j] == old(self).arr@[j],
                below.view() == flushed(b0, s0, inode, block_idx as int),
            decreases self.len - block_idx,
        {
            let ghost j = block_idx as int;
            assert(slot_of_block(old(self).arr@[j].unwrap()) == s0[j]);
            let taken = self.arr[block_idx].take();
            if let Some(mut block) = taken {
                if block.is_dirty && (inode == -1 || block.inode == inode) {
                    let data = copy_bytes(&block.data);
                    self.write_below(below, block.inode, block.offset, data);
                    block.is_dirty = false;
                }
                self.arr.set(block_idx, Some(block));
            }
            block_idx = block_idx + 1;
        }
        proof {
            assert forall|i: int| 0 <= i < self.len implies #[trigger] self.arr@[i] is Some by {}
            assert forall|i: int| self.len <= i < self.capacity implies #[trigger] self.arr@[i] is None by {
                assert(old(self).arr@[i] is None);
            }
            assert forall|i: int|
                0 <= i < self.len implies #[trigger] self.lookup@.contains_key(
                    block_key(self.arr@[i].unwrap().inode, self.arr@[i].unwrap().offset),
                ) && self.lookup@[block_key(self.arr@[i].unwrap().inode, self.arr@[i].unwrap().offset)]
                    == i by {
                assert(slot_of_block(self.arr@[i].unwrap()) == synched(s0, inode)[i]);
                assert(old(self).arr@[i] is Some);
                assert(old(self).lookup@.contains_key(
                    block_key(old(self).arr@[i].unwrap().inode, old(self).arr@[i].unwrap().offset),
                ));
            }
            assert forall|k: u64|
                #[trigger] self.lookup@.contains_key(k) implies self.lookup@[k] < self.len && block_key(
                    self.arr@[self.lookup@[k] as int].unwrap().inode,
                    self.arr@[self.lookup@[k] as int].unwrap().offset,
                ) == k by {
                assert(old(self).lookup@.contains_key(k));
                let i = self.lookup@[k] as int;
                assert(slot_of_block(self.arr@[i].unwrap()) == synched(s0, inode)[i]);
            }
            assert(self.slots() =~= synched(s0, inode));
            if old(self).coherent(b0) {
                assert forall|q: (i32, i32)| #[trigger] self.content(below.view(), q) == old(self).content(b0, q) by {
                    law_synch_keeps_content(*old(self), b0, *self, inode, q);
                }
                law_synch_keeps_content(*old(self), b0, *self, inode, (0, 0));
            }
        }
    }

    /// Block sizes come from below; the store has no notion of size.
    pub fn below_get_size(&mut self, inode: i32) -> (r: usize)
        ensures
            r == 0,
            *final(self) == *old(self),
    {
        0
    }

    /// The size of `inode`, as the layer below reports it.
    pub fn get_size(&mut self, inode: i32) -> (r: usize)
        ensures
            r == 0,
            *final(self) == *old(self),
    {
        self.below_get_size(inode)
    }

    /// Sizes are kept below; the store has no notion of size.
    pub fn below_set_size(&mut self, inode: i32, size: usize)
        ensures
            *final(self) == *old(self),
    {
    }

    /// Sets the size of `inode` in the layer below.
    pub fn set_size(&mut self, inode: i32, size: usize)
        ensures
            *final(self) == *old(self),
    {
        self.below_set_size(inode, size);
    }
}

proof fn lemma_flushed_untouched(
    store: Map<(i32, i32), Seq<u8>>,
    slots: Seq<Slot>,
    inode: i32,
    n: int,
    p: (i32, i32),
)
    requires
        0 <= n <= slots.len(),
        forall|i: int| 0 <= i < n ==> (#[trigger] slots[i]).inode != p.0 || slots[i].offset != p.1,
    ensures
        value_of(flushed(store, slots, inode, n), p) == value_of(store, p),
    decreases n,
{
    if n > 0 {
        lemma_flushed_untouched(store, slots, inode, n - 1, p);
        assert(slots[n - 1].inode != p.0 || slots[n - 1].offset != p.1);
    }
}

proof fn lemma_flushed_at(
    store: Map<(i32, i32), Seq<u8>>,
    slots: Seq<Slot>,
    inode: i32,
    n: int,
    k: int,
)
    requires
        0 <= k < n <= slots.len(),
        forall|i: int|
            0 <= i < n && i != k ==> (#[trigger] slots[i]).inode != slots[k].inode || slots[i].offset
                != slots[k].offset,
    ensures
        value_of(flushed(store, slots, inode, n), (slots[k].inode, slots[k].offset)) == if slots[k].dirty
            && (inode == -1 || slots[k].inode == inode) {
            slots[k].data
        } else {
            value_of(store, (slots[k].inode, slots[k].offset))
        },
    decreases n,
{
    let p = (slots[k].inode, slots[k].offset);
    if n - 1 == k {
        lemma_flushed_untouched(store, slots, inode, n - 1, p);
    } else {
        lemma_flushed_at(store, slots, inode, n - 1, k);
    }
}

/// Writing back every dirty block makes the store hold, for every block of the
/// inodes written back, what reading through the cache gave.
pub proof fn law_synch_flushes(c: ClockCache, store: Map<(i32, i32), Seq<u8>>, inode: i32, p: (i32, i32))
    requires
        c.wf(),
        c.coherent(store),
        inode == -1 || p.0 == inode,
    ensures
        value_of(flushed(store, c.slots(), inode, c.slots().len() as int), p) == c.content(store, p),
{
    c.lemma_wf();
    let slots = c.slots();
    let n = slots.len() as int;
    if c.cached(p) {
        let k = c.slot_index(p);
        assert forall|i: int|
            0 <= i < n && i != k implies (#[trigger] slots[i]).inode != slots[k].inode || slots[i].offset
            != slots[k].offset by {}
        lemma_flushed_at(store, slots, inode, n, k);
    } else {
        assert forall|i: int| 0 <= i < n implies (#[trigger] slots[i]).inode != p.0 || slots[i].offset
            != p.1 by {}
        lemma_flushed_untouched(store, slots, inode, n, p);
    }
}


/// A write-back changes nothing a read sees: after `synch`, reading any block through
/// the cache over the updated store gives what it gave before, and clean slots still
/// hold what the store holds.
pub proof fn law_synch_keeps_content(
    c: ClockCache,
    store: Map<(i32, i32), Seq<u8>>,
    c2: ClockCache,
    inode: i32,
    p: (i32, i32),
)
    requires
        c.wf(),
        c.coherent(store),
        c2.wf(),
        c2.slots() == synched(c.slots(), inode),
    ensures
        c2.content(flushed(store, c.slots(), inode, c.slots().len() as int), p) == c.content(store, p),
        c2.coherent(flushed(store, c.slots(), inode, c.slots().len() as int)),
{
    c.lemma_wf();
    let slots = c.slots();
    let n = slots.len() as int;
    let store2 = flushed(store, slots, inode, n);
    assert forall|k: int| 0 <= k < n implies value_of(store2, (#[trigger] slots[k].inode, slots[k].offset))
        == if slots[k].dirty && (inode == -1 || slots[k].inode == inode) {
        slots[k].data
    } else {
        value_of(store, (slots[k].inode, slots[k].offset))
    } by {
        assert forall|i: int|
            0 <= i < n && i != k implies (#[trigger] slots[i]).inode != slots[k].inode || slots[i].offset
            != slots[k].offset by {}
        lemma_flushed_at(store, slots, inode, n, k);
    }
    if c.cached(p) {
        let k = c.slot_index(p);
        assert(c2.slots()[k].inode == p.0 && c2.slots()[k].offset == p.1);
        assert(c2.cached(p));
        let k2 = c2.slot_index(p);
        assert(slots[k2].inode == p.0 && slots[k2].offset == p.1);
    } else {
        assert forall|i: int| 0 <= i < n implies (#[trigger] slots[i]).inode != p.0 || slots[i].offset
            != p.1 by {}
        assert(!c2.cached(p)) by {
            if c2.cached(p) {
                let k2 = c2.slot_index(p);
                assert(slots[k2].inode == p.0);
            }
        }
        lemma_flushed_untouched(store, slots, inode, n, p);
    }
    assert forall|i: int|
        0 <= i < c2.slots().len() && !(#[trigger] c2.slots()[i]).dirty implies c2.slots()[i].data
            == value_of(store2, (c2.slots()[i].inode, c2.slots()[i].offset)) by {
        assert(slots[i].inode == c2.slots()[i].inode);
    }
}

/// A read after a write through the cache gives back what was written: once `write`
/// has put `data` at `p` (every other block reading as before), a `read` of `p`
/// returns `data`, and a read of any other block what it returned before.
pub proof fn law_cache_read_after_write(
    c: ClockCache,
    store: Map<(i32, i32), Seq<u8>>,
    c2: ClockCache,
    store2: Map<(i32, i32), Seq<u8>>,
    p: (i32, i32),
    data: Seq<u8>,
    q: (i32, i32),
)
    requires
        forall|x: (i32, i32)|
            #[trigger] c2.content(store2, x) == if x == p {
                data
            } else {
                c.content(store, x)
            },
    ensures
        c2.content(store2, p) == data,
        q != p ==> c2.content(store2, q) == c.content(store, q),
{
    assert(c2.content(store2, p) == data);
    assert(c2.content(store2, q) == if q == p {
        data
    } else {
        c.content(store, q)
    });
}

} // verus!
