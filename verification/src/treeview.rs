//! What a tree store holds, and when its blocks are laid out soundly.
//!
//! A walk follows the path to block `offset` of a tree down from its root, one
//! indirect block per step; a store is sound when every block a walk meets, and every
//! block of the free list, lies past the inode blocks, and no block serves two
//! places at once.
use vstd::prelude::*;

use crate::common::{block_sized, le_bytes, lemma_le_splice, splice, zero_block};
use crate::treedisk::{
    digit, formatted, freelist_block_at, freelist_head, freelist_refs, inode_nblocks, inode_root,
    is_freelist_start, last_free, last_free_from, levels, lookup, path_on_disk, ref_at, refs_block,
    sb_free_list, sb_inodeblocks, shift_r, superblock_of, with_freelist, LOG_RPB,
};

verus! {

/// Blocks addressed by a tree of `l` levels: `128^l`.
pub open spec fn cap(l: int) -> int
    decreases l,
{
    if l <= 0 {
        1
    } else {
        128 * cap(l - 1)
    }
}

/// `cap` is positive and grows with the number of levels.
pub proof fn lemma_cap(l: int)
    ensures
        cap(l) >= 1,
        l >= 0 ==> cap(l + 1) == 128 * cap(l),
    decreases l,
{
    if l > 0 {
        lemma_cap(l - 1);
    }
}

/// The values of `cap` up to six levels.
pub proof fn lemma_cap_values()
    ensures
        cap(0) == 1,
        cap(1) == 128,
        cap(2) == 16384,
        cap(3) == 2097152,
        cap(4) == 268435456,
        cap(5) == 34359738368,
        cap(6) == 4398046511104,
{
    reveal_with_fuel(cap, 7);
}

/// A right shift by `7 l` bits divides by `cap(l)`.
pub proof fn lemma_shift(x: u32, l: u32)
    requires
        l <= 6,
    ensures
        shift_r(x, (l * LOG_RPB) as u32) as int == x as int / cap(l as int),
{
    lemma_cap_values();
    if l == 0 {
        assert(x >> 0u32 == x) by (bit_vector);
    } else if l == 1 {
        assert(x >> 7u32 == x / 128) by (bit_vector);
    } else if l == 2 {
        assert(x >> 14u32 == x / 16384) by (bit_vector);
    } else if l == 3 {
        assert(x >> 21u32 == x / 2097152) by (bit_vector);
    } else if l == 4 {
        assert(x >> 28u32 == x / 268435456) by (bit_vector);
    } else {
        assert(x as int / cap(l as int) == 0);
    }
}

/// The index taken at level `l` on the way to `o`.
pub proof fn lemma_digit(o: u32, l: u32)
    requires
        l <= 6,
    ensures
        digit(o, l) == (o as int / cap(l as int)) % 128,
        0 <= digit(o, l) < 128,
{
    lemma_shift(o, l);
}

/// Dividing by `cap(l + 1)` is dividing by `cap(l)`, then by 128.
pub proof fn lemma_prefix_step(o: int, l: int)
    requires
        0 <= o,
        0 <= l,
    ensures
        o / cap(l + 1) == (o / cap(l)) / 128,
{
    lemma_cap(l);
    vstd::arithmetic::div_mod::lemma_div_denominator(o, cap(l), 128);
    assert(cap(l) * 128 == cap(l + 1));
}

/// `levels(s)` is the least number of levels, at most five, whose tree holds `s`
/// blocks.
pub proof fn lemma_levels(s: u32)
    ensures
        levels(s) <= 5,
        s <= cap(levels(s) as int),
        levels(s) > 0 ==> s > cap(levels(s) - 1),
{
    lemma_cap_values();
    if s > 0 {
        let x = (s - 1) as u32;
        lemma_shift(x, 0);
        lemma_shift(x, 1);
        lemma_shift(x, 2);
        lemma_shift(x, 3);
        lemma_shift(x, 4);
        lemma_shift(x, 5);
        reveal_with_fuel(crate::treedisk::levels_from, 7);
    }
}

/// Block number met at depth `j` on the way down to block `o` of the tree of `h`
/// levels rooted at `b` (0 once a block number 0 is met).
pub open spec fn node(d: Seq<Seq<i8>>, b: u32, h: u32, o: u32, j: int) -> u32
    decreases j,
{
    if j <= 0 {
        b
    } else {
        let p = node(d, b, h, o, j - 1);
        if p == 0 || j > h {
            0
        } else {
            ref_at(d[p as int], digit(o, (h - j) as u32))
        }
    }
}

/// What a data block number reads as: zeroes for block number 0.
pub open spec fn leaf(d: Seq<Seq<i8>>, w: u32) -> Seq<i8> {
    if w == 0 {
        zero_block()
    } else {
        d[w as int]
    }
}

/// Below a nonzero root, the walk continues as the walk from its child.
proof fn lemma_node_child(d: Seq<Seq<i8>>, b: u32, h: u32, o: u32, j: int)
    requires
        b != 0,
        h > 0,
        1 <= j <= h,
    ensures
        node(d, b, h, o, j) == node(
            d,
            ref_at(d[b as int], digit(o, (h - 1) as u32)),
            (h - 1) as u32,
            o,
            j - 1,
        ),
    decreases j,
{
    let c = ref_at(d[b as int], digit(o, (h - 1) as u32));
    let h1 = (h - 1) as u32;
    if j > 1 {
        lemma_node_child(d, b, h, o, j - 1);
        let p = node(d, b, h, o, j - 1);
        assert(p == node(d, c, h1, o, j - 2));
        assert((h - j) as u32 == (h1 - (j - 1)) as u32);
    } else {
        assert(node(d, b, h, o, 0) == b);
        assert(node(d, c, h1, o, 0) == c);
    }
}

/// A lookup reads the block the walk ends at, and lies on the disk when every block
/// the walk meets does.
pub proof fn lemma_lookup_node(d: Seq<Seq<i8>>, b: u32, h: u32, o: u32)
    ensures
        lookup(d, b, h, o) == leaf(d, node(d, b, h, o, h as int)),
        (forall|j: int| 0 <= j <= h ==> #[trigger] node(d, b, h, o, j) < d.len()) ==> path_on_disk(
            d,
            b,
            h,
            o,
        ),
    decreases h,
{
    if b != 0 && h > 0 {
        let c = ref_at(d[b as int], digit(o, (h - 1) as u32));
        lemma_lookup_node(d, c, (h - 1) as u32, o);
        lemma_node_child(d, b, h, o, h as int);
        if forall|j: int| 0 <= j <= h ==> #[trigger] node(d, b, h, o, j) < d.len() {
            assert forall|j: int| 0 <= j <= h - 1 implies #[trigger] node(d, c, (h - 1) as u32, o, j)
                < d.len() by {
                lemma_node_child(d, b, h, o, j + 1);
                assert(node(d, b, h, o, j + 1) < d.len());
            }
            assert(node(d, b, h, o, 0) < d.len());
        }
    } else if b == 0 {
        lemma_node_zero(d, h, o, h as int);
    } else {
        assert(node(d, b, h, o, 0) == b);
    }
}

/// A walk from root 0 meets only zeroes.
pub proof fn lemma_node_zero(d: Seq<Seq<i8>>, h: u32, o: u32, j: int)
    ensures
        node(d, 0, h, o, j) == 0,
    decreases j,
{
    if j > 0 {
        lemma_node_zero(d, h, o, j - 1);
    }
}

/// Once a walk meets 0, it stays 0.
pub proof fn lemma_node_stays_zero(d: Seq<Seq<i8>>, b: u32, h: u32, o: u32, j: int, k: int)
    requires
        0 <= j <= k,
        node(d, b, h, o, j) == 0,
    ensures
        node(d, b, h, o, k) == 0,
    decreases k - j,
{
    if k > j {
        lemma_node_stays_zero(d, b, h, o, j, k - 1);
    }
}


/// Which place a block serves in a store.
pub enum Owner {
    /// A block of the tree of inode `ino`, `level` levels above the data blocks, on
    /// the way to the offsets `o` with `o / cap(level) == prefix`.
    Tree { ino: u32, level: int, prefix: int },
    /// Entry `entry` of free-list block `block` (entry 0: the free-list block itself).
    Free { block: u32, entry: int },
}

/// Number of inode blocks.
pub open spec fn n_of(d: Seq<Seq<i8>>) -> u32 {
    sb_inodeblocks(d[0])
}

/// First block of the free list.
pub open spec fn head_of(d: Seq<Seq<i8>>) -> u32 {
    sb_free_list(d[0])
}

/// Root block of inode `i`.
pub open spec fn iroot(d: Seq<Seq<i8>>, i: u32) -> u32 {
    inode_root(d[1 + i / 64], (i % 64) as int)
}

/// Number of blocks of inode `i`.
pub open spec fn isize(d: Seq<Seq<i8>>, i: u32) -> u32 {
    inode_nblocks(d[1 + i / 64], (i % 64) as int)
}

/// Root of inode `i`, with inode `ino` taken to have root `r`.
pub open spec fn troot(d: Seq<Seq<i8>>, i: u32, ino: u32, r: u32) -> u32 {
    if i == ino {
        r
    } else {
        iroot(d, i)
    }
}

/// Size of inode `i`, with inode `ino` taken to have size `s`.
pub open spec fn tsize(d: Seq<Seq<i8>>, i: u32, ino: u32, s: u32) -> u32 {
    if i == ino {
        s
    } else {
        isize(d, i)
    }
}

/// Tree levels of inode `i`, with inode `ino` taken to have `h` levels.
pub open spec fn theight(d: Seq<Seq<i8>>, i: u32, ino: u32, h: u32) -> u32 {
    if i == ino {
        h
    } else {
        levels(isize(d, i))
    }
}

/// The block met at depth `j` on the way to `o` in the tree of inode `i` (root `r`,
/// `h` levels) lies past the inode blocks and is owned by that place.
pub closed spec fn pos_ok(
    d: Seq<Seq<i8>>,
    own: Map<u32, Owner>,
    i: u32,
    r: u32,
    h: u32,
    o: u32,
    j: int,
) -> bool {
    let w = node(d, r, h, o, j);
    w != 0 ==> {
        &&& n_of(d) < w < d.len()
        &&& own.contains_key(w)
        &&& own[w] == Owner::Tree { ino: i, level: h - j, prefix: o as int / cap(h - j) }
    }
}

/// Inode `i` with root `r`, `s` blocks and `h` levels is laid out soundly: its tree
/// holds `s` blocks, every block on it is owned by its place, and it holds no block
/// past the first `s`.
pub closed spec fn inode_ok(
    d: Seq<Seq<i8>>,
    own: Map<u32, Owner>,
    i: u32,
    r: u32,
    s: u32,
    h: u32,
) -> bool {
    &&& s == 0 ==> r == 0
    &&& h <= 5
    &&& s <= cap(h as int)
    &&& forall|o: u32, j: int|
        o < cap(h as int) && 0 <= j <= h ==> #[trigger] pos_ok(d, own, i, r, h, o, j)
    &&& forall|o: u32| s <= o < cap(h as int) ==> #[trigger] node(d, r, h, o, h as int) == 0
}

/// Every inode is laid out soundly, inode `ino` taken to have root `r`, `s` blocks
/// and `h` levels.
pub closed spec fn trees_ok(
    d: Seq<Seq<i8>>,
    own: Map<u32, Owner>,
    ino: u32,
    r: u32,
    s: u32,
    h: u32,
) -> bool {
    forall|i: u32|
        i < n_of(d) * 64 ==> #[trigger] inode_ok(
            d,
            own,
            i,
            troot(d, i, ino, r),
            tsize(d, i, ino, s),
            theight(d, i, ino, h),
        )
}

/// `c` is the free list: the free-list blocks from the head on, each linking to the
/// next, the last to 0, none twice.
pub closed spec fn chain_ok(d: Seq<Seq<i8>>, c: Seq<u32>) -> bool {
    &&& (c.len() == 0) == (head_of(d) == 0)
    &&& c.len() > 0 ==> c[0] == head_of(d) && ref_at(d[c.last() as int], 0) == 0
    &&& forall|k: int| 0 <= k < c.len() - 1 ==> ref_at(d[#[trigger] c[k] as int], 0) == c[k + 1]
    &&& forall|k: int| 0 <= k < c.len() ==> #[trigger] c[k] != 0
    &&& forall|k1: int, k2: int| 0 <= k1 < k2 < c.len() ==> #[trigger] c[k1] != #[trigger] c[k2]
}

/// Entry `m` of free-list block `c[k]`; entry 0 stands for the block itself.
pub open spec fn fblock(d: Seq<Seq<i8>>, c: Seq<u32>, k: int, m: int) -> u32 {
    if m == 0 {
        c[k]
    } else {
        ref_at(d[c[k] as int], m)
    }
}

/// Entry `m` of free-list block `c[k]`, unless 0, lies past the inode blocks and is
/// owned by that entry.
pub closed spec fn free_ok(d: Seq<Seq<i8>>, own: Map<u32, Owner>, c: Seq<u32>, k: int, m: int) -> bool {
    let w = fblock(d, c, k, m);
    w != 0 ==> {
        &&& n_of(d) < w < d.len()
        &&& own.contains_key(w)
        &&& own[w] == Owner::Free { block: c[k], entry: m }
    }
}

/// The free list is `c`, and each of its blocks is owned by its entry.
pub closed spec fn frees_ok(d: Seq<Seq<i8>>, own: Map<u32, Owner>, c: Seq<u32>) -> bool {
    &&& chain_ok(d, c)
    &&& forall|k: int, m: int| 0 <= k < c.len() && 0 <= m < 128 ==> #[trigger] free_ok(d, own, c, k, m)
}

/// The disk holds whole blocks, its superblock and inode blocks, and no more blocks
/// or inodes than 32-bit numbers count.
pub open spec fn shape_ok(d: Seq<Seq<i8>>) -> bool {
    &&& 1 <= d.len() <= u32::MAX
    &&& block_sized(d)
    &&& n_of(d) + 1 <= d.len()
    &&& n_of(d) * 64 <= u32::MAX
}

/// The store on `d` is sound with free list `c` and owners `own`, inode `ino` taken to
/// have root `r`, `s` blocks and `h` levels.
pub open spec fn store_ok(
    d: Seq<Seq<i8>>,
    c: Seq<u32>,
    own: Map<u32, Owner>,
    ino: u32,
    r: u32,
    s: u32,
    h: u32,
) -> bool {
    &&& shape_ok(d)
    &&& trees_ok(d, own, ino, r, s, h)
    &&& frees_ok(d, own, c)
}

/// The store on `d` is sound with free list `c` and owners `own`, every inode as its
/// inode block has it.
pub open spec fn sound(d: Seq<Seq<i8>>, c: Seq<u32>, own: Map<u32, Owner>) -> bool {
    store_ok(d, c, own, 0, iroot(d, 0), isize(d, 0), levels(isize(d, 0)))
}

/// The store on `d` is sound: no block serves two places, every block of a tree and of
/// the free list lies past the inode blocks, and no tree holds a block past its size.
pub open spec fn valid(d: Seq<Seq<i8>>) -> bool {
    exists|c: Seq<u32>, own: Map<u32, Owner>| #[trigger] sound(d, c, own)
}

/// Block `o` of inode `i`.
pub open spec fn content(d: Seq<Seq<i8>>, i: u32, o: u32) -> Seq<i8> {
    let h = levels(isize(d, i));
    leaf(d, node(d, iroot(d, i), h, o, h as int))
}

/// Number of nonzero entries among entries `1 ..= k` of a free-list block.
pub open spec fn nz_upto(blk: Seq<i8>, k: int) -> nat
    decreases k,
{
    if k <= 0 {
        0
    } else {
        nz_upto(blk, k - 1) + (if ref_at(blk, k) != 0 {
            1nat
        } else {
            0nat
        })
    }
}

/// Number of free blocks listed by the free-list blocks `c`, themselves included.
pub open spec fn fcount(d: Seq<Seq<i8>>, c: Seq<u32>) -> nat
    decreases c.len(),
{
    if c.len() == 0 {
        0
    } else {
        1 + nz_upto(d[c[0] as int], 127) + fcount(d, c.drop_first())
    }
}

/// Number of free blocks of the store.
pub open spec fn free_count(d: Seq<Seq<i8>>) -> nat {
    fcount(d, choose|c: Seq<u32>| chain_ok(d, c))
}

/// The first depth at which the walk to `o` meets 0, from depth `j` on (`h + 1` when
/// it meets none).
pub open spec fn first_zero(d: Seq<Seq<i8>>, b: u32, h: u32, o: u32, j: int) -> int
    decreases h + 1 - j,
{
    if j > h {
        h + 1
    } else if node(d, b, h, o, j) == 0 {
        j
    } else {
        first_zero(d, b, h, o, j + 1)
    }
}

/// Number of blocks a write of block `off` of inode `ino` takes off the free list:
/// new top levels when the tree must grow, and every missing block on the way down.
pub open spec fn needed(d: Seq<Seq<i8>>, ino: u32, off: u32) -> int {
    let s = isize(d, ino);
    let l0 = levels(s);
    let l1 = levels((off + 1) as u32);
    if s == 0 {
        l1 + 1
    } else if off >= cap(l0 as int) {
        (l1 - l0) + l1
    } else {
        l0 + 1 - first_zero(d, iroot(d, ino), l0, off, 0)
    }
}

/// Walks to offsets that agree above level `h - k` agree down to depth `k`.
pub proof fn lemma_same_prefix(d: Seq<Seq<i8>>, b: u32, h: u32, o1: u32, o2: u32, k: int)
    requires
        0 <= k <= h,
        h <= 5,
        o1 as int / cap(h - k) == o2 as int / cap(h - k),
    ensures
        node(d, b, h, o1, k) == node(d, b, h, o2, k),
    decreases k,
{
    if k > 0 {
        lemma_prefix_step(o1 as int, h - k);
        lemma_prefix_step(o2 as int, h - k);
        assert(h - k + 1 == h - (k - 1));
        lemma_same_prefix(d, b, h, o1, o2, k - 1);
        lemma_digit(o1, (h - k) as u32);
        lemma_digit(o2, (h - k) as u32);
    }
}

/// A walk reads the same blocks from two disks that agree on the blocks it meets.
pub proof fn lemma_node_frame(d: Seq<Seq<i8>>, d2: Seq<Seq<i8>>, b: u32, h: u32, o: u32, j: int)
    requires
        forall|k: int|
            0 <= k < j ==> #[trigger] node(d, b, h, o, k) == 0 || d2[node(d, b, h, o, k) as int]
                == d[node(d, b, h, o, k) as int],
    ensures
        node(d2, b, h, o, j) == node(d, b, h, o, j),
    decreases j,
{
    if j > 0 {
        lemma_node_frame(d, d2, b, h, o, j - 1);
        assert(node(d, b, h, o, j - 1) == 0 || d2[node(d, b, h, o, j - 1) as int] == d[node(
            d,
            b,
            h,
            o,
            j - 1,
        ) as int]);
    }
}


/// Blocks owned by trees keep their contents from `d` to `d2`.
pub open spec fn trees_kept(d: Seq<Seq<i8>>, d2: Seq<Seq<i8>>, own: Map<u32, Owner>) -> bool {
    forall|w: u32|
        #[trigger] own.contains_key(w) && own[w] is Tree && n_of(d) < w < d.len() ==> d2[w as int]
            == d[w as int]
}

/// Every inode other than `ino` keeps its root and size from `d` to `d2`.
pub open spec fn others_kept(d: Seq<Seq<i8>>, d2: Seq<Seq<i8>>, ino: u32) -> bool {
    forall|i: u32|
        i < n_of(d) * 64 && i != ino ==> #[trigger] iroot(d2, i) == iroot(d, i) && isize(d2, i)
            == isize(d, i)
}

/// The blocks of the tree of inode `i` keep their contents from `d` to `d2`.
pub open spec fn kept_for(d: Seq<Seq<i8>>, d2: Seq<Seq<i8>>, own: Map<u32, Owner>, i: u32) -> bool {
    forall|w: u32|
        #[trigger] own.contains_key(w) && own[w] is Tree && own[w]->ino == i && n_of(d) < w < d.len()
            ==> d2[w as int] == d[w as int]
}

/// `own2` keeps every tree owner of `own`.
pub open spec fn owners_kept(own: Map<u32, Owner>, own2: Map<u32, Owner>) -> bool {
    forall|w: u32|
        #[trigger] own.contains_key(w) && own[w] is Tree ==> own2.contains_key(w) && own2[w] == own[w]
}

/// Walks of a sound tree meet the same blocks, and read the same data, on a disk that
/// keeps the tree's blocks.
pub proof fn lemma_inode_frame(
    d: Seq<Seq<i8>>,
    d2: Seq<Seq<i8>>,
    own: Map<u32, Owner>,
    own2: Map<u32, Owner>,
    i: u32,
    r: u32,
    s: u32,
    h: u32,
)
    requires
        inode_ok(d, own, i, r, s, h),
        kept_for(d, d2, own, i),
        owners_kept(own, own2),
        d2.len() == d.len(),
        n_of(d2) == n_of(d),
    ensures
        inode_ok(d2, own2, i, r, s, h),
        forall|o: u32, j: int|
            o < cap(h as int) && 0 <= j <= h ==> #[trigger] node(d2, r, h, o, j) == node(d, r, h, o, j),
        forall|o: u32|
            o < cap(h as int) ==> #[trigger] leaf(d2, node(d2, r, h, o, h as int)) == leaf(
                d,
                node(d, r, h, o, h as int),
            ),
{
    reveal(inode_ok);
    reveal(pos_ok);
    assert forall|o: u32, j: int| o < cap(h as int) && 0 <= j <= h implies #[trigger] node(d2, r, h, o, j)
        == node(d, r, h, o, j) by {
        assert forall|k: int| 0 <= k < j implies #[trigger] node(d, r, h, o, k) == 0 || d2[node(
            d,
            r,
            h,
            o,
            k,
        ) as int] == d[node(d, r, h, o, k) as int] by {
            assert(pos_ok(d, own, i, r, h, o, k));
        }
        lemma_node_frame(d, d2, r, h, o, j);
    }
    assert forall|o: u32, j: int| o < cap(h as int) && 0 <= j <= h implies #[trigger] pos_ok(
        d2,
        own2,
        i,
        r,
        h,
        o,
        j,
    ) by {
        assert(pos_ok(d, own, i, r, h, o, j));
        assert(node(d2, r, h, o, j) == node(d, r, h, o, j));
    }
    assert forall|o: u32| s <= o < cap(h as int) implies #[trigger] node(d2, r, h, o, h as int) == 0 by {
        assert(node(d2, r, h, o, h as int) == node(d, r, h, o, h as int));
    }
    assert forall|o: u32| o < cap(h as int) implies #[trigger] leaf(d2, node(d2, r, h, o, h as int))
        == leaf(d, node(d, r, h, o, h as int)) by {
        assert(node(d2, r, h, o, h as int) == node(d, r, h, o, h as int));
        assert(pos_ok(d, own, i, r, h, o, h as int));
    }
}

/// Trees stay sound on a disk that keeps their blocks and the other inodes.
pub proof fn lemma_trees_frame(
    d: Seq<Seq<i8>>,
    d2: Seq<Seq<i8>>,
    own: Map<u32, Owner>,
    ino: u32,
    r: u32,
    s: u32,
    h: u32,
)
    requires
        trees_ok(d, own, ino, r, s, h),
        trees_kept(d, d2, own),
        others_kept(d, d2, ino),
        d2.len() == d.len(),
        n_of(d2) == n_of(d),
    ensures
        trees_ok(d2, own, ino, r, s, h),
{
    reveal(trees_ok);
    assert forall|i: u32| i < n_of(d2) * 64 implies #[trigger] inode_ok(
        d2,
        own,
        i,
        troot(d2, i, ino, r),
        tsize(d2, i, ino, s),
        theight(d2, i, ino, h),
    ) by {
        assert(inode_ok(d, own, i, troot(d, i, ino, r), tsize(d, i, ino, s), theight(d, i, ino, h)));
        lemma_inode_frame(d, d2, own, own, i, troot(d, i, ino, r), tsize(d, i, ino, s), theight(d, i, ino, h));
    }
}

/// The free list stays sound on a disk that keeps its blocks and its head, with owners
/// that keep those of its entries.
pub proof fn lemma_frees_frame(
    d: Seq<Seq<i8>>,
    d2: Seq<Seq<i8>>,
    own: Map<u32, Owner>,
    own2: Map<u32, Owner>,
    c: Seq<u32>,
)
    requires
        frees_ok(d, own, c),
        forall|k: int| 0 <= k < c.len() ==> d2[#[trigger] c[k] as int] == d[c[k] as int],
        forall|k: int, m: int|
            0 <= k < c.len() && 0 <= m < 128 && #[trigger] fblock(d, c, k, m) != 0 ==> own2.contains_key(
                fblock(d, c, k, m),
            ) && own2[fblock(d, c, k, m)] == own[fblock(d, c, k, m)],
        head_of(d2) == head_of(d),
        d2.len() == d.len(),
        n_of(d2) == n_of(d),
    ensures
        frees_ok(d2, own2, c),
        fcount(d2, c) == fcount(d, c),
{
    reveal(frees_ok);
    reveal(chain_ok);
    reveal(free_ok);
    assert forall|k: int| 0 <= k < c.len() - 1 implies ref_at(d2[#[trigger] c[k] as int], 0) == c[k + 1] by {
        assert(d2[c[k] as int] == d[c[k] as int]);
    }
    if c.len() > 0 {
        assert(d2[c[c.len() - 1] as int] == d[c[c.len() - 1] as int]);
    }
    assert forall|k: int, m: int| 0 <= k < c.len() && 0 <= m < 128 implies #[trigger] free_ok(
        d2,
        own2,
        c,
        k,
        m,
    ) by {
        assert(free_ok(d, own, c, k, m));
        assert(d2[c[k] as int] == d[c[k] as int]);
    }
    lemma_fcount_frame(d, d2, c);
}

/// The count of free blocks reads only the free-list blocks.
pub proof fn lemma_fcount_frame(d: Seq<Seq<i8>>, d2: Seq<Seq<i8>>, c: Seq<u32>)
    requires
        forall|k: int| 0 <= k < c.len() ==> d2[#[trigger] c[k] as int] == d[c[k] as int],
    ensures
        fcount(d2, c) == fcount(d, c),
    decreases c.len(),
{
    if c.len() > 0 {
        assert(d2[c[0] as int] == d[c[0] as int]);
        assert forall|k: int| 0 <= k < c.drop_first().len() implies d2[#[trigger] c.drop_first()[k] as int]
            == d[c.drop_first()[k] as int] by {
            assert(c.drop_first()[k] == c[k + 1]);
        }
        lemma_fcount_frame(d, d2, c.drop_first());
    }
}

/// The free list of a disk is unique.
pub proof fn lemma_chain_unique(d: Seq<Seq<i8>>, c1: Seq<u32>, c2: Seq<u32>)
    requires
        chain_ok(d, c1),
        chain_ok(d, c2),
    ensures
        c1 == c2,
{
    reveal(chain_ok);
    let short = if c1.len() <= c2.len() {
        c1.len()
    } else {
        c2.len()
    };
    assert forall|k: int| 0 <= k < short implies c1[k] == c2[k] by {
        lemma_chain_prefix(d, c1, c2, k);
    }
    if c1.len() < c2.len() {
        if c1.len() > 0 {
            let k = c1.len() - 1;
            assert(c1[k] == c2[k]);
            assert(c2[k + 1] == 0);
        }
    } else if c2.len() < c1.len() {
        if c2.len() > 0 {
            let k = c2.len() - 1;
            assert(c1[k] == c2[k]);
            assert(c1[k + 1] == 0);
        }
    }
    assert(c1 =~= c2);
}

proof fn lemma_chain_prefix(d: Seq<Seq<i8>>, c1: Seq<u32>, c2: Seq<u32>, k: int)
    requires
        chain_ok(d, c1),
        chain_ok(d, c2),
        0 <= k < c1.len(),
        k < c2.len(),
    ensures
        c1[k] == c2[k],
    decreases k,
{
    reveal(chain_ok);
    if k > 0 {
        lemma_chain_prefix(d, c1, c2, k - 1);
        assert(ref_at(d[c1[k - 1] as int], 0) == c1[k]);
        assert(ref_at(d[c2[k - 1] as int], 0) == c2[k]);
    }
}

/// A sound store's free count is that of its free list.
pub proof fn lemma_free_count(d: Seq<Seq<i8>>, c: Seq<u32>, own: Map<u32, Owner>)
    requires
        frees_ok(d, own, c),
    ensures
        free_count(d) == fcount(d, c),
{
    reveal(frees_ok);
    let c2 = choose|c2: Seq<u32>| chain_ok(d, c2);
    lemma_chain_unique(d, c, c2);
}

/// Soundness with every inode as on disk may be read with any inode singled out.
#[verifier::spinoff_prover]
pub proof fn lemma_sound_as(d: Seq<Seq<i8>>, c: Seq<u32>, own: Map<u32, Owner>, ino: u32)
    ensures
        sound(d, c, own) == store_ok(d, c, own, ino, iroot(d, ino), isize(d, ino), levels(isize(d, ino))),
{
    reveal(trees_ok);
    let t1 = trees_ok(d, own, 0, iroot(d, 0), isize(d, 0), levels(isize(d, 0)));
    let t2 = trees_ok(d, own, ino, iroot(d, ino), isize(d, ino), levels(isize(d, ino)));
    assert forall|i: u32| i < n_of(d) * 64 implies troot(d, i, 0, iroot(d, 0)) == troot(
        d,
        i,
        ino,
        iroot(d, ino),
    ) && tsize(d, i, 0, isize(d, 0)) == tsize(d, i, ino, isize(d, ino)) && theight(
        d,
        i,
        0,
        levels(isize(d, 0)),
    ) == theight(d, i, ino, levels(isize(d, ino))) by {}
    if t1 {
        assert forall|i: u32| i < n_of(d) * 64 implies #[trigger] inode_ok(
            d,
            own,
            i,
            troot(d, i, ino, iroot(d, ino)),
            tsize(d, i, ino, isize(d, ino)),
            theight(d, i, ino, levels(isize(d, ino))),
        ) by {
            assert(inode_ok(d, own, i, troot(d, i, 0, iroot(d, 0)), tsize(d, i, 0, isize(d, 0)), theight(d, i, 0, levels(isize(d, 0)))));
        }
    }
    if t2 {
        assert forall|i: u32| i < n_of(d) * 64 implies #[trigger] inode_ok(
            d,
            own,
            i,
            troot(d, i, 0, iroot(d, 0)),
            tsize(d, i, 0, isize(d, 0)),
            theight(d, i, 0, levels(isize(d, 0))),
        ) by {
            assert(inode_ok(d, own, i, troot(d, i, ino, iroot(d, ino)), tsize(d, i, ino, isize(d, ino)), theight(d, i, ino, levels(isize(d, ino)))));
        }
    }
}


/// `last_free_from` gives the last nonzero entry among `1 ..= i`, or 0 when there is
/// none.
pub proof fn lemma_last_free(blk: Seq<i8>, i: int)
    ensures
        0 <= last_free_from(blk, i),
        last_free_from(blk, i) <= i || last_free_from(blk, i) == 0,
        last_free_from(blk, i) > 0 ==> ref_at(blk, last_free_from(blk, i)) != 0,
        forall|m: int| last_free_from(blk, i) < m <= i && 1 <= m ==> #[trigger] ref_at(blk, m) == 0,
    decreases i,
{
    if i > 0 && ref_at(blk, i) == 0 {
        lemma_last_free(blk, i - 1);
    }
}

/// A free-list block with no nonzero entry counts none.
proof fn lemma_nz_none(blk: Seq<i8>, k: int)
    requires
        forall|m: int| 1 <= m <= k ==> #[trigger] ref_at(blk, m) == 0,
    ensures
        nz_upto(blk, k) == 0,
    decreases k,
{
    if k > 0 {
        assert(ref_at(blk, k) == 0);
        lemma_nz_none(blk, k - 1);
    }
}

/// Clearing nonzero entry `i` of a free-list block counts one entry less.
proof fn lemma_nz_clear(blk: Seq<i8>, i: int, k: int)
    requires
        blk.len() == 512,
        1 <= i <= 127,
        ref_at(blk, i) != 0,
        k <= 127,
    ensures
        nz_upto(splice(blk, 4 * i, le_bytes(0)), k) + (if 1 <= i <= k {
            1int
        } else {
            0int
        }) == nz_upto(blk, k),
    decreases k,
{
    let b2 = splice(blk, 4 * i, le_bytes(0));
    if k > 0 {
        lemma_nz_clear(blk, i, k - 1);
        lemma_le_splice(blk, 4 * i, 0);
        if k != i {
            lemma_ref_other(blk, i, k);
        }
    }
}

/// Entry `k` other than `i` survives clearing entry `i`.
proof fn lemma_ref_other(blk: Seq<i8>, i: int, k: int)
    requires
        blk.len() == 512,
        1 <= i <= 127,
        1 <= k <= 127,
        k != i,
    ensures
        ref_at(splice(blk, 4 * i, le_bytes(0)), k) == ref_at(blk, k),
{
    lemma_le_splice(blk, 4 * i, 0);
    assert(crate::common::le_u32_at(splice(blk, 4 * i, le_bytes(0)), 4 * k) == crate::common::le_u32_at(
        blk,
        4 * k,
    ));
}

/// The disk once a block is taken off the free list of `d`, and that block: the last
/// nonzero entry of the head free-list block, cleared; or, with none left, the head
/// block itself, the superblock then pointing at the next free-list block.
pub open spec fn popped(d: Seq<Seq<i8>>) -> (Seq<Seq<i8>>, u32) {
    let f = head_of(d);
    let fb = d[f as int];
    let i = last_free(fb);
    if i == 0 {
        (d.update(0, splice(d[0], 4, le_bytes(ref_at(fb, 0)))), f)
    } else {
        (d.update(f as int, splice(fb, 4 * i, le_bytes(0))), ref_at(fb, i))
    }
}

/// What taking block `x` off the free list of `d` (giving `d2` and free list `c2`)
/// keeps: soundness, one free block less, and every tree and inode; `x` was free.
pub open spec fn pop_ok(
    d: Seq<Seq<i8>>,
    c: Seq<u32>,
    own: Map<u32, Owner>,
    ino: u32,
    r: u32,
    s: u32,
    h: u32,
    d2: Seq<Seq<i8>>,
    x: u32,
    c2: Seq<u32>,
) -> bool {
    &&& store_ok(d2, c2, own, ino, r, s, h)
    &&& n_of(d) < x < d.len()
    &&& own.contains_key(x)
    &&& own[x] is Free
    &&& forall|k: int, m: int| 0 <= k < c2.len() && 0 <= m < 128 ==> #[trigger] fblock(d2, c2, k, m) != x
    &&& fcount(d2, c2) + 1 == fcount(d, c)
    &&& d2.len() == d.len()
    &&& n_of(d2) == n_of(d)
    &&& trees_kept(d, d2, own)
    &&& forall|b: int| 1 <= b <= n_of(d) ==> #[trigger] d2[b] == d[b]
}

/// Taking a block off the free list of a sound store leaves it sound with one free
/// block less, hands out a block that was free, and touches no tree and no inode.
pub proof fn lemma_pop(
    d: Seq<Seq<i8>>,
    c: Seq<u32>,
    own: Map<u32, Owner>,
    ino: u32,
    r: u32,
    s: u32,
    h: u32,
) -> (c2: Seq<u32>)
    requires
        store_ok(d, c, own, ino, r, s, h),
        head_of(d) != 0,
    ensures
        pop_ok(d, c, own, ino, r, s, h, popped(d).0, popped(d).1, c2),
{
    reveal(frees_ok);
    reveal(chain_ok);
    reveal(free_ok);
    let f = head_of(d);
    let fb = d[f as int];
    assert(c.len() > 0);
    assert(free_ok(d, own, c, 0, 0));
    lemma_last_free(fb, 127);
    if last_free(fb) == 0 {
        lemma_pop_head(d, c, own, ino, r, s, h)
    } else {
        lemma_pop_entry(d, c, own, ino, r, s, h);
        c
    }
}

#[verifier::spinoff_prover]
proof fn lemma_pop_head(
    d: Seq<Seq<i8>>,
    c: Seq<u32>,
    own: Map<u32, Owner>,
    ino: u32,
    r: u32,
    s: u32,
    h: u32,
) -> (c2: Seq<u32>)
    requires
        store_ok(d, c, own, ino, r, s, h),
        head_of(d) != 0,
        last_free(d[head_of(d) as int]) == 0,
    ensures
        pop_ok(d, c, own, ino, r, s, h, popped(d).0, popped(d).1, c2),
{
    reveal(frees_ok);
    reveal(chain_ok);
    reveal(free_ok);
    let f = head_of(d);
    let fb = d[f as int];
    let link = ref_at(fb, 0);
    let d2 = d.update(0, splice(d[0], 4, le_bytes(link)));
    let x = f;
    assert(popped(d) == (d2, x));
    assert(c.len() > 0);
    assert(free_ok(d, own, c, 0, 0));
    assert(fb.len() == 512);
    lemma_last_free(fb, 127);
    let c2 = c.drop_first();
    lemma_le_splice(d[0], 4, link);
    assert(crate::common::le_u32_at(d2[0], 0) == crate::common::le_u32_at(d[0], 0));
    assert(head_of(d2) == link);
    assert(trees_kept(d, d2, own));
    assert(others_kept(d, d2, ino));
    lemma_trees_frame(d, d2, own, ino, r, s, h);
    assert(crate::common::block_sized(d2));
    assert forall|k: int| 0 <= k < c2.len() implies d2[#[trigger] c2[k] as int] == d[c2[k] as int] by {
        assert(c2[k] == c[k + 1]);
        assert(c[k + 1] != 0);
        assert(free_ok(d, own, c, k + 1, 0));
    }
    if c.len() > 1 {
        assert(ref_at(d[c[0] as int], 0) == c[1]);
    }
    assert(chain_ok(d2, c2)) by {
        if c2.len() > 0 {
            assert(d2[c2.last() as int] == d[c.last() as int]);
        }
        assert forall|k: int| 0 <= k < c2.len() - 1 implies ref_at(d2[#[trigger] c2[k] as int], 0)
            == c2[k + 1] by {
            assert(c2[k] == c[k + 1]);
            assert(ref_at(d[c[k + 1] as int], 0) == c[k + 2]);
        }
        assert forall|k1: int, k2: int| 0 <= k1 < k2 < c2.len() implies #[trigger] c2[k1]
            != #[trigger] c2[k2] by {
            assert(c[k1 + 1] != c[k2 + 1]);
        }
    }
    assert forall|k: int, m: int| 0 <= k < c2.len() && 0 <= m < 128 implies #[trigger] free_ok(
        d2,
        own,
        c2,
        k,
        m,
    ) by {
        assert(free_ok(d, own, c, k + 1, m));
        assert(c2[k] == c[k + 1]);
    }
    assert forall|k: int, m: int| 0 <= k < c2.len() && 0 <= m < 128 implies #[trigger] fblock(
        d2,
        c2,
        k,
        m,
    ) != x by {
        assert(free_ok(d, own, c, k + 1, m));
        assert(c2[k] == c[k + 1]);
        assert(c[0] != c[k + 1]);
    }
    lemma_nz_none(fb, 127);
    lemma_fcount_frame(d, d2, c2);
    assert(fcount(d, c) == 1 + nz_upto(fb, 127) + fcount(d, c2));
    c2
}

#[verifier::spinoff_prover]
proof fn lemma_pop_entry(
    d: Seq<Seq<i8>>,
    c: Seq<u32>,
    own: Map<u32, Owner>,
    ino: u32,
    r: u32,
    s: u32,
    h: u32,
)
    requires
        store_ok(d, c, own, ino, r, s, h),
        head_of(d) != 0,
        last_free(d[head_of(d) as int]) != 0,
    ensures
        pop_ok(d, c, own, ino, r, s, h, popped(d).0, popped(d).1, c),
{
    reveal(frees_ok);
    reveal(chain_ok);
    reveal(free_ok);
    let f = head_of(d);
    let fb = d[f as int];
    let i = last_free(fb);
    let fb2 = splice(fb, 4 * i, le_bytes(0));
    let d2 = d.update(f as int, fb2);
    let x = ref_at(fb, i);
    assert(popped(d) == (d2, x));
    assert(c.len() > 0);
    assert(free_ok(d, own, c, 0, 0));
    assert(fb.len() == 512);
    lemma_last_free(fb, 127);
    assert(free_ok(d, own, c, 0, i));
    assert(own[f] == Owner::Free { block: c[0], entry: 0 });
    assert(d2[0] == d[0]);
    assert(trees_kept(d, d2, own));
    assert(others_kept(d, d2, ino));
    lemma_trees_frame(d, d2, own, ino, r, s, h);
    assert(crate::common::block_sized(d2));
    assert(ref_at(fb2, 0) == ref_at(fb, 0)) by {
        lemma_le_splice(fb, 4 * i, 0);
        assert(crate::common::le_u32_at(fb2, 0) == crate::common::le_u32_at(fb, 0));
    }
    assert forall|k: int| 1 <= k < c.len() implies d2[#[trigger] c[k] as int] == d[c[k] as int] by {
        assert(c[0] != c[k]);
        assert(free_ok(d, own, c, k, 0));
    }
    assert(chain_ok(d2, c)) by {
        assert forall|k: int| 0 <= k < c.len() - 1 implies ref_at(d2[#[trigger] c[k] as int], 0)
            == c[k + 1] by {
            if k > 0 {
                assert(c[0] != c[k]);
            }
        }
        if c.len() > 1 {
            assert(c[0] != c[c.len() - 1]);
        }
    }
    assert forall|k: int, m: int| 0 <= k < c.len() && 0 <= m < 128 implies #[trigger] free_ok(
        d2,
        own,
        c,
        k,
        m,
    ) by {
        assert(free_ok(d, own, c, k, m));
        if k > 0 {
            assert(c[0] != c[k]);
        } else if m != 0 && m != i {
            lemma_ref_other(fb, i, m);
        } else if m == i {
            lemma_le_splice(fb, 4 * i, 0);
        }
    }
    assert forall|k: int, m: int| 0 <= k < c.len() && 0 <= m < 128 implies #[trigger] fblock(
        d2,
        c,
        k,
        m,
    ) != x by {
        assert(free_ok(d2, own, c, k, m));
        if fblock(d2, c, k, m) == x {
            if k > 0 {
                assert(c[0] != c[k]);
            }
            lemma_le_splice(fb, 4 * i, 0);
        }
    }
    lemma_nz_clear(fb, i, 127);
    assert forall|k: int| 0 <= k < c.drop_first().len() implies d2[#[trigger] c.drop_first()[k] as int]
        == d[c.drop_first()[k] as int] by {
        assert(c.drop_first()[k] == c[k + 1]);
        assert(c[0] != c[k + 1]);
        assert(free_ok(d, own, c, k + 1, 0));
    }
    lemma_fcount_frame(d, d2, c.drop_first());
    assert(d2[c[0] as int] == fb2);
}


/// Every entry of a block of zeroes is 0.
pub proof fn lemma_ref_zero(m: int)
    requires
        0 <= m < 128,
    ensures
        ref_at(zero_block(), m) == 0,
{
    let z = zero_block();
    assert(z[4 * m] == 0 && z[4 * m + 1] == 0 && z[4 * m + 2] == 0 && z[4 * m + 3] == 0);
    assert(((0i8 as u8) as u32) | (((0i8 as u8) as u32) << 8u32) | (((0i8 as u8) as u32) << 16u32) | (
    ((0i8 as u8) as u32) << 24u32) == 0) by (bit_vector);
}

/// The inodes other than `ino` stay sound, and read the same, on a disk and with owners
/// that keep their trees and their inode entries.
#[verifier::spinoff_prover]
proof fn lemma_others_frame(
    e: Seq<Seq<i8>>,
    e2: Seq<Seq<i8>>,
    own: Map<u32, Owner>,
    own2: Map<u32, Owner>,
    ino: u32,
    r: u32,
    s: u32,
    h: u32,
)
    requires
        trees_ok(e, own, ino, r, s, h),
        forall|i: u32| i < n_of(e) * 64 && i != ino ==> #[trigger] kept_for(e, e2, own, i),
        owners_kept(own, own2),
        others_kept(e, e2, ino),
        e2.len() == e.len(),
        n_of(e2) == n_of(e),
    ensures
        forall|i: u32|
            i < n_of(e) * 64 && i != ino ==> #[trigger] inode_ok(
                e2,
                own2,
                i,
                iroot(e2, i),
                isize(e2, i),
                levels(isize(e2, i)),
            ),
        forall|i: u32, o: u32|
            i < n_of(e) * 64 && i != ino && o < isize(e, i) ==> #[trigger] content(e2, i, o) == content(
                e,
                i,
                o,
            ),
{
    reveal(trees_ok);
    reveal(inode_ok);
    assert forall|i: u32| i < n_of(e) * 64 && i != ino implies #[trigger] inode_ok(
        e2,
        own2,
        i,
        iroot(e2, i),
        isize(e2, i),
        levels(isize(e2, i)),
    ) by {
        assert(inode_ok(e, own, i, troot(e, i, ino, r), tsize(e, i, ino, s), theight(e, i, ino, h)));
        assert(kept_for(e, e2, own, i));
        lemma_inode_frame(e, e2, own, own2, i, iroot(e, i), isize(e, i), levels(isize(e, i)));
    }
    assert forall|i: u32, o: u32| i < n_of(e) * 64 && i != ino && o < isize(e, i) implies #[trigger] content(
        e2,
        i,
        o,
    ) == content(e, i, o) by {
        assert(inode_ok(e, own, i, troot(e, i, ino, r), tsize(e, i, ino, s), theight(e, i, ino, h)));
        assert(kept_for(e, e2, own, i));
        lemma_inode_frame(e, e2, own, own2, i, iroot(e, i), isize(e, i), levels(isize(e, i)));
        assert(leaf(e2, node(e2, iroot(e, i), levels(isize(e, i)), o, levels(isize(e, i)) as int)) == leaf(
            e,
            node(e, iroot(e, i), levels(isize(e, i)), o, levels(isize(e, i)) as int),
        ));
    }
}

/// Soundness gathered from each inode and the free list.
proof fn lemma_gather(
    e2: Seq<Seq<i8>>,
    own2: Map<u32, Owner>,
    c: Seq<u32>,
    ino: u32,
    r2: u32,
    s2: u32,
    h2: u32,
)
    requires
        shape_ok(e2),
        ino < n_of(e2) * 64,
        inode_ok(e2, own2, ino, r2, s2, h2),
        forall|i: u32|
            i < n_of(e2) * 64 && i != ino ==> #[trigger] inode_ok(
                e2,
                own2,
                i,
                iroot(e2, i),
                isize(e2, i),
                levels(isize(e2, i)),
            ),
        frees_ok(e2, own2, c),
    ensures
        store_ok(e2, c, own2, ino, r2, s2, h2),
{
    reveal(trees_ok);
    assert forall|i: u32| i < n_of(e2) * 64 implies #[trigger] inode_ok(
        e2,
        own2,
        i,
        troot(e2, i, ino, r2),
        tsize(e2, i, ino, s2),
        theight(e2, i, ino, h2),
    ) by {
        if i != ino {
            assert(inode_ok(e2, own2, i, iroot(e2, i), isize(e2, i), levels(isize(e2, i))));
        }
    }
}

/// Offsets that agree above level `l + 1` and at level `l` agree above level `l`.
proof fn lemma_prefix_digit(o: u32, off: u32, l: u32)
    requires
        l <= 5,
    ensures
        (o as int / cap(l as int) == off as int / cap(l as int)) == (o as int / cap(l + 1) == off as int
            / cap(l + 1) && digit(o, l) == digit(off, l)),
{
    lemma_prefix_step(o as int, l as int);
    lemma_prefix_step(off as int, l as int);
    lemma_digit(o, l);
    lemma_digit(off, l);
    lemma_cap(l as int);
    let a = o as int / cap(l as int);
    let b = off as int / cap(l as int);
    assert(a >= 0 && b >= 0) by {
        vstd::arithmetic::div_mod::lemma_div_pos_is_pos(o as int, cap(l as int));
        vstd::arithmetic::div_mod::lemma_div_pos_is_pos(off as int, cap(l as int));
    }
    vstd::arithmetic::div_mod::lemma_fundamental_div_mod(a, 128);
    vstd::arithmetic::div_mod::lemma_fundamental_div_mod(b, 128);
}


/// Entry `m` of a block once entry `i` is set to `v`.
pub proof fn lemma_ref_splice(blk: Seq<i8>, i: int, v: u32, m: int)
    requires
        blk.len() == 512,
        0 <= i < 128,
        0 <= m < 128,
    ensures
        ref_at(splice(blk, 4 * i, le_bytes(v)), m) == if m == i {
            v
        } else {
            ref_at(blk, m)
        },
{
    lemma_le_splice(blk, 4 * i, v);
    if m != i {
        assert(crate::common::le_u32_at(splice(blk, 4 * i, le_bytes(v)), 4 * m)
            == crate::common::le_u32_at(blk, 4 * m));
    }
}

/// The disk once block `x` is hung below the block at depth `j - 1` on the way to
/// `off`, with contents `xc`.
pub open spec fn attached(e: Seq<Seq<i8>>, r: u32, h: u32, j: int, off: u32, x: u32, xc: Seq<i8>) -> Seq<
    Seq<i8>,
> {
    let p = node(e, r, h, off, j - 1);
    e.update(p as int, splice(e[p as int], 4 * digit(off, (h - j) as u32), le_bytes(x))).update(
        x as int,
        xc,
    )
}

/// The walks of inode `ino` once `x` is hung at depth `j` on the way to `off`: the
/// offsets that agree with `off` above level `h - j` meet `x` at depth `j` and 0 below,
/// where they met 0 before; the others meet what they met.
#[verifier::spinoff_prover]
proof fn lemma_attach_walk(
    e: Seq<Seq<i8>>,
    own: Map<u32, Owner>,
    ino: u32,
    r: u32,
    s: u32,
    h: u32,
    j: int,
    off: u32,
    x: u32,
    xc: Seq<i8>,
    o: u32,
    k: int,
)
    requires
        inode_ok(e, own, ino, r, s, h),
        1 <= j <= h,
        off < cap(h as int),
        o < cap(h as int),
        0 <= k <= h,
        node(e, r, h, off, j - 1) != 0,
        node(e, r, h, off, j) == 0,
        x < e.len(),
        own.contains_key(x),
        own[x] is Free,
        block_sized(e),
        xc.len() == 512,
        j < h ==> xc == zero_block(),
    ensures
        ({
            let same = o as int / cap(h - j) == off as int / cap(h - j);
            let e2 = attached(e, r, h, j, off, x, xc);
            &&& node(e2, r, h, o, k) == if same && k == j {
                x
            } else if same && k > j {
                0
            } else {
                node(e, r, h, o, k)
            }
            &&& same && k >= j ==> node(e, r, h, o, k) == 0
        }),
    decreases k,
{
    reveal(inode_ok);
    reveal(pos_ok);
    let lvl = (h - j) as u32;
    let p = node(e, r, h, off, j - 1);
    let e2 = attached(e, r, h, j, off, x, xc);
    let same = o as int / cap(h - j) == off as int / cap(h - j);
    assert(pos_ok(e, own, ino, r, h, off, j - 1));
    assert(p != x);
    if k > 0 {
        lemma_attach_walk(e, own, ino, r, s, h, j, off, x, xc, o, k - 1);
        let q = node(e, r, h, o, k - 1);
        assert(pos_ok(e, own, ino, r, h, o, k - 1));
        lemma_prefix_digit(o, off, lvl);
        assert(lvl + 1 == h - (j - 1));
        if k < j {
            if q != 0 {
                assert(q != p);
                assert(e2[q as int] == e[q as int]);
            }
        } else if k == j {
            if same {
                lemma_same_prefix(e, r, h, o, off, j - 1);
                assert(q == p);
                lemma_digit(off, lvl);
                lemma_ref_splice(e[p as int], digit(off, lvl), x, digit(o, lvl));
                lemma_same_prefix(e, r, h, o, off, j);
            } else if q != 0 {
                if q == p {
                    lemma_digit(off, lvl);
                    lemma_digit(o, lvl);
                    lemma_ref_splice(e[p as int], digit(off, lvl), x, digit(o, lvl));
                } else {
                    assert(e2[q as int] == e[q as int]);
                }
            }
        } else {
            if same {
                if k - 1 == j {
                    assert(e2[x as int] == zero_block());
                    lemma_digit(o, (h - k) as u32);
                    lemma_ref_zero(digit(o, (h - k) as u32));
                }
            } else if q != 0 {
                assert(q != p);
                assert(e2[q as int] == e[q as int]);
            }
        }
    }
}


/// Block `x` may be handed to a tree: it lies past the inode blocks, was free, and is
/// no longer on the free list `c`.
pub open spec fn fresh(e: Seq<Seq<i8>>, c: Seq<u32>, own: Map<u32, Owner>, x: u32) -> bool {
    &&& n_of(e) < x < e.len()
    &&& own.contains_key(x)
    &&& own[x] is Free
    &&& forall|k: int, m: int| 0 <= k < c.len() && 0 <= m < 128 ==> #[trigger] fblock(e, c, k, m) != x
}

/// What a step of a write keeps: the free list and its count, the superblock and the
/// inode blocks, and every other inode's contents.
pub open spec fn step_kept(e: Seq<Seq<i8>>, e2: Seq<Seq<i8>>, c: Seq<u32>, ino: u32) -> bool {
    &&& e2.len() == e.len()
    &&& e2[0] == e[0]
    &&& forall|b: int| 1 <= b <= n_of(e) ==> #[trigger] e2[b] == e[b]
    &&& fcount(e2, c) == fcount(e, c)
    &&& forall|i: u32, o: u32|
        i < n_of(e) * 64 && i != ino && o < isize(e, i) ==> #[trigger] content(e2, i, o) == content(e, i, o)
}

/// The free list and the other inodes survive a step that changes only blocks of the
/// tree of `ino` and a fresh block.
#[verifier::spinoff_prover]
proof fn lemma_step_frame(
    e: Seq<Seq<i8>>,
    e2: Seq<Seq<i8>>,
    c: Seq<u32>,
    own: Map<u32, Owner>,
    own2: Map<u32, Owner>,
    ino: u32,
    r: u32,
    s: u32,
    h: u32,
    x: u32,
)
    requires
        store_ok(e, c, own, ino, r, s, h),
        fresh(e, c, own, x),
        own2 == own.insert(x, own2[x]),
        own2[x] is Tree,
        e2.len() == e.len(),
        block_sized(e2),
        forall|b: int|
            0 <= b < e.len() && b != x && !(own.contains_key(b as u32) && own[b as u32] is Tree
                && own[b as u32]->ino == ino && n_of(e) < b) ==> #[trigger] e2[b] == e[b],
    ensures
        step_kept(e, e2, c, ino),
        shape_ok(e2),
        n_of(e2) == n_of(e),
        frees_ok(e2, own2, c),
        forall|i: u32|
            i < n_of(e) * 64 && i != ino ==> #[trigger] inode_ok(
                e2,
                own2,
                i,
                iroot(e2, i),
                isize(e2, i),
                levels(isize(e2, i)),
            ),
{
    reveal(frees_ok);
    reveal(free_ok);
    reveal(chain_ok);
    assert(e2[0] == e[0]);
    assert forall|b: int| 1 <= b <= n_of(e) implies #[trigger] e2[b] == e[b] by {}
    assert(others_kept(e, e2, ino));
    assert forall|i: u32| i < n_of(e) * 64 && i != ino implies #[trigger] kept_for(e, e2, own, i) by {}
    assert(owners_kept(own, own2));
    lemma_others_frame(e, e2, own, own2, ino, r, s, h);
    assert forall|k: int| 0 <= k < c.len() implies e2[#[trigger] c[k] as int] == e[c[k] as int] by {
        assert(free_ok(e, own, c, k, 0));
    }
    assert forall|k: int, m: int|
        0 <= k < c.len() && 0 <= m < 128 && #[trigger] fblock(e, c, k, m) != 0 implies own2.contains_key(
            fblock(e, c, k, m),
        ) && own2[fblock(e, c, k, m)] == own[fblock(e, c, k, m)] by {
        assert(free_ok(e, own, c, k, m));
    }
    lemma_frees_frame(e, e2, own, own2, c);
}

/// Hanging a fresh block `x` with contents `xc` (zeroes above the data level) below
/// the block at depth `j - 1` on the way to `off`, where 0 was, keeps the store sound:
/// block `off` now reads `xc` at the data level (zeroes above), and every other block
/// of every inode reads as before.
#[verifier::spinoff_prover]
pub proof fn lemma_attach_child(
    e: Seq<Seq<i8>>,
    c: Seq<u32>,
    own: Map<u32, Owner>,
    ino: u32,
    r: u32,
    s: u32,
    h: u32,
    j: int,
    off: u32,
    x: u32,
    xc: Seq<i8>,
)
    requires
        store_ok(e, c, own, ino, r, s, h),
        ino < n_of(e) * 64,
        1 <= j <= h,
        off < s,
        node(e, r, h, off, j - 1) != 0,
        node(e, r, h, off, j) == 0,
        fresh(e, c, own, x),
        xc.len() == 512,
        j < h ==> xc == zero_block(),
    ensures
        ({
            let e2 = attached(e, r, h, j, off, x, xc);
            let own2 = own.insert(
                x,
                Owner::Tree { ino: ino, level: h - j, prefix: off as int / cap(h - j) },
            );
            &&& store_ok(e2, c, own2, ino, r, s, h)
            &&& step_kept(e, e2, c, ino)
            &&& node(e2, r, h, off, j) == x
            &&& forall|k: int| 0 <= k < j ==> #[trigger] node(e2, r, h, off, k) == node(e, r, h, off, k)
            &&& j < h ==> node(e2, r, h, off, j + 1) == 0
            &&& leaf(e2, node(e2, r, h, off, h as int)) == if j == h {
                xc
            } else {
                zero_block()
            }
            &&& forall|o: u32|
                o < cap(h as int) && o != off ==> #[trigger] leaf(e2, node(e2, r, h, o, h as int)) == leaf(
                    e,
                    node(e, r, h, o, h as int),
                )
        }),
{
    reveal(trees_ok);
    reveal(inode_ok);
    reveal(pos_ok);
    let e2 = attached(e, r, h, j, off, x, xc);
    let lvl = (h - j) as u32;
    let own2 = own.insert(x, Owner::Tree { ino: ino, level: h - j, prefix: off as int / cap(h - j) });
    let p = node(e, r, h, off, j - 1);
    assert(inode_ok(e, own, ino, troot(e, ino, ino, r), tsize(e, ino, ino, s), theight(e, ino, ino, h)));
    assert(pos_ok(e, own, ino, r, h, off, j - 1));
    lemma_digit(off, lvl);
    assert(block_sized(e2)) by {
        assert(e[p as int].len() == 512);
    }
    assert forall|b: int|
        0 <= b < e.len() && b != x && !(own.contains_key(b as u32) && own[b as u32] is Tree
            && own[b as u32]->ino == ino && n_of(e) < b) implies #[trigger] e2[b] == e[b] by {
        assert(b != p);
    }
    lemma_step_frame(e, e2, c, own, own2, ino, r, s, h, x);
    assert forall|o: u32, k: int| o < cap(h as int) && 0 <= k <= h implies #[trigger] pos_ok(
        e2,
        own2,
        ino,
        r,
        h,
        o,
        k,
    ) by {
        lemma_attach_walk(e, own, ino, r, s, h, j, off, x, xc, o, k);
        assert(pos_ok(e, own, ino, r, h, o, k));
        if o as int / cap(h - j) == off as int / cap(h - j) && k == j {
        } else if node(e, r, h, o, k) != 0 {
            assert(node(e, r, h, o, k) != x);
        }
    }
    assert forall|o: u32| s <= o < cap(h as int) implies #[trigger] node(e2, r, h, o, h as int) == 0 by {
        lemma_attach_walk(e, own, ino, r, s, h, j, off, x, xc, o, h as int);
        if o as int / cap(h - j) == off as int / cap(h - j) && h == j {
            assert(cap(0) == 1);
        }
    }
    assert(inode_ok(e2, own2, ino, r, s, h));
    lemma_gather(e2, own2, c, ino, r, s, h);
    lemma_attach_walk(e, own, ino, r, s, h, j, off, x, xc, off, j);
    assert forall|k: int| 0 <= k < j implies #[trigger] node(e2, r, h, off, k) == node(e, r, h, off, k) by {
        lemma_attach_walk(e, own, ino, r, s, h, j, off, x, xc, off, k);
    }
    if j < h {
        lemma_attach_walk(e, own, ino, r, s, h, j, off, x, xc, off, j + 1);
        lemma_attach_walk(e, own, ino, r, s, h, j, off, x, xc, off, h as int);
    }
    assert forall|o: u32| o < cap(h as int) && o != off implies #[trigger] leaf(
        e2,
        node(e2, r, h, o, h as int),
    ) == leaf(e, node(e, r, h, o, h as int)) by {
        lemma_attach_walk(e, own, ino, r, s, h, j, off, x, xc, o, h as int);
        assert(pos_ok(e, own, ino, r, h, o, h as int));
        if o as int / cap(h - j) == off as int / cap(h - j) {
            if j == h {
                assert(cap(0) == 1);
            }
        } else if node(e, r, h, o, h as int) != 0 {
            let w = node(e, r, h, o, h as int);
            assert(w != p);
            assert(w != x);
        }
    }
}

/// Making a fresh block `x` with contents `xc` (zeroes above the data level) the root
/// of inode `ino`, which had none, keeps the store sound: block `off` reads `xc` at the
/// data level (zeroes above), every other block of every inode as before.
#[verifier::spinoff_prover]
pub proof fn lemma_attach_root(
    e: Seq<Seq<i8>>,
    c: Seq<u32>,
    own: Map<u32, Owner>,
    ino: u32,
    s: u32,
    h: u32,
    off: u32,
    x: u32,
    xc: Seq<i8>,
)
    requires
        store_ok(e, c, own, ino, 0, s, h),
        ino < n_of(e) * 64,
        off < s,
        fresh(e, c, own, x),
        xc.len() == 512,
        0 < h ==> xc == zero_block(),
    ensures
        ({
            let e2 = e.update(x as int, xc);
            let own2 = own.insert(x, Owner::Tree { ino: ino, level: h as int, prefix: 0 });
            &&& store_ok(e2, c, own2, ino, x, s, h)
            &&& step_kept(e, e2, c, ino)
            &&& node(e2, x, h, off, 0) == x
            &&& 0 < h ==> node(e2, x, h, off, 1) == 0
            &&& leaf(e2, node(e2, x, h, off, h as int)) == if h == 0 {
                xc
            } else {
                zero_block()
            }
            &&& forall|o: u32|
                o < cap(h as int) && o != off ==> #[trigger] leaf(e2, node(e2, x, h, o, h as int)) == leaf(
                    e,
                    node(e, 0, h, o, h as int),
                )
        }),
{
    reveal(trees_ok);
    reveal(inode_ok);
    reveal(pos_ok);
    let e2 = e.update(x as int, xc);
    let own2 = own.insert(x, Owner::Tree { ino: ino, level: h as int, prefix: 0 });
    assert(inode_ok(e, own, ino, troot(e, ino, ino, 0), tsize(e, ino, ino, s), theight(e, ino, ino, h)));
    lemma_step_frame(e, e2, c, own, own2, ino, 0, s, h, x);
    assert forall|o: u32, k: int| 0 <= k <= h implies #[trigger] node(e2, x, h, o, k) == if k == 0 {
        x
    } else {
        0
    } by {
        lemma_root_walk(e2, x, h, o, k);
    }
    assert forall|o: u32, k: int| o < cap(h as int) && 0 <= k <= h implies #[trigger] pos_ok(
        e2,
        own2,
        ino,
        x,
        h,
        o,
        k,
    ) by {
        assert(node(e2, x, h, o, k) == if k == 0 {
            x
        } else {
            0
        });
        if k == 0 {
            lemma_cap(h as int);
            vstd::arithmetic::div_mod::lemma_basic_div(o as int, cap(h as int));
            assert(o as int / cap(h as int) == 0);
        }
    }
    assert forall|o: u32| s <= o < cap(h as int) implies #[trigger] node(e2, x, h, o, h as int) == 0 by {
        assert(node(e2, x, h, o, h as int) == if h == 0 {
            x
        } else {
            0
        });
        if h == 0 {
            assert(cap(0) == 1);
        }
    }
    assert(inode_ok(e2, own2, ino, x, s, h));
    lemma_gather(e2, own2, c, ino, x, s, h);
    assert(node(e2, x, h, off, h as int) == if h == 0 {
        x
    } else {
        0
    });
    if 0 < h {
        assert(node(e2, x, h, off, 1) == 0);
    }
    assert forall|o: u32| o < cap(h as int) && o != off implies #[trigger] leaf(
        e2,
        node(e2, x, h, o, h as int),
    ) == leaf(e, node(e, 0, h, o, h as int)) by {
        lemma_node_zero(e, h, o, h as int);
        assert(node(e2, x, h, o, h as int) == if h == 0 {
            x
        } else {
            0
        });
        if h == 0 {
            assert(cap(0) == 1);
        }
    }
}

/// Below a root whose block is zeroes, every walk meets the root, then 0.
proof fn lemma_root_walk(e2: Seq<Seq<i8>>, x: u32, h: u32, o: u32, k: int)
    requires
        x != 0,
        0 <= k <= h,
        h <= 5,
        0 < h ==> e2[x as int] == zero_block(),
    ensures
        node(e2, x, h, o, k) == if k == 0 {
            x
        } else {
            0
        },
    decreases k,
{
    if k > 0 {
        lemma_root_walk(e2, x, h, o, k - 1);
        if k == 1 {
            lemma_digit(o, (h - 1) as u32);
            lemma_ref_zero(digit(o, (h - 1) as u32));
        }
    }
}


/// A new top block over root `r`: entry 0 is `r`, the others 0.
pub open spec fn top_block(r: u32) -> Seq<i8> {
    splice(zero_block(), 0, le_bytes(r))
}

/// The walks of a tree grown by a top block `x` over root `r`: offsets below the old
/// capacity meet `x`, then what they met; the others meet `x`, then 0.
#[verifier::spinoff_prover]
proof fn lemma_grow_walk(e: Seq<Seq<i8>>, e2: Seq<Seq<i8>>, own: Map<u32, Owner>, ino: u32, r: u32, s: u32, h: u32, x: u32, o: u32, k: int)
    requires
        inode_ok(e, own, ino, r, s, h),
        h < 5,
        0 < x < e.len(),
        own.contains_key(x),
        own[x] is Free,
        e2 == e.update(x as int, top_block(r)),
        o < cap(h + 1),
        0 <= k <= h + 1,
    ensures
        node(e2, x, (h + 1) as u32, o, k) == if k == 0 {
            x
        } else if o < cap(h as int) {
            node(e, r, h, o, k - 1)
        } else {
            0
        },
    decreases k,
{
    reveal(inode_ok);
    reveal(pos_ok);
    let h1 = (h + 1) as u32;
    if k > 0 {
        lemma_grow_walk(e, e2, own, ino, r, s, h, x, o, k - 1);
        lemma_cap(h as int);
        if k == 1 {
            lemma_digit(o, h);
            vstd::arithmetic::div_mod::lemma_div_pos_is_pos(o as int, cap(h as int));
            if o < cap(h as int) {
                vstd::arithmetic::div_mod::lemma_basic_div(o as int, cap(h as int));
            } else {
                vstd::arithmetic::div_mod::lemma_div_is_ordered(cap(h as int), o as int, cap(h as int));
                vstd::arithmetic::div_mod::lemma_div_by_multiple(1, cap(h as int));
                assert(o as int / cap(h as int) < 128) by {
                    vstd::arithmetic::div_mod::lemma_div_by_multiple_is_strongly_ordered(
                        o as int,
                        cap(h + 1),
                        128,
                        cap(h as int),
                    );
                    vstd::arithmetic::div_mod::lemma_div_by_multiple(128, cap(h as int));
                }
                vstd::arithmetic::div_mod::lemma_small_mod((o as int / cap(h as int)) as nat, 128);
            }
            lemma_ref_splice(zero_block(), 0, r, digit(o, h));
            lemma_ref_zero(digit(o, h));
            assert(e2[x as int] == top_block(r));
            assert(node(e2, x, h1, o, 0) == x);
            assert(node(e2, x, h1, o, 1) == ref_at(top_block(r), digit(o, h)));
            if o < cap(h as int) {
                assert(digit(o, h) == 0);
                assert(node(e, r, h, o, 0) == r);
            } else {
                assert(digit(o, h) != 0);
            }
        } else if o < cap(h as int) {
            let q = node(e, r, h, o, k - 2);
            assert(pos_ok(e, own, ino, r, h, o, k - 2));
            if q != 0 {
                assert(q != x);
                assert(e2[q as int] == e[q as int]);
            }
            assert((h1 - k) as u32 == (h - (k - 1)) as u32);
        }
    }
}

/// Growing the tree of inode `ino` by a fresh top block `x` over root `r` keeps the
/// store sound, with `x` as the root and one level more; every block of every inode
/// reads as before.
#[verifier::spinoff_prover]
pub proof fn lemma_grow(e: Seq<Seq<i8>>, c: Seq<u32>, own: Map<u32, Owner>, ino: u32, r: u32, s: u32, h: u32, x: u32)
    requires
        store_ok(e, c, own, ino, r, s, h),
        ino < n_of(e) * 64,
        s > 0,
        h < 5,
        fresh(e, c, own, x),
    ensures
        ({
            let e2 = e.update(x as int, top_block(r));
            let own2 = own.insert(x, Owner::Tree { ino: ino, level: h + 1, prefix: 0 });
            &&& store_ok(e2, c, own2, ino, x, s, (h + 1) as u32)
            &&& step_kept(e, e2, c, ino)
            &&& forall|o: u32|
                o < cap(h as int) ==> #[trigger] leaf(e2, node(e2, x, (h + 1) as u32, o, h + 1)) == leaf(
                    e,
                    node(e, r, h, o, h as int),
                )
            &&& forall|o: u32|
                cap(h as int) <= o < cap(h + 1) ==> #[trigger] node(e2, x, (h + 1) as u32, o, 1) == 0
        }),
{
    reveal(trees_ok);
    reveal(inode_ok);
    reveal(pos_ok);
    let h1 = (h + 1) as u32;
    let e2 = e.update(x as int, top_block(r));
    let own2 = own.insert(x, Owner::Tree { ino: ino, level: h + 1, prefix: 0 });
    assert(inode_ok(e, own, ino, troot(e, ino, ino, r), tsize(e, ino, ino, s), theight(e, ino, ino, h)));
    lemma_cap(h as int);
    lemma_step_frame(e, e2, c, own, own2, ino, r, s, h, x);
    assert forall|o: u32, k: int| o < cap(h1 as int) && 0 <= k <= h1 implies #[trigger] pos_ok(
        e2,
        own2,
        ino,
        x,
        h1,
        o,
        k,
    ) by {
        lemma_grow_walk(e, e2, own, ino, r, s, h, x, o, k);
        if k == 0 {
            vstd::arithmetic::div_mod::lemma_basic_div(o as int, cap(h1 as int));
        } else if o < cap(h as int) {
            assert(pos_ok(e, own, ino, r, h, o, k - 1));
            if node(e, r, h, o, k - 1) != 0 {
                assert(node(e, r, h, o, k - 1) != x);
            }
            assert(h1 - k == h - (k - 1));
        }
    }
    assert forall|o: u32| s <= o < cap(h1 as int) implies #[trigger] node(e2, x, h1, o, h1 as int) == 0 by {
        lemma_grow_walk(e, e2, own, ino, r, s, h, x, o, h1 as int);
    }
    assert(inode_ok(e2, own2, ino, x, s, h1));
    lemma_gather(e2, own2, c, ino, x, s, h1);
    assert forall|o: u32| o < cap(h as int) implies #[trigger] leaf(e2, node(e2, x, h1, o, h + 1)) == leaf(
        e,
        node(e, r, h, o, h as int),
    ) by {
        lemma_grow_walk(e, e2, own, ino, r, s, h, x, o, h + 1);
        assert(pos_ok(e, own, ino, r, h, o, h as int));
        if node(e, r, h, o, h as int) != 0 {
            assert(node(e, r, h, o, h as int) != x);
        }
    }
    assert forall|o: u32| cap(h as int) <= o < cap(h + 1) implies #[trigger] node(e2, x, h1, o, 1) == 0 by {
        lemma_grow_walk(e, e2, own, ino, r, s, h, x, o, 1);
    }
}

/// Overwriting the data block `w` that the walk to `off` ends at keeps the store sound:
/// block `off` reads `data`, every other block of every inode as before.
#[verifier::spinoff_prover]
pub proof fn lemma_overwrite(
    e: Seq<Seq<i8>>,
    c: Seq<u32>,
    own: Map<u32, Owner>,
    ino: u32,
    r: u32,
    s: u32,
    h: u32,
    off: u32,
    data: Seq<i8>,
)
    requires
        store_ok(e, c, own, ino, r, s, h),
        ino < n_of(e) * 64,
        off < s,
        node(e, r, h, off, h as int) != 0,
        data.len() == 512,
    ensures
        ({
            let e2 = e.update(node(e, r, h, off, h as int) as int, data);
            &&& store_ok(e2, c, own, ino, r, s, h)
            &&& step_kept(e, e2, c, ino)
            &&& leaf(e2, node(e2, r, h, off, h as int)) == data
            &&& forall|o: u32, k: int|
                o < cap(h as int) && 0 <= k <= h ==> #[trigger] node(e2, r, h, o, k) == node(e, r, h, o, k)
            &&& forall|o: u32|
                o < cap(h as int) && o != off ==> #[trigger] leaf(e2, node(e2, r, h, o, h as int)) == leaf(
                    e,
                    node(e, r, h, o, h as int),
                )
        }),
{
    reveal(trees_ok);
    reveal(inode_ok);
    reveal(pos_ok);
    reveal(frees_ok);
    reveal(free_ok);
    let w = node(e, r, h, off, h as int);
    let e2 = e.update(w as int, data);
    assert(inode_ok(e, own, ino, troot(e, ino, ino, r), tsize(e, ino, ino, s), theight(e, ino, ino, h)));
    assert(pos_ok(e, own, ino, r, h, off, h as int));
    assert forall|o: u32, k: int| o < cap(h as int) && 0 <= k <= h implies #[trigger] node(e2, r, h, o, k)
        == node(e, r, h, o, k) by {
        assert forall|k2: int| 0 <= k2 < k implies #[trigger] node(e, r, h, o, k2) == 0 || e2[node(
            e,
            r,
            h,
            o,
            k2,
        ) as int] == e[node(e, r, h, o, k2) as int] by {
            assert(pos_ok(e, own, ino, r, h, o, k2));
        }
        lemma_node_frame(e, e2, r, h, o, k);
    }
    assert forall|i: u32| i < n_of(e) * 64 && i != ino implies #[trigger] kept_for(e, e2, own, i) by {}
    assert(others_kept(e, e2, ino));
    assert(owners_kept(own, own));
    lemma_others_frame(e, e2, own, own, ino, r, s, h);
    assert forall|k: int| 0 <= k < c.len() implies e2[#[trigger] c[k] as int] == e[c[k] as int] by {
        assert(free_ok(e, own, c, k, 0));
    }
    assert forall|k: int, m: int|
        0 <= k < c.len() && 0 <= m < 128 && #[trigger] fblock(e, c, k, m) != 0 implies own.contains_key(
            fblock(e, c, k, m),
        ) by {
        assert(free_ok(e, own, c, k, m));
    }
    lemma_frees_frame(e, e2, own, own, c);
    assert forall|o: u32, k: int| o < cap(h as int) && 0 <= k <= h implies #[trigger] pos_ok(
        e2,
        own,
        ino,
        r,
        h,
        o,
        k,
    ) by {
        assert(pos_ok(e, own, ino, r, h, o, k));
        assert(node(e2, r, h, o, k) == node(e, r, h, o, k));
    }
    assert forall|o: u32| s <= o < cap(h as int) implies #[trigger] node(e2, r, h, o, h as int) == 0 by {
        assert(node(e2, r, h, o, h as int) == node(e, r, h, o, h as int));
    }
    assert(block_sized(e2));
    assert(inode_ok(e2, own, ino, r, s, h));
    lemma_gather(e2, own, c, ino, r, s, h);
    assert(node(e2, r, h, off, h as int) == w);
    assert forall|o: u32| o < cap(h as int) && o != off implies #[trigger] leaf(e2, node(e2, r, h, o, h as int))
        == leaf(e, node(e, r, h, o, h as int)) by {
        assert(node(e2, r, h, o, h as int) == node(e, r, h, o, h as int));
        assert(pos_ok(e, own, ino, r, h, o, h as int));
        assert(cap(0) == 1);
    }
}

/// Inode `ino` may be taken to hold more blocks, up to what its tree holds.
pub proof fn lemma_resize(e: Seq<Seq<i8>>, c: Seq<u32>, own: Map<u32, Owner>, ino: u32, r: u32, s: u32, h: u32, s2: u32)
    requires
        store_ok(e, c, own, ino, r, s, h),
        ino < n_of(e) * 64,
        s <= s2 <= cap(h as int),
        s2 == 0 ==> r == 0,
    ensures
        store_ok(e, c, own, ino, r, s2, h),
{
    reveal(trees_ok);
    reveal(inode_ok);
    assert(inode_ok(e, own, ino, troot(e, ino, ino, r), tsize(e, ino, ino, s), theight(e, ino, ino, h)));
    assert forall|i: u32| i < n_of(e) * 64 implies #[trigger] inode_ok(
        e,
        own,
        i,
        troot(e, i, ino, r),
        tsize(e, i, ino, s2),
        theight(e, i, ino, h),
    ) by {
        assert(inode_ok(e, own, i, troot(e, i, ino, r), tsize(e, i, ino, s), theight(e, i, ino, h)));
    }
}

/// Writing inode block `ib` so that inode `ino` has root `r` and `s` blocks, the other
/// inodes as they were, makes the store sound as its inode blocks have it.
#[verifier::spinoff_prover]
pub proof fn lemma_set_inode(
    e: Seq<Seq<i8>>,
    c: Seq<u32>,
    own: Map<u32, Owner>,
    ino: u32,
    r: u32,
    s: u32,
    e2: Seq<Seq<i8>>,
)
    requires
        store_ok(e, c, own, ino, r, s, levels(s)),
        ino < n_of(e) * 64,
        e2.len() == e.len(),
        block_sized(e2),
        e2[0] == e[0],
        forall|b: int| 0 <= b < e.len() && b != 1 + ino / 64 ==> #[trigger] e2[b] == e[b],
        iroot(e2, ino) == r,
        isize(e2, ino) == s,
        others_kept(e, e2, ino),
    ensures
        sound(e2, c, own),
        fcount(e2, c) == fcount(e, c),
        forall|i: u32, o: u32|
            i < n_of(e) * 64 && i != ino && o < isize(e, i) ==> #[trigger] content(e2, i, o) == content(e, i, o),
        forall|o: u32, k: int|
            o < cap(levels(s) as int) && 0 <= k <= levels(s) ==> #[trigger] node(e2, r, levels(s), o, k)
                == node(e, r, levels(s), o, k),
        forall|o: u32|
            o < cap(levels(s) as int) ==> #[trigger] content(e2, ino, o) == leaf(
                e,
                node(e, r, levels(s), o, levels(s) as int),
            ),
{
    reveal(frees_ok);
    reveal(free_ok);
    reveal(trees_ok);
    reveal(inode_ok);
    let h = levels(s);
    assert(trees_kept(e, e2, own));
    lemma_trees_frame(e, e2, own, ino, r, s, h);
    assert forall|k: int| 0 <= k < c.len() implies e2[#[trigger] c[k] as int] == e[c[k] as int] by {
        assert(free_ok(e, own, c, k, 0));
    }
    assert forall|k: int, m: int|
        0 <= k < c.len() && 0 <= m < 128 && #[trigger] fblock(e, c, k, m) != 0 implies own.contains_key(
            fblock(e, c, k, m),
        ) by {
        assert(free_ok(e, own, c, k, m));
    }
    lemma_frees_frame(e, e2, own, own, c);
    lemma_sound_as(e2, c, own, ino);
    assert forall|i: u32| i < n_of(e) * 64 && i != ino implies #[trigger] kept_for(e, e2, own, i) by {}
    assert(owners_kept(own, own));
    lemma_others_frame(e, e2, own, own, ino, r, s, h);
    assert(inode_ok(e, own, ino, troot(e, ino, ino, r), tsize(e, ino, ino, s), theight(e, ino, ino, h)));
    assert(kept_for(e, e2, own, ino));
    lemma_inode_frame(e, e2, own, own, ino, r, s, h);
    assert forall|o: u32| o < cap(h as int) implies #[trigger] content(e2, ino, o) == leaf(
        e,
        node(e, r, levels(s), o, levels(s) as int),
    ) by {
        assert(leaf(e2, node(e2, r, h, o, h as int)) == leaf(e, node(e, r, h, o, h as int)));
    }
}


/// `cap` grows with the number of levels.
pub proof fn lemma_cap_mono(a: int, b: int)
    requires
        0 <= a <= b,
    ensures
        cap(a) <= cap(b),
    decreases b - a,
{
    if a < b {
        lemma_cap_mono(a, b - 1);
        lemma_cap(b - 1);
    }
}

/// How the levels for `nb` blocks compare with those reaching block `off`.
pub proof fn lemma_levels_order(nb: u32, off: u32)
    requires
        off < u32::MAX,
    ensures
        off < nb ==> off < cap(levels(nb) as int),
        nb > 0 && nb <= off && off < cap(levels(nb) as int) ==> levels((off + 1) as u32) == levels(nb),
        off >= cap(levels(nb) as int) ==> levels((off + 1) as u32) > levels(nb) && off >= cap(
            levels((off + 1) as u32) - 1,
        ) && off < cap(levels((off + 1) as u32) as int),
        off + 1 <= cap(levels((off + 1) as u32) as int),
{
    let l0 = levels(nb);
    let l1 = levels((off + 1) as u32);
    lemma_levels(nb);
    lemma_levels((off + 1) as u32);
    if l1 <= l0 {
        lemma_cap_mono(l1 as int, l0 as int);
    }
    if l1 > 0 && l0 <= l1 - 1 {
        lemma_cap_mono(l0 as int, l1 - 1);
    }
    if nb > 0 && l0 > 0 && l1 <= l0 - 1 {
        lemma_cap_mono(l1 as int, l0 - 1);
    }
}

/// Inode `ino` with no root reads as zeroes at any height and size its tree holds.
pub proof fn lemma_empty_inode(
    d: Seq<Seq<i8>>,
    c: Seq<u32>,
    own: Map<u32, Owner>,
    ino: u32,
    s: u32,
    h: u32,
    s2: u32,
    h2: u32,
)
    requires
        store_ok(d, c, own, ino, 0, s, h),
        ino < n_of(d) * 64,
        h2 <= 5,
        s2 <= cap(h2 as int),
    ensures
        store_ok(d, c, own, ino, 0, s2, h2),
{
    reveal(trees_ok);
    reveal(inode_ok);
    reveal(pos_ok);
    assert forall|o: u32, k: int| 0 <= k <= h2 implies #[trigger] node(d, 0, h2, o, k) == 0 by {
        lemma_node_zero(d, h2, o, k);
    }
    assert forall|o: u32, k: int| o < cap(h2 as int) && 0 <= k <= h2 implies #[trigger] pos_ok(
        d,
        own,
        ino,
        0,
        h2,
        o,
        k,
    ) by {
        assert(node(d, 0, h2, o, k) == 0);
    }
    assert forall|o: u32| s2 <= o < cap(h2 as int) implies #[trigger] node(d, 0, h2, o, h2 as int) == 0 by {}
    assert(inode_ok(d, own, ino, 0, s2, h2));
    assert forall|i: u32| i < n_of(d) * 64 implies #[trigger] inode_ok(
        d,
        own,
        i,
        troot(d, i, ino, 0),
        tsize(d, i, ino, s2),
        theight(d, i, ino, h2),
    ) by {
        if i != ino {
            assert(inode_ok(d, own, i, troot(d, i, ino, 0), tsize(d, i, ino, s), theight(d, i, ino, h)));
        }
    }
}

/// The first zero on a walk, counted from depth `i`, once every block above depth `j`
/// is nonzero and depth `j` holds 0 (or lies below the data level).
pub proof fn lemma_first_zero_at(d: Seq<Seq<i8>>, b: u32, h: u32, o: u32, i: int, j: int)
    requires
        0 <= i <= j <= h + 1,
        forall|k: int| i <= k < j ==> #[trigger] node(d, b, h, o, k) != 0,
        j <= h ==> node(d, b, h, o, j) == 0,
    ensures
        first_zero(d, b, h, o, i) == j,
    decreases j - i,
{
    if i < j {
        assert(node(d, b, h, o, i) != 0);
        lemma_first_zero_at(d, b, h, o, i + 1, j);
    }
}

/// The first zero from depth `i` on lies between `i` and `h + 1`; past a nonzero block
/// it is the first zero from the next depth.
pub proof fn lemma_first_zero_bounds(d: Seq<Seq<i8>>, b: u32, h: u32, o: u32, i: int)
    requires
        0 <= i <= h + 1,
    ensures
        i <= first_zero(d, b, h, o, i) <= h + 1,
        i <= h && node(d, b, h, o, i) != 0 ==> first_zero(d, b, h, o, i) == first_zero(d, b, h, o, i + 1),
    decreases h + 1 - i,
{
    if i <= h && node(d, b, h, o, i) != 0 {
        lemma_first_zero_bounds(d, b, h, o, i + 1);
    }
}

/// Walks that meet the same blocks meet their first zero at the same depth.
pub proof fn lemma_first_zero_same(d: Seq<Seq<i8>>, d2: Seq<Seq<i8>>, b: u32, h: u32, o: u32, i: int)
    requires
        0 <= i <= h + 1,
        forall|k: int| 0 <= k <= h ==> #[trigger] node(d2, b, h, o, k) == node(d, b, h, o, k),
    ensures
        first_zero(d2, b, h, o, i) == first_zero(d, b, h, o, i),
    decreases h + 1 - i,
{
    if i <= h {
        assert(node(d2, b, h, o, i) == node(d, b, h, o, i));
        lemma_first_zero_same(d, d2, b, h, o, i + 1);
    }
}

/// A sound store with free blocks left has a free-list head on the disk.
pub proof fn lemma_head(d: Seq<Seq<i8>>, c: Seq<u32>, own: Map<u32, Owner>)
    requires
        frees_ok(d, own, c),
        fcount(d, c) > 0,
    ensures
        head_of(d) != 0,
        head_of(d) < d.len(),
{
    reveal(frees_ok);
    reveal(chain_ok);
    reveal(free_ok);
    assert(c.len() > 0);
    assert(free_ok(d, own, c, 0, 0));
}

/// Taking a block off the free list commutes with a write to a block that is neither
/// the superblock nor the head free-list block.
pub proof fn lemma_popped_commute(d: Seq<Seq<i8>>, p: int, v: Seq<i8>)
    requires
        0 < p < d.len(),
        p != head_of(d),
        head_of(d) < d.len(),
    ensures
        popped(d.update(p, v)).1 == popped(d).1,
        popped(d.update(p, v)).0 == popped(d).0.update(p, v),
{
    let d2 = d.update(p, v);
    assert(d2[0] == d[0]);
    assert(d2[head_of(d) as int] == d[head_of(d) as int]);
    assert(popped(d2).0 =~= popped(d).0.update(p, v));
}


/// A write of block `off` of inode `ino`, begun on disk `d0`, while its tree grows:
/// the store `e` is sound with inode `ino` taken to have root `r`, its `nb` blocks
/// and `hc` levels; every block of every inode reads as in `d0`.
pub open spec fn growing(
    e: Seq<Seq<i8>>,
    c: Seq<u32>,
    own: Map<u32, Owner>,
    d0: Seq<Seq<i8>>,
    ino: u32,
    r: u32,
    nb: u32,
    hc: u32,
) -> bool {
    &&& store_ok(e, c, own, ino, r, nb, hc)
    &&& ino < n_of(e) * 64
    &&& n_of(e) == n_of(d0)
    &&& e.len() == d0.len()
    &&& nb == isize(d0, ino)
    &&& forall|b: int| 1 <= b <= n_of(e) ==> #[trigger] e[b] == d0[b]
    &&& forall|o: u32|
        o < cap(hc as int) ==> #[trigger] leaf(e, node(e, r, hc, o, hc as int)) == if o < nb {
            content(d0, ino, o)
        } else {
            zero_block()
        }
    &&& forall|i: u32, o: u32|
        i < n_of(e) * 64 && i != ino && o < isize(d0, i) ==> #[trigger] content(e, i, o) == content(d0, i, o)
}

/// A write of block `off` of inode `ino`, begun on disk `d0`, on its way down: the
/// store `e` is sound, inode `ino` holds `s1` blocks in `h` levels, the walk to `off`
/// meets no 0 above depth `j`, and every block but `off` reads as in `d0` (zeroes past
/// the old end).
pub open spec fn descent(
    e: Seq<Seq<i8>>,
    c: Seq<u32>,
    own: Map<u32, Owner>,
    d0: Seq<Seq<i8>>,
    ino: u32,
    off: u32,
    s1: u32,
    h: u32,
    j: int,
) -> bool {
    &&& sound(e, c, own)
    &&& ino < n_of(e) * 64
    &&& n_of(e) == n_of(d0)
    &&& e.len() == d0.len()
    &&& isize(e, ino) == s1
    &&& h == levels(s1)
    &&& off < s1
    &&& 0 <= j <= h + 1
    &&& forall|k: int| 0 <= k < j ==> #[trigger] node(e, iroot(e, ino), h, off, k) != 0
    &&& forall|o: u32|
        o < s1 && o != off ==> #[trigger] content(e, ino, o) == if o < isize(d0, ino) {
            content(d0, ino, o)
        } else {
            zero_block()
        }
    &&& forall|i: u32| i < n_of(e) * 64 && i != ino ==> #[trigger] isize(e, i) == isize(d0, i)
    &&& forall|i: u32, o: u32|
        i < n_of(e) * 64 && i != ino && o < isize(d0, i) ==> #[trigger] content(e, i, o) == content(d0, i, o)
}

/// A sound store with free blocks left has a free-list head on the disk, and the tree
/// blocks of inode `ino` lie past the inode blocks, apart from that head.
pub proof fn lemma_store_facts(
    e: Seq<Seq<i8>>,
    c: Seq<u32>,
    own: Map<u32, Owner>,
    ino: u32,
    r: u32,
    s: u32,
    h: u32,
)
    requires
        store_ok(e, c, own, ino, r, s, h),
        ino < n_of(e) * 64,
    ensures
        fcount(e, c) > 0 ==> head_of(e) != 0 && n_of(e) < head_of(e) < e.len(),
        h <= 5,
        s <= cap(h as int),
        s == 0 ==> r == 0,
        forall|o: u32, k: int|
            o < cap(h as int) && 0 <= k <= h && #[trigger] node(e, r, h, o, k) != 0 ==> n_of(e) < node(
                e,
                r,
                h,
                o,
                k,
            ) < e.len() && node(e, r, h, o, k) != head_of(e),
        forall|o: u32| s <= o < cap(h as int) ==> #[trigger] node(e, r, h, o, h as int) == 0,
{
    reveal(trees_ok);
    reveal(inode_ok);
    reveal(pos_ok);
    reveal(frees_ok);
    reveal(free_ok);
    reveal(chain_ok);
    if fcount(e, c) > 0 {
        lemma_head(e, c, own);
        assert(free_ok(e, own, c, 0, 0));
    }
    assert(inode_ok(e, own, ino, troot(e, ino, ino, r), tsize(e, ino, ino, s), theight(e, ino, ino, h)));
    assert forall|o: u32, k: int|
        o < cap(h as int) && 0 <= k <= h && #[trigger] node(e, r, h, o, k) != 0 implies n_of(e) < node(
            e,
            r,
            h,
            o,
            k,
        ) < e.len() && node(e, r, h, o, k) != head_of(e) by {
        assert(pos_ok(e, own, ino, r, h, o, k));
        if head_of(e) != 0 {
            assert(c.len() > 0);
            assert(free_ok(e, own, c, 0, 0));
        }
    }
}

/// A write begins growing on a sound store.
pub proof fn lemma_growing_start(d0: Seq<Seq<i8>>, c: Seq<u32>, own: Map<u32, Owner>, ino: u32)
    requires
        sound(d0, c, own),
        ino < n_of(d0) * 64,
    ensures
        growing(d0, c, own, d0, ino, iroot(d0, ino), isize(d0, ino), levels(isize(d0, ino))),
{
    lemma_sound_as(d0, c, own, ino);
    let r = iroot(d0, ino);
    let nb = isize(d0, ino);
    let h = levels(nb);
    lemma_store_facts(d0, c, own, ino, r, nb, h);
    assert forall|o: u32| o < cap(h as int) implies #[trigger] leaf(d0, node(d0, r, h, o, h as int)) == if o
        < nb {
        content(d0, ino, o)
    } else {
        zero_block()
    } by {
        if o >= nb {
            assert(node(d0, r, h, o, h as int) == 0);
        }
    }
}

/// An empty inode may grow to any height at once.
pub proof fn lemma_growing_empty(
    e: Seq<Seq<i8>>,
    c: Seq<u32>,
    own: Map<u32, Owner>,
    d0: Seq<Seq<i8>>,
    ino: u32,
    hc: u32,
    h2: u32,
)
    requires
        growing(e, c, own, d0, ino, 0, 0, hc),
        h2 <= 5,
    ensures
        growing(e, c, own, d0, ino, 0, 0, h2),
{
    lemma_cap(h2 as int);
    lemma_empty_inode(e, c, own, ino, 0, hc, 0, h2);
    assert forall|o: u32| o < cap(h2 as int) implies #[trigger] leaf(e, node(e, 0, h2, o, h2 as int))
        == zero_block() by {
        lemma_node_zero(e, h2, o, h2 as int);
    }
}

/// One growth step: a block taken off the free list becomes the new top of the tree.
#[verifier::spinoff_prover]
pub proof fn lemma_growing_step(
    e: Seq<Seq<i8>>,
    c: Seq<u32>,
    own: Map<u32, Owner>,
    d0: Seq<Seq<i8>>,
    ino: u32,
    r: u32,
    nb: u32,
    hc: u32,
) -> (res: (Seq<u32>, Map<u32, Owner>))
    requires
        growing(e, c, own, d0, ino, r, nb, hc),
        nb > 0,
        hc < 5,
        fcount(e, c) > 0,
    ensures
        ({
            let (e1, x) = popped(e);
            let e2 = e1.update(x as int, top_block(r));
            &&& growing(e2, res.0, res.1, d0, ino, x, nb, (hc + 1) as u32)
            &&& fcount(e2, res.0) + 1 == fcount(e, c)
            &&& n_of(e) < x < e.len()
            &&& forall|o: u32|
                cap(hc as int) <= o < cap(hc + 1) ==> #[trigger] node(e2, x, (hc + 1) as u32, o, 1) == 0
        }),
{
    lemma_store_facts(e, c, own, ino, r, nb, hc);
    let c2 = lemma_pop(e, c, own, ino, r, nb, hc);
    let (e1, x) = popped(e);
    let own2 = own.insert(x, Owner::Tree { ino: ino, level: hc + 1, prefix: 0 });
    let e2 = e1.update(x as int, top_block(r));
    lemma_grow(e1, c2, own, ino, r, nb, hc, x);
    reveal(trees_ok);
    assert(inode_ok(e, own, ino, troot(e, ino, ino, r), tsize(e, ino, ino, nb), theight(e, ino, ino, hc)));
    assert(kept_for(e, e1, own, ino));
    assert(owners_kept(own, own));
    lemma_inode_frame(e, e1, own, own, ino, r, nb, hc);
    assert forall|i: u32| i < n_of(e) * 64 && i != ino implies #[trigger] kept_for(e, e1, own, i) by {}
    assert(others_kept(e, e1, ino));
    lemma_others_frame(e, e1, own, own, ino, r, nb, hc);
    lemma_cap(hc as int);
    assert forall|o: u32| o < cap(hc + 1) implies #[trigger] leaf(e2, node(e2, x, (hc + 1) as u32, o, hc + 1))
        == if o < nb {
        content(d0, ino, o)
    } else {
        zero_block()
    } by {
        if o < cap(hc as int) {
            assert(leaf(e2, node(e2, x, (hc + 1) as u32, o, hc + 1)) == leaf(e1, node(e1, r, hc, o, hc as int)));
            assert(leaf(e1, node(e1, r, hc, o, hc as int)) == leaf(e, node(e, r, hc, o, hc as int)));
        } else {
            assert(node(e2, x, (hc + 1) as u32, o, 1) == 0);
            lemma_node_stays_zero(e2, x, (hc + 1) as u32, o, 1, hc + 1);
        }
    }
    (c2, own2)
}

/// The end of growth: writing the inode block with root `r` and `s1` blocks begins the
/// way down at depth 0.
#[verifier::spinoff_prover]
pub proof fn lemma_growing_done(
    e: Seq<Seq<i8>>,
    c: Seq<u32>,
    own: Map<u32, Owner>,
    d0: Seq<Seq<i8>>,
    ino: u32,
    r: u32,
    nb: u32,
    off: u32,
    s1: u32,
    e2: Seq<Seq<i8>>,
)
    requires
        growing(e, c, own, d0, ino, r, nb, levels(s1)),
        nb <= s1 <= cap(levels(s1) as int),
        s1 == 0 ==> r == 0,
        off < s1,
        e2.len() == e.len(),
        block_sized(e2),
        e2[0] == e[0],
        forall|b: int| 0 <= b < e.len() && b != 1 + ino / 64 ==> #[trigger] e2[b] == e[b],
        iroot(e2, ino) == r,
        isize(e2, ino) == s1,
        others_kept(e, e2, ino),
    ensures
        descent(e2, c, own, d0, ino, off, s1, levels(s1), 0),
        fcount(e2, c) == fcount(e, c),
        forall|k: int|
            0 <= k <= levels(s1) ==> #[trigger] node(e2, r, levels(s1), off, k) == node(e, r, levels(s1), off, k),
{
    let h = levels(s1);
    lemma_resize(e, c, own, ino, r, nb, h, s1);
    lemma_set_inode(e, c, own, ino, r, s1, e2);
    lemma_store_facts(e, c, own, ino, r, nb, h);
    assert forall|o: u32| o < s1 && o != off implies #[trigger] content(e2, ino, o) == if o < isize(d0, ino) {
        content(d0, ino, o)
    } else {
        zero_block()
    } by {
        assert(content(e2, ino, o) == leaf(e, node(e, r, h, o, h as int)));
    }
    assert forall|i: u32| i < n_of(e2) * 64 && i != ino implies #[trigger] isize(e2, i) == isize(d0, i) by {
        assert(iroot(e2, i) == iroot(e, i));
        assert(1 <= 1 + i / 64 <= n_of(e));
        assert(e[1 + i / 64] == d0[1 + i / 64]);
    }
}

/// Without growth or a new size, a write begins its way down on the store as it is.
pub proof fn lemma_descent_start(d0: Seq<Seq<i8>>, c: Seq<u32>, own: Map<u32, Owner>, ino: u32, off: u32)
    requires
        sound(d0, c, own),
        ino < n_of(d0) * 64,
        off < isize(d0, ino),
    ensures
        descent(d0, c, own, d0, ino, off, isize(d0, ino), levels(isize(d0, ino)), 0),
{
}

/// Facts of the way down: the walk's blocks lie past the inode blocks and apart from
/// the free-list head; a nonzero block at depth `j` continues the way down.
pub proof fn lemma_descent_facts(
    e: Seq<Seq<i8>>,
    c: Seq<u32>,
    own: Map<u32, Owner>,
    d0: Seq<Seq<i8>>,
    ino: u32,
    off: u32,
    s1: u32,
    h: u32,
    j: int,
)
    requires
        descent(e, c, own, d0, ino, off, s1, h, j),
    ensures
        fcount(e, c) > 0 ==> head_of(e) != 0 && n_of(e) < head_of(e) < e.len(),
        h <= 5,
        off < cap(h as int),
        forall|k: int|
            0 <= k <= h && #[trigger] node(e, iroot(e, ino), h, off, k) != 0 ==> n_of(e) < node(
                e,
                iroot(e, ino),
                h,
                off,
                k,
            ) < e.len() && node(e, iroot(e, ino), h, off, k) != head_of(e),
        free_count(e) == fcount(e, c),
        j <= h && node(e, iroot(e, ino), h, off, j) != 0 ==> descent(e, c, own, d0, ino, off, s1, h, j + 1),
        j <= h + 1 ==> first_zero(e, iroot(e, ino), h, off, 0) == first_zero(e, iroot(e, ino), h, off, j),
        j <= h + 1 ==> j <= first_zero(e, iroot(e, ino), h, off, j) <= h + 1,
{
    lemma_sound_as(e, c, own, ino);
    lemma_store_facts(e, c, own, ino, iroot(e, ino), s1, h);
    lemma_free_count(e, c, own);
    lemma_first_zero_skip(e, iroot(e, ino), h, off, 0, j);
    lemma_first_zero_bounds(e, iroot(e, ino), h, off, j);
}

/// Past blocks that are all nonzero, the first zero is the first from there on.
pub proof fn lemma_first_zero_skip(d: Seq<Seq<i8>>, b: u32, h: u32, o: u32, i: int, j: int)
    requires
        0 <= i <= j <= h + 1,
        forall|k: int| i <= k < j ==> #[trigger] node(d, b, h, o, k) != 0,
    ensures
        first_zero(d, b, h, o, i) == first_zero(d, b, h, o, j),
    decreases j - i,
{
    if i < j {
        assert(node(d, b, h, o, i) != 0);
        lemma_first_zero_skip(d, b, h, o, i + 1, j);
    }
}


/// The disk after a step down that meets 0 at depth `j`: the block taken off the free
/// list, `x`, is hung there with contents `xc` (as the root, through the inode block,
/// when `j` is 0).
pub open spec fn hung(e: Seq<Seq<i8>>, ino: u32, off: u32, h: u32, j: int, xc: Seq<i8>) -> Seq<Seq<i8>> {
    let (e1, x) = popped(e);
    let ib = 1 + ino / 64;
    if j == 0 {
        e1.update(x as int, xc).update(ib, splice(e[ib], 8 * (ino % 64), le_bytes(x)))
    } else {
        attached(e1, iroot(e, ino), h, j, off, x, xc)
    }
}

/// What a step down that hangs a fresh block at depth `j` leads to.
pub open spec fn hang_ok(
    e: Seq<Seq<i8>>,
    c: Seq<u32>,
    d0: Seq<Seq<i8>>,
    ino: u32,
    off: u32,
    s1: u32,
    h: u32,
    j: int,
    xc: Seq<i8>,
    c2: Seq<u32>,
    own2: Map<u32, Owner>,
) -> bool {
    let x = popped(e).1;
    let e2 = hung(e, ino, off, h, j, xc);
    &&& descent(e2, c2, own2, d0, ino, off, s1, h, j + 1)
    &&& fcount(e2, c2) + 1 == fcount(e, c)
    &&& first_zero(e, iroot(e, ino), h, off, 0) == j
    &&& first_zero(e2, iroot(e2, ino), h, off, 0) == j + 1
    &&& n_of(e) < x < e.len()
    &&& x != 1 + ino / 64
    &&& j > 0 ==> iroot(e2, ino) == iroot(e, ino)
    &&& node(e2, iroot(e2, ino), h, off, j) == x
    &&& j > 0 ==> {
        let p = node(e, iroot(e, ino), h, off, j - 1);
        e2 == popped(e).0.update(p as int, splice(e[p as int], 4 * digit(off, (h - j) as u32), le_bytes(x))).update(
            x as int,
            xc,
        )
    }
    &&& content(e2, ino, off) == if j == h {
        xc
    } else {
        zero_block()
    }
}

/// A step down that meets 0 at depth `j` takes a block off the free list and hangs it
/// there, zeroes above the data level and `xc` at it.
pub proof fn lemma_descent_hang(
    e: Seq<Seq<i8>>,
    c: Seq<u32>,
    own: Map<u32, Owner>,
    d0: Seq<Seq<i8>>,
    ino: u32,
    off: u32,
    s1: u32,
    h: u32,
    j: int,
    xc: Seq<i8>,
) -> (res: (Seq<u32>, Map<u32, Owner>))
    requires
        descent(e, c, own, d0, ino, off, s1, h, j),
        j <= h,
        node(e, iroot(e, ino), h, off, j) == 0,
        fcount(e, c) > 0,
        xc.len() == 512,
        j < h ==> xc == zero_block(),
    ensures
        hang_ok(e, c, d0, ino, off, s1, h, j, xc, res.0, res.1),
{
    let r = iroot(e, ino);
    lemma_sound_as(e, c, own, ino);
    lemma_store_facts(e, c, own, ino, r, s1, h);
    lemma_first_zero_at(e, r, h, off, 0, j);
    let c2 = lemma_pop(e, c, own, ino, r, s1, h);
    lemma_pop_frame(e, c, own, ino, r, s1, h, c2);
    if j == 0 {
        lemma_hang_root(e, c, own, d0, ino, off, s1, h, xc, c2)
    } else {
        lemma_hang_child(e, c, own, d0, ino, off, s1, h, j, xc, c2)
    }
}

/// What taking a block off the free list keeps of the tree of `ino` and of the others.
#[verifier::spinoff_prover]
proof fn lemma_pop_frame(
    e: Seq<Seq<i8>>,
    c: Seq<u32>,
    own: Map<u32, Owner>,
    ino: u32,
    r: u32,
    s: u32,
    h: u32,
    c2: Seq<u32>,
)
    requires
        store_ok(e, c, own, ino, r, s, h),
        ino < n_of(e) * 64,
        pop_ok(e, c, own, ino, r, s, h, popped(e).0, popped(e).1, c2),
    ensures
        ({
            let e1 = popped(e).0;
            &&& forall|o: u32, k: int|
                o < cap(h as int) && 0 <= k <= h ==> #[trigger] node(e1, r, h, o, k) == node(e, r, h, o, k)
            &&& forall|o: u32|
                o < cap(h as int) ==> #[trigger] leaf(e1, node(e1, r, h, o, h as int)) == leaf(
                    e,
                    node(e, r, h, o, h as int),
                )
            &&& forall|i: u32, o: u32|
                i < n_of(e) * 64 && i != ino && o < isize(e, i) ==> #[trigger] content(e1, i, o) == content(
                    e,
                    i,
                    o,
                )
            &&& forall|i: u32| i < n_of(e) * 64 ==> #[trigger] iroot(e1, i) == iroot(e, i) && isize(e1, i) == isize(e, i)
            &&& fresh(e1, c2, own, popped(e).1)
        }),
{
    let e1 = popped(e).0;
    reveal(trees_ok);
    assert(inode_ok(e, own, ino, troot(e, ino, ino, r), tsize(e, ino, ino, s), theight(e, ino, ino, h)));
    assert(kept_for(e, e1, own, ino));
    assert(owners_kept(own, own));
    lemma_inode_frame(e, e1, own, own, ino, r, s, h);
    assert forall|i: u32| i < n_of(e) * 64 && i != ino implies #[trigger] kept_for(e, e1, own, i) by {}
    assert forall|i: u32| i < n_of(e) * 64 implies #[trigger] iroot(e1, i) == iroot(e, i) && isize(e1, i) == isize(
        e,
        i,
    ) by {
        assert(e1[1 + i / 64] == e[1 + i / 64]);
    }
    assert(others_kept(e, e1, ino));
    lemma_others_frame(e, e1, own, own, ino, r, s, h);
}

#[verifier::spinoff_prover]
proof fn lemma_hang_root(
    e: Seq<Seq<i8>>,
    c: Seq<u32>,
    own: Map<u32, Owner>,
    d0: Seq<Seq<i8>>,
    ino: u32,
    off: u32,
    s1: u32,
    h: u32,
    xc: Seq<i8>,
    c2: Seq<u32>,
) -> (res: (Seq<u32>, Map<u32, Owner>))
    requires
        descent(e, c, own, d0, ino, off, s1, h, 0),
        node(e, iroot(e, ino), h, off, 0) == 0,
        store_ok(e, c, own, ino, iroot(e, ino), s1, h),
        h <= 5,
        s1 <= cap(h as int),
        first_zero(e, iroot(e, ino), h, off, 0) == 0,
        xc.len() == 512,
        0 < h ==> xc == zero_block(),
        pop_ok(e, c, own, ino, iroot(e, ino), s1, h, popped(e).0, popped(e).1, c2),
        ({
            let e1 = popped(e).0;
            &&& forall|i: u32, o: u32|
                i < n_of(e) * 64 && i != ino && o < isize(e, i) ==> #[trigger] content(e1, i, o) == content(
                    e,
                    i,
                    o,
                )
            &&& forall|i: u32| i < n_of(e) * 64 ==> #[trigger] iroot(e1, i) == iroot(e, i) && isize(e1, i) == isize(e, i)
            &&& fresh(e1, c2, own, popped(e).1)
        }),
    ensures
        hang_ok(e, c, d0, ino, off, s1, h, 0, xc, res.0, res.1),
{
    let ib = 1 + ino / 64;
    let (e1, x) = popped(e);
    let own2 = own.insert(x, Owner::Tree { ino: ino, level: h as int, prefix: 0 });
    let e3 = e1.update(x as int, xc);
    let blk = splice(e[ib], 8 * (ino % 64), le_bytes(x));
    let e2 = e3.update(ib, blk);
    assert(e2 == hung(e, ino, off, h, 0, xc));
    assert(iroot(e1, ino) == iroot(e, ino));
    lemma_attach_root(e1, c2, own, ino, s1, h, off, x, xc);
    assert(e1[ib] == e[ib]);
    assert(e3[ib] == e[ib]);
    assert(e[ib].len() == 512);
    lemma_le_splice(e[ib], 8 * (ino % 64), x);
    assert(iroot(e2, ino) == x);
    assert(crate::common::le_u32_at(blk, 8 * (ino % 64) + 4) == crate::common::le_u32_at(
        e[ib],
        8 * (ino % 64) + 4,
    ));
    assert(isize(e2, ino) == s1);
    assert forall|i: u32| i < n_of(e3) * 64 && i != ino implies #[trigger] iroot(e2, i) == iroot(e3, i)
        && isize(e2, i) == isize(e3, i) by {
        if 1 + i / 64 == ib {
            assert(i % 64 != ino % 64);
            assert(crate::common::le_u32_at(blk, 8 * (i % 64)) == crate::common::le_u32_at(
                e[ib],
                8 * (i % 64),
            ));
            assert(crate::common::le_u32_at(blk, 8 * (i % 64) + 4) == crate::common::le_u32_at(
                e[ib],
                8 * (i % 64) + 4,
            ));
        }
    }
    assert(others_kept(e3, e2, ino));
    lemma_set_inode(e3, c2, own2, ino, x, s1, e2);
    assert forall|o: u32| o < s1 && o != off implies #[trigger] content(e2, ino, o) == if o < isize(
        d0,
        ino,
    ) {
        content(d0, ino, o)
    } else {
        zero_block()
    } by {
        assert(content(e2, ino, o) == leaf(e3, node(e3, x, h, o, h as int)));
        assert(leaf(e3, node(e3, x, h, o, h as int)) == leaf(e1, node(e1, 0, h, o, h as int)));
        lemma_node_zero(e1, h, o, h as int);
        lemma_node_zero(e, h, o, h as int);
        assert(content(e, ino, o) == zero_block());
    }
    assert forall|i: u32| i < n_of(e2) * 64 && i != ino implies #[trigger] isize(e2, i) == isize(d0, i) by {
        assert(iroot(e2, i) == iroot(e3, i));
        assert(iroot(e1, i) == iroot(e, i));
        assert(isize(e, i) == isize(d0, i));
    }
    assert forall|i: u32, o: u32| i < n_of(e2) * 64 && i != ino && o < isize(d0, i) implies #[trigger] content(
        e2,
        i,
        o,
    ) == content(d0, i, o) by {
        assert(isize(e, i) == isize(d0, i));
        assert(iroot(e1, i) == iroot(e, i));
        assert(content(e2, i, o) == content(e3, i, o));
        assert(content(e3, i, o) == content(e1, i, o));
        assert(content(e1, i, o) == content(e, i, o));
    }
    assert(node(e2, x, h, off, 0) == node(e3, x, h, off, 0));
    if h > 0 {
        assert(node(e2, x, h, off, 1) == node(e3, x, h, off, 1));
    }
    assert forall|k: int| 0 <= k < 1 implies #[trigger] node(e2, iroot(e2, ino), h, off, k) != 0 by {}
    lemma_first_zero_at(e2, x, h, off, 0, 1);
    assert(content(e2, ino, off) == leaf(e3, node(e3, x, h, off, h as int)));
    (c2, own2)
}

#[verifier::spinoff_prover]
proof fn lemma_hang_child(
    e: Seq<Seq<i8>>,
    c: Seq<u32>,
    own: Map<u32, Owner>,
    d0: Seq<Seq<i8>>,
    ino: u32,
    off: u32,
    s1: u32,
    h: u32,
    j: int,
    xc: Seq<i8>,
    c2: Seq<u32>,
) -> (res: (Seq<u32>, Map<u32, Owner>))
    requires
        descent(e, c, own, d0, ino, off, s1, h, j),
        1 <= j <= h,
        node(e, iroot(e, ino), h, off, j) == 0,
        store_ok(e, c, own, ino, iroot(e, ino), s1, h),
        h <= 5,
        s1 <= cap(h as int),
        first_zero(e, iroot(e, ino), h, off, 0) == j,
        xc.len() == 512,
        j < h ==> xc == zero_block(),
        pop_ok(e, c, own, ino, iroot(e, ino), s1, h, popped(e).0, popped(e).1, c2),
        ({
            let e1 = popped(e).0;
            let r = iroot(e, ino);
            &&& forall|o: u32, k: int|
                o < cap(h as int) && 0 <= k <= h ==> #[trigger] node(e1, r, h, o, k) == node(e, r, h, o, k)
            &&& forall|o: u32|
                o < cap(h as int) ==> #[trigger] leaf(e1, node(e1, r, h, o, h as int)) == leaf(
                    e,
                    node(e, r, h, o, h as int),
                )
            &&& forall|i: u32, o: u32|
                i < n_of(e) * 64 && i != ino && o < isize(e, i) ==> #[trigger] content(e1, i, o) == content(
                    e,
                    i,
                    o,
                )
            &&& forall|i: u32| i < n_of(e) * 64 ==> #[trigger] iroot(e1, i) == iroot(e, i) && isize(e1, i) == isize(e, i)
            &&& fresh(e1, c2, own, popped(e).1)
        }),
    ensures
        hang_ok(e, c, d0, ino, off, s1, h, j, xc, res.0, res.1),
{
    let r = iroot(e, ino);
    let ib = 1 + ino / 64;
    let (e1, x) = popped(e);
    let lvl = h - j;
    let own2 = own.insert(x, Owner::Tree { ino: ino, level: lvl, prefix: off as int / cap(lvl) });
    let e2 = attached(e1, r, h, j, off, x, xc);
    assert(e2 == hung(e, ino, off, h, j, xc));
    assert(node(e1, r, h, off, j - 1) == node(e, r, h, off, j - 1));
    assert(node(e1, r, h, off, j) == node(e, r, h, off, j));
    assert(node(e, r, h, off, j - 1) != 0);
    assert(e1[node(e, r, h, off, j - 1) as int] == e[node(e, r, h, off, j - 1) as int]) by {
        reveal(trees_ok);
        reveal(inode_ok);
        reveal(pos_ok);
        assert(inode_ok(e, own, ino, troot(e, ino, ino, r), tsize(e, ino, ino, s1), theight(e, ino, ino, h)));
        assert(pos_ok(e, own, ino, r, h, off, j - 1));
    }
    assert(iroot(e1, ino) == r && isize(e1, ino) == s1);
    lemma_attach_child(e1, c2, own, ino, r, s1, h, j, off, x, xc);
    assert(iroot(e2, ino) == r && isize(e2, ino) == s1) by {
        assert(e2[ib] == e1[ib]);
    }
    lemma_sound_as(e2, c2, own2, ino);
    assert forall|o: u32| o < s1 && o != off implies #[trigger] content(e2, ino, o) == if o < isize(
        d0,
        ino,
    ) {
        content(d0, ino, o)
    } else {
        zero_block()
    } by {
        assert(leaf(e2, node(e2, r, h, o, h as int)) == leaf(e1, node(e1, r, h, o, h as int)));
        assert(leaf(e1, node(e1, r, h, o, h as int)) == leaf(e, node(e, r, h, o, h as int)));
        assert(content(e, ino, o) == leaf(e, node(e, r, h, o, h as int)));
    }
    assert forall|i: u32| i < n_of(e2) * 64 && i != ino implies #[trigger] isize(e2, i) == isize(d0, i) by {
        assert(1 <= 1 + i / 64 <= n_of(e));
        assert(e2[1 + i / 64] == e1[1 + i / 64]);
        assert(iroot(e1, i) == iroot(e, i));
        assert(isize(e, i) == isize(d0, i));
    }
    assert forall|i: u32, o: u32| i < n_of(e2) * 64 && i != ino && o < isize(d0, i) implies #[trigger] content(
        e2,
        i,
        o,
    ) == content(d0, i, o) by {
        assert(isize(e, i) == isize(d0, i));
        assert(iroot(e1, i) == iroot(e, i));
        assert(content(e2, i, o) == content(e1, i, o));
        assert(content(e1, i, o) == content(e, i, o));
    }
    assert forall|k: int| 0 <= k < j + 1 implies #[trigger] node(e2, iroot(e2, ino), h, off, k) != 0 by {
        if k < j {
            assert(node(e2, r, h, off, k) == node(e1, r, h, off, k));
        }
    }
    lemma_first_zero_at(e2, r, h, off, 0, j + 1);
    (c2, own2)
}

/// A step down at the data level that meets a block overwrites it with `data`.
#[verifier::spinoff_prover]
pub proof fn lemma_descent_overwrite(
    e: Seq<Seq<i8>>,
    c: Seq<u32>,
    own: Map<u32, Owner>,
    d0: Seq<Seq<i8>>,
    ino: u32,
    off: u32,
    s1: u32,
    h: u32,
    data: Seq<i8>,
)
    requires
        descent(e, c, own, d0, ino, off, s1, h, h as int),
        node(e, iroot(e, ino), h, off, h as int) != 0,
        data.len() == 512,
    ensures
        ({
            let w = node(e, iroot(e, ino), h, off, h as int);
            let e2 = e.update(w as int, data);
            &&& descent(e2, c, own, d0, ino, off, s1, h, h + 1)
            &&& fcount(e2, c) == fcount(e, c)
            &&& first_zero(e, iroot(e, ino), h, off, 0) == h + 1
            &&& content(e2, ino, off) == data
        }),
{
    let r = iroot(e, ino);
    let ib = 1 + ino / 64;
    lemma_sound_as(e, c, own, ino);
    lemma_store_facts(e, c, own, ino, r, s1, h);
    let w = node(e, r, h, off, h as int);
    let e2 = e.update(w as int, data);
    lemma_overwrite(e, c, own, ino, r, s1, h, off, data);
    assert(iroot(e2, ino) == r && isize(e2, ino) == s1) by {
        assert(e2[ib] == e[ib]);
    }
    lemma_sound_as(e2, c, own, ino);
    assert forall|k: int| 0 <= k < h + 1 implies #[trigger] node(e, r, h, off, k) != 0 by {}
    lemma_first_zero_at(e, r, h, off, 0, h + 1);
    assert forall|k: int| 0 <= k < h + 1 implies #[trigger] node(e2, iroot(e2, ino), h, off, k) != 0 by {
        assert(node(e2, r, h, off, k) == node(e, r, h, off, k));
    }
    assert forall|o: u32| o < s1 && o != off implies #[trigger] content(e2, ino, o) == if o < isize(d0, ino) {
        content(d0, ino, o)
    } else {
        zero_block()
    } by {
        assert(leaf(e2, node(e2, r, h, o, h as int)) == leaf(e, node(e, r, h, o, h as int)));
        assert(content(e, ino, o) == leaf(e, node(e, r, h, o, h as int)));
    }
    assert forall|i: u32| i < n_of(e2) * 64 && i != ino implies #[trigger] isize(e2, i) == isize(d0, i) by {
        assert(1 <= 1 + i / 64 <= n_of(e));
        assert(e2[1 + i / 64] == e[1 + i / 64]);
        assert(isize(e, i) == isize(d0, i));
    }
    assert forall|i: u32, o: u32| i < n_of(e2) * 64 && i != ino && o < isize(d0, i) implies #[trigger] content(
        e2,
        i,
        o,
    ) == content(d0, i, o) by {
        assert(1 <= 1 + i / 64 <= n_of(e));
        assert(e2[1 + i / 64] == e[1 + i / 64]);
        assert(isize(e, i) == isize(d0, i));
        assert(content(e2, i, o) == content(e, i, o));
    }
    assert(content(e2, ino, off) == leaf(e2, node(e2, r, h, off, h as int)));
}


/// On a sound store, a read of block `o` of an existing inode below its size finds
/// every block on its way on the disk and returns the block's contents.
pub proof fn law_read_is_content(d: Seq<Seq<i8>>, ino: u32, o: u32)
    requires
        valid(d),
        ino < n_of(d) * 64,
        o < isize(d, ino),
    ensures
        path_on_disk(d, iroot(d, ino), levels(isize(d, ino)), o),
        lookup(d, iroot(d, ino), levels(isize(d, ino)), o) == content(d, ino, o),
{
    let (c, own) = choose|c: Seq<u32>, own: Map<u32, Owner>| #[trigger] sound(d, c, own);
    let r = iroot(d, ino);
    let s = isize(d, ino);
    let h = levels(s);
    lemma_sound_as(d, c, own, ino);
    lemma_store_facts(d, c, own, ino, r, s, h);
    lemma_lookup_node(d, r, h, o);
    assert forall|j: int| 0 <= j <= h implies #[trigger] node(d, r, h, o, j) < d.len() by {}
}

/// The sizes and contents of a sound store after a write of block `off` of inode
/// `ino`: `block` there, every other block as before, and zeroes between the old end
/// and `off`.
pub open spec fn written(d: Seq<Seq<i8>>, d2: Seq<Seq<i8>>, ino: u32, off: u32, block: Seq<i8>) -> bool {
    let s = isize(d, ino);
    let s1 = if off >= s {
        (off + 1) as u32
    } else {
        s
    };
    &&& valid(d2)
    &&& n_of(d2) == n_of(d)
    &&& isize(d2, ino) == s1
    &&& content(d2, ino, off) == block
    &&& forall|o: u32|
        o < s1 && o != off ==> #[trigger] content(d2, ino, o) == if o < s {
            content(d, ino, o)
        } else {
            zero_block()
        }
    &&& forall|i: u32| i < n_of(d) * 64 && i != ino ==> #[trigger] isize(d2, i) == isize(d, i)
    &&& forall|i: u32, o: u32|
        i < n_of(d) * 64 && i != ino && o < isize(d, i) ==> #[trigger] content(d2, i, o) == content(d, i, o)
}

/// A read after a write: once block `off` of inode `ino` is written, a read of it
/// finds its path on the disk and returns what was written, and a read of any other
/// block below the size returns what it did before (zeroes past the old end).
pub proof fn law_tree_read_after_write(
    d: Seq<Seq<i8>>,
    d2: Seq<Seq<i8>>,
    ino: u32,
    off: u32,
    block: Seq<i8>,
    i: u32,
    o: u32,
)
    requires
        valid(d),
        ino < n_of(d) * 64,
        written(d, d2, ino, off, block),
        i < n_of(d) * 64,
        o < isize(d2, i),
    ensures
        path_on_disk(d2, iroot(d2, i), levels(isize(d2, i)), o),
        lookup(d2, iroot(d2, i), levels(isize(d2, i)), o) == if i == ino && o == off {
            block
        } else if o < isize(d, i) {
            lookup(d, iroot(d, i), levels(isize(d, i)), o)
        } else {
            zero_block()
        },
{
    law_read_is_content(d2, i, o);
    if o < isize(d, i) {
        law_read_is_content(d, i, o);
    }
}


/// Entry `m` of the block whose words are `refs`.
pub proof fn lemma_refs_block_at(refs: Seq<u32>, m: int)
    requires
        refs.len() == 128,
        0 <= m < 128,
    ensures
        ref_at(refs_block(refs), m) == refs[m],
{
    let s = refs_block(refs);
    assert forall|t: int| 0 <= t < 4 implies #[trigger] s[4 * m + t] == le_bytes(refs[m])[t] by {
        assert((4 * m + t) / 4 == m);
        assert((4 * m + t) % 4 == t);
    }
    crate::common::lemma_le_window(s, 4 * m, refs[m]);
}

/// The free-list blocks laid out over `f .. nb`, from the head down: `k` blocks, 128
/// apart, the last one at `f`.
pub open spec fn laid_chain(f: int, k: int) -> Seq<u32> {
    Seq::new(k as nat, |t: int| (f + 128 * (k - 1 - t)) as u32)
}

/// Who owns each block of a free list laid out from `f` on: block `w` is entry
/// `(w - f) % 128` of the free-list block that starts its run of 128.
pub open spec fn laid_owners(f: int, nb: int) -> Map<u32, Owner> {
    Map::new(
        |w: u32| f <= w < nb,
        |w: u32| Owner::Free { block: (f + 128 * ((w - f) / 128)) as u32, entry: (w - f) % 128 },
    )
}

/// Number of nonzero entries `1 ..= k` of a free-list block laid out at `b` below `nb`.
proof fn lemma_nz_laid(blk: Seq<i8>, b: int, nb: int, k: int)
    requires
        1 <= b < nb,
        0 <= k <= 127,
        forall|m: int| 1 <= m <= 127 ==> #[trigger] ref_at(blk, m) == if b + m < nb {
            (b + m) as u32
        } else {
            0u32
        },
        nb <= u32::MAX,
    ensures
        nz_upto(blk, k) == if k <= nb - 1 - b {
            k
        } else {
            nb - 1 - b
        },
    decreases k,
{
    if k > 0 {
        lemma_nz_laid(blk, b, nb, k - 1);
        assert(ref_at(blk, k) == if b + k < nb {
            (b + k) as u32
        } else {
            0u32
        });
    }
}

/// The count of the free blocks of a chain laid out from `f`, whose head block may be
/// short and all others full.
proof fn lemma_fcount_laid(d: Seq<Seq<i8>>, f: int, nb: int, k: int)
    requires
        1 <= f,
        k >= 1,
        f + 128 * (k - 1) < nb <= f + 128 * k,
        nb <= u32::MAX,
        forall|t: int|
            0 <= t < k ==> #[trigger] d[laid_chain(f, k)[t] as int] == freelist_block_at(
                f,
                nb,
                laid_chain(f, k)[t] as int,
            ),
    ensures
        fcount(d, laid_chain(f, k)) == nb - f,
    decreases k,
{
    let c = laid_chain(f, k);
    let top = f + 128 * (k - 1);
    assert(c[0] == top);
    let link: u32 = if top == f {
        0
    } else {
        (top - 128) as u32
    };
    let refs = freelist_refs(top, nb, link);
    assert(d[top] == refs_block(refs));
    assert forall|m: int| 1 <= m <= 127 implies #[trigger] ref_at(d[top], m) == if top + m < nb {
        (top + m) as u32
    } else {
        0u32
    } by {
        lemma_refs_block_at(refs, m);
    }
    lemma_nz_laid(d[top], top, nb, 127);
    assert(nz_upto(d[top], 127) == nb - 1 - top);
    assert(c[0] as int == top);
    assert(fcount(d, c) == 1 + nz_upto(d[top], 127) + fcount(d, c.drop_first()));
    if k == 1 {
        assert(c.drop_first().len() == 0);
        assert(fcount(d, c.drop_first()) == 0);
    } else {
        let c2 = laid_chain(f, k - 1);
        assert(c.drop_first() =~= c2);
        assert forall|t: int| 0 <= t < k - 1 implies #[trigger] d[c2[t] as int] == freelist_block_at(
            f,
            nb,
            c2[t] as int,
        ) by {
            assert(c2[t] == c[t + 1]);
        }
        lemma_fcount_laid_full(d, f, nb, k - 1);
    }
}

/// Below the head, every block of a laid-out chain is full: 128 free blocks each.
proof fn lemma_fcount_laid_full(d: Seq<Seq<i8>>, f: int, nb: int, k: int)
    requires
        1 <= f,
        k >= 0,
        f + 128 * k <= nb <= u32::MAX,
        forall|t: int|
            0 <= t < k ==> #[trigger] d[laid_chain(f, k)[t] as int] == freelist_block_at(
                f,
                nb,
                laid_chain(f, k)[t] as int,
            ),
    ensures
        fcount(d, laid_chain(f, k)) == 128 * k,
    decreases k,
{
    let c = laid_chain(f, k);
    if k > 0 {
        let top = f + 128 * (k - 1);
        assert(c[0] == top);
        let link: u32 = if top == f {
            0
        } else {
            (top - 128) as u32
        };
        let refs = freelist_refs(top, nb, link);
        assert(d[top] == refs_block(refs));
        assert forall|m: int| 1 <= m <= 127 implies #[trigger] ref_at(d[top], m) == if top + m < nb {
            (top + m) as u32
        } else {
            0u32
        } by {
            lemma_refs_block_at(refs, m);
        }
        lemma_nz_laid(d[top], top, nb, 127);
        assert(nz_upto(d[top], 127) == 127);
        assert(c[0] as int == top);
        assert(fcount(d, c) == 1 + nz_upto(d[top], 127) + fcount(d, c.drop_first()));
        let c2 = laid_chain(f, k - 1);
        assert(c.drop_first() =~= c2);
        assert forall|t: int| 0 <= t < k - 1 implies #[trigger] d[c2[t] as int] == freelist_block_at(
            f,
            nb,
            c2[t] as int,
        ) by {
            assert(c2[t] == c[t + 1]);
        }
        lemma_fcount_laid_full(d, f, nb, k - 1);
    }
}


/// The owner of a block of a laid-out free list, `q` runs of 128 and `m` past `f`.
proof fn lemma_laid_owner(f: int, nb: int, q: int, m: int)
    requires
        1 <= f,
        0 <= q,
        0 <= m < 128,
        f + 128 * q + m < nb <= u32::MAX,
    ensures
        laid_owners(f, nb).contains_key((f + 128 * q + m) as u32),
        laid_owners(f, nb)[(f + 128 * q + m) as u32] == (Owner::Free {
            block: (f + 128 * q) as u32,
            entry: m,
        }),
{
    let w = f + 128 * q + m;
    vstd::arithmetic::div_mod::lemma_fundamental_div_mod_converse(w - f, 128, q, m);
    assert((w as u32) as int == w);
}

/// Every inode of a freshly laid-out store has no root and no blocks.
proof fn lemma_formatted_inodes(d: Seq<Seq<i8>>, n: u32)
    requires
        n + 2 <= d.len(),
    ensures
        forall|i: u32| i < n * 64 ==> #[trigger] isize(formatted(d, n), i) == 0 && iroot(formatted(d, n), i) == 0,
{
    assert forall|i: u32| i < n * 64 implies #[trigger] isize(formatted(d, n), i) == 0 && iroot(
        formatted(d, n),
        i,
    ) == 0 by {
        let fd = formatted(d, n);
        assert(i / 64 < n) by (nonlinear_arith)
            requires
                i < n * 64,
        ;
        assert(fd[1 + i / 64] == zero_block());
        assert(isize(fd, i) == inode_nblocks(zero_block(), (i % 64) as int));
        assert(iroot(fd, i) == inode_root(zero_block(), (i % 64) as int));
        lemma_ref_zero(2 * (i % 64) as int);
        lemma_ref_zero(2 * (i % 64) + 1);
        assert(ref_at(zero_block(), 2 * (i % 64) as int) == crate::common::le_u32_at(zero_block(), 8 * (i % 64) as int));
        assert(ref_at(zero_block(), 2 * (i % 64) + 1) == crate::common::le_u32_at(zero_block(), 8 * (i % 64) + 4));
        assert(inode_nblocks(zero_block(), (i % 64) as int) == 0);
        assert(inode_root(zero_block(), (i % 64) as int) == 0);
    }
}

/// The trees of a freshly laid-out store are sound: all empty.
proof fn lemma_formatted_trees(d: Seq<Seq<i8>>, n: u32, own: Map<u32, Owner>)
    requires
        n + 2 <= d.len(),
        n_of(formatted(d, n)) == n,
    ensures
        ({
            let fd = formatted(d, n);
            trees_ok(fd, own, 0, iroot(fd, 0), isize(fd, 0), levels(isize(fd, 0)))
        }),
{
    reveal(trees_ok);
    reveal(inode_ok);
    reveal(pos_ok);
    let fd = formatted(d, n);
    lemma_formatted_inodes(d, n);
    assert forall|i: u32| i < n_of(fd) * 64 implies #[trigger] inode_ok(
        fd,
        own,
        i,
        troot(fd, i, 0, iroot(fd, 0)),
        tsize(fd, i, 0, isize(fd, 0)),
        theight(fd, i, 0, levels(isize(fd, 0))),
    ) by {
        assert(i < n * 64);
        assert(i < n * 64 ==> isize(formatted(d, n), i) == 0);
        assert(isize(fd, i) == 0 && iroot(fd, i) == 0);
        assert(isize(fd, 0) == 0 && iroot(fd, 0) == 0);
        assert forall|o: u32, j: int| o < cap(0) && 0 <= j <= 0 implies #[trigger] pos_ok(
            fd,
            own,
            i,
            0,
            0,
            o,
            j,
        ) by {}
    }
}

/// A store laid out by `treedisk_create` on a disk of whole blocks is sound: every inode
/// is empty, and the free list holds every block past the inode blocks.
#[verifier::spinoff_prover]
pub proof fn law_created_store(d: Seq<Seq<i8>>, n: u32)
    requires
        block_sized(d),
        n + 2 <= d.len() <= u32::MAX,
        n * 64 <= u32::MAX,
    ensures
        ({
            let fd = formatted(d, n);
            &&& valid(fd)
            &&& n_of(fd) == n
            &&& forall|i: u32| i < n * 64 ==> #[trigger] isize(fd, i) == 0 && iroot(fd, i) == 0
            &&& free_count(fd) == d.len() - n - 1
        }),
{
    reveal(trees_ok);
    reveal(inode_ok);
    reveal(pos_ok);
    reveal(frees_ok);
    reveal(chain_ok);
    reveal(free_ok);
    let fd = formatted(d, n);
    let ff = n + 1;
    let nb = d.len() as int;
    let q = (nb - 1 - ff) / 128;
    let k = q + 1;
    let head = freelist_head(ff, nb);
    assert(head as int == ff + 128 * q);
    assert(128 * q <= nb - 1 - ff < 128 * k) by {
        vstd::arithmetic::div_mod::lemma_fundamental_div_mod(nb - 1 - ff, 128);
    }
    let c = laid_chain(ff, k);
    let own = laid_owners(ff, nb);
    // the superblock
    let z = zero_block();
    lemma_le_splice(z, 0, n);
    lemma_le_splice(splice(z, 0, le_bytes(n)), 4, head);
    assert(crate::common::le_u32_at(superblock_of(n, head), 0) == crate::common::le_u32_at(
        splice(z, 0, le_bytes(n)),
        0,
    ));
    assert(fd[0] == superblock_of(n, head));
    assert(n_of(fd) == n);
    assert(head_of(fd) == head);
    // every block is whole
    assert(block_sized(fd)) by {
        assert forall|b: int| 0 <= b < fd.len() implies (#[trigger] fd[b]).len() == 512 by {
            if b > n && is_freelist_start(ff, nb, b) {
                assert(with_freelist(d, ff, nb)[b] == freelist_block_at(ff, nb, b));
            } else if b > n {
                assert(with_freelist(d, ff, nb)[b] == d[b]);
            }
        }
    }
    // every inode is empty
    lemma_formatted_inodes(d, n);
    lemma_formatted_trees(d, n, own);
    // the free list
    assert forall|t: int| 0 <= t < k implies #[trigger] fd[c[t] as int] == freelist_block_at(
        ff,
        nb,
        c[t] as int,
    ) by {
        let b = ff + 128 * (k - 1 - t);
        assert(c[t] as int == b);
        assert((b - ff) % 128 == 0) by {
            vstd::arithmetic::div_mod::lemma_fundamental_div_mod_converse(b - ff, 128, k - 1 - t, 0);
        }
        assert(is_freelist_start(ff, nb, b));
        assert(with_freelist(d, ff, nb)[b] == freelist_block_at(ff, nb, b));
    }
    assert forall|t: int, m: int| 0 <= t < k && 0 <= m < 128 implies #[trigger] ref_at(
        fd[c[t] as int],
        m,
    ) == freelist_refs(
        c[t] as int,
        nb,
        if c[t] as int == ff { 0u32 } else { (c[t] - 128) as u32 },
    )[m] by {
        lemma_refs_block_at(
            freelist_refs(c[t] as int, nb, if c[t] as int == ff { 0u32 } else { (c[t] - 128) as u32 }),
            m,
        );
    }
    assert(chain_ok(fd, c)) by {
        assert(c[0] as int == head);
        assert forall|t: int| 0 <= t < c.len() - 1 implies ref_at(fd[#[trigger] c[t] as int], 0) == c[t + 1] by {
            assert(ref_at(fd[c[t] as int], 0) == freelist_refs(
                c[t] as int,
                nb,
                if c[t] as int == ff { 0u32 } else { (c[t] - 128) as u32 },
            )[0]);
        }
        assert(ref_at(fd[c[k - 1] as int], 0) == freelist_refs(
            c[k - 1] as int,
            nb,
            if c[k - 1] as int == ff { 0u32 } else { (c[k - 1] - 128) as u32 },
        )[0]);
    }
    assert forall|t: int, m: int| 0 <= t < c.len() && 0 <= m < 128 implies #[trigger] free_ok(
        fd,
        own,
        c,
        t,
        m,
    ) by {
        let b = ff + 128 * (k - 1 - t);
        assert(c[t] as int == b);
        if m == 0 {
            lemma_laid_owner(ff, nb, k - 1 - t, 0);
        } else {
            assert(ref_at(fd[c[t] as int], m) == freelist_refs(
                c[t] as int,
                nb,
                if c[t] as int == ff { 0u32 } else { (c[t] - 128) as u32 },
            )[m]);
            if b + m < nb {
                lemma_laid_owner(ff, nb, k - 1 - t, m);
            }
        }
    }
    assert(frees_ok(fd, own, c));
    assert(sound(fd, c, own));
    lemma_free_count(fd, c, own);
    lemma_fcount_laid(fd, ff, nb, k);
}

} // verus!
