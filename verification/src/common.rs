//! Blocks, errors and the interface shared by every layer of the file system stack.
use vstd::prelude::*;

verus! {

/// Size in bytes of one disk block.
pub const BLOCK_SIZE: usize = 512;

/// Number of 4-byte slots in one block.
pub const SLOTS_PER_BLOCK: usize = 128;

/// A physical file system block: 512 signed bytes (`c_char` on the host).
#[derive(Clone, Copy, Debug)]
pub struct Block {
    pub bytes: [i8; 512],
}

impl View for Block {
    type V = Seq<i8>;

    open spec fn view(&self) -> Seq<i8> {
        self.bytes@
    }
}

/// The all-zero block content.
pub open spec fn zero_block() -> Seq<i8> {
    Seq::new(BLOCK_SIZE as nat, |i: int| 0i8)
}

/// Every block of `blocks` is `BLOCK_SIZE` bytes long.
pub open spec fn block_sized(blocks: Seq<Seq<i8>>) -> bool {
    forall|b: int| 0 <= b < blocks.len() ==> (#[trigger] blocks[b]).len() == BLOCK_SIZE
}

/// `s` with the bytes `beg .. beg + src.len()` replaced by `src`.
pub open spec fn splice(s: Seq<i8>, beg: int, src: Seq<i8>) -> Seq<i8> {
    Seq::new(s.len(), |i: int| if beg <= i < beg + src.len() { src[i - beg] } else { s[i] })
}

impl Block {
    /// A block of zeroes.
    pub fn new() -> (b: Block)
        ensures
            b@ == zero_block(),
    {
        let b = Block { bytes: [0i8; 512] };
        assert(b@ =~= zero_block());
        b
    }

    /// All the bytes of the block.
    pub fn read_bytes(&self) -> (r: &[i8])
        ensures
            r@ == self@,
    {
        self.bytes.as_slice()
    }

    /// Overwrites the bytes `beg .. end` of the block with `src`.
    pub fn write_bytes(&mut self, src: &[i8], beg: usize, end: usize)
        requires
            src@.len() <= BLOCK_SIZE,
            beg <= end <= BLOCK_SIZE,
            end - beg == src@.len(),
        ensures
            final(self)@ == splice(old(self)@, beg as int, src@),
    {
        let mut i: usize = 0;
        while i < src.len()
            invariant
                beg <= end <= BLOCK_SIZE,
                end - beg == src@.len(),
                i <= src@.len(),
                self@.len() == BLOCK_SIZE,
                forall|k: int|
                    0 <= k < BLOCK_SIZE ==> #[trigger] self@[k] == (if beg <= k < beg + i {
                        src@[k - beg]
                    } else {
                        old(self)@[k]
                    }),
            decreases src@.len() - i,
        {
            self.bytes[beg + i] = src[i];
            i = i + 1;
        }
        assert(self@ =~= splice(old(self)@, beg as int, src@));
    }
}

/// The failures a layer reports.
#[derive(Clone, Copy, Debug, PartialEq, Eq, Structural)]
pub enum Error {
    UnknownFailure,
    InodeOutOfBounds,
    DiskTooSmall,
    OutOfSpace,
    ReadOffsetTooLarge,
    UnitializedInode,
    UnterminatedInode,
    UnknownCase,
}

/// Interface of every virtual layer in a file system. Each layer holds, for every inode
/// number, a sequence of blocks, its `blocks`.
///
/// Every layer keeps to its `blocks`: a size or a read that succeeds reports them, and a
/// write that succeeds updates them. A layer is `reliable` when, in addition, its
/// operations on the blocks it holds never fail (an in-memory disk); a layer over a
/// device that may fail leaves it false, and then any call may fail, and a failed
/// write may leave the blocks changed in any way.
pub trait Stackable: Sized {
    /// Structural well-formedness of the layer; none unless the layer states one.
    open spec fn inv(&self) -> bool {
        true
    }

    /// Whether operations on held blocks always succeed; a layer that says nothing is
    /// taken to be unreliable.
    open spec fn reliable(&self) -> bool {
        false
    }

    /// The blocks the layer holds for inode `ino`.
    open spec fn blocks(&self, ino: u32) -> Seq<Seq<i8>> {
        Seq::empty()
    }

    /// Number of blocks held for `ino`.
    fn get_size(&self, ino: u32) -> (r: Result<u32, Error>)
        requires
            self.inv(),
        ensures
            r is Ok ==> r->Ok_0 == self.blocks(ino).len(),
            self.reliable() && self.blocks(ino).len() > 0 ==> r is Ok,
    ;

    /// Sets the size of `ino`; what this means is up to the layer.
    fn set_size(&mut self, ino: u32, size: u32) -> (r: Result<i32, Error>)
        requires
            old(self).inv(),
        ensures
            final(self).inv(),
    ;

    /// Reads block `offset` of inode `ino` into `buf`.
    fn read(&self, ino: u32, offset: u32, buf: &mut Block) -> (r: Result<i32, Error>)
        requires
            self.inv(),
        ensures
            r is Ok ==> offset < self.blocks(ino).len() && final(buf)@ == self.blocks(ino)[offset as int],
            self.reliable() && offset < self.blocks(ino).len() ==> r is Ok,
    ;

    /// Writes `buf` as block `offset` of inode `ino`.
    fn write(&mut self, ino: u32, offset: u32, buf: &Block) -> (r: Result<i32, Error>)
        requires
            old(self).inv(),
        ensures
            final(self).inv(),
            old(self).reliable() ==> final(self).reliable(),
            r is Ok ==> offset < old(self).blocks(ino).len() && final(self).blocks(ino) == old(
                self,
            ).blocks(ino).update(offset as int, buf@),
            old(self).reliable() && offset < old(self).blocks(ino).len() ==> r is Ok,
            old(self).reliable() && offset >= old(self).blocks(ino).len() ==> {
                &&& r is Err
                &&& final(self).blocks(ino) == old(self).blocks(ino)
            },
    ;
}

/// Layers implementing this trait are the disk itself: every inode number names the
/// whole disk.
pub trait IsDisk {

}

/// Reinterprets up to four unsigned bytes as signed bytes (the first four of `bytes`,
/// zero padded).
pub fn unix_fix_u8_to_i8(bytes: &[u8]) -> (r: [i8; 4])
    requires
        bytes@.len() <= 4,
    ensures
        forall|i: int|
            0 <= i < 4 ==> #[trigger] r@[i] == (if i < bytes@.len() {
                bytes@[i] as i8
            } else {
                0i8
            }),
{
    let mut sbytes: [i8; 4] = [0i8; 4];
    let mut idx: usize = 0;
    while idx < bytes.len()
        invariant
            bytes@.len() <= 4,
            idx <= bytes@.len(),
            forall|i: int|
                0 <= i < 4 ==> #[trigger] sbytes@[i] == (if i < idx {
                    bytes@[i] as i8
                } else {
                    0i8
                }),
        decreases bytes@.len() - idx,
    {
        sbytes[idx] = bytes[idx] as i8;
        idx = idx + 1;
    }
    sbytes
}

/// Reinterprets up to four signed bytes as unsigned bytes (the first four of `bytes`,
/// zero padded).
pub fn unix_fix_i8_to_u8(bytes: &[i8]) -> (r: [u8; 4])
    requires
        bytes@.len() <= 4,
    ensures
        forall|i: int|
            0 <= i < 4 ==> #[trigger] r@[i] == (if i < bytes@.len() {
                bytes@[i] as u8
            } else {
                0u8
            }),
{
    let mut sbytes: [u8; 4] = [0u8; 4];
    let mut idx: usize = 0;
    while idx < bytes.len()
        invariant
            bytes@.len() <= 4,
            idx <= bytes@.len(),
            forall|i: int|
                0 <= i < 4 ==> #[trigger] sbytes@[i] == (if i < idx {
                    bytes@[i] as u8
                } else {
                    0u8
                }),
        decreases bytes@.len() - idx,
    {
        sbytes[idx] = bytes[idx] as u8;
        idx = idx + 1;
    }
    sbytes
}

/// Reinterprets a whole slice of signed bytes as unsigned bytes.
pub fn unix_fix_i8_to_u8_full(i8slice: &[i8]) -> (r: Vec<u8>)
    ensures
        r@.len() == i8slice@.len(),
        forall|i: int| 0 <= i < r@.len() ==> #[trigger] r@[i] == i8slice@[i] as u8,
{
    let mut out: Vec<u8> = Vec::new();
    let mut i: usize = 0;
    while i < i8slice.len()
        invariant
            i <= i8slice@.len(),
            out@.len() == i,
            forall|k: int| 0 <= k < i ==> #[trigger] out@[k] == i8slice@[k] as u8,
        decreases i8slice@.len() - i,
    {
        out.push(i8slice[i] as u8);
        i = i + 1;
    }
    out
}

/// Reinterprets a whole slice of unsigned bytes as signed bytes.
pub fn unix_fix_u8_to_i8_full(u8slice: &[u8]) -> (r: Vec<i8>)
    ensures
        r@.len() == u8slice@.len(),
        forall|i: int| 0 <= i < r@.len() ==> #[trigger] r@[i] == u8slice@[i] as i8,
{
    let mut out: Vec<i8> = Vec::new();
    let mut i: usize = 0;
    while i < u8slice.len()
        invariant
            i <= u8slice@.len(),
            out@.len() == i,
            forall|k: int| 0 <= k < i ==> #[trigger] out@[k] == u8slice@[k] as i8,
        decreases u8slice@.len() - i,
    {
        out.push(u8slice[i] as i8);
        i = i + 1;
    }
    out
}

/// The unsigned value of a signed byte.
pub open spec fn ubyte(b: i8) -> u32 {
    (b as u8) as u32
}

/// The little-endian `u32` stored at bytes `beg .. beg + 4` of `s`.
pub open spec fn le_u32_at(s: Seq<i8>, beg: int) -> u32 {
    ubyte(s[beg]) | (ubyte(s[beg + 1]) << 8u32) | (ubyte(s[beg + 2]) << 16u32) | (ubyte(
        s[beg + 3],
    ) << 24u32)
}

/// The little-endian `i32` stored at bytes `beg .. beg + 4` of `s`.
pub open spec fn le_i32_at(s: Seq<i8>, beg: int) -> i32 {
    le_u32_at(s, beg) as i32
}

/// The four little-endian bytes of `v`, as signed bytes.
pub open spec fn le_bytes(v: u32) -> Seq<i8> {
    seq![
        (v & 0xffu32) as u8 as i8,
        ((v >> 8u32) & 0xffu32) as u8 as i8,
        ((v >> 16u32) & 0xffu32) as u8 as i8,
        ((v >> 24u32) & 0xffu32) as u8 as i8,
    ]
}

proof fn lemma_le_bits(v: u32)
    ensures
        ((((v & 0xffu32) as u8 as i8) as u8) as u32) | (((((v >> 8u32) & 0xffu32) as u8 as i8) as u8
            as u32) << 8u32) | (((((v >> 16u32) & 0xffu32) as u8 as i8) as u8 as u32) << 16u32) | (((((
        v >> 24u32) & 0xffu32) as u8 as i8) as u8 as u32) << 24u32) == v,
{
    assert(((((v & 0xffu32) as u8 as i8) as u8) as u32) | (((((v >> 8u32) & 0xffu32) as u8 as i8)
        as u8 as u32) << 8u32) | (((((v >> 16u32) & 0xffu32) as u8 as i8) as u8 as u32) << 16u32) | (((((
    v >> 24u32) & 0xffu32) as u8 as i8) as u8 as u32) << 24u32) == v) by (bit_vector);
}

/// Writing the little-endian bytes of `v` at `beg` and reading them back gives `v`; the
/// other 4-byte slots are untouched.
pub proof fn lemma_le_splice(s: Seq<i8>, beg: int, v: u32)
    requires
        0 <= beg,
        beg + 4 <= s.len(),
    ensures
        le_u32_at(splice(s, beg, le_bytes(v)), beg) == v,
        forall|other: int|
            0 <= other && other + 4 <= s.len() && (other + 4 <= beg || beg + 4 <= other) ==> le_u32_at(
                #[trigger] splice(s, beg, le_bytes(v)),
                other,
            ) == le_u32_at(s, other),
{
    lemma_le_bits(v);
    let t = splice(s, beg, le_bytes(v));
    assert(t[beg] == le_bytes(v)[0]);
    assert(t[beg + 1] == le_bytes(v)[1]);
    assert(t[beg + 2] == le_bytes(v)[2]);
    assert(t[beg + 3] == le_bytes(v)[3]);
}

/// The four bytes at `beg` are the little-endian bytes of `v`, so they read back as `v`.
pub proof fn lemma_le_window(s: Seq<i8>, beg: int, v: u32)
    requires
        0 <= beg,
        beg + 4 <= s.len(),
        forall|t: int| 0 <= t < 4 ==> #[trigger] s[beg + t] == le_bytes(v)[t],
    ensures
        le_u32_at(s, beg) == v,
{
    lemma_le_bits(v);
    assert(s[beg + 0] == le_bytes(v)[0]);
    assert(s[beg + 1] == le_bytes(v)[1]);
    assert(s[beg + 2] == le_bytes(v)[2]);
    assert(s[beg + 3] == le_bytes(v)[3]);
}

/// An unsigned value survives the round trip through its signed bits.
pub proof fn lemma_u32_bits(v: u32)
    ensures
        (v as i32) as u32 == v,
{
    assert((v as i32) as u32 == v) by (bit_vector);
}

/// A signed value survives the round trip through its unsigned bits.
pub proof fn lemma_i32_bits(v: i32)
    ensures
        (v as u32) as i32 == v,
{
    assert((v as u32) as i32 == v) by (bit_vector);
}

/// Reads the little-endian `i32` at bytes `beg .. beg + 4` of a block.
pub fn read_i32_le(block: &Block, beg: usize) -> (r: i32)
    requires
        beg + 4 <= BLOCK_SIZE,
    ensures
        r == le_i32_at(block@, beg as int),
{
    let bytes = block.read_bytes();
    let raw: [i8; 4] = [bytes[beg], bytes[beg + 1], bytes[beg + 2], bytes[beg + 3]];
    let u = unix_fix_i8_to_u8(&raw);
    let v: u32 = (u[0] as u32) | ((u[1] as u32) << 8u32) | ((u[2] as u32) << 16u32) | ((
    u[3] as u32) << 24u32);
    v as i32
}

/// Reads the little-endian `u32` at bytes `beg .. beg + 4` of a block.
pub fn read_u32_le(block: &Block, beg: usize) -> (r: u32)
    requires
        beg + 4 <= BLOCK_SIZE,
    ensures
        r == le_u32_at(block@, beg as int),
{
    let v = read_i32_le(block, beg);
    proof {
        lemma_u32_bits(le_u32_at(block@, beg as int));
    }
    v as u32
}

/// Writes the little-endian bytes of `v` at bytes `beg .. beg + 4` of a block.
pub fn write_u32_le(block: &mut Block, beg: usize, v: u32)
    requires
        beg + 4 <= BLOCK_SIZE,
    ensures
        final(block)@ == splice(old(block)@, beg as int, le_bytes(v)),
{
    let bytes: [u8; 4] = [
        (v & 0xffu32) as u8,
        ((v >> 8u32) & 0xffu32) as u8,
        ((v >> 16u32) & 0xffu32) as u8,
        ((v >> 24u32) & 0xffu32) as u8,
    ];
    let sbytes = unix_fix_u8_to_i8(&bytes);
    assert(sbytes@ =~= le_bytes(v));
    block.write_bytes(&sbytes, beg, beg + 4);
}


/// Reinterpreting unsigned bytes as signed ones and back gives the bytes again, and
/// the other way round: each of `unix_fix_u8_to_i8_full` and `unix_fix_i8_to_u8_full`
/// undoes the other.
pub proof fn law_unix_fix_round_trip(u: u8, s: i8)
    ensures
        ((u as i8) as u8) == u,
        ((s as u8) as i8) == s,
{
    assert(((u as i8) as u8) == u) by (bit_vector);
    assert(((s as u8) as i8) == s) by (bit_vector);
}

/// After `write_bytes` of `src` at `beg`, `read_bytes` gives `src` there and the old
/// bytes elsewhere.
pub proof fn law_block_read_after_write(b: Seq<i8>, src: Seq<i8>, beg: int, k: int)
    requires
        b.len() == BLOCK_SIZE,
        0 <= beg,
        beg + src.len() <= BLOCK_SIZE,
        0 <= k < BLOCK_SIZE,
    ensures
        splice(b, beg, src).len() == BLOCK_SIZE,
        splice(b, beg, src)[k] == if beg <= k < beg + src.len() {
            src[k - beg]
        } else {
            b[k]
        },
{
}

} // verus!
