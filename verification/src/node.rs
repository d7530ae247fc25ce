//! Boundary-tag block layer.
//!
//! A block is a contiguous run of 64-bit words inside the backing region.
//! Its first and last word each hold the block's footprint in bytes with
//! the busy flag packed into bit 0 (footprints are multiples of 8, so the
//! low bit is always available for the flag).  While a block is free, the
//! two words after the head tag hold the previous and next links of its
//! free-list class; a zero link means "none", which is unambiguous because
//! word 0 of the region is a sentinel and never a block.
//!
//! Addresses are word offsets into the backing region; one word is eight
//! bytes.  Sizes are byte counts, as stored in the tags.

use vstd::prelude::*;

verus! {

/// Smallest admissible block footprint in bytes, tags included.
pub const MIN_BLOCK_SIZE: u64 = 32;

/// Bytes of bookkeeping carried by every block: one tag word at the head
/// and one at the tail.
pub const BLOCK_OVERHEAD: u64 = 16;

/// Upper bound on the backing region, in words.  Keeps every byte count
/// comfortably inside `u64` and `usize` arithmetic.
pub const MAX_REGION_WORDS: usize = 0x1000_0000;

/// Byte size stored in the tag word at `b`, with the flag bit cleared.
pub open spec fn blk_size(m: Seq<u64>, b: int) -> int {
    m[b] as int - (m[b] as int % 2)
}

/// A block is free iff bit 0 of its head tag is clear.
pub open spec fn blk_free(m: Seq<u64>, b: int) -> bool {
    m[b] as int % 2 == 0
}

/// Footprint of the block at `b`, in words.
pub open spec fn blk_words(m: Seq<u64>, b: int) -> int {
    blk_size(m, b) / 8
}

/// First word past the block at `b`.
pub open spec fn blk_end(m: Seq<u64>, b: int) -> int {
    b + blk_words(m, b)
}

/// Well-formed block: strictly inside the region (sentinels excluded),
/// size at least [`MIN_BLOCK_SIZE`] and a multiple of 8, and the tail tag
/// equal to the head tag.
pub open spec fn blk_wf(m: Seq<u64>, b: int) -> bool {
    &&& 1 <= b
    &&& blk_end(m, b) <= m.len() - 1
    &&& MIN_BLOCK_SIZE <= blk_size(m, b)
    &&& blk_size(m, b) % 8 == 0
    &&& m[blk_end(m, b) - 1] == m[b]
}

/// The block at position `i` of the tiling ends exactly where the block
/// at position `i + 1` begins.
pub open spec fn tile_at(m: Seq<u64>, starts: Seq<int>, i: int) -> bool {
    starts[i + 1] == blk_end(m, starts[i])
}

/// The backing region as a whole: a zero sentinel word at each end and
/// blocks tiling everything in between, each block beginning exactly where
/// its predecessor ends.  `starts` lists the block start offsets in
/// address order.
pub open spec fn heap_wf(m: Seq<u64>, starts: Seq<int>) -> bool {
    &&& 6 <= m.len() <= MAX_REGION_WORDS
    &&& m[0] == 0
    &&& m[m.len() - 1] == 0
    &&& starts.len() >= 1
    &&& starts[0] == 1
    &&& forall|i: int| 0 <= i < starts.len() ==> blk_wf(m, #[trigger] starts[i])
    &&& forall|i: int| 0 <= i < starts.len() - 1 ==> #[trigger] tile_at(m, starts, i)
    &&& blk_end(m, starts[starts.len() - 1]) == m.len() - 1
}

/// Blocks at distinct positions of the tiling occupy disjoint word ranges.
pub proof fn lemma_blocks_disjoint(m: Seq<u64>, starts: Seq<int>, i: int, j: int)
    requires
        heap_wf(m, starts),
        0 <= i < j < starts.len(),
    ensures
        blk_end(m, starts[i]) <= starts[j],
    decreases j - i,
{
    assert(tile_at(m, starts, j - 1));
    if j == i + 1 {
    } else {
        lemma_blocks_disjoint(m, starts, i, j - 1);
    }
}

/// All-pairs form of [`lemma_blocks_disjoint`].
pub proof fn lemma_all_disjoint(m: Seq<u64>, starts: Seq<int>)
    requires
        heap_wf(m, starts),
    ensures
        forall|i: int, j: int|
            0 <= i < starts.len() && 0 <= j < starts.len() && i != j
                ==> blk_end(m, #[trigger] starts[i]) <= starts[j]
                    || blk_end(m, #[trigger] starts[j]) <= starts[i],
        forall|i: int, j: int|
            0 <= i < starts.len() && 0 <= j < starts.len() && i != j
                ==> #[trigger] starts[i] != #[trigger] starts[j],
{
    assert forall|i: int, j: int|
        0 <= i < starts.len() && 0 <= j < starts.len() && i != j
        implies blk_end(m, #[trigger] starts[i]) <= starts[j]
            || blk_end(m, #[trigger] starts[j]) <= starts[i] by {
        if i < j {
            lemma_blocks_disjoint(m, starts, i, j);
        } else {
            lemma_blocks_disjoint(m, starts, j, i);
        }
    }
}

/// Writing words that are neither a head nor a tail tag of any block, nor
/// a sentinel, leaves the tiling intact.
pub proof fn lemma_heap_frame(m1: Seq<u64>, m2: Seq<u64>, starts: Seq<int>)
    requires
        heap_wf(m1, starts),
        m2.len() == m1.len(),
        m2[0] == m1[0],
        m2[m1.len() - 1] == m1[m1.len() - 1],
        forall|i: int| 0 <= i < starts.len() ==>
            m2[#[trigger] starts[i]] == m1[starts[i]]
            && m2[blk_end(m1, starts[i]) - 1] == m1[blk_end(m1, starts[i]) - 1],
    ensures
        heap_wf(m2, starts),
        forall|i: int| 0 <= i < starts.len() ==>
            blk_size(m2, #[trigger] starts[i]) == blk_size(m1, starts[i])
            && blk_free(m2, starts[i]) == blk_free(m1, starts[i]),
{
    assert forall|i: int| 0 <= i < starts.len() implies blk_wf(m2, #[trigger] starts[i])
        && blk_size(m2, starts[i]) == blk_size(m1, starts[i])
        && blk_free(m2, starts[i]) == blk_free(m1, starts[i]) by {
        assert(m2[starts[i]] == m1[starts[i]]);
    }
    assert forall|i: int| 0 <= i < starts.len() - 1 implies #[trigger] tile_at(m2, starts, i) by {
        assert(tile_at(m1, starts, i));
    }
}

/// Rewriting one block's own words, with its footprint kept, leaves the
/// tiling intact; only that block's flag may change.
#[verifier::rlimit(100)]
pub proof fn lemma_heap_retag(m1: Seq<u64>, m2: Seq<u64>, starts: Seq<int>, i: int)
    requires
        heap_wf(m1, starts),
        0 <= i < starts.len(),
        m2.len() == m1.len(),
        forall|k: int|
            0 <= k < m1.len() && !(starts[i] <= k < blk_end(m1, starts[i]))
                ==> m2[k] == m1[k],
        blk_wf(m2, starts[i]),
        blk_words(m2, starts[i]) == blk_words(m1, starts[i]),
    ensures
        heap_wf(m2, starts),
        forall|j: int| 0 <= j < starts.len() && j != i ==>
            blk_size(m2, #[trigger] starts[j]) == blk_size(m1, starts[j])
            && blk_free(m2, starts[j]) == blk_free(m1, starts[j]),
        blk_size(m2, starts[i]) == blk_size(m1, starts[i]),
{
    lemma_all_disjoint(m1, starts);
    let b = starts[i];
    assert forall|j: int| 0 <= j < starts.len() && j != i
        implies m2[#[trigger] starts[j]] == m1[starts[j]]
            && m2[blk_end(m1, starts[j]) - 1] == m1[blk_end(m1, starts[j]) - 1] by {
        assert(blk_end(m1, starts[j]) <= b || blk_end(m1, b) <= starts[j]);
    }
    assert forall|j: int| 0 <= j < starts.len() implies blk_wf(m2, #[trigger] starts[j]) by {
        if j != i {
            assert(m2[starts[j]] == m1[starts[j]]);
        }
    }
    assert forall|j: int| 0 <= j < starts.len() - 1 implies #[trigger] tile_at(m2, starts, j) by {
        assert(tile_at(m1, starts, j));
        if j != i {
            assert(m2[starts[j]] == m1[starts[j]]);
        }
    }
}

/// Replacing the block at position `i` with two fresh back-to-back blocks
/// refines the tiling: the new second block's start is inserted after `i`.
#[verifier::rlimit(100)]
pub proof fn lemma_heap_split(m1: Seq<u64>, m2: Seq<u64>, starts: Seq<int>, i: int, b2: int)
    requires
        heap_wf(m1, starts),
        0 <= i < starts.len(),
        m2.len() == m1.len(),
        forall|k: int|
            0 <= k < m1.len() && !(starts[i] <= k < blk_end(m1, starts[i]))
                ==> m2[k] == m1[k],
        blk_wf(m2, starts[i]),
        blk_end(m2, starts[i]) == b2,
        blk_wf(m2, b2),
        blk_end(m2, b2) == blk_end(m1, starts[i]),
    ensures
        heap_wf(m2, starts.insert(i + 1, b2)),
        forall|j: int| 0 <= j < starts.len() && j != i ==>
            blk_size(m2, #[trigger] starts[j]) == blk_size(m1, starts[j])
            && blk_free(m2, starts[j]) == blk_free(m1, starts[j]),
        forall|j: int| 0 <= j <= i ==> #[trigger] starts.insert(i + 1, b2)[j] == starts[j],
        starts.insert(i + 1, b2)[i + 1] == b2,
        forall|j: int| i < j < starts.len() ==> #[trigger] starts.insert(i + 1, b2)[j + 1] == starts[j],
        starts.insert(i + 1, b2).len() == starts.len() + 1,
{
    lemma_all_disjoint(m1, starts);
    let b = starts[i];
    let s2 = starts.insert(i + 1, b2);
    assert forall|j: int| 0 <= j < starts.len() && j != i
        implies m2[#[trigger] starts[j]] == m1[starts[j]]
            && m2[blk_end(m1, starts[j]) - 1] == m1[blk_end(m1, starts[j]) - 1] by {
        assert(blk_end(m1, starts[j]) <= b || blk_end(m1, b) <= starts[j]);
    }
    assert forall|j: int| 0 <= j < s2.len() implies blk_wf(m2, #[trigger] s2[j]) by {
        if j <= i {
            assert(s2[j] == starts[j]);
            if j != i {
                assert(m2[starts[j]] == m1[starts[j]]);
            }
        } else if j == i + 1 {
            assert(s2[j] == b2);
        } else {
            assert(s2[j] == starts[j - 1]);
            assert(m2[starts[j - 1]] == m1[starts[j - 1]]);
        }
    }
    assert forall|j: int| 0 <= j < s2.len() - 1 implies #[trigger] tile_at(m2, s2, j) by {
        if j < i {
            assert(tile_at(m1, starts, j));
            assert(m2[starts[j]] == m1[starts[j]]);
        } else if j == i {
            assert(s2[j] == b && s2[j + 1] == b2);
        } else if j == i + 1 {
            assert(tile_at(m1, starts, i));
        } else {
            assert(tile_at(m1, starts, j - 1));
            assert(m2[starts[j - 1]] == m1[starts[j - 1]]);
        }
    }
    assert(blk_end(m2, s2[s2.len() - 1]) == m2.len() - 1);
}

/// Merging the adjacent blocks at positions `i` and `i + 1` into one
/// coarsens the tiling: the second block's start is removed.
#[verifier::rlimit(100)]
pub proof fn lemma_heap_merge(m1: Seq<u64>, m2: Seq<u64>, starts: Seq<int>, i: int)
    requires
        heap_wf(m1, starts),
        0 <= i < starts.len() - 1,
        m2.len() == m1.len(),
        forall|k: int|
            0 <= k < m1.len() && !(starts[i] <= k < blk_end(m1, starts[i + 1]))
                ==> m2[k] == m1[k],
        blk_wf(m2, starts[i]),
        blk_end(m2, starts[i]) == blk_end(m1, starts[i + 1]),
    ensures
        heap_wf(m2, starts.remove(i + 1)),
        forall|j: int| 0 <= j < starts.len() && j != i && j != i + 1 ==>
            blk_size(m2, #[trigger] starts[j]) == blk_size(m1, starts[j])
            && blk_free(m2, starts[j]) == blk_free(m1, starts[j]),
        forall|j: int| 0 <= j <= i ==> #[trigger] starts.remove(i + 1)[j] == starts[j],
        forall|j: int| i + 1 < j < starts.len() ==> #[trigger] starts.remove(i + 1)[j - 1] == starts[j],
        starts.remove(i + 1).len() == starts.len() - 1,
{
    lemma_all_disjoint(m1, starts);
    let b = starts[i];
    let b2 = starts[i + 1];
    assert(tile_at(m1, starts, i));
    let s2 = starts.remove(i + 1);
    assert forall|j: int| 0 <= j < starts.len() && j != i && j != i + 1
        implies m2[#[trigger] starts[j]] == m1[starts[j]]
            && m2[blk_end(m1, starts[j]) - 1] == m1[blk_end(m1, starts[j]) - 1] by {
        assert(blk_end(m1, starts[j]) <= b || blk_end(m1, b) <= starts[j]);
        assert(blk_end(m1, starts[j]) <= b2 || blk_end(m1, b2) <= starts[j]);
    }
    assert forall|j: int| 0 <= j < s2.len() implies blk_wf(m2, #[trigger] s2[j]) by {
        if j < i {
            assert(s2[j] == starts[j]);
            assert(m2[starts[j]] == m1[starts[j]]);
        } else if j == i {
            assert(s2[j] == b);
        } else {
            assert(s2[j] == starts[j + 1]);
            assert(m2[starts[j + 1]] == m1[starts[j + 1]]);
        }
    }
    assert forall|j: int| 0 <= j < s2.len() - 1 implies #[trigger] tile_at(m2, s2, j) by {
        if j < i {
            assert(tile_at(m1, starts, j));
            assert(m2[starts[j]] == m1[starts[j]]);
        } else if j == i {
            assert(tile_at(m1, starts, i + 1));
        } else {
            assert(tile_at(m1, starts, j + 1));
            assert(m2[starts[j + 1]] == m1[starts[j + 1]]);
        }
    }
    assert(blk_end(m2, s2[s2.len() - 1]) == m2.len() - 1);
}

/// Splitting or joining byte counts that are multiples of 8 commutes with
/// the byte-to-word conversion.
pub proof fn lemma_div8_add(a: int, b: int)
    requires
        a % 8 == 0,
        b % 8 == 0,
    ensures
        (a + b) % 8 == 0,
        (a + b) / 8 == a / 8 + b / 8,
{
    let x = a / 8;
    let y = b / 8;
    assert(a == 8 * x && b == 8 * y) by (nonlinear_arith)
        requires a % 8 == 0 && b % 8 == 0 && x == a / 8 && y == b / 8;
    assert((8 * x + 8 * y) % 8 == 0 && (8 * x + 8 * y) / 8 == x + y) by (nonlinear_arith);
}

/// Decoded header of one block: the head tag word, the two free-list
/// link words after it, and the tail tag word.
#[derive(Clone, Copy, PartialEq, Eq, Structural, Debug)]
pub struct NodeHeader {
    pub size: u64,
    pub previous: u64,
    pub next: u64,
    pub size_end: u64,
}

/// Handle to one block: the word offset of its head tag.
#[derive(Clone, Copy)]
pub struct Node {
    pub buffer: usize,
}

impl Node {
    /// Reinterprets an address as a block handle, without touching memory.
    pub fn from(addr: usize) -> (r: Node)
        ensures
            r.buffer == addr,
    {
        Node { buffer: addr }
    }

    /// Writes fresh boundary tags for a free block of `size` bytes at
    /// `addr` and clears its link words.
    pub fn new(mem: &mut Vec<u64>, addr: usize, size: u64) -> (r: Node)
        requires
            old(mem).len() <= MAX_REGION_WORDS,
            1 <= addr,
            MIN_BLOCK_SIZE <= size,
            size % 8 == 0,
            addr + size / 8 <= old(mem).len() - 1,
        ensures
            r.buffer == addr,
            final(mem)@ == old(mem)@
                .update(addr as int, size)
                .update(addr + 1int, 0u64)
                .update(addr + 2int, 0u64)
                .update(addr + size / 8 - 1, size),
            blk_wf(final(mem)@, addr as int),
            blk_free(final(mem)@, addr as int),
            blk_size(final(mem)@, addr as int) == size,
            blk_end(final(mem)@, addr as int) == addr + size / 8,
    {
        let w: usize = (size / 8) as usize;
        let node = Node { buffer: addr };
        mem[addr] = size;
        mem[addr + 1] = 0;
        mem[addr + 2] = 0;
        mem[addr + w - 1] = size;
        node
    }

    /// Stored size with the flag bit masked off.
    pub fn size(&self, mem: &Vec<u64>) -> (r: u64)
        requires
            self.buffer < mem.len(),
        ensures
            r == blk_size(mem@, self.buffer as int),
    {
        let v: u64 = mem[self.buffer];
        v - v % 2
    }

    /// Reads the busy/free flag from bit 0 of the head tag.
    pub fn is_free(&self, mem: &Vec<u64>) -> (r: bool)
        requires
            self.buffer < mem.len(),
        ensures
            r == blk_free(mem@, self.buffer as int),
    {
        let v: u64 = mem[self.buffer];
        v % 2 == 0
    }

    /// Rewrites the flag bit in both boundary tags, keeping the size.
    pub fn set_free(&self, mem: &mut Vec<u64>, free: bool)
        requires
            old(mem).len() <= MAX_REGION_WORDS,
            blk_wf(old(mem)@, self.buffer as int),
        ensures
            final(mem)@ == old(mem)@
                .update(
                    self.buffer as int,
                    (blk_size(old(mem)@, self.buffer as int) + if free { 0int } else { 1int }) as u64,
                )
                .update(
                    blk_end(old(mem)@, self.buffer as int) - 1,
                    (blk_size(old(mem)@, self.buffer as int) + if free { 0int } else { 1int }) as u64,
                ),
            blk_wf(final(mem)@, self.buffer as int),
            blk_free(final(mem)@, self.buffer as int) == free,
            blk_size(final(mem)@, self.buffer as int)
                == blk_size(old(mem)@, self.buffer as int),
    {
        let s: u64 = self.size(mem);
        let w: usize = (s / 8) as usize;
        let v: u64 = if free { s } else { s + 1 };
        mem[self.buffer] = v;
        mem[self.buffer + w - 1] = v;
    }

    /// Reads the block's four bookkeeping words out of the region.
    pub fn header(&self, mem: &Vec<u64>) -> (r: NodeHeader)
        requires
            blk_wf(mem@, self.buffer as int),
            mem.len() <= MAX_REGION_WORDS,
        ensures
            r.size == mem@[self.buffer as int],
            r.previous == mem@[self.buffer + 1int],
            r.next == mem@[self.buffer + 2int],
            r.size_end == mem@[blk_end(mem@, self.buffer as int) - 1],
    {
        let s: u64 = self.size(mem);
        let w: usize = (s / 8) as usize;
        NodeHeader {
            size: mem[self.buffer],
            previous: mem[self.buffer + 1],
            next: mem[self.buffer + 2],
            size_end: mem[self.buffer + w - 1],
        }
    }

    /// Carves a leading sub-block of `size` bytes out of a free block and
    /// returns the pair (leading, leftover), both freshly tagged and free.
    pub fn split(self, mem: &mut Vec<u64>, size: u64) -> (r: (Node, Node))
        requires
            old(mem).len() <= MAX_REGION_WORDS,
            blk_wf(old(mem)@, self.buffer as int),
            blk_free(old(mem)@, self.buffer as int),
            MIN_BLOCK_SIZE <= size,
            size % 8 == 0,
            blk_size(old(mem)@, self.buffer as int) - size >= MIN_BLOCK_SIZE,
        ensures
            final(mem).len() == old(mem).len(),
            r.0.buffer == self.buffer,
            r.1.buffer == self.buffer + size / 8,
            forall|k: int| 0 <= k < old(mem).len()
                && !(self.buffer <= k < blk_end(old(mem)@, self.buffer as int))
                ==> final(mem)@[k] == old(mem)@[k],
            blk_wf(final(mem)@, r.0.buffer as int),
            blk_free(final(mem)@, r.0.buffer as int),
            blk_size(final(mem)@, r.0.buffer as int) == size,
            blk_end(final(mem)@, r.0.buffer as int) == r.1.buffer,
            blk_wf(final(mem)@, r.1.buffer as int),
            blk_free(final(mem)@, r.1.buffer as int),
            blk_size(final(mem)@, r.1.buffer as int)
                == blk_size(old(mem)@, self.buffer as int) - size,
            blk_end(final(mem)@, r.1.buffer as int)
                == blk_end(old(mem)@, self.buffer as int),
            final(mem)@[r.0.buffer + 1] == 0 && final(mem)@[r.0.buffer + 2] == 0,
            final(mem)@[r.1.buffer + 1] == 0 && final(mem)@[r.1.buffer + 2] == 0,
    {
        let s0: u64 = self.size(mem);
        let leftover: u64 = s0 - size;
        proof {
            lemma_div8_add(size as int, leftover as int);
        }
        let first = Node::new(mem, self.buffer, size);
        let second = Node::new(mem, self.buffer + (size / 8) as usize, leftover);
        (first, second)
    }

    /// Merges this free block with the physically adjacent free block
    /// `next` into one free block re-tagged with the summed size.
    pub fn coalesce(self, mem: &mut Vec<u64>, next: Node) -> (r: Node)
        requires
            old(mem).len() <= MAX_REGION_WORDS,
            blk_wf(old(mem)@, self.buffer as int),
            blk_free(old(mem)@, self.buffer as int),
            blk_wf(old(mem)@, next.buffer as int),
            blk_free(old(mem)@, next.buffer as int),
            next.buffer == blk_end(old(mem)@, self.buffer as int),
        ensures
            final(mem).len() == old(mem).len(),
            r.buffer == self.buffer,
            forall|k: int| 0 <= k < old(mem).len()
                && !(self.buffer <= k < blk_end(old(mem)@, next.buffer as int))
                ==> final(mem)@[k] == old(mem)@[k],
            blk_wf(final(mem)@, r.buffer as int),
            blk_free(final(mem)@, r.buffer as int),
            blk_size(final(mem)@, r.buffer as int)
                == blk_size(old(mem)@, self.buffer as int)
                    + blk_size(old(mem)@, next.buffer as int),
            blk_end(final(mem)@, r.buffer as int)
                == blk_end(old(mem)@, next.buffer as int),
            final(mem)@[r.buffer + 1] == 0 && final(mem)@[r.buffer + 2] == 0,
    {
        let s1: u64 = self.size(mem);
        let s2: u64 = next.size(mem);
        proof {
            lemma_div8_add(s1 as int, s2 as int);
        }
        Node::new(mem, self.buffer, s1 + s2)
    }

    /// Reads the tag word just before this block to locate the physical
    /// predecessor; a zero tag means the block is first in the region.
    pub fn previous(
        &self,
        mem: &Vec<u64>,
        Ghost(starts): Ghost<Seq<int>>,
        Ghost(i): Ghost<int>,
    ) -> (r: Option<Node>)
        requires
            heap_wf(mem@, starts),
            0 <= i < starts.len(),
            starts[i] == self.buffer as int,
        ensures
            i == 0 ==> r.is_none(),
            i > 0 ==> r == Some(Node { buffer: starts[i - 1] as usize }),
    {
        proof {
            if i > 0 {
                assert(blk_wf(mem@, starts[i - 1]));
                assert(tile_at(mem@, starts, i - 1));
            }
        }
        let t: u64 = mem[self.buffer - 1];
        let psz: u64 = t - t % 2;
        if psz == 0 {
            None
        } else {
            Some(Node::from(self.buffer - (psz / 8) as usize))
        }
    }

    /// Reads the tag word just past this block to locate the physical
    /// successor; a zero tag means the block is last in the region.
    pub fn next(
        &self,
        mem: &Vec<u64>,
        Ghost(starts): Ghost<Seq<int>>,
        Ghost(i): Ghost<int>,
    ) -> (r: Option<Node>)
        requires
            heap_wf(mem@, starts),
            0 <= i < starts.len(),
            starts[i] == self.buffer as int,
        ensures
            i == starts.len() - 1 ==> r.is_none(),
            i < starts.len() - 1 ==> r == Some(Node { buffer: starts[i + 1] as usize }),
    {
        let s: u64 = self.size(mem);
        let e: usize = self.buffer + (s / 8) as usize;
        proof {
            if i < starts.len() - 1 {
                assert(blk_wf(mem@, starts[i + 1]));
                assert(tile_at(mem@, starts, i));
            }
        }
        let t: u64 = mem[e];
        if t - t % 2 == 0 {
            None
        } else {
            Some(Node::from(e))
        }
    }
}

} // verus!
