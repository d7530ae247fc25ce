//! Allocator front-end: allocate with split-on-allocate, deallocate with
//! eager coalesce-on-free.
//!
//! The allocator owns the backing region (a bounds-checked buffer of
//! words), the segregated free-list index, and the ghost tiling of the
//! region into blocks.  Addresses handed out and taken back are word
//! offsets of block head tags inside the region.

use vstd::prelude::*;
use crate::node::{
    blk_end, blk_free, blk_size, blk_wf, blk_words, heap_wf, lemma_all_disjoint,
    lemma_div8_add, lemma_heap_merge, lemma_heap_retag, lemma_heap_split, tile_at, Node,
    BLOCK_OVERHEAD, MAX_REGION_WORDS, MIN_BLOCK_SIZE,
};
use crate::arena::{
    class_of, found_class, free_listed_except, head_of, in_list, in_starts,
    lemma_class_in_range, lemma_class_monotonic, lemma_first_nonempty_le, lemma_lists_window,
    list_node_wf, not_listed, Arena,
};

verus! {

/// Footprint in bytes that a request for `size` bytes occupies: the
/// request plus one tag word of overhead at each end, at least
/// [`MIN_BLOCK_SIZE`], rounded up to whole words.
pub open spec fn footprint(size: int) -> int {
    let padded = if size + BLOCK_OVERHEAD < MIN_BLOCK_SIZE {
        MIN_BLOCK_SIZE as int
    } else {
        size + BLOCK_OVERHEAD
    };
    ((padded + 7) / 8) * 8
}

/// Basic bounds of the footprint.
pub proof fn lemma_footprint(size: int)
    requires
        1 <= size,
    ensures
        footprint(size) % 8 == 0,
        MIN_BLOCK_SIZE <= footprint(size),
        size + 16 <= footprint(size),
        footprint(size) <= size + 39,
{
    let padded = if size + BLOCK_OVERHEAD < MIN_BLOCK_SIZE {
        MIN_BLOCK_SIZE as int
    } else {
        size + BLOCK_OVERHEAD
    };
    assert(((padded + 7) / 8) * 8 % 8 == 0) by (nonlinear_arith);
    assert(padded <= ((padded + 7) / 8) * 8 <= padded + 7) by (nonlinear_arith)
        requires padded >= 1;
}

/// Bytes the block at `b` contributes to the free capacity: its
/// footprint when free, nothing when busy.
pub open spec fn free_contrib(m: Seq<u64>, b: int) -> int {
    if blk_free(m, b) {
        blk_size(m, b)
    } else {
        0
    }
}

/// Total free capacity of the blocks listed in `starts`, in bytes.
pub open spec fn free_cap(m: Seq<u64>, starts: Seq<int>) -> int
    decreases starts.len(),
{
    if starts.len() == 0 {
        0
    } else {
        free_cap(m, starts.drop_last()) + free_contrib(m, starts.last())
    }
}

/// The free capacity of a concatenation is the sum over the parts.
pub proof fn lemma_cap_concat(m: Seq<u64>, s1: Seq<int>, s2: Seq<int>)
    ensures
        free_cap(m, s1 + s2) == free_cap(m, s1) + free_cap(m, s2),
    decreases s2.len(),
{
    if s2.len() == 0 {
        assert(s1 + s2 =~= s1);
    } else {
        assert((s1 + s2).drop_last() =~= s1 + s2.drop_last());
        assert((s1 + s2).last() == s2.last());
        lemma_cap_concat(m, s1, s2.drop_last());
    }
}

/// Memories that agree on every listed block's tag carry the same free
/// capacity over that list.
pub proof fn lemma_cap_congruence(m1: Seq<u64>, m2: Seq<u64>, s: Seq<int>)
    requires
        forall|j: int| 0 <= j < s.len() ==>
            blk_size(m2, #[trigger] s[j]) == blk_size(m1, s[j])
            && blk_free(m2, s[j]) == blk_free(m1, s[j]),
    ensures
        free_cap(m2, s) == free_cap(m1, s),
    decreases s.len(),
{
    if s.len() > 0 {
        lemma_cap_congruence(m1, m2, s.drop_last());
    }
}

/// Free capacity split around one position of the list.
pub proof fn lemma_cap_split_at(m: Seq<u64>, s: Seq<int>, i: int)
    requires
        0 <= i < s.len(),
    ensures
        free_cap(m, s) == free_cap(m, s.take(i)) + free_contrib(m, s[i])
            + free_cap(m, s.skip(i + 1)),
{
    assert(s =~= (s.take(i) + seq![s[i]]) + s.skip(i + 1));
    lemma_cap_concat(m, s.take(i) + seq![s[i]], s.skip(i + 1));
    lemma_cap_concat(m, s.take(i), seq![s[i]]);
    lemma_cap_singleton(m, s[i]);
}

/// Free capacity of a one-element list is that block's contribution.
pub proof fn lemma_cap_singleton(m: Seq<u64>, b: int)
    ensures
        free_cap(m, seq![b]) == free_contrib(m, b),
{
    assert(seq![b].drop_last() =~= Seq::<int>::empty());
    assert(free_cap(m, Seq::<int>::empty()) == 0);
    assert(seq![b].last() == b);
    assert(free_cap(m, seq![b])
        == free_cap(m, seq![b].drop_last()) + free_contrib(m, seq![b].last()));
}

/// Rewriting the tags of the single block at position `i` moves the free
/// capacity by that block's change of contribution.
pub proof fn lemma_cap_retag(m1: Seq<u64>, m2: Seq<u64>, starts: Seq<int>, i: int)
    requires
        0 <= i < starts.len(),
        forall|j: int| 0 <= j < starts.len() && j != i ==>
            blk_size(m2, #[trigger] starts[j]) == blk_size(m1, starts[j])
            && blk_free(m2, starts[j]) == blk_free(m1, starts[j]),
    ensures
        free_cap(m2, starts) == free_cap(m1, starts)
            - free_contrib(m1, starts[i]) + free_contrib(m2, starts[i]),
{
    let t = starts.take(i);
    let sfx = starts.skip(i + 1);
    lemma_cap_split_at(m1, starts, i);
    lemma_cap_split_at(m2, starts, i);
    assert forall|j: int| 0 <= j < t.len() implies
        blk_size(m2, #[trigger] t[j]) == blk_size(m1, t[j])
        && blk_free(m2, t[j]) == blk_free(m1, t[j]) by {
        assert(t[j] == starts[j]);
    }
    assert forall|j: int| 0 <= j < sfx.len() implies
        blk_size(m2, #[trigger] sfx[j]) == blk_size(m1, sfx[j])
        && blk_free(m2, sfx[j]) == blk_free(m1, sfx[j]) by {
        assert(sfx[j] == starts[j + i + 1]);
    }
    lemma_cap_congruence(m1, m2, t);
    lemma_cap_congruence(m1, m2, sfx);
}

/// Coalescing the two free blocks at positions `i` and `i + 1` into one
/// free block keeps the free capacity.
pub proof fn lemma_cap_merge(m1: Seq<u64>, m2: Seq<u64>, starts: Seq<int>, i: int)
    requires
        0 <= i < starts.len() - 1,
        forall|j: int| 0 <= j < starts.len() && j != i && j != i + 1 ==>
            blk_size(m2, #[trigger] starts[j]) == blk_size(m1, starts[j])
            && blk_free(m2, starts[j]) == blk_free(m1, starts[j]),
        blk_free(m1, starts[i]),
        blk_free(m1, starts[i + 1]),
        blk_free(m2, starts[i]),
        blk_size(m2, starts[i]) == blk_size(m1, starts[i]) + blk_size(m1, starts[i + 1]),
    ensures
        free_cap(m2, starts.remove(i + 1)) == free_cap(m1, starts),
{
    let t = starts.take(i);
    let sfx = starts.skip(i + 2);
    lemma_cap_split_at(m1, starts, i);
    assert(starts.skip(i + 1) =~= seq![starts[i + 1]] + sfx);
    lemma_cap_concat(m1, seq![starts[i + 1]], sfx);
    lemma_cap_singleton(m1, starts[i + 1]);
    assert(starts.remove(i + 1) =~= (t + seq![starts[i]]) + sfx);
    lemma_cap_concat(m2, t + seq![starts[i]], sfx);
    lemma_cap_concat(m2, t, seq![starts[i]]);
    lemma_cap_singleton(m2, starts[i]);
    assert forall|j: int| 0 <= j < t.len() implies
        blk_size(m2, #[trigger] t[j]) == blk_size(m1, t[j])
        && blk_free(m2, t[j]) == blk_free(m1, t[j]) by {
        assert(t[j] == starts[j]);
    }
    assert forall|j: int| 0 <= j < sfx.len() implies
        blk_size(m2, #[trigger] sfx[j]) == blk_size(m1, sfx[j])
        && blk_free(m2, sfx[j]) == blk_free(m1, sfx[j]) by {
        assert(sfx[j] == starts[j + i + 2]);
    }
    lemma_cap_congruence(m1, m2, t);
    lemma_cap_congruence(m1, m2, sfx);
}

/// Splitting the free block at position `i` into two free blocks whose
/// sizes sum to the original keeps the free capacity.
pub proof fn lemma_cap_split_block(m1: Seq<u64>, m2: Seq<u64>, starts: Seq<int>, i: int, b2: int)
    requires
        0 <= i < starts.len(),
        forall|j: int| 0 <= j < starts.len() && j != i ==>
            blk_size(m2, #[trigger] starts[j]) == blk_size(m1, starts[j])
            && blk_free(m2, starts[j]) == blk_free(m1, starts[j]),
        blk_free(m1, starts[i]),
        blk_free(m2, starts[i]),
        blk_free(m2, b2),
        blk_size(m2, starts[i]) + blk_size(m2, b2) == blk_size(m1, starts[i]),
    ensures
        free_cap(m2, starts.insert(i + 1, b2)) == free_cap(m1, starts),
{
    let t = starts.take(i);
    let sfx = starts.skip(i + 1);
    lemma_cap_split_at(m1, starts, i);
    assert(starts.insert(i + 1, b2) =~= ((t + seq![starts[i]]) + seq![b2]) + sfx);
    lemma_cap_concat(m2, (t + seq![starts[i]]) + seq![b2], sfx);
    lemma_cap_concat(m2, t + seq![starts[i]], seq![b2]);
    lemma_cap_concat(m2, t, seq![starts[i]]);
    lemma_cap_singleton(m2, starts[i]);
    lemma_cap_singleton(m2, b2);
    assert forall|j: int| 0 <= j < t.len() implies
        blk_size(m2, #[trigger] t[j]) == blk_size(m1, t[j])
        && blk_free(m2, t[j]) == blk_free(m1, t[j]) by {
        assert(t[j] == starts[j]);
    }
    assert forall|j: int| 0 <= j < sfx.len() implies
        blk_size(m2, #[trigger] sfx[j]) == blk_size(m1, sfx[j])
        && blk_free(m2, sfx[j]) == blk_free(m1, sfx[j]) by {
        assert(sfx[j] == starts[j + i + 1]);
    }
    lemma_cap_congruence(m1, m2, t);
    lemma_cap_congruence(m1, m2, sfx);
}


/// Law of the unfragmented heap: when the free space consists of one
/// single block, every request whose footprint fits inside that block —
/// in particular, inside the free capacity — is served by the class
/// search, so `allocate` returns an address for it.
pub proof fn lemma_unfragmented_avail(h: HeapAllocator, b: int, size: int)
    requires
        h.wf(),
        h.is_free_block(b),
        forall|q: int| #[trigger] in_starts(h.starts@, q) && blk_free(h.mem@, q) ==> q == b,
        1 <= size,
        footprint(size) <= h.block_size(b),
    ensures
        h.avail(size),
{
    let f = footprint(size);
    let m = h.mem@;
    let starts = h.starts@;
    let lists = h.arena.lists@;
    lemma_footprint(size);
    let bi = choose|i: int| 0 <= i < starts.len() && starts[i] == b;
    assert(blk_wf(m, b));
    lemma_class_in_range(blk_size(m, b));
    lemma_class_in_range(f);
    let c = class_of(blk_size(m, b));
    let c0 = class_of(f);
    lemma_class_monotonic(f, blk_size(m, b));
    assert(in_list(lists[c], b));
    let j = choose|j: int| 0 <= j < lists[c].len() && lists[c][j] == b;
    if c == c0 {
        assert(list_node_wf(m, starts, lists[c0], c0, lists[c0].len() - 1));
        let hd = head_of(lists[c0]);
        let hi = choose|i: int| 0 <= i < starts.len() && starts[i] == hd;
        assert(hd == b);
        assert(found_class(lists, m, f) == c0);
    } else {
        lemma_first_nonempty_le(lists, c0 + 1, c);
        assert(found_class(lists, m, f) < 64);
    }
}

/// The heap memory manager: one backing region, one free-list index.
pub struct HeapAllocator {
    /// The backing region, one 64-bit word per entry.
    pub mem: Vec<u64>,
    /// Segregated free lists over the region.
    pub arena: Arena,
    /// Ghost tiling: the block start offsets, in address order.
    pub starts: Ghost<Seq<int>>,
}

impl HeapAllocator {
    /// The allocator is well formed: the region is tiled by well-formed
    /// blocks, the free-list index is consistent with the region, and
    /// every free block sits in the list of its class.
    pub open spec fn wf(self) -> bool {
        &&& heap_wf(self.mem@, self.starts@)
        &&& self.arena.wf(self.mem@, self.starts@)
        &&& free_listed_except(self.mem@, self.starts@, self.arena.lists@, Set::empty())
    }

    /// `b` is the start of some block of the region.
    pub open spec fn is_block(self, b: int) -> bool {
        in_starts(self.starts@, b)
    }

    /// `b` is the start of a block marked busy.
    pub open spec fn is_busy_block(self, b: int) -> bool {
        self.is_block(b) && !blk_free(self.mem@, b)
    }

    /// `b` is the start of a block marked free.
    pub open spec fn is_free_block(self, b: int) -> bool {
        self.is_block(b) && blk_free(self.mem@, b)
    }

    /// Footprint in bytes of the block at `b`.
    pub open spec fn block_size(self, b: int) -> int {
        blk_size(self.mem@, b)
    }

    /// Total free capacity: the summed footprints of the free blocks.
    pub open spec fn free_capacity(self) -> int {
        free_cap(self.mem@, self.starts@)
    }

    /// The class search would find a block for a request of `size` bytes.
    pub open spec fn avail(self, size: int) -> bool {
        found_class(self.arena.lists@, self.mem@, footprint(size)) < 64
    }

    /// The block that the class search picks for a request of `size`
    /// bytes (meaningful only when [`Self::avail`] holds).
    pub open spec fn grant(self, size: int) -> int {
        head_of(self.arena.lists@[found_class(self.arena.lists@, self.mem@, footprint(size))])
    }

    /// An allocator with no backing region yet; `init` hands it one.
    pub fn new() -> (r: HeapAllocator)
        ensures
            r.mem.len() == 0,
            r.arena.orders.len() == 64,
            forall|c: int| 0 <= c < 64 ==> #[trigger] r.arena.orders[c] == 0,
            r.arena.lists@.len() == 64,
            forall|c: int| 0 <= c < 64 ==> #[trigger] r.arena.lists@[c].len() == 0,
    {
        HeapAllocator { mem: Vec::new(), arena: Arena::new(), starts: Ghost(Seq::empty()) }
    }

    /// Hands the allocator its backing region of `words` zeroed words,
    /// bracketed by one zero sentinel word at each end, and seeds the
    /// free-list index with the single block spanning everything between
    /// the sentinels.
    pub fn init(&mut self, words: usize)
        requires
            6 <= words <= MAX_REGION_WORDS,
            old(self).mem.len() == 0,
            old(self).arena.orders.len() == 64,
            forall|c: int| 0 <= c < 64 ==> #[trigger] old(self).arena.orders[c] == 0,
            old(self).arena.lists@.len() == 64,
            forall|c: int| 0 <= c < 64 ==> #[trigger] old(self).arena.lists@[c].len() == 0,
        ensures
            final(self).wf(),
            final(self).mem.len() == words,
            final(self).starts@.len() == 1,
            final(self).is_free_block(1),
            final(self).block_size(1) == 8 * words - 16,
            final(self).free_capacity() == 8 * words - 16,
    {
        let mut i: usize = 0;
        while i < words
            invariant
                self.mem.len() == i,
                i <= words,
                forall|k: int| 0 <= k < i ==> #[trigger] self.mem@[k] == 0,
                self.arena == old(self).arena,
            decreases words - i,
        {
            self.mem.push(0);
            i = i + 1;
        }
        let node = Node::new(&mut self.mem, 1, (8 * words - 16) as u64);
        proof {
            self.starts@ = seq![1int];
            assert(blk_end(self.mem@, 1) == words - 1);
            assert(heap_wf(self.mem@, self.starts@));
        }
        self.arena.push_node(
            &mut self.mem,
            &node,
            Ghost(self.starts@),
            Ghost(Set::empty().insert(1int)),
        );
        proof {
            assert(Set::empty().insert(1int).remove(1int) =~= Set::<int>::empty());
            assert(self.starts@ =~= seq![1int]);
            lemma_cap_singleton(self.mem@, 1);
        }
    }

    /// Mid-deallocation shape: the allocator is well formed but for one
    /// block at `b`, already tagged free yet not in any class list.
    pub open spec fn wf_open(self, b: int) -> bool {
        &&& heap_wf(self.mem@, self.starts@)
        &&& self.arena.wf(self.mem@, self.starts@)
        &&& free_listed_except(
            self.mem@,
            self.starts@,
            self.arena.lists@,
            Set::empty().insert(b),
        )
        &&& in_starts(self.starts@, b)
        &&& blk_free(self.mem@, b)
        &&& not_listed(self.arena.lists@, b)
    }

    /// Absorbs the left physical neighbour of the free, unlisted block
    /// `cur` (position `curi` of the tiling) when that neighbour is free:
    /// the neighbour leaves its class list and the two blocks coalesce.
    #[verifier::rlimit(100)]
    fn merge_left(&mut self, cur: Node, Ghost(curi): Ghost<int>) -> (r: Node)
        requires
            old(self).wf_open(cur.buffer as int),
            0 <= curi < old(self).starts@.len(),
            old(self).starts@[curi] == cur.buffer as int,
        ensures
            ({
                let lf = curi > 0 && blk_free(old(self).mem@, old(self).starts@[curi - 1]);
                let nb = if lf { old(self).starts@[curi - 1] } else { cur.buffer as int };
                let ni = if lf { curi - 1 } else { curi };
                &&& final(self).wf_open(nb)
                &&& r.buffer as int == nb
                &&& final(self).starts@ == (if lf {
                    old(self).starts@.remove(curi)
                } else {
                    old(self).starts@
                })
                &&& 0 <= ni < final(self).starts@.len()
                &&& final(self).starts@[ni] == nb
                &&& final(self).block_size(nb) == old(self).block_size(cur.buffer as int)
                    + (if lf { old(self).block_size(old(self).starts@[curi - 1]) } else { 0int })
                &&& (forall|q: int|
                    #[trigger] in_starts(old(self).starts@, q) && q != cur.buffer as int
                        && q != (if lf { old(self).starts@[curi - 1] } else { cur.buffer as int })
                        ==> in_starts(final(self).starts@, q)
                            && final(self).block_size(q) == old(self).block_size(q)
                            && blk_free(final(self).mem@, q) == blk_free(old(self).mem@, q))
                &&& final(self).free_capacity() == old(self).free_capacity()
                &&& final(self).mem.len() == old(self).mem.len()
            }),
    {
        let ghost m0 = self.mem@;
        let ghost starts0 = self.starts@;
        let ghost lists0 = self.arena.lists@;
        let ghost b = cur.buffer as int;
        let prev_opt = cur.previous(&self.mem, Ghost(starts0), Ghost(curi));
        match prev_opt {
            None => {
                proof {
                    assert(in_starts(self.starts@, b)) by {
                        assert(self.starts@[curi] == b);
                    }
                }
                cur
            }
            Some(prev) => {
                proof {
                    assert(prev.buffer as int == starts0[curi - 1]);
                    assert(blk_wf(m0, prev.buffer as int));
                }
                if prev.is_free(&self.mem) {
                    let ghost pb = prev.buffer as int;
                    proof {
                        assert(pb != b) by {
                            lemma_all_disjoint(m0, starts0);
                        }
                        assert(in_list(lists0[class_of(blk_size(m0, pb))], pb));
                        lemma_class_in_range(blk_size(m0, pb));
                    }
                    let ghost c = class_of(blk_size(m0, pb));
                    let ghost j = choose|j: int|
                        0 <= j < lists0[c].len() && lists0[c][j] == pb;
                    self.arena.remove_node(
                        &mut self.mem,
                        &prev,
                        Ghost(starts0),
                        Ghost(c),
                        Ghost(j),
                        Ghost(Set::empty().insert(b)),
                    );
                    let ghost m2 = self.mem@;
                    let ghost lists2 = self.arena.lists@;
                    proof {
                        assert(blk_wf(m2, pb) && blk_wf(m2, b));
                        assert(tile_at(m2, starts0, curi - 1));
                        assert forall|c2: int, j2: int|
                            0 <= c2 < lists2.len() && 0 <= j2 < lists2[c2].len()
                            implies #[trigger] lists2[c2][j2] != b by {
                            let jj: int = if c2 == c && j2 >= j { j2 + 1 } else { j2 };
                            assert(lists2[c2][j2] == lists0[c2][jj]);
                        }
                    }
                    let merged = prev.coalesce(&mut self.mem, cur);
                    proof {
                        lemma_merge_step(
                            m2,
                            self.mem@,
                            starts0,
                            lists2,
                            curi - 1,
                            Set::empty().insert(b).insert(pb),
                        );
                        self.starts@ = starts0.remove(curi);
                        assert(self.arena.wf(self.mem@, self.starts@));
                        assert forall|i2: int|
                            0 <= i2 < self.starts@.len()
                                && blk_free(self.mem@, #[trigger] self.starts@[i2])
                                && !Set::empty().insert(pb).contains(self.starts@[i2])
                            implies in_list(
                                lists2[class_of(blk_size(self.mem@, self.starts@[i2]))],
                                self.starts@[i2],
                            ) by {
                            assert(self.starts@[i2] != b);
                        }
                        assert forall|q: int|
                            #[trigger] in_starts(starts0, q) && q != b && q != pb
                            implies in_starts(self.starts@, q)
                                && blk_size(self.mem@, q) == blk_size(m0, q)
                                && blk_free(self.mem@, q) == blk_free(m0, q) by {
                            let qi = choose|i2: int|
                                0 <= i2 < starts0.len() && starts0[i2] == q;
                            lemma_all_disjoint(m0, starts0);
                            if qi <= curi - 1 {
                                assert(self.starts@[qi] == q);
                            } else {
                                assert(self.starts@[qi - 1] == q);
                            }
                        }
                    }
                    proof {
                        assert(in_starts(self.starts@, pb)) by {
                            assert(self.starts@[curi - 1] == pb);
                        }
                        lemma_cap_congruence(m0, m2, starts0);
                        lemma_cap_merge(m2, self.mem@, starts0, curi - 1);
                    }
                    merged
                } else {
                    proof {
                        assert(in_starts(self.starts@, b)) by {
                            assert(self.starts@[curi] == b);
                        }
                    }
                    cur
                }
            }
        }
    }

    /// Absorbs the right physical neighbour of the free, unlisted block
    /// `cur` (position `curi` of the tiling) when that neighbour is free:
    /// the neighbour leaves its class list and the two blocks coalesce.
    #[verifier::rlimit(100)]
    fn merge_right(&mut self, cur: Node, Ghost(curi): Ghost<int>) -> (r: Node)
        requires
            old(self).wf_open(cur.buffer as int),
            0 <= curi < old(self).starts@.len(),
            old(self).starts@[curi] == cur.buffer as int,
        ensures
            ({
                let rf = curi < old(self).starts@.len() - 1
                    && blk_free(old(self).mem@, old(self).starts@[curi + 1]);
                let b = cur.buffer as int;
                &&& final(self).wf_open(b)
                &&& r.buffer as int == b
                &&& final(self).starts@ == (if rf {
                    old(self).starts@.remove(curi + 1)
                } else {
                    old(self).starts@
                })
                &&& 0 <= curi < final(self).starts@.len()
                &&& final(self).starts@[curi] == b
                &&& final(self).block_size(b) == old(self).block_size(b)
                    + (if rf { old(self).block_size(old(self).starts@[curi + 1]) } else { 0int })
                &&& (forall|q: int|
                    #[trigger] in_starts(old(self).starts@, q) && q != b
                        && q != (if rf { old(self).starts@[curi + 1] } else { b })
                        ==> in_starts(final(self).starts@, q)
                            && final(self).block_size(q) == old(self).block_size(q)
                            && blk_free(final(self).mem@, q) == blk_free(old(self).mem@, q))
                &&& final(self).free_capacity() == old(self).free_capacity()
                &&& final(self).mem.len() == old(self).mem.len()
            }),
    {
        let ghost m0 = self.mem@;
        let ghost starts0 = self.starts@;
        let ghost lists0 = self.arena.lists@;
        let ghost b = cur.buffer as int;
        let next_opt = cur.next(&self.mem, Ghost(starts0), Ghost(curi));
        match next_opt {
            None => {
                proof {
                    assert(in_starts(self.starts@, b)) by {
                        assert(self.starts@[curi] == b);
                    }
                }
                cur
            }
            Some(next) => {
                proof {
                    assert(next.buffer as int == starts0[curi + 1]);
                    assert(blk_wf(m0, next.buffer as int));
                }
                if next.is_free(&self.mem) {
                    let ghost nxb = next.buffer as int;
                    proof {
                        assert(nxb != b) by {
                            lemma_all_disjoint(m0, starts0);
                        }
                        assert(in_list(lists0[class_of(blk_size(m0, nxb))], nxb));
                        lemma_class_in_range(blk_size(m0, nxb));
                    }
                    let ghost c = class_of(blk_size(m0, nxb));
                    let ghost j = choose|j: int|
                        0 <= j < lists0[c].len() && lists0[c][j] == nxb;
                    self.arena.remove_node(
                        &mut self.mem,
                        &next,
                        Ghost(starts0),
                        Ghost(c),
                        Ghost(j),
                        Ghost(Set::empty().insert(b)),
                    );
                    let ghost m2 = self.mem@;
                    let ghost lists2 = self.arena.lists@;
                    proof {
                        assert(blk_wf(m2, nxb) && blk_wf(m2, b));
                        assert(tile_at(m2, starts0, curi));
                        assert forall|c2: int, j2: int|
                            0 <= c2 < lists2.len() && 0 <= j2 < lists2[c2].len()
                            implies #[trigger] lists2[c2][j2] != b by {
                            let jj: int = if c2 == c && j2 >= j { j2 + 1 } else { j2 };
                            assert(lists2[c2][j2] == lists0[c2][jj]);
                        }
                    }
                    let merged = cur.coalesce(&mut self.mem, next);
                    proof {
                        lemma_merge_step(
                            m2,
                            self.mem@,
                            starts0,
                            lists2,
                            curi,
                            Set::empty().insert(nxb).insert(b),
                        );
                        self.starts@ = starts0.remove(curi + 1);
                        assert(self.arena.wf(self.mem@, self.starts@));
                        assert forall|i2: int|
                            0 <= i2 < self.starts@.len()
                                && blk_free(self.mem@, #[trigger] self.starts@[i2])
                                && !Set::empty().insert(b).contains(self.starts@[i2])
                            implies in_list(
                                lists2[class_of(blk_size(self.mem@, self.starts@[i2]))],
                                self.starts@[i2],
                            ) by {
                            assert(self.starts@[i2] != nxb);
                        }
                        assert(in_starts(self.starts@, b)) by {
                            assert(self.starts@[curi] == b);
                        }
                        assert forall|q: int|
                            #[trigger] in_starts(starts0, q) && q != b && q != nxb
                            implies in_starts(self.starts@, q)
                                && blk_size(self.mem@, q) == blk_size(m0, q)
                                && blk_free(self.mem@, q) == blk_free(m0, q) by {
                            let qi = choose|i2: int|
                                0 <= i2 < starts0.len() && starts0[i2] == q;
                            lemma_all_disjoint(m0, starts0);
                            if qi <= curi {
                                assert(self.starts@[qi] == q);
                            } else {
                                assert(self.starts@[qi - 1] == q);
                            }
                        }
                        lemma_cap_congruence(m0, m2, starts0);
                        lemma_cap_merge(m2, self.mem@, starts0, curi);
                    }
                    merged
                } else {
                    proof {
                        assert(in_starts(self.starts@, b)) by {
                            assert(self.starts@[curi] == b);
                        }
                    }
                    cur
                }
            }
        }
    }

    /// Returns the block at `ptr` to the allocator.
    ///
    /// Marks the block free, merges it eagerly with whichever physical
    /// neighbours are free — left, right, or both, located through the
    /// boundary tags — and inserts the resulting block into the free-list
    /// index.  `ptr` must be exactly what `allocate` returned, and still
    /// live; the block's own header supplies the size, so none is taken.
    #[verifier::rlimit(100)]
    pub fn deallocate(&mut self, ptr: usize)
        requires
            old(self).wf(),
            old(self).is_busy_block(ptr as int),
        ensures
            final(self).wf(),
            ({
                let starts0 = old(self).starts@;
                let i = old(self).block_index(ptr as int);
                let lf = i > 0 && blk_free(old(self).mem@, starts0[i - 1]);
                let rf = i < starts0.len() - 1 && blk_free(old(self).mem@, starts0[i + 1]);
                let nb = if lf { starts0[i - 1] } else { ptr as int };
                let ns = old(self).block_size(ptr as int)
                    + (if lf { old(self).block_size(starts0[i - 1]) } else { 0int })
                    + (if rf { old(self).block_size(starts0[i + 1]) } else { 0int });
                &&& final(self).is_free_block(nb)
                &&& final(self).block_size(nb) == ns
                &&& (forall|q: int|
                    #[trigger] old(self).is_busy_block(q) && q != ptr as int
                        ==> final(self).is_busy_block(q)
                            && final(self).block_size(q) == old(self).block_size(q))
                &&& (forall|q: int|
                    #[trigger] old(self).is_free_block(q)
                        && (!lf || q != starts0[i - 1])
                        && (!rf || q != starts0[i + 1])
                        ==> final(self).is_free_block(q)
                            && final(self).block_size(q) == old(self).block_size(q))
                &&& final(self).free_capacity()
                    == old(self).free_capacity() + old(self).block_size(ptr as int)
            }),
    {
        let ghost m0 = self.mem@;
        let ghost starts0 = self.starts@;
        let ghost lists0 = self.arena.lists@;
        let ghost i = self.block_index(ptr as int);
        let node = Node::from(ptr);
        proof {
            assert(starts0[i] == ptr as int);
            assert(blk_wf(m0, ptr as int));
            assert forall|c: int, j: int|
                0 <= c < lists0.len() && 0 <= j < lists0[c].len()
                implies #[trigger] lists0[c][j] != ptr as int by {
                assert(list_node_wf(m0, starts0, lists0[c], c, j));
            }
        }
        node.set_free(&mut self.mem, true);
        proof {
            lemma_heap_retag(m0, self.mem@, starts0, i);
            lemma_allocate_window(m0, self.mem@, starts0, starts0, lists0, ptr as int, i);
            lemma_free_coverage(m0, self.mem@, starts0, lists0, ptr as int, Set::empty());
            lemma_cap_retag(m0, self.mem@, starts0, i);
            assert(Set::empty().insert(ptr as int) =~= Set::<int>::empty().insert(ptr as int));
            assert(in_starts(starts0, ptr as int)) by {
                assert(starts0[i] == ptr as int);
            }
            assert(self.wf_open(ptr as int));
        }
        let ghost ma = self.mem@;
        let cur = self.merge_left(node, Ghost(i));
        let ghost lf = i > 0 && blk_free(ma, starts0[i - 1]);
        let ghost curi: int = if lf { i - 1 } else { i };
        let ghost mb = self.mem@;
        let ghost startsb = self.starts@;
        proof {
            lemma_all_disjoint(m0, starts0);
            if i < starts0.len() - 1 {
                let rn = starts0[i + 1];
                assert(in_starts(starts0, rn)) by {
                    assert(starts0[i + 1] == rn);
                }
                assert(rn != ptr as int);
                if lf {
                    assert(rn != starts0[i - 1]);
                }
                assert(blk_size(mb, rn) == blk_size(m0, rn)
                    && blk_free(mb, rn) == blk_free(m0, rn));
            }
        }
        let merged = self.merge_right(cur, Ghost(curi));
        proof {
            assert(curi < startsb.len() - 1 ==> startsb[curi + 1] == starts0[i + 1]) by {
                if lf {
                    assert(startsb == starts0.remove(i));
                } else {
                    assert(startsb == starts0);
                }
            }
        }
        let ghost mpre = self.mem@;
        self.arena.push_node(
            &mut self.mem,
            &merged,
            Ghost(self.starts@),
            Ghost(Set::empty().insert(merged.buffer as int)),
        );
        proof {
            let ghost mb2 = merged.buffer as int;
            assert(Set::empty().insert(mb2).remove(mb2) =~= Set::<int>::empty());
            lemma_cap_congruence(mpre, self.mem@, self.starts@);
        }
    }

    /// Position of the block starting at `b` in the tiling.
    pub open spec fn block_index(self, b: int) -> int {
        choose|i: int| 0 <= i < self.starts@.len() && self.starts@[i] == b
    }

    /// Serves a request for `size` bytes of memory.
    ///
    /// Computes the footprint, asks the free-list index for a block of at
    /// least that many bytes, and splits off the leftover when the excess
    /// reaches [`MIN_BLOCK_SIZE`]; the granted block is re-tagged busy and
    /// its head word offset returned.  Returns nothing exactly when the
    /// class search finds no fitting block; the heap is then unchanged.
    #[verifier::rlimit(100)]
    pub fn allocate(&mut self, size: u64) -> (r: Option<usize>)
        requires
            old(self).wf(),
            1 <= size <= 0xffff_ffff_ffff_ffc0,
        ensures
            final(self).wf(),
            r.is_some() <==> old(self).avail(size as int),
            r.is_none() ==> *final(self) == *old(self),
            r.is_some() ==> ({
                let f = footprint(size as int);
                let b = old(self).grant(size as int);
                let s0 = old(self).block_size(b);
                &&& r.unwrap() as int == b
                &&& old(self).is_free_block(b)
                &&& s0 >= f
                &&& final(self).is_busy_block(b)
                &&& final(self).block_size(b)
                    == (if s0 - f >= MIN_BLOCK_SIZE { f } else { s0 })
                &&& (s0 - f >= MIN_BLOCK_SIZE ==> final(self).is_free_block(b + f / 8)
                        && final(self).block_size(b + f / 8) == s0 - f)
                &&& (forall|q: int| #[trigger] old(self).is_busy_block(q)
                        ==> final(self).is_busy_block(q)
                            && final(self).block_size(q) == old(self).block_size(q))
                &&& (forall|q: int| #[trigger] old(self).is_free_block(q) && q != b
                        ==> final(self).is_free_block(q)
                            && final(self).block_size(q) == old(self).block_size(q))
                &&& final(self).free_capacity()
                    == old(self).free_capacity() - final(self).block_size(b)
            }),
    {
        let ghost m0 = self.mem@;
        let ghost starts0 = self.starts@;
        let ghost lists0 = self.arena.lists@;
        let padded: u64 = if size < 16 { 32 } else { size + 16 };
        let f: u64 = ((padded + 7) / 8) * 8;
        proof {
            lemma_footprint(size as int);
            assert(f as int == footprint(size as int));
        }
        let found = self.arena.find_node(
            &mut self.mem,
            f,
            Ghost(starts0),
            Ghost(Set::<int>::empty()),
        );
        match found {
            None => None,
            Some(node) => {
                let ghost m1 = self.mem@;
                let ghost lists1 = self.arena.lists@;
                let ghost b = node.buffer as int;
                let ghost bi = choose|i: int|
                    0 <= i < starts0.len() && starts0[i] == b;
                let s0: u64 = node.size(&self.mem);
                proof {
                    assert(blk_wf(m1, b));
                    assert(s0 as int == blk_size(m0, b));
                }
                if s0 - f >= MIN_BLOCK_SIZE {
                    proof {
                        lemma_div8_add(f as int, s0 - f);
                    }
                    let pair = node.split(&mut self.mem, f);
                    let leftover = pair.1;
                    let ghost m2 = self.mem@;
                    let ghost b2 = leftover.buffer as int;
                    proof {
                        lemma_heap_split(m1, m2, starts0, bi, b2);
                        self.starts@ = starts0.insert(bi + 1, b2);
                        assert forall|x: int| in_starts(starts0, x) && x != b
                            implies in_starts(self.starts@, x) by {
                            let xi = choose|i: int|
                                0 <= i < starts0.len() && starts0[i] == x;
                            if xi <= bi {
                                assert(self.starts@[xi] == x);
                            } else {
                                assert(self.starts@[xi + 1] == x);
                            }
                        }
                        lemma_allocate_window(m1, m2, starts0, self.starts@, lists1, b, bi);
                        assert(self.arena.wf(m2, self.starts@));
                        assert(in_starts(self.starts@, b2));
                        assert(not_listed(lists1, b2)) by {
                            assert forall|c: int, j: int|
                                0 <= c < lists1.len() && 0 <= j < lists1[c].len()
                                implies #[trigger] lists1[c][j] != b2 by {
                                assert(list_node_wf(m1, starts0, lists1[c], c, j));
                                let x = lists1[c][j];
                                let xi = choose|i: int|
                                    0 <= i < starts0.len() && starts0[i] == x;
                                lemma_all_disjoint(m1, starts0);
                                if x != b {
                                    assert(blk_end(m1, x) <= b || blk_end(m1, b) <= x);
                                }
                            }
                        }
                        assert(free_listed_except(
                            m2,
                            self.starts@,
                            lists1,
                            Set::empty().insert(b).insert(b2),
                        )) by {
                            lemma_allocate_coverage(
                                m1, m2, starts0, self.starts@, lists1, b, bi, b2,
                            );
                        }
                    }
                    self.arena.push_node(
                        &mut self.mem,
                        &leftover,
                        Ghost(self.starts@),
                        Ghost(Set::empty().insert(b).insert(b2)),
                    );
                    let ghost m3 = self.mem@;
                    let ghost lists3 = self.arena.lists@;
                    let slice = pair.0;
                    proof {
                        assert(self.starts@[bi] == b);
                        assert(blk_wf(m3, b));
                        let cls2 = class_of(blk_size(m2, b2));
                        lemma_class_in_range(blk_size(m2, b2));
                        assert(lists3 == lists1.update(cls2, lists1[cls2].push(b2)));
                        assert(b2 == b + f / 8 && f / 8 >= 4);
                        assert forall|c: int, j: int|
                            0 <= c < lists3.len() && 0 <= j < lists3[c].len()
                            implies #[trigger] lists3[c][j] != b by {
                            if c == cls2 && j == lists1[c].len() {
                                assert(lists3[c][j] == b2);
                            } else {
                                assert(lists3[c][j] == lists1[c][j]);
                            }
                        }
                    }
                    slice.set_free(&mut self.mem, false);
                    proof {
                        lemma_heap_retag(m3, self.mem@, self.starts@, bi);
                        lemma_allocate_window(
                            m3, self.mem@, self.starts@, self.starts@, lists3, b, bi,
                        );
                        assert(self.arena.wf(self.mem@, self.starts@));
                        lemma_busy_coverage(m3, self.mem@, self.starts@, lists3, b);
                        lemma_allocate_post(
                            m0, m1, m2, m3, self.mem@, starts0, self.starts@, b, bi, b2,
                        );
                        lemma_cap_congruence(m0, m1, starts0);
                        lemma_cap_split_block(m1, m2, starts0, bi, b2);
                        lemma_cap_congruence(m2, m3, self.starts@);
                        lemma_cap_retag(m3, self.mem@, self.starts@, bi);
                    }
                    Some(slice.buffer)
                } else {
                    node.set_free(&mut self.mem, false);
                    proof {
                        lemma_heap_retag(m1, self.mem@, starts0, bi);
                        lemma_allocate_window(m1, self.mem@, starts0, starts0, lists1, b, bi);
                        assert(self.arena.wf(self.mem@, self.starts@));
                        lemma_busy_coverage(m1, self.mem@, starts0, lists1, b);
                        assert forall|q: int| #[trigger] old(self).is_busy_block(q)
                            implies final(self).is_busy_block(q)
                                && final(self).block_size(q) == old(self).block_size(q) by {
                            let qi = choose|i: int|
                                0 <= i < starts0.len() && starts0[i] == q;
                        }
                        assert forall|q: int| #[trigger] old(self).is_free_block(q) && q != b
                            implies final(self).is_free_block(q)
                                && final(self).block_size(q) == old(self).block_size(q) by {
                            let qi = choose|i: int|
                                0 <= i < starts0.len() && starts0[i] == q;
                            lemma_all_disjoint(m1, starts0);
                        }
                        lemma_cap_congruence(m0, m1, starts0);
                        lemma_cap_retag(m1, self.mem@, starts0, bi);
                    }
                    Some(node.buffer)
                }
            }
        }
    }
}

/// The window frame for `allocate`: the class lists stay consistent when
/// only words of the granted block `b` (position `bi` of the old tiling)
/// are rewritten, since `b` is in no list.
proof fn lemma_allocate_window(
    m1: Seq<u64>,
    m2: Seq<u64>,
    starts1: Seq<int>,
    starts2: Seq<int>,
    lists: Seq<Seq<int>>,
    b: int,
    bi: int,
)
    requires
        heap_wf(m1, starts1),
        lists.len() == 64,
        forall|c: int, j: int|
            0 <= c < 64 && 0 <= j < lists[c].len()
                ==> #[trigger] list_node_wf(m1, starts1, lists[c], c, j),
        not_listed(lists, b),
        0 <= bi < starts1.len(),
        starts1[bi] == b,
        m2.len() == m1.len(),
        forall|k: int|
            0 <= k < m1.len() && !(b <= k < blk_end(m1, b)) ==> m2[k] == m1[k],
        forall|x: int| in_starts(starts1, x) && x != b ==> in_starts(starts2, x),
    ensures
        forall|c: int, j: int|
            0 <= c < 64 && 0 <= j < lists[c].len()
                ==> #[trigger] list_node_wf(m2, starts2, lists[c], c, j),
{
    lemma_all_disjoint(m1, starts1);
    assert forall|c: int, j: int|
        0 <= c < 64 && 0 <= j < lists[c].len()
        implies blk_end(m1, #[trigger] lists[c][j]) <= b || blk_end(m1, b) <= lists[c][j] by {
        assert(list_node_wf(m1, starts1, lists[c], c, j));
        let x = lists[c][j];
        let xi = choose|i: int| 0 <= i < starts1.len() && starts1[i] == x;
        assert(x != b);
    }
    assert forall|c: int, j: int|
        0 <= c < 64 && 0 <= j < lists[c].len()
        implies in_starts(starts2, #[trigger] lists[c][j])
            && 0 <= lists[c][j] && blk_end(m1, lists[c][j]) <= m1.len()
            && blk_words(m1, lists[c][j]) >= 4 by {
        assert(list_node_wf(m1, starts1, lists[c], c, j));
        let x = lists[c][j];
        let xi = choose|i: int| 0 <= i < starts1.len() && starts1[i] == x;
        assert(blk_wf(m1, x));
        assert(x != b);
    }
    lemma_lists_window(m1, m2, starts1, starts2, lists, b, blk_end(m1, b));
}

/// After a split of the granted block, every free block of the refined
/// tiling other than the two halves is still listed.
proof fn lemma_allocate_coverage(
    m1: Seq<u64>,
    m2: Seq<u64>,
    starts1: Seq<int>,
    starts2: Seq<int>,
    lists: Seq<Seq<int>>,
    b: int,
    bi: int,
    b2: int,
)
    requires
        heap_wf(m1, starts1),
        lists.len() == 64,
        free_listed_except(m1, starts1, lists, Set::empty().insert(b)),
        0 <= bi < starts1.len(),
        starts1[bi] == b,
        m2.len() == m1.len(),
        forall|k: int|
            0 <= k < m1.len() && !(b <= k < blk_end(m1, b)) ==> m2[k] == m1[k],
        starts2 == starts1.insert(bi + 1, b2),
        b < b2 < blk_end(m1, b),
    ensures
        free_listed_except(m2, starts2, lists, Set::empty().insert(b).insert(b2)),
{
    lemma_all_disjoint(m1, starts1);
    assert forall|i: int|
        0 <= i < starts2.len() && blk_free(m2, #[trigger] starts2[i])
            && !Set::empty().insert(b).insert(b2).contains(starts2[i])
        implies in_list(lists[class_of(blk_size(m2, starts2[i]))], starts2[i]) by {
        let y = starts2[i];
        let yi: int = if i <= bi { i } else { i - 1 };
        assert(y == b2 || starts1[yi] == y);
        assert(y != b && y != b2);
        assert(blk_end(m1, y) <= b || blk_end(m1, b) <= y);
        assert(blk_size(m2, y) == blk_size(m1, y) && blk_free(m2, y) == blk_free(m1, y));
        assert(in_list(lists[class_of(blk_size(m1, y))], y));
    }
}

/// One coalescing step: blocks at positions `i` and `i + 1` of the tiling,
/// both free and in no list, have been merged in memory into one free
/// block at `starts[i]`.  The tiling loses the second start, every list
/// node survives, and the coverage of the lists is unchanged.
#[verifier::rlimit(100)]
proof fn lemma_merge_step(
    m2: Seq<u64>,
    m3: Seq<u64>,
    starts: Seq<int>,
    lists: Seq<Seq<int>>,
    i: int,
    ex: Set<int>,
)
    requires
        heap_wf(m2, starts),
        lists.len() == 64,
        forall|c: int, j: int|
            0 <= c < 64 && 0 <= j < lists[c].len()
                ==> #[trigger] list_node_wf(m2, starts, lists[c], c, j),
        free_listed_except(m2, starts, lists, ex),
        0 <= i < starts.len() - 1,
        ex.contains(starts[i]),
        not_listed(lists, starts[i]),
        not_listed(lists, starts[i + 1]),
        m3.len() == m2.len(),
        forall|k: int|
            0 <= k < m2.len() && !(starts[i] <= k < blk_end(m2, starts[i + 1]))
                ==> m3[k] == m2[k],
        blk_wf(m3, starts[i]),
        blk_end(m3, starts[i]) == blk_end(m2, starts[i + 1]),
    ensures
        heap_wf(m3, starts.remove(i + 1)),
        forall|c: int, j: int|
            0 <= c < 64 && 0 <= j < lists[c].len()
                ==> #[trigger] list_node_wf(m3, starts.remove(i + 1), lists[c], c, j),
        free_listed_except(m3, starts.remove(i + 1), lists, ex),
        forall|j: int| 0 <= j <= i ==> #[trigger] starts.remove(i + 1)[j] == starts[j],
        forall|j: int| i + 1 < j < starts.len() ==> #[trigger] starts.remove(i + 1)[j - 1] == starts[j],
        forall|j: int| 0 <= j < starts.len() && j != i && j != i + 1 ==>
            blk_size(m3, #[trigger] starts[j]) == blk_size(m2, starts[j])
            && blk_free(m3, starts[j]) == blk_free(m2, starts[j]),
        forall|j: int| 0 <= j < starts.remove(i + 1).len()
            ==> #[trigger] starts.remove(i + 1)[j] != starts[i + 1],
{
    lemma_all_disjoint(m2, starts);
    lemma_heap_merge(m2, m3, starts, i);
    let s2 = starts.remove(i + 1);
    let b1 = starts[i];
    let b2 = starts[i + 1];
    let hi = blk_end(m2, b2);
    assert(tile_at(m2, starts, i));
    assert forall|c: int, j: int|
        0 <= c < 64 && 0 <= j < lists[c].len()
        implies blk_end(m2, #[trigger] lists[c][j]) <= b1 || hi <= lists[c][j] by {
        assert(list_node_wf(m2, starts, lists[c], c, j));
        let x = lists[c][j];
        let xi = choose|q: int| 0 <= q < starts.len() && starts[q] == x;
        assert(x != b1 && x != b2);
        assert(blk_end(m2, x) <= b1 || blk_end(m2, b1) <= x);
        assert(blk_end(m2, x) <= b2 || blk_end(m2, b2) <= x);
    }
    assert forall|c: int, j: int|
        0 <= c < 64 && 0 <= j < lists[c].len()
        implies in_starts(s2, #[trigger] lists[c][j])
            && 0 <= lists[c][j] && blk_end(m2, lists[c][j]) <= m2.len()
            && blk_words(m2, lists[c][j]) >= 4 by {
        assert(list_node_wf(m2, starts, lists[c], c, j));
        let x = lists[c][j];
        let xi = choose|q: int| 0 <= q < starts.len() && starts[q] == x;
        assert(blk_wf(m2, x));
        assert(x != b2);
        assert(xi != i + 1);
        if xi <= i {
            assert(s2[xi] == x);
        } else {
            assert(s2[xi - 1] == x);
        }
    }
    lemma_lists_window(m2, m3, starts, s2, lists, b1, hi);
    assert forall|j: int| 0 <= j < s2.len() implies #[trigger] s2[j] != b2 by {
        if j <= i {
            assert(s2[j] == starts[j]);
        } else {
            assert(s2[j] == starts[j + 1]);
        }
    }
    assert forall|i2: int|
        0 <= i2 < s2.len() && blk_free(m3, #[trigger] s2[i2]) && !ex.contains(s2[i2])
        implies in_list(lists[class_of(blk_size(m3, s2[i2]))], s2[i2]) by {
        let y = s2[i2];
        let yi: int = if i2 <= i { i2 } else { i2 + 1 };
        assert(starts[yi] == y);
        if yi != i {
            assert(blk_size(m3, y) == blk_size(m2, y) && blk_free(m3, y) == blk_free(m2, y));
            assert(in_list(lists[class_of(blk_size(m2, y))], y));
        } else {
            assert(y == b1);
            assert(ex.contains(b1));
        }
    }
}

/// Re-tagging an unlisted block free keeps every other free block listed;
/// the block itself joins the uncovered set.
proof fn lemma_free_coverage(
    m1: Seq<u64>,
    m2: Seq<u64>,
    starts: Seq<int>,
    lists: Seq<Seq<int>>,
    b: int,
    ex: Set<int>,
)
    requires
        heap_wf(m1, starts),
        lists.len() == 64,
        free_listed_except(m1, starts, lists, ex),
        in_starts(starts, b),
        m2.len() == m1.len(),
        forall|k: int|
            0 <= k < m1.len() && !(b <= k < blk_end(m1, b)) ==> m2[k] == m1[k],
    ensures
        free_listed_except(m2, starts, lists, ex.insert(b)),
{
    lemma_all_disjoint(m1, starts);
    assert forall|i: int|
        0 <= i < starts.len() && blk_free(m2, #[trigger] starts[i])
            && !ex.insert(b).contains(starts[i])
        implies in_list(lists[class_of(blk_size(m2, starts[i]))], starts[i]) by {
        let y = starts[i];
        assert(y != b);
        assert(blk_end(m1, y) <= b || blk_end(m1, b) <= y);
        assert(blk_size(m2, y) == blk_size(m1, y) && blk_free(m2, y) == blk_free(m1, y));
        assert(in_list(lists[class_of(blk_size(m1, y))], y));
    }
}

/// Re-tagging an unlisted block busy keeps every free block listed.
proof fn lemma_busy_coverage(
    m1: Seq<u64>,
    m2: Seq<u64>,
    starts: Seq<int>,
    lists: Seq<Seq<int>>,
    b: int,
)
    requires
        heap_wf(m1, starts),
        lists.len() == 64,
        free_listed_except(m1, starts, lists, Set::empty().insert(b)),
        in_starts(starts, b),
        m2.len() == m1.len(),
        forall|k: int|
            0 <= k < m1.len() && !(b <= k < blk_end(m1, b)) ==> m2[k] == m1[k],
        !blk_free(m2, b),
        blk_size(m2, b) == blk_size(m1, b),
    ensures
        free_listed_except(m2, starts, lists, Set::<int>::empty()),
{
    lemma_all_disjoint(m1, starts);
    let bi = choose|i: int| 0 <= i < starts.len() && starts[i] == b;
    assert forall|i: int|
        0 <= i < starts.len() && blk_free(m2, #[trigger] starts[i])
            && !Set::<int>::empty().contains(starts[i])
        implies in_list(lists[class_of(blk_size(m2, starts[i]))], starts[i]) by {
        let y = starts[i];
        assert(y != b);
        assert(blk_end(m1, y) <= b || blk_end(m1, b) <= y);
        assert(blk_size(m2, y) == blk_size(m1, y) && blk_free(m2, y) == blk_free(m1, y));
        assert(in_list(lists[class_of(blk_size(m1, y))], y));
    }
}

/// Ties the four memory states of the splitting path of `allocate`
/// together: all blocks other than the granted one and its leftover keep
/// their tags, the granted block ends up busy with the requested
/// footprint, and the leftover ends up free with the rest.
proof fn lemma_allocate_post(
    m0: Seq<u64>,
    m1: Seq<u64>,
    m2: Seq<u64>,
    m3: Seq<u64>,
    m4: Seq<u64>,
    starts0: Seq<int>,
    starts2: Seq<int>,
    b: int,
    bi: int,
    b2: int,
)
    requires
        heap_wf(m1, starts0),
        0 <= bi < starts0.len(),
        starts0[bi] == b,
        starts2 == starts0.insert(bi + 1, b2),
        forall|i: int| 0 <= i < starts0.len() ==>
            blk_size(m1, #[trigger] starts0[i]) == blk_size(m0, starts0[i])
            && blk_free(m1, starts0[i]) == blk_free(m0, starts0[i]),
        m2.len() == m1.len(),
        forall|j: int| 0 <= j < starts0.len() && j != bi ==>
            blk_size(m2, #[trigger] starts0[j]) == blk_size(m1, starts0[j])
            && blk_free(m2, starts0[j]) == blk_free(m1, starts0[j]),
        forall|i: int| 0 <= i < starts2.len() ==>
            blk_size(m3, #[trigger] starts2[i]) == blk_size(m2, starts2[i])
            && blk_free(m3, starts2[i]) == blk_free(m2, starts2[i]),
        forall|j: int| 0 <= j < starts2.len() && j != bi ==>
            blk_size(m4, #[trigger] starts2[j]) == blk_size(m3, starts2[j])
            && blk_free(m4, starts2[j]) == blk_free(m3, starts2[j]),
    ensures
        forall|q: int|
            #[trigger] in_starts(starts0, q) && q != b
                ==> in_starts(starts2, q)
                    && blk_size(m4, q) == blk_size(m0, q)
                    && blk_free(m4, q) == blk_free(m0, q),
{
    assert forall|q: int| #[trigger] in_starts(starts0, q) && q != b
        implies in_starts(starts2, q)
            && blk_size(m4, q) == blk_size(m0, q)
            && blk_free(m4, q) == blk_free(m0, q) by {
        let qi = choose|i: int| 0 <= i < starts0.len() && starts0[i] == q;
        let q2: int = if qi <= bi { qi } else { qi + 1 };
        assert(starts2[q2] == q);
        assert(blk_size(m2, q) == blk_size(m0, q) && blk_free(m2, q) == blk_free(m0, q));
        assert(blk_size(m3, q) == blk_size(m2, q) && blk_free(m3, q) == blk_free(m2, q));
        assert(q2 != bi);
        assert(blk_size(m4, q) == blk_size(m3, q) && blk_free(m4, q) == blk_free(m3, q));
    }
}

} // verus!
