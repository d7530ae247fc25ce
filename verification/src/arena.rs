//! Segregated free-list index.
//!
//! The arena maps a size class to the head of a doubly linked list of
//! free blocks of that class.  The links live inside the managed memory
//! itself, in the two words after each free block's head tag; the arena
//! owns only the table of list heads.  A zero head or link means "none".
//!
//! The ghost view of the index is one sequence of block addresses per
//! class, ordered from the physical tail of the list (index 0) to its
//! head (last index), so that pushing a block onto the head of a list is
//! a ghost `push` and popping the head is a ghost `drop_last`.

use vstd::prelude::*;
use crate::node::{
    blk_end, blk_free, blk_size, blk_wf, blk_words, heap_wf, lemma_all_disjoint, Node,
};

verus! {

/// 2 to the `k`-th power.
pub open spec fn pow2(k: nat) -> nat
    decreases k,
{
    if k == 0 {
        1
    } else {
        2 * pow2((k - 1) as nat)
    }
}

/// Index of the highest set bit: the floor of the base-2 logarithm.
pub open spec fn log2(n: nat) -> nat
    decreases n,
{
    if n < 2 {
        0
    } else {
        (1 + log2(n / 2)) as nat
    }
}

/// Size class of a block of `size` bytes: the index of the highest set
/// bit of `size - 16`, grouping sizes into power-of-two buckets.
pub open spec fn class_of(size: int) -> int {
    log2((size - 16) as nat) as int
}

/// The base-2 logarithm is non-decreasing.
pub proof fn lemma_log2_mono(a: nat, b: nat)
    requires
        a <= b,
    ensures
        log2(a) <= log2(b),
    decreases b,
{
    if b < 2 || a < 2 {
    } else {
        lemma_log2_mono(a / 2, b / 2);
    }
}

/// 2^k is non-decreasing in `k`.
pub proof fn lemma_pow2_mono(a: nat, b: nat)
    requires
        a <= b,
    ensures
        pow2(a) <= pow2(b),
    decreases b,
{
    if a == b || b == 0 {
    } else {
        lemma_pow2_mono(a, (b - 1) as nat);
    }
}

/// The highest set bit brackets a number between two powers of two.
pub proof fn lemma_log2_bounds(n: nat)
    requires
        n >= 1,
    ensures
        pow2(log2(n)) <= n < pow2(log2(n) + 1),
    decreases n,
{
    if n < 2 {
    } else {
        lemma_log2_bounds(n / 2);
    }
}

/// A number below 2^k has its highest set bit below `k`.
pub proof fn lemma_log2_lt(n: nat, k: nat)
    requires
        1 <= n < pow2(k),
        k >= 1,
    ensures
        log2(n) < k,
    decreases k,
{
    if n < 2 {
    } else {
        lemma_log2_lt(n / 2, (k - 1) as nat);
    }
}

/// 2^64 written out, for bounding class indices of `u64` sizes.
pub proof fn lemma_pow2_64()
    ensures
        pow2(64) == 0x1_0000_0000_0000_0000,
{
    reveal_with_fuel(pow2, 65);
    assert(pow2(64) == 0x1_0000_0000_0000_0000);
}

/// Every `u64` size of at least 17 bytes falls in one of the 64 classes.
pub proof fn lemma_class_in_range(size: int)
    requires
        17 <= size < 0x1_0000_0000_0000_0000,
    ensures
        0 <= class_of(size) < 64,
{
    lemma_pow2_64();
    lemma_log2_lt((size - 16) as nat, 64);
}

/// The size class is non-decreasing in the size.
pub proof fn lemma_class_monotonic(s1: int, s2: int)
    requires
        17 <= s1 <= s2,
    ensures
        class_of(s1) <= class_of(s2),
{
    lemma_log2_mono((s1 - 16) as nat, (s2 - 16) as nat);
}

/// A block of a strictly higher class is strictly larger: any block found
/// in a class above `class_of(want)` is big enough for `want` bytes.
pub proof fn lemma_higher_class_fits(want: int, size: int)
    requires
        17 <= want,
        17 <= size,
        class_of(size) > class_of(want),
    ensures
        size > want,
{
    lemma_log2_bounds((want - 16) as nat);
    lemma_log2_bounds((size - 16) as nat);
    lemma_pow2_mono((class_of(want) + 1) as nat, class_of(size) as nat);
}

/// Membership of a block address in one class list.
pub open spec fn in_list(l: Seq<int>, b: int) -> bool {
    exists|j: int| 0 <= j < l.len() && l[j] == b
}

/// Membership of an address among the block starts of the tiling.
pub open spec fn in_starts(starts: Seq<int>, b: int) -> bool {
    exists|i: int| 0 <= i < starts.len() && starts[i] == b
}

/// The block address `b` occurs in no class list.
pub open spec fn not_listed(lists: Seq<Seq<int>>, b: int) -> bool {
    forall|c: int, j: int|
        0 <= c < lists.len() && 0 <= j < lists[c].len() ==> #[trigger] lists[c][j] != b
}

/// Every free block of the tiling, except those whose address is in
/// `ex`, is a member of the class list matching its size.
pub open spec fn free_listed_except(
    m: Seq<u64>,
    starts: Seq<int>,
    lists: Seq<Seq<int>>,
    ex: Set<int>,
) -> bool {
    forall|i: int|
        0 <= i < starts.len() && blk_free(m, #[trigger] starts[i]) && !ex.contains(starts[i])
            ==> in_list(lists[class_of(blk_size(m, starts[i]))], starts[i])
}

/// The `j`-th member of class list `l` (class `c`): a free block of the
/// tiling whose size falls in class `c`, with its two link words naming
/// its list neighbours.
pub open spec fn list_node_wf(m: Seq<u64>, starts: Seq<int>, l: Seq<int>, c: int, j: int) -> bool {
    &&& in_starts(starts, l[j])
    &&& blk_free(m, l[j])
    &&& class_of(blk_size(m, l[j])) == c
    &&& m[l[j] + 1] as int == (if j == l.len() - 1 { 0int } else { l[j + 1] })
    &&& m[l[j] + 2] as int == (if j == 0 { 0int } else { l[j - 1] })
}

/// Head of a class list: the last ghost element, or 0 when empty.
pub open spec fn head_of(l: Seq<int>) -> int {
    if l.len() == 0 {
        0
    } else {
        l[l.len() - 1]
    }
}

/// Segregated free-list index: one list head per size class.
pub struct Arena {
    /// Head block address per class; 0 means the class is empty.
    pub orders: Vec<usize>,
    /// Ghost mirror of the linked lists, tail first.
    pub lists: Ghost<Seq<Seq<int>>>,
}

impl Arena {
    /// The index is well formed against the memory `m` and tiling
    /// `starts`: heads match the ghost lists, every listed block is a
    /// free block of matching class with consistent links, and no list
    /// holds the same block twice.
    pub open spec fn wf(self, m: Seq<u64>, starts: Seq<int>) -> bool {
        &&& self.orders.len() == 64
        &&& self.lists@.len() == 64
        &&& forall|c: int| 0 <= c < 64 ==>
                #[trigger] self.orders[c] as int == head_of(self.lists@[c])
        &&& forall|c: int, j: int|
                0 <= c < 64 && 0 <= j < self.lists@[c].len()
                    ==> #[trigger] list_node_wf(m, starts, self.lists@[c], c, j)
        &&& forall|c: int, j1: int, j2: int|
                0 <= c < 64 && 0 <= j1 < self.lists@[c].len() && 0 <= j2 < self.lists@[c].len()
                    && j1 != j2 ==> #[trigger] self.lists@[c][j1] != #[trigger] self.lists@[c][j2]
    }

    /// A fresh index with every class empty.
    pub fn new() -> (r: Arena)
        ensures
            r.orders.len() == 64,
            forall|c: int| 0 <= c < 64 ==> #[trigger] r.orders[c] == 0,
            r.lists@.len() == 64,
            forall|c: int| 0 <= c < 64 ==> #[trigger] r.lists@[c] =~= Seq::<int>::empty(),
    {
        let mut orders: Vec<usize> = Vec::new();
        let mut i: usize = 0;
        while i < 64
            invariant
                i <= 64,
                orders.len() == i,
                forall|c: int| 0 <= c < i ==> #[trigger] orders[c] == 0,
            decreases 64 - i,
        {
            orders.push(0);
            i = i + 1;
        }
        Arena { orders, lists: Ghost(Seq::new(64, |c: int| Seq::<int>::empty())) }
    }

    /// Size class of `size`: the index of the highest set bit of
    /// `size - 16`, computed by repeated halving.
    pub fn calculate_class(size: u64) -> (r: u32)
        requires
            17 <= size,
        ensures
            r == class_of(size as int),
            r < 64,
    {
        proof {
            lemma_class_in_range(size as int);
        }
        let mut n: u64 = size - 16;
        let mut c: u32 = 0;
        while n >= 2
            invariant
                1 <= n,
                c + log2(n as nat) == class_of(size as int),
                class_of(size as int) < 64,
            decreases n,
    {
            n = n / 2;
            c = c + 1;
        }
        c
    }

    /// Pushes a free block onto the head of its class's list, relinking
    /// the old head's previous pointer.
    #[verifier::rlimit(100)]
    pub fn push_node(
        &mut self,
        mem: &mut Vec<u64>,
        node: &Node,
        Ghost(starts): Ghost<Seq<int>>,
        Ghost(ex): Ghost<Set<int>>,
    )
        requires
            heap_wf(old(mem)@, starts),
            old(self).wf(old(mem)@, starts),
            in_starts(starts, node.buffer as int),
            blk_free(old(mem)@, node.buffer as int),
            not_listed(old(self).lists@, node.buffer as int),
            free_listed_except(old(mem)@, starts, old(self).lists@, ex),
            ex.contains(node.buffer as int),
        ensures
            final(mem).len() == old(mem).len(),
            heap_wf(final(mem)@, starts),
            final(self).wf(final(mem)@, starts),
            free_listed_except(
                final(mem)@,
                starts,
                final(self).lists@,
                ex.remove(node.buffer as int),
            ),
            final(self).lists@ == old(self).lists@.update(
                class_of(blk_size(old(mem)@, node.buffer as int)),
                old(self).lists@[class_of(blk_size(old(mem)@, node.buffer as int))]
                    .push(node.buffer as int),
            ),
            forall|i: int| 0 <= i < starts.len() ==>
                blk_size(final(mem)@, #[trigger] starts[i]) == blk_size(old(mem)@, starts[i])
                && blk_free(final(mem)@, starts[i]) == blk_free(old(mem)@, starts[i]),
            forall|k: int|
                0 <= k < old(mem).len()
                    && k != node.buffer + 1
                    && k != node.buffer + 2
                    && k != head_of(
                        old(self).lists@[class_of(blk_size(old(mem)@, node.buffer as int))],
                    ) + 1
                    ==> final(mem)@[k] == old(mem)@[k],
    {
        let ghost m0 = mem@;
        let ghost lists0 = self.lists@;
        let b: usize = node.buffer;
        proof {
            lemma_all_disjoint(m0, starts);
            let i = choose|i: int| 0 <= i < starts.len() && starts[i] == b as int;
            assert(blk_wf(m0, b as int));
        }
        let s: u64 = node.size(mem);
        let class: usize = Self::calculate_class(s) as usize;
        let ghost cls = class as int;
        let head: usize = self.orders[class];
        proof {
            if lists0[cls].len() > 0 {
                assert(list_node_wf(m0, starts, lists0[cls], cls, lists0[cls].len() - 1));
                let hi = choose|i: int|
                    0 <= i < starts.len() && starts[i] == lists0[cls][lists0[cls].len() - 1];
                assert(blk_wf(m0, head as int));
            }
        }
        mem[b + 1] = 0;
        mem[b + 2] = head as u64;
        if head != 0 {
            mem[head + 1] = b as u64;
        }
        self.orders[class] = b;
        proof {
            self.lists@ = lists0.update(cls, lists0[cls].push(b as int));
            lemma_push_effect(m0, mem@, starts, lists0, b as int, cls, ex);
        }
    }

    /// Unlinks the head of class `class` and returns it, still tagged
    /// free and no longer a member of any list.
    fn pop_node_internal(
        &mut self,
        mem: &mut Vec<u64>,
        class: usize,
        Ghost(starts): Ghost<Seq<int>>,
        Ghost(ex): Ghost<Set<int>>,
    ) -> (r: Node)
        requires
            heap_wf(old(mem)@, starts),
            old(self).wf(old(mem)@, starts),
            free_listed_except(old(mem)@, starts, old(self).lists@, ex),
            class < 64,
            old(self).lists@[class as int].len() > 0,
        ensures
            r.buffer as int == head_of(old(self).lists@[class as int]),
            in_starts(starts, r.buffer as int),
            blk_free(final(mem)@, r.buffer as int),
            class_of(blk_size(old(mem)@, r.buffer as int)) == class as int,
            final(mem).len() == old(mem).len(),
            heap_wf(final(mem)@, starts),
            final(self).wf(final(mem)@, starts),
            final(self).lists@ == old(self).lists@.update(
                class as int,
                old(self).lists@[class as int].drop_last(),
            ),
            not_listed(final(self).lists@, r.buffer as int),
            free_listed_except(
                final(mem)@,
                starts,
                final(self).lists@,
                ex.insert(r.buffer as int),
            ),
            forall|i: int| 0 <= i < starts.len() ==>
                blk_size(final(mem)@, #[trigger] starts[i]) == blk_size(old(mem)@, starts[i])
                && blk_free(final(mem)@, starts[i]) == blk_free(old(mem)@, starts[i]),
            forall|k: int|
                0 <= k < old(mem).len()
                    && k != r.buffer + 2
                    && k != head_of(old(self).lists@[class as int].drop_last()) + 1
                    ==> final(mem)@[k] == old(mem)@[k],
            final(mem)@[r.buffer + 2] == 0,
    {
        let ghost m0 = mem@;
        let ghost lists0 = self.lists@;
        let ghost cls = class as int;
        let ghost l0 = lists0[cls];
        let head: usize = self.orders[class];
        proof {
            assert(list_node_wf(m0, starts, l0, cls, l0.len() - 1));
            let hi = choose|i: int| 0 <= i < starts.len() && starts[i] == l0[l0.len() - 1];
            assert(blk_wf(m0, head as int));
            if l0.len() >= 2 {
                assert(list_node_wf(m0, starts, l0, cls, l0.len() - 2));
                let ni = choose|i: int|
                    0 <= i < starts.len() && starts[i] == l0[l0.len() - 2];
                assert(blk_wf(m0, l0[l0.len() - 2]));
            }
        }
        let node = Node::from(head);
        let next: usize = mem[head + 2] as usize;
        if next != 0 {
            mem[next + 1] = 0;
        }
        self.orders[class] = next;
        mem[head + 2] = 0;
        proof {
            self.lists@ = lists0.update(cls, l0.drop_last());
            lemma_pop_effect(m0, mem@, starts, lists0, cls, ex);
        }
        node
    }

    /// Finds a free block of at least `size` bytes: takes the head of
    /// `size`'s own class when that head is big enough, else pops the
    /// head of the nearest non-empty class above, whose every member is
    /// necessarily big enough.  Returns nothing when the search comes up
    /// empty, leaving the index untouched.
    pub fn find_node(
        &mut self,
        mem: &mut Vec<u64>,
        size: u64,
        Ghost(starts): Ghost<Seq<int>>,
        Ghost(ex): Ghost<Set<int>>,
    ) -> (r: Option<Node>)
        requires
            heap_wf(old(mem)@, starts),
            old(self).wf(old(mem)@, starts),
            free_listed_except(old(mem)@, starts, old(self).lists@, ex),
            17 <= size,
        ensures
            r.is_some() <==> found_class(old(self).lists@, old(mem)@, size as int) < 64,
            r.is_none() ==> *final(self) == *old(self) && *final(mem) == *old(mem),
            r.is_some() ==> {
                let fc = found_class(old(self).lists@, old(mem)@, size as int);
                let b = head_of(old(self).lists@[fc]);
                &&& r.unwrap().buffer as int == b
                &&& in_starts(starts, b)
                &&& blk_free(final(mem)@, b)
                &&& blk_size(old(mem)@, b) >= size
                &&& class_of(blk_size(old(mem)@, b)) == fc
                &&& final(mem).len() == old(mem).len()
                &&& heap_wf(final(mem)@, starts)
                &&& final(self).wf(final(mem)@, starts)
                &&& final(self).lists@ == old(self).lists@.update(
                    fc,
                    old(self).lists@[fc].drop_last(),
                )
                &&& not_listed(final(self).lists@, b)
                &&& free_listed_except(final(mem)@, starts, final(self).lists@, ex.insert(b))
                &&& (forall|i: int| 0 <= i < starts.len() ==>
                    blk_size(final(mem)@, #[trigger] starts[i]) == blk_size(old(mem)@, starts[i])
                    && blk_free(final(mem)@, starts[i]) == blk_free(old(mem)@, starts[i]))
                &&& (forall|k: int|
                    0 <= k < old(mem).len()
                        && k != b + 2
                        && k != head_of(old(self).lists@[fc].drop_last()) + 1
                        ==> final(mem)@[k] == old(mem)@[k])
            },
    {
        let ghost m0 = mem@;
        let ghost lists0 = self.lists@;
        let class_min: usize = Self::calculate_class(size) as usize;
        let ghost c0 = class_min as int;
        if self.orders[class_min] != 0 {
            let head = Node::from(self.orders[class_min]);
            proof {
                assert(list_node_wf(m0, starts, lists0[c0], c0, lists0[c0].len() - 1));
                let hi = choose|i: int|
                    0 <= i < starts.len() && starts[i] == lists0[c0][lists0[c0].len() - 1];
                assert(blk_wf(m0, head.buffer as int));
            }
            if head.size(mem) >= size {
                let r = self.pop_node_internal(mem, class_min, Ghost(starts), Ghost(ex));
                return Some(r);
            }
        }
        proof {
            if lists0[c0].len() > 0 {
                assert(list_node_wf(m0, starts, lists0[c0], c0, lists0[c0].len() - 1));
                let hi = choose|i: int|
                    0 <= i < starts.len() && starts[i] == lists0[c0][lists0[c0].len() - 1];
                assert(blk_wf(m0, lists0[c0][lists0[c0].len() - 1]));
                assert(head_of(lists0[c0]) >= 1);
            }
        }
        let mut c: usize = class_min + 1;
        while c < 64
            invariant
                c0 == class_of(size as int),
                heap_wf(mem@, starts),
                self.wf(mem@, starts),
                free_listed_except(mem@, starts, self.lists@, ex),
                mem@ == m0,
                m0 == old(mem)@,
                *mem == *old(mem),
                *self == *old(self),
                self.lists@ == lists0,
                lists0 == old(self).lists@,
                c0 + 1 <= c <= 64,
                c0 < 64,
                first_nonempty(lists0, c0 + 1) == first_nonempty(lists0, c as int),
                found_class(lists0, m0, size as int) == first_nonempty(lists0, c0 + 1),
                17 <= size,
            decreases 64 - c,
        {
            if self.orders[c] != 0 {
                proof {
                    assert(lists0[c as int].len() > 0);
                    assert(list_node_wf(m0, starts, lists0[c as int], c as int, lists0[c as int].len() - 1));
                    let hi = choose|i: int|
                        0 <= i < starts.len()
                            && starts[i] == lists0[c as int][lists0[c as int].len() - 1];
                    assert(blk_wf(m0, head_of(lists0[c as int])));
                    lemma_class_in_range(blk_size(m0, head_of(lists0[c as int])));
                    lemma_higher_class_fits(
                        size as int,
                        blk_size(m0, head_of(lists0[c as int])),
                    );
                    assert(first_nonempty(lists0, c as int) == c as int);
                }
                let r = self.pop_node_internal(mem, c, Ghost(starts), Ghost(ex));
                return Some(r);
            }
            proof {
                if lists0[c as int].len() > 0 {
                    assert(list_node_wf(
                        m0, starts, lists0[c as int], c as int, lists0[c as int].len() - 1,
                    ));
                    let hi = choose|i: int|
                        0 <= i < starts.len()
                            && starts[i] == lists0[c as int][lists0[c as int].len() - 1];
                    assert(blk_wf(m0, lists0[c as int][lists0[c as int].len() - 1]));
                }
                assert(lists0[c as int].len() == 0);
                assert(first_nonempty(lists0, c as int) == first_nonempty(lists0, c + 1int));
            }
            c = c + 1;
        }
        None
    }

    /// Unlinks an arbitrary list member in place, head or interior,
    /// through the block's own link words; used when a specific block is
    /// reclaimed during coalescing.
    pub fn remove_node(
        &mut self,
        mem: &mut Vec<u64>,
        node: &Node,
        Ghost(starts): Ghost<Seq<int>>,
        Ghost(c): Ghost<int>,
        Ghost(j): Ghost<int>,
        Ghost(ex): Ghost<Set<int>>,
    )
        requires
            heap_wf(old(mem)@, starts),
            old(self).wf(old(mem)@, starts),
            free_listed_except(old(mem)@, starts, old(self).lists@, ex),
            0 <= c < 64,
            0 <= j < old(self).lists@[c].len(),
            old(self).lists@[c][j] == node.buffer as int,
        ensures
            final(mem).len() == old(mem).len(),
            heap_wf(final(mem)@, starts),
            final(self).wf(final(mem)@, starts),
            final(self).lists@ == old(self).lists@.update(c, old(self).lists@[c].remove(j)),
            not_listed(final(self).lists@, node.buffer as int),
            blk_free(final(mem)@, node.buffer as int),
            free_listed_except(
                final(mem)@,
                starts,
                final(self).lists@,
                ex.insert(node.buffer as int),
            ),
            forall|i: int| 0 <= i < starts.len() ==>
                blk_size(final(mem)@, #[trigger] starts[i]) == blk_size(old(mem)@, starts[i])
                && blk_free(final(mem)@, starts[i]) == blk_free(old(mem)@, starts[i]),
    {
        let ghost m0 = mem@;
        let ghost lists0 = self.lists@;
        let ghost l0 = lists0[c];
        let b: usize = node.buffer;
        proof {
            assert(list_node_wf(m0, starts, l0, c, j));
            let bi = choose|i: int| 0 <= i < starts.len() && starts[i] == b as int;
            assert(blk_wf(m0, b as int));
            if j < l0.len() - 1 {
                assert(list_node_wf(m0, starts, l0, c, j + 1));
                let pi = choose|i: int| 0 <= i < starts.len() && starts[i] == l0[j + 1];
                assert(blk_wf(m0, l0[j + 1]));
            }
            if j > 0 {
                assert(list_node_wf(m0, starts, l0, c, j - 1));
                let ni = choose|i: int| 0 <= i < starts.len() && starts[i] == l0[j - 1];
                assert(blk_wf(m0, l0[j - 1]));
            }
        }
        let prev: usize = mem[b + 1] as usize;
        if prev == 0 {
            // No previous link: the block is the head of its class.
            proof {
                assert(j == l0.len() - 1);
                lemma_class_in_range(blk_size(m0, b as int));
            }
            let class: u32 = Self::calculate_class(node.size(mem));
            self.pop_node_internal(mem, class as usize, Ghost(starts), Ghost(ex));
            proof {
                assert(l0.drop_last() =~= l0.remove(j));
            }
        } else {
            let next: usize = mem[b + 2] as usize;
            if next != 0 {
                mem[next + 1] = prev as u64;
            }
            mem[prev + 2] = next as u64;
            mem[b + 1] = 0;
            mem[b + 2] = 0;
            proof {
                self.lists@ = lists0.update(c, l0.remove(j));
                lemma_remove_effect(m0, mem@, starts, lists0, c, j, ex);
            }
        }
    }
}

/// Smallest class index at or above `c` whose list is non-empty, or 64
/// when every class from `c` upward is empty.
pub open spec fn first_nonempty(lists: Seq<Seq<int>>, c: int) -> int
    decreases 64 - c,
{
    if c >= 64 {
        64
    } else if lists[c].len() > 0 {
        c
    } else {
        first_nonempty(lists, c + 1)
    }
}

/// A non-empty class bounds the first non-empty class from above.
pub proof fn lemma_first_nonempty_le(lists: Seq<Seq<int>>, a: int, c: int)
    requires
        a <= c < 64,
        lists[c].len() > 0,
    ensures
        first_nonempty(lists, a) <= c,
    decreases c - a,
{
    if a == c || lists[a].len() > 0 {
    } else {
        lemma_first_nonempty_le(lists, a + 1, c);
    }
}

/// Class that a search for `size` bytes settles on: the size's own class
/// when its head block is big enough, otherwise the first non-empty class
/// above it; 64 when the search comes up empty.
pub open spec fn found_class(lists: Seq<Seq<int>>, m: Seq<u64>, size: int) -> int {
    if lists[class_of(size)].len() > 0
        && blk_size(m, head_of(lists[class_of(size)])) >= size {
        class_of(size)
    } else {
        first_nonempty(lists, class_of(size) + 1)
    }
}

/// One node's case of `lemma_push_effect`: the `j`-th member of class
/// list `c` is still well formed after `b` is pushed onto class `cls`.
#[verifier::rlimit(100)]
#[verifier::spinoff_prover]
proof fn lemma_push_one(
    m0: Seq<u64>,
    m1: Seq<u64>,
    starts: Seq<int>,
    lists0: Seq<Seq<int>>,
    b: int,
    cls: int,
    c: int,
    j: int,
)
    requires
        heap_wf(m0, starts),
        lists0.len() == 64,
        forall|c2: int, j2: int|
            0 <= c2 < 64 && 0 <= j2 < lists0[c2].len()
                ==> #[trigger] list_node_wf(m0, starts, lists0[c2], c2, j2),
        forall|c2: int, j1: int, j2: int|
            0 <= c2 < 64 && 0 <= j1 < lists0[c2].len() && 0 <= j2 < lists0[c2].len() && j1 != j2
                ==> #[trigger] lists0[c2][j1] != #[trigger] lists0[c2][j2],
        in_starts(starts, b),
        blk_free(m0, b),
        not_listed(lists0, b),
        0 <= cls < 64,
        cls == class_of(blk_size(m0, b)),
        m1 == (if head_of(lists0[cls]) == 0 {
            m0.update(b + 1, 0u64).update(b + 2, 0u64)
        } else {
            m0.update(b + 1, 0u64).update(b + 2, head_of(lists0[cls]) as u64)
                .update(head_of(lists0[cls]) + 1, b as u64)
        }),
        0 <= c < 64,
        0 <= j < lists0.update(cls, lists0[cls].push(b))[c].len(),
    ensures
        list_node_wf(m1, starts, lists0.update(cls, lists0[cls].push(b))[c], c, j),
{
    lemma_all_disjoint(m0, starts);
    let lists1 = lists0.update(cls, lists0[cls].push(b));
    let l0 = lists0[cls];
    let l1 = lists1[cls];
    let h = head_of(l0);
    let bi = choose|i: int| 0 <= i < starts.len() && starts[i] == b;
    assert(blk_wf(m0, b));
    if l0.len() > 0 {
        assert(list_node_wf(m0, starts, l0, cls, l0.len() - 1));
        let hi = choose|i: int| 0 <= i < starts.len() && starts[i] == h;
        assert(blk_wf(m0, h));
        assert(h != 0);
    }
    if c == cls && j == l1.len() - 1 {
        assert(l1[j] == b);
    } else {
        let x = lists0[c][j];
        assert(list_node_wf(m0, starts, lists0[c], c, j));
        let xi = choose|i: int| 0 <= i < starts.len() && starts[i] == x;
        assert(x != b);
        assert(blk_end(m0, x) <= b || blk_end(m0, b) <= x);
        if l0.len() > 0 {
            if x != h {
                assert(blk_end(m0, x) <= h || blk_end(m0, h) <= x);
            } else {
                assert(c == cls && j == l0.len() - 1);
            }
        }
    }
}

/// The heart of `push_node`: writing the new head's links and the old
/// head's previous pointer preserves the tiling, keeps every list node
/// well formed, and extends the coverage of the class lists by `b`.
#[verifier::rlimit(100)]
proof fn lemma_push_effect(
    m0: Seq<u64>,
    m1: Seq<u64>,
    starts: Seq<int>,
    lists0: Seq<Seq<int>>,
    b: int,
    cls: int,
    ex: Set<int>,
)
    requires
        heap_wf(m0, starts),
        lists0.len() == 64,
        forall|c: int, j: int|
            0 <= c < 64 && 0 <= j < lists0[c].len()
                ==> #[trigger] list_node_wf(m0, starts, lists0[c], c, j),
        forall|c: int, j1: int, j2: int|
            0 <= c < 64 && 0 <= j1 < lists0[c].len() && 0 <= j2 < lists0[c].len() && j1 != j2
                ==> #[trigger] lists0[c][j1] != #[trigger] lists0[c][j2],
        in_starts(starts, b),
        blk_free(m0, b),
        not_listed(lists0, b),
        free_listed_except(m0, starts, lists0, ex),
        ex.contains(b),
        0 <= cls < 64,
        cls == class_of(blk_size(m0, b)),
        m1 == (if head_of(lists0[cls]) == 0 {
            m0.update(b + 1, 0u64).update(b + 2, 0u64)
        } else {
            m0.update(b + 1, 0u64).update(b + 2, head_of(lists0[cls]) as u64)
                .update(head_of(lists0[cls]) + 1, b as u64)
        }),
    ensures
        m1.len() == m0.len(),
        heap_wf(m1, starts),
        forall|c: int, j: int|
            0 <= c < 64 && 0 <= j < lists0.update(cls, lists0[cls].push(b))[c].len()
                ==> #[trigger] list_node_wf(
                    m1, starts, lists0.update(cls, lists0[cls].push(b))[c], c, j,
                ),
        free_listed_except(m1, starts, lists0.update(cls, lists0[cls].push(b)), ex.remove(b)),
        forall|i: int| 0 <= i < starts.len() ==>
            blk_size(m1, #[trigger] starts[i]) == blk_size(m0, starts[i])
            && blk_free(m1, starts[i]) == blk_free(m0, starts[i]),
        forall|k: int|
            0 <= k < m0.len() && k != b + 1 && k != b + 2 && k != head_of(lists0[cls]) + 1
                ==> m1[k] == m0[k],
{
    lemma_all_disjoint(m0, starts);
    let lists1 = lists0.update(cls, lists0[cls].push(b));
    let l0 = lists0[cls];
    let l1 = lists1[cls];
    let h = head_of(l0);
    let bi = choose|i: int| 0 <= i < starts.len() && starts[i] == b;
    assert(blk_wf(m0, b));
    if l0.len() > 0 {
        assert(list_node_wf(m0, starts, l0, cls, l0.len() - 1));
        let hi = choose|i: int| 0 <= i < starts.len() && starts[i] == h;
        assert(blk_wf(m0, h));
        assert(h != 0);
    }
    // The touched words lie strictly inside the blocks `b` and `h`;
    // every other block's words are untouched.
    assert forall|c: int, j: int|
        0 <= c < 64 && 0 <= j < lists1[c].len()
        implies #[trigger] list_node_wf(m1, starts, lists1[c], c, j) by {
        lemma_push_one(m0, m1, starts, lists0, b, cls, c, j);
    }
    assert forall|i: int| 0 <= i < starts.len()
        implies m1[#[trigger] starts[i]] == m0[starts[i]]
            && m1[blk_end(m0, starts[i]) - 1] == m0[blk_end(m0, starts[i]) - 1] by {
        let y = starts[i];
        if y != b {
            assert(blk_end(m0, y) <= b || blk_end(m0, b) <= y);
        }
        if l0.len() > 0 && y != h {
            assert(blk_end(m0, y) <= h || blk_end(m0, h) <= y);
        }
    }
    crate::node::lemma_heap_frame(m0, m1, starts);
    assert forall|i: int|
        0 <= i < starts.len() && blk_free(m1, #[trigger] starts[i])
            && !ex.remove(b).contains(starts[i])
        implies in_list(lists1[class_of(blk_size(m1, starts[i]))], starts[i]) by {
        let y = starts[i];
        assert(blk_size(m1, y) == blk_size(m0, y) && blk_free(m1, y) == blk_free(m0, y));
        if y == b {
            assert(l1.len() == l0.len() + 1);
            assert(l1[l1.len() - 1] == y);
            assert(class_of(blk_size(m1, y)) == cls);
            assert(in_list(lists1[cls], y));
        } else {
            assert(!ex.contains(y));
            assert(blk_wf(m0, y));
            assert(blk_size(m0, y) == 8 * blk_words(m0, y));
            lemma_class_in_range(blk_size(m0, y));
            let cy = class_of(blk_size(m0, y));
            assert(in_list(lists0[cy], y));
            let j = choose|j: int| 0 <= j < lists0[cy].len() && lists0[cy][j] == y;
            if cy == cls {
                assert(lists1[cy] == l0.push(b));
                assert(lists1[cy][j] == y);
            } else {
                assert(lists1[cy] == lists0[cy]);
                assert(lists1[cy][j] == y);
            }
            assert(class_of(blk_size(m1, y)) == cy);
            assert(in_list(lists1[cy], y));
        }
    }
}

/// One node's case of `lemma_pop_effect`: the `j`-th member of class
/// list `c` is still well formed after the head of class `cls` is
/// unlinked.
proof fn lemma_pop_one(
    m0: Seq<u64>,
    m1: Seq<u64>,
    starts: Seq<int>,
    lists0: Seq<Seq<int>>,
    cls: int,
    c: int,
    j: int,
)
    requires
        heap_wf(m0, starts),
        lists0.len() == 64,
        forall|c2: int, j2: int|
            0 <= c2 < 64 && 0 <= j2 < lists0[c2].len()
                ==> #[trigger] list_node_wf(m0, starts, lists0[c2], c2, j2),
        forall|c2: int, j1: int, j2: int|
            0 <= c2 < 64 && 0 <= j1 < lists0[c2].len() && 0 <= j2 < lists0[c2].len() && j1 != j2
                ==> #[trigger] lists0[c2][j1] != #[trigger] lists0[c2][j2],
        0 <= cls < 64,
        lists0[cls].len() > 0,
        m1 == (if lists0[cls].len() == 1 {
            m0.update(head_of(lists0[cls]) + 2, 0u64)
        } else {
            m0.update(lists0[cls][lists0[cls].len() - 2] + 1, 0u64)
                .update(head_of(lists0[cls]) + 2, 0u64)
        }),
        0 <= c < 64,
        0 <= j < lists0.update(cls, lists0[cls].drop_last())[c].len(),
    ensures
        list_node_wf(m1, starts, lists0.update(cls, lists0[cls].drop_last())[c], c, j),
{
    lemma_all_disjoint(m0, starts);
    let lists1 = lists0.update(cls, lists0[cls].drop_last());
    let l0 = lists0[cls];
    let l1 = lists1[cls];
    let b = l0[l0.len() - 1];
    assert(list_node_wf(m0, starts, l0, cls, l0.len() - 1));
    let bi = choose|i: int| 0 <= i < starts.len() && starts[i] == b;
    assert(blk_wf(m0, b));
    if l0.len() >= 2 {
        assert(list_node_wf(m0, starts, l0, cls, l0.len() - 2));
        let ni = choose|i: int| 0 <= i < starts.len() && starts[i] == l0[l0.len() - 2];
        assert(blk_wf(m0, l0[l0.len() - 2]));
    }
    let x = lists1[c][j];
    assert(lists1[c][j] == lists0[c][j]);
    assert(list_node_wf(m0, starts, lists0[c], c, j));
    let xi = choose|i: int| 0 <= i < starts.len() && starts[i] == x;
    assert(blk_wf(m0, x));
    if x != b {
        assert(blk_end(m0, x) <= b || blk_end(m0, b) <= x);
    } else {
        assert(c == cls && j == l0.len() - 1 && j < l1.len());
        assert(false);
    }
    if l0.len() >= 2 {
        let nx = l0[l0.len() - 2];
        if x != nx {
            assert(blk_end(m0, x) <= nx || blk_end(m0, nx) <= x);
        } else {
            assert(c == cls && j == l0.len() - 2);
        }
    }
}

/// The heart of `pop_node_internal`: clearing the popped head's next
/// link and the new head's previous link preserves the tiling and every
/// remaining list node, and uncovers exactly the popped block.
#[verifier::rlimit(100)]
proof fn lemma_pop_effect(
    m0: Seq<u64>,
    m1: Seq<u64>,
    starts: Seq<int>,
    lists0: Seq<Seq<int>>,
    cls: int,
    ex: Set<int>,
)
    requires
        heap_wf(m0, starts),
        lists0.len() == 64,
        forall|c2: int, j2: int|
            0 <= c2 < 64 && 0 <= j2 < lists0[c2].len()
                ==> #[trigger] list_node_wf(m0, starts, lists0[c2], c2, j2),
        forall|c2: int, j1: int, j2: int|
            0 <= c2 < 64 && 0 <= j1 < lists0[c2].len() && 0 <= j2 < lists0[c2].len() && j1 != j2
                ==> #[trigger] lists0[c2][j1] != #[trigger] lists0[c2][j2],
        free_listed_except(m0, starts, lists0, ex),
        0 <= cls < 64,
        lists0[cls].len() > 0,
        m1 == (if lists0[cls].len() == 1 {
            m0.update(head_of(lists0[cls]) + 2, 0u64)
        } else {
            m0.update(lists0[cls][lists0[cls].len() - 2] + 1, 0u64)
                .update(head_of(lists0[cls]) + 2, 0u64)
        }),
    ensures
        m1.len() == m0.len(),
        heap_wf(m1, starts),
        forall|c: int, j: int|
            0 <= c < 64 && 0 <= j < lists0.update(cls, lists0[cls].drop_last())[c].len()
                ==> #[trigger] list_node_wf(
                    m1, starts, lists0.update(cls, lists0[cls].drop_last())[c], c, j,
                ),
        free_listed_except(
            m1,
            starts,
            lists0.update(cls, lists0[cls].drop_last()),
            ex.insert(head_of(lists0[cls])),
        ),
        not_listed(lists0.update(cls, lists0[cls].drop_last()), head_of(lists0[cls])),
        forall|i: int| 0 <= i < starts.len() ==>
            blk_size(m1, #[trigger] starts[i]) == blk_size(m0, starts[i])
            && blk_free(m1, starts[i]) == blk_free(m0, starts[i]),
        forall|k: int|
            0 <= k < m0.len() && k != head_of(lists0[cls]) + 2
                && k != head_of(lists0[cls].drop_last()) + 1
                ==> m1[k] == m0[k],
        m1[head_of(lists0[cls]) + 2] == 0,
{
    lemma_all_disjoint(m0, starts);
    let lists1 = lists0.update(cls, lists0[cls].drop_last());
    let l0 = lists0[cls];
    let b = l0[l0.len() - 1];
    assert(list_node_wf(m0, starts, l0, cls, l0.len() - 1));
    let bi = choose|i: int| 0 <= i < starts.len() && starts[i] == b;
    assert(blk_wf(m0, b));
    if l0.len() >= 2 {
        assert(list_node_wf(m0, starts, l0, cls, l0.len() - 2));
        let ni = choose|i: int| 0 <= i < starts.len() && starts[i] == l0[l0.len() - 2];
        assert(blk_wf(m0, l0[l0.len() - 2]));
    }
    assert forall|c: int, j: int|
        0 <= c < 64 && 0 <= j < lists1[c].len()
        implies #[trigger] list_node_wf(m1, starts, lists1[c], c, j) by {
        lemma_pop_one(m0, m1, starts, lists0, cls, c, j);
    }
    assert forall|i: int| 0 <= i < starts.len()
        implies m1[#[trigger] starts[i]] == m0[starts[i]]
            && m1[blk_end(m0, starts[i]) - 1] == m0[blk_end(m0, starts[i]) - 1] by {
        let y = starts[i];
        if y != b {
            assert(blk_end(m0, y) <= b || blk_end(m0, b) <= y);
        }
        if l0.len() >= 2 && y != l0[l0.len() - 2] {
            let nx = l0[l0.len() - 2];
            assert(blk_end(m0, y) <= nx || blk_end(m0, nx) <= y);
        }
    }
    crate::node::lemma_heap_frame(m0, m1, starts);
    assert forall|c: int, j: int|
        0 <= c < lists1.len() && 0 <= j < lists1[c].len()
        implies #[trigger] lists1[c][j] != b by {
        assert(lists1[c][j] == lists0[c][j]);
        if lists0[c][j] == b {
            assert(list_node_wf(m0, starts, lists0[c], c, j));
            assert(class_of(blk_size(m0, b)) == cls);
            assert(c == cls);
            assert(j != l0.len() - 1);
        }
    }
    assert forall|i: int|
        0 <= i < starts.len() && blk_free(m1, #[trigger] starts[i])
            && !ex.insert(b).contains(starts[i])
        implies in_list(lists1[class_of(blk_size(m1, starts[i]))], starts[i]) by {
        let y = starts[i];
        assert(blk_size(m1, y) == blk_size(m0, y) && blk_free(m1, y) == blk_free(m0, y));
        assert(y != b);
        assert(!ex.contains(y));
        assert(blk_wf(m0, y));
        lemma_class_in_range(blk_size(m0, y));
        let cy = class_of(blk_size(m0, y));
        assert(in_list(lists0[cy], y));
        let j = choose|j: int| 0 <= j < lists0[cy].len() && lists0[cy][j] == y;
        if cy == cls {
            assert(j != l0.len() - 1);
            assert(lists1[cy][j] == y);
        } else {
            assert(lists1[cy] == lists0[cy]);
            assert(lists1[cy][j] == y);
        }
        assert(in_list(lists1[cy], y));
    }
}

/// Frame rule for the class lists: rewriting only words inside the window
/// `[lo, hi)` keeps every list node well formed, provided every listed
/// block lies outside the window and is a start of the new tiling too.
#[verifier::rlimit(100)]
pub proof fn lemma_lists_window(
    m1: Seq<u64>,
    m2: Seq<u64>,
    starts1: Seq<int>,
    starts2: Seq<int>,
    lists: Seq<Seq<int>>,
    lo: int,
    hi: int,
)
    requires
        lists.len() == 64,
        forall|c: int, j: int|
            0 <= c < 64 && 0 <= j < lists[c].len()
                ==> #[trigger] list_node_wf(m1, starts1, lists[c], c, j),
        m2.len() == m1.len(),
        forall|k: int| 0 <= k < m1.len() && !(lo <= k < hi) ==> m2[k] == m1[k],
        forall|c: int, j: int|
            0 <= c < 64 && 0 <= j < lists[c].len()
                ==> blk_end(m1, #[trigger] lists[c][j]) <= lo || hi <= lists[c][j],
        forall|c: int, j: int|
            0 <= c < 64 && 0 <= j < lists[c].len()
                ==> in_starts(starts2, #[trigger] lists[c][j]),
        forall|c: int, j: int|
            0 <= c < 64 && 0 <= j < lists[c].len()
                ==> 0 <= #[trigger] lists[c][j] && blk_end(m1, lists[c][j]) <= m1.len(),
        forall|c: int, j: int|
            0 <= c < 64 && 0 <= j < lists[c].len()
                ==> blk_words(m1, #[trigger] lists[c][j]) >= 4,
    ensures
        forall|c: int, j: int|
            0 <= c < 64 && 0 <= j < lists[c].len()
                ==> #[trigger] list_node_wf(m2, starts2, lists[c], c, j),
{
    assert forall|c: int, j: int|
        0 <= c < 64 && 0 <= j < lists[c].len()
        implies #[trigger] list_node_wf(m2, starts2, lists[c], c, j) by {
        let x = lists[c][j];
        assert(list_node_wf(m1, starts1, lists[c], c, j));
        assert(m2[x] == m1[x]);
        assert(m2[x + 1] == m1[x + 1]);
        assert(m2[x + 2] == m1[x + 2]);
    }
}

/// Memory after an interior unlink: the physical next's previous link
/// takes over the removed block's previous link, the physical previous's
/// next link takes over its next link, and the removed block's links are
/// cleared.  `j` is the removed block's ghost position, with `j` strictly
/// below the head position.
pub open spec fn removed_mem(m0: Seq<u64>, l0: Seq<int>, j: int) -> Seq<u64> {
    if j == 0 {
        m0.update(l0[j + 1] + 2, 0u64).update(l0[j] + 1, 0u64).update(l0[j] + 2, 0u64)
    } else {
        m0.update(l0[j - 1] + 1, l0[j + 1] as u64)
            .update(l0[j + 1] + 2, l0[j - 1] as u64)
            .update(l0[j] + 1, 0u64)
            .update(l0[j] + 2, 0u64)
    }
}

/// One node's case of `lemma_remove_effect`: the `k`-th member of class
/// list `c2` is still well formed after the `j`-th member of class `c`
/// is unlinked in place.
#[verifier::rlimit(100)]
#[verifier::spinoff_prover]
proof fn lemma_remove_one(
    m0: Seq<u64>,
    m1: Seq<u64>,
    starts: Seq<int>,
    lists0: Seq<Seq<int>>,
    c: int,
    j: int,
    c2: int,
    k: int,
)
    requires
        heap_wf(m0, starts),
        lists0.len() == 64,
        forall|c3: int, j3: int|
            0 <= c3 < 64 && 0 <= j3 < lists0[c3].len()
                ==> #[trigger] list_node_wf(m0, starts, lists0[c3], c3, j3),
        forall|c3: int, j1: int, j2: int|
            0 <= c3 < 64 && 0 <= j1 < lists0[c3].len() && 0 <= j2 < lists0[c3].len() && j1 != j2
                ==> #[trigger] lists0[c3][j1] != #[trigger] lists0[c3][j2],
        0 <= c < 64,
        0 <= j < lists0[c].len() - 1,
        m1 == removed_mem(m0, lists0[c], j),
        0 <= c2 < 64,
        0 <= k < lists0.update(c, lists0[c].remove(j))[c2].len(),
    ensures
        list_node_wf(m1, starts, lists0.update(c, lists0[c].remove(j))[c2], c2, k),
{
    lemma_all_disjoint(m0, starts);
    let lists1 = lists0.update(c, lists0[c].remove(j));
    let l0 = lists0[c];
    let l1 = l0.remove(j);
    let b = l0[j];
    let p = l0[j + 1];
    assert(list_node_wf(m0, starts, l0, c, j));
    assert(list_node_wf(m0, starts, l0, c, j + 1));
    let bi = choose|i: int| 0 <= i < starts.len() && starts[i] == b;
    assert(blk_wf(m0, b));
    let pi = choose|i: int| 0 <= i < starts.len() && starts[i] == p;
    assert(blk_wf(m0, p));
    if j > 0 {
        assert(list_node_wf(m0, starts, l0, c, j - 1));
        let ni = choose|i: int| 0 <= i < starts.len() && starts[i] == l0[j - 1];
        assert(blk_wf(m0, l0[j - 1]));
    }
    let x = lists1[c2][k];
    let kk: int = if c2 == c && k >= j { k + 1 } else { k };
    assert(lists1[c2][k] == lists0[c2][kk]);
    assert(list_node_wf(m0, starts, lists0[c2], c2, kk));
    let xi = choose|i: int| 0 <= i < starts.len() && starts[i] == x;
    assert(blk_wf(m0, x));
    assert(x != b);
    assert(blk_end(m0, x) <= b || blk_end(m0, b) <= x);
    if x != p {
        assert(blk_end(m0, x) <= p || blk_end(m0, p) <= x);
    }
    if j > 0 && x != l0[j - 1] {
        let n = l0[j - 1];
        assert(blk_end(m0, x) <= n || blk_end(m0, n) <= x);
    }
    if c2 == c {
        if k + 1 < l1.len() {
            assert(l1[k + 1] == (if k + 1 >= j { l0[k + 2] } else { l0[k + 1] }));
        }
        if k > 0 {
            assert(l1[k - 1] == (if k - 1 >= j { l0[k] } else { l0[k - 1] }));
        }
    }
}

/// The heart of the interior path of `remove_node`: relinking the two
/// physical neighbours around the removed block preserves the tiling and
/// every remaining list node, and uncovers exactly the removed block.
#[verifier::rlimit(100)]
proof fn lemma_remove_effect(
    m0: Seq<u64>,
    m1: Seq<u64>,
    starts: Seq<int>,
    lists0: Seq<Seq<int>>,
    c: int,
    j: int,
    ex: Set<int>,
)
    requires
        heap_wf(m0, starts),
        lists0.len() == 64,
        forall|c3: int, j3: int|
            0 <= c3 < 64 && 0 <= j3 < lists0[c3].len()
                ==> #[trigger] list_node_wf(m0, starts, lists0[c3], c3, j3),
        forall|c3: int, j1: int, j2: int|
            0 <= c3 < 64 && 0 <= j1 < lists0[c3].len() && 0 <= j2 < lists0[c3].len() && j1 != j2
                ==> #[trigger] lists0[c3][j1] != #[trigger] lists0[c3][j2],
        free_listed_except(m0, starts, lists0, ex),
        0 <= c < 64,
        0 <= j < lists0[c].len() - 1,
        m1 == removed_mem(m0, lists0[c], j),
    ensures
        m1.len() == m0.len(),
        heap_wf(m1, starts),
        forall|c2: int, k: int|
            0 <= c2 < 64 && 0 <= k < lists0.update(c, lists0[c].remove(j))[c2].len()
                ==> #[trigger] list_node_wf(
                    m1, starts, lists0.update(c, lists0[c].remove(j))[c2], c2, k,
                ),
        not_listed(lists0.update(c, lists0[c].remove(j)), lists0[c][j]),
        free_listed_except(
            m1,
            starts,
            lists0.update(c, lists0[c].remove(j)),
            ex.insert(lists0[c][j]),
        ),
        forall|i: int| 0 <= i < starts.len() ==>
            blk_size(m1, #[trigger] starts[i]) == blk_size(m0, starts[i])
            && blk_free(m1, starts[i]) == blk_free(m0, starts[i]),
{
    lemma_all_disjoint(m0, starts);
    let lists1 = lists0.update(c, lists0[c].remove(j));
    let l0 = lists0[c];
    let b = l0[j];
    let p = l0[j + 1];
    assert(list_node_wf(m0, starts, l0, c, j));
    assert(list_node_wf(m0, starts, l0, c, j + 1));
    let bi = choose|i: int| 0 <= i < starts.len() && starts[i] == b;
    assert(blk_wf(m0, b));
    let pi = choose|i: int| 0 <= i < starts.len() && starts[i] == p;
    assert(blk_wf(m0, p));
    if j > 0 {
        assert(list_node_wf(m0, starts, l0, c, j - 1));
        let ni = choose|i: int| 0 <= i < starts.len() && starts[i] == l0[j - 1];
        assert(blk_wf(m0, l0[j - 1]));
    }
    assert forall|c2: int, k: int|
        0 <= c2 < 64 && 0 <= k < lists1[c2].len()
        implies #[trigger] list_node_wf(m1, starts, lists1[c2], c2, k) by {
        lemma_remove_one(m0, m1, starts, lists0, c, j, c2, k);
    }
    assert forall|i: int| 0 <= i < starts.len()
        implies m1[#[trigger] starts[i]] == m0[starts[i]]
            && m1[blk_end(m0, starts[i]) - 1] == m0[blk_end(m0, starts[i]) - 1] by {
        let y = starts[i];
        if y != b {
            assert(blk_end(m0, y) <= b || blk_end(m0, b) <= y);
        }
        if y != p {
            assert(blk_end(m0, y) <= p || blk_end(m0, p) <= y);
        }
        if j > 0 && y != l0[j - 1] {
            let n = l0[j - 1];
            assert(blk_end(m0, y) <= n || blk_end(m0, n) <= y);
        }
    }
    crate::node::lemma_heap_frame(m0, m1, starts);
    assert forall|c2: int, k: int|
        0 <= c2 < lists1.len() && 0 <= k < lists1[c2].len()
        implies #[trigger] lists1[c2][k] != b by {
        let kk: int = if c2 == c && k >= j { k + 1 } else { k };
        assert(lists1[c2][k] == lists0[c2][kk]);
        if lists0[c2][kk] == b {
            assert(list_node_wf(m0, starts, lists0[c2], c2, kk));
            assert(class_of(blk_size(m0, b)) == c2 && class_of(blk_size(m0, b)) == c);
            assert(kk != j);
            assert(false);
        }
    }
    assert forall|i: int|
        0 <= i < starts.len() && blk_free(m1, #[trigger] starts[i])
            && !ex.insert(b).contains(starts[i])
        implies in_list(lists1[class_of(blk_size(m1, starts[i]))], starts[i]) by {
        let y = starts[i];
        assert(blk_size(m1, y) == blk_size(m0, y) && blk_free(m1, y) == blk_free(m0, y));
        assert(y != b && !ex.contains(y));
        assert(blk_wf(m0, y));
        lemma_class_in_range(blk_size(m0, y));
        let cy = class_of(blk_size(m0, y));
        assert(in_list(lists0[cy], y));
        let k = choose|k: int| 0 <= k < lists0[cy].len() && lists0[cy][k] == y;
        if cy == c {
            assert(k != j);
            if k < j {
                assert(lists1[cy][k] == y);
            } else {
                assert(lists1[cy][k - 1] == y);
            }
        } else {
            assert(lists1[cy][k] == y);
        }
        assert(in_list(lists1[cy], y));
    }
}

} // verus!
