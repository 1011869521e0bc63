//! The free-list allocator: a singly linked chain of free regions searched
//! first fit and split in place.

use vstd::prelude::*;
use crate::alignment::{
    align_up, is_power_of_two, lemma_align_up, lemma_mod_add_zero, lemma_multiple_of_divisor,
    lemma_power_of_two_divides, lemma_power_of_two_pos, spec_align_up,
};

verus! {

/// Bytes of metadata at the head of every free region: the region's size and
/// the link to the next region, one machine word each.
pub const NODE_SIZE: usize = 16;

/// Alignment a free region's start address must have: that of a machine word.
pub const NODE_ALIGN: usize = 8;

/// One free region: `size` bytes starting at `addr`. In the running kernel
/// the node metadata is written into the first bytes of the region itself,
/// which is why a region must be `NODE_ALIGN`-aligned and at least
/// `NODE_SIZE` bytes; the list here carries the start address as an explicit
/// field instead of deriving it from the node's own storage.
#[derive(Clone, Copy, PartialEq, Eq, Structural, Debug)]
pub struct ListNode {
    pub addr: usize,
    pub size: usize,
}

impl ListNode {
    /// One past the region's last byte.
    pub open spec fn end(self) -> int {
        self.addr + self.size
    }

    /// A region that can host node metadata: aligned, no smaller than the
    /// metadata, and inside the address space.
    pub open spec fn wf(self) -> bool {
        &&& self.addr as int % (NODE_ALIGN as int) == 0
        &&& self.size >= NODE_SIZE
        &&& self.addr + self.size <= usize::MAX
    }

    pub fn new(addr: usize, size: usize) -> (r: Self)
        ensures
            r == (ListNode { addr, size }),
    {
        ListNode { addr, size }
    }

    /// The region's start address.
    pub fn start_addr(&self) -> (r: usize)
        ensures
            r == self.addr,
    {
        self.addr
    }

    /// The region's end address, one past its last byte.
    pub fn end_addr(&self) -> (r: usize)
        requires
            self.addr + self.size <= usize::MAX,
        ensures
            r as int == self.end(),
    {
        self.addr + self.size
    }
}

/// Every region is well formed and no two regions overlap.
pub open spec fn wf_free_list(s: Seq<ListNode>) -> bool {
    &&& (forall|i: int| 0 <= i < s.len() ==> (#[trigger] s[i]).wf())
    &&& (forall|i: int, j: int|
        #![trigger s[i], s[j]]
        0 <= i < s.len() && 0 <= j < s.len() && i != j ==> s[i].end() <= s[j].addr || s[j].end()
            <= s[i].addr)
}

/// Sum of the sizes of the listed free regions.
pub open spec fn free_total(s: Seq<ListNode>) -> int
    decreases s.len(),
{
    if s.len() == 0 {
        0
    } else {
        s[0].size + free_total(s.drop_first())
    }
}

/// Whether an allocation of `size` bytes at alignment `align` fits in the
/// region: the aligned start plus the size stays inside the region and the
/// address space, and a leftover tail, if any, is big enough to host a node
/// of its own.
pub open spec fn region_suitable(node: ListNode, size: int, align: int) -> bool {
    let alloc_end = spec_align_up(node.addr as int, align) + size;
    &&& alloc_end <= usize::MAX
    &&& alloc_end <= node.end()
    &&& (node.end() == alloc_end || node.end() - alloc_end >= NODE_SIZE)
}

/// Index of the first region in list order that suits the request.
pub open spec fn spec_find_first(s: Seq<ListNode>, size: int, align: int) -> Option<int>
    decreases s.len(),
{
    if s.len() == 0 {
        None
    } else if region_suitable(s[0], size, align) {
        Some(0)
    } else {
        match spec_find_first(s.drop_first(), size, align) {
            None => None,
            Some(i) => Some(i + 1),
        }
    }
}

/// The alignment actually reserved for a request: at least a node's.
pub open spec fn spec_effective_align(align: int) -> int {
    if align >= NODE_ALIGN { align } else { NODE_ALIGN as int }
}

/// The size actually reserved for a request: padded to the effective
/// alignment and at least a node's footprint, so that the range can hold a
/// free-list node once it is given back.
pub open spec fn spec_effective_size(size: int, align: int) -> int {
    let padded = spec_align_up(size, spec_effective_align(align));
    if padded >= NODE_SIZE {
        padded
    } else {
        NODE_SIZE as int
    }
}

/// The free list after a successful allocation from region `i` of an
/// adjusted request: the region is unlinked, and its tail beyond the
/// allocated block, if any, becomes a new region at the front of the list.
/// Bytes between the region's start and the aligned block start belong to
/// neither side and are lost; they only arise when `align` exceeds
/// `NODE_ALIGN`.
pub open spec fn spec_after_allocate(s: Seq<ListNode>, i: int, size: int, align: int) -> Seq<
    ListNode,
>
    recommends
        0 <= i < s.len(),
{
    let node = s[i];
    let start = spec_align_up(node.addr as int, align);
    let tail = node.end() - (start + size);
    if tail > 0 {
        s.remove(i).insert(0, (ListNode { addr: (start + size) as usize, size: tail as usize }))
    } else {
        s.remove(i)
    }
}

/// The sum of region sizes is nonnegative and bounds each region's size.
pub proof fn lemma_free_total_bounds(s: Seq<ListNode>)
    ensures
        free_total(s) >= 0,
        forall|i: int| 0 <= i < s.len() ==> (#[trigger] s[i]).size <= free_total(s),
    decreases s.len(),
{
    if s.len() > 0 {
        lemma_free_total_bounds(s.drop_first());
        assert forall|i: int| 0 <= i < s.len() implies (#[trigger] s[i]).size <= free_total(s) by {
            if i > 0 {
                assert(s[i] == s.drop_first()[i - 1]);
            }
        }
    }
}

/// Prepending a region adds its size to the sum.
pub proof fn lemma_free_total_insert_front(s: Seq<ListNode>, n: ListNode)
    ensures
        free_total(s.insert(0, n)) == n.size + free_total(s),
{
    s.insert_ensures(0, n);
    assert(s.insert(0, n)[0] == n);
    assert(s.insert(0, n).drop_first() =~= s);
}

/// Removing a region takes its size out of the sum.
pub proof fn lemma_free_total_remove(s: Seq<ListNode>, i: int)
    requires
        0 <= i < s.len(),
    ensures
        free_total(s.remove(i)) == free_total(s) - s[i].size,
    decreases s.len(),
{
    s.remove_ensures(i);
    if i == 0 {
        assert(s.remove(0) =~= s.drop_first());
    } else {
        assert(s.remove(i)[0] == s[0]);
        assert(s.remove(i).drop_first() =~= s.drop_first().remove(i - 1));
        assert(s.drop_first()[i - 1] == s[i]);
        lemma_free_total_remove(s.drop_first(), i - 1);
    }
}

/// If the regions before `i` all refuse the request and region `i` accepts
/// it, the search lands exactly on `i`.
pub proof fn lemma_find_first_hit(s: Seq<ListNode>, size: int, align: int, i: int)
    requires
        0 <= i < s.len(),
        region_suitable(s[i], size, align),
        forall|j: int| 0 <= j < i ==> !region_suitable(#[trigger] s[j], size, align),
    ensures
        spec_find_first(s, size, align) == Some(i),
    decreases s.len(),
{
    if i > 0 {
        let t = s.drop_first();
        assert(t[i - 1] == s[i]);
        assert forall|j: int| 0 <= j < i - 1 implies !region_suitable(
            #[trigger] t[j],
            size,
            align,
        ) by {
            assert(t[j] == s[j + 1]);
        }
        lemma_find_first_hit(t, size, align, i - 1);
    }
}

/// If no region accepts the request, the search comes back empty.
pub proof fn lemma_find_first_none(s: Seq<ListNode>, size: int, align: int)
    requires
        forall|j: int| 0 <= j < s.len() ==> !region_suitable(#[trigger] s[j], size, align),
    ensures
        spec_find_first(s, size, align) == None::<int>,
    decreases s.len(),
{
    if s.len() > 0 {
        let t = s.drop_first();
        assert forall|j: int| 0 <= j < t.len() implies !region_suitable(
            #[trigger] t[j],
            size,
            align,
        ) by {
            assert(t[j] == s[j + 1]);
        }
        lemma_find_first_none(t, size, align);
    }
}

/// What a search result means: an empty result says every region refused the
/// request; a hit names a region that accepts it, after only regions that
/// refuse it.
pub proof fn lemma_find_first_props(s: Seq<ListNode>, size: int, align: int)
    ensures
        match spec_find_first(s, size, align) {
            None => forall|j: int| 0 <= j < s.len() ==> !region_suitable(#[trigger] s[j], size, align),
            Some(i) => {
                &&& 0 <= i < s.len()
                &&& region_suitable(s[i], size, align)
                &&& forall|j: int| 0 <= j < i ==> !region_suitable(#[trigger] s[j], size, align)
            },
        },
    decreases s.len(),
{
    if s.len() > 0 && !region_suitable(s[0], size, align) {
        let t = s.drop_first();
        lemma_find_first_props(t, size, align);
        match spec_find_first(s, size, align) {
            None => {
                assert forall|j: int| 0 <= j < s.len() implies !region_suitable(
                    #[trigger] s[j],
                    size,
                    align,
                ) by {
                    if j > 0 {
                        assert(s[j] == t[j - 1]);
                    }
                }
            },
            Some(i) => {
                assert(s[i] == t[i - 1]);
                assert forall|j: int| 0 <= j < i implies !region_suitable(
                    #[trigger] s[j],
                    size,
                    align,
                ) by {
                    if j > 0 {
                        assert(s[j] == t[j - 1]);
                    }
                }
            },
        }
    }
}

/// Removing a region keeps the list well formed.
pub proof fn lemma_wf_remove(s: Seq<ListNode>, i: int)
    requires
        wf_free_list(s),
        0 <= i < s.len(),
    ensures
        wf_free_list(s.remove(i)),
{
    s.remove_ensures(i);
    let t = s.remove(i);
    assert forall|k: int| 0 <= k < t.len() implies (#[trigger] t[k]).wf() by {
        if k < i {
            assert(t[k] == s[k]);
        } else {
            assert(t[k] == s[k + 1]);
        }
    }
    assert forall|k: int, l: int|
        #![trigger t[k], t[l]]
        0 <= k < t.len() && 0 <= l < t.len() && k != l implies t[k].end() <= t[l].addr || t[l].end()
        <= t[k].addr by {
        let k0 = if k < i {
            k
        } else {
            k + 1
        };
        let l0 = if l < i {
            l
        } else {
            l + 1
        };
        assert(t[k] == s[k0]);
        assert(t[l] == s[l0]);
    }
}

/// Prepending a well-formed region disjoint from every listed region keeps
/// the list well formed.
pub proof fn lemma_wf_insert_front(s: Seq<ListNode>, n: ListNode)
    requires
        wf_free_list(s),
        n.wf(),
        forall|i: int|
            0 <= i < s.len() ==> (#[trigger] s[i]).end() <= n.addr || n.addr + n.size <= s[i].addr,
    ensures
        wf_free_list(s.insert(0, n)),
{
    s.insert_ensures(0, n);
    let t = s.insert(0, n);
    assert forall|k: int| 0 <= k < t.len() implies (#[trigger] t[k]).wf() by {
        if k == 0 {
            assert(t[0] == n);
        } else {
            assert(t[k] == s[k - 1]);
        }
    }
    assert forall|k: int, l: int|
        #![trigger t[k], t[l]]
        0 <= k < t.len() && 0 <= l < t.len() && k != l implies t[k].end() <= t[l].addr || t[l].end()
        <= t[k].addr by {
        if k == 0 {
            assert(t[0] == n);
            assert(t[l] == s[l - 1]);
        } else if l == 0 {
            assert(t[0] == n);
            assert(t[k] == s[k - 1]);
        } else {
            assert(t[k] == s[k - 1]);
            assert(t[l] == s[l - 1]);
        }
    }
}

/// The allocator: a chain of free regions, most recently freed first. In the
/// running kernel the chain is rooted at a zero-size sentinel head and the
/// links live inside the free memory itself; the vector here carries the same
/// chain in the same order.
pub struct LinkedListAllocator {
    free: Vec<ListNode>,
}

impl View for LinkedListAllocator {
    type V = Seq<ListNode>;

    closed spec fn view(&self) -> Seq<ListNode> {
        self.free@
    }
}

impl LinkedListAllocator {
    /// The allocator's invariant: a well-formed free list.
    pub open spec fn wf(&self) -> bool {
        wf_free_list(self@)
    }

    /// An empty allocator; unusable until `init` registers the heap.
    pub fn new() -> (r: Self)
        ensures
            r@ == Seq::<ListNode>::empty(),
            r.wf(),
    {
        LinkedListAllocator { free: Vec::new() }
    }

    /// Registers the heap `[heap_start, heap_start + heap_size)` as the one
    /// initial free region. To be called exactly once, on an empty allocator,
    /// with a mapped, writable range the caller owns in full and that is
    /// aligned and large enough to host a node (the callers' contract).
    pub fn init(&mut self, heap_start: usize, heap_size: usize)
        requires
            old(self)@.len() == 0,
            heap_start as int % (NODE_ALIGN as int) == 0,
            heap_size >= NODE_SIZE,
            heap_start + heap_size <= usize::MAX,
        ensures
            final(self).wf(),
            final(self)@ == seq![(ListNode { addr: heap_start, size: heap_size })],
            free_total(final(self)@) == heap_size,
    {
        self.add_free_region(heap_start, heap_size);
        proof {
            assert(self@ =~= seq![(ListNode { addr: heap_start, size: heap_size })]);
        }
    }

    /// Puts the region `[addr, addr + size)` at the front of the free list,
    /// never merging it with a neighbour. The region must be node-aligned, at
    /// least a node's footprint, and must not overlap any listed free region
    /// (the callers' contract: a range is given back at most once).
    pub fn add_free_region(&mut self, addr: usize, size: usize)
        requires
            old(self).wf(),
            addr as int % (NODE_ALIGN as int) == 0,
            size >= NODE_SIZE,
            addr + size <= usize::MAX,
            forall|i: int|
                0 <= i < old(self)@.len() ==> (#[trigger] old(self)@[i]).end() <= addr || addr
                    + size <= old(self)@[i].addr,
        ensures
            final(self).wf(),
            final(self)@ == old(self)@.insert(0, (ListNode { addr, size })),
            free_total(final(self)@) == free_total(old(self)@) + size,
    {
        let node = ListNode::new(addr, size);
        proof {
            lemma_free_total_insert_front(self@, node);
            lemma_wf_insert_front(self@, node);
        }
        self.free.insert(0, node);
    }

    /// Decides whether the region can host an allocation of `size` bytes at
    /// alignment `align`, without mutating anything. Returns the allocation's
    /// start address on success; an address-space overflow only means the
    /// region does not fit. Refuses the region when splitting it would leave
    /// a tail too small to ever become a free node again.
    pub fn alloc_from_region(region: &ListNode, size: usize, align: usize) -> (r: Result<
        usize,
        (),
    >)
        requires
            is_power_of_two(align as int),
            region.addr + region.size <= usize::MAX,
        ensures
            r is Ok <==> region_suitable(*region, size as int, align as int),
            r is Ok ==> r->Ok_0 as int == spec_align_up(region.addr as int, align as int),
    {
        proof {
            lemma_power_of_two_pos(align as int);
        }
        let rem: usize = region.addr % align;
        if rem != 0 && align - rem > usize::MAX - region.addr {
            // even the aligned start lies past the end of the address space
            return Err(());
        }
        let alloc_start = align_up(region.addr, align);
        let alloc_end = match alloc_start.checked_add(size) {
            Some(e) => e,
            None => {
                return Err(());
            },
        };
        if alloc_end > region.end_addr() {
            // region too small
            return Err(());
        }
        let excess_size = region.end_addr() - alloc_end;
        if excess_size > 0 && excess_size < NODE_SIZE {
            // the split's remainder could never hold a node of its own
            return Err(());
        }
        Ok(alloc_start)
    }

    /// First-fit search: walks the list in order, most recently freed region
    /// first, and unlinks and returns the first region that can host the
    /// request, together with the allocation's start address. Returns `None`
    /// when no region fits; exhaustion is an expected outcome, not an error.
    pub fn find_region(&mut self, size: usize, align: usize) -> (r: Option<(ListNode, usize)>)
        requires
            old(self).wf(),
            is_power_of_two(align as int),
        ensures
            final(self).wf(),
            match spec_find_first(old(self)@, size as int, align as int) {
                None => r is None && final(self)@ == old(self)@,
                Some(i) => {
                    &&& r is Some
                    &&& r->Some_0.0 == old(self)@[i]
                    &&& r->Some_0.1 as int == spec_align_up(old(self)@[i].addr as int, align as int)
                    &&& final(self)@ == old(self)@.remove(i)
                },
            },
    {
        let ghost s0 = self@;
        let mut idx: usize = 0;
        while idx < self.free.len()
            invariant
                s0 == old(self)@,
                self@ == s0,
                wf_free_list(s0),
                is_power_of_two(align as int),
                idx <= s0.len(),
                forall|j: int|
                    0 <= j < idx ==> !region_suitable(#[trigger] s0[j], size as int, align as int),
            decreases s0.len() - idx,
        {
            let node = self.free[idx];
            proof {
                assert(s0[idx as int].wf());
            }
            match Self::alloc_from_region(&node, size, align) {
                Ok(alloc_start) => {
                    proof {
                        lemma_find_first_hit(s0, size as int, align as int, idx as int);
                        lemma_wf_remove(s0, idx as int);
                    }
                    let removed = self.free.remove(idx);
                    return Some((removed, alloc_start));
                },
                Err(_) => {
                    idx = idx + 1;
                },
            }
        }
        proof {
            lemma_find_first_none(s0, size as int, align as int);
        }
        None
    }

    /// Adjusts a requested layout so that the reserved memory can later host
    /// a free-list node: alignment raised to at least `NODE_ALIGN`, size
    /// padded to that alignment and raised to at least `NODE_SIZE`. Applied
    /// identically when allocating and when freeing, so both agree on how
    /// many bytes a block reserves.
    pub fn size_align(size: usize, align: usize) -> (r: (usize, usize))
        requires
            is_power_of_two(align as int),
            spec_align_up(size as int, spec_effective_align(align as int)) <= usize::MAX,
        ensures
            r.0 as int == spec_effective_size(size as int, align as int),
            r.1 as int == spec_effective_align(align as int),
            is_power_of_two(r.1 as int),
    {
        let eff_align = if align >= NODE_ALIGN {
            align
        } else {
            NODE_ALIGN
        };
        proof {
            lemma_node_align_pow2();
        }
        let padded = align_up(size, eff_align);
        let eff_size = if padded >= NODE_SIZE {
            padded
        } else {
            NODE_SIZE
        };
        (eff_size, eff_align)
    }

    /// Carves a block of `size` bytes at alignment `align` out of the first
    /// listed region that can hold the adjusted request, re-inserting a
    /// leftover tail, if any, as a new free region at the front of the list.
    /// Returns the block's aligned start address, or `None` when no single
    /// region can satisfy the request.
    pub fn allocate(&mut self, size: usize, align: usize) -> (r: Option<usize>)
        requires
            old(self).wf(),
            is_power_of_two(align as int),
            spec_align_up(size as int, spec_effective_align(align as int)) <= usize::MAX,
        ensures
            final(self).wf(),
            ({
                let es = spec_effective_size(size as int, align as int);
                let ea = spec_effective_align(align as int);
                match spec_find_first(old(self)@, es, ea) {
                    None => r is None && final(self)@ == old(self)@,
                    Some(i) => {
                        let node = old(self)@[i];
                        let start = spec_align_up(node.addr as int, ea);
                        let tail = node.end() - (start + es);
                        &&& r is Some
                        &&& r->Some_0 as int == start
                        &&& start % align as int == 0
                        &&& tail >= 0
                        &&& final(self)@ == spec_after_allocate(old(self)@, i, es, ea)
                        &&& free_total(final(self)@) + es + (start - node.addr) == free_total(
                            old(self)@,
                        )
                    },
                }
            }),
    {
        let ghost s0 = self@;
        let (es, ea) = Self::size_align(size, align);
        let ghost esi = es as int;
        let ghost eai = ea as int;
        proof {
            lemma_power_of_two_pos(eai);
            lemma_power_of_two_pos(align as int);
            lemma_find_first_props(s0, esi, eai);
        }
        match self.find_region(es, ea) {
            Some((region, alloc_start)) => {
                let ghost i = spec_find_first(s0, esi, eai)->Some_0;
                proof {
                    assert(region == s0[i]);
                    assert(region.wf());
                    lemma_align_up(region.addr as int, eai);
                    lemma_free_total_remove(s0, i);
                    // the start and the effective size are both multiples of
                    // NODE_ALIGN, so a tail inserted after them is too
                    lemma_node_align_pow2();
                    lemma_power_of_two_divides(NODE_ALIGN as int, eai);
                    lemma_multiple_of_divisor(alloc_start as int, NODE_ALIGN as int, eai);
                    lemma_align_up(size as int, eai);
                    if esi == spec_align_up(size as int, eai) {
                        lemma_multiple_of_divisor(esi, NODE_ALIGN as int, eai);
                    }
                    lemma_mod_add_zero(alloc_start as int, esi, NODE_ALIGN as int);
                    // the request's own alignment divides the effective one
                    lemma_power_of_two_divides(align as int, eai);
                    lemma_multiple_of_divisor(alloc_start as int, align as int, eai);
                }
                let alloc_end = alloc_start + es;
                let excess_size = region.end_addr() - alloc_end;
                if excess_size > 0 {
                    proof {
                        // the tail lies inside the removed region, so it is
                        // disjoint from every remaining region
                        s0.remove_ensures(i);
                        assert forall|k: int|
                            0 <= k < self@.len() implies (#[trigger] self@[k]).end() <= alloc_end
                            || alloc_end + excess_size <= self@[k].addr by {
                            let k0 = if k < i {
                                k
                            } else {
                                k + 1
                            };
                            assert(self@[k] == s0[k0]);
                        }
                    }
                    self.add_free_region(alloc_end, excess_size);
                }
                Some(alloc_start)
            },
            None => None,
        }
    }

    /// Gives back the block at `ptr` that an earlier `allocate` call with
    /// this same `size` and `align` handed out: the block becomes a new free
    /// region at the front of the list, never merged with a neighbour. A
    /// block is given back at most once and only with its own layout (the
    /// callers' contract, stated here as the disjointness requirement).
    pub fn deallocate(&mut self, ptr: usize, size: usize, align: usize)
        requires
            old(self).wf(),
            is_power_of_two(align as int),
            spec_align_up(size as int, spec_effective_align(align as int)) <= usize::MAX,
            ptr as int % (NODE_ALIGN as int) == 0,
            ptr + spec_effective_size(size as int, align as int) <= usize::MAX,
            forall|i: int|
                0 <= i < old(self)@.len() ==> (#[trigger] old(self)@[i]).end() <= ptr || ptr
                    + spec_effective_size(size as int, align as int) <= old(self)@[i].addr,
        ensures
            final(self).wf(),
            final(self)@ == old(self)@.insert(
                0,
                (ListNode {
                    addr: ptr,
                    size: spec_effective_size(size as int, align as int) as usize,
                }),
            ),
            free_total(final(self)@) == free_total(old(self)@) + spec_effective_size(
                size as int,
                align as int,
            ),
    {
        let (es, _eff_align) = Self::size_align(size, align);
        self.add_free_region(ptr, es);
    }

    /// Number of free regions now in the list.
    pub fn region_count(&self) -> (r: usize)
        ensures
            r == self@.len(),
    {
        self.free.len()
    }

    /// The free region at position `i` in list order, front first.
    pub fn region_at(&self, i: usize) -> (r: ListNode)
        requires
            i < self@.len(),
        ensures
            r == self@[i as int],
    {
        self.free[i]
    }
}

/// `NODE_ALIGN` is a power of two.
proof fn lemma_node_align_pow2()
    ensures
        is_power_of_two(NODE_ALIGN as int),
{
    assert(is_power_of_two(1));
    assert(is_power_of_two(2));
    assert(is_power_of_two(4));
    assert(is_power_of_two(8));
}

/// First fit, most recent first: whenever some listed region accepts the
/// request, the search succeeds, and it never picks a region that stands
/// behind an acceptable one — the more recently freed candidate wins even
/// when a later one would fit more tightly.
pub proof fn lemma_first_fit(s: Seq<ListNode>, size: int, align: int, j: int)
    requires
        0 <= j < s.len(),
        region_suitable(s[j], size, align),
    ensures
        spec_find_first(s, size, align) is Some,
        spec_find_first(s, size, align)->Some_0 <= j,
{
    lemma_find_first_props(s, size, align);
}

/// A request larger than every single region fails, even when the regions'
/// combined bytes would suffice: free regions are never coalesced, so only
/// a single region can satisfy a request.
pub proof fn lemma_oversized_request_fails(s: Seq<ListNode>, size: int, align: int)
    requires
        align >= 1,
        forall|i: int| 0 <= i < s.len() ==> (#[trigger] s[i]).size < size,
    ensures
        spec_find_first(s, size, align) == None::<int>,
{
    assert forall|i: int| 0 <= i < s.len() implies !region_suitable(
        #[trigger] s[i],
        size,
        align,
    ) by {
        lemma_align_up(s[i].addr as int, align);
    }
    lemma_find_first_none(s, size, align);
}

/// Exhaustion: a request larger than the total of all free bytes — in
/// particular, one larger than the whole heap — fails.
pub proof fn lemma_exhaustion(s: Seq<ListNode>, size: int, align: int)
    requires
        align >= 1,
        size > free_total(s),
    ensures
        spec_find_first(s, size, align) == None::<int>,
{
    lemma_free_total_bounds(s);
    lemma_oversized_request_fails(s, size, align);
}

/// A request never shrinks when adjusted, so `lemma_exhaustion` on the
/// effective size applies whenever the requested size alone already exceeds
/// the free total.
pub proof fn lemma_effective_size_at_least(size: int, align: int)
    requires
        size >= 0,
    ensures
        spec_effective_size(size, align) >= size,
        spec_effective_size(size, align) >= NODE_SIZE,
{
    lemma_align_up(size, spec_effective_align(align));
}

/// Conservation of bytes: when the aligned start of any well-formed region
/// is the region's own start — always the case when the requested alignment
/// does not exceed a node's — an allocation takes exactly its effective size
/// out of the free total, and a matching deallocation puts exactly that
/// amount back.
pub proof fn lemma_no_leading_waste(node: ListNode, align: int)
    requires
        node.wf(),
        align <= NODE_ALIGN,
    ensures
        spec_align_up(node.addr as int, spec_effective_align(align)) == node.addr,
{
}

/// Conservation over a successful allocation: what leaves the free total is
/// the block's effective size plus the padding between the chosen region's
/// start and the aligned block start; with a requested alignment of at most
/// `NODE_ALIGN` the padding is zero, so the free total drops by exactly the
/// effective size that a matching deallocation will put back.
pub proof fn lemma_allocate_conserves(s: Seq<ListNode>, size: int, align: int)
    requires
        wf_free_list(s),
        spec_find_first(s, spec_effective_size(size, align), spec_effective_align(align)) is Some,
    ensures
        ({
            let es = spec_effective_size(size, align);
            let ea = spec_effective_align(align);
            let i = spec_find_first(s, es, ea)->Some_0;
            let node = s[i];
            let start = spec_align_up(node.addr as int, ea);
            &&& free_total(spec_after_allocate(s, i, es, ea)) + es + (start - node.addr)
                == free_total(s)
            &&& align <= NODE_ALIGN ==> free_total(spec_after_allocate(s, i, es, ea)) + es
                == free_total(s)
        }),
{
    let es = spec_effective_size(size, align);
    let ea = spec_effective_align(align);
    let i = spec_find_first(s, es, ea)->Some_0;
    let node = s[i];
    let start = spec_align_up(node.addr as int, ea);
    let tail = node.end() - (start + es);
    lemma_find_first_props(s, es, ea);
    lemma_free_total_remove(s, i);
    if tail > 0 {
        lemma_free_total_insert_front(
            s.remove(i),
            (ListNode { addr: (start + es) as usize, size: tail as usize }),
        );
    }
    if align <= NODE_ALIGN {
        lemma_no_leading_waste(node, align);
    }
}

/// Minimum footprint: every region of a well-formed free list — in
/// particular every tail that a split leaves behind — is at least
/// `NODE_SIZE` bytes.
pub proof fn lemma_minimum_footprint(s: Seq<ListNode>, i: int)
    requires
        wf_free_list(s),
        0 <= i < s.len(),
    ensures
        s[i].size >= NODE_SIZE,
{
}

} // verus!

