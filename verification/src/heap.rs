//! The allocator's state as mathematics: the heap's bounds, the free list and
//! the blocks that callers hold, with the steps that `init`, `allocate` and
//! `dealloc` take and the laws that those steps obey.

use vstd::prelude::*;
use crate::layout::{
    is_power_of_two,
    lemma_align_up,
    lemma_multiple_of_multiple,
    lemma_normalize,
    normalize,
    HEADER_ALIGN,
    HEADER_SIZE,
};
use crate::node::{
    first_fit,
    lemma_first_fit,
    lemma_total_nonnegative,
    lemma_total_push,
    lemma_total_remove,
    total_size,
    ListNode,
};

verus! {

/// The byte range `[start, start + size)`, its free blocks in list order
/// (the most recently added last) and the blocks lent to callers, each as the
/// header that it gets when it is freed.
pub ghost struct Heap {
    pub start: int,
    pub size: int,
    pub free: Seq<ListNode>,
    pub live: Seq<ListNode>,
}

impl Heap {
    /// The state before `init`: no range, no block.
    pub open spec fn empty() -> Heap {
        Heap { start: 0, size: 0, free: Seq::empty(), live: Seq::empty() }
    }

    /// The state after `init`: one free block that spans the whole range.
    pub open spec fn initial(start: usize, size: usize) -> Heap {
        Heap {
            start: start as int,
            size: size as int,
            free: seq![ListNode { start, size }],
            live: Seq::empty(),
        }
    }

    /// Every block, free or live, can carry a header and lies in the range.
    pub open spec fn blocks_valid(self) -> bool {
        &&& forall|i: int|
            0 <= i < self.free.len() ==> (#[trigger] self.free[i]).well_formed()
                && self.free[i].within(self.start, self.start + self.size)
        &&& forall|i: int|
            0 <= i < self.live.len() ==> (#[trigger] self.live[i]).well_formed()
                && self.live[i].within(self.start, self.start + self.size)
    }

    /// No two blocks share a byte, whether both are free, both live, or one
    /// of each.
    pub open spec fn blocks_disjoint(self) -> bool {
        &&& forall|i: int, j: int|
            0 <= i < j < self.free.len() ==> (#[trigger] self.free[i]).disjoint(
                #[trigger] self.free[j],
            )
        &&& forall|i: int, j: int|
            0 <= i < j < self.live.len() ==> (#[trigger] self.live[i]).disjoint(
                #[trigger] self.live[j],
            )
        &&& forall|i: int, j: int|
            0 <= i < self.free.len() && 0 <= j < self.live.len() ==> (#[trigger] self.free[i]).disjoint(
            #[trigger] self.live[j])
    }

    /// The invariant of the allocator.
    pub open spec fn wf(self) -> bool {
        &&& 0 <= self.start
        &&& 0 <= self.size
        &&& self.start + self.size <= usize::MAX
        &&& self.blocks_valid()
        &&& self.blocks_disjoint()
        &&& total_size(self.free) + total_size(self.live) <= self.size
    }

    /// The index in the free list of the block that serves the request, `-1`
    /// where the request cannot be normalised or no block fits it.
    pub open spec fn chosen(self, size: usize, align: usize) -> int {
        match normalize(size, align) {
            Some((n, a)) => first_fit(self.free, n, a),
            None => -1,
        }
    }

    /// The block that the request is served with.
    pub open spec fn granted(self, size: usize, align: usize) -> ListNode
        recommends
            self.chosen(size, align) >= 0,
    {
        let (n, a) = normalize(size, align).unwrap();
        let region = self.free[self.chosen(size, align)];
        ListNode { start: region.alloc_start(a) as usize, size: n }
    }

    /// What `allocate` returns.
    pub open spec fn alloc_addr(self, size: usize, align: usize) -> Option<usize> {
        if self.chosen(size, align) < 0 {
            None
        } else {
            Some(self.granted(size, align).start)
        }
    }

    /// The state that `allocate` leaves: the chosen block has left the free
    /// list, what lies behind the granted block in it has joined the list as
    /// its newest block, and the granted block is live. What lies before the
    /// granted block in the chosen one belongs to no block from then on. A
    /// failed request changes nothing.
    pub open spec fn after_alloc(self, size: usize, align: usize) -> Heap {
        let i = self.chosen(size, align);
        if i < 0 {
            self
        } else {
            let block = self.granted(size, align);
            let rest = self.free.remove(i);
            let tail = ListNode {
                start: block.end() as usize,
                size: (self.free[i].end() - block.end()) as usize,
            };
            Heap {
                start: self.start,
                size: self.size,
                free: if tail.size > 0 {
                    rest.push(tail)
                } else {
                    rest
                },
                live: self.live.push(block),
            }
        }
    }

    /// Whether `ptr` is the address of a live block obtained with this
    /// `size` and `align`.
    pub open spec fn owns(self, ptr: usize, size: usize, align: usize) -> bool {
        normalize(size, align) matches Some((n, _a)) && self.live.contains(
            ListNode { start: ptr, size: n },
        )
    }

    /// The state that `dealloc` leaves: the block is no longer live and is
    /// the newest block of the free list.
    pub open spec fn after_dealloc(self, ptr: usize, size: usize, align: usize) -> Heap
        recommends
            self.owns(ptr, size, align),
    {
        let block = ListNode { start: ptr, size: normalize(size, align).unwrap().0 };
        Heap {
            start: self.start,
            size: self.size,
            free: self.free.push(block),
            live: self.live.remove(self.live.index_of(block)),
        }
    }

    /// A range that starts at a header's alignment and has room for a header
    /// makes a valid initial state.
    pub proof fn lemma_initial_wf(start: usize, size: usize)
        requires
            start % HEADER_ALIGN == 0,
            size >= HEADER_SIZE,
            start + size <= usize::MAX,
        ensures
            Heap::initial(start, size).wf(),
    {
        let h = Heap::initial(start, size);
        assert(h.free.drop_last() =~= Seq::<ListNode>::empty());
        assert(total_size(h.free) == size) by {
            assert(total_size(h.free.drop_last()) == 0);
        }
    }

    /// The granted block is aligned as asked and as a header needs, lies in
    /// the chosen free block, and leaves behind it nothing or room for a
    /// header.
    pub proof fn lemma_granted(self, size: usize, align: usize)
        requires
            self.wf(),
            self.chosen(size, align) >= 0,
        ensures
            ({
                let region = self.free[self.chosen(size, align)];
                let block = self.granted(size, align);
                &&& 0 <= self.chosen(size, align) < self.free.len()
                &&& normalize(size, align) is Some
                &&& block.size == normalize(size, align).unwrap().0
                &&& block.size >= size
                &&& block.start % align == 0
                &&& block.well_formed()
                &&& block.within(region.start as int, region.end())
                &&& block.end() % (HEADER_ALIGN as int) == 0
                &&& region.end() == block.end() || region.end() - block.end() >= HEADER_SIZE
            }),
    {
        let (n, a) = normalize(size, align).unwrap();
        lemma_normalize(size, align);
        lemma_first_fit(self.free, n, a);
        let region = self.free[self.chosen(size, align)];
        let block = self.granted(size, align);
        assert(region.well_formed());
        lemma_align_up(region.start as int, a as int);
        lemma_multiple_of_multiple(block.start as int, a as int, align as int);
        lemma_multiple_of_multiple(block.start as int, a as int, HEADER_ALIGN as int);
    }

    /// An allocation keeps the invariant. The live blocks grow by the
    /// granted block alone, which shares no byte with any block that was
    /// live before, and the free list loses at least the bytes granted.
    pub proof fn lemma_alloc_wf(self, size: usize, align: usize)
        requires
            self.wf(),
        ensures
            self.after_alloc(size, align).wf(),
            self.chosen(size, align) >= 0 ==> {
                let block = self.granted(size, align);
                let next = self.after_alloc(size, align);
                &&& next.live == self.live.push(block)
                &&& total_size(next.live) == total_size(self.live) + block.size
                &&& total_size(next.free) <= total_size(self.free) - block.size
                &&& block.within(self.start, self.start + self.size)
                &&& forall|j: int|
                    0 <= j < self.live.len() ==> block.disjoint(#[trigger] self.live[j])
            },
    {
        let i = self.chosen(size, align);
        if i >= 0 {
            self.lemma_granted(size, align);
            let region = self.free[i];
            let block = self.granted(size, align);
            let next = self.after_alloc(size, align);
            let rest = self.free.remove(i);
            let tail = ListNode {
                start: block.end() as usize,
                size: (region.end() - block.end()) as usize,
            };
            assert(region.well_formed());
            assert forall|j: int| 0 <= j < rest.len() implies (#[trigger] rest[j]).well_formed()
                && rest[j].within(self.start, self.start + self.size) && rest[j].disjoint(
                region,
            ) by {
                if j < i {
                    assert(rest[j] == self.free[j]);
                } else {
                    assert(rest[j] == self.free[j + 1]);
                }
            }
            assert forall|j: int, k: int| 0 <= j < k < rest.len() implies (#[trigger] rest[j]).disjoint(
            #[trigger] rest[k]) by {
                let jj = if j < i { j } else { j + 1 };
                let kk = if k < i { k } else { k + 1 };
                assert(rest[j] == self.free[jj]);
                assert(rest[k] == self.free[kk]);
            }
            assert forall|j: int, k: int|
                0 <= j < rest.len() && 0 <= k < self.live.len() implies (#[trigger] rest[j]).disjoint(
            #[trigger] self.live[k]) by {
                let jj = if j < i { j } else { j + 1 };
                assert(rest[j] == self.free[jj]);
            }
            assert forall|k: int| 0 <= k < self.live.len() implies region.disjoint(
                #[trigger] self.live[k],
            ) by {
                assert(self.free[i].disjoint(self.live[k]));
            }
            lemma_total_remove(self.free, i);
            lemma_total_push(rest, tail);
            lemma_total_push(self.live, block);
            assert(next.blocks_valid());
            assert(next.blocks_disjoint());
        }
    }

    /// Freeing a live block keeps the invariant.
    pub proof fn lemma_dealloc_wf(self, ptr: usize, size: usize, align: usize)
        requires
            self.wf(),
            self.owns(ptr, size, align),
        ensures
            self.after_dealloc(ptr, size, align).wf(),
            total_size(self.after_dealloc(ptr, size, align).live) == total_size(self.live)
                - normalize(size, align).unwrap().0,
    {
        let block = ListNode { start: ptr, size: normalize(size, align).unwrap().0 };
        let i = self.live.index_of(block);
        let next = self.after_dealloc(ptr, size, align);
        let rest = self.live.remove(i);
        assert(0 <= i < self.live.len() && self.live[i] == block);
        assert forall|j: int| 0 <= j < rest.len() implies (#[trigger] rest[j]).well_formed()
            && rest[j].within(self.start, self.start + self.size) && rest[j].disjoint(block) by {
            if j < i {
                assert(rest[j] == self.live[j]);
            } else {
                assert(rest[j] == self.live[j + 1]);
            }
        }
        assert forall|j: int, k: int| 0 <= j < k < rest.len() implies (#[trigger] rest[j]).disjoint(
        #[trigger] rest[k]) by {
            let jj = if j < i { j } else { j + 1 };
            let kk = if k < i { k } else { k + 1 };
            assert(rest[j] == self.live[jj]);
            assert(rest[k] == self.live[kk]);
        }
        assert forall|j: int, k: int|
            0 <= j < self.free.len() && 0 <= k < rest.len() implies (#[trigger] self.free[j]).disjoint(
        #[trigger] rest[k]) by {
            let kk = if k < i { k } else { k + 1 };
            assert(rest[k] == self.live[kk]);
        }
        assert forall|j: int| 0 <= j < self.free.len() implies (#[trigger] self.free[j]).disjoint(
            block,
        ) by {
            assert(self.free[j].disjoint(self.live[i]));
        }
        lemma_total_remove(self.live, i);
        lemma_total_push(self.free, block);
        assert(next.blocks_valid());
        assert(next.blocks_disjoint());
    }

    /// A request is refused once the live blocks and the block it would be
    /// served with span more bytes than the heap has: the bytes granted never
    /// exceed the heap's size, and a granted block never leaves the heap.
    pub proof fn lemma_exhaustion(self, size: usize, align: usize)
        requires
            self.wf(),
        ensures
            total_size(self.live) <= self.size,
            normalize(size, align) matches Some((n, _a)) && total_size(self.live) + n > self.size
                ==> self.alloc_addr(size, align) is None,
            self.alloc_addr(size, align) matches Some(p) ==> self.start <= p && p + normalize(
                size,
                align,
            ).unwrap().0 <= self.start + self.size,
    {
        self.lemma_alloc_wf(size, align);
        lemma_total_nonnegative(self.free);
        lemma_total_nonnegative(self.after_alloc(size, align).free);
        if self.chosen(size, align) >= 0 {
            self.lemma_granted(size, align);
        }
    }

    /// A block that is granted and at once given back can be granted again:
    /// the same request succeeds on the state that the two steps leave.
    pub proof fn lemma_round_trip(self, size: usize, align: usize)
        requires
            self.wf(),
            self.alloc_addr(size, align) is Some,
        ensures
            ({
                let p = self.alloc_addr(size, align).unwrap();
                let held = self.after_alloc(size, align);
                &&& held.owns(p, size, align)
                &&& held.after_dealloc(p, size, align).wf()
                &&& held.after_dealloc(p, size, align).alloc_addr(size, align) is Some
            }),
    {
        let p = self.alloc_addr(size, align).unwrap();
        let (n, a) = normalize(size, align).unwrap();
        let block = self.granted(size, align);
        let held = self.after_alloc(size, align);
        self.lemma_granted(size, align);
        self.lemma_alloc_wf(size, align);
        assert(held.live.last() == block);
        assert(held.owns(p, size, align));
        held.lemma_dealloc_wf(p, size, align);
        let back = held.after_dealloc(p, size, align);
        assert(back.free.last() == block);
        lemma_normalize(size, align);
        lemma_align_up(self.free[self.chosen(size, align)].start as int, a as int);
        lemma_align_up(block.start as int, a as int);
        assert(block.fits(n, a));
    }

    /// A fresh heap serves a request for all of its bytes but a header's
    /// worth, at an address inside the heap, where the heap's size is one
    /// header or a multiple of a header's alignment with room for two.
    pub proof fn lemma_coverage(start: usize, size: usize)
        requires
            start % HEADER_ALIGN == 0,
            start + size <= usize::MAX,
            size == HEADER_SIZE || (size >= 2 * HEADER_SIZE && size % HEADER_ALIGN == 0),
        ensures
            Heap::initial(start, size).wf(),
            Heap::initial(start, size).alloc_addr((size - HEADER_SIZE) as usize, 1) matches Some(p)
                && start <= p < start + size,
    {
        let h = Heap::initial(start, size);
        let want = (size - HEADER_SIZE) as usize;
        Heap::lemma_initial_wf(start, size);
        assert(is_power_of_two(1)) by {
            assert(1usize & 0usize == 0) by (bit_vector);
        }
        let s = if want < HEADER_SIZE { HEADER_SIZE } else { want };
        lemma_align_up(s as int, HEADER_ALIGN as int);
        lemma_align_up(start as int, HEADER_ALIGN as int);
        let (n, a) = normalize(want, 1).unwrap();
        assert(a == HEADER_ALIGN);
        assert(n == s);
        assert(h.free.last().fits(n, a));
    }

    /// The state after serving `requests` one after another.
    pub open spec fn run(self, requests: Seq<Request>) -> Heap
        decreases requests.len(),
    {
        if requests.len() == 0 {
            self
        } else {
            self.run(requests.drop_last()).step(requests.last())
        }
    }

    /// The state after serving one request.
    pub open spec fn step(self, request: Request) -> Heap {
        match request {
            Request::Alloc { size, align } => self.after_alloc(size, align),
            Request::Dealloc { ptr, size, align } => self.after_dealloc(ptr, size, align),
        }
    }

    /// Whether a caller may make the request in this state: it may free only
    /// what it holds, with the size and alignment it asked for.
    pub open spec fn admits(self, request: Request) -> bool {
        match request {
            Request::Alloc { size, align } => true,
            Request::Dealloc { ptr, size, align } => self.owns(ptr, size, align),
        }
    }

    /// Whether each of `requests` may be made in the state that those before
    /// it leave.
    pub open spec fn admits_all(self, requests: Seq<Request>) -> bool {
        forall|k: int|
            0 <= k < requests.len() ==> self.run(requests.take(k)).admits(#[trigger] requests[k])
    }

    /// Whatever allocations and deallocations are served in whatever order,
    /// no two blocks that are live at the same time share a byte.
    pub proof fn lemma_no_overlap(self, requests: Seq<Request>)
        requires
            self.wf(),
            self.admits_all(requests),
        ensures
            self.run(requests).wf(),
            forall|i: int, j: int|
                0 <= i < j < self.run(requests).live.len() ==> (#[trigger] self.run(
                    requests,
                ).live[i]).disjoint(#[trigger] self.run(requests).live[j]),
        decreases requests.len(),
    {
        if requests.len() > 0 {
            let before = requests.drop_last();
            assert forall|k: int| 0 <= k < before.len() implies self.run(before.take(k)).admits(
                #[trigger] before[k],
            ) by {
                assert(before.take(k) =~= requests.take(k));
                assert(before[k] == requests[k]);
            }
            self.lemma_no_overlap(before);
            let prev = self.run(before);
            assert(requests.take(requests.len() - 1) =~= before);
            assert(prev.admits(requests[requests.len() - 1]));
            match requests.last() {
                Request::Alloc { size, align } => {
                    prev.lemma_alloc_wf(size, align);
                },
                Request::Dealloc { ptr, size, align } => {
                    prev.lemma_dealloc_wf(ptr, size, align);
                },
            }
        }
    }

    /// Whether each of `requests` is an allocation that succeeds in the state
    /// that those before it leave.
    pub open spec fn serves_all(self, requests: Seq<Request>) -> bool {
        forall|k: int|
            0 <= k < requests.len() ==> match #[trigger] requests[k] {
                Request::Alloc { size, align } => self.run(requests.take(k)).alloc_addr(
                    size,
                    align,
                ) is Some,
                Request::Dealloc { .. } => false,
            }
    }

    /// Allocations that all succeed ask, at their normalised sizes, for no
    /// more bytes than the heap has left: once a run of allocations asks for
    /// more, one of them has failed.
    pub proof fn lemma_demand_bounded(self, requests: Seq<Request>)
        requires
            self.wf(),
            self.serves_all(requests),
        ensures
            self.run(requests).wf(),
            self.run(requests).start == self.start,
            self.run(requests).size == self.size,
            total_size(self.run(requests).live) == total_size(self.live) + demand(requests),
            total_size(self.live) + demand(requests) <= self.size,
        decreases requests.len(),
    {
        if requests.len() > 0 {
            let before = requests.drop_last();
            assert forall|k: int| 0 <= k < before.len() implies match #[trigger] before[k] {
                Request::Alloc { size, align } => self.run(before.take(k)).alloc_addr(
                    size,
                    align,
                ) is Some,
                Request::Dealloc { .. } => false,
            } by {
                assert(before.take(k) =~= requests.take(k));
                assert(before[k] == requests[k]);
            }
            self.lemma_demand_bounded(before);
            let prev = self.run(before);
            assert(requests.take(requests.len() - 1) =~= before);
            let last = requests[requests.len() - 1];
            match last {
                Request::Alloc { size, align } => {
                    prev.lemma_alloc_wf(size, align);
                    prev.lemma_granted(size, align);
                },
                Request::Dealloc { .. } => {},
            }
        }
        lemma_total_nonnegative(self.run(requests).free);
    }

} // impl Heap

/// The bytes that `requests` ask for: each allocation counts with its
/// normalised size, anything else with nothing.
pub open spec fn demand(requests: Seq<Request>) -> int
    decreases requests.len(),
{
    if requests.len() == 0 {
        0
    } else {
        demand(requests.drop_last()) + match requests.last() {
            Request::Alloc { size, align } => match normalize(size, align) {
                Some((n, _a)) => n as int,
                None => 0,
            },
            Request::Dealloc { .. } => 0,
        }
    }
}

/// One call on the allocator.
pub ghost enum Request {
    Alloc { size: usize, align: usize },
    Dealloc { ptr: usize, size: usize, align: usize },
}

} // verus!
