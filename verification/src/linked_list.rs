//! The allocator: a list of free blocks searched first-fit, newest block
//! first.

use vstd::prelude::*;
use crate::heap::Heap;
use crate::layout::{align_up, lemma_normalize, normalize, HEADER_ALIGN, HEADER_SIZE};
use crate::node::{first_fit, lemma_first_fit, ListNode};

verus! {

/// A first-fit allocator over one byte range. It computes addresses and
/// keeps the free list; the memory behind the addresses is the caller's
/// business.
pub struct LinkedListAllocator {
    /// The free blocks, the most recently added last.
    free: Vec<ListNode>,
    /// The blocks lent to callers.
    live: Ghost<Seq<ListNode>>,
    /// Start and size of the range handed over by `init`.
    bounds: Ghost<(int, int)>,
}

impl View for LinkedListAllocator {
    type V = Heap;

    closed spec fn view(&self) -> Heap {
        Heap { start: self.bounds@.0, size: self.bounds@.1, free: self.free@, live: self.live@ }
    }
}

impl LinkedListAllocator {
    /// An allocator without a heap: every request fails until `init`.
    pub fn new() -> (r: Self)
        ensures
            r@ == Heap::empty(),
    {
        LinkedListAllocator { free: Vec::new(), live: Ghost(Seq::empty()), bounds: Ghost((0, 0)) }
    }

    /// Hands the range `[heap_start, heap_start + heap_size)` to an allocator
    /// that has none yet, as one free block.
    pub fn init(&mut self, heap_start: usize, heap_size: usize)
        requires
            old(self)@ == Heap::empty(),
            heap_start % HEADER_ALIGN == 0,
            heap_size >= HEADER_SIZE,
            heap_start + heap_size <= usize::MAX,
        ensures
            final(self)@ == Heap::initial(heap_start, heap_size),
            final(self)@.wf(),
    {
        self.add_free_region(heap_start, heap_size);
        self.bounds = Ghost((heap_start as int, heap_size as int));
        proof {
            assert(self@.free =~= Heap::initial(heap_start, heap_size).free);
            Heap::lemma_initial_wf(heap_start, heap_size);
        }
    }

    /// Puts the block of `size` bytes at `addr` at the head of the free list.
    pub fn add_free_region(&mut self, addr: usize, size: usize)
        requires
            addr % HEADER_ALIGN == 0,
            size >= HEADER_SIZE,
        ensures
            final(self)@ == (Heap {
                free: old(self)@.free.push(ListNode { start: addr, size }),
                ..old(self)@
            }),
    {
        let node = ListNode::new(addr, size);
        self.free.push(node);
    }

    /// The newest block of the free list, the first that a search tries.
    pub fn head(&self) -> (r: Option<ListNode>)
        ensures
            r == (if self@.free.len() == 0 {
                None
            } else {
                Some(self@.free.last())
            }),
    {
        let n: usize = self.free.len();
        if n == 0 {
            None
        } else {
            Some(self.free[n - 1])
        }
    }

    /// Takes from the free list the first block, newest first, from which
    /// `size` bytes aligned to `align` can be cut, and returns it with the
    /// address at which the bytes start.
    pub fn find_region(&mut self, size: usize, align: usize) -> (r: Option<(ListNode, usize)>)
        requires
            old(self)@.wf(),
            align > 0,
        ensures
            first_fit(old(self)@.free, size, align) < 0 ==> r is None && final(self)@ == old(
                self,
            )@,
            first_fit(old(self)@.free, size, align) >= 0 ==> {
                let i = first_fit(old(self)@.free, size, align);
                let region = old(self)@.free[i];
                &&& i < old(self)@.free.len()
                &&& r == Some((region, region.alloc_start(align) as usize))
                &&& final(self)@ == (Heap { free: old(self)@.free.remove(i), ..old(self)@ })
            },
    {
        let mut i: usize = self.free.len();
        proof {
            assert(self.free@.take(i as int) =~= self.free@);
        }
        while i > 0
            invariant
                *self == *old(self),
                self@.wf(),
                align > 0,
                i <= self.free@.len(),
                first_fit(self.free@, size, align) == first_fit(
                    self.free@.take(i as int),
                    size,
                    align,
                ),
            decreases i,
        {
            proof {
                assert(self.free@.take(i as int).drop_last() =~= self.free@.take(i - 1));
                assert(self.free@.take(i as int).last() == self.free@[i - 1]);
                assert(self@.free[i - 1].well_formed());
            }
            i -= 1;
            match Self::alloc_from_region(&self.free[i], size, align) {
                Ok(alloc_start) => {
                    let region = self.free.remove(i);
                    return Some((region, alloc_start));
                },
                Err(_) => {},
            }
        }
        proof {
            assert(self.free@.take(0) =~= Seq::<ListNode>::empty());
        }
        None
    }

    /// Tries to cut `size` bytes aligned to `align` from `region`, and
    /// returns the address at which they start.
    pub fn alloc_from_region(region: &ListNode, size: usize, align: usize) -> (r: Result<usize, ()>)
        requires
            align > 0,
            region.end() <= usize::MAX,
        ensures
            r is Ok <==> region.fits(size, align),
            r matches Ok(p) ==> p == region.alloc_start(align),
    {
        let alloc_start: usize = match align_up(region.start_addr(), align) {
            Some(p) => p,
            None => {
                return Err(());
            },
        };
        let alloc_end: usize = match alloc_start.checked_add(size) {
            Some(e) => e,
            None => {
                return Err(());
            },
        };
        if alloc_end > region.end_addr() {
            return Err(());
        }
        let excess_size: usize = region.end_addr() - alloc_end;
        if excess_size > 0 && excess_size < HEADER_SIZE {
            return Err(());
        }
        Ok(alloc_start)
    }

    /// Normalises a request of `size` bytes aligned to `align`, so that the
    /// block it is served with can hold a header once it is freed.
    pub fn size_align(size: usize, align: usize) -> (r: Option<(usize, usize)>)
        ensures
            r == normalize(size, align),
    {
        if align == 0 || align & (align - 1) != 0 {
            return None;
        }
        let a: usize = if align < HEADER_ALIGN { HEADER_ALIGN } else { align };
        let s: usize = if size < HEADER_SIZE { HEADER_SIZE } else { size };
        match align_up(s, a) {
            Some(n) => Some((n, a)),
            None => None,
        }
    }

    /// Serves a request of `size` bytes aligned to `align`: the address of
    /// the block, or `None` where the request cannot be normalised or no free
    /// block fits it.
    pub fn allocate(&mut self, size: usize, align: usize) -> (r: Option<usize>)
        requires
            old(self)@.wf(),
        ensures
            r == old(self)@.alloc_addr(size, align),
            final(self)@ == old(self)@.after_alloc(size, align),
            final(self)@.wf(),
            r matches Some(p) ==> {
                &&& p % align == 0
                &&& old(self)@.start <= p
                &&& p + size <= old(self)@.start + old(self)@.size
                &&& final(self)@.owns(p, size, align)
                &&& forall|j: int|
                    0 <= j < old(self)@.live.len() ==> old(self)@.granted(size, align).disjoint(
                        #[trigger] old(self)@.live[j],
                    )
            },
    {
        proof {
            self@.lemma_alloc_wf(size, align);
        }
        let (n, a) = match Self::size_align(size, align) {
            Some(na) => na,
            None => {
                return None;
            },
        };
        proof {
            lemma_normalize(size, align);
            lemma_first_fit(self@.free, n, a);
        }
        match self.find_region(n, a) {
            None => None,
            Some((region, alloc_start)) => {
                proof {
                    old(self)@.lemma_granted(size, align);
                }
                let alloc_end: usize = alloc_start + n;
                let excess_size: usize = region.end_addr() - alloc_end;
                if excess_size > 0 {
                    self.add_free_region(alloc_end, excess_size);
                }
                self.live = Ghost(self.live@.push(ListNode { start: alloc_start, size: n }));
                proof {
                    assert(self@.free =~= old(self)@.after_alloc(size, align).free);
                    assert(self@.live.last() == (ListNode { start: alloc_start, size: n }));
                }
                Some(alloc_start)
            },
        }
    }

    /// Takes back the block at `ptr` that was obtained with this `size` and
    /// `align`, as the newest block of the free list.
    pub fn dealloc(&mut self, ptr: usize, size: usize, align: usize)
        requires
            old(self)@.wf(),
            old(self)@.owns(ptr, size, align),
        ensures
            final(self)@ == old(self)@.after_dealloc(ptr, size, align),
            final(self)@.wf(),
    {
        proof {
            self@.lemma_dealloc_wf(ptr, size, align);
        }
        match Self::size_align(size, align) {
            Some((n, _)) => {
                let ghost block = ListNode { start: ptr, size: n };
                proof {
                    let i = self@.live.index_of(block);
                    assert(self@.live[i].well_formed());
                }
                self.add_free_region(ptr, n);
                self.live = Ghost(self.live@.remove(self.live@.index_of(block)));
            },
            None => {},
        }
    }
}

} // verus!
