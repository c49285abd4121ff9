//! Free-block headers and what can be said of a list of them.

use vstd::prelude::*;
use crate::layout::{align_up_spec, HEADER_ALIGN, HEADER_SIZE};

verus! {

/// The header of one block of the heap: where the block starts and how many
/// bytes it spans, its own header included.
#[derive(Clone, Copy, Debug, PartialEq, Eq, Structural)]
pub struct ListNode {
    pub start: usize,
    pub size: usize,
}

impl ListNode {
    /// The address one past the block's last byte.
    pub open spec fn end(self) -> int {
        self.start + self.size
    }

    /// A block that can carry its own header: aligned for it, large enough
    /// for it, and ending inside the address space.
    pub open spec fn well_formed(self) -> bool {
        &&& self.start % HEADER_ALIGN == 0
        &&& self.size >= HEADER_SIZE
        &&& self.end() <= usize::MAX
    }

    /// The two blocks share no byte.
    pub open spec fn disjoint(self, other: ListNode) -> bool {
        self.end() <= other.start || other.end() <= self.start
    }

    /// Every byte of the block lies in `[lo, hi)`.
    pub open spec fn within(self, lo: int, hi: int) -> bool {
        lo <= self.start && self.end() <= hi
    }

    /// Where a request aligned to `align` would start in this block.
    pub open spec fn alloc_start(self, align: usize) -> int {
        align_up_spec(self.start as int, align as int)
    }

    /// Whether `size` bytes aligned to `align` can be cut from this block:
    /// they end inside it, and what is left behind them is nothing or enough
    /// for a header.
    pub open spec fn fits(self, size: usize, align: usize) -> bool {
        let alloc_end = self.alloc_start(align) + size;
        &&& alloc_end <= usize::MAX
        &&& alloc_end <= self.end()
        &&& (self.end() - alloc_end == 0 || self.end() - alloc_end >= HEADER_SIZE)
    }

    pub fn new(start: usize, size: usize) -> (r: Self)
        ensures
            r == (ListNode { start, size }),
    {
        ListNode { start, size }
    }

    pub fn start_addr(&self) -> (r: usize)
        ensures
            r == self.start,
    {
        self.start
    }

    pub fn end_addr(&self) -> (r: usize)
        requires
            self.end() <= usize::MAX,
        ensures
            r == self.end(),
    {
        self.start + self.size
    }
}

/// The bytes that the blocks of `list` span together.
pub open spec fn total_size(list: Seq<ListNode>) -> int
    decreases list.len(),
{
    if list.len() == 0 {
        0
    } else {
        total_size(list.drop_last()) + list.last().size
    }
}

/// The index of the block that a first-fit search takes: the search starts at
/// the last block of `list`, the one most recently added, and stops at the
/// first that fits. `-1` where none fits.
pub open spec fn first_fit(list: Seq<ListNode>, size: usize, align: usize) -> int
    decreases list.len(),
{
    if list.len() == 0 {
        -1
    } else if list.last().fits(size, align) {
        list.len() - 1
    } else {
        first_fit(list.drop_last(), size, align)
    }
}

/// `first_fit` names a block that fits and that no later block precedes in
/// the search; `-1` means that no block fits.
pub proof fn lemma_first_fit(list: Seq<ListNode>, size: usize, align: usize)
    ensures
        -1 <= first_fit(list, size, align) < list.len(),
        first_fit(list, size, align) >= 0 ==> list[first_fit(list, size, align)].fits(
            size,
            align,
        ),
        forall|j: int|
            first_fit(list, size, align) < j < list.len() ==> !(#[trigger] list[j]).fits(
                size,
                align,
            ),
    decreases list.len(),
{
    if list.len() > 0 && !list.last().fits(size, align) {
        lemma_first_fit(list.drop_last(), size, align);
        assert forall|j: int| first_fit(list, size, align) < j < list.len() implies !(
        #[trigger] list[j]).fits(size, align) by {
            if j < list.len() - 1 {
                assert(list[j] == list.drop_last()[j]);
            }
        }
    }
}

/// A total is never negative.
pub proof fn lemma_total_nonnegative(list: Seq<ListNode>)
    ensures
        total_size(list) >= 0,
    decreases list.len(),
{
    if list.len() > 0 {
        lemma_total_nonnegative(list.drop_last());
    }
}

/// Adding a block adds its size to the total.
pub proof fn lemma_total_push(list: Seq<ListNode>, node: ListNode)
    ensures
        total_size(list.push(node)) == total_size(list) + node.size,
{
    assert(list.push(node).drop_last() =~= list);
}

/// Taking a block out takes its size from the total.
pub proof fn lemma_total_remove(list: Seq<ListNode>, i: int)
    requires
        0 <= i < list.len(),
    ensures
        total_size(list.remove(i)) == total_size(list) - list[i].size,
    decreases list.len(),
{
    if i == list.len() - 1 {
        assert(list.remove(i) =~= list.drop_last());
    } else {
        lemma_total_remove(list.drop_last(), i);
        assert(list.remove(i).drop_last() =~= list.drop_last().remove(i));
        assert(list.remove(i).last() == list.last());
    }
}

} // verus!
