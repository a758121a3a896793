//! The allocator of the edge module: it only ever moves forward through one fixed heap, until it
//! is reset.
use vstd::prelude::*;

verus! {

pub const HEAP_BYTES: usize = 1_048_576;

/// How far the heap is used.
#[derive(Clone, Copy, Debug, PartialEq, Eq)]
pub struct BumpAllocator {
    pub next: usize,
}

/// Where in the heap the next block lies, for a heap that starts at `base`: the first address
/// behind what is used that is a multiple of `align`, where the block fits.
pub open spec fn block(next: usize, base: usize, size: usize, align: usize) -> Option<int> {
    let last = base + next + (align - 1);
    let start = last - last % (align as int);
    if last > usize::MAX || start - base + size > HEAP_BYTES {
        None
    } else {
        Some(start - base)
    }
}

impl BumpAllocator {
    pub fn new() -> (r: BumpAllocator)
        ensures
            r.next == 0,
    {
        BumpAllocator { next: 0 }
    }

    /// Takes a block of the heap. The result is where it starts.
    pub fn allocate(&mut self, base: usize, size: usize, align: usize) -> (r: Option<usize>)
        requires
            align > 0,
        ensures
            match block(old(self).next, base, size, align) {
                Some(start) => r is Some && r->0 == start && final(self).next == start + size,
                None => r is None && final(self).next == old(self).next,
            },
    {
        let used: usize = match base.checked_add(self.next) {
            Some(value) => value,
            None => {
                return None;
            },
        };
        let last: usize = match used.checked_add(align - 1) {
            Some(value) => value,
            None => {
                return None;
            },
        };
        assert(last as int % align as int <= align - 1);
        let start: usize = last - last % align - base;
        match start.checked_add(size) {
            Some(end) => {
                if end > HEAP_BYTES {
                    return None;
                }
                self.next = end;
                Some(start)
            },
            None => None,
        }
    }
}

/// Makes the whole heap free again.
pub fn reset(allocator: &mut BumpAllocator)
    ensures
        final(allocator).next == 0,
{
    allocator.next = 0;
}

/// A block is aligned, lies inside the heap, and starts behind everything that is used.
pub proof fn blocks_do_not_overlap(next: usize, base: usize, size: usize, align: usize)
    requires
        align > 0,
        block(next, base, size, align) is Some,
    ensures
        ({
            let start = block(next, base, size, align)->0;
            &&& start >= next
            &&& start + size <= HEAP_BYTES
            &&& (base + start) % (align as int) == 0
        }),
{
    let last = base + next + (align - 1);
    let a = align as int;
    assert(0 <= last % a < a);
    vstd::arithmetic::div_mod::lemma_fundamental_div_mod(last, a);
    let start = last - last % a;
    assert(start == a * (last / a));
    vstd::arithmetic::div_mod::lemma_mod_multiples_basic(last / a, a);
    assert(start % a == 0) by (nonlinear_arith)
        requires
            start == a * (last / a),
            ((last / a) * a) % a == 0,
    ;
}

} // verus!
