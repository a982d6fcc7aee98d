//! Guest pointers, a linear memory, and the allocations made in it.
use vstd::prelude::*;

use crate::error::RuntimeError;
use crate::layout::{
    align_up, alignment_of, is_power_of_two_up_to_eight, padding, size_of,
    well_formed, TypeDescriptor,
};

verus! {

/// An offset into guest linear memory.
#[derive(Clone, Copy, Debug, PartialEq, Eq, Structural)]
pub struct GuestPointer(pub u32);

/// Distance between consecutive elements of type `t` in a sequence.
pub open spec fn stride_spec(t: TypeDescriptor) -> nat {
    align_up(size_of(t), alignment_of(t))
}

impl GuestPointer {
    /// The address just past a value of type `t` stored here.
    pub fn after(&self, t: &TypeDescriptor) -> (r: GuestPointer)
        requires
            well_formed(*t),
            self.0 + size_of(*t) <= u32::MAX,
        ensures
            r.0 == self.0 + size_of(*t),
    {
        GuestPointer(self.0 + t.size())
    }

    /// The next address aligned for a value of type `t`.
    pub fn after_padding_for(&self, t: &TypeDescriptor) -> (r: GuestPointer)
        requires
            align_up(self.0 as nat, alignment_of(*t)) <= u32::MAX,
        ensures
            r.0 == align_up(self.0 as nat, alignment_of(*t)),
    {
        let alignment = t.alignment();
        GuestPointer(self.0 + padding(self.0, alignment))
    }

    /// The address of element `index` of a sequence of `t` values starting here.
    pub fn index(&self, t: &TypeDescriptor, index: u32) -> (r: GuestPointer)
        requires
            well_formed(*t),
            self.0 + index * stride_spec(*t) <= u32::MAX,
        ensures
            r.0 == self.0 + index * stride_spec(*t),
    {
        if index == 0 {
            return *self;
        }
        let stride = element_stride(t);
        proof {
            let s = stride_spec(*t);
            assert(s <= index * s) by (nonlinear_arith)
                requires
                    index > 0,
            ;
        }
        GuestPointer(self.0 + index * stride)
    }
}

/// Distance between consecutive elements of type `t`, if it fits in 32 bits.
pub fn element_stride(t: &TypeDescriptor) -> (r: u32)
    requires
        well_formed(*t),
    ensures
        stride_spec(*t) <= u32::MAX ==> r == stride_spec(*t),
{
    let size = t.size();
    let alignment = t.alignment();
    let pad = padding(size, alignment);
    if size as u64 + pad as u64 > u32::MAX as u64 {
        u32::MAX
    } else {
        size + pad
    }
}

/// A region of guest memory obtained from the allocator.
///
/// Once released its address is gone: reading it fails instead of yielding a stale pointer.
#[derive(Debug)]
pub struct GuestAllocation {
    address: Option<GuestPointer>,
}

impl GuestAllocation {
    pub closed spec fn spec_address(&self) -> Option<GuestPointer> {
        self.address
    }

    /// The allocation's address, or `AlreadyDeallocated` once it has been released.
    pub fn address(&self) -> (r: Result<GuestPointer, RuntimeError>)
        ensures
            match self.spec_address() {
                Some(p) => r == Ok::<GuestPointer, RuntimeError>(p),
                None => r == Err::<GuestPointer, RuntimeError>(RuntimeError::AlreadyDeallocated),
            },
    {
        match self.address {
            Some(p) => Ok(p),
            None => Err(RuntimeError::AlreadyDeallocated),
        }
    }

    /// Whether the allocation is still live.
    pub fn is_live(&self) -> (r: bool)
        ensures
            r == self.spec_address() is Some,
    {
        self.address.is_some()
    }
}

/// The arguments for the guest's `cabi_realloc` export that request a fresh allocation of
/// `size` bytes: no old address, no old size, alignment 1, and the size.
///
/// Fails with `AllocationTooLarge` where `size` does not fit the guest's signed pointer width.
pub fn realloc_arguments(size: u32) -> (r: Result<(i32, i32, i32, i32), RuntimeError>)
    ensures
        size > MAX_ALLOCATION ==> r == Err::<(i32, i32, i32, i32), RuntimeError>(
            RuntimeError::AllocationTooLarge,
        ),
        size <= MAX_ALLOCATION ==> r == Ok::<(i32, i32, i32, i32), RuntimeError>(
            (0, 0, 1, size as i32),
        ),
{
    if size > MAX_ALLOCATION {
        Err(RuntimeError::AllocationTooLarge)
    } else {
        Ok((0, 0, 1, size as i32))
    }
}

/// The allocation at the address the guest's `cabi_realloc` export returned.
///
/// Fails with `AllocationFailed` where the address is negative.
pub fn allocation_from_guest(address: i32) -> (r: Result<GuestAllocation, RuntimeError>)
    ensures
        address < 0 ==> r == Err::<GuestAllocation, RuntimeError>(RuntimeError::AllocationFailed),
        address >= 0 ==> r is Ok && r->Ok_0.spec_address() == Some(GuestPointer(address as u32)),
{
    if address < 0 {
        Err(RuntimeError::AllocationFailed)
    } else {
        Ok(GuestAllocation { address: Some(GuestPointer(address as u32)) })
    }
}

/// Releases `allocation` and returns its address as the argument of the guest's `cabi_free`
/// export.
///
/// Fails with `AlreadyDeallocated` where it was released before, and with
/// `DeallocateInvalidAddress` where its address does not fit the guest's signed pointer width.
/// Either way the allocation's address is gone afterwards.
pub fn free_argument(allocation: &mut GuestAllocation) -> (r: Result<i32, RuntimeError>)
    ensures
        final(allocation).spec_address() is None,
        old(allocation).spec_address() is None ==> r == Err::<i32, RuntimeError>(
            RuntimeError::AlreadyDeallocated,
        ),
        old(allocation).spec_address() matches Some(p) && p.0 > MAX_ALLOCATION ==> r == Err::<
            i32,
            RuntimeError,
        >(RuntimeError::DeallocateInvalidAddress),
        old(allocation).spec_address() is Some && old(allocation).spec_address()->Some_0.0
            <= MAX_ALLOCATION ==> r == Ok::<i32, RuntimeError>(
            old(allocation).spec_address()->Some_0.0 as i32,
        ),
{
    match allocation.address.take() {
        None => Err(RuntimeError::AlreadyDeallocated),
        Some(p) => {
            if p.0 > MAX_ALLOCATION {
                Err(RuntimeError::DeallocateInvalidAddress)
            } else {
                Ok(p.0 as i32)
            }
        },
    }
}

/// `after` has the size of `before`, a heap that did not shrink, and the same bytes below
/// `before`'s heap end.
pub open spec fn preserves_below_heap(before: LinearMemory, after: LinearMemory) -> bool {
    &&& after.spec_bytes().len() == before.spec_bytes().len()
    &&& before.spec_heap_end() <= after.spec_heap_end()
    &&& forall|i: int|
        0 <= i < before.spec_heap_end() ==> #[trigger] after.spec_bytes()[i]
            == before.spec_bytes()[i]
}

pub proof fn lemma_preserves_trans(a: LinearMemory, b: LinearMemory, c: LinearMemory)
    requires
        preserves_below_heap(a, b),
        preserves_below_heap(b, c),
    ensures
        preserves_below_heap(a, c),
{
    assert forall|i: int| 0 <= i < a.spec_heap_end() implies #[trigger] c.spec_bytes()[i]
        == a.spec_bytes()[i] by {
        assert(c.spec_bytes()[i] == b.spec_bytes()[i]);
    }
}

/// A write at or above `a`'s heap end keeps what `a` preserves.
pub proof fn lemma_write_above_heap(a: LinearMemory, b: LinearMemory, c: LinearMemory, at: int, data: Seq<u8>)
    requires
        preserves_below_heap(a, b),
        a.spec_heap_end() <= at,
        at + data.len() <= b.spec_bytes().len(),
        c.spec_bytes() == b.spec_bytes().update_subrange_with(at, data),
        c.spec_heap_end() == b.spec_heap_end(),
    ensures
        preserves_below_heap(a, c),
{
    assert forall|i: int| 0 <= i < a.spec_heap_end() implies #[trigger] c.spec_bytes()[i]
        == a.spec_bytes()[i] by {
        assert(c.spec_bytes()[i] == b.spec_bytes()[i]);
    }
}

/// A guest linear memory with a bump allocator standing for the guest's allocation export.
///
/// Bytes below `heap_end` belong to live data or released allocations; allocations are
/// carved from the space above it.
#[derive(Debug)]
pub struct LinearMemory {
    bytes: Vec<u8>,
    heap_end: u32,
}

/// The largest allocation the guest's signed 32-bit pointer width admits.
pub const MAX_ALLOCATION: u32 = 0x7fff_ffff;

impl LinearMemory {
    pub closed spec fn spec_bytes(&self) -> Seq<u8> {
        self.bytes@
    }

    pub closed spec fn spec_heap_end(&self) -> nat {
        self.heap_end as nat
    }

    pub open spec fn wf(&self) -> bool {
        self.spec_heap_end() <= self.spec_bytes().len() && self.spec_bytes().len() <= u32::MAX
    }

    /// A zero-filled memory of `size` bytes whose first `reserved` bytes are not handed out by
    /// the allocator.
    pub fn new(size: u32, reserved: u32) -> (r: LinearMemory)
        requires
            reserved <= size,
        ensures
            r.wf(),
            r.spec_bytes() == Seq::new(size as nat, |i: int| 0u8),
            r.spec_heap_end() == reserved,
    {
        let mut bytes: Vec<u8> = Vec::new();
        let mut i: u32 = 0;
        while i < size
            invariant
                i <= size,
                bytes@ == Seq::new(i as nat, |k: int| 0u8),
            decreases size - i,
        {
            bytes.push(0u8);
            i = i + 1;
            assert(bytes@ =~= Seq::new(i as nat, |k: int| 0u8));
        }
        LinearMemory { bytes, heap_end: reserved }
    }

    /// Size of the memory in bytes.
    pub fn len(&self) -> (r: u32)
        requires
            self.wf(),
        ensures
            r == self.spec_bytes().len(),
    {
        self.bytes.len() as u32
    }

    /// Offset where the allocator's free space begins.
    pub fn heap_end(&self) -> (r: u32)
        ensures
            r == self.spec_heap_end(),
    {
        self.heap_end
    }

    /// Reads `length` bytes at `location`.
    pub fn read(&self, location: GuestPointer, length: u32) -> (r: Result<Vec<u8>, RuntimeError>)
        requires
            self.wf(),
        ensures
            location.0 + length <= self.spec_bytes().len() ==> r is Ok && r->Ok_0@
                == self.spec_bytes().subrange(location.0 as int, location.0 + length),
            location.0 + length > self.spec_bytes().len() ==> r == Err::<Vec<u8>, RuntimeError>(
                RuntimeError::OutOfBounds,
            ),
    {
        if location.0 as u64 + length as u64 > self.bytes.len() as u64 {
            return Err(RuntimeError::OutOfBounds);
        }
        let start = location.0 as usize;
        let end = start + length as usize;
        let mut out: Vec<u8> = Vec::new();
        let mut i: usize = start;
        while i < end
            invariant
                start <= i <= end,
                end <= self.bytes@.len(),
                out@ == self.bytes@.subrange(start as int, i as int),
            decreases end - i,
        {
            out.push(self.bytes[i]);
            i = i + 1;
            assert(out@ =~= self.bytes@.subrange(start as int, i as int));
        }
        Ok(out)
    }

    /// Writes `data` at `location`.
    pub fn write(&mut self, location: GuestPointer, data: &[u8]) -> (r: Result<(), RuntimeError>)
        requires
            old(self).wf(),
        ensures
            final(self).wf(),
            final(self).spec_heap_end() == old(self).spec_heap_end(),
            location.0 + data@.len() <= old(self).spec_bytes().len() ==> r is Ok
                && final(self).spec_bytes() == old(self).spec_bytes().update_subrange_with(
                location.0 as int,
                data@,
            ),
            location.0 + data@.len() > old(self).spec_bytes().len() ==> r == Err::<
                (),
                RuntimeError,
            >(RuntimeError::OutOfBounds) && final(self).spec_bytes() == old(self).spec_bytes(),
    {
        if data.len() > self.bytes.len() || location.0 as usize > self.bytes.len() - data.len() {
            return Err(RuntimeError::OutOfBounds);
        }
        let start = location.0 as usize;
        let ghost initial = self.bytes@;
        let mut i: usize = 0;
        while i < data.len()
            invariant
                start + data@.len() <= self.bytes@.len(),
                i <= data@.len(),
                self.bytes@.len() == initial.len(),
                self.heap_end == old(self).heap_end,
                old(self).wf(),
                initial == old(self).bytes@,
                self.bytes@ == initial.update_subrange_with(
                    start as int,
                    data@.subrange(0, i as int),
                ),
            decreases data@.len() - i,
        {
            self.bytes.set(start + i, data[i]);
            i = i + 1;
            assert(self.bytes@ =~= initial.update_subrange_with(
                start as int,
                data@.subrange(0, i as int),
            ));
        }
        assert(data@.subrange(0, data@.len() as int) =~= data@);
        Ok(())
    }

    /// Allocates `size` bytes aligned to `alignment`.
    ///
    /// Fails with `AllocationTooLarge` where `size` exceeds the guest's signed pointer width, and
    /// with `AllocationFailed` where the memory has no room left.
    pub fn allocate(&mut self, size: u32, alignment: u32) -> (r: Result<
        GuestAllocation,
        RuntimeError,
    >)
        requires
            old(self).wf(),
            is_power_of_two_up_to_eight(alignment as nat),
        ensures
            final(self).wf(),
            final(self).spec_bytes() == old(self).spec_bytes(),
            size > MAX_ALLOCATION ==> r == Err::<GuestAllocation, RuntimeError>(
                RuntimeError::AllocationTooLarge,
            ) && final(self).spec_heap_end() == old(self).spec_heap_end(),
            size <= MAX_ALLOCATION && align_up(old(self).spec_heap_end(), alignment as nat) + size
                > old(self).spec_bytes().len() ==> r == Err::<GuestAllocation, RuntimeError>(
                RuntimeError::AllocationFailed,
            ) && final(self).spec_heap_end() == old(self).spec_heap_end(),
            size <= MAX_ALLOCATION && align_up(old(self).spec_heap_end(), alignment as nat) + size
                <= old(self).spec_bytes().len() ==> r is Ok && r->Ok_0.spec_address() == Some(
                GuestPointer(align_up(old(self).spec_heap_end(), alignment as nat) as u32),
            ) && final(self).spec_heap_end() == align_up(
                old(self).spec_heap_end(),
                alignment as nat,
            ) + size,
            r matches Ok(a) ==> a.spec_address() matches Some(p) && old(self).spec_heap_end() <= p.0
                && p.0 + size == final(self).spec_heap_end(),
    {
        if size > MAX_ALLOCATION {
            return Err(RuntimeError::AllocationTooLarge);
        }
        let start = self.heap_end as u64 + padding(self.heap_end, alignment) as u64;
        if start + size as u64 > self.bytes.len() as u64 {
            return Err(RuntimeError::AllocationFailed);
        }
        self.heap_end = (start + size as u64) as u32;
        Ok(GuestAllocation { address: Some(GuestPointer(start as u32)) })
    }

    /// Releases every allocation made since the heap ended at `mark`: their space becomes free
    /// again. This is how an operation that fails after allocating gives back what it took.
    pub fn release_to(&mut self, mark: u32)
        requires
            old(self).wf(),
            mark <= old(self).spec_heap_end(),
        ensures
            final(self).wf(),
            final(self).spec_bytes() == old(self).spec_bytes(),
            final(self).spec_heap_end() == mark,
    {
        self.heap_end = mark;
    }

    /// Releases an allocation.
    ///
    /// Fails with `AlreadyDeallocated` where it was released before, and with
    /// `DeallocateInvalidAddress` where its address does not fit the guest's signed pointer
    /// width. On success the allocation's address is gone.
    pub fn deallocate(&mut self, allocation: &mut GuestAllocation) -> (r: Result<
        (),
        RuntimeError,
    >)
        requires
            old(self).wf(),
        ensures
            final(self).wf(),
            final(self).spec_bytes() == old(self).spec_bytes(),
            final(self).spec_heap_end() == old(self).spec_heap_end(),
            final(allocation).spec_address() is None,
            old(allocation).spec_address() is None ==> r == Err::<(), RuntimeError>(
                RuntimeError::AlreadyDeallocated,
            ),
            old(allocation).spec_address() matches Some(p) && p.0 > MAX_ALLOCATION ==> r == Err::<
                (),
                RuntimeError,
            >(RuntimeError::DeallocateInvalidAddress),
            old(allocation).spec_address() matches Some(p) && p.0 <= MAX_ALLOCATION ==> r == Ok::<
                (),
                RuntimeError,
            >(()),
    {
        match free_argument(allocation) {
            Ok(_) => Ok(()),
            Err(e) => Err(e),
        }
    }
}

} // verus!
