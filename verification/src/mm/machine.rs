//! Physical memory together with the allocator of its free frames.
use vstd::prelude::*;
use crate::mm::address::PhysPageNum;
use crate::mm::frame_allocator::StackFrameAllocator;
use crate::mm::phys_mem::{PhysMem, frame_unchanged, with_zeros};
use crate::mm::pte::PageTableEntry;

verus! {

pub struct Machine {
    pub mem: PhysMem,
    pub frame_allocator: StackFrameAllocator,
}

impl Machine {
    /// The memory and the allocator are well formed, and every free frame is a
    /// frame of the memory.
    pub open spec fn wf(&self) -> bool {
        &&& self.mem.wf()
        &&& self.frame_allocator.wf()
        &&& forall|p: u64| #[trigger] self.frame_allocator.is_free(p) ==> self.mem.has_frame(p)
    }

    /// A machine whose frames from `first_free` on are free.
    pub fn new(mem: PhysMem, first_free: PhysPageNum) -> (m: Machine)
        requires
            mem.wf(),
            mem.base_ppn <= first_free.0 <= mem.base_ppn + mem.n_frames,
        ensures
            m.wf(),
            m.mem == mem,
            m.frame_allocator.current == first_free.0,
            m.frame_allocator.end == mem.base_ppn + mem.n_frames,
            m.frame_allocator.recycled@.len() == 0,
    {
        let end = PhysPageNum(mem.base_ppn + mem.n_frames);
        let frame_allocator = StackFrameAllocator::new(first_free, end);
        Machine { mem, frame_allocator }
    }

    /// Takes a free frame and fills it with zeros; `None` when no frame is free.
    pub fn frame_alloc(&mut self) -> (r: Option<PhysPageNum>)
        requires
            old(self).wf(),
        ensures
            final(self).wf(),
            r == match old(self).frame_allocator.next_frame() {
                Some(p) => Some(PhysPageNum(p)),
                None => None,
            },
            r is None <==> old(self).frame_allocator.free_count() == 0,
            final(self).frame_allocator.end == old(self).frame_allocator.end,
            r is Some ==> final(self).frame_allocator.free_count() + 1
                == old(self).frame_allocator.free_count(),
            r is Some ==> old(self).frame_allocator.is_free(r->Some_0.0),
            r is Some ==> old(self).mem.has_frame(r->Some_0.0),
            forall|p: u64| #[trigger]
                final(self).frame_allocator.is_free(p) <==> old(self).frame_allocator.is_free(p)
                    && !(r matches Some(q) && q.0 == p),
            final(self).mem.base_ppn == old(self).mem.base_ppn,
            final(self).mem.n_frames == old(self).mem.n_frames,
            r is None ==> final(self).mem.bytes@ == old(self).mem.bytes@,
            r is Some ==> final(self).mem.bytes@ == with_zeros(
                old(self).mem.bytes@,
                old(self).mem.frame_addr(r->Some_0.0),
                4096,
            ),
            forall|p: u64, k: int|
                #![trigger final(self).mem.pte_at(p, k)]
                final(self).mem.has_frame(p) && 0 <= k < 512 ==> final(self).mem.pte_at(p, k)
                    == if r matches Some(q) && q.0 == p {
                    PageTableEntry { bits: 0 }
                } else {
                    old(self).mem.pte_at(p, k)
                },
            forall|p: u64|
                old(self).mem.has_frame(p) && !old(self).frame_allocator.is_free(p)
                    ==> #[trigger] frame_unchanged(old(self).mem, final(self).mem, p),
    {
        let r = self.frame_allocator.allocate();
        match r {
            Some(ppn) => {
                self.mem.zero_frame(ppn);
            },
            None => {},
        }
        r
    }

    /// Gives frame `ppn` back to the allocator.
    pub fn frame_dealloc(&mut self, ppn: PhysPageNum)
        requires
            old(self).wf(),
            old(self).mem.has_frame(ppn.0),
            ppn.0 < old(self).frame_allocator.current,
            !old(self).frame_allocator.recycled@.contains(ppn.0),
        ensures
            final(self).wf(),
            final(self).mem == old(self).mem,
            final(self).frame_allocator.current == old(self).frame_allocator.current,
            final(self).frame_allocator.end == old(self).frame_allocator.end,
            final(self).frame_allocator.recycled@ == old(self).frame_allocator.recycled@.push(ppn.0),
            final(self).frame_allocator.free_count() == old(self).frame_allocator.free_count() + 1,
            forall|p: u64| #[trigger]
                final(self).frame_allocator.is_free(p) <==> old(self).frame_allocator.is_free(p)
                    || p == ppn.0,
    {
        self.frame_allocator.deallocate(ppn);
    }
}

} // verus!
