//! A stack allocator of physical frames: a range never handed out yet, and a
//! stack of frames given back.
use vstd::prelude::*;
use crate::mm::address::PhysPageNum;

verus! {

pub struct StackFrameAllocator {
    pub current: u64,
    pub end: u64,
    pub recycled: Vec<u64>,
}

impl StackFrameAllocator {
    pub open spec fn wf(&self) -> bool {
        &&& self.current <= self.end
        &&& self.recycled@.no_duplicates()
        &&& forall|i: int| 0 <= i < self.recycled@.len() ==> #[trigger] self.recycled@[i] < self.current
    }

    /// Whether frame `p` may be handed out.
    pub open spec fn is_free(&self, p: u64) -> bool {
        (self.current <= p < self.end) || self.recycled@.contains(p)
    }

    /// How many frames may be handed out.
    pub open spec fn free_count(&self) -> nat {
        ((self.end - self.current) + self.recycled@.len()) as nat
    }

    /// The frame that the next allocation hands out.
    pub open spec fn next_frame(&self) -> Option<u64> {
        if self.recycled@.len() > 0 {
            Some(self.recycled@.last())
        } else if self.current == self.end {
            None
        } else {
            Some(self.current)
        }
    }

    /// Every frame that may be handed out lies below `end`; a frame below `end`
    /// that may not is below `current` and not on the stack.
    pub proof fn lemma_free_below_end(&self)
        requires
            self.wf(),
        ensures
            forall|p: u64| #[trigger] self.is_free(p) ==> p < self.end,
            forall|p: u64|
                !#[trigger] self.is_free(p) && p < self.end ==> p < self.current
                    && !self.recycled@.contains(p),
    {
        assert forall|p: u64| #[trigger] self.is_free(p) implies p < self.end by {
            if self.recycled@.contains(p) {
                let i = choose|i: int| 0 <= i < self.recycled@.len() && self.recycled@[i] == p;
                assert(self.recycled@[i] < self.current);
            }
        }
    }

    /// An allocator that hands out the frames from `start` up to `end`, excluded.
    pub fn new(start: PhysPageNum, end: PhysPageNum) -> (a: StackFrameAllocator)
        requires
            start.0 <= end.0,
        ensures
            a.wf(),
            a.current == start.0,
            a.end == end.0,
            a.recycled@.len() == 0,
    {
        StackFrameAllocator { current: start.0, end: end.0, recycled: Vec::new() }
    }

    /// Hands out the last frame given back, or else the next frame of the range.
    pub fn allocate(&mut self) -> (r: Option<PhysPageNum>)
        requires
            old(self).wf(),
        ensures
            final(self).wf(),
            final(self).end == old(self).end,
            r == match old(self).next_frame() {
                Some(p) => Some(PhysPageNum(p)),
                None => None,
            },
            r is None <==> old(self).free_count() == 0,
            r is None ==> final(self).current == old(self).current && final(self).recycled@ == old(
                self,
            ).recycled@,
            r is Some ==> final(self).free_count() + 1 == old(self).free_count(),
            r is Some ==> old(self).is_free(r->Some_0.0),
            forall|p: u64| #[trigger]
                final(self).is_free(p) <==> old(self).is_free(p) && !(r matches Some(q) && q.0
                    == p),
    {
        if let Some(ppn) = self.recycled.pop() {
            proof {
                let s = old(self).recycled@;
                assert(s =~= self.recycled@.push(ppn));
                assert(s[s.len() - 1] == ppn);
                assert(s.contains(ppn));
                assert forall|p: u64| #[trigger]
                    self.is_free(p) <==> old(self).is_free(p) && p != ppn by {
                    if self.recycled@.contains(p) {
                        let i = choose|i: int| 0 <= i < self.recycled@.len() && self.recycled@[i] == p;
                        assert(s[i] == p);
                        assert(i != s.len() - 1);
                    }
                    if old(self).recycled@.contains(p) && p != ppn {
                        let i = choose|i: int| 0 <= i < s.len() && s[i] == p;
                        assert(self.recycled@[i] == p);
                    }
                }
            }
            Some(PhysPageNum(ppn))
        } else if self.current == self.end {
            None
        } else {
            self.current = self.current + 1;
            proof {
                assert forall|p: u64| #[trigger]
                    self.is_free(p) <==> old(self).is_free(p) && p != old(self).current by {
                    if self.recycled@.contains(p) {
                        let i = choose|i: int| 0 <= i < self.recycled@.len() && self.recycled@[i] == p;
                        assert(self.recycled@[i] < old(self).current);
                    }
                }
            }
            Some(PhysPageNum(self.current - 1))
        }
    }

    /// Gives frame `ppn` back.
    pub fn deallocate(&mut self, ppn: PhysPageNum)
        requires
            old(self).wf(),
            ppn.0 < old(self).current,
            !old(self).recycled@.contains(ppn.0),
        ensures
            final(self).wf(),
            final(self).current == old(self).current,
            final(self).end == old(self).end,
            final(self).recycled@ == old(self).recycled@.push(ppn.0),
            final(self).free_count() == old(self).free_count() + 1,
            forall|p: u64| #[trigger] final(self).is_free(p) <==> old(self).is_free(p) || p == ppn.0,
    {
        self.recycled.push(ppn.0);
        proof {
            let s = old(self).recycled@;
            assert forall|i: int, j: int|
                0 <= i < self.recycled@.len() && 0 <= j < self.recycled@.len() && i != j implies
                self.recycled@[i] != self.recycled@[j] by {
                if i < s.len() && j < s.len() {
                } else if i == s.len() {
                    assert(s.contains(self.recycled@[j]));
                } else {
                    assert(s.contains(self.recycled@[i]));
                }
            }
            assert forall|p: u64| #[trigger]
                self.is_free(p) <==> old(self).is_free(p) || p == ppn.0 by {
                if self.recycled@.contains(p) && p != ppn.0 {
                    let i = choose|i: int| 0 <= i < self.recycled@.len() && self.recycled@[i] == p;
                    assert(s[i] == p);
                }
                if s.contains(p) {
                    let i = choose|i: int| 0 <= i < s.len() && s[i] == p;
                    assert(self.recycled@[i] == p);
                }
                if p == ppn.0 {
                    assert(self.recycled@[s.len() as int] == p);
                }
            }
        }
    }

    /// Whether frame `ppn` is on the stack of frames given back.
    pub fn is_recycled(&self, ppn: PhysPageNum) -> (r: bool)
        ensures
            r == self.recycled@.contains(ppn.0),
    {
        let mut i: usize = 0;
        while i < self.recycled.len()
            invariant
                i <= self.recycled@.len(),
                forall|j: int| 0 <= j < i ==> self.recycled@[j] != ppn.0,
            decreases self.recycled@.len() - i,
        {
            if self.recycled[i] == ppn.0 {
                return true;
            }
            i = i + 1;
        }
        false
    }
}

} // verus!
