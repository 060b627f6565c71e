//! The allocation registry: a fixed table of slots that tracks every live and
//! quarantined allocation.
//!
//! The table is open-addressed: a pointer is Fibonacci-hashed to a slot and
//! probed for linearly from there. A tombstone, left by a region that has aged
//! out of quarantine, keeps probe chains intact and is taken by a later insert.
//! The quarantine is a bounded ring: once it is full, each further free evicts
//! the region that was freed first.
//!
//! Each field of the slots has an array of its own, made of zeroes, so that the
//! pages of a table are only touched where slots are in use.

use vstd::prelude::*;
use vstd::arithmetic::div_mod::*;
use vstd::arithmetic::power2::*;
use crate::bits;
use crate::model::{self, ArenaState};
use crate::region::Span;

verus! {

/// Depth of the call stacks kept per slot.
pub const IP_DEPTH: usize = 16;

/// A slot that never held an allocation.
pub const EMPTY: u8 = 0;
/// A slot whose allocation is live.
pub const READY: u8 = 1;
/// A slot whose allocation was freed and sits in quarantine.
pub const FREED: u8 = 2;
/// A slot whose allocation has left the quarantine.
pub const TOMB: u8 = 3;

/// Multiplier of the Fibonacci hash.
pub const HASH_MULTIPLIER: u64 = 0x9E37_79B9_7F4A_7C15;

/// One slot of the registry.
#[derive(Clone, Copy)]
pub struct Region {
    pub state: u8,
    pub base: usize,
    pub total_len: usize,
    pub user_ptr: usize,
    pub size: usize,
    pub align: usize,
    pub guard_addr: usize,
    pub alloc_ips: [usize; IP_DEPTH],
    pub free_ips: [usize; IP_DEPTH],
}

/// How a faulting address relates to the tracked allocations.
#[derive(Clone, Copy, PartialEq, Eq, Debug, Structural)]
pub enum FaultKind {
    Overflow,
    Underflow,
    UseAfterFree,
    LiveRegion,
    Wild,
}

/// Result of classifying a faulting address.
#[derive(Clone, Copy)]
pub struct FaultInfo {
    pub kind: FaultKind,
    pub slot: usize,
    pub base: usize,
    pub total_len: usize,
    pub user_ptr: usize,
    pub size: usize,
    pub align: usize,
}

impl Region {
    /// Whether `addr` lies in the mapping of slot number `idx`, this one, and if
    /// so, how an access there goes wrong.
    pub fn fault_at(&self, idx: usize, addr: usize, page: usize) -> (info: Option<FaultInfo>)
        ensures
            info == (if self.covers(addr as int) {
                Some(self.fault_info(idx, addr, page))
            } else {
                None
            }),
            info is Some <==> (self.state == READY || self.state == FREED) && self.base <= addr
                < self.base + self.total_len <= usize::MAX,
            info matches Some(fi) ==> (fi.kind == FaultKind::UseAfterFree <==> self.state == FREED),
    {
        if self.state != READY && self.state != FREED {
            return None;
        }
        if addr < self.base || addr - self.base >= self.total_len || self.total_len > usize::MAX
            - self.base {
            return None;
        }
        let kind = if self.state == FREED {
            FaultKind::UseAfterFree
        } else if addr >= self.guard_addr && addr - self.guard_addr < page && page <= usize::MAX
            - self.guard_addr {
            // A guard page behind the buffer catches overflows, one before it
            // underflows.
            if self.guard_addr >= self.user_ptr {
                FaultKind::Overflow
            } else {
                FaultKind::Underflow
            }
        } else {
            FaultKind::LiveRegion
        };
        Some(
            FaultInfo {
                kind,
                slot: idx,
                base: self.base,
                total_len: self.total_len,
                user_ptr: self.user_ptr,
                size: self.size,
                align: self.align,
            },
        )
    }
}

/// What a look at one slot says to a scan for the region that contains an
/// address.
#[derive(Clone, Copy)]
pub enum ScanStep {
    /// The slot's mapping contains the address.
    Found { info: FaultInfo },
    /// The slot with this number is to be looked at next.
    Next { idx: usize },
    /// No slot is left.
    End,
}

/// The step of a scan for `addr` that looks at `slot`, number `idx` of `cap`.
pub fn scan_step(idx: usize, cap: usize, slot: &Region, addr: usize, page: usize) -> (r: ScanStep)
    requires
        idx < cap,
    ensures
        r == (if slot.covers(addr as int) {
            ScanStep::Found { info: slot.fault_info(idx, addr, page) }
        } else if idx + 1 < cap {
            ScanStep::Next { idx: (idx + 1) as usize }
        } else {
            ScanStep::End
        }),
{
    match slot.fault_at(idx, addr, page) {
        Some(info) => ScanStep::Found { info },
        None => {
            if idx + 1 < cap {
                ScanStep::Next { idx: idx + 1 }
            } else {
                ScanStep::End
            }
        },
    }
}

/// What a scan says that has found nothing.
pub fn wild() -> (info: FaultInfo)
    ensures
        info == model::wild(),
{
    FaultInfo {
        kind: FaultKind::Wild,
        slot: usize::MAX,
        base: 0,
        total_len: 0,
        user_ptr: 0,
        size: 0,
        align: 0,
    }
}

/// What a look at one slot says to a search for a pointer.
#[derive(Clone, Copy, PartialEq, Eq, Debug, Structural)]
pub enum LookupStep {
    /// The slot tracks the pointer, in this state.
    Found { state: u8 },
    /// The next slot of the probe sequence is to be looked at.
    Next,
    /// No slot tracks the pointer.
    Missing,
}

/// A search for a pointer along its probe sequence.
pub struct Lookup {
    ptr: usize,
    cap: usize,
    idx: usize,
    k: usize,
}

impl Lookup {
    /// The search stands at a step of the pointer's probe sequence.
    pub closed spec fn wf(&self) -> bool {
        &&& is_pow2(self.cap as int)
        &&& self.k < self.cap
        &&& self.idx == model::probe(self.ptr, self.cap as int, self.k as int)
        &&& self.idx < self.cap
    }

    /// The pointer searched for.
    pub closed spec fn ptr(&self) -> usize {
        self.ptr
    }

    /// The number of slots.
    pub closed spec fn cap(&self) -> usize {
        self.cap
    }

    /// The step of the probe sequence at which the search stands.
    pub closed spec fn at(&self) -> int {
        self.k as int
    }

    /// A search for `ptr` in a table of `cap` slots.
    pub fn new(ptr: usize, cap: usize) -> (r: Lookup)
        requires
            is_pow2(cap as int),
        ensures
            r.wf(),
            r.ptr() == ptr,
            r.cap() == cap,
            r.at() == 0,
    {
        let h: u64 = hash(ptr);
        proof {
            bits::lemma_mask_is_mod(0, cap);
            bits::lemma_mask_is_mod_u64(h, cap as u64);
            model::lemma_probe_bounds(ptr, cap as int, 0);
            lemma_small_mod(model::home(ptr, cap as int) as nat, cap as nat);
        }
        let idx: usize = (h & ((cap - 1) as u64)) as usize;
        Lookup { ptr, cap, idx, k: 0 }
    }

    /// The slot to look at.
    pub fn slot(&self) -> (idx: usize)
        requires
            self.wf(),
        ensures
            idx == model::probe(self.ptr(), self.cap() as int, self.at()),
            idx < self.cap(),
    {
        self.idx
    }

    /// Takes the state of the slot to look at, and the pointer in it, and says
    /// how the search goes on.
    pub fn step(&mut self, state: u8, user_ptr: usize) -> (r: LookupStep)
        requires
            old(self).wf(),
        ensures
            final(self).wf(),
            final(self).ptr() == old(self).ptr(),
            final(self).cap() == old(self).cap(),
            final(self).at() == old(self).at() + (if r == LookupStep::Next {
                1int
            } else {
                0int
            }),
            r == (if state == EMPTY {
                LookupStep::Missing
            } else if (state == READY || state == FREED) && user_ptr == old(self).ptr() {
                LookupStep::Found { state }
            } else if old(self).at() + 1 < old(self).cap() {
                LookupStep::Next
            } else {
                LookupStep::Missing
            }),
    {
        if state == EMPTY {
            return LookupStep::Missing;
        }
        if (state == READY || state == FREED) && user_ptr == self.ptr {
            return LookupStep::Found { state };
        }
        if self.k + 1 < self.cap {
            proof {
                model::lemma_probe_step(self.ptr, self.cap as int, self.k as int);
                bits::lemma_mask_is_mod((self.idx + 1) as usize, self.cap);
            }
            self.idx = (self.idx + 1) & (self.cap - 1);
            self.k = self.k + 1;
            LookupStep::Next
        } else {
            LookupStep::Missing
        }
    }
}

/// What became of a request to free a pointer that the registry knows.
#[derive(Clone, Copy, PartialEq, Eq, Debug, Structural)]
pub enum FreeOutcome {
    /// The slot is in quarantine now: `seal` has to be made inaccessible, and
    /// `unmap`, the region that left the quarantine for it, unmapped.
    Freed { seal: Span, unmap: Option<Span> },
    /// The slot was freed before and is still in quarantine.
    DoubleFree,
}

/// Bytes that one slot of the table takes.
pub const REGION_BYTES: usize = 312;

/// Bytes that one entry of the quarantine ring takes.
pub const RING_ENTRY_BYTES: usize = 8;

/// Warning that the registry has no vacant slot left.
pub const FULL_WARNING: &'static str = "coffin: registry full (COFFIN_MAX_LIVE reached) \u{2014} falling back to the system allocator (these allocations are NOT fenced)\n";

/// The slots of the registry and the quarantine ring.
pub struct Arena {
    states: Vec<u8>,
    bases: Vec<usize>,
    total_lens: Vec<usize>,
    user_ptrs: Vec<usize>,
    sizes: Vec<usize>,
    aligns: Vec<usize>,
    guard_addrs: Vec<usize>,
    alloc_ips: Vec<[usize; IP_DEPTH]>,
    free_ips: Vec<[usize; IP_DEPTH]>,
    cap: usize,
    mask: usize,
    ring: Vec<usize>,
    q_cap: usize,
    q_tail: usize,
    q_len: usize,
    live: usize,
    evictions: usize,
    full_warned: bool,
}

impl View for Arena {
    type V = ArenaState;

    closed spec fn view(&self) -> ArenaState {
        ArenaState {
            slots: Seq::new(
                self.states@.len(),
                |i: int|
                    Region {
                        state: self.states@[i],
                        base: self.bases@[i],
                        total_len: self.total_lens@[i],
                        user_ptr: self.user_ptrs@[i],
                        size: self.sizes@[i],
                        align: self.aligns@[i],
                        guard_addr: self.guard_addrs@[i],
                        alloc_ips: self.alloc_ips@[i],
                        free_ips: self.free_ips@[i],
                    },
            ),
            quarantine: Seq::new(
                self.q_len as nat,
                |n: int| self.ring@[(self.q_tail + n) % (self.q_cap as int)] as int,
            ),
            q_cap: self.q_cap as nat,
            live: self.live as nat,
            evictions: self.evictions,
            full_warned: self.full_warned,
        }
    }
}

/// A table of `cap` slots with room for `q_cap` quarantined ones can exist.
pub open spec fn table_fits(cap: int, q_cap: int) -> bool {
    cap * REGION_BYTES <= isize::MAX && q_cap * RING_ENTRY_BYTES <= isize::MAX
}

/// Whether a table of `cap` slots with room for `q_cap` quarantined ones can
/// exist.
pub fn can_hold(cap: usize, q_cap: usize) -> (r: bool)
    ensures
        r == table_fits(cap as int, q_cap as int),
{
    match (cap.checked_mul(REGION_BYTES), q_cap.checked_mul(RING_ENTRY_BYTES)) {
        (Some(slots), Some(ring)) => slots <= isize::MAX as usize && ring <= isize::MAX as usize,
        _ => false,
    }
}

impl Arena {
    /// The arrays have the lengths that the capacities call for, and the ring
    /// cursors lie inside the ring.
    pub closed spec fn rep(&self) -> bool {
        &&& self.states@.len() == self.cap
        &&& self.bases@.len() == self.cap
        &&& self.total_lens@.len() == self.cap
        &&& self.user_ptrs@.len() == self.cap
        &&& self.sizes@.len() == self.cap
        &&& self.aligns@.len() == self.cap
        &&& self.guard_addrs@.len() == self.cap
        &&& self.alloc_ips@.len() == self.cap
        &&& self.free_ips@.len() == self.cap
        &&& self.mask == self.cap - 1
        &&& self.ring@.len() == self.q_cap
        &&& self.q_tail < self.q_cap
        &&& self.q_len <= self.q_cap
        &&& self.q_cap * RING_ENTRY_BYTES <= isize::MAX
    }

    /// The arrays agree with each other and the registry's invariant holds.
    pub open spec fn wf(&self) -> bool {
        self.rep() && self@.inv()
    }

    /// An empty registry of `cap` slots that keeps up to `q_cap` freed regions.
    pub fn new(cap: usize, q_cap: usize) -> (arena: Arena)
        requires
            is_pow2(cap as int),
            1 <= q_cap,
            table_fits(cap as int, q_cap as int),
        ensures
            arena.wf(),
            arena@.is_fresh(cap as int, q_cap as int),
    {
        proof {
            bits::lemma_mask_is_mod(0, cap);
        }
        let arena = Arena {
            states: vec![EMPTY; cap],
            bases: vec![0usize; cap],
            total_lens: vec![0usize; cap],
            user_ptrs: vec![0usize; cap],
            sizes: vec![0usize; cap],
            aligns: vec![0usize; cap],
            guard_addrs: vec![0usize; cap],
            alloc_ips: vec![[0usize; IP_DEPTH]; cap],
            free_ips: vec![[0usize; IP_DEPTH]; cap],
            cap,
            mask: cap - 1,
            ring: vec![0usize; q_cap],
            q_cap,
            q_tail: 0,
            q_len: 0,
            live: 0,
            evictions: 0,
            full_warned: false,
        };
        proof {
            assert forall|i: int| 0 <= i < cap implies #[trigger] arena@.slots[i]
                == model::blank() by {
                assert(arena.alloc_ips@[i] =~= [0; IP_DEPTH]);
                assert(arena.free_ips@[i] =~= [0; IP_DEPTH]);
            }
            model::lemma_count_blank(arena@.slots, READY);
            model::lemma_count_blank(arena@.slots, FREED);
            assert(arena@.quarantine =~= Seq::<int>::empty());
        }
        arena
    }

    /// The slot at which the probe sequence of `ptr` starts.
    fn home(&self, ptr: usize) -> (idx: usize)
        requires
            self.wf(),
        ensures
            idx < self.cap,
            idx == model::probe(ptr, self@.slots.len() as int, 0),
    {
        Lookup::new(ptr, self.cap).slot()
    }

    /// The slot after `idx`, cyclically.
    fn next(&self, idx: usize) -> (r: usize)
        requires
            self.wf(),
            idx < self.cap,
        ensures
            r < self.cap,
            r == (idx + 1) % self.cap as int,
    {
        proof {
            bits::lemma_mask_is_mod((idx + 1) as usize, self.cap);
        }
        (idx + 1) & self.mask
    }

    /// The record in slot `idx`.
    pub fn slot(&self, idx: usize) -> (r: Region)
        requires
            self.wf(),
            idx < self@.slots.len(),
        ensures
            r == self@.slots[idx as int],
    {
        Region {
            state: self.states[idx],
            base: self.bases[idx],
            total_len: self.total_lens[idx],
            user_ptr: self.user_ptrs[idx],
            size: self.sizes[idx],
            align: self.aligns[idx],
            guard_addr: self.guard_addrs[idx],
            alloc_ips: self.alloc_ips[idx],
            free_ips: self.free_ips[idx],
        }
    }

    /// Records a fenced allocation in the first vacant slot of its probe
    /// sequence. Returns false, and changes nothing, if the table is full.
    pub fn insert(
        &mut self,
        base: usize,
        total_len: usize,
        user_ptr: usize,
        size: usize,
        align: usize,
        guard_addr: usize,
        alloc_ips: [usize; IP_DEPTH],
    ) -> (inserted: bool)
        requires
            old(self).wf(),
        ensures
            final(self).wf(),
            inserted == (model::vacant_slot(old(self)@.slots, user_ptr) is Some),
            final(self)@ == old(self)@.inserted(
                base,
                total_len,
                user_ptr,
                size,
                align,
                guard_addr,
                alloc_ips,
            ),
    {
        let mut idx: usize = self.home(user_ptr);
        let mut k: usize = 0;
        let cap: usize = self.cap;
        while k < cap
            invariant
                *self == *old(self),
                self.wf(),
                cap == self.cap,
                k <= cap,
                idx < cap,
                k < cap ==> idx == model::probe(user_ptr, cap as int, k as int),
                forall|j: int|
                    0 <= j < k ==> !(#[trigger] self@.slots[model::probe(
                        user_ptr,
                        cap as int,
                        j,
                    )]).vacant(),
            decreases cap - k,
        {
            let st: u8 = self.states[idx];
            if st == EMPTY || st == TOMB {
                proof {
                    assert(self@.slots[idx as int].vacant());
                    assert(model::first_vacant(self@.slots, user_ptr, k as int));
                    model::lemma_vacant_slot(self@.slots, user_ptr, k as int);
                    model::lemma_inserted_inv(
                        self@,
                        base,
                        total_len,
                        user_ptr,
                        size,
                        align,
                        guard_addr,
                        alloc_ips,
                    );
                    model::lemma_counts_bounded(
                        self@.inserted(
                            base,
                            total_len,
                            user_ptr,
                            size,
                            align,
                            guard_addr,
                            alloc_ips,
                        ).slots,
                    );
                }
                self.bases[idx] = base;
                self.total_lens[idx] = total_len;
                self.user_ptrs[idx] = user_ptr;
                self.sizes[idx] = size;
                self.aligns[idx] = align;
                self.guard_addrs[idx] = guard_addr;
                self.alloc_ips[idx] = alloc_ips;
                self.states[idx] = READY;
                self.live = self.live + 1;
                proof {
                    let after = old(self)@.inserted(
                        base,
                        total_len,
                        user_ptr,
                        size,
                        align,
                        guard_addr,
                        alloc_ips,
                    );
                    assert(self@.slots =~= after.slots);
                    assert(self@.quarantine =~= after.quarantine);
                }
                return true;
            }
            proof {
                assert(!self@.slots[idx as int].vacant());
                model::lemma_probe_step(user_ptr, cap as int, k as int);
            }
            idx = self.next(idx);
            k = k + 1;
        }
        proof {
            assert forall|j: int| !model::first_vacant(self@.slots, user_ptr, j) by {}
        }
        false
    }

    /// Looks for the slot that tracks `user_ptr`, along its probe sequence.
    pub fn find_locked(&self, user_ptr: usize) -> (r: Option<usize>)
        requires
            self.wf(),
        ensures
            match r {
                Some(i) => model::find_slot(self@.slots, user_ptr) == Some(i as int)
                    && i < self@.slots.len() && self@.slots[i as int].occupied(),
                None => model::find_slot(self@.slots, user_ptr) is None,
            },
    {
        let mut lookup = Lookup::new(user_ptr, self.cap);
        proof {
            model::lookup_finds_the_slot(self@.slots, user_ptr);
        }
        loop
            invariant
                self.wf(),
                lookup.wf(),
                lookup.ptr() == user_ptr,
                lookup.cap() == self.cap,
                model::lookup_from(self@.slots, user_ptr, lookup.at()) == model::find_slot(
                    self@.slots,
                    user_ptr,
                ),
            decreases self.cap - lookup.at(),
        {
            let idx: usize = lookup.slot();
            let ghost slot = self@.slots[idx as int];
            let ghost k = lookup.at();
            assert(slot.state <= TOMB);
            match lookup.step(self.states[idx], self.user_ptrs[idx]) {
                LookupStep::Found { .. } => {
                    return Some(idx);
                },
                LookupStep::Next => {},
                LookupStep::Missing => {
                    proof {
                        reveal_with_fuel(model::lookup_from, 2);
                    }
                    return None;
                },
            }
        }
    }

    /// Frees the allocation at `user_ptr`, whose mapping has `total_len` bytes:
    /// its slot joins the quarantine, and the oldest member leaves that if it
    /// was full. Returns `None` for a pointer that the registry does not know.
    pub fn free(
        &mut self,
        user_ptr: usize,
        total_len: usize,
        free_ips: [usize; IP_DEPTH],
    ) -> (r: Option<FreeOutcome>)
        requires
            old(self).wf(),
        ensures
            final(self).wf(),
            r == model::free_outcome(old(self)@, user_ptr, total_len),
            final(self)@ == old(self)@.freed(user_ptr, free_ips),
    {
        let idx: usize = match self.find_locked(user_ptr) {
            Some(idx) => idx,
            None => {
                return None;
            },
        };
        let st: u8 = self.states[idx];
        if st == FREED {
            return Some(FreeOutcome::DoubleFree);
        }
        proof {
            assert(self@.slots[idx as int].state == READY);
            model::lemma_retired_inv(self@, idx as int, free_ips);
        }
        let seal = Span { addr: self.bases[idx], len: total_len };
        self.free_ips[idx] = free_ips;
        self.states[idx] = FREED;
        self.live = self.live - 1;
        proof {
            let mid = ArenaState {
                slots: old(self)@.slots.update(
                    idx as int,
                    Region { state: FREED, free_ips, ..old(self)@.slots[idx as int] },
                ),
                live: (old(self)@.live - 1) as nat,
                ..old(self)@
            };
            assert(self@.slots =~= mid.slots);
            assert(self@.quarantine =~= mid.quarantine);
            assert(self@ == mid);
            assert forall|n: int| 0 <= n < self@.quarantine.len() implies 0
                <= #[trigger] self@.quarantine[n] < self.cap by {
                assert(0 <= old(self)@.quarantine[n] < self.cap);
            }
        }
        let unmap = self.quarantine_push(idx);
        proof {
            let q = old(self)@.quarantine;
            if q.len() == old(self)@.q_cap {
                assert(old(self)@.slots[q[0]].state == FREED);
            }
        }
        Some(FreeOutcome::Freed { seal, unmap })
    }

    /// Adds slot `idx` to the quarantine ring. Where the ring is full, the
    /// oldest member is evicted, and its mapping returned.
    fn quarantine_push(&mut self, idx: usize) -> (unmap: Option<Span>)
        requires
            old(self).rep(),
            idx < old(self).cap,
            forall|n: int|
                0 <= n < old(self)@.quarantine.len() ==> 0 <= #[trigger] old(self)@.quarantine[n]
                    < old(self).cap,
        ensures
            final(self).rep(),
            final(self)@ == old(self)@.quarantined(idx as int),
            unmap == (if old(self)@.quarantine.len() == old(self)@.q_cap {
                let victim = old(self)@.slots[old(self)@.quarantine[0]];
                Some(Span { addr: victim.base, len: victim.total_len })
            } else {
                None
            }),
    {
        let tail: usize = self.q_tail;
        let len: usize = self.q_len;
        let q_cap: usize = self.q_cap;
        if len == q_cap {
            let victim: usize = self.ring[tail];
            proof {
                lemma_small_mod(tail as nat, q_cap as nat);
                assert(self@.quarantine[0] == victim);
            }
            let unmap = self.evict(victim);
            self.ring[tail] = idx;
            self.q_tail = (tail + 1) % q_cap;
            proof {
                let after = old(self)@.quarantined(idx as int);
                assert(self@.slots =~= after.slots);
                assert forall|n: int| 0 <= n < len implies #[trigger] self@.quarantine[n]
                    == after.quarantine[n] by {
                    lemma_ring_shift(tail as int, n, q_cap as int);
                    if n < len - 1 {
                        assert(after.quarantine[n] == old(self)@.quarantine[n + 1]);
                    }
                }
                assert(self@.quarantine =~= after.quarantine);
            }
            Some(unmap)
        } else {
            let pos: usize = (tail + len) % q_cap;
            self.ring[pos] = idx;
            self.q_len = len + 1;
            proof {
                let after = old(self)@.quarantined(idx as int);
                assert(self@.slots =~= after.slots);
                assert forall|n: int| 0 <= n < len + 1 implies #[trigger] self@.quarantine[n]
                    == after.quarantine[n] by {
                    lemma_ring_positions(tail as int, n, len as int, q_cap as int);
                    if n < len {
                        assert(after.quarantine[n] == old(self)@.quarantine[n]);
                    }
                }
                assert(self@.quarantine =~= after.quarantine);
            }
            None
        }
    }

    /// Makes a quarantined slot a tombstone and returns its mapping, which is
    /// to be unmapped.
    fn evict(&mut self, idx: usize) -> (unmap: Span)
        requires
            old(self).rep(),
            idx < old(self).cap,
        ensures
            final(self).rep(),
            unmap == (Span {
                addr: old(self)@.slots[idx as int].base,
                len: old(self)@.slots[idx as int].total_len,
            }),
            final(self)@ == (ArenaState {
                slots: old(self)@.slots.update(
                    idx as int,
                    Region { state: TOMB, ..old(self)@.slots[idx as int] },
                ),
                evictions: if old(self)@.evictions == usize::MAX {
                    0
                } else {
                    (old(self)@.evictions + 1) as usize
                },
                ..old(self)@
            }),
            final(self).ring == old(self).ring,
            final(self).q_tail == old(self).q_tail,
            final(self).q_len == old(self).q_len,
            final(self).q_cap == old(self).q_cap,
            final(self).cap == old(self).cap,
    {
        let unmap = Span { addr: self.bases[idx], len: self.total_lens[idx] };
        self.states[idx] = TOMB;
        self.evictions = self.evictions.wrapping_add(1);
        proof {
            assert(self@.slots =~= old(self)@.slots.update(
                idx as int,
                Region { state: TOMB, ..old(self)@.slots[idx as int] },
            ));
            assert(self@.quarantine =~= old(self)@.quarantine);
        }
        unmap
    }

    /// The slot that the next free of a live allocation evicts, if the
    /// quarantine is full.
    pub fn next_victim(&self) -> (r: Option<usize>)
        requires
            self.wf(),
        ensures
            match r {
                Some(i) => self@.quarantine.len() == self@.q_cap && i == self@.quarantine[0],
                None => self@.quarantine.len() < self@.q_cap,
            },
    {
        if self.q_len == self.q_cap {
            proof {
                lemma_small_mod(self.q_tail as nat, self.q_cap as nat);
            }
            Some(self.ring[self.q_tail])
        } else {
            None
        }
    }

    /// The table-full warning, on the first call only.
    pub fn warn_full_once(&mut self) -> (text: Option<&'static str>)
        requires
            old(self).wf(),
        ensures
            final(self).wf(),
            final(self)@ == (ArenaState { full_warned: true, ..old(self)@ }),
            old(self)@.full_warned ==> text is None,
            !old(self)@.full_warned ==> (text matches Some(t) && t@ == FULL_WARNING@),
    {
        if self.full_warned {
            proof {
                assert(self@ =~= ArenaState { full_warned: true, ..old(self)@ });
            }
            None
        } else {
            self.full_warned = true;
            proof {
                assert(self@.slots =~= old(self)@.slots);
                assert(self@.quarantine =~= old(self)@.quarantine);
            }
            Some(FULL_WARNING)
        }
    }

    /// The state of the slot that tracks `user_ptr`, if there is one.
    pub fn state_of(&self, user_ptr: usize) -> (r: Option<u8>)
        requires
            self.wf(),
        ensures
            r == (match model::find_slot(self@.slots, user_ptr) {
                Some(i) => Some(self@.slots[i].state),
                None => None,
            }),
    {
        match self.find_locked(user_ptr) {
            Some(idx) => Some(self.states[idx]),
            None => None,
        }
    }

    /// Scans the whole table for the region that contains `addr`, and says how
    /// an access there goes wrong. `page` is the length of a guard page.
    pub fn classify(&self, addr: usize, page: usize) -> (info: FaultInfo)
        requires
            self.wf(),
        ensures
            info == model::fault_info(self@.slots, addr, page),
    {
        proof {
            model::scan_finds_the_fault(self@.slots, addr, page);
        }
        let mut idx: usize = 0;
        loop
            invariant
                self.wf(),
                idx < self.cap,
                model::scan_from(self@.slots, addr, page, idx as int) == model::fault_info(
                    self@.slots,
                    addr,
                    page,
                ),
            decreases self.cap - idx,
        {
            match scan_step(idx, self.cap, &self.slot(idx), addr, page) {
                ScanStep::Found { info } => {
                    return info;
                },
                ScanStep::Next { idx: next } => {
                    idx = next;
                },
                ScanStep::End => {
                    proof {
                        reveal_with_fuel(model::scan_from, 2);
                    }
                    return wild();
                },
            }
        }
    }

    /// The call stack kept in slot `idx`: that of the free if `free`, else that
    /// of the allocation. All zeroes for a slot that does not exist.
    pub fn read_ips(&self, idx: usize, free: bool) -> (ips: [usize; IP_DEPTH])
        requires
            self.wf(),
        ensures
            ips == model::stack_of(self@.slots, idx as int, free),
    {
        if idx >= self.cap {
            return [0; IP_DEPTH];
        }
        if free {
            self.free_ips[idx]
        } else {
            self.alloc_ips[idx]
        }
    }

    /// Number of allocations that are live.
    pub fn live_count(&self) -> (n: usize)
        ensures
            n == self@.live,
    {
        self.live
    }

    /// Number of regions evicted from quarantine so far.
    pub fn eviction_count(&self) -> (n: usize)
        ensures
            n == self@.evictions,
    {
        self.evictions
    }

    /// Number of regions in quarantine.
    pub fn quarantine_len(&self) -> (n: usize)
        ensures
            n == self@.quarantine.len(),
    {
        self.q_len
    }
}

/// Moving the ring's tail by one renumbers its entries by one.
proof fn lemma_ring_shift(tail: int, n: int, q_cap: int)
    requires
        0 <= tail < q_cap,
        0 <= n < q_cap,
    ensures
        ((tail + 1) % q_cap + n) % q_cap == (tail + (n + 1)) % q_cap,
        0 <= (tail + (n + 1)) % q_cap < q_cap,
        (tail + (n + 1)) % q_cap == tail <==> n == q_cap - 1,
{
    lemma_add_mod_noop_right(n, tail + 1, q_cap);
    let x = tail + (n + 1);
    if x < q_cap {
        lemma_small_mod(x as nat, q_cap as nat);
    } else {
        lemma_mod_sub_multiples_vanish(x, q_cap);
        lemma_small_mod((x - q_cap) as nat, q_cap as nat);
    }
}

/// Distinct entries of the ring have distinct positions.
proof fn lemma_ring_positions(tail: int, n: int, m: int, q_cap: int)
    requires
        0 <= tail < q_cap,
        0 <= n <= m < q_cap,
    ensures
        0 <= (tail + n) % q_cap < q_cap,
        (tail + n) % q_cap == (tail + m) % q_cap <==> n == m,
{
    lemma_ring_position(tail, n, q_cap);
    lemma_ring_position(tail, m, q_cap);
}

proof fn lemma_ring_position(tail: int, n: int, q_cap: int)
    requires
        0 <= tail < q_cap,
        0 <= n < q_cap,
    ensures
        (tail + n) % q_cap == if tail + n < q_cap {
            tail + n
        } else {
            tail + n - q_cap
        },
{
    let x = tail + n;
    if x < q_cap {
        lemma_small_mod(x as nat, q_cap as nat);
    } else {
        lemma_mod_sub_multiples_vanish(x, q_cap);
        lemma_small_mod((x - q_cap) as nat, q_cap as nat);
    }
}

/// A call stack as a stack walk hands it over, frame by frame.
pub struct IpCapture {
    ips: [usize; IP_DEPTH],
    depth: usize,
}

/// The stack that is kept of `frames`: zeroes stand for frames that there are
/// not.
pub open spec fn padded(frames: Seq<usize>) -> Seq<usize> {
    Seq::new(
        IP_DEPTH as nat,
        |i: int|
            if i < frames.len() {
                frames[i]
            } else {
                0
            },
    )
}

/// The frames that are kept once `ip` has come after `frames`.
pub open spec fn kept(frames: Seq<usize>, ip: usize) -> Seq<usize> {
    if frames.len() < IP_DEPTH {
        frames.push(ip)
    } else {
        frames
    }
}

impl IpCapture {
    /// No more frames than are kept, and zeroes after them.
    pub closed spec fn wf(&self) -> bool {
        &&& self.depth <= IP_DEPTH
        &&& forall|i: int| self.depth <= i < IP_DEPTH ==> self.ips@[i] == 0
    }

    /// The frames kept so far.
    pub closed spec fn frames(&self) -> Seq<usize> {
        self.ips@.take(self.depth as int)
    }

    /// A capture before the walk.
    pub fn new() -> (c: IpCapture)
        ensures
            c.wf(),
            c.frames() == Seq::<usize>::empty(),
    {
        let c = IpCapture { ips: [0; IP_DEPTH], depth: 0 };
        proof {
            assert(c.frames() =~= Seq::<usize>::empty());
        }
        c
    }

    /// Takes the next frame. Returns whether the walk is to go on: frames beyond
    /// the depth that is kept are dropped.
    pub fn push(&mut self, ip: usize) -> (more: bool)
        requires
            old(self).wf(),
        ensures
            final(self).wf(),
            more == (old(self).frames().len() < IP_DEPTH),
            final(self).frames() == kept(old(self).frames(), ip),
            final(self).frames() == (if more {
                old(self).frames().push(ip)
            } else {
                old(self).frames()
            }),
    {
        if self.depth < IP_DEPTH {
            self.ips[self.depth] = ip;
            self.depth = self.depth + 1;
            proof {
                assert(self.frames() =~= old(self).frames().push(ip));
            }
            true
        } else {
            false
        }
    }

    /// The stack that was captured.
    pub fn finish(&self) -> (ips: [usize; IP_DEPTH])
        requires
            self.wf(),
        ensures
            ips@ == padded(self.frames()),
    {
        proof {
            assert(self.ips@ =~= padded(self.frames()));
        }
        self.ips
    }
}

/// Fibonacci hash of a pointer.
pub fn hash(ptr: usize) -> (h: u64)
    ensures
        h == (ptr * HASH_MULTIPLIER) % 0x1_0000_0000_0000_0000,
{
    (ptr as u64).wrapping_mul(HASH_MULTIPLIER)
}

} // verus!
