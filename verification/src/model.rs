//! Mathematical model of the registry: a table of slots, the probe order in
//! which a pointer visits them, and the quarantine as a queue, oldest first.

use vstd::prelude::*;
use vstd::arithmetic::div_mod::*;
use vstd::arithmetic::power2::*;
use crate::region::Span;
use crate::registry::{
    FaultInfo, FaultKind, FreeOutcome, Region, EMPTY, FREED, HASH_MULTIPLIER, IP_DEPTH, READY, TOMB,
};

verus! {

/// What the registry holds, apart from how it is stored.
#[verifier::ext_equal]
pub struct ArenaState {
    /// Every slot of the table, vacant ones included.
    pub slots: Seq<Region>,
    /// Indices of the freed slots, in the order in which they were freed.
    pub quarantine: Seq<int>,
    /// Greatest number of freed slots kept at a time.
    pub q_cap: nat,
    /// Number of allocations that are live.
    pub live: nat,
    /// Number of regions evicted so far, modulo the counter's width.
    pub evictions: usize,
    /// Whether the table-full warning has been given.
    pub full_warned: bool,
}

impl Region {
    /// The slot holds an allocation, live or quarantined.
    pub open spec fn occupied(self) -> bool {
        self.state == READY || self.state == FREED
    }

    /// The slot can take a new allocation.
    pub open spec fn vacant(self) -> bool {
        self.state == EMPTY || self.state == TOMB
    }

    /// The slot's mapping is tracked and contains `addr`. A record whose end is
    /// not an address is no mapping, and contains nothing.
    pub open spec fn covers(self, addr: int) -> bool {
        &&& self.occupied()
        &&& self.base <= addr < self.base + self.total_len
        &&& self.base + self.total_len <= usize::MAX
    }

    /// Both mappings are tracked and share an address.
    pub open spec fn overlaps(self, other: Region) -> bool {
        exists|addr: int| #[trigger] self.covers(addr) && other.covers(addr)
    }

    /// How an access to `addr`, in the slot's mapping, goes wrong. A guard page
    /// whose end is not an address guards nothing.
    pub open spec fn fault_kind(self, addr: int, page: int) -> FaultKind {
        if self.state == FREED {
            FaultKind::UseAfterFree
        } else if self.guard_addr <= addr < self.guard_addr + page <= usize::MAX {
            if self.guard_addr >= self.user_ptr {
                FaultKind::Overflow
            } else {
                FaultKind::Underflow
            }
        } else {
            FaultKind::LiveRegion
        }
    }

    /// What the scan says of `addr` if slot number `idx`, this one, covers it.
    pub open spec fn fault_info(self, idx: usize, addr: usize, page: usize) -> FaultInfo {
        FaultInfo {
            kind: self.fault_kind(addr as int, page as int),
            slot: idx,
            base: self.base,
            total_len: self.total_len,
            user_ptr: self.user_ptr,
            size: self.size,
            align: self.align,
        }
    }
}

/// The slot at which the probe sequence of `ptr` starts in a table of `cap`
/// slots.
pub open spec fn home(ptr: usize, cap: int) -> int {
    (ptr * HASH_MULTIPLIER) % 0x1_0000_0000_0000_0000 % cap
}

/// The slot that `ptr` visits at step `k` of its probe sequence.
pub open spec fn probe(ptr: usize, cap: int, k: int) -> int {
    (home(ptr, cap) + k) % cap
}

/// Step `k` is the first of the probe sequence of `ptr` that finds a vacant
/// slot.
pub open spec fn first_vacant(slots: Seq<Region>, ptr: usize, k: int) -> bool {
    let cap = slots.len() as int;
    &&& 0 <= k < cap
    &&& slots[probe(ptr, cap, k)].vacant()
    &&& forall|j: int| 0 <= j < k ==> !(#[trigger] slots[probe(ptr, cap, j)]).vacant()
}

/// The slot stops a search for `ptr`: it never held anything, or it tracks
/// `ptr`.
pub open spec fn stops(slot: Region, ptr: usize) -> bool {
    slot.state == EMPTY || slot.occupied() && slot.user_ptr == ptr
}

/// Step `k` is the first of the probe sequence of `ptr` that stops a search.
pub open spec fn first_stop(slots: Seq<Region>, ptr: usize, k: int) -> bool {
    let cap = slots.len() as int;
    &&& 0 <= k < cap
    &&& stops(slots[probe(ptr, cap, k)], ptr)
    &&& forall|j: int| 0 <= j < k ==> !stops(#[trigger] slots[probe(ptr, cap, j)], ptr)
}

/// Slot `i` is the first of the table whose mapping contains `addr`.
pub open spec fn first_cover(slots: Seq<Region>, addr: int, i: int) -> bool {
    &&& 0 <= i < slots.len()
    &&& slots[i].covers(addr)
    &&& forall|j: int| 0 <= j < i ==> !(#[trigger] slots[j]).covers(addr)
}

/// The slot that a new allocation at `ptr` takes, if there is one.
pub open spec fn vacant_slot(slots: Seq<Region>, ptr: usize) -> Option<int> {
    if exists|k: int| first_vacant(slots, ptr, k) {
        Some(probe(ptr, slots.len() as int, choose|k: int| first_vacant(slots, ptr, k)))
    } else {
        None
    }
}

/// The slot that a search for `ptr` finds, if it finds one.
pub open spec fn find_slot(slots: Seq<Region>, ptr: usize) -> Option<int> {
    if exists|k: int| first_stop(slots, ptr, k) {
        let i = probe(ptr, slots.len() as int, choose|k: int| first_stop(slots, ptr, k));
        if slots[i].occupied() {
            Some(i)
        } else {
            None
        }
    } else {
        None
    }
}

/// What the fault scan says of `addr`.
pub open spec fn fault_info(slots: Seq<Region>, addr: usize, page: usize) -> FaultInfo {
    if exists|i: int| first_cover(slots, addr as int, i) {
        let i = choose|i: int| first_cover(slots, addr as int, i);
        slots[i].fault_info(i as usize, addr, page)
    } else {
        wild()
    }
}

/// The call stack that slot `i` keeps, of its free or of its allocation.
pub open spec fn stack_of(slots: Seq<Region>, i: int, free: bool) -> [usize; IP_DEPTH] {
    if i >= slots.len() {
        [0; IP_DEPTH]
    } else if free {
        slots[i].free_ips
    } else {
        slots[i].alloc_ips
    }
}

/// What a request to free `user_ptr` is answered: `None` if the pointer is
/// unknown, else whether it was live, with what is then to be sealed and
/// unmapped.
pub open spec fn free_outcome(s: ArenaState, user_ptr: usize, total_len: usize) -> Option<
    FreeOutcome,
> {
    match find_slot(s.slots, user_ptr) {
        Some(i) => if s.slots[i].state == FREED {
            Some(FreeOutcome::DoubleFree)
        } else {
            Some(
                FreeOutcome::Freed {
                    seal: Span { addr: s.slots[i].base, len: total_len },
                    unmap: if s.quarantine.len() == s.q_cap {
                        let victim = s.slots[s.quarantine[0]];
                        Some(Span { addr: victim.base, len: victim.total_len })
                    } else {
                        None
                    },
                },
            )
        },
        None => None,
    }
}

/// How many slots are in `state`.
pub open spec fn count_state(slots: Seq<Region>, state: u8) -> nat
    decreases slots.len(),
{
    if slots.len() == 0 {
        0
    } else {
        count_state(slots.drop_last(), state) + if slots.last().state == state {
            1nat
        } else {
            0nat
        }
    }
}

/// Slot `i` is reached at step `d` of its pointer's probe sequence, and no
/// earlier step finds a slot that never held anything.
pub open spec fn reached(slots: Seq<Region>, i: int, d: int) -> bool {
    let cap = slots.len() as int;
    let ptr = slots[i].user_ptr;
    &&& 0 <= d < cap
    &&& probe(ptr, cap, d) == i
    &&& forall|j: int| 0 <= j < d ==> (#[trigger] slots[probe(ptr, cap, j)]).state != EMPTY
}

impl ArenaState {
    /// What holds of the registry at all times.
    pub open spec fn inv(self) -> bool {
        &&& 0 < self.slots.len() <= usize::MAX
        &&& is_pow2(self.slots.len() as int)
        &&& forall|i: int| 0 <= i < self.slots.len() ==> (#[trigger] self.slots[i]).state <= TOMB
        &&& forall|i: int|
            0 <= i < self.slots.len() && (#[trigger] self.slots[i]).occupied() ==> exists|d: int|
                reached(self.slots, i, d)
        &&& self.live == count_state(self.slots, READY)
        &&& self.quarantine.len() == count_state(self.slots, FREED)
        &&& 1 <= self.q_cap
        &&& self.quarantine.len() <= self.q_cap
        &&& self.quarantine.no_duplicates()
        &&& forall|n: int|
            0 <= n < self.quarantine.len() ==> {
                &&& 0 <= (#[trigger] self.quarantine[n]) < self.slots.len()
                &&& self.slots[self.quarantine[n]].state == FREED
            }
        &&& forall|i: int|
            0 <= i < self.slots.len() && (#[trigger] self.slots[i]).state == FREED
                ==> self.quarantine.contains(i)
    }

    /// The registry before anything was recorded.
    pub open spec fn is_fresh(self, cap: int, q_cap: int) -> bool {
        &&& self.slots.len() == cap
        &&& forall|i: int| 0 <= i < cap ==> #[trigger] self.slots[i] == blank()
        &&& self.quarantine == Seq::<int>::empty()
        &&& self.q_cap == q_cap
        &&& self.live == 0
        &&& self.evictions == 0
        &&& !self.full_warned
    }

    /// The registry after recording a new allocation, which leaves it as it is
    /// if no slot is vacant.
    pub open spec fn inserted(
        self,
        base: usize,
        total_len: usize,
        user_ptr: usize,
        size: usize,
        align: usize,
        guard_addr: usize,
        alloc_ips: [usize; IP_DEPTH],
    ) -> ArenaState {
        match vacant_slot(self.slots, user_ptr) {
            Some(i) => ArenaState {
                slots: self.slots.update(
                    i,
                    Region {
                        state: READY,
                        base,
                        total_len,
                        user_ptr,
                        size,
                        align,
                        guard_addr,
                        alloc_ips,
                        free_ips: self.slots[i].free_ips,
                    },
                ),
                live: self.live + 1,
                ..self
            },
            None => self,
        }
    }

    /// The registry after slot `i` has joined the quarantine: where that was
    /// full, its oldest member has left it and become a tombstone.
    pub open spec fn quarantined(self, i: int) -> ArenaState {
        if self.quarantine.len() == self.q_cap {
            let victim = self.quarantine[0];
            ArenaState {
                slots: self.slots.update(victim, Region { state: TOMB, ..self.slots[victim] }),
                quarantine: self.quarantine.drop_first().push(i),
                evictions: if self.evictions == usize::MAX {
                    0
                } else {
                    (self.evictions + 1) as usize
                },
                ..self
            }
        } else {
            ArenaState { quarantine: self.quarantine.push(i), ..self }
        }
    }

    /// The registry after live slot `i` has been freed.
    pub open spec fn retired(self, i: int, free_ips: [usize; IP_DEPTH]) -> ArenaState {
        ArenaState {
            slots: self.slots.update(i, Region { state: FREED, free_ips, ..self.slots[i] }),
            live: (self.live - 1) as nat,
            ..self
        }.quarantined(i)
    }

    /// The registry after a request to free `user_ptr`, which changes nothing
    /// if the pointer is unknown or was freed before.
    pub open spec fn freed(self, user_ptr: usize, free_ips: [usize; IP_DEPTH]) -> ArenaState {
        match find_slot(self.slots, user_ptr) {
            Some(i) => if self.slots[i].state == FREED {
                self
            } else {
                self.retired(i, free_ips)
            },
            None => self,
        }
    }
}

/// A slot of a table that was never used.
pub open spec fn blank() -> Region {
    Region {
        state: EMPTY,
        base: 0,
        total_len: 0,
        user_ptr: 0,
        size: 0,
        align: 0,
        guard_addr: 0,
        alloc_ips: [0; IP_DEPTH],
        free_ips: [0; IP_DEPTH],
    }
}

/// At most one step is the first that finds a vacant slot.
pub proof fn lemma_vacant_slot(slots: Seq<Region>, ptr: usize, k: int)
    requires
        first_vacant(slots, ptr, k),
    ensures
        vacant_slot(slots, ptr) == Some(probe(ptr, slots.len() as int, k)),
{
    let c = choose|c: int| first_vacant(slots, ptr, c);
    assert(first_vacant(slots, ptr, c));
    let cap = slots.len() as int;
    if c < k {
        assert(!slots[probe(ptr, cap, c)].vacant());
    } else if k < c {
        assert(!slots[probe(ptr, cap, k)].vacant());
    }
}

/// At most one step is the first that stops a search.
pub proof fn lemma_find_slot(slots: Seq<Region>, ptr: usize, k: int)
    requires
        first_stop(slots, ptr, k),
    ensures
        find_slot(slots, ptr) == (if slots[probe(ptr, slots.len() as int, k)].occupied() {
            Some(probe(ptr, slots.len() as int, k))
        } else {
            None
        }),
{
    let c = choose|c: int| first_stop(slots, ptr, c);
    assert(first_stop(slots, ptr, c));
    let cap = slots.len() as int;
    if c < k {
        assert(!stops(slots[probe(ptr, cap, c)], ptr));
    } else if k < c {
        assert(!stops(slots[probe(ptr, cap, k)], ptr));
    }
}

/// A search finds a slot that tracks the pointer.
pub proof fn lemma_found_is_occupied(slots: Seq<Region>, ptr: usize)
    ensures
        find_slot(slots, ptr) matches Some(i) ==> {
            &&& 0 <= i < slots.len()
            &&& slots[i].occupied()
            &&& slots[i].user_ptr == ptr
        },
{
    if exists|k: int| first_stop(slots, ptr, k) {
        let k = choose|k: int| first_stop(slots, ptr, k);
        lemma_probe_bounds(ptr, slots.len() as int, k);
    }
}

/// At most one slot is the first whose mapping contains an address.
pub proof fn lemma_first_cover(slots: Seq<Region>, addr: int, i: int)
    requires
        first_cover(slots, addr, i),
    ensures
        (choose|c: int| first_cover(slots, addr, c)) == i,
{
    let c = choose|c: int| first_cover(slots, addr, c);
    assert(first_cover(slots, addr, c));
    if c < i {
        assert(!slots[c].covers(addr));
    } else if i < c {
        assert(!slots[i].covers(addr));
    }
}

/// A probe sequence stays inside the table.
pub proof fn lemma_probe_bounds(ptr: usize, cap: int, k: int)
    requires
        0 < cap,
    ensures
        0 <= home(ptr, cap) < cap,
        0 <= probe(ptr, cap, k) < cap,
{
    let h = (ptr * HASH_MULTIPLIER) % 0x1_0000_0000_0000_0000;
    lemma_mod_bound(h, cap);
    lemma_mod_bound(home(ptr, cap) + k, cap);
}

/// Consecutive steps of a probe sequence visit consecutive slots, cyclically.
pub proof fn lemma_probe_step(ptr: usize, cap: int, k: int)
    requires
        0 < cap,
    ensures
        probe(ptr, cap, k + 1) == (probe(ptr, cap, k) + 1) % cap,
{
    lemma_add_mod_noop_right(1, home(ptr, cap) + k, cap);
}

/// Within one round, every slot is visited.
pub proof fn lemma_probe_reaches(ptr: usize, cap: int, i: int) -> (k: int)
    requires
        0 <= i < cap,
    ensures
        0 <= k < cap,
        probe(ptr, cap, k) == i,
{
    lemma_probe_bounds(ptr, cap, 0);
    let h = home(ptr, cap);
    if i >= h {
        lemma_small_mod(i as nat, cap as nat);
        i - h
    } else {
        lemma_small_mod(i as nat, cap as nat);
        lemma_mod_add_multiples_vanish(i, cap);
        i - h + cap
    }
}

/// Overwriting a slot moves it from its old state's count to its new one's.
pub proof fn lemma_count_update(slots: Seq<Region>, i: int, r: Region, state: u8)
    requires
        0 <= i < slots.len(),
    ensures
        count_state(slots.update(i, r), state) == count_state(slots, state) - (if slots[i].state
            == state {
            1int
        } else {
            0int
        }) + (if r.state == state {
            1int
        } else {
            0int
        }),
    decreases slots.len(),
{
    let last = slots.len() - 1;
    if i == last {
        assert(slots.update(i, r).drop_last() =~= slots.drop_last());
    } else {
        assert(slots.update(i, r).drop_last() =~= slots.drop_last().update(i, r));
        lemma_count_update(slots.drop_last(), i, r, state);
    }
}

/// A slot in a state is counted.
pub proof fn lemma_count_positive(slots: Seq<Region>, i: int, state: u8)
    requires
        0 <= i < slots.len(),
        slots[i].state == state,
    ensures
        count_state(slots, state) > 0,
    decreases slots.len(),
{
    if i < slots.len() - 1 {
        lemma_count_positive(slots.drop_last(), i, state);
    }
}

/// Live and freed slots together are no more than there are slots.
pub proof fn lemma_counts_bounded(slots: Seq<Region>)
    ensures
        count_state(slots, READY) + count_state(slots, FREED) <= slots.len(),
    decreases slots.len(),
{
    if slots.len() > 0 {
        lemma_counts_bounded(slots.drop_last());
    }
}

/// No slot of an unused table is live or freed.
pub proof fn lemma_count_blank(slots: Seq<Region>, state: u8)
    requires
        state != EMPTY,
        forall|i: int| 0 <= i < slots.len() ==> (#[trigger] slots[i]).state == EMPTY,
    ensures
        count_state(slots, state) == 0,
    decreases slots.len(),
{
    if slots.len() > 0 {
        assert(slots.last().state == EMPTY);
        lemma_count_blank(slots.drop_last(), state);
    }
}

/// Recording an allocation keeps the invariant.
pub proof fn lemma_inserted_inv(
    s: ArenaState,
    base: usize,
    total_len: usize,
    user_ptr: usize,
    size: usize,
    align: usize,
    guard_addr: usize,
    alloc_ips: [usize; IP_DEPTH],
)
    requires
        s.inv(),
    ensures
        s.inserted(base, total_len, user_ptr, size, align, guard_addr, alloc_ips).inv(),
{
    let t = s.inserted(base, total_len, user_ptr, size, align, guard_addr, alloc_ips);
    if vacant_slot(s.slots, user_ptr) is Some {
        let cap = s.slots.len() as int;
        let k = choose|k: int| first_vacant(s.slots, user_ptr, k);
        let i = probe(user_ptr, cap, k);
        lemma_probe_bounds(user_ptr, cap, k);
        lemma_count_update(s.slots, i, t.slots[i], READY);
        lemma_count_update(s.slots, i, t.slots[i], FREED);
        assert forall|j: int| 0 <= j < cap && (#[trigger] t.slots[j]).occupied() implies exists|d: int|
            reached(t.slots, j, d) by {
            if j == i {
                assert forall|e: int| 0 <= e < k implies (#[trigger] t.slots[probe(
                    user_ptr,
                    cap,
                    e,
                )]).state != EMPTY by {
                    assert(!s.slots[probe(user_ptr, cap, e)].vacant());
                    lemma_probe_bounds(user_ptr, cap, e);
                }
                assert(reached(t.slots, j, k));
            } else {
                assert(s.slots[j].occupied());
                let d = choose|d: int| reached(s.slots, j, d);
                lemma_reached_after_update(s.slots, i, t.slots[i], j, d);
            }
        }
        assert forall|n: int| 0 <= n < t.quarantine.len() implies {
            &&& 0 <= (#[trigger] t.quarantine[n]) < t.slots.len()
            &&& t.slots[t.quarantine[n]].state == FREED
        } by {
            assert(s.slots[s.quarantine[n]].state == FREED);
        }
    }
}

/// Overwriting one slot with a used one leaves every other slot reached.
proof fn lemma_reached_after_update(slots: Seq<Region>, i: int, r: Region, j: int, d: int)
    requires
        0 <= i < slots.len(),
        0 <= j < slots.len(),
        r.state != EMPTY,
        i != j || r.user_ptr == slots[i].user_ptr,
        reached(slots, j, d),
    ensures
        reached(slots.update(i, r), j, d),
{
    let cap = slots.len() as int;
    let after = slots.update(i, r);
    let ptr = slots[j].user_ptr;
    assert(after[j].user_ptr == ptr);
    assert forall|e: int| 0 <= e < d implies (#[trigger] after[probe(ptr, cap, e)]).state
        != EMPTY by {
        lemma_probe_bounds(ptr, cap, e);
        assert(slots[probe(ptr, cap, e)].state != EMPTY);
    }
}

/// Freeing a live slot keeps the invariant.
pub proof fn lemma_retired_inv(s: ArenaState, i: int, free_ips: [usize; IP_DEPTH])
    requires
        s.inv(),
        0 <= i < s.slots.len(),
        s.slots[i].state == READY,
    ensures
        s.live > 0,
        !s.quarantine.contains(i),
        s.retired(i, free_ips).inv(),
{
    let cap = s.slots.len() as int;
    let r = Region { state: FREED, free_ips, ..s.slots[i] };
    let mid = s.slots.update(i, r);
    lemma_count_positive(s.slots, i, READY);
    lemma_count_update(s.slots, i, r, READY);
    lemma_count_update(s.slots, i, r, FREED);
    assert(!s.quarantine.contains(i));
    assert forall|j: int| 0 <= j < cap && (#[trigger] mid[j]).occupied() implies exists|d: int|
        reached(mid, j, d) by {
        assert(s.slots[j].occupied());
        let d = choose|d: int| reached(s.slots, j, d);
        lemma_reached_after_update(s.slots, i, r, j, d);
    }
    let t = s.retired(i, free_ips);
    if s.quarantine.len() == s.q_cap {
        let v = s.quarantine[0];
        let tomb = Region { state: TOMB, ..mid[v] };
        assert(s.slots[v].state == FREED);
        lemma_count_update(mid, v, tomb, READY);
        lemma_count_update(mid, v, tomb, FREED);
        assert(t.slots == mid.update(v, tomb));
        assert forall|j: int| 0 <= j < cap && (#[trigger] t.slots[j]).occupied() implies exists|d: int|
            reached(t.slots, j, d) by {
            assert(mid[j].occupied());
            let d = choose|d: int| reached(mid, j, d);
            lemma_reached_after_update(mid, v, tomb, j, d);
        }
    }
    assert forall|j: int| 0 <= j < cap && (#[trigger] t.slots[j]).state
        == FREED implies t.quarantine.contains(j) by {
        let last = t.quarantine.len() - 1;
        if j == i {
            assert(t.quarantine[last] == i);
        } else {
            assert(s.slots[j].state == FREED);
            let n = choose|n: int| 0 <= n < s.quarantine.len() && s.quarantine[n] == j;
            if s.quarantine.len() == s.q_cap {
                assert(n > 0);
                assert(t.quarantine[n - 1] == j);
            } else {
                assert(t.quarantine[n] == j);
            }
        }
    }
}

/// What the scan says where it finds nothing.
pub open spec fn wild() -> FaultInfo {
    FaultInfo {
        kind: FaultKind::Wild,
        slot: usize::MAX,
        base: 0,
        total_len: 0,
        user_ptr: 0,
        size: 0,
        align: 0,
    }
}

/// What is found by looking at the slots one after the other, from `idx` on.
pub open spec fn scan_from(slots: Seq<Region>, addr: usize, page: usize, idx: int) -> FaultInfo
    decreases slots.len() - idx,
{
    if idx >= slots.len() {
        wild()
    } else if slots[idx].covers(addr as int) {
        slots[idx].fault_info(idx as usize, addr, page)
    } else {
        scan_from(slots, addr, page, idx + 1)
    }
}

/// Looking at all slots one after the other finds what there is to find.
pub proof fn scan_finds_the_fault(slots: Seq<Region>, addr: usize, page: usize)
    ensures
        scan_from(slots, addr, page, 0) == fault_info(slots, addr, page),
{
    lemma_scan_from(slots, addr, page, 0);
}

proof fn lemma_scan_from(slots: Seq<Region>, addr: usize, page: usize, idx: int)
    requires
        0 <= idx <= slots.len(),
        forall|j: int| 0 <= j < idx ==> !(#[trigger] slots[j]).covers(addr as int),
    ensures
        scan_from(slots, addr, page, idx) == fault_info(slots, addr, page),
    decreases slots.len() - idx,
{
    if idx < slots.len() {
        if slots[idx].covers(addr as int) {
            assert(first_cover(slots, addr as int, idx));
            lemma_first_cover(slots, addr as int, idx);
        } else {
            lemma_scan_from(slots, addr, page, idx + 1);
        }
    } else {
        assert forall|i: int| !first_cover(slots, addr as int, i) by {}
    }
}

/// What is found by going along the probe sequence of `ptr`, from step `k` on.
pub open spec fn lookup_from(slots: Seq<Region>, ptr: usize, k: int) -> Option<int>
    decreases slots.len() - k,
{
    let i = probe(ptr, slots.len() as int, k);
    if k >= slots.len() {
        None
    } else if stops(slots[i], ptr) {
        if slots[i].occupied() {
            Some(i)
        } else {
            None
        }
    } else {
        lookup_from(slots, ptr, k + 1)
    }
}

/// Going along the probe sequence from its start finds what a search finds.
pub proof fn lookup_finds_the_slot(slots: Seq<Region>, ptr: usize)
    ensures
        lookup_from(slots, ptr, 0) == find_slot(slots, ptr),
{
    lemma_lookup_from(slots, ptr, 0);
}

proof fn lemma_lookup_from(slots: Seq<Region>, ptr: usize, k: int)
    requires
        0 <= k <= slots.len(),
        forall|j: int|
            0 <= j < k ==> !stops(#[trigger] slots[probe(ptr, slots.len() as int, j)], ptr),
    ensures
        lookup_from(slots, ptr, k) == find_slot(slots, ptr),
    decreases slots.len() - k,
{
    let i = probe(ptr, slots.len() as int, k);
    if k < slots.len() {
        if stops(slots[i], ptr) {
            assert(first_stop(slots, ptr, k));
            lemma_find_slot(slots, ptr, k);
        } else {
            lemma_lookup_from(slots, ptr, k + 1);
        }
    } else {
        assert forall|j: int| !first_stop(slots, ptr, j) by {}
    }
}

} // verus!
