//! What the words of the contracts come down to, in numbers, bytes and
//! characters.
//!
//! Contracts speak of mappings that cover an address, of fenceable requests, of
//! the text of a report. Here it is stated, of each, what that means for the
//! numbers that go in and the numbers and characters that come out.

use vstd::prelude::*;
use vstd::arithmetic::div_mod::*;
use vstd::arithmetic::power2::*;
use crate::allocator;
use crate::bits;
use crate::config::Mode;
use crate::handler;
use crate::laws;
use crate::model::{self, ArenaState};
use crate::region::{self, Fenced, Layout};
use crate::registry::{self, FaultKind, FreeOutcome, Region, IP_DEPTH};

verus! {

// ------------------------------ the registry ------------------------------

/// The bytes from `base` up to `base + total_len` are tracked by the slot, and
/// `addr` is one of them. States one and two are those of a slot that holds an
/// allocation.
pub open spec fn tracks(slot: Region, addr: int) -> bool {
    &&& slot.state == 1 || slot.state == 2
    &&& slot.base <= addr
    &&& addr < slot.base + slot.total_len
    &&& slot.base + slot.total_len <= usize::MAX
}

/// A slot covers exactly the addresses of the mapping it tracks, all of them:
/// the buffer, the guard page, and what lies beside them.
pub proof fn mapping_is_covered(slot: Region, addr: int)
    ensures
        slot.covers(addr) <==> tracks(slot, addr),
        slot.occupied() <==> slot.state == 1 || slot.state == 2,
        slot.vacant() <==> slot.state == 0 || slot.state == 3,
{
}

/// What a fault at a tracked address is called: use after free in a freed
/// region; in a live one overflow on a guard page behind the buffer, underflow on
/// one before it, and a fault inside the region anywhere else.
pub open spec fn names_the_fault(slot: Region, addr: int, page: int, kind: FaultKind) -> bool {
    let on_guard = slot.guard_addr <= addr && addr < slot.guard_addr + page && slot.guard_addr
        + page <= usize::MAX;
    &&& kind == FaultKind::UseAfterFree <==> slot.state == 2
    &&& kind == FaultKind::Overflow <==> slot.state != 2 && on_guard && slot.user_ptr
        <= slot.guard_addr
    &&& kind == FaultKind::Underflow <==> slot.state != 2 && on_guard && slot.guard_addr
        < slot.user_ptr
    &&& kind == FaultKind::LiveRegion <==> slot.state != 2 && !on_guard
    &&& kind != FaultKind::Wild
}

/// A fault is attributed to the first slot that tracks its address, with that
/// slot's numbers. Where none does, and only there, it is wild.
pub proof fn fault_names_its_region(slots: Seq<Region>, addr: usize, page: usize)
    requires
        slots.len() <= usize::MAX,
    ensures
        ({
            let fi = model::fault_info(slots, addr, page);
            &&& fi.kind == FaultKind::Wild <==> forall|i: int|
                0 <= i < slots.len() ==> !tracks(#[trigger] slots[i], addr as int)
            &&& fi.kind == FaultKind::Wild ==> fi.slot == usize::MAX && fi.base == 0 && fi.total_len
                == 0 && fi.user_ptr == 0 && fi.size == 0 && fi.align == 0
            &&& fi.kind != FaultKind::Wild ==> {
                let r = slots[fi.slot as int];
                &&& fi.slot < slots.len()
                &&& tracks(r, addr as int)
                &&& names_the_fault(r, addr as int, page as int, fi.kind)
                &&& forall|j: int|
                    0 <= j < fi.slot ==> !tracks(#[trigger] slots[j], addr as int)
                &&& fi.base == r.base
                &&& fi.total_len == r.total_len
                &&& fi.user_ptr == r.user_ptr
                &&& fi.size == r.size
                &&& fi.align == r.align
            }
        }),
{
    let a = addr as int;
    if exists|i: int| model::first_cover(slots, a, i) {
        let i = choose|i: int| model::first_cover(slots, a, i);
        assert forall|j: int| 0 <= j < i implies !tracks(#[trigger] slots[j], a) by {
            assert(!slots[j].covers(a));
        }
        assert(tracks(slots[i], a));
    } else {
        assert forall|i: int| 0 <= i < slots.len() implies !tracks(#[trigger] slots[i], a) by {
            if tracks(slots[i], a) {
                lemma_first_tracking(slots, a, i);
            }
        }
    }
}

proof fn lemma_first_tracking(slots: Seq<Region>, addr: int, i: int)
    requires
        0 <= i < slots.len(),
        tracks(slots[i], addr),
    ensures
        exists|k: int| model::first_cover(slots, addr, k),
    decreases i,
{
    if forall|j: int| 0 <= j < i ==> !(#[trigger] slots[j]).covers(addr) {
        assert(model::first_cover(slots, addr, i));
    } else {
        let j = choose|j: int| 0 <= j < i && (#[trigger] slots[j]).covers(addr);
        lemma_first_tracking(slots, addr, j);
    }
}

/// Any access to a freed region in quarantine, at whichever of its bytes, is
/// reported as a use after free of that region, as long as no other tracked
/// region has the byte too.
pub proof fn every_byte_of_a_freed_region_tells(
    s: ArenaState,
    i: int,
    addr: usize,
    page: usize,
)
    requires
        s.inv(),
        0 <= i < s.slots.len(),
        s.slots[i].state == 2,
        s.slots[i].base <= addr,
        addr < s.slots[i].base + s.slots[i].total_len,
        s.slots[i].base + s.slots[i].total_len <= usize::MAX,
        forall|j: int| 0 <= j < s.slots.len() && j != i ==> !tracks(#[trigger] s.slots[j], addr as int),
    ensures
        ({
            let fi = model::fault_info(s.slots, addr, page);
            &&& fi.kind == FaultKind::UseAfterFree
            &&& fi.slot == i
            &&& fi.base == s.slots[i].base
            &&& fi.user_ptr == s.slots[i].user_ptr
            &&& fi.size == s.slots[i].size
        }),
{
    fault_names_its_region(s.slots, addr, page);
    assert(tracks(s.slots[i], addr as int));
}

/// A pointer's probe sequence starts at its hash, modulo the number of slots, and
/// goes on from slot to slot, cyclically.
pub proof fn probes_start_at_the_hash(ptr: usize, cap: int, k: int)
    requires
        0 < cap,
        0 <= k < cap,
    ensures
        ({
            let h = (ptr * 0x9E37_79B9_7F4A_7C15) % 0x1_0000_0000_0000_0000 % cap;
            &&& model::home(ptr, cap) == h
            &&& model::probe(ptr, cap, k) == if h + k < cap {
                h + k
            } else {
                h + k - cap
            }
        }),
{
    model::lemma_probe_bounds(ptr, cap, k);
    let h = model::home(ptr, cap);
    if h + k < cap {
        lemma_small_mod((h + k) as nat, cap as nat);
    } else {
        lemma_mod_sub_multiples_vanish(h + k, cap);
        lemma_small_mod((h + k - cap) as nat, cap as nat);
    }
}

/// A new allocation takes the first slot of its probe sequence that is in neither
/// of the states of a held one, and there is none only where every slot is held.
pub proof fn insert_takes_the_first_vacant_slot(s: ArenaState, ptr: usize)
    requires
        s.inv(),
    ensures
        ({
            let cap = s.slots.len() as int;
            match model::vacant_slot(s.slots, ptr) {
                Some(i) => exists|k: int| #[trigger] first_free_step(s.slots, ptr, k) && i
                    == model::probe(ptr, cap, k),
                None => forall|i: int|
                    0 <= i < cap ==> (#[trigger] s.slots[i]).state == 1 || s.slots[i].state == 2,
            }
        }),
{
    let cap = s.slots.len() as int;
    match model::vacant_slot(s.slots, ptr) {
        Some(i) => {
            let k = choose|k: int| model::first_vacant(s.slots, ptr, k);
            assert(model::first_vacant(s.slots, ptr, k));
            assert forall|j: int| 0 <= j < k implies (#[trigger] s.slots[model::probe(
                ptr,
                cap,
                j,
            )]).state == 1 || s.slots[model::probe(ptr, cap, j)].state == 2 by {
                model::lemma_probe_bounds(ptr, cap, j);
                assert(!s.slots[model::probe(ptr, cap, j)].vacant());
                assert(s.slots[model::probe(ptr, cap, j)].state <= 3);
            }
            assert(first_free_step(s.slots, ptr, k));
        },
        None => {
            laws::insert_fails_exactly_when_full(s, ptr);
            assert forall|i: int| 0 <= i < cap implies (#[trigger] s.slots[i]).state == 1
                || s.slots[i].state == 2 by {
                if s.slots[i].vacant() {
                    let d = model::lemma_probe_reaches(ptr, cap, i);
                    lemma_first_free(s.slots, ptr, d);
                }
                assert(s.slots[i].state <= 3);
            }
        },
    }
}

/// Step `k` of the probe sequence of `ptr` finds a slot that is free, in state zero
/// or three, and the steps before it find held ones.
pub open spec fn first_free_step(slots: Seq<Region>, ptr: usize, k: int) -> bool {
    let cap = slots.len() as int;
    &&& 0 <= k < cap
    &&& slots[model::probe(ptr, cap, k)].state == 0 || slots[model::probe(ptr, cap, k)].state == 3
    &&& forall|j: int|
        0 <= j < k ==> (#[trigger] slots[model::probe(ptr, cap, j)]).state == 1
            || slots[model::probe(ptr, cap, j)].state == 2
}

proof fn lemma_first_free(slots: Seq<Region>, ptr: usize, d: int)
    requires
        0 <= d < slots.len(),
        slots[model::probe(ptr, slots.len() as int, d)].vacant(),
    ensures
        exists|k: int| model::first_vacant(slots, ptr, k),
    decreases d,
{
    let cap = slots.len() as int;
    if forall|j: int| 0 <= j < d ==> !(#[trigger] slots[model::probe(ptr, cap, j)]).vacant() {
        assert(model::first_vacant(slots, ptr, d));
    } else {
        let j = choose|j: int|
            0 <= j < d && (#[trigger] slots[model::probe(ptr, cap, j)]).vacant();
        lemma_first_free(slots, ptr, j);
    }
}

/// Step `k` of the probe sequence of `ptr` finds a slot that was never used, in state
/// zero, or one that holds `ptr`, and no step before it does.
pub open spec fn first_answer(slots: Seq<Region>, ptr: usize, k: int) -> bool {
    let cap = slots.len() as int;
    &&& 0 <= k < cap
    &&& answers(slots[model::probe(ptr, cap, k)], ptr)
    &&& forall|j: int| 0 <= j < k ==> !answers(#[trigger] slots[model::probe(ptr, cap, j)], ptr)
}

/// The slot settles a search for `ptr`.
pub open spec fn answers(slot: Region, ptr: usize) -> bool {
    slot.state == 0 || (slot.state == 1 || slot.state == 2) && slot.user_ptr == ptr
}

/// A search for a pointer goes along its probe sequence up to the first slot that
/// holds it, and gives up at one that was never used, or after one round.
pub proof fn search_ends_at_the_first_answer(slots: Seq<Region>, ptr: usize, k: int)
    requires
        slots.len() > 0,
    ensures
        first_answer(slots, ptr, k) ==> {
            let i = model::probe(ptr, slots.len() as int, k);
            &&& slots[i].state == 0 ==> model::find_slot(slots, ptr) is None
            &&& slots[i].state != 0 ==> model::find_slot(slots, ptr) == Some(i)
        },
        (forall|k: int| !#[trigger] first_answer(slots, ptr, k)) ==> model::find_slot(
            slots,
            ptr,
        ) is None,
{
    let cap = slots.len() as int;
    assert forall|k: int| #[trigger] first_answer(slots, ptr, k) <==> model::first_stop(
        slots,
        ptr,
        k,
    ) by {
        if model::first_stop(slots, ptr, k) {
            assert forall|j: int| 0 <= j < k implies !answers(
                #[trigger] slots[model::probe(ptr, cap, j)],
                ptr,
            ) by {
                assert(!model::stops(slots[model::probe(ptr, cap, j)], ptr));
            }
        }
        if first_answer(slots, ptr, k) {
            assert forall|j: int| 0 <= j < k implies !model::stops(
                #[trigger] slots[model::probe(ptr, cap, j)],
                ptr,
            ) by {
                assert(!answers(slots[model::probe(ptr, cap, j)], ptr));
            }
        }
    }
    if first_answer(slots, ptr, k) {
        model::lemma_find_slot(slots, ptr, k);
    }
    if forall|k: int| !#[trigger] first_answer(slots, ptr, k) {
        assert forall|k: int| !model::first_stop(slots, ptr, k) by {
            assert(!first_answer(slots, ptr, k));
        }
    }
}

/// Recording an allocation writes its numbers into one slot, which is then live,
/// and counts it. Nothing else changes; without a slot nothing at all does.
pub proof fn insert_writes_one_slot(
    s: ArenaState,
    base: usize,
    total_len: usize,
    user_ptr: usize,
    size: usize,
    align: usize,
    guard_addr: usize,
    alloc_ips: [usize; IP_DEPTH],
    j: int,
)
    requires
        s.inv(),
        0 <= j < s.slots.len(),
    ensures
        ({
            let t = s.inserted(base, total_len, user_ptr, size, align, guard_addr, alloc_ips);
            match model::vacant_slot(s.slots, user_ptr) {
                Some(i) => {
                    let r = t.slots[i];
                    &&& 0 <= i < s.slots.len()
                    &&& r.state == 1
                    &&& r.base == base
                    &&& r.total_len == total_len
                    &&& r.user_ptr == user_ptr
                    &&& r.size == size
                    &&& r.align == align
                    &&& r.guard_addr == guard_addr
                    &&& r.alloc_ips == alloc_ips
                    &&& r.free_ips == s.slots[i].free_ips
                    &&& j != i ==> t.slots[j] == s.slots[j]
                    &&& t.slots.len() == s.slots.len()
                    &&& t.live == s.live + 1
                },
                None => t == s,
            }
        }),
        ({
            let t = s.inserted(base, total_len, user_ptr, size, align, guard_addr, alloc_ips);
            &&& t.quarantine == s.quarantine
            &&& t.q_cap == s.q_cap
            &&& t.evictions == s.evictions
            &&& t.full_warned == s.full_warned
        }),
{
    insert_takes_the_first_vacant_slot(s, user_ptr);
    if let Some(i) = model::vacant_slot(s.slots, user_ptr) {
        let k = choose|k: int| #[trigger] first_free_step(s.slots, user_ptr, k) && i
            == model::probe(user_ptr, s.slots.len() as int, k);
        model::lemma_probe_bounds(user_ptr, s.slots.len() as int, k);
    }
}

/// Freeing a live pointer marks its slot freed, keeps everything else that the
/// slot knows, puts it at the end of the quarantine and counts one live allocation
/// less. If the quarantine was full, its first member gets the state of a slot that
/// serves again, and is all that leaves. What is sealed starts where the mapping
/// does and is as long as the caller says; what is unmapped is the whole mapping of
/// the member that leaves.
pub proof fn free_retires_one_slot(
    s: ArenaState,
    user_ptr: usize,
    total_len: usize,
    free_ips: [usize; IP_DEPTH],
    i: int,
    j: int,
)
    requires
        s.inv(),
        model::find_slot(s.slots, user_ptr) == Some(i),
        s.slots[i].state == 1,
        0 <= j < s.slots.len(),
    ensures
        ({
            let t = s.freed(user_ptr, free_ips);
            let full = s.quarantine.len() == s.q_cap;
            let v = s.quarantine[0];
            &&& t.slots[i].state == 2
            &&& t.slots[i].free_ips == free_ips
            &&& t.slots[i].alloc_ips == s.slots[i].alloc_ips
            &&& t.slots[i].base == s.slots[i].base
            &&& t.slots[i].total_len == s.slots[i].total_len
            &&& t.slots[i].user_ptr == user_ptr
            &&& t.slots[i].size == s.slots[i].size
            &&& t.slots[i].align == s.slots[i].align
            &&& t.slots[i].guard_addr == s.slots[i].guard_addr
            &&& full ==> t.slots[v].state == 3 && t.slots[v].user_ptr == s.slots[v].user_ptr
            &&& j != i && !(full && j == v) ==> t.slots[j] == s.slots[j]
            &&& t.quarantine.last() == i
            &&& t.quarantine.drop_last() == if full {
                s.quarantine.drop_first()
            } else {
                s.quarantine
            }
            &&& t.live == s.live - 1
            &&& t.q_cap == s.q_cap
            &&& t.full_warned == s.full_warned
            &&& !full ==> t.evictions == s.evictions
            &&& full && s.evictions < usize::MAX ==> t.evictions == s.evictions + 1
            &&& model::free_outcome(s, user_ptr, total_len) matches Some(
                FreeOutcome::Freed { seal, unmap },
            ) && {
                &&& seal.addr == s.slots[i].base
                &&& seal.len == total_len
                &&& unmap is Some <==> full
                &&& unmap matches Some(span) ==> span.addr == s.slots[v].base && span.len
                    == s.slots[v].total_len
            }
        }),
{
    model::lemma_found_is_occupied(s.slots, user_ptr);
    model::lemma_retired_inv(s, i, free_ips);
    let t = s.freed(user_ptr, free_ips);
    if s.quarantine.len() == s.q_cap {
        assert(s.slots[s.quarantine[0]].state == 2);
    }
    assert(t.quarantine.drop_last() =~= if s.quarantine.len() == s.q_cap {
        s.quarantine.drop_first()
    } else {
        s.quarantine
    });
}

/// A pointer that is freed while no slot tracks it, or while it is in quarantine,
/// changes nothing. The first is answered with nothing, the second as a double
/// free.
pub proof fn other_frees_change_nothing(
    s: ArenaState,
    user_ptr: usize,
    total_len: usize,
    free_ips: [usize; IP_DEPTH],
)
    requires
        s.inv(),
    ensures
        (forall|i: int|
            0 <= i < s.slots.len() && ((#[trigger] s.slots[i]).state == 1 || s.slots[i].state == 2)
                ==> s.slots[i].user_ptr != user_ptr) ==> {
            &&& model::free_outcome(s, user_ptr, total_len) is None
            &&& s.freed(user_ptr, free_ips) == s
        },
        model::find_slot(s.slots, user_ptr) matches Some(i) && s.slots[i].state == 2 ==> {
            &&& model::free_outcome(s, user_ptr, total_len) == Some(FreeOutcome::DoubleFree)
            &&& s.freed(user_ptr, free_ips) == s
        },
{
    laws::search_finds_what_is_tracked(s, user_ptr);
}

/// A fresh registry has all its slots in state zero and empty, and nothing in
/// quarantine.
pub proof fn fresh_registry_is_empty(s: ArenaState, cap: int, q_cap: int, i: int)
    requires
        s.is_fresh(cap, q_cap),
        0 <= i < cap,
    ensures
        s.slots.len() == cap,
        s.slots[i].state == 0,
        s.slots[i].base == 0,
        s.slots[i].total_len == 0,
        s.slots[i].user_ptr == 0,
        s.quarantine.len() == 0,
        s.q_cap == q_cap,
        s.live == 0,
        s.evictions == 0,
        !s.full_warned,
{
}

/// The call stack that is read of a slot is the one that was recorded with it, and
/// all zeroes for a slot that there is not.
pub proof fn stack_is_the_recorded_one(slots: Seq<Region>, i: int, free: bool, n: int)
    requires
        0 <= i,
        0 <= n < 16,
    ensures
        i < slots.len() && free ==> model::stack_of(slots, i, free) == slots[i].free_ips,
        i < slots.len() && !free ==> model::stack_of(slots, i, free) == slots[i].alloc_ips,
        i >= slots.len() ==> model::stack_of(slots, i, free)@[n] == 0,
        IP_DEPTH == 16,
{
}

/// Of a call stack the first sixteen frames are kept, in order, and zeroes stand for
/// those that there are not.
pub proof fn first_frames_are_kept(frames: Seq<usize>, i: int)
    requires
        0 <= i < 16,
    ensures
        registry::padded(frames).len() == 16,
        i < frames.len() ==> registry::padded(frames)[i] == frames[i],
        i >= frames.len() ==> registry::padded(frames)[i] == 0,
{
}

/// The frames that are kept of a whole walk.
pub open spec fn walked(frames: Seq<usize>) -> Seq<usize>
    decreases frames.len(),
{
    if frames.len() == 0 {
        frames
    } else {
        registry::kept(walked(frames.drop_last()), frames.last())
    }
}

/// A walk over a call stack leaves its first sixteen frames, and zeroes behind them.
pub proof fn walk_keeps_the_first_frames(frames: Seq<usize>, i: int)
    requires
        0 <= i < 16,
    ensures
        frames.len() <= 16 ==> walked(frames) == frames,
        frames.len() > 16 ==> walked(frames) == frames.take(16),
        registry::padded(walked(frames))[i] == if i < frames.len() {
            frames[i]
        } else {
            0
        },
    decreases frames.len(),
{
    if frames.len() > 0 {
        let before = frames.drop_last();
        walk_keeps_the_first_frames(before, i);
        if frames.len() <= 16 {
            assert(before.push(frames.last()) =~= frames);
        } else {
            assert(frames.take(16) =~= before.take(16));
            if before.len() == 16 {
                assert(before.take(16) =~= before);
            }
        }
    }
}

/// A table can exist if a slot of 39 words takes no more than half the address
/// space as often as there are slots, and so one word for the quarantine.
pub proof fn table_size_is_bounded(cap: int, q_cap: int)
    ensures
        registry::table_fits(cap, q_cap) <==> cap * 312 <= isize::MAX && q_cap * 8 <= isize::MAX,
{
}

// ------------------------------ fenced regions ------------------------------

/// A request for `size` bytes gets `size`, and one for none gets a single byte.
pub proof fn buffer_has_the_requested_size(size: int)
    requires
        0 <= size,
    ensures
        size >= 1 ==> region::buffer_len(size) == size,
        size == 0 ==> region::buffer_len(size) == 1,
{
}

/// A request can be fenced exactly if its alignment and the page size are powers of
/// two, the alignment no greater than the page, and the whole pages that hold its
/// bytes, `data` long, leave room for one more.
pub proof fn fenceable_requests(size: usize, align: usize, page: usize, data: int)
    requires
        page > 0,
        data % (page as int) == 0,
        size <= data,
        1 <= data,
        data < (if size == 0 {
            1
        } else {
            size as int
        }) + page,
    ensures
        region::fenceable(size as int, align as int, page as int) <==> is_pow2(align as int)
            && is_pow2(page as int) && align <= page && data + page <= usize::MAX,
{
    let p = page as int;
    let len = if size == 0 {
        1int
    } else {
        size as int
    };
    bits::lemma_up_to_multiple(len, p);
    lemma_one_multiple(len, p, data, bits::up_to_multiple(len, p));
}

/// There is one multiple of `m` from `x` on, before `x + m`.
proof fn lemma_one_multiple(x: int, m: int, a: int, b: int)
    requires
        m > 0,
        a % m == 0,
        b % m == 0,
        x <= a < x + m,
        x <= b < x + m,
    ensures
        a == b,
{
    lemma_fundamental_div_mod(a, m);
    lemma_fundamental_div_mod(b, m);
    let p = a / m;
    let q = b / m;
    assert(p == q) by (nonlinear_arith)
        requires
            a == m * p,
            b == m * q,
            -m < a - b < m,
            m > 0,
    ;
}

/// Guard page behind the buffer. The guard page starts at the first page boundary
/// that leaves the requested bytes room before it. The buffer starts at a multiple
/// of the alignment, its requested bytes and the padding reach exactly up to the
/// guard page, and the padding is shorter than the alignment: where that divides
/// the size, the byte past the last is the guard page's first.
pub proof fn buffer_ends_at_the_guard(size: usize, align: usize, page: usize)
    requires
        region::fenceable(size as int, align as int, page as int),
        size >= 1,
    ensures
        ({
            let g = region::geometry(size as int, align as int, Mode::Above, page as int);
            &&& g.user_off + size + g.pad == g.guard_off
            &&& g.user_off % align == 0
            &&& g.pad < align
            &&& size % align == 0 ==> g.pad == 0
            &&& g.guard_off % page == 0
            &&& size <= g.guard_off < size + page
            &&& g.map_len == g.guard_off + page
        }),
{
    lemma_above(size as int, align as int, page as int);
}

/// The same for a request for no bytes, which gets one.
pub proof fn empty_buffer_ends_at_the_guard(align: usize, page: usize)
    requires
        region::fenceable(0, align as int, page as int),
    ensures
        ({
            let g = region::geometry(0, align as int, Mode::Above, page as int);
            &&& g.user_off + 1 + g.pad == g.guard_off
            &&& g.user_off % align == 0
            &&& g.pad < align
            &&& g.guard_off == page
            &&& g.map_len == 2 * page
        }),
{
    lemma_above(0, align as int, page as int);
    let g = region::geometry(0, align as int, Mode::Above, page as int);
    lemma_mod_self_0(page as int);
    lemma_one_multiple(1, page as int, g.guard_off as int, page as int);
}

proof fn lemma_above(size: int, align: int, page: int)
    requires
        region::fenceable(size, align, page),
        0 <= size <= usize::MAX,
        0 <= align <= usize::MAX,
        0 <= page <= usize::MAX,
    ensures
        ({
            let g = region::geometry(size, align, Mode::Above, page);
            let len = if size < 1 {
                1
            } else {
                size
            };
            &&& 0 < align
            &&& 0 < page
            &&& g.user_off + len + g.pad == g.guard_off
            &&& g.user_off as int % align == 0
            &&& g.pad < align
            &&& len % align == 0 ==> g.pad == 0
            &&& g.guard_off as int % page == 0
            &&& len <= g.guard_off < len + page
            &&& g.map_len == g.guard_off + page
        }),
{
    bits::lemma_pow2_divides(align, page);
    lemma_small_mod(0, page as nat);
    region::alignment_is_respected(size as usize, align as usize, Mode::Above, page as usize, 0);
    region::above_buffer_abuts_guard(size as usize, align as usize, page as usize);
    let len = if size < 1 {
        1
    } else {
        size
    };
    bits::lemma_up_to_multiple(len, page);
}

/// Guard page before the buffer: it is the mapping's first page, and the buffer
/// starts right behind it, on as many whole pages as the requested bytes need.
pub proof fn buffer_starts_at_the_guard(size: usize, align: usize, page: usize)
    requires
        region::fenceable(size as int, align as int, page as int),
    ensures
        ({
            let g = region::geometry(size as int, align as int, Mode::Below, page as int);
            let data = g.map_len - page;
            &&& g.guard_off == 0
            &&& g.user_off == page
            &&& g.pad == 0
            &&& data % (page as int) == 0
            &&& size <= data
            &&& 1 <= data
            &&& size >= 1 ==> data < size + page
            &&& size == 0 ==> data == page
        }),
{
    let p = page as int;
    bits::lemma_pow2_divides(align as int, p);
    let len = if size < 1 {
        1
    } else {
        size as int
    };
    bits::lemma_up_to_multiple(len, p);
    lemma_mod_self_0(p);
    if size == 0 {
        lemma_one_multiple(1, p, p, bits::up_to_multiple(len, p));
    }
}

/// The parts of a mapping at `base` lie at their offsets, the padding right behind
/// the requested bytes.
pub proof fn parts_lie_at_their_offsets(
    size: usize,
    geom: region::Geometry,
    page: usize,
    base: usize,
)
    requires
        geom.user_off + size + geom.pad <= geom.map_len,
        geom.user_off + 1 + geom.pad <= geom.map_len,
        geom.guard_off + page <= geom.map_len,
        base + geom.map_len <= usize::MAX,
    ensures
        region::parts_inside(size as int, geom, page as int),
        ({
            let f = region::fenced_at(size as int, geom, page, base);
            &&& f.whole.addr == base
            &&& f.whole.len == geom.map_len
            &&& f.user == base + geom.user_off
            &&& f.guard.addr == base + geom.guard_off
            &&& f.guard.len == page
            &&& f.pad.len == geom.pad
            &&& size >= 1 ==> f.pad.addr == base + geom.user_off + size
            &&& size == 0 ==> f.pad.addr == base + geom.user_off + 1
        }),
{
}

/// A region that is recorded is recorded with its own numbers: where it is mapped,
/// where the buffer and the guard page start, and the size and alignment that were
/// asked for.
pub proof fn region_is_recorded_as_it_is(
    s: ArenaState,
    layout: Layout,
    region: Fenced,
    alloc_ips: [usize; IP_DEPTH],
)
    requires
        s.inv(),
        model::vacant_slot(s.slots, region.user) is Some,
    ensures
        ({
            let t = allocator::recorded(s, layout, region, alloc_ips);
            let r = t.slots[model::vacant_slot(s.slots, region.user)->0];
            &&& r.state == 1
            &&& r.base == region.whole.addr
            &&& r.total_len == region.whole.len
            &&& r.user_ptr == region.user
            &&& layout.size >= 1 ==> r.size == layout.size
            &&& layout.size == 0 ==> r.size == 1
            &&& r.align == layout.align
            &&& r.guard_addr == region.guard.addr
            &&& r.alloc_ips == alloc_ips
            &&& t.live == s.live + 1
        }),
{
    insert_writes_one_slot(
        s,
        region.whole.addr,
        region.whole.len,
        region.user,
        region::buffer_len(layout.size as int) as usize,
        layout.align,
        region.guard.addr,
        alloc_ips,
        0,
    );
}

/// A buffer of `size` bytes is fenced with the guard page
/// behind it and recorded. If the alignment divides the size, an access to the byte
/// behind its last, and to every further one of the guard page, is reported as an
/// overflow of this buffer.
pub proof fn overflow_of_a_fenced_buffer_is_reported(
    s: ArenaState,
    layout: Layout,
    page: usize,
    base: usize,
    alloc_ips: [usize; IP_DEPTH],
    beyond: int,
)
    requires
        s.inv(),
        laws::regions_disjoint(s),
        region::fenceable(layout.size as int, layout.align as int, page as int),
        layout.size >= 1,
        layout.size % layout.align == 0,
        0 <= beyond < page,
        ({
            let g = region::geometry(
                layout.size as int,
                layout.align as int,
                Mode::Above,
                page as int,
            );
            let region = region::fenced_at(layout.size as int, g, page, base);
            &&& base + g.map_len <= usize::MAX
            &&& laws::mapping_is_fresh(s, base, g.map_len)
            &&& model::vacant_slot(s.slots, region.user) is Some
        }),
    ensures
        ({
            let g = region::geometry(
                layout.size as int,
                layout.align as int,
                Mode::Above,
                page as int,
            );
            let region = region::fenced_at(layout.size as int, g, page, base);
            let t = allocator::recorded(s, layout, region, alloc_ips);
            let end = region.user + layout.size;
            let fi = model::fault_info(t.slots, (end + beyond) as usize, page);
            &&& end + beyond <= usize::MAX
            &&& fi.kind == FaultKind::Overflow
            &&& fi.user_ptr == region.user
            &&& fi.size == layout.size
            &&& fi.base == base
        }),
{
    let g = region::geometry(layout.size as int, layout.align as int, Mode::Above, page as int);
    let region = region::fenced_at(layout.size as int, g, page, base);
    let t = allocator::recorded(s, layout, region, alloc_ips);
    let v = model::vacant_slot(s.slots, region.user)->0;
    buffer_ends_at_the_guard(layout.size, layout.align, page);
    parts_lie_at_their_offsets(layout.size, g, page, base);
    region_is_recorded_as_it_is(s, layout, region, alloc_ips);
    let addr = (region.user + layout.size + beyond) as usize;
    fault_names_its_region(t.slots, addr, page);
    assert(tracks(t.slots[v], addr as int));
    let fi = model::fault_info(t.slots, addr, page);
    if fi.slot != v {
        let j = fi.slot as int;
        insert_writes_one_slot(
            s,
            region.whole.addr,
            region.whole.len,
            region.user,
            layout.size,
            layout.align,
            region.guard.addr,
            alloc_ips,
            j,
        );
        assert(s.slots[j].covers(addr as int));
    }
}

/// Padding is looked at right behind the requested bytes, for as long as the
/// geometry says, and of live pointers only.
pub proof fn padding_lies_behind_the_buffer(
    s: ArenaState,
    ptr: usize,
    layout: Layout,
    mode: Mode,
    page: usize,
)
    requires
        ptr + layout.size < usize::MAX,
    ensures
        ({
            let g = region::geometry(
                layout.size as int,
                layout.align as int,
                mode,
                page as int,
            );
            let pad = allocator::padding_of_live(s, ptr, layout, mode, page);
            &&& pad is Some <==> g.pad > 0 && (model::find_slot(s.slots, ptr) matches Some(i)
                && s.slots[i].state == 1)
            &&& pad matches Some(span) ==> {
                &&& span.len == g.pad
                &&& layout.size >= 1 ==> span.addr == ptr + layout.size
                &&& layout.size == 0 ==> span.addr == ptr + 1
            }
        }),
{
}

/// Padding is reported as overwritten exactly if some byte of it is not the one that
/// it was filled with.
pub proof fn overwritten_padding_is_reported(pad: Seq<u8>)
    ensures
        region::padding_report(pad) is None <==> forall|i: int|
            0 <= i < pad.len() ==> pad[i] == 0xDB,
        region::padding_report(pad) is Some ==> region::padding_report(pad) == Some(
            "coffin: overflow into alignment padding detected at free\n"@,
        ),
{
}

/// What is said of a pointer follows from the state of the slot that a search finds.
pub proof fn status_follows_the_state(s: ArenaState, ptr: usize)
    requires
        s.inv(),
    ensures
        allocator::status(s, ptr) == Some("ready"@) <== (model::find_slot(s.slots, ptr) matches Some(
            i,
        ) && s.slots[i].state == 1),
        allocator::status(s, ptr) == Some("freed"@) <== (model::find_slot(s.slots, ptr) matches Some(
            i,
        ) && s.slots[i].state == 2),
        allocator::status(s, ptr) is None <==> forall|i: int|
            0 <= i < s.slots.len() && ((#[trigger] s.slots[i]).state == 1 || s.slots[i].state == 2)
                ==> s.slots[i].user_ptr != ptr,
        allocator::status_word(1) == Some("ready"@),
        allocator::status_word(2) == Some("freed"@),
        forall|state: u8|
            state != 1 && state != 2 ==> #[trigger] allocator::status_word(state) is None,
{
    laws::search_finds_what_is_tracked(s, ptr);
}

} // verus!
