//! What holds of the registry as a whole, over any number of operations.

use vstd::prelude::*;
use vstd::arithmetic::div_mod::*;
use crate::allocator;
use crate::config::Mode;
use crate::handler;
use crate::model::{self, ArenaState};
use crate::publish::{self, Store, FREE_STORES, INSERT_STORES};
use crate::region::{self, Fenced, Layout, Span};
use crate::registry::{FaultKind, FreeOutcome, Region, EMPTY, FREED, IP_DEPTH, READY, TOMB};

verus! {

/// Some slot tracks `ptr`.
pub open spec fn knows(s: ArenaState, ptr: usize) -> bool {
    exists|i: int|
        0 <= i < s.slots.len() && (#[trigger] s.slots[i]).occupied() && s.slots[i].user_ptr == ptr
}

/// No two slots track the same pointer.
pub open spec fn pointers_unique(s: ArenaState) -> bool {
    forall|i: int, j: int|
        0 <= i < s.slots.len() && 0 <= j < s.slots.len() && i != j
            && (#[trigger] s.slots[i]).occupied() && (#[trigger] s.slots[j]).occupied()
            ==> s.slots[i].user_ptr != s.slots[j].user_ptr
}

/// At most one slot tracks `ptr`.
pub open spec fn tracked_once(s: ArenaState, ptr: usize) -> bool {
    forall|i: int, j: int|
        0 <= i < s.slots.len() && 0 <= j < s.slots.len() && (#[trigger] s.slots[i]).occupied() && (
        #[trigger] s.slots[j]).occupied() && s.slots[i].user_ptr == ptr && s.slots[j].user_ptr
            == ptr ==> i == j
}

/// No two slots track mappings that share an address.
pub open spec fn regions_disjoint(s: ArenaState) -> bool {
    forall|i: int, j: int|
        0 <= i < s.slots.len() && 0 <= j < s.slots.len() && i != j
            ==> !(#[trigger] s.slots[i]).overlaps(#[trigger] s.slots[j])
}

/// A search succeeds exactly for the pointers that the registry tracks, and what
/// it finds tracks the pointer.
pub proof fn search_finds_what_is_tracked(s: ArenaState, ptr: usize)
    requires
        s.inv(),
    ensures
        model::find_slot(s.slots, ptr) is Some <==> knows(s, ptr),
        model::find_slot(s.slots, ptr) matches Some(i) ==> {
            &&& 0 <= i < s.slots.len()
            &&& s.slots[i].occupied()
            &&& s.slots[i].user_ptr == ptr
        },
{
    model::lemma_found_is_occupied(s.slots, ptr);
    if knows(s, ptr) {
        let i = choose|i: int|
            0 <= i < s.slots.len() && (#[trigger] s.slots[i]).occupied() && s.slots[i].user_ptr
                == ptr;
        let d = choose|d: int| model::reached(s.slots, i, d);
        assert(model::reached(s.slots, i, d));
        let cap = s.slots.len() as int;
        assert(model::stops(s.slots[model::probe(ptr, cap, d)], ptr));
        let k = lemma_first_stop_exists(s.slots, ptr, d);
        model::lemma_find_slot(s.slots, ptr, k);
        if k < d {
            assert(s.slots[model::probe(ptr, cap, k)].state != EMPTY);
        }
    }
}

/// Where some step of a probe sequence stops a search, one step is the first.
proof fn lemma_first_stop_exists(slots: Seq<Region>, ptr: usize, d: int) -> (k: int)
    requires
        0 <= d < slots.len(),
        model::stops(slots[model::probe(ptr, slots.len() as int, d)], ptr),
    ensures
        k <= d,
        model::first_stop(slots, ptr, k),
    decreases d,
{
    let cap = slots.len() as int;
    if forall|j: int|
        0 <= j < d ==> !model::stops(#[trigger] slots[model::probe(ptr, cap, j)], ptr) {
        d
    } else {
        let j = choose|j: int|
            0 <= j < d && model::stops(#[trigger] slots[model::probe(ptr, cap, j)], ptr);
        lemma_first_stop_exists(slots, ptr, j)
    }
}

/// Where some step of a probe sequence finds a vacant slot, one step is the
/// first.
proof fn lemma_first_vacant_exists(slots: Seq<Region>, ptr: usize, d: int) -> (k: int)
    requires
        0 <= d < slots.len(),
        slots[model::probe(ptr, slots.len() as int, d)].vacant(),
    ensures
        k <= d,
        model::first_vacant(slots, ptr, k),
    decreases d,
{
    let cap = slots.len() as int;
    if forall|j: int|
        0 <= j < d ==> !(#[trigger] slots[model::probe(ptr, cap, j)]).vacant() {
        d
    } else {
        let j = choose|j: int|
            0 <= j < d && (#[trigger] slots[model::probe(ptr, cap, j)]).vacant();
        lemma_first_vacant_exists(slots, ptr, j)
    }
}

/// Where pointers are unique, a search for a tracked pointer finds its slot.
pub proof fn search_finds_the_slot(s: ArenaState, i: int)
    requires
        s.inv(),
        pointers_unique(s),
        0 <= i < s.slots.len(),
        s.slots[i].occupied(),
    ensures
        model::find_slot(s.slots, s.slots[i].user_ptr) == Some(i),
{
    search_finds_what_is_tracked(s, s.slots[i].user_ptr);
    assert(knows(s, s.slots[i].user_ptr));
}

/// Whether every slot holds an allocation is a matter of the two counts.
proof fn lemma_all_occupied(slots: Seq<Region>)
    requires
        forall|i: int| 0 <= i < slots.len() ==> (#[trigger] slots[i]).state <= TOMB,
    ensures
        model::count_state(slots, READY) + model::count_state(slots, FREED)
            == slots.len() <==> forall|i: int|
            0 <= i < slots.len() ==> (#[trigger] slots[i]).occupied(),
    decreases slots.len(),
{
    if slots.len() > 0 {
        let rest = slots.drop_last();
        assert forall|i: int| 0 <= i < rest.len() implies (#[trigger] rest[i]).state <= TOMB by {
            assert(slots[i].state <= TOMB);
        }
        lemma_all_occupied(rest);
        model::lemma_counts_bounded(rest);
        if forall|i: int| 0 <= i < slots.len() ==> (#[trigger] slots[i]).occupied() {
            assert forall|i: int| 0 <= i < rest.len() implies (#[trigger] rest[i]).occupied() by {
                assert(slots[i].occupied());
            }
            assert(slots.last().occupied());
        }
        if model::count_state(slots, READY) + model::count_state(slots, FREED)
            == slots.len() {
            assert forall|i: int| 0 <= i < slots.len() implies (#[trigger] slots[i]).occupied() by {
                if i < rest.len() {
                    assert(rest[i].occupied());
                }
            }
        }
    }
}

/// An allocation is refused exactly when live and quarantined ones fill the
/// table. In particular, slots of evicted regions serve again.
pub proof fn insert_fails_exactly_when_full(s: ArenaState, ptr: usize)
    requires
        s.inv(),
    ensures
        model::vacant_slot(s.slots, ptr) is None <==> s.live + s.quarantine.len()
            == s.slots.len(),
{
    lemma_all_occupied(s.slots);
    let cap = s.slots.len() as int;
    if exists|k: int| model::first_vacant(s.slots, ptr, k) {
        let k = choose|k: int| model::first_vacant(s.slots, ptr, k);
        model::lemma_probe_bounds(ptr, cap, k);
        assert(!s.slots[model::probe(ptr, cap, k)].occupied());
    } else {
        assert forall|i: int| 0 <= i < cap implies (#[trigger] s.slots[i]).occupied() by {
            assert(s.slots[i].state <= TOMB);
            let d = model::lemma_probe_reaches(ptr, cap, i);
            if s.slots[i].vacant() {
                let k = lemma_first_vacant_exists(s.slots, ptr, d);
            }
        }
    }
}

/// The slot that a new allocation takes was vacant.
proof fn lemma_vacant_slot_is_vacant(s: ArenaState, ptr: usize)
    requires
        s.inv(),
    ensures
        model::vacant_slot(s.slots, ptr) matches Some(i) ==> 0 <= i < s.slots.len()
            && s.slots[i].vacant(),
{
    if exists|k: int| model::first_vacant(s.slots, ptr, k) {
        let k = choose|k: int| model::first_vacant(s.slots, ptr, k);
        model::lemma_probe_bounds(ptr, s.slots.len() as int, k);
    }
}

/// An allocation that is refused changes nothing: neither what searches find, nor
/// what scans find, nor a counter.
pub proof fn refused_insert_changes_nothing(
    s: ArenaState,
    base: usize,
    total_len: usize,
    user_ptr: usize,
    size: usize,
    align: usize,
    guard_addr: usize,
    alloc_ips: [usize; IP_DEPTH],
    ptr: usize,
    addr: usize,
    page: usize,
)
    requires
        s.inv(),
        s.live + s.quarantine.len() == s.slots.len(),
    ensures
        ({
            let t = s.inserted(base, total_len, user_ptr, size, align, guard_addr, alloc_ips);
            &&& model::vacant_slot(s.slots, user_ptr) is None
            &&& t == s
            &&& allocator::status(t, ptr) == allocator::status(s, ptr)
            &&& model::fault_info(t.slots, addr, page) == model::fault_info(s.slots, addr, page)
        }),
{
    insert_fails_exactly_when_full(s, user_ptr);
}

/// Where live and quarantined allocations do not fill the table, a pointer that
/// is not tracked is recorded: a search finds it, in the slot it was given, and
/// live. Searches for all other pointers find what they found before, one more
/// allocation is live, and the quarantine stays as it is.
pub proof fn insert_then_search(
    s: ArenaState,
    base: usize,
    total_len: usize,
    user_ptr: usize,
    size: usize,
    align: usize,
    guard_addr: usize,
    alloc_ips: [usize; IP_DEPTH],
    other: usize,
)
    requires
        s.inv(),
        model::find_slot(s.slots, user_ptr) is None,
        s.live + s.quarantine.len() < s.slots.len(),
    ensures
        model::vacant_slot(s.slots, user_ptr) is Some,
        ({
            let t = s.inserted(base, total_len, user_ptr, size, align, guard_addr, alloc_ips);
            let i = model::vacant_slot(s.slots, user_ptr)->0;
            &&& model::find_slot(t.slots, user_ptr) == Some(i)
            &&& t.slots[i] == Region {
                state: READY,
                base,
                total_len,
                user_ptr,
                size,
                align,
                guard_addr,
                alloc_ips,
                free_ips: s.slots[i].free_ips,
            }
            &&& other != user_ptr ==> {
                &&& model::find_slot(t.slots, other) == model::find_slot(s.slots, other)
                &&& model::find_slot(s.slots, other) matches Some(j) ==> t.slots[j] == s.slots[j]
                &&& allocator::status(t, other) == allocator::status(s, other)
            }
            &&& t.live == s.live + 1
            &&& t.quarantine == s.quarantine
            &&& t.evictions == s.evictions
        }),
{
    insert_fails_exactly_when_full(s, user_ptr);
    search_finds_what_is_tracked(s, user_ptr);
    if other == user_ptr {
        let another: usize = if user_ptr == 0 {
            1
        } else {
            0
        };
        lemma_insert_then_search(
            s,
            base,
            total_len,
            user_ptr,
            size,
            align,
            guard_addr,
            alloc_ips,
            another,
        );
    } else {
        lemma_insert_then_search(
            s,
            base,
            total_len,
            user_ptr,
            size,
            align,
            guard_addr,
            alloc_ips,
            other,
        );
    }
}

proof fn lemma_insert_then_search(
    s: ArenaState,
    base: usize,
    total_len: usize,
    user_ptr: usize,
    size: usize,
    align: usize,
    guard_addr: usize,
    alloc_ips: [usize; IP_DEPTH],
    other: usize,
)
    requires
        s.inv(),
        !knows(s, user_ptr),
        model::vacant_slot(s.slots, user_ptr) is Some,
        other != user_ptr,
    ensures
        ({
            let t = s.inserted(base, total_len, user_ptr, size, align, guard_addr, alloc_ips);
            let i = model::vacant_slot(s.slots, user_ptr)->0;
            &&& 0 <= i < s.slots.len()
            &&& model::find_slot(t.slots, user_ptr) == Some(i)
            &&& t.slots[i].state == READY
            &&& model::find_slot(t.slots, other) == model::find_slot(s.slots, other)
            &&& model::find_slot(s.slots, other) matches Some(j) ==> t.slots[j]
                == s.slots[j]
        }),
{
    let t = s.inserted(base, total_len, user_ptr, size, align, guard_addr, alloc_ips);
    let i = model::vacant_slot(s.slots, user_ptr)->0;
    let cap = s.slots.len() as int;
    lemma_vacant_slot_is_vacant(s, user_ptr);
    model::lemma_inserted_inv(
        s,
        base,
        total_len,
        user_ptr,
        size,
        align,
        guard_addr,
        alloc_ips,
    );
    search_finds_what_is_tracked(t, user_ptr);
    assert(t.slots[i].occupied() && t.slots[i].user_ptr == user_ptr);
    assert forall|j: int|
        0 <= j < cap && (#[trigger] t.slots[j]).occupied() && t.slots[j].user_ptr
            == user_ptr implies j == i by {
        if j != i {
            assert(s.slots[j].occupied());
        }
    }
    search_finds_what_is_tracked(s, other);
    search_finds_what_is_tracked(t, other);
    if exists|k: int| model::first_stop(s.slots, other, k) {
        let k = choose|k: int| model::first_stop(s.slots, other, k);
        let at = model::probe(other, cap, k);
        model::lemma_probe_bounds(other, cap, k);
        if s.slots[at].occupied() {
            assert forall|j: int| 0 <= j < k implies !model::stops(
                #[trigger] t.slots[model::probe(other, cap, j)],
                other,
            ) by {
                model::lemma_probe_bounds(other, cap, j);
                assert(!model::stops(s.slots[model::probe(other, cap, j)], other));
            }
            assert(model::stops(t.slots[at], other));
            assert(model::first_stop(t.slots, other, k));
            model::lemma_find_slot(t.slots, other, k);
        }
    }
    if model::find_slot(s.slots, other) is None {
        if knows(t, other) {
            let j = choose|j: int|
                0 <= j < cap && (#[trigger] t.slots[j]).occupied() && t.slots[j].user_ptr == other;
            assert(s.slots[j].occupied());
        }
    }
}

/// Freeing keeps what a search for any pointer finds, unless that is the region
/// which leaves the quarantine.
pub proof fn free_then_search(
    s: ArenaState,
    user_ptr: usize,
    free_ips: [usize; IP_DEPTH],
    other: usize,
)
    requires
        s.inv(),
        model::find_slot(s.slots, other) is Some,
        s.quarantine.len() == s.q_cap ==> model::find_slot(s.slots, other)->0
            != s.quarantine[0],
    ensures
        ({
            let t = s.freed(user_ptr, free_ips);
            let i = model::find_slot(s.slots, other)->0;
            &&& model::find_slot(t.slots, other) == Some(i)
            &&& other != user_ptr && model::find_slot(s.slots, user_ptr) != Some(i)
                ==> t.slots[i] == s.slots[i]
        }),
{
    let t = s.freed(user_ptr, free_ips);
    let cap = s.slots.len() as int;
    let i = model::find_slot(s.slots, other)->0;
    model::lemma_found_is_occupied(s.slots, other);
    model::lemma_found_is_occupied(s.slots, user_ptr);
    if t.slots != s.slots {
        let f = model::find_slot(s.slots, user_ptr)->0;
        if s.quarantine.len() == s.q_cap {
            assert(s.slots[s.quarantine[0]].state == FREED);
        }
        let k = choose|k: int| model::first_stop(s.slots, other, k);
        assert forall|j: int| 0 <= j < k implies !model::stops(
            #[trigger] t.slots[model::probe(other, cap, j)],
            other,
        ) by {
            model::lemma_probe_bounds(other, cap, j);
            assert(!model::stops(s.slots[model::probe(other, cap, j)], other));
        }
        assert(model::stops(t.slots[i], other));
        assert(model::first_stop(t.slots, other, k));
        model::lemma_find_slot(t.slots, other, k);
    }
}

/// A second free of the same pointer is recognised, and changes nothing.
pub proof fn double_free_is_detected(
    s: ArenaState,
    user_ptr: usize,
    total_len: usize,
    free_ips: [usize; IP_DEPTH],
    second_len: usize,
    second_ips: [usize; IP_DEPTH],
)
    requires
        s.inv(),
        model::free_outcome(s, user_ptr, total_len) matches Some(FreeOutcome::Freed { .. }),
    ensures
        ({
            let t = s.freed(user_ptr, free_ips);
            &&& model::free_outcome(t, user_ptr, second_len) == Some(FreeOutcome::DoubleFree)
            &&& t.freed(user_ptr, second_ips) == t
        }),
{
    let i = model::find_slot(s.slots, user_ptr)->0;
    model::lemma_found_is_occupied(s.slots, user_ptr);
    if s.quarantine.len() == s.q_cap {
        assert(s.slots[s.quarantine[0]].state == FREED);
    }
    free_then_search(s, user_ptr, free_ips, user_ptr);
}

/// A pointer that the registry does not track is left to the system allocator,
/// and nothing behind its buffer is read.
pub proof fn unknown_pointer_is_passed_on(
    s: ArenaState,
    user_ptr: usize,
    layout: Layout,
    mode: Mode,
    page: usize,
    total_len: usize,
    free_ips: [usize; IP_DEPTH],
)
    requires
        s.inv(),
        !knows(s, user_ptr),
    ensures
        model::free_outcome(s, user_ptr, total_len) is None,
        s.freed(user_ptr, free_ips) == s,
        allocator::padding_of_live(s, user_ptr, layout, mode, page) is None,
{
    search_finds_what_is_tracked(s, user_ptr);
}

/// Padding is read of live buffers only: a pointer that was freed before gets no
/// byte of its sealed region read.
pub proof fn freed_padding_is_not_read(
    s: ArenaState,
    user_ptr: usize,
    layout: Layout,
    mode: Mode,
    page: usize,
    total_len: usize,
)
    ensures
        model::free_outcome(s, user_ptr, total_len) == Some(FreeOutcome::DoubleFree)
            ==> allocator::padding_of_live(s, user_ptr, layout, mode, page) is None,
        allocator::padding_of_live(s, user_ptr, layout, mode, page) is Some ==> (
        model::free_outcome(s, user_ptr, total_len) matches Some(FreeOutcome::Freed { .. })),
{
}

/// One change of the registry.
pub enum Operation {
    /// An allocation is recorded.
    Insert {
        base: usize,
        total_len: usize,
        user_ptr: usize,
        size: usize,
        align: usize,
        guard_addr: usize,
        alloc_ips: [usize; IP_DEPTH],
    },
    /// A pointer is freed.
    Free { user_ptr: usize, free_ips: [usize; IP_DEPTH] },
}

impl Operation {
    /// The registry after the operation.
    pub open spec fn applied(self, s: ArenaState) -> ArenaState {
        match self {
            Operation::Insert {
                base,
                total_len,
                user_ptr,
                size,
                align,
                guard_addr,
                alloc_ips,
            } => s.inserted(base, total_len, user_ptr, size, align, guard_addr, alloc_ips),
            Operation::Free { user_ptr, free_ips } => s.freed(user_ptr, free_ips),
        }
    }

    /// The operation records an allocation.
    pub open spec fn records(self, s: ArenaState) -> bool {
        match self {
            Operation::Insert { user_ptr, .. } => model::vacant_slot(
                s.slots,
                user_ptr,
            ) is Some,
            Operation::Free { .. } => false,
        }
    }

    /// The operation frees a live allocation.
    pub open spec fn frees(self, s: ArenaState) -> bool {
        match self {
            Operation::Insert { .. } => false,
            Operation::Free { user_ptr, .. } => match model::find_slot(s.slots, user_ptr) {
                Some(i) => s.slots[i].state != FREED,
                None => false,
            },
        }
    }
}

/// The registry after a row of operations.
pub open spec fn run(s: ArenaState, ops: Seq<Operation>) -> ArenaState
    decreases ops.len(),
{
    if ops.len() == 0 {
        s
    } else {
        ops.last().applied(run(s, ops.drop_last()))
    }
}

/// How many operations of a row record an allocation.
pub open spec fn recorded_in(s: ArenaState, ops: Seq<Operation>) -> nat
    decreases ops.len(),
{
    if ops.len() == 0 {
        0
    } else {
        recorded_in(s, ops.drop_last()) + if ops.last().records(run(s, ops.drop_last())) {
            1nat
        } else {
            0nat
        }
    }
}

/// How many operations of a row free a live allocation.
pub open spec fn freed_in(s: ArenaState, ops: Seq<Operation>) -> nat
    decreases ops.len(),
{
    if ops.len() == 0 {
        0
    } else {
        freed_in(s, ops.drop_last()) + if ops.last().frees(run(s, ops.drop_last())) {
            1nat
        } else {
            0nat
        }
    }
}

proof fn lemma_applied_inv(s: ArenaState, op: Operation)
    requires
        s.inv(),
    ensures
        op.applied(s).inv(),
{
    match op {
        Operation::Insert { base, total_len, user_ptr, size, align, guard_addr, alloc_ips } => {
            model::lemma_inserted_inv(
                s,
                base,
                total_len,
                user_ptr,
                size,
                align,
                guard_addr,
                alloc_ips,
            );
        },
        Operation::Free { user_ptr, free_ips } => {
            model::lemma_found_is_occupied(s.slots, user_ptr);
            if op.frees(s) {
                model::lemma_retired_inv(
                    s,
                    model::find_slot(s.slots, user_ptr)->0,
                    free_ips,
                );
            }
        },
    }
}

/// The invariant holds after any row of operations: the quarantine stays within
/// its bound, and what the counters say is so. A warning that was given once is
/// not given again.
pub proof fn invariant_is_kept(s: ArenaState, ops: Seq<Operation>)
    requires
        s.inv(),
    ensures
        run(s, ops).inv(),
        run(s, ops).slots.len() == s.slots.len(),
        run(s, ops).q_cap == s.q_cap,
        run(s, ops).quarantine.len() <= s.q_cap,
        run(s, ops).full_warned == s.full_warned,
    decreases ops.len(),
{
    if ops.len() > 0 {
        let before = ops.drop_last();
        invariant_is_kept(s, before);
        lemma_applied_inv(run(s, before), ops.last());
    }
}

/// Nothing is lost count of: allocations recorded and not freed are live, and a
/// freed one is in quarantine or was evicted.
pub proof fn operations_are_accounted_for(s: ArenaState, ops: Seq<Operation>)
    requires
        s.inv(),
    ensures
        run(s, ops).live + freed_in(s, ops) == s.live + recorded_in(s, ops),
        (run(s, ops).quarantine.len() + run(s, ops).evictions) % (usize::MAX + 1) == (
        s.quarantine.len() + s.evictions + freed_in(s, ops)) % (usize::MAX + 1),
    decreases ops.len(),
{
    if ops.len() > 0 {
        let before = ops.drop_last();
        invariant_is_kept(s, before);
        operations_are_accounted_for(s, before);
        let r = run(s, before);
        let t = run(s, ops);
        let m = usize::MAX + 1;
        if ops.last().frees(r) {
            match ops.last() {
                Operation::Free { user_ptr, free_ips } => {
                    let i = model::find_slot(r.slots, user_ptr)->0;
                    model::lemma_found_is_occupied(r.slots, user_ptr);
                    model::lemma_retired_inv(r, i, free_ips);
                },
                Operation::Insert { .. } => {},
            }
            let a = r.quarantine.len() + r.evictions;
            let b = s.quarantine.len() + s.evictions + freed_in(s, before);
            let c = t.quarantine.len() + t.evictions;
            lemma_add_mod_noop_right(1, a, m);
            lemma_add_mod_noop_right(1, b, m);
            assert(c == a + 1 || c == a + 1 - m);
            lemma_mod_sub_multiples_vanish(a + 1, m);
        }
    }
}

/// A quarantined region stays sealed, with all that is known of it, while no
/// more regions are freed than there is room for behind it: what was freed last
/// outlives all but the last of as many frees as the quarantine holds.
pub proof fn quarantine_is_a_window(s: ArenaState, n: int, ops: Seq<Operation>)
    requires
        s.inv(),
        0 <= n < s.quarantine.len(),
        freed_in(s, ops) <= s.q_cap - s.quarantine.len() + n,
    ensures
        ({
            let t = run(s, ops);
            let i = s.quarantine[n];
            let rank = t.quarantine.len() - s.quarantine.len() + n - freed_in(s, ops);
            &&& t.slots[i] == s.slots[i]
            &&& 0 <= rank < t.quarantine.len()
            &&& t.quarantine[rank] == i
        }),
    decreases ops.len(),
{
    if ops.len() > 0 {
        let before = ops.drop_last();
        invariant_is_kept(s, before);
        quarantine_is_a_window(s, n, before);
        let r = run(s, before);
        let i = s.quarantine[n];
        let rank = r.quarantine.len() - s.quarantine.len() + n - freed_in(s, before);
        assert(r.slots[i].state == FREED);
        match ops.last() {
            Operation::Insert { user_ptr, .. } => {
                lemma_vacant_slot_is_vacant(r, user_ptr);
            },
            Operation::Free { user_ptr, free_ips } => {
                model::lemma_found_is_occupied(r.slots, user_ptr);
                if ops.last().frees(r) {
                    let f = model::find_slot(r.slots, user_ptr)->0;
                    model::lemma_retired_inv(r, f, free_ips);
                    if r.quarantine.len() == r.q_cap {
                        assert(rank > 0);
                        assert(r.quarantine[0] != r.quarantine[rank]);
                    }
                }
            },
        }
    }
}

/// Once the quarantine is full, a further free evicts the region that was freed
/// first, and no other.
pub proof fn oldest_is_evicted(
    s: ArenaState,
    user_ptr: usize,
    total_len: usize,
    free_ips: [usize; IP_DEPTH],
)
    requires
        s.inv(),
        s.quarantine.len() == s.q_cap,
        model::free_outcome(s, user_ptr, total_len) matches Some(FreeOutcome::Freed { .. }),
    ensures
        ({
            let t = s.freed(user_ptr, free_ips);
            let victim = s.slots[s.quarantine[0]];
            let i = model::find_slot(s.slots, user_ptr)->0;
            &&& model::free_outcome(s, user_ptr, total_len) matches Some(
                FreeOutcome::Freed { unmap: Some(span), .. },
            ) && span.addr == victim.base && span.len == victim.total_len
            &&& t.slots[s.quarantine[0]].state == TOMB
            &&& t.quarantine == s.quarantine.drop_first().push(i)
            &&& forall|j: int|
                0 <= j < s.slots.len() && j != s.quarantine[0] && j != i ==> #[trigger] t.slots[j]
                    == s.slots[j]
        }),
{
    model::lemma_found_is_occupied(s.slots, user_ptr);
    assert(s.slots[s.quarantine[0]].state == FREED);
}

/// Where some slot covers an address, one slot is the first to.
proof fn lemma_first_cover_exists(slots: Seq<Region>, addr: int, i: int) -> (k: int)
    requires
        0 <= i < slots.len(),
        slots[i].covers(addr),
    ensures
        k <= i,
        model::first_cover(slots, addr, k),
    decreases i,
{
    if forall|j: int| 0 <= j < i ==> !(#[trigger] slots[j]).covers(addr) {
        i
    } else {
        let j = choose|j: int| 0 <= j < i && (#[trigger] slots[j]).covers(addr);
        lemma_first_cover_exists(slots, addr, j)
    }
}

/// An address inside a tracked mapping is attributed to that mapping.
pub proof fn fault_is_attributed(s: ArenaState, i: int, addr: usize, page: usize)
    requires
        s.inv(),
        regions_disjoint(s),
        0 <= i < s.slots.len(),
        s.slots[i].covers(addr as int),
    ensures
        ({
            let fi = model::fault_info(s.slots, addr, page);
            let r = s.slots[i];
            &&& fi.slot == i
            &&& fi.kind == r.fault_kind(addr as int, page as int)
            &&& fi.base == r.base
            &&& fi.total_len == r.total_len
            &&& fi.user_ptr == r.user_ptr
            &&& fi.size == r.size
            &&& fi.align == r.align
        }),
{
    let k = lemma_first_cover_exists(s.slots, addr as int, i);
    model::lemma_first_cover(s.slots, addr as int, k);
    if k != i {
        assert(s.slots[k].overlaps(s.slots[i]));
    }
}

/// A fault is called wild exactly when no tracked mapping contains its address.
pub proof fn wild_means_untracked(s: ArenaState, addr: usize, page: usize)
    requires
        s.inv(),
    ensures
        model::fault_info(s.slots, addr, page).kind == FaultKind::Wild <==> forall|i: int|
            0 <= i < s.slots.len() ==> !(#[trigger] s.slots[i]).covers(addr as int),
{
    if exists|i: int| 0 <= i < s.slots.len() && (#[trigger] s.slots[i]).covers(addr as int) {
        let i = choose|i: int|
            0 <= i < s.slots.len() && (#[trigger] s.slots[i]).covers(addr as int);
        let k = lemma_first_cover_exists(s.slots, addr as int, i);
    }
}

/// No tracked mapping has an address in common with the one of `len` bytes at
/// `base`.
pub open spec fn mapping_is_fresh(s: ArenaState, base: usize, len: usize) -> bool {
    forall|i: int, addr: int|
        0 <= i < s.slots.len() && base <= addr < base + len ==> !(#[trigger] s.slots[i].covers(
            addr,
        ))
}

/// Every allocation that a row of operations records has a mapping that is fresh
/// at the time.
pub open spec fn all_fresh(s: ArenaState, ops: Seq<Operation>) -> bool
    decreases ops.len(),
{
    ops.len() == 0 || {
        &&& all_fresh(s, ops.drop_last())
        &&& match ops.last() {
            Operation::Insert { base, total_len, .. } => mapping_is_fresh(
                run(s, ops.drop_last()),
                base,
                total_len,
            ),
            Operation::Free { .. } => true,
        }
    }
}

proof fn lemma_insert_keeps_disjoint(
    s: ArenaState,
    base: usize,
    total_len: usize,
    user_ptr: usize,
    size: usize,
    align: usize,
    guard_addr: usize,
    alloc_ips: [usize; IP_DEPTH],
)
    requires
        s.inv(),
        regions_disjoint(s),
        mapping_is_fresh(s, base, total_len),
    ensures
        regions_disjoint(
            s.inserted(base, total_len, user_ptr, size, align, guard_addr, alloc_ips),
        ),
{
    let t = s.inserted(base, total_len, user_ptr, size, align, guard_addr, alloc_ips);
    lemma_vacant_slot_is_vacant(s, user_ptr);
    if model::vacant_slot(s.slots, user_ptr) is Some {
        let v = model::vacant_slot(s.slots, user_ptr)->0;
        assert forall|i: int, j: int|
            0 <= i < t.slots.len() && 0 <= j < t.slots.len() && i != j implies !(
        #[trigger] t.slots[i]).overlaps(#[trigger] t.slots[j]) by {
            if t.slots[i].overlaps(t.slots[j]) {
                let addr = choose|addr: int| #[trigger]
                    t.slots[i].covers(addr) && t.slots[j].covers(addr);
                if i == v {
                    assert(!s.slots[j].covers(addr));
                } else if j == v {
                    assert(!s.slots[i].covers(addr));
                } else {
                    assert(s.slots[i].covers(addr) && s.slots[j].covers(addr));
                    assert(s.slots[i].overlaps(s.slots[j]));
                }
            }
        }
    }
}

proof fn lemma_free_keeps_disjoint(s: ArenaState, user_ptr: usize, free_ips: [usize; IP_DEPTH])
    requires
        s.inv(),
        regions_disjoint(s),
    ensures
        regions_disjoint(s.freed(user_ptr, free_ips)),
{
    let t = s.freed(user_ptr, free_ips);
    model::lemma_found_is_occupied(s.slots, user_ptr);
    if s.quarantine.len() == s.q_cap {
        assert(s.slots[s.quarantine[0]].state == FREED);
    }
    assert forall|i: int, j: int|
        0 <= i < t.slots.len() && 0 <= j < t.slots.len() && i != j implies !(
    #[trigger] t.slots[i]).overlaps(#[trigger] t.slots[j]) by {
        if t.slots[i].overlaps(t.slots[j]) {
            let addr = choose|addr: int| #[trigger]
                t.slots[i].covers(addr) && t.slots[j].covers(addr);
            assert(s.slots[i].covers(addr) && s.slots[j].covers(addr));
            assert(s.slots[i].overlaps(s.slots[j]));
        }
    }
}

/// Tracked mappings stay disjoint as long as every mapping is fresh when it is
/// recorded.
pub proof fn mappings_stay_disjoint(s: ArenaState, ops: Seq<Operation>)
    requires
        s.inv(),
        regions_disjoint(s),
        all_fresh(s, ops),
    ensures
        regions_disjoint(run(s, ops)),
    decreases ops.len(),
{
    if ops.len() > 0 {
        let before = ops.drop_last();
        mappings_stay_disjoint(s, before);
        invariant_is_kept(s, before);
        let r = run(s, before);
        match ops.last() {
            Operation::Insert { base, total_len, user_ptr, size, align, guard_addr, alloc_ips } => {
                lemma_insert_keeps_disjoint(
                    r,
                    base,
                    total_len,
                    user_ptr,
                    size,
                    align,
                    guard_addr,
                    alloc_ips,
                );
            },
            Operation::Free { user_ptr, free_ips } => {
                lemma_free_keeps_disjoint(r, user_ptr, free_ips);
            },
        }
    }
}

/// Every tracked pointer lies in its own mapping.
pub open spec fn pointers_inside(s: ArenaState) -> bool {
    forall|i: int|
        0 <= i < s.slots.len() && (#[trigger] s.slots[i]).occupied() ==> s.slots[i].covers(
            s.slots[i].user_ptr as int,
        )
}

impl Operation {
    /// If the operation records an allocation, its mapping ends at an address
    /// and has the user pointer in it.
    pub open spec fn points_inside(self) -> bool {
        match self {
            Operation::Insert { base, total_len, user_ptr, .. } => base <= user_ptr < base
                + total_len <= usize::MAX,
            Operation::Free { .. } => true,
        }
    }
}

/// Every allocation that a row of operations records has its user pointer in its
/// own mapping.
pub open spec fn all_inside(ops: Seq<Operation>) -> bool {
    forall|n: int| 0 <= n < ops.len() ==> (#[trigger] ops[n]).points_inside()
}

/// Pointers inside disjoint mappings are unique.
pub proof fn inside_pointers_are_unique(s: ArenaState)
    requires
        regions_disjoint(s),
        pointers_inside(s),
    ensures
        pointers_unique(s),
        forall|ptr: usize| #[trigger] tracked_once(s, ptr),
{
    assert forall|i: int, j: int|
        0 <= i < s.slots.len() && 0 <= j < s.slots.len() && i != j
            && (#[trigger] s.slots[i]).occupied() && (#[trigger] s.slots[j]).occupied() implies s.slots[i].user_ptr
        != s.slots[j].user_ptr by {
        if s.slots[i].user_ptr == s.slots[j].user_ptr {
            assert(s.slots[i].covers(s.slots[i].user_ptr as int));
            assert(s.slots[j].covers(s.slots[i].user_ptr as int));
            assert(s.slots[i].overlaps(s.slots[j]));
        }
    }
}

/// Tracked pointers stay inside their mappings.
pub proof fn pointers_stay_inside(s: ArenaState, ops: Seq<Operation>)
    requires
        s.inv(),
        pointers_inside(s),
        all_inside(ops),
    ensures
        pointers_inside(run(s, ops)),
    decreases ops.len(),
{
    if ops.len() > 0 {
        let before = ops.drop_last();
        assert forall|n: int| 0 <= n < before.len() implies (
        #[trigger] before[n]).points_inside() by {
            assert(ops[n].points_inside());
        }
        pointers_stay_inside(s, before);
        invariant_is_kept(s, before);
        let r = run(s, before);
        let t = run(s, ops);
        let op = ops[ops.len() - 1];
        assert(op == ops.last());
        assert(op.points_inside());
        match op {
            Operation::Insert { user_ptr, .. } => {
                lemma_vacant_slot_is_vacant(r, user_ptr);
            },
            Operation::Free { user_ptr, .. } => {
                model::lemma_found_is_occupied(r.slots, user_ptr);
                if r.quarantine.len() == r.q_cap {
                    assert(r.slots[r.quarantine[0]].state == FREED);
                }
            },
        }
        assert forall|i: int| 0 <= i < t.slots.len() && (#[trigger] t.slots[i]).occupied() implies t.slots[i].covers(
            t.slots[i].user_ptr as int,
        ) by {
            if t.slots[i].user_ptr == r.slots[i].user_ptr && r.slots[i].occupied() {
                assert(r.slots[i].covers(r.slots[i].user_ptr as int));
            }
        }
    }
}

/// Slot `v` tracks `region`, allocated for `layout`, as live.
pub open spec fn tracks_live(s: ArenaState, v: int, layout: Layout, region: Fenced) -> bool {
    &&& 0 <= v < s.slots.len()
    &&& s.slots[v].state == READY
    &&& s.slots[v].base == region.whole.addr
    &&& s.slots[v].total_len == region.whole.len
    &&& s.slots[v].user_ptr == region.user
    &&& s.slots[v].size == region::buffer_len(layout.size as int)
    &&& s.slots[v].align == layout.align
    &&& s.slots[v].guard_addr == region.guard.addr
}

/// An allocation that finds a vacant slot is tracked there as live.
pub proof fn recorded_region_is_live(
    s: ArenaState,
    layout: Layout,
    region: Fenced,
    alloc_ips: [usize; IP_DEPTH],
)
    requires
        s.inv(),
        model::vacant_slot(s.slots, region.user) is Some,
    ensures
        ({
            let t = allocator::recorded(s, layout, region, alloc_ips);
            let v = model::vacant_slot(s.slots, region.user)->0;
            &&& tracks_live(t, v, layout, region)
            &&& t.slots[v].alloc_ips == alloc_ips
        }),
{
    lemma_vacant_slot_is_vacant(s, region.user);
}

/// Some operation of a row frees slot `i`.
pub open spec fn frees_slot(s: ArenaState, ops: Seq<Operation>, i: int) -> bool
    decreases ops.len(),
{
    ops.len() > 0 && {
        ||| frees_slot(s, ops.drop_last(), i)
        ||| match ops.last() {
            Operation::Insert { .. } => false,
            Operation::Free { user_ptr, .. } => model::find_slot(
                run(s, ops.drop_last()).slots,
                user_ptr,
            ) == Some(i),
        }
    }
}

/// A live slot keeps all that is known of it until it is freed.
pub proof fn live_slot_stays(s: ArenaState, i: int, ops: Seq<Operation>)
    requires
        s.inv(),
        0 <= i < s.slots.len(),
        s.slots[i].state == READY,
        !frees_slot(s, ops, i),
    ensures
        run(s, ops).slots[i] == s.slots[i],
    decreases ops.len(),
{
    if ops.len() > 0 {
        let before = ops.drop_last();
        live_slot_stays(s, i, before);
        invariant_is_kept(s, before);
        let r = run(s, before);
        match ops.last() {
            Operation::Insert { user_ptr, .. } => {
                lemma_vacant_slot_is_vacant(r, user_ptr);
            },
            Operation::Free { user_ptr, free_ips } => {
                model::lemma_found_is_occupied(r.slots, user_ptr);
                if r.quarantine.len() == r.q_cap {
                    assert(r.slots[r.quarantine[0]].state == FREED);
                }
            },
        }
    }
}

/// An access to the guard page behind a live buffer is reported as an overflow
/// of that buffer, with its distance from the buffer's end. Where the alignment
/// divides the size, the first byte past the end is such an access.
pub proof fn overflow_is_caught(
    s: ArenaState,
    v: int,
    layout: Layout,
    page: usize,
    base: usize,
    addr: usize,
)
    requires
        s.inv(),
        regions_disjoint(s),
        region::fenceable(layout.size as int, layout.align as int, page as int),
        ({
            let g = region::geometry(
                layout.size as int,
                layout.align as int,
                Mode::Above,
                page as int,
            );
            let region = region::fenced_at(layout.size as int, g, page, base);
            &&& base + g.map_len <= usize::MAX
            &&& tracks_live(s, v, layout, region)
            &&& region.guard.addr <= addr < region.guard.addr + region.guard.len
        }),
    ensures
        ({
            let g = region::geometry(
                layout.size as int,
                layout.align as int,
                Mode::Above,
                page as int,
            );
            let region = region::fenced_at(layout.size as int, g, page, base);
            let fi = model::fault_info(s.slots, addr, page);
            let end = region.user + region::buffer_len(layout.size as int);
            &&& fi.kind == FaultKind::Overflow
            &&& fi.slot == v
            &&& fi.user_ptr + fi.size == end
            &&& end <= addr
            &&& handler::distance(addr as int, fi.user_ptr + fi.size) == addr - end
            &&& region::buffer_len(layout.size as int) % (layout.align as int) == 0
                ==> region.guard.addr == end
        }),
{
    let size = layout.size as int;
    let g = region::geometry(size, layout.align as int, Mode::Above, page as int);
    let region = region::fenced_at(size, g, page, base);
    region::parts_are_disjoint(layout.size, layout.align, Mode::Above, page);
    region::above_buffer_abuts_guard(layout.size, layout.align, page);
    assert(s.slots[v].covers(addr as int));
    fault_is_attributed(s, v, addr, page);
    let end = region.user + region::buffer_len(size);
    lemma_small_mod((addr - end) as nat, (usize::MAX + 1) as nat);
}

/// An access to the guard page before a live buffer is reported as an underflow
/// of that buffer, with its distance from the buffer's start. The last byte
/// before the start is such an access.
pub proof fn underflow_is_caught(
    s: ArenaState,
    v: int,
    layout: Layout,
    page: usize,
    base: usize,
    addr: usize,
)
    requires
        s.inv(),
        regions_disjoint(s),
        region::fenceable(layout.size as int, layout.align as int, page as int),
        ({
            let g = region::geometry(
                layout.size as int,
                layout.align as int,
                Mode::Below,
                page as int,
            );
            let region = region::fenced_at(layout.size as int, g, page, base);
            &&& base + g.map_len <= usize::MAX
            &&& tracks_live(s, v, layout, region)
            &&& region.guard.addr <= addr < region.guard.addr + region.guard.len
        }),
    ensures
        ({
            let g = region::geometry(
                layout.size as int,
                layout.align as int,
                Mode::Below,
                page as int,
            );
            let region = region::fenced_at(layout.size as int, g, page, base);
            let fi = model::fault_info(s.slots, addr, page);
            &&& fi.kind == FaultKind::Underflow
            &&& fi.slot == v
            &&& fi.user_ptr == region.user
            &&& addr < region.user
            &&& handler::distance(fi.user_ptr as int, addr as int) == region.user - addr
            &&& region.guard.addr + region.guard.len == region.user
        }),
{
    let size = layout.size as int;
    let g = region::geometry(size, layout.align as int, Mode::Below, page as int);
    let region = region::fenced_at(size, g, page, base);
    region::parts_are_disjoint(layout.size, layout.align, Mode::Below, page);
    region::below_buffer_abuts_guard(layout.size, layout.align, page);
    assert(s.slots[v].covers(addr as int));
    fault_is_attributed(s, v, addr, page);
    lemma_small_mod(
        (region.user - addr) as nat,
        (usize::MAX + 1) as nat,
    );
}

/// Any access to the mapping of a buffer that was freed is reported as a use
/// after free of that buffer, as long as fewer further regions are freed than
/// the quarantine holds.
pub proof fn use_after_free_is_caught(
    s: ArenaState,
    user_ptr: usize,
    total_len: usize,
    free_ips: [usize; IP_DEPTH],
    ops: Seq<Operation>,
    addr: usize,
    page: usize,
)
    requires
        s.inv(),
        model::free_outcome(s, user_ptr, total_len) matches Some(FreeOutcome::Freed { .. }),
        freed_in(s.freed(user_ptr, free_ips), ops) < s.q_cap,
        regions_disjoint(s),
        all_fresh(s.freed(user_ptr, free_ips), ops),
        s.slots[model::find_slot(s.slots, user_ptr)->0].covers(addr as int),
    ensures
        ({
            let i = model::find_slot(s.slots, user_ptr)->0;
            let t = run(s.freed(user_ptr, free_ips), ops);
            let fi = model::fault_info(t.slots, addr, page);
            &&& fi.kind == FaultKind::UseAfterFree
            &&& fi.slot == i
            &&& fi.user_ptr == user_ptr
            &&& fi.base == s.slots[i].base
            &&& fi.total_len == s.slots[i].total_len
            &&& fi.size == s.slots[i].size
            &&& fi.align == s.slots[i].align
            &&& t.slots[i].free_ips == free_ips
            &&& t.slots[i].alloc_ips == s.slots[i].alloc_ips
        }),
{
    let i = model::find_slot(s.slots, user_ptr)->0;
    model::lemma_found_is_occupied(s.slots, user_ptr);
    model::lemma_retired_inv(s, i, free_ips);
    let f = s.freed(user_ptr, free_ips);
    if s.quarantine.len() == s.q_cap {
        assert(s.slots[s.quarantine[0]].state == FREED);
    }
    let last = f.quarantine.len() - 1;
    assert(f.quarantine[last] == i);
    quarantine_is_a_window(f, last, ops);
    let t = run(f, ops);
    invariant_is_kept(f, ops);
    lemma_free_keeps_disjoint(s, user_ptr, free_ips);
    mappings_stay_disjoint(f, ops);
    assert(t.slots[i].covers(addr as int));
    fault_is_attributed(t, i, addr, page);
}

/// A free that is given the layout of the allocation seals the allocation's whole
/// mapping, guard page included.
pub proof fn whole_mapping_is_sealed(
    s: ArenaState,
    layout: Layout,
    mode: Mode,
    page: usize,
    base: usize,
)
    requires
        s.inv(),
        region::fenceable(layout.size as int, layout.align as int, page as int),
        ({
            let g = region::geometry(layout.size as int, layout.align as int, mode, page as int);
            let region = region::fenced_at(layout.size as int, g, page, base);
            &&& base + g.map_len <= usize::MAX
            &&& model::find_slot(s.slots, region.user) matches Some(i) && tracks_live(
                s,
                i,
                layout,
                region,
            )
        }),
    ensures
        ({
            let g = region::geometry(layout.size as int, layout.align as int, mode, page as int);
            let region = region::fenced_at(layout.size as int, g, page, base);
            model::free_outcome(s, region.user, g.map_len) matches Some(
                FreeOutcome::Freed { seal, .. },
            ) && seal == region.whole
        }),
{
}

/// A region that has joined the quarantine, as it was then.
pub struct Retired {
    pub slot: int,
    pub ptr: usize,
    pub region: Span,
}

/// The record of slot `i`.
pub open spec fn retired_slot(s: ArenaState, i: int) -> Retired {
    Retired {
        slot: i,
        ptr: s.slots[i].user_ptr,
        region: Span { addr: s.slots[i].base, len: s.slots[i].total_len },
    }
}

/// The quarantine, oldest first.
pub open spec fn queue(s: ArenaState) -> Seq<Retired> {
    Seq::new(s.quarantine.len(), |n: int| retired_slot(s, s.quarantine[n]))
}

/// The regions that a row of operations frees, in order.
pub open spec fn retired_in(s: ArenaState, ops: Seq<Operation>) -> Seq<Retired>
    decreases ops.len(),
{
    if ops.len() == 0 {
        Seq::<Retired>::empty()
    } else {
        let r = run(s, ops.drop_last());
        let before = retired_in(s, ops.drop_last());
        match ops.last() {
            Operation::Insert { .. } => before,
            Operation::Free { user_ptr, .. } => match model::find_slot(r.slots, user_ptr) {
                Some(i) => if r.slots[i].state != FREED {
                    before.push(retired_slot(r, i))
                } else {
                    before
                },
                None => before,
            },
        }
    }
}

/// The regions that a row of operations has unmapped, in order.
pub open spec fn unmapped_in(s: ArenaState, ops: Seq<Operation>) -> Seq<Span>
    decreases ops.len(),
{
    if ops.len() == 0 {
        Seq::<Span>::empty()
    } else {
        let r = run(s, ops.drop_last());
        let before = unmapped_in(s, ops.drop_last());
        match ops.last() {
            Operation::Insert { .. } => before,
            Operation::Free { user_ptr, .. } => match model::free_outcome(r, user_ptr, 0) {
                Some(FreeOutcome::Freed { unmap: Some(span), .. }) => before.push(span),
                _ => before,
            },
        }
    }
}

/// How many regions leave a quarantine that has room for `q_cap`, if `n` join the
/// `held` that are there.
pub open spec fn overflowing(held: int, n: int, q_cap: int) -> int {
    if held + n > q_cap {
        held + n - q_cap
    } else {
        0
    }
}

/// The quarantine is a queue: after a row of operations, what it held before and
/// what was freed since has been unmapped in that order, as far as there was no
/// room for it, and the rest is in quarantine. So it grows up to its capacity,
/// and from then on each free evicts one region.
pub proof fn quarantine_is_a_queue(s: ArenaState, ops: Seq<Operation>)
    requires
        s.inv(),
    ensures
        ({
            let t = run(s, ops);
            let all = queue(s) + retired_in(s, ops);
            let out = overflowing(
                s.quarantine.len() as int,
                freed_in(s, ops) as int,
                s.q_cap as int,
            );
            &&& retired_in(s, ops).len() == freed_in(s, ops)
            &&& t.quarantine.len() == all.len() - out
            &&& t.quarantine.len() == if all.len() < s.q_cap {
                all.len()
            } else {
                s.q_cap
            }
            &&& t.evictions == (s.evictions + out) % (usize::MAX + 1)
            &&& queue(t) == all.skip(out)
            &&& unmapped_in(s, ops) == all.take(out).map_values(|e: Retired| e.region)
        }),
    decreases ops.len(),
{
    let t = run(s, ops);
    let all = queue(s) + retired_in(s, ops);
    let held = s.quarantine.len() as int;
    let q_cap = s.q_cap as int;
    let m = usize::MAX + 1;
    let out = overflowing(held, freed_in(s, ops) as int, q_cap);
    if ops.len() == 0 {
        lemma_small_mod(s.evictions as nat, m as nat);
        assert(all.skip(0) =~= queue(s));
        assert(unmapped_in(s, ops) =~= all.take(0).map_values(|e: Retired| e.region));
    } else {
        let before = ops.drop_last();
        quarantine_is_a_queue(s, before);
        invariant_is_kept(s, before);
        let r = run(s, before);
        let was = queue(s) + retired_in(s, before);
        let old_out = overflowing(held, freed_in(s, before) as int, q_cap);
        lemma_queue_step(r, ops.last());
        if ops.last().frees(r) {
            match ops.last() {
                Operation::Insert { .. } => {},
                Operation::Free { user_ptr, free_ips } => {
                    let i = model::find_slot(r.slots, user_ptr)->0;
                    let e = retired_slot(r, i);
                    assert(all =~= was.push(e));
                    if r.quarantine.len() == r.q_cap {
                        assert(out == old_out + 1);
                        assert(queue(r)[0] == was[old_out]);
                        assert(queue(t) =~= all.skip(out));
                        assert(all.take(out) =~= was.take(old_out).push(was[old_out]));
                        assert(unmapped_in(s, ops) =~= all.take(out).map_values(
                            |e: Retired| e.region,
                        ));
                        lemma_add_mod_noop_right(1, s.evictions + old_out, m);
                        if r.evictions == usize::MAX {
                            lemma_mod_self_0(m);
                        } else {
                            lemma_small_mod((r.evictions + 1) as nat, m as nat);
                        }
                    } else {
                        assert(out == old_out == 0);
                        assert(queue(t) =~= all.skip(out));
                        assert(all.take(out) =~= was.take(old_out));
                    }
                },
            }
        } else {
            assert(all == was);
            assert(unmapped_in(s, ops) == unmapped_in(s, before));
        }
    }
}

/// What one operation does to the queue.
proof fn lemma_queue_step(r: ArenaState, op: Operation)
    requires
        r.inv(),
    ensures
        ({
            let t = op.applied(r);
            &&& !op.frees(r) ==> queue(t) == queue(r) && t.evictions == r.evictions
                && t.quarantine.len() == r.quarantine.len()
            &&& op.frees(r) ==> (op matches Operation::Free { user_ptr, .. } && {
                let e = retired_slot(r, model::find_slot(r.slots, user_ptr)->0);
                if r.quarantine.len() == r.q_cap {
                    &&& queue(t) == queue(r).drop_first().push(e)
                    &&& queue(r).len() > 0
                    &&& model::free_outcome(r, user_ptr, 0) matches Some(
                        FreeOutcome::Freed { unmap: Some(span), .. },
                    ) && span == queue(r)[0].region
                } else {
                    &&& queue(t) == queue(r).push(e)
                    &&& model::free_outcome(r, user_ptr, 0) matches Some(
                        FreeOutcome::Freed { unmap: None, .. },
                    )
                }
            })
        }),
{
    let t = op.applied(r);
    match op {
        Operation::Insert { user_ptr, .. } => {
            lemma_vacant_slot_is_vacant(r, user_ptr);
            assert forall|n: int| 0 <= n < r.quarantine.len() implies #[trigger] queue(t)[n]
                == queue(r)[n] by {
                assert(r.slots[r.quarantine[n]].state == FREED);
            }
            assert(queue(t) =~= queue(r));
        },
        Operation::Free { user_ptr, free_ips } => {
            model::lemma_found_is_occupied(r.slots, user_ptr);
            if op.frees(r) {
                let i = model::find_slot(r.slots, user_ptr)->0;
                model::lemma_retired_inv(r, i, free_ips);
                let e = retired_slot(r, i);
                assert forall|n: int| 0 <= n < r.quarantine.len() implies 0
                    <= #[trigger] r.quarantine[n] < r.slots.len() && r.quarantine[n] != i by {
                    assert(r.slots[r.quarantine[n]].state == FREED);
                }
                if r.quarantine.len() == r.q_cap {
                    assert(queue(t) =~= queue(r).drop_first().push(e));
                } else {
                    assert(queue(t) =~= queue(r).push(e));
                }
            }
        },
    }
}

/// A row of frees, of these pointers in this order.
pub open spec fn frees_of(ptrs: Seq<usize>, free_ips: Seq<[usize; IP_DEPTH]>) -> Seq<Operation> {
    Seq::new(ptrs.len(), |k: int| Operation::Free { user_ptr: ptrs[k], free_ips: free_ips[k] })
}

/// What a row of frees has done to each slot after `n` of them: slots of pointers
/// still to come are as they were, and none of the others is live.
proof fn lemma_frees(
    s: ArenaState,
    ptrs: Seq<usize>,
    free_ips: Seq<[usize; IP_DEPTH]>,
    n: int,
)
    requires
        s.inv(),
        ptrs.no_duplicates(),
        free_ips.len() == ptrs.len(),
        0 <= n <= ptrs.len(),
        forall|k: int|
            0 <= k < ptrs.len() ==> (model::find_slot(s.slots, #[trigger] ptrs[k]) matches Some(i)
                && s.slots[i].state == READY),
    ensures
        ({
            let ops = frees_of(ptrs.take(n), free_ips.take(n));
            let t = run(s, ops);
            &&& t.inv()
            &&& freed_in(s, ops) == n
            &&& t.live + n == s.live
            &&& retired_in(s, ops).len() == n
            &&& forall|k: int|
                0 <= k < n ==> #[trigger] retired_in(s, ops)[k] == retired_slot(
                    s,
                    model::find_slot(s.slots, ptrs[k])->0,
                )
            &&& forall|k: int|
                n <= k < ptrs.len() ==> {
                    let i = model::find_slot(s.slots, #[trigger] ptrs[k])->0;
                    &&& t.slots[i] == s.slots[i]
                    &&& model::find_slot(t.slots, ptrs[k]) == Some(i)
                }
            &&& forall|k: int|
                0 <= k < n ==> {
                    let i = model::find_slot(s.slots, #[trigger] ptrs[k])->0;
                    &&& t.slots[i].state != READY
                    &&& t.slots[i].state == FREED ==> model::find_slot(t.slots, ptrs[k]) == Some(i)
                }
            &&& t.slots.len() == s.slots.len()
            &&& forall|i: int|
                0 <= i < s.slots.len() ==> {
                    &&& (#[trigger] t.slots[i]).user_ptr == s.slots[i].user_ptr
                    &&& t.slots[i].occupied() ==> s.slots[i].occupied()
                }
        }),
    decreases n,
{
    let ops = frees_of(ptrs.take(n), free_ips.take(n));
    if n > 0 {
        lemma_frees(s, ptrs, free_ips, n - 1);
        let before = frees_of(ptrs.take(n - 1), free_ips.take(n - 1));
        assert(ops.drop_last() =~= before);
        let r = run(s, before);
        let t = run(s, ops);
        let p = ptrs[n - 1];
        let i = model::find_slot(s.slots, p)->0;
        model::lemma_found_is_occupied(s.slots, p);
        assert(r.slots[i] == s.slots[i]);
        model::lemma_retired_inv(r, i, free_ips[n - 1]);
        assert(ops.last() == Operation::Free { user_ptr: p, free_ips: free_ips[n - 1] });
        if r.quarantine.len() == r.q_cap {
            assert(r.slots[r.quarantine[0]].state == FREED);
        }
        assert(retired_in(s, ops) == retired_in(s, before).push(retired_slot(r, i)));
        assert forall|k: int| n <= k < ptrs.len() implies ({
            let j = model::find_slot(s.slots, #[trigger] ptrs[k])->0;
            &&& t.slots[j] == s.slots[j]
            &&& model::find_slot(t.slots, ptrs[k]) == Some(j)
        }) by {
            let j = model::find_slot(s.slots, ptrs[k])->0;
            model::lemma_found_is_occupied(s.slots, ptrs[k]);
            assert(ptrs[k] != ptrs[n - 1]);
            assert(r.slots[j] == s.slots[j]);
            free_then_search(r, p, free_ips[n - 1], ptrs[k]);
        }
        assert forall|k: int| 0 <= k < n implies ({
            let j = model::find_slot(s.slots, #[trigger] ptrs[k])->0;
            &&& t.slots[j].state != READY
            &&& t.slots[j].state == FREED ==> model::find_slot(t.slots, ptrs[k]) == Some(j)
        }) by {
            model::lemma_found_is_occupied(s.slots, ptrs[k]);
            let j = model::find_slot(s.slots, ptrs[k])->0;
            if k < n - 1 {
                assert(ptrs[k] != ptrs[n - 1]);
                assert(r.slots[j].state != READY);
                assert(j != i);
            }
            if t.slots[j].state == FREED {
                free_then_search(r, p, free_ips[n - 1], ptrs[k]);
            }
        }
        assert forall|j: int| 0 <= j < s.slots.len() implies {
            &&& (#[trigger] t.slots[j]).user_ptr == s.slots[j].user_ptr
            &&& t.slots[j].occupied() ==> s.slots[j].occupied()
        } by {
            assert(r.slots[j].user_ptr == s.slots[j].user_ptr);
        }
    }
}

/// Live pointers that are freed one after the other: the last of them, as many as
/// the quarantine has room for, are known as freed, and the earlier ones are
/// unknown, unless they were tracked twice. What is unmapped are the regions that were in quarantine before, then
/// those of the pointers, each in the order in which they were freed.
pub proof fn frees_in_a_row(
    s: ArenaState,
    ptrs: Seq<usize>,
    free_ips: Seq<[usize; IP_DEPTH]>,
    k: int,
)
    requires
        s.inv(),
        ptrs.no_duplicates(),
        free_ips.len() == ptrs.len(),
        forall|k: int|
            0 <= k < ptrs.len() ==> (model::find_slot(s.slots, #[trigger] ptrs[k]) matches Some(i)
                && s.slots[i].state == READY),
        0 <= k < ptrs.len(),
    ensures
        ({
            let ops = frees_of(ptrs, free_ips);
            let t = run(s, ops);
            let held = s.quarantine.len() as int;
            let n = ptrs.len() as int;
            let out = overflowing(held, n, s.q_cap as int);
            let i = model::find_slot(s.slots, ptrs[k])->0;
            let freed = Seq::new(
                ptrs.len(),
                |j: int| retired_slot(s, model::find_slot(s.slots, ptrs[j])->0),
            );
            &&& held + k >= out ==> {
                &&& model::find_slot(t.slots, ptrs[k]) == Some(i)
                &&& t.slots[i].state == FREED
                &&& allocator::status(t, ptrs[k]) == Some("freed"@)
            }
            &&& held + k < out ==> {
                &&& t.slots[i].state == TOMB
                &&& tracked_once(s, ptrs[k]) ==> allocator::status(t, ptrs[k]) is None
            }
            &&& t.quarantine.len() == held + n - out
            &&& t.evictions == (s.evictions + out) % (usize::MAX + 1)
            &&& t.live + n == s.live
            &&& unmapped_in(s, ops) == (queue(s) + freed).take(out).map_values(
                |e: Retired| e.region,
            )
        }),
{
    let ops = frees_of(ptrs, free_ips);
    let t = run(s, ops);
    let held = s.quarantine.len() as int;
    let n = ptrs.len() as int;
    let out = overflowing(held, n, s.q_cap as int);
    let p = ptrs[k];
    let i = model::find_slot(s.slots, p)->0;
    lemma_frees(s, ptrs, free_ips, n);
    assert(ptrs.take(n) =~= ptrs);
    assert(free_ips.take(n) =~= free_ips);
    quarantine_is_a_queue(s, ops);
    let freed = Seq::new(
        ptrs.len(),
        |j: int| retired_slot(s, model::find_slot(s.slots, ptrs[j])->0),
    );
    assert(retired_in(s, ops) =~= freed);
    let all = queue(s) + freed;
    model::lemma_found_is_occupied(s.slots, p);
    if held + k >= out {
        let rank = held + k - out;
        assert(queue(t)[rank] == all[held + k]);
        assert(t.quarantine[rank] == i);
        assert(t.slots[i].state == FREED);
        assert(p == ptrs[k]);
    } else {
        if t.slots[i].state == FREED {
            let rank = choose|rank: int| 0 <= rank < t.quarantine.len() && t.quarantine[rank] == i;
            assert(queue(t)[rank] == all[rank + out]);
            assert(all[rank + out].slot == i);
            if rank + out < held {
                assert(queue(s)[rank + out].slot == i);
                assert(s.slots[s.quarantine[rank + out]].state == FREED);
            } else {
                let k2 = rank + out - held;
                assert(freed[k2].slot == i);
                model::lemma_found_is_occupied(s.slots, ptrs[k2]);
                assert(ptrs[k2] == p);
            }
        }
        lemma_never_empty(s, ops, i);
        assert(t.slots[i].state <= TOMB);
        search_finds_what_is_tracked(t, p);
        if tracked_once(s, p) && knows(t, p) {
            let j = choose|j: int|
                0 <= j < t.slots.len() && (#[trigger] t.slots[j]).occupied()
                    && t.slots[j].user_ptr == p;
            assert(s.slots[j].occupied());
            assert(j == i);
        }
    }
}

/// A slot that has held an allocation does not look unused again.
proof fn lemma_never_empty(s: ArenaState, ops: Seq<Operation>, i: int)
    requires
        s.inv(),
        0 <= i < s.slots.len(),
        s.slots[i].state != EMPTY,
    ensures
        run(s, ops).slots[i].state != EMPTY,
    decreases ops.len(),
{
    if ops.len() > 0 {
        let before = ops.drop_last();
        lemma_never_empty(s, before, i);
        invariant_is_kept(s, before);
        let r = run(s, before);
        match ops.last() {
            Operation::Insert { user_ptr, .. } => {
                lemma_vacant_slot_is_vacant(r, user_ptr);
            },
            Operation::Free { user_ptr, .. } => {
                model::lemma_found_is_occupied(r.slots, user_ptr);
                if r.quarantine.len() == r.q_cap {
                    assert(r.slots[r.quarantine[0]].state == FREED);
                }
            },
        }
    }
}

/// Some operation of a row records `ptr`.
pub open spec fn records_pointer(ops: Seq<Operation>, ptr: usize) -> bool {
    exists|n: int|
        0 <= n < ops.len() && ((#[trigger] ops[n]) matches Operation::Insert { user_ptr, .. }
            && user_ptr == ptr)
}

/// Some operation of a row frees `ptr`.
pub open spec fn frees_pointer(ops: Seq<Operation>, ptr: usize) -> bool {
    exists|n: int|
        0 <= n < ops.len() && ((#[trigger] ops[n]) matches Operation::Free { user_ptr, .. }
            && user_ptr == ptr)
}

proof fn lemma_frees_less(ops: Seq<Operation>, ptr: usize)
    requires
        ops.len() > 0,
        !frees_pointer(ops, ptr),
    ensures
        !frees_pointer(ops.drop_last(), ptr),
        ops.last() matches Operation::Free { user_ptr, .. } ==> user_ptr != ptr,
{
    assert(ops[ops.len() - 1] == ops.last());
    if frees_pointer(ops.drop_last(), ptr) {
        let n = choose|n: int|
            0 <= n < ops.len() - 1 && ((#[trigger] ops.drop_last()[n]) matches Operation::Free {
                user_ptr,
                ..
            } && user_ptr == ptr);
        assert(ops[n] == ops.drop_last()[n]);
    }
}

/// What a search for a pointer finds, it finds after an operation that does not
/// record the pointer, as long as the slot still holds an allocation.
proof fn lemma_search_stays(r: ArenaState, op: Operation, ptr: usize)
    requires
        r.inv(),
        op matches Operation::Insert { user_ptr, .. } ==> user_ptr != ptr,
        model::find_slot(r.slots, ptr) is Some,
        op.applied(r).slots[model::find_slot(r.slots, ptr)->0].occupied(),
    ensures
        model::find_slot(op.applied(r).slots, ptr) == model::find_slot(r.slots, ptr),
{
    let t = op.applied(r);
    let i = model::find_slot(r.slots, ptr)->0;
    let cap = r.slots.len() as int;
    model::lemma_found_is_occupied(r.slots, ptr);
    match op {
        Operation::Insert { user_ptr, .. } => {
            lemma_vacant_slot_is_vacant(r, user_ptr);
        },
        Operation::Free { user_ptr, .. } => {
            model::lemma_found_is_occupied(r.slots, user_ptr);
            if r.quarantine.len() == r.q_cap {
                assert(r.slots[r.quarantine[0]].state == FREED);
            }
        },
    }
    let k = choose|k: int| model::first_stop(r.slots, ptr, k);
    assert(model::first_stop(r.slots, ptr, k));
    assert forall|j: int| 0 <= j < k implies !model::stops(
        #[trigger] t.slots[model::probe(ptr, cap, j)],
        ptr,
    ) by {
        model::lemma_probe_bounds(ptr, cap, j);
        assert(!model::stops(r.slots[model::probe(ptr, cap, j)], ptr));
    }
    assert(t.slots[i].user_ptr == ptr);
    assert(model::stops(t.slots[i], ptr));
    assert(model::first_stop(t.slots, ptr, k));
    model::lemma_find_slot(t.slots, ptr, k);
}

/// A live pointer is found in its slot, which stays as it is, until the pointer is
/// freed or recorded again.
pub proof fn live_pointer_stays(s: ArenaState, ptr: usize, ops: Seq<Operation>)
    requires
        s.inv(),
        model::find_slot(s.slots, ptr) matches Some(i) && s.slots[i].state == READY,
        !records_pointer(ops, ptr),
        !frees_pointer(ops, ptr),
    ensures
        ({
            let i = model::find_slot(s.slots, ptr)->0;
            &&& model::find_slot(run(s, ops).slots, ptr) == Some(i)
            &&& run(s, ops).slots[i] == s.slots[i]
        }),
    decreases ops.len(),
{
    model::lemma_found_is_occupied(s.slots, ptr);
    if ops.len() > 0 {
        let before = ops.drop_last();
        lemma_records_less(ops, ptr);
        lemma_frees_less(ops, ptr);
        live_pointer_stays(s, ptr, before);
        invariant_is_kept(s, before);
        let r = run(s, before);
        let i = model::find_slot(s.slots, ptr)->0;
        match ops.last() {
            Operation::Insert { user_ptr, .. } => {
                lemma_vacant_slot_is_vacant(r, user_ptr);
            },
            Operation::Free { user_ptr, .. } => {
                model::lemma_found_is_occupied(r.slots, user_ptr);
                if r.quarantine.len() == r.q_cap {
                    assert(r.slots[r.quarantine[0]].state == FREED);
                }
            },
        }
        lemma_search_stays(r, ops.last(), ptr);
    }
}

/// A freed pointer is found in its slot, which stays as it is, while fewer regions
/// are freed after it than the quarantine holds, and it is not recorded again.
pub proof fn freed_pointer_stays(
    s: ArenaState,
    user_ptr: usize,
    total_len: usize,
    free_ips: [usize; IP_DEPTH],
    ops: Seq<Operation>,
)
    requires
        s.inv(),
        model::free_outcome(s, user_ptr, total_len) matches Some(FreeOutcome::Freed { .. }),
        freed_in(s.freed(user_ptr, free_ips), ops) < s.q_cap,
        !records_pointer(ops, user_ptr),
    ensures
        ({
            let i = model::find_slot(s.slots, user_ptr)->0;
            let t = run(s.freed(user_ptr, free_ips), ops);
            &&& model::find_slot(t.slots, user_ptr) == Some(i)
            &&& t.slots[i] == (Region { state: FREED, free_ips, ..s.slots[i] })
        }),
    decreases ops.len(),
{
    let i = model::find_slot(s.slots, user_ptr)->0;
    let f = s.freed(user_ptr, free_ips);
    model::lemma_found_is_occupied(s.slots, user_ptr);
    model::lemma_retired_inv(s, i, free_ips);
    if s.quarantine.len() == s.q_cap {
        assert(s.slots[s.quarantine[0]].state == FREED);
    }
    let last = f.quarantine.len() - 1;
    assert(f.quarantine[last] == i);
    quarantine_is_a_window(f, last, ops);
    if ops.len() == 0 {
        free_then_search(s, user_ptr, free_ips, user_ptr);
    } else {
        let before = ops.drop_last();
        lemma_records_less(ops, user_ptr);
        freed_pointer_stays(s, user_ptr, total_len, free_ips, before);
        invariant_is_kept(f, before);
        lemma_search_stays(run(f, before), ops.last(), user_ptr);
    }
}

/// A pointer that is freed again, while fewer further regions were freed than the
/// quarantine holds, and it was not handed out again, is recognised as freed
/// twice.
pub proof fn late_double_free_is_detected(
    s: ArenaState,
    user_ptr: usize,
    total_len: usize,
    free_ips: [usize; IP_DEPTH],
    ops: Seq<Operation>,
    second_len: usize,
)
    requires
        s.inv(),
        model::free_outcome(s, user_ptr, total_len) matches Some(FreeOutcome::Freed { .. }),
        freed_in(s.freed(user_ptr, free_ips), ops) < s.q_cap,
        !records_pointer(ops, user_ptr),
    ensures
        model::free_outcome(run(s.freed(user_ptr, free_ips), ops), user_ptr, second_len)
            == Some(FreeOutcome::DoubleFree),
{
    freed_pointer_stays(s, user_ptr, total_len, free_ips, ops);
}

/// A pointer that is tracked once is not tracked twice unless it is recorded.
pub proof fn tracked_once_until_recorded(s: ArenaState, ptr: usize, ops: Seq<Operation>)
    requires
        s.inv(),
        tracked_once(s, ptr),
        !records_pointer(ops, ptr),
    ensures
        tracked_once(run(s, ops), ptr),
    decreases ops.len(),
{
    if ops.len() > 0 {
        let before = ops.drop_last();
        lemma_records_less(ops, ptr);
        tracked_once_until_recorded(s, ptr, before);
        invariant_is_kept(s, before);
        lemma_applied_once(run(s, before), ops.last(), ptr);
    }
}

proof fn lemma_applied_once(r: ArenaState, op: Operation, ptr: usize)
    requires
        r.inv(),
        tracked_once(r, ptr),
        op matches Operation::Insert { user_ptr, .. } ==> user_ptr != ptr || !knows(r, ptr),
    ensures
        tracked_once(op.applied(r), ptr),
{
    let t = op.applied(r);
    match op {
        Operation::Insert { user_ptr, .. } => {
            lemma_vacant_slot_is_vacant(r, user_ptr);
        },
        Operation::Free { user_ptr, .. } => {
            model::lemma_found_is_occupied(r.slots, user_ptr);
            if r.quarantine.len() == r.q_cap {
                assert(r.slots[r.quarantine[0]].state == FREED);
            }
        },
    }
    assert forall|i: int, j: int|
        0 <= i < t.slots.len() && 0 <= j < t.slots.len() && (#[trigger] t.slots[i]).occupied() && (
        #[trigger] t.slots[j]).occupied() && t.slots[i].user_ptr == ptr && t.slots[j].user_ptr
            == ptr implies i == j by {
        if r.slots[i].occupied() && r.slots[j].occupied() && r.slots[i].user_ptr == ptr
            && r.slots[j].user_ptr == ptr {
            assert(i == j);
        }
    }
}

/// A pointer that is not tracked stays so until it is recorded.
pub proof fn unknown_until_recorded(s: ArenaState, ptr: usize, ops: Seq<Operation>)
    requires
        s.inv(),
        !knows(s, ptr),
        !records_pointer(ops, ptr),
    ensures
        !knows(run(s, ops), ptr),
        allocator::status(run(s, ops), ptr) is None,
    decreases ops.len(),
{
    invariant_is_kept(s, ops);
    if ops.len() > 0 {
        let before = ops.drop_last();
        lemma_records_less(ops, ptr);
        unknown_until_recorded(s, ptr, before);
        invariant_is_kept(s, before);
        lemma_applied_unknown(run(s, before), ops.last(), ptr);
    }
    search_finds_what_is_tracked(run(s, ops), ptr);
}

proof fn lemma_records_less(ops: Seq<Operation>, ptr: usize)
    requires
        ops.len() > 0,
        !records_pointer(ops, ptr),
    ensures
        !records_pointer(ops.drop_last(), ptr),
        ops.last() matches Operation::Insert { user_ptr, .. } ==> user_ptr != ptr,
{
    assert(ops[ops.len() - 1] == ops.last());
    if records_pointer(ops.drop_last(), ptr) {
        let n = choose|n: int|
            0 <= n < ops.len() - 1 && ((#[trigger] ops.drop_last()[n]) matches Operation::Insert {
                user_ptr,
                ..
            } && user_ptr == ptr);
        assert(ops[n] == ops.drop_last()[n]);
    }
}

proof fn lemma_applied_unknown(r: ArenaState, op: Operation, ptr: usize)
    requires
        r.inv(),
        !knows(r, ptr),
        op matches Operation::Insert { user_ptr, .. } ==> user_ptr != ptr,
    ensures
        !knows(op.applied(r), ptr),
{
    let t = op.applied(r);
    match op {
        Operation::Insert { user_ptr, .. } => {
            lemma_vacant_slot_is_vacant(r, user_ptr);
        },
        Operation::Free { user_ptr, .. } => {
            model::lemma_found_is_occupied(r.slots, user_ptr);
            if r.quarantine.len() == r.q_cap {
                assert(r.slots[r.quarantine[0]].state == FREED);
            }
        },
    }
    if knows(t, ptr) {
        let i = choose|i: int|
            0 <= i < t.slots.len() && (#[trigger] t.slots[i]).occupied() && t.slots[i].user_ptr
                == ptr;
        assert(r.slots[i].occupied());
    }
}

/// A registry before its first operation keeps all that the laws ask of one, and
/// knows no pointer.
pub proof fn fresh_registry_is_sound(s: ArenaState, cap: int, q_cap: int, ptr: usize)
    requires
        s.inv(),
        s.is_fresh(cap, q_cap),
    ensures
        pointers_unique(s),
        pointers_inside(s),
        regions_disjoint(s),
        !knows(s, ptr),
{
    assert forall|i: int, j: int|
        0 <= i < s.slots.len() && 0 <= j < s.slots.len() && i != j implies !(
    #[trigger] s.slots[i]).overlaps(#[trigger] s.slots[j]) by {
        assert(s.slots[i] == model::blank());
    }
}

/// A pointer that was never recorded is not known.
pub proof fn unrecorded_pointer_is_unknown(
    s: ArenaState,
    cap: int,
    q_cap: int,
    ptr: usize,
    ops: Seq<Operation>,
)
    requires
        s.inv(),
        s.is_fresh(cap, q_cap),
        !records_pointer(ops, ptr),
    ensures
        allocator::status(run(s, ops), ptr) is None,
{
    fresh_registry_is_sound(s, cap, q_cap, ptr);
    unknown_until_recorded(s, ptr, ops);
}

/// The free that brings the number of frees up to the quarantine's capacity
/// evicts what was freed last before them.
proof fn lemma_eviction(f: ArenaState, ops: Seq<Operation>)
    requires
        f.inv(),
        f.quarantine.len() > 0,
        ops.len() > 0,
        freed_in(f, ops.drop_last()) == f.q_cap - 1,
        freed_in(f, ops) == f.q_cap,
    ensures
        run(f, ops).slots[f.quarantine.last()] == (Region {
            state: TOMB,
            ..f.slots[f.quarantine.last()]
        }),
{
    let before = ops.drop_last();
    let last = f.quarantine.len() - 1;
    let i = f.quarantine[last];
    quarantine_is_a_window(f, last, before);
    invariant_is_kept(f, before);
    let r = run(f, before);
    let rank = r.quarantine.len() - f.q_cap;
    assert(r.quarantine[rank] == i);
    assert(rank == 0);
    match ops.last() {
        Operation::Insert { .. } => {},
        Operation::Free { user_ptr, .. } => {
            model::lemma_found_is_occupied(r.slots, user_ptr);
            assert(r.slots[i].state == FREED);
        },
    }
}

/// Once as many regions have been freed after it as the quarantine holds, a
/// freed pointer is no longer known, until it is recorded again.
pub proof fn unknown_once_evicted(
    s: ArenaState,
    user_ptr: usize,
    total_len: usize,
    free_ips: [usize; IP_DEPTH],
    ops: Seq<Operation>,
)
    requires
        s.inv(),
        tracked_once(s, user_ptr),
        model::free_outcome(s, user_ptr, total_len) matches Some(FreeOutcome::Freed { .. }),
        freed_in(s.freed(user_ptr, free_ips), ops) >= s.q_cap,
        !records_pointer(ops, user_ptr),
    ensures
        !knows(run(s.freed(user_ptr, free_ips), ops), user_ptr),
        allocator::status(run(s.freed(user_ptr, free_ips), ops), user_ptr) is None,
    decreases ops.len(),
{
    let f = s.freed(user_ptr, free_ips);
    let i = model::find_slot(s.slots, user_ptr)->0;
    model::lemma_found_is_occupied(s.slots, user_ptr);
    model::lemma_retired_inv(s, i, free_ips);
    if s.quarantine.len() == s.q_cap {
        assert(s.slots[s.quarantine[0]].state == FREED);
    }
    assert(f == Operation::Free { user_ptr, free_ips }.applied(s));
    lemma_applied_once(s, Operation::Free { user_ptr, free_ips }, user_ptr);
    assert(f.quarantine.last() == i);
    let t = run(f, ops);
    invariant_is_kept(f, ops);
    search_finds_what_is_tracked(t, user_ptr);
    let before = ops.drop_last();
    let r = run(f, before);
    invariant_is_kept(f, before);
    lemma_records_less(ops, user_ptr);
    if freed_in(f, before) >= s.q_cap {
        unknown_once_evicted(s, user_ptr, total_len, free_ips, before);
        lemma_applied_unknown(r, ops.last(), user_ptr);
    } else {
        lemma_eviction(f, ops);
        tracked_once_until_recorded(f, user_ptr, before);
        quarantine_is_a_window(f, f.quarantine.len() - 1, before);
        if knows(t, user_ptr) {
            let j = choose|j: int|
                0 <= j < t.slots.len() && (#[trigger] t.slots[j]).occupied()
                    && t.slots[j].user_ptr == user_ptr;
            match ops.last() {
                Operation::Insert { .. } => {},
                Operation::Free { user_ptr: p, .. } => {
                    model::lemma_found_is_occupied(r.slots, p);
                    if r.quarantine.len() == r.q_cap {
                        assert(r.slots[r.quarantine[0]].state == FREED);
                    }
                },
            }
            assert(r.slots[j].occupied() && r.slots[j].user_ptr == user_ptr);
            assert(r.slots[i].occupied() && r.slots[i].user_ptr == user_ptr);
        }
    }
}

/// The life of a pointer: it is ready from when it is handed out until it is
/// freed, freed while fewer regions are freed after it than the quarantine holds,
/// and unknown from then on, until it is handed out again. `live` are the
/// operations before the free, `after` those since.
pub proof fn life_of_a_pointer(
    s: ArenaState,
    layout: Layout,
    region: Fenced,
    alloc_ips: [usize; IP_DEPTH],
    live: Seq<Operation>,
    free_ips: [usize; IP_DEPTH],
    after: Seq<Operation>,
)
    requires
        s.inv(),
        !knows(s, region.user),
        model::vacant_slot(s.slots, region.user) is Some,
        !records_pointer(live, region.user),
        !frees_pointer(live, region.user),
        !records_pointer(after, region.user),
    ensures
        ({
            let a = allocator::recorded(s, layout, region, alloc_ips);
            let b = run(a, live);
            let c = b.freed(region.user, free_ips);
            let d = run(c, after);
            &&& allocator::status(s, region.user) is None
            &&& allocator::status(a, region.user) == Some("ready"@)
            &&& allocator::status(b, region.user) == Some("ready"@)
            &&& allocator::status(c, region.user) == Some("freed"@)
            &&& freed_in(c, after) < s.q_cap ==> allocator::status(d, region.user) == Some(
                "freed"@,
            )
            &&& freed_in(c, after) >= s.q_cap ==> allocator::status(d, region.user) is None
        }),
{
    let ptr = region.user;
    let size = region::buffer_len(layout.size as int) as usize;
    let op = Operation::Insert {
        base: region.whole.addr,
        total_len: region.whole.len,
        user_ptr: ptr,
        size,
        align: layout.align,
        guard_addr: region.guard.addr,
        alloc_ips,
    };
    let a = allocator::recorded(s, layout, region, alloc_ips);
    let v = model::vacant_slot(s.slots, ptr)->0;
    assert(a == op.applied(s));
    search_finds_what_is_tracked(s, ptr);
    lemma_vacant_slot_is_vacant(s, ptr);
    lemma_applied_inv(s, op);
    lemma_applied_once(s, op, ptr);
    lemma_insert_then_search(
        s,
        region.whole.addr,
        region.whole.len,
        ptr,
        size,
        layout.align,
        region.guard.addr,
        alloc_ips,
        if ptr == 0 {
            1
        } else {
            0
        },
    );
    let b = run(a, live);
    invariant_is_kept(a, live);
    live_pointer_stays(a, ptr, live);
    tracked_once_until_recorded(a, ptr, live);
    let c = b.freed(ptr, free_ips);
    assert(run(c, Seq::<Operation>::empty()) == c);
    freed_pointer_stays(b, ptr, region.whole.len, free_ips, Seq::<Operation>::empty());
    if freed_in(c, after) < s.q_cap {
        freed_pointer_stays(b, ptr, region.whole.len, free_ips, after);
    } else {
        unknown_once_evicted(b, ptr, region.whole.len, free_ips, after);
    }
}

/// Some operation of a row records a mapping that contains `addr`.
pub open spec fn records_address(ops: Seq<Operation>, addr: usize) -> bool {
    exists|n: int|
        0 <= n < ops.len() && ((#[trigger] ops[n]) matches Operation::Insert { base, total_len, .. }
            && base <= addr < base + total_len)
}

/// Once as many regions have been freed after it as the quarantine holds, an
/// access to a freed buffer is reported as wild, unless a new mapping contains
/// the address.
pub proof fn evicted_region_is_wild(
    s: ArenaState,
    user_ptr: usize,
    total_len: usize,
    free_ips: [usize; IP_DEPTH],
    ops: Seq<Operation>,
    addr: usize,
    page: usize,
)
    requires
        s.inv(),
        regions_disjoint(s),
        model::free_outcome(s, user_ptr, total_len) matches Some(FreeOutcome::Freed { .. }),
        s.slots[model::find_slot(s.slots, user_ptr)->0].covers(addr as int),
        freed_in(s.freed(user_ptr, free_ips), ops) >= s.q_cap,
        !records_address(ops, addr),
    ensures
        model::fault_info(run(s.freed(user_ptr, free_ips), ops).slots, addr, page).kind
            == FaultKind::Wild,
{
    let f = s.freed(user_ptr, free_ips);
    let i = model::find_slot(s.slots, user_ptr)->0;
    model::lemma_found_is_occupied(s.slots, user_ptr);
    model::lemma_retired_inv(s, i, free_ips);
    if s.quarantine.len() == s.q_cap {
        assert(s.slots[s.quarantine[0]].state == FREED);
    }
    lemma_free_keeps_disjoint(s, user_ptr, free_ips);
    assert(f.quarantine.last() == i);
    assert(f.slots[i].covers(addr as int));
    assert forall|j: int| 0 <= j < f.slots.len() && j != i implies !(
    #[trigger] f.slots[j]).covers(addr as int) by {
        assert(!f.slots[i].overlaps(f.slots[j]));
    }
    lemma_only_cover(f, ops, addr);
    invariant_is_kept(f, ops);
    wild_means_untracked(run(f, ops), addr, page);
}

/// What was freed last stays the only region that contains an address until it
/// is evicted, and after that none does.
proof fn lemma_only_cover(f: ArenaState, ops: Seq<Operation>, addr: usize)
    requires
        f.inv(),
        f.quarantine.len() > 0,
        forall|j: int|
            0 <= j < f.slots.len() && j != f.quarantine.last() ==> !(#[trigger] f.slots[j]).covers(
                addr as int,
            ),
        !records_address(ops, addr),
    ensures
        forall|j: int|
            0 <= j < f.slots.len() && (j != f.quarantine.last() || freed_in(f, ops) >= f.q_cap)
                ==> !(#[trigger] run(f, ops).slots[j]).covers(addr as int),
    decreases ops.len(),
{
    if ops.len() > 0 {
        let before = ops.drop_last();
        let r = run(f, before);
        let t = run(f, ops);
        let op = ops[ops.len() - 1];
        assert(op == ops.last());
        if records_address(before, addr) {
            let n = choose|n: int|
                0 <= n < before.len() && ((#[trigger] before[n]) matches Operation::Insert {
                    base,
                    total_len,
                    ..
                } && base <= addr < base + total_len);
            assert(ops[n] == before[n]);
        }
        lemma_only_cover(f, before, addr);
        invariant_is_kept(f, before);
        match op {
            Operation::Insert { user_ptr, .. } => {
                lemma_vacant_slot_is_vacant(r, user_ptr);
            },
            Operation::Free { user_ptr, .. } => {
                model::lemma_found_is_occupied(r.slots, user_ptr);
                if r.quarantine.len() == r.q_cap {
                    assert(r.slots[r.quarantine[0]].state == FREED);
                }
            },
        }
        if freed_in(f, before) < f.q_cap && freed_in(f, ops) >= f.q_cap {
            lemma_eviction(f, ops);
        }
        assert forall|j: int|
            0 <= j < f.slots.len() && (j != f.quarantine.last() || freed_in(f, ops)
                >= f.q_cap) implies !(#[trigger] t.slots[j]).covers(addr as int) by {
            if j != f.quarantine.last() || freed_in(f, before) >= f.q_cap {
                assert(!r.slots[j].covers(addr as int));
            }
        }
    }
}

/// The table as its readers see it is the registry's.
pub open spec fn shows(table: Seq<publish::Seen>, s: ArenaState) -> bool {
    &&& table.len() == s.slots.len()
    &&& forall|i: int| 0 <= i < s.slots.len() ==> #[trigger] table[i] == publish::seen(s.slots[i])
}

/// Once the stores that publish an allocation are made, readers see the registry
/// as it is after the allocation was recorded.
pub proof fn published_allocation_is_seen(
    table: Seq<publish::Seen>,
    s: ArenaState,
    base: usize,
    total_len: usize,
    user_ptr: usize,
    size: usize,
    align: usize,
    guard_addr: usize,
    alloc_ips: [usize; IP_DEPTH],
)
    requires
        s.inv(),
        shows(table, s),
        model::vacant_slot(s.slots, user_ptr) is Some,
    ensures
        ({
            let t = s.inserted(base, total_len, user_ptr, size, align, guard_addr, alloc_ips);
            let i = model::vacant_slot(s.slots, user_ptr)->0;
            shows(
                table.update(i, publish::inserting(table[i], t.slots[i], INSERT_STORES as int)),
                t,
            )
        }),
{
    let t = s.inserted(base, total_len, user_ptr, size, align, guard_addr, alloc_ips);
    let i = model::vacant_slot(s.slots, user_ptr)->0;
    lemma_vacant_slot_is_vacant(s, user_ptr);
    publish::no_torn_allocation(s.slots[i], t.slots[i], INSERT_STORES as int);
    assert(t.slots[i] == Region { state: READY, free_ips: s.slots[i].free_ips, ..t.slots[i] });
}

/// Once the stores that publish a free, and the eviction it may lead to, are
/// made, readers see the registry as it is after the free.
pub proof fn published_free_is_seen(
    table: Seq<publish::Seen>,
    s: ArenaState,
    user_ptr: usize,
    total_len: usize,
    free_ips: [usize; IP_DEPTH],
)
    requires
        s.inv(),
        shows(table, s),
        model::free_outcome(s, user_ptr, total_len) matches Some(FreeOutcome::Freed { .. }),
    ensures
        ({
            let t = s.freed(user_ptr, free_ips);
            let i = model::find_slot(s.slots, user_ptr)->0;
            let freed = table.update(
                i,
                publish::freeing(table[i], t.slots[i], FREE_STORES as int),
            );
            if s.quarantine.len() == s.q_cap {
                let victim = s.quarantine[0];
                shows(freed.update(victim, freed[victim].stored(Store::State(TOMB))), t)
            } else {
                shows(freed, t)
            }
        }),
{
    let t = s.freed(user_ptr, free_ips);
    let i = model::find_slot(s.slots, user_ptr)->0;
    model::lemma_found_is_occupied(s.slots, user_ptr);
    if s.quarantine.len() == s.q_cap {
        assert(s.slots[s.quarantine[0]].state == FREED);
    }
    publish::no_torn_free(s.slots[i], t.slots[i], FREE_STORES as int);
    assert(t.slots[i] == Region { state: FREED, free_ips: t.slots[i].free_ips, ..s.slots[i] });
}

} // verus!
