//! How a slot is written where others read it at the same time.
//!
//! The fault handler takes no lock: it may look at a slot while a writer is
//! busy with it. So a writer changes one field at a time, in an order in which
//! the state, by which a reader tells whether a slot holds anything, comes
//! last.

use vstd::prelude::*;
use crate::registry::{Region, FREED, IP_DEPTH, READY, TOMB};

verus! {

/// One field of a slot gets a new value.
#[derive(Clone, Copy, PartialEq, Eq, Debug, Structural)]
pub enum Store {
    Base(usize),
    TotalLen(usize),
    UserPtr(usize),
    Size(usize),
    Align(usize),
    GuardAddr(usize),
    AllocIp { n: usize, ip: usize },
    FreeIp { n: usize, ip: usize },
    State(u8),
}

/// A slot as a reader sees it.
#[verifier::ext_equal]
pub struct Seen {
    pub state: u8,
    pub base: usize,
    pub total_len: usize,
    pub user_ptr: usize,
    pub size: usize,
    pub align: usize,
    pub guard_addr: usize,
    pub alloc_ips: Seq<usize>,
    pub free_ips: Seq<usize>,
}

/// What a reader sees of `r`.
pub open spec fn seen(r: Region) -> Seen {
    Seen {
        state: r.state,
        base: r.base,
        total_len: r.total_len,
        user_ptr: r.user_ptr,
        size: r.size,
        align: r.align,
        guard_addr: r.guard_addr,
        alloc_ips: r.alloc_ips@,
        free_ips: r.free_ips@,
    }
}

impl Seen {
    /// The slot after a store.
    pub open spec fn stored(self, store: Store) -> Seen {
        match store {
            Store::Base(v) => Seen { base: v, ..self },
            Store::TotalLen(v) => Seen { total_len: v, ..self },
            Store::UserPtr(v) => Seen { user_ptr: v, ..self },
            Store::Size(v) => Seen { size: v, ..self },
            Store::Align(v) => Seen { align: v, ..self },
            Store::GuardAddr(v) => Seen { guard_addr: v, ..self },
            Store::AllocIp { n, ip } => Seen {
                alloc_ips: self.alloc_ips.update(n as int, ip),
                ..self
            },
            Store::FreeIp { n, ip } => Seen {
                free_ips: self.free_ips.update(n as int, ip),
                ..self
            },
            Store::State(v) => Seen { state: v, ..self },
        }
    }
}

/// Number of stores that publish an allocation.
pub const INSERT_STORES: usize = 23;

/// Number of stores that publish a free.
pub const FREE_STORES: usize = 17;

/// Store number `k` of those that publish allocation `r`.
pub open spec fn insert_store_at(r: Region, k: int) -> Store {
    if k == 0 {
        Store::Base(r.base)
    } else if k == 1 {
        Store::TotalLen(r.total_len)
    } else if k == 2 {
        Store::UserPtr(r.user_ptr)
    } else if k == 3 {
        Store::Size(r.size)
    } else if k == 4 {
        Store::Align(r.align)
    } else if k == 5 {
        Store::GuardAddr(r.guard_addr)
    } else if k < 6 + IP_DEPTH {
        Store::AllocIp { n: (k - 6) as usize, ip: r.alloc_ips@[k - 6] }
    } else {
        Store::State(READY)
    }
}

/// Store number `k` of those that publish that `r` was freed.
pub open spec fn free_store_at(r: Region, k: int) -> Store {
    if k < IP_DEPTH {
        Store::FreeIp { n: k as usize, ip: r.free_ips@[k] }
    } else {
        Store::State(FREED)
    }
}

/// A slot after the first `k` stores that publish allocation `r`.
pub open spec fn inserting(slot: Seen, r: Region, k: int) -> Seen
    decreases k,
{
    if k <= 0 {
        slot
    } else {
        inserting(slot, r, k - 1).stored(insert_store_at(r, k - 1))
    }
}

/// A slot after the first `k` stores that publish that `r` was freed.
pub open spec fn freeing(slot: Seen, r: Region, k: int) -> Seen
    decreases k,
{
    if k <= 0 {
        slot
    } else {
        freeing(slot, r, k - 1).stored(free_store_at(r, k - 1))
    }
}

/// The store to make next after `k` of those that publish allocation `r`.
pub fn insert_store(r: &Region, k: usize) -> (store: Option<Store>)
    ensures
        store == (if k < INSERT_STORES {
            Some(insert_store_at(*r, k as int))
        } else {
            None
        }),
{
    if k == 0 {
        Some(Store::Base(r.base))
    } else if k == 1 {
        Some(Store::TotalLen(r.total_len))
    } else if k == 2 {
        Some(Store::UserPtr(r.user_ptr))
    } else if k == 3 {
        Some(Store::Size(r.size))
    } else if k == 4 {
        Some(Store::Align(r.align))
    } else if k == 5 {
        Some(Store::GuardAddr(r.guard_addr))
    } else if k < 6 + IP_DEPTH {
        Some(Store::AllocIp { n: k - 6, ip: r.alloc_ips[k - 6] })
    } else if k < INSERT_STORES {
        Some(Store::State(READY))
    } else {
        None
    }
}

/// The store to make next after `k` of those that publish that `r` was freed.
pub fn free_store(r: &Region, k: usize) -> (store: Option<Store>)
    ensures
        store == (if k < FREE_STORES {
            Some(free_store_at(*r, k as int))
        } else {
            None
        }),
{
    if k < IP_DEPTH {
        Some(Store::FreeIp { n: k, ip: r.free_ips[k] })
    } else if k < FREE_STORES {
        Some(Store::State(FREED))
    } else {
        None
    }
}

/// The one store that publishes an eviction.
pub fn evict_store() -> (store: Store)
    ensures
        store == Store::State(TOMB),
{
    Store::State(TOMB)
}

/// Whoever looks at a slot while an allocation is being published sees the state
/// from before, which says that the slot holds nothing, or the complete
/// allocation.
pub proof fn no_torn_allocation(before: Region, r: Region, k: int)
    requires
        before.vacant(),
        0 <= k <= INSERT_STORES,
    ensures
        k < INSERT_STORES ==> inserting(seen(before), r, k).state == before.state,
        k == INSERT_STORES ==> inserting(seen(before), r, k) == seen(
            Region { state: READY, free_ips: before.free_ips, ..r },
        ),
{
    lemma_inserting(seen(before), r, k);
    if k == INSERT_STORES {
        assert(inserting(seen(before), r, k).alloc_ips =~= r.alloc_ips@);
    }
}

/// What the first `k` stores of an allocation have reached.
proof fn lemma_inserting(slot: Seen, r: Region, k: int)
    requires
        0 <= k <= INSERT_STORES,
        slot.alloc_ips.len() == IP_DEPTH,
    ensures
        ({
            let s = inserting(slot, r, k);
            &&& s.base == if k > 0 { r.base } else { slot.base }
            &&& s.total_len == if k > 1 { r.total_len } else { slot.total_len }
            &&& s.user_ptr == if k > 2 { r.user_ptr } else { slot.user_ptr }
            &&& s.size == if k > 3 { r.size } else { slot.size }
            &&& s.align == if k > 4 { r.align } else { slot.align }
            &&& s.guard_addr == if k > 5 { r.guard_addr } else { slot.guard_addr }
            &&& s.alloc_ips.len() == IP_DEPTH
            &&& forall|n: int|
                0 <= n < IP_DEPTH && n + 6 < k ==> #[trigger] s.alloc_ips[n] == r.alloc_ips@[n]
            &&& s.free_ips == slot.free_ips
            &&& s.state == if k == INSERT_STORES { READY } else { slot.state }
        }),
    decreases k,
{
    if k > 0 {
        lemma_inserting(slot, r, k - 1);
    }
}

/// Whoever looks at a slot while a free is being published sees the allocation
/// as it was, live, or as freed, with the free's whole call stack.
pub proof fn no_torn_free(before: Region, r: Region, k: int)
    requires
        before.state == READY,
        0 <= k <= FREE_STORES,
    ensures
        k < FREE_STORES ==> freeing(seen(before), r, k) == (Seen {
            free_ips: freeing(seen(before), r, k).free_ips,
            ..seen(before)
        }),
        k == FREE_STORES ==> freeing(seen(before), r, k) == seen(
            Region { state: FREED, free_ips: r.free_ips, ..before },
        ),
{
    lemma_freeing(seen(before), r, k);
    if k == FREE_STORES {
        assert(freeing(seen(before), r, k).free_ips =~= r.free_ips@);
    }
}

/// What the first `k` stores of a free have reached.
proof fn lemma_freeing(slot: Seen, r: Region, k: int)
    requires
        0 <= k <= FREE_STORES,
        slot.free_ips.len() == IP_DEPTH,
    ensures
        ({
            let s = freeing(slot, r, k);
            &&& s == (Seen { state: s.state, free_ips: s.free_ips, ..slot })
            &&& s.free_ips.len() == IP_DEPTH
            &&& forall|n: int|
                0 <= n < IP_DEPTH && n < k ==> #[trigger] s.free_ips[n] == r.free_ips@[n]
            &&& s.state == if k == FREE_STORES { FREED } else { slot.state }
        }),
    decreases k,
{
    if k > 0 {
        lemma_freeing(slot, r, k - 1);
    }
}

} // verus!
