//! The two sides of the allocator: what is done with a fresh mapping, and what
//! with a pointer that is being freed.

use vstd::prelude::*;
use crate::config::Mode;
use crate::model::{self, ArenaState};
use crate::region::{self, padding, region_geometry, Fenced, Layout, Span};
use crate::registry::{self, Arena, FreeOutcome, FREED, IP_DEPTH, READY};
use crate::text;

verus! {

/// Report of a pointer that is freed twice.
pub const DOUBLE_FREE_REPORT: &'static str = "coffin: double free detected\n";

/// What becomes of a request for a buffer once a region was mapped for it.
pub enum AllocOutcome {
    /// The request is served by the fenced buffer at `user`.
    Fenced { user: usize },
    /// The registry is full: the mapping is to be given back, and the request
    /// served by the system allocator, unfenced.
    Fallback { unmap: Span, warning: Option<&'static str> },
}

/// What is to be done with a pointer that is being freed.
pub enum DeallocOutcome {
    /// `seal` is to be made inaccessible, and `unmap` to be given back.
    Quarantined { seal: Span, unmap: Option<Span> },
    /// The pointer was freed before: only the report is to be written.
    DoubleFree { report: &'static str },
    /// The pointer is the system allocator's.
    System,
}

/// The registry after `region` was recorded for `layout`.
pub open spec fn recorded(
    s: ArenaState,
    layout: Layout,
    region: Fenced,
    alloc_ips: [usize; IP_DEPTH],
) -> ArenaState {
    s.inserted(
        region.whole.addr,
        region.whole.len,
        region.user,
        region::buffer_len(layout.size as int) as usize,
        layout.align,
        region.guard.addr,
        alloc_ips,
    )
}

/// Records a fenced region in the registry.
pub fn coffin_alloc(
    arena: &mut Arena,
    layout: Layout,
    region: &Fenced,
    alloc_ips: [usize; IP_DEPTH],
) -> (r: AllocOutcome)
    requires
        old(arena).wf(),
    ensures
        final(arena).wf(),
        match r {
            AllocOutcome::Fenced { user } => {
                &&& model::vacant_slot(old(arena)@.slots, region.user) is Some
                &&& user == region.user
                &&& final(arena)@ == recorded(old(arena)@, layout, *region, alloc_ips)
            },
            AllocOutcome::Fallback { unmap, warning } => {
                &&& model::vacant_slot(old(arena)@.slots, region.user) is None
                &&& unmap == region.whole
                &&& final(arena)@ == (ArenaState { full_warned: true, ..old(arena)@ })
                &&& old(arena)@.full_warned ==> warning is None
                &&& !old(arena)@.full_warned ==> (warning matches Some(t) && t@
                    == registry::FULL_WARNING@)
            },
        },
{
    let size: usize = if layout.size < 1 {
        1
    } else {
        layout.size
    };
    let inserted: bool = arena.insert(
        region.whole.addr,
        region.whole.len,
        region.user,
        size,
        layout.align,
        region.guard.addr,
        alloc_ips,
    );
    if inserted {
        AllocOutcome::Fenced { user: region.user }
    } else {
        let warning = arena.warn_full_once();
        AllocOutcome::Fallback { unmap: region.whole, warning }
    }
}

/// The padding that is to be looked at before `ptr` is freed: that of a live
/// buffer, if it has any. Nothing is to be read behind a pointer that is the
/// system allocator's or was freed before.
pub open spec fn padding_of_live(
    s: ArenaState,
    ptr: usize,
    layout: Layout,
    mode: Mode,
    page: usize,
) -> Option<Span> {
    let pad = region::geometry(
        layout.size as int,
        layout.align as int,
        mode,
        page as int,
    ).pad;
    match model::find_slot(s.slots, ptr) {
        Some(i) => if s.slots[i].state == READY && pad > 0 {
            Some(
                Span { addr: (ptr + region::buffer_len(layout.size as int)) as usize, len: pad },
            )
        } else {
            None
        },
        None => None,
    }
}

/// Looks up a pointer that is about to be freed, and says which bytes are padding
/// to be checked first.
pub fn padding_to_check(
    arena: &Arena,
    ptr: usize,
    layout: Layout,
    mode: Mode,
    page: usize,
) -> (r: Option<Span>)
    requires
        arena.wf(),
        region::fenceable(layout.size as int, layout.align as int, page as int),
        ptr + region::buffer_len(layout.size as int) <= usize::MAX,
    ensures
        r == padding_of_live(arena@, ptr, layout, mode, page),
{
    match arena.state_of(ptr) {
        Some(st) => {
            let pad = padding(ptr, layout, mode, page);
            if st == READY && pad.len > 0 {
                Some(pad)
            } else {
                None
            }
        },
        None => None,
    }
}

/// Looks up a pointer that is being freed, and frees it if the registry knows
/// it.
pub fn coffin_dealloc(
    arena: &mut Arena,
    ptr: usize,
    layout: Layout,
    mode: Mode,
    page: usize,
    free_ips: [usize; IP_DEPTH],
) -> (r: DeallocOutcome)
    requires
        old(arena).wf(),
        region::fenceable(layout.size as int, layout.align as int, page as int),
    ensures
        final(arena).wf(),
        final(arena)@ == old(arena)@.freed(ptr, free_ips),
        match model::free_outcome(
            old(arena)@,
            ptr,
            region::geometry(
                layout.size as int,
                layout.align as int,
                mode,
                page as int,
            ).map_len,
        ) {
            Some(FreeOutcome::Freed { seal, unmap }) => r == (DeallocOutcome::Quarantined {
                seal,
                unmap,
            }),
            Some(FreeOutcome::DoubleFree) => r matches DeallocOutcome::DoubleFree { report }
                && report@ == DOUBLE_FREE_REPORT@,
            None => r == DeallocOutcome::System,
        },
{
    let geom = region_geometry(layout, mode, page);
    match arena.free(ptr, geom.map_len, free_ips) {
        Some(FreeOutcome::Freed { seal, unmap }) => DeallocOutcome::Quarantined { seal, unmap },
        Some(FreeOutcome::DoubleFree) => DeallocOutcome::DoubleFree { report: DOUBLE_FREE_REPORT },
        None => DeallocOutcome::System,
    }
}

/// What is said of a pointer: `"ready"` while its buffer is live, `"freed"`
/// while that is in quarantine, and nothing where the registry does not know it.
pub open spec fn status(s: ArenaState, ptr: usize) -> Option<Seq<char>> {
    match model::find_slot(s.slots, ptr) {
        Some(i) => Some(
            if s.slots[i].state == READY {
                "ready"@
            } else {
                "freed"@
            },
        ),
        None => None,
    }
}

/// The text of a status word.
pub open spec fn status_word(state: u8) -> Option<Seq<char>> {
    if state == READY {
        Some("ready"@)
    } else if state == FREED {
        Some("freed"@)
    } else {
        None
    }
}

/// The word for a slot's state, if the slot holds an allocation.
pub fn state_word(state: u8) -> (r: Option<&'static str>)
    ensures
        text::optional(r) == status_word(state),
{
    if state == READY {
        Some("ready")
    } else if state == FREED {
        Some("freed")
    } else {
        None
    }
}

/// The status of `ptr`.
pub fn slot_state(arena: &Arena, ptr: usize) -> (r: Option<&'static str>)
    requires
        arena.wf(),
    ensures
        text::optional(r) == status(arena@, ptr),
{
    proof {
        model::lemma_found_is_occupied(arena@.slots, ptr);
    }
    match arena.state_of(ptr) {
        Some(st) => state_word(st),
        None => None,
    }
}

} // verus!
