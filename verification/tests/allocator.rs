use coffin::allocator::{
    coffin_alloc, coffin_dealloc, padding_to_check, slot_state, state_word, AllocOutcome, DeallocOutcome, DOUBLE_FREE_REPORT,
};
use coffin::config::Mode;
use coffin::publish::{
    evict_store, free_store, insert_store, Store, FREE_STORES, INSERT_STORES,
};
use coffin::reentrancy::Reentrancy;
use coffin::region::{is_fenceable, map_region, region_geometry, Fenced, Layout, Span};
use coffin::registry::{can_hold, Arena, FaultKind, Region, FREED, IP_DEPTH, READY, TOMB};

const PAGE: usize = 4096;
const NO_IPS: [usize; IP_DEPTH] = [0; IP_DEPTH];

fn mapped(layout: Layout, mode: Mode, base: usize) -> Fenced {
    let geom = region_geometry(layout, mode, PAGE);
    map_region(layout, &geom, PAGE, Some(base)).unwrap()
}

fn fence(a: &mut Arena, layout: Layout, mode: Mode, base: usize) -> usize {
    let region = mapped(layout, mode, base);
    match coffin_alloc(a, layout, &region, [base; IP_DEPTH]) {
        AllocOutcome::Fenced { user } => user,
        AllocOutcome::Fallback { .. } => panic!("registry full"),
    }
}

#[test]
fn inspect_tour() {
    let layout = Layout { size: 128, align: 16 };
    let mut a = Arena::new(16, 4);
    let p = fence(&mut a, layout, Mode::Above, 0x10000);
    assert_eq!(p, 0x10000 + 4096 - 128);
    assert_eq!(slot_state(&a, p), Some("ready"));
    assert_eq!(a.live_count(), 1);
    match coffin_dealloc(&mut a, p, layout, Mode::Above, PAGE, NO_IPS) {
        DeallocOutcome::Quarantined { seal, unmap } => {
            assert_eq!(seal, Span { addr: 0x10000, len: 8192 });
            assert_eq!(unmap, None);
        }
        _ => panic!("not freed"),
    }
    assert_eq!(slot_state(&a, p), Some("freed"));
    assert_eq!(slot_state(&a, 0x1234), None);

    let small = Layout { size: 32, align: 8 };
    let rounds = 4 + 10;
    for i in 0..rounds {
        let q = fence(&mut a, small, Mode::Above, 0x100000 + i * 0x10000);
        coffin_dealloc(&mut a, q, small, Mode::Above, PAGE, NO_IPS);
    }
    assert_eq!(a.quarantine_len(), 4);
    assert_eq!(a.eviction_count(), 1 + rounds - 4);
    assert_eq!(slot_state(&a, p), None);
}

#[test]
fn use_after_free_is_caught_for_a_window_of_frees() {
    let layout = Layout { size: 64, align: 8 };
    let mut a = Arena::new(64, 4);
    let p = fence(&mut a, layout, Mode::Above, 0x10000);
    coffin_dealloc(&mut a, p, layout, Mode::Above, PAGE, NO_IPS);
    for i in 0..3 {
        let q = fence(&mut a, layout, Mode::Above, 0x100000 + i * 0x10000);
        coffin_dealloc(&mut a, q, layout, Mode::Above, PAGE, NO_IPS);
        assert_eq!(a.classify(p, PAGE).kind, FaultKind::UseAfterFree);
    }
    let q = fence(&mut a, layout, Mode::Above, 0x900000);
    match coffin_dealloc(&mut a, q, layout, Mode::Above, PAGE, NO_IPS) {
        DeallocOutcome::Quarantined { unmap, .. } => {
            assert_eq!(unmap, Some(Span { addr: 0x10000, len: 8192 }))
        }
        _ => panic!("not freed"),
    }
    assert_eq!(a.classify(p, PAGE).kind, FaultKind::Wild);
}

#[test]
fn first_byte_outside_is_caught() {
    let mut a = Arena::new(16, 4);
    let layout = Layout { size: 64, align: 1 };
    let p = fence(&mut a, layout, Mode::Above, 0x10000);
    assert_eq!(a.classify(p + 64, PAGE).kind, FaultKind::Overflow);
    assert_eq!(a.classify(p + 63, PAGE).kind, FaultKind::LiveRegion);
    let q = fence(&mut a, layout, Mode::Below, 0x20000);
    assert_eq!(a.classify(q - 1, PAGE).kind, FaultKind::Underflow);
    assert_eq!(a.classify(q, PAGE).kind, FaultKind::LiveRegion);
}

#[test]
fn double_free_and_foreign_pointers() {
    let layout = Layout { size: 64, align: 8 };
    let mut a = Arena::new(16, 4);
    let p = fence(&mut a, layout, Mode::Above, 0x10000);
    coffin_dealloc(&mut a, p, layout, Mode::Above, PAGE, NO_IPS);
    match coffin_dealloc(&mut a, p, layout, Mode::Above, PAGE, NO_IPS) {
        DeallocOutcome::DoubleFree { report } => assert_eq!(report, DOUBLE_FREE_REPORT),
        _ => panic!("double free missed"),
    }
    assert_eq!(DOUBLE_FREE_REPORT, "coffin: double free detected\n");
    match coffin_dealloc(&mut a, 0x77, layout, Mode::Above, PAGE, NO_IPS) {
        DeallocOutcome::System => {}
        _ => panic!("foreign pointer taken"),
    }
}

#[test]
fn full_registry_falls_back() {
    let layout = Layout { size: 0, align: 1 };
    let mut a = Arena::new(1, 1);
    let p = fence(&mut a, layout, Mode::Above, 0x10000);
    assert_eq!(a.slot(0).size, 1);
    assert_eq!(a.find_locked(p), Some(0));
    let region = mapped(layout, Mode::Above, 0x20000);
    for first in [true, false] {
        match coffin_alloc(&mut a, layout, &region, NO_IPS) {
            AllocOutcome::Fallback { unmap, warning } => {
                assert_eq!(unmap, region.whole);
                assert_eq!(warning.is_some(), first);
            }
            AllocOutcome::Fenced { .. } => panic!("no slot is vacant"),
        }
    }
    assert_eq!(a.live_count(), 1);
}

#[test]
fn requests_that_cannot_be_fenced() {
    assert!(is_fenceable(Layout { size: 64, align: 8 }, PAGE));
    assert!(is_fenceable(Layout { size: 0, align: 4096 }, PAGE));
    assert!(!is_fenceable(Layout { size: 64, align: 8192 }, PAGE));
    assert!(!is_fenceable(Layout { size: 64, align: 3 }, PAGE));
    assert!(!is_fenceable(Layout { size: 64, align: 8 }, 5000));
    assert!(!is_fenceable(Layout { size: usize::MAX, align: 1 }, PAGE));
    assert!(!is_fenceable(Layout { size: usize::MAX - 2 * 4096 + 2, align: 1 }, PAGE));
    assert!(is_fenceable(Layout { size: usize::MAX - 2 * 4096 + 1, align: 1 }, PAGE));
}

#[test]
fn table_sizes() {
    assert!(can_hold(1 << 20, 4096));
    assert!(!can_hold(1 << 60, 4096));
    assert!(!can_hold(16, usize::MAX));
}

#[test]
fn guard_is_not_reentrant() {
    let mut g = Reentrancy::new();
    assert!(g.enter());
    assert!(!g.enter());
    assert!(!g.enter());
    g.leave();
    assert!(g.enter());
    g.leave();
    assert_eq!(g, Reentrancy { inside: false, forced: false });
}

#[test]
fn forced_guard_is_irreversible() {
    let mut g = Reentrancy::new();
    g.force_guard();
    g.leave();
    assert!(!g.enter());
    g.leave();
    g.leave();
    assert!(!g.enter());
    let mut g = Reentrancy::new();
    assert!(g.enter());
    g.force_guard();
    assert!(g.inside);
    g.leave();
    assert!(!g.enter());
    assert!(!g.inside);
}

#[test]
fn padding_is_read_of_live_buffers_only() {
    let padded = Layout { size: 17, align: 16 };
    let exact = Layout { size: 32, align: 16 };
    let mut a = Arena::new(16, 4);
    let p = fence(&mut a, padded, Mode::Above, 0x10000);
    let q = fence(&mut a, exact, Mode::Above, 0x20000);
    assert_eq!(
        padding_to_check(&a, p, padded, Mode::Above, PAGE),
        Some(Span { addr: p + 17, len: 15 })
    );
    assert_eq!(padding_to_check(&a, q, exact, Mode::Above, PAGE), None);
    assert_eq!(padding_to_check(&a, p, padded, Mode::Below, PAGE), None);
    assert_eq!(padding_to_check(&a, 0x77, padded, Mode::Above, PAGE), None);
    coffin_dealloc(&mut a, p, padded, Mode::Above, PAGE, NO_IPS);
    assert_eq!(padding_to_check(&a, p, padded, Mode::Above, PAGE), None);
}

#[test]
fn words_for_states() {
    assert_eq!(state_word(READY), Some("ready"));
    assert_eq!(state_word(FREED), Some("freed"));
    assert_eq!(state_word(TOMB), None);
    assert_eq!(state_word(0), None);
}

#[test]
fn life_of_one_pointer() {
    let layout = Layout { size: 128, align: 16 };
    let mut a = Arena::new(16, 2);
    let p = fence(&mut a, layout, Mode::Above, 0x10000);
    for i in 1..4 {
        let q = fence(&mut a, layout, Mode::Above, 0x10000 + i * 0x10000);
        assert_eq!(slot_state(&a, p), Some("ready"));
        assert_eq!(slot_state(&a, q), Some("ready"));
    }
    let others = [0x20000usize, 0x30000, 0x40000];
    coffin_dealloc(&mut a, p, layout, Mode::Above, PAGE, NO_IPS);
    assert_eq!(slot_state(&a, p), Some("freed"));
    assert_eq!(slot_state(&a, p + 1), None);
    coffin_dealloc(&mut a, others[0] + 4096 - 128, layout, Mode::Above, PAGE, NO_IPS);
    assert_eq!(slot_state(&a, p), Some("freed"));
    coffin_dealloc(&mut a, others[1] + 4096 - 128, layout, Mode::Above, PAGE, NO_IPS);
    assert_eq!(slot_state(&a, p), None);
    coffin_dealloc(&mut a, others[2] + 4096 - 128, layout, Mode::Above, PAGE, NO_IPS);
    assert_eq!(slot_state(&a, p), None);
    assert_eq!(fence(&mut a, layout, Mode::Above, 0x10000), p);
    assert_eq!(slot_state(&a, p), Some("ready"));
}

#[test]
fn frees_in_a_row_unmap_the_oldest_in_order() {
    let layout = Layout { size: 64, align: 8 };
    let mut a = Arena::new(16, 3);
    let bases: Vec<usize> = (1..8).map(|i| i * 0x10000).collect();
    let ptrs: Vec<usize> =
        bases.iter().map(|&b| fence(&mut a, layout, Mode::Above, b)).collect();
    let mut gone = Vec::new();
    for (n, &p) in ptrs.iter().enumerate() {
        match coffin_dealloc(&mut a, p, layout, Mode::Above, PAGE, NO_IPS) {
            DeallocOutcome::Quarantined { unmap: Some(span), .. } => gone.push(span),
            DeallocOutcome::Quarantined { unmap: None, .. } => {}
            _ => panic!("not freed"),
        }
        assert_eq!(a.quarantine_len(), (n + 1).min(3));
        assert_eq!(a.eviction_count(), (n + 1).saturating_sub(3));
        assert_eq!(a.live_count(), ptrs.len() - n - 1);
    }
    let oldest: Vec<Span> = bases[..4].iter().map(|&addr| Span { addr, len: 8192 }).collect();
    assert_eq!(gone, oldest);
    for (n, &p) in ptrs.iter().enumerate() {
        assert_eq!(slot_state(&a, p), if n < 4 { None } else { Some("freed") });
        let kind = a.classify(p, PAGE).kind;
        assert_eq!(kind, if n < 4 { FaultKind::Wild } else { FaultKind::UseAfterFree });
    }
}

#[test]
fn state_is_published_last() {
    let layout = Layout { size: 64, align: 8 };
    let mut a = Arena::new(1, 1);
    let p = fence(&mut a, layout, Mode::Above, 0x10000);
    let r = a.slot(0);
    for k in 0..INSERT_STORES {
        let store = insert_store(&r, k).unwrap();
        assert_eq!(matches!(store, Store::State(_)), k == INSERT_STORES - 1);
    }
    assert_eq!(insert_store(&r, 0), Some(Store::Base(0x10000)));
    assert_eq!(insert_store(&r, 2), Some(Store::UserPtr(p)));
    assert_eq!(insert_store(&r, 6), Some(Store::AllocIp { n: 0, ip: 0x10000 }));
    assert_eq!(insert_store(&r, INSERT_STORES - 1), Some(Store::State(READY)));
    assert_eq!(insert_store(&r, INSERT_STORES), None);
    a.free(p, 8192, [5; IP_DEPTH]);
    let r = a.slot(0);
    assert_eq!(free_store(&r, 0), Some(Store::FreeIp { n: 0, ip: 5 }));
    assert_eq!(free_store(&r, FREE_STORES - 1), Some(Store::State(FREED)));
    assert_eq!(free_store(&r, FREE_STORES), None);
    assert_eq!(evict_store(), Store::State(TOMB));
}

fn make(slot: &mut Region, store: Store) {
    match store {
        Store::Base(v) => slot.base = v,
        Store::TotalLen(v) => slot.total_len = v,
        Store::UserPtr(v) => slot.user_ptr = v,
        Store::Size(v) => slot.size = v,
        Store::Align(v) => slot.align = v,
        Store::GuardAddr(v) => slot.guard_addr = v,
        Store::AllocIp { n, ip } => slot.alloc_ips[n] = ip,
        Store::FreeIp { n, ip } => slot.free_ips[n] = ip,
        Store::State(v) => slot.state = v,
    }
}

fn assert_same(a: &Region, b: &Region) {
    assert_eq!(
        (a.state, a.base, a.total_len, a.user_ptr, a.size, a.align, a.guard_addr),
        (b.state, b.base, b.total_len, b.user_ptr, b.size, b.align, b.guard_addr)
    );
    assert_eq!(a.alloc_ips, b.alloc_ips);
    assert_eq!(a.free_ips, b.free_ips);
}

#[test]
fn readers_see_what_is_published() {
    let layout = Layout { size: 64, align: 8 };
    let mut a = Arena::new(1, 1);
    let mut seen = a.slot(0);
    let p = fence(&mut a, layout, Mode::Above, 0x10000);
    for k in 0..INSERT_STORES {
        assert_ne!(seen.state, READY);
        make(&mut seen, insert_store(&a.slot(0), k).unwrap());
    }
    assert_same(&seen, &a.slot(0));
    a.free(p, 8192, [7; IP_DEPTH]);
    for k in 0..FREE_STORES {
        assert_eq!(seen.state, READY);
        make(&mut seen, free_store(&a.slot(0), k).unwrap());
    }
    assert_same(&seen, &a.slot(0));
    make(&mut seen, evict_store());
    assert_eq!(seen.state, TOMB);
}

#[test]
fn same_layout_seals_the_whole_mapping() {
    for mode in [Mode::Above, Mode::Below] {
        for layout in [
            Layout { size: 17, align: 16 },
            Layout { size: 0, align: 1 },
            Layout { size: 40000, align: 8 },
        ] {
            let mut a = Arena::new(1, 1);
            let region = mapped(layout, mode, 0x100000);
            let p = fence(&mut a, layout, mode, 0x100000);
            match coffin_dealloc(&mut a, p, layout, mode, PAGE, NO_IPS) {
                DeallocOutcome::Quarantined { seal, unmap } => {
                    assert_eq!(seal, region.whole);
                    assert_eq!(unmap, None);
                }
                _ => panic!("not freed"),
            }
        }
    }
}
