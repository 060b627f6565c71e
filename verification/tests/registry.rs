use coffin::registry::{
    hash, scan_step, Arena, FaultKind, FreeOutcome, IpCapture, Lookup, LookupStep, ScanStep, FREED,
    FULL_WARNING, IP_DEPTH, READY,
};
use coffin::region::Span;

const NO_IPS: [usize; IP_DEPTH] = [0; IP_DEPTH];

fn insert_key(a: &mut Arena, user_ptr: usize) -> bool {
    a.insert(0, 0, user_ptr, 0, 0, 0, NO_IPS)
}

/// Records a region of two pages at `base` with the guard page behind a buffer
/// of 64 bytes.
fn insert_above(a: &mut Arena, base: usize) -> bool {
    a.insert(base, 8192, base + 4032, 64, 8, base + 4096, [base; IP_DEPTH])
}

#[test]
fn insert_lookup_roundtrip() {
    let mut a = Arena::new(16, 4);
    let keys = [0x1_0000usize, 0x2_0000, 0x3_0000, 0xDEAD_0000];
    for &k in &keys {
        assert!(insert_key(&mut a, k));
    }
    assert_eq!(a.live_count(), keys.len());
    for &k in &keys {
        assert_eq!(a.state_of(k), Some(READY), "key {k:#x} should be Ready");
    }
    assert_eq!(a.state_of(0xBEEF_0000), None, "unknown key must miss");
}

#[test]
fn collisions_probe_then_fill() {
    let mut a = Arena::new(16, 4);
    for i in 0..16usize {
        assert!(insert_key(&mut a, 0xA000 + i), "insert {i} should fit");
    }
    // Table is now full (16/16): the next insert fails.
    assert!(!insert_key(&mut a, 0xFFFF), "full table must reject insert");
    for i in 0..16usize {
        assert_eq!(a.state_of(0xA000 + i), Some(READY));
    }
}

#[test]
fn hash_is_fibonacci() {
    assert_eq!(hash(0), 0);
    assert_eq!(hash(1), 0x9E37_79B9_7F4A_7C15);
    assert_eq!(hash(2), 0x3C6E_F372_FE94_F82A);
}

#[test]
fn free_then_double_free_then_unknown() {
    let mut a = Arena::new(16, 4);
    assert!(insert_above(&mut a, 0x10000));
    let p = 0x10000 + 4032;
    assert_eq!(
        a.free(p, 8192, [7; IP_DEPTH]),
        Some(FreeOutcome::Freed { seal: Span { addr: 0x10000, len: 8192 }, unmap: None })
    );
    assert_eq!(a.state_of(p), Some(FREED));
    assert_eq!(a.live_count(), 0);
    assert_eq!(a.quarantine_len(), 1);
    assert_eq!(a.free(p, 8192, NO_IPS), Some(FreeOutcome::DoubleFree));
    assert_eq!(a.quarantine_len(), 1);
    assert_eq!(a.free(0x999, 8192, NO_IPS), None);
}

#[test]
fn quarantine_is_bounded_and_evicts_oldest() {
    let mut a = Arena::new(16, 2);
    let bases = [0x10000usize, 0x20000, 0x30000, 0x40000];
    for &b in &bases {
        assert!(insert_above(&mut a, b));
    }
    for &b in &bases[..2] {
        match a.free(b + 4032, 8192, NO_IPS) {
            Some(FreeOutcome::Freed { unmap, .. }) => assert_eq!(unmap, None),
            other => panic!("{other:?}"),
        }
    }
    assert_eq!(a.eviction_count(), 0);
    for (n, &b) in bases[2..].iter().enumerate() {
        match a.free(b + 4032, 8192, NO_IPS) {
            Some(FreeOutcome::Freed { unmap, .. }) => {
                assert_eq!(unmap, Some(Span { addr: bases[n], len: 8192 }))
            }
            other => panic!("{other:?}"),
        }
        assert_eq!(a.eviction_count(), n + 1);
        assert_eq!(a.quarantine_len(), 2);
        assert_eq!(a.state_of(bases[n] + 4032), None);
    }
    assert_eq!(a.state_of(bases[2] + 4032), Some(FREED));
    assert_eq!(a.state_of(bases[3] + 4032), Some(FREED));
}

#[test]
fn tombstones_are_recycled() {
    let mut a = Arena::new(4, 1);
    for round in 0..100usize {
        let base = 0x10000 + round * 0x4000;
        assert!(insert_above(&mut a, base), "round {round}");
        assert!(a.free(base + 4032, 8192, NO_IPS).is_some());
    }
    assert_eq!(a.live_count(), 0);
    assert_eq!(a.quarantine_len(), 1);
    assert_eq!(a.eviction_count(), 99);
}

#[test]
fn full_counts_quarantined_slots() {
    let mut a = Arena::new(2, 2);
    assert!(insert_above(&mut a, 0x10000));
    assert!(insert_above(&mut a, 0x20000));
    assert!(a.free(0x10000 + 4032, 8192, NO_IPS).is_some());
    assert_eq!(a.live_count() + a.quarantine_len(), 2);
    assert!(!insert_above(&mut a, 0x30000));
}

#[test]
fn full_warning_is_given_once() {
    let mut a = Arena::new(1, 1);
    assert_eq!(a.warn_full_once(), Some(FULL_WARNING));
    assert_eq!(a.warn_full_once(), None);
    assert_eq!(a.warn_full_once(), None);
    assert_eq!(
        FULL_WARNING,
        "coffin: registry full (COFFIN_MAX_LIVE reached) \u{2014} falling back to the system allocator (these allocations are NOT fenced)\n"
    );
}

#[test]
fn faults_are_classified() {
    let page = 4096;
    let mut a = Arena::new(16, 4);
    assert!(insert_above(&mut a, 0x10000));
    // Guard page first, buffer behind it.
    assert!(a.insert(0x20000, 8192, 0x21000, 64, 8, 0x20000, NO_IPS));

    let first_past_end = 0x10000 + 4032 + 64;
    let info = a.classify(first_past_end, page);
    assert_eq!(info.kind, FaultKind::Overflow);
    assert_eq!(info.base, 0x10000);
    assert_eq!(info.total_len, 8192);
    assert_eq!(info.user_ptr, 0x10000 + 4032);
    assert_eq!(info.size, 64);
    assert_eq!(info.align, 8);
    assert_eq!(a.read_ips(info.slot, false), [0x10000; IP_DEPTH]);
    assert_eq!(a.read_ips(info.slot, true), NO_IPS);

    assert_eq!(a.classify(0x10000, page).kind, FaultKind::LiveRegion);
    assert_eq!(a.classify(0x10000 + 8191, page).kind, FaultKind::Overflow);
    assert_eq!(a.classify(0x10000 + 8192, page).kind, FaultKind::Wild);
    assert_eq!(a.classify(0x20fff, page).kind, FaultKind::Underflow);
    assert_eq!(a.classify(0x21000, page).kind, FaultKind::LiveRegion);

    let wild = a.classify(0xDEAD_0000, page);
    assert_eq!(wild.kind, FaultKind::Wild);
    assert_eq!(wild.slot, usize::MAX);
    assert_eq!(a.read_ips(wild.slot, false), NO_IPS);

    assert!(a.free(0x10000 + 4032, 8192, [9; IP_DEPTH]).is_some());
    for addr in [0x10000usize, 0x10000 + 4032, first_past_end, 0x10000 + 8191] {
        let info = a.classify(addr, page);
        assert_eq!(info.kind, FaultKind::UseAfterFree);
        assert_eq!(a.read_ips(info.slot, true), [9; IP_DEPTH]);
    }
}

#[test]
fn slot_shows_the_record() {
    let mut a = Arena::new(1, 1);
    assert!(insert_above(&mut a, 0x10000));
    let r = a.slot(0);
    assert_eq!(r.state, READY);
    assert_eq!(r.base, 0x10000);
    assert_eq!(r.guard_addr, 0x11000);
    assert_eq!(r.alloc_ips, [0x10000; IP_DEPTH]);
}

#[test]
fn capture_pads_and_truncates() {
    let mut c = IpCapture::new();
    assert!(c.push(11));
    assert!(c.push(22));
    let mut expected = NO_IPS;
    expected[0] = 11;
    expected[1] = 22;
    assert_eq!(c.finish(), expected);

    let mut c = IpCapture::new();
    for i in 0..IP_DEPTH {
        assert!(c.push(i + 1));
    }
    assert!(!c.push(99));
    let ips = c.finish();
    assert_eq!(ips[0], 1);
    assert_eq!(ips[IP_DEPTH - 1], IP_DEPTH);
}

#[test]
fn next_victim_is_the_oldest() {
    let mut a = Arena::new(16, 2);
    for base in [0x10000usize, 0x20000, 0x30000] {
        assert!(insert_above(&mut a, base));
    }
    assert_eq!(a.next_victim(), None);
    let first = a.find_locked(0x20000 + 4032);
    a.free(0x20000 + 4032, 8192, NO_IPS);
    assert_eq!(a.next_victim(), None);
    a.free(0x10000 + 4032, 8192, NO_IPS);
    assert_eq!(a.next_victim(), first);
    let second = a.find_locked(0x10000 + 4032);
    a.free(0x30000 + 4032, 8192, NO_IPS);
    assert_eq!(a.next_victim(), second);
}

#[test]
fn scan_slot_by_slot_finds_what_classify_finds() {
    let mut a = Arena::new(16, 2);
    for base in [0x10000usize, 0x20000, 0x30000] {
        assert!(insert_above(&mut a, base));
    }
    a.free(0x20000 + 4032, 8192, NO_IPS);
    for addr in [0x10000usize, 0x11000, 0x21fff, 0x22000, 0x30fc0, 0] {
        let mut idx = 0;
        let kind = loop {
            match scan_step(idx, 16, &a.slot(idx), addr, 4096) {
                ScanStep::Found { info } => break info.kind,
                ScanStep::Next { idx: next } => idx = next,
                ScanStep::End => break FaultKind::Wild,
            }
        };
        assert_eq!(kind, a.classify(addr, 4096).kind);
    }
}

#[test]
fn lookup_step_by_step_finds_what_a_search_finds() {
    let mut a = Arena::new(4, 1);
    for k in [0x1000usize, 0x2000, 0x3000, 0x4000] {
        assert!(insert_key(&mut a, k));
    }
    a.free(0x1000, 0, NO_IPS);
    a.free(0x2000, 0, NO_IPS);
    for ptr in [0x1000usize, 0x2000, 0x3000, 0x4000, 0x5000] {
        let mut lookup = Lookup::new(ptr, 4);
        let state = loop {
            let slot = a.slot(lookup.slot());
            match lookup.step(slot.state, slot.user_ptr) {
                LookupStep::Found { state } => break Some(state),
                LookupStep::Next => {}
                LookupStep::Missing => break None,
            }
        };
        assert_eq!(state, a.state_of(ptr));
    }
    assert_eq!(a.state_of(0x1000), None);
    assert_eq!(a.state_of(0x2000), Some(FREED));
    assert_eq!(a.state_of(0x3000), Some(READY));
}

#[test]
fn refused_insert_leaves_everything() {
    let mut a = Arena::new(2, 1);
    assert!(insert_above(&mut a, 0x10000));
    assert!(insert_above(&mut a, 0x20000));
    a.free(0x10000 + 4032, 8192, NO_IPS);
    assert!(!insert_above(&mut a, 0x30000));
    assert_eq!((a.live_count(), a.quarantine_len(), a.eviction_count()), (1, 1, 0));
    assert_eq!(a.state_of(0x10000 + 4032), Some(FREED));
    assert_eq!(a.state_of(0x30000 + 4032), None);
    a.free(0x20000 + 4032, 8192, NO_IPS);
    assert!(insert_above(&mut a, 0x30000));
}
