use coffin::config::Mode;
use coffin::region::{
    align_down, check_padding, geometry_for, map_region, padding, region_geometry, round_up,
    seal_region, Layout, SealOutcome, Span, PADDING_REPORT, POISON,
};

#[test]
fn alignment_is_always_respected() {
    for &page in &[4096usize, 16384] {
        for &align in &[1usize, 2, 4, 8, 16, 64, 4096] {
            if align > page {
                continue;
            }
            for size in [1usize, 7, 8, 15, 16, 17, 64, 100, 4096, 4097, 40000] {
                for mode in [Mode::Above, Mode::Below] {
                    let g = geometry_for(size, align, mode, page);
                    assert_eq!(
                        g.user_off % align,
                        0,
                        "user_off {} not aligned to {align} (size {size}, page {page}, {mode:?})",
                        g.user_off
                    );
                    // Guard page is always whole-page aligned.
                    assert_eq!(g.guard_off % page, 0);
                    assert_eq!(g.map_len % page, 0);
                }
            }
        }
    }
}

#[test]
fn above_mode_buffer_abuts_guard() {
    for &page in &[4096usize, 16384] {
        for &align in &[1usize, 8, 16, 64] {
            for size in [1usize, 8, 16, 17, 64, 100, 4096, 40000] {
                let s = size.max(1);
                let g = geometry_for(size, align, Mode::Above, page);
                // buffer end + pad == guard offset
                assert_eq!(g.user_off + s + g.pad, g.guard_off);
                if s % align == 0 {
                    assert_eq!(g.pad, 0, "expected zero padding for size {s} align {align}");
                }
                assert!(g.pad < align.max(1));
            }
        }
    }
}

#[test]
fn below_mode_buffer_follows_guard() {
    for &page in &[4096usize, 16384] {
        for size in [0usize, 1, 17, 4096, 40000] {
            let g = geometry_for(size, 8, Mode::Below, page);
            assert_eq!(g.guard_off, 0);
            assert_eq!(g.guard_off + page, g.user_off);
            assert_eq!(g.pad, 0);
        }
    }
}

#[test]
fn geometry_exact_values() {
    let g = geometry_for(64, 8, Mode::Above, 4096);
    assert_eq!((g.map_len, g.guard_off, g.user_off, g.pad), (8192, 4096, 4032, 0));
    let g = geometry_for(17, 16, Mode::Above, 4096);
    assert_eq!((g.map_len, g.guard_off, g.user_off, g.pad), (8192, 4096, 4064, 15));
    let g = geometry_for(4097, 8, Mode::Below, 4096);
    assert_eq!((g.map_len, g.guard_off, g.user_off, g.pad), (12288, 0, 4096, 0));
}

#[test]
fn zero_size_counts_as_one_byte() {
    assert_eq!(
        geometry_for(0, 1, Mode::Above, 4096),
        geometry_for(1, 1, Mode::Above, 4096)
    );
    assert_eq!(geometry_for(0, 1, Mode::Above, 4096).user_off, 4095);
}

#[test]
fn rounding() {
    assert_eq!(round_up(0, 4096), 0);
    assert_eq!(round_up(1, 4096), 4096);
    assert_eq!(round_up(4096, 4096), 4096);
    assert_eq!(round_up(4097, 4096), 8192);
    assert_eq!(align_down(4095, 16), 4080);
    assert_eq!(align_down(16, 16), 16);
    assert_eq!(align_down(7, 1), 7);
}

#[test]
fn mapping_parts() {
    let layout = Layout { size: 17, align: 16 };
    let geom = region_geometry(layout, Mode::Above, 4096);
    let r = map_region(layout, &geom, 4096, Some(0x10000)).unwrap();
    assert_eq!(r.whole, Span { addr: 0x10000, len: 8192 });
    assert_eq!(r.guard, Span { addr: 0x11000, len: 4096 });
    assert_eq!(r.user, 0x10fe0);
    assert_eq!(r.pad, Span { addr: 0x10ff1, len: 15 });
    assert_eq!(padding(r.user, layout, Mode::Above, 4096), r.pad);
    assert_eq!(seal_region(&r, true), SealOutcome::Ready { poison: r.pad });
    assert_eq!(seal_region(&r, false), SealOutcome::Abandon { unmap: r.whole });
    assert!(map_region(layout, &geom, 4096, None).is_none());
}

#[test]
fn padding_is_checked() {
    assert_eq!(check_padding(&[]), None);
    assert_eq!(check_padding(&[POISON; 15]), None);
    let mut pad = [POISON; 15];
    pad[14] = 0;
    assert_eq!(check_padding(&pad), Some(PADDING_REPORT));
    assert_eq!(PADDING_REPORT, "coffin: overflow into alignment padding detected at free\n");
    assert_eq!(POISON, 0xDB);
}
