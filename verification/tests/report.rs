use coffin::annotate::{ResolvedFrame, Symbol};
use coffin::handler::{
    report, scan, sig_name, write_head, FaultReport, Found, ReportOptions, SignalNumbers, Stage,
    Step, REPORT_MAX,
};
use coffin::reentrancy::Reentrancy;
use coffin::registry::{wild, Arena, FaultInfo, FaultKind, IP_DEPTH};
use coffin::report::{first_write, raw_write_fd, write_dec, write_hex, write_str, WriteAt};

const SIGNALS: SignalNumbers = SignalNumbers { segv: 11, bus: 10 };
const NO_IPS: [usize; IP_DEPTH] = [0; IP_DEPTH];

fn stack(ips: &[usize]) -> [usize; IP_DEPTH] {
    let mut s = NO_IPS;
    s[..ips.len()].copy_from_slice(ips);
    s
}

const PLAIN: ReportOptions = ReportOptions { symbolize: false, annotate: false };

/// The text of a report without annotations.
fn text(sig: i32, arena: Option<&Arena>, addr: usize, page: usize, symbolize: bool) -> String {
    let mut out = String::new();
    let mut notes = String::new();
    let mut guard = Reentrancy::new();
    report(
        &mut out,
        &mut notes,
        &mut guard,
        sig,
        SIGNALS,
        arena,
        addr,
        page,
        ReportOptions { symbolize, annotate: false },
        None,
        &vec![],
        &vec![],
    );
    assert_eq!(notes, "");
    assert_eq!(guard.forced, symbolize);
    out
}

fn hex(v: usize) -> String {
    let mut out = String::new();
    write_hex(&mut out, v);
    out
}

fn dec(v: usize) -> String {
    let mut out = String::new();
    write_dec(&mut out, v);
    out
}

#[test]
fn hexadecimal() {
    assert_eq!(hex(0), "0x0");
    assert_eq!(hex(0xf), "0xf");
    assert_eq!(hex(0x10), "0x10");
    assert_eq!(hex(0x104d23fc0), "0x104d23fc0");
    assert_eq!(hex(0x9ab), "0x9ab");
    assert_eq!(hex(usize::MAX), "0xffffffffffffffff");
    for v in [1usize, 255, 256, 0xdead_beef, 1 << 63] {
        assert_eq!(hex(v), format!("{v:#x}"));
    }
}

#[test]
fn decimal() {
    assert_eq!(dec(0), "0");
    assert_eq!(dec(9), "9");
    assert_eq!(dec(10), "10");
    assert_eq!(dec(usize::MAX), "18446744073709551615");
}

#[test]
fn text_is_appended() {
    let mut out = String::from("a");
    write_str(&mut out, "bc");
    assert_eq!(out, "abc");
}

#[test]
fn writes_go_on_after_partial_ones() {
    let parts: [&[u8]; 1] = [b"0123456789"];
    let at = |off| WriteAt { part: 0, off };
    assert_eq!(first_write(&parts), Some(at(0)));
    assert_eq!(raw_write_fd(&parts, at(0), 4), Some(at(4)));
    assert_eq!(raw_write_fd(&parts, at(4), 6), None);
    assert_eq!(raw_write_fd(&parts, at(4), 5), Some(at(9)));
    assert_eq!(raw_write_fd(&parts, at(4), 0), None);
    assert_eq!(raw_write_fd(&parts, at(4), -1), None);
}

#[test]
fn next_part_starts_anew_and_empty_ones_are_passed_over() {
    let parts: [&[u8]; 5] = [b"", b"ab", b"", b"cde", b""];
    let at = |part, off| WriteAt { part, off };
    assert_eq!(first_write(&parts), Some(at(1, 0)));
    assert_eq!(raw_write_fd(&parts, at(1, 0), 1), Some(at(1, 1)));
    assert_eq!(raw_write_fd(&parts, at(1, 0), -1), Some(at(3, 0)));
    assert_eq!(raw_write_fd(&parts, at(1, 1), 1), Some(at(3, 0)));
    assert_eq!(raw_write_fd(&parts, at(3, 1), 2), None);
    assert_eq!(raw_write_fd(&parts, at(3, 1), 0), None);
    assert_eq!(first_write(&[]), None);
    assert_eq!(first_write(&[b"", b""]), None);
}

#[test]
fn signal_names() {
    assert_eq!(sig_name(11, SIGNALS), "SIGSEGV");
    assert_eq!(sig_name(10, SIGNALS), "SIGBUS");
    assert_eq!(sig_name(7, SIGNALS), "signal");
}

#[test]
fn head_comes_first() {
    let mut out = String::new();
    write_head(&mut out, 11, 0xdead, SIGNALS);
    assert_eq!(
        out,
        "\n========================= COFFIN =========================\n\
         \u{20} signal        : SIGSEGV (11)\n\
         \u{20} fault address : 0xdead\n"
    );
}

fn sample() -> Arena {
    let mut a = Arena::new(16, 4);
    assert!(a.insert(
        0x104d20000,
        32768,
        0x104d23fc0,
        64,
        8,
        0x104d24000,
        stack(&[0x104aa0664])
    ));
    a
}

#[test]
fn use_after_free_report() {
    let mut a = sample();
    assert!(a.free(0x104d23fc0, 32768, stack(&[0x104a99d80])).is_some());
    let out = text(10, Some(&a), 0x104d23fc0, 16384, true);
    assert_eq!(
        out,
        "\n========================= COFFIN =========================\n\
         \u{20} signal        : SIGBUS (10)\n\
         \u{20} fault address : 0x104d23fc0\n\
         \u{20} fault         : USE-AFTER-FREE\n\
         \u{20} region        : base 0x104d20000 .. 0x104d28000 (32768 bytes mapped)\n\
         \u{20} user buffer   : 0x104d23fc0  size 64  align 8\n\
         \u{20} offset        : 0 byte(s) into the freed buffer\n\
         \u{20} allocated at  :\n\
         \u{20}     0x104aa0664\n\
         \u{20} freed at      :\n\
         \u{20}     0x104a99d80\n\
         ==========================================================\n"
    );
    assert!(out.len() <= REPORT_MAX);
}

#[test]
fn overflow_report() {
    let a = sample();
    let out = text(11, Some(&a), 0x104d24005, 16384, false);
    assert!(out.contains("  fault         : BUFFER OVERFLOW (write past end of allocation)\n"));
    assert!(out.contains("  overflow      : 5 byte(s) past the end of the buffer\n"));
    assert!(!out.contains("freed at"));
    assert!(out.ends_with(
        "  hint          : set COFFIN_SYMBOLIZE=1 for symbol names + file:line\n\
         ==========================================================\n"
    ));
}

#[test]
fn underflow_report() {
    let mut a = Arena::new(16, 4);
    assert!(a.insert(0x20000, 8192, 0x21000, 64, 8, 0x20000, NO_IPS));
    let out = text(11, Some(&a), 0x20fff, 4096, false);
    assert!(out.contains("  fault         : BUFFER UNDERFLOW (write before allocation)\n"));
    assert!(out.contains("  underflow     : 1 byte(s) before the start of the buffer\n"));
    assert!(out.contains("  allocated at  :\n      <no frames captured>\n"));
}

#[test]
fn live_region_report() {
    let a = sample();
    let out = text(11, Some(&a), 0x104d23fc0, 16384, false);
    assert!(out.contains("  fault         : FAULT INSIDE LIVE REGION (unexpected)\n"));
    assert!(out.contains("align 8\n  allocated at  :\n"));
}

#[test]
fn wild_report() {
    let a = sample();
    for arena in [Some(&a), None] {
        let out = text(11, arena, 0xdead_0000, 16384, false);
        assert_eq!(
            out,
            "\n========================= COFFIN =========================\n\
             \u{20} signal        : SIGSEGV (11)\n\
             \u{20} fault address : 0xdead0000\n\
             \u{20} fault         : WILD POINTER (no tracked region)\n\
             \u{20} (address is not inside any live or quarantined allocation)\n\
             \u{20} hint          : set COFFIN_SYMBOLIZE=1 for symbol names + file:line\n\
             ==========================================================\n"
        );
    }
}

fn freed_info() -> FaultInfo {
    FaultInfo {
        kind: FaultKind::UseAfterFree,
        slot: 0,
        base: 0x1000,
        total_len: 0x2000,
        user_ptr: 0x1800,
        size: 8,
        align: 8,
    }
}

/// Runs a report and lists what its steps ask for, with what they write.
fn requests(symbolize: bool, annotate: bool, found: Option<Found>) -> Vec<(Step, String)> {
    let mut r = FaultReport::new(11, SIGNALS, 0x1800, symbolize, annotate);
    let mut all = Vec::new();
    while r.stage != Stage::Done {
        let mut piece = String::new();
        let request = r.step(&mut piece);
        if request == Step::Scan {
            r.found(found);
        }
        all.push((request, piece));
    }
    all
}

#[test]
fn steps_ask_for_names_frame_by_frame() {
    let found = Found {
        info: freed_info(),
        alloc_ips: stack(&[1, 0, 3]),
        free_ips: stack(&[0xa]),
    };
    let mut seen = Vec::new();
    for (request, piece) in requests(true, false, Some(found)) {
        if let Step::Resolve { ip } = request {
            assert_eq!(piece, format!("      {ip:#x}\n"));
            seen.push(ip);
        }
    }
    assert_eq!(seen, [1, 3, 0xa]);
    for (request, _) in requests(false, true, Some(found)) {
        assert!(!matches!(request, Step::Resolve { .. }));
    }
}

#[test]
fn guard_is_closed_before_anything_is_written() {
    for (symbolize, annotate) in [(false, false), (false, true), (true, false), (true, true)] {
        let all = requests(symbolize, annotate, None);
        let closing = all.iter().filter(|(r, _)| *r == Step::CloseGuard).count();
        assert_eq!(closing, usize::from(symbolize || annotate));
        if closing == 1 {
            assert_eq!(all[0], (Step::CloseGuard, String::new()));
        }
        assert_eq!(all[0].1, "");
        assert!(all[1].1.starts_with("\n===="));
        assert_eq!(all[2].0, Step::Scan);
    }
}

#[test]
fn annotations_are_asked_for_last() {
    let all = requests(false, true, None);
    assert_eq!(all[all.len() - 1], (Step::Annotate, String::new()));
    assert!(all[all.len() - 2].1.ends_with("====\n"));
    let all = requests(false, false, None);
    assert_eq!(all[all.len() - 1].0, Step::Finished);
    assert!(all.iter().all(|(r, _)| *r != Step::Annotate));
}

#[test]
fn annotations_go_out_beside_the_report() {
    let a = sample();
    let taken = vec![ResolvedFrame {
        ip: 0x104aa0664,
        symbols: vec![Symbol {
            file: Some(String::from("/w/src/main.rs")),
            line: Some(20),
            name: Some(String::from("uaf::main")),
            shown: Some(String::from("uaf::main")),
        }],
    }];
    let mut out = String::new();
    let mut notes = String::new();
    let mut guard = Reentrancy::new();
    let options = ReportOptions { symbolize: false, annotate: true };
    report(
        &mut out,
        &mut notes,
        &mut guard,
        11,
        SIGNALS,
        Some(&a),
        0x104d24000,
        16384,
        options,
        Some("/w"),
        &taken,
        &vec![],
    );
    assert_eq!(out, text(11, Some(&a), 0x104d24000, 16384, false));
    assert_eq!(
        notes,
        "::error file=src/main.rs,line=20,title=Coffin::BUFFER OVERFLOW: buffer allocated here, fault at 0x104d24000\n"
    );
    assert!(guard.forced);
    assert!(!guard.enter());
}

#[test]
fn plain_report_leaves_the_guard_alone() {
    let mut out = String::new();
    let mut notes = String::new();
    let mut guard = Reentrancy { inside: true, forced: false };
    report(
        &mut out, &mut notes, &mut guard, 11, SIGNALS, None, 1, 4096, PLAIN, None, &vec![], &vec![],
    );
    assert_eq!(guard, Reentrancy { inside: true, forced: false });
}

#[test]
fn scan_hands_over_region_and_stacks() {
    let a = sample();
    let found = scan(Some(&a), 0x104d20000, 16384).unwrap();
    assert_eq!(found.info.kind, FaultKind::LiveRegion);
    assert_eq!(found.info.user_ptr, 0x104d23fc0);
    assert_eq!(found.alloc_ips, stack(&[0x104aa0664]));
    assert_eq!(found.free_ips, NO_IPS);
    let found = scan(Some(&a), 1, 16384).unwrap();
    assert_eq!(found.info.kind, wild().kind);
    assert_eq!(found.info.slot, usize::MAX);
    assert_eq!(found.alloc_ips, NO_IPS);
    assert!(scan(None, 1, 16384).is_none());
}

#[test]
fn records_beyond_the_address_space_cover_nothing() {
    let mut a = Arena::new(1, 1);
    assert!(a.insert(usize::MAX - 4, 10, 5, usize::MAX, 1, 0, NO_IPS));
    for addr in [0usize, 5, usize::MAX - 4, usize::MAX] {
        assert_eq!(a.classify(addr, 4096).kind, FaultKind::Wild);
    }
    assert_eq!(a.live_count(), 1);
}

/// What a row of writes with these results puts out, and how many were made.
fn put_out(parts: &[&[u8]], results: &[isize]) -> (Vec<u8>, usize) {
    let mut out = Vec::new();
    let mut at = first_write(parts);
    let mut k = 0;
    while let Some(w) = at {
        let n = results[k];
        if n > 0 {
            out.extend_from_slice(&parts[w.part][w.off..w.off + n as usize]);
        }
        k += 1;
        at = raw_write_fd(parts, w, n);
    }
    (out, k)
}

#[test]
fn short_writes_cover_each_part_once() {
    let parts: [&[u8]; 4] = [b"0123456789", b"", b"ab", b"c"];
    for results in [vec![10isize, 2, 1], vec![1, 2, 3, 4, 1, 1, 1], vec![9, 1, 2, 1]] {
        assert_eq!(put_out(&parts, &results), (b"0123456789abc".to_vec(), results.len()));
    }
}

#[test]
fn guard_pages_beyond_the_address_space_guard_nothing() {
    let mut a = Arena::new(1, 1);
    let guard = usize::MAX - 100;
    assert!(a.insert(guard - 100, 150, guard - 100, 64, 8, guard, NO_IPS));
    assert_eq!(a.classify(guard, 4096).kind, FaultKind::LiveRegion);
    assert_eq!(a.classify(guard, 100).kind, FaultKind::Overflow);
    assert_eq!(a.classify(guard, 101).kind, FaultKind::LiveRegion);
}

#[test]
fn failed_write_drops_the_rest_of_its_part_only() {
    let parts: [&[u8]; 3] = [b"0123456789", b"ab", b"c"];
    assert_eq!(put_out(&parts, &[4, 0, 2, 1]), (b"0123abc".to_vec(), 4));
    assert_eq!(put_out(&parts, &[-1, 1, -1, 1]), (b"ac".to_vec(), 4));
    assert_eq!(put_out(&parts, &[-1, -1, -1]), (vec![], 3));
}

#[test]
fn longest_report_fits_the_buffer() {
    let mut a = Arena::new(1, 1);
    let far = usize::MAX / 2 + 1;
    assert!(a.insert(
        far,
        far - 1,
        far,
        far - 1,
        far,
        usize::MAX,
        [usize::MAX; IP_DEPTH]
    ));
    assert!(a.free(far, far - 1, [usize::MAX; IP_DEPTH]).is_some());
    let out = text(i32::MIN, Some(&a), far, 4096, false);
    assert!(out.contains("USE-AFTER-FREE"));
    assert!(out.len() <= REPORT_MAX, "{}", out.len());
}

fn shown(name: &str, file: Option<&str>, line: Option<u32>) -> Symbol {
    Symbol {
        file: file.map(String::from),
        line,
        name: Some(String::from(name)),
        shown: Some(String::from(name)),
    }
}

#[test]
fn symbolized_report_has_names_under_its_frames() {
    let mut a = sample();
    assert!(a.free(0x104d23fc0, 32768, stack(&[0x104a99d80])).is_some());
    let taken = vec![ResolvedFrame {
        ip: 0x104aa0664,
        symbols: vec![
            shown("coffin::coffin_alloc", None, None),
            shown("uaf::main", Some("examples/uaf.rs"), Some(20)),
        ],
    }];
    let freed = vec![ResolvedFrame {
        ip: 0x104a99d80,
        symbols: vec![
            shown("coffin::coffin_dealloc", None, None),
            shown("uaf::main", Some("examples/uaf.rs"), Some(25)),
        ],
    }];
    let run = |symbolize| {
        let mut out = String::new();
        let mut notes = String::new();
        let mut guard = Reentrancy::new();
        report(
            &mut out,
            &mut notes,
            &mut guard,
            10,
            SIGNALS,
            Some(&a),
            0x104d23fc0,
            16384,
            ReportOptions { symbolize, annotate: false },
            None,
            &taken,
            &freed,
        );
        out
    };
    assert_eq!(
        run(true),
        "\n========================= COFFIN =========================\n\
         \u{20} signal        : SIGBUS (10)\n\
         \u{20} fault address : 0x104d23fc0\n\
         \u{20} fault         : USE-AFTER-FREE\n\
         \u{20} region        : base 0x104d20000 .. 0x104d28000 (32768 bytes mapped)\n\
         \u{20} user buffer   : 0x104d23fc0  size 64  align 8\n\
         \u{20} offset        : 0 byte(s) into the freed buffer\n\
         \u{20} allocated at  :\n\
         \u{20}     0x104aa0664\n\
         \u{20}       coffin::coffin_alloc\n\
         \u{20}       uaf::main\n\
         \u{20}         at examples/uaf.rs:20\n\
         \u{20} freed at      :\n\
         \u{20}     0x104a99d80\n\
         \u{20}       coffin::coffin_dealloc\n\
         \u{20}       uaf::main\n\
         \u{20}         at examples/uaf.rs:25\n\
         ==========================================================\n"
    );
    assert_eq!(run(false), text(10, Some(&a), 0x104d23fc0, 16384, false));
    assert!(!run(false).contains("uaf::main"));
}
