use coffin::bits::is_power_of_two;
use coffin::config::{
    annotate, max_live_slots, mode, next_pow2, on_fault, page_size, parse_usize_env,
    quarantine_cap, symbolize, Mode, OnFault, DEFAULT_MAX_LIVE, DEFAULT_QUARANTINE,
};

#[test]
fn defaults_when_unset() {
    assert_eq!(mode(None), Mode::Above);
    assert_eq!(max_live_slots(None), Some(1_048_576));
    assert_eq!(quarantine_cap(None), 4096);
    assert!(!symbolize(None));
    assert!(!annotate(None));
    assert_eq!(on_fault(None), OnFault::AbortWithSignal);
    assert_eq!(DEFAULT_MAX_LIVE, 1 << 20);
    assert_eq!(DEFAULT_QUARANTINE, 4096);
}

#[test]
fn protect_modes() {
    assert_eq!(mode(Some(b"below")), Mode::Below);
    assert_eq!(mode(Some(b"BELOW")), Mode::Below);
    assert_eq!(mode(Some(b"above")), Mode::Above);
    assert_eq!(mode(Some(b"Below")), Mode::Above);
    assert_eq!(mode(Some(b"")), Mode::Above);
    assert_eq!(mode(Some(b"below ")), Mode::Above);
}

#[test]
fn numbers_are_read_up_to_the_first_other_byte() {
    assert_eq!(parse_usize_env(Some(b"123"), 7), 123);
    assert_eq!(parse_usize_env(Some(b"12\xff3"), 7), 12);
    assert_eq!(parse_usize_env(Some(b"12 "), 7), 12);
    assert_eq!(parse_usize_env(Some(b"x12"), 7), 7);
    assert_eq!(parse_usize_env(Some(b""), 7), 7);
    assert_eq!(parse_usize_env(Some(b"0"), 7), 7);
    assert_eq!(parse_usize_env(Some(b"000"), 7), 7);
    assert_eq!(parse_usize_env(Some(b"007"), 1), 7);
    assert_eq!(parse_usize_env(Some(b"-5"), 7), 7);
    assert_eq!(parse_usize_env(None, 7), 7);
}

#[test]
fn numbers_saturate() {
    assert_eq!(parse_usize_env(Some(b"18446744073709551615"), 7), usize::MAX);
    assert_eq!(parse_usize_env(Some(b"18446744073709551616"), 7), usize::MAX);
    assert_eq!(parse_usize_env(Some(b"99999999999999999999999999"), 7), usize::MAX);
    assert_eq!(parse_usize_env(Some(b"18446744073709551614"), 7), usize::MAX - 1);
}

#[test]
fn decimal_numbers_read_back() {
    for n in [1usize, 9, 10, 4096, 1_048_576, usize::MAX] {
        let text = n.to_string();
        assert_eq!(parse_usize_env(Some(text.as_bytes()), 7), n);
    }
}

#[test]
fn powers_of_two() {
    assert_eq!(next_pow2(0), 1);
    assert_eq!(next_pow2(1), 1);
    assert_eq!(next_pow2(2), 2);
    assert_eq!(next_pow2(3), 4);
    assert_eq!(next_pow2(1000), 1024);
    assert_eq!(next_pow2(1024), 1024);
    assert_eq!(next_pow2(1 << 63), 1 << 63);
    assert!(is_power_of_two(1));
    assert!(is_power_of_two(4096));
    assert!(is_power_of_two(1 << 63));
    assert!(!is_power_of_two(0));
    assert!(!is_power_of_two(12));
}

#[test]
fn slots_are_a_power_of_two() {
    assert_eq!(max_live_slots(Some(b"1000")), Some(1024));
    assert_eq!(max_live_slots(Some(b"1")), Some(1));
    assert_eq!(max_live_slots(Some(b"0")), Some(1_048_576));
    assert_eq!(max_live_slots(Some(b"9223372036854775808")), Some(1 << 63));
    assert_eq!(max_live_slots(Some(b"9223372036854775809")), None);
    assert_eq!(quarantine_cap(Some(b"5")), 5);
    assert_eq!(quarantine_cap(Some(b"0")), 4096);
}

#[test]
fn page_size_falls_back() {
    assert_eq!(page_size(4096), 4096);
    assert_eq!(page_size(16384), 16384);
    assert_eq!(page_size(0), 4096);
    assert_eq!(page_size(-1), 4096);
}

#[test]
fn switches() {
    for on in [&b"1"[..], b"true", b"yes"] {
        assert!(symbolize(Some(on)));
    }
    for off in [&b""[..], b"0", b"2", b"TRUE", b"11", b"no"] {
        assert!(!symbolize(Some(off)));
    }
    assert!(annotate(Some(b"1")));
    assert!(!annotate(Some(b"0")));
    assert!(!annotate(Some(b"")));
}

#[test]
fn fault_policies() {
    assert_eq!(on_fault(Some(b"abort")), OnFault::AbortWithSignal);
    assert_eq!(on_fault(Some(b"exit:3")), OnFault::Exit(3));
    assert_eq!(on_fault(Some(b"exit:0")), OnFault::Exit(0));
    assert_eq!(on_fault(Some(b"exit:134")), OnFault::Exit(134));
    assert_eq!(on_fault(Some(b"exit:2147483647")), OnFault::Exit(i32::MAX));
    assert_eq!(on_fault(Some(b"exit:2147483648")), OnFault::AbortWithSignal);
    assert_eq!(on_fault(Some(b"exit:")), OnFault::AbortWithSignal);
    assert_eq!(on_fault(Some(b"exit:3x")), OnFault::AbortWithSignal);
    assert_eq!(on_fault(Some(b"exit")), OnFault::AbortWithSignal);
    assert_eq!(on_fault(Some(b"Exit:3")), OnFault::AbortWithSignal);
}
