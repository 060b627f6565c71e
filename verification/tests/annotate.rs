use coffin::annotate::{
    emit_annotations, emit_site, is_internal_frame, kind_label, next_to_resolve, symbolize_ip,
    write_names, ResolvedFrame, Site, Symbol,
};
use coffin::registry::{FaultInfo, FaultKind, IP_DEPTH};
use coffin::text::{contains, relativize};

fn symbol(file: Option<&str>, line: Option<u32>, name: Option<&str>) -> Symbol {
    Symbol {
        file: file.map(String::from),
        line,
        name: name.map(String::from),
        shown: name.map(String::from),
    }
}

fn frame(ip: usize, symbols: Vec<Symbol>) -> ResolvedFrame {
    ResolvedFrame { ip, symbols }
}

fn user(file: &str, line: u32) -> Symbol {
    symbol(Some(file), Some(line), Some("app::run"))
}

fn info(kind: FaultKind) -> FaultInfo {
    FaultInfo { kind, slot: 0, base: 0, total_len: 0, user_ptr: 0, size: 0, align: 0 }
}

#[test]
fn labels() {
    assert_eq!(kind_label(FaultKind::Overflow), "BUFFER OVERFLOW");
    assert_eq!(kind_label(FaultKind::Underflow), "BUFFER UNDERFLOW");
    assert_eq!(kind_label(FaultKind::UseAfterFree), "USE-AFTER-FREE");
    assert_eq!(kind_label(FaultKind::LiveRegion), "FAULT IN LIVE REGION");
    assert_eq!(kind_label(FaultKind::Wild), "WILD POINTER");
}

#[test]
fn internal_frames() {
    assert!(is_internal_frame("/rustc/abc/library/std/src/rt.rs", None));
    assert!(is_internal_frame("/home/u/.cargo/git/x.rs", None));
    assert!(is_internal_frame("/home/u/registry/src/x.rs", None));
    assert!(is_internal_frame("src/lib.rs", Some("coffin::coffin_alloc")));
    assert!(is_internal_frame("src/lib.rs", Some("backtrace::trace")));
    assert!(is_internal_frame("src/lib.rs", Some("__rust_alloc")));
    assert!(!is_internal_frame("src/main.rs", Some("app::main")));
    assert!(!is_internal_frame("src/main.rs", None));
    assert!(!is_internal_frame("rustc/main.rs", None));
}

#[test]
fn paths_become_relative() {
    assert_eq!(relativize("/home/u/app/src/main.rs", Some("/home/u/app")), "src/main.rs");
    assert_eq!(relativize("/home/u/app//src/main.rs", Some("/home/u/app")), "src/main.rs");
    assert_eq!(relativize("/other/src/main.rs", Some("/home/u/app")), "/other/src/main.rs");
    assert_eq!(relativize("/home/u/app", Some("/home/u/app")), "");
    assert_eq!(relativize("/x", Some("")), "x");
    assert_eq!(relativize("/x", None), "/x");
    assert_eq!(relativize("/h\u{e9}/\u{fc}.rs", Some("/h\u{e9}")), "\u{fc}.rs");
    assert_eq!(relativize("/a", Some("/a/b")), "/a");
}

#[test]
fn substrings() {
    assert!(contains("abc", ""));
    assert!(contains("abc", "abc"));
    assert!(contains("abc", "bc"));
    assert!(contains("aab", "ab"));
    assert!(!contains("abc", "abcd"));
    assert!(!contains("", "a"));
    assert!(contains("", ""));
}

#[test]
fn names_under_a_frame() {
    let mut out = String::new();
    symbolize_ip(
        &mut out,
        &vec![
            symbol(None, None, Some("coffin::coffin_alloc")),
            symbol(Some("examples/uaf.rs"), Some(20), Some("uaf::main")),
            symbol(Some("x.rs"), None, None),
        ],
    );
    assert_eq!(
        out,
        "        coffin::coffin_alloc\n        uaf::main\n          at examples/uaf.rs:20\n"
    );
}

#[test]
fn first_user_frame_is_annotated() {
    let stack = vec![
        frame(1, vec![symbol(Some("/rustc/x.rs"), Some(1), None)]),
        frame(0, vec![user("/w/zero.rs", 9)]),
        frame(
            2,
            vec![
                symbol(Some("/w/a.rs"), None, None),
                symbol(Some("/w/b.rs"), Some(3), Some("coffin::x")),
                user("/w/src/c.rs", 4),
                user("/w/src/d.rs", 5),
            ],
        ),
        frame(3, vec![user("/w/src/e.rs", 6)]),
    ];
    let mut out = String::new();
    assert!(emit_site(&mut out, &stack, Some("/w"), "BUFFER OVERFLOW", "allocated", 0x1f));
    assert_eq!(
        out,
        "::error file=src/c.rs,line=4,title=Coffin::BUFFER OVERFLOW: buffer allocated here, fault at 0x1f\n"
    );
    let mut out = String::new();
    assert!(!emit_site(&mut out, &vec![], None, "l", "s", 0));
    assert_eq!(out, "");
}

#[test]
fn both_sites_of_a_use_after_free() {
    let taken = vec![frame(1, vec![user("a.rs", 1)])];
    let free = vec![frame(1, vec![user("f.rs", 2)])];
    let mut out = String::new();
    emit_annotations(&mut out, Some(info(FaultKind::UseAfterFree)), 0xa, None, &taken, &free);
    assert_eq!(
        out,
        "::error file=a.rs,line=1,title=Coffin::USE-AFTER-FREE: buffer allocated here, fault at 0xa\n\
         ::error file=f.rs,line=2,title=Coffin::USE-AFTER-FREE: buffer freed here, fault at 0xa\n"
    );
    let mut out = String::new();
    emit_annotations(&mut out, Some(info(FaultKind::Overflow)), 0xa, None, &taken, &free);
    assert_eq!(
        out,
        "::error file=a.rs,line=1,title=Coffin::BUFFER OVERFLOW: buffer allocated here, fault at 0xa\n"
    );
    let mut out = String::new();
    emit_annotations(&mut out, Some(info(FaultKind::UseAfterFree)), 0xa, None, &vec![], &free);
    assert_eq!(
        out,
        "::error file=f.rs,line=2,title=Coffin::USE-AFTER-FREE: buffer freed here, fault at 0xa\n"
    );
}

#[test]
fn fallback_annotation() {
    let stack = vec![frame(1, vec![user("a.rs", 1)])];
    for (kind, label) in [
        (Some(FaultKind::Wild), "WILD POINTER"),
        (None, "WILD POINTER"),
    ] {
        let mut out = String::new();
        emit_annotations(&mut out, kind.map(info), 0xb, None, &stack, &stack);
        assert_eq!(out, format!("::error title=Coffin::{label} at 0xb (no source location)\n"));
    }
    let mut out = String::new();
    emit_annotations(&mut out, Some(info(FaultKind::Underflow)), 0xb, None, &vec![], &stack);
    assert_eq!(out, "::error title=Coffin::BUFFER UNDERFLOW at 0xb (no source location)\n");
}

#[test]
fn paths_of_other_directories_stay() {
    assert_eq!(relativize("/a/bc/x.rs", Some("/a/b")), "/a/bc/x.rs");
    assert_eq!(relativize("/a/b/x.rs", Some("/a/b")), "x.rs");
    assert_eq!(relativize("/a/b/x.rs", Some("/a/b/")), "x.rs");
    assert_eq!(relativize("/a/b/x.rs", Some("/")), "a/b/x.rs");
    assert_eq!(relativize("/a/bc", Some("/a/b")), "/a/bc");
    let mut out = String::new();
    let stack = vec![frame(1, vec![user("/a/bc/x.rs", 1)])];
    assert!(emit_site(&mut out, &stack, Some("/a/b"), "L", "freed", 1));
    assert!(out.starts_with("::error file=/a/bc/x.rs,line=1,"));
}

#[test]
fn frames_are_resolved_up_to_the_first_of_the_user() {
    let mut ips = [0usize; IP_DEPTH];
    ips[0] = 7;
    ips[2] = 8;
    ips[3] = 9;
    let uaf = Some(info(FaultKind::UseAfterFree));
    let mut stack = vec![];
    assert_eq!(next_to_resolve(&uaf, Site::Allocated, &ips, &stack), Some(7));
    stack.push(frame(7, vec![symbol(None, None, Some("coffin::x"))]));
    assert_eq!(next_to_resolve(&uaf, Site::Freed, &ips, &stack), Some(8));
    stack.push(frame(8, vec![user("a.rs", 1)]));
    assert_eq!(next_to_resolve(&uaf, Site::Allocated, &ips, &stack), None);
    stack[1].symbols.clear();
    assert_eq!(next_to_resolve(&uaf, Site::Allocated, &ips, &stack), Some(9));
    stack.push(frame(9, vec![]));
    assert_eq!(next_to_resolve(&uaf, Site::Allocated, &ips, &stack), None);
    let over = Some(info(FaultKind::Overflow));
    assert_eq!(next_to_resolve(&over, Site::Allocated, &ips, &vec![]), Some(7));
    assert_eq!(next_to_resolve(&over, Site::Freed, &ips, &vec![]), None);
    assert_eq!(next_to_resolve(&Some(info(FaultKind::Wild)), Site::Allocated, &ips, &vec![]), None);
    assert_eq!(next_to_resolve(&None, Site::Allocated, &ips, &vec![]), None);
}

#[test]
fn names_of_one_frame_of_a_stack() {
    let stack = vec![
        frame(1, vec![symbol(None, None, Some("one"))]),
        frame(2, vec![symbol(Some("t.rs"), Some(7), Some("two")), symbol(None, None, None)]),
        frame(2, vec![symbol(None, None, Some("hidden"))]),
    ];
    let mut out = String::from("x");
    write_names(&mut out, &stack, 2);
    assert_eq!(out, "x        two\n          at t.rs:7\n");
    write_names(&mut out, &stack, 3);
    assert_eq!(out, "x        two\n          at t.rs:7\n");
}

#[test]
fn linker_names_decide_and_shown_names_show() {
    let mixed = Symbol {
        file: Some(String::from("m.rs")),
        line: Some(1),
        name: Some(String::from("_ZN6coffin1xE")),
        shown: Some(String::from("user::x")),
    };
    let mut out = String::new();
    let stack = vec![frame(1, vec![mixed])];
    assert!(!emit_site(&mut out, &stack, None, "L", "freed", 1));
    write_names(&mut out, &stack, 1);
    assert_eq!(out, "        user::x\n          at m.rs:1\n");
}
