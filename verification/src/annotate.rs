//! What is made of resolved stack frames: the names under a frame of the
//! report, and the annotations that continuous integration shows at the source
//! lines where a buffer was allocated and freed.

use vstd::prelude::*;
use crate::registry::{FaultInfo, FaultKind, IP_DEPTH};
use crate::report::{self, write_dec, write_hex, write_str};
use crate::text;

verus! {

/// What is known of one function that an instruction pointer stands for.
pub struct Symbol {
    pub file: Option<String>,
    pub line: Option<u32>,
    /// The name that the linker knows the function by.
    pub name: Option<String>,
    /// The name as it is shown to a reader.
    pub shown: Option<String>,
}

/// One frame of a call stack with its symbols, as they were resolved. Zero stands for
/// no frame.
pub struct ResolvedFrame {
    pub ip: usize,
    pub symbols: Vec<Symbol>,
}

/// The path and the function belong to the allocator, to the standard library or
/// to a dependency.
pub open spec fn internal(path: Seq<char>, name: Option<Seq<char>>) -> bool {
    ||| text::has(path, "/rustc/"@)
    ||| text::has(path, "/.cargo/"@)
    ||| text::has(path, "/registry/"@)
    ||| match name {
        Some(n) => text::has(n, "coffin"@) || text::has(n, "backtrace"@)
            || text::has(n, "__rust"@),
        None => false,
    }
}

impl Symbol {
    /// The name that the linker knows the function by.
    pub open spec fn name_text(self) -> Option<Seq<char>> {
        match self.name {
            Some(n) => Some(n@),
            None => None,
        }
    }

    /// The symbol is a known place in the user's own code.
    pub open spec fn in_user_code(self) -> bool {
        self.line is Some && match self.file {
            Some(f) => !internal(f@, self.name_text()),
            None => false,
        }
    }

    /// The lines under a frame for one symbol.
    pub open spec fn lines(self) -> Seq<char> {
        (match self.shown {
            Some(n) => "        "@ + n@ + "\n"@,
            None => Seq::<char>::empty(),
        }) + (match (self.file, self.line) {
            (Some(f), Some(l)) => "          at "@ + f@ + ":"@ + report::dec_text(l as int)
                + "\n"@,
            _ => Seq::<char>::empty(),
        })
    }
}

/// The lines under a frame.
pub open spec fn names_text(symbols: Seq<Symbol>) -> Seq<char>
    decreases symbols.len(),
{
    if symbols.len() == 0 {
        Seq::<char>::empty()
    } else {
        names_text(symbols.drop_last()) + symbols.last().lines()
    }
}

/// The symbols of `ip`: those of the first frame of a resolved stack with that
/// instruction pointer, or none.
pub open spec fn symbols_of(stack: Seq<ResolvedFrame>, ip: usize) -> Seq<Symbol>
    decreases stack.len(),
{
    if stack.len() == 0 {
        Seq::<Symbol>::empty()
    } else if stack[0].ip == ip {
        stack[0].symbols@
    } else {
        symbols_of(stack.drop_first(), ip)
    }
}

/// The first symbol of a frame that is in the user's own code.
pub open spec fn first_user_symbol(symbols: Seq<Symbol>) -> Option<Symbol>
    decreases symbols.len(),
{
    if symbols.len() == 0 {
        None
    } else if symbols[0].in_user_code() {
        Some(symbols[0])
    } else {
        first_user_symbol(symbols.drop_first())
    }
}

/// The first symbol of a stack that is in the user's own code.
pub open spec fn first_user_site(stack: Seq<ResolvedFrame>) -> Option<Symbol>
    decreases stack.len(),
{
    if stack.len() == 0 {
        None
    } else if stack[0].ip != 0 && first_user_symbol(stack[0].symbols@) is Some {
        first_user_symbol(stack[0].symbols@)
    } else {
        first_user_site(stack.drop_first())
    }
}

/// The annotation at a symbol's source line.
pub open spec fn annotation(
    symbol: Symbol,
    cwd: Option<Seq<char>>,
    label: Seq<char>,
    site: Seq<char>,
    addr: usize,
) -> Seq<char>
    recommends
        symbol.in_user_code(),
{
    "::error file="@ + text::relative(symbol.file->0@, cwd)
        + ",line="@ + report::dec_text(symbol.line->0 as int)
        + ",title=Coffin::"@ + label
        + ": buffer "@ + site
        + " here, fault at "@ + report::hex_text(addr as int) + "\n"@
}

/// The annotation for a stack, if it leads into the user's own code.
pub open spec fn site_text(
    stack: Seq<ResolvedFrame>,
    cwd: Option<Seq<char>>,
    label: Seq<char>,
    site: Seq<char>,
    addr: usize,
) -> Seq<char> {
    match first_user_site(stack) {
        Some(symbol) => annotation(symbol, cwd, label, site, addr),
        None => Seq::<char>::empty(),
    }
}

/// The label of a fault.
pub open spec fn label_text(kind: FaultKind) -> Seq<char> {
    match kind {
        FaultKind::Overflow => "BUFFER OVERFLOW"@,
        FaultKind::Underflow => "BUFFER UNDERFLOW"@,
        FaultKind::UseAfterFree => "USE-AFTER-FREE"@,
        FaultKind::LiveRegion => "FAULT IN LIVE REGION"@,
        FaultKind::Wild => "WILD POINTER"@,
    }
}

/// The annotation that stands without a source line.
pub open spec fn unlocated_text(info: Option<FaultInfo>, addr: usize) -> Seq<char> {
    "::error title=Coffin::"@ + (match info {
        Some(fi) => label_text(fi.kind),
        None => "WILD POINTER"@,
    }) + " at "@ + report::hex_text(addr as int) + " (no source location)\n"@
}

/// All annotations for a fault: that of the allocation, that of the free after a
/// use after free, or one without a source line where neither can be placed.
pub open spec fn annotations_text(
    info: Option<FaultInfo>,
    addr: usize,
    cwd: Option<Seq<char>>,
    alloc_stack: Seq<ResolvedFrame>,
    free_stack: Seq<ResolvedFrame>,
) -> Seq<char> {
    match info {
        Some(fi) => {
            let label = label_text(fi.kind);
            let freed = fi.kind == FaultKind::UseAfterFree;
            if fi.kind == FaultKind::Wild {
                unlocated_text(info, addr)
            } else if first_user_site(alloc_stack) is None && (!freed || first_user_site(
                free_stack,
            ) is None) {
                unlocated_text(info, addr)
            } else {
                site_text(alloc_stack, cwd, label, "allocated"@, addr) + if freed {
                    site_text(free_stack, cwd, label, "freed"@, addr)
                } else {
                    Seq::<char>::empty()
                }
            }
        },
        None => unlocated_text(info, addr),
    }
}

/// The label of a fault.
pub fn kind_label(kind: FaultKind) -> (label: &'static str)
    ensures
        label@ == label_text(kind),
{
    match kind {
        FaultKind::Overflow => "BUFFER OVERFLOW",
        FaultKind::Underflow => "BUFFER UNDERFLOW",
        FaultKind::UseAfterFree => "USE-AFTER-FREE",
        FaultKind::LiveRegion => "FAULT IN LIVE REGION",
        FaultKind::Wild => "WILD POINTER",
    }
}

/// Whether a symbol is not the user's own code.
pub fn is_internal_frame(path: &str, name: Option<&str>) -> (r: bool)
    ensures
        r == internal(path@, text::optional(name)),
        r <==> text::has(path@, "/rustc/"@) || text::has(path@, "/.cargo/"@) || text::has(
            path@,
            "/registry/"@,
        ) || (name matches Some(n) && (text::has(n@, "coffin"@) || text::has(n@, "backtrace"@)
            || text::has(n@, "__rust"@))),
{
    if text::contains(path, "/rustc/") || text::contains(path, "/.cargo/")
        || text::contains(path, "/registry/") {
        return true;
    }
    match name {
        Some(n) => text::contains(n, "coffin") || text::contains(n, "backtrace")
            || text::contains(n, "__rust"),
        None => false,
    }
}

impl Symbol {
    fn is_in_user_code(&self) -> (r: bool)
        ensures
            r == self.in_user_code(),
    {
        if self.line.is_none() {
            return false;
        }
        match &self.file {
            Some(f) => {
                let name: Option<&str> = match &self.name {
                    Some(n) => Some(n.as_str()),
                    None => None,
                };
                !is_internal_frame(f.as_str(), name)
            },
            None => false,
        }
    }
}

/// Writes the lines under a frame: each symbol's name, and its source line.
pub fn symbolize_ip(out: &mut String, symbols: &Vec<Symbol>)
    ensures
        final(out)@ == old(out)@ + names_text(symbols@),
{
    let mut i: usize = 0;
    proof {
        assert(symbols@.take(0) =~= Seq::<Symbol>::empty());
        assert(out@ =~= old(out)@ + names_text(symbols@.take(0)));
    }
    while i < symbols.len()
        invariant
            i <= symbols@.len(),
            out@ == old(out)@ + names_text(symbols@.take(i as int)),
        decreases symbols@.len() - i,
    {
        let symbol = &symbols[i];
        let ghost before = out@;
        if let Some(n) = &symbol.shown {
            write_str(out, "        ");
            write_str(out, n.as_str());
            write_str(out, "\n");
        }
        if let Some(f) = &symbol.file {
            if let Some(l) = symbol.line {
                write_str(out, "          at ");
                write_str(out, f.as_str());
                write_str(out, ":");
                write_dec(out, l as usize);
                write_str(out, "\n");
            }
        }
        proof {
            assert(out@ =~= before + symbol.lines());
            assert(symbols@.take(i + 1).drop_last() =~= symbols@.take(i as int));
            assert(out@ =~= old(out)@ + (names_text(symbols@.take(i as int)) + symbol.lines()));
        }
        i = i + 1;
    }
    proof {
        assert(symbols@.take(i as int) =~= symbols@);
    }
}

/// Writes the lines under the frame `ip` of a stack that was resolved.
pub fn write_names(out: &mut String, stack: &Vec<ResolvedFrame>, ip: usize)
    ensures
        final(out)@ == old(out)@ + names_text(symbols_of(stack@, ip)),
{
    let mut i: usize = 0;
    proof {
        assert(stack@.skip(0) =~= stack@);
    }
    while i < stack.len()
        invariant
            i <= stack@.len(),
            *out == *old(out),
            symbols_of(stack@, ip) == symbols_of(stack@.skip(i as int), ip),
        decreases stack@.len() - i,
    {
        proof {
            assert(stack@.skip(i as int).drop_first() =~= stack@.skip(i + 1));
        }
        if stack[i].ip == ip {
            symbolize_ip(out, &stack[i].symbols);
            return;
        }
        i = i + 1;
    }
    proof {
        assert(out@ =~= old(out)@ + Seq::<char>::empty());
    }
}

/// A call site that annotations are made for.
#[derive(Clone, Copy, PartialEq, Eq, Debug, Structural)]
pub enum Site {
    /// Where the buffer was allocated.
    Allocated,
    /// Where it was freed.
    Freed,
}

/// The fault is one for which `site` is annotated.
pub open spec fn has_site(info: Option<FaultInfo>, site: Site) -> bool {
    match (info, site) {
        (Some(fi), Site::Allocated) => fi.kind != FaultKind::Wild,
        (Some(fi), Site::Freed) => fi.kind == FaultKind::UseAfterFree,
        (None, _) => false,
    }
}

/// The frames of a stack. Zero stands for no frame.
pub open spec fn frames_of(ips: Seq<usize>) -> Seq<usize>
    decreases ips.len(),
{
    if ips.len() == 0 {
        Seq::<usize>::empty()
    } else if ips.last() == 0 {
        frames_of(ips.drop_last())
    } else {
        frames_of(ips.drop_last()).push(ips.last())
    }
}

/// The frame that is to be resolved next for the annotation of a site, where
/// `stack` holds those resolved so far: none behind the first that leads into
/// the user's own code, and none for a site that is not annotated.
pub open spec fn frame_to_resolve(
    info: Option<FaultInfo>,
    site: Site,
    ips: Seq<usize>,
    stack: Seq<ResolvedFrame>,
) -> Option<usize> {
    if has_site(info, site) && first_user_site(stack) is None && stack.len() < frames_of(
        ips,
    ).len() {
        Some(frames_of(ips)[stack.len() as int])
    } else {
        None
    }
}

/// Says which frame of a stack is to be resolved next for the annotation of
/// `site`.
pub fn next_to_resolve(
    info: &Option<FaultInfo>,
    site: Site,
    ips: &[usize; IP_DEPTH],
    stack: &Vec<ResolvedFrame>,
) -> (ip: Option<usize>)
    ensures
        ip == frame_to_resolve(*info, site, ips@, stack@),
{
    let wanted: bool = match (info, site) {
        (Some(fi), Site::Allocated) => fi.kind != FaultKind::Wild,
        (Some(fi), Site::Freed) => fi.kind == FaultKind::UseAfterFree,
        (None, _) => false,
    };
    if !wanted || find_user_site(stack).is_some() {
        return None;
    }
    let mut i: usize = 0;
    let mut seen: usize = 0;
    proof {
        assert(ips@.take(0) =~= Seq::<usize>::empty());
    }
    while i < IP_DEPTH
        invariant
            i <= IP_DEPTH,
            seen <= i,
            seen == frames_of(ips@.take(i as int)).len(),
            seen <= stack@.len(),
            has_site(*info, site),
            first_user_site(stack@) is None,
        decreases IP_DEPTH - i,
    {
        proof {
            assert(ips@.take(i + 1).drop_last() =~= ips@.take(i as int));
        }
        if ips[i] != 0 {
            if seen == stack.len() {
                proof {
                    lemma_frames_grow(ips@, i + 1);
                }
                return Some(ips[i]);
            }
            seen = seen + 1;
        }
        i = i + 1;
    }
    proof {
        assert(ips@.take(IP_DEPTH as int) =~= ips@);
    }
    None
}

/// The frames of the first `n` entries of a stack are the first of its frames.
proof fn lemma_frames_grow(ips: Seq<usize>, n: int)
    requires
        0 <= n <= ips.len(),
    ensures
        frames_of(ips.take(n)).len() <= frames_of(ips).len(),
        forall|i: int|
            0 <= i < frames_of(ips.take(n)).len() ==> frames_of(ips.take(n))[i] == #[trigger] frames_of(
                ips,
            )[i],
    decreases ips.len(),
{
    if n == ips.len() {
        assert(ips.take(n) =~= ips);
    } else {
        lemma_frames_grow(ips.drop_last(), n);
        assert(ips.drop_last().take(n) =~= ips.take(n));
    }
}

/// The frames that are resolved, up to the first that leads into the user's own
/// code, are enough: the site found in them is the one found in the whole stack.
pub proof fn resolved_frames_are_enough(
    info: Option<FaultInfo>,
    site: Site,
    ips: Seq<usize>,
    whole: Seq<ResolvedFrame>,
    n: int,
)
    requires
        has_site(info, site),
        0 <= n <= whole.len(),
        whole.len() == frames_of(ips).len(),
        frame_to_resolve(info, site, ips, whole.take(n)) is None,
    ensures
        first_user_site(whole.take(n)) == first_user_site(whole),
{
    if n < whole.len() {
        lemma_site_in_front(whole, n);
    } else {
        assert(whole.take(n) =~= whole);
    }
}

/// A site in the first frames of a stack is the site of the whole stack.
proof fn lemma_site_in_front(stack: Seq<ResolvedFrame>, n: int)
    requires
        0 <= n <= stack.len(),
        first_user_site(stack.take(n)) is Some,
    ensures
        first_user_site(stack) == first_user_site(stack.take(n)),
    decreases stack.len(),
{
    let front = stack.take(n);
    if n > 0 && !(front[0].ip != 0 && first_user_symbol(front[0].symbols@) is Some) {
        assert(front.drop_first() =~= stack.drop_first().take(n - 1));
        lemma_site_in_front(stack.drop_first(), n - 1);
    }
}

/// Writes an annotation at the first place of a stack that is in the user's own
/// code. Returns whether there is one.
pub fn emit_site(
    out: &mut String,
    stack: &Vec<ResolvedFrame>,
    cwd: Option<&str>,
    label: &str,
    site: &str,
    addr: usize,
) -> (emitted: bool)
    ensures
        emitted == (first_user_site(stack@) is Some),
        final(out)@ == old(out)@ + site_text(stack@, text::optional(cwd), label@, site@, addr),
{
    match find_user_site(stack) {
        Some(symbol) => {
            if let Some(f) = &symbol.file {
                if let Some(l) = symbol.line {
                    write_annotation(out, f.as_str(), l, cwd, label, site, addr);
                }
            }
            true
        },
        None => {
            proof {
                assert(out@ =~= old(out)@ + Seq::<char>::empty());
            }
            false
        },
    }
}

/// Finds the first symbol of a stack that is in the user's own code.
fn find_user_site(stack: &Vec<ResolvedFrame>) -> (r: Option<&Symbol>)
    ensures
        match r {
            Some(symbol) => first_user_site(stack@) == Some(*symbol) && symbol.in_user_code(),
            None => first_user_site(stack@) is None,
        },
{
    let mut i: usize = 0;
    proof {
        assert(stack@.skip(0) =~= stack@);
    }
    while i < stack.len()
        invariant
            i <= stack@.len(),
            first_user_site(stack@) == first_user_site(stack@.skip(i as int)),
        decreases stack@.len() - i,
    {
        let frame = &stack[i];
        proof {
            assert(stack@.skip(i as int).drop_first() =~= stack@.skip(i + 1));
        }
        if frame.ip != 0 {
            if let Some(symbol) = find_user_symbol(&frame.symbols) {
                return Some(symbol);
            }
        }
        i = i + 1;
    }
    None
}

/// Finds the first symbol of a frame that is in the user's own code.
fn find_user_symbol(symbols: &Vec<Symbol>) -> (r: Option<&Symbol>)
    ensures
        match r {
            Some(symbol) => first_user_symbol(symbols@) == Some(*symbol) && symbol.in_user_code(),
            None => first_user_symbol(symbols@) is None,
        },
{
    let mut j: usize = 0;
    proof {
        assert(symbols@.skip(0) =~= symbols@);
    }
    while j < symbols.len()
        invariant
            j <= symbols@.len(),
            first_user_symbol(symbols@) == first_user_symbol(symbols@.skip(j as int)),
        decreases symbols@.len() - j,
    {
        let symbol = &symbols[j];
        proof {
            assert(symbols@.skip(j as int).drop_first() =~= symbols@.skip(j + 1));
        }
        if symbol.is_in_user_code() {
            return Some(symbol);
        }
        j = j + 1;
    }
    None
}

/// Writes one annotation.
fn write_annotation(
    out: &mut String,
    file: &str,
    line: u32,
    cwd: Option<&str>,
    label: &str,
    site: &str,
    addr: usize,
)
    ensures
        final(out)@ == old(out)@ + ("::error file="@ + text::relative(file@, text::optional(cwd))
            + ",line="@ + report::dec_text(line as int)
            + ",title=Coffin::"@ + label@
            + ": buffer "@ + site@
            + " here, fault at "@ + report::hex_text(addr as int) + "\n"@),
{
    write_str(out, "::error file=");
    write_str(out, text::relativize(file, cwd));
    write_str(out, ",line=");
    write_dec(out, line as usize);
    write_str(out, ",title=Coffin::");
    write_str(out, label);
    write_str(out, ": buffer ");
    write_str(out, site);
    write_str(out, " here, fault at ");
    write_hex(out, addr);
    write_str(out, "\n");
    proof {
        assert(out@ =~= old(out)@ + ("::error file="@ + text::relative(file@, text::optional(cwd))
            + ",line="@ + report::dec_text(line as int)
            + ",title=Coffin::"@ + label@
            + ": buffer "@ + site@
            + " here, fault at "@ + report::hex_text(addr as int) + "\n"@));
    }
}

/// Writes the annotations for a fault at `addr`. The stacks are those of the
/// allocation and of the free.
pub fn emit_annotations(
    out: &mut String,
    info: Option<FaultInfo>,
    addr: usize,
    cwd: Option<&str>,
    alloc_stack: &Vec<ResolvedFrame>,
    free_stack: &Vec<ResolvedFrame>,
)
    ensures
        final(out)@ == old(out)@ + annotations_text(
            info,
            addr,
            text::optional(cwd),
            alloc_stack@,
            free_stack@,
        ),
{
    let mut located: bool = false;
    let ghost wanted = annotations_text(info, addr, text::optional(cwd), alloc_stack@, free_stack@);
    if let Some(fi) = info {
        if fi.kind != FaultKind::Wild {
            let label: &'static str = kind_label(fi.kind);
            let alloc_located: bool = emit_site(out, alloc_stack, cwd, label, "allocated", addr);
            let mut free_located: bool = false;
            if fi.kind == FaultKind::UseAfterFree {
                free_located = emit_site(out, free_stack, cwd, label, "freed", addr);
            }
            located = alloc_located || free_located;
            proof {
                if located {
                    assert(out@ =~= old(out)@ + wanted);
                } else {
                    assert(out@ =~= old(out)@);
                }
            }
        }
    }
    if !located {
        let label: &'static str = match info {
            Some(fi) => kind_label(fi.kind),
            None => "WILD POINTER",
        };
        write_str(out, "::error title=Coffin::");
        write_str(out, label);
        write_str(out, " at ");
        write_hex(out, addr);
        write_str(out, " (no source location)\n");
        proof {
            assert(wanted == unlocated_text(info, addr));
            assert(out@ =~= old(out)@ + unlocated_text(info, addr));
        }
    }
}

} // verus!
