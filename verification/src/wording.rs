//! What the texts come down to, character by character, and what texts that are
//! read are taken for.
//!
//! The report and the annotations are stated here line by line, for every fault;
//! so is what counts as the user's own code, and what the value of an environment
//! variable stands for.

use vstd::prelude::*;
use vstd::arithmetic::div_mod::*;
use crate::annotate::{self, ResolvedFrame, Site, Symbol};
use crate::config::{self, Mode, OnFault};
use crate::handler::{self, FaultReport, SignalNumbers};
use crate::meaning;
use crate::model::{self, ArenaState};
use crate::publish;
use crate::reentrancy::Reentrancy;
use crate::registry::{FaultInfo, FaultKind, Region};
use crate::report;
use crate::text;

verus! {

// ------------------------------ numbers ------------------------------

/// A number is written with the digits `0` to `9`, then `a` to `f`, the last digit
/// being its remainder by the radix and those before it the number's quotient.
pub proof fn number_is_written_digit_by_digit(v: int, radix: int)
    requires
        0 <= v,
        2 <= radix <= 16,
    ensures
        ({
            let t = text::number(v, radix);
            let d = v % radix;
            &&& t.len() >= 1
            &&& d < 10 ==> t.last() as int == 48 + d
            &&& d >= 10 ==> t.last() as int == 97 + (d - 10)
            &&& v < radix ==> t.len() == 1
            &&& v >= radix ==> t.drop_last() == text::number(v / radix, radix)
            &&& text::value(t, radix) == v
        }),
{
    text::number_reads_back(v, radix);
    if v < radix {
        lemma_small_mod(v as nat, radix as nat);
    } else {
        lemma_mod_bound(v, radix);
        assert(text::number(v, radix).drop_last() =~= text::number(v / radix, radix));
    }
}

/// The value of a row of digits is ten times, or sixteen times, that of the digits
/// before the last, and the last.
pub proof fn value_is_positional(digits: Seq<char>, c: char, radix: int)
    ensures
        text::value(Seq::<char>::empty(), radix) == 0,
        '0' <= c <= '9' ==> text::value(digits.push(c), radix) == text::value(digits, radix) * radix
            + (c as int - 48),
        'a' <= c <= 'f' ==> text::value(digits.push(c), radix) == text::value(digits, radix) * radix
            + (c as int - 87),
{
    assert(digits.push(c).drop_last() =~= digits);
}

/// Decimal and hexadecimal text read back as the number that was written, and
/// hexadecimal text starts with `0x`.
pub proof fn written_numbers_read_back(v: int)
    requires
        0 <= v,
    ensures
        text::value(report::dec_text(v), 10) == v,
        report::dec_text(v) == text::number(v, 10),
        report::hex_text(v).len() >= 3,
        report::hex_text(v)[0] == '0',
        report::hex_text(v)[1] == 'x',
        text::value(report::hex_text(v).skip(2), 16) == v,
        v > 0 ==> report::dec_text(v)[0] != '0' && report::hex_text(v)[2] != '0',
{
    reveal_strlit("0x");
    text::number_reads_back(v, 10);
    text::number_reads_back(v, 16);
    assert(report::hex_text(v).skip(2) =~= text::number(v, 16));
}

// ------------------------------ call stacks ------------------------------

/// Zero stands for no frame.
pub open spec fn is_frame() -> spec_fn(usize) -> bool {
    |ip: usize| ip != 0
}

/// The frames of a captured stack: its entries that are not zero.
pub open spec fn nonzero(ips: Seq<usize>) -> Seq<usize> {
    ips.filter(is_frame())
}

/// The lines of each frame.
pub open spec fn lines_of(frames: Seq<usize>, names: Seq<ResolvedFrame>) -> Seq<Seq<char>> {
    Seq::new(frames.len(), |n: int| frame_line(frames[n], names))
}

/// A stack as the report shows it: a line for each of its frames, in order, with
/// the names of the frame under it, or one line that says that there are none.
pub open spec fn stack_lines(ips: Seq<usize>, names: Seq<ResolvedFrame>) -> Seq<char> {
    if nonzero(ips).len() == 0 {
        "      <no frames captured>\n"@
    } else {
        lines_of(nonzero(ips), names).flatten()
    }
}

/// A frame's line, and its names under it.
pub open spec fn frame_line(ip: usize, names: Seq<ResolvedFrame>) -> Seq<char> {
    "      "@ + report::hex_text(ip as int) + "\n"@ + annotate::names_text(
        annotate::symbols_of(names, ip),
    )
}

/// Every entry of a captured stack that is not zero has its line, however deep it
/// stands.
pub proof fn every_frame_has_its_line(ips: Seq<usize>, names: Seq<ResolvedFrame>)
    ensures
        handler::frames_text(ips, 0, false, names) == stack_lines(ips, names),
{
    lemma_lines_from(ips, 0, false, names);
    assert(ips.skip(0) =~= ips);
}

proof fn lemma_lines_from(ips: Seq<usize>, next: int, any: bool, names: Seq<ResolvedFrame>)
    requires
        0 <= next <= ips.len(),
    ensures
        nonzero(ips.skip(next)).len() == 0 ==> handler::frames_text(ips, next, any, names)
            == handler::no_frames_text(any),
        nonzero(ips.skip(next)).len() > 0 ==> handler::frames_text(ips, next, any, names)
            == lines_of(nonzero(ips.skip(next)), names).flatten(),
    decreases ips.len() - next,
{
    lemma_nonzero(ips, next);
    if next < ips.len() {
        let ip = ips[next];
        let frames = nonzero(ips.skip(next));
        let rest = nonzero(ips.skip(next + 1));
        lemma_lines_from(ips, next + 1, any || ip != 0, names);
        if ip != 0 {
            let lines = lines_of(frames, names);
            assert(lines.drop_first() =~= lines_of(rest, names));
            assert(lines.first() == frame_line(ip, names));
            assert(lines.flatten() == frame_line(ip, names) + lines_of(rest, names).flatten());
            assert(handler::frames_text(ips, next, any, names) == frame_line(ip, names)
                + handler::frames_text(ips, next + 1, true, names));
            if rest.len() == 0 {
                assert(lines_of(rest, names) =~= Seq::<Seq<char>>::empty());
                assert(lines_of(rest, names).flatten() =~= Seq::<char>::empty());
            }
        }
    }
}

/// Entry by entry, from the front.
proof fn lemma_nonzero(ips: Seq<usize>, next: int)
    requires
        0 <= next <= ips.len(),
    ensures
        next == ips.len() ==> nonzero(ips.skip(next)) == Seq::<usize>::empty(),
        next < ips.len() && ips[next] == 0 ==> nonzero(ips.skip(next)) == nonzero(
            ips.skip(next + 1),
        ),
        next < ips.len() && ips[next] != 0 ==> nonzero(ips.skip(next)) == seq![ips[next]] + nonzero(
            ips.skip(next + 1),
        ),
{
    reveal_with_fuel(Seq::filter, 2);
    if next < ips.len() {
        let one = seq![ips[next]];
        let rest = ips.skip(next + 1);
        assert(ips.skip(next) =~= one + rest);
        Seq::filter_distributes_over_add(one, rest, is_frame());
        assert(one.drop_last() =~= Seq::<usize>::empty());
        if ips[next] == 0 {
            assert(one.filter(is_frame()) =~= Seq::<usize>::empty());
            assert(Seq::<usize>::empty() + nonzero(rest) =~= nonzero(rest));
        } else {
            assert(one.filter(is_frame()) =~= one);
        }
    } else {
        assert(ips.skip(next) =~= Seq::<usize>::empty());
    }
}

/// The next frame of a stack is the first entry from there on that is not zero, and
/// there is none only where all of them are.
pub proof fn next_frame_is_the_first_nonzero(ips: Seq<usize>, next: int)
    requires
        0 <= next <= ips.len(),
    ensures
        ({
            let n = handler::next_frame(ips, next);
            &&& next <= n <= ips.len()
            &&& n < ips.len() ==> ips[n] != 0
            &&& forall|j: int| next <= j < n ==> ips[j] == 0
        }),
    decreases ips.len() - next,
{
    if next < ips.len() && ips[next] == 0 {
        next_frame_is_the_first_nonzero(ips, next + 1);
    }
}

/// The names of a frame are those of the first resolved frame at its address.
pub proof fn names_are_those_of_the_frame(stack: Seq<ResolvedFrame>, ip: usize)
    ensures
        (exists|i: int| #[trigger] is_first_at(stack, ip, i)) ==> exists|i: int| #[trigger]
            is_first_at(stack, ip, i) && annotate::symbols_of(stack, ip) == stack[i].symbols@,
        (forall|i: int| 0 <= i < stack.len() ==> (#[trigger] stack[i]).ip != ip)
            ==> annotate::symbols_of(stack, ip).len() == 0,
    decreases stack.len(),
{
    if stack.len() > 0 {
        let rest = stack.drop_first();
        names_are_those_of_the_frame(rest, ip);
        if stack[0].ip == ip {
            assert(is_first_at(stack, ip, 0));
        } else {
            if exists|i: int| #[trigger] is_first_at(stack, ip, i) {
                let i = choose|i: int| #[trigger] is_first_at(stack, ip, i);
                assert forall|j: int| 0 <= j < i - 1 implies (#[trigger] rest[j]).ip != ip by {
                    assert(stack[j + 1].ip != ip);
                }
                assert(is_first_at(rest, ip, i - 1));
                let k = choose|k: int| #[trigger]
                    is_first_at(rest, ip, k) && annotate::symbols_of(rest, ip) == rest[k].symbols@;
                assert forall|j: int| 0 <= j < k + 1 implies (#[trigger] stack[j]).ip != ip by {
                    if j > 0 {
                        assert(rest[j - 1].ip != ip);
                    }
                }
                assert(is_first_at(stack, ip, k + 1));
            }
            if forall|i: int| 0 <= i < stack.len() ==> (#[trigger] stack[i]).ip != ip {
                assert forall|i: int| 0 <= i < rest.len() implies (#[trigger] rest[i]).ip != ip by {
                    assert(stack[i + 1].ip != ip);
                }
            }
        }
    }
}

/// Frame `i` is the first of a resolved stack with instruction pointer `ip`.
pub open spec fn is_first_at(stack: Seq<ResolvedFrame>, ip: usize, i: int) -> bool {
    &&& 0 <= i < stack.len()
    &&& stack[i].ip == ip
    &&& forall|j: int| 0 <= j < i ==> (#[trigger] stack[j]).ip != ip
}

/// The lines of a symbol: its name, if it has one to show, and its place, if both
/// file and line are known.
pub open spec fn symbol_lines(symbol: Symbol) -> Seq<char> {
    (if let Some(n) = symbol.shown {
        "        "@ + n@ + "\n"@
    } else {
        Seq::<char>::empty()
    }) + (if symbol.file is Some && symbol.line is Some {
        "          at "@ + symbol.file->0@ + ":"@ + report::dec_text(symbol.line->0 as int) + "\n"@
    } else {
        Seq::<char>::empty()
    })
}

/// The lines of each symbol.
pub open spec fn lines_of_symbols(symbols: Seq<Symbol>) -> Seq<Seq<char>> {
    Seq::new(symbols.len(), |n: int| symbol_lines(symbols[n]))
}

/// Every symbol of a frame has its lines, in order.
pub proof fn every_symbol_has_its_lines(symbols: Seq<Symbol>)
    ensures
        annotate::names_text(symbols) == lines_of_symbols(symbols).flatten(),
    decreases symbols.len(),
{
    let lines = lines_of_symbols(symbols);
    if symbols.len() > 0 {
        let front = symbols.drop_last();
        every_symbol_has_its_lines(front);
        assert(lines.drop_last() =~= lines_of_symbols(front));
        lines.lemma_flatten_and_flatten_alt_are_equivalent();
        lines.drop_last().lemma_flatten_and_flatten_alt_are_equivalent();
        assert(symbols.last().lines() =~= symbol_lines(symbols.last()));
    }
}

// ------------------------------ the report ------------------------------

/// Where a region's mapping and its buffer are, as a report says it.
pub open spec fn region_place(r: Region) -> Seq<char> {
    "  region        : base "@ + report::hex_text(r.base as int) + " .. "@ + report::hex_text(
        r.base + r.total_len,
    ) + " ("@ + report::dec_text(r.total_len as int) + " bytes mapped)\n"@
        + "  user buffer   : "@ + report::hex_text(r.user_ptr as int) + "  size "@
        + report::dec_text(r.size as int) + "  align "@ + report::dec_text(r.align as int) + "\n"@
}

/// What a report says of a fault in the region `r`, after its first lines: how far
/// from the buffer the access was is said in bytes past its end, before its start
/// or from its start, modulo the width of an address.
pub open spec fn region_lines(r: Region, addr: usize, page: usize) -> Seq<char> {
    let width = usize::MAX + 1;
    let on_guard = r.guard_addr <= addr && addr < r.guard_addr + page && r.guard_addr + page
        <= usize::MAX;
    let place = region_place(r);
    if r.state == 2 {
        "  fault         : "@ + "USE-AFTER-FREE\n"@ + place + ("  offset        : "@
            + report::dec_text((addr - r.user_ptr) % width)
            + " byte(s) into the freed buffer\n"@)
    } else if on_guard && r.user_ptr <= r.guard_addr {
        "  fault         : "@ + "BUFFER OVERFLOW (write past end of allocation)\n"@ + place + (
        "  overflow      : "@ + report::dec_text((addr - (r.user_ptr + r.size)) % width)
            + " byte(s) past the end of the buffer\n"@)
    } else if on_guard {
        "  fault         : "@ + "BUFFER UNDERFLOW (write before allocation)\n"@ + place + (
        "  underflow     : "@ + report::dec_text((r.user_ptr - addr) % width)
            + " byte(s) before the start of the buffer\n"@)
    } else {
        "  fault         : "@ + "FAULT INSIDE LIVE REGION (unexpected)\n"@ + place
    }
}

/// The first lines of a report.
pub open spec fn first_lines(sig: i32, signals: SignalNumbers, addr: usize) -> Seq<char> {
    "\n========================= COFFIN =========================\n"@ + "  signal        : "@ + (
    if sig == signals.segv {
        "SIGSEGV"@
    } else if sig == signals.bus {
        "SIGBUS"@
    } else {
        "signal"@
    }) + " ("@ + report::dec_text(sig as usize as int) + ")\n"@ + "  fault address : "@
        + report::hex_text(addr as int) + "\n"@
}

/// The last lines of a report: the hint only where no names were asked for.
pub open spec fn last_lines(symbolize: bool) -> Seq<char> {
    if symbolize {
        "==========================================================\n"@
    } else {
        "  hint          : set COFFIN_SYMBOLIZE=1 for symbol names + file:line\n"@
            + "==========================================================\n"@
    }
}

/// The names that are shown: none, unless they are asked for.
pub open spec fn if_asked(symbolize: bool, stack: Seq<ResolvedFrame>) -> Seq<ResolvedFrame> {
    if symbolize {
        stack
    } else {
        Seq::<ResolvedFrame>::empty()
    }
}

/// The report on a fault at an address that slot `i` tracks, and none before it,
/// says what happened there and how far from the buffer, shows the stack of the
/// allocation, and that of the free exactly for a freed region.
pub proof fn report_on_a_region(
    sig: i32,
    signals: SignalNumbers,
    s: ArenaState,
    i: int,
    addr: usize,
    page: usize,
    symbolize: bool,
    taken: Seq<ResolvedFrame>,
    freed: Seq<ResolvedFrame>,
)
    requires
        s.slots.len() <= usize::MAX,
        0 <= i < s.slots.len(),
        meaning::tracks(s.slots[i], addr as int),
        forall|j: int| 0 <= j < i ==> !meaning::tracks(#[trigger] s.slots[j], addr as int),
    ensures
        ({
            let r = s.slots[i];
            handler::report_text(sig, signals, Some(s), addr, page, symbolize, taken, freed)
                == first_lines(sig, signals, addr) + region_lines(r, addr, page)
                + "  allocated at  :\n"@ + stack_lines(
                r.alloc_ips@,
                if_asked(symbolize, taken),
            ) + (if r.state == 2 {
                "  freed at      :\n"@ + stack_lines(r.free_ips@, if_asked(symbolize, freed))
            } else {
                Seq::<char>::empty()
            }) + last_lines(symbolize)
        }),
{
    let r = s.slots[i];
    let fi = model::fault_info(s.slots, addr, page);
    meaning::fault_names_its_region(s.slots, addr, page);
    assert(fi.slot == i);
    let found = handler::found_in(Some(s), addr, page);
    let f = FaultReport::fresh(sig, signals, addr, symbolize, false).told(found);
    handler::report_has_its_sections(sig, signals, Some(s), addr, page, symbolize, taken, freed);
    every_frame_has_its_line(r.alloc_ips@, if_asked(symbolize, taken));
    every_frame_has_its_line(r.free_ips@, if_asked(symbolize, freed));
    lemma_small_mod((r.base + r.total_len) as nat, (usize::MAX + 1) as nat);
    assert(f.info == Some(fi));
    assert(f.alloc_ips == r.alloc_ips);
    assert(f.free_ips == r.free_ips);
    lemma_first_lines(sig, signals, addr);
    lemma_last_lines(symbolize);
    lemma_region_lines(r, addr, page, fi);
    let a = stack_lines(r.alloc_ips@, if_asked(symbolize, taken));
    let b = stack_lines(r.free_ips@, if_asked(symbolize, freed));
    lemma_join(
        first_lines(sig, signals, addr),
        handler::verdict_text(Some(fi)),
        handler::region_text(fi),
        handler::distance_text(addr, fi),
        "  allocated at  :\n"@,
        a,
        "  freed at      :\n"@,
        b,
        last_lines(symbolize),
    );
}

proof fn lemma_join(
    h: Seq<char>,
    v: Seq<char>,
    r: Seq<char>,
    d: Seq<char>,
    l: Seq<char>,
    a: Seq<char>,
    m: Seq<char>,
    b: Seq<char>,
    f: Seq<char>,
)
    ensures
        h + v + (r + d + l + a + (m + b + f)) == h + (v + (r + d)) + l + a + (m + b) + f,
        h + v + (r + d + l + a + f) == h + (v + (r + d)) + l + a + Seq::<char>::empty() + f,
{
    assert(h + v + (r + d + l + a + (m + b + f)) =~= h + (v + (r + d)) + l + a + (m + b) + f);
    assert(h + v + (r + d + l + a + f) =~= h + (v + (r + d)) + l + a + Seq::<char>::empty() + f);
}

proof fn lemma_around_line(
    h: Seq<char>,
    f: Seq<char>,
    v: Seq<char>,
    p: Seq<char>,
    line: Seq<char>,
    l: Seq<char>,
    a: Seq<char>,
    x: Seq<char>,
    z: Seq<char>,
)
    ensures
        h + (f + v + p + line) + l + a + x + z == (h + f + v + p) + line + (l + a + x + z),
{
    assert(h + (f + v + p + line) + l + a + x + z =~= (h + f + v + p) + line + (l + a + x + z));
}

proof fn lemma_first_lines(sig: i32, signals: SignalNumbers, addr: usize)
    ensures
        handler::head_text(sig, addr, signals) == first_lines(sig, signals, addr),
{
}

proof fn lemma_last_lines(symbolize: bool)
    ensures
        handler::footer_text(symbolize) == last_lines(symbolize),
{
    assert(handler::footer_text(symbolize) =~= last_lines(symbolize));
}

proof fn lemma_region_lines(r: Region, addr: usize, page: usize, fi: FaultInfo)
    requires
        meaning::tracks(r, addr as int),
        meaning::names_the_fault(r, addr as int, page as int, fi.kind),
        fi.base == r.base,
        fi.total_len == r.total_len,
        fi.user_ptr == r.user_ptr,
        fi.size == r.size,
        fi.align == r.align,
    ensures
        handler::verdict_text(Some(fi)) + (handler::region_text(fi) + handler::distance_text(
            addr,
            fi,
        )) == region_lines(r, addr, page),
{
    lemma_small_mod((r.base + r.total_len) as nat, (usize::MAX + 1) as nat);
    assert(handler::verdict_text(Some(fi)) + (handler::region_text(fi) + handler::distance_text(
        addr,
        fi,
    )) =~= region_lines(r, addr, page));
}

/// The report on a fault at an address that no slot tracks, or without a registry,
/// says so, and shows no stack.
pub proof fn report_on_a_wild_fault(
    sig: i32,
    signals: SignalNumbers,
    registry: Option<ArenaState>,
    addr: usize,
    page: usize,
    symbolize: bool,
    taken: Seq<ResolvedFrame>,
    freed: Seq<ResolvedFrame>,
)
    requires
        registry matches Some(s) ==> s.slots.len() <= usize::MAX && forall|i: int|
            0 <= i < s.slots.len() ==> !meaning::tracks(#[trigger] s.slots[i], addr as int),
    ensures
        handler::report_text(sig, signals, registry, addr, page, symbolize, taken, freed)
            == first_lines(sig, signals, addr) + "  fault         : "@
            + "WILD POINTER (no tracked region)\n"@
            + "  (address is not inside any live or quarantined allocation)\n"@ + last_lines(
            symbolize,
        ),
{
    if let Some(s) = registry {
        meaning::fault_names_its_region(s.slots, addr, page);
    }
    handler::report_has_its_sections(sig, signals, registry, addr, page, symbolize, taken, freed);
    lemma_first_lines(sig, signals, addr);
    lemma_last_lines(symbolize);
    assert(handler::report_text(sig, signals, registry, addr, page, symbolize, taken, freed)
        =~= first_lines(sig, signals, addr) + "  fault         : "@
        + "WILD POINTER (no tracked region)\n"@
        + "  (address is not inside any live or quarantined allocation)\n"@ + last_lines(symbolize));
}

/// `text` has the line made of `before`, a number in decimal that reads as `n`, and
/// `after`.
pub open spec fn has_number_line(
    text: Seq<char>,
    before: Seq<char>,
    n: int,
    after: Seq<char>,
) -> bool {
    exists|front: Seq<char>, digits: Seq<char>, back: Seq<char>|
        text == front + (before + digits + after) + back && #[trigger] reads_as(
            front,
            digits,
            back,
            n,
        )
}

/// `digits`, between the other two texts, are decimal digits that read as `n`.
pub open spec fn reads_as(
    front: Seq<char>,
    digits: Seq<char>,
    back: Seq<char>,
    n: int,
) -> bool {
    &&& digits.len() > 0
    &&& text::value(digits, 10) == n
}

/// The line on the distance says how far it is, in plain bytes: from the start of a
/// freed buffer on, from the end of an overflowed one on, and from the access to the
/// start of an underflowed one.
pub proof fn distance_line_is_true(
    sig: i32,
    signals: SignalNumbers,
    s: ArenaState,
    i: int,
    addr: usize,
    page: usize,
    symbolize: bool,
    taken: Seq<ResolvedFrame>,
    freed: Seq<ResolvedFrame>,
)
    requires
        s.slots.len() <= usize::MAX,
        0 <= i < s.slots.len(),
        meaning::tracks(s.slots[i], addr as int),
        forall|j: int| 0 <= j < i ==> !meaning::tracks(#[trigger] s.slots[j], addr as int),
    ensures
        ({
            let r = s.slots[i];
            let text = handler::report_text(
                sig,
                signals,
                Some(s),
                addr,
                page,
                symbolize,
                taken,
                freed,
            );
            let on_guard = r.guard_addr <= addr < r.guard_addr + page <= usize::MAX;
            &&& r.state == 2 && r.user_ptr <= addr ==> has_number_line(
                text,
                "  offset        : "@,
                addr - r.user_ptr,
                " byte(s) into the freed buffer\n"@,
            )
            &&& r.state == 1 && on_guard && r.user_ptr <= r.guard_addr && r.user_ptr + r.size
                <= addr ==> has_number_line(
                text,
                "  overflow      : "@,
                addr - (r.user_ptr + r.size),
                " byte(s) past the end of the buffer\n"@,
            )
            &&& r.state == 1 && on_guard && r.guard_addr < r.user_ptr && addr <= r.user_ptr
                ==> has_number_line(
                text,
                "  underflow     : "@,
                r.user_ptr - addr,
                " byte(s) before the start of the buffer\n"@,
            )
        }),
{
    let r = s.slots[i];
    let width = usize::MAX + 1;
    let text = handler::report_text(sig, signals, Some(s), addr, page, symbolize, taken, freed);
    report_on_a_region(sig, signals, s, i, addr, page, symbolize, taken, freed);
    let h = first_lines(sig, signals, addr);
    let a = stack_lines(r.alloc_ips@, if_asked(symbolize, taken));
    let x = if r.state == 2 {
        "  freed at      :\n"@ + stack_lines(r.free_ips@, if_asked(symbolize, freed))
    } else {
        Seq::<char>::empty()
    };
    let z = last_lines(symbolize);
    if r.state == 2 && r.user_ptr <= addr {
        lemma_small_mod((addr - r.user_ptr) as nat, width as nat);
        lemma_distance_line(
            text,
            h,
            "USE-AFTER-FREE\n"@,
            r,
            "  offset        : "@,
            addr - r.user_ptr,
            " byte(s) into the freed buffer\n"@,
            a,
            x,
            z,
        );
    }
    if r.state == 1 && r.guard_addr <= addr < r.guard_addr + page <= usize::MAX {
        if r.user_ptr <= r.guard_addr && r.user_ptr + r.size <= addr {
            lemma_small_mod((addr - (r.user_ptr + r.size)) as nat, width as nat);
            lemma_distance_line(
                text,
                h,
                "BUFFER OVERFLOW (write past end of allocation)\n"@,
                r,
                "  overflow      : "@,
                addr - (r.user_ptr + r.size),
                " byte(s) past the end of the buffer\n"@,
                a,
                x,
                z,
            );
        }
        if r.guard_addr < r.user_ptr && addr <= r.user_ptr {
            lemma_small_mod((r.user_ptr - addr) as nat, width as nat);
            lemma_distance_line(
                text,
                h,
                "BUFFER UNDERFLOW (write before allocation)\n"@,
                r,
                "  underflow     : "@,
                r.user_ptr - addr,
                " byte(s) before the start of the buffer\n"@,
                a,
                x,
                z,
            );
        }
    }
}

proof fn lemma_distance_line(
    text: Seq<char>,
    h: Seq<char>,
    verdict: Seq<char>,
    r: Region,
    before: Seq<char>,
    n: int,
    after: Seq<char>,
    a: Seq<char>,
    x: Seq<char>,
    z: Seq<char>,
)
    requires
        0 <= n,
        text == h + ("  fault         : "@ + verdict + region_place(r) + (before
            + report::dec_text(n) + after)) + "  allocated at  :\n"@ + a + x + z,
    ensures
        has_number_line(text, before, n, after),
{
    let line = before + report::dec_text(n) + after;
    lemma_around_line(
        h,
        "  fault         : "@,
        verdict,
        region_place(r),
        line,
        "  allocated at  :\n"@,
        a,
        x,
        z,
    );
    lemma_number_line(
        text,
        h + "  fault         : "@ + verdict + region_place(r),
        before,
        n,
        after,
        "  allocated at  :\n"@ + a + x + z,
    );
}

proof fn lemma_number_line(
    text: Seq<char>,
    front: Seq<char>,
    before: Seq<char>,
    n: int,
    after: Seq<char>,
    back: Seq<char>,
)
    requires
        0 <= n,
        text == front + (before + report::dec_text(n) + after) + back,
    ensures
        has_number_line(text, before, n, after),
{
    written_numbers_read_back(n);
    number_is_written_digit_by_digit(n, 10);
    assert(reads_as(front, report::dec_text(n), back, n));
}

/// Annotations are written exactly where they are asked for, and the guard is closed
/// for good exactly where names or annotations are. It is left as it was otherwise.
pub proof fn options_are_followed(
    registry: Option<ArenaState>,
    addr: usize,
    page: usize,
    cwd: Option<Seq<char>>,
    taken: Seq<ResolvedFrame>,
    freed: Seq<ResolvedFrame>,
    guard: Reentrancy,
    symbolize: bool,
)
    ensures
        handler::notes_text(registry, addr, page, false, cwd, taken, freed).len() == 0,
        registry matches Some(s) ==> handler::notes_text(
            registry,
            addr,
            page,
            true,
            cwd,
            taken,
            freed,
        ) == annotate::annotations_text(
            Some(model::fault_info(s.slots, addr, page)),
            addr,
            cwd,
            taken,
            freed,
        ),
        handler::notes_text(None, addr, page, true, cwd, taken, freed)
            == annotate::annotations_text(None, addr, cwd, taken, freed),
        handler::guard_after(guard, false, false) == guard,
        handler::guard_after(guard, true, false) == (Reentrancy {
            inside: guard.inside,
            forced: true,
        }),
        handler::guard_after(guard, symbolize, true) == (Reentrancy {
            inside: guard.inside,
            forced: true,
        }),
{
}

// ------------------------------ substrings and paths ------------------------------

/// `part` stands in `text`, at position `i`: character for character.
pub open spec fn stands_at(text: Seq<char>, part: Seq<char>, i: int) -> bool {
    &&& 0 <= i
    &&& i + part.len() <= text.len()
    &&& forall|j: int| 0 <= j < part.len() ==> text[i + j] == #[trigger] part[j]
}

/// `part` stands somewhere in `text`.
pub open spec fn occurs(text: Seq<char>, part: Seq<char>) -> bool {
    exists|i: int| stands_at(text, part, i)
}

/// A text has a part in it exactly if the part occurs there.
pub proof fn having_is_occurring(text: Seq<char>, part: Seq<char>)
    ensures
        text::has(text, part) <==> occurs(text, part),
        forall|i: int| #[trigger] text::has_at(text, part, i) <==> stands_at(text, part, i),
{
    assert forall|i: int| #[trigger] text::has_at(text, part, i) <==> stands_at(text, part, i) by {
        if text::has_at(text, part, i) {
            assert forall|j: int| 0 <= j < part.len() implies text[i + j] == #[trigger] part[j] by {
                assert(text.subrange(i, i + part.len())[j] == text[i + j]);
            }
        }
        if stands_at(text, part, i) {
            assert(text.subrange(i, i + part.len()) =~= part);
        }
    }
    if text::has(text, part) {
        let i = choose|i: int| text::has_at(text, part, i);
        assert(stands_at(text, part, i));
    }
    if occurs(text, part) {
        let i = choose|i: int| stands_at(text, part, i);
        assert(text::has_at(text, part, i));
    }
}

/// A path made of a directory, slashes and a rest comes down to the rest. A path
/// that only starts with the characters of the directory's name, or that does not
/// even do that, stays as it is.
pub proof fn path_is_relative_to_its_directory(path: Seq<char>, dir: Seq<char>, rest: Seq<char>)
    ensures
        path == dir + rest && (rest.len() == 0 || rest[0] != '/') && (dir.len() == 0 || rest.len()
            == 0 || dir.last() == '/') ==> text::relative(path, Some(dir)) == rest,
        path == dir + rest && rest.len() > 0 && rest[0] == '/' ==> text::relative(path, Some(dir))
            == text::relative(rest, Some("/"@)),
        path == dir + rest && rest.len() > 0 && rest[0] != '/' && dir.len() > 0 && dir.last() != '/'
            ==> text::relative(path, Some(dir)) == path,
        !stands_at(path, dir, 0) ==> text::relative(path, Some(dir)) == path,
        text::relative(path, None) == path,
        text::relative(seq!['/'] + path, Some("/"@)) == if path.len() > 0 && path[0] == '/' {
            text::relative(path, Some("/"@))
        } else {
            path
        },
{
    reveal_strlit("/");
    having_is_occurring(path, dir);
    let slash = "/"@;
    if path == dir + rest {
        assert(path.subrange(0, dir.len() as int) =~= dir);
        assert(path.skip(dir.len() as int) =~= rest);
        if rest.len() > 0 && rest[0] == '/' {
            assert(rest.subrange(0, 1) =~= slash);
            assert(rest.skip(1) =~= rest.drop_first());
        }
    }
    let full = seq!['/'] + path;
    assert(full.subrange(0, 1) =~= slash);
    assert(full.skip(1) =~= path);
    if path.len() > 0 && path[0] == '/' {
        assert(path.subrange(0, 1) =~= slash);
        assert(path.skip(1) =~= path.drop_first());
    }
}

// ------------------------------ annotations ------------------------------

/// A symbol is at a place in the user's own code: its file and line are known, the
/// file is none of the toolchain's or of a dependency, and the function none of the
/// allocator's or the runtime's.
pub open spec fn users_own(symbol: Symbol) -> bool {
    &&& symbol.line is Some
    &&& symbol.file is Some
    &&& !occurs(symbol.file->0@, "/rustc/"@)
    &&& !occurs(symbol.file->0@, "/.cargo/"@)
    &&& !occurs(symbol.file->0@, "/registry/"@)
    &&& symbol.name is Some ==> {
        &&& !occurs(symbol.name->0@, "coffin"@)
        &&& !occurs(symbol.name->0@, "backtrace"@)
        &&& !occurs(symbol.name->0@, "__rust"@)
    }
}

/// Nothing else is taken for the user's own code, and nothing of it for anything
/// else.
pub proof fn user_code_is_told_by_six_words(symbol: Symbol)
    ensures
        symbol.in_user_code() <==> users_own(symbol),
{
    if let Some(f) = symbol.file {
        having_is_occurring(f@, "/rustc/"@);
        having_is_occurring(f@, "/.cargo/"@);
        having_is_occurring(f@, "/registry/"@);
    }
    if let Some(n) = symbol.name {
        having_is_occurring(n@, "coffin"@);
        having_is_occurring(n@, "backtrace"@);
        having_is_occurring(n@, "__rust"@);
    }
}

/// Symbol `j` of frame `i` is in the user's own code.
pub open spec fn own_at(stack: Seq<ResolvedFrame>, i: int, j: int) -> bool {
    &&& 0 <= i < stack.len()
    &&& stack[i].ip != 0
    &&& 0 <= j < stack[i].symbols@.len()
    &&& users_own(stack[i].symbols@[j])
}

/// Symbol `j` of frame `i` is the first of a stack in the user's own code.
pub open spec fn first_own_at(stack: Seq<ResolvedFrame>, i: int, j: int) -> bool {
    &&& own_at(stack, i, j)
    &&& forall|a: int, b: int| a < i || a == i && b < j ==> !#[trigger] own_at(stack, a, b)
}

/// The site of a stack is its first symbol in the user's own code, frame by frame,
/// and there is none only where no symbol is.
pub proof fn site_is_the_first_own_symbol(stack: Seq<ResolvedFrame>)
    ensures
        match annotate::first_user_site(stack) {
            Some(symbol) => exists|i: int, j: int| #[trigger]
                first_own_at(stack, i, j) && symbol == stack[i].symbols@[j],
            None => forall|i: int, j: int| !#[trigger] own_at(stack, i, j),
        },
    decreases stack.len(),
{
    if stack.len() > 0 {
        let rest = stack.drop_first();
        lemma_first_own_symbol(stack[0].symbols@);
        site_is_the_first_own_symbol(rest);
        let symbols = stack[0].symbols@;
        if stack[0].ip != 0 && annotate::first_user_symbol(symbols) is Some {
            let j = choose|j: int| #[trigger]
                first_own(symbols, j) && annotate::first_user_symbol(symbols) == Some(symbols[j]);
            assert forall|a: int, b: int| a < 0 || a == 0 && b < j implies !#[trigger] own_at(
                stack,
                a,
                b,
            ) by {
                if a == 0 && 0 <= b {
                    assert(!users_own(symbols[b]));
                }
            }
            assert(first_own_at(stack, 0, j));
        } else {
            assert forall|b: int| !#[trigger] own_at(stack, 0, b) by {
                if own_at(stack, 0, b) {
                    assert(users_own(symbols[b]));
                }
            }
            match annotate::first_user_site(rest) {
                Some(symbol) => {
                    let (i, j) = choose|i: int, j: int| #[trigger]
                        first_own_at(rest, i, j) && symbol == rest[i].symbols@[j];
                    assert forall|a: int, b: int|
                        a < i + 1 || a == i + 1 && b < j implies !#[trigger] own_at(
                        stack,
                        a,
                        b,
                    ) by {
                        if own_at(stack, a, b) && a > 0 {
                            assert(own_at(rest, a - 1, b));
                        }
                    }
                    assert(own_at(stack, i + 1, j));
                    assert(first_own_at(stack, i + 1, j));
                },
                None => {
                    assert forall|a: int, b: int| !#[trigger] own_at(stack, a, b) by {
                        if own_at(stack, a, b) && a > 0 {
                            assert(own_at(rest, a - 1, b));
                        }
                    }
                },
            }
        }
    }
}

/// Symbol `j` is the first of a frame in the user's own code.
pub open spec fn first_own(symbols: Seq<Symbol>, j: int) -> bool {
    &&& 0 <= j < symbols.len()
    &&& users_own(symbols[j])
    &&& forall|b: int| 0 <= b < j ==> !users_own(#[trigger] symbols[b])
}

proof fn lemma_first_own_symbol(symbols: Seq<Symbol>)
    ensures
        match annotate::first_user_symbol(symbols) {
            Some(symbol) => exists|j: int| #[trigger]
                first_own(symbols, j) && symbol == symbols[j],
            None => forall|j: int|
                0 <= j < symbols.len() ==> !users_own(#[trigger] symbols[j]),
        },
    decreases symbols.len(),
{
    if symbols.len() > 0 {
        let rest = symbols.drop_first();
        user_code_is_told_by_six_words(symbols[0]);
        lemma_first_own_symbol(rest);
        if symbols[0].in_user_code() {
            assert(first_own(symbols, 0));
        } else {
            match annotate::first_user_symbol(rest) {
                Some(symbol) => {
                    let j = choose|j: int| #[trigger] first_own(rest, j) && symbol == rest[j];
                    assert forall|b: int| 0 <= b < j + 1 implies !users_own(
                        #[trigger] symbols[b],
                    ) by {
                        if b > 0 {
                            assert(!users_own(rest[b - 1]));
                        }
                    }
                    assert(symbols[j + 1] == rest[j]);
                    assert(first_own(symbols, j + 1));
                },
                None => {
                    assert forall|b: int| 0 <= b < symbols.len() implies !users_own(
                        #[trigger] symbols[b],
                    ) by {
                        if b > 0 {
                            assert(!users_own(rest[b - 1]));
                        }
                    }
                },
            }
        }
    }
}

/// What a fault is called in an annotation.
pub open spec fn heading(kind: FaultKind) -> Seq<char> {
    match kind {
        FaultKind::Overflow => "BUFFER OVERFLOW"@,
        FaultKind::Underflow => "BUFFER UNDERFLOW"@,
        FaultKind::UseAfterFree => "USE-AFTER-FREE"@,
        FaultKind::LiveRegion => "FAULT IN LIVE REGION"@,
        FaultKind::Wild => "WILD POINTER"@,
    }
}

/// The annotation at a symbol's place.
pub open spec fn note(
    symbol: Symbol,
    cwd: Option<Seq<char>>,
    kind: FaultKind,
    site: Seq<char>,
    addr: usize,
) -> Seq<char> {
    "::error file="@ + text::relative(symbol.file->0@, cwd) + ",line="@ + report::dec_text(
        symbol.line->0 as int,
    ) + ",title=Coffin::"@ + heading(kind) + ": buffer "@ + site + " here, fault at "@
        + report::hex_text(addr as int) + "\n"@
}

/// The annotation for a stack, or none where nothing in it is the user's own.
pub open spec fn note_for(
    stack: Seq<ResolvedFrame>,
    cwd: Option<Seq<char>>,
    kind: FaultKind,
    site: Seq<char>,
    addr: usize,
) -> Seq<char> {
    if exists|i: int, j: int| #[trigger] first_own_at(stack, i, j) {
        let (i, j) = choose|i: int, j: int| #[trigger] first_own_at(stack, i, j);
        note(stack[i].symbols@[j], cwd, kind, site, addr)
    } else {
        Seq::<char>::empty()
    }
}

/// Some symbol of a stack is in the user's own code.
pub open spec fn has_own(stack: Seq<ResolvedFrame>) -> bool {
    exists|i: int, j: int| #[trigger] own_at(stack, i, j)
}

/// The annotations on a fault: one at the user's own line that allocated the buffer,
/// after a use after free one at the line that freed it too, and one without a place
/// where neither line is known, or the fault is wild.
pub proof fn annotations_point_at_the_users_lines(
    info: Option<FaultInfo>,
    addr: usize,
    cwd: Option<Seq<char>>,
    taken: Seq<ResolvedFrame>,
    freed: Seq<ResolvedFrame>,
)
    ensures
        ({
            let out = annotate::annotations_text(info, addr, cwd, taken, freed);
            match info {
                Some(fi) => {
                    let uaf = fi.kind == FaultKind::UseAfterFree;
                    let placed = fi.kind != FaultKind::Wild && (has_own(taken) || uaf && has_own(
                        freed,
                    ));
                    &&& placed && uaf ==> out == note_for(taken, cwd, fi.kind, "allocated"@, addr)
                        + note_for(freed, cwd, fi.kind, "freed"@, addr)
                    &&& placed && !uaf ==> out == note_for(
                        taken,
                        cwd,
                        fi.kind,
                        "allocated"@,
                        addr,
                    )
                    &&& !placed ==> out == "::error title=Coffin::"@ + heading(fi.kind) + " at "@
                        + report::hex_text(addr as int) + " (no source location)\n"@
                },
                None => out == "::error title=Coffin::"@ + "WILD POINTER"@ + " at "@
                    + report::hex_text(addr as int) + " (no source location)\n"@,
            }
        }),
{
    if let Some(fi) = info {
        lemma_site(taken, cwd, fi.kind, "allocated"@, addr);
        lemma_site(freed, cwd, fi.kind, "freed"@, addr);
        let out = annotate::annotations_text(info, addr, cwd, taken, freed);
        if fi.kind != FaultKind::UseAfterFree {
            let one = note_for(taken, cwd, fi.kind, "allocated"@, addr);
            assert(one + Seq::<char>::empty() =~= one);
        }
    }
}

proof fn lemma_site(
    stack: Seq<ResolvedFrame>,
    cwd: Option<Seq<char>>,
    kind: FaultKind,
    site: Seq<char>,
    addr: usize,
)
    ensures
        annotate::first_user_site(stack) is Some <==> has_own(stack),
        annotate::site_text(stack, cwd, annotate::label_text(kind), site, addr) == note_for(
            stack,
            cwd,
            kind,
            site,
            addr,
        ),
{
    site_is_the_first_own_symbol(stack);
    match annotate::first_user_site(stack) {
        Some(symbol) => {
            let (i, j) = choose|i: int, j: int| #[trigger]
                first_own_at(stack, i, j) && symbol == stack[i].symbols@[j];
            assert(own_at(stack, i, j));
            let (a, b) = choose|a: int, b: int| #[trigger] first_own_at(stack, a, b);
            assert(first_own_at(stack, a, b));
            assert(own_at(stack, a, b));
            assert(a == i && b == j);
        },
        None => {
            assert forall|i: int, j: int| !#[trigger] first_own_at(stack, i, j) by {
                assert(!own_at(stack, i, j));
            }
        },
    }
}

/// Frames are resolved one after the other, those that are not zero, for the
/// allocation of any fault in a region and for the free after a use after free,
/// until one leads into the user's own code.
pub proof fn frames_are_resolved_in_order(
    info: Option<FaultInfo>,
    site: Site,
    ips: Seq<usize>,
    stack: Seq<ResolvedFrame>,
)
    ensures
        ({
            let wanted = match info {
                Some(fi) => match site {
                    Site::Allocated => fi.kind != FaultKind::Wild,
                    Site::Freed => fi.kind == FaultKind::UseAfterFree,
                },
                None => false,
            };
            annotate::frame_to_resolve(info, site, ips, stack) == if wanted && !has_own(stack)
                && stack.len() < nonzero(ips).len() {
                Some(nonzero(ips)[stack.len() as int])
            } else {
                None
            }
        }),
{
    lemma_frames(ips);
    site_is_the_first_own_symbol(stack);
    if annotate::first_user_site(stack) is Some {
        let (i, j) = choose|i: int, j: int| #[trigger] first_own_at(stack, i, j);
        assert(own_at(stack, i, j));
    }
}

proof fn lemma_frames(ips: Seq<usize>)
    ensures
        annotate::frames_of(ips) == nonzero(ips),
    decreases ips.len(),
{
    reveal(Seq::filter);
    if ips.len() > 0 {
        lemma_frames(ips.drop_last());
    } else {
        assert(annotate::frames_of(ips) =~= nonzero(ips));
    }
}

// ------------------------------ environment variables ------------------------------

/// Byte `b` is a decimal digit.
pub open spec fn decimal_digit(b: u8) -> bool {
    48 <= b <= 57
}

/// The first `n` bytes are digits, and no more of them.
pub open spec fn digits_up_to(bytes: Seq<u8>, n: int) -> bool {
    &&& 0 <= n <= bytes.len()
    &&& forall|i: int| 0 <= i < n ==> decimal_digit(#[trigger] bytes[i])
    &&& n < bytes.len() ==> !decimal_digit(bytes[n])
}

/// The leading digits of a text are all its digits up to the first byte that is
/// none.
pub proof fn leading_digits_end_at_the_first_other_byte(bytes: Seq<u8>, n: int)
    requires
        digits_up_to(bytes, n),
    ensures
        config::leading_digits(bytes) == bytes.take(n),
    decreases bytes.len(),
{
    if n > 0 {
        let rest = bytes.drop_first();
        assert(decimal_digit(bytes[0]));
        assert forall|i: int| 0 <= i < n - 1 implies decimal_digit(#[trigger] rest[i]) by {
            assert(decimal_digit(bytes[i + 1]));
        }
        leading_digits_end_at_the_first_other_byte(rest, n - 1);
        assert(seq![bytes[0]] + rest.take(n - 1) =~= bytes.take(n));
    } else {
        assert(bytes.take(n) =~= Seq::<u8>::empty());
    }
}

/// Digits count by tens.
pub proof fn decimal_is_positional(digits: Seq<u8>, b: u8)
    ensures
        config::decimal(Seq::<u8>::empty()) == 0,
        config::decimal(digits.push(b)) == config::decimal(digits) * 10 + (b - 48),
{
    assert(digits.push(b).drop_last() =~= digits);
}

/// A numeric variable stands for the number that its leading digits make, no more
/// than a word holds, and for the default where it is not set or the number is zero.
pub proof fn numeric_variable_stands_for_its_digits(bytes: Seq<u8>, n: int, default: usize)
    requires
        digits_up_to(bytes, n),
    ensures
        ({
            let v = config::decimal(bytes.take(n));
            let got = config::numeric(Some(bytes), default);
            &&& v == 0 ==> got == default
            &&& 1 <= v <= usize::MAX ==> got == v
            &&& v > usize::MAX ==> got == usize::MAX
        }),
        config::numeric(None, default) == default,
{
    leading_digits_end_at_the_first_other_byte(bytes, n);
}

/// A value reads as a word exactly if it has the word's characters, byte for byte,
/// and no others.
pub proof fn value_reads_as_a_word(val: Option<&[u8]>, word: Seq<char>)
    ensures
        config::reads(val, word) <==> match val {
            Some(bytes) => {
                &&& bytes@.len() == word.len()
                &&& forall|i: int|
                    0 <= i < word.len() ==> bytes@[i] == (#[trigger] word[i]) as u8
            },
            None => false,
        },
        text::ascii(word).len() == word.len(),
        forall|i: int| 0 <= i < word.len() ==> #[trigger] text::ascii(word)[i] == word[i] as u8,
        config::raw(val) == match val {
            Some(bytes) => Some(bytes@),
            None => None,
        },
{
    if let Some(bytes) = val {
        if bytes@.len() == word.len() && forall|i: int|
            0 <= i < word.len() ==> bytes@[i] == (#[trigger] word[i]) as u8 {
            assert(bytes@ =~= text::ascii(word));
        }
        if bytes@ == text::ascii(word) {
            assert forall|i: int| 0 <= i < word.len() implies bytes@[i] == (
            #[trigger] word[i]) as u8 by {
                assert(text::ascii(word)[i] == word[i] as u8);
            }
        }
    }
}

/// The value has these bytes and no others.
pub open spec fn is_exactly(val: Option<&[u8]>, word: Seq<u8>) -> bool {
    match val {
        Some(bytes) => bytes@ == word,
        None => false,
    }
}

/// The guard page comes before the buffer for `below` and `BELOW`, and behind it for
/// every other value. Names are shown for `1`, `true` and `yes`, annotations written
/// for `1`. The page size is what the system says, or the usual one where it says
/// nothing.
pub proof fn switches_are_told_by_their_words(val: Option<&[u8]>, reported: int)
    ensures
        config::protection(val) == Mode::Below <==> is_exactly(
            val,
            seq![98u8, 101u8, 108u8, 111u8, 119u8],
        ) || is_exactly(val, seq![66u8, 69u8, 76u8, 79u8, 87u8]),
        config::wants_names(val) <==> is_exactly(val, seq![49u8]) || is_exactly(
            val,
            seq![116u8, 114u8, 117u8, 101u8],
        ) || is_exactly(val, seq![121u8, 101u8, 115u8]),
        config::wants_notes(val) <==> is_exactly(val, seq![49u8]),
        reported > 0 ==> config::pages_of(reported) == reported,
        reported <= 0 ==> config::pages_of(reported) == 4096,
{
    reveal_strlit("below");
    reveal_strlit("BELOW");
    reveal_strlit("1");
    reveal_strlit("true");
    reveal_strlit("yes");
    assert(text::ascii("below"@) =~= seq![98u8, 101u8, 108u8, 111u8, 119u8]);
    assert(text::ascii("BELOW"@) =~= seq![66u8, 69u8, 76u8, 79u8, 87u8]);
    assert(text::ascii("1"@) =~= seq![49u8]);
    assert(text::ascii("true"@) =~= seq![116u8, 114u8, 117u8, 101u8]);
    assert(text::ascii("yes"@) =~= seq![121u8, 101u8, 115u8]);
}

/// `exit:` and digits, at least one, make the process exit with the number that they
/// make, if it is an exit code. Every other value leaves it to the signal.
pub proof fn fault_policy_reads_exit_codes(bytes: Seq<u8>, digits: Seq<u8>)
    ensures
        ({
            let plain = digits.len() > 0 && forall|i: int|
                0 <= i < digits.len() ==> decimal_digit(#[trigger] digits[i]);
            bytes == seq![101u8, 120u8, 105u8, 116u8, 58u8] + digits ==> config::fault_policy(
                Some(bytes),
            ) == if plain && config::decimal(digits) <= i32::MAX {
                OnFault::Exit(config::decimal(digits) as i32)
            } else {
                OnFault::AbortWithSignal
            }
        }),
        !(bytes.len() >= 5 && bytes[0] == 101 && bytes[1] == 120 && bytes[2] == 105 && bytes[3] == 116
            && bytes[4] == 58) ==> config::fault_policy(Some(bytes)) == OnFault::AbortWithSignal,
        config::fault_policy(None) == OnFault::AbortWithSignal,
{
    reveal_strlit("exit:");
    let prefix = text::ascii("exit:"@);
    assert(prefix =~= seq![101u8, 120u8, 105u8, 116u8, 58u8]);
    if bytes == prefix + digits {
        assert(bytes.take(5) =~= prefix);
        assert(bytes.skip(5) =~= digits);
        if forall|i: int| 0 <= i < digits.len() ==> decimal_digit(#[trigger] digits[i]) {
            leading_digits_end_at_the_first_other_byte(digits, digits.len() as int);
            assert(digits.take(digits.len() as int) =~= digits);
        } else if config::leading_digits(digits) == digits {
            let n = lemma_digits_end(digits);
            leading_digits_end_at_the_first_other_byte(digits, n);
            assert(digits.take(n).len() == n);
        }
    }
    if bytes.len() >= 5 && bytes.take(5) == prefix {
        assert(bytes.take(5)[0] == bytes[0]);
        assert(bytes.take(5)[1] == bytes[1]);
        assert(bytes.take(5)[2] == bytes[2]);
        assert(bytes.take(5)[3] == bytes[3]);
        assert(bytes.take(5)[4] == bytes[4]);
    }
}

proof fn lemma_digits_end(bytes: Seq<u8>) -> (n: int)
    ensures
        digits_up_to(bytes, n),
    decreases bytes.len(),
{
    if bytes.len() > 0 && decimal_digit(bytes[0]) {
        let rest = bytes.drop_first();
        let m = lemma_digits_end(rest);
        assert forall|i: int| 0 <= i < m + 1 implies decimal_digit(#[trigger] bytes[i]) by {
            if i > 0 {
                assert(decimal_digit(rest[i - 1]));
            }
        }
        if m + 1 < bytes.len() {
            assert(rest[m] == bytes[m + 1]);
        }
        m + 1
    } else {
        0
    }
}

// ------------------------------ published slots ------------------------------

/// A reader sees every field of a slot, and a store changes one of them.
pub proof fn readers_see_every_field(r: Region, v: usize, n: int, ip: usize)
    requires
        0 <= n < 16,
    ensures
        ({
            let s = publish::seen(r);
            &&& s.state == r.state
            &&& s.base == r.base
            &&& s.total_len == r.total_len
            &&& s.user_ptr == r.user_ptr
            &&& s.size == r.size
            &&& s.align == r.align
            &&& s.guard_addr == r.guard_addr
            &&& s.alloc_ips == r.alloc_ips@
            &&& s.free_ips == r.free_ips@
            &&& s.stored(publish::Store::Base(v)) == (publish::Seen { base: v, ..s })
            &&& s.stored(publish::Store::TotalLen(v)) == (publish::Seen { total_len: v, ..s })
            &&& s.stored(publish::Store::UserPtr(v)) == (publish::Seen { user_ptr: v, ..s })
            &&& s.stored(publish::Store::Size(v)) == (publish::Seen { size: v, ..s })
            &&& s.stored(publish::Store::Align(v)) == (publish::Seen { align: v, ..s })
            &&& s.stored(publish::Store::GuardAddr(v)) == (publish::Seen { guard_addr: v, ..s })
            &&& s.stored(publish::Store::AllocIp { n: n as usize, ip }) == (publish::Seen {
                alloc_ips: s.alloc_ips.update(n, ip),
                ..s
            })
            &&& s.stored(publish::Store::FreeIp { n: n as usize, ip }) == (publish::Seen {
                free_ips: s.free_ips.update(n, ip),
                ..s
            })
        }),
{
}

// ------------------------------ rows of writes ------------------------------

/// After a write, the rest of the part is next as long as there is one. A part that
/// is out, or whose write failed, is followed by the first byte of the next part
/// that has any.
pub proof fn writing_goes_on_behind_the_last_byte(
    parts: Seq<Seq<u8>>,
    at: report::WriteAt,
    written: int,
)
    requires
        parts.len() <= usize::MAX,
        at.part < parts.len(),
        at.off < parts[at.part as int].len() <= usize::MAX,
        written <= parts[at.part as int].len() - at.off,
    ensures
        report::lies_in(parts, at),
        match report::start_from(parts, 0) {
            Some(w) => {
                &&& w.part < parts.len()
                &&& w.off == 0
                &&& parts[w.part as int].len() > 0
                &&& forall|k: int| 0 <= k < w.part ==> (#[trigger] parts[k]).len() == 0
            },
            None => forall|k: int| 0 <= k < parts.len() ==> (#[trigger] parts[k]).len() == 0,
        },
        ({
            let next = report::go_on(parts, at, written);
            let left = parts[at.part as int].len() - at.off;
            &&& 0 < written < left ==> next == Some(
                report::WriteAt { part: at.part, off: (at.off + written) as usize },
            )
            &&& written <= 0 || written == left ==> match next {
                Some(w) => {
                    &&& at.part < w.part < parts.len()
                    &&& w.off == 0
                    &&& parts[w.part as int].len() > 0
                    &&& forall|k: int| at.part < k < w.part ==> (#[trigger] parts[k]).len() == 0
                },
                None => forall|k: int|
                    at.part < k < parts.len() ==> (#[trigger] parts[k]).len() == 0,
            }
        }),
{
    lemma_start_from(parts, 0);
    lemma_start_from(parts, at.part + 1);
}

proof fn lemma_start_from(parts: Seq<Seq<u8>>, from: int)
    requires
        parts.len() <= usize::MAX,
        0 <= from <= parts.len(),
    ensures
        match report::start_from(parts, from) {
            Some(w) => {
                &&& from <= w.part < parts.len()
                &&& w.off == 0
                &&& parts[w.part as int].len() > 0
                &&& forall|k: int| from <= k < w.part ==> (#[trigger] parts[k]).len() == 0
            },
            None => forall|k: int| from <= k < parts.len() ==> (#[trigger] parts[k]).len() == 0,
        },
    decreases parts.len() - from,
{
    if from < parts.len() && parts[from].len() == 0 {
        lemma_start_from(parts, from + 1);
    }
}

} // verus!
