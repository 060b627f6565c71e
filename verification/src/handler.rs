//! The post-mortem of a fault: classification, and the report's text.
//!
//! The report is written in steps, so that what is certain is out before
//! anything less certain is tried: the signal and the address come first, then
//! the verdict of the registry scan, then the call stacks one frame at a time,
//! each raw before anyone tries to put names to it. Where names or annotations
//! are asked for, which takes memory, the very first step is to close the
//! reentrancy guard.

use vstd::prelude::*;
use vstd::arithmetic::div_mod::*;
use crate::annotate::{self, emit_annotations, write_names, ResolvedFrame};
use crate::model::{self, ArenaState};
use crate::reentrancy::Reentrancy;
use crate::registry::{Arena, FaultInfo, FaultKind, IP_DEPTH};
use crate::report::{self, write_dec, write_hex, write_str};
use crate::text;

verus! {

/// The numbers that the platform gives to the two signals of interest.
#[derive(Clone, Copy, PartialEq, Eq, Debug, Structural)]
pub struct SignalNumbers {
    pub segv: i32,
    pub bus: i32,
}

/// Name of a signal.
pub fn sig_name(sig: i32, signals: SignalNumbers) -> (name: &'static str)
    ensures
        name@ == sig_text(sig, signals),
{
    if sig == signals.segv {
        "SIGSEGV"
    } else if sig == signals.bus {
        "SIGBUS"
    } else {
        "signal"
    }
}

/// What a signal is called.
pub open spec fn sig_text(sig: i32, signals: SignalNumbers) -> Seq<char> {
    if sig == signals.segv {
        "SIGSEGV"@
    } else if sig == signals.bus {
        "SIGBUS"@
    } else {
        "signal"@
    }
}

/// First lines of a report: what needs no look at the registry.
pub open spec fn head_text(sig: i32, addr: usize, signals: SignalNumbers) -> Seq<char> {
    "\n========================= COFFIN =========================\n"@
        + "  signal        : "@ + sig_text(sig, signals)
        + " ("@ + report::dec_text(sig as usize as int) + ")\n"@
        + "  fault address : "@ + report::hex_text(addr as int) + "\n"@
}

/// Whether the scan found a region.
pub open spec fn located(info: Option<FaultInfo>) -> bool {
    info matches Some(fi) && fi.kind != FaultKind::Wild
}

/// The line that says what went wrong.
pub open spec fn verdict_text(info: Option<FaultInfo>) -> Seq<char> {
    "  fault         : "@ + match info {
        Some(fi) => match fi.kind {
            FaultKind::Overflow => "BUFFER OVERFLOW (write past end of allocation)\n"@,
            FaultKind::Underflow => "BUFFER UNDERFLOW (write before allocation)\n"@,
            FaultKind::UseAfterFree => "USE-AFTER-FREE\n"@,
            FaultKind::LiveRegion => "FAULT INSIDE LIVE REGION (unexpected)\n"@,
            FaultKind::Wild => "WILD POINTER (no tracked region)\n"@,
        },
        None => "WILD POINTER (no tracked region)\n"@,
    }
}

/// The lines about the mapping and the buffer in it.
pub open spec fn region_text(fi: FaultInfo) -> Seq<char> {
    "  region        : base "@ + report::hex_text(fi.base as int)
        + " .. "@ + report::hex_text(wrapped(fi.base + fi.total_len))
        + " ("@ + report::dec_text(fi.total_len as int) + " bytes mapped)\n"@
        + "  user buffer   : "@ + report::hex_text(fi.user_ptr as int)
        + "  size "@ + report::dec_text(fi.size as int)
        + "  align "@ + report::dec_text(fi.align as int) + "\n"@
}

/// `x`, modulo the width of an address.
pub open spec fn wrapped(x: int) -> int {
    x % (usize::MAX + 1)
}

/// `a - b`, modulo the width of an address.
pub open spec fn distance(a: int, b: int) -> int {
    wrapped(a - b)
}

/// The line that says how far from the buffer the access was.
pub open spec fn distance_text(addr: usize, fi: FaultInfo) -> Seq<char> {
    match fi.kind {
        FaultKind::Overflow => "  overflow      : "@ + report::dec_text(
            distance(addr as int, fi.user_ptr + fi.size),
        ) + " byte(s) past the end of the buffer\n"@,
        FaultKind::Underflow => "  underflow     : "@ + report::dec_text(
            distance(fi.user_ptr as int, addr as int),
        ) + " byte(s) before the start of the buffer\n"@,
        FaultKind::UseAfterFree => "  offset        : "@ + report::dec_text(
            distance(addr as int, fi.user_ptr as int),
        ) + " byte(s) into the freed buffer\n"@,
        _ => Seq::<char>::empty(),
    }
}

/// The lines about the region that was found, or the line that says that none
/// was.
pub open spec fn found_text(addr: usize, info: Option<FaultInfo>) -> Seq<char> {
    match info {
        Some(fi) => if located(info) {
            region_text(fi) + distance_text(addr, fi) + "  allocated at  :\n"@
        } else {
            "  (address is not inside any live or quarantined allocation)\n"@
        },
        None => "  (address is not inside any live or quarantined allocation)\n"@,
    }
}

/// The verdict and what was found.
pub open spec fn verdict_lines(addr: usize, info: Option<FaultInfo>) -> Seq<char> {
    verdict_text(info) + found_text(addr, info)
}

/// The lines for the frames of a stack from number `next` on, each with the names
/// that `names` has for it under it. `any` says that one was printed before. Zero
/// stands for no frame.
pub open spec fn frames_text(
    ips: Seq<usize>,
    next: int,
    any: bool,
    names: Seq<ResolvedFrame>,
) -> Seq<char>
    decreases ips.len() - next,
{
    if next >= ips.len() {
        no_frames_text(any)
    } else if ips[next] == 0 {
        frames_text(ips, next + 1, any, names)
    } else {
        frame_text(ips[next]) + under_frame(names, ips[next]) + frames_text(
            ips,
            next + 1,
            true,
            names,
        )
    }
}

/// The lines under a frame.
pub open spec fn under_frame(names: Seq<ResolvedFrame>, ip: usize) -> Seq<char> {
    annotate::names_text(annotate::symbols_of(names, ip))
}

/// The names for the frames of a fault's two stacks.
pub struct Names {
    pub taken: Seq<ResolvedFrame>,
    pub freed: Seq<ResolvedFrame>,
}

/// The names that a report shows: none, unless they are asked for.
pub open spec fn shown_names(
    symbolize: bool,
    taken: Seq<ResolvedFrame>,
    freed: Seq<ResolvedFrame>,
) -> Names {
    if symbolize {
        Names { taken, freed }
    } else {
        no_names()
    }
}

/// No names at all.
pub open spec fn no_names() -> Names {
    Names { taken: Seq::<ResolvedFrame>::empty(), freed: Seq::<ResolvedFrame>::empty() }
}

/// The number of the first frame from `next` on, or the stack's depth where
/// there is none.
pub open spec fn next_frame(ips: Seq<usize>, next: int) -> int
    decreases ips.len() - next,
{
    if next >= ips.len() {
        ips.len() as int
    } else if ips[next] != 0 {
        next
    } else {
        next_frame(ips, next + 1)
    }
}

/// The line that stands for an empty stack.
pub open spec fn no_frames_text(any: bool) -> Seq<char> {
    if any {
        Seq::<char>::empty()
    } else {
        "      <no frames captured>\n"@
    }
}

/// The line for one frame.
pub open spec fn frame_text(ip: usize) -> Seq<char> {
    "      "@ + report::hex_text(ip as int) + "\n"@
}

/// Last lines of a report.
pub open spec fn footer_text(symbolize: bool) -> Seq<char> {
    (if symbolize {
        Seq::<char>::empty()
    } else {
        "  hint          : set COFFIN_SYMBOLIZE=1 for symbol names + file:line\n"@
    }) + "==========================================================\n"@
}

/// A buffer of so many bytes holds any report.
pub const REPORT_MAX: usize = 2048;

/// How far a report has come.
#[derive(Clone, Copy, PartialEq, Eq, Debug, Structural)]
pub enum Stage {
    /// The reentrancy guard is to be seen to.
    Guard,
    /// The first lines are next.
    Head,
    /// The registry is to be scanned.
    Scan,
    /// The verdict and the region's lines are next.
    Verdict,
    /// A frame of the allocation's stack is next.
    AllocFrames { next: usize, any: bool },
    /// A frame of the free's stack is next.
    FreeFrames { next: usize, any: bool },
    /// The last lines are next.
    Footer,
    /// The annotations are to be written.
    Annotate,
    /// Nothing is left.
    Done,
}

/// What a step of a report asks for.
#[derive(Clone, Copy, PartialEq, Eq, Debug, Structural)]
pub enum Step {
    /// The reentrancy guard is to be closed for good, then the next step.
    CloseGuard,
    /// A scan of the registry, whose outcome [`FaultReport::found`] takes.
    Scan,
    /// The next step.
    Continue,
    /// Names for the frame that was just written, then the next step.
    Resolve { ip: usize },
    /// The annotations, then the next step.
    Annotate,
    /// Nothing: the report is complete.
    Finished,
}

/// What a scan of the registry hands over.
#[derive(Clone, Copy)]
pub struct Found {
    pub info: FaultInfo,
    pub alloc_ips: [usize; IP_DEPTH],
    pub free_ips: [usize; IP_DEPTH],
}

/// A report under way.
pub struct FaultReport {
    pub sig: i32,
    pub signals: SignalNumbers,
    pub addr: usize,
    pub symbolize: bool,
    pub annotate: bool,
    pub info: Option<FaultInfo>,
    pub alloc_ips: [usize; IP_DEPTH],
    pub free_ips: [usize; IP_DEPTH],
    pub stage: Stage,
}

impl FaultReport {
    /// The stage is one that the report comes through.
    pub open spec fn wf(self) -> bool {
        match self.stage {
            Stage::AllocFrames { next, any } => next <= IP_DEPTH && located(self.info),
            Stage::FreeFrames { next, any } => next <= IP_DEPTH && located(self.info),
            _ => true,
        }
    }

    /// The registry has not been scanned yet.
    pub open spec fn before_scan(self) -> bool {
        self.stage == Stage::Guard || self.stage == Stage::Head || self.stage == Stage::Scan
    }

    /// What follows the allocation's stack.
    pub open spec fn after_alloc_text(self, names: Names) -> Seq<char> {
        if self.freed_site() {
            "  freed at      :\n"@ + frames_text(self.free_ips@, 0, false, names.freed)
                + footer_text(self.symbolize)
        } else {
            footer_text(self.symbolize)
        }
    }

    /// Whether the report shows where the buffer was freed.
    pub open spec fn freed_site(self) -> bool {
        self.info matches Some(fi) && fi.kind == FaultKind::UseAfterFree
    }

    /// The lines that follow the first ones.
    pub open spec fn body_text(self, names: Names) -> Seq<char> {
        verdict_lines(self.addr, self.info) + if located(self.info) {
            frames_text(self.alloc_ips@, 0, false, names.taken) + self.after_alloc_text(names)
        } else {
            footer_text(self.symbolize)
        }
    }

    /// The report after a scan that has handed over `found`.
    pub open spec fn told(self, found: Option<Found>) -> FaultReport {
        match found {
            Some(f) => FaultReport {
                info: Some(f.info),
                alloc_ips: f.alloc_ips,
                free_ips: f.free_ips,
                stage: Stage::Verdict,
                ..self
            },
            None => FaultReport {
                info: None,
                alloc_ips: [0; IP_DEPTH],
                free_ips: [0; IP_DEPTH],
                stage: Stage::Verdict,
                ..self
            },
        }
    }

    /// All that is still to be written, if the scan hands over `found` and
    /// `names` are the names for the frames.
    pub open spec fn rest(self, found: Option<Found>, names: Names) -> Seq<char> {
        match self.stage {
            Stage::Guard => head_text(self.sig, self.addr, self.signals) + self.told(
                found,
            ).body_text(names),
            Stage::Head => head_text(self.sig, self.addr, self.signals) + self.told(
                found,
            ).body_text(names),
            Stage::Scan => self.told(found).body_text(names),
            Stage::Verdict => self.body_text(names),
            Stage::AllocFrames { next, any } => frames_text(
                self.alloc_ips@,
                next as int,
                any,
                names.taken,
            ) + self.after_alloc_text(names),
            Stage::FreeFrames { next, any } => frames_text(
                self.free_ips@,
                next as int,
                any,
                names.freed,
            ) + footer_text(self.symbolize),
            Stage::Footer => footer_text(self.symbolize),
            Stage::Annotate => Seq::<char>::empty(),
            Stage::Done => Seq::<char>::empty(),
        }
    }

    /// The names that are to be written after the next step: those of the frame
    /// that it writes.
    pub open spec fn names_due(self, names: Names) -> Seq<char> {
        match self.stage {
            Stage::AllocFrames { next, any } => {
                let n = next_frame(self.alloc_ips@, next as int);
                if n < IP_DEPTH {
                    under_frame(names.taken, self.alloc_ips@[n])
                } else {
                    Seq::<char>::empty()
                }
            },
            Stage::FreeFrames { next, any } => {
                let n = next_frame(self.free_ips@, next as int);
                if n < IP_DEPTH {
                    under_frame(names.freed, self.free_ips@[n])
                } else {
                    Seq::<char>::empty()
                }
            },
            _ => Seq::<char>::empty(),
        }
    }

    /// What the next step writes.
    pub open spec fn step_text(self) -> Seq<char> {
        match self.stage {
            Stage::Head => head_text(self.sig, self.addr, self.signals),
            Stage::Verdict => verdict_lines(self.addr, self.info),
            Stage::AllocFrames { next, any } => {
                let n = next_frame(self.alloc_ips@, next as int);
                if n < IP_DEPTH {
                    frame_text(self.alloc_ips@[n])
                } else if self.freed_site() {
                    no_frames_text(any) + "  freed at      :\n"@
                } else {
                    no_frames_text(any)
                }
            },
            Stage::FreeFrames { next, any } => {
                let n = next_frame(self.free_ips@, next as int);
                if n < IP_DEPTH {
                    frame_text(self.free_ips@[n])
                } else {
                    no_frames_text(any)
                }
            },
            Stage::Footer => footer_text(self.symbolize),
            _ => Seq::<char>::empty(),
        }
    }

    /// The stage after the next step. That of the scan lasts until its outcome
    /// is handed over.
    pub open spec fn next_stage(self) -> Stage {
        match self.stage {
            Stage::Guard => Stage::Head,
            Stage::Head => Stage::Scan,
            Stage::Scan => Stage::Scan,
            Stage::Verdict => if located(self.info) {
                Stage::AllocFrames { next: 0, any: false }
            } else {
                Stage::Footer
            },
            Stage::AllocFrames { next, any } => {
                let n = next_frame(self.alloc_ips@, next as int);
                if n < IP_DEPTH {
                    Stage::AllocFrames { next: (n + 1) as usize, any: true }
                } else if self.freed_site() {
                    Stage::FreeFrames { next: 0, any: false }
                } else {
                    Stage::Footer
                }
            },
            Stage::FreeFrames { next, any } => {
                let n = next_frame(self.free_ips@, next as int);
                if n < IP_DEPTH {
                    Stage::FreeFrames { next: (n + 1) as usize, any: true }
                } else {
                    Stage::Footer
                }
            },
            Stage::Footer => if self.annotate {
                Stage::Annotate
            } else {
                Stage::Done
            },
            Stage::Annotate => Stage::Done,
            Stage::Done => Stage::Done,
        }
    }

    /// What the next step asks for.
    pub open spec fn step_request(self) -> Step {
        match self.stage {
            Stage::Guard => if self.symbolize || self.annotate {
                Step::CloseGuard
            } else {
                Step::Continue
            },
            Stage::Head => Step::Continue,
            Stage::Scan => Step::Scan,
            Stage::Verdict => Step::Continue,
            Stage::AllocFrames { next, any } => self.frame_request(
                self.alloc_ips@,
                next_frame(self.alloc_ips@, next as int),
            ),
            Stage::FreeFrames { next, any } => self.frame_request(
                self.free_ips@,
                next_frame(self.free_ips@, next as int),
            ),
            Stage::Footer => if self.annotate {
                Step::Continue
            } else {
                Step::Finished
            },
            Stage::Annotate => Step::Annotate,
            Stage::Done => Step::Finished,
        }
    }

    /// What the step that comes to frame `n` of a stack asks for.
    pub open spec fn frame_request(self, ips: Seq<usize>, n: int) -> Step {
        if n < IP_DEPTH && self.symbolize {
            Step::Resolve { ip: ips[n] }
        } else {
            Step::Continue
        }
    }

    /// How many steps may still be needed.
    pub open spec fn steps_left(self) -> nat {
        match self.stage {
            Stage::Guard => (2 * IP_DEPTH + 9) as nat,
            Stage::Head => (2 * IP_DEPTH + 8) as nat,
            Stage::Scan => (2 * IP_DEPTH + 7) as nat,
            Stage::Verdict => (2 * IP_DEPTH + 6) as nat,
            Stage::AllocFrames { next, any } => (2 * IP_DEPTH + 5 - next) as nat,
            Stage::FreeFrames { next, any } => (IP_DEPTH + 3 - next) as nat,
            Stage::Footer => 2,
            Stage::Annotate => 1,
            Stage::Done => 0,
        }
    }

    /// A report before its first step.
    pub open spec fn fresh(
        sig: i32,
        signals: SignalNumbers,
        addr: usize,
        symbolize: bool,
        annotate: bool,
    ) -> FaultReport {
        FaultReport {
            sig,
            signals,
            addr,
            symbolize,
            annotate,
            info: None,
            alloc_ips: [0; IP_DEPTH],
            free_ips: [0; IP_DEPTH],
            stage: Stage::Guard,
        }
    }

    /// Starts a report on a fault at `addr`.
    pub fn new(
        sig: i32,
        signals: SignalNumbers,
        addr: usize,
        symbolize: bool,
        annotate: bool,
    ) -> (r: FaultReport)
        ensures
            r.wf(),
            r == FaultReport::fresh(sig, signals, addr, symbolize, annotate),
    {
        FaultReport {
            sig,
            signals,
            addr,
            symbolize,
            annotate,
            info: None,
            alloc_ips: [0; IP_DEPTH],
            free_ips: [0; IP_DEPTH],
            stage: Stage::Guard,
        }
    }

    /// Takes what the scan that was asked for has found. There is `None` where
    /// there is no registry to scan.
    pub fn found(&mut self, found: Option<Found>)
        requires
            old(self).stage == Stage::Scan,
        ensures
            final(self).wf(),
            *final(self) == old(self).told(found),
    {
        match found {
            Some(f) => {
                self.info = Some(f.info);
                self.alloc_ips = f.alloc_ips;
                self.free_ips = f.free_ips;
            },
            None => {
                self.info = None;
                self.alloc_ips = [0; IP_DEPTH];
                self.free_ips = [0; IP_DEPTH];
            },
        }
        self.stage = Stage::Verdict;
    }

    /// Writes the next piece of the report and says what is needed before the
    /// one after it.
    pub fn step(&mut self, out: &mut String) -> (request: Step)
        requires
            old(self).wf(),
        ensures
            final(self).wf(),
            *final(self) == (FaultReport { stage: old(self).next_stage(), ..*old(self) }),
            request == old(self).step_request(),
            final(out)@ == old(out)@ + old(self).step_text(),
    {
        match self.stage {
            Stage::Guard => {
                self.stage = Stage::Head;
                proof {
                    assert(old(out)@ =~= old(out)@ + old(self).step_text());
                }
                if self.symbolize || self.annotate {
                    Step::CloseGuard
                } else {
                    Step::Continue
                }
            },
            Stage::Head => {
                write_head(out, self.sig, self.addr, self.signals);
                self.stage = Stage::Scan;
                Step::Continue
            },
            Stage::Scan => {
                proof {
                    assert(old(out)@ =~= old(out)@ + old(self).step_text());
                }
                Step::Scan
            },
            Stage::Verdict => {
                write_verdict(out, self.addr, &self.info);
                self.stage = if is_located(&self.info) {
                    Stage::AllocFrames { next: 0, any: false }
                } else {
                    Stage::Footer
                };
                Step::Continue
            },
            Stage::AllocFrames { next, any } => {
                let n: usize = find_frame(&self.alloc_ips, next);
                if n < IP_DEPTH {
                    let ip: usize = self.alloc_ips[n];
                    write_frame(out, ip);
                    self.stage = Stage::AllocFrames { next: n + 1, any: true };
                    if self.symbolize {
                        Step::Resolve { ip }
                    } else {
                        Step::Continue
                    }
                } else {
                    write_no_frames(out, any);
                    let freed: bool = match &self.info {
                        Some(fi) => fi.kind == FaultKind::UseAfterFree,
                        None => false,
                    };
                    if freed {
                        write_str(out, "  freed at      :\n");
                        self.stage = Stage::FreeFrames { next: 0, any: false };
                        proof {
                            assert(old(out)@ + no_frames_text(any) + "  freed at      :\n"@ =~= old(
                                out,
                            )@ + old(self).step_text());
                        }
                    } else {
                        self.stage = Stage::Footer;
                    }
                    Step::Continue
                }
            },
            Stage::FreeFrames { next, any } => {
                let n: usize = find_frame(&self.free_ips, next);
                if n < IP_DEPTH {
                    let ip: usize = self.free_ips[n];
                    write_frame(out, ip);
                    self.stage = Stage::FreeFrames { next: n + 1, any: true };
                    if self.symbolize {
                        Step::Resolve { ip }
                    } else {
                        Step::Continue
                    }
                } else {
                    write_no_frames(out, any);
                    self.stage = Stage::Footer;
                    Step::Continue
                }
            },
            Stage::Footer => {
                write_footer(out, self.symbolize);
                if self.annotate {
                    self.stage = Stage::Annotate;
                    Step::Continue
                } else {
                    self.stage = Stage::Done;
                    Step::Finished
                }
            },
            Stage::Annotate => {
                self.stage = Stage::Done;
                proof {
                    assert(old(out)@ =~= old(out)@ + old(self).step_text());
                }
                Step::Annotate
            },
            Stage::Done => {
                proof {
                    assert(old(out)@ =~= old(out)@ + old(self).step_text());
                }
                Step::Finished
            },
        }
    }
}

/// What a scan of the registry for `addr` hands over.
pub open spec fn found_in(registry: Option<ArenaState>, addr: usize, page: usize) -> Option<Found> {
    match registry {
        Some(s) => {
            let info = model::fault_info(s.slots, addr, page);
            Some(
                Found {
                    info,
                    alloc_ips: model::stack_of(s.slots, info.slot as int, false),
                    free_ips: model::stack_of(s.slots, info.slot as int, true),
                },
            )
        },
        None => None,
    }
}

/// The registry's state, if there is a registry.
pub open spec fn state_of(arena: Option<&Arena>) -> Option<ArenaState> {
    match arena {
        Some(a) => Some(a@),
        None => None,
    }
}

/// Scans the registry, if there is one, for the region that `addr` belongs to
/// and the call stacks kept with it.
pub fn scan(arena: Option<&Arena>, addr: usize, page: usize) -> (found: Option<Found>)
    requires
        arena matches Some(a) ==> a.wf(),
    ensures
        found == found_in(state_of(arena), addr, page),
{
    match arena {
        Some(a) => {
            let info = a.classify(addr, page);
            Some(
                Found {
                    info,
                    alloc_ips: a.read_ips(info.slot, false),
                    free_ips: a.read_ips(info.slot, true),
                },
            )
        },
        None => None,
    }
}

/// The whole report. `taken` and `freed` are the call stacks of the allocation
/// and of the free, as they were resolved.
pub open spec fn report_text(
    sig: i32,
    signals: SignalNumbers,
    registry: Option<ArenaState>,
    addr: usize,
    page: usize,
    symbolize: bool,
    taken: Seq<ResolvedFrame>,
    freed: Seq<ResolvedFrame>,
) -> Seq<char> {
    FaultReport::fresh(sig, signals, addr, symbolize, false).rest(
        found_in(registry, addr, page),
        shown_names(symbolize, taken, freed),
    )
}

/// The annotations on the fault, if they are asked for.
pub open spec fn notes_text(
    registry: Option<ArenaState>,
    addr: usize,
    page: usize,
    annotate: bool,
    cwd: Option<Seq<char>>,
    alloc_stack: Seq<ResolvedFrame>,
    free_stack: Seq<ResolvedFrame>,
) -> Seq<char> {
    if annotate {
        annotate::annotations_text(
            match found_in(registry, addr, page) {
                Some(f) => Some(f.info),
                None => None,
            },
            addr,
            cwd,
            alloc_stack,
            free_stack,
        )
    } else {
        Seq::<char>::empty()
    }
}

/// The guard after a report: closed for good where names or annotations are
/// asked for, else as it was.
pub open spec fn guard_after(guard: Reentrancy, symbolize: bool, annotate: bool) -> Reentrancy {
    if symbolize || annotate {
        Reentrancy { forced: true, ..guard }
    } else {
        guard
    }
}

/// What a report is to say besides the raw facts.
#[derive(Clone, Copy, PartialEq, Eq, Debug, Structural)]
pub struct ReportOptions {
    /// Names under the frames.
    pub symbolize: bool,
    /// Annotations at source lines.
    pub annotate: bool,
}

/// Runs all steps of a report on a fault at `addr`: the report goes to `out`, and
/// the annotations to `notes`. The stacks are those of the allocation and of the
/// free, resolved already: they give the names under the frames, and the places
/// of the annotations.
pub fn report(
    out: &mut String,
    notes: &mut String,
    guard: &mut Reentrancy,
    sig: i32,
    signals: SignalNumbers,
    arena: Option<&Arena>,
    addr: usize,
    page: usize,
    options: ReportOptions,
    cwd: Option<&str>,
    alloc_stack: &Vec<ResolvedFrame>,
    free_stack: &Vec<ResolvedFrame>,
)
    requires
        arena matches Some(a) ==> a.wf(),
    ensures
        final(out)@ == old(out)@ + report_text(
            sig,
            signals,
            state_of(arena),
            addr,
            page,
            options.symbolize,
            alloc_stack@,
            free_stack@,
        ),
        final(notes)@ == old(notes)@ + notes_text(
            state_of(arena),
            addr,
            page,
            options.annotate,
            text::optional(cwd),
            alloc_stack@,
            free_stack@,
        ),
        *final(guard) == guard_after(*old(guard), options.symbolize, options.annotate),
{
    let mut report = FaultReport::new(sig, signals, addr, options.symbolize, options.annotate);
    let ghost found = found_in(state_of(arena), addr, page);
    let ghost info = match found {
        Some(f) => Some(f.info),
        None => None,
    };
    let ghost names = shown_names(options.symbolize, alloc_stack@, free_stack@);
    let ghost whole = out@ + report.rest(found, names);
    let ghost noted = notes_text(
        state_of(arena),
        addr,
        page,
        options.annotate,
        text::optional(cwd),
        alloc_stack@,
        free_stack@,
    );
    proof {
        assert(report.rest(found, names) == report_text(
            sig,
            signals,
            state_of(arena),
            addr,
            page,
            options.symbolize,
            alloc_stack@,
            free_stack@,
        ));
        assert(old(notes)@ =~= old(notes)@ + Seq::<char>::empty());
    }
    while report.stage != Stage::Done
        invariant
            arena matches Some(a) ==> a.wf(),
            found == found_in(state_of(arena), addr, page),
            info == (match found {
                Some(f) => Some(f.info),
                None => None,
            }),
            report.wf(),
            report.addr == addr,
            report.symbolize == options.symbolize,
            report.annotate == options.annotate,
            report.before_scan() || report.info == info,
            names == shown_names(options.symbolize, alloc_stack@, free_stack@),
            out@ + report.rest(found, names) == whole,
            *guard == (if report.stage == Stage::Guard {
                *old(guard)
            } else {
                guard_after(*old(guard), options.symbolize, options.annotate)
            }),
            noted == notes_text(
                state_of(arena),
                addr,
                page,
                options.annotate,
                text::optional(cwd),
                alloc_stack@,
                free_stack@,
            ),
            report.stage == Stage::Annotate ==> options.annotate,
            notes@ == (if report.stage == Stage::Done {
                old(notes)@ + noted
            } else {
                old(notes)@
            }),
        decreases report.steps_left(),
    {
        let ghost before = out@;
        let ghost was = report;
        let freed: bool = match report.stage {
            Stage::FreeFrames { .. } => true,
            _ => false,
        };
        let request: Step = report.step(out);
        let ghost raw = out@;
        proof {
            steps_make_the_report(was, found, names);
            lemma_pieces(
                before,
                was.step_text(),
                was.names_due(names),
                (FaultReport { stage: was.next_stage(), ..was }).rest(found, names),
            );
            if report.stage == Stage::Done && !options.annotate {
                assert(notes@ =~= old(notes)@ + noted);
            }
        }
        match request {
            Step::CloseGuard => {
                guard.force_guard();
            },
            Step::Resolve { ip } => {
                write_names(
                    out,
                    if freed {
                        free_stack
                    } else {
                        alloc_stack
                    },
                    ip,
                );
            },
            Step::Scan => {
                report.found(scan(arena, addr, page));
            },
            Step::Annotate => {
                emit_annotations(notes, report.info, addr, cwd, alloc_stack, free_stack);
            },
            _ => {},
        }
        proof {
            if request !is Resolve {
                lemma_no_names(raw);
            }
            assert(out@ == raw + was.names_due(names));
            if was.stage == Stage::Scan {
                assert(raw =~= before);
            }
            assert(out@ + report.rest(found, names) == before + was.rest(found, names));
        }
    }
    proof {
        assert(out@ =~= whole);
    }
}

/// Writes the first lines of a report.
pub fn write_head(out: &mut String, sig: i32, addr: usize, signals: SignalNumbers)
    ensures
        final(out)@ == old(out)@ + head_text(sig, addr, signals),
{
    write_str(out, "\n========================= COFFIN =========================\n");
    write_str(out, "  signal        : ");
    write_str(out, sig_name(sig, signals));
    write_str(out, " (");
    write_dec(out, sig as usize);
    write_str(out, ")\n");
    write_str(out, "  fault address : ");
    write_hex(out, addr);
    write_str(out, "\n");
    proof {
        assert(out@ =~= old(out)@ + head_text(sig, addr, signals));
    }
}

/// Whether the scan found a region.
fn is_located(info: &Option<FaultInfo>) -> (r: bool)
    ensures
        r == located(*info),
{
    match info {
        Some(fi) => fi.kind != FaultKind::Wild,
        None => false,
    }
}

/// Writes the verdict, and the lines about the region if one was found.
fn write_verdict(out: &mut String, addr: usize, info: &Option<FaultInfo>)
    ensures
        final(out)@ == old(out)@ + verdict_lines(addr, *info),
{
    write_str(out, "  fault         : ");
    match info {
        Some(fi) => match fi.kind {
            FaultKind::Overflow => write_str(
                out,
                "BUFFER OVERFLOW (write past end of allocation)\n",
            ),
            FaultKind::Underflow => write_str(out, "BUFFER UNDERFLOW (write before allocation)\n"),
            FaultKind::UseAfterFree => write_str(out, "USE-AFTER-FREE\n"),
            FaultKind::LiveRegion => write_str(out, "FAULT INSIDE LIVE REGION (unexpected)\n"),
            FaultKind::Wild => write_str(out, "WILD POINTER (no tracked region)\n"),
        },
        None => write_str(out, "WILD POINTER (no tracked region)\n"),
    }
    proof {
        assert(out@ =~= old(out)@ + verdict_text(*info));
    }
    let ghost mid = out@;
    match info {
        Some(fi) => {
            if fi.kind != FaultKind::Wild {
                write_region(out, fi);
                write_distance(out, addr, fi);
                write_str(out, "  allocated at  :\n");
                proof {
                    assert(out@ =~= mid + (region_text(*fi) + distance_text(addr, *fi)
                        + "  allocated at  :\n"@));
                }
            } else {
                write_str(
                    out,
                    "  (address is not inside any live or quarantined allocation)\n",
                );
            }
        },
        None => write_str(out, "  (address is not inside any live or quarantined allocation)\n"),
    }
    proof {
        assert(out@ == mid + found_text(addr, *info));
        assert(out@ =~= old(out)@ + verdict_lines(addr, *info));
    }
}

/// Writes the lines about the mapping and the buffer.
fn write_region(out: &mut String, fi: &FaultInfo)
    ensures
        final(out)@ == old(out)@ + region_text(*fi),
{
    write_str(out, "  region        : base ");
    write_hex(out, fi.base);
    write_str(out, " .. ");
    write_hex(out, sum(fi.base, fi.total_len));
    write_str(out, " (");
    write_dec(out, fi.total_len);
    write_str(out, " bytes mapped)\n");
    write_str(out, "  user buffer   : ");
    write_hex(out, fi.user_ptr);
    write_str(out, "  size ");
    write_dec(out, fi.size);
    write_str(out, "  align ");
    write_dec(out, fi.align);
    write_str(out, "\n");
    proof {
        assert(out@ =~= old(out)@ + region_text(*fi));
    }
}

/// Writes how far from the buffer the access was.
fn write_distance(out: &mut String, addr: usize, fi: &FaultInfo)
    ensures
        final(out)@ == old(out)@ + distance_text(addr, *fi),
{
    proof {
        lemma_sub_mod_noop_right(addr as int, fi.user_ptr + fi.size, usize::MAX + 1);
    }
    match fi.kind {
        FaultKind::Overflow => {
            write_str(out, "  overflow      : ");
            write_dec(out, difference(addr, sum(fi.user_ptr, fi.size)));
            write_str(out, " byte(s) past the end of the buffer\n");
        },
        FaultKind::Underflow => {
            write_str(out, "  underflow     : ");
            write_dec(out, difference(fi.user_ptr, addr));
            write_str(out, " byte(s) before the start of the buffer\n");
        },
        FaultKind::UseAfterFree => {
            write_str(out, "  offset        : ");
            write_dec(out, difference(addr, fi.user_ptr));
            write_str(out, " byte(s) into the freed buffer\n");
        },
        _ => {},
    }
    proof {
        assert(out@ =~= old(out)@ + distance_text(addr, *fi));
    }
}

/// `a + b`, modulo the width of an address.
fn sum(a: usize, b: usize) -> (r: usize)
    ensures
        r == wrapped(a + b),
{
    let r: usize = a.wrapping_add(b);
    proof {
        let m = usize::MAX + 1;
        if a + b < m {
            lemma_small_mod((a + b) as nat, m as nat);
        } else {
            lemma_mod_sub_multiples_vanish(a + b, m);
            lemma_small_mod((a + b - m) as nat, m as nat);
        }
    }
    r
}

/// `a - b`, modulo the width of an address.
fn difference(a: usize, b: usize) -> (d: usize)
    ensures
        d == distance(a as int, b as int),
{
    let d: usize = a.wrapping_sub(b);
    proof {
        let m = usize::MAX + 1;
        if a >= b {
            lemma_small_mod((a - b) as nat, m as nat);
        } else {
            lemma_mod_add_multiples_vanish(a - b, m);
            lemma_small_mod((a - b + m) as nat, m as nat);
        }
    }
    d
}

/// Finds the first frame from number `next` on.
fn find_frame(ips: &[usize; IP_DEPTH], next: usize) -> (n: usize)
    requires
        next <= IP_DEPTH,
    ensures
        n == next_frame(ips@, next as int),
        next <= n <= IP_DEPTH,
        n < IP_DEPTH ==> ips@[n as int] != 0,
{
    let mut n: usize = next;
    while n < IP_DEPTH && ips[n] == 0
        invariant
            next <= n <= IP_DEPTH,
            next_frame(ips@, n as int) == next_frame(ips@, next as int),
        decreases IP_DEPTH - n,
    {
        n = n + 1;
    }
    n
}

/// Writes the line for one frame.
fn write_frame(out: &mut String, ip: usize)
    ensures
        final(out)@ == old(out)@ + frame_text(ip),
{
    write_str(out, "      ");
    write_hex(out, ip);
    write_str(out, "\n");
    proof {
        assert(out@ =~= old(out)@ + frame_text(ip));
    }
}

/// Writes the line that stands for an empty stack, unless a frame was written.
fn write_no_frames(out: &mut String, any: bool)
    ensures
        final(out)@ == old(out)@ + no_frames_text(any),
{
    if !any {
        write_str(out, "      <no frames captured>\n");
    }
    proof {
        assert(out@ =~= old(out)@ + no_frames_text(any));
    }
}

/// Writes the last lines of a report.
fn write_footer(out: &mut String, symbolize: bool)
    ensures
        final(out)@ == old(out)@ + footer_text(symbolize),
{
    if !symbolize {
        write_str(
            out,
            "  hint          : set COFFIN_SYMBOLIZE=1 for symbol names + file:line\n",
        );
    }
    write_str(out, "==========================================================\n");
    proof {
        assert(out@ =~= old(out)@ + footer_text(symbolize));
    }
}

/// What a step writes, the names due after it, and what is left then make up what
/// was left before it, whatever the scan hands over, and the steps come to an
/// end. Names are due for the frame that a step asks them for, and where names
/// are shown, it asks.
pub proof fn steps_make_the_report(r: FaultReport, found: Option<Found>, names: Names)
    requires
        r.wf(),
        !r.symbolize ==> names == no_names(),
    ensures
        ({
            let next = FaultReport { stage: r.next_stage(), ..r };
            &&& next.wf()
            &&& r.rest(found, names) == r.step_text() + r.names_due(names) + next.rest(found, names)
            &&& match r.step_request() {
                Step::Resolve { ip } => r.names_due(names) == under_frame(
                    if r.stage is FreeFrames {
                        names.freed
                    } else {
                        names.taken
                    },
                    ip,
                ),
                _ => r.names_due(names) == Seq::<char>::empty(),
            }
            &&& r.stage != Stage::Done && r.stage != Stage::Scan ==> next.steps_left()
                < r.steps_left()
            &&& r.stage == Stage::Scan ==> {
                &&& r.told(found).wf()
                &&& r.told(found).rest(found, names) == r.rest(found, names)
                &&& r.told(found).steps_left() < r.steps_left()
            }
            &&& r.step_request() == Step::Finished ==> next.stage == Stage::Done
        }),
{
    let next = FaultReport { stage: r.next_stage(), ..r };
    let rest = next.rest(found, names);
    match r.stage {
        Stage::AllocFrames { next: from, any } => {
            lemma_frames_split(r.alloc_ips@, from as int, any, names.taken);
            let n = next_frame(r.alloc_ips@, from as int);
            if n < IP_DEPTH {
                lemma_assoc(
                    frame_text(r.alloc_ips@[n]) + under_frame(names.taken, r.alloc_ips@[n]),
                    frames_text(r.alloc_ips@, n + 1, true, names.taken),
                    r.after_alloc_text(names),
                );
            } else {
                lemma_no_names(r.step_text());
                if r.freed_site() {
                    lemma_assoc(
                        "  freed at      :\n"@,
                        frames_text(r.free_ips@, 0, false, names.freed),
                        footer_text(r.symbolize),
                    );
                    lemma_assoc(no_frames_text(any), "  freed at      :\n"@, rest);
                }
            }
        },
        Stage::FreeFrames { next: from, any } => {
            lemma_frames_split(r.free_ips@, from as int, any, names.freed);
            let n = next_frame(r.free_ips@, from as int);
            if n < IP_DEPTH {
                lemma_assoc(
                    frame_text(r.free_ips@[n]) + under_frame(names.freed, r.free_ips@[n]),
                    frames_text(r.free_ips@, n + 1, true, names.freed),
                    footer_text(r.symbolize),
                );
            } else {
                lemma_no_names(r.step_text());
            }
        },
        Stage::Verdict => {
            lemma_no_names(r.step_text());
        },
        Stage::Head => {
            lemma_no_names(r.step_text());
            assert(r.told(found).body_text(names) == next.told(found).body_text(names));
        },
        _ => {
            lemma_no_names(r.step_text());
            assert(r.told(found).body_text(names) == next.told(found).body_text(names));
            assert(r.rest(found, names) =~= r.step_text() + rest);
        },
    }
}

proof fn lemma_pieces(a: Seq<char>, b: Seq<char>, c: Seq<char>, d: Seq<char>)
    ensures
        ((a + b) + c) + d == a + ((b + c) + d),
{
    assert(((a + b) + c) + d =~= a + ((b + c) + d));
}

proof fn lemma_no_names(text: Seq<char>)
    ensures
        text + Seq::<char>::empty() == text,
{
    assert(text + Seq::<char>::empty() =~= text);
}

/// The guard is closed exactly where names or annotations are asked for, and
/// before anything is written or looked at. Names and annotations are asked for
/// exactly where they are wanted, and the annotations come last.
pub proof fn guard_comes_first(r: FaultReport)
    requires
        r.wf(),
    ensures
        r.stage == Stage::Guard ==> r.step_text() == Seq::<char>::empty(),
        r.step_request() == Step::CloseGuard <==> r.stage == Stage::Guard && (r.symbolize
            || r.annotate),
        r.next_stage() != Stage::Guard,
        r.step_request() matches Step::Resolve { .. } ==> r.symbolize,
        r.step_request() == Step::Annotate <==> r.stage == Stage::Annotate,
        r.next_stage() == Stage::Annotate <==> r.stage == Stage::Footer && r.annotate,
        r.stage == Stage::Annotate ==> r.next_stage() == Stage::Done,
        r.next_stage() == Stage::Done ==> r.stage == Stage::Done || r.stage == Stage::Annotate || (
        r.stage == Stage::Footer && !r.annotate),
{
}

/// A report has the section on the allocation exactly where a region was found,
/// the one on the free exactly after a use after free, and the hint exactly where
/// no names are asked for. Where they are, each frame has its names under it. Its
/// first lines do not depend on the registry.
pub proof fn report_has_its_sections(
    sig: i32,
    signals: SignalNumbers,
    registry: Option<ArenaState>,
    addr: usize,
    page: usize,
    symbolize: bool,
    taken: Seq<ResolvedFrame>,
    freed: Seq<ResolvedFrame>,
)
    ensures
        ({
            let found = found_in(registry, addr, page);
            let r = FaultReport::fresh(sig, signals, addr, symbolize, false).told(found);
            let names = shown_names(symbolize, taken, freed);
            let text = report_text(sig, signals, registry, addr, page, symbolize, taken, freed);
            &&& text == head_text(sig, addr, signals) + verdict_text(r.info) + if !located(r.info) {
                "  (address is not inside any live or quarantined allocation)\n"@ + footer_text(
                    symbolize,
                )
            } else {
                region_text(r.info->0) + distance_text(addr, r.info->0) + "  allocated at  :\n"@
                    + frames_text(r.alloc_ips@, 0, false, names.taken) + if r.freed_site() {
                    "  freed at      :\n"@ + frames_text(r.free_ips@, 0, false, names.freed)
                        + footer_text(symbolize)
                } else {
                    footer_text(symbolize)
                }
            }
        }),
{
    let found = found_in(registry, addr, page);
    let r = FaultReport::fresh(sig, signals, addr, symbolize, false).told(found);
    let names = shown_names(symbolize, taken, freed);
    let text = report_text(sig, signals, registry, addr, page, symbolize, taken, freed);
    if located(r.info) {
        assert(text =~= head_text(sig, addr, signals) + verdict_text(r.info) + (region_text(
            r.info->0,
        ) + distance_text(addr, r.info->0) + "  allocated at  :\n"@ + frames_text(
            r.alloc_ips@,
            0,
            false,
            names.taken,
        ) + r.after_alloc_text(names)));
    } else {
        assert(text =~= head_text(sig, addr, signals) + verdict_text(r.info) + (
        "  (address is not inside any live or quarantined allocation)\n"@ + footer_text(
            symbolize,
        )));
    }
}

/// Without names, what stands under a frame is nothing.
proof fn lemma_nothing_under_frame(ip: usize)
    ensures
        under_frame(Seq::<ResolvedFrame>::empty(), ip) == Seq::<char>::empty(),
{
}

proof fn lemma_assoc(a: Seq<char>, b: Seq<char>, c: Seq<char>)
    ensures
        (a + b) + c == a + (b + c),
{
    assert((a + b) + c =~= a + (b + c));
}

/// The lines of a stack are those of its first frame and of the frames after
/// it.
proof fn lemma_frames_split(ips: Seq<usize>, next: int, any: bool, names: Seq<ResolvedFrame>)
    requires
        0 <= next <= ips.len(),
    ensures
        ({
            let n = next_frame(ips, next);
            &&& next <= n <= ips.len()
            &&& n < ips.len() ==> ips[n] != 0 && frames_text(ips, next, any, names) == frame_text(
                ips[n],
            ) + under_frame(names, ips[n]) + frames_text(ips, n + 1, true, names)
            &&& n == ips.len() ==> frames_text(ips, next, any, names) == no_frames_text(any)
        }),
    decreases ips.len() - next,
{
    if next < ips.len() && ips[next] == 0 {
        lemma_frames_split(ips, next + 1, any, names);
    }
}

/// The text is ASCII and has at most `n` characters.
pub open spec fn bounded(text: Seq<char>, n: int) -> bool {
    text.len() <= n && vstd::utf8::is_ascii_chars(text)
}

/// Any report without names fits in [`REPORT_MAX`] bytes.
pub proof fn report_is_bounded(
    sig: i32,
    signals: SignalNumbers,
    registry: Option<ArenaState>,
    addr: usize,
    page: usize,
    taken: Seq<ResolvedFrame>,
    freed: Seq<ResolvedFrame>,
)
    ensures
        vstd::utf8::encode_utf8(
            report_text(sig, signals, registry, addr, page, false, taken, freed),
        ).len() <= REPORT_MAX,
{
    let r = FaultReport::fresh(sig, signals, addr, false, false).told(
        found_in(registry, addr, page),
    );
    lemma_head_bounded(sig, addr, signals);
    lemma_verdict_bounded(addr, r.info);
    lemma_frames_bounded(r.alloc_ips@, 0, false);
    lemma_frames_bounded(r.free_ips@, 0, false);
    lemma_footer_bounded(false);
    reveal_strlit("  freed at      :\n");
    let text = report_text(sig, signals, registry, addr, page, false, taken, freed);
    assert(bounded(text, REPORT_MAX as int));
    vstd::utf8::is_ascii_chars_encode_utf8(text);
}

/// What a single step writes fits in [`REPORT_MAX`] bytes, whether names follow
/// or not.
pub proof fn step_is_bounded(r: FaultReport)
    requires
        r.wf(),
    ensures
        vstd::utf8::encode_utf8(r.step_text()).len() <= REPORT_MAX,
{
    lemma_head_bounded(r.sig, r.addr, r.signals);
    lemma_verdict_bounded(r.addr, r.info);
    lemma_footer_bounded(r.symbolize);
    reveal_strlit("  freed at      :\n");
    reveal_strlit("      <no frames captured>\n");
    match r.stage {
        Stage::AllocFrames { next, any } => {
            let n = next_frame(r.alloc_ips@, next as int);
            if n < IP_DEPTH {
                lemma_frame_bounded(r.alloc_ips@[n]);
            }
        },
        Stage::FreeFrames { next, any } => {
            let n = next_frame(r.free_ips@, next as int);
            if n < IP_DEPTH {
                lemma_frame_bounded(r.free_ips@[n]);
            }
        },
        _ => {},
    }
    assert(bounded(r.step_text(), REPORT_MAX as int));
    vstd::utf8::is_ascii_chars_encode_utf8(r.step_text());
}

proof fn lemma_frame_bounded(ip: usize)
    ensures
        bounded(frame_text(ip), 25),
{
    reveal_strlit("      ");
    reveal_strlit("\n");
    lemma_number_bounded(ip as int);
}

proof fn lemma_number_bounded(v: int)
    requires
        0 <= v <= usize::MAX,
    ensures
        bounded(report::dec_text(v), 20),
        bounded(report::hex_text(v), 18),
{
    reveal_strlit("0x");
    reveal_with_fuel(text::limit, 21);
    text::lemma_number_bounded(v, 10, 20);
    text::lemma_number_bounded(v, 16, 16);
}

proof fn lemma_head_bounded(sig: i32, addr: usize, signals: SignalNumbers)
    ensures
        bounded(head_text(sig, addr, signals), 256),
{
    reveal_strlit("\n========================= COFFIN =========================\n");
    reveal_strlit("  signal        : ");
    reveal_strlit("SIGSEGV");
    reveal_strlit("SIGBUS");
    reveal_strlit("signal");
    reveal_strlit(" (");
    reveal_strlit(")\n");
    reveal_strlit("  fault address : ");
    reveal_strlit("\n");
    lemma_number_bounded(sig as usize as int);
    lemma_number_bounded(addr as int);
}

proof fn lemma_verdict_bounded(addr: usize, info: Option<FaultInfo>)
    ensures
        bounded(verdict_lines(addr, info), 512),
{
    reveal_strlit("  fault         : ");
    reveal_strlit("BUFFER OVERFLOW (write past end of allocation)\n");
    reveal_strlit("BUFFER UNDERFLOW (write before allocation)\n");
    reveal_strlit("USE-AFTER-FREE\n");
    reveal_strlit("FAULT INSIDE LIVE REGION (unexpected)\n");
    reveal_strlit("WILD POINTER (no tracked region)\n");
    assert(bounded(verdict_text(info), 80));
    reveal_strlit("  (address is not inside any live or quarantined allocation)\n");
    reveal_strlit("  allocated at  :\n");
    if let Some(fi) = info {
        lemma_region_bounded(fi);
        lemma_distance_bounded(addr, fi);
    }
    assert(bounded(found_text(addr, info), 400));
}

proof fn lemma_region_bounded(fi: FaultInfo)
    ensures
        bounded(region_text(fi), 256),
{
    reveal_strlit("  region        : base ");
    reveal_strlit(" .. ");
    reveal_strlit(" (");
    reveal_strlit(" bytes mapped)\n");
    reveal_strlit("  user buffer   : ");
    reveal_strlit("  size ");
    reveal_strlit("  align ");
    reveal_strlit("\n");
    lemma_number_bounded(fi.base as int);
    lemma_mod_bound(fi.base + fi.total_len, usize::MAX + 1);
    lemma_number_bounded(wrapped(fi.base + fi.total_len));
    lemma_number_bounded(fi.total_len as int);
    lemma_number_bounded(fi.user_ptr as int);
    lemma_number_bounded(fi.size as int);
    lemma_number_bounded(fi.align as int);
}

proof fn lemma_distance_bounded(addr: usize, fi: FaultInfo)
    ensures
        bounded(distance_text(addr, fi), 100),
{
    let m = usize::MAX + 1;
    lemma_mod_bound(addr - (fi.user_ptr + fi.size), m);
    lemma_mod_bound(fi.user_ptr - addr, m);
    lemma_mod_bound(addr - fi.user_ptr, m);
    lemma_number_bounded(distance(addr as int, fi.user_ptr + fi.size));
    lemma_number_bounded(distance(fi.user_ptr as int, addr as int));
    lemma_number_bounded(distance(addr as int, fi.user_ptr as int));
    reveal_strlit("  overflow      : ");
    reveal_strlit(" byte(s) past the end of the buffer\n");
    reveal_strlit("  underflow     : ");
    reveal_strlit(" byte(s) before the start of the buffer\n");
    reveal_strlit("  offset        : ");
    reveal_strlit(" byte(s) into the freed buffer\n");
}

proof fn lemma_frames_bounded(ips: Seq<usize>, next: int, any: bool)
    requires
        0 <= next <= ips.len() == IP_DEPTH,
    ensures
        bounded(
            frames_text(ips, next, any, Seq::<ResolvedFrame>::empty()),
            28 + 25 * (IP_DEPTH - next),
        ),
    decreases ips.len() - next,
{
    reveal_strlit("      <no frames captured>\n");
    if next < ips.len() {
        if ips[next] == 0 {
            lemma_frames_bounded(ips, next + 1, any);
        } else {
            lemma_frames_bounded(ips, next + 1, true);
            lemma_frame_bounded(ips[next]);
            lemma_nothing_under_frame(ips[next]);
        }
    }
}

proof fn lemma_footer_bounded(symbolize: bool)
    ensures
        bounded(footer_text(symbolize), 160),
{
    reveal_strlit("  hint          : set COFFIN_SYMBOLIZE=1 for symbol names + file:line\n");
    reveal_strlit("==========================================================\n");
}

} // verus!
