//! Process-wide configuration: what the values of the environment variables and
//! the system's page size mean.
//!
//! Each function takes the raw value of its variable, or `None` where the
//! variable is not set.

use vstd::prelude::*;
use vstd::arithmetic::div_mod::*;
use vstd::arithmetic::power2::*;
use crate::bits;
use crate::report;
use crate::text;

verus! {

/// Where the guard page sits relative to the user buffer.
#[derive(Clone, Copy, PartialEq, Eq, Debug, Structural)]
pub enum Mode {
    /// Guard page after the buffer: catches overflows.
    Above,
    /// Guard page before the buffer: catches underflows.
    Below,
}

/// How the process ends after a fault.
#[derive(Clone, Copy, PartialEq, Eq, Debug, Structural)]
pub enum OnFault {
    /// By the signal that the fault raised, with a core dump.
    AbortWithSignal,
    /// By a plain exit with this code.
    Exit(i32),
}

/// Default number of registry slots.
pub const DEFAULT_MAX_LIVE: usize = 1_048_576;

/// Default number of freed regions kept in quarantine.
pub const DEFAULT_QUARANTINE: usize = 4096;

/// Page size assumed where the system does not tell.
pub const FALLBACK_PAGE: usize = 4096;

/// A decimal digit's byte.
pub open spec fn is_digit(b: u8) -> bool {
    '0' as u8 <= b <= '9' as u8
}

/// The digits that `bytes` starts with.
pub open spec fn leading_digits(bytes: Seq<u8>) -> Seq<u8>
    decreases bytes.len(),
{
    if bytes.len() > 0 && is_digit(bytes[0]) {
        seq![bytes[0]] + leading_digits(bytes.drop_first())
    } else {
        Seq::<u8>::empty()
    }
}

/// The value of a row of decimal digits.
pub open spec fn decimal(digits: Seq<u8>) -> int
    decreases digits.len(),
{
    if digits.len() == 0 {
        0
    } else {
        decimal(digits.drop_last()) * 10 + (digits.last() - '0' as u8)
    }
}

/// The value of a numeric variable: that of the digits it starts with, capped
/// at the greatest `usize`, or `default` where that is zero.
pub open spec fn numeric(val: Option<Seq<u8>>, default: usize) -> usize {
    match val {
        Some(bytes) => {
            let n = decimal(leading_digits(bytes));
            if n == 0 {
                default
            } else if n > usize::MAX {
                usize::MAX
            } else {
                n as usize
            }
        },
        None => default,
    }
}

/// The raw value as a sequence.
pub open spec fn raw(val: Option<&[u8]>) -> Option<Seq<u8>> {
    match val {
        Some(bytes) => Some(bytes@),
        None => None,
    }
}

/// The value is exactly `text`.
pub open spec fn reads(val: Option<&[u8]>, text: Seq<char>) -> bool {
    raw(val) == Some(text::ascii(text))
}

/// Whether the value is exactly `text`.
fn value_is(val: Option<&[u8]>, text: &str) -> (r: bool)
    requires
        text.is_ascii(),
    ensures
        r == reads(val, text@),
{
    match val {
        Some(bytes) => text::is_text(bytes, text),
        None => false,
    }
}

/// The least power of two that is not below `x`.
pub fn next_pow2(x: usize) -> (r: usize)
    requires
        x <= usize::MAX / 2 + 1,
    ensures
        is_pow2(r as int),
        x <= r,
        forall|p: int| #[trigger] is_pow2(p) && x <= p ==> r <= p,
{
    let mut r: usize = 1;
    proof {
        reveal(is_pow2);
    }
    while r < x
        invariant
            x <= usize::MAX / 2 + 1,
            is_pow2(r as int),
            1 <= r,
            r == 1 || r < 2 * x,
        decreases 2 * x - r,
    {
        proof {
            reveal(is_pow2);
        }
        r = r * 2;
    }
    proof {
        assert forall|p: int| #[trigger] is_pow2(p) && x <= p implies r
            <= p by {
            if p < r {
                bits::lemma_pow2_divides(p, r as int);
                lemma_fundamental_div_mod(r as int, p);
                let q = r as int / p;
                assert(q >= 2 ==> p * q >= 2 * p) by (nonlinear_arith)
                    requires
                        p > 0,
                ;
                assert(q <= 1 ==> p * q <= p) by (nonlinear_arith)
                    requires
                        p > 0,
                ;
            }
        }
    }
    r
}

/// Reads the decimal digits that `bytes` starts with: how many there are, and
/// their value, capped at the greatest `usize`.
fn read_digits(bytes: &[u8]) -> (r: (usize, usize))
    ensures
        r.0 == leading_digits(bytes@).len(),
        r.0 <= bytes@.len(),
        leading_digits(bytes@) == bytes@.take(r.0 as int),
        0 <= decimal(leading_digits(bytes@)),
        r.1 == (if decimal(leading_digits(bytes@)) > usize::MAX {
            usize::MAX as int
        } else {
            decimal(leading_digits(bytes@))
        }),
{
    let mut n: usize = 0;
    let mut i: usize = 0;
    proof {
        assert(bytes@.take(0) =~= Seq::<u8>::empty());
        assert(bytes@.skip(0) =~= bytes@);
        assert(leading_digits(bytes@) =~= bytes@.take(0) + leading_digits(bytes@.skip(0)));
    }
    while i < bytes.len() && bytes[i] >= '0' as u8 && bytes[i] <= '9' as u8
        invariant
            i <= bytes@.len(),
            leading_digits(bytes@) == bytes@.take(i as int) + leading_digits(bytes@.skip(i as int)),
            0 <= decimal(bytes@.take(i as int)),
            n == (if decimal(bytes@.take(i as int)) > usize::MAX {
                usize::MAX as int
            } else {
                decimal(bytes@.take(i as int))
            }),
        decreases bytes@.len() - i,
    {
        let d: usize = (bytes[i] - '0' as u8) as usize;
        proof {
            let next = bytes@.take(i + 1);
            assert(next.drop_last() =~= bytes@.take(i as int));
            assert(bytes@.skip(i as int).drop_first() =~= bytes@.skip(i + 1));
            assert(bytes@.take(i as int) + (seq![bytes@[i as int]] + leading_digits(
                bytes@.skip(i + 1),
            )) =~= next + leading_digits(bytes@.skip(i + 1)));
        }
        n = match n.checked_mul(10) {
            Some(m) => m.saturating_add(d),
            None => usize::MAX,
        };
        i = i + 1;
    }
    proof {
        assert(leading_digits(bytes@.skip(i as int)) =~= Seq::<u8>::empty());
        assert(leading_digits(bytes@) =~= bytes@.take(i as int));
    }
    (i, n)
}

/// Reads a numeric variable.
pub fn parse_usize_env(val: Option<&[u8]>, default: usize) -> (n: usize)
    ensures
        n == numeric(raw(val), default),
        1 <= default ==> 1 <= n,
{
    match val {
        Some(bytes) => {
            let (_, n) = read_digits(bytes);
            if n > 0 {
                n
            } else {
                default
            }
        },
        None => default,
    }
}

/// The page size where the system says `reported`.
pub open spec fn pages_of(reported: int) -> int {
    if reported <= 0 {
        FALLBACK_PAGE as int
    } else {
        reported
    }
}

/// The page size, from what the system says of it: a number that is not
/// positive says nothing.
pub fn page_size(reported: i64) -> (page: usize)
    requires
        reported <= usize::MAX,
    ensures
        page == pages_of(reported as int),
        page == (if reported <= 0 {
            FALLBACK_PAGE as int
        } else {
            reported as int
        }),
{
    if reported <= 0 {
        FALLBACK_PAGE
    } else {
        reported as usize
    }
}

/// The protection mode that the value of a variable asks for.
pub open spec fn protection(val: Option<&[u8]>) -> Mode {
    if reads(val, "below"@) || reads(val, "BELOW"@) {
        Mode::Below
    } else {
        Mode::Above
    }
}

/// The protection mode, from `COFFIN_PROTECT`.
pub fn mode(val: Option<&[u8]>) -> (m: Mode)
    ensures
        m == protection(val),
        m == (if reads(val, "below"@) || reads(val, "BELOW"@) {
            Mode::Below
        } else {
            Mode::Above
        }),
{
    proof {
        reveal_strlit("below");
        reveal_strlit("BELOW");
    }
    if value_is(val, "below") || value_is(val, "BELOW") {
        Mode::Below
    } else {
        Mode::Above
    }
}

/// The number of registry slots, from `COFFIN_MAX_LIVE`: the least power of two
/// that holds as many as asked for, or `None` where no `usize` is one.
pub fn max_live_slots(val: Option<&[u8]>) -> (slots: Option<usize>)
    ensures
        slots is None <==> numeric(raw(val), DEFAULT_MAX_LIVE) > usize::MAX / 2 + 1,
        slots matches Some(n) ==> {
            &&& numeric(raw(val), DEFAULT_MAX_LIVE) <= n
            &&& is_pow2(n as int)
            &&& forall|p: int| #[trigger]
                is_pow2(p) && numeric(raw(val), DEFAULT_MAX_LIVE) <= p
                    ==> n <= p
        },
{
    let n: usize = parse_usize_env(val, DEFAULT_MAX_LIVE);
    if n <= usize::MAX / 2 + 1 {
        Some(next_pow2(n))
    } else {
        None
    }
}

/// The number of freed regions kept in quarantine, from `COFFIN_QUARANTINE`.
pub fn quarantine_cap(val: Option<&[u8]>) -> (n: usize)
    ensures
        n == numeric(raw(val), DEFAULT_QUARANTINE),
        1 <= n,
{
    parse_usize_env(val, DEFAULT_QUARANTINE)
}

/// The value of a variable asks for names.
pub open spec fn wants_names(val: Option<&[u8]>) -> bool {
    reads(val, "1"@) || reads(val, "true"@) || reads(val, "yes"@)
}

/// Whether frames get names, from `COFFIN_SYMBOLIZE`.
pub fn symbolize(val: Option<&[u8]>) -> (r: bool)
    ensures
        r == wants_names(val),
        r == (reads(val, "1"@) || reads(val, "true"@) || reads(val, "yes"@)),
{
    proof {
        reveal_strlit("1");
        reveal_strlit("true");
        reveal_strlit("yes");
    }
    value_is(val, "1") || value_is(val, "true") || value_is(val, "yes")
}

/// The value of a variable asks for annotations.
pub open spec fn wants_notes(val: Option<&[u8]>) -> bool {
    reads(val, "1"@)
}

/// Whether annotations are written for continuous integration, from
/// `COFFIN_GITHUB_ANNOTATE`.
pub fn annotate(val: Option<&[u8]>) -> (r: bool)
    ensures
        r == wants_notes(val),
        r == reads(val, "1"@),
{
    proof {
        reveal_strlit("1");
    }
    value_is(val, "1")
}

/// What `COFFIN_ON_FAULT` stands for: `exit:` and decimal digits ask for an exit
/// with that code, if it is one. Everything else leaves the process to its
/// signal.
pub open spec fn fault_policy(val: Option<Seq<u8>>) -> OnFault {
    match val {
        Some(bytes) => {
            let prefix = text::ascii("exit:"@);
            let code = bytes.skip(prefix.len() as int);
            if prefix.len() < bytes.len() && bytes.take(prefix.len() as int) == prefix
                && leading_digits(code) == code && decimal(code) <= i32::MAX {
                OnFault::Exit(decimal(code) as i32)
            } else {
                OnFault::AbortWithSignal
            }
        },
        None => OnFault::AbortWithSignal,
    }
}

/// How the process ends after a fault, from `COFFIN_ON_FAULT`.
pub fn on_fault(val: Option<&[u8]>) -> (policy: OnFault)
    ensures
        policy == fault_policy(raw(val)),
{
    proof {
        reveal_strlit("exit:");
    }
    let bytes: &[u8] = match val {
        Some(bytes) => bytes,
        None => {
            return OnFault::AbortWithSignal;
        },
    };
    if bytes.len() <= 5 {
        return OnFault::AbortWithSignal;
    }
    let prefix: &[u8] = vstd::slice::slice_subrange(bytes, 0, 5);
    let code: &[u8] = vstd::slice::slice_subrange(bytes, 5, bytes.len());
    proof {
        assert(prefix@ =~= bytes@.take(5));
        assert(code@ =~= bytes@.skip(5));
    }
    if !text::is_text(prefix, "exit:") {
        return OnFault::AbortWithSignal;
    }
    let (count, n) = read_digits(code);
    proof {
        assert(code@.take(code@.len() as int) =~= code@);
    }
    if count == code.len() && n <= i32::MAX as usize {
        OnFault::Exit(n as i32)
    } else {
        OnFault::AbortWithSignal
    }
}

/// A numeric variable that holds a positive number, written in decimal, has that
/// number's value.
pub proof fn decimal_reads_back(n: usize, default: usize)
    requires
        1 <= n,
    ensures
        numeric(Some(text::ascii(report::dec_text(n as int))), default) == n,
{
    lemma_decimal(n as int);
}

proof fn lemma_decimal(n: int)
    requires
        0 <= n,
    ensures
        ({
            let bytes = text::ascii(text::number(n, 10));
            &&& leading_digits(bytes) == bytes
            &&& decimal(bytes) == n
        }),
    decreases n,
{
    let bytes = text::ascii(text::number(n, 10));
    reveal_with_fuel(decimal, 2);
    if n < 10 {
        assert(bytes.drop_last() =~= Seq::<u8>::empty());
        lemma_all_digits(bytes);
    } else {
        lemma_decimal(n / 10);
        let head = text::ascii(text::number(n / 10, 10));
        assert(bytes.drop_last() =~= head);
        lemma_digits_of(head);
        assert(bytes =~= head.push(bytes.last()));
        lemma_all_digits(bytes);
    }
}

/// A row of digits is all leading digits.
proof fn lemma_all_digits(bytes: Seq<u8>)
    requires
        forall|i: int| 0 <= i < bytes.len() ==> is_digit(#[trigger] bytes[i]),
    ensures
        leading_digits(bytes) == bytes,
    decreases bytes.len(),
{
    if bytes.len() > 0 {
        let rest = bytes.drop_first();
        assert forall|i: int| 0 <= i < rest.len() implies is_digit(#[trigger] rest[i]) by {
            assert(is_digit(bytes[i + 1]));
        }
        lemma_all_digits(rest);
        assert(is_digit(bytes[0]));
        assert(seq![bytes[0]] + rest =~= bytes);
    } else {
        assert(leading_digits(bytes) =~= bytes);
    }
}

/// Leading digits are digits.
proof fn lemma_digits_of(bytes: Seq<u8>)
    ensures
        forall|i: int|
            0 <= i < leading_digits(bytes).len() ==> is_digit(#[trigger] leading_digits(bytes)[i]),
    decreases bytes.len(),
{
    if bytes.len() > 0 && is_digit(bytes[0]) {
        let rest = leading_digits(bytes.drop_first());
        lemma_digits_of(bytes.drop_first());
        assert forall|i: int| 0 <= i < leading_digits(bytes).len() implies is_digit(
            #[trigger] leading_digits(bytes)[i],
        ) by {
            if i > 0 {
                assert(leading_digits(bytes)[i] == rest[i - 1]);
            }
        }
    }
}

} // verus!
