//! Geometry of a fenced region: where the guard page, the user buffer and the
//! padding between them lie in one mapping.
//!
//! The buffer always starts at a multiple of the requested alignment. Where its
//! size is a multiple of the alignment too, as for every Rust type, its end
//! lands exactly on the guard page. Otherwise the bytes between are padding,
//! filled with [`POISON`] and checked when the buffer is freed.

use vstd::prelude::*;
use vstd::arithmetic::div_mod::*;
use vstd::arithmetic::power2::*;
use crate::bits;
use crate::config::Mode;
use crate::text;

verus! {

/// Fill byte of the padding between a buffer and its guard page.
pub const POISON: u8 = 0xDB;

/// Report of a free that finds padding disturbed.
pub const PADDING_REPORT: &'static str = "coffin: overflow into alignment padding detected at free\n";

/// A range of addresses.
#[derive(Clone, Copy, PartialEq, Eq, Debug, Structural)]
pub struct Span {
    pub addr: usize,
    pub len: usize,
}

/// Size and alignment of a requested buffer.
#[derive(Clone, Copy, PartialEq, Eq, Debug, Structural)]
pub struct Layout {
    pub size: usize,
    pub align: usize,
}

/// The resolved layout of one fenced mapping.
#[derive(Clone, Copy, PartialEq, Eq, Debug, Structural)]
pub struct Geometry {
    /// Total length of the mapping.
    pub map_len: usize,
    /// Offset of the guard page from the mapping's base.
    pub guard_off: usize,
    /// Offset of the user pointer from the mapping's base.
    pub user_off: usize,
    /// Bytes of padding between the buffer and the guard page.
    pub pad: usize,
}

/// The bytes that a request for `size` bytes gets: a request for none counts as
/// one for a single byte.
pub open spec fn buffer_len(size: int) -> int {
    if size < 1 {
        1
    } else {
        size
    }
}

/// The whole pages that hold the buffer.
pub open spec fn data_len(size: int, page: int) -> int {
    bits::up_to_multiple(buffer_len(size), page)
}

/// The request is one that a page-fenced mapping can serve: the alignment is a
/// power of two no greater than the page size, and buffer pages and guard page
/// together fit in the address space.
pub open spec fn fenceable(size: int, align: int, page: int) -> bool {
    &&& is_pow2(align)
    &&& is_pow2(page)
    &&& align <= page
    &&& data_len(size, page) + page <= usize::MAX
}

/// Where guard page, buffer and padding lie for a request.
pub open spec fn geometry(size: int, align: int, mode: Mode, page: int) -> Geometry {
    let data = data_len(size, page);
    match mode {
        Mode::Above => {
            let user_off = bits::down_to_multiple(data - buffer_len(size), align);
            Geometry {
                map_len: (data + page) as usize,
                guard_off: data as usize,
                user_off: user_off as usize,
                pad: (data - user_off - buffer_len(size)) as usize,
            }
        },
        Mode::Below => Geometry {
            map_len: (page + data) as usize,
            guard_off: 0,
            user_off: page as usize,
            pad: 0,
        },
    }
}

/// Whether a page-fenced mapping can serve a request for `layout`.
pub fn is_fenceable(layout: Layout, page: usize) -> (r: bool)
    ensures
        r == fenceable(layout.size as int, layout.align as int, page as int),
{
    if !bits::is_power_of_two(layout.align) || !bits::is_power_of_two(page) || layout.align
        > page {
        return false;
    }
    let len: usize = if layout.size < 1 {
        1
    } else {
        layout.size
    };
    proof {
        bits::lemma_mask_is_mod(0, page);
        bits::lemma_up_to_multiple(len as int, page as int);
    }
    match len.checked_add(page - 1) {
        Some(_) => round_up(len, page).checked_add(page).is_some(),
        None => false,
    }
}

/// Rounds `x` up to a multiple of `to`, a power of two.
pub fn round_up(x: usize, to: usize) -> (r: usize)
    requires
        is_pow2(to as int),
        x + to - 1 <= usize::MAX,
    ensures
        r == bits::up_to_multiple(x as int, to as int),
        x <= r < x + to,
        r % to == 0,
{
    proof {
        bits::lemma_mask_is_mod((x + to - 1) as usize, to);
        bits::lemma_up_to_multiple(x as int, to as int);
    }
    (x + (to - 1)) & !(to - 1)
}

/// Rounds `x` down to a multiple of `to`, a power of two.
pub fn align_down(x: usize, to: usize) -> (r: usize)
    requires
        is_pow2(to as int),
    ensures
        r == bits::down_to_multiple(x as int, to as int),
        r <= x < r + to,
        r % to == 0,
{
    proof {
        bits::lemma_mask_is_mod(x, to);
        bits::lemma_down_to_multiple(x as int, to as int);
    }
    x & !(to - 1)
}

/// Geometry of a region for `size` bytes aligned to `align`, on pages of `page`
/// bytes.
///
/// `Above`: `[ data pages ......... buffer | pad ][ guard page ]`
///
/// `Below`: `[ guard page ][ buffer ......... data pages ]`
pub fn geometry_for(size: usize, align: usize, mode: Mode, page: usize) -> (g: Geometry)
    requires
        fenceable(size as int, align as int, page as int),
    ensures
        g == geometry(size as int, align as int, mode, page as int),
        0 < g.map_len,
        mode == Mode::Above && size >= 1 ==> {
            &&& g.user_off + size + g.pad == g.guard_off
            &&& g.pad < align
        },
        mode == Mode::Below ==> g.guard_off == 0 && g.user_off == page && g.pad == 0,
{
    let len: usize = if size < 1 {
        1
    } else {
        size
    };
    proof {
        bits::lemma_mask_is_mod(0, page);
        bits::lemma_mask_is_mod(0, align);
        bits::lemma_up_to_multiple(len as int, page as int);
    }
    let data_bytes: usize = round_up(len, page);
    match mode {
        Mode::Above => {
            let user_off: usize = align_down(data_bytes - len, align);
            let pad: usize = (data_bytes - user_off) - len;
            Geometry { map_len: data_bytes + page, guard_off: data_bytes, user_off, pad }
        },
        Mode::Below => {
            Geometry { map_len: page + data_bytes, guard_off: 0, user_off: page, pad: 0 }
        },
    }
}

/// Geometry of a region for `layout`.
pub fn region_geometry(layout: Layout, mode: Mode, page: usize) -> (g: Geometry)
    requires
        fenceable(layout.size as int, layout.align as int, page as int),
    ensures
        g == geometry(layout.size as int, layout.align as int, mode, page as int),
{
    geometry_for(layout.size, layout.align, mode, page)
}

/// A region that has been mapped, with the addresses of its parts.
#[derive(Clone, Copy, PartialEq, Eq, Debug, Structural)]
pub struct Fenced {
    /// The whole mapping.
    pub whole: Span,
    /// Start of the user buffer.
    pub user: usize,
    /// The guard page.
    pub guard: Span,
    /// The padding, of no length where there is none.
    pub pad: Span,
}

/// What is to be done with a mapping once its guard page was to be sealed.
#[derive(Clone, Copy, PartialEq, Eq, Debug, Structural)]
pub enum SealOutcome {
    /// The region is ready, once the padding has been filled with [`POISON`].
    Ready { poison: Span },
    /// The guard page could not be sealed: the mapping has to be given back.
    Abandon { unmap: Span },
}

/// Buffer, padding and guard page of `geom` lie inside the mapping.
pub open spec fn parts_inside(size: int, geom: Geometry, page: int) -> bool {
    &&& geom.user_off + buffer_len(size) + geom.pad <= geom.map_len
    &&& geom.guard_off + page <= geom.map_len
}

/// The parts of a mapping at `base`.
pub open spec fn fenced_at(size: int, geom: Geometry, page: usize, base: usize) -> Fenced {
    Fenced {
        whole: Span { addr: base, len: geom.map_len },
        user: (base + geom.user_off) as usize,
        guard: Span { addr: (base + geom.guard_off) as usize, len: page },
        pad: Span { addr: (base + geom.user_off + buffer_len(size)) as usize, len: geom.pad },
    }
}

/// Takes the address at which `geom.map_len` bytes were mapped, or `None` where
/// that failed, and says where the parts of the region are. The guard page is
/// to be sealed next.
pub fn map_region(layout: Layout, geom: &Geometry, page: usize, mapped: Option<usize>) -> (r: Option<
    Fenced,
>)
    requires
        parts_inside(layout.size as int, *geom, page as int),
        mapped matches Some(base) ==> base + geom.map_len <= usize::MAX,
    ensures
        r == (match mapped {
            Some(base) => Some(fenced_at(layout.size as int, *geom, page, base)),
            None => None,
        }),
{
    match mapped {
        Some(base) => {
            let len: usize = if layout.size < 1 {
                1
            } else {
                layout.size
            };
            let user: usize = base + geom.user_off;
            Some(
                Fenced {
                    whole: Span { addr: base, len: geom.map_len },
                    user,
                    guard: Span { addr: base + geom.guard_off, len: page },
                    pad: Span { addr: user + len, len: geom.pad },
                },
            )
        },
        None => None,
    }
}

/// Takes whether the guard page of `region` could be sealed, and says what is
/// to be done next.
pub fn seal_region(region: &Fenced, sealed: bool) -> (r: SealOutcome)
    ensures
        r == (if sealed {
            SealOutcome::Ready { poison: region.pad }
        } else {
            SealOutcome::Abandon { unmap: region.whole }
        }),
{
    if sealed {
        SealOutcome::Ready { poison: region.pad }
    } else {
        SealOutcome::Abandon { unmap: region.whole }
    }
}

/// Where the padding of the buffer at `user_ptr` lies.
pub fn padding(user_ptr: usize, layout: Layout, mode: Mode, page: usize) -> (pad: Span)
    requires
        fenceable(layout.size as int, layout.align as int, page as int),
        user_ptr + buffer_len(layout.size as int) <= usize::MAX,
    ensures
        pad.addr == user_ptr + buffer_len(layout.size as int),
        pad.len == geometry(layout.size as int, layout.align as int, mode, page as int).pad,
{
    let geom = region_geometry(layout, mode, page);
    let len: usize = if layout.size < 1 {
        1
    } else {
        layout.size
    };
    Span { addr: user_ptr + len, len: geom.pad }
}

/// What is reported of padding that holds these bytes.
pub open spec fn padding_report(pad: Seq<u8>) -> Option<Seq<char>> {
    if exists|i: int| 0 <= i < pad.len() && pad[i] != POISON {
        Some(PADDING_REPORT@)
    } else {
        None
    }
}

/// Takes the bytes of the padding of a buffer that is being freed, and returns
/// a report if one of them was overwritten.
pub fn check_padding(pad: &[u8]) -> (report: Option<&'static str>)
    ensures
        text::optional(report) == padding_report(pad@),
        (forall|i: int| 0 <= i < pad@.len() ==> pad@[i] == POISON) ==> report is None,
        (exists|i: int| 0 <= i < pad@.len() && pad@[i] != POISON) ==> (report matches Some(t) && t@
            == PADDING_REPORT@),
{
    let mut i: usize = 0;
    while i < pad.len()
        invariant
            i <= pad@.len(),
            forall|j: int| 0 <= j < i ==> pad@[j] == POISON,
        decreases pad@.len() - i,
    {
        if pad[i] != POISON {
            return Some(PADDING_REPORT);
        }
        i = i + 1;
    }
    None
}

/// The user pointer honours the requested alignment, and the guard page and the
/// mapping's end lie on page boundaries, wherever the mapping is placed.
pub proof fn alignment_is_respected(size: usize, align: usize, mode: Mode, page: usize, base: int)
    requires
        fenceable(size as int, align as int, page as int),
        base % (page as int) == 0,
    ensures
        ({
            let g = geometry(size as int, align as int, mode, page as int);
            &&& g.user_off % align == 0
            &&& g.guard_off % page == 0
            &&& g.map_len % page == 0
            &&& (base + g.user_off) % (align as int) == 0
            &&& (base + g.guard_off) % (page as int) == 0
            &&& (base + g.map_len) % (page as int) == 0
        }),
{
    let p = page as int;
    let a = align as int;
    bits::lemma_pow2_divides(a, p);
    bits::lemma_up_to_multiple(buffer_len(size as int), p);
    let data = data_len(size as int, p);
    bits::lemma_down_to_multiple(data - buffer_len(size as int), a);
    let g = geometry(size as int, align as int, mode, p);
    lemma_mod_self_0(p);
    bits::lemma_multiples(p, 0, a, p);
    bits::lemma_multiples(data, p, p, p);
    bits::lemma_multiples(base, g.user_off as int, a, p);
    bits::lemma_multiples(base, g.guard_off as int, p, p);
    bits::lemma_multiples(base, g.map_len as int, p, p);
}

/// Buffer and padding lie inside the mapping and share no byte with the guard
/// page, which lies inside the mapping too.
pub proof fn parts_are_disjoint(size: usize, align: usize, mode: Mode, page: usize)
    requires
        fenceable(size as int, align as int, page as int),
    ensures
        ({
            let g = geometry(size as int, align as int, mode, page as int);
            let end = g.user_off + buffer_len(size as int) + g.pad;
            &&& parts_inside(size as int, g, page as int)
            &&& end <= g.guard_off || g.guard_off + page <= g.user_off
        }),
{
    bits::lemma_pow2_divides(align as int, page as int);
    bits::lemma_up_to_multiple(buffer_len(size as int), page as int);
    let data = data_len(size as int, page as int);
    bits::lemma_down_to_multiple(data - buffer_len(size as int), align as int);
}

/// In `Above` mode buffer and padding end exactly where the guard page starts.
/// The padding is shorter than the alignment, and there is none where the
/// alignment divides the buffer's size: then the first byte past the end is the
/// first byte of the guard page.
pub proof fn above_buffer_abuts_guard(size: usize, align: usize, page: usize)
    requires
        fenceable(size as int, align as int, page as int),
    ensures
        ({
            let g = geometry(size as int, align as int, Mode::Above, page as int);
            &&& g.user_off + buffer_len(size as int) + g.pad == g.guard_off
            &&& g.pad < align
            &&& buffer_len(size as int) % (align as int) == 0 ==> g.pad == 0
        }),
{
    let s = buffer_len(size as int);
    let a = align as int;
    let p = page as int;
    bits::lemma_pow2_divides(a, p);
    bits::lemma_up_to_multiple(s, p);
    let data = data_len(size as int, p);
    bits::lemma_down_to_multiple(data - s, a);
    if s % a == 0 {
        bits::lemma_multiples(data, 0, a, p);
        lemma_sub_mod_noop(data, s, a);
        lemma_small_mod(0, a as nat);
    }
}

/// In `Below` mode the buffer starts exactly where the guard page ends: the last
/// byte before the buffer is the last byte of the guard page.
pub proof fn below_buffer_abuts_guard(size: usize, align: usize, page: usize)
    requires
        fenceable(size as int, align as int, page as int),
    ensures
        ({
            let g = geometry(size as int, align as int, Mode::Below, page as int);
            &&& g.guard_off + page == g.user_off
            &&& g.pad == 0
        }),
{
    bits::lemma_pow2_divides(align as int, page as int);
    bits::lemma_up_to_multiple(buffer_len(size as int), page as int);
}

/// A free that is given the same layout finds the padding where the allocation
/// poisoned it, and recovers the mapping from the user pointer.
pub proof fn free_recovers_mapping(layout: Layout, mode: Mode, page: usize, base: usize)
    requires
        fenceable(layout.size as int, layout.align as int, page as int),
        base + geometry(layout.size as int, layout.align as int, mode, page as int).map_len
            <= usize::MAX,
    ensures
        ({
            let g = geometry(layout.size as int, layout.align as int, mode, page as int);
            let f = fenced_at(layout.size as int, g, page, base);
            &&& f.pad.addr == f.user + buffer_len(layout.size as int)
            &&& f.pad.len == g.pad
            &&& f.whole.addr == f.user - g.user_off
            &&& f.whole.len == g.map_len
        }),
{
    parts_are_disjoint(layout.size, layout.align, mode, page);
}

} // verus!
