//! Output primitives of the post-mortem: text and numbers are appended to a
//! buffer, which needs no memory of its own as long as it was made large
//! enough.

use vstd::prelude::*;
use vstd::arithmetic::div_mod::*;
use crate::text;

verus! {

/// `v` in hexadecimal, as the report writes it.
pub open spec fn hex_text(v: int) -> Seq<char> {
    "0x"@ + text::number(v, 16)
}

/// `v` in decimal.
pub open spec fn dec_text(v: int) -> Seq<char> {
    text::number(v, 10)
}

/// Appends `s` as it is.
pub fn write_str(out: &mut String, s: &str)
    ensures
        final(out)@ == old(out)@ + s@,
{
    out.append(s);
}

/// Appends `v` as `0x` and hexadecimal digits, without leading zeroes.
pub fn write_hex(out: &mut String, v: usize)
    ensures
        final(out)@ == old(out)@ + hex_text(v as int),
{
    write_str(out, "0x");
    write_number(out, v, 16);
    proof {
        assert(old(out)@ + hex_text(v as int) =~= (old(out)@ + "0x"@) + text::number(
            v as int,
            16,
        ));
    }
}

/// Appends `v` in decimal.
pub fn write_dec(out: &mut String, v: usize)
    ensures
        final(out)@ == old(out)@ + dec_text(v as int),
{
    write_number(out, v, 10);
}

/// Appends `v` in `radix`, most significant digit first.
fn write_number(out: &mut String, v: usize, radix: usize)
    requires
        2 <= radix <= 16,
    ensures
        final(out)@ == old(out)@ + text::number(v as int, radix as int),
    decreases v,
{
    if v < radix {
        write_str(out, digit_str(v));
    } else {
        proof {
            lemma_div_decreases(v as int, radix as int);
        }
        write_number(out, v / radix, radix);
        write_str(out, digit_str(v % radix));
        proof {
            let head = text::number(v as int / radix as int, radix as int);
            let d = text::digit(v as int % radix as int);
            assert(old(out)@ + head.push(d) =~= (old(out)@ + head) + seq![d]);
        }
    }
}

/// The text of one digit.
fn digit_str(d: usize) -> (s: &'static str)
    requires
        d < 16,
    ensures
        s@ == seq![text::digit(d as int)],
{
    proof {
        reveal_strlit("0");
        reveal_strlit("1");
        reveal_strlit("2");
        reveal_strlit("3");
        reveal_strlit("4");
        reveal_strlit("5");
        reveal_strlit("6");
        reveal_strlit("7");
        reveal_strlit("8");
        reveal_strlit("9");
        reveal_strlit("a");
        reveal_strlit("b");
        reveal_strlit("c");
        reveal_strlit("d");
        reveal_strlit("e");
        reveal_strlit("f");
    }
    match d {
        0 => "0",
        1 => "1",
        2 => "2",
        3 => "3",
        4 => "4",
        5 => "5",
        6 => "6",
        7 => "7",
        8 => "8",
        9 => "9",
        10 => "a",
        11 => "b",
        12 => "c",
        13 => "d",
        14 => "e",
        _ => "f",
    }
}

/// From where a part of `len` bytes is written on, after a `write` of those from
/// `off` on has returned `written`.
pub open spec fn after_write(len: int, off: int, written: int) -> Option<int> {
    if written > 0 && off + written < len {
        Some(off + written)
    } else {
        None
    }
}

/// No `write` of a row has put out more than it was given.
pub open spec fn within(len: int, off: int, results: Seq<isize>) -> bool
    decreases results.len(),
{
    results.len() > 0 ==> {
        &&& results[0] <= len - off
        &&& after_write(len, off, results[0] as int) matches Some(next) ==> within(
            len,
            next,
            results.drop_first(),
        )
    }
}

/// The bytes that a row of `write` calls puts out, the first of which is given
/// those of `part` from `off` on.
pub open spec fn put_out(part: Seq<u8>, off: int, results: Seq<isize>) -> Seq<u8>
    decreases results.len(),
{
    if results.len() == 0 || results[0] <= 0 {
        Seq::<u8>::empty()
    } else {
        let end = off + results[0];
        part.subrange(off, end) + match after_write(part.len() as int, off, results[0] as int) {
            Some(next) => put_out(part, next, results.drop_first()),
            None => Seq::<u8>::empty(),
        }
    }
}

/// The row goes on until nothing is left to try, and none of its calls fails.
pub open spec fn completes(len: int, off: int, results: Seq<isize>) -> bool
    decreases results.len(),
{
    results.len() > 0 && results[0] > 0 && match after_write(len, off, results[0] as int) {
        Some(next) => completes(len, next, results.drop_first()),
        None => true,
    }
}

/// However short the single writes are, the bytes of a part go out in order, and
/// none twice: what is out is the start of the part, and all of it once the row
/// has come to its end without a failure.
pub proof fn short_writes_put_out_the_part(part: Seq<u8>, off: int, results: Seq<isize>)
    requires
        0 <= off < part.len(),
        within(part.len() as int, off, results),
    ensures
        ({
            let out = put_out(part, off, results);
            &&& off + out.len() <= part.len()
            &&& out == part.subrange(off, off + out.len())
            &&& completes(part.len() as int, off, results) ==> out == part.skip(off)
        }),
    decreases results.len(),
{
    let out = put_out(part, off, results);
    if results.len() > 0 && results[0] > 0 {
        match after_write(part.len() as int, off, results[0] as int) {
            Some(next) => {
                short_writes_put_out_the_part(part, next, results.drop_first());
                assert(out =~= part.subrange(off, off + out.len()));
                if completes(part.len() as int, off, results) {
                    assert(out =~= part.skip(off));
                }
            },
            None => {
                assert(out =~= part.subrange(off, off + out.len()));
                assert(out =~= part.skip(off));
            },
        }
    } else {
        assert(out =~= part.subrange(off, off + out.len()));
    }
}

/// The texts to write, as sequences of bytes.
pub open spec fn bytes_of(parts: Seq<&[u8]>) -> Seq<Seq<u8>> {
    parts.map_values(|part: &[u8]| part@)
}

/// A place in a row of parts: byte `off` of part number `part`.
#[derive(Clone, Copy, PartialEq, Eq, Debug, Structural)]
pub struct WriteAt {
    pub part: usize,
    pub off: usize,
}

/// The start of the first part from number `from` on that has any bytes.
pub open spec fn start_from(parts: Seq<Seq<u8>>, from: int) -> Option<WriteAt>
    decreases parts.len() - from,
{
    if from >= parts.len() {
        None
    } else if parts[from].len() > 0 {
        Some(WriteAt { part: from as usize, off: 0 })
    } else {
        start_from(parts, from + 1)
    }
}

/// Where to go on after a `write` of the bytes from `at` to the end of its part
/// has returned `written`: in the same part if that is not complete, else at the
/// start of the next one. A write that fails gives up the rest of its part.
pub open spec fn go_on(parts: Seq<Seq<u8>>, at: WriteAt, written: int) -> Option<WriteAt> {
    match after_write(parts[at.part as int].len() as int, at.off as int, written) {
        Some(off) => Some(WriteAt { part: at.part, off: off as usize }),
        None => start_from(parts, at.part + 1),
    }
}

/// The place lies in a part.
pub open spec fn lies_in(parts: Seq<Seq<u8>>, at: WriteAt) -> bool {
    at.part < parts.len() && at.off < parts[at.part as int].len()
}

/// The bytes that a row of `write` calls puts out, the first of which is given
/// those from `at` to the end of its part, and each further one those that
/// [`go_on`] says.
pub open spec fn sent(parts: Seq<Seq<u8>>, at: Option<WriteAt>, results: Seq<isize>) -> Seq<u8>
    decreases results.len(),
{
    match at {
        Some(w) => if results.len() == 0 {
            Seq::<u8>::empty()
        } else {
            (if results[0] > 0 {
                parts[w.part as int].subrange(w.off as int, w.off + results[0])
            } else {
                Seq::<u8>::empty()
            }) + sent(parts, go_on(parts, w, results[0] as int), results.drop_first())
        },
        None => Seq::<u8>::empty(),
    }
}

/// Where a row of `write` calls ends.
pub open spec fn arrives(
    parts: Seq<Seq<u8>>,
    at: Option<WriteAt>,
    results: Seq<isize>,
) -> Option<WriteAt>
    decreases results.len(),
{
    match at {
        Some(w) => if results.len() == 0 {
            at
        } else {
            arrives(parts, go_on(parts, w, results[0] as int), results.drop_first())
        },
        None => None,
    }
}

/// `results` are those of the calls for one part, all of them: the last call is
/// the one after which nothing is left to try. A part without bytes has no call.
pub open spec fn ends(len: int, off: int, results: Seq<isize>) -> bool
    decreases results.len(),
{
    if len == 0 {
        results.len() == 0
    } else {
        results.len() > 0 && match after_write(len, off, results[0] as int) {
            Some(next) => ends(len, next, results.drop_first()),
            None => results.len() == 1,
        }
    }
}

/// Each part has the results of its own calls.
pub open spec fn calls_for(parts: Seq<Seq<u8>>, results: Seq<Seq<isize>>) -> bool {
    &&& results.len() == parts.len()
    &&& forall|k: int|
        0 <= k < parts.len() ==> {
            &&& ends(parts[k].len() as int, 0, #[trigger] results[k])
            &&& within(parts[k].len() as int, 0, results[k])
        }
}

/// What is put out of each part.
pub open spec fn put_out_each(parts: Seq<Seq<u8>>, results: Seq<Seq<isize>>) -> Seq<Seq<u8>> {
    Seq::new(parts.len(), |k: int| put_out(parts[k], 0, results[k]))
}

/// Parts go out one after the other: what is put out is the start of the first,
/// then that of the second, and so on. A part that meets with a failed write
/// leaves the next ones whole, and one without bytes causes no write.
pub proof fn parts_go_out_in_order(parts: Seq<Seq<u8>>, results: Seq<Seq<isize>>)
    requires
        parts.len() <= usize::MAX,
        forall|k: int| 0 <= k < parts.len() ==> (#[trigger] parts[k]).len() <= usize::MAX,
        calls_for(parts, results),
    ensures
        sent(parts, start_from(parts, 0), results.flatten()) == put_out_each(
            parts,
            results,
        ).flatten(),
        arrives(parts, start_from(parts, 0), results.flatten()) is None,
        forall|k: int|
            0 <= k < parts.len() ==> {
                let out = #[trigger] put_out_each(parts, results)[k];
                &&& out.len() <= parts[k].len()
                &&& out == parts[k].take(out.len() as int)
                &&& (parts[k].len() == 0 ==> results[k].len() == 0)
                &&& completes(parts[k].len() as int, 0, results[k]) ==> out == parts[k]
            },
{
    lemma_parts_from(parts, results, 0);
    assert(results.skip(0) =~= results);
    assert(put_out_each(parts, results).skip(0) =~= put_out_each(parts, results));
    assert forall|k: int| 0 <= k < parts.len() implies {
        let out = #[trigger] put_out_each(parts, results)[k];
        &&& out.len() <= parts[k].len()
        &&& out == parts[k].take(out.len() as int)
        &&& (parts[k].len() == 0 ==> results[k].len() == 0)
        &&& completes(parts[k].len() as int, 0, results[k]) ==> out == parts[k]
    } by {
        assert(ends(parts[k].len() as int, 0, results[k]));
        let out = put_out(parts[k], 0, results[k]);
        if parts[k].len() > 0 {
            short_writes_put_out_the_part(parts[k], 0, results[k]);
            assert(parts[k].skip(0) =~= parts[k]);
        } else {
            assert(out =~= parts[k].take(0));
        }
    }
}

/// Where no write fails, the parts come out whole, one after the other.
pub proof fn parts_come_out_whole(parts: Seq<Seq<u8>>, results: Seq<Seq<isize>>)
    requires
        parts.len() <= usize::MAX,
        forall|k: int| 0 <= k < parts.len() ==> (#[trigger] parts[k]).len() <= usize::MAX,
        calls_for(parts, results),
        forall|k: int, i: int|
            0 <= k < parts.len() && 0 <= i < results[k].len() ==> #[trigger] results[k][i] > 0,
    ensures
        sent(parts, start_from(parts, 0), results.flatten()) == parts.flatten(),
{
    parts_go_out_in_order(parts, results);
    assert forall|k: int| 0 <= k < parts.len() implies put_out_each(parts, results)[k]
        == parts[k] by {
        let out = put_out_each(parts, results)[k];
        assert(ends(parts[k].len() as int, 0, results[k]));
        if parts[k].len() > 0 {
            lemma_ends_completes(parts[k].len() as int, 0, results[k]);
        } else {
            assert(out =~= parts[k]);
        }
    }
    assert(put_out_each(parts, results) =~= parts);
}

proof fn lemma_ends_completes(len: int, off: int, results: Seq<isize>)
    requires
        len > 0,
        ends(len, off, results),
        forall|i: int| 0 <= i < results.len() ==> #[trigger] results[i] > 0,
    ensures
        completes(len, off, results),
    decreases results.len(),
{
    if let Some(next) = after_write(len, off, results[0] as int) {
        let rest = results.drop_first();
        assert forall|i: int| 0 <= i < rest.len() implies #[trigger] rest[i] > 0 by {
            assert(results[i + 1] > 0);
        }
        lemma_ends_completes(len, next, rest);
    }
}

proof fn lemma_parts_from(parts: Seq<Seq<u8>>, results: Seq<Seq<isize>>, k: int)
    requires
        parts.len() <= usize::MAX,
        forall|k: int| 0 <= k < parts.len() ==> (#[trigger] parts[k]).len() <= usize::MAX,
        calls_for(parts, results),
        0 <= k <= parts.len(),
    ensures
        sent(parts, start_from(parts, k), results.skip(k).flatten()) == put_out_each(
            parts,
            results,
        ).skip(k).flatten(),
        arrives(parts, start_from(parts, k), results.skip(k).flatten()) is None,
    decreases parts.len() - k,
{
    let each = put_out_each(parts, results);
    if k == parts.len() {
        assert(each.skip(k) =~= Seq::<Seq<u8>>::empty());
    } else {
        lemma_parts_from(parts, results, k + 1);
        assert(results.skip(k).drop_first() =~= results.skip(k + 1));
        assert(each.skip(k).drop_first() =~= each.skip(k + 1));
        assert(results.skip(k).first() == results[k]);
        assert(each.skip(k).first() == put_out(parts[k], 0, results[k]));
        let tail = results.skip(k + 1).flatten();
        assert(ends(parts[k].len() as int, 0, results[k]));
        if parts[k].len() == 0 {
            assert(results[k] + tail =~= tail);
            assert(put_out(parts[k], 0, results[k]) + each.skip(k + 1).flatten() =~= each.skip(
                k + 1,
            ).flatten());
        } else {
            lemma_part(parts, WriteAt { part: k as usize, off: 0 }, results[k], tail);
        }
    }
}

/// The calls for one part, and those that follow.
proof fn lemma_part(parts: Seq<Seq<u8>>, at: WriteAt, results: Seq<isize>, tail: Seq<isize>)
    requires
        lies_in(parts, at),
        parts[at.part as int].len() <= usize::MAX,
        ends(parts[at.part as int].len() as int, at.off as int, results),
        within(parts[at.part as int].len() as int, at.off as int, results),
    ensures
        sent(parts, Some(at), results + tail) == put_out(
            parts[at.part as int],
            at.off as int,
            results,
        ) + sent(parts, start_from(parts, at.part + 1), tail),
        arrives(parts, Some(at), results + tail) == arrives(
            parts,
            start_from(parts, at.part + 1),
            tail,
        ),
    decreases results.len(),
{
    let part = parts[at.part as int];
    let w = results[0];
    let all = results + tail;
    let rest = sent(parts, start_from(parts, at.part + 1), tail);
    assert(all[0] == w);
    assert(all.drop_first() =~= results.drop_first() + tail);
    match after_write(part.len() as int, at.off as int, w as int) {
        Some(off) => {
            let next = WriteAt { part: at.part, off: off as usize };
            lemma_part(parts, next, results.drop_first(), tail);
            assert(part.subrange(at.off as int, at.off + w) + (put_out(
                part,
                off,
                results.drop_first(),
            ) + rest) =~= part.subrange(at.off as int, at.off + w) + put_out(
                part,
                off,
                results.drop_first(),
            ) + rest);
        },
        None => {
            assert(results.drop_first() + tail =~= tail);
            if w > 0 {
                assert(put_out(part, at.off as int, results) =~= part.subrange(
                    at.off as int,
                    at.off + w,
                ));
            } else {
                assert(put_out(part, at.off as int, results) =~= Seq::<u8>::empty());
            }
        },
    }
}

/// Finds the start of the first part from number `from` on that has any bytes.
fn find_start(parts: &[&[u8]], from: usize) -> (at: Option<WriteAt>)
    requires
        from <= parts@.len(),
    ensures
        at == start_from(bytes_of(parts@), from as int),
        at matches Some(w) ==> lies_in(bytes_of(parts@), w),
{
    let mut k: usize = from;
    while k < parts.len()
        invariant
            from <= k <= parts@.len(),
            start_from(bytes_of(parts@), k as int) == start_from(bytes_of(parts@), from as int),
        decreases parts@.len() - k,
    {
        let part: &[u8] = parts[k];
        proof {
            assert(bytes_of(parts@)[k as int] == part@);
        }
        if part.len() > 0 {
            return Some(WriteAt { part: k, off: 0 });
        }
        k = k + 1;
    }
    None
}

/// Says where writing a row of parts starts: parts without bytes are passed over.
pub fn first_write(parts: &[&[u8]]) -> (at: Option<WriteAt>)
    ensures
        at == start_from(bytes_of(parts@), 0),
        at matches Some(w) ==> lies_in(bytes_of(parts@), w),
{
    find_start(parts, 0)
}

/// Takes what one `write` of the bytes from `at` to the end of its part returned,
/// and says from where to go on. Nothing is left to write, or to try, where it
/// returns `None`.
pub fn raw_write_fd(parts: &[&[u8]], at: WriteAt, written: isize) -> (next: Option<WriteAt>)
    requires
        lies_in(bytes_of(parts@), at),
        written <= bytes_of(parts@)[at.part as int].len() - at.off,
    ensures
        next == go_on(bytes_of(parts@), at, written as int),
        next matches Some(w) ==> lies_in(bytes_of(parts@), w),
{
    let part: &[u8] = parts[at.part];
    proof {
        assert(bytes_of(parts@)[at.part as int] == part@);
    }
    let len: usize = part.len();
    if written > 0 {
        let off: usize = at.off + written as usize;
        if off < len {
            return Some(WriteAt { part: at.part, off });
        }
    }
    find_start(parts, at.part + 1)
}

} // verus!
