//! Text helpers: bytes against literals, substrings, prefixes, and numbers.

use vstd::prelude::*;
use vstd::arithmetic::div_mod::*;
use vstd::arithmetic::mul::*;

verus! {

/// The bytes of an ASCII text.
pub open spec fn ascii(text: Seq<char>) -> Seq<u8> {
    text.map_values(|c: char| c as u8)
}

/// An optional text as a sequence.
pub open spec fn optional(text: Option<&str>) -> Option<Seq<char>> {
    match text {
        Some(t) => Some(t@),
        None => None,
    }
}

/// `text` has `part` in it, at position `i`.
pub open spec fn has_at(text: Seq<char>, part: Seq<char>, i: int) -> bool {
    0 <= i <= text.len() - part.len() && text.subrange(i, i + part.len()) == part
}

/// `text` has `part` in it.
pub open spec fn has(text: Seq<char>, part: Seq<char>) -> bool {
    exists|i: int| has_at(text, part, i)
}

/// `text` without the slashes that it starts with.
pub open spec fn without_leading_slashes(text: Seq<char>) -> Seq<char>
    decreases text.len(),
{
    if text.len() > 0 && text[0] == '/' {
        without_leading_slashes(text.drop_first())
    } else {
        text
    }
}

/// The character for a digit, up to hexadecimal.
pub open spec fn digit(d: int) -> char {
    if d < 10 {
        (('0' as int) + d) as char
    } else {
        (('a' as int) + d - 10) as char
    }
}

/// `v` written in `radix`, without leading zeroes.
pub open spec fn number(v: int, radix: int) -> Seq<char>
    decreases v,
{
    if v < radix || radix < 2 {
        seq![digit(v)]
    } else {
        proof {
            if v > 0 {
                lemma_div_decreases(v, radix);
                lemma_div_pos_is_pos(v, radix);
            }
        }
        number(v / radix, radix).push(digit(v % radix))
    }
}

/// Whether `bytes` are those of `text`, an ASCII text.
pub fn is_text(bytes: &[u8], text: &str) -> (r: bool)
    requires
        text.is_ascii(),
    ensures
        r == (bytes@ == ascii(text@)),
{
    let other = text.as_bytes();
    proof {
        vstd::string::is_ascii_spec_bytes(text);
        assert(other@ =~= ascii(text@));
    }
    if bytes.len() != other.len() {
        return false;
    }
    let mut i: usize = 0;
    while i < bytes.len()
        invariant
            i <= bytes@.len(),
            bytes@.len() == other@.len(),
            other@ == ascii(text@),
            forall|j: int| 0 <= j < i ==> bytes@[j] == other@[j],
        decreases bytes@.len() - i,
    {
        if bytes[i] != other[i] {
            return false;
        }
        i = i + 1;
    }
    assert(bytes@ =~= other@);
    true
}

/// Whether `text` has `part` at position `at`.
fn matches_at(text: &str, part: &str, at: usize) -> (r: bool)
    requires
        at + part@.len() <= text@.len() <= usize::MAX,
    ensures
        r == has_at(text@, part@, at as int),
{
    let n: usize = part.unicode_len();
    let mut i: usize = 0;
    while i < n
        invariant
            i <= n,
            n == part@.len(),
            at + part@.len() <= text@.len() <= usize::MAX,
            forall|j: int| 0 <= j < i ==> text@[at + j] == part@[j],
        decreases n - i,
    {
        if text.get_char(at + i) != part.get_char(i) {
            proof {
                assert(text@.subrange(at as int, at + part@.len())[i as int] != part@[i as int]);
            }
            return false;
        }
        i = i + 1;
    }
    assert(text@.subrange(at as int, at + part@.len()) =~= part@);
    true
}

/// Whether `text` has `part` in it.
pub fn contains(text: &str, part: &str) -> (r: bool)
    ensures
        r == has(text@, part@),
{
    let n: usize = text.unicode_len();
    let m: usize = part.unicode_len();
    if m > n {
        return false;
    }
    let last: usize = n - m;
    let mut i: usize = 0;
    while i < last
        invariant
            n == text@.len(),
            m == part@.len(),
            last == n - m,
            i <= last,
            m <= n,
            forall|j: int| 0 <= j < i ==> !has_at(text@, part@, j),
        decreases last - i,
    {
        if matches_at(text, part, i) {
            return true;
        }
        i = i + 1;
    }
    matches_at(text, part, last)
}

/// `path` is `dir` or lies in it: it starts with `dir`, and that ends where a
/// component of the path does.
pub open spec fn lies_in(path: Seq<char>, dir: Seq<char>) -> bool {
    &&& has_at(path, dir, 0)
    &&& {
        ||| dir.len() == 0
        ||| dir.len() == path.len()
        ||| dir.last() == '/'
        ||| path[dir.len() as int] == '/'
    }
}

/// `path` relative to the directory `dir`: where it lies in `dir`, what follows
/// that, without the slashes between. Any other path stays as it is.
pub open spec fn relative(path: Seq<char>, dir: Option<Seq<char>>) -> Seq<char> {
    match dir {
        Some(d) => if lies_in(path, d) {
            without_leading_slashes(path.skip(d.len() as int))
        } else {
            path
        },
        None => path,
    }
}

/// Makes `path` relative to `cwd`.
pub fn relativize<'a>(path: &'a str, cwd: Option<&str>) -> (r: &'a str)
    ensures
        r@ == relative(path@, optional(cwd)),
{
    if let Some(c) = cwd {
        let n: usize = path.unicode_len();
        let m: usize = c.unicode_len();
        if m <= n && matches_at(path, c, 0) && (m == 0 || m == n || c.get_char(m - 1) == '/'
            || path.get_char(m) == '/') {
            let mut i: usize = m;
            while i < n && path.get_char(i) == '/'
                invariant
                    n == path@.len(),
                    m <= i <= n,
                    without_leading_slashes(path@.skip(m as int)) == without_leading_slashes(
                        path@.skip(i as int),
                    ),
                decreases n - i,
            {
                proof {
                    assert(path@.skip(i as int).drop_first() =~= path@.skip(i + 1));
                }
                i = i + 1;
            }
            proof {
                assert(path@.subrange(i as int, n as int) =~= path@.skip(i as int));
            }
            return path.substring_char(i, n);
        }
    }
    path
}

/// A path that was made relative names the same file: put behind the directory
/// and a slash, it is the path again, but for repeated slashes between the two.
pub proof fn relative_path_names_the_file(path: Seq<char>, dir: Seq<char>)
    ensures
        lies_in(path, dir) ==> exists|n: nat|
            path == dir + #[trigger] slashes(n) + relative(path, Some(dir)),
        lies_in(path, dir) && dir.len() > 0 && dir.last() != '/' && dir.len() < path.len()
            ==> exists|n: nat|
            n > 0 && path == dir + #[trigger] slashes(n) + relative(path, Some(dir)),
        !lies_in(path, dir) ==> relative(path, Some(dir)) == path,
{
    if lies_in(path, dir) {
        let rest = path.skip(dir.len() as int);
        let n = lemma_leading_slashes(rest);
        assert(path.subrange(0, dir.len() as int) =~= dir);
        assert(path =~= dir + rest);
        assert(dir + (slashes(n) + without_leading_slashes(rest)) =~= dir + slashes(n)
            + without_leading_slashes(rest));
        assert(path == dir + slashes(n) + relative(path, Some(dir)));
    }
}

/// A row of slashes.
pub open spec fn slashes(n: nat) -> Seq<char> {
    Seq::new(n, |i: int| '/')
}

/// The slashes that a text starts with are a row of them.
proof fn lemma_leading_slashes(text: Seq<char>) -> (n: nat)
    ensures
        text == slashes(n) + without_leading_slashes(text),
        text.len() > 0 && text[0] == '/' ==> n > 0,
    decreases text.len(),
{
    if text.len() > 0 && text[0] == '/' {
        let m = lemma_leading_slashes(text.drop_first());
        assert(text =~= seq!['/'] + text.drop_first());
        assert(slashes(m + 1) =~= seq!['/'] + slashes(m));
        assert(seq!['/'] + (slashes(m) + without_leading_slashes(text.drop_first()))
            =~= slashes(m + 1) + without_leading_slashes(text));
        m + 1
    } else {
        assert(text =~= slashes(0) + without_leading_slashes(text));
        0
    }
}

/// The value that `text` stands for in `radix`.
pub open spec fn value(text: Seq<char>, radix: int) -> int
    decreases text.len(),
{
    if text.len() == 0 {
        0
    } else {
        value(text.drop_last(), radix) * radix + digit_value(text.last())
    }
}

/// The value of a digit's character.
pub open spec fn digit_value(c: char) -> int {
    if c <= '9' {
        c as int - '0' as int
    } else {
        c as int - 'a' as int + 10
    }
}

/// A number reads back as itself, and only zero is written with a leading zero.
pub proof fn number_reads_back(v: int, radix: int)
    requires
        0 <= v,
        2 <= radix <= 16,
    ensures
        value(number(v, radix), radix) == v,
        number(v, radix).len() > 0,
        v > 0 ==> number(v, radix)[0] != '0',
    decreases v,
{
    reveal_with_fuel(value, 2);
    if v < radix {
        assert(number(v, radix).drop_last() =~= Seq::<char>::empty());
    } else {
        lemma_div_decreases(v, radix);
        lemma_div_non_zero(v, radix);
        lemma_mod_bound(v, radix);
        lemma_fundamental_div_mod(v, radix);
        lemma_mul_is_commutative(v / radix, radix);
        number_reads_back(v / radix, radix);
        assert(number(v, radix).drop_last() =~= number(v / radix, radix));
    }
}

/// Two numbers that are written alike are the same.
pub proof fn number_is_injective(v: int, w: int, radix: int)
    requires
        0 <= v,
        0 <= w,
        2 <= radix <= 16,
        number(v, radix) == number(w, radix),
    ensures
        v == w,
{
    number_reads_back(v, radix);
    number_reads_back(w, radix);
}

/// The least number that takes more than `n` digits in `radix`.
pub open spec fn limit(radix: int, n: nat) -> int
    decreases n,
{
    if n == 0 {
        1
    } else {
        radix * limit(radix, (n - 1) as nat)
    }
}

/// A number below the limit for `n` digits takes no more than `n`, all of them
/// ASCII.
pub proof fn lemma_number_bounded(v: int, radix: int, n: nat)
    requires
        0 <= v < limit(radix, n),
        2 <= radix <= 16,
        1 <= n,
    ensures
        number(v, radix).len() <= n,
        vstd::utf8::is_ascii_chars(number(v, radix)),
    decreases n,
{
    if v >= radix {
        let m = (n - 1) as nat;
        lemma_fundamental_div_mod(v, radix);
        lemma_mod_bound(v, radix);
        lemma_div_pos_is_pos(v, radix);
        let q = v / radix;
        let l = limit(radix, m);
        assert(q < l) by (nonlinear_arith)
            requires
                radix * q <= v,
                v < radix * l,
                0 < radix,
        ;
        if m == 0 {
            assert(l == 1);
            assert(q >= 1) by (nonlinear_arith)
                requires
                    v == radix * q + v % radix,
                    v % radix < radix,
                    v >= radix,
                    radix > 0,
            ;
        }
        lemma_number_bounded(q, radix, m);
    }
}

} // verus!
