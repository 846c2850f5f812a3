//! Reading command-line literals: index lists such as `0|1|2`, and hashes
//! written as `0x`-prefixed hex or as comma-separated decimal bytes, each
//! padded with zero bytes to 32.
use crate::tree::Hash256;
use vstd::prelude::*;
use vstd::string::StringSliceAdditionalSpecFns;

verus! {

/// Why a literal could not be read.
#[derive(Debug, Clone, Copy, PartialEq, Eq, Structural)]
pub enum ParseError {
    /// An index is not a decimal number that fits a `usize`.
    NotANumber,
    /// A two-digit group after `0x` is not a hex byte.
    NotHex,
    /// A comma-separated entry is not a decimal byte.
    NotAByte,
    /// The literal holds more than 32 bytes.
    TooLong,
}

/// ASCII whitespace: space, tab, line feed, vertical tab, form feed, carriage return.
pub open spec fn is_space(b: u8) -> bool {
    b == 32 || (9 <= b && b <= 13)
}

/// Whether three bytes encode a whitespace character at or above U+0800:
/// U+1680, U+2000 to U+200A, U+2028, U+2029, U+202F, U+205F, U+3000.
pub open spec fn is_wide_space(a: u8, b: u8, c: u8) -> bool {
    (a == 0xE1 && b == 0x9A && c == 0x80) || (a == 0xE2 && b == 0x80 && ((0x80 <= c && c <= 0x8A)
        || c == 0xA8 || c == 0xA9 || c == 0xAF)) || (a == 0xE2 && b == 0x81 && c == 0x9F) || (a
        == 0xE3 && b == 0x80 && c == 0x80)
}

/// Whether two bytes encode U+0085 or U+00A0.
pub open spec fn is_narrow_space(a: u8, b: u8) -> bool {
    a == 0xC2 && (b == 0x85 || b == 0xA0)
}

/// The length in bytes of the whitespace character that `s` starts with, or 0.
pub open spec fn space_at_start(s: Seq<u8>) -> int {
    if s.len() >= 1 && is_space(s[0]) {
        1
    } else if s.len() >= 2 && is_narrow_space(s[0], s[1]) {
        2
    } else if s.len() >= 3 && is_wide_space(s[0], s[1], s[2]) {
        3
    } else {
        0
    }
}

/// The length in bytes of the whitespace character that `s` ends with, or 0.
pub open spec fn space_at_end(s: Seq<u8>) -> int {
    let n = s.len() as int;
    if n >= 1 && is_space(s[n - 1]) {
        1
    } else if n >= 2 && is_narrow_space(s[n - 2], s[n - 1]) {
        2
    } else if n >= 3 && is_wide_space(s[n - 3], s[n - 2], s[n - 1]) {
        3
    } else {
        0
    }
}

/// `s` without its leading whitespace.
pub open spec fn trim_start(s: Seq<u8>) -> Seq<u8>
    decreases s.len(),
{
    if space_at_start(s) > 0 {
        trim_start(s.subrange(space_at_start(s), s.len() as int))
    } else {
        s
    }
}

/// `s` without its trailing whitespace.
pub open spec fn trim_end(s: Seq<u8>) -> Seq<u8>
    decreases s.len(),
{
    if space_at_end(s) > 0 {
        trim_end(s.subrange(0, s.len() - space_at_end(s)))
    } else {
        s
    }
}

/// `s` without leading and trailing whitespace.
pub open spec fn trim(s: Seq<u8>) -> Seq<u8> {
    trim_end(trim_start(s))
}

/// The pieces of `s` between occurrences of `d`; `s` with no `d` is one piece.
pub open spec fn split(s: Seq<u8>, d: u8) -> Seq<Seq<u8>>
    decreases s.len(),
{
    if s.len() == 0 {
        seq![Seq::empty()]
    } else {
        let rest = split(s.drop_first(), d);
        if s[0] == d {
            seq![Seq::empty()] + rest
        } else {
            rest.update(0, seq![s[0]] + rest[0])
        }
    }
}

/// The value of a digit or letter as a digit: `0`-`9`, then `a`/`A` as 10 and on.
pub open spec fn digit_value(b: u8) -> int {
    if 48 <= b && b <= 57 {
        b - 48
    } else if 97 <= b && b <= 122 {
        b - 87
    } else if 65 <= b && b <= 90 {
        b - 55
    } else {
        99
    }
}

/// The number that the digits `s` write in base `radix`.
pub open spec fn digits_value(s: Seq<u8>, radix: nat) -> nat
    decreases s.len(),
{
    if s.len() == 0 {
        0
    } else {
        digits_value(s.drop_last(), radix) * radix + digit_value(s.last()) as nat
    }
}

/// The digits of `s`: `s` without one leading `+`.
pub open spec fn unsigned_digits(s: Seq<u8>) -> Seq<u8> {
    if s.len() > 0 && s[0] == 43 {
        s.drop_first()
    } else {
        s
    }
}

/// The unsigned number that `s` writes in base `radix`, with an optional
/// leading `+`, when it is at most `max`.
pub open spec fn parse_unsigned(s: Seq<u8>, radix: nat, max: nat) -> Option<nat> {
    let d = unsigned_digits(s);
    if d.len() > 0 && (forall|i: int| 0 <= i < d.len() ==> digit_value(d[i]) < radix)
        && digits_value(d, radix) <= max {
        Some(digits_value(d, radix))
    } else {
        None
    }
}

/// A piece as it is read: with surrounding whitespace removed when `trimmed`.
pub open spec fn piece_text(p: Seq<u8>, trimmed: bool) -> Seq<u8> {
    if trimmed {
        trim(p)
    } else {
        p
    }
}

/// The numbers written in the `delim`-separated pieces of `s`, when every
/// piece reads as one (see `parse_unsigned`).
pub open spec fn number_list(s: Seq<u8>, delim: u8, radix: nat, max: nat, trimmed: bool) -> Option<
    Seq<nat>,
> {
    let pieces = split(s, delim);
    if forall|i: int|
        0 <= i < pieces.len() ==> parse_unsigned(piece_text(pieces[i], trimmed), radix, max) is Some {
        Some(
            Seq::new(
                pieces.len(),
                |i: int| parse_unsigned(piece_text(pieces[i], trimmed), radix, max)->Some_0,
            ),
        )
    } else {
        None
    }
}

/// The indexes written in `s`: decimal numbers separated by `|`, with
/// whitespace allowed around each.
pub open spec fn index_list(s: Seq<u8>) -> Option<Seq<nat>> {
    number_list(trim(s), 124, 10, usize::MAX as nat, true)
}

/// `s` cut into groups of two bytes; the last group may hold one.
pub open spec fn hex_chunks(s: Seq<u8>) -> Seq<Seq<u8>>
    decreases s.len(),
{
    if s.len() == 0 {
        Seq::empty()
    } else if s.len() <= 2 {
        seq![s]
    } else {
        seq![s.subrange(0, 2)] + hex_chunks(s.subrange(2, s.len() as int))
    }
}

/// The bytes that the hex groups write, when each group reads as one.
pub open spec fn hex_bytes(chunks: Seq<Seq<u8>>) -> Option<Seq<u8>> {
    if forall|i: int| 0 <= i < chunks.len() ==> parse_unsigned(chunks[i], 16, 255) is Some {
        Some(Seq::new(chunks.len(), |i: int| parse_unsigned(chunks[i], 16, 255)->Some_0 as u8))
    } else {
        None
    }
}

/// `s` with every space removed.
pub open spec fn without_spaces(s: Seq<u8>) -> Seq<u8>
    decreases s.len(),
{
    if s.len() == 0 {
        s
    } else if s.last() == 32 {
        without_spaces(s.drop_last())
    } else {
        without_spaces(s.drop_last()).push(s.last())
    }
}

/// Whether `t` starts with `0x` or `0X` and has more after it.
pub open spec fn is_hex_literal(t: Seq<u8>) -> bool {
    t.len() > 2 && t[0] == 48 && (t[1] == 120 || t[1] == 88)
}

/// `v` followed by zero bytes up to 32 bytes.
pub open spec fn padded(v: Seq<u8>) -> Seq<u8> {
    v + Seq::new((32 - v.len()) as nat, |i: int| 0u8)
}

/// The hash that `s` writes: after trimming, either `0x` and hex digits read
/// two at a time, or decimal bytes separated by commas, with spaces ignored;
/// at most 32 bytes, padded with zeros.
pub open spec fn hash_value(s: Seq<u8>) -> Result<Seq<u8>, ParseError> {
    let t = trim(s);
    if is_hex_literal(t) {
        match hex_bytes(hex_chunks(t.subrange(2, t.len() as int))) {
            None => Err(ParseError::NotHex),
            Some(v) => if v.len() > 32 {
                Err(ParseError::TooLong)
            } else {
                Ok(padded(v))
            },
        }
    } else {
        match number_list(without_spaces(t), 44, 10, 255, false) {
            None => Err(ParseError::NotAByte),
            Some(v) => if v.len() > 32 {
                Err(ParseError::TooLong)
            } else {
                Ok(padded(Seq::new(v.len(), |i: int| v[i] as u8)))
            },
        }
    }
}

/// The `|`-separated pieces of `s` after trimming, each a hash literal.
pub open spec fn hash_pieces(s: Seq<u8>) -> Seq<Seq<u8>> {
    split(trim(s), 124)
}

proof fn lemma_split_nonempty(s: Seq<u8>, d: u8)
    ensures
        split(s, d).len() >= 1,
    decreases s.len(),
{
    if s.len() > 0 {
        lemma_split_nonempty(s.drop_first(), d);
    }
}

/// Splitting at the first `d` (at `j`), or finding none (`j` is the length).
proof fn lemma_split_at_first(s: Seq<u8>, d: u8, j: int)
    requires
        0 <= j <= s.len(),
        forall|k: int| 0 <= k < j ==> s[k] != d,
        j == s.len() || s[j] == d,
    ensures
        j == s.len() ==> split(s, d) == seq![s],
        j < s.len() ==> split(s, d) == seq![s.subrange(0, j)] + split(s.subrange(j + 1, s.len() as int), d),
    decreases j,
{
    if j == 0 {
        if s.len() == 0 {
            assert(s =~= Seq::<u8>::empty());
            assert(split(s, d) =~= seq![s]);
        } else {
            assert(s.subrange(1, s.len() as int) =~= s.drop_first());
            assert(s.subrange(0, 0) =~= Seq::<u8>::empty());
        }
    } else {
        let t = s.drop_first();
        assert forall|k: int| 0 <= k < j - 1 implies t[k] != d by {
            assert(t[k] == s[k + 1]);
        }
        lemma_split_at_first(t, d, j - 1);
        lemma_split_nonempty(t, d);
        assert(s[0] != d);
        assert(split(s, d) == split(t, d).update(0, seq![s[0]] + split(t, d)[0]));
        if j == s.len() {
            assert(seq![s[0]] + t =~= s);
            assert(split(s, d) =~= seq![s]);
        } else {
            assert(t.subrange(j, t.len() as int) =~= s.subrange(j + 1, s.len() as int));
            assert(seq![s[0]] + t.subrange(0, j - 1) =~= s.subrange(0, j));
            assert(split(s, d) =~= seq![s.subrange(0, j)] + split(s.subrange(j + 1, s.len() as int), d));
        }
    }
}

/// The length of the whitespace character at `b[lo..hi]`'s start.
fn space_len_at_start(b: &[u8], lo: usize, hi: usize) -> (r: usize)
    requires
        lo <= hi <= b@.len(),
    ensures
        r == space_at_start(b@.subrange(lo as int, hi as int)),
{
    let ghost s = b@.subrange(lo as int, hi as int);
    let n = hi - lo;
    if n >= 1 {
        assert(s[0] == b@[lo as int]);
    }
    if n >= 2 {
        assert(s[1] == b@[lo + 1]);
    }
    if n >= 3 {
        assert(s[2] == b@[lo + 2]);
    }
    if n >= 1 && (b[lo] == 32 || (9 <= b[lo] && b[lo] <= 13)) {
        1
    } else if n >= 2 && b[lo] == 0xC2 && (b[lo + 1] == 0x85 || b[lo + 1] == 0xA0) {
        2
    } else if n >= 3 && wide_space(b[lo], b[lo + 1], b[lo + 2]) {
        3
    } else {
        0
    }
}

/// The length of the whitespace character at `b[lo..hi]`'s end.
fn space_len_at_end(b: &[u8], lo: usize, hi: usize) -> (r: usize)
    requires
        lo <= hi <= b@.len(),
    ensures
        r == space_at_end(b@.subrange(lo as int, hi as int)),
{
    let ghost s = b@.subrange(lo as int, hi as int);
    let n = hi - lo;
    if n >= 1 {
        assert(s[n - 1] == b@[hi - 1]);
    }
    if n >= 2 {
        assert(s[n - 2] == b@[hi - 2]);
    }
    if n >= 3 {
        assert(s[n - 3] == b@[hi - 3]);
    }
    if n >= 1 && (b[hi - 1] == 32 || (9 <= b[hi - 1] && b[hi - 1] <= 13)) {
        1
    } else if n >= 2 && b[hi - 2] == 0xC2 && (b[hi - 1] == 0x85 || b[hi - 1] == 0xA0) {
        2
    } else if n >= 3 && wide_space(b[hi - 3], b[hi - 2], b[hi - 1]) {
        3
    } else {
        0
    }
}

/// Whether three bytes encode a whitespace character at or above U+0800.
fn wide_space(a: u8, b: u8, c: u8) -> (r: bool)
    ensures
        r == is_wide_space(a, b, c),
{
    (a == 0xE1 && b == 0x9A && c == 0x80) || (a == 0xE2 && b == 0x80 && ((0x80 <= c && c <= 0x8A)
        || c == 0xA8 || c == 0xA9 || c == 0xAF)) || (a == 0xE2 && b == 0x81 && c == 0x9F) || (a
        == 0xE3 && b == 0x80 && c == 0x80)
}

/// The bounds of `b[lo..hi]` without its leading and trailing whitespace.
fn trim_range(b: &[u8], lo: usize, hi: usize) -> (r: (usize, usize))
    requires
        lo <= hi <= b@.len(),
    ensures
        lo <= r.0 <= r.1 <= hi,
        trim(b@.subrange(lo as int, hi as int)) == b@.subrange(r.0 as int, r.1 as int),
{
    let mut i = lo;
    let mut n = space_len_at_start(b, i, hi);
    while n > 0
        invariant
            lo <= i <= hi <= b@.len(),
            n == space_at_start(b@.subrange(i as int, hi as int)),
            trim_start(b@.subrange(lo as int, hi as int)) == trim_start(b@.subrange(i as int, hi as int)),
        decreases hi - i,
    {
        proof {
            let u = b@.subrange(i as int, hi as int);
            assert(u.subrange(n as int, u.len() as int) =~= b@.subrange(i + n, hi as int));
        }
        i = i + n;
        n = space_len_at_start(b, i, hi);
    }
    let ghost u = b@.subrange(i as int, hi as int);
    assert(trim_start(b@.subrange(lo as int, hi as int)) == u);
    let mut j = hi;
    let mut m = space_len_at_end(b, i, j);
    while m > 0
        invariant
            lo <= i <= j <= hi <= b@.len(),
            u == b@.subrange(i as int, hi as int),
            m == space_at_end(b@.subrange(i as int, j as int)),
            trim_end(u) == trim_end(b@.subrange(i as int, j as int)),
        decreases j - i,
    {
        proof {
            let w = b@.subrange(i as int, j as int);
            assert(w.subrange(0, w.len() - m) =~= b@.subrange(i as int, j - m));
        }
        j = j - m;
        m = space_len_at_end(b, i, j);
    }
    (i, j)
}

/// The first position in `b[lo..hi]` that holds `d`, or `hi`.
fn find_byte(b: &[u8], lo: usize, hi: usize, d: u8) -> (r: usize)
    requires
        lo <= hi <= b@.len(),
    ensures
        lo <= r <= hi,
        forall|k: int| lo <= k < r ==> b@[k] != d,
        r == hi || b@[r as int] == d,
{
    let mut i = lo;
    while i < hi && b[i] != d
        invariant
            lo <= i <= hi <= b@.len(),
            forall|k: int| lo <= k < i ==> b@[k] != d,
        decreases hi - i,
    {
        i = i + 1;
    }
    i
}

proof fn lemma_digits_step(s: Seq<u8>, i: int, radix: nat)
    requires
        0 <= i < s.len(),
    ensures
        digits_value(s.subrange(0, i + 1), radix) == digits_value(s.subrange(0, i), radix) * radix
            + digit_value(s[i]) as nat,
{
    assert(s.subrange(0, i + 1).drop_last() =~= s.subrange(0, i));
}

proof fn lemma_digits_grow(s: Seq<u8>, i: int, radix: nat)
    requires
        0 <= i <= s.len(),
        radix >= 1,
    ensures
        digits_value(s.subrange(0, i), radix) <= digits_value(s, radix),
    decreases s.len() - i,
{
    if i < s.len() {
        lemma_digits_step(s, i, radix);
        let v = digits_value(s.subrange(0, i), radix);
        assert(v * radix >= v) by (nonlinear_arith)
            requires
                radix >= 1,
        ;
        lemma_digits_grow(s, i + 1, radix);
    } else {
        assert(s.subrange(0, i) =~= s);
    }
}

/// The number written in `b[lo..hi]` in base `radix` (see `parse_unsigned`),
/// when it is at most `max`.
fn parse_range(b: &[u8], lo: usize, hi: usize, radix: u8, max: u64) -> (r: Option<u64>)
    requires
        lo <= hi <= b@.len(),
        2 <= radix <= 36,
    ensures
        match parse_unsigned(b@.subrange(lo as int, hi as int), radix as nat, max as nat) {
            Some(v) => r == Some(v as u64),
            None => r is None,
        },
{
    let ghost s = b@.subrange(lo as int, hi as int);
    let mut start = lo;
    if start < hi && b[start] == 43 {
        start = start + 1;
    }
    let ghost d = unsigned_digits(s);
    assert(d =~= b@.subrange(start as int, hi as int));
    if start == hi {
        assert(d.len() == 0);
        return None;
    }
    let mut v: u64 = 0;
    let mut i = start;
    while i < hi
        invariant
            lo <= start <= i <= hi <= b@.len(),
            2 <= radix <= 36,
            d == b@.subrange(start as int, hi as int),
            s == b@.subrange(lo as int, hi as int),
            d == unsigned_digits(s),
            forall|k: int| 0 <= k < i - start ==> digit_value(d[k]) < radix,
            v as nat == digits_value(d.subrange(0, i - start), radix as nat),
            v <= max,
        decreases hi - i,
    {
        let c = b[i];
        let dv: u8 = if 48 <= c && c <= 57 {
            c - 48
        } else if 97 <= c && c <= 122 {
            c - 87
        } else if 65 <= c && c <= 90 {
            c - 55
        } else {
            99
        };
        assert(dv as int == digit_value(d[i - start]));
        if dv >= radix {
            assert(digit_value(d[i - start]) >= radix);
            assert(0 <= i - start < d.len());
            assert(!(forall|k: int| 0 <= k < d.len() ==> digit_value(d[k]) < radix as nat));
            assert(parse_unsigned(s, radix as nat, max as nat) is None);
            return None;
        }
        proof {
            lemma_digits_step(d, i - start, radix as nat);
        }
        assert((v as int) * (radix as int) <= 0xffff_ffff_ffff_ffffu64 as int * 36) by (nonlinear_arith)
            requires
                v <= 0xffff_ffff_ffff_ffffu64,
                radix <= 36,
        ;
        let next: u128 = (v as u128) * (radix as u128) + (dv as u128);
        assert(v as int * radix as int + dv as int == next as int) by (nonlinear_arith)
            requires
                v <= 0xffff_ffff_ffff_ffffu64,
                radix <= 36,
                dv < 36,
                next == v as int * radix as int + dv as int,
        ;
        if next > max as u128 {
            proof {
                lemma_digits_grow(d, i - start + 1, radix as nat);
                assert(digits_value(d.subrange(0, i - start + 1), radix as nat) == next);
                assert(digits_value(d, radix as nat) > max);
                assert(parse_unsigned(s, radix as nat, max as nat) is None);
            }
            return None;
        }
        v = next as u64;
        i = i + 1;
    }
    assert(d.subrange(0, i - start) =~= d);
    Some(v)
}

/// The numbers in the `delim`-separated pieces of `b[lo..hi]` (see `number_list`).
fn parse_list(b: &[u8], lo: usize, hi: usize, delim: u8, radix: u8, max: u64, trimmed: bool) -> (r:
    Option<Vec<u64>>)
    requires
        lo <= hi <= b@.len(),
        2 <= radix <= 36,
    ensures
        match number_list(b@.subrange(lo as int, hi as int), delim, radix as nat, max as nat, trimmed) {
            Some(v) => r matches Some(out) && out@.len() == v.len() && forall|i: int|
                0 <= i < v.len() ==> out@[i] as nat == v[i],
            None => r is None,
        },
{
    let ghost whole = split(b@.subrange(lo as int, hi as int), delim);
    let ghost mut done: Seq<Seq<u8>> = Seq::empty();
    let mut out: Vec<u64> = Vec::new();
    let mut pos = lo;
    assert(whole == done + split(b@.subrange(pos as int, hi as int), delim));
    loop
        invariant
            lo <= pos <= hi <= b@.len(),
            2 <= radix <= 36,
            whole == split(b@.subrange(lo as int, hi as int), delim),
            whole == done + split(b@.subrange(pos as int, hi as int), delim),
            out@.len() == done.len(),
            forall|k: int|
                0 <= k < done.len() ==> parse_unsigned(piece_text(done[k], trimmed), radix as nat, max as nat)
                    == Some(out@[k] as nat),
        decreases hi - pos,
    {
        let j = find_byte(b, pos, hi, delim);
        let ghost rest = b@.subrange(pos as int, hi as int);
        let ghost piece = b@.subrange(pos as int, j as int);
        proof {
            assert forall|k: int| 0 <= k < j - pos implies rest[k] != delim by {
                assert(rest[k] == b@[pos + k]);
            }
            if j < hi {
                assert(rest[j - pos] == b@[j as int]);
            }
            lemma_split_at_first(rest, delim, j - pos);
            assert(rest.subrange(0, j - pos) =~= piece);
            if j < hi {
                assert(rest.subrange(j - pos + 1, rest.len() as int) =~= b@.subrange(j + 1, hi as int));
            }
            if j == hi {
                assert(piece =~= rest);
            }
            assert(whole[done.len() as int] == piece);
        }
        let (plo, phi) = if trimmed {
            trim_range(b, pos, j)
        } else {
            (pos, j)
        };
        match parse_range(b, plo, phi, radix, max) {
            Some(v) => {
                out.push(v);
            },
            None => {
                return None;
            },
        }
        let ghost prev = done;
        proof {
            done = done.push(piece);
            assert forall|k: int|
                0 <= k < done.len() implies parse_unsigned(
                piece_text(done[k], trimmed),
                radix as nat,
                max as nat,
            ) == Some(out@[k] as nat) by {
                if k < prev.len() {
                    assert(done[k] == prev[k]);
                }
            }
        }
        if j == hi {
            proof {
                assert(whole =~= done);
                let v = number_list(b@.subrange(lo as int, hi as int), delim, radix as nat, max as nat, trimmed);
                assert forall|i: int| 0 <= i < whole.len() implies parse_unsigned(
                    piece_text(whole[i], trimmed),
                    radix as nat,
                    max as nat,
                ) is Some by {
                    assert(whole[i] == done[i]);
                    assert(parse_unsigned(piece_text(done[i], trimmed), radix as nat, max as nat) == Some(
                        out@[i] as nat,
                    ));
                }
                assert(v is Some);
                assert forall|i: int| 0 <= i < whole.len() implies out@[i] as nat == v->Some_0[i] by {}
            }
            return Some(out);
        }
        pos = j + 1;
        proof {
            assert(whole =~= done + split(b@.subrange(pos as int, hi as int), delim));
        }
    }
}

/// Reads a list of indexes such as `0|1|2`; whitespace around the list and
/// around each index is ignored.
pub fn parse_index(arg: &str) -> (r: Result<Vec<usize>, ParseError>)
    ensures
        match index_list(arg.spec_bytes()) {
            Some(v) => r matches Ok(out) && out@.len() == v.len() && forall|i: int|
                0 <= i < v.len() ==> out@[i] as nat == v[i],
            None => r == Err::<Vec<usize>, ParseError>(ParseError::NotANumber),
        },
{
    let b = arg.as_bytes();
    assert(b@.subrange(0, b@.len() as int) =~= b@);
    let (lo, hi) = trim_range(b, 0, b.len());
    match parse_list(b, lo, hi, 124, 10, usize::MAX as u64, true) {
        None => Err(ParseError::NotANumber),
        Some(vals) => {
            let ghost v = index_list(arg.spec_bytes())->Some_0;
            let mut out: Vec<usize> = Vec::new();
            let mut i: usize = 0;
            while i < vals.len()
                invariant
                    i <= vals@.len() == v.len(),
                    forall|k: int| 0 <= k < v.len() ==> vals@[k] as nat == v[k],
                    forall|k: int| 0 <= k < v.len() ==> v[k] <= usize::MAX,
                    out@.len() == i,
                    forall|k: int| 0 <= k < i ==> out@[k] as nat == v[k],
                decreases vals@.len() - i,
            {
                out.push(vals[i] as usize);
                i = i + 1;
            }
            Ok(out)
        },
    }
}

/// The bytes of `b[lo..hi]` without its spaces.
fn strip_spaces(b: &[u8], lo: usize, hi: usize) -> (r: Vec<u8>)
    requires
        lo <= hi <= b@.len(),
    ensures
        r@ == without_spaces(b@.subrange(lo as int, hi as int)),
{
    let mut r: Vec<u8> = Vec::new();
    let mut i = lo;
    assert(b@.subrange(lo as int, lo as int) =~= Seq::<u8>::empty());
    while i < hi
        invariant
            lo <= i <= hi <= b@.len(),
            r@ == without_spaces(b@.subrange(lo as int, i as int)),
        decreases hi - i,
    {
        assert(b@.subrange(lo as int, i + 1).drop_last() =~= b@.subrange(lo as int, i as int));
        if b[i] != 32 {
            r.push(b[i]);
        }
        i = i + 1;
    }
    r
}

/// The bytes that the hex pairs of `b[lo..hi]` write (see `hex_bytes`).
fn parse_hex_bytes(b: &[u8], lo: usize, hi: usize) -> (r: Option<Vec<u8>>)
    requires
        lo <= hi <= b@.len(),
    ensures
        match hex_bytes(hex_chunks(b@.subrange(lo as int, hi as int))) {
            Some(v) => r matches Some(out) && out@ == v,
            None => r is None,
        },
{
    let ghost whole = hex_chunks(b@.subrange(lo as int, hi as int));
    let ghost mut done: Seq<Seq<u8>> = Seq::empty();
    let mut out: Vec<u8> = Vec::new();
    let mut pos = lo;
    assert(whole == done + hex_chunks(b@.subrange(pos as int, hi as int)));
    while pos < hi
        invariant
            lo <= pos <= hi <= b@.len(),
            whole == hex_chunks(b@.subrange(lo as int, hi as int)),
            whole == done + hex_chunks(b@.subrange(pos as int, hi as int)),
            out@.len() == done.len(),
            forall|k: int|
                0 <= k < done.len() ==> parse_unsigned(done[k], 16, 255) == Some(out@[k] as nat),
        decreases hi - pos,
    {
        let e = if hi - pos > 2 {
            pos + 2
        } else {
            hi
        };
        let ghost rest = b@.subrange(pos as int, hi as int);
        let ghost piece = b@.subrange(pos as int, e as int);
        proof {
            if hi - pos > 2 {
                assert(rest.subrange(0, 2) =~= piece);
                assert(rest.subrange(2, rest.len() as int) =~= b@.subrange(e as int, hi as int));
            } else {
                assert(rest =~= piece);
                assert(b@.subrange(e as int, hi as int) =~= Seq::<u8>::empty());
            }
            assert(hex_chunks(rest) == seq![piece] + hex_chunks(b@.subrange(e as int, hi as int)));
        }
        match parse_range(b, pos, e, 16, 255) {
            Some(v) => {
                out.push(v as u8);
            },
            None => {
                assert(whole[done.len() as int] == piece);
                return None;
            },
        }
        let ghost prev = done;
        proof {
            done = done.push(piece);
            assert forall|k: int|
                0 <= k < done.len() implies parse_unsigned(done[k], 16, 255) == Some(
                out@[k] as nat,
            ) by {
                if k < prev.len() {
                    assert(done[k] == prev[k]);
                }
            }
            assert(whole =~= done + hex_chunks(b@.subrange(e as int, hi as int)));
        }
        pos = e;
    }
    proof {
        assert(b@.subrange(pos as int, hi as int) =~= Seq::<u8>::empty());
        assert(whole =~= done);
        let v = hex_bytes(whole);
        assert forall|i: int| 0 <= i < whole.len() implies parse_unsigned(whole[i], 16, 255) is Some by {
            assert(whole[i] == done[i]);
        }
        assert(out@ =~= v->Some_0);
    }
    Some(out)
}

/// `v` followed by zero bytes, as a 32-byte hash.
fn pad_bytes(v: &Vec<u8>) -> (r: Hash256)
    requires
        v@.len() <= 32,
    ensures
        r@ == padded(v@),
{
    let mut r: Hash256 = [0u8; 32];
    let mut i: usize = 0;
    while i < v.len()
        invariant
            v@.len() <= 32,
            i <= v@.len(),
            forall|k: int| 0 <= k < i ==> r@[k] == v@[k],
            forall|k: int| v@.len() <= k < 32 ==> r@[k] == 0,
        decreases v@.len() - i,
    {
        r[i] = v[i];
        i = i + 1;
    }
    assert(r@ =~= padded(v@));
    r
}

/// The hash written in `b[lo..hi]` (see `hash_value`).
fn hash_in(b: &[u8], lo: usize, hi: usize) -> (r: Result<Hash256, ParseError>)
    requires
        lo <= hi <= b@.len(),
    ensures
        match hash_value(b@.subrange(lo as int, hi as int)) {
            Ok(v) => r matches Ok(h) && h@ == v,
            Err(e) => r == Err::<Hash256, ParseError>(e),
        },
{
    let (tlo, thi) = trim_range(b, lo, hi);
    let ghost t = b@.subrange(tlo as int, thi as int);
    if thi - tlo > 2 && b[tlo] == 48 && (b[tlo + 1] == 120 || b[tlo + 1] == 88) {
        assert(t.subrange(2, t.len() as int) =~= b@.subrange(tlo + 2, thi as int));
        match parse_hex_bytes(b, tlo + 2, thi) {
            None => Err(ParseError::NotHex),
            Some(v) => if v.len() > 32 {
                Err(ParseError::TooLong)
            } else {
                Ok(pad_bytes(&v))
            },
        }
    } else {
        let w = strip_spaces(b, tlo, thi);
        let ws = w.as_slice();
        assert(ws@.subrange(0, ws@.len() as int) =~= ws@);
        match parse_list(ws, 0, ws.len(), 44, 10, 255, false) {
            None => Err(ParseError::NotAByte),
            Some(vals) => {
                if vals.len() > 32 {
                    return Err(ParseError::TooLong);
                }
                let ghost nums = number_list(without_spaces(t), 44, 10, 255, false)->Some_0;
                let mut bytes: Vec<u8> = Vec::new();
                let mut i: usize = 0;
                while i < vals.len()
                    invariant
                        i <= vals@.len() == nums.len(),
                        forall|k: int| 0 <= k < nums.len() ==> vals@[k] as nat == nums[k],
                        forall|k: int| 0 <= k < nums.len() ==> nums[k] <= 255,
                        bytes@.len() == i,
                        forall|k: int| 0 <= k < i ==> bytes@[k] == nums[k] as u8,
                    decreases vals@.len() - i,
                {
                    bytes.push(vals[i] as u8);
                    i = i + 1;
                }
                assert(bytes@ =~= Seq::new(nums.len(), |k: int| nums[k] as u8));
                Ok(pad_bytes(&bytes))
            },
        }
    }
}

/// Reads one hash: `0x` followed by hex digits taken two at a time, or
/// decimal bytes separated by commas; at most 32 bytes, padded with zeros.
pub fn parse_hash(arg: &str) -> (r: Result<Hash256, ParseError>)
    ensures
        match hash_value(arg.spec_bytes()) {
            Ok(v) => r matches Ok(h) && h@ == v,
            Err(e) => r == Err::<Hash256, ParseError>(e),
        },
{
    let b = arg.as_bytes();
    assert(b@.subrange(0, b@.len() as int) =~= b@);
    hash_in(b, 0, b.len())
}

/// Reads hashes separated by `|`; the first piece that is not a hash gives
/// the error.
pub fn parse_hashes(arg: &str) -> (r: Result<Vec<Hash256>, ParseError>)
    ensures
        (r is Ok) == (forall|i: int|
            0 <= i < hash_pieces(arg.spec_bytes()).len() ==> hash_value(
                hash_pieces(arg.spec_bytes())[i],
            ) is Ok),
        r matches Ok(out) ==> out@.len() == hash_pieces(arg.spec_bytes()).len() && forall|i: int|
            0 <= i < out@.len() ==> out@[i]@ == hash_value(hash_pieces(arg.spec_bytes())[i])->Ok_0,
        r matches Err(e) ==> exists|i: int|
            0 <= i < hash_pieces(arg.spec_bytes()).len() && hash_value(
                hash_pieces(arg.spec_bytes())[i],
            ) == Err::<Seq<u8>, ParseError>(e) && forall|j: int|
                0 <= j < i ==> hash_value(hash_pieces(arg.spec_bytes())[j]) is Ok,
{
    let b = arg.as_bytes();
    assert(b@.subrange(0, b@.len() as int) =~= b@);
    let (lo, hi) = trim_range(b, 0, b.len());
    let ghost whole = hash_pieces(arg.spec_bytes());
    assert(whole == split(b@.subrange(lo as int, hi as int), 124));
    let ghost mut done: Seq<Seq<u8>> = Seq::empty();
    let mut out: Vec<Hash256> = Vec::new();
    let mut pos = lo;
    assert(whole == done + split(b@.subrange(pos as int, hi as int), 124));
    loop
        invariant
            lo <= pos <= hi <= b@.len(),
            whole == hash_pieces(arg.spec_bytes()),
            whole == done + split(b@.subrange(pos as int, hi as int), 124),
            out@.len() == done.len(),
            forall|k: int| 0 <= k < done.len() ==> hash_value(done[k]) == Ok::<Seq<u8>, ParseError>(out@[k]@),
        decreases hi - pos,
    {
        let j = find_byte(b, pos, hi, 124);
        let ghost rest = b@.subrange(pos as int, hi as int);
        let ghost piece = b@.subrange(pos as int, j as int);
        proof {
            assert forall|k: int| 0 <= k < j - pos implies rest[k] != 124 by {
                assert(rest[k] == b@[pos + k]);
            }
            if j < hi {
                assert(rest[j - pos] == b@[j as int]);
                assert(rest.subrange(j - pos + 1, rest.len() as int) =~= b@.subrange(j + 1, hi as int));
            }
            lemma_split_at_first(rest, 124, j - pos);
            assert(rest.subrange(0, j - pos) =~= piece);
            if j == hi {
                assert(piece =~= rest);
            }
            assert(whole[done.len() as int] == piece);
        }
        match hash_in(b, pos, j) {
            Ok(h) => {
                out.push(h);
            },
            Err(e) => {
                proof {
                    let i = done.len() as int;
                    assert forall|k: int| 0 <= k < i implies hash_value(whole[k]) is Ok by {
                        assert(whole[k] == done[k]);
                    }
                }
                return Err(e);
            },
        }
        let ghost prev = done;
        proof {
            done = done.push(piece);
            assert forall|k: int|
                0 <= k < done.len() implies hash_value(done[k]) == Ok::<Seq<u8>, ParseError>(
                out@[k]@,
            ) by {
                if k < prev.len() {
                    assert(done[k] == prev[k]);
                }
            }
        }
        if j == hi {
            proof {
                assert(whole =~= done);
                assert forall|i: int| 0 <= i < whole.len() implies hash_value(whole[i]) is Ok by {
                    assert(whole[i] == done[i]);
                }
            }
            return Ok(out);
        }
        pos = j + 1;
        proof {
            assert(whole =~= done + split(b@.subrange(pos as int, hi as int), 124));
        }
    }
}

} // verus!
