//! Printing digests and proof bytes as `0x`-prefixed hex or as
//! comma-separated decimal bytes.
use vstd::prelude::*;

verus! {

/// The lower-case hex digit for `d < 16`.
pub open spec fn hex_digit(d: int) -> char {
    seq!['0', '1', '2', '3', '4', '5', '6', '7', '8', '9', 'a', 'b', 'c', 'd', 'e', 'f'][d]
}

/// A byte as exactly two lower-case hex digits.
pub open spec fn hex_pair(b: u8) -> Seq<char> {
    seq![hex_digit(b as int / 16), hex_digit(b as int % 16)]
}

/// The decimal digit for `d < 10`.
pub open spec fn dec_digit(d: int) -> char {
    seq!['0', '1', '2', '3', '4', '5', '6', '7', '8', '9'][d]
}

/// A number in decimal, without leading zeros.
pub open spec fn decimal(n: nat) -> Seq<char>
    decreases n,
{
    if n < 10 {
        seq![dec_digit(n as int)]
    } else {
        decimal(n / 10).push(dec_digit((n % 10) as int))
    }
}

/// The bytes as hex pairs, one after another.
pub open spec fn hex_digits(bytes: Seq<u8>) -> Seq<char>
    decreases bytes.len(),
{
    if bytes.len() == 0 {
        Seq::empty()
    } else {
        hex_digits(bytes.drop_last()) + hex_pair(bytes.last())
    }
}

/// The bytes in decimal, separated by commas.
pub open spec fn decimal_list(bytes: Seq<u8>) -> Seq<char>
    decreases bytes.len(),
{
    if bytes.len() == 0 {
        Seq::empty()
    } else if bytes.len() == 1 {
        decimal(bytes[0] as nat)
    } else {
        decimal_list(bytes.drop_last()).push(',') + decimal(bytes.last() as nat)
    }
}

/// Relies on std's `{:02x}` formatting: two lower-case hex digits.
#[verifier::external_body]
fn byte_hex(b: u8) -> (r: String)
    ensures
        r@ == hex_pair(b),
{
    format!("{:02x}", b)
}

/// Relies on std's `{}` formatting of an integer: its decimal digits.
#[verifier::external_body]
fn byte_decimal(b: u8) -> (r: String)
    ensures
        r@ == decimal(b as nat),
{
    format!("{}", b)
}

/// `0x` followed by two lower-case hex digits per byte.
pub fn hex_format(hash: &[u8]) -> (r: String)
    ensures
        r@ == seq!['0', 'x'] + hex_digits(hash@),
{
    let mut r = String::from_str("0x");
    proof {
        reveal_strlit("0x");
    }
    let mut i: usize = 0;
    while i < hash.len()
        invariant
            i <= hash@.len(),
            r@ =~= seq!['0', 'x'] + hex_digits(hash@.subrange(0, i as int)),
        decreases hash@.len() - i,
    {
        let pair = byte_hex(hash[i]);
        r.append(pair.as_str());
        assert(hash@.subrange(0, i + 1).drop_last() =~= hash@.subrange(0, i as int));
        i = i + 1;
    }
    assert(hash@.subrange(0, hash@.len() as int) =~= hash@);
    r
}

/// Each byte in decimal, separated by commas.
pub fn array_format(hash: &[u8]) -> (r: String)
    ensures
        r@ == decimal_list(hash@),
{
    let mut r = String::new();
    proof {
        reveal_strlit(",");
    }
    let mut i: usize = 0;
    while i < hash.len()
        invariant
            i <= hash@.len(),
            r@ =~= decimal_list(hash@.subrange(0, i as int)),
        decreases hash@.len() - i,
    {
        let ghost start = r@;
        if i > 0 {
            r.append(",");
            proof {
                reveal_strlit(",");
                assert(r@ =~= start.push(','));
            }
        }
        let ghost before = r@;
        let digits = byte_decimal(hash[i]);
        r.append(digits.as_str());
        proof {
            let s = hash@.subrange(0, i + 1);
            assert(s.drop_last() =~= hash@.subrange(0, i as int));
            assert(s.last() == hash@[i as int]);
            if i > 0 {
                assert(before =~= decimal_list(s.drop_last()).push(','));
            } else {
                assert(s[0] == hash@[0]);
            }
        }
        i = i + 1;
    }
    assert(hash@.subrange(0, hash@.len() as int) =~= hash@);
    r
}

} // verus!
