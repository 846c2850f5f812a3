//! The decisions of the command-line tool: which proof to make, and how the
//! positional hashes become keys and values.
use crate::prover::inclusion;
use crate::tree::Hash256;
use vstd::prelude::*;

verus! {

/// Why the arguments do not describe a proof to make.
#[derive(Debug, Clone, Copy, PartialEq, Eq, Structural)]
pub enum ArgError {
    /// Both `--include` and `--exclude` were given.
    BothModes,
    /// Neither `--include` nor `--exclude` was given.
    NoMode,
    /// Key/value mode was asked for with an odd number of hashes.
    OddCount,
}

/// The kind of proof to make.
#[derive(Debug, Clone, Copy, PartialEq, Eq, Structural)]
pub enum Mode {
    /// Prove that the keys at some indexes hold their values.
    Include,
    /// Prove that some keys are absent.
    Exclude,
}

/// Exactly one of `--include` and `--exclude` picks the proof.
pub fn choose_mode(has_include: bool, has_exclude: bool) -> (r: Result<Mode, ArgError>)
    ensures
        has_include && has_exclude ==> r == Err::<Mode, ArgError>(ArgError::BothModes),
        !has_include && !has_exclude ==> r == Err::<Mode, ArgError>(ArgError::NoMode),
        has_include && !has_exclude ==> r == Ok::<Mode, ArgError>(Mode::Include),
        !has_include && has_exclude ==> r == Ok::<Mode, ArgError>(Mode::Exclude),
{
    if has_include && has_exclude {
        Err(ArgError::BothModes)
    } else if has_include {
        Ok(Mode::Include)
    } else if has_exclude {
        Ok(Mode::Exclude)
    } else {
        Err(ArgError::NoMode)
    }
}

/// The hashes at even positions.
pub open spec fn even_positions(h: Seq<Hash256>) -> Seq<Hash256> {
    Seq::new(h.len() / 2, |i: int| h[2 * i])
}

/// The hashes at odd positions.
pub open spec fn odd_positions(h: Seq<Hash256>) -> Seq<Hash256> {
    Seq::new(h.len() / 2, |i: int| h[2 * i + 1])
}

/// Keys and values from the positional hashes: alternating key, value when
/// `kvpair`, else every hash a key with the placeholder value.
pub fn split_pairs(hashes: &Vec<Hash256>, kvpair: bool) -> (r: Result<
    (Vec<Hash256>, Vec<Hash256>),
    ArgError,
>)
    ensures
        kvpair && hashes@.len() % 2 == 1 ==> (r matches Err(e) && e == ArgError::OddCount),
        kvpair && hashes@.len() % 2 == 0 ==> (r matches Ok((keys, values)) && keys@
            == even_positions(hashes@) && values@ == odd_positions(hashes@)),
        !kvpair ==> (r matches Ok((keys, values)) && keys@ == hashes@ && values@.len()
            == hashes@.len() && forall|i: int|
            0 <= i < values@.len() ==> values@[i]@ == seq![1u8].add(Seq::new(31, |k: int| 0u8))),
{
    let mut keys: Vec<Hash256> = Vec::new();
    let mut values: Vec<Hash256> = Vec::new();
    if kvpair {
        if hashes.len() % 2 == 1 {
            return Err(ArgError::OddCount);
        }
        let len = hashes.len();
        let n = len / 2;
        let mut i: usize = 0;
        while i < n
            invariant
                len == hashes@.len(),
                n == len / 2,
                hashes@.len() % 2 == 0,
                i <= n,
                keys@ =~= even_positions(hashes@).subrange(0, i as int),
                values@ =~= odd_positions(hashes@).subrange(0, i as int),
            decreases n - i,
        {
            assert(2 * i + 1 < hashes@.len());
            keys.push(hashes[2 * i]);
            values.push(hashes[2 * i + 1]);
            i = i + 1;
        }
        assert(keys@ =~= even_positions(hashes@));
        assert(values@ =~= odd_positions(hashes@));
    } else {
        let mut i: usize = 0;
        while i < hashes.len()
            invariant
                i <= hashes@.len(),
                keys@ =~= hashes@.subrange(0, i as int),
                values@.len() == i,
                forall|k: int| 0 <= k < i ==> values@[k]@ == seq![1u8].add(Seq::new(31, |j: int| 0u8)),
            decreases hashes@.len() - i,
        {
            keys.push(hashes[i]);
            values.push(inclusion());
            i = i + 1;
        }
        assert(keys@ =~= hashes@);
    }
    Ok((keys, values))
}

} // verus!
