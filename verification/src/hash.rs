//! The commitment hash: a fixed mixing function on 64-bit words, folded
//! over account records and tree nodes. Empty slots hash to a fixed,
//! publicly known value so that the root is reproducible from the set of
//! live records alone.

use vstd::prelude::*;
use crate::account::{Account, AccountView};

verus! {

pub const HASH_MUL_A: u64 = 0x9e3779b97f4a7c15;

pub const HASH_MUL_B: u64 = 0xbf58476d1ce4e5b9;

pub const HASH_SEED: u64 = 0x2545f4914f6cdd1d;

/// The publicly known hash of an empty leaf slot.
pub const EMPTY_LEAF: u64 = 0x94d049bb133111eb;

/// Mixes two words into one; the node combiner of the tree. Opaque:
/// every proof above treats it as an arbitrary fixed function, and only
/// `combine_exec` computes it.
#[verifier::opaque]
pub open spec fn combine(a: u64, b: u64) -> u64 {
    (((a * HASH_MUL_A) % 0x10000000000000000 + (b * HASH_MUL_B) % 0x10000000000000000
        + HASH_SEED) % 0x10000000000000000) as u64
}

/// Folds the combiner over a sequence of words.
pub open spec fn hash_words(s: Seq<u64>) -> u64
    decreases s.len(),
{
    if s.len() == 0 {
        HASH_SEED
    } else {
        combine(hash_words(s.drop_last()), s.last())
    }
}

/// The leaf hash of one live account record.
pub open spec fn leaf_hash(a: AccountView) -> u64 {
    combine(combine(hash_words(a.balances), a.address), a.nonce)
}

/// The leaf hash of one slot, live or empty.
pub open spec fn slot_hash(slot: Option<AccountView>) -> u64 {
    match slot {
        Some(a) => leaf_hash(a),
        None => EMPTY_LEAF,
    }
}

/// The hash of a subtree all of whose leaves are empty, by level.
pub open spec fn empty_subtree(level: nat) -> u64
    decreases level,
{
    if level == 0 {
        EMPTY_LEAF
    } else {
        combine(empty_subtree((level - 1) as nat), empty_subtree((level - 1) as nat))
    }
}

/// Mixes two words into one.
pub fn combine_exec(a: u64, b: u64) -> (r: u64)
    ensures
        r == combine(a, b),
{
    proof {
        reveal(combine);
        assert((a as int) * (HASH_MUL_A as int) <= 0xffffffffffffffff * (HASH_MUL_A as int))
            by (nonlinear_arith)
            requires a <= 0xffffffffffffffffu64;
        assert((b as int) * (HASH_MUL_B as int) <= 0xffffffffffffffff * (HASH_MUL_B as int))
            by (nonlinear_arith)
            requires b <= 0xffffffffffffffffu64;
    }
    let pa: u128 = ((a as u128) * (HASH_MUL_A as u128)) % 0x10000000000000000;
    let pb: u128 = ((b as u128) * (HASH_MUL_B as u128)) % 0x10000000000000000;
    let m: u128 = (pa + pb + (HASH_SEED as u128)) % 0x10000000000000000;
    m as u64
}

/// Computes the hash of a subtree all of whose leaves are empty.
pub fn empty_subtree_exec(level: u64) -> (r: u64)
    ensures
        r == empty_subtree(level as nat),
{
    let mut h: u64 = EMPTY_LEAF;
    let mut i: u64 = 0;
    while i < level
        invariant
            i <= level,
            h == empty_subtree(i as nat),
        decreases level - i,
    {
        h = combine_exec(h, h);
        i = i + 1;
    }
    h
}

/// Computes the leaf hash of one live account record.
pub fn leaf_hash_exec(a: &Account) -> (r: u64)
    ensures
        r == leaf_hash(a@),
{
    let mut h: u64 = HASH_SEED;
    let mut i: usize = 0;
    while i < a.balances.len()
        invariant
            i <= a.balances@.len(),
            h == hash_words(a.balances@.take(i as int)),
        decreases a.balances.len() - i,
    {
        h = combine_exec(h, a.balances[i]);
        proof {
            let s = a.balances@;
            assert(s.take(i + 1).drop_last() =~= s.take(i as int));
            assert(s.take(i + 1).last() == s[i as int]);
        }
        i = i + 1;
    }
    proof {
        assert(a.balances@.take(a.balances@.len() as int) =~= a.balances@);
    }
    combine_exec(combine_exec(h, a.address), a.nonce)
}

} // verus!
