//! The sparse account tree: a dense array of slots indexed by account
//! identifier, each slot either a live record or an explicit empty
//! placeholder, together with the root commitment. Identifiers beyond the
//! stored prefix are empty; whole empty subtrees hash to a precomputed
//! per-level value, so the root is computable without materializing every
//! leaf of the fixed `2^TREE_DEPTH` identifier space.

use vstd::prelude::*;
use vstd::arithmetic::power2::{pow2, lemma_pow2_unfold, lemma_pow2_pos, lemma_pow2_strictly_increases, lemma2_to64};
use vstd::arithmetic::mul::{lemma_mul_inequality, lemma_mul_is_commutative};
use crate::account::{Account, AccountView, MAX_ACCOUNTS, NUM_TOKENS, TREE_DEPTH};
use crate::hash::{combine, combine_exec, slot_hash, leaf_hash_exec, empty_subtree, empty_subtree_exec, EMPTY_LEAF};

verus! {

/// The full ledger tree state: one optional record per identifier, dense
/// from identifier 0 up to the highest identifier ever written, together
/// with the cached node hashes of every tree level. `levels[0]` caches
/// the leaf hashes, `levels[TREE_DEPTH]` the root; each level stores
/// hashes only for the nodes whose leaf range meets the dense prefix, so
/// one mutation refreshes one node per level.
pub struct AccountStateTree {
    pub slots: Vec<Option<Account>>,
    pub levels: Vec<Vec<u64>>,
}

impl View for AccountStateTree {
    type V = Seq<Option<AccountView>>;

    open spec fn view(&self) -> Seq<Option<AccountView>> {
        self.slots@.map(|i: int, s: Option<Account>| match s {
            Some(a) => Some(a@),
            None => None::<AccountView>,
        })
    }
}

/// Cached row `row` of level `l` covers the dense prefix of length `n`:
/// wide enough to reach `n`, and no wider than needed.
pub open spec fn level_width_ok(row: Seq<u64>, l: int, n: int) -> bool {
    &&& row.len() * pow2(l as nat) >= n
    &&& row.len() == 0 || (row.len() - 1) * pow2(l as nat) < n
}

/// Every cached level has the width the dense prefix calls for.
pub open spec fn widths_ok(ls: Seq<Vec<u64>>, n: int) -> bool {
    &&& ls.len() == TREE_DEPTH + 1
    &&& forall|l: int| 0 <= l <= TREE_DEPTH ==> level_width_ok((#[trigger] ls[l])@, l, n)
}

/// Every cached entry holds the hash of its node over the tree state.
pub open spec fn nodes_ok(ls: Seq<Vec<u64>>, s: Seq<Option<AccountView>>) -> bool {
    forall|l: int, k: int| 0 <= l <= TREE_DEPTH && 0 <= k < ls[l]@.len() ==> (#[trigger] ls[l]@[k])
        == node_hash(s, l as nat, k as nat)
}

/// Identifier `id` holds a live record in `s`.
pub open spec fn live(s: Seq<Option<AccountView>>, id: int) -> bool {
    0 <= id < s.len() && s[id] is Some
}

/// The record at a live identifier.
pub open spec fn account_at(s: Seq<Option<AccountView>>, id: int) -> AccountView {
    s[id]->Some_0
}

/// Well-formedness of a tree state: it fits the fixed identifier space
/// and every live record has one balance per token.
pub open spec fn tree_wf(s: Seq<Option<AccountView>>) -> bool {
    &&& s.len() <= MAX_ACCOUNTS
    &&& forall|i: int| live(s, i) ==> #[trigger] account_at(s, i).wf()
}

/// Writing `slot` at identifier `id`, growing the dense prefix with empty
/// slots if `id` lies beyond it.
pub open spec fn store(s: Seq<Option<AccountView>>, id: int, slot: Option<AccountView>) -> Seq<
    Option<AccountView>,
> {
    let padded = if id < s.len() {
        s
    } else {
        s + Seq::new((id + 1 - s.len()) as nat, |j: int| None::<AccountView>)
    };
    padded.update(id, slot)
}

/// The smallest identifier at or after `from` whose slot is free, the
/// length of `s` if none is.
pub open spec fn smallest_free_from(s: Seq<Option<AccountView>>, from: int) -> int
    decreases s.len() - from,
{
    if from < 0 || from >= s.len() {
        from
    } else if s[from] is None {
        from
    } else {
        smallest_free_from(s, from + 1)
    }
}

/// The smallest unused identifier of `s`: freed slots are reused, so this
/// is the first empty slot, or the length of the dense prefix when every
/// stored slot is live.
pub open spec fn smallest_free(s: Seq<Option<AccountView>>) -> int {
    smallest_free_from(s, 0)
}

pub proof fn lemma_smallest_free_from(s: Seq<Option<AccountView>>, from: int)
    requires
        0 <= from <= s.len(),
    ensures
        from <= smallest_free_from(s, from) <= s.len(),
        smallest_free_from(s, from) < s.len() ==> s[smallest_free_from(s, from)] is None,
        forall|j: int| from <= j < smallest_free_from(s, from) ==> s[j] is Some,
    decreases s.len() - from,
{
    if from < s.len() && s[from] is Some {
        lemma_smallest_free_from(s, from + 1);
    }
}

/// The hash of the subtree at `level` whose leftmost leaf is
/// `index * 2^level`.
pub open spec fn node_hash(s: Seq<Option<AccountView>>, level: nat, index: nat) -> u64
    decreases level,
{
    if level == 0 {
        if index < s.len() {
            slot_hash(s[index as int])
        } else {
            slot_hash(None)
        }
    } else {
        combine(
            node_hash(s, (level - 1) as nat, 2 * index),
            node_hash(s, (level - 1) as nat, 2 * index + 1),
        )
    }
}

/// The root commitment of a tree state.
pub open spec fn root_hash_of(s: Seq<Option<AccountView>>) -> u64 {
    node_hash(s, TREE_DEPTH as nat, 0)
}

/// The zeroth power of two, on its own so heavier callers stay light.
pub proof fn lemma_pow2_zero()
    ensures
        pow2(0) == 1,
{
    lemma2_to64();
}

/// At the leaf level a cached row is exactly as long as the dense
/// prefix.
pub proof fn lemma_width0(row: Seq<u64>, n: int)
    requires
        level_width_ok(row, 0, n),
        n >= 0,
    ensures
        row.len() == n,
{
    lemma_pow2_zero();
    assert(row.len() * 1 == row.len());
    if row.len() > 0 {
        assert((row.len() - 1) * 1 == row.len() - 1);
    }
}

/// The ranges of a node's two children tile the node's own range.
pub proof fn lemma_child_ranges(index: nat, p1: nat)
    ensures
        (2 * index) * p1 == index * (2 * p1),
        (2 * index + 2) * p1 == (index + 1) * (2 * p1),
        (2 * index + 1) * p1 == (2 * index) * p1 + p1,
        (2 * index + 2) * p1 == (2 * index + 1) * p1 + p1,
{
    assert((2 * index) * p1 == index * (2 * p1)) by (nonlinear_arith);
    assert((2 * index + 2) * p1 == (index + 1) * (2 * p1)) by (nonlinear_arith);
    assert((2 * index + 1) * p1 == (2 * index) * p1 + p1) by (nonlinear_arith);
    assert((2 * index + 2) * p1 == (2 * index + 1) * p1 + p1) by (nonlinear_arith);
}

/// A subtree whose leaf range holds no live record hashes to the
/// per-level empty value.
pub proof fn lemma_node_hash_empty(s: Seq<Option<AccountView>>, level: nat, index: nat)
    requires
        forall|j: int| index * pow2(level) <= j < s.len() ==> s[j] is None,
    ensures
        node_hash(s, level, index) == empty_subtree(level),
    decreases level,
{
    if level == 0 {
        lemma_pow2_zero();
        assert(index * 1 == index);
    } else {
        let l1 = (level - 1) as nat;
        lemma_pow2_unfold(level);
        lemma_pow2_pos(l1);
        lemma_child_ranges(index, pow2(l1));
        lemma_node_hash_empty(s, l1, 2 * index);
        lemma_node_hash_empty(s, l1, 2 * index + 1);
    }
}

/// Appending an empty slot changes no node hash: an absent leaf and an
/// explicit empty placeholder hash alike.
pub proof fn lemma_node_hash_push_none(s: Seq<Option<AccountView>>, level: nat, index: nat)
    ensures
        node_hash(s.push(None::<AccountView>), level, index) == node_hash(s, level, index),
    decreases level,
{
    if level == 0 {
    } else {
        lemma_node_hash_push_none(s, (level - 1) as nat, 2 * index);
        lemma_node_hash_push_none(s, (level - 1) as nat, 2 * index + 1);
    }
}

/// A node whose leaf range misses the replaced slot keeps its hash.
pub proof fn lemma_node_hash_frame(
    s: Seq<Option<AccountView>>,
    id: int,
    slot: Option<AccountView>,
    level: nat,
    index: nat,
)
    requires
        0 <= id < s.len(),
        id < index * pow2(level) || id >= (index + 1) * pow2(level),
    ensures
        node_hash(s.update(id, slot), level, index) == node_hash(s, level, index),
    decreases level,
{
    if level == 0 {
        lemma_pow2_zero();
        assert(index * 1 == index);
        assert((index + 1) * 1 == index + 1);
        assert(node_hash(s.update(id, slot), level, index) == node_hash(s, level, index));
    } else {
        let l1 = (level - 1) as nat;
        let p1 = pow2(l1);
        let li = 2 * index;
        let ri = 2 * index + 1;
        assert(id < li * p1 || id >= (li + 1) * p1) by {
            lemma_pow2_unfold(level);
            lemma_pow2_pos(l1);
            lemma_child_ranges(index, p1);
        }
        assert(id < ri * p1 || id >= (ri + 1) * p1) by {
            lemma_pow2_unfold(level);
            lemma_pow2_pos(l1);
            lemma_child_ranges(index, p1);
            assert((ri + 1) * p1 == ri * p1 + p1) by (nonlinear_arith);
        }
        lemma_node_hash_frame(s, id, slot, l1, li);
        lemma_node_hash_frame(s, id, slot, l1, ri);
        assert(node_hash(s.update(id, slot), level, index) == combine(
            node_hash(s.update(id, slot), l1, li),
            node_hash(s.update(id, slot), l1, ri),
        ));
        assert(node_hash(s, level, index) == combine(
            node_hash(s, l1, li),
            node_hash(s, l1, ri),
        ));
    }
}

/// The node of `idx` at a level covers `id` exactly when `idx` is the
/// quotient of `id` by the level's width; every other node's range
/// misses `id`.
pub proof fn lemma_off_path(id: int, p: int, idx: int, k: int)
    requires
        p > 0,
        idx * p <= id < (idx + 1) * p,
        0 <= idx,
        0 <= k,
        k != idx,
    ensures
        id < k * p || id >= (k + 1) * p,
{
    if k < idx {
        lemma_mul_inequality(k + 1, idx, p);
    } else {
        lemma_mul_inequality(idx + 1, k, p);
    }
}

/// The quotient of `id` by `p` brackets `id` within one width-`p` range.
pub proof fn lemma_div_range(id: int, p: int)
    requires
        0 <= id,
        p > 0,
    ensures
        (id / p) * p <= id < (id / p + 1) * p,
        0 <= id / p,
{
    vstd::arithmetic::div_mod::lemma_fundamental_div_mod(id, p);
    vstd::arithmetic::div_mod::lemma_mod_bound(id, p);
    vstd::arithmetic::div_mod::lemma_div_pos_is_pos(id, p);
    assert((id / p + 1) * p == (id / p) * p + p) by (nonlinear_arith);
    assert((id / p) * p == p * (id / p)) by (nonlinear_arith);
}

/// Computes `2^level` for levels inside the tree.
pub fn pow2_exec(level: u64) -> (r: u64)
    requires
        level <= TREE_DEPTH,
    ensures
        r == pow2(level as nat),
        r <= MAX_ACCOUNTS,
{
    proof {
        lemma2_to64();
    }
    let mut r: u64 = 1;
    let mut i: u64 = 0;
    while i < level
        invariant
            i <= level <= TREE_DEPTH,
            r == pow2(i as nat),
            r <= MAX_ACCOUNTS,
        decreases level - i,
    {
        proof {
            lemma2_to64();
            lemma_pow2_unfold((i + 1) as nat);
            if i + 1 < TREE_DEPTH {
                lemma_pow2_strictly_increases((i + 1) as nat, TREE_DEPTH as nat);
            }
        }
        r = r * 2;
        i = i + 1;
    }
    r
}

impl AccountStateTree {
    /// The cache invariant: every level has the width the dense prefix
    /// calls for, and every cached entry is its node's hash.
    pub open spec fn inv(self) -> bool {
        &&& widths_ok(self.levels@, self@.len() as int)
        &&& nodes_ok(self.levels@, self@)
    }

    /// Creates the empty tree: every identifier unallocated.
    pub fn new() -> (r: AccountStateTree)
        ensures
            r@ == Seq::<Option<AccountView>>::empty(),
            r.inv(),
    {
        let mut levels: Vec<Vec<u64>> = Vec::new();
        let mut i: u64 = 0;
        while i <= TREE_DEPTH
            invariant
                i <= TREE_DEPTH + 1,
                levels@.len() == i,
                forall|l: int| 0 <= l < i ==> (#[trigger] levels@[l])@.len() == 0,
            decreases TREE_DEPTH + 1 - i,
        {
            levels.push(Vec::new());
            i = i + 1;
        }
        let r = AccountStateTree { slots: Vec::new(), levels };
        proof {
            assert(r@ =~= Seq::<Option<AccountView>>::empty());
        }
        r
    }

    /// Reads the slot of one identifier; identifiers beyond the dense
    /// prefix are empty.
    pub fn get(&self, id: u32) -> (r: Option<&Account>)
        ensures
            match r {
                Some(a) => live(self@, id as int) && a@ == account_at(self@, id as int),
                None => !live(self@, id as int),
            },
    {
        if (id as usize) < self.slots.len() {
            match &self.slots[id as usize] {
                Some(a) => Some(a),
                None => None,
            }
        } else {
            None
        }
    }

    /// Reads the record of a live identifier.
    pub fn get_live(&self, id: u32) -> (r: &Account)
        requires
            live(self@, id as int),
        ensures
            r@ == account_at(self@, id as int),
    {
        match &self.slots[id as usize] {
            Some(a) => a,
            None => vstd::pervasive::unreached(),
        }
    }

    /// Recomputes the cached hashes along the path of one leaf, after
    /// that one slot changed: one node per level.
    #[verifier::rlimit(100)]
    fn refresh_path(&mut self, id: u32, prev: Ghost<Seq<Option<AccountView>>>)
        requires
            (id as int) < old(self)@.len(),
            old(self)@.len() <= MAX_ACCOUNTS,
            prev@.len() == old(self)@.len(),
            forall|j: int| 0 <= j < prev@.len() && j != id ==> prev@[j] == old(self)@[j],
            widths_ok(old(self).levels@, old(self)@.len() as int),
            nodes_ok(old(self).levels@, prev@),
        ensures
            final(self).slots@ == old(self).slots@,
            final(self).inv(),
    {
        let ghost cur = self@;
        let ghost n = self@.len() as int;
        proof {
            assert(cur =~= prev@.update(id as int, cur[id as int]));
            lemma_width0(self.levels@[0]@, n);
        }
        let h = match &self.slots[id as usize] {
            Some(acc) => leaf_hash_exec(acc),
            None => EMPTY_LEAF,
        };
        self.levels[0].set(id as usize, h);
        let mut idx: u64 = id as u64;
        let mut l: u64 = 1;
        proof {
            lemma_pow2_zero();
            assert((id as int) / 1int == id as int);
            assert forall|k: int| 0 <= k < self.levels@[0]@.len() implies (self.levels@[0]@[k])
                == node_hash(cur, 0, k as nat) by {
                if k != id as int {
                    assert(old(self).levels@[0]@[k] == node_hash(prev@, 0, k as nat));
                }
            }
        }
        while l <= TREE_DEPTH
            invariant
                1 <= l <= TREE_DEPTH + 1,
                self.slots@ == old(self).slots@,
                cur == self@,
                n == self@.len() as int,
                n <= MAX_ACCOUNTS,
                (id as int) < n,
                cur == prev@.update(id as int, cur[id as int]),
                prev@.len() == n,
                widths_ok(self.levels@, n),
                idx == (id as int) / (pow2((l - 1) as nat) as int),
                forall|l2: int, k: int| 0 <= l2 < l && 0 <= k < self.levels@[l2]@.len() ==> (
                #[trigger] self.levels@[l2]@[k]) == node_hash(cur, l2 as nat, k as nat),
                forall|l2: int, k: int| l <= l2 <= TREE_DEPTH && 0 <= k < self.levels@[l2]@.len()
                    ==> (#[trigger] self.levels@[l2]@[k]) == node_hash(prev@, l2 as nat, k as nat),
            decreases TREE_DEPTH + 1 - l,
        {
            proof {
                lemma_pow2_pos((l - 1) as nat);
                lemma_pow2_pos(l as nat);
                lemma_pow2_unfold(l as nat);
                lemma_div_range(id as int, pow2((l - 1) as nat) as int);
                vstd::arithmetic::div_mod::lemma_div_denominator(
                    id as int,
                    pow2((l - 1) as nat) as int,
                    2,
                );
            }
            idx = idx / 2;
            proof {
                lemma_div_range(id as int, pow2(l as nat) as int);
            }
            let ghost p = pow2(l as nat) as int;
            let ghost p1 = pow2((l - 1) as nat) as int;
            let ghost wl = self.levels@[l as int]@.len() as int;
            proof {
                // idx lies inside the cached width of level l
                assert(idx * p <= id as int);
                assert(wl * p >= n);
                if idx >= wl {
                    lemma_mul_inequality(wl, idx as int, p);
                }
                assert(idx < wl);
                // the children's ranges tile the range of idx
                assert((2 * (idx as int)) * p1 == (idx as int) * p) by (nonlinear_arith)
                    requires p == 2 * p1;
                assert((2 * (idx as int) + 2) * p1 == (idx as int + 1) * p) by (nonlinear_arith)
                    requires p == 2 * p1;
            }
            let wc = self.levels[(l - 1) as usize].len();
            let li = 2 * idx;
            let ri = 2 * idx + 1;
            let left = if (li as usize) < wc {
                self.levels[(l - 1) as usize][li as usize]
            } else {
                proof {
                    let wcg = self.levels@[l - 1 as int]@.len() as int;
                    lemma_mul_inequality(wcg, li as int, p1);
                    assert(wcg * p1 >= n);
                    lemma_node_hash_empty(cur, (l - 1) as nat, li as nat);
                }
                empty_subtree_exec(l - 1)
            };
            let right = if (ri as usize) < wc {
                self.levels[(l - 1) as usize][ri as usize]
            } else {
                proof {
                    let wcg = self.levels@[l - 1 as int]@.len() as int;
                    lemma_mul_inequality(wcg, ri as int, p1);
                    assert(wcg * p1 >= n);
                    lemma_node_hash_empty(cur, (l - 1) as nat, ri as nat);
                }
                empty_subtree_exec(l - 1)
            };
            let v = combine_exec(left, right);
            let ghost before = self.levels@;
            self.levels[l as usize].set(idx as usize, v);
            proof {
                assert(v == node_hash(cur, l as nat, idx as nat));
                assert forall|l2: int, k: int| 0 <= l2 < l + 1 && 0 <= k < self.levels@[l2]@.len()
                    implies (#[trigger] self.levels@[l2]@[k]) == node_hash(cur, l2 as nat, k as nat)
                    by {
                    if l2 < l {
                        assert(before[l2]@[k] == node_hash(cur, l2 as nat, k as nat));
                    } else if k != idx as int {
                        assert(before[l2]@[k] == node_hash(prev@, l2 as nat, k as nat));
                        lemma_off_path(id as int, p, idx as int, k);
                        lemma_node_hash_frame(prev@, id as int, cur[id as int], l as nat, k as nat);
                    }
                }
                assert forall|l2: int, k: int| l + 1 <= l2 <= TREE_DEPTH && 0 <= k < self.levels@[
                    l2
                ]@.len() implies (#[trigger] self.levels@[l2]@[k]) == node_hash(
                    prev@,
                    l2 as nat,
                    k as nat,
                ) by {
                    assert(before[l2]@[k] == node_hash(prev@, l2 as nat, k as nat));
                }
                assert forall|l2: int| 0 <= l2 <= TREE_DEPTH implies level_width_ok(
                    (#[trigger] self.levels@[l2])@,
                    l2,
                    n,
                ) by {
                    assert(level_width_ok(before[l2]@, l2, n));
                    assert(self.levels@[l2]@.len() == before[l2]@.len());
                }
            }
            l = l + 1;
        }
    }

    /// Writes a live record at `id`, growing the dense prefix and the
    /// cached levels as needed, then refreshing the leaf's path.
    pub fn put(&mut self, id: u32, a: Account)
        requires
            (id as int) < MAX_ACCOUNTS,
            old(self)@.len() <= MAX_ACCOUNTS,
            old(self).inv(),
        ensures
            final(self)@ == store(old(self)@, id as int, Some(a@)),
            final(self)@.len() <= MAX_ACCOUNTS,
            final(self).inv(),
    {
        let ghost orig = self@;
        // grow the dense prefix with empty placeholders
        while self.slots.len() <= id as usize
            invariant
                orig == old(self)@,
                (id as int) < MAX_ACCOUNTS,
                orig.len() <= MAX_ACCOUNTS,
                if (id as int) < orig.len() {
                    self@ == orig
                } else {
                    self@.len() <= id as int + 1 && self@ == orig + Seq::new(
                        (self@.len() - orig.len()) as nat,
                        |j: int| None::<AccountView>,
                    )
                },
                orig.len() <= self@.len(),
                self@.len() <= MAX_ACCOUNTS,
                forall|j: int| orig.len() <= j < self@.len() ==> self@[j] is None,
                widths_ok(self.levels@, orig.len() as int),
                nodes_ok(self.levels@, self@),
            decreases id as int + 1 - self.slots.len(),
        {
            let ghost pre = self@;
            self.slots.push(None);
            proof {
                assert(self@ =~= pre.push(None::<AccountView>));
                if (id as int) >= orig.len() {
                    assert(self@ =~= orig + Seq::new(
                        (self@.len() - orig.len()) as nat,
                        |j: int| None::<AccountView>,
                    ));
                }
                assert forall|l2: int, k: int| 0 <= l2 <= TREE_DEPTH && 0 <= k < self.levels@[
                    l2
                ]@.len() implies (#[trigger] self.levels@[l2]@[k]) == node_hash(
                    self@,
                    l2 as nat,
                    k as nat,
                ) by {
                    assert(self.levels@[l2]@[k] == node_hash(pre, l2 as nat, k as nat));
                    lemma_node_hash_push_none(pre, l2 as nat, k as nat);
                }
            }
        }
        // widen the cached levels to cover the grown prefix
        let ghost grown = self@;
        let mut l: u64 = 0;
        while l <= TREE_DEPTH
            invariant
                l <= TREE_DEPTH + 1,
                grown == self@,
                orig.len() <= grown.len() <= MAX_ACCOUNTS,
                forall|j: int| orig.len() <= j < grown.len() ==> grown[j] is None,
                self.levels@.len() == TREE_DEPTH + 1,
                nodes_ok(self.levels@, grown),
                forall|l2: int| 0 <= l2 < l ==> level_width_ok(
                    (#[trigger] self.levels@[l2])@,
                    l2,
                    grown.len() as int,
                ),
                forall|l2: int| l <= l2 <= TREE_DEPTH ==> level_width_ok(
                    (#[trigger] self.levels@[l2])@,
                    l2,
                    orig.len() as int,
                ),
            decreases TREE_DEPTH + 1 - l,
        {
            let p = pow2_exec(l);
            let n_now = self.slots.len() as u64;
            proof {
                lemma_pow2_pos(l as nat);
            }
            let need = (n_now + p - 1) / p;
            let ghost wi = self.levels@[l as int]@.len() as int;
            proof {
                lemma_div_range((n_now + p - 1) as int, p as int);
                assert(need * p >= n_now) by {
                    assert((n_now + p - 1) < (need + 1) * (p as int));
                    assert((need + 1) * (p as int) == need * (p as int) + p) by (nonlinear_arith);
                }
                assert(need == 0 || (need - 1) * p < n_now) by {
                    if need > 0 {
                        assert(need * (p as int) <= n_now + p - 1);
                        assert((need - 1) * (p as int) == need * (p as int) - p)
                            by (nonlinear_arith);
                    }
                };
                // the current width never exceeds the needed one
                assert(wi <= need as int) by {
                    if wi > need as int {
                        lemma_mul_inequality(need as int + 1, wi, p as int);
                        assert((need as int + 1) * p == need * (p as int) + p)
                            by (nonlinear_arith);
                        assert((wi - 1) * (p as int) == wi * (p as int) - p) by (nonlinear_arith);
                        assert((wi - 1) * p >= orig.len());
                    }
                };
                // the needed width fits the identifier space
                assert(need as int <= MAX_ACCOUNTS) by {
                    if need > 0 {
                        lemma_mul_inequality(1, p as int, need as int - 1);
                        lemma_mul_is_commutative(p as int, need as int - 1);
                    }
                };
            }
            while self.levels[l as usize].len() < need as usize
                invariant
                    l <= TREE_DEPTH,
                    p == pow2(l as nat),
                    p >= 1,
                    need as int <= MAX_ACCOUNTS,
                    n_now == grown.len(),
                    grown == self@,
                    orig.len() <= grown.len() <= MAX_ACCOUNTS,
                    forall|j: int| orig.len() <= j < grown.len() ==> grown[j] is None,
                    self.levels@.len() == TREE_DEPTH + 1,
                    nodes_ok(self.levels@, grown),
                    wi <= self.levels@[l as int]@.len() <= need,
                    wi * p >= orig.len(),
                    forall|l2: int| 0 <= l2 < l ==> level_width_ok(
                        (#[trigger] self.levels@[l2])@,
                        l2,
                        grown.len() as int,
                    ),
                    forall|l2: int| l < l2 <= TREE_DEPTH ==> level_width_ok(
                        (#[trigger] self.levels@[l2])@,
                        l2,
                        orig.len() as int,
                    ),
                decreases need as int - self.levels@[l as int]@.len(),
            {
                let e = empty_subtree_exec(l);
                let ghost before = self.levels@;
                let ghost w0 = self.levels@[l as int]@.len() as int;
                self.levels[l as usize].push(e);
                proof {
                    lemma_mul_inequality(wi, w0, p as int);
                    assert forall|j: int| w0 * p <= j < grown.len() implies grown[j] is None by {
                        assert(wi * p >= orig.len());
                    }
                    lemma_node_hash_empty(grown, l as nat, w0 as nat);
                    assert forall|l2: int, k: int| 0 <= l2 <= TREE_DEPTH && 0 <= k < self.levels@[
                        l2
                    ]@.len() implies (#[trigger] self.levels@[l2]@[k]) == node_hash(
                        grown,
                        l2 as nat,
                        k as nat,
                    ) by {
                        if l2 != l as int || k < w0 {
                            assert(before[l2]@[k] == node_hash(grown, l2 as nat, k as nat));
                        }
                    }
                }
            }
            proof {
                assert(self.levels@[l as int]@.len() == need);
                assert(level_width_ok(self.levels@[l as int]@, l as int, grown.len() as int));
            }
            l = l + 1;
        }
        // write the record and refresh its path
        let ghost prev = self@;
        self.slots.set(id as usize, Some(a));
        proof {
            assert(self@ =~= prev.update(id as int, Some(a@)));
            assert(self@ =~= store(orig, id as int, Some(a@)));
        }
        self.refresh_path(id, Ghost(prev));
    }

    /// Clears the slot of a live identifier, leaving an explicit empty
    /// placeholder; the identifier becomes unallocated.
    pub fn clear(&mut self, id: u32)
        requires
            (id as int) < old(self)@.len(),
            old(self)@.len() <= MAX_ACCOUNTS,
            old(self).inv(),
        ensures
            final(self)@ == old(self)@.update(id as int, None::<AccountView>),
            final(self).inv(),
    {
        let ghost prev = self@;
        self.slots.set(id as usize, None);
        proof {
            assert(self@ =~= prev.update(id as int, None::<AccountView>));
        }
        self.refresh_path(id, Ghost(prev));
    }

    /// Finds the smallest unused identifier: freed slots are reused.
    pub fn smallest_free_id(&self) -> (r: u64)
        requires
            self@.len() <= MAX_ACCOUNTS,
        ensures
            r == smallest_free(self@),
            r <= MAX_ACCOUNTS,
    {
        let mut i: usize = 0;
        while i < self.slots.len()
            invariant
                i <= self@.len() <= MAX_ACCOUNTS,
                forall|j: int| 0 <= j < i ==> self@[j] is Some,
                smallest_free(self@) == smallest_free_from(self@, i as int),
            decreases self@.len() - i,
        {
            let free = match &self.slots[i] {
                Some(_) => false,
                None => true,
            };
            if free {
                return i as u64;
            }
            i = i + 1;
        }
        i as u64
    }

    /// Reads the cached root commitment of the tree: the stored root
    /// node, or the empty-tree value when no account was ever stored.
    pub fn root_hash(&self) -> (r: u64)
        requires
            self@.len() <= MAX_ACCOUNTS,
            self.inv(),
        ensures
            r == root_hash_of(self@),
    {
        proof {
            assert(level_width_ok(self.levels@[TREE_DEPTH as int]@, TREE_DEPTH as int, self@.len() as int));
        }
        if self.levels[TREE_DEPTH as usize].len() == 0 {
            proof {
                lemma_node_hash_empty(self@, TREE_DEPTH as nat, 0);
            }
            empty_subtree_exec(TREE_DEPTH)
        } else {
            self.levels[TREE_DEPTH as usize][0]
        }
    }
}

} // verus!
