//! Global laws of the replay engine, proved against the transition
//! relation: determinism of replay, per-token conservation, injectivity
//! of address resolution, and nonce monotonicity.

use vstd::prelude::*;
use crate::account::AccountView;
use crate::tree::{account_at, live, root_hash_of, smallest_free, store, tree_wf,
    lemma_smallest_free_from};
use crate::executor::{all_zero, apply_full_exit, apply_spec, credit, debit_bump, lemma_resolve_from,
    resolve, spec_is_priority_op, valid_token, LedgerError, Operation};
use crate::state::{index_consistent, live_pairs};

verus! {

/// The state after replaying a whole operation sequence, each operation
/// with its fee-recipient identifier; the first rejected operation aborts
/// the replay with its error.
pub open spec fn replay(
    s: Seq<Option<AccountView>>,
    ops: Seq<(Operation, u32)>,
) -> Result<Seq<Option<AccountView>>, LedgerError>
    decreases ops.len(),
{
    if ops.len() == 0 {
        Ok(s)
    } else {
        match replay(s, ops.drop_last()) {
            Ok(t) => apply_spec(t, ops.last().0, ops.last().1),
            Err(e) => Err(e),
        }
    }
}

/// Determinism: replay is a pure function of the starting state and the
/// operation sequence. Two replays of the same sequence from equal
/// states end in equal states, with equal root commitments and equal
/// account enumerations.
pub proof fn lemma_replay_deterministic(
    s1: Seq<Option<AccountView>>,
    s2: Seq<Option<AccountView>>,
    ops: Seq<(Operation, u32)>,
)
    requires
        s1 == s2,
    ensures
        replay(s1, ops) == replay(s2, ops),
        replay(s1, ops) is Ok ==> root_hash_of(replay(s1, ops)->Ok_0) == root_hash_of(
            replay(s2, ops)->Ok_0,
        ) && live_pairs(replay(s1, ops)->Ok_0) == live_pairs(replay(s2, ops)->Ok_0),
{
}

/// The balance a slot holds in one token; an empty slot holds none.
pub open spec fn slot_balance(slot: Option<AccountView>, token: u32) -> int {
    match slot {
        Some(a) => a.balances[token as int] as int,
        None => 0,
    }
}

/// The sum of one token's balances over the whole tree.
pub open spec fn token_total(s: Seq<Option<AccountView>>, token: u32) -> int
    decreases s.len(),
{
    if s.len() == 0 {
        0
    } else {
        token_total(s.drop_last(), token) + slot_balance(s.last(), token)
    }
}

/// Replacing one slot moves the token sum by exactly the slot's balance
/// difference.
pub proof fn lemma_token_total_update(
    s: Seq<Option<AccountView>>,
    id: int,
    slot: Option<AccountView>,
    token: u32,
)
    requires
        0 <= id < s.len(),
    ensures
        token_total(s.update(id, slot), token) == token_total(s, token) - slot_balance(
            s[id],
            token,
        ) + slot_balance(slot, token),
    decreases s.len(),
{
    let s2 = s.update(id, slot);
    if id == s.len() - 1 {
        assert(s2.drop_last() =~= s.drop_last());
    } else {
        assert(s2.drop_last() =~= s.drop_last().update(id, slot));
        lemma_token_total_update(s.drop_last(), id, slot, token);
    }
}

/// Appending empty slots does not move any token sum.
pub proof fn lemma_token_total_pad(s: Seq<Option<AccountView>>, n: nat, token: u32)
    ensures
        token_total(s + Seq::new(n, |j: int| None::<AccountView>), token) == token_total(s, token),
    decreases n,
{
    if n == 0 {
        assert(s + Seq::new(0, |j: int| None::<AccountView>) =~= s);
    } else {
        let padded = s + Seq::new(n, |j: int| None::<AccountView>);
        assert(padded.drop_last() =~= s + Seq::new((n - 1) as nat, |j: int| None::<AccountView>));
        assert(padded.last() is None);
        lemma_token_total_pad(s, (n - 1) as nat, token);
    }
}

/// Storing a record in a free slot adds exactly its balance to each
/// token sum.
pub proof fn lemma_token_total_store_fresh(
    s: Seq<Option<AccountView>>,
    id: int,
    av: AccountView,
    token: u32,
)
    requires
        0 <= id,
        id < s.len() ==> s[id] is None,
    ensures
        token_total(store(s, id, Some(av)), token) == token_total(s, token) + av.balances[
            token as int
        ],
{
    if id < s.len() {
        lemma_token_total_update(s, id, Some(av), token);
    } else {
        let pad = Seq::new((id + 1 - s.len()) as nat, |j: int| None::<AccountView>);
        lemma_token_total_pad(s, (id + 1 - s.len()) as nat, token);
        lemma_token_total_update(s + pad, id, Some(av), token);
    }
}

/// Conservation: a successful Transfer, TransferToNew or Close leaves
/// the per-token balance sum of the whole tree unchanged, provided the
/// fee is zero or the fee-recipient identifier holds a live account (a
/// fee sent to an unallocated identifier leaves the ledger, as a
/// withdrawn amount does). A Withdraw of nothing and a FullExit of an
/// already empty account conserve the sums too; with a non-zero result
/// both drain value out of the ledger by design.
pub proof fn lemma_conservation(
    s: Seq<Option<AccountView>>,
    op: Operation,
    fee_account: u32,
    token: u32,
)
    requires
        tree_wf(s),
        valid_token(token),
        apply_spec(s, op, fee_account) is Ok,
        match op {
            Operation::Transfer { fee, .. } => fee == 0 || live(s, fee_account as int),
            Operation::TransferToNew { fee, .. } => fee == 0 || live(s, fee_account as int),
            Operation::Close { .. } => true,
            Operation::Withdraw { amount, fee, .. } => amount == 0 && (fee == 0 || live(
                s,
                fee_account as int,
            )),
            Operation::FullExit { address } => resolve(s, address) matches Some(id)
                && all_zero(account_at(s, id).balances),
            _ => false,
        },
    ensures
        token_total(apply_spec(s, op, fee_account)->Ok_0, token) == token_total(s, token),
{
    let next = apply_spec(s, op, fee_account)->Ok_0;
    match op {
        Operation::Transfer { from, to, token: t0, amount, fee, nonce } => {
            lemma_resolve_from(s, from, 0);
            lemma_resolve_from(s, to, 0);
            let src = resolve(s, from)->Some_0;
            let dst = resolve(s, to)->Some_0;
            assert(account_at(s, src).wf());
            assert(account_at(s, dst).wf());
            let s1 = debit_bump(s, src, t0, amount + fee);
            let s2 = credit(s1, dst, t0, amount);
            assert(account_at(s1, dst).wf());
            lemma_token_total_update(s, src, s1[src], token);
            lemma_token_total_update(s1, dst, s2[dst], token);
            if live(s2, fee_account as int) {
                assert(live(s, fee_account as int));
                assert(account_at(s, fee_account as int).wf());
                assert(account_at(s2, fee_account as int).wf());
                let s3 = credit(s2, fee_account as int, t0, fee);
                lemma_token_total_update(s2, fee_account as int, s3[fee_account as int], token);
            }
        },
        Operation::TransferToNew { from, to, token: t0, amount, fee, nonce } => {
            lemma_resolve_from(s, from, 0);
            let src = resolve(s, from)->Some_0;
            let nid = smallest_free(s);
            lemma_smallest_free_from(s, 0);
            let av = crate::account::fresh_account(to);
            assert(account_at(s, src).wf());
            let s1 = store(s, nid, Some(av));
            lemma_token_total_store_fresh(s, nid, av, token);
            assert(av.balances[token as int] == 0);
            assert(account_at(s1, src).wf());
            let s2 = debit_bump(s1, src, t0, amount + fee);
            let s3 = credit(s2, nid, t0, amount);
            assert(account_at(s2, nid).wf());
            lemma_token_total_update(s1, src, s2[src], token);
            lemma_token_total_update(s2, nid, s3[nid], token);
            if live(s3, fee_account as int) {
                if live(s, fee_account as int) {
                    assert(account_at(s, fee_account as int).wf());
                }
                assert(account_at(s3, fee_account as int).wf());
                let s4 = credit(s3, fee_account as int, t0, fee);
                lemma_token_total_update(s3, fee_account as int, s4[fee_account as int], token);
            }
        },
        Operation::Withdraw { from, token: t0, amount, fee, nonce } => {
            lemma_resolve_from(s, from, 0);
            let src = resolve(s, from)->Some_0;
            assert(account_at(s, src).wf());
            let s1 = debit_bump(s, src, t0, amount + fee);
            lemma_token_total_update(s, src, s1[src], token);
            if live(s1, fee_account as int) {
                assert(live(s, fee_account as int));
                assert(account_at(s, fee_account as int).wf());
                assert(account_at(s1, fee_account as int).wf());
                let s2 = credit(s1, fee_account as int, t0, fee);
                lemma_token_total_update(s1, fee_account as int, s2[fee_account as int], token);
            }
        },
        Operation::FullExit { address } => {
            lemma_resolve_from(s, address, 0);
            let src = resolve(s, address)->Some_0;
            assert(account_at(s, src).wf());
            let next2 = apply_full_exit(s, address)->Ok_0;
            lemma_token_total_update(s, src, next2[src], token);
            assert(account_at(s, src).balances[token as int] == 0);
        },
        Operation::Close { from, nonce } => {
            lemma_resolve_from(s, from, 0);
            let src = resolve(s, from)->Some_0;
            assert(account_at(s, src).wf());
            assert(all_zero(account_at(s, src).balances));
            lemma_token_total_update(s, src, None::<AccountView>, token);
            assert(account_at(s, src).balances[token as int] == 0);
        },
        _ => {},
    }
}

/// Bijection: address resolution is injective. Two addresses that
/// resolve at all resolve to the same identifier only if they are the
/// same address; equivalently, no identifier is bound to two addresses,
/// since every resolved identifier holds exactly the queried address.
pub proof fn lemma_resolve_injective(s: Seq<Option<AccountView>>, a1: u64, a2: u64)
    requires
        resolve(s, a1) is Some,
        resolve(s, a2) is Some,
        resolve(s, a1) == resolve(s, a2),
    ensures
        a1 == a2,
{
    lemma_resolve_from(s, a1, 0);
    lemma_resolve_from(s, a2, 0);
}

/// The same bijection at the index itself: under a consistent index,
/// two bound addresses share an identifier only if they are the same
/// address.
pub proof fn lemma_index_injective(
    s: Seq<Option<AccountView>>,
    m: Map<u64, u32>,
    a1: u64,
    a2: u64,
)
    requires
        index_consistent(s, m),
        m.contains_key(a1),
        m.contains_key(a2),
        m[a1] == m[a2],
    ensures
        a1 == a2,
{
    assert(live(s, m[a1] as int));
    assert(live(s, m[a2] as int));
}

/// The source address a transaction debits, for the transaction kinds
/// that keep their source account alive.
pub open spec fn tx_source(op: Operation) -> u64 {
    match op {
        Operation::Transfer { from, .. } => from,
        Operation::TransferToNew { from, .. } => from,
        Operation::Withdraw { from, .. } => from,
        Operation::Close { from, .. } => from,
        _ => 0,
    }
}

/// Nonce behaviour of priority operations: a successful Deposit or
/// FullExit changes no existing account's nonce, and removes no account.
pub proof fn lemma_nonce_priority(s: Seq<Option<AccountView>>, op: Operation, fee_account: u32)
    requires
        spec_is_priority_op(op),
        apply_spec(s, op, fee_account) is Ok,
    ensures
        forall|i: int| #[trigger] live(s, i) ==> live(apply_spec(s, op, fee_account)->Ok_0, i)
            && account_at(apply_spec(s, op, fee_account)->Ok_0, i).nonce == account_at(s, i).nonce,
{
    let next = apply_spec(s, op, fee_account)->Ok_0;
    match op {
        Operation::Deposit { address, token, amount } => {
            lemma_resolve_from(s, address, 0);
            if resolve(s, address) is None {
                lemma_smallest_free_from(s, 0);
            }
        },
        Operation::FullExit { address } => {
            lemma_resolve_from(s, address, 0);
        },
        _ => {},
    }
}

/// Nonce behaviour of fund-moving transactions: a successful Transfer,
/// TransferToNew or Withdraw steps the source account's nonce by exactly
/// one and changes no other account's nonce. (A successful Close removes
/// its source account outright; `lemma_nonce_close` covers it.)
pub proof fn lemma_nonce_transaction(s: Seq<Option<AccountView>>, op: Operation, fee_account: u32)
    requires
        op matches Operation::Transfer { .. } || op matches Operation::TransferToNew { .. }
            || op matches Operation::Withdraw { .. },
        apply_spec(s, op, fee_account) is Ok,
    ensures
        resolve(s, tx_source(op)) is Some,
        live(s, resolve(s, tx_source(op))->Some_0),
        live(apply_spec(s, op, fee_account)->Ok_0, resolve(s, tx_source(op))->Some_0),
        account_at(apply_spec(s, op, fee_account)->Ok_0, resolve(s, tx_source(op))->Some_0).nonce
            == account_at(s, resolve(s, tx_source(op))->Some_0).nonce + 1,
        forall|i: int| #[trigger] live(s, i) && i != resolve(s, tx_source(op))->Some_0 ==> live(
            apply_spec(s, op, fee_account)->Ok_0,
            i,
        ) && account_at(apply_spec(s, op, fee_account)->Ok_0, i).nonce == account_at(s, i).nonce,
{
    match op {
        Operation::Transfer { from, to, token, amount, fee, nonce } => {
            lemma_resolve_from(s, from, 0);
            lemma_resolve_from(s, to, 0);
        },
        Operation::TransferToNew { from, to, token, amount, fee, nonce } => {
            lemma_resolve_from(s, from, 0);
            lemma_smallest_free_from(s, 0);
        },
        Operation::Withdraw { from, token, amount, fee, nonce } => {
            lemma_resolve_from(s, from, 0);
        },
        _ => {},
    }
}

/// Nonce behaviour of Close: the source account is removed; every other
/// account keeps its nonce.
pub proof fn lemma_nonce_close(s: Seq<Option<AccountView>>, op: Operation, fee_account: u32)
    requires
        op matches Operation::Close { .. },
        apply_spec(s, op, fee_account) is Ok,
    ensures
        resolve(s, tx_source(op)) is Some,
        !live(apply_spec(s, op, fee_account)->Ok_0, resolve(s, tx_source(op))->Some_0),
        forall|i: int| #[trigger] live(s, i) && i != resolve(s, tx_source(op))->Some_0 ==> live(
            apply_spec(s, op, fee_account)->Ok_0,
            i,
        ) && account_at(apply_spec(s, op, fee_account)->Ok_0, i).nonce == account_at(s, i).nonce,
{
    match op {
        Operation::Close { from, nonce } => {
            lemma_resolve_from(s, from, 0);
        },
        _ => {},
    }
}

/// Nonces never decrease: any account alive before and after a
/// successful operation has a nonce at least as large afterwards.
pub proof fn lemma_nonce_monotonic(s: Seq<Option<AccountView>>, op: Operation, fee_account: u32)
    requires
        apply_spec(s, op, fee_account) is Ok,
    ensures
        forall|i: int| #[trigger] live(s, i) && live(apply_spec(s, op, fee_account)->Ok_0, i)
            ==> account_at(apply_spec(s, op, fee_account)->Ok_0, i).nonce >= account_at(
            s,
            i,
        ).nonce,
{
    if spec_is_priority_op(op) {
        lemma_nonce_priority(s, op, fee_account);
    } else if op matches Operation::Close { .. } {
        lemma_nonce_close(s, op, fee_account);
    } else {
        lemma_nonce_transaction(s, op, fee_account);
    }
}

} // verus!
