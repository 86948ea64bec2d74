//! The aggregate ledger state: current block number, the account tree and
//! the address index, with the read-only queries and the single mutating
//! entry point that applies one operation.

use vstd::prelude::*;
use crate::account::{Account, AccountView, MAX_ACCOUNTS, NUM_TOKENS};
use crate::tree::{account_at, live, root_hash_of, store, tree_wf, AccountStateTree,
    lemma_smallest_free_from};
use crate::index::AddressIndex;
use crate::executor::{apply_spec, apply_deposit, apply_transfer, apply_transfer_to_new,
    apply_withdraw, apply_close, apply_full_exit, all_zero_exec, can_credit, credit,
    debit_bump, lemma_resolve_from, resolve, valid_token, LedgerError, Operation};

verus! {

/// The address index agrees with the tree: every bound address points at
/// a live record holding that address, and every live record's address is
/// bound back to its identifier. This makes the binding a bijection
/// between live addresses and live identifiers.
pub open spec fn index_consistent(s: Seq<Option<AccountView>>, m: Map<u64, u32>) -> bool {
    &&& forall|a: u64| #[trigger] m.contains_key(a) ==> live(s, m[a] as int) && account_at(
        s,
        m[a] as int,
    ).address == a
    &&& forall|i: int| #[trigger] live(s, i) ==> m.contains_key(account_at(s, i).address) && m[
        account_at(s, i).address
    ] as int == i
}

/// Replacing a live record with one holding the same address keeps the
/// tree and the index consistent.
pub proof fn lemma_same_address_update(
    s: Seq<Option<AccountView>>,
    m: Map<u64, u32>,
    id: int,
    av: AccountView,
)
    requires
        index_consistent(s, m),
        tree_wf(s),
        live(s, id),
        av.address == account_at(s, id).address,
        av.wf(),
    ensures
        index_consistent(s.update(id, Some(av)), m),
        tree_wf(s.update(id, Some(av))),
{
    let s2 = s.update(id, Some(av));
    assert forall|a: u64| #[trigger] m.contains_key(a) implies live(s2, m[a] as int) && account_at(
        s2,
        m[a] as int,
    ).address == a by {
        assert(live(s, m[a] as int));
    }
    assert forall|i: int| #[trigger] live(s2, i) implies m.contains_key(account_at(s2, i).address)
        && m[account_at(s2, i).address] as int == i by {
        assert(live(s, i));
    }
    assert forall|i: int| live(s2, i) implies #[trigger] account_at(s2, i).wf() by {
        assert(live(s, i));
        assert(account_at(s, i).wf());
    }
}

/// Binding a fresh address to an unallocated identifier and storing a
/// record with that address keeps the tree and the index consistent.
pub proof fn lemma_store_new_account(
    s: Seq<Option<AccountView>>,
    m: Map<u64, u32>,
    id: int,
    av: AccountView,
)
    requires
        index_consistent(s, m),
        tree_wf(s),
        0 <= id < MAX_ACCOUNTS,
        !live(s, id),
        !m.contains_key(av.address),
        av.wf(),
    ensures
        index_consistent(store(s, id, Some(av)), m.insert(av.address, id as u32)),
        tree_wf(store(s, id, Some(av))),
        forall|j: int| live(store(s, id, Some(av)), j) <==> (live(s, j) || j == id),
        forall|j: int| live(s, j) ==> account_at(store(s, id, Some(av)), j) == account_at(s, j),
        account_at(store(s, id, Some(av)), id) == av,
{
    let s2 = store(s, id, Some(av));
    let m2 = m.insert(av.address, id as u32);
    assert forall|j: int| live(s2, j) implies (live(s, j) || j == id) by {}
    assert forall|a: u64| #[trigger] m2.contains_key(a) implies live(s2, m2[a] as int)
        && account_at(s2, m2[a] as int).address == a by {
        if a != av.address {
            assert(m.contains_key(a));
            assert(live(s, m[a] as int));
        }
    }
    assert forall|i: int| #[trigger] live(s2, i) implies m2.contains_key(account_at(s2, i).address)
        && m2[account_at(s2, i).address] as int == i by {
        if i != id {
            assert(live(s, i));
            assert(account_at(s, i).address != av.address);
        }
    }
    assert forall|i: int| live(s2, i) implies #[trigger] account_at(s2, i).wf() by {
        if i != id {
            assert(live(s, i));
            assert(account_at(s, i).wf());
        }
    }
}

/// Clearing a live slot and unbinding its address keeps the tree and the
/// index consistent.
pub proof fn lemma_close_update(s: Seq<Option<AccountView>>, m: Map<u64, u32>, id: int)
    requires
        index_consistent(s, m),
        tree_wf(s),
        live(s, id),
    ensures
        index_consistent(
            s.update(id, None::<AccountView>),
            m.remove(account_at(s, id).address),
        ),
        tree_wf(s.update(id, None::<AccountView>)),
{
    let addr = account_at(s, id).address;
    let s2 = s.update(id, None::<AccountView>);
    let m2 = m.remove(addr);
    assert forall|a: u64| #[trigger] m2.contains_key(a) implies live(s2, m2[a] as int)
        && account_at(s2, m2[a] as int).address == a by {
        assert(m.contains_key(a));
        assert(live(s, m[a] as int));
        assert(m[a] as int != id);
    }
    assert forall|i: int| #[trigger] live(s2, i) implies m2.contains_key(account_at(s2, i).address)
        && m2[account_at(s2, i).address] as int == i by {
        assert(live(s, i));
        assert(account_at(s, i).address != addr);
    }
    assert forall|i: int| live(s2, i) implies #[trigger] account_at(s2, i).wf() by {
        assert(live(s, i));
        assert(account_at(s, i).wf());
    }
}

/// Under a consistent index, the index lookup gives exactly the resolved
/// identifier of the tree.
pub proof fn lemma_resolve_agrees(s: Seq<Option<AccountView>>, m: Map<u64, u32>, address: u64)
    requires
        index_consistent(s, m),
    ensures
        match resolve(s, address) {
            Some(id) => m.contains_key(address) && m[address] as int == id,
            None => !m.contains_key(address),
        },
{
    lemma_resolve_from(s, address, 0);
    match resolve(s, address) {
        Some(id) => {
            assert(live(s, id));
        },
        None => {
            if m.contains_key(address) {
                assert(live(s, m[address] as int));
            }
        },
    }
}

/// The view of an enumeration of `(identifier, record)` pairs.
pub open spec fn pair_views(s: Seq<(u32, Account)>) -> Seq<(u32, AccountView)> {
    s.map(|k: int, p: (u32, Account)| (p.0, p.1@))
}

/// The enumeration of all live `(identifier, record)` pairs, in
/// ascending identifier order.
pub open spec fn live_pairs(s: Seq<Option<AccountView>>) -> Seq<(u32, AccountView)>
    decreases s.len(),
{
    if s.len() == 0 {
        Seq::empty()
    } else {
        let prefix = live_pairs(s.drop_last());
        if s.last() is Some {
            prefix.push((((s.len() - 1) as u32), s.last()->Some_0))
        } else {
            prefix
        }
    }
}

/// The tree state a persisted `(identifier, record)` mapping loads to:
/// each pair stored at its identifier.
pub open spec fn load_pairs(pairs: Seq<(u32, AccountView)>) -> Seq<Option<AccountView>>
    decreases pairs.len(),
{
    if pairs.len() == 0 {
        Seq::empty()
    } else {
        store(load_pairs(pairs.drop_last()), pairs.last().0 as int, Some(pairs.last().1))
    }
}

/// The ledger aggregate: current block number, account tree and address
/// index. The tree and index are exclusively owned; every mutation goes
/// through `update_accounts_states_from_op`.
pub struct FranklinAccountsState {
    pub block_number: u32,
    pub tree: AccountStateTree,
    pub index: AddressIndex,
}

impl View for FranklinAccountsState {
    type V = Seq<Option<AccountView>>;

    open spec fn view(&self) -> Seq<Option<AccountView>> {
        self.tree@
    }
}

impl FranklinAccountsState {
    /// The state invariant: a well-formed tree and an index that agrees
    /// with it.
    pub open spec fn wf(self) -> bool {
        &&& tree_wf(self.tree@)
        &&& index_consistent(self.tree@, self.index@)
        &&& self.tree.inv()
    }

    /// Creates the empty genesis state: no account, block number zero.
    pub fn new() -> (r: FranklinAccountsState)
        ensures
            r.wf(),
            r@ == Seq::<Option<AccountView>>::empty(),
            r.block_number == 0,
    {
        let r = FranklinAccountsState {
            block_number: 0,
            tree: AccountStateTree::new(),
            index: AddressIndex::new(),
        };
        proof {
            assert(r.wf());
        }
        r
    }

    /// Returns the current root commitment of the account tree. A pure
    /// query: two calls without an intervening mutation return the same
    /// value.
    pub fn root_hash(&self) -> (r: u64)
        requires
            self.wf(),
        ensures
            r == root_hash_of(self@),
    {
        self.tree.root_hash()
    }

    /// Looks up the identifier bound to an address.
    fn resolve_id(&self, address: u64) -> (r: Option<u32>)
        requires
            self.wf(),
        ensures
            match r {
                Some(id) => resolve(self@, address) == Some(id as int) && live(self@, id as int)
                    && account_at(self@, id as int).address == address,
                None => resolve(self@, address) is None,
            },
    {
        proof {
            lemma_resolve_agrees(self.tree@, self.index@, address);
            lemma_resolve_from(self.tree@, address, 0);
        }
        self.index.resolve(address)
    }

    /// Credits `amount` of `token` to the live account `id`.
    fn credit_exec(&mut self, id: u32, token: u32, amount: u64)
        requires
            old(self).wf(),
            live(old(self)@, id as int),
            valid_token(token),
            can_credit(old(self)@, id as int, token, amount),
        ensures
            final(self).wf(),
            final(self)@ == credit(old(self)@, id as int, token, amount),
            final(self).index@ == old(self).index@,
            final(self).block_number == old(self).block_number,
    {
        proof {
            assert(account_at(self.tree@, id as int).wf());
        }
        let a_ref = self.tree.get_live(id);
        let mut a = a_ref.duplicate();
        let bal = a.balances[token as usize];
        a.balances.set(token as usize, bal + amount);
        let ghost av = a@;
        self.tree.put(id, a);
        proof {
            let s = old(self)@;
            assert(av.balances =~= account_at(s, id as int).balances.update(
                token as int,
                (account_at(s, id as int).balances[token as int] + amount) as u64,
            ));
            assert(self.tree@ =~= credit(s, id as int, token, amount));
            lemma_same_address_update(s, old(self).index@, id as int, av);
        }
    }

    /// Debits `amount + fee` of `token` from the live account `id` and
    /// steps its nonce: the source-side mutation of every transaction.
    fn debit_bump_exec(&mut self, id: u32, token: u32, amount: u64, fee: u64)
        requires
            old(self).wf(),
            live(old(self)@, id as int),
            valid_token(token),
            account_at(old(self)@, id as int).balances[token as int] >= amount + fee,
            account_at(old(self)@, id as int).nonce < u64::MAX,
        ensures
            final(self).wf(),
            final(self)@ == debit_bump(old(self)@, id as int, token, amount + fee),
            final(self).index@ == old(self).index@,
            final(self).block_number == old(self).block_number,
    {
        proof {
            assert(account_at(self.tree@, id as int).wf());
        }
        let a_ref = self.tree.get_live(id);
        let mut a = a_ref.duplicate();
        let bal = a.balances[token as usize];
        let total = amount + fee;
        a.balances.set(token as usize, bal - total);
        a.nonce = a.nonce + 1;
        let ghost av = a@;
        self.tree.put(id, a);
        proof {
            let s = old(self)@;
            assert(av.balances =~= account_at(s, id as int).balances.update(
                token as int,
                (account_at(s, id as int).balances[token as int] - (amount + fee)) as u64,
            ));
            assert(self.tree@ =~= debit_bump(s, id as int, token, amount + fee));
            lemma_same_address_update(s, old(self).index@, id as int, av);
        }
    }

    /// Zeroes every balance of the live account `id`, keeping its
    /// address and nonce.
    fn zero_balances_exec(&mut self, id: u32)
        requires
            old(self).wf(),
            live(old(self)@, id as int),
        ensures
            final(self).wf(),
            final(self)@ == old(self)@.update(
                id as int,
                Some(
                    AccountView {
                        address: account_at(old(self)@, id as int).address,
                        nonce: account_at(old(self)@, id as int).nonce,
                        balances: Seq::new(
                            account_at(old(self)@, id as int).balances.len(),
                            |i: int| 0u64,
                        ),
                    },
                ),
            ),
            final(self).index@ == old(self).index@,
            final(self).block_number == old(self).block_number,
    {
        proof {
            assert(account_at(self.tree@, id as int).wf());
        }
        let a_ref = self.tree.get_live(id);
        let addr = a_ref.address;
        let nce = a_ref.nonce;
        let mut z = Account::new_empty(addr);
        z.nonce = nce;
        let ghost av = z@;
        self.tree.put(id, z);
        proof {
            let s = old(self)@;
            assert(av.balances =~= Seq::new(account_at(s, id as int).balances.len(), |i: int| 0u64));
            assert(self.tree@ =~= s.update(id as int, Some(av)));
            lemma_same_address_update(s, old(self).index@, id as int, av);
        }
    }

    /// Applies one Deposit: create-or-credit.
    fn do_deposit(&mut self, address: u64, token: u32, amount: u64) -> (r: Result<
        (),
        LedgerError,
    >)
        requires
            old(self).wf(),
        ensures
            final(self).wf(),
            final(self).block_number == old(self).block_number,
            match apply_deposit(old(self)@, address, token, amount) {
                Ok(next) => r is Ok && final(self)@ == next,
                Err(e) => r == Err::<(), LedgerError>(e) && final(self)@ == old(self)@ && final(self).index@ == old(self).index@,
            },
    {
        if token >= NUM_TOKENS as u32 {
            return Err(LedgerError::CapacityExceeded);
        }
        match self.resolve_id(address) {
            Some(id) => {
                proof {
                    assert(account_at(self.tree@, id as int).wf());
                }
                let bal = self.tree.get_live(id).balances[token as usize];
                if bal > u64::MAX - amount {
                    return Err(LedgerError::BalanceOverflow);
                }
                self.credit_exec(id, token, amount);
                Ok(())
            },
            None => {
                let nid = self.tree.smallest_free_id();
                if nid >= MAX_ACCOUNTS {
                    return Err(LedgerError::CapacityExceeded);
                }
                let nid32 = nid as u32;
                proof {
                    lemma_smallest_free_from(self.tree@, 0);
                    lemma_resolve_agrees(self.tree@, self.index@, address);
                    lemma_store_new_account(
                        self.tree@,
                        self.index@,
                        nid as int,
                        crate::account::fresh_account(address),
                    );
                }
                let fresh = Account::new_empty(address);
                self.tree.put(nid32, fresh);
                self.index.bind(address, nid32);
                self.credit_exec(nid32, token, amount);
                Ok(())
            },
        }
    }

    /// Applies one FullExit: the forced balance sweep.
    fn do_full_exit(&mut self, address: u64) -> (r: Result<(), LedgerError>)
        requires
            old(self).wf(),
        ensures
            final(self).wf(),
            final(self).block_number == old(self).block_number,
            match apply_full_exit(old(self)@, address) {
                Ok(next) => r is Ok && final(self)@ == next,
                Err(e) => r == Err::<(), LedgerError>(e) && final(self)@ == old(self)@ && final(self).index@ == old(self).index@,
            },
    {
        match self.resolve_id(address) {
            Some(id) => {
                self.zero_balances_exec(id);
                Ok(())
            },
            None => Err(LedgerError::UnknownAddress),
        }
    }

    /// Applies one Close: unbind the address, clear the slot.
    fn do_close(&mut self, from: u64, nonce: u32) -> (r: Result<(), LedgerError>)
        requires
            old(self).wf(),
        ensures
            final(self).wf(),
            final(self).block_number == old(self).block_number,
            match apply_close(old(self)@, from, nonce) {
                Ok(next) => r is Ok && final(self)@ == next,
                Err(e) => r == Err::<(), LedgerError>(e) && final(self)@ == old(self)@ && final(self).index@ == old(self).index@,
            },
    {
        match self.resolve_id(from) {
            Some(id) => {
                let a = self.tree.get_live(id);
                if a.nonce != nonce as u64 {
                    return Err(LedgerError::NonceMismatch);
                }
                if !all_zero_exec(a) {
                    return Err(LedgerError::NonZeroBalanceOnClose);
                }
                proof {
                    lemma_close_update(self.tree@, self.index@, id as int);
                }
                self.tree.clear(id);
                self.index.unbind(from);
                Ok(())
            },
            None => Err(LedgerError::UnknownAddress),
        }
    }

    /// Applies one Withdraw: the amount leaves the ledger.
    fn do_withdraw(
        &mut self,
        from: u64,
        token: u32,
        amount: u64,
        fee: u64,
        nonce: u32,
        fee_account: u32,
    ) -> (r: Result<(), LedgerError>)
        requires
            old(self).wf(),
        ensures
            final(self).wf(),
            final(self).block_number == old(self).block_number,
            match apply_withdraw(old(self)@, from, token, amount, fee, nonce, fee_account) {
                Ok(next) => r is Ok && final(self)@ == next,
                Err(e) => r == Err::<(), LedgerError>(e) && final(self)@ == old(self)@
                    && final(self).index@ == old(self).index@,
            },
    {
        if token >= NUM_TOKENS as u32 {
            return Err(LedgerError::CapacityExceeded);
        }
        let src = match self.resolve_id(from) {
            Some(i) => i,
            None => {
                return Err(LedgerError::UnknownAddress);
            },
        };
        proof {
            assert(account_at(self.tree@, src as int).wf());
        }
        let a = self.tree.get_live(src);
        let a_nonce = a.nonce;
        let a_bal = a.balances[token as usize];
        if a_nonce != nonce as u64 {
            return Err(LedgerError::NonceMismatch);
        }
        if (a_bal as u128) < (amount as u128) + (fee as u128) {
            return Err(LedgerError::InsufficientBalance);
        }
        let total = amount + fee;
        let ghost s = self@;
        let ghost s1 = debit_bump(s, src as int, token, amount + fee);
        let fee_live = match self.tree.get(fee_account) {
            Some(_) => true,
            None => false,
        };
        proof {
            assert(fee_live == live(s, fee_account as int));
            assert(live(s1, fee_account as int) == live(s, fee_account as int));
        }
        if fee_live {
            proof {
                assert(account_at(self.tree@, fee_account as int).wf());
            }
            let fb = if fee_account == src {
                a_bal - total
            } else {
                self.tree.get_live(fee_account).balances[token as usize]
            };
            proof {
                assert(fb == account_at(s1, fee_account as int).balances[token as int]);
            }
            if fb > u64::MAX - fee {
                return Err(LedgerError::BalanceOverflow);
            }
        }
        self.debit_bump_exec(src, token, amount, fee);
        if fee_live {
            self.credit_exec(fee_account, token, fee);
        }
        Ok(())
    }

    /// Applies one Transfer between two bound addresses.
    fn do_transfer(
        &mut self,
        from: u64,
        to: u64,
        token: u32,
        amount: u64,
        fee: u64,
        nonce: u32,
        fee_account: u32,
    ) -> (r: Result<(), LedgerError>)
        requires
            old(self).wf(),
        ensures
            final(self).wf(),
            final(self).block_number == old(self).block_number,
            match apply_transfer(old(self)@, from, to, token, amount, fee, nonce, fee_account) {
                Ok(next) => r is Ok && final(self)@ == next,
                Err(e) => r == Err::<(), LedgerError>(e) && final(self)@ == old(self)@
                    && final(self).index@ == old(self).index@,
            },
    {
        if token >= NUM_TOKENS as u32 {
            return Err(LedgerError::CapacityExceeded);
        }
        let src = match self.resolve_id(from) {
            Some(i) => i,
            None => {
                return Err(LedgerError::UnknownAddress);
            },
        };
        let dst = match self.resolve_id(to) {
            Some(i) => i,
            None => {
                return Err(LedgerError::UnknownAddress);
            },
        };
        proof {
            assert(account_at(self.tree@, src as int).wf());
            assert(account_at(self.tree@, dst as int).wf());
        }
        let a = self.tree.get_live(src);
        let a_nonce = a.nonce;
        let a_bal = a.balances[token as usize];
        if a_nonce != nonce as u64 {
            return Err(LedgerError::NonceMismatch);
        }
        if (a_bal as u128) < (amount as u128) + (fee as u128) {
            return Err(LedgerError::InsufficientBalance);
        }
        let total = amount + fee;
        let ghost s = self@;
        let ghost s1 = debit_bump(s, src as int, token, amount + fee);
        let dst_bal_s1 = if dst == src {
            a_bal - total
        } else {
            self.tree.get_live(dst).balances[token as usize]
        };
        proof {
            assert(dst_bal_s1 == account_at(s1, dst as int).balances[token as int]);
        }
        if dst_bal_s1 > u64::MAX - amount {
            return Err(LedgerError::BalanceOverflow);
        }
        let ghost s2 = credit(s1, dst as int, token, amount);
        let fee_live = match self.tree.get(fee_account) {
            Some(_) => true,
            None => false,
        };
        proof {
            assert(fee_live == live(s, fee_account as int));
            assert(live(s2, fee_account as int) == live(s, fee_account as int));
        }
        if fee_live {
            proof {
                assert(account_at(self.tree@, fee_account as int).wf());
            }
            let fb = if fee_account == dst {
                dst_bal_s1 + amount
            } else if fee_account == src {
                a_bal - total
            } else {
                self.tree.get_live(fee_account).balances[token as usize]
            };
            proof {
                assert(fb == account_at(s2, fee_account as int).balances[token as int]);
            }
            if fb > u64::MAX - fee {
                return Err(LedgerError::BalanceOverflow);
            }
        }
        self.debit_bump_exec(src, token, amount, fee);
        self.credit_exec(dst, token, amount);
        if fee_live {
            self.credit_exec(fee_account, token, fee);
        }
        Ok(())
    }

    /// Applies one TransferToNew: the target address is allocated the
    /// smallest unused identifier first.
    fn do_transfer_to_new(
        &mut self,
        from: u64,
        to: u64,
        token: u32,
        amount: u64,
        fee: u64,
        nonce: u32,
        fee_account: u32,
    ) -> (r: Result<(), LedgerError>)
        requires
            old(self).wf(),
        ensures
            final(self).wf(),
            final(self).block_number == old(self).block_number,
            match apply_transfer_to_new(old(self)@, from, to, token, amount, fee, nonce,
                fee_account) {
                Ok(next) => r is Ok && final(self)@ == next,
                Err(e) => r == Err::<(), LedgerError>(e) && final(self)@ == old(self)@
                    && final(self).index@ == old(self).index@,
            },
    {
        if token >= NUM_TOKENS as u32 {
            return Err(LedgerError::CapacityExceeded);
        }
        let src = match self.resolve_id(from) {
            Some(i) => i,
            None => {
                return Err(LedgerError::UnknownAddress);
            },
        };
        if let Some(_) = self.resolve_id(to) {
            return Err(LedgerError::DuplicateAddress);
        }
        proof {
            assert(account_at(self.tree@, src as int).wf());
        }
        let a = self.tree.get_live(src);
        let a_nonce = a.nonce;
        let a_bal = a.balances[token as usize];
        if a_nonce != nonce as u64 {
            return Err(LedgerError::NonceMismatch);
        }
        if (a_bal as u128) < (amount as u128) + (fee as u128) {
            return Err(LedgerError::InsufficientBalance);
        }
        let total = amount + fee;
        let nid = self.tree.smallest_free_id();
        if nid >= MAX_ACCOUNTS {
            return Err(LedgerError::CapacityExceeded);
        }
        let nid32 = nid as u32;
        let ghost s = self@;
        let ghost m = self.index@;
        proof {
            lemma_smallest_free_from(s, 0);
            lemma_resolve_agrees(s, m, to);
            lemma_store_new_account(s, m, nid as int, crate::account::fresh_account(to));
        }
        let ghost s1 = store(s, nid as int, Some(crate::account::fresh_account(to)));
        let ghost s2 = debit_bump(s1, src as int, token, amount + fee);
        let ghost s3 = credit(s2, nid as int, token, amount);
        let fee_live = if fee_account == nid32 {
            true
        } else {
            match self.tree.get(fee_account) {
                Some(_) => true,
                None => false,
            }
        };
        proof {
            assert(live(s3, fee_account as int) == (live(s, fee_account as int) || fee_account
                as int == nid as int));
            assert(fee_live == live(s3, fee_account as int));
        }
        if fee_live {
            let fb = if fee_account == nid32 {
                amount
            } else if fee_account == src {
                a_bal - total
            } else {
                proof {
                    assert(account_at(self.tree@, fee_account as int).wf());
                }
                self.tree.get_live(fee_account).balances[token as usize]
            };
            proof {
                assert(crate::account::fresh_account(to).balances[token as int] == 0);
                assert(fb == account_at(s3, fee_account as int).balances[token as int]);
            }
            if fb > u64::MAX - fee {
                return Err(LedgerError::BalanceOverflow);
            }
        }
        self.tree.put(nid32, Account::new_empty(to));
        self.index.bind(to, nid32);
        proof {
            assert(self.tree@ == s1);
            assert(account_at(s1, src as int) == account_at(s, src as int));
        }
        self.debit_bump_exec(src, token, amount, fee);
        proof {
            assert(account_at(s2, nid as int) == crate::account::fresh_account(to));
            assert(crate::account::fresh_account(to).balances[token as int] == 0);
        }
        self.credit_exec(nid32, token, amount);
        if fee_live {
            self.credit_exec(fee_account, token, fee);
        }
        Ok(())
    }

    /// Applies one operation against the current state, routing priority
    /// operations and transactions to their executor paths. On success
    /// the tree and index take the operation's exact effect; on error the
    /// state is exactly unchanged. The block number never moves here: it
    /// advances only through construction (`load`).
    pub fn update_accounts_states_from_op(&mut self, op: &Operation, fee_account: u32) -> (r:
        Result<(), LedgerError>)
        requires
            old(self).wf(),
        ensures
            final(self).wf(),
            final(self).block_number == old(self).block_number,
            match apply_spec(old(self)@, *op, fee_account) {
                Ok(next) => r is Ok && final(self)@ == next,
                Err(e) => r == Err::<(), LedgerError>(e) && final(self)@ == old(self)@
                    && final(self).index@ == old(self).index@,
            },
    {
        match *op {
            Operation::Deposit { address, token, amount } => self.do_deposit(
                address,
                token,
                amount,
            ),
            Operation::Transfer { from, to, token, amount, fee, nonce } => self.do_transfer(
                from,
                to,
                token,
                amount,
                fee,
                nonce,
                fee_account,
            ),
            Operation::TransferToNew { from, to, token, amount, fee, nonce } => self
                .do_transfer_to_new(from, to, token, amount, fee, nonce, fee_account),
            Operation::Withdraw { from, token, amount, fee, nonce } => self.do_withdraw(
                from,
                token,
                amount,
                fee,
                nonce,
                fee_account,
            ),
            Operation::Close { from, nonce } => self.do_close(from, nonce),
            Operation::FullExit { address } => self.do_full_exit(address),
        }
    }

    /// Enumerates all live `(identifier, record)` pairs in ascending
    /// identifier order.
    pub fn get_accounts(&self) -> (r: Vec<(u32, Account)>)
        requires
            self.wf(),
        ensures
            pair_views(r@) == live_pairs(self@),
    {
        let mut r: Vec<(u32, Account)> = Vec::new();
        let mut i: usize = 0;
        while i < self.tree.slots.len()
            invariant
                self.wf(),
                i <= self@.len() <= MAX_ACCOUNTS,
                pair_views(r@) == live_pairs(self@.take(i as int)),
            decreases self@.len() - i,
        {
            proof {
                assert(self@.take(i + 1).drop_last() =~= self@.take(i as int));
                assert(self@.take(i + 1).last() == self@[i as int]);
            }
            match self.tree.get(i as u32) {
                Some(a) => {
                    let ghost prev = r@;
                    r.push((i as u32, a.duplicate()));
                    proof {
                        let cur = r@;
                        let want = live_pairs(self@.take(i + 1));
                        assert(want == live_pairs(self@.take(i as int)).push(
                            (((i as u32), account_at(self@, i as int))),
                        ));
                        assert forall|k: int| 0 <= k < cur.len() implies pair_views(cur)[k]
                            == want[k] by {
                            assert(pair_views(cur)[k] == (cur[k].0, cur[k].1@));
                            if k < prev.len() {
                                assert(cur[k] == prev[k]);
                                assert(pair_views(prev)[k] == (prev[k].0, prev[k].1@));
                            }
                        }
                        assert(pair_views(cur) =~= want);
                    }
                },
                None => {},
            }
            i = i + 1;
        }
        proof {
            assert(self@.take(self@.len() as int) =~= self@);
        }
        r
    }

    /// Rebuilds a state from a persisted `(identifier, record)` mapping
    /// and the block it was persisted at; replay resumes at the next
    /// block. Identifiers and addresses must be distinct, as the data
    /// model guarantees for any state this engine produced.
    pub fn load(accounts: Vec<(u32, Account)>, current_block: u32) -> (r: FranklinAccountsState)
        requires
            current_block < u32::MAX,
            forall|k: int| 0 <= k < accounts@.len() ==> (#[trigger] accounts@[k].0 as int)
                < MAX_ACCOUNTS && accounts@[k].1@.wf(),
            forall|k: int, l: int| 0 <= k < l < accounts@.len() ==> accounts@[k].0 != accounts@[
                l
            ].0 && accounts@[k].1@.address != accounts@[l].1@.address,
        ensures
            r.wf(),
            r.block_number == current_block + 1,
            r@ == load_pairs(pair_views(accounts@)),
            forall|k: int| 0 <= k < accounts@.len() ==> live(r@, #[trigger] accounts@[k].0 as int)
                && account_at(r@, accounts@[k].0 as int) == accounts@[k].1@,
    {
        let ghost pairs = pair_views(accounts@);
        let mut st = FranklinAccountsState::new();
        st.block_number = current_block + 1;
        let mut i: usize = 0;
        while i < accounts.len()
            invariant
                st.wf(),
                st.block_number == current_block + 1,
                i <= accounts@.len(),
                pairs == pair_views(accounts@),
                pairs.len() == accounts@.len(),
                forall|k: int| 0 <= k < accounts@.len() ==> (#[trigger] accounts@[k].0 as int)
                    < MAX_ACCOUNTS && accounts@[k].1@.wf(),
                forall|k: int, l: int| 0 <= k < l < accounts@.len() ==> accounts@[k].0 != accounts@[
                    l
                ].0 && accounts@[k].1@.address != accounts@[l].1@.address,
                st@ == load_pairs(pairs.take(i as int)),
                forall|k: int| 0 <= k < i ==> live(st@, #[trigger] accounts@[k].0 as int)
                    && account_at(st@, accounts@[k].0 as int) == accounts@[k].1@,
                forall|j: int| #[trigger] live(st@, j) ==> exists|k: int|
                    0 <= k < i && accounts@[k].0 as int == j,
            decreases accounts@.len() - i,
        {
            let id = accounts[i].0;
            let ghost sb = st@;
            let ghost mb = st.index@;
            let ghost av = accounts@[i as int].1@;
            proof {
                assert(pairs[i as int] == (accounts@[i as int].0, accounts@[i as int].1@));
                assert(!live(sb, id as int));
                if st.index@.contains_key(av.address) {
                    let j = st.index@[av.address] as int;
                    assert(live(sb, j));
                    let k = choose|k: int| 0 <= k < i && accounts@[k].0 as int == j;
                    assert(account_at(sb, j) == accounts@[k].1@);
                    assert(accounts@[k].1@.address != av.address);
                }
                lemma_store_new_account(sb, mb, id as int, av);
            }
            let rec = accounts[i].1.duplicate();
            st.tree.put(id, rec);
            let addr = st.tree.get_live(id).address;
            st.index.bind(addr, id);
            proof {
                assert(pairs.take(i + 1).drop_last() =~= pairs.take(i as int));
                assert(pairs.take(i + 1).last() == pairs[i as int]);
                assert(st@ == store(sb, id as int, Some(av)));
                assert(load_pairs(pairs.take(i + 1)) == store(
                    load_pairs(pairs.take(i + 1).drop_last()),
                    pairs.take(i + 1).last().0 as int,
                    Some(pairs.take(i + 1).last().1),
                ));
                assert(st@ == load_pairs(pairs.take(i + 1)));
                assert forall|j: int| #[trigger] live(st@, j) implies exists|k: int|
                    0 <= k < i + 1 && accounts@[k].0 as int == j by {
                    if j == id as int {
                        assert(accounts@[i as int].0 as int == j);
                    } else {
                        assert(live(sb, j));
                        let k = choose|k: int| 0 <= k < i && accounts@[k].0 as int == j;
                        assert(0 <= k < i + 1 && accounts@[k].0 as int == j);
                    }
                }
            }
            i = i + 1;
        }
        proof {
            assert(pairs.take(pairs.len() as int) =~= pairs);
        }
        st
    }

    /// Returns the account record bound to an address, with its
    /// identifier.
    pub fn get_account_by_address(&self, address: u64) -> (r: Option<(u32, Account)>)
        requires
            self.wf(),
        ensures
            match r {
                Some(p) => resolve(self@, address) == Some(p.0 as int) && p.1@ == account_at(
                    self@,
                    p.0 as int,
                ),
                None => resolve(self@, address) is None,
            },
    {
        match self.resolve_id(address) {
            Some(id) => {
                let a = self.tree.get_live(id);
                Some((id, a.duplicate()))
            },
            None => None,
        }
    }
}

} // verus!
