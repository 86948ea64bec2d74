//! Account records and the global size limits of the ledger.

use vstd::prelude::*;

verus! {

/// Number of distinct token identifiers an account can hold a balance for.
/// Every account stores one balance slot per token.
pub const NUM_TOKENS: usize = 16;

/// Depth of the sparse account tree; identifiers range over
/// `0 .. 2^TREE_DEPTH`.
pub const TREE_DEPTH: u64 = 24;

/// Size of the identifier space, `2^TREE_DEPTH`.
pub const MAX_ACCOUNTS: u64 = 16777216;

/// Mathematical model of one account record.
#[verifier::ext_equal]
pub struct AccountView {
    pub address: u64,
    pub nonce: u64,
    pub balances: Seq<u64>,
}

impl AccountView {
    /// Well-formedness: one balance slot for every supported token.
    pub open spec fn wf(self) -> bool {
        self.balances.len() == NUM_TOKENS
    }
}

/// One account record: its public address, its transaction counter and one
/// balance per token. The identifier is the record's position in the tree,
/// not a field of the record.
pub struct Account {
    pub address: u64,
    pub nonce: u64,
    pub balances: Vec<u64>,
}

impl View for Account {
    type V = AccountView;

    open spec fn view(&self) -> AccountView {
        AccountView { address: self.address, nonce: self.nonce, balances: self.balances@ }
    }
}

/// The record a freshly allocated identifier starts with: zero nonce and
/// all balances zero.
pub open spec fn fresh_account(address: u64) -> AccountView {
    AccountView { address, nonce: 0, balances: Seq::new(NUM_TOKENS as nat, |i: int| 0u64) }
}

impl Account {
    /// Creates the record a freshly allocated identifier starts with.
    pub fn new_empty(address: u64) -> (r: Account)
        ensures
            r@ == fresh_account(address),
            r@.wf(),
    {
        let mut balances: Vec<u64> = Vec::new();
        while balances.len() < NUM_TOKENS
            invariant
                balances@.len() <= NUM_TOKENS,
                forall|i: int| 0 <= i < balances@.len() ==> balances@[i] == 0u64,
            decreases NUM_TOKENS - balances.len(),
        {
            balances.push(0);
        }
        let r = Account { address, nonce: 0, balances };
        proof {
            assert(r@.balances =~= fresh_account(address).balances);
            assert(r@ =~= fresh_account(address));
        }
        r
    }

    /// Returns a fresh record equal to this one.
    pub fn duplicate(&self) -> (r: Account)
        ensures
            r@ == self@,
    {
        let mut balances: Vec<u64> = Vec::new();
        let mut i: usize = 0;
        while i < self.balances.len()
            invariant
                i == balances@.len(),
                i <= self.balances@.len(),
                forall|j: int| 0 <= j < i ==> balances@[j] == self.balances@[j],
            decreases self.balances.len() - i,
        {
            balances.push(self.balances[i]);
            i = i + 1;
        }
        let r = Account { address: self.address, nonce: self.nonce, balances };
        proof {
            assert(r@.balances =~= self@.balances);
            assert(r@ =~= self@);
        }
        r
    }
}

} // verus!
