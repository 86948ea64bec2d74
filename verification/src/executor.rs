//! Per-operation transition semantics.
//!
//! An `Operation` is either a priority operation (Deposit, FullExit),
//! originated outside the rollup and carrying no rollup-signed nonce, or a
//! transaction (Transfer, TransferToNew, Withdraw, Close), signed by the
//! account owner and carrying a nonce that must equal the account's
//! current nonce exactly.
//!
//! The spec functions here define, for each kind, either the exact next
//! tree state or the exact error, from the current tree state alone:
//! validate-then-mutate, so a failed operation changes nothing. Fees are
//! credited to the operator identifier supplied with the operation when a
//! live account holds it; otherwise the fee leaves the ledger, like a
//! withdrawn amount.

use vstd::prelude::*;
use crate::account::{fresh_account, AccountView, MAX_ACCOUNTS, NUM_TOKENS};
use crate::tree::{account_at, live, smallest_free, store};

verus! {

/// One typed ledger operation, as decoded from chain data.
#[derive(Clone, Copy, Debug)]
pub enum Operation {
    Deposit { address: u64, token: u32, amount: u64 },
    Transfer { from: u64, to: u64, token: u32, amount: u64, fee: u64, nonce: u32 },
    TransferToNew { from: u64, to: u64, token: u32, amount: u64, fee: u64, nonce: u32 },
    Withdraw { from: u64, token: u32, amount: u64, fee: u64, nonce: u32 },
    Close { from: u64, nonce: u32 },
    FullExit { address: u64 },
}

/// Why an operation was rejected; a rejected operation mutates nothing.
#[derive(Clone, Copy, Debug, PartialEq, Eq)]
pub enum LedgerError {
    /// An address with no bound identifier where one is required.
    UnknownAddress,
    /// TransferToNew would bind an address that is already bound.
    DuplicateAddress,
    /// A transaction nonce that does not exactly equal the account nonce.
    NonceMismatch,
    /// A debit that would drive a balance negative.
    InsufficientBalance,
    /// An identifier (account or token) outside the fixed address space.
    CapacityExceeded,
    /// Close requested while some token balance is non-zero.
    NonZeroBalanceOnClose,
    /// A credit that would drive a balance past the machine word width.
    BalanceOverflow,
}

/// Priority operations originate outside the rollup and carry no
/// rollup-signed nonce; everything else is an owner-signed transaction.
pub open spec fn spec_is_priority_op(op: Operation) -> bool {
    match op {
        Operation::Deposit { .. } => true,
        Operation::FullExit { .. } => true,
        _ => false,
    }
}

/// Routes an operation: priority operation or owner-signed transaction.
pub fn is_priority_op(op: &Operation) -> (r: bool)
    ensures
        r == spec_is_priority_op(*op),
{
    match op {
        Operation::Deposit { .. } => true,
        Operation::FullExit { .. } => true,
        _ => false,
    }
}

/// The token identifier lies inside the fixed token space.
pub open spec fn valid_token(token: u32) -> bool {
    (token as int) < (NUM_TOKENS as int)
}

/// The identifier bound to `address`: the first live slot holding it, at
/// or after `from`.
pub open spec fn resolve_from(s: Seq<Option<AccountView>>, address: u64, from: int) -> Option<int>
    decreases s.len() - from,
{
    if from < 0 || from >= s.len() {
        None
    } else if s[from] is Some && account_at(s, from).address == address {
        Some(from)
    } else {
        resolve_from(s, address, from + 1)
    }
}

/// The identifier bound to `address`, `None` when no live account holds
/// it.
pub open spec fn resolve(s: Seq<Option<AccountView>>, address: u64) -> Option<int> {
    resolve_from(s, address, 0)
}

pub proof fn lemma_resolve_from(s: Seq<Option<AccountView>>, address: u64, from: int)
    requires
        0 <= from <= s.len(),
    ensures
        match resolve_from(s, address, from) {
            Some(id) => from <= id < s.len() && live(s, id) && account_at(s, id).address
                == address,
            None => forall|j: int|
                from <= j < s.len() ==> !(#[trigger] live(s, j) && account_at(s, j).address
                    == address),
        },
    decreases s.len() - from,
{
    if from < s.len() && !(s[from] is Some && account_at(s, from).address == address) {
        lemma_resolve_from(s, address, from + 1);
    }
}

/// Crediting `amount` of `token` to the live account `id` stays within
/// the balance word width.
pub open spec fn can_credit(s: Seq<Option<AccountView>>, id: int, token: u32, amount: u64) -> bool {
    account_at(s, id).balances[token as int] + amount <= u64::MAX
}

/// The state after crediting `amount` of `token` to the live account
/// `id`; balances only, nonce and address untouched.
pub open spec fn credit(s: Seq<Option<AccountView>>, id: int, token: u32, amount: u64) -> Seq<
    Option<AccountView>,
> {
    let a = account_at(s, id);
    s.update(
        id,
        Some(
            AccountView {
                address: a.address,
                nonce: a.nonce,
                balances: a.balances.update(
                    token as int,
                    (a.balances[token as int] + amount) as u64,
                ),
            },
        ),
    )
}

/// The state after debiting `total` of `token` from the live account `id`
/// and stepping its nonce: the mutation every successful transaction
/// applies to its source.
pub open spec fn debit_bump(s: Seq<Option<AccountView>>, id: int, token: u32, total: int) -> Seq<
    Option<AccountView>,
> {
    let a = account_at(s, id);
    s.update(
        id,
        Some(
            AccountView {
                address: a.address,
                nonce: (a.nonce + 1) as u64,
                balances: a.balances.update(
                    token as int,
                    (a.balances[token as int] - total) as u64,
                ),
            },
        ),
    )
}

/// The fee settlement: credited to the operator identifier when a live
/// account holds it, rejected when the credit would overflow, and leaving
/// the ledger when the identifier holds no account.
pub open spec fn settle_fee(
    s: Seq<Option<AccountView>>,
    fee_account: u32,
    token: u32,
    fee: u64,
) -> Result<Seq<Option<AccountView>>, LedgerError> {
    if live(s, fee_account as int) {
        if can_credit(s, fee_account as int, token, fee) {
            Ok(credit(s, fee_account as int, token, fee))
        } else {
            Err(LedgerError::BalanceOverflow)
        }
    } else {
        Ok(s)
    }
}

/// Deposit: create-or-credit. An unbound address is allocated the
/// smallest unused identifier and a fresh record first.
pub open spec fn apply_deposit(
    s: Seq<Option<AccountView>>,
    address: u64,
    token: u32,
    amount: u64,
) -> Result<Seq<Option<AccountView>>, LedgerError> {
    if !valid_token(token) {
        Err(LedgerError::CapacityExceeded)
    } else {
        match resolve(s, address) {
            Some(id) => if can_credit(s, id, token, amount) {
                Ok(credit(s, id, token, amount))
            } else {
                Err(LedgerError::BalanceOverflow)
            },
            None => {
                let id = smallest_free(s);
                if id >= MAX_ACCOUNTS {
                    Err(LedgerError::CapacityExceeded)
                } else {
                    Ok(credit(store(s, id, Some(fresh_account(address))), id, token, amount))
                }
            },
        }
    }
}

/// FullExit: a forced balance sweep. The resolved account keeps its
/// identifier, address and nonce; every balance becomes zero.
pub open spec fn apply_full_exit(s: Seq<Option<AccountView>>, address: u64) -> Result<
    Seq<Option<AccountView>>,
    LedgerError,
> {
    match resolve(s, address) {
        Some(id) => {
            let a = account_at(s, id);
            Ok(
                s.update(
                    id,
                    Some(
                        AccountView {
                            address: a.address,
                            nonce: a.nonce,
                            balances: Seq::new(a.balances.len(), |i: int| 0u64),
                        },
                    ),
                ),
            )
        },
        None => Err(LedgerError::UnknownAddress),
    }
}

/// Transfer: debit source by `amount + fee`, step its nonce, credit
/// target by `amount`, then settle the fee.
pub open spec fn apply_transfer(
    s: Seq<Option<AccountView>>,
    from: u64,
    to: u64,
    token: u32,
    amount: u64,
    fee: u64,
    nonce: u32,
    fee_account: u32,
) -> Result<Seq<Option<AccountView>>, LedgerError> {
    if !valid_token(token) {
        Err(LedgerError::CapacityExceeded)
    } else {
        match resolve(s, from) {
            None => Err(LedgerError::UnknownAddress),
            Some(src) => match resolve(s, to) {
                None => Err(LedgerError::UnknownAddress),
                Some(dst) => {
                    let a = account_at(s, src);
                    if a.nonce != nonce as u64 {
                        Err(LedgerError::NonceMismatch)
                    } else if a.balances[token as int] < amount + fee {
                        Err(LedgerError::InsufficientBalance)
                    } else {
                        let s1 = debit_bump(s, src, token, amount + fee);
                        if !can_credit(s1, dst, token, amount) {
                            Err(LedgerError::BalanceOverflow)
                        } else {
                            settle_fee(credit(s1, dst, token, amount), fee_account, token, fee)
                        }
                    }
                },
            },
        }
    }
}

/// TransferToNew: like Transfer, except the target address must be
/// unbound and is allocated the smallest unused identifier with a fresh
/// record first.
pub open spec fn apply_transfer_to_new(
    s: Seq<Option<AccountView>>,
    from: u64,
    to: u64,
    token: u32,
    amount: u64,
    fee: u64,
    nonce: u32,
    fee_account: u32,
) -> Result<Seq<Option<AccountView>>, LedgerError> {
    if !valid_token(token) {
        Err(LedgerError::CapacityExceeded)
    } else {
        match resolve(s, from) {
            None => Err(LedgerError::UnknownAddress),
            Some(src) => if resolve(s, to) is Some {
                Err(LedgerError::DuplicateAddress)
            } else {
                let a = account_at(s, src);
                if a.nonce != nonce as u64 {
                    Err(LedgerError::NonceMismatch)
                } else if a.balances[token as int] < amount + fee {
                    Err(LedgerError::InsufficientBalance)
                } else {
                    let nid = smallest_free(s);
                    if nid >= MAX_ACCOUNTS {
                        Err(LedgerError::CapacityExceeded)
                    } else {
                        let s1 = store(s, nid, Some(fresh_account(to)));
                        let s2 = debit_bump(s1, src, token, amount + fee);
                        settle_fee(credit(s2, nid, token, amount), fee_account, token, fee)
                    }
                }
            },
        }
    }
}

/// Withdraw: debit source by `amount + fee` and step its nonce; the
/// amount leaves the ledger, the fee is settled.
pub open spec fn apply_withdraw(
    s: Seq<Option<AccountView>>,
    from: u64,
    token: u32,
    amount: u64,
    fee: u64,
    nonce: u32,
    fee_account: u32,
) -> Result<Seq<Option<AccountView>>, LedgerError> {
    if !valid_token(token) {
        Err(LedgerError::CapacityExceeded)
    } else {
        match resolve(s, from) {
            None => Err(LedgerError::UnknownAddress),
            Some(src) => {
                let a = account_at(s, src);
                if a.nonce != nonce as u64 {
                    Err(LedgerError::NonceMismatch)
                } else if a.balances[token as int] < amount + fee {
                    Err(LedgerError::InsufficientBalance)
                } else {
                    settle_fee(debit_bump(s, src, token, amount + fee), fee_account, token, fee)
                }
            },
        }
    }
}

/// Every balance of the record is zero.
pub open spec fn all_zero(balances: Seq<u64>) -> bool {
    forall|t: int| 0 <= t < balances.len() ==> balances[t] == 0u64
}

/// Checks that every balance of the record is zero.
pub fn all_zero_exec(a: &crate::account::Account) -> (r: bool)
    ensures
        r == all_zero(a@.balances),
{
    let mut i: usize = 0;
    while i < a.balances.len()
        invariant
            i <= a.balances@.len(),
            forall|t: int| 0 <= t < i ==> a.balances@[t] == 0u64,
        decreases a.balances.len() - i,
    {
        if a.balances[i] != 0 {
            return false;
        }
        i = i + 1;
    }
    true
}

/// Close: unbind the address and reset the slot to empty; the identifier
/// becomes unallocated again. Requires an exact nonce and all balances
/// zero.
pub open spec fn apply_close(s: Seq<Option<AccountView>>, from: u64, nonce: u32) -> Result<
    Seq<Option<AccountView>>,
    LedgerError,
> {
    match resolve(s, from) {
        None => Err(LedgerError::UnknownAddress),
        Some(src) => {
            let a = account_at(s, src);
            if a.nonce != nonce as u64 {
                Err(LedgerError::NonceMismatch)
            } else if !all_zero(a.balances) {
                Err(LedgerError::NonZeroBalanceOnClose)
            } else {
                Ok(s.update(src, None::<AccountView>))
            }
        },
    }
}

/// The one-step transition relation of the ledger: the exact next state,
/// or the exact error, for one operation against one tree state.
pub open spec fn apply_spec(
    s: Seq<Option<AccountView>>,
    op: Operation,
    fee_account: u32,
) -> Result<Seq<Option<AccountView>>, LedgerError> {
    match op {
        Operation::Deposit { address, token, amount } => apply_deposit(s, address, token, amount),
        Operation::Transfer { from, to, token, amount, fee, nonce } => apply_transfer(
            s,
            from,
            to,
            token,
            amount,
            fee,
            nonce,
            fee_account,
        ),
        Operation::TransferToNew { from, to, token, amount, fee, nonce } => apply_transfer_to_new(
            s,
            from,
            to,
            token,
            amount,
            fee,
            nonce,
            fee_account,
        ),
        Operation::Withdraw { from, token, amount, fee, nonce } => apply_withdraw(
            s,
            from,
            token,
            amount,
            fee,
            nonce,
            fee_account,
        ),
        Operation::Close { from, nonce } => apply_close(s, from, nonce),
        Operation::FullExit { address } => apply_full_exit(s, address),
    }
}

} // verus!
