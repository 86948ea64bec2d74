use accounts_state::account::NUM_TOKENS;
use accounts_state::executor::{is_priority_op, LedgerError, Operation};
use accounts_state::state::FranklinAccountsState;

const X: u64 = 0xaaaa;
const Y: u64 = 0xbbbb;
const OPERATOR: u64 = 0xcccc;

/// A fee-recipient identifier no account lives at in these tests.
const NO_FEE_ACCT: u32 = 9999;

fn deposit(st: &mut FranklinAccountsState, address: u64, token: u32, amount: u64) {
    st.update_accounts_states_from_op(&Operation::Deposit { address, token, amount }, NO_FEE_ACCT)
        .expect("deposit");
}

#[test]
fn scenario_a_deposit_to_genesis() {
    let mut st = FranklinAccountsState::new();
    deposit(&mut st, X, 0, 100);
    let (id, acct) = st.get_account_by_address(X).expect("account bound");
    assert_eq!(id, 0);
    assert_eq!(acct.balances[0], 100);
    assert_eq!(acct.nonce, 0);
}

#[test]
fn scenario_b_transfer_to_new() {
    let mut st = FranklinAccountsState::new();
    deposit(&mut st, X, 0, 100);
    st.update_accounts_states_from_op(
        &Operation::TransferToNew { from: X, to: Y, token: 0, amount: 30, fee: 1, nonce: 0 },
        NO_FEE_ACCT,
    )
    .expect("transfer to new");
    let (xid, xacct) = st.get_account_by_address(X).expect("x bound");
    assert_eq!(xid, 0);
    assert_eq!(xacct.balances[0], 69);
    assert_eq!(xacct.nonce, 1);
    let (yid, yacct) = st.get_account_by_address(Y).expect("y bound");
    assert_eq!(yid, 1);
    assert_eq!(yacct.balances[0], 30);
    assert_eq!(yacct.nonce, 0);
}

#[test]
fn scenario_c_insufficient_balance_leaves_state_unchanged() {
    let mut st = FranklinAccountsState::new();
    deposit(&mut st, X, 0, 100);
    st.update_accounts_states_from_op(
        &Operation::TransferToNew { from: X, to: Y, token: 0, amount: 30, fee: 1, nonce: 0 },
        NO_FEE_ACCT,
    )
    .expect("transfer to new");
    let root_before = st.root_hash();
    let accounts_before: Vec<(u32, u64, u64)> =
        st.get_accounts().iter().map(|(i, a)| (*i, a.nonce, a.balances[0])).collect();
    let err = st
        .update_accounts_states_from_op(
            &Operation::Withdraw { from: X, token: 0, amount: 1000, fee: 0, nonce: 1 },
            NO_FEE_ACCT,
        )
        .expect_err("must fail");
    assert_eq!(err, LedgerError::InsufficientBalance);
    assert_eq!(st.root_hash(), root_before);
    let accounts_after: Vec<(u32, u64, u64)> =
        st.get_accounts().iter().map(|(i, a)| (*i, a.nonce, a.balances[0])).collect();
    assert_eq!(accounts_after, accounts_before);
}

#[test]
fn scenario_d_close_with_nonzero_balance() {
    let mut st = FranklinAccountsState::new();
    deposit(&mut st, X, 0, 100);
    st.update_accounts_states_from_op(
        &Operation::TransferToNew { from: X, to: Y, token: 0, amount: 30, fee: 1, nonce: 0 },
        NO_FEE_ACCT,
    )
    .expect("transfer to new");
    let err = st
        .update_accounts_states_from_op(&Operation::Close { from: Y, nonce: 0 }, NO_FEE_ACCT)
        .expect_err("must fail");
    assert_eq!(err, LedgerError::NonZeroBalanceOnClose);
}

#[test]
fn scenario_e_nonce_gap_rejected() {
    let mut st = FranklinAccountsState::new();
    deposit(&mut st, X, 0, 100);
    deposit(&mut st, Y, 0, 1);
    let err = st
        .update_accounts_states_from_op(
            &Operation::Transfer { from: X, to: Y, token: 0, amount: 10, fee: 0, nonce: 5 },
            NO_FEE_ACCT,
        )
        .expect_err("must fail");
    assert_eq!(err, LedgerError::NonceMismatch);
}

fn replay_sample(ops: &[Operation]) -> FranklinAccountsState {
    let mut st = FranklinAccountsState::new();
    for op in ops {
        st.update_accounts_states_from_op(op, NO_FEE_ACCT).expect("op applies");
    }
    st
}

#[test]
fn determinism_same_sequence_same_state() {
    let ops = vec![
        Operation::Deposit { address: X, token: 0, amount: 500 },
        Operation::Deposit { address: Y, token: 2, amount: 77 },
        Operation::TransferToNew { from: X, to: 0xdddd, token: 0, amount: 50, fee: 5, nonce: 0 },
        Operation::Withdraw { from: X, token: 0, amount: 100, fee: 0, nonce: 1 },
        Operation::FullExit { address: Y },
    ];
    let st1 = replay_sample(&ops);
    let st2 = replay_sample(&ops);
    assert_eq!(st1.root_hash(), st2.root_hash());
    let enum1: Vec<(u32, u64, u64, Vec<u64>)> = st1
        .get_accounts()
        .iter()
        .map(|(i, a)| (*i, a.address, a.nonce, a.balances.clone()))
        .collect();
    let enum2: Vec<(u32, u64, u64, Vec<u64>)> = st2
        .get_accounts()
        .iter()
        .map(|(i, a)| (*i, a.address, a.nonce, a.balances.clone()))
        .collect();
    assert_eq!(enum1, enum2);
}

fn token_total(st: &FranklinAccountsState, token: usize) -> u128 {
    st.get_accounts().iter().map(|(_, a)| a.balances[token] as u128).sum()
}

#[test]
fn conservation_across_transfers_and_close() {
    let mut st = FranklinAccountsState::new();
    deposit(&mut st, OPERATOR, 0, 0);
    deposit(&mut st, X, 0, 1000);
    let before = token_total(&st, 0);
    st.update_accounts_states_from_op(
        &Operation::TransferToNew { from: X, to: Y, token: 0, amount: 200, fee: 10, nonce: 0 },
        0, // the operator's identifier: fees stay in the ledger
    )
    .expect("transfer to new");
    assert_eq!(token_total(&st, 0), before);
    st.update_accounts_states_from_op(
        &Operation::Transfer { from: Y, to: X, token: 0, amount: 200, fee: 0, nonce: 0 },
        0,
    )
    .expect("transfer");
    assert_eq!(token_total(&st, 0), before);
    st.update_accounts_states_from_op(&Operation::Close { from: Y, nonce: 1 }, 0)
        .expect("close");
    assert_eq!(token_total(&st, 0), before);
}

#[test]
fn bijection_distinct_addresses_distinct_ids() {
    let mut st = FranklinAccountsState::new();
    deposit(&mut st, X, 0, 1);
    deposit(&mut st, Y, 0, 1);
    deposit(&mut st, OPERATOR, 0, 1);
    let (xid, _) = st.get_account_by_address(X).unwrap();
    let (yid, _) = st.get_account_by_address(Y).unwrap();
    let (oid, _) = st.get_account_by_address(OPERATOR).unwrap();
    assert!(xid != yid && yid != oid && xid != oid);
    let ids: Vec<u32> = st.get_accounts().iter().map(|(i, _)| *i).collect();
    assert_eq!(ids, vec![0, 1, 2]);
}

#[test]
fn nonce_steps_by_one_per_transaction_and_priority_ops_keep_it() {
    let mut st = FranklinAccountsState::new();
    deposit(&mut st, X, 0, 100);
    deposit(&mut st, Y, 0, 100);
    for expected in 0..3u64 {
        let (_, a) = st.get_account_by_address(X).unwrap();
        assert_eq!(a.nonce, expected);
        st.update_accounts_states_from_op(
            &Operation::Transfer {
                from: X,
                to: Y,
                token: 0,
                amount: 5,
                fee: 0,
                nonce: expected as u32,
            },
            NO_FEE_ACCT,
        )
        .expect("transfer");
        let (_, a2) = st.get_account_by_address(X).unwrap();
        assert_eq!(a2.nonce, expected + 1);
        let (_, y) = st.get_account_by_address(Y).unwrap();
        assert_eq!(y.nonce, 0);
    }
    deposit(&mut st, X, 0, 7);
    st.update_accounts_states_from_op(&Operation::FullExit { address: X }, NO_FEE_ACCT)
        .expect("full exit");
    let (_, a) = st.get_account_by_address(X).unwrap();
    assert_eq!(a.nonce, 3);
}

#[test]
fn idempotent_root_hash_query() {
    let mut st = FranklinAccountsState::new();
    let empty1 = st.root_hash();
    let empty2 = st.root_hash();
    assert_eq!(empty1, empty2);
    deposit(&mut st, X, 3, 42);
    let r1 = st.root_hash();
    let r2 = st.root_hash();
    assert_eq!(r1, r2);
    assert_ne!(r1, empty1);
}

#[test]
fn unknown_address_errors() {
    let mut st = FranklinAccountsState::new();
    deposit(&mut st, X, 0, 100);
    let err = st
        .update_accounts_states_from_op(
            &Operation::Transfer { from: Y, to: X, token: 0, amount: 1, fee: 0, nonce: 0 },
            NO_FEE_ACCT,
        )
        .expect_err("unknown source");
    assert_eq!(err, LedgerError::UnknownAddress);
    let err = st
        .update_accounts_states_from_op(
            &Operation::Transfer { from: X, to: Y, token: 0, amount: 1, fee: 0, nonce: 0 },
            NO_FEE_ACCT,
        )
        .expect_err("unknown target");
    assert_eq!(err, LedgerError::UnknownAddress);
    let err = st
        .update_accounts_states_from_op(&Operation::FullExit { address: Y }, NO_FEE_ACCT)
        .expect_err("unknown full exit");
    assert_eq!(err, LedgerError::UnknownAddress);
    let err = st
        .update_accounts_states_from_op(&Operation::Close { from: Y, nonce: 0 }, NO_FEE_ACCT)
        .expect_err("unknown close");
    assert_eq!(err, LedgerError::UnknownAddress);
}

#[test]
fn duplicate_address_on_transfer_to_new() {
    let mut st = FranklinAccountsState::new();
    deposit(&mut st, X, 0, 100);
    deposit(&mut st, Y, 0, 1);
    let err = st
        .update_accounts_states_from_op(
            &Operation::TransferToNew { from: X, to: Y, token: 0, amount: 1, fee: 0, nonce: 0 },
            NO_FEE_ACCT,
        )
        .expect_err("already bound");
    assert_eq!(err, LedgerError::DuplicateAddress);
}

#[test]
fn token_outside_fixed_space_is_capacity_error() {
    let mut st = FranklinAccountsState::new();
    let err = st
        .update_accounts_states_from_op(
            &Operation::Deposit { address: X, token: NUM_TOKENS as u32, amount: 1 },
            NO_FEE_ACCT,
        )
        .expect_err("token outside space");
    assert_eq!(err, LedgerError::CapacityExceeded);
}

#[test]
fn balance_overflow_on_second_deposit() {
    let mut st = FranklinAccountsState::new();
    deposit(&mut st, X, 0, u64::MAX);
    let err = st
        .update_accounts_states_from_op(
            &Operation::Deposit { address: X, token: 0, amount: 1 },
            NO_FEE_ACCT,
        )
        .expect_err("credit overflow");
    assert_eq!(err, LedgerError::BalanceOverflow);
    let (_, a) = st.get_account_by_address(X).unwrap();
    assert_eq!(a.balances[0], u64::MAX);
}

#[test]
fn deposit_credits_existing_account() {
    let mut st = FranklinAccountsState::new();
    deposit(&mut st, X, 1, 10);
    deposit(&mut st, X, 1, 15);
    let (id, a) = st.get_account_by_address(X).unwrap();
    assert_eq!(id, 0);
    assert_eq!(a.balances[1], 25);
    assert_eq!(st.get_accounts().len(), 1);
}

#[test]
fn full_exit_sweeps_all_balances() {
    let mut st = FranklinAccountsState::new();
    deposit(&mut st, X, 0, 10);
    deposit(&mut st, X, 5, 20);
    st.update_accounts_states_from_op(&Operation::FullExit { address: X }, NO_FEE_ACCT)
        .expect("full exit");
    let (id, a) = st.get_account_by_address(X).unwrap();
    assert_eq!(id, 0);
    assert!(a.balances.iter().all(|b| *b == 0));
    assert_eq!(a.address, X);
}

#[test]
fn close_frees_identifier_for_reuse() {
    let mut st = FranklinAccountsState::new();
    deposit(&mut st, X, 0, 50);
    deposit(&mut st, Y, 0, 1);
    st.update_accounts_states_from_op(
        &Operation::Withdraw { from: X, token: 0, amount: 50, fee: 0, nonce: 0 },
        NO_FEE_ACCT,
    )
    .expect("withdraw all");
    st.update_accounts_states_from_op(&Operation::Close { from: X, nonce: 1 }, NO_FEE_ACCT)
        .expect("close");
    assert!(st.get_account_by_address(X).is_none());
    // the freed identifier 0 is the smallest unused one again
    deposit(&mut st, OPERATOR, 0, 5);
    let (id, _) = st.get_account_by_address(OPERATOR).unwrap();
    assert_eq!(id, 0);
}

#[test]
fn withdraw_debits_and_steps_nonce() {
    let mut st = FranklinAccountsState::new();
    deposit(&mut st, OPERATOR, 2, 0);
    deposit(&mut st, X, 2, 100);
    st.update_accounts_states_from_op(
        &Operation::Withdraw { from: X, token: 2, amount: 30, fee: 5, nonce: 0 },
        0,
    )
    .expect("withdraw");
    let (_, x) = st.get_account_by_address(X).unwrap();
    assert_eq!(x.balances[2], 65);
    assert_eq!(x.nonce, 1);
    let (_, op_acct) = st.get_account_by_address(OPERATOR).unwrap();
    assert_eq!(op_acct.balances[2], 5);
}

#[test]
fn transfer_fee_goes_to_operator_account() {
    let mut st = FranklinAccountsState::new();
    deposit(&mut st, OPERATOR, 0, 0);
    deposit(&mut st, X, 0, 100);
    deposit(&mut st, Y, 0, 0);
    st.update_accounts_states_from_op(
        &Operation::Transfer { from: X, to: Y, token: 0, amount: 40, fee: 3, nonce: 0 },
        0,
    )
    .expect("transfer");
    let (_, x) = st.get_account_by_address(X).unwrap();
    let (_, y) = st.get_account_by_address(Y).unwrap();
    let (_, o) = st.get_account_by_address(OPERATOR).unwrap();
    assert_eq!(x.balances[0], 57);
    assert_eq!(y.balances[0], 40);
    assert_eq!(o.balances[0], 3);
}

#[test]
fn self_transfer_only_pays_the_fee() {
    let mut st = FranklinAccountsState::new();
    deposit(&mut st, OPERATOR, 0, 0);
    deposit(&mut st, X, 0, 100);
    st.update_accounts_states_from_op(
        &Operation::Transfer { from: X, to: X, token: 0, amount: 60, fee: 2, nonce: 0 },
        0,
    )
    .expect("self transfer");
    let (_, x) = st.get_account_by_address(X).unwrap();
    assert_eq!(x.balances[0], 98);
    assert_eq!(x.nonce, 1);
}

#[test]
fn load_resumes_at_next_block() {
    let mut st = FranklinAccountsState::new();
    deposit(&mut st, X, 0, 500);
    deposit(&mut st, Y, 1, 40);
    st.update_accounts_states_from_op(
        &Operation::Transfer { from: X, to: Y, token: 0, amount: 10, fee: 0, nonce: 0 },
        NO_FEE_ACCT,
    )
    .expect("transfer");
    let snapshot = st.get_accounts();
    let root = st.root_hash();
    let loaded = FranklinAccountsState::load(snapshot, 7);
    assert_eq!(loaded.block_number, 8);
    assert_eq!(loaded.root_hash(), root);
    let (id, x) = loaded.get_account_by_address(X).unwrap();
    assert_eq!(id, 0);
    assert_eq!(x.balances[0], 490);
    assert_eq!(x.nonce, 1);
}

#[test]
fn dispatcher_classifies_priority_operations() {
    assert!(is_priority_op(&Operation::Deposit { address: X, token: 0, amount: 1 }));
    assert!(is_priority_op(&Operation::FullExit { address: X }));
    assert!(!is_priority_op(&Operation::Transfer {
        from: X,
        to: Y,
        token: 0,
        amount: 1,
        fee: 0,
        nonce: 0
    }));
    assert!(!is_priority_op(&Operation::TransferToNew {
        from: X,
        to: Y,
        token: 0,
        amount: 1,
        fee: 0,
        nonce: 0
    }));
    assert!(!is_priority_op(&Operation::Withdraw {
        from: X,
        token: 0,
        amount: 1,
        fee: 0,
        nonce: 0
    }));
    assert!(!is_priority_op(&Operation::Close { from: X, nonce: 0 }));
}

#[test]
fn accounts_enumerate_in_identifier_order() {
    let mut st = FranklinAccountsState::new();
    deposit(&mut st, 5, 0, 1);
    deposit(&mut st, 3, 0, 2);
    deposit(&mut st, 9, 0, 3);
    let pairs: Vec<(u32, u64)> = st.get_accounts().iter().map(|(i, a)| (*i, a.address)).collect();
    assert_eq!(pairs, vec![(0, 5), (1, 3), (2, 9)]);
}

#[test]
fn zero_result_withdraw_and_full_exit_conserve_sums() {
    let mut st = FranklinAccountsState::new();
    deposit(&mut st, OPERATOR, 0, 0);
    deposit(&mut st, X, 0, 250);
    let before = token_total(&st, 0);
    st.update_accounts_states_from_op(
        &Operation::Withdraw { from: X, token: 0, amount: 0, fee: 0, nonce: 0 },
        0,
    )
    .expect("withdraw of nothing");
    assert_eq!(token_total(&st, 0), before);
    st.update_accounts_states_from_op(&Operation::FullExit { address: OPERATOR }, 0)
        .expect("full exit of empty account");
    assert_eq!(token_total(&st, 0), before);
}

#[test]
fn transfer_leaves_other_tokens_untouched() {
    let mut st = FranklinAccountsState::new();
    deposit(&mut st, X, 0, 100);
    deposit(&mut st, X, 7, 55);
    deposit(&mut st, Y, 0, 0);
    st.update_accounts_states_from_op(
        &Operation::Transfer { from: X, to: Y, token: 0, amount: 10, fee: 0, nonce: 0 },
        NO_FEE_ACCT,
    )
    .expect("transfer");
    let (_, x) = st.get_account_by_address(X).unwrap();
    assert_eq!(x.balances[7], 55);
    assert_eq!(token_total(&st, 7), 55);
}

#[test]
fn transfer_token_outside_fixed_space() {
    let mut st = FranklinAccountsState::new();
    deposit(&mut st, X, 0, 10);
    deposit(&mut st, Y, 0, 10);
    let err = st
        .update_accounts_states_from_op(
            &Operation::Transfer { from: X, to: Y, token: 100, amount: 1, fee: 0, nonce: 0 },
            NO_FEE_ACCT,
        )
        .expect_err("token outside space");
    assert_eq!(err, LedgerError::CapacityExceeded);
}

#[test]
fn close_with_wrong_nonce() {
    let mut st = FranklinAccountsState::new();
    deposit(&mut st, X, 0, 0);
    let err = st
        .update_accounts_states_from_op(&Operation::Close { from: X, nonce: 3 }, NO_FEE_ACCT)
        .expect_err("nonce gap");
    assert_eq!(err, LedgerError::NonceMismatch);
}

#[test]
fn load_of_nothing_is_genesis_at_next_block() {
    let empty = FranklinAccountsState::new();
    let loaded = FranklinAccountsState::load(Vec::new(), 0);
    assert_eq!(loaded.block_number, 1);
    assert_eq!(loaded.root_hash(), empty.root_hash());
    assert!(loaded.get_accounts().is_empty());
}
