// End-to-end tests of the ledger: transfers, folding, unfolding.

use dlog::Balance;
use dlog::LabelId;
use dlog::SpecError;
use dlog::TransferTx;
use dlog::UniverseState;

fn label(phone: &str, name: &str) -> LabelId {
    LabelId { phone: String::from(phone), label: String::from(name) }
}

fn total_of(state: &UniverseState) -> u128 {
    let mut sum: u128 = 0;
    for (_, balance) in state.balances() {
        sum += balance.amount;
    }
    sum
}

#[test]
fn new_state_is_empty() {
    let state = UniverseState::new();
    assert_eq!(state.balance_of(&label("1", "a")).amount, 0);
    assert!(state.balances().is_empty());
    assert!(state.latest_snapshot().is_none());
}

#[test]
fn set_and_read_balances() {
    let mut state = UniverseState::new();
    state.set_balance(label("1", "a"), Balance { amount: 100 });
    state.set_balance(label("2", "b"), Balance { amount: 55 });
    assert_eq!(state.balance_of(&label("1", "a")).amount, 100);
    assert_eq!(state.balance_of(&label("2", "b")).amount, 55);
    assert_eq!(state.balance_of(&label("1", "b")).amount, 0);
    state.set_balance(label("1", "a"), Balance { amount: 7 });
    assert_eq!(state.balance_of(&label("1", "a")).amount, 7);
}

#[test]
fn zero_balance_is_never_materialized() {
    let mut state = UniverseState::new();
    state.set_balance(label("1", "a"), Balance { amount: 0 });
    assert!(state.balances().is_empty());
    state.set_balance(label("1", "a"), Balance { amount: 5 });
    assert_eq!(state.balances().len(), 1);
    state.set_balance(label("1", "a"), Balance { amount: 0 });
    assert!(state.balances().is_empty());
    assert_eq!(state.balance_of(&label("1", "a")).amount, 0);
}

#[test]
fn transfer_of_whole_balance_removes_the_entry() {
    let mut state = UniverseState::new();
    state.set_balance(label("1", "a"), Balance { amount: 40 });
    let tx = TransferTx { from: label("1", "a"), to: label("2", "b"), amount: 40 };
    assert!(state.apply_transfer(&tx).is_ok());
    assert_eq!(state.balance_of(&label("1", "a")).amount, 0);
    assert_eq!(state.balance_of(&label("2", "b")).amount, 40);
    assert_eq!(state.balances().len(), 1);
}

#[test]
fn zero_amount_is_rejected_and_store_unchanged() {
    let mut state = UniverseState::new();
    state.set_balance(label("1", "a"), Balance { amount: 100 });
    let tx = TransferTx { from: label("1", "a"), to: label("2", "b"), amount: 0 };
    let r = state.apply_transfer(&tx);
    assert!(matches!(r, Err(SpecError::InvalidAmount)));
    assert_eq!(state.balance_of(&label("1", "a")).amount, 100);
    assert_eq!(state.balance_of(&label("2", "b")).amount, 0);
    assert_eq!(total_of(&state), 100);
}

#[test]
fn insufficient_funds_are_rejected_and_store_unchanged() {
    let mut state = UniverseState::new();
    state.set_balance(label("1", "a"), Balance { amount: 100 });
    let tx = TransferTx { from: label("1", "a"), to: label("2", "b"), amount: 101 };
    let r = state.apply_transfer(&tx);
    assert!(matches!(r, Err(SpecError::InsufficientBalance)));
    assert_eq!(state.balance_of(&label("1", "a")).amount, 100);
    assert_eq!(state.balance_of(&label("2", "b")).amount, 0);
    // A transfer from an absent (zero-balance) label fails the same way.
    let tx2 = TransferTx { from: label("9", "z"), to: label("1", "a"), amount: 1 };
    assert!(matches!(state.apply_transfer(&tx2), Err(SpecError::InsufficientBalance)));
}

#[test]
fn destination_overflow_is_rejected_and_store_unchanged() {
    let mut state = UniverseState::new();
    state.set_balance(label("1", "a"), Balance { amount: 10 });
    state.set_balance(label("2", "b"), Balance { amount: u128::MAX - 3 });
    let tx = TransferTx { from: label("1", "a"), to: label("2", "b"), amount: 5 };
    let r = state.apply_transfer(&tx);
    assert!(matches!(r, Err(SpecError::Generic(_))));
    assert_eq!(state.balance_of(&label("1", "a")).amount, 10);
    assert_eq!(state.balance_of(&label("2", "b")).amount, u128::MAX - 3);
}

#[test]
fn self_transfer_succeeds_without_change() {
    let mut state = UniverseState::new();
    state.set_balance(label("1", "a"), Balance { amount: 100 });
    let tx = TransferTx { from: label("1", "a"), to: label("1", "a"), amount: 30 };
    assert!(state.apply_transfer(&tx).is_ok());
    assert_eq!(state.balance_of(&label("1", "a")).amount, 100);
    assert_eq!(total_of(&state), 100);
}

#[test]
fn transfers_conserve_the_total_supply() {
    let mut state = UniverseState::new();
    state.set_balance(label("1", "a"), Balance { amount: 500 });
    state.set_balance(label("2", "b"), Balance { amount: 250 });
    let before = total_of(&state);
    let transfers = [
        TransferTx { from: label("1", "a"), to: label("2", "b"), amount: 125 },
        TransferTx { from: label("2", "b"), to: label("3", "c"), amount: 300 },
        TransferTx { from: label("3", "c"), to: label("1", "a"), amount: 1 },
        TransferTx { from: label("1", "a"), to: label("1", "a"), amount: 10 },
    ];
    for tx in &transfers {
        assert!(state.apply_transfer(tx).is_ok());
        assert_eq!(total_of(&state), before);
    }
    assert_eq!(state.balance_of(&label("1", "a")).amount, 376);
    assert_eq!(state.balance_of(&label("2", "b")).amount, 75);
    assert_eq!(state.balance_of(&label("3", "c")).amount, 299);
}

#[test]
fn fold_heights_strictly_increase() {
    let mut state = UniverseState::new();
    let s0 = state.fold_snapshot();
    let s1 = state.fold_snapshot();
    state.set_balance(label("1", "a"), Balance { amount: 1 });
    let s2 = state.fold_snapshot();
    assert_eq!(s0.height, 0);
    assert_eq!(s1.height, 1);
    assert_eq!(s2.height, 2);
    let last = state.latest_snapshot().expect("a fold happened");
    assert_eq!(last.height, 2);
    assert_eq!(last.master_root, s2.master_root);
}

#[test]
fn fold_roots_are_deterministic() {
    let mut a = UniverseState::new();
    a.set_balance(label("1", "a"), Balance { amount: 70 });
    a.set_balance(label("2", "b"), Balance { amount: 30 });
    // The same balances written in another order, in another state.
    let mut b = UniverseState::new();
    b.set_balance(label("2", "b"), Balance { amount: 30 });
    b.set_balance(label("1", "a"), Balance { amount: 70 });
    let snap_a = a.fold_snapshot();
    let snap_b = b.fold_snapshot();
    assert_eq!(snap_a.master_root, snap_b.master_root);
    // Folding again without changes keeps the root, not the height.
    let snap_a2 = a.fold_snapshot();
    assert_eq!(snap_a.master_root, snap_a2.master_root);
    assert_ne!(snap_a.height, snap_a2.height);
    // Any balance change moves the root.
    a.set_balance(label("1", "a"), Balance { amount: 71 });
    let snap_a3 = a.fold_snapshot();
    assert_ne!(snap_a2.master_root, snap_a3.master_root);
}

#[test]
fn fold_root_is_a_real_digest() {
    let mut state = UniverseState::new();
    state.set_balance(label("9132077554", "fun"), Balance { amount: 12345 });
    state.set_balance(label("9132077554", "gift1"), Balance { amount: 1 });
    let snap = state.fold_snapshot();
    // 32 digest bytes, two hex characters each.
    assert_eq!(snap.master_root.len(), 64);
    assert!(snap.master_root.chars().all(|c| c.is_ascii_hexdigit()));
    // The digest summarizes the balances, not the height.
    let empty_snap = UniverseState::new().fold_snapshot();
    assert_eq!(empty_snap.master_root.len(), 64);
    assert_ne!(snap.master_root, empty_snap.master_root);
}

#[test]
fn unfold_round_trips_the_store() {
    let mut state = UniverseState::new();
    state.set_balance(label("1", "a"), Balance { amount: 70 });
    state.set_balance(label("2", "b"), Balance { amount: 30 });
    state.set_balance(label("2", "z"), Balance { amount: 9 });
    let support = state.balances();
    let snap = state.fold_snapshot();
    let rebuilt = UniverseState::unfold(&snap, &support).expect("the root matches");
    for (l, b) in &support {
        assert_eq!(rebuilt.balance_of(l).amount, b.amount);
    }
    assert_eq!(rebuilt.balances().len(), support.len());
    let remembered = rebuilt.latest_snapshot().expect("rehydrated");
    assert_eq!(remembered.height, snap.height);
    assert_eq!(remembered.master_root, snap.master_root);
}

#[test]
fn unfold_of_empty_store_round_trips() {
    let mut state = UniverseState::new();
    let snap = state.fold_snapshot();
    let rebuilt = UniverseState::unfold(&snap, &state.balances()).expect("the root matches");
    assert!(rebuilt.balances().is_empty());
}

#[test]
fn unfold_detects_any_tampered_balance() {
    let mut state = UniverseState::new();
    state.set_balance(label("1", "a"), Balance { amount: 70 });
    state.set_balance(label("2", "b"), Balance { amount: 30 });
    state.set_balance(label("2", "z"), Balance { amount: 9 });
    let support = state.balances();
    let snap = state.fold_snapshot();
    for i in 0..support.len() {
        let mut tampered = state.balances();
        tampered[i].1.amount += 1;
        let r = UniverseState::unfold(&snap, &tampered);
        assert!(matches!(r, Err(SpecError::RootMismatch)));
    }
    // A dropped entry is caught too.
    let mut short = state.balances();
    short.pop();
    assert!(matches!(UniverseState::unfold(&snap, &short), Err(SpecError::RootMismatch)));
    // The untampered data still unfolds.
    assert!(UniverseState::unfold(&snap, &support).is_ok());
}

#[test]
fn label_fields_are_kept_apart() {
    // "1a" + "b" and "1" + "ab" are different accounts, and the
    // length-prefixed canonical serialization keeps their roots apart.
    let mut a = UniverseState::new();
    a.set_balance(label("1a", "b"), Balance { amount: 5 });
    let mut b = UniverseState::new();
    b.set_balance(label("1", "ab"), Balance { amount: 5 });
    assert_eq!(a.balance_of(&label("1", "ab")).amount, 0);
    assert_eq!(b.balance_of(&label("1", "ab")).amount, 5);
    assert_ne!(a.fold_snapshot().master_root, b.fold_snapshot().master_root);
}

#[test]
fn example_scenario() {
    let mut state = UniverseState::new();
    state.set_balance(label("1", "a"), Balance { amount: 100 });
    let tx = TransferTx { from: label("1", "a"), to: label("2", "b"), amount: 30 };
    assert!(state.apply_transfer(&tx).is_ok());
    assert_eq!(state.balance_of(&label("1", "a")).amount, 70);
    assert_eq!(state.balance_of(&label("2", "b")).amount, 30);
    let snap = state.fold_snapshot();
    assert_eq!(snap.height, 0);
    // The recorded root is the digest of the canonical contents: the
    // same balances in a fresh store give the identical root.
    let mut same = UniverseState::new();
    same.set_balance(label("1", "a"), Balance { amount: 70 });
    same.set_balance(label("2", "b"), Balance { amount: 30 });
    assert_eq!(same.fold_snapshot().master_root, snap.master_root);
    let back = TransferTx { from: label("2", "b"), to: label("1", "a"), amount: 1000 };
    assert!(matches!(state.apply_transfer(&back), Err(SpecError::InsufficientBalance)));
    assert_eq!(state.balance_of(&label("1", "a")).amount, 70);
    assert_eq!(state.balance_of(&label("2", "b")).amount, 30);
}
