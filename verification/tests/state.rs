use ledger_sync::chain::{BlockKey, CheckpointBeacon, Hash256};
use ledger_sync::ledger::{next_index, settle_movements, LedgerState};
use ledger_sync::model::{
    AddressInfo, AddressKey, AddressUsage, BalanceMovement, EpochConstants, KeyRoot, Keychains,
    MovementKind, OutputData, OutputRef, ReconcileError, Utxo,
};
use ledger_sync::state::State;

fn hash(tag: u64) -> Hash256 {
    Hash256 { w0: 0, w1: 0, w2: 0, w3: tag }
}

fn beacon(epoch: u32, tag: u64) -> CheckpointBeacon {
    CheckpointBeacon { epoch, block_hash: hash(tag) }
}

fn keychains() -> Keychains {
    Keychains {
        external: KeyRoot { secret: [1; 32], chain_code: [2; 32] },
        internal: KeyRoot { secret: [3; 32], chain_code: [4; 32] },
    }
}

fn constants() -> EpochConstants {
    EpochConstants { checkpoint_zero_timestamp: 0, checkpoints_period: 45 }
}

/// A state confirmed at epoch 9 with nothing pending.
fn fresh(max_pending: u32) -> State {
    State::new(LedgerState::new(0, keychains(), constants(), beacon(9, 9)), max_pending)
}

fn out_ref(tag: u64, output_index: u32) -> OutputRef {
    OutputRef { txn_hash: hash(tag), output_index }
}

fn output(amount: u64) -> OutputData {
    OutputData { pkh: [7; 20], amount, time_lock: 0 }
}

fn credit(amount: u64, tag: u64) -> BalanceMovement {
    BalanceMovement {
        kind: MovementKind::Credit,
        amount,
        spent: vec![],
        created: vec![Utxo { out_ref: out_ref(tag, 0), data: output(amount) }],
    }
}

fn debit(amount: u64, spent_tag: u64) -> BalanceMovement {
    BalanceMovement {
        kind: MovementKind::Debit,
        amount,
        spent: vec![out_ref(spent_tag, 0)],
        created: vec![],
    }
}

fn address(index: u32, payments: u32, last_used: u32) -> AddressInfo {
    AddressInfo {
        address: AddressKey { keychain: 0, index },
        usage: AddressUsage { payments, received: 100 * payments as u64, last_used },
    }
}

#[test]
fn new_state_has_nothing_pending() {
    let state = fresh(8);
    assert_eq!(state.last_sync, beacon(9, 9));
    assert_eq!(state.ledger.last_confirmed, beacon(9, 9));
    assert!(state.pending.is_empty());
    assert_eq!(state.ledger.balance, 0);
    assert!(state.ledger.utxo_set.is_empty());
    assert_eq!(state.ledger.available_accounts, vec![0]);
    assert_eq!(state.effective_balance(), Ok(0));
}

#[test]
fn restore_checks_the_account() {
    let mut ledger = LedgerState::new(3, keychains(), constants(), beacon(0, 0));
    assert!(ledger.is_valid());
    ledger.available_accounts = vec![1, 2];
    assert!(!ledger.is_valid());
    assert!(State::restore(ledger, 4).is_none());

    let mut ledger = LedgerState::new(3, keychains(), constants(), beacon(5, 5));
    ledger.available_accounts = vec![1, 3, 2];
    ledger.balance = 77;
    let state = State::restore(ledger, 4).unwrap();
    assert_eq!(state.last_sync, beacon(5, 5));
    assert_eq!(state.ledger.balance, 77);
    assert!(state.pending.is_empty());
}

#[test]
fn apply_block_queues_the_block_and_advances_last_sync() {
    let mut state = fresh(8);
    let res = state.apply_block(hash(10), beacon(10, 10), vec![credit(50, 1)], vec![address(0, 1, 10)]);
    assert_eq!(res, Ok(()));
    assert_eq!(state.last_sync, beacon(10, 10));
    assert_eq!(state.pending.len(), 1);
    assert_eq!(state.pending[0].key, hash(10));
    assert_eq!(state.pending[0].beacon, beacon(10, 10));
    assert_eq!(state.pending[0].movements, vec![credit(50, 1)]);
    assert_eq!(state.pending[0].address_infos, vec![address(0, 1, 10)]);
    assert!(state.is_pending(hash(10)));
    assert_eq!(state.pending_beacon(hash(10)), Some(beacon(10, 10)));
    assert_eq!(state.pending_beacon(hash(11)), None);
    // The ledger is untouched.
    assert_eq!(state.ledger.balance, 0);
    assert!(state.ledger.utxo_set.is_empty());
    assert!(state.ledger.address_infos.is_empty());
    assert_eq!(state.ledger.last_confirmed, beacon(9, 9));
}

#[test]
fn apply_block_out_of_order_is_a_sequence_error() {
    let mut state = fresh(8);
    for epoch in [0u32, 8, 9, 11, 12, u32::MAX] {
        let res = state.apply_block(hash(1), beacon(epoch, 1), vec![credit(1, 1)], vec![]);
        assert_eq!(res, Err(ReconcileError::SequenceError));
        assert!(state.pending.is_empty());
        assert_eq!(state.last_sync, beacon(9, 9));
    }
    assert_eq!(state.apply_block(hash(1), beacon(10, 1), vec![], vec![]), Ok(()));
    assert_eq!(
        state.apply_block(hash(2), beacon(10, 2), vec![], vec![]),
        Err(ReconcileError::SequenceError)
    );
}

#[test]
fn apply_block_at_the_last_epoch_of_all_is_refused() {
    let ledger = LedgerState::new(0, keychains(), constants(), beacon(u32::MAX, 1));
    let mut state = State::new(ledger, 8);
    assert_eq!(
        state.apply_block(hash(1), beacon(0, 1), vec![], vec![]),
        Err(ReconcileError::SequenceError)
    );
    assert_eq!(
        state.apply_block(hash(1), beacon(u32::MAX, 1), vec![], vec![]),
        Err(ReconcileError::SequenceError)
    );
}

#[test]
fn apply_block_under_a_pending_key_is_refused() {
    let mut state = fresh(8);
    assert_eq!(state.apply_block(hash(1), beacon(10, 1), vec![credit(5, 1)], vec![]), Ok(()));
    let res = state.apply_block(hash(1), beacon(11, 2), vec![credit(6, 2)], vec![]);
    assert_eq!(res, Err(ReconcileError::DuplicateBlockKey));
    assert_eq!(state.pending.len(), 1);
    assert_eq!(state.last_sync, beacon(10, 1));
    assert_eq!(state.effective_balance(), Ok(5));
}

#[test]
fn apply_block_beyond_retention_is_refused() {
    let mut state = fresh(2);
    assert_eq!(state.apply_block(hash(1), beacon(10, 1), vec![], vec![]), Ok(()));
    assert_eq!(state.apply_block(hash(2), beacon(11, 2), vec![], vec![]), Ok(()));
    assert_eq!(
        state.apply_block(hash(3), beacon(12, 3), vec![], vec![]),
        Err(ReconcileError::RetentionExceeded)
    );
    assert_eq!(state.pending.len(), 2);
    assert_eq!(state.last_sync, beacon(11, 2));
    // Room is made by finality.
    assert_eq!(state.confirm(beacon(10, 1), &vec![hash(1)]), Ok(()));
    assert_eq!(state.apply_block(hash(3), beacon(12, 3), vec![], vec![]), Ok(()));

    let mut none = fresh(0);
    assert_eq!(
        none.apply_block(hash(1), beacon(10, 1), vec![], vec![]),
        Err(ReconcileError::RetentionExceeded)
    );
}

#[test]
fn effective_view_overlays_pending_blocks() {
    let mut state = fresh(8);
    state.apply_block(hash(1), beacon(10, 1), vec![credit(50, 1), credit(30, 2)], vec![]).unwrap();
    state.apply_block(hash(2), beacon(11, 2), vec![debit(50, 1)], vec![]).unwrap();
    assert_eq!(state.effective_balance(), Ok(30));
    let utxos = state.effective_utxo_set();
    assert_eq!(utxos.len(), 1);
    assert_eq!(utxos.get(&out_ref(2, 0)), Some(output(30)));
    assert_eq!(utxos.get(&out_ref(1, 0)), None);
    // Nothing of it is in the ledger.
    assert_eq!(state.ledger.balance, 0);
    assert!(state.ledger.utxo_set.is_empty());
}

#[test]
fn effective_balance_reports_what_cannot_be_settled() {
    let mut state = fresh(8);
    state.apply_block(hash(1), beacon(10, 1), vec![credit(5, 1), debit(6, 1)], vec![]).unwrap();
    assert_eq!(state.effective_balance(), Err(ReconcileError::BalanceUnderflow));
    let mut state = fresh(8);
    state.apply_block(hash(1), beacon(10, 1), vec![credit(u64::MAX, 1)], vec![]).unwrap();
    assert_eq!(state.effective_balance(), Ok(u64::MAX));
    state.apply_block(hash(2), beacon(11, 2), vec![credit(1, 2)], vec![]).unwrap();
    assert_eq!(state.effective_balance(), Err(ReconcileError::BalanceOverflow));
}

#[test]
fn confirm_commits_canonical_blocks() {
    let mut state = fresh(8);
    state
        .apply_block(hash(1), beacon(10, 1), vec![credit(50, 1)], vec![address(0, 1, 10)])
        .unwrap();
    state
        .apply_block(
            hash(2),
            beacon(11, 2),
            vec![debit(20, 1), credit(5, 3)],
            vec![address(0, 2, 11), address(1, 1, 11)],
        )
        .unwrap();
    state.apply_block(hash(3), beacon(12, 3), vec![credit(1, 4)], vec![]).unwrap();

    assert_eq!(state.confirm(beacon(11, 2), &vec![hash(2), hash(1)]), Ok(()));
    assert_eq!(state.ledger.balance, 35);
    assert_eq!(state.ledger.last_confirmed, beacon(11, 2));
    assert_eq!(state.last_sync, beacon(12, 3));
    assert_eq!(state.ledger.utxo_set.len(), 1);
    assert_eq!(state.ledger.utxo_set.get(&out_ref(3, 0)), Some(output(5)));
    assert_eq!(
        state.ledger.address_infos.get(&AddressKey { keychain: 0, index: 0 }),
        Some(AddressUsage { payments: 2, received: 200, last_used: 11 })
    );
    assert_eq!(
        state.ledger.address_infos.get(&AddressKey { keychain: 0, index: 1 }),
        Some(AddressUsage { payments: 1, received: 100, last_used: 11 })
    );
    // The block above the signal stays pending.
    assert_eq!(state.pending.len(), 1);
    assert_eq!(state.pending[0].key, hash(3));
    assert_eq!(state.effective_balance(), Ok(36));
    // And the next block still goes on top of it.
    assert_eq!(state.apply_block(hash(4), beacon(13, 4), vec![], vec![]), Ok(()));
}

#[test]
fn overlay_then_commit_equals_direct_apply() {
    let blocks: Vec<Vec<BalanceMovement>> = vec![
        vec![credit(100, 1), credit(11, 2)],
        vec![debit(100, 1)],
        vec![],
        vec![credit(7, 3), debit(11, 2), credit(1, 4)],
    ];
    let mut state = fresh(8);
    let mut keys = Vec::new();
    for (i, movements) in blocks.iter().enumerate() {
        let tag = 10 + i as u64;
        state
            .apply_block(hash(tag), beacon(10 + i as u32, tag), movements.clone(), vec![])
            .unwrap();
        keys.push(hash(tag));
    }
    let expected_balance = state.effective_balance().unwrap();
    let expected_utxos = state.effective_utxo_set();
    assert_eq!(state.confirm(beacon(13, 13), &keys), Ok(()));

    // Directly: settle every movement on the starting balance, in order.
    let mut direct = 0u64;
    for movements in &blocks {
        direct = settle_movements(direct, movements).unwrap();
    }
    assert_eq!(direct, 8);
    assert_eq!(state.ledger.balance, direct);
    assert_eq!(state.ledger.balance, expected_balance);
    assert_eq!(state.ledger.utxo_set.len(), expected_utxos.len());
    assert_eq!(state.ledger.utxo_set.len(), 2);
    assert_eq!(state.ledger.utxo_set.get(&out_ref(3, 0)), Some(output(7)));
    assert_eq!(state.ledger.utxo_set.get(&out_ref(4, 0)), Some(output(1)));
    assert_eq!(state.ledger.last_confirmed, beacon(13, 13));
    assert_eq!(state.last_sync, beacon(13, 13));
    assert!(state.pending.is_empty());
}

#[test]
fn reorg_commits_only_the_canonical_block_and_rewinds() {
    let mut state = fresh(8);
    state
        .apply_block(hash(1), beacon(10, 1), vec![credit(50, 1)], vec![address(0, 1, 10)])
        .unwrap();
    state
        .apply_block(hash(2), beacon(11, 2), vec![credit(9, 2)], vec![address(0, 2, 11)])
        .unwrap();

    assert_eq!(state.confirm(beacon(11, 77), &vec![hash(1)]), Ok(()));

    // Only the effects of the first block are in the ledger.
    assert_eq!(state.ledger.balance, 50);
    assert_eq!(state.ledger.utxo_set.len(), 1);
    assert_eq!(state.ledger.utxo_set.get(&out_ref(1, 0)), Some(output(50)));
    assert_eq!(
        state.ledger.address_infos.get(&AddressKey { keychain: 0, index: 0 }),
        Some(AddressUsage { payments: 1, received: 100, last_used: 10 })
    );
    assert_eq!(state.ledger.last_confirmed.epoch, 10);
    assert_eq!(state.ledger.last_confirmed, beacon(10, 1));
    assert_eq!(state.last_sync.epoch, 10);
    assert!(state.pending.iter().all(|block| block.beacon.epoch > 10));
    assert!(state.pending.is_empty());
    assert!(!state.is_pending(hash(1)));
    assert!(!state.is_pending(hash(2)));
    // Synchronisation resumes from epoch 11.
    assert_eq!(state.apply_block(hash(3), beacon(11, 3), vec![credit(1, 3)], vec![]), Ok(()));
    assert_eq!(state.effective_balance(), Ok(51));
}

#[test]
fn reorg_drops_what_was_built_on_the_orphan() {
    let mut state = fresh(8);
    state.apply_block(hash(1), beacon(10, 1), vec![credit(5, 1)], vec![]).unwrap();
    state.apply_block(hash(2), beacon(11, 2), vec![credit(6, 2)], vec![]).unwrap();
    state.apply_block(hash(3), beacon(12, 3), vec![credit(7, 3)], vec![]).unwrap();
    // The signal covers epoch 10 only, and the block there is not canonical.
    assert_eq!(state.confirm(beacon(10, 99), &vec![hash(42)]), Ok(()));
    assert_eq!(state.ledger.balance, 0);
    assert_eq!(state.ledger.last_confirmed, beacon(9, 9));
    assert_eq!(state.last_sync, beacon(9, 9));
    assert!(state.pending.is_empty());
}

#[test]
fn confirm_below_last_confirmed_is_a_regression() {
    let mut state = fresh(8);
    state.apply_block(hash(1), beacon(10, 1), vec![credit(5, 1)], vec![]).unwrap();
    state.apply_block(hash(2), beacon(11, 2), vec![credit(6, 2)], vec![]).unwrap();
    assert_eq!(state.confirm(beacon(10, 1), &vec![hash(1)]), Ok(()));
    let balance = state.ledger.balance;

    for epoch in [0u32, 8, 9] {
        let res = state.confirm(beacon(epoch, 1), &vec![hash(1), hash(2)]);
        assert_eq!(res, Err(ReconcileError::FinalityRegressionError));
        assert_eq!(state.ledger.last_confirmed, beacon(10, 1));
        assert_eq!(state.ledger.balance, balance);
        assert_eq!(state.last_sync, beacon(11, 2));
        assert_eq!(state.pending.len(), 1);
    }
}

#[test]
fn last_confirmed_epoch_never_decreases() {
    let mut state = fresh(8);
    let mut epoch_seen = state.ledger.last_confirmed.epoch;
    let mut next_epoch = 10u32;
    let signals: Vec<(u32, Vec<BlockKey>)> = vec![
        (10, vec![hash(10)]),
        (9, vec![]),
        (12, vec![hash(11), hash(12)]),
        (12, vec![]),
        (11, vec![hash(13)]),
        (14, vec![hash(13)]),
        (20, vec![]),
    ];
    for (epoch, keys) in signals {
        for _ in 0..3 {
            let tag = next_epoch as u64;
            if state.apply_block(hash(tag), beacon(next_epoch, tag), vec![credit(1, tag)], vec![])
                == Ok(())
            {
                next_epoch += 1;
            }
        }
        let before = state.ledger.last_confirmed;
        let res = state.confirm(beacon(epoch, epoch as u64), &keys);
        if epoch < before.epoch {
            assert_eq!(res, Err(ReconcileError::FinalityRegressionError));
            assert_eq!(state.ledger.last_confirmed, before);
        } else {
            assert_eq!(res, Ok(()));
            assert!(state.pending.iter().all(|block| block.beacon.epoch > epoch));
        }
        assert!(state.ledger.last_confirmed.epoch >= epoch_seen);
        assert!(state.last_sync.epoch >= state.ledger.last_confirmed.epoch);
        epoch_seen = state.ledger.last_confirmed.epoch;
        next_epoch = state.last_sync.epoch + 1;
    }
}

#[test]
fn confirm_at_the_same_epoch_is_accepted() {
    let mut state = fresh(8);
    assert_eq!(state.confirm(beacon(9, 9), &vec![]), Ok(()));
    assert_eq!(state.ledger.last_confirmed, beacon(9, 9));
    assert_eq!(state.last_sync, beacon(9, 9));
}

#[test]
fn unknown_canonical_keys_never_match() {
    let mut state = fresh(8);
    state.apply_block(hash(1), beacon(10, 1), vec![credit(5, 1)], vec![]).unwrap();
    assert_eq!(state.confirm(beacon(10, 1), &vec![hash(500), hash(1), hash(501)]), Ok(()));
    assert_eq!(state.ledger.balance, 5);
    assert_eq!(state.ledger.last_confirmed, beacon(10, 1));
    assert!(state.pending.is_empty());
}

#[test]
fn finality_ahead_of_sync_moves_both_positions() {
    let mut state = fresh(8);
    state.apply_block(hash(1), beacon(10, 1), vec![credit(5, 1)], vec![]).unwrap();
    assert_eq!(state.confirm(beacon(15, 15), &vec![hash(1), hash(300)]), Ok(()));
    assert_eq!(state.ledger.balance, 5);
    assert_eq!(state.ledger.last_confirmed, beacon(15, 15));
    assert_eq!(state.last_sync, beacon(15, 15));
    assert!(state.pending.is_empty());
    assert_eq!(
        state.apply_block(hash(2), beacon(11, 2), vec![], vec![]),
        Err(ReconcileError::SequenceError)
    );
    assert_eq!(state.apply_block(hash(2), beacon(16, 2), vec![], vec![]), Ok(()));
}

#[test]
fn confirm_that_cannot_be_settled_changes_nothing() {
    let mut state = fresh(8);
    state.apply_block(hash(1), beacon(10, 1), vec![credit(5, 1)], vec![address(0, 1, 10)]).unwrap();
    state.apply_block(hash(2), beacon(11, 2), vec![debit(5, 1)], vec![]).unwrap();
    state.apply_block(hash(3), beacon(12, 3), vec![debit(1, 9)], vec![]).unwrap();
    let res = state.confirm(beacon(12, 3), &vec![hash(1), hash(2), hash(3)]);
    assert_eq!(res, Err(ReconcileError::BalanceUnderflow));
    assert_eq!(state.ledger.balance, 0);
    assert!(state.ledger.utxo_set.is_empty());
    assert!(state.ledger.address_infos.is_empty());
    assert_eq!(state.ledger.last_confirmed, beacon(9, 9));
    assert_eq!(state.last_sync, beacon(12, 3));
    assert_eq!(state.pending.len(), 3);

    let mut state = fresh(8);
    state.apply_block(hash(1), beacon(10, 1), vec![credit(u64::MAX, 1)], vec![]).unwrap();
    state.apply_block(hash(2), beacon(11, 2), vec![credit(1, 2)], vec![]).unwrap();
    let res = state.confirm(beacon(11, 2), &vec![hash(1), hash(2)]);
    assert_eq!(res, Err(ReconcileError::BalanceOverflow));
    assert_eq!(state.ledger.balance, 0);
    assert_eq!(state.pending.len(), 2);
    // Without the second block the first settles.
    assert_eq!(state.confirm(beacon(10, 1), &vec![hash(1)]), Ok(()));
    assert_eq!(state.ledger.balance, u64::MAX);
}

#[test]
fn settle_movements_follows_the_order() {
    assert_eq!(settle_movements(10, &vec![]), Ok(10));
    assert_eq!(settle_movements(10, &vec![credit(5, 1), debit(15, 1)]), Ok(0));
    assert_eq!(
        settle_movements(10, &vec![debit(15, 1), credit(5, 1)]),
        Err(ReconcileError::BalanceUnderflow)
    );
    assert_eq!(
        settle_movements(u64::MAX - 1, &vec![credit(2, 1), debit(2, 1)]),
        Err(ReconcileError::BalanceOverflow)
    );
    assert_eq!(settle_movements(u64::MAX - 1, &vec![debit(2, 1), credit(2, 1)]), Ok(u64::MAX - 1));
}

#[test]
fn indices_are_issued_once_and_in_order() {
    let mut state = fresh(8);
    let mut issued = Vec::new();
    for _ in 0..5 {
        let before = state.ledger.next_external_index;
        let index = state.allocate_external_index().unwrap();
        assert!(state.ledger.next_external_index >= before);
        assert!(!issued.contains(&index));
        issued.push(index);
    }
    assert_eq!(issued, vec![0, 1, 2, 3, 4]);
    assert_eq!(state.ledger.next_external_index, 5);
    assert_eq!(state.ledger.next_internal_index, 0);
    assert_eq!(state.allocate_internal_index(), Ok(0));
    assert_eq!(state.allocate_internal_index(), Ok(1));
    assert_eq!(state.ledger.next_internal_index, 2);
    assert_eq!(state.ledger.next_external_index, 5);
}

#[test]
fn indices_survive_blocks_and_finality() {
    let mut state = fresh(8);
    assert_eq!(state.allocate_external_index(), Ok(0));
    state.apply_block(hash(1), beacon(10, 1), vec![credit(5, 1)], vec![]).unwrap();
    assert_eq!(state.allocate_external_index(), Ok(1));
    state.confirm(beacon(10, 1), &vec![]).unwrap();
    assert_eq!(state.ledger.next_external_index, 2);
    assert_eq!(state.allocate_external_index(), Ok(2));
}

#[test]
fn index_allocation_stops_before_overflow() {
    let mut state = fresh(8);
    state.ledger.next_external_index = u32::MAX - 1;
    assert_eq!(state.allocate_external_index(), Ok(u32::MAX - 1));
    assert_eq!(state.ledger.next_external_index, u32::MAX);
    assert_eq!(state.allocate_external_index(), Err(ReconcileError::IndexOverflow));
    assert_eq!(state.ledger.next_external_index, u32::MAX);
    state.ledger.next_internal_index = u32::MAX;
    assert_eq!(state.allocate_internal_index(), Err(ReconcileError::IndexOverflow));
    assert_eq!(next_index(41), Ok((41, 42)));
    assert_eq!(next_index(u32::MAX), Err(ReconcileError::IndexOverflow));
}

#[test]
fn outputs_are_spent_before_they_are_created_within_a_movement() {
    let mut state = fresh(8);
    let replace = BalanceMovement {
        kind: MovementKind::Credit,
        amount: 3,
        spent: vec![out_ref(1, 0)],
        created: vec![Utxo { out_ref: out_ref(1, 0), data: output(3) }],
    };
    state.apply_block(hash(1), beacon(10, 1), vec![credit(5, 1), replace], vec![]).unwrap();
    assert_eq!(state.confirm(beacon(10, 1), &vec![hash(1)]), Ok(()));
    assert_eq!(state.ledger.utxo_set.len(), 1);
    assert_eq!(state.ledger.utxo_set.get(&out_ref(1, 0)), Some(output(3)));
    assert_eq!(state.ledger.balance, 8);
}

#[test]
fn validity_is_checked_field_by_field() {
    let mut state = fresh(4);
    assert!(state.is_valid());
    state.apply_block(hash(1), beacon(10, 1), vec![credit(5, 1)], vec![]).unwrap();
    state.apply_block(hash(2), beacon(11, 2), vec![credit(5, 2)], vec![]).unwrap();
    assert!(state.is_valid());

    let mut broken = fresh(4);
    broken.last_sync = beacon(10, 1);
    assert!(!broken.is_valid());

    let mut broken = fresh(4);
    broken.ledger.available_accounts.clear();
    assert!(!broken.is_valid());

    broken = fresh(4);
    broken.apply_block(hash(1), beacon(10, 1), vec![], vec![]).unwrap();
    broken.apply_block(hash(2), beacon(11, 2), vec![], vec![]).unwrap();
    broken.pending[1].key = hash(1);
    assert!(!broken.is_valid());
    broken.pending[1].key = hash(2);
    assert!(broken.is_valid());
    broken.pending[0].beacon.epoch = 11;
    assert!(!broken.is_valid());
    broken.pending[0].beacon.epoch = 10;
    broken.max_pending = 1;
    assert!(!broken.is_valid());
    broken.max_pending = 2;
    broken.last_sync = beacon(11, 3);
    assert!(!broken.is_valid());
    broken.last_sync = beacon(11, 2);
    assert!(broken.is_valid());

    let ledger = LedgerState::new(0, keychains(), constants(), beacon(u32::MAX, 1));
    let mut edge = State::new(ledger, 4);
    assert!(edge.is_valid());
    edge.pending = fresh_pending();
    assert!(!edge.is_valid());
}

fn fresh_pending() -> Vec<ledger_sync::model::PendingBlock> {
    let mut state = fresh(4);
    state.apply_block(hash(1), beacon(10, 1), vec![], vec![]).unwrap();
    state.pending
}
