//! The state of one wallet account: the confirmed ledger and, over it, the
//! blocks that have been applied but are not final yet.
//!
//! Blocks are applied in strict epoch order and held as pending. A finality
//! signal names a position and the keys of the canonical blocks. Every
//! pending block at or below that position is then either merged into the
//! ledger, if its key is canonical, or dropped. While all of them are
//! canonical the signalled position becomes the last confirmed one. As soon
//! as one is dropped, the chain that was followed has been orphaned: the
//! last confirmed position is then that of the last block merged, all that
//! is still pending is dropped with it, and synchronisation resumes from
//! there.

use crate::chain::{BlockKey, CheckpointBeacon};
use crate::ledger::{
    addresses_after, apply_movements, commit_blocks_spec, issue_index, lemma_commit_components,
    merge_addresses, next_index, settle_blocks, settle_movements, utxos_after, LedgerState,
    LedgerView,
};
use crate::model::{AddressInfo, BalanceMovement, PendingBlock, ReconcileError, UtxoSet};
use vstd::prelude::*;

verus! {

/// The state of one wallet account.
pub struct State {
    /// What has been confirmed.
    pub ledger: LedgerState,
    /// The position of the last block applied.
    pub last_sync: CheckpointBeacon,
    /// The blocks applied and not yet confirmed, oldest first.
    pub pending: Vec<PendingBlock>,
    /// How many blocks may be pending at once.
    pub max_pending: u32,
}

/// The state as contracts see it.
pub struct StateView {
    pub ledger: LedgerView,
    pub last_sync: CheckpointBeacon,
    pub pending: Seq<PendingBlock>,
    pub max_pending: u32,
    pub next_external_index: u32,
    pub next_internal_index: u32,
}

/// Some block of `pending` has the key `key`.
pub open spec fn has_pending(pending: Seq<PendingBlock>, key: BlockKey) -> bool {
    exists|i: int| 0 <= i < pending.len() && (#[trigger] pending[i]).key == key
}

/// The canonical blocks among the first `n` of `pending`, in order.
pub open spec fn committed(pending: Seq<PendingBlock>, keys: Set<BlockKey>, n: int) -> Seq<
    PendingBlock,
>
    decreases n,
{
    if n <= 0 {
        Seq::empty()
    } else if keys.contains(pending[n - 1].key) {
        committed(pending, keys, n - 1).push(pending[n - 1])
    } else {
        committed(pending, keys, n - 1)
    }
}

/// One of the first `n` blocks of `pending` is not canonical.
pub open spec fn any_discarded(pending: Seq<PendingBlock>, keys: Set<BlockKey>, n: int) -> bool {
    exists|i: int| 0 <= i < n && !keys.contains((#[trigger] pending[i]).key)
}

impl StateView {
    /// The pending blocks hold one block for each epoch after the last
    /// confirmed one up to the last synced one, under distinct keys, and no
    /// more of them than may be retained.
    pub open spec fn wf(self) -> bool {
        &&& self.pending.len() <= self.max_pending
        &&& self.last_sync.epoch == self.ledger.last_confirmed.epoch + self.pending.len()
        &&& forall|i: int|
            0 <= i < self.pending.len() ==> (#[trigger] self.pending[i]).beacon.epoch
                == self.ledger.last_confirmed.epoch + 1 + i
        &&& forall|i: int, j: int|
            0 <= i < j < self.pending.len() ==> (#[trigger] self.pending[i]).key != (
            #[trigger] self.pending[j]).key
        &&& self.pending.len() > 0 ==> self.last_sync == self.pending.last().beacon
        &&& self.pending.len() == 0 ==> self.last_sync == self.ledger.last_confirmed
    }

    /// The state after `block` is applied, or why it is refused.
    pub open spec fn apply_block_spec(self, block: PendingBlock) -> Result<
        StateView,
        ReconcileError,
    > {
        if block.beacon.epoch != self.last_sync.epoch + 1 {
            Err(ReconcileError::SequenceError)
        } else if has_pending(self.pending, block.key) {
            Err(ReconcileError::DuplicateBlockKey)
        } else if self.pending.len() >= self.max_pending {
            Err(ReconcileError::RetentionExceeded)
        } else {
            Ok(StateView { last_sync: block.beacon, pending: self.pending.push(block), ..self })
        }
    }

    /// How many pending blocks lie at or below the epoch of `beacon`.
    pub open spec fn covered(self, beacon: CheckpointBeacon) -> int {
        let span = beacon.epoch - self.ledger.last_confirmed.epoch;
        if span <= 0 {
            0
        } else if span >= self.pending.len() {
            self.pending.len() as int
        } else {
            span
        }
    }

    /// The state after the finality signal `beacon` with the canonical keys
    /// `keys`, or why it is refused.
    ///
    /// The canonical blocks among those that the signal covers are merged
    /// into the ledger, in order. Where none of the covered blocks had to be
    /// dropped, the signalled position is confirmed and the blocks above it
    /// stay pending; when none stays, the signalled position is the last
    /// synced one too. Where one was dropped, the position confirmed is that
    /// of the last block merged, or the old one if none was, nothing stays
    /// pending, and the last synced position is rewound to the confirmed one.
    pub open spec fn confirm_spec(self, beacon: CheckpointBeacon, keys: Set<BlockKey>) -> Result<
        StateView,
        ReconcileError,
    > {
        if beacon.epoch < self.ledger.last_confirmed.epoch {
            Err(ReconcileError::FinalityRegressionError)
        } else {
            let n = self.covered(beacon);
            match commit_blocks_spec(self.ledger, committed(self.pending, keys, n)) {
                Ok(merged) => if any_discarded(self.pending, keys, n) {
                    Ok(
                        StateView {
                            ledger: merged,
                            last_sync: merged.last_confirmed,
                            pending: Seq::empty(),
                            ..self
                        },
                    )
                } else {
                    let rest = self.pending.skip(n);
                    Ok(
                        StateView {
                            ledger: LedgerView { last_confirmed: beacon, ..merged },
                            last_sync: if rest.len() == 0 {
                                beacon
                            } else {
                                self.last_sync
                            },
                            pending: rest,
                            ..self
                        },
                    )
                },
                Err(e) => Err(e),
            }
        }
    }

    /// The index issued next on the external chain and the state after it
    /// is issued, or why none is.
    pub open spec fn issue_external_spec(self) -> Result<(u32, StateView), ReconcileError> {
        match issue_index(self.next_external_index) {
            Ok((index, following)) => Ok(
                (index, StateView { next_external_index: following, ..self }),
            ),
            Err(e) => Err(e),
        }
    }

    /// The index issued next on the internal chain and the state after it
    /// is issued, or why none is.
    pub open spec fn issue_internal_spec(self) -> Result<(u32, StateView), ReconcileError> {
        match issue_index(self.next_internal_index) {
            Ok((index, following)) => Ok(
                (index, StateView { next_internal_index: following, ..self }),
            ),
            Err(e) => Err(e),
        }
    }

    /// The balance with all pending movements settled on it.
    pub open spec fn effective_balance(self) -> Result<u64, ReconcileError> {
        settle_blocks(self.ledger.balance, self.pending)
    }
}

impl View for State {
    type V = StateView;

    open spec fn view(&self) -> StateView {
        StateView {
            ledger: self.ledger@,
            last_sync: self.last_sync,
            pending: self.pending@,
            max_pending: self.max_pending,
            next_external_index: self.ledger.next_external_index,
            next_internal_index: self.ledger.next_internal_index,
        }
    }
}

/// Once settling the canonical blocks among the first `i` has failed,
/// settling those among the first `n` fails in the same way.
pub proof fn lemma_committed_error_sticks(
    balance: u64,
    pending: Seq<PendingBlock>,
    keys: Set<BlockKey>,
    i: int,
    n: int,
)
    requires
        0 <= i <= n,
        settle_blocks(balance, committed(pending, keys, i)) is Err,
    ensures
        settle_blocks(balance, committed(pending, keys, n)) == settle_blocks(
            balance,
            committed(pending, keys, i),
        ),
    decreases n - i,
{
    if i < n {
        lemma_committed_error_sticks(balance, pending, keys, i, n - 1);
        if keys.contains(pending[n - 1].key) {
            let prev = committed(pending, keys, n - 1);
            assert(prev.push(pending[n - 1]).drop_last() == prev);
        }
    }
}

/// Whether `key` is one of `keys`.
fn key_listed(keys: &Vec<BlockKey>, key: BlockKey) -> (r: bool)
    ensures
        r == keys@.to_set().contains(key),
{
    let mut i: usize = 0;
    while i < keys.len()
        invariant
            i <= keys.len(),
            forall|j: int| 0 <= j < i ==> keys@[j] != key,
        decreases keys.len() - i,
    {
        if keys[i] == key {
            assert(keys@.contains(key));
            return true;
        }
        i = i + 1;
    }
    assert(!keys@.contains(key));
    false
}

impl State {
    /// The ledger is valid and the pending blocks are in order.
    pub open spec fn wf(&self) -> bool {
        &&& self.ledger.wf()
        &&& self@.wf()
    }

    /// A state over `ledger` with nothing pending, in which at most
    /// `max_pending` blocks may be pending at once.
    pub fn new(ledger: LedgerState, max_pending: u32) -> (state: State)
        requires
            ledger.wf(),
        ensures
            state.wf(),
            state.ledger == ledger,
            state.last_sync == ledger.last_confirmed,
            state.pending@ == Seq::<PendingBlock>::empty(),
            state.max_pending == max_pending,
    {
        let last_sync = ledger.last_confirmed;
        State { ledger, last_sync, pending: Vec::new(), max_pending }
    }

    /// A state over a ledger that comes from storage, with nothing pending;
    /// `None` if the ledger is not well formed.
    pub fn restore(ledger: LedgerState, max_pending: u32) -> (res: Option<State>)
        ensures
            res is Some <==> ledger.wf(),
            res matches Some(state) ==> {
                &&& state.wf()
                &&& state.ledger == ledger
                &&& state.last_sync == ledger.last_confirmed
                &&& state.pending@ == Seq::<PendingBlock>::empty()
                &&& state.max_pending == max_pending
            },
    {
        if ledger.is_valid() {
            Some(State::new(ledger, max_pending))
        } else {
            None
        }
    }

    /// The position of the block that is pending under `key`, if any.
    pub fn pending_beacon(&self, key: BlockKey) -> (res: Option<CheckpointBeacon>)
        ensures
            res is Some <==> has_pending(self.pending@, key),
            res matches Some(beacon) ==> exists|i: int|
                0 <= i < self.pending@.len() && (#[trigger] self.pending@[i]).key == key
                    && self.pending@[i].beacon == beacon,
    {
        let mut i: usize = 0;
        while i < self.pending.len()
            invariant
                i <= self.pending.len(),
                forall|j: int| 0 <= j < i ==> (#[trigger] self.pending@[j]).key != key,
            decreases self.pending.len() - i,
        {
            if self.pending[i].key == key {
                return Some(self.pending[i].beacon);
            }
            i = i + 1;
        }
        None
    }

    /// Whether the state is well formed: to be asked where a state may have
    /// been put together by hand.
    pub fn is_valid(&self) -> (r: bool)
        ensures
            r == self.wf(),
    {
        if !self.ledger.is_valid() {
            return false;
        }
        let n = self.pending.len();
        let base = self.ledger.last_confirmed.epoch;
        if n > self.max_pending as usize || n > (u32::MAX - base) as usize {
            return false;
        }
        if self.last_sync.epoch != base + n as u32 {
            return false;
        }
        if n == 0 {
            if self.last_sync != self.ledger.last_confirmed {
                return false;
            }
        } else if self.last_sync != self.pending[n - 1].beacon {
            return false;
        }
        let mut i: usize = 0;
        while i < n
            invariant
                i <= n,
                n == self.pending.len(),
                base == self.ledger.last_confirmed.epoch,
                base + n <= u32::MAX,
                forall|k: int|
                    0 <= k < i ==> (#[trigger] self.pending@[k]).beacon.epoch == base + 1 + k,
                forall|k: int, l: int|
                    0 <= k < l < i ==> (#[trigger] self.pending@[k]).key != (
                    #[trigger] self.pending@[l]).key,
            decreases n - i,
        {
            if self.pending[i].beacon.epoch != base + 1 + i as u32 {
                return false;
            }
            let mut j: usize = 0;
            while j < i
                invariant
                    j <= i < n,
                    n == self.pending.len(),
                    forall|k: int|
                        0 <= k < j ==> (#[trigger] self.pending@[k]).key != self.pending@[i as int].key,
                decreases i - j,
            {
                if self.pending[j].key == self.pending[i].key {
                    return false;
                }
                j = j + 1;
            }
            i = i + 1;
        }
        true
    }

    /// Whether a block is pending under `key`.
    pub fn is_pending(&self, key: BlockKey) -> (r: bool)
        ensures
            r == has_pending(self.pending@, key),
    {
        let mut i: usize = 0;
        while i < self.pending.len()
            invariant
                i <= self.pending.len(),
                forall|j: int| 0 <= j < i ==> (#[trigger] self.pending@[j]).key != key,
            decreases self.pending.len() - i,
        {
            if self.pending[i].key == key {
                return true;
            }
            i = i + 1;
        }
        false
    }

    /// Applies a block on top of the last one applied, as pending.
    ///
    /// The block must be the one for the epoch after the last synced epoch,
    /// its key must not be that of a block still pending, and there must be
    /// room for it. The ledger is never touched.
    pub fn apply_block(
        &mut self,
        block_key: BlockKey,
        beacon: CheckpointBeacon,
        movements: Vec<BalanceMovement>,
        address_deltas: Vec<AddressInfo>,
    ) -> (res: Result<(), ReconcileError>)
        requires
            old(self).wf(),
        ensures
            final(self).wf(),
            final(self).ledger == old(self).ledger,
            ({
                let block = PendingBlock {
                    key: block_key,
                    beacon,
                    movements,
                    address_infos: address_deltas,
                };
                match res {
                    Ok(()) => old(self)@.apply_block_spec(block) == Ok::<StateView, ReconcileError>(
                        final(self)@,
                    ),
                    Err(e) => old(self)@.apply_block_spec(block) == Err::<
                        StateView,
                        ReconcileError,
                    >(e) && *final(self) == *old(self),
                }
            }),
    {
        if self.last_sync.epoch == u32::MAX || beacon.epoch != self.last_sync.epoch + 1 {
            return Err(ReconcileError::SequenceError);
        }
        if self.is_pending(block_key) {
            return Err(ReconcileError::DuplicateBlockKey);
        }
        if self.pending.len() >= self.max_pending as usize {
            return Err(ReconcileError::RetentionExceeded);
        }
        let block = PendingBlock { key: block_key, beacon, movements, address_infos: address_deltas };
        self.pending.push(block);
        self.last_sync = beacon;
        Ok(())
    }

    /// Takes a finality signal: every pending block at or below
    /// `confirmed_beacon` is merged into the ledger if its key is one of
    /// `canonical_block_keys`, and dropped if not.
    ///
    /// A signal below the last confirmed epoch is refused, and so is one
    /// whose canonical blocks cannot be settled; neither changes anything.
    /// Keys under which nothing is pending are ignored.
    pub fn confirm(
        &mut self,
        confirmed_beacon: CheckpointBeacon,
        canonical_block_keys: &Vec<BlockKey>,
    ) -> (res: Result<(), ReconcileError>)
        requires
            old(self).wf(),
        ensures
            final(self).wf(),
            final(self).ledger.same_account(old(self).ledger),
            final(self).ledger.last_confirmed.epoch >= old(self).ledger.last_confirmed.epoch,
            match res {
                Ok(()) => {
                    &&& old(self)@.confirm_spec(confirmed_beacon, canonical_block_keys@.to_set())
                        == Ok::<StateView, ReconcileError>(final(self)@)
                    &&& forall|i: int|
                        0 <= i < final(self).pending@.len() ==> (
                        #[trigger] final(self).pending@[i]).beacon.epoch > confirmed_beacon.epoch
                },
                Err(e) => {
                    &&& old(self)@.confirm_spec(confirmed_beacon, canonical_block_keys@.to_set())
                        == Err::<StateView, ReconcileError>(e)
                    &&& *final(self) == *old(self)
                },
            },
            confirmed_beacon.epoch < old(self).ledger.last_confirmed.epoch ==> res == Err::<
                (),
                ReconcileError,
            >(ReconcileError::FinalityRegressionError),
    {
        if confirmed_beacon.epoch < self.ledger.last_confirmed.epoch {
            return Err(ReconcileError::FinalityRegressionError);
        }
        let ghost start = *self;
        let ghost before = self@;
        let ghost keys = canonical_block_keys@.to_set();
        let span = confirmed_beacon.epoch - self.ledger.last_confirmed.epoch;
        let n: usize = if span as usize >= self.pending.len() {
            self.pending.len()
        } else {
            span as usize
        };
        assert(n == before.covered(confirmed_beacon));

        // First pass: settle the canonical blocks, changing nothing.
        let mut balance = self.ledger.balance;
        let mut tip = self.ledger.last_confirmed;
        let mut discarded = false;
        let mut i: usize = 0;
        while i < n
            invariant
                i <= n <= self.pending.len(),
                *self == start,
                start == *old(self),
                start.wf(),
                start@ == before,
                confirmed_beacon.epoch >= before.ledger.last_confirmed.epoch,
                n == before.covered(confirmed_beacon),
                keys == canonical_block_keys@.to_set(),
                tip.epoch >= before.ledger.last_confirmed.epoch,
                settle_blocks(before.ledger.balance, committed(before.pending, keys, i as int))
                    == Ok::<u64, ReconcileError>(balance),
                tip == (if committed(before.pending, keys, i as int).len() == 0 {
                    before.ledger.last_confirmed
                } else {
                    committed(before.pending, keys, i as int).last().beacon
                }),
                discarded == any_discarded(before.pending, keys, i as int),
            decreases n - i,
        {
            let ghost prev = committed(before.pending, keys, i as int);
            if key_listed(canonical_block_keys, self.pending[i].key) {
                proof {
                    assert(prev.push(before.pending[i as int]).drop_last() == prev);
                }
                match settle_movements(balance, &self.pending[i].movements) {
                    Ok(settled) => {
                        balance = settled;
                        tip = self.pending[i].beacon;
                    },
                    Err(e) => {
                        proof {
                            lemma_committed_error_sticks(
                                before.ledger.balance,
                                before.pending,
                                keys,
                                i + 1,
                                n as int,
                            );
                            lemma_commit_components(
                                before.ledger,
                                committed(before.pending, keys, n as int),
                            );
                        }
                        return Err(e);
                    },
                }
            } else {
                discarded = true;
            }
            i = i + 1;
        }

        // Second pass: merge them.
        let mut i: usize = 0;
        while i < n
            invariant
                i <= n <= self.pending.len(),
                keys == canonical_block_keys@.to_set(),
                self.pending@ == before.pending,
                self.last_sync == before.last_sync,
                self.max_pending == before.max_pending,
                self.ledger.same_account(start.ledger),
                self.ledger.last_confirmed == before.ledger.last_confirmed,
                self.ledger.utxo_set@ == utxos_after(
                    before.ledger.utxos,
                    committed(before.pending, keys, i as int),
                ),
                self.ledger.address_infos@ == addresses_after(
                    before.ledger.addresses,
                    committed(before.pending, keys, i as int),
                ),
            decreases n - i,
        {
            let ghost prev = committed(before.pending, keys, i as int);
            if key_listed(canonical_block_keys, self.pending[i].key) {
                proof {
                    assert(prev.push(before.pending[i as int]).drop_last() == prev);
                }
                apply_movements(&mut self.ledger.utxo_set, &self.pending[i].movements);
                merge_addresses(&mut self.ledger.address_infos, &self.pending[i].address_infos);
            }
            i = i + 1;
        }
        proof {
            lemma_commit_components(before.ledger, committed(before.pending, keys, n as int));
        }
        self.ledger.balance = balance;
        if discarded {
            self.ledger.last_confirmed = tip;
            self.last_sync = tip;
            self.pending.clear();
        } else {
            self.ledger.last_confirmed = confirmed_beacon;
            let rest = self.pending.split_off(n);
            self.pending = rest;
            if self.pending.len() == 0 {
                self.last_sync = confirmed_beacon;
            }
            assert(self.pending@ == before.pending.skip(n as int));
        }
        Ok(())
    }

    /// Issues the next index of the external chain.
    ///
    /// Fails, changing nothing, when no index is left.
    pub fn allocate_external_index(&mut self) -> (res: Result<u32, ReconcileError>)
        ensures
            match res {
                Ok(index) => {
                    &&& old(self)@.issue_external_spec() == Ok::<(u32, StateView), ReconcileError>(
                        (index, final(self)@),
                    )
                    &&& *final(self) == (State {
                        ledger: LedgerState {
                            next_external_index: final(self).ledger.next_external_index,
                            ..old(self).ledger
                        },
                        ..*old(self)
                    })
                },
                Err(e) => {
                    &&& old(self)@.issue_external_spec() == Err::<(u32, StateView), ReconcileError>(e)
                    &&& *final(self) == *old(self)
                },
            },
    {
        match next_index(self.ledger.next_external_index) {
            Ok((index, following)) => {
                self.ledger.next_external_index = following;
                Ok(index)
            },
            Err(e) => Err(e),
        }
    }

    /// Issues the next index of the internal chain.
    ///
    /// Fails, changing nothing, when no index is left.
    pub fn allocate_internal_index(&mut self) -> (res: Result<u32, ReconcileError>)
        ensures
            match res {
                Ok(index) => {
                    &&& old(self)@.issue_internal_spec() == Ok::<(u32, StateView), ReconcileError>(
                        (index, final(self)@),
                    )
                    &&& *final(self) == (State {
                        ledger: LedgerState {
                            next_internal_index: final(self).ledger.next_internal_index,
                            ..old(self).ledger
                        },
                        ..*old(self)
                    })
                },
                Err(e) => {
                    &&& old(self)@.issue_internal_spec() == Err::<(u32, StateView), ReconcileError>(e)
                    &&& *final(self) == *old(self)
                },
            },
    {
        match next_index(self.ledger.next_internal_index) {
            Ok((index, following)) => {
                self.ledger.next_internal_index = following;
                Ok(index)
            },
            Err(e) => Err(e),
        }
    }

    /// The balance as it stands with every pending block counted in.
    pub fn effective_balance(&self) -> (res: Result<u64, ReconcileError>)
        ensures
            res == self@.effective_balance(),
    {
        let mut balance = self.ledger.balance;
        let mut i: usize = 0;
        while i < self.pending.len()
            invariant
                i <= self.pending.len(),
                settle_blocks(self.ledger.balance, self.pending@.take(i as int)) == Ok::<
                    u64,
                    ReconcileError,
                >(balance),
            decreases self.pending.len() - i,
        {
            proof {
                assert(self.pending@.take(i + 1).drop_last() == self.pending@.take(i as int));
            }
            match settle_movements(balance, &self.pending[i].movements) {
                Ok(settled) => {
                    balance = settled;
                },
                Err(e) => {
                    proof {
                        lemma_settle_blocks_error_sticks(
                            self.ledger.balance,
                            self.pending@,
                            i + 1,
                        );
                    }
                    return Err(e);
                },
            }
            i = i + 1;
        }
        assert(self.pending@.take(i as int) == self.pending@);
        Ok(balance)
    }

    /// The unspent outputs as they stand with every pending block counted in.
    pub fn effective_utxo_set(&self) -> (utxos: UtxoSet)
        ensures
            utxos@ == utxos_after(self.ledger.utxo_set@, self.pending@),
    {
        let mut utxos = self.ledger.utxo_set.clone();
        let mut i: usize = 0;
        while i < self.pending.len()
            invariant
                i <= self.pending.len(),
                utxos@ == utxos_after(self.ledger.utxo_set@, self.pending@.take(i as int)),
            decreases self.pending.len() - i,
        {
            proof {
                assert(self.pending@.take(i + 1).drop_last() == self.pending@.take(i as int));
            }
            apply_movements(&mut utxos, &self.pending[i].movements);
            i = i + 1;
        }
        assert(self.pending@.take(i as int) == self.pending@);
        utxos
    }
}

/// Once settling a prefix of the blocks has failed, settling all of them
/// fails in the same way.
pub proof fn lemma_settle_blocks_error_sticks(balance: u64, blocks: Seq<PendingBlock>, n: int)
    requires
        0 <= n <= blocks.len(),
        settle_blocks(balance, blocks.take(n)) is Err,
    ensures
        settle_blocks(balance, blocks) == settle_blocks(balance, blocks.take(n)),
    decreases blocks.len() - n,
{
    if n < blocks.len() {
        assert(blocks.take(n + 1).drop_last() == blocks.take(n));
        lemma_settle_blocks_error_sticks(balance, blocks, n + 1);
    } else {
        assert(blocks.take(n) == blocks);
    }
}

} // verus!
