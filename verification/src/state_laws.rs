//! What holds of the wallet state whatever blocks and finality signals
//! arrive: stated over [`StateView`] and the spec functions that the
//! contracts of [`State`](crate::state::State) are written in.

use crate::chain::{BlockKey, CheckpointBeacon};
use crate::ledger::{commit_blocks_spec, lemma_commit_components, LedgerView};
use crate::model::{AddressInfo, BalanceMovement, PendingBlock, ReconcileError};
use crate::state::{any_discarded, committed, has_pending, StateView};
use vstd::prelude::*;

verus! {

/// A position at which `pending` holds a block with the key `key`.
pub open spec fn pending_index(pending: Seq<PendingBlock>, key: BlockKey) -> int {
    choose|i: int| 0 <= i < pending.len() && (#[trigger] pending[i]).key == key
}

/// The positions of the pending blocks, by block key.
pub open spec fn pending_blocks(pending: Seq<PendingBlock>) -> Map<BlockKey, CheckpointBeacon> {
    Map::new(
        |key: BlockKey| has_pending(pending, key),
        |key: BlockKey| pending[pending_index(pending, key)].beacon,
    )
}

/// The movements of the pending blocks, by block key.
pub open spec fn pending_movements(pending: Seq<PendingBlock>) -> Map<
    BlockKey,
    Seq<BalanceMovement>,
> {
    Map::new(
        |key: BlockKey| has_pending(pending, key),
        |key: BlockKey| pending[pending_index(pending, key)].movements@,
    )
}

/// The address updates of the pending blocks, by block key.
pub open spec fn pending_address_infos(pending: Seq<PendingBlock>) -> Map<
    BlockKey,
    Seq<AddressInfo>,
> {
    Map::new(
        |key: BlockKey| has_pending(pending, key),
        |key: BlockKey| pending[pending_index(pending, key)].address_infos@,
    )
}

/// In a well-formed state a key is pending at one position only.
pub proof fn lemma_pending_index_unique(v: StateView, i: int)
    requires
        v.wf(),
        0 <= i < v.pending.len(),
    ensures
        has_pending(v.pending, v.pending[i].key),
        pending_index(v.pending, v.pending[i].key) == i,
{
    let key = v.pending[i].key;
    let j = pending_index(v.pending, key);
    assert(0 <= j < v.pending.len() && v.pending[j].key == key);
    if i < j {
        assert(v.pending[i].key != v.pending[j].key);
    } else if j < i {
        assert(v.pending[j].key != v.pending[i].key);
    }
}

/// A block that is applied leaves a well-formed state well formed and the
/// ledger as it was.
pub proof fn lemma_apply_block_keeps_wf(v: StateView, block: PendingBlock)
    requires
        v.wf(),
        v.apply_block_spec(block) is Ok,
    ensures
        v.apply_block_spec(block)->Ok_0.wf(),
        v.apply_block_spec(block)->Ok_0.ledger == v.ledger,
{
    let next = v.apply_block_spec(block)->Ok_0;
    assert forall|i: int| 0 <= i < next.pending.len() implies (#[trigger] next.pending[i]).beacon.epoch
        == next.ledger.last_confirmed.epoch + 1 + i by {
        if i < v.pending.len() {
            assert(next.pending[i] == v.pending[i]);
        }
    }
    assert forall|i: int, j: int| 0 <= i < j < next.pending.len() implies (
    #[trigger] next.pending[i]).key != (#[trigger] next.pending[j]).key by {
        assert(next.pending[i] == v.pending[i]);
        if j < v.pending.len() {
            assert(next.pending[j] == v.pending[j]);
        }
    }
}

/// A block that is applied enters each of the three pending maps under its
/// key, and nothing else in them changes.
pub proof fn lemma_apply_block_inserts(v: StateView, block: PendingBlock)
    requires
        v.wf(),
        v.apply_block_spec(block) is Ok,
    ensures
        ({
            let next = v.apply_block_spec(block)->Ok_0;
            &&& next.last_sync == block.beacon
            &&& pending_blocks(next.pending) == pending_blocks(v.pending).insert(
                block.key,
                block.beacon,
            )
            &&& pending_movements(next.pending) == pending_movements(v.pending).insert(
                block.key,
                block.movements@,
            )
            &&& pending_address_infos(next.pending) == pending_address_infos(v.pending).insert(
                block.key,
                block.address_infos@,
            )
        }),
{
    let next = v.apply_block_spec(block)->Ok_0;
    let last = v.pending.len() as int;
    lemma_apply_block_keeps_wf(v, block);
    assert(next.pending[last] == block);
    assert forall|key: BlockKey| has_pending(next.pending, key) <==> (key == block.key
        || has_pending(v.pending, key)) by {
        if has_pending(next.pending, key) {
            let j = pending_index(next.pending, key);
            if j < last {
                assert(v.pending[j].key == key);
            }
        }
        if has_pending(v.pending, key) {
            let j = pending_index(v.pending, key);
            assert(next.pending[j].key == key);
        }
    }
    assert forall|key: BlockKey| has_pending(next.pending, key) implies next.pending[pending_index(
        next.pending,
        key,
    )] == (if key == block.key {
        block
    } else {
        v.pending[pending_index(v.pending, key)]
    }) by {
        let j = pending_index(next.pending, key);
        lemma_pending_index_unique(next, j);
        if j < last {
            assert(next.pending[j] == v.pending[j]);
            assert(v.pending[j].key == key);
            lemma_pending_index_unique(v, j);
            assert(next.pending[last].key == block.key);
        }
    }
    assert(pending_blocks(next.pending) =~= pending_blocks(v.pending).insert(
        block.key,
        block.beacon,
    ));
    assert(pending_movements(next.pending) =~= pending_movements(v.pending).insert(
        block.key,
        block.movements@,
    ));
    assert(pending_address_infos(next.pending) =~= pending_address_infos(v.pending).insert(
        block.key,
        block.address_infos@,
    ));
}

/// Each of the canonical blocks among the first `n` is one of those `n`
/// blocks, and its key is canonical.
pub proof fn lemma_committed_member(
    pending: Seq<PendingBlock>,
    keys: Set<BlockKey>,
    n: int,
    j: int,
) -> (i: int)
    requires
        0 <= n <= pending.len(),
        0 <= j < committed(pending, keys, n).len(),
    ensures
        0 <= i < n,
        committed(pending, keys, n)[j] == pending[i],
        keys.contains(pending[i].key),
    decreases n,
{
    let prev = committed(pending, keys, n - 1);
    if keys.contains(pending[n - 1].key) && j == prev.len() {
        n - 1
    } else {
        lemma_committed_member(pending, keys, n - 1, j)
    }
}

/// Where the first `n` blocks are all canonical, they are what is merged
/// and nothing is dropped.
pub proof fn lemma_all_canonical(pending: Seq<PendingBlock>, keys: Set<BlockKey>, n: int)
    requires
        0 <= n <= pending.len(),
        forall|i: int| 0 <= i < n ==> keys.contains((#[trigger] pending[i]).key),
    ensures
        committed(pending, keys, n) == pending.take(n),
        !any_discarded(pending, keys, n),
    decreases n,
{
    if n > 0 {
        lemma_all_canonical(pending, keys, n - 1);
        assert(keys.contains(pending[n - 1].key));
        assert(pending.take(n - 1).push(pending[n - 1]) == pending.take(n));
    } else {
        assert(pending.take(n) == Seq::<PendingBlock>::empty());
    }
}

/// A finality signal that is taken leaves a well-formed state well formed.
/// The last confirmed epoch does not decrease, and no block stays pending
/// at or below the epoch of the signal.
pub proof fn lemma_confirm_step(v: StateView, beacon: CheckpointBeacon, keys: Set<BlockKey>)
    requires
        v.wf(),
        v.confirm_spec(beacon, keys) is Ok,
    ensures
        ({
            let next = v.confirm_spec(beacon, keys)->Ok_0;
            &&& next.wf()
            &&& next.max_pending == v.max_pending
            &&& next.next_external_index == v.next_external_index
            &&& next.next_internal_index == v.next_internal_index
            &&& v.ledger.last_confirmed.epoch <= next.ledger.last_confirmed.epoch <= beacon.epoch
            &&& forall|i: int|
                0 <= i < next.pending.len() ==> (#[trigger] next.pending[i]).beacon.epoch
                    > beacon.epoch
            &&& forall|key: BlockKey|
                #![trigger pending_blocks(next.pending).contains_key(key)]
                #![trigger pending_movements(next.pending).contains_key(key)]
                #![trigger pending_address_infos(next.pending).contains_key(key)]
                {
                    ||| pending_blocks(next.pending).contains_key(key)
                    ||| pending_movements(next.pending).contains_key(key)
                    ||| pending_address_infos(next.pending).contains_key(key)
                } ==> pending_blocks(next.pending)[key].epoch > beacon.epoch
        }),
{
    let next = v.confirm_spec(beacon, keys)->Ok_0;
    let n = v.covered(beacon);
    let done = committed(v.pending, keys, n);
    lemma_commit_components(v.ledger, done);
    if any_discarded(v.pending, keys, n) {
        if done.len() > 0 {
            let i = lemma_committed_member(v.pending, keys, n, done.len() - 1);
            assert(v.pending[i].beacon.epoch == v.ledger.last_confirmed.epoch + 1 + i);
        }
    } else {
        let rest = v.pending.skip(n);
        assert forall|i: int| 0 <= i < rest.len() implies (#[trigger] rest[i]).beacon.epoch
            == beacon.epoch + 1 + i by {
            assert(rest[i] == v.pending[n + i]);
        }
        assert forall|i: int, j: int| 0 <= i < j < rest.len() implies (#[trigger] rest[i]).key != (
        #[trigger] rest[j]).key by {
            assert(rest[i] == v.pending[n + i]);
            assert(rest[j] == v.pending[n + j]);
        }
        if rest.len() > 0 {
            assert(rest.last() == v.pending.last());
        }
    }
    assert forall|key: BlockKey| has_pending(next.pending, key) implies pending_blocks(
        next.pending,
    )[key].epoch > beacon.epoch by {
        let j = pending_index(next.pending, key);
        assert(next.pending[j].beacon.epoch > beacon.epoch);
    }
}

/// A finality signal below the last confirmed epoch is refused; every other
/// signal is taken unless the canonical blocks cannot be settled.
pub proof fn lemma_confirm_refusals(v: StateView, beacon: CheckpointBeacon, keys: Set<BlockKey>)
    ensures
        beacon.epoch < v.ledger.last_confirmed.epoch ==> v.confirm_spec(beacon, keys) == Err::<
            StateView,
            ReconcileError,
        >(ReconcileError::FinalityRegressionError),
        v.confirm_spec(beacon, keys) == Err::<StateView, ReconcileError>(
            ReconcileError::FinalityRegressionError,
        ) ==> beacon.epoch < v.ledger.last_confirmed.epoch,
{
    if beacon.epoch >= v.ledger.last_confirmed.epoch {
        let done = committed(v.pending, keys, v.covered(beacon));
        lemma_commit_never_regresses(v.ledger, done);
    }
}

/// Merging blocks into a ledger never fails for want of finality: the only
/// failures are those of the balance.
pub proof fn lemma_commit_never_regresses(ledger: LedgerView, blocks: Seq<PendingBlock>)
    ensures
        commit_blocks_spec(ledger, blocks) matches Err(e) ==> e == ReconcileError::BalanceOverflow
            || e == ReconcileError::BalanceUnderflow,
    decreases blocks.len(),
{
    if blocks.len() > 0 {
        lemma_commit_never_regresses(ledger, blocks.drop_last());
        if commit_blocks_spec(ledger, blocks.drop_last()) is Ok {
            let merged = commit_blocks_spec(ledger, blocks.drop_last())->Ok_0;
            crate::ledger::lemma_settle_errors(merged.balance, blocks.last().movements@);
        }
    }
}

/// What can happen to a wallet: a block arrives, or a finality signal does.
pub enum Event {
    /// A block is applied.
    Block(PendingBlock),
    /// A finality signal is taken.
    Finality(CheckpointBeacon, Set<BlockKey>),
    /// An index of the external chain is asked for.
    IssueExternal,
    /// An index of the internal chain is asked for.
    IssueInternal,
}

/// The state after one event. A refused event changes nothing.
pub open spec fn after_event(v: StateView, event: Event) -> StateView {
    match event {
        Event::Block(block) => match v.apply_block_spec(block) {
            Ok(next) => next,
            Err(_) => v,
        },
        Event::Finality(beacon, keys) => match v.confirm_spec(beacon, keys) {
            Ok(next) => next,
            Err(_) => v,
        },
        Event::IssueExternal => match v.issue_external_spec() {
            Ok((_, next)) => next,
            Err(_) => v,
        },
        Event::IssueInternal => match v.issue_internal_spec() {
            Ok((_, next)) => next,
            Err(_) => v,
        },
    }
}

/// The state after a run of events, in order.
pub open spec fn after_events(v: StateView, events: Seq<Event>) -> StateView
    decreases events.len(),
{
    if events.len() == 0 {
        v
    } else {
        after_event(after_events(v, events.drop_last()), events.last())
    }
}

/// Whatever happens, a well-formed state stays well formed.
pub proof fn lemma_events_keep_wf(v: StateView, events: Seq<Event>)
    requires
        v.wf(),
    ensures
        after_events(v, events).wf(),
    decreases events.len(),
{
    if events.len() > 0 {
        let before = after_events(v, events.drop_last());
        lemma_events_keep_wf(v, events.drop_last());
        match events.last() {
            Event::Block(block) => {
                if before.apply_block_spec(block) is Ok {
                    lemma_apply_block_keeps_wf(before, block);
                }
            },
            Event::Finality(beacon, keys) => {
                if before.confirm_spec(beacon, keys) is Ok {
                    lemma_confirm_step(before, beacon, keys);
                }
            },
            Event::IssueExternal => {},
            Event::IssueInternal => {},
        }
    }
}

/// Finality is monotonic: over any run of events the last confirmed epoch
/// after the first `i` of them is at most what it is after the first `j`,
/// for `i <= j`; and the last synced epoch is never behind it.
pub proof fn lemma_finality_never_regresses(v: StateView, events: Seq<Event>, i: int, j: int)
    requires
        v.wf(),
        0 <= i <= j <= events.len(),
    ensures
        after_events(v, events.take(i)).ledger.last_confirmed.epoch <= after_events(
            v,
            events.take(j),
        ).ledger.last_confirmed.epoch,
        after_events(v, events.take(j)).ledger.last_confirmed.epoch <= after_events(
            v,
            events.take(j),
        ).last_sync.epoch,
    decreases j - i,
{
    lemma_events_keep_wf(v, events.take(j));
    if i < j {
        let before = after_events(v, events.take(j - 1));
        assert(events.take(j).drop_last() == events.take(j - 1));
        lemma_events_keep_wf(v, events.take(j - 1));
        lemma_finality_never_regresses(v, events, i, j - 1);
        match events.take(j).last() {
            Event::Block(block) => {
                if before.apply_block_spec(block) is Ok {
                    lemma_apply_block_keeps_wf(before, block);
                }
            },
            Event::Finality(beacon, keys) => {
                if before.confirm_spec(beacon, keys) is Ok {
                    lemma_confirm_step(before, beacon, keys);
                }
            },
            Event::IssueExternal => {},
            Event::IssueInternal => {},
        }
    }
}

/// The external index that the event at position `i` of a run issues, if
/// that event asks for one and one is left.
pub open spec fn issued_external(v: StateView, events: Seq<Event>, i: int) -> Option<u32> {
    match (events[i], after_events(v, events.take(i)).issue_external_spec()) {
        (Event::IssueExternal, Ok((index, _))) => Some(index),
        _ => None,
    }
}

/// The internal index that the event at position `i` of a run issues, if
/// that event asks for one and one is left.
pub open spec fn issued_internal(v: StateView, events: Seq<Event>, i: int) -> Option<u32> {
    match (events[i], after_events(v, events.take(i)).issue_internal_spec()) {
        (Event::IssueInternal, Ok((index, _))) => Some(index),
        _ => None,
    }
}

/// Over any run of events the next indices never decrease.
pub proof fn lemma_indices_never_decrease(v: StateView, events: Seq<Event>, i: int, j: int)
    requires
        v.wf(),
        0 <= i <= j <= events.len(),
    ensures
        after_events(v, events.take(i)).next_external_index <= after_events(
            v,
            events.take(j),
        ).next_external_index,
        after_events(v, events.take(i)).next_internal_index <= after_events(
            v,
            events.take(j),
        ).next_internal_index,
    decreases j - i,
{
    if i < j {
        let before = after_events(v, events.take(j - 1));
        assert(events.take(j).drop_last() == events.take(j - 1));
        lemma_events_keep_wf(v, events.take(j - 1));
        lemma_indices_never_decrease(v, events, i, j - 1);
        match events.take(j).last() {
            Event::Block(block) => {},
            Event::Finality(beacon, keys) => {
                if before.confirm_spec(beacon, keys) is Ok {
                    lemma_confirm_step(before, beacon, keys);
                }
            },
            Event::IssueExternal => {},
            Event::IssueInternal => {},
        }
    }
}

/// No index is issued twice: of two indices that a run of events issues on
/// one chain, the later is the greater, and each lies below the next index
/// as it stands after the run.
pub proof fn lemma_issued_indices_are_fresh(v: StateView, events: Seq<Event>, i: int, j: int)
    requires
        v.wf(),
        0 <= i < j < events.len(),
    ensures
        issued_external(v, events, i) is Some && issued_external(v, events, j) is Some
            ==> issued_external(v, events, i)->0 < issued_external(v, events, j)->0,
        issued_internal(v, events, i) is Some && issued_internal(v, events, j) is Some
            ==> issued_internal(v, events, i)->0 < issued_internal(v, events, j)->0,
        issued_external(v, events, j) is Some ==> issued_external(v, events, j)->0
            < after_events(v, events).next_external_index,
        issued_internal(v, events, j) is Some ==> issued_internal(v, events, j)->0
            < after_events(v, events).next_internal_index,
{
    assert(events.take(i + 1).drop_last() == events.take(i));
    assert(events.take(i + 1).last() == events[i]);
    lemma_indices_never_decrease(v, events, i + 1, j);
    assert(events.take(j + 1).drop_last() == events.take(j));
    assert(events.take(j + 1).last() == events[j]);
    lemma_indices_never_decrease(v, events, j + 1, events.len() as int);
    assert(events.take(events.len() as int) == events);
}

/// The state after `blocks` are applied one after the other, or the first
/// refusal.
pub open spec fn apply_blocks_spec(v: StateView, blocks: Seq<PendingBlock>) -> Result<
    StateView,
    ReconcileError,
>
    decreases blocks.len(),
{
    if blocks.len() == 0 {
        Ok(v)
    } else {
        match apply_blocks_spec(v, blocks.drop_last()) {
            Ok(next) => next.apply_block_spec(blocks.last()),
            Err(e) => Err(e),
        }
    }
}

/// Blocks that are applied one after the other queue up behind what was
/// pending, in order, and leave the ledger as it was.
pub proof fn lemma_apply_blocks(v: StateView, blocks: Seq<PendingBlock>)
    requires
        v.wf(),
        apply_blocks_spec(v, blocks) is Ok,
    ensures
        ({
            let next = apply_blocks_spec(v, blocks)->Ok_0;
            &&& next.wf()
            &&& next.ledger == v.ledger
            &&& next.max_pending == v.max_pending
            &&& next.next_external_index == v.next_external_index
            &&& next.next_internal_index == v.next_internal_index
            &&& next.pending == v.pending + blocks
        }),
    decreases blocks.len(),
{
    if blocks.len() > 0 {
        lemma_apply_blocks(v, blocks.drop_last());
        let before = apply_blocks_spec(v, blocks.drop_last())->Ok_0;
        lemma_apply_block_keeps_wf(before, blocks.last());
        assert((v.pending + blocks.drop_last()).push(blocks.last()) == v.pending + blocks);
    } else {
        assert(v.pending + blocks == v.pending);
    }
}

/// Applying blocks and then confirming all of them equals merging them
/// into the ledger directly.
///
/// Start from a well-formed state, apply `blocks` in order, then take a
/// finality signal that covers the last of them and under which every
/// pending block is canonical. The signal is taken exactly when merging the
/// pending blocks straight into the ledger succeeds, and the ledger is then
/// the same, confirmed at the signalled position; nothing stays pending.
pub proof fn lemma_overlay_then_commit_is_direct_apply(
    v: StateView,
    blocks: Seq<PendingBlock>,
    beacon: CheckpointBeacon,
    keys: Set<BlockKey>,
)
    requires
        v.wf(),
        apply_blocks_spec(v, blocks) is Ok,
        forall|i: int| 0 <= i < v.pending.len() ==> keys.contains((#[trigger] v.pending[i]).key),
        forall|i: int| 0 <= i < blocks.len() ==> keys.contains((#[trigger] blocks[i]).key),
        beacon.epoch >= apply_blocks_spec(v, blocks)->Ok_0.last_sync.epoch,
    ensures
        apply_blocks_spec(v, blocks)->Ok_0.confirm_spec(beacon, keys) == (match commit_blocks_spec(
            v.ledger,
            v.pending + blocks,
        ) {
            Ok(merged) => Ok(
                StateView {
                    ledger: LedgerView { last_confirmed: beacon, ..merged },
                    last_sync: beacon,
                    pending: Seq::empty(),
                    ..v
                },
            ),
            Err(e) => Err(e),
        }),
{
    lemma_apply_blocks(v, blocks);
    let applied = apply_blocks_spec(v, blocks)->Ok_0;
    let all = v.pending + blocks;
    let n = applied.covered(beacon);
    assert(n == all.len());
    assert forall|i: int| 0 <= i < n implies keys.contains((#[trigger] all[i]).key) by {
        if i < v.pending.len() {
            assert(all[i] == v.pending[i]);
        } else {
            assert(all[i] == blocks[i - v.pending.len()]);
        }
    }
    lemma_all_canonical(all, keys, n);
    assert(all.take(n) == all);
    assert(all.skip(n) == Seq::<PendingBlock>::empty());
}

} // verus!
