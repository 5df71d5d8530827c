//! The confirmed ledger of one wallet account, and what merging blocks into
//! it means.
//!
//! Movements are settled one after the other, in the order of the block, and
//! the balance must stay within `u64` after each of them: a block whose
//! movements would take the balance out of range at any point cannot be
//! merged. Spent outputs leave the set of unspent outputs and created ones
//! enter it; an address update replaces the usage record of its address.

use crate::chain::CheckpointBeacon;
use crate::model::{
    AddressBook, AddressInfo, AddressKey, AddressUsage, BalanceMovement, EpochConstants,
    Keychains, MovementKind, OutputData, OutputRef, PendingBlock, ReconcileError, Utxo, UtxoSet,
};
use vstd::prelude::*;

verus! {

/// The confirmed, durable state of one wallet account.
pub struct LedgerState {
    pub name: Option<String>,
    pub caption: Option<String>,
    /// The account that this ledger belongs to; one of `available_accounts`.
    pub account: u32,
    pub available_accounts: Vec<u32>,
    pub keychains: Keychains,
    /// The next index to issue on the external chain. Never decreases.
    pub next_external_index: u32,
    /// The next index to issue on the internal chain. Never decreases.
    pub next_internal_index: u32,
    pub transaction_next_id: u32,
    pub epoch_constants: EpochConstants,
    pub balance: u64,
    pub utxo_set: UtxoSet,
    pub address_infos: AddressBook,
    /// The highest position whose effects are merged into this ledger.
    pub last_confirmed: CheckpointBeacon,
}

/// The part of a ledger that merging a block can change.
pub struct LedgerView {
    pub balance: u64,
    pub utxos: Map<OutputRef, OutputData>,
    pub addresses: Map<AddressKey, AddressUsage>,
    pub last_confirmed: CheckpointBeacon,
}

impl View for LedgerState {
    type V = LedgerView;

    open spec fn view(&self) -> LedgerView {
        LedgerView {
            balance: self.balance,
            utxos: self.utxo_set@,
            addresses: self.address_infos@,
            last_confirmed: self.last_confirmed,
        }
    }
}

impl LedgerState {
    /// The account is one of the available accounts.
    pub open spec fn wf(&self) -> bool {
        self.available_accounts@.contains(self.account)
    }

    /// `other` is the ledger of the same account: everything that no block
    /// changes is the same in both.
    pub open spec fn same_account(&self, other: LedgerState) -> bool {
        &&& self.name == other.name
        &&& self.caption == other.caption
        &&& self.account == other.account
        &&& self.available_accounts == other.available_accounts
        &&& self.keychains == other.keychains
        &&& self.next_external_index == other.next_external_index
        &&& self.next_internal_index == other.next_internal_index
        &&& self.transaction_next_id == other.transaction_next_id
        &&& self.epoch_constants == other.epoch_constants
    }

    /// A fresh ledger for `account`, with nothing in it, confirmed as of
    /// `origin`. The account is the only available one.
    pub fn new(
        account: u32,
        keychains: Keychains,
        epoch_constants: EpochConstants,
        origin: CheckpointBeacon,
    ) -> (ledger: LedgerState)
        ensures
            ledger.wf(),
            ledger.name is None,
            ledger.caption is None,
            ledger.account == account,
            ledger.available_accounts@ == seq![account],
            ledger.keychains == keychains,
            ledger.next_external_index == 0,
            ledger.next_internal_index == 0,
            ledger.transaction_next_id == 0,
            ledger.epoch_constants == epoch_constants,
            ledger@ == (LedgerView {
                balance: 0,
                utxos: Map::empty(),
                addresses: Map::empty(),
                last_confirmed: origin,
            }),
    {
        let mut available_accounts: Vec<u32> = Vec::new();
        available_accounts.push(account);
        assert(available_accounts@[0] == account);
        LedgerState {
            name: None,
            caption: None,
            account,
            available_accounts,
            keychains,
            next_external_index: 0,
            next_internal_index: 0,
            transaction_next_id: 0,
            epoch_constants,
            balance: 0,
            utxo_set: UtxoSet::new(),
            address_infos: AddressBook::new(),
            last_confirmed: origin,
        }
    }

    /// Whether the ledger is well formed: to be asked of a ledger that
    /// comes from storage before it is built on.
    pub fn is_valid(&self) -> (r: bool)
        ensures
            r == self.wf(),
    {
        let mut i: usize = 0;
        while i < self.available_accounts.len()
            invariant
                i <= self.available_accounts.len(),
                forall|j: int| 0 <= j < i ==> self.available_accounts@[j] != self.account,
            decreases self.available_accounts.len() - i,
        {
            if self.available_accounts[i] == self.account {
                return true;
            }
            i = i + 1;
        }
        false
    }
}

/// Issuing the index `next`: the index issued and the next one after it.
/// The last index of all is kept back, so that the next index always exists.
pub open spec fn issue_index(next: u32) -> Result<(u32, u32), ReconcileError> {
    if next == u32::MAX {
        Err(ReconcileError::IndexOverflow)
    } else {
        Ok((next, (next + 1) as u32))
    }
}

/// The indices issued by `count` allocations in a row that start at `next`,
/// if none of them overflows.
pub open spec fn issue_indices(next: u32, count: nat) -> Result<(Seq<u32>, u32), ReconcileError>
    decreases count,
{
    if count == 0 {
        Ok((Seq::empty(), next))
    } else {
        match issue_indices(next, (count - 1) as nat) {
            Ok((issued, following)) => match issue_index(following) {
                Ok((index, after)) => Ok((issued.push(index), after)),
                Err(e) => Err(e),
            },
            Err(e) => Err(e),
        }
    }
}

/// Allocations in a row issue consecutive indices: the next index never
/// decreases, every index issued lies below it, and no index is issued
/// twice.
pub proof fn lemma_indices_never_repeat(next: u32, count: nat)
    requires
        issue_indices(next, count) is Ok,
    ensures
        ({
            let (issued, following) = issue_indices(next, count)->Ok_0;
            &&& issued.len() == count
            &&& following == next + count
            &&& forall|i: int| 0 <= i < count ==> #[trigger] issued[i] == next + i
            &&& forall|i: int| 0 <= i < count ==> next <= #[trigger] issued[i] < following
            &&& forall|i: int, j: int|
                0 <= i < j < count ==> #[trigger] issued[i] < #[trigger] issued[j]
            &&& issued.no_duplicates()
        }),
    decreases count,
{
    if count > 0 {
        lemma_indices_never_repeat(next, (count - 1) as nat);
    }
}

/// One allocation: the index to hand out and the index to keep as next.
pub fn next_index(next: u32) -> (res: Result<(u32, u32), ReconcileError>)
    ensures
        res == issue_index(next),
{
    if next == u32::MAX {
        Err(ReconcileError::IndexOverflow)
    } else {
        Ok((next, next + 1))
    }
}

/// The balance after one movement, if it stays in range.
pub open spec fn step_balance(balance: u64, m: BalanceMovement) -> Result<u64, ReconcileError> {
    match m.kind {
        MovementKind::Credit => if balance + m.amount > u64::MAX {
            Err(ReconcileError::BalanceOverflow)
        } else {
            Ok((balance + m.amount) as u64)
        },
        MovementKind::Debit => if m.amount > balance {
            Err(ReconcileError::BalanceUnderflow)
        } else {
            Ok((balance - m.amount) as u64)
        },
    }
}

/// The balance after `movements`, settled in order; the first movement that
/// leaves the range decides the error.
pub open spec fn settle(balance: u64, movements: Seq<BalanceMovement>) -> Result<
    u64,
    ReconcileError,
>
    decreases movements.len(),
{
    if movements.len() == 0 {
        Ok(balance)
    } else {
        match settle(balance, movements.drop_last()) {
            Ok(b) => step_balance(b, movements.last()),
            Err(e) => Err(e),
        }
    }
}

/// What a movement adds to the balance, as a signed amount.
pub open spec fn signed_amount(m: BalanceMovement) -> int {
    match m.kind {
        MovementKind::Credit => m.amount as int,
        MovementKind::Debit => -(m.amount as int),
    }
}

/// The signed sum of `movements`.
pub open spec fn signed_sum(movements: Seq<BalanceMovement>) -> int
    decreases movements.len(),
{
    if movements.len() == 0 {
        0
    } else {
        signed_sum(movements.drop_last()) + signed_amount(movements.last())
    }
}

/// `utxos` without the outputs that `spent` refers to.
pub open spec fn spend_all(utxos: Map<OutputRef, OutputData>, spent: Seq<OutputRef>) -> Map<
    OutputRef,
    OutputData,
>
    decreases spent.len(),
{
    if spent.len() == 0 {
        utxos
    } else {
        spend_all(utxos, spent.drop_last()).remove(spent.last())
    }
}

/// `utxos` with the outputs `created` added, in order.
pub open spec fn create_all(utxos: Map<OutputRef, OutputData>, created: Seq<Utxo>) -> Map<
    OutputRef,
    OutputData,
>
    decreases created.len(),
{
    if created.len() == 0 {
        utxos
    } else {
        create_all(utxos, created.drop_last()).insert(created.last().out_ref, created.last().data)
    }
}

/// `utxos` after the movements: each spends its inputs, then creates its outputs.
pub open spec fn movements_utxos(
    utxos: Map<OutputRef, OutputData>,
    movements: Seq<BalanceMovement>,
) -> Map<OutputRef, OutputData>
    decreases movements.len(),
{
    if movements.len() == 0 {
        utxos
    } else {
        create_all(
            spend_all(movements_utxos(utxos, movements.drop_last()), movements.last().spent@),
            movements.last().created@,
        )
    }
}

/// `book` after the updates `infos`: each replaces the record of its address.
pub open spec fn merge_address_infos(
    book: Map<AddressKey, AddressUsage>,
    infos: Seq<AddressInfo>,
) -> Map<AddressKey, AddressUsage>
    decreases infos.len(),
{
    if infos.len() == 0 {
        book
    } else {
        merge_address_infos(book, infos.drop_last()).insert(infos.last().address, infos.last().usage)
    }
}

/// The ledger after `block` is merged into it: its movements settled, its
/// outputs spent and created, its address updates merged, and the block's
/// position confirmed.
pub open spec fn commit_block_spec(ledger: LedgerView, block: PendingBlock) -> Result<
    LedgerView,
    ReconcileError,
> {
    match settle(ledger.balance, block.movements@) {
        Ok(balance) => Ok(
            LedgerView {
                balance,
                utxos: movements_utxos(ledger.utxos, block.movements@),
                addresses: merge_address_infos(ledger.addresses, block.address_infos@),
                last_confirmed: block.beacon,
            },
        ),
        Err(e) => Err(e),
    }
}

/// The ledger after `blocks` are merged into it one by one, in order.
pub open spec fn commit_blocks_spec(ledger: LedgerView, blocks: Seq<PendingBlock>) -> Result<
    LedgerView,
    ReconcileError,
>
    decreases blocks.len(),
{
    if blocks.len() == 0 {
        Ok(ledger)
    } else {
        match commit_blocks_spec(ledger, blocks.drop_last()) {
            Ok(merged) => commit_block_spec(merged, blocks.last()),
            Err(e) => Err(e),
        }
    }
}

/// The balance after the movements of `blocks`, settled block by block.
pub open spec fn settle_blocks(balance: u64, blocks: Seq<PendingBlock>) -> Result<
    u64,
    ReconcileError,
>
    decreases blocks.len(),
{
    if blocks.len() == 0 {
        Ok(balance)
    } else {
        match settle_blocks(balance, blocks.drop_last()) {
            Ok(b) => settle(b, blocks.last().movements@),
            Err(e) => Err(e),
        }
    }
}

/// The unspent outputs after the movements of `blocks`.
pub open spec fn utxos_after(utxos: Map<OutputRef, OutputData>, blocks: Seq<PendingBlock>) -> Map<
    OutputRef,
    OutputData,
>
    decreases blocks.len(),
{
    if blocks.len() == 0 {
        utxos
    } else {
        movements_utxos(utxos_after(utxos, blocks.drop_last()), blocks.last().movements@)
    }
}

/// The usage records after the address updates of `blocks`.
pub open spec fn addresses_after(
    book: Map<AddressKey, AddressUsage>,
    blocks: Seq<PendingBlock>,
) -> Map<AddressKey, AddressUsage>
    decreases blocks.len(),
{
    if blocks.len() == 0 {
        book
    } else {
        merge_address_infos(addresses_after(book, blocks.drop_last()), blocks.last().address_infos@)
    }
}

/// Once settling a prefix of the movements has failed, settling all of them
/// fails in the same way.
pub proof fn lemma_settle_error_sticks(balance: u64, movements: Seq<BalanceMovement>, n: int)
    requires
        0 <= n <= movements.len(),
        settle(balance, movements.take(n)) is Err,
    ensures
        settle(balance, movements) == settle(balance, movements.take(n)),
    decreases movements.len() - n,
{
    if n < movements.len() {
        assert(movements.take(n + 1).drop_last() == movements.take(n));
        lemma_settle_error_sticks(balance, movements, n + 1);
    } else {
        assert(movements.take(n) == movements);
    }
}

/// Settling fails only because the balance would leave its range.
pub proof fn lemma_settle_errors(balance: u64, movements: Seq<BalanceMovement>)
    ensures
        settle(balance, movements) matches Err(e) ==> e == ReconcileError::BalanceOverflow || e
            == ReconcileError::BalanceUnderflow,
    decreases movements.len(),
{
    if movements.len() > 0 {
        lemma_settle_errors(balance, movements.drop_last());
    }
}

/// A settled balance is the old balance plus the signed sum of the movements.
pub proof fn lemma_settle_is_signed_sum(balance: u64, movements: Seq<BalanceMovement>)
    requires
        settle(balance, movements) is Ok,
    ensures
        settle(balance, movements)->Ok_0 == balance + signed_sum(movements),
    decreases movements.len(),
{
    if movements.len() > 0 {
        lemma_settle_is_signed_sum(balance, movements.drop_last());
    }
}

/// The signed sum of all the movements of `blocks`.
pub open spec fn signed_sum_blocks(blocks: Seq<PendingBlock>) -> int
    decreases blocks.len(),
{
    if blocks.len() == 0 {
        0
    } else {
        signed_sum_blocks(blocks.drop_last()) + signed_sum(blocks.last().movements@)
    }
}

/// A balance settled over blocks is the old balance plus the signed sum of
/// all their movements.
pub proof fn lemma_settle_blocks_is_signed_sum(balance: u64, blocks: Seq<PendingBlock>)
    requires
        settle_blocks(balance, blocks) is Ok,
    ensures
        settle_blocks(balance, blocks)->Ok_0 == balance + signed_sum_blocks(blocks),
    decreases blocks.len(),
{
    if blocks.len() > 0 {
        lemma_settle_blocks_is_signed_sum(balance, blocks.drop_last());
        lemma_settle_is_signed_sum(
            settle_blocks(balance, blocks.drop_last())->Ok_0,
            blocks.last().movements@,
        );
    }
}

/// Merging blocks one by one comes to settling their movements, applying
/// their outputs and merging their address updates, each over all the
/// blocks; the position confirmed is that of the last block.
pub proof fn lemma_commit_components(ledger: LedgerView, blocks: Seq<PendingBlock>)
    ensures
        commit_blocks_spec(ledger, blocks) == (match settle_blocks(ledger.balance, blocks) {
            Ok(balance) => Ok(
                LedgerView {
                    balance,
                    utxos: utxos_after(ledger.utxos, blocks),
                    addresses: addresses_after(ledger.addresses, blocks),
                    last_confirmed: if blocks.len() == 0 {
                        ledger.last_confirmed
                    } else {
                        blocks.last().beacon
                    },
                },
            ),
            Err(e) => Err(e),
        }),
    decreases blocks.len(),
{
    if blocks.len() > 0 {
        lemma_commit_components(ledger, blocks.drop_last());
    }
}

/// Settles `movements` on `balance`, in order.
pub fn settle_movements(balance: u64, movements: &Vec<BalanceMovement>) -> (res: Result<
    u64,
    ReconcileError,
>)
    ensures
        res == settle(balance, movements@),
{
    let mut settled = balance;
    let mut i: usize = 0;
    while i < movements.len()
        invariant
            i <= movements.len(),
            settle(balance, movements@.take(i as int)) == Ok::<u64, ReconcileError>(settled),
        decreases movements.len() - i,
    {
        proof {
            assert(movements@.take(i + 1).drop_last() == movements@.take(i as int));
        }
        let amount = movements[i].amount;
        match movements[i].kind {
            MovementKind::Credit => {
                if amount > u64::MAX - settled {
                    proof {
                        lemma_settle_error_sticks(balance, movements@, i + 1);
                    }
                    return Err(ReconcileError::BalanceOverflow);
                }
                settled = settled + amount;
            },
            MovementKind::Debit => {
                if amount > settled {
                    proof {
                        lemma_settle_error_sticks(balance, movements@, i + 1);
                    }
                    return Err(ReconcileError::BalanceUnderflow);
                }
                settled = settled - amount;
            },
        }
        i = i + 1;
    }
    assert(movements@.take(i as int) == movements@);
    Ok(settled)
}

/// Removes the outputs that `spent` refers to.
pub fn spend_outputs(utxos: &mut UtxoSet, spent: &Vec<OutputRef>)
    ensures
        final(utxos)@ == spend_all(old(utxos)@, spent@),
{
    let ghost start = utxos@;
    let mut i: usize = 0;
    while i < spent.len()
        invariant
            i <= spent.len(),
            utxos@ == spend_all(start, spent@.take(i as int)),
        decreases spent.len() - i,
    {
        proof {
            assert(spent@.take(i + 1).drop_last() == spent@.take(i as int));
        }
        utxos.remove(&spent[i]);
        i = i + 1;
    }
    assert(spent@.take(i as int) == spent@);
}

/// Adds the outputs `created`, in order.
pub fn create_outputs(utxos: &mut UtxoSet, created: &Vec<Utxo>)
    ensures
        final(utxos)@ == create_all(old(utxos)@, created@),
{
    let ghost start = utxos@;
    let mut i: usize = 0;
    while i < created.len()
        invariant
            i <= created.len(),
            utxos@ == create_all(start, created@.take(i as int)),
        decreases created.len() - i,
    {
        proof {
            assert(created@.take(i + 1).drop_last() == created@.take(i as int));
        }
        utxos.insert(created[i].out_ref, created[i].data);
        i = i + 1;
    }
    assert(created@.take(i as int) == created@);
}

/// Applies what `movements` spend and create, movement by movement.
pub fn apply_movements(utxos: &mut UtxoSet, movements: &Vec<BalanceMovement>)
    ensures
        final(utxos)@ == movements_utxos(old(utxos)@, movements@),
{
    let ghost start = utxos@;
    let mut i: usize = 0;
    while i < movements.len()
        invariant
            i <= movements.len(),
            utxos@ == movements_utxos(start, movements@.take(i as int)),
        decreases movements.len() - i,
    {
        proof {
            assert(movements@.take(i + 1).drop_last() == movements@.take(i as int));
        }
        spend_outputs(utxos, &movements[i].spent);
        create_outputs(utxos, &movements[i].created);
        i = i + 1;
    }
    assert(movements@.take(i as int) == movements@);
}

/// Merges the address updates `infos`, in order.
pub fn merge_addresses(book: &mut AddressBook, infos: &Vec<AddressInfo>)
    ensures
        final(book)@ == merge_address_infos(old(book)@, infos@),
{
    let ghost start = book@;
    let mut i: usize = 0;
    while i < infos.len()
        invariant
            i <= infos.len(),
            book@ == merge_address_infos(start, infos@.take(i as int)),
        decreases infos.len() - i,
    {
        proof {
            assert(infos@.take(i + 1).drop_last() == infos@.take(i as int));
        }
        book.insert(infos[i].address, infos[i].usage);
        i = i + 1;
    }
    assert(infos@.take(i as int) == infos@);
}

} // verus!
