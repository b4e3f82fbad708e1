//! What holds of the transactions that make this validator the receiver of tips.

use vstd::prelude::*;

use crate::accounts::{
    tip_accounts, SYSTEM_PROGRAM, TIP_DISTRIBUTION_CONFIG, TIP_DISTRIBUTION_PROGRAM,
    TIP_PAYMENT_CONFIG, TIP_PAYMENT_PROGRAM,
};
use crate::arrival_laws::fresh_transaction;
use crate::auction_model::AuctionWorld;
use crate::batch_model::BatchWorld;
use crate::bridge::{ActionModel, BridgeModel, ProgressMessage};
use crate::jito::TipConfig;
use crate::le::{byte_range, le_bytes, le_value, lemma_le_round_trip};
use crate::pubkey::Pubkey;
use crate::scheduler_model::{CoreModel, World};
use crate::tip_program::{
    change_builder_call, change_receiver_call, derived_address, distribution_account_of,
    distribution_seeds, init_call, signed_packet, AccountMeta, ProgramCall,
};
use crate::transaction::sanitized_transaction;

verus! {

/// Whether a call names an account at a position, and how.
pub open spec fn names(
    call: ProgramCall,
    i: int,
    pubkey: Pubkey,
    is_signer: bool,
    is_writable: bool,
) -> bool {
    &&& 0 <= i < call.accounts.len()
    &&& call.accounts[i] == (AccountMeta { pubkey, is_signer, is_writable })
}

/// Whether a call sets up a distribution account: for the vote account, with the
/// merkle authority and the commission that are configured.
pub open spec fn sets_up(call: ProgramCall, s: CoreModel, account: Pubkey, bump: u8) -> bool {
    let args = s.tip_distribution_config;
    &&& call.program_id == (Pubkey { bytes: TIP_DISTRIBUTION_PROGRAM })
    &&& call.accounts.len() == 5
    &&& names(call, 0, Pubkey { bytes: TIP_DISTRIBUTION_CONFIG }, false, false)
    &&& names(call, 1, account, false, true)
    &&& names(call, 2, args.vote_account, false, false)
    &&& names(call, 3, s.identity.pubkey, true, true)
    &&& names(call, 4, Pubkey { bytes: SYSTEM_PROGRAM }, false, false)
    &&& call.data == seq![120u8, 191, 25, 182, 111, 49, 179, 55] + args.merkle_authority.bytes@
        + seq![(args.commission_bps % 256) as u8, (args.commission_bps / 256) as u8] + seq![bump]
}

/// Whether a call is one to the tip payment program that names these three
/// accounts, then all tip accounts, and is paid for by this validator.
pub open spec fn pays_out(call: ProgramCall, s: CoreModel, a: Pubkey, b: Pubkey, c: Pubkey) -> bool {
    &&& call.program_id == (Pubkey { bytes: TIP_PAYMENT_PROGRAM })
    &&& call.accounts.len() == 13
    &&& names(call, 0, Pubkey { bytes: TIP_PAYMENT_CONFIG }, false, true)
    &&& names(call, 1, a, false, true)
    &&& names(call, 2, b, false, true)
    &&& names(call, 3, c, false, true)
    &&& forall|i: int| 0 <= i < 8 ==> #[trigger] names(call, 4 + i, tip_accounts()[i], false, true)
    &&& names(call, 12, s.identity.pubkey, true, true)
}

proof fn lemma_sets_up(call: ProgramCall, s: CoreModel, account: Pubkey, bump: u8)
    requires
        sets_up(call, s, account, bump),
    ensures
        call == init_call(s.identity.pubkey, s.tip_distribution_config, account, bump),
{
    let expected = init_call(s.identity.pubkey, s.tip_distribution_config, account, bump);
    reveal_with_fuel(le_bytes, 3);
    assert(call.accounts =~= expected.accounts);
    assert(call.data =~= expected.data);
}

proof fn lemma_pays_out(call: ProgramCall, other: ProgramCall, s: CoreModel, a: Pubkey, b: Pubkey, c: Pubkey)
    requires
        pays_out(call, s, a, b, c),
        pays_out(other, s, a, b, c),
    ensures
        call.accounts == other.accounts,
{
    assert forall|i: int| 0 <= i < 13 implies call.accounts[i] == other.accounts[i] by {
        if 4 <= i < 12 {
            assert(names(call, 4 + (i - 4), tip_accounts()[i - 4], false, true));
            assert(names(other, 4 + (i - 4), tip_accounts()[i - 4], false, true));
        }
    }
    assert(call.accounts =~= other.accounts);
}

/// This validator becomes the receiver of tips by two transactions of its own,
/// bound to the latest blockhash. The first sets up the distribution account of
/// its vote account for the epoch of the slot. The second hands the tips over
/// from the present receiver to that account and settles with the present block
/// builder; then it hands the building over from that builder to the new one,
/// with the new one's commission. There are none as long as it is not known who
/// receives tips at present.
#[verifier::rlimit(50)]
pub proof fn lemma_tip_packets(
    s: CoreModel,
    present: TipConfig,
    account: Pubkey,
    bump: u8,
    setup: ProgramCall,
    receiver: ProgramCall,
    builder: ProgramCall,
)
    requires
        distribution_account_of(s.tip_distribution_config.vote_account, s.slot / 432_000) == Some(
            (account, bump),
        ),
        sets_up(setup, s, account, bump),
        pays_out(receiver, s, present.tip_receiver, account, present.block_builder),
        receiver.data == seq![69u8, 99, 22, 71, 11, 231, 86, 143],
        pays_out(builder, s, account, present.block_builder, s.builder_config.key),
        builder.data == seq![134u8, 80, 38, 137, 165, 21, 114, 123] + le_bytes(
            s.builder_config.commission as nat,
            8,
        ),
    ensures
        s.tip_config is None ==> s.tip_packets() is None,
        s.tip_config == Some(present) ==> ({
            let first = signed_packet(s.identity.keypair@, seq![setup], s.recent_blockhash@);
            let second = signed_packet(
                s.identity.keypair@,
                seq![receiver, builder],
                s.recent_blockhash@,
            );
            match s.tip_packets() {
                Some((init, change)) => first == Some(init) && second == Some(change),
                None => first is None || second is None,
            }
        }),
{
    let args = crate::tip_program::ChangeTipReceiverArgs {
        old_tip_receiver: present.tip_receiver,
        new_tip_receiver: account,
        old_block_builder: present.block_builder,
        new_block_builder: s.builder_config.key,
        block_builder_commission: s.builder_config.commission,
    };
    lemma_sets_up(setup, s, account, bump);
    let r = change_receiver_call(s.identity.pubkey, args);
    let b = change_builder_call(s.identity.pubkey, args);
    assert(pays_out(r, s, present.tip_receiver, account, present.block_builder));
    assert(pays_out(b, s, account, present.block_builder, s.builder_config.key));
    lemma_pays_out(receiver, r, s, present.tip_receiver, account, present.block_builder);
    lemma_pays_out(builder, b, s, account, present.block_builder, s.builder_config.key);
    assert(receiver.data =~= r.data);
    assert(builder.data =~= b.data);
    assert(receiver == r);
    assert(builder == b);
}

/// The distribution account is derived from its name, the vote account and the
/// number of the epoch; no two pairs of a vote account and an epoch share their
/// seeds.
pub proof fn lemma_distribution_seeds(vote: Pubkey, epoch: u64, other: Pubkey, later: u64)
    ensures
        ({
            let seeds = distribution_seeds(vote, epoch);
            &&& seeds.len() == 3
            &&& seeds[0] == seq![
                84u8, 73, 80, 95, 68, 73, 83, 84, 82, 73, 66, 85,
                84, 73, 79, 78, 95, 65, 67, 67, 79, 85, 78, 84,
            ]
            &&& seeds[1] == vote.bytes@
            &&& le_value(seeds[2]) == epoch
            &&& distribution_account_of(vote, epoch) is Some <==> derived_address(
                seeds,
                TIP_DISTRIBUTION_PROGRAM@,
            ) is Some
            &&& distribution_account_of(vote, epoch) matches Some((account, bump))
                ==> derived_address(seeds, TIP_DISTRIBUTION_PROGRAM@) == Some((account.bytes, bump))
        }),
        distribution_seeds(vote, epoch) == distribution_seeds(other, later) ==> vote.bytes@
            == other.bytes@ && epoch == later,
{
    assert(byte_range(8) == 0x1_0000_0000_0000_0000) by {
        reveal_with_fuel(byte_range, 9);
    }
    lemma_le_round_trip(epoch as nat, 8);
    lemma_le_round_trip(later as nat, 8);
    let seeds = distribution_seeds(vote, epoch);
    let others = distribution_seeds(other, later);
    assert(seeds[0] =~= seq![
        84u8, 73, 80, 95, 68, 73, 83, 84, 82, 73, 66, 85,
        84, 73, 79, 78, 95, 65, 67, 67, 79, 85, 78, 84,
    ]);
    if seeds == others {
        assert(seeds[1] == others[1]);
        assert(seeds[2] == others[2]);
    }
}

/// Whether an action starts one transaction of the tip programs: on the first
/// worker that executes, within four slots, its failure dropped, at no cost.
pub open spec fn starts_tip(action: ActionModel, key: u64, slot: u64) -> bool {
    action matches ActionModel::Schedule { batch } && {
        &&& batch.worker == 1
        &&& batch.flags == 3
        &&& batch.max_working_slot == slot + 4
        &&& batch.transactions.len() == 1
        &&& batch.transactions[0].key == key
        &&& batch.transactions[0].meta.key == key
        &&& batch.transactions[0].meta.cost == 0
        &&& batch.transactions[0].meta.priority == u64::MAX
    }
}

/// Whether the two transactions were started, in their order.
pub open spec fn tips_started(before: World, after: World, init: u64, change: u64) -> bool {
    let n = before.b.actions.len() as int;
    &&& after.b.actions.len() == n + 2
    &&& after.b.actions.take(n) == before.b.actions
    &&& starts_tip(after.b.actions[n], init, before.s.slot)
    &&& starts_tip(after.b.actions[n + 1], change, before.s.slot)
    &&& after.s.executing.contains_key(init)
    &&& after.s.executing.contains_key(change)
    &&& after.s.in_flight_cus == before.s.in_flight_cus
    &&& after.b.transactions == before.b.transactions
}

/// Whether the two transactions were let go of, and nothing else changed.
pub open spec fn tips_dropped(before: World, after: World, init: u64, change: u64) -> bool {
    &&& after.s == before.s
    &&& after.b.transactions == before.b.transactions.remove(init).remove(change)
}

/// The batch scheduler starts both transactions of the tip programs, or lets go
/// of both: they start exactly if the locks of each can be granted.
pub proof fn lemma_batch_tips_together(b: BatchWorld, init: u64, change: u64)
    requires
        b.w.b.transactions.contains_key(init),
        b.w.b.transactions.contains_key(change),
        init != change,
        b.w.s.slot <= u64::MAX - 4,
    ensures
        b.can_lock(init) && b.can_lock(change) ==> tips_started(
            b.w,
            b.start_tips(init, change).w,
            init,
            change,
        ),
        !(b.can_lock(init) && b.can_lock(change)) ==> tips_dropped(
            b.w,
            b.start_tips(init, change).w,
            init,
            change,
        ) && b.start_tips(init, change).locks == b.locks,
{
    let after = b.start_tips(init, change);
    if b.can_lock(init) && b.can_lock(change) {
        assert(after.w.b.actions.take(b.w.b.actions.len() as int) =~= b.w.b.actions);
    }
}

/// The auction scheduler starts both transactions of the tip programs, or lets
/// go of both: they start exactly if the locks of the first can be granted.
pub proof fn lemma_auction_tips_together(a: AuctionWorld, init: u64, change: u64)
    requires
        a.w.b.transactions.contains_key(init),
        a.w.b.transactions.contains_key(change),
        init != change,
        a.w.s.slot <= u64::MAX - 4,
    ensures
        a.can_lock(init) ==> tips_started(a.w, a.start_tips(init, change).w, init, change),
        !a.can_lock(init) ==> tips_dropped(a.w, a.start_tips(init, change).w, init, change)
            && a.start_tips(init, change).held == a.held,
{
    let after = a.start_tips(init, change);
    if a.can_lock(init) {
        assert(after.w.b.actions.take(a.w.b.actions.len() as int) =~= a.w.b.actions);
    }
}

/// Whether tip transactions are due: the validator leads, and was not seen to
/// lead since the scheduler last moved on to a slot.
pub open spec fn tips_due(w: World, progress: ProgressMessage) -> bool {
    progress.leader_state == 2 && !w.s.stats.was_leader_ready
}

/// A validator becomes the receiver of tips when it leads and was not seen to
/// lead since the scheduler last moved on to a slot; and at no other time.
pub proof fn lemma_tips_when_leadership_begins(
    b: BatchWorld,
    a: AuctionWorld,
    progress: ProgressMessage,
    now: u64,
)
    ensures
        ({
            let noted = World {
                s: CoreModel { last_progress_time: now, ..b.w.s },
                b: BridgeModel { progress, ..b.w.b },
            };
            let after = b.check_slot_roll(Some(progress), now);
            &&& !tips_due(b.w, progress) ==> after == (BatchWorld { w: noted.roll_slot(), ..b })
            &&& tips_due(b.w, progress) ==> after == (BatchWorld {
                w: noted.roll_slot().report_leader(),
                ..b
            }).become_tip_receiver()
        }),
        ({
            let noted = World {
                s: CoreModel { last_progress_time: now, ..a.w.s },
                b: BridgeModel { progress, ..a.w.b },
            };
            let after = a.check_slot_roll(Some(progress), now);
            &&& !tips_due(a.w, progress) ==> after == (AuctionWorld { w: noted.roll_slot(), ..a })
            &&& tips_due(a.w, progress) ==> after == (AuctionWorld {
                w: noted.roll_slot().report_leader(),
                ..a
            }).become_tip_receiver()
        }),
{
}

/// The two transactions of the tip programs are put into shared memory under the
/// next two keys, in their order, and then started; if the second is malformed,
/// the first is let go of again. The batch scheduler.
#[verifier::rlimit(50)]
pub proof fn lemma_batch_tips_submitted(b: BatchWorld, init: Seq<u8>, change: Seq<u8>)
    requires
        b.w.s.tip_packets() == Some((init, change)),
        b.w.b.next_key <= u64::MAX - 2,
        !b.w.b.transactions.contains_key(b.w.b.next_key),
    ensures
        ({
            let key = b.w.b.next_key;
            let next = (key + 1) as u64;
            let first = BridgeModel {
                transactions: b.w.b.transactions.insert(key, fresh_transaction(init, false)),
                next_key: next,
                actions: b.w.b.actions.push(ActionModel::Insert { key, packet: init }),
                ..b.w.b
            };
            let second = BridgeModel {
                transactions: first.transactions.insert(next, fresh_transaction(change, false)),
                next_key: (key + 2) as u64,
                actions: first.actions.push(ActionModel::Insert { key: next, packet: change }),
                ..first
            };
            let after = b.become_tip_receiver();
            let good = sanitized_transaction(init) is Some;
            &&& !good ==> after == b
            &&& good && sanitized_transaction(change) is Some ==> after == (BatchWorld {
                w: World { b: second, ..b.w },
                ..b
            }).start_tips(key, next)
            &&& good && sanitized_transaction(change) is None ==> after.w.s == b.w.s
                && after.w.b.transactions == b.w.b.transactions && after.locks == b.locks
        }),
{
    let key = b.w.b.next_key;
    if let (first, Some(k)) = b.w.b.inserted(init) {
        assert(first.transactions.remove(key) =~= b.w.b.transactions);
    }
}

/// The two transactions of the tip programs are put into shared memory under the
/// next two keys, in their order, and then started; if the second is malformed,
/// the first is let go of again. The auction scheduler.
#[verifier::rlimit(50)]
pub proof fn lemma_auction_tips_submitted(a: AuctionWorld, init: Seq<u8>, change: Seq<u8>)
    requires
        a.w.s.tip_packets() == Some((init, change)),
        a.w.b.next_key <= u64::MAX - 2,
        !a.w.b.transactions.contains_key(a.w.b.next_key),
    ensures
        ({
            let key = a.w.b.next_key;
            let next = (key + 1) as u64;
            let first = BridgeModel {
                transactions: a.w.b.transactions.insert(key, fresh_transaction(init, false)),
                next_key: next,
                actions: a.w.b.actions.push(ActionModel::Insert { key, packet: init }),
                ..a.w.b
            };
            let second = BridgeModel {
                transactions: first.transactions.insert(next, fresh_transaction(change, false)),
                next_key: (key + 2) as u64,
                actions: first.actions.push(ActionModel::Insert { key: next, packet: change }),
                ..first
            };
            let after = a.become_tip_receiver();
            let good = sanitized_transaction(init) is Some;
            &&& !good ==> after == a
            &&& good && sanitized_transaction(change) is Some ==> after == (AuctionWorld {
                w: World { b: second, ..a.w },
                ..a
            }).start_tips(key, next)
            &&& good && sanitized_transaction(change) is None ==> after.w.s == a.w.s
                && after.w.b.transactions == a.w.b.transactions && after.held == a.held
        }),
{
    let key = a.w.b.next_key;
    if let (first, Some(k)) = a.w.b.inserted(init) {
        assert(first.transactions.remove(key) =~= a.w.b.transactions);
    }
}

/// As long as the transactions of the tip programs cannot be made, nothing
/// happens.
pub proof fn lemma_no_tips_without_packets(b: BatchWorld, a: AuctionWorld)
    ensures
        b.w.s.tip_packets() is None ==> b.become_tip_receiver() == b,
        a.w.s.tip_packets() is None ==> a.become_tip_receiver() == a,
{
}

} // verus!
