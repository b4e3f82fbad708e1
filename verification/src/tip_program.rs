//! Transactions that make this validator the receiver of tips.

use vstd::prelude::*;
use solana_hash::Hash as Blockhash;
use solana_keypair::{Keypair, Signer};
use solana_message::{AccountMeta as MessageAccount, Instruction as MessageCall};
use solana_pubkey::Pubkey as Address;
use solana_transaction::versioned::VersionedTransaction;
use solana_transaction::Transaction;

use crate::accounts::{
    list_tip_accounts, tip_accounts, SYSTEM_PROGRAM, TIP_DISTRIBUTION_CONFIG,
    TIP_DISTRIBUTION_PROGRAM, TIP_PAYMENT_CONFIG, TIP_PAYMENT_PROGRAM,
};
use crate::le::{
    byte_range, le_bytes, le_value, lemma_le_bytes_len, lemma_le_round_trip, write_le,
};
use crate::pubkey::Pubkey;

verus! {

/// An account that an instruction names.
#[derive(Clone, Copy, Debug, PartialEq, Eq)]
pub struct AccountMeta {
    pub pubkey: Pubkey,
    pub is_signer: bool,
    pub is_writable: bool,
}

/// An instruction to a program.
#[derive(Debug)]
pub struct Instruction {
    pub program_id: Pubkey,
    pub accounts: Vec<AccountMeta>,
    pub data: Vec<u8>,
}

/// What an instruction holds.
#[verifier::ext_equal]
pub struct ProgramCall {
    pub program_id: Pubkey,
    pub accounts: Seq<AccountMeta>,
    pub data: Seq<u8>,
}

impl View for Instruction {
    type V = ProgramCall;

    open spec fn view(&self) -> ProgramCall {
        ProgramCall { program_id: self.program_id, accounts: self.accounts@, data: self.data@ }
    }
}

/// What some instructions hold.
pub open spec fn calls(instructions: Seq<Instruction>) -> Seq<ProgramCall> {
    instructions.map_values(|ix: Instruction| ix@)
}

/// The identity that signs for this validator: its address and its key pair,
/// the secret half first.
#[derive(Clone, Copy, Debug)]
pub struct Identity {
    pub pubkey: Pubkey,
    pub keypair: [u8; 64],
}

/// How tips are distributed.
#[derive(Clone, Copy, Debug)]
pub struct TipDistributionArgs {
    pub vote_account: Pubkey,
    pub merkle_authority: Pubkey,
    pub commission_bps: u16,
}

/// Who receives tips now, and who is to receive them.
#[derive(Clone, Copy, Debug)]
pub struct ChangeTipReceiverArgs {
    pub old_tip_receiver: Pubkey,
    pub new_tip_receiver: Pubkey,
    pub old_block_builder: Pubkey,
    pub new_block_builder: Pubkey,
    pub block_builder_commission: u64,
}

/// The address that a program derives from seeds, with its bump seed.
pub uninterp spec fn derived_address(seeds: Seq<Seq<u8>>, program_id: Seq<u8>) -> Option<
    ([u8; 32], u8),
>;

/// The packet of the transaction that performs some calls, signed and paid for
/// by the owner of a key pair.
pub uninterp spec fn signed_packet(
    keypair: Seq<u8>,
    instructions: Seq<ProgramCall>,
    blockhash: Seq<u8>,
) -> Option<Seq<u8>>;

/// `Pubkey::try_find_program_address`: address and bump seed are a function of
/// the seeds and the program.
#[verifier::external_body]
pub(crate) fn find_program_address(seeds: &Vec<Vec<u8>>, program_id: &[u8; 32]) -> (r: Option<
    ([u8; 32], u8),
>)
    ensures
        r == derived_address(seeds@.map_values(|s: Vec<u8>| s@), program_id@),
{
    let seeds: Vec<&[u8]> = seeds.iter().map(|s| s.as_slice()).collect();
    let program_id = Address::new_from_array(*program_id);
    let (address, bump) = Address::try_find_program_address(&seeds, &program_id)?;
    Some((address.to_bytes(), bump))
}

/// `Transaction::new_with_payer` and `Transaction::try_sign` with the one key
/// pair, then `bincode::serialize` of the versioned transaction: the packet is a
/// function of the key pair, the instructions and the blockhash. The lengths are
/// kept to what a message can count, beyond which signing panics. Nothing comes
/// of bytes that are no key pair, or of an instruction that needs another
/// signer.
#[verifier::external_body]
pub(crate) fn sign_instructions(
    keypair: &[u8; 64],
    instructions: &Vec<Instruction>,
    blockhash: &[u8; 32],
) -> (r: Option<Vec<u8>>)
    requires
        instructions@.len() <= 2,
        forall|i: int| 0 <= i < instructions@.len() ==> (#[trigger] instructions@[i]).accounts@.len()
            <= 16 && instructions@[i].data@.len() <= 0xffff,
    ensures
        match r {
            Some(packet) => signed_packet(keypair@, calls(instructions@), blockhash@) == Some(
                packet@,
            ),
            None => signed_packet(keypair@, calls(instructions@), blockhash@) is None,
        },
{
    let keypair = Keypair::try_from(&keypair[..]).ok()?;
    let account = |a: &AccountMeta| MessageAccount { pubkey: Address::new_from_array(a.pubkey.bytes), is_signer: a.is_signer, is_writable: a.is_writable };
    let call = |ix: &Instruction| MessageCall { program_id: Address::new_from_array(ix.program_id.bytes), accounts: ix.accounts.iter().map(account).collect(), data: ix.data.clone() };
    let calls: Vec<MessageCall> = instructions.iter().map(call).collect();
    let mut tx = Transaction::new_with_payer(&calls, Some(&keypair.pubkey()));
    tx.try_sign(&[&keypair], Blockhash::new_from_array(*blockhash)).ok()?;
    bincode::serialize(&VersionedTransaction::from(tx)).ok()
}

/// The first seed of a tip distribution account.
pub const DISTRIBUTION_SEED: [u8; 24] = [
    84, 73, 80, 95, 68, 73, 83, 84, 82, 73, 66, 85,
    84, 73, 79, 78, 95, 65, 67, 67, 79, 85, 78, 84,
];

/// Selects the call that sets up a tip distribution account.
pub const INIT_DISTRIBUTION: [u8; 8] = [120, 191, 25, 182, 111, 49, 179, 55];

/// Selects the call that changes the tip receiver.
pub const CHANGE_TIP_RECEIVER: [u8; 8] = [69, 99, 22, 71, 11, 231, 86, 143];

/// Selects the call that changes the block builder.
pub const CHANGE_BLOCK_BUILDER: [u8; 8] = [134, 80, 38, 137, 165, 21, 114, 123];

/// The seeds of the tip distribution account of a vote account in an epoch.
pub open spec fn distribution_seeds(vote_account: Pubkey, epoch: u64) -> Seq<Seq<u8>> {
    seq![DISTRIBUTION_SEED@, vote_account.bytes@, le_bytes(epoch as nat, 8)]
}

/// An account that is only read.
pub open spec fn readonly_account(pubkey: Pubkey) -> AccountMeta {
    AccountMeta { pubkey, is_signer: false, is_writable: false }
}

/// An account that is written.
pub open spec fn writable_account(pubkey: Pubkey) -> AccountMeta {
    AccountMeta { pubkey, is_signer: false, is_writable: true }
}

/// The account that pays and signs.
pub open spec fn payer_account(pubkey: Pubkey) -> AccountMeta {
    AccountMeta { pubkey, is_signer: true, is_writable: true }
}

/// The call that sets up a tip distribution account.
pub open spec fn init_call(
    payer: Pubkey,
    args: TipDistributionArgs,
    distribution: Pubkey,
    bump: u8,
) -> ProgramCall {
    ProgramCall {
        program_id: Pubkey { bytes: TIP_DISTRIBUTION_PROGRAM },
        accounts: seq![
            readonly_account(Pubkey { bytes: TIP_DISTRIBUTION_CONFIG }),
            writable_account(distribution),
            readonly_account(args.vote_account),
            payer_account(payer),
            readonly_account(Pubkey { bytes: SYSTEM_PROGRAM }),
        ],
        data: INIT_DISTRIBUTION@ + args.merkle_authority.bytes@ + le_bytes(
            args.commission_bps as nat,
            2,
        ) + seq![bump],
    }
}

/// The accounts that tips are paid to, to be written.
pub open spec fn writable_tip_accounts() -> Seq<AccountMeta> {
    tip_accounts().map_values(|key: Pubkey| writable_account(key))
}

/// The call that changes the tip receiver.
pub open spec fn change_receiver_call(payer: Pubkey, args: ChangeTipReceiverArgs) -> ProgramCall {
    ProgramCall {
        program_id: Pubkey { bytes: TIP_PAYMENT_PROGRAM },
        accounts: seq![
            writable_account(Pubkey { bytes: TIP_PAYMENT_CONFIG }),
            writable_account(args.old_tip_receiver),
            writable_account(args.new_tip_receiver),
            writable_account(args.old_block_builder),
        ] + writable_tip_accounts() + seq![payer_account(payer)],
        data: CHANGE_TIP_RECEIVER@,
    }
}

/// The call that changes the block builder, once the receiver is changed.
pub open spec fn change_builder_call(payer: Pubkey, args: ChangeTipReceiverArgs) -> ProgramCall {
    ProgramCall {
        program_id: Pubkey { bytes: TIP_PAYMENT_PROGRAM },
        accounts: seq![
            writable_account(Pubkey { bytes: TIP_PAYMENT_CONFIG }),
            writable_account(args.new_tip_receiver),
            writable_account(args.old_block_builder),
            writable_account(args.new_block_builder),
        ] + writable_tip_accounts() + seq![payer_account(payer)],
        data: CHANGE_BLOCK_BUILDER@ + le_bytes(args.block_builder_commission as nat, 8),
    }
}

fn push_bytes(out: &mut Vec<u8>, bytes: &[u8])
    ensures
        final(out)@ == old(out)@ + bytes@,
{
    let mut i: usize = 0;
    assert(out@ =~= old(out)@ + bytes@.take(0));
    while i < bytes.len()
        invariant
            0 <= i <= bytes@.len(),
            out@ == old(out)@ + bytes@.take(i as int),
        decreases bytes@.len() - i,
    {
        out.push(bytes[i]);
        i = i + 1;
        assert(out@ =~= old(out)@ + bytes@.take(i as int));
    }
    assert(bytes@.take(bytes@.len() as int) =~= bytes@);
}

fn push_tip_accounts(out: &mut Vec<AccountMeta>)
    ensures
        final(out)@ == old(out)@ + writable_tip_accounts(),
{
    let accounts = list_tip_accounts();
    let mut i: usize = 0;
    assert(out@ =~= old(out)@ + writable_tip_accounts().take(0));
    while i < accounts.len()
        invariant
            0 <= i <= accounts@.len(),
            accounts@ == tip_accounts(),
            out@ == old(out)@ + writable_tip_accounts().take(i as int),
        decreases accounts@.len() - i,
    {
        out.push(AccountMeta { pubkey: accounts[i], is_signer: false, is_writable: true });
        i = i + 1;
        assert(out@ =~= old(out)@ + writable_tip_accounts().take(i as int));
    }
    assert(writable_tip_accounts().take(accounts@.len() as int) =~= writable_tip_accounts());
}

/// The tip distribution account of a vote account in an epoch, with its bump
/// seed.
pub open spec fn distribution_account_of(vote_account: Pubkey, epoch: u64) -> Option<(Pubkey, u8)> {
    match derived_address(distribution_seeds(vote_account, epoch), TIP_DISTRIBUTION_PROGRAM@) {
        Some((bytes, bump)) => Some((Pubkey { bytes }, bump)),
        None => None,
    }
}

/// The tip distribution account of a vote account in an epoch, with its bump
/// seed.
pub fn distribution_account(vote_account: &Pubkey, epoch: u64) -> (r: Option<(Pubkey, u8)>)
    ensures
        r == distribution_account_of(*vote_account, epoch),
{
    let name: [u8; 24] = DISTRIBUTION_SEED;
    let program: [u8; 32] = TIP_DISTRIBUTION_PROGRAM;
    let mut prefix: Vec<u8> = Vec::new();
    push_bytes(&mut prefix, name.as_slice());
    let mut vote: Vec<u8> = Vec::new();
    push_bytes(&mut vote, vote_account.bytes.as_slice());
    let mut number: Vec<u8> = Vec::new();
    write_le(&mut number, epoch, 8);
    let mut seeds: Vec<Vec<u8>> = Vec::new();
    seeds.push(prefix);
    seeds.push(vote);
    seeds.push(number);
    proof {
        assert(prefix@ =~= DISTRIBUTION_SEED@);
        assert(vote@ =~= vote_account.bytes@);
        assert(number@ =~= le_bytes(epoch as nat, 8));
        assert(seeds@.map_values(|s: Vec<u8>| s@) =~= distribution_seeds(*vote_account, epoch));
    }
    match find_program_address(&seeds, &program) {
        Some((bytes, bump)) => Some((Pubkey { bytes }, bump)),
        None => None,
    }
}

/// The instruction that sets up a tip distribution account.
pub fn init_instruction(
    payer: &Pubkey,
    args: &TipDistributionArgs,
    distribution: &Pubkey,
    bump: u8,
) -> (ix: Instruction)
    ensures
        ix@ == init_call(*payer, *args, *distribution, bump),
        ix.data@.len() == 43,
        ix.program_id == (Pubkey { bytes: TIP_DISTRIBUTION_PROGRAM }),
        ix.accounts@.len() == 5,
        ix.accounts@[0].pubkey == (Pubkey { bytes: TIP_DISTRIBUTION_CONFIG }),
        ix.accounts@[1].pubkey == *distribution,
        ix.accounts@[2].pubkey == args.vote_account,
        ix.accounts@[3].pubkey == *payer,
        ix.accounts@[4].pubkey == (Pubkey { bytes: SYSTEM_PROGRAM }),
        forall|i: int| 0 <= i < 5 ==> ((#[trigger] ix.accounts@[i]).is_signer <==> i == 3),
        forall|i: int| 0 <= i < 5 ==> ((#[trigger] ix.accounts@[i]).is_writable <==> i == 1 || i == 3),
        ix.data@.take(8) == seq![120u8, 191, 25, 182, 111, 49, 179, 55],
        ix.data@.subrange(8, 40) == args.merkle_authority.bytes@,
        ix.data@[40] + 256 * ix.data@[41] == args.commission_bps,
        ix.data@[42] == bump,
{
    let selector: [u8; 8] = INIT_DISTRIBUTION;
    let mut data: Vec<u8> = Vec::new();
    push_bytes(&mut data, selector.as_slice());
    push_bytes(&mut data, args.merkle_authority.bytes.as_slice());
    write_le(&mut data, args.commission_bps as u64, 2);
    data.push(bump);
    let accounts: Vec<AccountMeta> = vec![
        AccountMeta {
            pubkey: Pubkey { bytes: TIP_DISTRIBUTION_CONFIG },
            is_signer: false,
            is_writable: false,
        },
        AccountMeta { pubkey: *distribution, is_signer: false, is_writable: true },
        AccountMeta { pubkey: args.vote_account, is_signer: false, is_writable: false },
        AccountMeta { pubkey: *payer, is_signer: true, is_writable: true },
        AccountMeta { pubkey: Pubkey { bytes: SYSTEM_PROGRAM }, is_signer: false, is_writable: false },
    ];
    let ix = Instruction { program_id: Pubkey { bytes: TIP_DISTRIBUTION_PROGRAM }, accounts, data };
    proof {
        lemma_le_bytes_len(args.commission_bps as nat, 2);
        assert(ix@ =~= init_call(*payer, *args, *distribution, bump));
        reveal_with_fuel(le_bytes, 3);
        assert(ix.data@.take(8) =~= seq![120u8, 191, 25, 182, 111, 49, 179, 55]);
        assert(ix.data@.subrange(8, 40) =~= args.merkle_authority.bytes@);
        assert(ix.data@[40] == le_bytes(args.commission_bps as nat, 2)[0]);
        assert(ix.data@[41] == le_bytes(args.commission_bps as nat, 2)[1]);
    }
    ix
}

/// The tip distribution account of an epoch, and the packet of the transaction
/// that sets it up.
pub open spec fn distribution_setup(
    identity: Identity,
    args: TipDistributionArgs,
    epoch: u64,
    blockhash: [u8; 32],
) -> Option<(Pubkey, Seq<u8>)> {
    match distribution_account_of(args.vote_account, epoch) {
        Some((account, bump)) => match signed_packet(
            identity.keypair@,
            seq![init_call(identity.pubkey, args, account, bump)],
            blockhash@,
        ) {
            Some(packet) => Some((account, packet)),
            None => None,
        },
        None => None,
    }
}

/// Sets up the tip distribution account of an epoch: that account, and the
/// packet of the transaction.
///
/// Returns `None` if there is no such account or the transaction cannot be
/// signed.
pub fn init_tip_distribution(
    identity: &Identity,
    args: &TipDistributionArgs,
    epoch: u64,
    recent_blockhash: &[u8; 32],
) -> (r: Option<(Pubkey, Vec<u8>)>)
    ensures
        match r {
            Some((account, packet)) => distribution_setup(
                *identity,
                *args,
                epoch,
                *recent_blockhash,
            ) == Some((account, packet@)),
            None => distribution_setup(*identity, *args, epoch, *recent_blockhash) is None,
        },
{
    match distribution_account(&args.vote_account, epoch) {
        Some((account, bump)) => {
            let ix = init_instruction(&identity.pubkey, args, &account, bump);
            let mut instructions: Vec<Instruction> = Vec::new();
            instructions.push(ix);
            assert(calls(instructions@) =~= seq![init_call(identity.pubkey, *args, account, bump)]);
            match sign_instructions(&identity.keypair, &instructions, recent_blockhash) {
                Some(packet) => Some((account, packet)),
                None => None,
            }
        },
        None => None,
    }
}

proof fn lemma_commission_read_back(commission: u64)
    ensures
        le_value(le_bytes(commission as nat, 8)) == commission,
{
    assert(byte_range(8) == 0x1_0000_0000_0000_0000) by {
        reveal_with_fuel(byte_range, 9);
    }
    lemma_le_round_trip(commission as nat, 8);
}

/// The instructions that change the tip receiver and the block builder.
pub fn change_instructions(payer: &Pubkey, args: &ChangeTipReceiverArgs) -> (r: Vec<Instruction>)
    ensures
        calls(r@) == seq![change_receiver_call(*payer, *args), change_builder_call(*payer, *args)],
        r@.len() == 2,
        r@[0].accounts@.len() == 13,
        r@[1].accounts@.len() == 13,
        r@[0].data@.len() == 8,
        r@[1].data@.len() == 16,
        r@[0].program_id == (Pubkey { bytes: TIP_PAYMENT_PROGRAM }),
        r@[0].accounts@[0].pubkey == (Pubkey { bytes: TIP_PAYMENT_CONFIG }),
        r@[0].accounts@[1].pubkey == args.old_tip_receiver,
        r@[0].accounts@[2].pubkey == args.new_tip_receiver,
        r@[0].accounts@[3].pubkey == args.old_block_builder,
        forall|i: int| 0 <= i < 8 ==> (#[trigger] r@[0].accounts@[4 + i]).pubkey == tip_accounts()[i],
        r@[0].accounts@[12].pubkey == *payer,
        r@[0].data@ == seq![69u8, 99, 22, 71, 11, 231, 86, 143],
        r@[1].program_id == (Pubkey { bytes: TIP_PAYMENT_PROGRAM }),
        r@[1].accounts@[0].pubkey == (Pubkey { bytes: TIP_PAYMENT_CONFIG }),
        r@[1].accounts@[1].pubkey == args.new_tip_receiver,
        r@[1].accounts@[2].pubkey == args.old_block_builder,
        r@[1].accounts@[3].pubkey == args.new_block_builder,
        forall|i: int| 0 <= i < 8 ==> (#[trigger] r@[1].accounts@[4 + i]).pubkey == tip_accounts()[i],
        r@[1].accounts@[12].pubkey == *payer,
        r@[1].data@.take(8) == seq![134u8, 80, 38, 137, 165, 21, 114, 123],
        le_value(r@[1].data@.skip(8)) == args.block_builder_commission,
        forall|i: int, j: int|
            #![trigger r@[i].accounts@[j]]
            0 <= i < 2 && 0 <= j < 13 ==> r@[i].accounts@[j].is_writable && (
            r@[i].accounts@[j].is_signer <==> j == 12),
{
    let receiver_selector: [u8; 8] = CHANGE_TIP_RECEIVER;
    let mut receiver_data: Vec<u8> = Vec::new();
    push_bytes(&mut receiver_data, receiver_selector.as_slice());
    let mut receiver_accounts: Vec<AccountMeta> = vec![
        AccountMeta { pubkey: Pubkey { bytes: TIP_PAYMENT_CONFIG }, is_signer: false, is_writable: true },
        AccountMeta { pubkey: args.old_tip_receiver, is_signer: false, is_writable: true },
        AccountMeta { pubkey: args.new_tip_receiver, is_signer: false, is_writable: true },
        AccountMeta { pubkey: args.old_block_builder, is_signer: false, is_writable: true },
    ];
    push_tip_accounts(&mut receiver_accounts);
    receiver_accounts.push(AccountMeta { pubkey: *payer, is_signer: true, is_writable: true });
    let change_receiver = Instruction {
        program_id: Pubkey { bytes: TIP_PAYMENT_PROGRAM },
        accounts: receiver_accounts,
        data: receiver_data,
    };
    assert(change_receiver@ =~= change_receiver_call(*payer, *args));

    let builder_selector: [u8; 8] = CHANGE_BLOCK_BUILDER;
    let mut builder_data: Vec<u8> = Vec::new();
    push_bytes(&mut builder_data, builder_selector.as_slice());
    write_le(&mut builder_data, args.block_builder_commission, 8);
    let mut builder_accounts: Vec<AccountMeta> = vec![
        AccountMeta { pubkey: Pubkey { bytes: TIP_PAYMENT_CONFIG }, is_signer: false, is_writable: true },
        // The receiver was just changed by the call before.
        AccountMeta { pubkey: args.new_tip_receiver, is_signer: false, is_writable: true },
        AccountMeta { pubkey: args.old_block_builder, is_signer: false, is_writable: true },
        AccountMeta { pubkey: args.new_block_builder, is_signer: false, is_writable: true },
    ];
    push_tip_accounts(&mut builder_accounts);
    builder_accounts.push(AccountMeta { pubkey: *payer, is_signer: true, is_writable: true });
    let change_builder = Instruction {
        program_id: Pubkey { bytes: TIP_PAYMENT_PROGRAM },
        accounts: builder_accounts,
        data: builder_data,
    };
    proof {
        lemma_le_bytes_len(args.block_builder_commission as nat, 8);
        assert(change_builder@ =~= change_builder_call(*payer, *args));
    }

    let mut instructions: Vec<Instruction> = Vec::new();
    instructions.push(change_receiver);
    instructions.push(change_builder);
    assert(calls(instructions@) =~= seq![
        change_receiver_call(*payer, *args),
        change_builder_call(*payer, *args),
    ]);
    proof {
        lemma_commission_read_back(args.block_builder_commission);
        assert(instructions@[0].data@ =~= seq![69u8, 99, 22, 71, 11, 231, 86, 143]);
        assert(instructions@[1].data@.take(8) =~= seq![134u8, 80, 38, 137, 165, 21, 114, 123]);
        assert(instructions@[1].data@.skip(8) =~= le_bytes(
            args.block_builder_commission as nat,
            8,
        ));
    }
    instructions
}

/// The packet of the transaction that changes the tip receiver and the block
/// builder.
pub open spec fn change_packet(
    identity: Identity,
    args: ChangeTipReceiverArgs,
    blockhash: [u8; 32],
) -> Option<Seq<u8>> {
    signed_packet(
        identity.keypair@,
        seq![
            change_receiver_call(identity.pubkey, args),
            change_builder_call(identity.pubkey, args),
        ],
        blockhash@,
    )
}

/// Changes the tip receiver and the block builder: the packet of the
/// transaction, or `None` if it cannot be signed.
pub fn change_tip_receiver(
    identity: &Identity,
    args: &ChangeTipReceiverArgs,
    recent_blockhash: &[u8; 32],
) -> (r: Option<Vec<u8>>)
    ensures
        match r {
            Some(packet) => change_packet(*identity, *args, *recent_blockhash) == Some(packet@),
            None => change_packet(*identity, *args, *recent_blockhash) is None,
        },
{
    let instructions = change_instructions(&identity.pubkey, args);
    sign_instructions(&identity.keypair, &instructions, recent_blockhash)
}

} // verus!
