//! Transactions as the schedulers see them: the fields that are read, the
//! locks they need, and the tips they pay.

use vstd::prelude::*;
use agave_transaction_view::transaction_view::SanitizedTransactionView;
use solana_runtime_transaction::sanitize_config::sanitize_config;

use crate::accounts::{is_tip_account, SYSTEM_PROGRAM};
use crate::le::{le_value, read_le};
use crate::ordered::OrderedSet;
use crate::pubkey::{Pubkey, Signature};

verus! {

/// An instruction with its program resolved.
#[derive(Debug)]
pub struct InstructionView {
    pub program_id: Pubkey,
    pub accounts: Vec<u8>,
    pub data: Vec<u8>,
}

/// What an instruction holds.
#[verifier::ext_equal]
pub struct InstructionModel {
    pub program_id: Pubkey,
    pub accounts: Seq<u8>,
    pub data: Seq<u8>,
}

impl View for InstructionView {
    type V = InstructionModel;

    open spec fn view(&self) -> InstructionModel {
        InstructionModel {
            program_id: self.program_id,
            accounts: self.accounts@,
            data: self.data@,
        }
    }
}

/// The counts of a message header, and of its address table lookups.
#[derive(Clone, Copy, Debug, PartialEq, Eq, Structural)]
pub struct HeaderView {
    pub num_required_signatures: u8,
    pub num_readonly_signed: u8,
    pub num_readonly_unsigned: u8,
    pub num_lookups: u8,
    pub num_writable_lookups: u16,
}

/// The fields of a sanitized transaction.
#[derive(Debug)]
pub struct TransactionFields {
    pub signature: Signature,
    pub header: HeaderView,
    pub account_keys: Vec<Pubkey>,
    pub instructions: Vec<InstructionView>,
}

/// What a sanitized transaction holds.
#[verifier::ext_equal]
pub struct FieldsModel {
    pub signature: Signature,
    pub header: HeaderView,
    pub account_keys: Seq<Pubkey>,
    pub instructions: Seq<InstructionModel>,
}

impl View for TransactionFields {
    type V = FieldsModel;

    open spec fn view(&self) -> FieldsModel {
        FieldsModel {
            signature: self.signature,
            header: self.header,
            account_keys: self.account_keys@,
            instructions: self.instructions@.map_values(|ix: InstructionView| ix@),
        }
    }
}

/// The fields of the sanitized transaction that a packet holds, if it holds one.
pub uninterp spec fn sanitized_transaction(packet: Seq<u8>) -> Option<FieldsModel>;

/// `SanitizedTransactionView::try_new_sanitized` with the limits of
/// `sanitize_config(true)`: whether the packet is a well-formed transaction is
/// a function of its bytes, and so are the first signature, the header counts,
/// the static account keys and the instructions that the view then gives.
#[verifier::external_body]
pub(crate) fn sanitize_packet(packet: &[u8]) -> (r: Option<TransactionFields>)
    ensures
        match r {
            Some(tx) => sanitized_transaction(packet@) == Some(tx@),
            None => sanitized_transaction(packet@) is None,
        },
{
    let tx = SanitizedTransactionView::try_new_sanitized(packet, &sanitize_config(true)).ok()?;
    let pubkey = |key: &solana_pubkey::Pubkey| Pubkey { bytes: key.to_bytes() };
    Some(TransactionFields {
        signature: Signature { bytes: *tx.signatures()[0].as_array() },
        header: HeaderView {
            num_required_signatures: tx.num_required_signatures(),
            num_readonly_signed: tx.num_readonly_signed_static_accounts(),
            num_readonly_unsigned: tx.num_readonly_unsigned_static_accounts(),
            num_lookups: tx.num_address_table_lookups(),
            num_writable_lookups: tx.total_writable_lookup_accounts(),
        },
        account_keys: tx.static_account_keys().iter().map(pubkey).collect(),
        instructions: tx.program_instructions_iter().map(|(id, ix)| InstructionView { program_id: pubkey(id), accounts: ix.accounts.to_vec(), data: ix.data.to_vec() }).collect(),
    })
}

/// A transaction known to the scheduler.
#[derive(Debug)]
pub struct TransactionState {
    pub packet: Vec<u8>,
    pub fields: TransactionFields,
    pub simple_vote: bool,
    /// The keys that its address table lookups resolved to, once known.
    pub resolved: Option<Vec<Pubkey>>,
}

/// What the scheduler knows of a transaction.
#[verifier::ext_equal]
pub struct TransactionModel {
    pub packet: Seq<u8>,
    pub fields: FieldsModel,
    pub simple_vote: bool,
    pub resolved: Option<Seq<Pubkey>>,
}

/// The view of an optional vector.
pub open spec fn optional_seq<T>(v: Option<Vec<T>>) -> Option<Seq<T>> {
    match v {
        Some(items) => Some(items@),
        None => None,
    }
}

impl View for TransactionState {
    type V = TransactionModel;

    open spec fn view(&self) -> TransactionModel {
        TransactionModel {
            packet: self.packet@,
            fields: self.fields@,
            simple_vote: self.simple_vote,
            resolved: optional_seq(self.resolved),
        }
    }
}

/// Whether the header makes the account at a position writable.
///
/// Positions count the static keys first, then the resolved ones.
pub open spec fn position_writable(header: HeaderView, num_static: int, position: int) -> bool {
    let index = (position % 256) as u8;
    let statics = (num_static % 256) as u8;
    if index >= statics {
        index.wrapping_sub(statics) < (header.num_writable_lookups % 256) as u8
    } else {
        ||| index < header.num_required_signatures.wrapping_sub(header.num_readonly_signed)
        ||| (index >= header.num_required_signatures && index < statics.wrapping_sub(
            header.num_readonly_unsigned,
        ))
    }
}

impl TransactionModel {
    /// The static keys, then the resolved ones.
    pub open spec fn keys(self) -> Seq<Pubkey> {
        match self.resolved {
            Some(resolved) => self.fields.account_keys + resolved,
            None => self.fields.account_keys,
        }
    }

    /// Whether the account at a position is writable.
    pub open spec fn writable(self, position: int) -> bool {
        position_writable(self.fields.header, self.fields.account_keys.len() as int, position)
    }

    /// Of the first `n` accounts, the writable or the read-only ones, in order.
    pub open spec fn locks_upto(self, n: int, writable: bool) -> Seq<(Pubkey, bool)>
        decreases n,
    {
        if n <= 0 {
            Seq::empty()
        } else if self.writable(n - 1) == writable {
            self.locks_upto(n - 1, writable).push((self.keys()[n - 1], writable))
        } else {
            self.locks_upto(n - 1, writable)
        }
    }

    /// The account locks: the writable ones first.
    pub open spec fn locks(self) -> Seq<(Pubkey, bool)> {
        self.locks_upto(self.keys().len() as int, true) + self.locks_upto(
            self.keys().len() as int,
            false,
        )
    }
}

impl FieldsModel {
    /// The locks that the transaction names itself.
    pub open spec fn unresolved_locks(self) -> Seq<(Pubkey, bool)> {
        TransactionModel {
            packet: Seq::empty(),
            fields: self,
            simple_vote: false,
            resolved: None,
        }.locks()
    }
}

fn is_position_writable(header: &HeaderView, num_static: usize, position: usize) -> (r: bool)
    ensures
        r == position_writable(*header, num_static as int, position as int),
{
    let index: u8 = (position % 256) as u8;
    let statics: u8 = (num_static % 256) as u8;
    if index >= statics {
        index.wrapping_sub(statics) < (header.num_writable_lookups % 256) as u8
    } else {
        index < header.num_required_signatures.wrapping_sub(header.num_readonly_signed) || (index
            >= header.num_required_signatures && index < statics.wrapping_sub(
            header.num_readonly_unsigned,
        ))
    }
}

impl TransactionState {
    /// All account keys.
    fn all_keys(&self) -> (r: Vec<Pubkey>)
        ensures
            r@ == self@.keys(),
    {
        let mut keys: Vec<Pubkey> = Vec::new();
        extend_keys(&mut keys, &self.fields.account_keys);
        match &self.resolved {
            Some(resolved) => {
                extend_keys(&mut keys, resolved);
            },
            None => {},
        }
        assert(keys@ =~= self@.keys());
        keys
    }

    /// The account locks: the writable ones first.
    pub fn locks(&self) -> (r: Vec<(Pubkey, bool)>)
        ensures
            r@ == self@.locks(),
    {
        let keys = self.all_keys();
        let mut locks: Vec<(Pubkey, bool)> = Vec::new();
        self.push_locks(&keys, true, &mut locks);
        self.push_locks(&keys, false, &mut locks);
        assert(locks@ =~= self@.locks());
        locks
    }

    fn push_locks(&self, keys: &Vec<Pubkey>, writable: bool, locks: &mut Vec<(Pubkey, bool)>)
        requires
            keys@ == self@.keys(),
        ensures
            final(locks)@ == old(locks)@ + self@.locks_upto(keys@.len() as int, writable),
    {
        let mut i: usize = 0;
        assert(locks@ =~= old(locks)@ + self@.locks_upto(0, writable));
        while i < keys.len()
            invariant
                0 <= i <= keys.len(),
                keys@ == self@.keys(),
                locks@ == old(locks)@ + self@.locks_upto(i as int, writable),
            decreases keys.len() - i,
        {
            let here: bool = is_position_writable(
                &self.fields.header,
                self.fields.account_keys.len(),
                i,
            );
            if here == writable {
                locks.push((keys[i], writable));
            }
            i = i + 1;
            assert(locks@ =~= old(locks)@ + self@.locks_upto(i as int, writable));
        }
    }
}

fn extend_keys(out: &mut Vec<Pubkey>, keys: &Vec<Pubkey>)
    ensures
        final(out)@ == old(out)@ + keys@,
{
    let mut i: usize = 0;
    assert(out@ =~= old(out)@ + keys@.take(0));
    while i < keys.len()
        invariant
            0 <= i <= keys.len(),
            out@ == old(out)@ + keys@.take(i as int),
        decreases keys.len() - i,
    {
        out.push(keys[i]);
        i = i + 1;
        assert(out@ =~= old(out)@ + keys@.take(i as int));
    }
    assert(keys@.take(keys@.len() as int) =~= keys@);
}

/// Whether one of the keys is in a sorted list.
pub open spec fn any_listed(keys: Seq<Pubkey>, list: Seq<Pubkey>) -> bool {
    exists|i: int| 0 <= i < keys.len() && list.contains(#[trigger] keys[i])
}

/// Whether one of the keys is in a list.
pub fn mentions_any(keys: &Vec<Pubkey>, list: &OrderedSet<Pubkey>) -> (r: bool)
    requires
        list.wf(),
    ensures
        r == any_listed(keys@, list@),
{
    let mut i: usize = 0;
    while i < keys.len()
        invariant
            0 <= i <= keys.len(),
            list.wf(),
            forall|j: int| 0 <= j < i ==> !list@.contains(#[trigger] keys@[j]),
        decreases keys.len() - i,
    {
        if list.contains(&keys[i]) {
            return true;
        }
        i = i + 1;
    }
    false
}

/// The tip that one instruction pays: the amount of a system transfer to a
/// tip account, and nothing otherwise.
pub open spec fn instruction_tip(keys: Seq<Pubkey>, ix: InstructionModel) -> nat {
    if {
        &&& ix.program_id == (Pubkey { bytes: SYSTEM_PROGRAM })
        &&& ix.data.len() >= 12
        &&& le_value(ix.data.subrange(0, 4)) == 2
        &&& ix.accounts.len() > 1
        &&& ix.accounts[1] < keys.len()
        &&& crate::accounts::tip_accounts().contains(keys[ix.accounts[1] as int])
    } {
        le_value(ix.data.subrange(4, 12))
    } else {
        0
    }
}

/// The tips of the first `n` instructions together.
pub open spec fn tips_upto(keys: Seq<Pubkey>, ixs: Seq<InstructionModel>, n: int) -> nat
    decreases n,
{
    if n <= 0 {
        0
    } else {
        tips_upto(keys, ixs, n - 1) + instruction_tip(keys, ixs[n - 1])
    }
}

impl FieldsModel {
    /// The tips that a transaction pays.
    pub open spec fn tip(self) -> nat {
        tips_upto(self.account_keys, self.instructions, self.instructions.len() as int)
    }
}

proof fn lemma_tips_monotone(keys: Seq<Pubkey>, ixs: Seq<InstructionModel>, n: int, m: int)
    requires
        0 <= n <= m,
    ensures
        tips_upto(keys, ixs, n) <= tips_upto(keys, ixs, m),
    decreases m,
{
    if n < m {
        lemma_tips_monotone(keys, ixs, n, m - 1);
    }
}

fn tip_of_instruction(keys: &Vec<Pubkey>, ix: &InstructionView) -> (tip: u64)
    ensures
        tip == instruction_tip(keys@, ix@),
{
    let system = Pubkey { bytes: SYSTEM_PROGRAM };
    if !ix.program_id.same(&system) || ix.data.len() < 12 {
        return 0;
    }
    if read_le(ix.data.as_slice(), 0, 4) != 2 {
        return 0;
    }
    if ix.accounts.len() <= 1 {
        return 0;
    }
    let dest: usize = ix.accounts[1] as usize;
    if dest < keys.len() && is_tip_account(&keys[dest]) {
        read_le(ix.data.as_slice(), 4, 8)
    } else {
        0
    }
}

/// The tips that a transaction pays, unless they exceed 64 bits.
pub fn try_extract_tip(tx: &TransactionFields) -> (r: Option<u64>)
    ensures
        match r {
            Some(tip) => tip == tx@.tip(),
            None => tx@.tip() > u64::MAX,
        },
{
    let mut total: u64 = 0;
    let mut i: usize = 0;
    while i < tx.instructions.len()
        invariant
            0 <= i <= tx.instructions.len(),
            total == tips_upto(tx@.account_keys, tx@.instructions, i as int),
        decreases tx.instructions.len() - i,
    {
        let tip: u64 = tip_of_instruction(&tx.account_keys, &tx.instructions[i]);
        assert(tx@.instructions[i as int] == tx.instructions@[i as int]@);
        match total.checked_add(tip) {
            Some(sum) => {
                total = sum;
            },
            None => {
                proof {
                    lemma_tips_monotone(
                        tx@.account_keys,
                        tx@.instructions,
                        i + 1,
                        tx@.instructions.len() as int,
                    );
                }
                return None;
            },
        }
        i = i + 1;
    }
    Some(total)
}

/// The tips that a transaction pays: the sum of its system transfers to tip
/// accounts.
pub fn extract_tip(tx: &TransactionFields) -> (tip: u64)
    requires
        tx@.tip() <= u64::MAX,
    ensures
        tip == tx@.tip(),
{
    match try_extract_tip(tx) {
        Some(tip) => tip,
        None => 0,
    }
}

} // verus!
