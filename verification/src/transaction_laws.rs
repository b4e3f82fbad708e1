//! What holds of the locks that transactions need, and of the tips they pay.

use vstd::prelude::*;

use crate::accounts::tip_accounts;
use crate::bridge::BridgeModel;
use crate::le::{byte_range, le_bytes, le_value, lemma_le_bytes_len, lemma_le_round_trip};
use crate::pubkey::Pubkey;
use crate::transaction::{
    instruction_tip, position_writable, tips_upto, FieldsModel, HeaderView, InstructionModel,
    TransactionModel,
};

verus! {

/// Locks of one kind on some accounts.
pub open spec fn locked_as(keys: Seq<Pubkey>, writable: bool) -> Seq<(Pubkey, bool)> {
    Seq::new(keys.len(), |i: int| (keys[i], writable))
}

proof fn lemma_run(t: TransactionModel, from: int, to: int, writable: bool, here: bool)
    requires
        0 <= from <= to <= t.keys().len(),
        forall|i: int| from <= i < to ==> #[trigger] t.writable(i) == here,
    ensures
        t.locks_upto(to, writable) == t.locks_upto(from, writable) + (if here == writable {
            locked_as(t.keys().subrange(from, to), writable)
        } else {
            Seq::empty()
        }),
    decreases to - from,
{
    if from < to {
        lemma_run(t, from, to - 1, writable, here);
        assert(t.writable(to - 1) == here);
        assert(t.keys().subrange(from, to) =~= t.keys().subrange(from, to - 1).push(
            t.keys()[to - 1],
        ));
        assert(locked_as(t.keys().subrange(from, to), writable) =~= locked_as(
            t.keys().subrange(from, to - 1),
            writable,
        ).push((t.keys()[to - 1], writable)));
    } else {
        assert(locked_as(t.keys().subrange(from, to), writable) =~= Seq::empty());
    }
    assert(t.locks_upto(to, writable) =~= t.locks_upto(from, writable) + (if here == writable {
        locked_as(t.keys().subrange(from, to), writable)
    } else {
        Seq::empty()
    }));
}

/// Runs of positions that are written and read in turn.
#[verifier::rlimit(50)]
proof fn lemma_runs(t: TransactionModel, a: int, b: int, c: int, d: int, e: int)
    requires
        0 <= a <= b <= c <= d <= e <= t.keys().len(),
        forall|i: int|
            0 <= i < t.keys().len() ==> #[trigger] t.writable(i) == (i < a || b <= i < c || d <= i
                < e),
    ensures
        t.locks() == locked_as(
            t.keys().subrange(0, a) + t.keys().subrange(b, c) + t.keys().subrange(d, e),
            true,
        ) + locked_as(
            t.keys().subrange(a, b) + t.keys().subrange(c, d) + t.keys().skip(e),
            false,
        ),
{
    let n = t.keys().len() as int;
    let k = t.keys();
    assert(t.locks_upto(n, true) =~= locked_as(
        k.subrange(0, a) + k.subrange(b, c) + k.subrange(d, e),
        true,
    )) by {
        lemma_run(t, 0, a, true, true);
        lemma_run(t, a, b, true, false);
        lemma_run(t, b, c, true, true);
        lemma_run(t, c, d, true, false);
        lemma_run(t, d, e, true, true);
        lemma_run(t, e, n, true, false);
    }
    assert(t.locks_upto(n, false) =~= locked_as(
        k.subrange(a, b) + k.subrange(c, d) + k.skip(e),
        false,
    )) by {
        lemma_run(t, 0, a, false, true);
        lemma_run(t, a, b, false, false);
        lemma_run(t, b, c, false, true);
        lemma_run(t, c, d, false, false);
        lemma_run(t, d, e, false, true);
        lemma_run(t, e, n, false, false);
        assert(k.subrange(e, n) =~= k.skip(e));
    }
}

#[verifier::rlimit(50)]
proof fn lemma_writable_at(h: HeaderView, s: int, n: int, i: int)
    requires
        1 <= h.num_required_signatures <= s <= 255,
        h.num_readonly_signed <= h.num_required_signatures,
        h.num_readonly_unsigned + h.num_required_signatures <= s,
        s + h.num_writable_lookups <= n <= 256,
        0 <= i < n,
    ensures
        position_writable(h, s, i) == (i < h.num_required_signatures - h.num_readonly_signed
            || h.num_required_signatures <= i < s - h.num_readonly_unsigned || s <= i < s
            + h.num_writable_lookups),
{
    let index = (i % 256) as u8;
    let statics = (s % 256) as u8;
    let looked_up = (h.num_writable_lookups % 256) as u8;
    assert(index == i);
    assert(statics == s);
    assert(looked_up == h.num_writable_lookups);
    let signers = h.num_required_signatures;
    assert(signers.wrapping_sub(h.num_readonly_signed) == signers - h.num_readonly_signed);
    assert(statics.wrapping_sub(h.num_readonly_unsigned) == s - h.num_readonly_unsigned);
    if index >= statics {
        assert(index.wrapping_sub(statics) == i - s);
    }
}

/// A message names its signers first, then its other accounts; of each the
/// read-only ones come last. Of the accounts that lookups resolved to, the
/// writable ones come first. A transaction writes exactly the accounts that are
/// not read-only, those that lookups resolved to among them, and reads all
/// others; and it asks for the accounts that it writes before those it reads.
#[verifier::rlimit(50)]
pub proof fn lemma_locks_by_header(t: TransactionModel, resolved: Seq<Pubkey>)
    requires
        t.resolved == Some(resolved),
        1 <= t.fields.header.num_required_signatures <= t.fields.account_keys.len() <= 255,
        t.fields.header.num_readonly_signed <= t.fields.header.num_required_signatures,
        t.fields.header.num_readonly_unsigned + t.fields.header.num_required_signatures
            <= t.fields.account_keys.len(),
        t.fields.account_keys.len() + resolved.len() <= 256,
        t.fields.header.num_writable_lookups <= resolved.len(),
    ensures
        ({
            let h = t.fields.header;
            let names = t.fields.account_keys;
            let signers = h.num_required_signatures as int;
            let written_signers = signers - h.num_readonly_signed;
            let written_end = names.len() - h.num_readonly_unsigned;
            let looked_up = h.num_writable_lookups as int;
            let written = names.subrange(0, written_signers) + names.subrange(signers, written_end)
                + resolved.take(looked_up);
            let read = names.subrange(written_signers, signers) + names.skip(written_end)
                + resolved.skip(looked_up);
            t.locks() == locked_as(written, true) + locked_as(read, false)
        }),
{
    let h = t.fields.header;
    let names = t.fields.account_keys;
    let s = names.len() as int;
    let signers = h.num_required_signatures as int;
    let a = signers - h.num_readonly_signed;
    let b = s - h.num_readonly_unsigned;
    let w = h.num_writable_lookups as int;
    let k = t.keys();
    let n = k.len() as int;
    assert forall|i: int| 0 <= i < n implies #[trigger] t.writable(i) == (i < a || signers <= i < b
        || s <= i < s + w) by {
        lemma_writable_at(h, s, n, i);
    }
    lemma_runs(t, a, signers, b, s, s + w);
    assert(k.subrange(0, a) =~= names.subrange(0, a));
    assert(k.subrange(signers, b) =~= names.subrange(signers, b));
    assert(k.subrange(s, s + w) =~= resolved.take(w));
    assert(k.subrange(a, signers) =~= names.subrange(a, signers));
    assert(k.subrange(b, s) =~= names.skip(b));
    assert(k.skip(s + w) =~= resolved.skip(w));
}

/// As long as its lookups are not resolved, a transaction asks for the accounts
/// that its message names, and for no others.
#[verifier::rlimit(50)]
pub proof fn lemma_unresolved_locks_by_header(t: TransactionModel)
    requires
        t.resolved is None,
        1 <= t.fields.header.num_required_signatures <= t.fields.account_keys.len() <= 255,
        t.fields.header.num_readonly_signed <= t.fields.header.num_required_signatures,
        t.fields.header.num_readonly_unsigned + t.fields.header.num_required_signatures
            <= t.fields.account_keys.len(),
    ensures
        ({
            let h = t.fields.header;
            let names = t.fields.account_keys;
            let signers = h.num_required_signatures as int;
            let written_signers = signers - h.num_readonly_signed;
            let written_end = names.len() - h.num_readonly_unsigned;
            let written = names.subrange(0, written_signers) + names.subrange(signers, written_end);
            let read = names.subrange(written_signers, signers) + names.skip(written_end);
            t.locks() == locked_as(written, true) + locked_as(read, false)
        }),
{
    let h = t.fields.header;
    let names = t.fields.account_keys;
    let s = names.len() as int;
    let signers = h.num_required_signatures as int;
    let a = signers - h.num_readonly_signed;
    let b = s - h.num_readonly_unsigned;
    let k = t.keys();
    lemma_runs(t, a, signers, b, s, s);
    assert(k.subrange(0, a) + k.subrange(signers, b) + k.subrange(s, s) =~= names.subrange(0, a)
        + names.subrange(signers, b));
    assert(k.subrange(a, signers) + k.subrange(b, s) + k.skip(s) =~= names.subrange(a, signers)
        + names.skip(b));
}

/// Whichever lock is asked for is on an account that the transaction names or
/// that its lookups resolved to; and each of these accounts is asked for.
pub proof fn lemma_every_account_locked(t: TransactionModel, account: Pubkey)
    ensures
        t.keys().contains(account) <==> t.locks().contains((account, true)) || t.locks().contains(
            (account, false),
        ),
{
    let n = t.keys().len() as int;
    lemma_locked_upto(t, n, account);
    let w = t.locks_upto(n, true);
    let r = t.locks_upto(n, false);
    assert(t.keys().take(n) =~= t.keys());
    assert forall|lock: (Pubkey, bool)| #[trigger] t.locks().contains(lock) <==> w.contains(lock)
        || r.contains(lock) by {
        if w.contains(lock) {
            let i = w.index_of(lock);
            assert(t.locks()[i] == lock);
        }
        if r.contains(lock) {
            let i = r.index_of(lock);
            assert(t.locks()[w.len() + i] == lock);
        }
        if t.locks().contains(lock) {
            let i = t.locks().index_of(lock);
            if i < w.len() {
                assert(w[i] == lock);
            } else {
                assert(r[i - w.len()] == lock);
            }
        }
    }
}

proof fn lemma_locked_upto(t: TransactionModel, n: int, account: Pubkey)
    requires
        0 <= n <= t.keys().len(),
    ensures
        !t.locks_upto(n, true).contains((account, false)),
        !t.locks_upto(n, false).contains((account, true)),
        t.keys().take(n).contains(account) <==> t.locks_upto(n, true).contains((account, true))
            || t.locks_upto(n, false).contains((account, false)),
    decreases n,
{
    if n > 0 {
        lemma_locked_upto(t, n - 1, account);
        let here = t.writable(n - 1);
        let key = t.keys()[n - 1];
        assert(t.keys().take(n) =~= t.keys().take(n - 1).push(key));
        lemma_pushed(t.keys().take(n - 1), key, account);
        lemma_pushed(t.locks_upto(n - 1, true), (key, true), (account, true));
        lemma_pushed(t.locks_upto(n - 1, true), (key, true), (account, false));
        lemma_pushed(t.locks_upto(n - 1, false), (key, false), (account, true));
        lemma_pushed(t.locks_upto(n - 1, false), (key, false), (account, false));
    }
}

proof fn lemma_pushed<A>(s: Seq<A>, x: A, y: A)
    ensures
        s.push(x).contains(y) <==> (s.contains(y) || y == x),
{
    if s.contains(y) {
        let i = s.index_of(y);
        assert(s.push(x)[i] == y);
    }
    if y == x {
        assert(s.push(x)[s.len() as int] == y);
    }
    if s.push(x).contains(y) && y != x {
        let i = s.push(x).index_of(y);
        assert(s[i] == y);
    }
}

proof fn lemma_tips_prefix(
    keys: Seq<Pubkey>,
    ixs: Seq<InstructionModel>,
    ix: InstructionModel,
    n: int,
)
    requires
        0 <= n <= ixs.len(),
    ensures
        tips_upto(keys, ixs.push(ix), n) == tips_upto(keys, ixs, n),
    decreases n,
{
    if n > 0 {
        lemma_tips_prefix(keys, ixs, ix, n - 1);
        assert(ixs.push(ix)[n - 1] == ixs[n - 1]);
    }
}

/// A transaction with one more instruction.
pub open spec fn with_instruction(fields: FieldsModel, ix: InstructionModel) -> FieldsModel {
    FieldsModel { instructions: fields.instructions.push(ix), ..fields }
}

/// The data of a system transfer: the number of the instruction in four bytes,
/// then the lamports in eight.
pub open spec fn transfer_data(lamports: u64) -> Seq<u8> {
    seq![2u8, 0, 0, 0] + le_bytes(lamports as nat, 8)
}

proof fn lemma_kind_value(s: Seq<u8>)
    requires
        s.len() == 4,
    ensures
        le_value(s) == 2 <==> s[0] == 2 && s[1] == 0 && s[2] == 0 && s[3] == 0,
{
    reveal_with_fuel(le_value, 5);
    let s1 = s.drop_first();
    let s2 = s1.drop_first();
    let s3 = s2.drop_first();
    assert(le_value(s3.drop_first()) == 0);
    assert(le_value(s3) == s[3] as nat);
    assert(le_value(s2) == s[2] + 256 * s[3]);
    assert(le_value(s1) == s[1] + 256 * (s[2] + 256 * s[3]));
    assert(le_value(s) == s[0] + 256 * (s[1] + 256 * (s[2] + 256 * s[3])));
}

/// A system transfer to a tip account raises the tip of a transaction by exactly
/// the lamports it moves, whatever else the transaction does.
pub proof fn lemma_transfer_adds_tip(
    fields: FieldsModel,
    ix: InstructionModel,
    lamports: u64,
    rest: Seq<u8>,
)
    requires
        forall|i: int| 0 <= i < 32 ==> #[trigger] ix.program_id.bytes[i] == 0,
        ix.data == transfer_data(lamports) + rest,
        ix.accounts.len() >= 2,
        (ix.accounts[1] as int) < fields.account_keys.len(),
        tip_accounts().contains(fields.account_keys[ix.accounts[1] as int]),
    ensures
        with_instruction(fields, ix).tip() == fields.tip() + lamports,
{
    let n = fields.instructions.len() as int;
    lemma_tips_prefix(fields.account_keys, fields.instructions, ix, n);
    lemma_le_bytes_len(lamports as nat, 8);
    assert(ix.data.subrange(0, 4) =~= seq![2u8, 0, 0, 0]);
    lemma_kind_value(ix.data.subrange(0, 4));
    assert(ix.data.subrange(4, 12) =~= le_bytes(lamports as nat, 8));
    assert(byte_range(8) == 0x1_0000_0000_0000_0000) by {
        reveal_with_fuel(byte_range, 9);
    }
    lemma_le_round_trip(lamports as nat, 8);
    assert(ix.program_id.bytes =~= crate::accounts::SYSTEM_PROGRAM);
    assert(ix.program_id == (Pubkey { bytes: crate::accounts::SYSTEM_PROGRAM }));
    assert(instruction_tip(fields.account_keys, ix) == lamports);
}

/// Nothing else raises the tip of a transaction: no instruction of another
/// program, none of another kind, and no transfer to an account that is no tip
/// account.
pub proof fn lemma_nothing_else_tips(fields: FieldsModel, ix: InstructionModel)
    requires
        ({
            ||| exists|i: int| 0 <= i < 32 && #[trigger] ix.program_id.bytes[i] != 0
            ||| ix.data.len() < 12
            ||| ix.data[0] != 2 || ix.data[1] != 0 || ix.data[2] != 0 || ix.data[3] != 0
            ||| ix.accounts.len() < 2
            ||| ix.accounts[1] as int >= fields.account_keys.len()
            ||| !tip_accounts().contains(fields.account_keys[ix.accounts[1] as int])
        }),
    ensures
        with_instruction(fields, ix).tip() == fields.tip(),
{
    let n = fields.instructions.len() as int;
    lemma_tips_prefix(fields.account_keys, fields.instructions, ix, n);
    if ix.data.len() >= 12 {
        lemma_kind_value(ix.data.subrange(0, 4));
    }
    assert(instruction_tip(fields.account_keys, ix) == 0);
}

/// A transaction without instructions pays no tip.
pub proof fn lemma_no_instruction_no_tip(fields: FieldsModel)
    requires
        fields.instructions.len() == 0,
    ensures
        fields.tip() == 0,
{
}

/// The locks that a scheduler asks for are those of the transaction with its
/// lookups as they were resolved last; an unknown transaction needs none.
pub proof fn lemma_known_locks(b: BridgeModel, key: u64, resolved: Option<Seq<Pubkey>>)
    ensures
        b.transactions.contains_key(key) ==> b.locks(key) == b.transactions[key].locks(),
        b.transactions.contains_key(key) ==> b.resolved(key, resolved).locks(key) == (
        TransactionModel { resolved, ..b.transactions[key] }).locks(),
        !b.transactions.contains_key(key) ==> b.locks(key).len() == 0,
{
}

/// The locks that a bid names are those of the accounts that the message names.
pub proof fn lemma_bid_locks_by_header(fields: FieldsModel)
    requires
        1 <= fields.header.num_required_signatures <= fields.account_keys.len() <= 255,
        fields.header.num_readonly_signed <= fields.header.num_required_signatures,
        fields.header.num_readonly_unsigned + fields.header.num_required_signatures
            <= fields.account_keys.len(),
    ensures
        ({
            let h = fields.header;
            let names = fields.account_keys;
            let signers = h.num_required_signatures as int;
            let written_signers = signers - h.num_readonly_signed;
            let written_end = names.len() - h.num_readonly_unsigned;
            let written = names.subrange(0, written_signers) + names.subrange(signers, written_end);
            let read = names.subrange(written_signers, signers) + names.skip(written_end);
            fields.unresolved_locks() == locked_as(written, true) + locked_as(read, false)
        }),
{
    lemma_unresolved_locks_by_header(
        TransactionModel { packet: Seq::empty(), fields, simple_vote: false, resolved: None },
    );
}

} // verus!
