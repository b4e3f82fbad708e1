//! Which batches the block auction builds.

use vstd::prelude::*;

use crate::auction_engine::{
    built_upto, bundle_placed, cu_upto, joined_upto, lemma_first_bundle_fit, lemma_first_fit, placed,
    CandidateBatch, CandidateModel, Verdict,
};
use crate::pubkey::Pubkey;

verus! {

/// Whether a candidate names an account.
pub open spec fn names_account(tx: CandidateModel, account: Pubkey) -> bool {
    exists|i: int| 0 <= i < tx.all_locks.len() && (#[trigger] tx.all_locks[i]).0 == account
}

/// Whether one of the first `n` candidates names an account.
pub open spec fn any_names(txs: Seq<CandidateModel>, n: int, account: Pubkey) -> bool {
    exists|k: int| 0 <= k < n && names_account(#[trigger] txs[k], account)
}

proof fn lemma_joined(locks: Map<Pubkey, bool>, more: Seq<(Pubkey, bool)>, n: int, account: Pubkey)
    requires
        0 <= n <= more.len(),
    ensures
        joined_upto(locks, more, n).contains_key(account) <==> locks.contains_key(account) || exists|
            i: int,
        |
            0 <= i < n && (#[trigger] more[i]).0 == account,
    decreases n,
{
    if n > 0 {
        lemma_joined(locks, more, n - 1, account);
        if exists|i: int| 0 <= i < n - 1 && (#[trigger] more[i]).0 == account {
            let i = choose|i: int| 0 <= i < n - 1 && (#[trigger] more[i]).0 == account;
            assert(more[i].0 == account);
        }
        if more[n - 1].0 == account {
            assert(more[n - 1].0 == account);
        }
    }
}

proof fn lemma_cu_grows(txs: Seq<CandidateModel>, n: int, m: int)
    requires
        0 <= n <= m,
    ensures
        0 <= cu_upto(txs, n) <= cu_upto(txs, m),
    decreases m,
{
    if n < m {
        lemma_cu_grows(txs, n, m - 1);
    } else if n > 0 {
        lemma_cu_grows(txs, n - 1, m - 1);
    }
}

proof fn lemma_batch_holds(txs: Seq<CandidateModel>, n: int, account: Pubkey)
    requires
        0 <= n <= txs.len(),
        cu_upto(txs, n) <= u64::MAX,
    ensures
        ({
            let batch = CandidateBatch::none().with_upto(txs, n);
            &&& batch.cu_used == cu_upto(txs, n)
            &&& batch.transactions == txs.take(n)
            &&& batch.locks.contains_key(account) <==> any_names(txs, n, account)
        }),
    decreases n,
{
    let batch = CandidateBatch::none().with_upto(txs, n);
    if n > 0 {
        lemma_cu_grows(txs, n - 1, n);
        lemma_batch_holds(txs, n - 1, account);
        let before = CandidateBatch::none().with_upto(txs, n - 1);
        let tx = txs[n - 1];
        lemma_joined(before.locks, tx.all_locks, tx.all_locks.len() as int, account);
        assert(batch.transactions =~= txs.take(n));
        if any_names(txs, n - 1, account) {
            let k = choose|k: int| 0 <= k < n - 1 && names_account(#[trigger] txs[k], account);
            assert(names_account(txs[k], account));
        }
        if names_account(tx, account) {
            assert(names_account(txs[n - 1], account));
        }
        if any_names(txs, n, account) {
            let k = choose|k: int| 0 <= k < n && names_account(#[trigger] txs[k], account);
            if k < n - 1 {
                assert(names_account(txs[k], account));
            }
        }
    } else {
        assert(batch.transactions =~= txs.take(0));
    }
}

/// A transaction fits a batch exactly if its compute units do, together with
/// those of the transactions in it, and if it writes no account that one of them
/// names.
pub proof fn lemma_fits_by_contents(txs: Seq<CandidateModel>, tx: CandidateModel, max_cu: u64)
    requires
        cu_upto(txs, txs.len() as int) <= u64::MAX,
    ensures
        ({
            let n = txs.len() as int;
            let batch = CandidateBatch::none().with_upto(txs, n);
            batch.fits(tx.all_locks, tx.cu_limit, max_cu) <==> {
                &&& cu_upto(txs, n) + tx.cu_limit <= max_cu
                &&& forall|i: int|
                    0 <= i < tx.all_locks.len() && (#[trigger] tx.all_locks[i]).1 ==> !any_names(
                        txs,
                        n,
                        tx.all_locks[i].0,
                    )
            }
        }),
{
    let n = txs.len() as int;
    let batch = CandidateBatch::none().with_upto(txs, n);
    assert forall|account: Pubkey| batch.locks.contains_key(account) <==> #[trigger] any_names(
        txs,
        n,
        account,
    ) by {
        lemma_batch_holds(txs, n, account);
    }
    let any: Pubkey = arbitrary();
    lemma_batch_holds(txs, n, any);
}

/// Whether a candidate fits one of some batches.
pub open spec fn fits_some(batches: Seq<CandidateBatch>, tx: CandidateModel, max_cu: u64) -> bool {
    exists|i: int|
        0 <= i < batches.len() && (#[trigger] batches[i]).fits(tx.all_locks, tx.cu_limit, max_cu)
}

/// A candidate whose surplus is too low goes nowhere. One that is accepted joins
/// the first batch that it fits into; if there is none, it opens a batch of its
/// own, unless it needs more compute units than a batch has.
pub proof fn lemma_candidate_placed(
    batches: Seq<CandidateBatch>,
    tx: CandidateModel,
    verdict: Verdict,
    max_cu: u64,
)
    ensures
        ({
            let after = placed(batches, tx, verdict, max_cu);
            let n = batches.len() as int;
            let joins = verdict.scorable && fits_some(batches, tx, max_cu);
            &&& !verdict.accepted ==> after == batches
            &&& verdict.accepted && joins ==> exists|i: int|
                #![trigger batches[i]]
                0 <= i < n && batches[i].fits(tx.all_locks, tx.cu_limit, max_cu) && (forall|j: int|
                    0 <= j < i ==> !(#[trigger] batches[j]).fits(tx.all_locks, tx.cu_limit, max_cu))
                    && after == batches.update(i, batches[i].with(tx))
            &&& verdict.accepted && !joins && tx.cu_limit <= max_cu ==> {
                &&& after.len() == n + 1
                &&& after.take(n) == batches
                &&& after[n].transactions == seq![tx]
                &&& after[n].cu_used == tx.cu_limit
            }
            &&& verdict.accepted && !joins && tx.cu_limit > max_cu ==> after == batches
        }),
{
    lemma_first_fit(batches, tx, max_cu, 0);
    let after = placed(batches, tx, verdict, max_cu);
    let n = batches.len() as int;
    if verdict.accepted && !(verdict.scorable && fits_some(batches, tx, max_cu)) && tx.cu_limit
        <= max_cu {
        assert(CandidateBatch::none().fits(tx.all_locks, tx.cu_limit, max_cu));
        assert(after.take(n) =~= batches);
        assert(after[n].transactions =~= seq![tx]);
    }
}

/// Whether a candidate is in one of some batches.
pub open spec fn in_some(batches: Seq<CandidateBatch>, tx: CandidateModel) -> bool {
    exists|i: int| 0 <= i < batches.len() && (#[trigger] batches[i]).transactions.contains(tx)
}

proof fn lemma_stays(
    batches: Seq<CandidateBatch>,
    tx: CandidateModel,
    verdict: Verdict,
    max_cu: u64,
    other: CandidateModel,
)
    ensures
        in_some(batches, other) ==> in_some(placed(batches, tx, verdict, max_cu), other),
        verdict.accepted && tx.cu_limit <= max_cu ==> in_some(
            placed(batches, tx, verdict, max_cu),
            tx,
        ),
{
    lemma_candidate_placed(batches, tx, verdict, max_cu);
    let after = placed(batches, tx, verdict, max_cu);
    let n = batches.len() as int;
    let joins = verdict.scorable && fits_some(batches, tx, max_cu);
    if in_some(batches, other) {
        let k = choose|k: int| 0 <= k < n && (#[trigger] batches[k]).transactions.contains(other);
        let at = batches[k].transactions.index_of(other);
        if after != batches {
            if joins {
                let i = choose|i: int|
                    #![trigger batches[i]]
                    0 <= i < n && after == batches.update(i, batches[i].with(tx));
                assert(after[k].transactions[at] == other);
            } else {
                assert(after[k] == after.take(n)[k]);
            }
        }
        assert(after[k].transactions.contains(other));
    }
    if verdict.accepted && tx.cu_limit <= max_cu {
        if joins {
            let i = choose|i: int|
                #![trigger batches[i]]
                0 <= i < n && after == batches.update(i, batches[i].with(tx));
            let m = batches[i].transactions.len() as int;
            assert(after[i].transactions[m] == tx);
            assert(after[i].transactions.contains(tx));
        } else {
            assert(after[n].transactions[0] == tx);
            assert(after[n].transactions.contains(tx));
        }
    }
}

/// No accepted candidate is left out that a batch can hold.
pub proof fn lemma_no_candidate_left_out(
    candidates: Seq<CandidateModel>,
    verdicts: Seq<Verdict>,
    max_cu: u64,
    n: int,
    i: int,
)
    requires
        0 <= i < n <= candidates.len(),
        candidates.len() == verdicts.len(),
        verdicts[i].accepted,
        candidates[i].cu_limit <= max_cu,
    ensures
        in_some(built_upto(candidates, verdicts, max_cu, n), candidates[i]),
    decreases n,
{
    let before = built_upto(candidates, verdicts, max_cu, n - 1);
    lemma_stays(before, candidates[n - 1], verdicts[n - 1], max_cu, candidates[i]);
    if i < n - 1 {
        lemma_no_candidate_left_out(candidates, verdicts, max_cu, n - 1, i);
    }
}

/// A bundle is placed exactly if a batch can hold it at all, and if it fits one
/// that is there, or is accepted. It joins the first batch that it fits into as a
/// whole; if there is none, it opens a batch of its own.
pub proof fn lemma_bundle_placed_when(
    batches: Seq<CandidateBatch>,
    bundle: Seq<CandidateModel>,
    verdict: Verdict,
    max_cu: u64,
)
    ensures
        ({
            let (after, result) = bundle_placed(batches, bundle, verdict, max_cu);
            let n = batches.len() as int;
            let alone = CandidateBatch::none().fits_all(bundle, max_cu);
            let joins = verdict.scorable && exists|i: int|
                0 <= i < n && (#[trigger] batches[i]).fits_all(bundle, max_cu);
            &&& result is Some <==> alone && (joins || verdict.accepted)
            &&& result is None ==> after == batches
            &&& alone && joins ==> exists|i: int|
                #![trigger batches[i]]
                0 <= i < n && batches[i].fits_all(bundle, max_cu) && (forall|j: int|
                    0 <= j < i ==> !(#[trigger] batches[j]).fits_all(bundle, max_cu))
                    && result == Some(batches[i].with_upto(bundle, bundle.len() as int))
                    && after == batches.update(i, result->0)
            &&& alone && !joins && verdict.accepted ==> {
                &&& after == batches.push(result->0)
                &&& result == Some(
                    CandidateBatch::none().with_upto(bundle, bundle.len() as int),
                )
            }
        }),
{
    lemma_first_bundle_fit(batches, bundle, max_cu, 0);
}

} // verus!
