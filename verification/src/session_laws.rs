//! How a session with the block engine goes, and what it passes on.

use vstd::prelude::*;

use crate::auction_scheduler::AuctionBatchSchedulerArgs;
use crate::batch_scheduler::BatchSchedulerArgs;
use crate::jito::{
    address_text, bundle_updates, message_signature, packets, token_fault, AuthError, AuthToken,
    UpdateModel,
};
use crate::jito_session::{
    follows, holds_tip_config, SessionActionModel, SessionError, SessionEvent, Stage,
};
use crate::setup::{configured_runtime, parsed_address, tip_args_of, SetupError};
use crate::tip_program::Identity;

verus! {

/// Whether a token is there and expires.
pub open spec fn usable(token: Option<AuthToken>) -> bool {
    token matches Some(token) && token.has_expiry
}

/// Tokens can be used exactly if both are there and expire. The fault that is
/// named is the first, of the access token before the refresh token.
pub proof fn lemma_tokens_usable(access: Option<AuthToken>, refresh: Option<AuthToken>)
    ensures
        token_fault(access, refresh) is None <==> usable(access) && usable(refresh),
        access is None ==> token_fault(access, refresh) == Some(AuthError::MissingAccessToken),
        access is Some && !usable(access) ==> token_fault(access, refresh) == Some(
            AuthError::MissingAccessExpiry,
        ),
        usable(access) && refresh is None ==> token_fault(access, refresh) == Some(
            AuthError::MissingRefreshToken,
        ),
        usable(access) && refresh is Some && !usable(refresh) ==> token_fault(access, refresh)
            == Some(AuthError::MissingRefreshExpiry),
{
}

/// How far a session has come, as a number.
pub open spec fn progress_of(stage: Stage) -> int {
    match stage {
        Stage::Connecting => 0,
        Stage::Challenged => 1,
        Stage::Authorizing => 2,
        Stage::Subscribing => 3,
        Stage::Streaming => 4,
        Stage::Closed => 5,
    }
}

/// A session goes on step by step and never back: to the next stage, or on with
/// its streams, or to its end; and it aborts exactly when it ends.
pub proof fn lemma_session_goes_forward(
    identity: Identity,
    before: Stage,
    event: SessionEvent,
    after: Stage,
    action: SessionActionModel,
)
    requires
        follows(identity, before, event, after, action),
    ensures
        after == Stage::Closed || progress_of(after) == progress_of(before) + 1 || before
            == Stage::Streaming && after == Stage::Streaming,
        action is Abort <==> after == Stage::Closed,
        event is Failed ==> action == SessionActionModel::Abort(SessionError::Transport),
{
}

/// A validator asks for a challenge under its own address, and answers it with a
/// signature of its address, a hyphen and the challenge, under its own key pair.
pub proof fn lemma_challenge_answered(
    identity: Identity,
    event: SessionEvent,
    after: Stage,
    action: SessionActionModel,
)
    ensures
        event is Connected && follows(identity, Stage::Connecting, event, after, action) ==> after
            == Stage::Challenged && action == (SessionActionModel::RequestChallenge {
            pubkey: identity.pubkey,
        }),
        event matches SessionEvent::Challenge(challenge) ==> follows(
            identity,
            Stage::Challenged,
            event,
            after,
            action,
        ) ==> match action {
            SessionActionModel::RequestTokens { pubkey, challenge: text, signature } => {
                let address = address_text(identity.pubkey.bytes@);
                let n = address.len() as int;
                &&& after == Stage::Authorizing
                &&& pubkey == identity.pubkey
                &&& text.len() == n + 1 + challenge@.len()
                &&& text.take(n) == address
                &&& text[n] == '-'
                &&& text.skip(n + 1) == challenge@
                &&& message_signature(identity.keypair@, text) == Some(signature)
            },
            _ => after == Stage::Closed && action == SessionActionModel::Abort(
                SessionError::Identity,
            ),
        },
{
    if let SessionEvent::Challenge(challenge) = event {
        if let SessionActionModel::RequestTokens { pubkey, challenge: text, signature } = action {
            let address = address_text(identity.pubkey.bytes@);
            let n = address.len() as int;
            if follows(identity, Stage::Challenged, event, after, action) {
                assert(text.take(n) =~= address);
                assert(text.skip(n + 1) =~= challenge@);
            }
        }
    }
}

/// With usable tokens the block builder is asked for, under the access token;
/// with others the session ends.
pub proof fn lemma_tokens_authorize(
    identity: Identity,
    access: Option<AuthToken>,
    refresh: Option<AuthToken>,
    after: Stage,
    action: SessionActionModel,
)
    requires
        follows(
            identity,
            Stage::Authorizing,
            SessionEvent::Tokens { access, refresh },
            after,
            action,
        ),
    ensures
        usable(access) && usable(refresh) ==> after == Stage::Subscribing && (
        action matches SessionActionModel::Subscribe { authorization } && authorization.len()
            == 7 + access->0.value@.len() && authorization.skip(7) == access->0.value@
            && authorization.take(7) == seq!['B', 'e', 'a', 'r', 'e', 'r', ' ']),
        !(usable(access) && usable(refresh)) ==> after == Stage::Closed && (
        action matches SessionActionModel::Abort(error) && error is Auth),
{
    reveal_strlit("Bearer ");
    if usable(access) && usable(refresh) {
        let text = "Bearer "@ + access->0.value@;
        assert(text.skip(7) =~= access->0.value@);
        assert(text.take(7) =~= seq!['B', 'e', 'a', 'r', 'e', 'r', ' ']);
    }
}

/// The block builder is passed on with its own key and commission; a key that is
/// no address ends the session.
pub proof fn lemma_builder_passed_on(
    identity: Identity,
    key: String,
    commission: u64,
    after: Stage,
    action: SessionActionModel,
)
    requires
        follows(
            identity,
            Stage::Subscribing,
            SessionEvent::Builder { key, commission },
            after,
            action,
        ),
    ensures
        parsed_address(key@) matches Some(bytes) ==> after == Stage::Streaming && (
        action matches SessionActionModel::Forward(updates) && updates.len() == 1 && (
        updates[0] matches UpdateModel::BuilderConfig(config) && config.key.bytes == bytes
            && config.commission == commission)),
        parsed_address(key@) is None ==> after == Stage::Closed && action
            == SessionActionModel::Abort(SessionError::BuilderKey),
{
}

/// Who receives tips stands behind the first eight bytes of the account, and who
/// builds blocks behind the next thirty-two.
pub proof fn lemma_tip_config_read(updates: Seq<UpdateModel>, data: Seq<u8>, i: int)
    requires
        data.len() >= 72,
        holds_tip_config(updates, data),
        0 <= i < 32,
    ensures
        updates.len() == 1,
        updates[0] matches UpdateModel::TipConfig(config) && config.tip_receiver.bytes[i] == data[8
            + i] && config.block_builder.bytes[i] == data[40 + i],
{
    if let UpdateModel::TipConfig(config) = updates[0] {
        assert(config.tip_receiver.bytes@[i] == data.subrange(8, 40)[i]);
        assert(config.block_builder.bytes@[i] == data.subrange(40, 72)[i]);
    }
}

/// While the streams are open, what they bring is passed on and the session goes
/// on: a blockhash, a tip configuration, and packets one by one. A stream that is
/// closed, or an account that is too short, ends it.
pub proof fn lemma_streams_passed_on(
    identity: Identity,
    event: SessionEvent,
    after: Stage,
    action: SessionActionModel,
)
    requires
        follows(identity, Stage::Streaming, event, after, action),
    ensures
        event matches SessionEvent::Blockhash(hash) ==> after == Stage::Streaming && action
            == SessionActionModel::Forward(seq![UpdateModel::RecentBlockhash(hash)]),
        event matches SessionEvent::TipConfig(Some(data)) ==> (after == Stage::Streaming <==> data@.len()
            >= 72),
        event matches SessionEvent::TipConfig(None) ==> action == SessionActionModel::Abort(
            SessionError::TipConfigClosed,
        ),
        event matches SessionEvent::Packets(Some(Some(batch))) ==> after == Stage::Streaming && (
        action matches SessionActionModel::Forward(updates) && updates.len() == batch@.len()
            && forall|i: int|
            0 <= i < batch@.len() ==> #[trigger] updates[i] == UpdateModel::Packet(batch@[i]@)),
        event matches SessionEvent::Packets(Some(None)) ==> after == Stage::Streaming && (
        action matches SessionActionModel::Forward(updates) && updates.len() == 0),
        event matches SessionEvent::Packets(None) ==> action == SessionActionModel::Abort(
            SessionError::BundlesClosed,
        ),
        event matches SessionEvent::Bundles(None) ==> action == SessionActionModel::Abort(
            SessionError::BundlesClosed,
        ),
        event matches SessionEvent::Bundles(Some(bundles)) ==> (action is Abort <==> exists|
            i: int,
            j: int,
        |
            #![trigger bundles@[i]->0@[j]]
            0 <= i < bundles@.len() && bundles@[i] is Some && 0 <= j < bundles@[i]->0@.len()
                && bundles@[i]->0@[j]@.len() > 1232),
{
}

proof fn lemma_bundles_grow(bundles: Seq<Option<Vec<Vec<u8>>>>, n: int, m: int, j: int)
    requires
        0 <= n <= m <= bundles.len(),
        0 <= j < bundle_updates(bundles, n).len(),
    ensures
        bundle_updates(bundles, m).len() >= bundle_updates(bundles, n).len(),
        bundle_updates(bundles, m)[j] == bundle_updates(bundles, n)[j],
    decreases m,
{
    if n < m {
        lemma_bundles_grow(bundles, n, m - 1, j);
    }
}

/// Every bundle that holds something is passed on, with all of its packets, in
/// the order in which they came; nothing is passed on for the others.
pub proof fn lemma_bundles_passed_on(bundles: Seq<Option<Vec<Vec<u8>>>>, n: int, i: int)
    requires
        0 <= i < n <= bundles.len(),
    ensures
        ({
            let before = bundle_updates(bundles, i).len() as int;
            let with = bundle_updates(bundles, i + 1).len() as int;
            let updates = bundle_updates(bundles, n);
            let holds = bundles[i] is Some && bundles[i]->0@.len() > 0;
            &&& holds ==> with == before + 1 && before < updates.len() && updates[before]
                == UpdateModel::Bundle(packets(bundles[i]->0@))
            &&& !holds ==> bundle_updates(bundles, i + 1) == bundle_updates(bundles, i)
        }),
{
    if bundles[i] is Some && bundles[i]->0@.len() > 0 {
        lemma_bundles_grow(bundles, i + 1, n, bundle_updates(bundles, i).len() as int);
    }
}

/// Times are configured in seconds and milliseconds and kept in nanoseconds, as
/// far as they fit; the rest is kept as configured.
pub proof fn lemma_times_in_nanoseconds(batches: u8, cutoff: u8, timeout_sec: u64, expiry_ms: u64)
    ensures
        ({
            let runtime = configured_runtime(batches, cutoff, timeout_sec, expiry_ms);
            &&& runtime.max_check_batches == batches
            &&& runtime.block_fill_cutoff == cutoff
            &&& timeout_sec * 1_000_000_000 <= u64::MAX ==> runtime.progress_timeout == timeout_sec
                * 1_000_000_000
            &&& timeout_sec * 1_000_000_000 > u64::MAX ==> runtime.progress_timeout == u64::MAX
            &&& expiry_ms * 1_000_000 <= u64::MAX ==> runtime.bundle_expiry == expiry_ms * 1_000_000
            &&& expiry_ms * 1_000_000 > u64::MAX ==> runtime.bundle_expiry == u64::MAX
        }),
{
}

/// Tips are distributed for the vote account and under the merkle authority that
/// are configured, at the configured commission; each must be an address.
pub proof fn lemma_tip_arguments(vote: Option<[u8; 32]>, authority: Option<[u8; 32]>, bps: u16)
    ensures
        match tip_args_of(vote, authority, bps) {
            Ok(args) => {
                &&& vote == Some(args.vote_account.bytes)
                &&& authority == Some(args.merkle_authority.bytes)
                &&& args.commission_bps == bps
            },
            Err(error) => {
                &&& vote is None || authority is None
                &&& error == SetupError::VoteAccount <==> vote is None
                &&& error == SetupError::MerkleAuthority <==> vote is Some
            },
        },
{
}

/// A scheduler runs with the capacities, the filter, the identity and the tip
/// distribution that it was given.
pub proof fn lemma_arguments_handed_on(b: BatchSchedulerArgs, a: AuctionBatchSchedulerArgs)
    ensures
        b.core_args().unchecked_capacity == b.unchecked_capacity,
        b.core_args().checked_capacity == b.checked_capacity,
        b.core_args().bundle_capacity == b.bundle_capacity,
        b.core_args().filter_keys == b.filter_keys,
        b.core_args().identity == b.keypair,
        b.core_args().tip == b.tip,
        b.core_args().runtime == b.runtime,
        a.core_args().unchecked_capacity == a.unchecked_capacity,
        a.core_args().checked_capacity == a.checked_capacity,
        a.core_args().bundle_capacity == a.bundle_capacity,
        a.core_args().filter_keys == a.filter_keys,
        a.core_args().identity == a.keypair,
        a.core_args().tip == a.tip,
        a.core_args().runtime == a.runtime,
{
}

/// A session goes on only with what was asked for; anything else that comes ends
/// it.
pub proof fn lemma_only_the_expected(
    identity: Identity,
    before: Stage,
    event: SessionEvent,
    after: Stage,
    action: SessionActionModel,
)
    requires
        follows(identity, before, event, after, action),
        after != Stage::Closed,
    ensures
        match before {
            Stage::Connecting => event is Connected,
            Stage::Challenged => event is Challenge,
            Stage::Authorizing => event is Tokens,
            Stage::Subscribing => event is Builder,
            Stage::Streaming => event is Blockhash || event is TipConfig || event is Bundles
                || event is Packets,
            Stage::Closed => false,
        },
{
}

} // verus!
