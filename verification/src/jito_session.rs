//! One session with the block engine, from the first connection to the error
//! that ends it.
//!
//! The caller performs each action and hands back what came of it.

use vstd::prelude::*;

use crate::jito::{
    address_text, answer_challenge, authorization, bundle_updates, challenge_text, message_signature,
    on_bundles, on_packets, on_tip_config, packets, token_fault, validate_tokens, AuthError,
    AuthToken, BuilderConfig, JitoUpdate, SignedChallenge, TipConfig, UpdateModel,
    BLOCK_BUILDER_OFFSET, PACKET_DATA_SIZE,
};
use crate::pubkey::Pubkey;
use crate::setup::{parse_address, parsed_address};
use crate::tip_program::Identity;

verus! {

/// How far a session has come.
#[derive(Clone, Copy, Debug, PartialEq, Eq, Structural)]
pub enum Stage {
    /// The authorization service is being connected to.
    Connecting,
    /// A challenge was asked for.
    Challenged,
    /// The challenge was answered, and tokens were asked for.
    Authorizing,
    /// The block builder was asked for.
    Subscribing,
    /// The block builder is known, and the streams are open or being opened.
    Streaming,
    /// An error ended the session.
    Closed,
}

/// Why a session ended.
#[derive(Clone, Copy, Debug, PartialEq, Eq, Structural)]
pub enum SessionError {
    /// A request failed, or a stream broke.
    Transport,
    /// The identity holds no key pair.
    Identity,
    /// The tokens cannot be used.
    Auth(AuthError),
    /// The block builder's key is no address.
    BuilderKey,
    /// The stream of tip configurations was closed.
    TipConfigClosed,
    /// The account of the tip configuration is too short.
    TipConfigShort,
    /// The stream of bundles or of packets was closed.
    BundlesClosed,
    /// A packet of a bundle is larger than a packet can be.
    PacketTooLarge,
    /// Something came that was not asked for.
    Unexpected,
}

/// What came of an action, or of a stream.
#[derive(Debug)]
pub enum SessionEvent {
    /// The authorization service is connected.
    Connected,
    /// The challenge of the block engine.
    Challenge(String),
    /// The tokens of the block engine.
    Tokens { access: Option<AuthToken>, refresh: Option<AuthToken> },
    /// The block builder, its key in base 58.
    Builder { key: String, commission: u64 },
    /// A recent blockhash.
    Blockhash([u8; 32]),
    /// The data of the account of the tip configuration, unless the stream was
    /// closed.
    TipConfig(Option<Vec<u8>>),
    /// Bundles, unless the stream was closed.
    Bundles(Option<Vec<Option<Vec<Vec<u8>>>>>),
    /// Packets, unless the stream was closed.
    Packets(Option<Option<Vec<Vec<u8>>>>),
    /// A request failed, or a stream broke.
    Failed,
}

/// What the caller does next.
#[derive(Debug)]
pub enum SessionAction {
    /// Ask for a challenge, as this validator.
    RequestChallenge { pubkey: Pubkey },
    /// Ask for tokens, with the answer to the challenge.
    RequestTokens { pubkey: Pubkey, signed: SignedChallenge },
    /// Ask for the block builder, with this authorization; the streams are opened
    /// with it as well, once the block builder was passed on.
    Subscribe { authorization: String },
    /// Pass these on to the scheduler, in order.
    Forward(Vec<JitoUpdate>),
    /// Let go of the session.
    Abort(SessionError),
}

/// What an action holds.
#[verifier::ext_equal]
pub enum SessionActionModel {
    RequestChallenge { pubkey: Pubkey },
    RequestTokens { pubkey: Pubkey, challenge: Seq<char>, signature: Seq<u8> },
    Subscribe { authorization: Seq<char> },
    Forward(Seq<UpdateModel>),
    Abort(SessionError),
}

impl View for SessionAction {
    type V = SessionActionModel;

    open spec fn view(&self) -> SessionActionModel {
        match self {
            SessionAction::RequestChallenge { pubkey } => SessionActionModel::RequestChallenge {
                pubkey: *pubkey,
            },
            SessionAction::RequestTokens { pubkey, signed } => SessionActionModel::RequestTokens {
                pubkey: *pubkey,
                challenge: signed.challenge@,
                signature: signed.signature@,
            },
            SessionAction::Subscribe { authorization } => SessionActionModel::Subscribe {
                authorization: authorization@,
            },
            SessionAction::Forward(updates) => SessionActionModel::Forward(
                updates@.map_values(|u: JitoUpdate| u@),
            ),
            SessionAction::Abort(error) => SessionActionModel::Abort(*error),
        }
    }
}

/// Whether no packet is larger than a packet can be.
pub open spec fn packets_fit(bundles: Seq<Option<Vec<Vec<u8>>>>) -> bool {
    forall|i: int, j: int|
        #![trigger bundles[i]->0@[j]]
        0 <= i < bundles.len() && bundles[i] is Some && 0 <= j < bundles[i]->0@.len()
            ==> bundles[i]->0@[j]@.len() <= PACKET_DATA_SIZE
}

/// The challenge is answered under the validator's key pair.
pub open spec fn challenge_step(identity: Identity, challenge: Seq<char>) -> (
    Stage,
    SessionActionModel,
) {
    let text = challenge_text(address_text(identity.pubkey.bytes@), challenge);
    match message_signature(identity.keypair@, text) {
        Some(signature) => (
            Stage::Authorizing,
            SessionActionModel::RequestTokens {
                pubkey: identity.pubkey,
                challenge: text,
                signature,
            },
        ),
        None => (Stage::Closed, SessionActionModel::Abort(SessionError::Identity)),
    }
}

/// Tokens that can be used authorize what follows.
pub open spec fn token_step(access: Option<AuthToken>, refresh: Option<AuthToken>) -> (
    Stage,
    SessionActionModel,
) {
    match token_fault(access, refresh) {
        Some(error) => (Stage::Closed, SessionActionModel::Abort(SessionError::Auth(error))),
        None => (
            Stage::Subscribing,
            SessionActionModel::Subscribe { authorization: "Bearer "@ + access->0.value@ },
        ),
    }
}

/// The block builder is passed on.
pub open spec fn builder_step(key: Option<[u8; 32]>, commission: u64) -> (Stage, SessionActionModel) {
    match key {
        Some(bytes) => (
            Stage::Streaming,
            SessionActionModel::Forward(
                seq![
                    UpdateModel::BuilderConfig(BuilderConfig { key: Pubkey { bytes }, commission }),
                ],
            ),
        ),
        None => (Stage::Closed, SessionActionModel::Abort(SessionError::BuilderKey)),
    }
}

/// Whether updates are the one tip configuration that the account's data holds.
pub open spec fn holds_tip_config(updates: Seq<UpdateModel>, data: Seq<u8>) -> bool {
    &&& updates.len() == 1
    &&& updates[0] matches UpdateModel::TipConfig(config)
        && config.tip_receiver.bytes@ == data.subrange(8, 40)
        && config.block_builder.bytes@ == data.subrange(40, 72)
}

/// What an event of an open stream leads to.
pub open spec fn streams(event: SessionEvent, stage: Stage, action: SessionActionModel) -> bool {
    match event {
        SessionEvent::Blockhash(hash) => stage == Stage::Streaming && action
            == SessionActionModel::Forward(seq![UpdateModel::RecentBlockhash(hash)]),
        SessionEvent::TipConfig(Some(data)) => if data@.len() < BLOCK_BUILDER_OFFSET + 32 {
            stage == Stage::Closed && action == SessionActionModel::Abort(
                SessionError::TipConfigShort,
            )
        } else {
            stage == Stage::Streaming && (action matches SessionActionModel::Forward(updates)
                && holds_tip_config(updates, data@))
        },
        SessionEvent::TipConfig(None) => stage == Stage::Closed && action
            == SessionActionModel::Abort(SessionError::TipConfigClosed),
        SessionEvent::Bundles(Some(bundles)) => if packets_fit(bundles@) {
            stage == Stage::Streaming && action == SessionActionModel::Forward(
                bundle_updates(bundles@, bundles@.len() as int),
            )
        } else {
            stage == Stage::Closed && action == SessionActionModel::Abort(
                SessionError::PacketTooLarge,
            )
        },
        SessionEvent::Packets(Some(batch)) => stage == Stage::Streaming && action
            == SessionActionModel::Forward(
            match batch {
                Some(batch) => packets(batch@).map_values(|p: Seq<u8>| UpdateModel::Packet(p)),
                None => Seq::empty(),
            },
        ),
        SessionEvent::Bundles(None) | SessionEvent::Packets(None) => stage == Stage::Closed
            && action == SessionActionModel::Abort(SessionError::BundlesClosed),
        _ => stage == Stage::Closed && action == SessionActionModel::Abort(
            SessionError::Unexpected,
        ),
    }
}

/// Whether, in a session of an identity, an event leads from one stage to the
/// next with this action.
pub open spec fn follows(
    identity: Identity,
    before: Stage,
    event: SessionEvent,
    after: Stage,
    action: SessionActionModel,
) -> bool {
    match (before, event) {
        (_, SessionEvent::Failed) => after == Stage::Closed && action == SessionActionModel::Abort(
            SessionError::Transport,
        ),
        (Stage::Connecting, SessionEvent::Connected) => after == Stage::Challenged && action == (
        SessionActionModel::RequestChallenge { pubkey: identity.pubkey }),
        (Stage::Challenged, SessionEvent::Challenge(challenge)) => (after, action)
            == challenge_step(identity, challenge@),
        (Stage::Authorizing, SessionEvent::Tokens { access, refresh }) => (after, action)
            == token_step(access, refresh),
        (Stage::Subscribing, SessionEvent::Builder { key, commission }) => (after, action)
            == builder_step(parsed_address(key@), commission),
        (Stage::Streaming, event) => streams(event, after, action),
        _ => after == Stage::Closed && action == SessionActionModel::Abort(SessionError::Unexpected),
    }
}

/// A session with the block engine.
#[derive(Debug)]
pub struct Session {
    pub identity: Identity,
    pub stage: Stage,
}

impl Session {
    /// A session that is about to connect.
    pub fn new(identity: Identity) -> (session: Self)
        ensures
            session.identity == identity,
            session.stage == Stage::Connecting,
    {
        Session { identity, stage: Stage::Connecting }
    }

    fn abort(&mut self, error: SessionError) -> (action: SessionAction)
        ensures
            *final(self) == (Session { stage: Stage::Closed, ..*old(self) }),
            action@ == SessionActionModel::Abort(error),
    {
        self.stage = Stage::Closed;
        SessionAction::Abort(error)
    }

    fn forward(&mut self, updates: Vec<JitoUpdate>) -> (action: SessionAction)
        ensures
            *final(self) == (Session { stage: Stage::Streaming, ..*old(self) }),
            action@ == SessionActionModel::Forward(updates@.map_values(|u: JitoUpdate| u@)),
    {
        self.stage = Stage::Streaming;
        SessionAction::Forward(updates)
    }

    fn forward_one(&mut self, update: JitoUpdate) -> (action: SessionAction)
        ensures
            *final(self) == (Session { stage: Stage::Streaming, ..*old(self) }),
            action@ == SessionActionModel::Forward(seq![update@]),
    {
        let mut updates: Vec<JitoUpdate> = Vec::new();
        updates.push(update);
        assert(updates@.map_values(|u: JitoUpdate| u@) =~= seq![update@]);
        self.forward(updates)
    }

    /// The block builder is known, if its key could be read.
    pub fn on_builder(&mut self, key: Option<[u8; 32]>, commission: u64) -> (action: SessionAction)
        ensures
            final(self).identity == old(self).identity,
            (final(self).stage, action@) == builder_step(key, commission),
    {
        match key {
            Some(bytes) => self.forward_one(
                JitoUpdate::BuilderConfig(BuilderConfig { key: Pubkey { bytes }, commission }),
            ),
            None => self.abort(SessionError::BuilderKey),
        }
    }

    /// Tokens came.
    pub fn on_tokens(&mut self, access: Option<AuthToken>, refresh: Option<AuthToken>) -> (action:
        SessionAction)
        ensures
            final(self).identity == old(self).identity,
            (final(self).stage, action@) == token_step(access, refresh),
    {
        match validate_tokens(access, refresh) {
            Ok(token) => {
                self.stage = Stage::Subscribing;
                SessionAction::Subscribe { authorization: authorization(&token) }
            },
            Err(error) => self.abort(SessionError::Auth(error)),
        }
    }

    /// The challenge came.
    pub fn on_challenge(&mut self, challenge: &str) -> (action: SessionAction)
        ensures
            final(self).identity == old(self).identity,
            (final(self).stage, action@) == challenge_step(old(self).identity, challenge@),
    {
        match answer_challenge(&self.identity, challenge) {
            Some(signed) => {
                self.stage = Stage::Authorizing;
                SessionAction::RequestTokens { pubkey: self.identity.pubkey, signed }
            },
            None => self.abort(SessionError::Identity),
        }
    }

    /// Something came from an open stream.
    pub fn on_stream(&mut self, event: SessionEvent) -> (action: SessionAction)
        ensures
            final(self).identity == old(self).identity,
            streams(event, final(self).stage, action@),
    {
        match event {
            SessionEvent::Blockhash(hash) => self.forward_one(JitoUpdate::RecentBlockhash(hash)),
            SessionEvent::TipConfig(Some(data)) => {
                if data.len() < BLOCK_BUILDER_OFFSET + 32 {
                    self.abort(SessionError::TipConfigShort)
                } else {
                    self.forward_one(on_tip_config(data.as_slice()))
                }
            },
            SessionEvent::TipConfig(None) => self.abort(SessionError::TipConfigClosed),
            SessionEvent::Bundles(Some(bundles)) => {
                if all_packets_fit(&bundles) {
                    self.forward(on_bundles(bundles))
                } else {
                    self.abort(SessionError::PacketTooLarge)
                }
            },
            SessionEvent::Packets(Some(batch)) => self.forward(on_packets(batch)),
            SessionEvent::Bundles(None) | SessionEvent::Packets(None) => self.abort(
                SessionError::BundlesClosed,
            ),
            _ => self.abort(SessionError::Unexpected),
        }
    }

    /// Something came: what to do next.
    pub fn step(&mut self, event: SessionEvent) -> (action: SessionAction)
        ensures
            final(self).identity == old(self).identity,
            follows(old(self).identity, old(self).stage, event, final(self).stage, action@),
    {
        match (self.stage, event) {
            (_, SessionEvent::Failed) => self.abort(SessionError::Transport),
            (Stage::Connecting, SessionEvent::Connected) => {
                self.stage = Stage::Challenged;
                SessionAction::RequestChallenge { pubkey: self.identity.pubkey }
            },
            (Stage::Challenged, SessionEvent::Challenge(challenge)) => self.on_challenge(
                challenge.as_str(),
            ),
            (Stage::Authorizing, SessionEvent::Tokens { access, refresh }) => self.on_tokens(
                access,
                refresh,
            ),
            (Stage::Subscribing, SessionEvent::Builder { key, commission }) => {
                let key = parse_address(key.as_str());
                self.on_builder(key, commission)
            },
            (Stage::Streaming, event) => self.on_stream(event),
            _ => self.abort(SessionError::Unexpected),
        }
    }
}

/// Whether no packet is larger than a packet can be.
fn all_packets_fit(bundles: &Vec<Option<Vec<Vec<u8>>>>) -> (r: bool)
    ensures
        r == packets_fit(bundles@),
{
    let mut i: usize = 0;
    while i < bundles.len()
        invariant
            0 <= i <= bundles@.len(),
            packets_fit(bundles@.take(i as int)),
        decreases bundles@.len() - i,
    {
        match &bundles[i] {
            Some(bundle) => {
                let mut j: usize = 0;
                while j < bundle.len()
                    invariant
                        0 <= i < bundles@.len(),
                        bundles@[i as int] == Some(*bundle),
                        0 <= j <= bundle@.len(),
                        forall|k: int| 0 <= k < j ==> (#[trigger] bundle@[k])@.len()
                            <= PACKET_DATA_SIZE,
                    decreases bundle@.len() - j,
                {
                    if bundle[j].len() > PACKET_DATA_SIZE {
                        assert(bundles@[i as int]->0@[j as int]@.len() > PACKET_DATA_SIZE);
                        return false;
                    }
                    j = j + 1;
                }
            },
            None => {},
        }
        proof {
            let before = bundles@.take(i as int);
            let after = bundles@.take(i + 1);
            assert forall|a: int, c: int|
                #![trigger after[a]->0@[c]]
                0 <= a < after.len() && after[a] is Some && 0 <= c < after[a]->0@.len() implies after[a]->0@[c]@.len()
                <= PACKET_DATA_SIZE by {
                if a < i {
                    assert(after[a] == before[a]);
                    assert(before[a]->0@[c]@.len() <= PACKET_DATA_SIZE);
                }
            }
        }
        i = i + 1;
    }
    assert(bundles@.take(bundles@.len() as int) =~= bundles@);
    true
}

/// Nothing is passed on before the block builder, and nothing after an error:
/// the first thing that a session passes on is the block builder.
pub proof fn lemma_builder_goes_first(
    identity: Identity,
    before: Stage,
    event: SessionEvent,
    after: Stage,
    action: SessionActionModel,
)
    requires
        follows(identity, before, event, after, action),
        action is Forward,
        before != Stage::Streaming,
    ensures
        before == Stage::Subscribing,
        after == Stage::Streaming,
        action matches SessionActionModel::Forward(updates) && updates.len() == 1
            && updates[0] is BuilderConfig,
{
}

/// A session that ended stays ended.
pub proof fn lemma_closed_stays_closed(
    identity: Identity,
    event: SessionEvent,
    after: Stage,
    action: SessionActionModel,
)
    requires
        follows(identity, Stage::Closed, event, after, action),
    ensures
        after == Stage::Closed,
        action is Abort,
{
}

} // verus!
