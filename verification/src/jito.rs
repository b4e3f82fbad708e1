//! The connection to the block engine: how a validator proves who it is, and what
//! the block engine sends it.

use vstd::prelude::*;
use vstd::string::{StrSliceExecFns, StringExecFns};
use solana_keypair::{Keypair, Signer};
use solana_pubkey::Pubkey as Address;

use crate::pubkey::Pubkey;
use crate::tip_program::Identity;

verus! {

/// Where the block engine and the cluster are reached.
#[derive(Clone, Debug)]
pub struct JitoArgs {
    pub http_rpc: String,
    pub ws_rpc: String,
    pub block_engine: String,
}

/// Who builds blocks, and for which commission.
#[derive(Clone, Copy, Debug)]
pub struct BuilderConfig {
    pub key: Pubkey,
    pub commission: u64,
}

/// Who receives tips at present.
#[derive(Clone, Copy, Debug)]
pub struct TipConfig {
    pub tip_receiver: Pubkey,
    pub block_builder: Pubkey,
}

/// Something that the block engine sent.
#[derive(Debug)]
pub enum JitoUpdate {
    BuilderConfig(BuilderConfig),
    TipConfig(TipConfig),
    RecentBlockhash([u8; 32]),
    Packet(Vec<u8>),
    Bundle(Vec<Vec<u8>>),
}

impl JitoUpdate {
    /// How many transactions the update brings.
    pub open spec fn transaction_count(self) -> nat {
        match self {
            JitoUpdate::Packet(_) => 1,
            JitoUpdate::Bundle(bundle) => bundle@.len(),
            _ => 0,
        }
    }
}

/// What an update holds.
pub enum UpdateModel {
    BuilderConfig(BuilderConfig),
    TipConfig(TipConfig),
    RecentBlockhash([u8; 32]),
    Packet(Seq<u8>),
    Bundle(Seq<Seq<u8>>),
}

/// The packets of a bundle.
pub open spec fn packets(bundle: Seq<Vec<u8>>) -> Seq<Seq<u8>> {
    bundle.map_values(|p: Vec<u8>| p@)
}

impl View for JitoUpdate {
    type V = UpdateModel;

    open spec fn view(&self) -> UpdateModel {
        match self {
            JitoUpdate::BuilderConfig(config) => UpdateModel::BuilderConfig(*config),
            JitoUpdate::TipConfig(config) => UpdateModel::TipConfig(*config),
            JitoUpdate::RecentBlockhash(hash) => UpdateModel::RecentBlockhash(*hash),
            JitoUpdate::Packet(packet) => UpdateModel::Packet(packet@),
            JitoUpdate::Bundle(bundle) => UpdateModel::Bundle(packets(bundle@)),
        }
    }
}

/// The most bytes that a packet holds.
pub const PACKET_DATA_SIZE: usize = 1232;

/// Where the account of the tip configuration names the receiver of tips.
pub const TIP_RECEIVER_OFFSET: usize = 8;

/// Where the account of the tip configuration names the block builder.
pub const BLOCK_BUILDER_OFFSET: usize = 40;

/// The address that starts at a position.
pub fn address_at(data: &[u8], offset: usize) -> (r: Pubkey)
    requires
        offset + 32 <= data@.len(),
    ensures
        r.bytes@ == data@.subrange(offset as int, offset + 32),
{
    let mut bytes: [u8; 32] = [0; 32];
    let len: usize = data.len();
    let mut i: usize = 0;
    while i < 32
        invariant
            0 <= i <= 32,
            offset + 32 <= len == data@.len(),
            forall|j: int| 0 <= j < i ==> bytes@[j] == data@[offset + j],
        decreases 32 - i,
    {
        bytes[i] = data[offset + i];
        i = i + 1;
    }
    assert(bytes@ =~= data@.subrange(offset as int, offset + 32));
    Pubkey { bytes }
}

/// The account of the tip configuration changed: who receives tips at present.
///
/// The account holds a discriminator of eight bytes, then the receiver of tips,
/// then the block builder.
pub fn on_tip_config(data: &[u8]) -> (update: JitoUpdate)
    requires
        data@.len() >= BLOCK_BUILDER_OFFSET + 32,
    ensures
        match update {
            JitoUpdate::TipConfig(config) => {
                &&& config.tip_receiver.bytes@ == data@.subrange(8, 40)
                &&& config.block_builder.bytes@ == data@.subrange(40, 72)
            },
            _ => false,
        },
{
    JitoUpdate::TipConfig(
        TipConfig {
            tip_receiver: address_at(data, TIP_RECEIVER_OFFSET),
            block_builder: address_at(data, BLOCK_BUILDER_OFFSET),
        },
    )
}

/// Of the first `n` bundles that arrived, those that hold anything.
pub open spec fn bundle_updates(bundles: Seq<Option<Vec<Vec<u8>>>>, n: int) -> Seq<UpdateModel>
    decreases n,
{
    if n <= 0 {
        Seq::empty()
    } else {
        match bundles[n - 1] {
            Some(bundle) => if bundle@.len() == 0 {
                bundle_updates(bundles, n - 1)
            } else {
                bundle_updates(bundles, n - 1).push(UpdateModel::Bundle(packets(bundle@)))
            },
            None => bundle_updates(bundles, n - 1),
        }
    }
}

/// Whatever arrives, no empty bundle is passed on.
pub proof fn lemma_no_empty_bundle(bundles: Seq<Option<Vec<Vec<u8>>>>, n: int, i: int)
    requires
        0 <= n <= bundles.len(),
        0 <= i < bundle_updates(bundles, n).len(),
    ensures
        bundle_updates(bundles, n)[i] matches UpdateModel::Bundle(bundle) && bundle.len() > 0,
    decreases n,
{
    if n > 0 && i < bundle_updates(bundles, n - 1).len() {
        lemma_no_empty_bundle(bundles, n - 1, i);
    }
}

/// Bundles arrived: those that hold anything are passed on, in order.
///
/// No packet may be larger than a packet can be.
pub fn on_bundles(bundles: Vec<Option<Vec<Vec<u8>>>>) -> (updates: Vec<JitoUpdate>)
    requires
        forall|i: int, j: int|
            #![trigger bundles@[i]->0@[j]]
            0 <= i < bundles@.len() && bundles@[i] is Some && 0 <= j < bundles@[i]->0@.len()
                ==> bundles@[i]->0@[j]@.len() <= PACKET_DATA_SIZE,
    ensures
        updates@.map_values(|u: JitoUpdate| u@) == bundle_updates(
            bundles@,
            bundles@.len() as int,
        ),
{
    let ghost all = bundles@;
    let mut updates: Vec<JitoUpdate> = Vec::new();
    let ghost mut done: int = 0;
    assert(updates@.map_values(|u: JitoUpdate| u@) =~= bundle_updates(all, 0));
    for bundle in it: bundles
        invariant
            it.seq() == all,
            done == it.index(),
            updates@.map_values(|u: JitoUpdate| u@) == bundle_updates(all, done),
    {
        assert(bundle == all[done]);
        match bundle {
            Some(bundle) => {
                if bundle.len() > 0 {
                    let update = JitoUpdate::Bundle(bundle);
                    let ghost before = updates@;
                    updates.push(update);
                    assert(updates@.map_values(|u: JitoUpdate| u@) =~= before.map_values(
                        |u: JitoUpdate| u@,
                    ).push(update@));
                }
            },
            None => {},
        }
        proof {
            done = done + 1;
        }
    }
    updates
}

/// Packets arrived: each is passed on, in order.
pub fn on_packets(batch: Option<Vec<Vec<u8>>>) -> (updates: Vec<JitoUpdate>)
    ensures
        updates@.map_values(|u: JitoUpdate| u@) == match batch {
            Some(batch) => packets(batch@).map_values(|p: Seq<u8>| UpdateModel::Packet(p)),
            None => Seq::empty(),
        },
{
    let mut updates: Vec<JitoUpdate> = Vec::new();
    match batch {
        Some(batch) => {
            let ghost all = batch@;
            let ghost goal = packets(all).map_values(|p: Seq<u8>| UpdateModel::Packet(p));
            let ghost mut done: int = 0;
            for packet in it: batch
                invariant
                    it.seq() == all,
                    goal == packets(all).map_values(|p: Seq<u8>| UpdateModel::Packet(p)),
                    done == it.index(),
                    updates@.map_values(|u: JitoUpdate| u@) =~= goal.take(done),
            {
                assert(packet == all[done]);
                assert(goal[done] == UpdateModel::Packet(packet@));
                let update = JitoUpdate::Packet(packet);
                let ghost before = updates@;
                updates.push(update);
                proof {
                    assert(updates@.map_values(|u: JitoUpdate| u@) =~= before.map_values(
                        |u: JitoUpdate| u@,
                    ).push(update@));
                    assert(goal.take(done + 1) =~= goal.take(done).push(update@));
                    done = done + 1;
                }
            }
            assert(goal.take(goal.len() as int) =~= goal);
        },
        None => {
            assert(updates@.map_values(|u: JitoUpdate| u@) =~= Seq::empty());
        },
    }
    updates
}

/// The text of an address, in base 58.
pub uninterp spec fn address_text(address: Seq<u8>) -> Seq<char>;

/// The signature of a message under a key pair.
pub uninterp spec fn message_signature(keypair: Seq<u8>, message: Seq<char>) -> Option<Seq<u8>>;

/// `Display` of `solana_pubkey::Pubkey`: the text is a function of the address.
#[verifier::external_body]
pub(crate) fn write_address(address: &[u8; 32]) -> (text: String)
    ensures
        text@ == address_text(address@),
{
    Address::new_from_array(*address).to_string()
}

/// `Signer::sign_message` of a `Keypair`: the signature is a function of the key
/// pair and the message. Nothing comes of bytes that are no key pair.
#[verifier::external_body]
pub(crate) fn sign_text(keypair: &[u8; 64], message: &str) -> (r: Option<Vec<u8>>)
    ensures
        match r {
            Some(signature) => message_signature(keypair@, message@) == Some(signature@),
            None => message_signature(keypair@, message@) is None,
        },
{
    let keypair = Keypair::try_from(&keypair[..]).ok()?;
    Some(keypair.sign_message(message.as_bytes()).as_array().to_vec())
}

/// A challenge and the signature that answers it.
#[derive(Debug)]
pub struct SignedChallenge {
    pub challenge: String,
    pub signature: Vec<u8>,
}

/// The challenge as it is to be signed: the validator's address, a hyphen, and
/// what the block engine asked.
pub open spec fn challenge_text(address: Seq<char>, challenge: Seq<char>) -> Seq<char> {
    address + seq!['-'] + challenge
}

/// The challenge as it is to be signed.
pub fn format_challenge(address: &str, challenge: &str) -> (text: String)
    ensures
        text@ == challenge_text(address@, challenge@),
{
    proof {
        reveal_strlit("-");
        assert("-"@ =~= seq!['-']);
    }
    let mut text = String::from_str(address);
    text.append("-");
    text.append(challenge);
    text
}

/// Answers the challenge of the block engine, if the identity holds a key pair.
pub fn answer_challenge(identity: &Identity, challenge: &str) -> (r: Option<SignedChallenge>)
    ensures
        ({
            let text = challenge_text(address_text(identity.pubkey.bytes@), challenge@);
            match r {
                Some(signed) => signed.challenge@ == text && message_signature(
                    identity.keypair@,
                    text,
                ) == Some(signed.signature@),
                None => message_signature(identity.keypair@, text) is None,
            }
        }),
{
    let address = write_address(&identity.pubkey.bytes);
    let text = format_challenge(address.as_str(), challenge);
    match sign_text(&identity.keypair, text.as_str()) {
        Some(signature) => Some(SignedChallenge { challenge: text, signature }),
        None => None,
    }
}

/// A token that the block engine gave out.
#[derive(Debug)]
pub struct AuthToken {
    pub value: String,
    pub has_expiry: bool,
}

/// Why the tokens of the block engine cannot be used.
#[derive(Clone, Copy, Debug, PartialEq, Eq, Structural)]
pub enum AuthError {
    MissingAccessToken,
    MissingAccessExpiry,
    MissingRefreshToken,
    MissingRefreshExpiry,
}

/// What is wrong with a pair of tokens, if anything: both must be there and
/// expire.
pub open spec fn token_fault(access: Option<AuthToken>, refresh: Option<AuthToken>) -> Option<
    AuthError,
> {
    match access {
        None => Some(AuthError::MissingAccessToken),
        Some(access) => if !access.has_expiry {
            Some(AuthError::MissingAccessExpiry)
        } else {
            match refresh {
                None => Some(AuthError::MissingRefreshToken),
                Some(refresh) => if !refresh.has_expiry {
                    Some(AuthError::MissingRefreshExpiry)
                } else {
                    None
                },
            }
        },
    }
}

/// The access token, if both tokens can be used.
pub fn validate_tokens(access: Option<AuthToken>, refresh: Option<AuthToken>) -> (r: Result<
    AuthToken,
    AuthError,
>)
    ensures
        match r {
            Ok(token) => token_fault(access, refresh) is None && access == Some(token),
            Err(error) => token_fault(access, refresh) == Some(error),
        },
{
    let access = match access {
        Some(access) => access,
        None => {
            return Err(AuthError::MissingAccessToken);
        },
    };
    if !access.has_expiry {
        return Err(AuthError::MissingAccessExpiry);
    }
    match refresh {
        Some(refresh) => {
            if refresh.has_expiry {
                Ok(access)
            } else {
                Err(AuthError::MissingRefreshExpiry)
            }
        },
        None => Err(AuthError::MissingRefreshToken),
    }
}

/// What is said about a fault of the tokens.
pub fn auth_error_message(error: AuthError) -> (message: &'static str)
    ensures
        message@ == match error {
            AuthError::MissingAccessToken => "Missing access token"@,
            AuthError::MissingAccessExpiry => "Missing access expiry"@,
            AuthError::MissingRefreshToken => "Missing refresh token"@,
            AuthError::MissingRefreshExpiry => "Missing refresh expiry"@,
        },
{
    match error {
        AuthError::MissingAccessToken => "Missing access token",
        AuthError::MissingAccessExpiry => "Missing access expiry",
        AuthError::MissingRefreshToken => "Missing refresh token",
        AuthError::MissingRefreshExpiry => "Missing refresh expiry",
    }
}

/// The authorization that goes with each request.
pub fn authorization(token: &AuthToken) -> (text: String)
    ensures
        text@ == "Bearer "@ + token.value@,
{
    let mut text = String::from_str("Bearer ");
    text.append(token.value.as_str());
    text
}

/// Whether the block engine is reached over TLS: its address starts with
/// "https".
pub fn enable_tls(block_engine: &str) -> (r: bool)
    ensures
        r == seq!['h', 't', 't', 'p', 's'].is_prefix_of(block_engine@),
{
    let len: usize = block_engine.unicode_len();
    let r: bool = len >= 5 && block_engine.get_char(0) == 'h' && block_engine.get_char(1) == 't'
        && block_engine.get_char(2) == 't' && block_engine.get_char(3) == 'p'
        && block_engine.get_char(4) == 's';
    proof {
        let prefix = seq!['h', 't', 't', 'p', 's'];
        if r {
            assert(prefix =~= block_engine@.subrange(0, 5));
        }
        if prefix.is_prefix_of(block_engine@) {
            assert(block_engine@.subrange(0, 5) == prefix);
            assert(prefix[0] == block_engine@[0] && prefix[1] == block_engine@[1] && prefix[2]
                == block_engine@[2] && prefix[3] == block_engine@[3] && prefix[4]
                == block_engine@[4]);
        }
    }
    r
}

} // verus!
