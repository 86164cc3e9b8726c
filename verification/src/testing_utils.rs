//! Builders for the signed messages of the transaction flow, with a payload
//! that carries nothing. They make small message graphs easy to write down.

use std::collections::hash_map::DefaultHasher;
use std::hash::Hasher;
use vstd::bytes::{spec_u64_to_le_bytes, u64_to_le_bytes};
use vstd::prelude::*;
use vstd::std_specs::hash::*;

verus! {

/// A payload without content. It always verifies.
pub struct FakePayload {}

impl FakePayload {
    /// Checks the payload; there is nothing in it that could be wrong.
    pub fn verify(&self) -> (result: Result<(), &'static str>)
        ensures
            result is Ok,
    {
        Ok(())
    }
}

/// The approval of a representative message of some epoch.
pub struct Endorsement {
    pub epoch: u64,
    pub signature: u128,
}

/// What a participant says in one message, before it is signed.
pub struct MessageDataBody<P> {
    /// The participant who wrote the message.
    pub owner_uid: u64,
    /// The hashes of the messages that this one builds on.
    pub parents: Vec<u64>,
    pub epoch: u64,
    pub payload: P,
    pub endorsements: Vec<Endorsement>,
}

/// A message body with its hash and its owner's signature.
pub struct SignedMessageData<P> {
    /// Signature of the hash.
    pub owner_sig: u128,
    /// Hash of the body.
    pub hash: u64,
    pub body: MessageDataBody<P>,
}

/// The hashes of a list of messages, in the same order.
pub open spec fn message_hashes(messages: Seq<&SignedMessageData<FakePayload>>) -> Seq<u64> {
    messages.map_values(|m: &SignedMessageData<FakePayload>| m.hash)
}

/// The byte strings that the hash of a body is computed from: the owner,
/// then each parent hash, then the epoch, each as eight little-endian
/// bytes.
pub open spec fn body_bytes(owner_uid: u64, parents: Seq<u64>, epoch: u64) -> Seq<Seq<u8>> {
    seq![spec_u64_to_le_bytes(owner_uid)] + parents.map_values(
        |h: u64| spec_u64_to_le_bytes(h),
    ) + seq![spec_u64_to_le_bytes(epoch)]
}

/// The hash of a body: what the standard hasher makes of `body_bytes`.
pub open spec fn body_hash(owner_uid: u64, parents: Seq<u64>, epoch: u64) -> u64 {
    DefaultHasher::spec_finish(body_bytes(owner_uid, parents, epoch))
}

/// Builds the message of `owner_uid` for `epoch` on top of the messages
/// with the given hashes, with an empty payload, no endorsements and a
/// zero signature.
pub fn bare_message_on(owner_uid: u64, epoch: u64, parent_hashes: Vec<u64>) -> (message:
    SignedMessageData<FakePayload>)
    ensures
        message.owner_sig == 0,
        message.body.owner_uid == owner_uid,
        message.body.epoch == epoch,
        message.body.parents@ == parent_hashes@,
        message.body.endorsements@.len() == 0,
        message.hash == body_hash(owner_uid, parent_hashes@, epoch),
{
    let mut hasher = DefaultHasher::new();
    let owner_bytes = u64_to_le_bytes(owner_uid);
    hasher.write(owner_bytes.as_slice());
    let mut i: usize = 0;
    while i < parent_hashes.len()
        invariant
            0 <= i <= parent_hashes.len(),
            hasher@ == seq![spec_u64_to_le_bytes(owner_uid)] + parent_hashes@.take(
                i as int,
            ).map_values(|h: u64| spec_u64_to_le_bytes(h)),
        decreases parent_hashes.len() - i,
    {
        let parent_bytes = u64_to_le_bytes(parent_hashes[i]);
        hasher.write(parent_bytes.as_slice());
        proof {
            assert(parent_hashes@.take(i + 1) =~= parent_hashes@.take(i as int).push(
                parent_hashes@[i as int],
            ));
            assert(hasher@ =~= seq![spec_u64_to_le_bytes(owner_uid)] + parent_hashes@.take(
                i + 1,
            ).map_values(|h: u64| spec_u64_to_le_bytes(h)));
        }
        i = i + 1;
    }
    let epoch_bytes = u64_to_le_bytes(epoch);
    hasher.write(epoch_bytes.as_slice());
    let hash = hasher.finish();
    proof {
        assert(parent_hashes@.take(i as int) =~= parent_hashes@);
        assert(hasher@ =~= body_bytes(owner_uid, parent_hashes@, epoch));
    }
    SignedMessageData {
        owner_sig: 0,
        hash,
        body: MessageDataBody {
            owner_uid,
            parents: parent_hashes,
            epoch,
            payload: FakePayload {  },
            endorsements: Vec::new(),
        },
    }
}

/// Builds the message of `owner_uid` for `epoch` on top of `parents`,
/// with an empty payload, no endorsements and a zero signature.
pub fn simple_bare_message(
    owner_uid: u64,
    epoch: u64,
    parents: Vec<&SignedMessageData<FakePayload>>,
) -> (message: SignedMessageData<FakePayload>)
    ensures
        message.owner_sig == 0,
        message.body.owner_uid == owner_uid,
        message.body.epoch == epoch,
        message.body.parents@ == message_hashes(parents@),
        message.body.endorsements@.len() == 0,
        message.hash == body_hash(owner_uid, message_hashes(parents@), epoch),
{
    let mut parent_hashes: Vec<u64> = Vec::new();
    let mut i: usize = 0;
    while i < parents.len()
        invariant
            0 <= i <= parents.len(),
            parent_hashes@ == message_hashes(parents@).take(i as int),
        decreases parents.len() - i,
    {
        parent_hashes.push(parents[i].hash);
        assert(parent_hashes@ =~= message_hashes(parents@).take(i + 1));
        i = i + 1;
    }
    assert(parent_hashes@ =~= message_hashes(parents@));
    bare_message_on(owner_uid, epoch, parent_hashes)
}

} // verus!
