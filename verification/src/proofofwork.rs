//! Proof of work: the search for a nonce that brings a block's hash under a
//! fixed target, and the check of such a nonce.

use crate::block::{transactions_digest, Block, BlockView};
use crate::codec::{append_bytes, encode_i64, le_bytes, write_i64, write_le};
use crate::utils::{compute_sha256, sha256};
use num_bigint::BigUint;
use vstd::arithmetic::power2::pow2;
use vstd::prelude::*;

verus! {

/// The difficulty: a block's hash must start with this many zero bits.
pub const TARGET_BITS: u16 = 16;

/// The last nonce that the search tries.
pub const MAX_NONCE: u32 = u32::MAX;

/// The number that a big-endian byte string stands for.
pub open spec fn big_endian_value(s: Seq<u8>) -> nat
    decreases s.len(),
{
    if s.len() == 0 {
        0
    } else {
        256 * big_endian_value(s.drop_last()) + s.last() as nat
    }
}

/// The four bytes of a 32-bit number, most significant first.
pub open spec fn be_bytes_u32(x: u32) -> Seq<u8> {
    seq![
        (x / 0x100_0000) as u8,
        ((x / 0x1_0000) % 0x100) as u8,
        ((x / 0x100) % 0x100) as u8,
        (x % 0x100) as u8,
    ]
}

/// The target: two to the power 256 less the difficulty.
pub open spec fn target_value() -> nat {
    pow2((256 - TARGET_BITS) as nat)
}

/// Whether a hash, read as a big-endian number, is under the target.
pub open spec fn meets_target(hash: Seq<u8>) -> bool {
    big_endian_value(hash) < target_value()
}

/// What is hashed for a nonce: the time stamp (little-endian), the digest of
/// the transactions, the previous block's hash, the difficulty (little-endian)
/// and the nonce (big-endian). The block's own `hash` and `nonce` are no part
/// of it.
pub open spec fn pow_data(block: BlockView, nonce: u32) -> Seq<u8> {
    encode_i64(block.time_stamp) + transactions_digest(block.transactions) + block.prev_block_hash
        + le_bytes(TARGET_BITS as nat, 2) + be_bytes_u32(nonce)
}

/// The block's hash for a nonce.
pub open spec fn pow_hash(block: BlockView, nonce: u32) -> Seq<u8> {
    sha256(pow_data(block, nonce))
}

/// Whether `nonce` brings the block's hash under the target.
pub open spec fn nonce_solves(block: BlockView, nonce: u32) -> bool {
    meets_target(pow_hash(block, nonce))
}

/// The big-endian bytes of `value` shifted left by `bits`.
///
/// Calls `BigUint::from`, `<<` and `BigUint::to_bytes_be` of `num_bigint`: the
/// bytes that come back stand for `value` times two to the power `bits`.
#[verifier::external_body]
fn shifted_left(value: u32, bits: usize) -> (bytes: Vec<u8>)
    requires
        bits <= 256,
    ensures
        big_endian_value(bytes@) == value * pow2(bits as nat),
{
    (BigUint::from(value) << bits).to_bytes_be()
}

/// Whether the number in `a` is less than the number in `b`, both big-endian.
///
/// Calls `BigUint::from_bytes_be` of `num_bigint` on each and compares the two
/// with `<`.
#[verifier::external_body]
fn big_endian_less(a: &[u8], b: &[u8]) -> (less: bool)
    ensures
        less == (big_endian_value(a@) < big_endian_value(b@)),
{
    BigUint::from_bytes_be(a) < BigUint::from_bytes_be(b)
}

/// A block together with the target that its hash is held against.
pub struct ProofOfWork<'a> {
    block: &'a Block,
    target: Vec<u8>,
}

impl<'a> ProofOfWork<'a> {
    #[verifier::type_invariant]
    spec fn holds_target(self) -> bool {
        big_endian_value(self.target@) == target_value()
    }

    /// The block that the proof is about.
    pub closed spec fn subject(self) -> BlockView {
        self.block@
    }

    /// The number that a hash must stay under.
    pub closed spec fn target(self) -> nat {
        big_endian_value(self.target@)
    }

    /// Binds the fixed target to `block`.
    pub fn new(block: &'a Block) -> (pow: Self)
        ensures
            pow.subject() == block@,
            pow.target() == target_value(),
    {
        let target = shifted_left(1, (256 - TARGET_BITS) as usize);
        ProofOfWork { block, target }
    }

    /// The bytes that are hashed for `nonce`.
    pub fn prepare_data(&self, nonce: u32) -> (data: Vec<u8>)
        ensures
            data@ == pow_data(self.subject(), nonce),
    {
        let mut data: Vec<u8> = Vec::new();
        write_i64(&mut data, self.block.time_stamp);
        let digest = self.block.hash_transaction();
        append_bytes(&mut data, digest.as_slice());
        append_bytes(&mut data, self.block.prev_block_hash.as_slice());
        write_le(&mut data, TARGET_BITS as u64, 2);
        data.push((nonce / 0x100_0000) as u8);
        data.push(((nonce / 0x1_0000) % 0x100) as u8);
        data.push(((nonce / 0x100) % 0x100) as u8);
        data.push((nonce % 0x100) as u8);
        assert(data@ =~= pow_data(self.subject(), nonce));
        data
    }

    /// Searches the nonces from zero upwards and returns the first whose hash
    /// is under the target, with that hash. Where the whole 32-bit space holds
    /// none, returns nonce zero with an empty hash.
    pub fn run(&self) -> (found: (u32, Vec<u8>))
        ensures
            found.1@.len() != 0 ==> {
                &&& found.1@.len() == 32
                &&& found.1@ == pow_hash(self.subject(), found.0)
                &&& meets_target(found.1@)
                &&& forall|m: u32| m < found.0 ==> !nonce_solves(self.subject(), m)
            },
            found.1@.len() == 0 ==> {
                &&& found.0 == 0
                &&& forall|m: u32| !nonce_solves(self.subject(), m)
            },
    {
        proof {
            use_type_invariant(self);
        }
        let mut nonce: u32 = 0;
        loop
            invariant
                big_endian_value(self.target@) == target_value(),
                forall|m: u32| m < nonce ==> !nonce_solves(self.subject(), m),
            decreases MAX_NONCE - nonce,
        {
            let data = self.prepare_data(nonce);
            let hash = compute_sha256(data.as_slice());
            if big_endian_less(hash.as_slice(), self.target.as_slice()) {
                return (nonce, hash);
            }
            if nonce == MAX_NONCE {
                return (0, Vec::new());
            }
            nonce += 1;
        }
    }

    /// Whether the nonce that the block carries brings its hash under the target.
    pub fn validate(&self) -> (valid: bool)
        ensures
            valid == nonce_solves(self.subject(), self.subject().nonce),
    {
        proof {
            use_type_invariant(self);
        }
        let data = self.prepare_data(self.block.nonce);
        let hash = compute_sha256(data.as_slice());
        big_endian_less(hash.as_slice(), self.target.as_slice())
    }
}

/// A mined block passes validation, and its hash, read as a big-endian
/// number, is under two to the power 256 less the difficulty.
pub proof fn lemma_mined_block_is_valid(block: BlockView)
    requires
        block.is_mined(),
    ensures
        nonce_solves(block, block.nonce),
        big_endian_value(block.hash) < pow2((256 - TARGET_BITS) as nat),
{
}

} // verus!
