//! State transitions: the record of one ledger state change, carrying
//! the serial numbers it consumes, the commitments and ciphertexts it
//! produces, and an identifier that is the Merkle root of those values
//! under the Pedersen hash.

use vstd::prelude::*;

use crate::bhp::{bytes_to_bits_le, hash_point, u32_le, BHPCRH};
use crate::field::Fp;

verus! {

/// The number of input records a transition consumes.
pub const NUM_INPUT_RECORDS: usize = 2;

/// The number of output records a transition produces.
pub const NUM_OUTPUT_RECORDS: usize = 2;

/// A balance of credits, in the smallest unit; negative when the
/// transition creates value for its caller.
#[derive(Clone, Copy, Debug, PartialEq, Eq, Structural, Hash)]
pub struct AleoAmount(pub i64);

/// An encrypted output record together with its commitment.
#[derive(Clone, Debug, PartialEq, Eq)]
pub struct RecordCiphertext {
    ciphertext: Vec<u8>,
    commitment: Fp,
}

impl RecordCiphertext {
    /// The commitment of this ciphertext.
    pub closed spec fn spec_commitment(self) -> Fp {
        self.commitment
    }

    /// The encrypted payload.
    pub closed spec fn spec_ciphertext(self) -> Seq<u8> {
        self.ciphertext@
    }

    /// Wraps an encrypted payload and its commitment.
    pub fn new(ciphertext: Vec<u8>, commitment: Fp) -> (r: RecordCiphertext)
        ensures
            r.spec_commitment() == commitment,
            r.spec_ciphertext() == ciphertext@,
    {
        RecordCiphertext { ciphertext, commitment }
    }

    /// The commitment of this ciphertext.
    pub fn commitment(&self) -> (r: Fp)
        ensures
            r == self.spec_commitment(),
    {
        self.commitment
    }
}

/// An event emitted by a transition.
#[derive(Clone, Debug, PartialEq, Eq)]
pub enum Event {
    /// An opaque application payload.
    Custom(Vec<u8>),
    /// The view key of the record at the given output index.
    RecordViewKey(u16, Vec<u8>),
}

/// The hash of one Merkle node: the two children's canonical bytes,
/// concatenated little-endian and hashed bit-wise.
pub open spec fn node_hash(crh: BHPCRH, left: int, right: int) -> int {
    hash_point(
        crh.bases_view(),
        crh.spec_window_size(),
        crh.spec_num_windows(),
        bytes_to_bits_le(u32_le(left) + u32_le(right)),
    ).0
}

/// The transition identifier: the root of the two-level Merkle tree
/// whose leaves are the two serial numbers and the two commitments.
pub open spec fn transition_id_of(crh: BHPCRH, sns: Seq<Fp>, cms: Seq<Fp>) -> int {
    node_hash(
        crh,
        node_hash(crh, sns[0]@, sns[1]@),
        node_hash(crh, cms[0]@, cms[1]@),
    )
}

/// The record of one state change.
#[derive(Clone, Debug, PartialEq, Eq)]
pub struct Transition {
    /// The ID of this transition.
    transition_id: Fp,
    /// The serial numbers of the input records.
    serial_numbers: Vec<Fp>,
    /// The commitments of the output records.
    commitments: Vec<Fp>,
    /// The ciphertexts of the output records.
    ciphertexts: Vec<RecordCiphertext>,
    /// The difference between the input and output record values.
    value_balance: AleoAmount,
    /// The events emitted from this transition.
    events: Vec<Event>,
    /// The proof attesting to the validity of this transition.
    proof_bytes: Vec<u8>,
}

impl Transition {
    /// The stored transition identifier.
    pub closed spec fn spec_transition_id(self) -> Fp {
        self.transition_id
    }

    /// The stored serial numbers.
    pub closed spec fn spec_serial_numbers(self) -> Seq<Fp> {
        self.serial_numbers@
    }

    /// The stored commitments.
    pub closed spec fn spec_commitments(self) -> Seq<Fp> {
        self.commitments@
    }

    /// The stored ciphertexts.
    pub closed spec fn spec_ciphertexts(self) -> Seq<RecordCiphertext> {
        self.ciphertexts@
    }

    /// The stored value balance.
    pub closed spec fn spec_value_balance(self) -> AleoAmount {
        self.value_balance
    }

    /// The stored events.
    pub closed spec fn spec_events(self) -> Seq<Event> {
        self.events@
    }

    /// The stored proof bytes.
    pub closed spec fn spec_proof(self) -> Seq<u8> {
        self.proof_bytes@
    }

    /// Whether the stored identifier is the Merkle root of the stored
    /// serial numbers and commitments under the given hash.
    pub open spec fn id_consistent(self, crh: BHPCRH) -> bool {
        &&& self.spec_serial_numbers().len() == NUM_INPUT_RECORDS
        &&& self.spec_commitments().len() == NUM_OUTPUT_RECORDS
        &&& self.spec_transition_id()@ == transition_id_of(
            crh,
            self.spec_serial_numbers(),
            self.spec_commitments(),
        )
    }

    /// Constructs a transition from its parts: the commitments are read
    /// off the ciphertexts, the identifier is recomputed from the leaves,
    /// and the claimed identifier must match it.
    pub fn from(
        crh: &BHPCRH,
        transition_id: Fp,
        serial_numbers: Vec<Fp>,
        ciphertexts: Vec<RecordCiphertext>,
        value_balance: AleoAmount,
        events: Vec<Event>,
        proof_bytes: Vec<u8>,
    ) -> (r: Option<Transition>)
        requires
            crh.wf(),
            crh.spec_window_size() * crh.spec_num_windows() >= 64,
            serial_numbers@.len() == NUM_INPUT_RECORDS,
            ciphertexts@.len() == NUM_OUTPUT_RECORDS,
        ensures
            r is Some <==> transition_id@ == transition_id_of(
                *crh,
                serial_numbers@,
                Seq::new(ciphertexts@.len(), |i: int| ciphertexts@[i].spec_commitment()),
            ),
            r matches Some(t) ==> {
                &&& t.spec_transition_id() == transition_id
                &&& t.spec_serial_numbers() == serial_numbers@
                &&& t.spec_ciphertexts() == ciphertexts@
                &&& t.spec_commitments() == Seq::new(
                    ciphertexts@.len(),
                    |i: int| ciphertexts@[i].spec_commitment(),
                )
                &&& t.spec_value_balance() == value_balance
                &&& t.spec_events() == events@
                &&& t.spec_proof() == proof_bytes@
                &&& t.id_consistent(*crh)
            },
    {
        let mut commitments: Vec<Fp> = Vec::new();
        commitments.push(ciphertexts[0].commitment());
        commitments.push(ciphertexts[1].commitment());
        proof {
            assert(commitments@ =~= Seq::new(
                ciphertexts@.len(),
                |i: int| ciphertexts@[i].spec_commitment(),
            ));
        }
        let computed = Self::compute_transition_id(crh, &serial_numbers, &commitments);
        if transition_id.eq_value(computed) {
            Some(
                Transition {
                    transition_id,
                    serial_numbers,
                    commitments,
                    ciphertexts,
                    value_balance,
                    events,
                    proof_bytes,
                },
            )
        } else {
            None
        }
    }

    /// The Merkle root of the transition tree over the given serial
    /// numbers and commitments.
    pub fn compute_transition_id(
        crh: &BHPCRH,
        serial_numbers: &Vec<Fp>,
        commitments: &Vec<Fp>,
    ) -> (r: Fp)
        requires
            crh.wf(),
            crh.spec_window_size() * crh.spec_num_windows() >= 64,
            serial_numbers@.len() == NUM_INPUT_RECORDS,
            commitments@.len() == NUM_OUTPUT_RECORDS,
        ensures
            r@ == transition_id_of(*crh, serial_numbers@, commitments@),
    {
        let left = hash_node(crh, serial_numbers[0], serial_numbers[1]);
        let right = hash_node(crh, commitments[0], commitments[1]);
        hash_node(crh, left, right)
    }

    /// Returns `true` if the given serial number exists.
    pub fn contains_serial_number(&self, serial_number: &Fp) -> (r: bool)
        ensures
            r <==> exists|i: int|
                0 <= i < self.spec_serial_numbers().len() && (#[trigger] self.spec_serial_numbers()[
                    i
                ])@ == serial_number@,
    {
        let mut i: usize = 0;
        while i < self.serial_numbers.len()
            invariant
                i <= self.spec_serial_numbers().len(),
                forall|q: int|
                    0 <= q < i ==> (#[trigger] self.spec_serial_numbers()[q])@ != serial_number@,
            decreases self.spec_serial_numbers().len() - i,
        {
            if self.serial_numbers[i].eq_value(*serial_number) {
                return true;
            }
            i = i + 1;
        }
        false
    }

    /// Returns `true` if the given commitment exists.
    pub fn contains_commitment(&self, commitment: &Fp) -> (r: bool)
        ensures
            r <==> exists|i: int|
                0 <= i < self.spec_commitments().len() && (#[trigger] self.spec_commitments()[i])@
                    == commitment@,
    {
        let mut i: usize = 0;
        while i < self.commitments.len()
            invariant
                i <= self.spec_commitments().len(),
                forall|q: int|
                    0 <= q < i ==> (#[trigger] self.spec_commitments()[q])@ != commitment@,
            decreases self.spec_commitments().len() - i,
        {
            if self.commitments[i].eq_value(*commitment) {
                return true;
            }
            i = i + 1;
        }
        false
    }

    /// Returns the transition ID.
    pub fn transition_id(&self) -> (r: Fp)
        ensures
            r == self.spec_transition_id(),
    {
        self.transition_id
    }

    /// Returns a reference to the serial numbers.
    pub fn serial_numbers(&self) -> (r: &Vec<Fp>)
        ensures
            r@ == self.spec_serial_numbers(),
    {
        &self.serial_numbers
    }

    /// Returns a reference to the commitments.
    pub fn commitments(&self) -> (r: &Vec<Fp>)
        ensures
            r@ == self.spec_commitments(),
    {
        &self.commitments
    }

    /// Returns a reference to the ciphertexts.
    pub fn ciphertexts(&self) -> (r: &Vec<RecordCiphertext>)
        ensures
            r@ == self.spec_ciphertexts(),
    {
        &self.ciphertexts
    }

    /// Returns a reference to the value balance.
    pub fn value_balance(&self) -> (r: &AleoAmount)
        ensures
            *r == self.spec_value_balance(),
    {
        &self.value_balance
    }

    /// Returns a reference to the events.
    pub fn events(&self) -> (r: &Vec<Event>)
        ensures
            r@ == self.spec_events(),
    {
        &self.events
    }

    /// Returns a reference to the transition proof.
    pub fn proof_bytes(&self) -> (r: &Vec<u8>)
        ensures
            r@ == self.spec_proof(),
    {
        &self.proof_bytes
    }
}

/// One Merkle node: hashes the concatenated canonical bytes of the two
/// children.
fn hash_node(crh: &BHPCRH, left: Fp, right: Fp) -> (r: Fp)
    requires
        crh.wf(),
        crh.spec_window_size() * crh.spec_num_windows() >= 64,
    ensures
        r@ == node_hash(*crh, left@, right@),
{
    let mut bytes: Vec<u8> = Vec::new();
    push_fp_bytes(&mut bytes, left);
    push_fp_bytes(&mut bytes, right);
    proof {
        assert(bytes@ =~= u32_le(left@) + u32_le(right@));
    }
    match crh.hash(&bytes) {
        Ok(v) => v,
        Err(_) => {
            proof {
                assert(false);
            }
            Fp::zero()
        },
    }
}

/// Appends the canonical little-endian bytes of a field element.
fn push_fp_bytes(out: &mut Vec<u8>, v: Fp)
    ensures
        final(out)@ == old(out)@ + u32_le(v@),
{
    let w = v.to_u32();
    out.push((w % 256) as u8);
    out.push((w / 256 % 256) as u8);
    out.push((w / 0x10000 % 256) as u8);
    out.push((w / 0x1000000 % 256) as u8);
    proof {
        assert(final(out)@ =~= old(out)@ + u32_le(v@));
    }
}

} // verus!
