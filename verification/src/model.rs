//! The codec's data model: the decoded proof document and the errors
//! that reject one.

use vstd::prelude::*;
use crate::bytes::be_nat;
use crate::field::prime;

verus! {

/// The field a bad document is rejected for.
#[derive(Clone, Copy, Debug, PartialEq, Eq, Structural)]
pub enum FieldName {
    Annotations,
    ProofHex,
    PublicInput,
    NSteps,
    RcMin,
    RcMax,
    Layout,
    Segments,
    SegmentRange,
    PublicMemory,
    Page,
    Address,
    Value,
    ProofParameters,
    Fri,
    NQueries,
    ProofOfWorkBits,
    LastLayerDegreeBound,
    FriStepList,
    CosetLogCount,
    Output,
}

/// Why the codec produced no output.
#[derive(Clone, Copy, Debug, PartialEq, Eq, Structural)]
pub enum CodecError {
    /// A required field is missing or cannot be decoded.
    MalformedInput(FieldName),
    /// A derived value broke a bound the protocol fixes: a challenge
    /// that never came under its bound, a page range that does not fit
    /// addressable memory, or replayed challenges that contradict the
    /// proof's own transcript.
    ArithmeticInconsistency,
}

/// A 32-byte word holding a canonical field element.
pub open spec fn is_felt(v: Seq<u8>) -> bool {
    v.len() == 32 && be_nat(v) < prime()
}

/// One public memory cell.
#[derive(Debug)]
pub struct MemoryCell {
    pub page: u64,
    pub address: u64,
    /// A field element as a 32-byte word.
    pub value: Vec<u8>,
}

impl MemoryCell {
    pub open spec fn wf(&self) -> bool {
        is_felt(self.value@)
    }
}

/// A named memory segment with its address range.
#[derive(Debug)]
pub struct Segment {
    pub name: Vec<u8>,
    pub begin: u64,
    pub end: u64,
}

/// The proof's public input.
#[derive(Debug)]
pub struct PublicInput {
    pub n_steps: u64,
    pub rc_min: u64,
    pub rc_max: u64,
    /// Short ASCII layout tag, read downstream as a big-endian number.
    pub layout: Vec<u8>,
    pub segments: Vec<Segment>,
    pub public_memory: Vec<MemoryCell>,
}

impl PublicInput {
    pub open spec fn wf(&self) -> bool {
        &&& self.layout@.len() <= 32
        &&& self.public_memory@.len() >= 1
        &&& forall|i: int|
            0 <= i < self.public_memory@.len() ==> (#[trigger] self.public_memory@[i]).wf()
    }
}

/// FRI parameters of the proof.
#[derive(Debug)]
pub struct FriParameters {
    pub n_queries: u64,
    pub proof_of_work_bits: u64,
    pub last_layer_degree_bound: u64,
    pub fri_step_list: Vec<u64>,
}

/// Prover parameters the verifier is told about.
#[derive(Debug)]
pub struct ProofParameters {
    pub coset_log_count: u64,
    pub fri: FriParameters,
    pub verifier_friendly_commitment_layers: Option<u64>,
}

/// A fully decoded annotated proof.
#[derive(Debug)]
pub struct AnnotatedProof {
    /// Transcript log lines, in order.
    pub annotations: Vec<Vec<u8>>,
    /// The proof payload as 32-byte words.
    pub proof: Vec<Vec<u8>>,
    pub public_input: PublicInput,
    pub proof_parameters: ProofParameters,
}

impl AnnotatedProof {
    pub open spec fn wf(&self) -> bool {
        &&& self.public_input.wf()
        &&& forall|i: int| 0 <= i < self.proof@.len() ==> (#[trigger] self.proof@[i])@.len() == 32
    }
}

/// One recursive task's fact topology, from the optional side-channel
/// document.
#[derive(Debug)]
pub struct FactTopology {
    /// Flat sequence of pairs.
    pub tree_structure: Vec<u64>,
    pub page_sizes: Vec<u64>,
}

} // verus!
