//! Decoding the raw proof document into the data model.
//!
//! The raw types mirror a JSON-like document after its container
//! syntax is gone: every required key may still be absent, and numeric
//! fields may arrive as text. All decisions — missing keys, tolerant
//! number decoding, hex validation — are made here.

use vstd::prelude::*;
use crate::bytes::be_nat;
use crate::field::prime;
use crate::field::mod_p;
use crate::hexfmt::hex_body;
use crate::hexfmt::hex_nat;
use crate::hexfmt::is_valid_hex_value;
use crate::hexfmt::is_hex_digit;
use crate::hexfmt::bytes_of_hex;
use crate::hexfmt::parse_hex_value;
use crate::hexfmt::parse_proof_words;
use crate::model::AnnotatedProof;
use crate::model::CodecError;
use crate::model::FieldName;
use crate::model::FriParameters;
use crate::model::MemoryCell;
use crate::model::ProofParameters;
use crate::model::PublicInput;
use crate::model::Segment;

verus! {

/// A number that arrived either as a JSON number or as decimal text.
pub enum RawNum {
    Num(u64),
    Text(Vec<u8>),
}

/// A memory cell as decoded from the document, keys possibly absent.
pub struct RawMemoryCell {
    pub page: Option<u64>,
    pub address: Option<RawNum>,
    pub value: Option<Vec<u8>>,
}

/// A memory segment entry as decoded from the document.
pub struct RawSegment {
    pub name: Vec<u8>,
    pub begin: Option<u64>,
    pub end: Option<u64>,
}

/// The public-input object as decoded from the document.
pub struct RawPublicInput {
    pub n_steps: Option<u64>,
    pub rc_min: Option<u64>,
    pub rc_max: Option<u64>,
    pub layout: Option<Vec<u8>>,
    pub segments: Option<Vec<RawSegment>>,
    pub public_memory: Option<Vec<RawMemoryCell>>,
}

/// The FRI parameter object as decoded from the document.
pub struct RawFriParameters {
    pub n_queries: Option<u64>,
    pub proof_of_work_bits: Option<u64>,
    pub last_layer_degree_bound: Option<u64>,
    pub fri_step_list: Option<Vec<u64>>,
}

/// The proof-parameter object as decoded from the document.
pub struct RawProofParameters {
    pub coset_log_count: Option<u64>,
    pub fri: Option<RawFriParameters>,
    pub verifier_friendly_commitment_layers: Option<u64>,
}

/// The whole annotated-proof document as decoded, keys possibly
/// absent.
pub struct RawAnnotatedProof {
    pub annotations: Option<Vec<Vec<u8>>>,
    pub proof_hex: Option<Vec<u8>>,
    pub public_input: Option<RawPublicInput>,
    pub proof_parameters: Option<RawProofParameters>,
}

/// ASCII decimal digit.
pub open spec fn is_dec_digit(c: u8) -> bool {
    0x30 <= c <= 0x39
}

/// The integer a decimal digit string stands for.
pub open spec fn dec_nat(s: Seq<u8>) -> nat
    decreases s.len(),
{
    if s.len() == 0 {
        0
    } else {
        (dec_nat(s.drop_last()) * 10 + (s.last() - 0x30)) as nat
    }
}

/// A digit prefix never stands for more than the whole string.
proof fn lemma_dec_nat_prefix(s: Seq<u8>, i: int)
    requires
        0 <= i <= s.len(),
        forall|j: int| 0 <= j < s.len() ==> is_dec_digit(s[j]),
    ensures
        dec_nat(s.take(i)) <= dec_nat(s),
    decreases s.len(),
{
    if i < s.len() {
        assert(s.drop_last().take(i) =~= s.take(i));
        lemma_dec_nat_prefix(s.drop_last(), i);
        assert(dec_nat(s) == dec_nat(s.drop_last()) * 10 + (s.last() - 0x30));
        assert(dec_nat(s.drop_last()) * 10 >= dec_nat(s.drop_last()) * 1) by (nonlinear_arith);
    } else {
        assert(s.take(i) =~= s);
    }
}

/// Parse unsigned decimal text.
pub fn parse_dec_u64(s: &Vec<u8>) -> (r: Option<u64>)
    ensures
        r is Some <==> (s@.len() > 0 && dec_nat(s@) <= u64::MAX && forall|i: int|
            0 <= i < s@.len() ==> is_dec_digit(s@[i])),
        r is Some ==> r->0 == dec_nat(s@),
{
    if s.len() == 0 {
        return None;
    }
    let mut v: u64 = 0;
    let mut i: usize = 0;
    while i < s.len()
        invariant
            i <= s@.len(),
            forall|j: int| 0 <= j < i ==> is_dec_digit(s@[j]),
            v == dec_nat(s@.take(i as int)),
        decreases s@.len() - i,
    {
        let c = s[i];
        if !(0x30 <= c && c <= 0x39) {
            return None;
        }
        let d = (c - 0x30) as u64;
        let next = match v.checked_mul(10) {
            Some(t) => t.checked_add(d),
            None => None,
        };
        v = match next {
            Some(n) => n,
            None => {
                proof {
                    assert(s@.take(i + 1).drop_last() =~= s@.take(i as int));
                    assert(dec_nat(s@.take(i + 1)) > u64::MAX);
                    if forall|j: int| 0 <= j < s@.len() ==> is_dec_digit(s@[j]) {
                        lemma_dec_nat_prefix(s@, i + 1);
                    }
                }
                return None;
            },
        };
        proof {
            assert(s@.take(i + 1).drop_last() =~= s@.take(i as int));
        }
        i = i + 1;
    }
    proof {
        assert(s@.take(s@.len() as int) =~= s@);
    }
    Some(v)
}

/// What a raw number decodes to, when it does.
pub open spec fn raw_num_ok(a: RawNum) -> bool {
    match a {
        RawNum::Num(_) => true,
        RawNum::Text(s) => s@.len() > 0 && dec_nat(s@) <= u64::MAX && forall|i: int|
            0 <= i < s@.len() ==> is_dec_digit(s@[i]),
    }
}

pub open spec fn raw_num_val(a: RawNum) -> nat {
    match a {
        RawNum::Num(n) => n as nat,
        RawNum::Text(s) => dec_nat(s@),
    }
}

/// Decode a number that may have arrived as decimal text.
pub fn decode_raw_num(a: &RawNum, field: FieldName) -> (r: Result<u64, CodecError>)
    ensures
        r is Ok <==> raw_num_ok(*a),
        r is Ok ==> r->Ok_0 == raw_num_val(*a),
        r is Err ==> r->Err_0 == CodecError::MalformedInput(field),
{
    match a {
        RawNum::Num(n) => Ok(*n),
        RawNum::Text(s) => match parse_dec_u64(s) {
            Some(v) => Ok(v),
            None => Err(CodecError::MalformedInput(field)),
        },
    }
}

/// When a raw cell decodes.
pub open spec fn raw_cell_ok(c: RawMemoryCell) -> bool {
    &&& c.page is Some
    &&& c.address is Some
    &&& raw_num_ok(c.address->0)
    &&& raw_num_val(c.address->0) <= u64::MAX
    &&& c.value is Some
    &&& is_valid_hex_value(c.value->0@)
}

/// What a raw cell decodes to.
pub open spec fn cell_matches(c: RawMemoryCell, m: MemoryCell) -> bool {
    &&& m.page == c.page->0
    &&& m.address == raw_num_val(c.address->0)
    &&& m.wf()
    &&& be_nat(m.value@) == hex_nat(hex_body(c.value->0@)) % prime()
}

/// Decode one memory cell; the value is reduced into the field.
pub fn parse_cell(c: &RawMemoryCell) -> (r: Result<MemoryCell, CodecError>)
    ensures
        r is Ok <==> raw_cell_ok(*c),
        r is Ok ==> cell_matches(*c, r->Ok_0),
{
    let page = match &c.page {
        Some(p) => *p,
        None => {
            return Err(CodecError::MalformedInput(FieldName::Page));
        },
    };
    let address = match &c.address {
        Some(a) => match decode_raw_num(a, FieldName::Address) {
            Ok(v) => v,
            Err(e) => {
                return Err(e);
            },
        },
        None => {
            return Err(CodecError::MalformedInput(FieldName::Address));
        },
    };
    let word = match &c.value {
        Some(v) => match parse_hex_value(v) {
            Some(w) => w,
            None => {
                return Err(CodecError::MalformedInput(FieldName::Value));
            },
        },
        None => {
            return Err(CodecError::MalformedInput(FieldName::Value));
        },
    };
    let value = mod_p(&word);
    Ok(MemoryCell { page, address, value })
}

/// When a raw segment decodes.
pub open spec fn raw_segment_ok(s: RawSegment) -> bool {
    s.begin is Some && s.end is Some
}

pub open spec fn segment_matches(r: RawSegment, s: Segment) -> bool {
    s.name@ == r.name@ && s.begin == r.begin->0 && s.end == r.end->0
}

/// Decode one segment entry.
pub fn parse_segment(s: &RawSegment) -> (r: Result<Segment, CodecError>)
    ensures
        r is Ok <==> raw_segment_ok(*s),
        r is Ok ==> segment_matches(*s, r->Ok_0),
{
    let begin = match &s.begin {
        Some(b) => *b,
        None => {
            return Err(CodecError::MalformedInput(FieldName::SegmentRange));
        },
    };
    let end = match &s.end {
        Some(e) => *e,
        None => {
            return Err(CodecError::MalformedInput(FieldName::SegmentRange));
        },
    };
    let mut name: Vec<u8> = Vec::new();
    let mut i: usize = 0;
    while i < s.name.len()
        invariant
            i <= s.name@.len(),
            name@ =~= s.name@.take(i as int),
        decreases s.name@.len() - i,
    {
        name.push(s.name[i]);
        proof {
            assert(name@ =~= s.name@.take(i + 1));
        }
        i = i + 1;
    }
    proof {
        assert(name@ =~= s.name@);
    }
    Ok(Segment { name, begin, end })
}

/// When the raw public input decodes.
pub open spec fn raw_public_input_ok(p: RawPublicInput) -> bool {
    &&& p.n_steps is Some
    &&& p.rc_min is Some
    &&& p.rc_max is Some
    &&& p.layout is Some
    &&& p.layout->0@.len() <= 32
    &&& p.segments is Some
    &&& forall|i: int|
        0 <= i < p.segments->0@.len() ==> raw_segment_ok(#[trigger] p.segments->0@[i])
    &&& p.public_memory is Some
    &&& p.public_memory->0@.len() >= 1
    &&& forall|i: int|
        0 <= i < p.public_memory->0@.len() ==> raw_cell_ok(#[trigger] p.public_memory->0@[i])
}

pub open spec fn public_input_matches(r: RawPublicInput, p: PublicInput) -> bool {
    &&& p.n_steps == r.n_steps->0
    &&& p.rc_min == r.rc_min->0
    &&& p.rc_max == r.rc_max->0
    &&& p.layout@ == r.layout->0@
    &&& p.segments@.len() == r.segments->0@.len()
    &&& forall|i: int|
        0 <= i < p.segments@.len() ==> segment_matches(
            r.segments->0@[i],
            #[trigger] p.segments@[i],
        )
    &&& p.public_memory@.len() == r.public_memory->0@.len()
    &&& forall|i: int|
        0 <= i < p.public_memory@.len() ==> cell_matches(
            r.public_memory->0@[i],
            #[trigger] p.public_memory@[i],
        )
}

/// Decode the public input; fails fast on any missing or bad field.
pub fn parse_public_input(p: &RawPublicInput) -> (r: Result<PublicInput, CodecError>)
    ensures
        r is Ok <==> raw_public_input_ok(*p),
        r is Ok ==> r->Ok_0.wf() && public_input_matches(*p, r->Ok_0),
{
    let n_steps = match &p.n_steps {
        Some(v) => *v,
        None => {
            return Err(CodecError::MalformedInput(FieldName::NSteps));
        },
    };
    let rc_min = match &p.rc_min {
        Some(v) => *v,
        None => {
            return Err(CodecError::MalformedInput(FieldName::RcMin));
        },
    };
    let rc_max = match &p.rc_max {
        Some(v) => *v,
        None => {
            return Err(CodecError::MalformedInput(FieldName::RcMax));
        },
    };
    let layout = match &p.layout {
        Some(v) => {
            if v.len() > 32 {
                return Err(CodecError::MalformedInput(FieldName::Layout));
            }
            let mut l: Vec<u8> = Vec::new();
            let mut i: usize = 0;
            while i < v.len()
                invariant
                    i <= v@.len(),
                    l@ =~= v@.take(i as int),
                decreases v@.len() - i,
            {
                l.push(v[i]);
                proof {
                    assert(l@ =~= v@.take(i + 1));
                }
                i = i + 1;
            }
            proof {
                assert(l@ =~= v@);
            }
            l
        },
        None => {
            return Err(CodecError::MalformedInput(FieldName::Layout));
        },
    };
    let raw_segments = match &p.segments {
        Some(v) => v,
        None => {
            return Err(CodecError::MalformedInput(FieldName::Segments));
        },
    };
    let mut segments: Vec<Segment> = Vec::new();
    let mut i: usize = 0;
    while i < raw_segments.len()
        invariant
            p.segments is Some,
            raw_segments@ == p.segments->0@,
            i <= raw_segments@.len(),
            segments@.len() == i,
            forall|j: int| 0 <= j < i ==> raw_segment_ok(#[trigger] raw_segments@[j]),
            forall|j: int|
                0 <= j < i ==> segment_matches(raw_segments@[j], #[trigger] segments@[j]),
        decreases raw_segments@.len() - i,
    {
        match parse_segment(&raw_segments[i]) {
            Ok(s) => segments.push(s),
            Err(e) => {
                proof {
                    assert(!raw_segment_ok(raw_segments@[i as int]));
                }
                return Err(e);
            },
        }
        i = i + 1;
    }
    let raw_cells = match &p.public_memory {
        Some(v) => v,
        None => {
            return Err(CodecError::MalformedInput(FieldName::PublicMemory));
        },
    };
    if raw_cells.len() == 0 {
        return Err(CodecError::MalformedInput(FieldName::PublicMemory));
    }
    let mut public_memory: Vec<MemoryCell> = Vec::new();
    let mut k: usize = 0;
    while k < raw_cells.len()
        invariant
            p.public_memory is Some,
            raw_cells@ == p.public_memory->0@,
            k <= raw_cells@.len(),
            public_memory@.len() == k,
            forall|j: int| 0 <= j < k ==> raw_cell_ok(#[trigger] raw_cells@[j]),
            forall|j: int|
                0 <= j < k ==> cell_matches(raw_cells@[j], #[trigger] public_memory@[j]),
        decreases raw_cells@.len() - k,
    {
        match parse_cell(&raw_cells[k]) {
            Ok(c) => public_memory.push(c),
            Err(e) => {
                proof {
                    assert(!raw_cell_ok(raw_cells@[k as int]));
                }
                return Err(e);
            },
        }
        k = k + 1;
    }
    Ok(PublicInput { n_steps, rc_min, rc_max, layout, segments, public_memory })
}

/// When the raw FRI parameters decode.
pub open spec fn raw_fri_ok(f: RawFriParameters) -> bool {
    &&& f.n_queries is Some
    &&& f.proof_of_work_bits is Some
    &&& f.last_layer_degree_bound is Some
    &&& f.fri_step_list is Some
}

pub open spec fn fri_matches(r: RawFriParameters, f: FriParameters) -> bool {
    &&& f.n_queries == r.n_queries->0
    &&& f.proof_of_work_bits == r.proof_of_work_bits->0
    &&& f.last_layer_degree_bound == r.last_layer_degree_bound->0
    &&& f.fri_step_list@ == r.fri_step_list->0@
}

/// Decode the FRI parameters.
pub fn parse_fri(f: &RawFriParameters) -> (r: Result<FriParameters, CodecError>)
    ensures
        r is Ok <==> raw_fri_ok(*f),
        r is Ok ==> fri_matches(*f, r->Ok_0),
{
    let n_queries = match &f.n_queries {
        Some(v) => *v,
        None => {
            return Err(CodecError::MalformedInput(FieldName::NQueries));
        },
    };
    let proof_of_work_bits = match &f.proof_of_work_bits {
        Some(v) => *v,
        None => {
            return Err(CodecError::MalformedInput(FieldName::ProofOfWorkBits));
        },
    };
    let last_layer_degree_bound = match &f.last_layer_degree_bound {
        Some(v) => *v,
        None => {
            return Err(CodecError::MalformedInput(FieldName::LastLayerDegreeBound));
        },
    };
    let steps = match &f.fri_step_list {
        Some(v) => v,
        None => {
            return Err(CodecError::MalformedInput(FieldName::FriStepList));
        },
    };
    let mut fri_step_list: Vec<u64> = Vec::new();
    let mut i: usize = 0;
    while i < steps.len()
        invariant
            i <= steps@.len(),
            fri_step_list@ =~= steps@.take(i as int),
        decreases steps@.len() - i,
    {
        fri_step_list.push(steps[i]);
        proof {
            assert(fri_step_list@ =~= steps@.take(i + 1));
        }
        i = i + 1;
    }
    proof {
        assert(fri_step_list@ =~= steps@);
    }
    Ok(FriParameters { n_queries, proof_of_work_bits, last_layer_degree_bound, fri_step_list })
}

/// When the raw proof parameters decode.
pub open spec fn raw_params_ok(p: RawProofParameters) -> bool {
    &&& p.coset_log_count is Some
    &&& p.fri is Some
    &&& raw_fri_ok(p.fri->0)
}

pub open spec fn params_match(r: RawProofParameters, p: ProofParameters) -> bool {
    &&& p.coset_log_count == r.coset_log_count->0
    &&& fri_matches(r.fri->0, p.fri)
    &&& p.verifier_friendly_commitment_layers == r.verifier_friendly_commitment_layers
}

/// Decode the proof parameters.
pub fn parse_proof_parameters(p: &RawProofParameters) -> (r: Result<ProofParameters, CodecError>)
    ensures
        r is Ok <==> raw_params_ok(*p),
        r is Ok ==> params_match(*p, r->Ok_0),
{
    let coset_log_count = match &p.coset_log_count {
        Some(v) => *v,
        None => {
            return Err(CodecError::MalformedInput(FieldName::CosetLogCount));
        },
    };
    let fri = match &p.fri {
        Some(f) => match parse_fri(f) {
            Ok(f) => f,
            Err(e) => {
                return Err(e);
            },
        },
        None => {
            return Err(CodecError::MalformedInput(FieldName::Fri));
        },
    };
    let verifier_friendly_commitment_layers = match &p.verifier_friendly_commitment_layers {
        Some(v) => Some(*v),
        None => None,
    };
    Ok(ProofParameters { coset_log_count, fri, verifier_friendly_commitment_layers })
}

/// When the whole raw document decodes.
pub open spec fn raw_proof_ok(d: RawAnnotatedProof) -> bool {
    &&& d.annotations is Some
    &&& d.proof_hex is Some
    &&& hex_body(d.proof_hex->0@).len() % 2 == 0
    &&& (forall|i: int|
        0 <= i < hex_body(d.proof_hex->0@).len() ==> is_hex_digit(hex_body(d.proof_hex->0@)[i]))
    &&& d.public_input is Some
    &&& raw_public_input_ok(d.public_input->0)
    &&& d.proof_parameters is Some
    &&& raw_params_ok(d.proof_parameters->0)
}

pub open spec fn proof_matches(r: RawAnnotatedProof, a: AnnotatedProof) -> bool {
    &&& a.annotations@.len() == r.annotations->0@.len()
    &&& forall|i: int|
        0 <= i < a.annotations@.len() ==> (#[trigger] a.annotations@[i])@
            == r.annotations->0@[i]@
    &&& a.proof@.len() == (bytes_of_hex(hex_body(r.proof_hex->0@)).len() + 31) / 32
    &&& forall|i: int, j: int|
        0 <= i < a.proof@.len() && 0 <= j < 32 ==> (#[trigger] a.proof@[i]@[j]) == (if 32 * i + j
            < bytes_of_hex(hex_body(r.proof_hex->0@)).len() {
            bytes_of_hex(hex_body(r.proof_hex->0@))[32 * i + j]
        } else {
            0u8
        })
    &&& public_input_matches(r.public_input->0, a.public_input)
    &&& params_match(r.proof_parameters->0, a.proof_parameters)
}

/// Decode the whole document. A proof payload whose digit count is odd
/// is rejected here, before any padding happens.
pub fn parse_annotated_proof(d: RawAnnotatedProof) -> (r: Result<AnnotatedProof, CodecError>)
    ensures
        r is Ok <==> raw_proof_ok(d),
        r is Ok ==> r->Ok_0.wf() && proof_matches(d, r->Ok_0),
{
    let annotations = match d.annotations {
        Some(a) => a,
        None => {
            return Err(CodecError::MalformedInput(FieldName::Annotations));
        },
    };
    let proof = match &d.proof_hex {
        Some(h) => match parse_proof_words(h) {
            Some(ws) => ws,
            None => {
                return Err(CodecError::MalformedInput(FieldName::ProofHex));
            },
        },
        None => {
            return Err(CodecError::MalformedInput(FieldName::ProofHex));
        },
    };
    let public_input = match &d.public_input {
        Some(p) => match parse_public_input(p) {
            Ok(p) => p,
            Err(e) => {
                return Err(e);
            },
        },
        None => {
            return Err(CodecError::MalformedInput(FieldName::PublicInput));
        },
    };
    let proof_parameters = match &d.proof_parameters {
        Some(p) => match parse_proof_parameters(p) {
            Ok(p) => p,
            Err(e) => {
                return Err(e);
            },
        },
        None => {
            return Err(CodecError::MalformedInput(FieldName::ProofParameters));
        },
    };
    Ok(AnnotatedProof { annotations, proof, public_input, proof_parameters })
}

} // verus!
