//! The public-input assembler: the verifier's input vector in its
//! exact order, first without the permutation products (that prefix
//! is hashed to seed the transcript), the products appended once the
//! challenges are known.

use vstd::prelude::*;
use crate::bytes::be_nat;
use crate::bytes::be_bytes;
use crate::bytes::bytes_eq;
use crate::bytes::copy_bytes;
use crate::bytes::u64_word;
use crate::bytes::pad_to_32;
use crate::bytes::lemma_be_nat_canonical;
use crate::model::CodecError;
use crate::model::FieldName;
use crate::model::ProofParameters;
use crate::model::PublicInput;
use crate::model::MemoryCell;
use crate::model::Segment;
use crate::pages::PageFacts;
use crate::pages::ContinuousPage;
use crate::pagehash::concat_words;
use crate::pagehash::pair_blocks;
use crate::pagehash::hash_regular_page;
use crate::pagehash::hash_continuous_page;
use crate::products::pairs_view;
use crate::products::page_product;
use crate::products::compute_product;
use crate::hash::keccak_of;
use crate::field::prime;

verus! {

/// The views of a word list.
pub open spec fn words_view(ws: Seq<Vec<u8>>) -> Seq<Seq<u8>> {
    ws.map_values(|v: Vec<u8>| v@)
}

/// Powers of two.
pub open spec fn pow2(k: nat) -> nat
    decreases k,
{
    if k == 0 {
        1
    } else {
        2 * pow2((k - 1) as nat)
    }
}

/// The exponent of a power of two (its floor base-2 logarithm).
pub open spec fn log2_of(n: nat) -> nat
    decreases n,
{
    if n <= 1 {
        0
    } else {
        1 + log2_of(n / 2)
    }
}

proof fn lemma_pow2_pos(k: nat)
    ensures
        pow2(k) >= 1,
    decreases k,
{
    if k > 0 {
        lemma_pow2_pos((k - 1) as nat);
    }
}

proof fn lemma_pow2_mono(a: nat, b: nat)
    requires
        a <= b,
    ensures
        pow2(a) <= pow2(b),
    decreases b,
{
    if a < b {
        lemma_pow2_mono(a, (b - 1) as nat);
        lemma_pow2_pos((b - 1) as nat);
    }
}

/// No power of two has an odd factor above one.
proof fn lemma_pow2_no_odd_factor(j: nat, k: nat, m: nat)
    requires
        m % 2 == 1,
        m > 1,
    ensures
        pow2(j) != pow2(k) * m,
    decreases j,
{
    if j == 0 {
        lemma_pow2_pos(k);
        assert(pow2(k) * m >= 1 * m) by (nonlinear_arith)
            requires
                pow2(k) >= 1,
                m >= 0,
        ;
    } else if k == 0 {
        if pow2(j) == pow2(k) * m {
            assert(pow2(j) == m);
            assert(pow2(j) == 2 * pow2((j - 1) as nat));
            assert((2 * pow2((j - 1) as nat)) % 2 == 0) by (nonlinear_arith);
        }
    } else {
        if pow2(j) == pow2(k) * m {
            assert(pow2(j) == 2 * pow2((j - 1) as nat));
            assert(pow2(k) == 2 * pow2((k - 1) as nat));
            assert(2 * pow2((j - 1) as nat) == 2 * (pow2((k - 1) as nat) * m))
                by (nonlinear_arith)
                requires
                    2 * pow2((j - 1) as nat) == (2 * pow2((k - 1) as nat)) * m,
            ;
            lemma_pow2_no_odd_factor((j - 1) as nat, (k - 1) as nat, m);
        }
    }
}

/// The exponent when `n` is exactly a power of two; `None` otherwise.
pub fn log2_exact(n: u64) -> (r: Option<u64>)
    ensures
        r is Some ==> n == pow2(r->0 as nat) && r->0 == log2_of(n as nat),
        r is None ==> forall|k: nat| pow2(k) != n,
{
    if n == 0 {
        proof {
            assert forall|k: nat| pow2(k) != n by {
                lemma_pow2_pos(k);
            }
        }
        return None;
    }
    let mut m: u64 = n;
    let mut k: u64 = 0;
    proof {
        assert(pow2(0) == 1);
    }
    while m > 1
        invariant
            m >= 1,
            n as nat == m as nat * pow2(k as nat),
            k <= 64,
            log2_of(n as nat) == log2_of(m as nat) + k,
        decreases m,
    {
        if m % 2 == 1 {
            proof {
                assert forall|j: nat| pow2(j) != n by {
                    if pow2(j) == n {
                        assert(n as nat == pow2(k as nat) * (m as nat)) by (nonlinear_arith)
                            requires
                                n as nat == m as nat * pow2(k as nat),
                        ;
                        lemma_pow2_no_odd_factor(j, k as nat, m as nat);
                    }
                }
            }
            return None;
        }
        proof {
            assert(m as nat * pow2(k as nat) == (m as nat / 2) * pow2((k + 1) as nat))
                by (nonlinear_arith)
                requires
                    m as nat % 2 == 0,
                    m >= 1,
            ;
            assert(pow2((k + 1) as nat) <= n as nat) by (nonlinear_arith)
                requires
                    n as nat == (m as nat / 2) * pow2((k + 1) as nat),
                    m as nat / 2 >= 1,
                    m as nat % 2 == 0,
                    m as nat > 1,
            ;
            if k + 1 > 64 {
                lemma_pow2_mono(65, (k + 1) as nat);
                assert(pow2(65) == 0x20000000000000000) by {
                    reveal_with_fuel(pow2, 66);
                }
            }
            assert(log2_of(m as nat) == 1 + log2_of(m as nat / 2));
        }
        m = m / 2;
        k = k + 1;
    }
    proof {
        assert(log2_of(1) == 0);
        assert(n as nat == pow2(k as nat)) by (nonlinear_arith)
            requires
                n as nat == m as nat * pow2(k as nat),
                m == 1,
        ;
    }
    Some(k)
}

/// The ten segment names the vector may carry, in canonical order.
pub open spec fn canonical_names() -> Seq<Seq<u8>> {
    seq![
        seq![0x70u8, 0x72, 0x6f, 0x67, 0x72, 0x61, 0x6d],
        seq![0x65u8, 0x78, 0x65, 0x63, 0x75, 0x74, 0x69, 0x6f, 0x6e],
        seq![0x6fu8, 0x75, 0x74, 0x70, 0x75, 0x74],
        seq![0x70u8, 0x65, 0x64, 0x65, 0x72, 0x73, 0x65, 0x6e],
        seq![0x72u8, 0x61, 0x6e, 0x67, 0x65, 0x5f, 0x63, 0x68, 0x65, 0x63, 0x6b],
        seq![0x65u8, 0x63, 0x64, 0x73, 0x61],
        seq![0x62u8, 0x69, 0x74, 0x77, 0x69, 0x73, 0x65],
        seq![0x65u8, 0x63, 0x5f, 0x6f, 0x70],
        seq![0x6bu8, 0x65, 0x63, 0x63, 0x61, 0x6b],
        seq![0x70u8, 0x6f, 0x73, 0x65, 0x69, 0x64, 0x6f, 0x6e],
    ]
}

/// The first segment entry with the given name.
pub open spec fn seg_lookup(segs: Seq<Segment>, name: Seq<u8>) -> Option<(u64, u64)>
    decreases segs.len(),
{
    if segs.len() == 0 {
        None
    } else if segs[0].name@ == name {
        Some((segs[0].begin, segs[0].end))
    } else {
        seg_lookup(segs.skip(1), name)
    }
}

/// The (begin, end) words of the named segments present, in canonical
/// order.
pub open spec fn segments_words(segs: Seq<Segment>, names: Seq<Seq<u8>>) -> Seq<Seq<u8>>
    decreases names.len(),
{
    if names.len() == 0 {
        Seq::empty()
    } else {
        (match seg_lookup(segs, names[0]) {
            Some(be) => seq![be_bytes(be.0 as nat, 32), be_bytes(be.1 as nat, 32)],
            None => Seq::empty(),
        }) + segments_words(segs, names.skip(1))
    }
}

/// The per-page entries: size and hash for the regular page; size,
/// hash and start address for each continuous page.
pub open spec fn continuous_words(cps: Seq<ContinuousPage>) -> Seq<Seq<u8>>
    decreases cps.len(),
{
    if cps.len() == 0 {
        Seq::empty()
    } else {
        continuous_words(cps.drop_last()) + seq![
            be_bytes(cps.last().values@.len(), 32),
            keccak_of(concat_words(cps.last().values@.map_values(|v: Vec<u8>| v@))),
            be_bytes(cps.last().start_address as nat, 32),
        ]
    }
}

pub open spec fn page_words(pf: PageFacts) -> Seq<Seq<u8>> {
    (match pf.regular {
        Some(rp) => seq![
            be_bytes(rp.pairs@.len(), 32),
            keccak_of(pair_blocks(pairs_view(rp.pairs@))),
        ],
        None => Seq::empty(),
    }) + continuous_words(pf.continuous@)
}

/// How many pages there are.
pub open spec fn page_count(pf: PageFacts) -> nat {
    (if pf.regular is Some {
        1nat
    } else {
        0nat
    }) + pf.continuous@.len()
}

/// The verifier-friendly commitment layer count, zero by default.
pub open spec fn vf_layers(params: ProofParameters) -> nat {
    match params.verifier_friendly_commitment_layers {
        Some(v) => v as nat,
        None => 0,
    }
}

/// The product-free public-input vector: layer count, log2 of the
/// step count, the range-check bounds, the layout tag as a number,
/// the canonical segments present, the padding pair copied from the
/// first memory cell, the page count, and the page entries.
pub open spec fn prefix_words(pi: PublicInput, params: ProofParameters, pf: PageFacts) -> Seq<
    Seq<u8>,
> {
    seq![
        be_bytes(vf_layers(params), 32),
        be_bytes(log2_of(pi.n_steps as nat), 32),
        be_bytes(pi.rc_min as nat, 32),
        be_bytes(pi.rc_max as nat, 32),
        be_bytes(be_nat(pi.layout@), 32),
    ] + segments_words(pi.segments@, canonical_names()) + seq![
        be_bytes(pi.public_memory@[0].address as nat, 32),
        pi.public_memory@[0].value@,
    ] + seq![be_bytes(page_count(pf), 32)] + page_words(pf)
}

/// The first segment entry with the given name.
pub fn find_segment(segs: &Vec<Segment>, name: &Vec<u8>) -> (r: Option<(u64, u64)>)
    ensures
        r == seg_lookup(segs@, name@),
{
    let mut i: usize = 0;
    proof {
        assert(segs@.skip(0) =~= segs@);
    }
    while i < segs.len()
        invariant
            i <= segs@.len(),
            seg_lookup(segs@, name@) == seg_lookup(segs@.skip(i as int), name@),
        decreases segs@.len() - i,
    {
        proof {
            assert(segs@.skip(i as int)[0] == segs@[i as int]);
            assert(segs@.skip(i as int).skip(1) =~= segs@.skip(i + 1));
        }
        if bytes_eq(&segs[i].name, name) {
            return Some((segs[i].begin, segs[i].end));
        }
        i = i + 1;
    }
    proof {
        assert(segs@.skip(segs@.len() as int) =~= Seq::<Segment>::empty());
    }
    None
}

/// The canonical names as byte vectors.
fn canonical_names_vec() -> (r: Vec<Vec<u8>>)
    ensures
        words_view(r@) == canonical_names(),
{
    let mut r: Vec<Vec<u8>> = Vec::new();
    r.push(vec![0x70u8, 0x72, 0x6f, 0x67, 0x72, 0x61, 0x6d]);
    r.push(vec![0x65u8, 0x78, 0x65, 0x63, 0x75, 0x74, 0x69, 0x6f, 0x6e]);
    r.push(vec![0x6fu8, 0x75, 0x74, 0x70, 0x75, 0x74]);
    r.push(vec![0x70u8, 0x65, 0x64, 0x65, 0x72, 0x73, 0x65, 0x6e]);
    r.push(vec![0x72u8, 0x61, 0x6e, 0x67, 0x65, 0x5f, 0x63, 0x68, 0x65, 0x63, 0x6b]);
    r.push(vec![0x65u8, 0x63, 0x64, 0x73, 0x61]);
    r.push(vec![0x62u8, 0x69, 0x74, 0x77, 0x69, 0x73, 0x65]);
    r.push(vec![0x65u8, 0x63, 0x5f, 0x6f, 0x70]);
    r.push(vec![0x6bu8, 0x65, 0x63, 0x63, 0x61, 0x6b]);
    r.push(vec![0x70u8, 0x6f, 0x73, 0x65, 0x69, 0x64, 0x6f, 0x6e]);
    proof {
        assert(words_view(r@) =~= canonical_names());
    }
    r
}

/// Assemble the product-free public-input vector. Fails only when the
/// step count is no power of two.
pub fn assemble_prefix(pi: &PublicInput, params: &ProofParameters, pf: &PageFacts) -> (r: Result<
    Vec<Vec<u8>>,
    CodecError,
>)
    requires
        pi.wf(),
        pf.continuous@.len() < u64::MAX,
    ensures
        r is Ok ==> words_view(r->Ok_0@) == prefix_words(*pi, *params, *pf),
        r is Ok <==> (exists|k: nat| pi.n_steps == pow2(k)),
        r is Err ==> r->Err_0 == CodecError::MalformedInput(FieldName::NSteps),
{
    let log_steps = match log2_exact(pi.n_steps) {
        Some(k) => k,
        None => {
            return Err(CodecError::MalformedInput(FieldName::NSteps));
        },
    };
    proof {
        assert(pi.n_steps == pow2(log_steps as nat));
    }
    let mut out: Vec<Vec<u8>> = Vec::new();
    let vf = match &params.verifier_friendly_commitment_layers {
        Some(v) => *v,
        None => 0,
    };
    out.push(word(vf));
    out.push(word(log_steps));
    out.push(word(pi.rc_min));
    out.push(word(pi.rc_max));
    let lw = pad_to_32(&pi.layout);
    proof {
        lemma_be_nat_canonical(lw@);
    }
    out.push(lw);
    let ghost head: Seq<Seq<u8>> = seq![
        be_bytes(vf_layers(*params), 32),
        be_bytes(log2_of(pi.n_steps as nat), 32),
        be_bytes(pi.rc_min as nat, 32),
        be_bytes(pi.rc_max as nat, 32),
        be_bytes(be_nat(pi.layout@), 32),
    ];
    proof {
        assert(words_view(out@) =~= head);
    }
    let ghost cn = canonical_names();
    let ghost segtotal = segments_words(pi.segments@, cn);
    let names = canonical_names_vec();
    let mut ni: usize = 0;
    proof {
        assert(cn.skip(0) =~= cn);
    }
    while ni < names.len()
        invariant
            ni <= names@.len(),
            words_view(names@) == canonical_names(),
            cn == canonical_names(),
            segtotal == segments_words(pi.segments@, cn),
            head + segtotal == words_view(out@) + segments_words(
                pi.segments@,
                cn.skip(ni as int),
            ),
        decreases names@.len() - ni,
    {
        let ghost pre = words_view(out@);
        let ghost rest = segments_words(pi.segments@, cn.skip(ni as int));
        proof {
            assert(cn.skip(ni as int)[0] == cn[ni as int]);
            assert(cn.skip(ni as int).skip(1) =~= cn.skip(ni + 1));
            assert(names@[ni as int]@ == cn[ni as int]);
        }
        match find_segment(&pi.segments, &names[ni]) {
            Some(be) => {
                let bw = word(be.0);
                let ew = word(be.1);
                out.push(bw);
                out.push(ew);
                proof {
                    let entry = seq![
                        be_bytes(be.0 as nat, 32),
                        be_bytes(be.1 as nat, 32),
                    ];
                    assert(rest == entry + segments_words(pi.segments@, cn.skip(ni + 1)));
                    assert(words_view(out@) =~= pre + entry);
                    assert((pre + entry) + segments_words(pi.segments@, cn.skip(ni + 1)) =~= pre
                        + rest);
                }
            },
            None => {
                proof {
                    assert(rest == segments_words(pi.segments@, cn.skip(ni + 1)));
                }
            },
        }
        ni = ni + 1;
    }
    proof {
        assert(cn.skip(cn.len() as int) =~= Seq::<Seq<u8>>::empty());
        assert(words_view(out@) + Seq::<Seq<u8>>::empty() =~= words_view(out@));
        assert(words_view(out@) == head + segtotal);
    }
    let ghost stage2 = words_view(out@);
    let aw = word(pi.public_memory[0].address);
    out.push(aw);
    let vw = copy_bytes(&pi.public_memory[0].value);
    out.push(vw);
    proof {
        assert(words_view(out@) =~= stage2 + seq![
            be_bytes(pi.public_memory@[0].address as nat, 32),
            pi.public_memory@[0].value@,
        ]);
    }
    let ghost stage3 = words_view(out@);
    let regular_count: u64 = match &pf.regular {
        Some(_) => 1,
        None => 0,
    };
    let npages: u64 = regular_count + pf.continuous.len() as u64;
    out.push(word(npages));
    proof {
        assert(words_view(out@) =~= stage3 + seq![be_bytes(page_count(*pf), 32)]);
    }
    let ghost stage4 = words_view(out@);
    let mut pagepart: Vec<Vec<u8>> = Vec::new();
    match &pf.regular {
        Some(rp) => {
            pagepart.push(word(rp.pairs.len() as u64));
            pagepart.push(hash_regular_page(rp));
        },
        None => {},
    }
    let ghost regpart = words_view(pagepart@);
    proof {
        if pf.regular is Some {
            let rp = pf.regular->0;
            assert(regpart =~= seq![
                be_bytes(rp.pairs@.len(), 32),
                keccak_of(pair_blocks(pairs_view(rp.pairs@))),
            ]);
        } else {
            assert(regpart =~= Seq::<Seq<u8>>::empty());
        }
    }
    let mut ci: usize = 0;
    while ci < pf.continuous.len()
        invariant
            ci <= pf.continuous@.len(),
            words_view(pagepart@) == regpart + continuous_words(pf.continuous@.take(ci as int)),
        decreases pf.continuous@.len() - ci,
    {
        let ghost prepart = words_view(pagepart@);
        let cp = &pf.continuous[ci];
        pagepart.push(word(cp.values.len() as u64));
        pagepart.push(hash_continuous_page(cp));
        pagepart.push(word(cp.start_address));
        proof {
            let entry = seq![
                be_bytes(pf.continuous@[ci as int].values@.len(), 32),
                keccak_of(concat_words(
                    pf.continuous@[ci as int].values@.map_values(|v: Vec<u8>| v@),
                )),
                be_bytes(pf.continuous@[ci as int].start_address as nat, 32),
            ];
            assert(words_view(pagepart@) =~= prepart + entry);
            assert(pf.continuous@.take(ci + 1).drop_last() =~= pf.continuous@.take(ci as int));
            assert(pf.continuous@.take(ci + 1).last() == pf.continuous@[ci as int]);
            assert(continuous_words(pf.continuous@.take(ci + 1)) == continuous_words(
                pf.continuous@.take(ci as int),
            ) + entry);
            assert(regpart + (continuous_words(pf.continuous@.take(ci as int)) + entry) =~= (
            regpart + continuous_words(pf.continuous@.take(ci as int))) + entry);
        }
        ci = ci + 1;
    }
    proof {
        assert(pf.continuous@.take(pf.continuous@.len() as int) =~= pf.continuous@);
        assert(words_view(pagepart@) == page_words(*pf));
    }
    let mut pi2: usize = 0;
    let ghost pagewords = words_view(pagepart@);
    while pi2 < pagepart.len()
        invariant
            pi2 <= pagepart@.len(),
            pagewords == words_view(pagepart@),
            words_view(out@) == stage4 + words_view(pagepart@.take(pi2 as int)),
        decreases pagepart@.len() - pi2,
    {
        let ghost preout = words_view(out@);
        let w = copy_bytes(&pagepart[pi2]);
        out.push(w);
        proof {
            assert(words_view(out@) =~= preout.push(pagepart@[pi2 as int]@));
            assert(words_view(pagepart@.take(pi2 + 1)) =~= words_view(pagepart@.take(
                pi2 as int,
            )).push(pagepart@[pi2 as int]@));
            assert(stage4 + words_view(pagepart@.take(pi2 + 1)) =~= (stage4 + words_view(
                pagepart@.take(pi2 as int),
            )).push(pagepart@[pi2 as int]@));
        }
        pi2 = pi2 + 1;
    }
    proof {
        assert(pagepart@.take(pagepart@.len() as int) =~= pagepart@);
        assert(words_view(out@) == stage4 + pagewords);
        assert(stage2 =~= head + segments_words(pi.segments@, canonical_names()));
        assert(words_view(out@) =~= prefix_words(*pi, *params, *pf));
    }
    Ok(out)
}

/// The pairs a continuous page contributes to its product: address
/// `start + k` with the `k`-th value.
pub open spec fn cont_pairs_view(cp: ContinuousPage) -> Seq<(u64, Seq<u8>)> {
    Seq::new(cp.values@.len(), |i: int| ((cp.start_address + i) as u64, cp.values@[i]@))
}

/// The per-page permutation products, in sorted page order.
pub open spec fn continuous_products(cps: Seq<ContinuousPage>, z: nat, alpha: nat) -> Seq<
    Seq<u8>,
>
    decreases cps.len(),
{
    if cps.len() == 0 {
        Seq::empty()
    } else {
        continuous_products(cps.drop_last(), z, alpha) + seq![
            be_bytes(page_product(cont_pairs_view(cps.last()), z, alpha), 32),
        ]
    }
}

pub open spec fn products_words(pf: PageFacts, z: nat, alpha: nat) -> Seq<Seq<u8>> {
    (match pf.regular {
        Some(rp) => seq![be_bytes(page_product(pairs_view(rp.pairs@), z, alpha), 32)],
        None => Seq::empty(),
    }) + continuous_products(pf.continuous@, z, alpha)
}

/// Compute the per-page permutation products, in sorted page order.
pub fn page_products(pf: &PageFacts, z: &Vec<u8>, alpha: &Vec<u8>) -> (r: Vec<Vec<u8>>)
    requires
        be_nat(z@) < prime(),
        be_nat(alpha@) < prime(),
        forall|q: int|
            0 <= q < pf.continuous@.len() ==> (#[trigger] pf.continuous@[q]).start_address as nat
                + pf.continuous@[q].values@.len() <= u64::MAX as nat + 1,
    ensures
        words_view(r@) == products_words(*pf, be_nat(z@), be_nat(alpha@)),
{
    let ghost gz = be_nat(z@);
    let ghost ga = be_nat(alpha@);
    let mut out: Vec<Vec<u8>> = Vec::new();
    match &pf.regular {
        Some(rp) => {
            let p = compute_product(&rp.pairs, z, alpha);
            proof {
                lemma_be_nat_canonical(p@);
            }
            out.push(p);
        },
        None => {},
    }
    let ghost regpart = words_view(out@);
    proof {
        if pf.regular is Some {
            let rp = pf.regular->0;
            assert(regpart =~= seq![
                be_bytes(page_product(pairs_view(rp.pairs@), gz, ga), 32),
            ]);
        } else {
            assert(regpart =~= Seq::<Seq<u8>>::empty());
        }
    }
    let mut ci: usize = 0;
    while ci < pf.continuous.len()
        invariant
            ci <= pf.continuous@.len(),
            gz == be_nat(z@),
            ga == be_nat(alpha@),
            gz < prime(),
            ga < prime(),
            forall|q: int|
                0 <= q < pf.continuous@.len() ==> (#[trigger] pf.continuous@[q]).start_address
                    as nat + pf.continuous@[q].values@.len() <= u64::MAX as nat + 1,
            words_view(out@) == regpart + continuous_products(
                pf.continuous@.take(ci as int),
                gz,
                ga,
            ),
        decreases pf.continuous@.len() - ci,
    {
        let ghost preout = words_view(out@);
        let cp = &pf.continuous[ci];
        let mut pairs: Vec<(u64, Vec<u8>)> = Vec::new();
        let mut t: usize = 0;
        while t < cp.values.len()
            invariant
                t <= cp.values@.len(),
                cp == pf.continuous@[ci as int],
                0 <= ci < pf.continuous@.len(),
                cp.start_address as nat + cp.values@.len() <= u64::MAX as nat + 1,
                pairs@.len() == t,
                pairs_view(pairs@) =~= cont_pairs_view(*cp).take(t as int),
            decreases cp.values@.len() - t,
        {
            let a: u64 = cp.start_address + t as u64;
            let v = copy_bytes(&cp.values[t]);
            pairs.push((a, v));
            proof {
                assert(pairs@[t as int].0 == a && pairs@[t as int].1@ == cp.values@[t as int]@);
                assert(cont_pairs_view(*cp)[t as int] == ((cp.start_address + t) as u64,
                cp.values@[t as int]@));
                assert(pairs_view(pairs@) =~= cont_pairs_view(*cp).take(t + 1));
            }
            t = t + 1;
        }
        proof {
            assert(cont_pairs_view(*cp).take(cp.values@.len() as int) =~= cont_pairs_view(*cp));
            assert(pairs_view(pairs@) == cont_pairs_view(*cp));
        }
        let p = compute_product(&pairs, z, alpha);
        proof {
            lemma_be_nat_canonical(p@);
        }
        out.push(p);
        proof {
            let entry = seq![
                be_bytes(page_product(cont_pairs_view(pf.continuous@[ci as int]), gz, ga), 32),
            ];
            assert(words_view(out@) =~= preout + entry);
            assert(pf.continuous@.take(ci + 1).drop_last() =~= pf.continuous@.take(ci as int));
            assert(pf.continuous@.take(ci + 1).last() == pf.continuous@[ci as int]);
            assert(continuous_products(pf.continuous@.take(ci + 1), gz, ga)
                == continuous_products(pf.continuous@.take(ci as int), gz, ga) + entry);
            assert(regpart + (continuous_products(pf.continuous@.take(ci as int), gz, ga)
                + entry) =~= (regpart + continuous_products(
                pf.continuous@.take(ci as int),
                gz,
                ga,
            )) + entry);
        }
        ci = ci + 1;
    }
    proof {
        assert(pf.continuous@.take(pf.continuous@.len() as int) =~= pf.continuous@);
    }
    out
}

/// Append further words to the vector.
pub fn append_words(dst: &mut Vec<Vec<u8>>, src: &Vec<Vec<u8>>)
    ensures
        final(dst)@.len() == old(dst)@.len() + src@.len(),
        words_view(final(dst)@) == words_view(old(dst)@) + words_view(src@),
{
    let mut i: usize = 0;
    while i < src.len()
        invariant
            i <= src@.len(),
            dst@.len() == old(dst)@.len() + i,
            words_view(dst@) == words_view(old(dst)@) + words_view(src@.take(i as int)),
        decreases src@.len() - i,
    {
        let ghost pre = words_view(dst@);
        let w = copy_bytes(&src[i]);
        dst.push(w);
        proof {
            assert(words_view(dst@) =~= pre.push(src@[i as int]@));
            assert(words_view(src@.take(i + 1)) =~= words_view(src@.take(i as int)).push(
                src@[i as int]@,
            ));
            assert(words_view(old(dst)@) + words_view(src@.take(i + 1)) =~= (words_view(
                old(dst)@,
            ) + words_view(src@.take(i as int))).push(src@[i as int]@));
        }
        i = i + 1;
    }
    proof {
        assert(src@.take(src@.len() as int) =~= src@);
    }
}

proof fn lemma_continuous_words_congruent(c1: Seq<ContinuousPage>, c2: Seq<ContinuousPage>)
    requires
        c1.len() == c2.len(),
        forall|q: int|
            0 <= q < c1.len() ==> ({
                let a = #[trigger] c1[q];
                let b = c2[q];
                &&& a.start_address == b.start_address
                &&& a.values@.len() == b.values@.len()
                &&& (forall|i: int|
                    0 <= i < a.values@.len() ==> (#[trigger] a.values@[i])@ == b.values@[i]@)
            }),
    ensures
        continuous_words(c1) == continuous_words(c2),
    decreases c1.len(),
{
    if c1.len() > 0 {
        lemma_continuous_words_congruent(c1.drop_last(), c2.drop_last());
        assert(c1.last() == c1[c1.len() - 1]);
        assert(c1.last().values@.map_values(|v: Vec<u8>| v@) =~= c2.last().values@.map_values(
            |v: Vec<u8>| v@,
        ));
        assert(continuous_words(c1) =~= continuous_words(c2));
    } else {
        assert(continuous_words(c1) =~= continuous_words(c2));
    }
}

proof fn lemma_continuous_products_congruent(
    c1: Seq<ContinuousPage>,
    c2: Seq<ContinuousPage>,
    z: nat,
    alpha: nat,
)
    requires
        c1.len() == c2.len(),
        forall|q: int|
            0 <= q < c1.len() ==> ({
                let a = #[trigger] c1[q];
                let b = c2[q];
                &&& a.start_address == b.start_address
                &&& a.values@.len() == b.values@.len()
                &&& (forall|i: int|
                    0 <= i < a.values@.len() ==> (#[trigger] a.values@[i])@ == b.values@[i]@)
            }),
    ensures
        continuous_products(c1, z, alpha) == continuous_products(c2, z, alpha),
    decreases c1.len(),
{
    if c1.len() > 0 {
        lemma_continuous_products_congruent(c1.drop_last(), c2.drop_last(), z, alpha);
        assert(c1.last() == c1[c1.len() - 1]);
        assert(cont_pairs_view(c1.last()) =~= cont_pairs_view(c2.last()));
        assert(continuous_products(c1, z, alpha) =~= continuous_products(c2, z, alpha));
    } else {
        assert(continuous_products(c1, z, alpha) =~= continuous_products(c2, z, alpha));
    }
}

/// Any two matching partitions assemble to the same vector: the
/// public input depends only on what the pages hold.
pub proof fn lemma_assembled_words_congruent(
    cells: Seq<MemoryCell>,
    pi: PublicInput,
    params: ProofParameters,
    pf1: PageFacts,
    pf2: PageFacts,
    z: nat,
    alpha: nat,
)
    requires
        crate::pages::page_facts_match(cells, pf1),
        crate::pages::page_facts_match(cells, pf2),
    ensures
        prefix_words(pi, params, pf1) == prefix_words(pi, params, pf2),
        products_words(pf1, z, alpha) == products_words(pf2, z, alpha),
{
    crate::pages::lemma_page_facts_views_unique(cells, pf1, pf2);
    lemma_continuous_words_congruent(pf1.continuous@, pf2.continuous@);
    lemma_continuous_products_congruent(pf1.continuous@, pf2.continuous@, z, alpha);
    if pf1.regular is Some {
        let r1 = pf1.regular->0;
        let r2 = pf2.regular->0;
        assert(pairs_view(r1.pairs@) =~= pairs_view(r2.pairs@));
    }
    assert(page_words(pf1) == page_words(pf2));
    assert(page_count(pf1) == page_count(pf2));
}

/// The 32-byte word of a 64-bit integer, as its canonical encoding.
fn word(n: u64) -> (r: Vec<u8>)
    ensures
        r@ == be_bytes(n as nat, 32),
{
    let w = u64_word(n);
    proof {
        lemma_be_nat_canonical(w@);
    }
    w
}

} // verus!
