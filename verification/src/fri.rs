//! FRI step-size planning: the step list for a proof over a given
//! trace length and last-layer degree bound.

use vstd::prelude::*;
use crate::assemble::pow2;

verus! {

/// `n^2 < 2^s * d^2`: how the rounded base-2 logarithm of `n / d` is
/// bracketed without leaving the integers.
pub open spec fn ratio_below_pow2_half(n: u32, d: u32, s: nat) -> bool {
    (n as nat) * (n as nat) < pow2(s) * ((d as nat) * (d as nat))
}

proof fn lemma_pow2_pos_fri(k: nat)
    ensures
        pow2(k) >= 1,
    decreases k,
{
    if k > 0 {
        lemma_pow2_pos_fri((k - 1) as nat);
    }
}

proof fn lemma_pow2_mono_fri(a: nat, b: nat)
    requires
        a <= b,
    ensures
        pow2(a) <= pow2(b),
    decreases b,
{
    if a < b {
        lemma_pow2_mono_fri(a, (b - 1) as nat);
        lemma_pow2_pos_fri((b - 1) as nat);
    }
}

/// Whether `n^2 < 2^s * d^2`, for shift amounts up to 65.
fn lt_shifted(n2: u64, d2: u64, s: u32) -> (r: bool)
    requires
        d2 >= 1,
        s <= 65,
    ensures
        r == ratio_below_pow2_half_raw(n2, d2, s as nat),
{
    let mut t: u128 = d2 as u128;
    let mut j: u32 = 0;
    proof {
        assert(pow2(0) == 1);
    }
    while j < s && t <= u64::MAX as u128
        invariant
            j <= s <= 65,
            t == pow2(j as nat) * (d2 as nat),
            d2 >= 1,
        decreases s - j,
    {
        proof {
            assert(pow2((j + 1) as nat) == 2 * pow2(j as nat));
            assert(2 * (pow2(j as nat) * (d2 as nat)) == (2 * pow2(j as nat)) * (d2 as nat))
                by (nonlinear_arith);
        }
        t = t * 2;
        j = j + 1;
    }
    if j < s {
        // The partial product already tops every 64-bit value, and
        // further doubling only grows it.
        proof {
            lemma_pow2_mono_fri(j as nat, s as nat);
            assert(pow2(s as nat) * (d2 as nat) >= pow2(j as nat) * (d2 as nat))
                by (nonlinear_arith)
                requires
                    pow2(s as nat) >= pow2(j as nat),
                    d2 >= 1,
            ;
        }
        true
    } else {
        (n2 as u128) < t
    }
}

/// `n^2 < 2^s * d^2` over raw 64-bit squares.
pub open spec fn ratio_below_pow2_half_raw(n2: u64, d2: u64, s: nat) -> bool {
    (n2 as nat) < pow2(s) * (d2 as nat)
}

/// The rounded base-2 logarithm of `n / d`, clamped at zero: the
/// smallest `k` with `n^2 < 2^(2k+1) * d^2`.
#[verifier::rlimit(100)]
pub fn round_log2_ratio(n: u32, d: u32) -> (k: u32)
    requires
        d >= 1,
    ensures
        k <= 32,
        ratio_below_pow2_half(n, d, 2 * k as nat + 1),
        k > 0 ==> !ratio_below_pow2_half(n, d, (2 * k - 1) as nat),
{
    proof {
        assert((n as nat) * (n as nat) <= 0xffffffffnat * 0xffffffffnat && (d as nat) * (d
            as nat) <= 0xffffffffnat * 0xffffffffnat) by (nonlinear_arith)
            requires
                n <= 0xffffffff,
                d <= 0xffffffff,
        ;
    }
    let n2: u64 = (n as u64) * (n as u64);
    let d2: u64 = (d as u64) * (d as u64);
    proof {
        assert(d2 >= 1) by (nonlinear_arith)
            requires
                d >= 1,
                d2 == (d as nat) * (d as nat),
        ;
        assert(n2 == (n as nat) * (n as nat));
    }
    let mut k: u32 = 0;
    while k < 32
        invariant
            k <= 32,
            d2 >= 1,
            n2 == (n as nat) * (n as nat),
            d2 == (d as nat) * (d as nat),
            k > 0 ==> !ratio_below_pow2_half_raw(n2, d2, (2 * k - 1) as nat),
        decreases 32 - k,
    {
        if lt_shifted(n2, d2, 2 * k + 1) {
            return k;
        }
        k = k + 1;
    }
    // Even the largest 32-bit ratio rounds to at most 32.
    proof {
        assert(pow2(65) * (d2 as nat) >= pow2(65) * 1) by (nonlinear_arith)
            requires
                d2 >= 1,
        ;
        assert(pow2(65) == 0x20000000000000000nat) by {
            reveal_with_fuel(pow2, 66);
        }
    }
    if lt_shifted(n2, d2, 65) {
        return 32;
    }
    proof {
        assert(false);
    }
    0
}

/// The step list a FRI folding depth calls for: a leading zero, as
/// many fours as fit, then the remainder if any.
pub open spec fn step_list_of(fd: nat) -> Seq<u32> {
    seq![0u32] + Seq::new(fd / 4, |i: int| 4u32) + (if fd % 4 == 0 {
        Seq::<u32>::empty()
    } else {
        seq![(fd % 4) as u32]
    })
}

/// Plan the FRI step list for a proof of `n_steps` steps against a
/// last-layer degree bound: the folding depth is the rounded base-2
/// logarithm of their ratio (never below zero) plus four.
pub fn calculate_fri_step_list(n_steps: u32, degree_bound: u32) -> (r: Vec<u32>)
    requires
        degree_bound >= 1,
    ensures
        exists|k: nat|
            {
                &&& k <= 32
                &&& #[trigger] ratio_below_pow2_half(n_steps, degree_bound, 2 * k + 1)
                &&& (k > 0 ==> !ratio_below_pow2_half(n_steps, degree_bound, (2 * k - 1) as nat))
                &&& r@ == step_list_of(k + 4)
            },
{
    let k = round_log2_ratio(n_steps, degree_bound);
    let fd: u32 = k + 4;
    let mut r: Vec<u32> = Vec::new();
    r.push(0);
    let fours: u32 = fd / 4;
    let mut i: u32 = 0;
    while i < fours
        invariant
            i <= fours,
            fours == fd / 4,
            r@.len() == 1 + i,
            r@[0] == 0,
            forall|j: int| 1 <= j < r@.len() ==> r@[j] == 4,
        decreases fours - i,
    {
        r.push(4);
        i = i + 1;
    }
    let rem: u32 = fd % 4;
    if rem != 0 {
        r.push(rem);
    }
    proof {
        assert(r@ =~= step_list_of(fd as nat));
        assert(ratio_below_pow2_half(n_steps, degree_bound, 2 * (k as nat) + 1));
    }
    r
}

/// Which field supplies the step count: `n_steps` first, then
/// `trace_length`, then the trace length nested under
/// `public_memory`; the value is truncated to 32 bits.
pub open spec fn picked_n_steps(
    n_steps: Option<u64>,
    trace_length: Option<u64>,
    public_memory_trace_length: Option<u64>,
) -> Option<u32> {
    match n_steps {
        Some(v) => Some(v as u32),
        None => match trace_length {
            Some(v) => Some(v as u32),
            None => match public_memory_trace_length {
                Some(v) => Some(v as u32),
                None => None,
            },
        },
    }
}

/// Read the step count out of the public-input document's fields, in
/// their order of precedence.
pub fn n_steps_from_fields(
    n_steps: Option<u64>,
    trace_length: Option<u64>,
    public_memory_trace_length: Option<u64>,
) -> (r: Option<u32>)
    ensures
        r == picked_n_steps(n_steps, trace_length, public_memory_trace_length),
{
    match n_steps {
        Some(v) => Some(
            #[verifier::truncate]
            (v as u32),
        ),
        None => match trace_length {
            Some(v) => Some(
                #[verifier::truncate]
                (v as u32),
            ),
            None => match public_memory_trace_length {
                Some(v) => Some(
                    #[verifier::truncate]
                    (v as u32),
                ),
                None => None,
            },
        },
    }
}

} // verus!
