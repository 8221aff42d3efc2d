//! The task-metadata builder: recursive-proof task descriptors from
//! the program's output segment, driven by the fact-topology
//! side-channel. No side channel means no bootloader: the metadata is
//! the single word zero.
//!
//! The output's framing is detected from its first word: a value
//! above 2^32 is read as a hashed bootloader-configuration prefix
//! (task count at offset 2, tasks from offset 3); otherwise the count
//! sits at offset 0 and tasks start at 1. The supplied topology list
//! is ground truth for the task count; a disagreeing count in the
//! output only raises a warning.

use vstd::prelude::*;
use crate::bytes::be_nat;
use crate::bytes::be_bytes;
use crate::bytes::pow256;
use crate::bytes::copy_bytes;
use crate::bytes::u64_word;
use crate::bytes::lemma_be_nat_canonical;
use crate::bytes::lemma_be_nat_bound;
use crate::bytes::lemma_minimal_len_bound;
use crate::bytes::strip_leading_zeros;
use crate::model::CodecError;
use crate::model::FieldName;
use crate::model::FactTopology;
use crate::model::MemoryCell;
use crate::model::Segment;
use crate::pages::last_value_at;
use crate::assemble::words_view;
use crate::assemble::seg_lookup;
use crate::assemble::find_segment;

verus! {

/// `output` as ASCII bytes.
pub open spec fn output_name() -> Seq<u8> {
    seq![0x6fu8, 0x75, 0x74, 0x70, 0x75, 0x74]
}

/// Whether some cell has the address.
pub open spec fn has_addr(cells: Seq<MemoryCell>, addr: u64) -> bool {
    exists|i: int| 0 <= i < cells.len() && (#[trigger] cells[i]).address == addr
}

/// The dense run of output words over [begin, end): at each address
/// the last value written there.
pub open spec fn output_words(cells: Seq<MemoryCell>, begin: u64, end: u64) -> Seq<Seq<u8>> {
    Seq::new((end - begin) as nat, |k: int| last_value_at(cells, (begin + k) as u64))
}

/// Every output address owns a cell.
pub open spec fn all_present(cells: Seq<MemoryCell>, begin: u64, end: u64) -> bool {
    forall|k: int| 0 <= k < end - begin ==> #[trigger] has_addr(cells, (begin + k) as u64)
}

/// The tree-structure values as words.
pub open spec fn tree_words(ts: Seq<u64>) -> Seq<Seq<u8>> {
    Seq::new(ts.len(), |i: int| be_bytes(ts[i] as nat, 32))
}

/// One task's words: its output size and program hash as they stand
/// in the output, its topology's pair count, and the flattened tree
/// structure.
pub open spec fn task_words(output: Seq<Seq<u8>>, top: FactTopology, ptr: nat) -> Seq<Seq<u8>> {
    seq![
        output[ptr as int],
        output[ptr as int + 1],
        be_bytes(top.tree_structure@.len() / 2, 32),
    ] + tree_words(top.tree_structure@)
}

/// The task records from task `q` on, the pointer advancing by each
/// task's output size.
pub open spec fn tasks_rec(output: Seq<Seq<u8>>, tops: Seq<FactTopology>, q: int, ptr: nat)
    -> Option<Seq<Seq<u8>>>
    decreases tops.len() - q,
{
    if q < 0 || q >= tops.len() {
        Some(Seq::empty())
    } else if ptr + 2 > output.len() {
        None
    } else if be_nat(output[ptr as int]) >= pow256(8) {
        None
    } else {
        let size = be_nat(output[ptr as int]);
        match tasks_rec(output, tops, q + 1, (ptr + size) as nat) {
            None => None,
            Some(rest) => Some(task_words(output, tops[q], ptr) + rest),
        }
    }
}

/// Where the tasks start: after a hashed bootloader-configuration
/// prefix when the first word exceeds 2^32.
pub open spec fn tasks_start_of(output: Seq<Seq<u8>>) -> nat {
    if be_nat(output[0]) > 0x100000000 {
        3
    } else {
        1
    }
}

/// The whole metadata vector for a present side channel: the task
/// count (the topology list's length), then the task records.
pub open spec fn task_meta_words(output: Seq<Seq<u8>>, tops: Seq<FactTopology>) -> Option<
    Seq<Seq<u8>>,
> {
    if output.len() == 0 {
        None
    } else {
        match tasks_rec(output, tops, 0, tasks_start_of(output)) {
            None => None,
            Some(body) => Some(seq![be_bytes(tops.len(), 32)] + body),
        }
    }
}

/// Whether the output's own task count disagrees with the topology
/// list (only a warning).
pub open spec fn count_mismatch(output: Seq<Seq<u8>>, tops: Seq<FactTopology>) -> bool {
    if output.len() == 0 {
        true
    } else {
        let ci: int = if be_nat(output[0]) > 0x100000000 {
            2
        } else {
            0
        };
        ci >= output.len() || be_nat(output[ci]) != tops.len()
    }
}

/// The last value written at an address, if any cell has it.
fn value_at(cells: &Vec<MemoryCell>, addr: u64) -> (r: Option<Vec<u8>>)
    ensures
        r is Some <==> has_addr(cells@, addr),
        r is Some ==> r->0@ == last_value_at(cells@, addr),
{
    let mut j: usize = cells.len();
    proof {
        assert(cells@.take(cells@.len() as int) =~= cells@);
    }
    while j > 0
        invariant
            j <= cells@.len(),
            last_value_at(cells@, addr) == last_value_at(cells@.take(j as int), addr),
            forall|i: int| j <= i < cells@.len() ==> (#[trigger] cells@[i]).address != addr,
        decreases j,
    {
        j = j - 1;
        proof {
            assert(cells@.take(j + 1).drop_last() =~= cells@.take(j as int));
            assert(cells@.take(j + 1).last() == cells@[j as int]);
        }
        if cells[j].address == addr {
            return Some(copy_bytes(&cells[j].value));
        }
    }
    proof {
        if has_addr(cells@, addr) {
            let w = choose|i: int|
                0 <= i < cells@.len() && (#[trigger] cells@[i]).address == addr;
            assert(false);
        }
    }
    None
}

/// A word's value as a 64-bit integer, when it fits.
pub fn word_to_u64(w: &Vec<u8>) -> (r: Option<u64>)
    ensures
        r is Some <==> be_nat(w@) < pow256(8),
        r is Some ==> r->0 == be_nat(w@),
{
    let m = strip_leading_zeros(w);
    proof {
        lemma_be_nat_bound(m@);
        if be_nat(m@) < pow256(8) {
            lemma_minimal_len_bound(m@, 8);
        }
    }
    if m.len() > 8 {
        return None;
    }
    proof {
        crate::hexfmt::lemma_pow256_mono(m@.len() as nat, 8);
    }
    let mut v: u64 = 0;
    let mut i: usize = 0;
    while i < m.len()
        invariant
            i <= m@.len() <= 8,
            v == be_nat(m@.take(i as int)),
            v < pow256(i as nat),
        decreases m@.len() - i,
    {
        proof {
            assert(m@.take(i + 1).drop_last() =~= m@.take(i as int));
            assert(m@.take(i + 1).last() == m@[i as int]);
            assert(pow256((i + 1) as nat) == 256 * pow256(i as nat));
            crate::hexfmt::lemma_pow256_mono((i + 1) as nat, 8);
            assert(pow256(8) == 0x10000000000000000nat) by {
                reveal_with_fuel(pow256, 9);
            }
            assert((v as nat) * 256 + 255 < pow256((i + 1) as nat)) by (nonlinear_arith)
                requires
                    (v as nat) < pow256(i as nat),
                    pow256((i + 1) as nat) == 256 * pow256(i as nat),
            ;
        }
        v = v * 256 + m[i] as u64;
        i = i + 1;
    }
    proof {
        assert(m@.take(m@.len() as int) =~= m@);
    }
    Some(v)
}

/// Build the task metadata. Without a side channel the result is the
/// single word zero; with one, the task records from the output
/// segment, and a flag warning that the output's own count disagreed.
#[verifier::rlimit(60)]
pub fn task_metadata(
    cells: &Vec<MemoryCell>,
    segments: &Vec<Segment>,
    topologies: &Option<Vec<FactTopology>>,
) -> (r: Result<(Vec<Vec<u8>>, bool), CodecError>)
    ensures
        topologies is None ==> r is Ok && words_view(r->Ok_0.0@) == seq![be_bytes(0, 32)]
            && r->Ok_0.1 == false,
        topologies is Some ==> ((r is Ok) <==> ({
            let found = seg_lookup(segments@, output_name());
            &&& found is Some
            &&& ({
                let pair = found->0;
                &&& pair.0 <= pair.1
                &&& pair.1 - pair.0 <= usize::MAX
                &&& all_present(cells@, pair.0, pair.1)
                &&& task_meta_words(
                    output_words(cells@, pair.0, pair.1),
                    topologies->0@,
                ) is Some
            })
        })),
        topologies is Some && r is Ok ==> ({
            let pair = seg_lookup(segments@, output_name())->0;
            let out = output_words(cells@, pair.0, pair.1);
            &&& Some(words_view(r->Ok_0.0@)) == task_meta_words(out, topologies->0@)
            &&& r->Ok_0.1 == count_mismatch(out, topologies->0@)
        }),
{
    let tops = match topologies {
        Some(t) => t,
        None => {
            let zw = u64_word(0);
            proof {
                lemma_be_nat_canonical(zw@);
            }
            let mut out: Vec<Vec<u8>> = Vec::new();
            out.push(zw);
            proof {
                assert(words_view(out@) =~= seq![be_bytes(0, 32)]);
            }
            return Ok((out, false));
        },
    };
    let nm: Vec<u8> = vec![0x6fu8, 0x75, 0x74, 0x70, 0x75, 0x74];
    proof {
        assert(nm@ =~= output_name());
    }
    let (begin, end) = match find_segment(segments, &nm) {
        Some(be) => be,
        None => {
            return Err(CodecError::MalformedInput(FieldName::Output));
        },
    };
    if end < begin {
        return Err(CodecError::MalformedInput(FieldName::Output));
    }
    if end - begin > usize::MAX as u64 {
        return Err(CodecError::ArithmeticInconsistency);
    }
    let n_out: usize = (end - begin) as usize;
    let mut output: Vec<Vec<u8>> = Vec::new();
    let mut k: usize = 0;
    while k < n_out
        invariant
            k <= n_out,
            n_out == end - begin,
            begin <= end,
            topologies is Some,
            seg_lookup(segments@, output_name()) == Some((begin, end)),
            output@.len() == k,
            forall|t: int| 0 <= t < k ==> #[trigger] has_addr(cells@, (begin + t) as u64),
            forall|t: int|
                0 <= t < k ==> (#[trigger] output@[t])@ == last_value_at(
                    cells@,
                    (begin + t) as u64,
                ),
        decreases n_out - k,
    {
        match value_at(cells, begin + k as u64) {
            Some(v) => output.push(v),
            None => {
                proof {
                    assert(!has_addr(cells@, (begin + k as int) as u64));
                }
                return Err(CodecError::MalformedInput(FieldName::Output));
            },
        }
        k = k + 1;
    }
    let ghost gout = output_words(cells@, begin, end);
    proof {
        assert(words_view(output@) =~= gout);
    }
    if output.len() == 0 {
        proof {
            assert(gout.len() == 0);
        }
        return Err(CodecError::MalformedInput(FieldName::Output));
    }
    // Detect the framing from the first word's magnitude.
    let threshold = u64_word(0x100000001);
    let big_prefix = !crate::bigops::big_lt(&output[0], &threshold);
    proof {
        assert(output@[0]@ == gout[0]);
    }
    let count_index: usize = if big_prefix {
        2
    } else {
        0
    };
    let tasks_start: usize = if big_prefix {
        3
    } else {
        1
    };
    proof {
        assert(tasks_start as nat == tasks_start_of(gout));
    }
    proof {
        if count_index < output@.len() {
            assert(output@[count_index as int]@ == gout[count_index as int]);
        }
    }
    // The output's own count is checked only to warn.
    let tl: usize = tops.len();
    let mut warn: bool = false;
    if count_index >= output.len() {
        warn = true;
    } else {
        match word_to_u64(&output[count_index]) {
            Some(c) => {
                warn = !(c == tl as u64);
                proof {
                    assert(be_nat(gout[count_index as int]) == c);
                }
            },
            None => {
                warn = true;
                proof {
                    assert(pow256(8) == 0x10000000000000000nat) by {
                        reveal_with_fuel(pow256, 9);
                    }
                    assert(tl == tops@.len());
                    assert(be_nat(gout[count_index as int]) >= pow256(8));
                }
            },
        }
    }
    proof {
        assert(warn == count_mismatch(gout, tops@));
    }
    let zcount = u64_word(tops.len() as u64);
    proof {
        lemma_be_nat_canonical(zcount@);
    }
    let mut out: Vec<Vec<u8>> = Vec::new();
    out.push(zcount);
    let ghost headv: Seq<Seq<u8>> = seq![be_bytes(tops@.len(), 32)];
    let ghost gstart: nat = tasks_start as nat;
    proof {
        assert(words_view(out@) =~= headv);
        assert(Seq::<Seq<u8>>::empty() + tasks_rec(gout, tops@, 0, gstart)->0 =~= tasks_rec(
            gout,
            tops@,
            0,
            gstart,
        )->0);
    }
    let ghost mut emitted: Seq<Seq<u8>> = Seq::empty();
    let mut q: usize = 0;
    let mut ptr: u64 = tasks_start as u64;
    while q < tops.len()
        invariant
            q <= tops@.len(),
            topologies is Some,
            tops@ == topologies->0@,
            seg_lookup(segments@, output_name()) == Some((begin, end)),
            begin <= end,
            end - begin <= usize::MAX,
            all_present(cells@, begin, end),
            gout == output_words(cells@, begin, end),
            gout == words_view(output@),
            output@.len() == gout.len(),
            gout.len() > 0,
            gout.len() <= usize::MAX,
            gstart == tasks_start_of(gout),
            headv == seq![be_bytes(tops@.len(), 32)],
            words_view(out@) == headv + emitted,
            q < tops@.len() ==> (tasks_rec(gout, tops@, 0, gstart) is Some <==> tasks_rec(
                gout,
                tops@,
                q as int,
                ptr as nat,
            ) is Some),
            q < tops@.len() && tasks_rec(gout, tops@, q as int, ptr as nat) is Some
                ==> tasks_rec(gout, tops@, 0, gstart)->0 == emitted + tasks_rec(
                gout,
                tops@,
                q as int,
                ptr as nat,
            )->0,
            q >= tops@.len() ==> tasks_rec(gout, tops@, 0, gstart) == Some(emitted),
        decreases tops@.len() - q,
    {
        let ghost rem = tasks_rec(gout, tops@, q as int, ptr as nat);
        if ptr >= output.len() as u64 || output.len() as u64 - ptr < 2 {
            proof {
                assert(rem is None);
            }
            return Err(CodecError::MalformedInput(FieldName::Output));
        }
        let pu: usize = ptr as usize;
        let size = match word_to_u64(&output[pu]) {
            Some(s) => s,
            None => {
                proof {
                    assert(output@[pu as int]@ == gout[pu as int]);
                    assert(rem is None);
                }
                return Err(CodecError::MalformedInput(FieldName::Output));
            },
        };
        proof {
            assert(output@[pu as int]@ == gout[pu as int]);
            assert(output@[pu as int + 1]@ == gout[pu as int + 1]);
        }
        let sw = copy_bytes(&output[pu]);
        out.push(sw);
        let hw = copy_bytes(&output[pu + 1]);
        out.push(hw);
        let pairs_count: u64 = (tops[q].tree_structure.len() / 2) as u64;
        let pcw = u64_word(pairs_count);
        proof {
            lemma_be_nat_canonical(pcw@);
        }
        out.push(pcw);
        let ts = &tops[q].tree_structure;
        let mut ti: usize = 0;
        let ghost pre_tree = words_view(out@);
        while ti < ts.len()
            invariant
                ti <= ts@.len(),
                ts@ == tops@[q as int].tree_structure@,
                words_view(out@) == pre_tree + tree_words(ts@).take(ti as int),
            decreases ts@.len() - ti,
        {
            let ghost before = words_view(out@);
            let tw = u64_word(ts[ti]);
            proof {
                lemma_be_nat_canonical(tw@);
            }
            out.push(tw);
            proof {
                assert(words_view(out@) =~= before.push(be_bytes(ts@[ti as int] as nat, 32)));
                assert(tree_words(ts@).take(ti + 1) =~= tree_words(ts@).take(ti as int).push(
                    be_bytes(ts@[ti as int] as nat, 32),
                ));
                assert(pre_tree + tree_words(ts@).take(ti + 1) =~= (pre_tree + tree_words(
                    ts@,
                ).take(ti as int)).push(be_bytes(ts@[ti as int] as nat, 32)));
            }
            ti = ti + 1;
        }
        proof {
            assert(tree_words(ts@).take(ts@.len() as int) =~= tree_words(ts@));
        }
        let ghost tw_q = task_words(gout, tops@[q as int], ptr as nat);
        proof {
            assert(words_view(out@) =~= (headv + emitted) + tw_q);
            assert((headv + emitted) + tw_q =~= headv + (emitted + tw_q));
            let rest = tasks_rec(gout, tops@, q + 1, (ptr + size) as nat);
            assert(rem == (match rest {
                None => None::<Seq<Seq<u8>>>,
                Some(rr) => Some(tw_q + rr),
            }));
            if rest is Some {
                assert(emitted + (tw_q + rest->0) =~= (emitted + tw_q) + rest->0);
            }
        }
        proof {
            emitted = emitted + tw_q;
        }
        if q + 1 < tops.len() {
            let next = match ptr.checked_add(size) {
                Some(n) => {
                    if n > output.len() as u64 {
                        // The pointer has left the output: the next
                        // task's read is already doomed.
                        proof {
                            assert(tasks_rec(gout, tops@, q + 1, (ptr + size) as nat)
                                is None);
                            assert(rem is None);
                        }
                        return Err(CodecError::MalformedInput(FieldName::Output));
                    }
                    n
                },
                None => {
                    proof {
                        assert((ptr + size) as nat + 2 > gout.len());
                        assert(tasks_rec(gout, tops@, q + 1, (ptr + size) as nat) is None);
                        assert(rem is None);
                    }
                    return Err(CodecError::MalformedInput(FieldName::Output));
                },
            };
            ptr = next;
        } else {
            proof {
                assert(tasks_rec(gout, tops@, q + 1, (ptr + size) as nat) == Some(
                    Seq::<Seq<u8>>::empty(),
                ));
                assert(emitted + Seq::<Seq<u8>>::empty() =~= emitted);
            }
        }
        q = q + 1;
        proof {
            if q < tops@.len() {
                assert(tasks_rec(gout, tops@, q as int, ptr as nat) is Some ==> tasks_rec(
                    gout,
                    tops@,
                    0,
                    gstart,
                ) is Some);
            }
        }
    }
    proof {
        assert(task_meta_words(gout, tops@) == Some(headv + emitted));
    }
    Ok((out, warn))
}

} // verus!
