//! The transcript-annotation grammar: recover the two interaction
//! elements (`z`, then `alpha`) the prover's log recorded.
//!
//! A line yields an element when it holds, in order: the text
//! `Interaction element #`, a run of decimal digits, the text
//! `: Field Element(0x`, a run of hex digits, and `)`. Elements are
//! taken in line order; the first is `z`, the second `alpha`.

use vstd::prelude::*;
use crate::bytes::be_nat;
use crate::hexfmt::is_hex_digit;
use crate::hexfmt::hex_nat;
use crate::hexfmt::hex_body;
use crate::hexfmt::is_valid_hex_value;
use crate::hexfmt::parse_hex_value;
use crate::parse::is_dec_digit;

verus! {

/// `Interaction element #` as ASCII bytes.
pub open spec fn interaction_pat() -> Seq<u8> {
    seq![
        0x49u8, 0x6e, 0x74, 0x65, 0x72, 0x61, 0x63, 0x74, 0x69, 0x6f, 0x6e, 0x20, 0x65, 0x6c,
        0x65, 0x6d, 0x65, 0x6e, 0x74, 0x20, 0x23,
    ]
}

/// `: Field Element(0x` as ASCII bytes.
pub open spec fn field_pat() -> Seq<u8> {
    seq![
        0x3au8, 0x20, 0x46, 0x69, 0x65, 0x6c, 0x64, 0x20, 0x45, 0x6c, 0x65, 0x6d, 0x65, 0x6e,
        0x74, 0x28, 0x30, 0x78,
    ]
}

/// Whether `pat` stands in `s` at position `i`.
pub open spec fn matches_at(s: Seq<u8>, pat: Seq<u8>, i: int) -> bool {
    0 <= i && i + pat.len() <= s.len() && s.subrange(i, i + pat.len()) == pat
}

/// The first position at or after `from` where `pat` stands in `s`.
pub open spec fn first_match_from(s: Seq<u8>, pat: Seq<u8>, from: int) -> Option<int>
    decreases s.len() - from when 0 <= from <= s.len()
{
    if from < 0 || from + pat.len() > s.len() {
        None
    } else if matches_at(s, pat, from) {
        Some(from)
    } else if from >= s.len() {
        None
    } else {
        first_match_from(s, pat, from + 1)
    }
}

/// The end of the run of decimal digits starting at `i`.
pub open spec fn dec_run_end(s: Seq<u8>, i: int) -> int
    decreases s.len() - i when 0 <= i <= s.len()
{
    if i < 0 || i >= s.len() {
        i
    } else if is_dec_digit(s[i]) {
        dec_run_end(s, i + 1)
    } else {
        i
    }
}

/// The end of the run of hex digits starting at `i`.
pub open spec fn hex_run_end(s: Seq<u8>, i: int) -> int
    decreases s.len() - i when 0 <= i <= s.len()
{
    if i < 0 || i >= s.len() {
        i
    } else if is_hex_digit(s[i]) {
        hex_run_end(s, i + 1)
    } else {
        i
    }
}

/// The hex digits of the interaction element a line records, if any.
pub open spec fn line_element(line: Seq<u8>) -> Option<Seq<u8>> {
    match first_match_from(line, interaction_pat(), 0) {
        None => None,
        Some(i) => {
            let j = i + interaction_pat().len();
            let j2 = dec_run_end(line, j);
            if j2 == j {
                None
            } else if !matches_at(line, field_pat(), j2) {
                None
            } else {
                let k = j2 + field_pat().len();
                let k2 = hex_run_end(line, k);
                if k2 == k {
                    None
                } else if k2 >= line.len() || line[k2] != 0x29 {
                    None
                } else {
                    Some(line.subrange(k, k2))
                }
            }
        },
    }
}

/// All recorded interaction elements, in line order.
pub open spec fn interaction_elements(lines: Seq<Seq<u8>>) -> Seq<Seq<u8>>
    decreases lines.len(),
{
    if lines.len() == 0 {
        Seq::empty()
    } else {
        interaction_elements(lines.drop_last()) + (match line_element(lines.last()) {
            Some(v) => seq![v],
            None => Seq::empty(),
        })
    }
}

/// Whether `pat` stands in `s` at `i`.
fn matches_at_exec(s: &Vec<u8>, pat: &Vec<u8>, i: usize) -> (r: bool)
    requires
        i <= s@.len(),
    ensures
        r == matches_at(s@, pat@, i as int),
{
    if s.len() - i < pat.len() {
        return false;
    }
    let mut j: usize = 0;
    while j < pat.len()
        invariant
            j <= pat@.len(),
            i + pat@.len() <= s@.len(),
            s@.len() <= usize::MAX,
            forall|t: int| 0 <= t < j ==> s@[i + t] == pat@[t],
        decreases pat@.len() - j,
    {
        if s[i + j] != pat[j] {
            proof {
                assert(s@.subrange(i as int, i + pat@.len())[j as int] != pat@[j as int]);
            }
            return false;
        }
        j = j + 1;
    }
    proof {
        assert(s@.subrange(i as int, i + pat@.len()) =~= pat@);
    }
    true
}

/// The first match of `pat` in `s` at or after `from`.
fn find_from(s: &Vec<u8>, pat: &Vec<u8>, from: usize) -> (r: Option<usize>)
    requires
        from <= s@.len(),
    ensures
        match r {
            Some(i) => first_match_from(s@, pat@, from as int) == Some(i as int),
            None => first_match_from(s@, pat@, from as int) is None,
        },
{
    if pat.len() == 0 {
        proof {
            assert(s@.subrange(from as int, from as int) =~= pat@);
        }
        return Some(from);
    }
    if pat.len() > s.len() || from > s.len() - pat.len() {
        return None;
    }
    let limit: usize = s.len() - pat.len();
    let mut cur: usize = from;
    while cur <= limit
        invariant
            from <= cur <= limit + 1,
            1 <= pat@.len() <= s@.len(),
            s@.len() <= usize::MAX,
            limit == s@.len() - pat@.len(),
            first_match_from(s@, pat@, from as int) == first_match_from(s@, pat@, cur as int),
        decreases limit + 1 - cur,
    {
        if matches_at_exec(s, pat, cur) {
            return Some(cur);
        }
        cur = cur + 1;
    }
    None
}

/// The end of the decimal-digit run at `i`.
fn dec_run_end_exec(s: &Vec<u8>, i: usize) -> (r: usize)
    requires
        i <= s@.len(),
    ensures
        r == dec_run_end(s@, i as int),
        i <= r <= s@.len(),
{
    let mut cur: usize = i;
    while cur < s.len() && s[cur] >= 0x30 && s[cur] <= 0x39
        invariant
            i <= cur <= s@.len(),
            dec_run_end(s@, i as int) == dec_run_end(s@, cur as int),
        decreases s@.len() - cur,
    {
        cur = cur + 1;
    }
    cur
}

/// The end of the hex-digit run at `i`.
fn hex_run_end_exec(s: &Vec<u8>, i: usize) -> (r: usize)
    requires
        i <= s@.len(),
    ensures
        r == hex_run_end(s@, i as int),
        i <= r <= s@.len(),
{
    let mut cur: usize = i;
    while cur < s.len() && (
    (s[cur] >= 0x30 && s[cur] <= 0x39) || (s[cur] >= 0x61 && s[cur] <= 0x66) || (s[cur] >= 0x41
        && s[cur] <= 0x46))
        invariant
            i <= cur <= s@.len(),
            hex_run_end(s@, i as int) == hex_run_end(s@, cur as int),
        decreases s@.len() - cur,
    {
        cur = cur + 1;
    }
    cur
}

/// The hex digits of the element one line records, if any.
fn line_element_exec(line: &Vec<u8>) -> (r: Option<Vec<u8>>)
    ensures
        r is Some <==> line_element(line@) is Some,
        r is Some ==> r->0@ == line_element(line@)->0,
{
    let pat1 = interaction_pat_vec();
    let pat2 = field_pat_vec();
    let llen = line.len();
    proof {
        assert(line@.len() == llen);
    }
    let i = match find_from(line, &pat1, 0) {
        Some(i) => i,
        None => {
            return None;
        },
    };
    proof {
        lemma_first_match_bounds(line@, pat1@, 0, i as int);
    }
    let j = i + pat1.len();
    let j2 = dec_run_end_exec(line, j);
    if j2 == j {
        return None;
    }
    if !matches_at_exec(line, &pat2, j2) {
        return None;
    }
    proof {
        assert(j2 + field_pat().len() <= line@.len());
    }
    let k = j2 + pat2.len();
    let k2 = hex_run_end_exec(line, k);
    if k2 == k {
        return None;
    }
    if k2 >= line.len() || line[k2] != 0x29 {
        return None;
    }
    let mut digits: Vec<u8> = Vec::new();
    let mut t: usize = k;
    while t < k2
        invariant
            k <= t <= k2 <= line@.len(),
            digits@ =~= line@.subrange(k as int, t as int),
        decreases k2 - t,
    {
        digits.push(line[t]);
        proof {
            assert(line@.subrange(k as int, t as int).push(line@[t as int]) =~= line@.subrange(
                k as int,
                t + 1,
            ));
        }
        t = t + 1;
    }
    Some(digits)
}

/// A found match lies inside the string.
proof fn lemma_first_match_bounds(s: Seq<u8>, pat: Seq<u8>, from: int, i: int)
    requires
        0 <= from <= s.len(),
        first_match_from(s, pat, from) == Some(i),
    ensures
        from <= i,
        i + pat.len() <= s.len(),
        matches_at(s, pat, i),
    decreases s.len() - from,
{
    if !(from + pat.len() > s.len()) && !matches_at(s, pat, from) {
        lemma_first_match_bounds(s, pat, from + 1, i);
    }
}

/// `Interaction element #` as a byte vector.
fn interaction_pat_vec() -> (r: Vec<u8>)
    ensures
        r@ == interaction_pat(),
{
    let v: Vec<u8> = vec![
        0x49u8, 0x6e, 0x74, 0x65, 0x72, 0x61, 0x63, 0x74, 0x69, 0x6f, 0x6e, 0x20, 0x65, 0x6c,
        0x65, 0x6d, 0x65, 0x6e, 0x74, 0x20, 0x23,
    ];
    proof {
        assert(v@ =~= interaction_pat());
    }
    v
}

/// `: Field Element(0x` as a byte vector.
fn field_pat_vec() -> (r: Vec<u8>)
    ensures
        r@ == field_pat(),
{
    let v: Vec<u8> = vec![
        0x3au8, 0x20, 0x46, 0x69, 0x65, 0x6c, 0x64, 0x20, 0x45, 0x6c, 0x65, 0x6d, 0x65, 0x6e,
        0x74, 0x28, 0x30, 0x78,
    ];
    proof {
        assert(v@ =~= field_pat());
    }
    v
}

/// The views of the annotation lines.
pub open spec fn lines_view(annotations: Seq<Vec<u8>>) -> Seq<Seq<u8>> {
    annotations.map_values(|v: Vec<u8>| v@)
}

/// The recorded challenges: the first two interaction elements, read
/// as hex numbers, in order `z` then `alpha`. `None` when fewer than
/// two elements are recorded or one is no 32-byte number.
pub open spec fn recorded_challenges(lines: Seq<Seq<u8>>) -> Option<(nat, nat)> {
    let vs = interaction_elements(lines);
    if vs.len() >= 2 && is_valid_hex_value(vs[0]) && is_valid_hex_value(vs[1]) {
        Some((hex_nat(hex_body(vs[0])), hex_nat(hex_body(vs[1]))))
    } else {
        None
    }
}

/// A transcript line recording one interaction element, as the
/// grammar expects it.
pub open spec fn rendered_line(index_digits: Seq<u8>, value_digits: Seq<u8>) -> Seq<u8> {
    interaction_pat() + index_digits + field_pat() + value_digits + seq![0x29u8]
}

proof fn lemma_dec_run_end_exact(s: Seq<u8>, from: int, end: int)
    requires
        0 <= from <= end < s.len(),
        forall|i: int| from <= i < end ==> is_dec_digit(#[trigger] s[i]),
        !is_dec_digit(s[end]),
    ensures
        dec_run_end(s, from) == end,
    decreases end - from,
{
    if from < end {
        lemma_dec_run_end_exact(s, from + 1, end);
    }
}

proof fn lemma_hex_run_end_exact(s: Seq<u8>, from: int, end: int)
    requires
        0 <= from <= end < s.len(),
        forall|i: int| from <= i < end ==> is_hex_digit(#[trigger] s[i]),
        !is_hex_digit(s[end]),
    ensures
        hex_run_end(s, from) == end,
    decreases end - from,
{
    if from < end {
        lemma_hex_run_end_exact(s, from + 1, end);
    }
}

/// The grammar's round trip on one line: a challenge written into a
/// transcript line is read back exactly.
pub proof fn lemma_rendered_line_element(idx: Seq<u8>, val: Seq<u8>)
    requires
        idx.len() > 0,
        forall|i: int| 0 <= i < idx.len() ==> is_dec_digit(#[trigger] idx[i]),
        val.len() > 0,
        forall|i: int| 0 <= i < val.len() ==> is_hex_digit(#[trigger] val[i]),
    ensures
        line_element(rendered_line(idx, val)) == Some(val),
{
    let line = rendered_line(idx, val);
    let p1 = interaction_pat().len() as int;
    let p2 = field_pat().len() as int;
    let j2 = p1 + idx.len() as int;
    let k = j2 + p2;
    let k2 = k + val.len() as int;
    assert(line.len() == k2 + 1);
    assert(line.subrange(0, p1) =~= interaction_pat());
    assert(matches_at(line, interaction_pat(), 0));
    assert(first_match_from(line, interaction_pat(), 0) == Some(0int));
    assert forall|i: int| p1 <= i < j2 implies is_dec_digit(#[trigger] line[i]) by {
        assert(line[i] == idx[i - p1]);
    }
    assert(line[j2] == field_pat()[0]);
    assert(!is_dec_digit(line[j2]));
    lemma_dec_run_end_exact(line, p1, j2);
    assert(line.subrange(j2, j2 + p2) =~= field_pat());
    assert(matches_at(line, field_pat(), j2));
    assert forall|i: int| k <= i < k2 implies is_hex_digit(#[trigger] line[i]) by {
        assert(line[i] == val[i - k]);
    }
    assert(line[k2] == 0x29);
    assert(!is_hex_digit(line[k2]));
    lemma_hex_run_end_exact(line, k, k2);
    assert(line.subrange(k, k2) =~= val);
}

/// The round trip over a whole transcript: two rendered interaction
/// lines are recovered as the recorded `z` and `alpha`, in order.
#[verifier::rlimit(100)]
pub proof fn lemma_recorded_round_trip(idx1: Seq<u8>, v1: Seq<u8>, idx2: Seq<u8>, v2: Seq<u8>)
    requires
        idx1.len() > 0,
        forall|i: int| 0 <= i < idx1.len() ==> is_dec_digit(#[trigger] idx1[i]),
        idx2.len() > 0,
        forall|i: int| 0 <= i < idx2.len() ==> is_dec_digit(#[trigger] idx2[i]),
        v1.len() > 0,
        forall|i: int| 0 <= i < v1.len() ==> is_hex_digit(#[trigger] v1[i]),
        hex_nat(v1) < crate::bytes::pow256(32),
        v2.len() > 0,
        forall|i: int| 0 <= i < v2.len() ==> is_hex_digit(#[trigger] v2[i]),
        hex_nat(v2) < crate::bytes::pow256(32),
    ensures
        recorded_challenges(seq![rendered_line(idx1, v1), rendered_line(idx2, v2)]) == Some(
            (hex_nat(v1), hex_nat(v2)),
        ),
{
    lemma_rendered_line_element(idx1, v1);
    lemma_rendered_line_element(idx2, v2);
    lemma_recorded_of_two(rendered_line(idx1, v1), rendered_line(idx2, v2), v1, v2);
}

/// Two lines that each record an element give exactly those two
/// recorded challenges.
proof fn lemma_recorded_of_two(l1: Seq<u8>, l2: Seq<u8>, v1: Seq<u8>, v2: Seq<u8>)
    requires
        line_element(l1) == Some(v1),
        line_element(l2) == Some(v2),
        v1.len() > 0,
        forall|i: int| 0 <= i < v1.len() ==> is_hex_digit(#[trigger] v1[i]),
        hex_nat(v1) < crate::bytes::pow256(32),
        v2.len() > 0,
        forall|i: int| 0 <= i < v2.len() ==> is_hex_digit(#[trigger] v2[i]),
        hex_nat(v2) < crate::bytes::pow256(32),
    ensures
        recorded_challenges(seq![l1, l2]) == Some((hex_nat(v1), hex_nat(v2))),
{
    let lines = seq![l1, l2];
    assert(lines.drop_last() =~= seq![l1]);
    assert(lines.last() == l2);
    assert(seq![l1].drop_last() =~= Seq::<Seq<u8>>::empty());
    assert(seq![l1].last() == l1);
    assert(interaction_elements(Seq::<Seq<u8>>::empty()) =~= Seq::<Seq<u8>>::empty());
    assert(interaction_elements(seq![l1]) =~= seq![v1]);
    assert(interaction_elements(lines) =~= seq![v1, v2]);
    lemma_digit_run_is_own_body(v1);
    lemma_digit_run_is_own_body(v2);
    assert(is_valid_hex_value(v1));
    assert(is_valid_hex_value(v2));
}

/// A pure digit run carries no `0x` prefix to strip.
proof fn lemma_digit_run_is_own_body(v: Seq<u8>)
    requires
        v.len() > 0,
        forall|i: int| 0 <= i < v.len() ==> is_hex_digit(#[trigger] v[i]),
    ensures
        hex_body(v) == v,
{
    if v.len() >= 2 {
        assert(is_hex_digit(v[1]));
        assert(v[1] != 0x78 && v[1] != 0x58);
    }
}

/// Recover the recorded `z` and `alpha` words from the annotations.
pub fn extract_challenges(annotations: &Vec<Vec<u8>>) -> (r: Option<(Vec<u8>, Vec<u8>)>)
    ensures
        r is Some <==> recorded_challenges(lines_view(annotations@)) is Some,
        r is Some ==> ({
            let c = recorded_challenges(lines_view(annotations@))->0;
            let pair = r->0;
            &&& pair.0@.len() == 32
            &&& pair.1@.len() == 32
            &&& be_nat(pair.0@) == c.0
            &&& be_nat(pair.1@) == c.1
        }),
{
    let mut found: Vec<Vec<u8>> = Vec::new();
    let mut i: usize = 0;
    while i < annotations.len()
        invariant
            i <= annotations@.len(),
            found@.map_values(|v: Vec<u8>| v@) == interaction_elements(
                lines_view(annotations@.take(i as int)),
            ),
        decreases annotations@.len() - i,
    {
        let ghost pre = found@.map_values(|v: Vec<u8>| v@);
        proof {
            assert(lines_view(annotations@.take(i + 1)).drop_last() =~= lines_view(
                annotations@.take(i as int),
            ));
            assert(lines_view(annotations@.take(i + 1)).last() == annotations@[i as int]@);
        }
        match line_element_exec(&annotations[i]) {
            Some(v) => {
                found.push(v);
                proof {
                    assert(found@.map_values(|v: Vec<u8>| v@) =~= pre + seq![
                        line_element(annotations@[i as int]@)->0,
                    ]);
                }
            },
            None => {
                proof {
                    assert(found@.map_values(|v: Vec<u8>| v@) =~= pre);
                }
            },
        }
        i = i + 1;
    }
    proof {
        assert(annotations@.take(annotations@.len() as int) =~= annotations@);
    }
    if found.len() < 2 {
        return None;
    }
    let zw = match parse_hex_value(&found[0]) {
        Some(w) => w,
        None => {
            return None;
        },
    };
    let aw = match parse_hex_value(&found[1]) {
        Some(w) => w,
        None => {
            return None;
        },
    };
    proof {
        assert(found@.map_values(|v: Vec<u8>| v@)[0] == found@[0]@);
        assert(found@.map_values(|v: Vec<u8>| v@)[1] == found@[1]@);
    }
    Some((zw, aw))
}

} // verus!
