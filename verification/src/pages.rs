//! The memory page modeler: partition the public memory cells into
//! one regular page (page 0) and zero or more continuous pages, the
//! page list sorted ascending by page id.

use vstd::prelude::*;
use crate::bytes::copy_bytes;
use crate::model::CodecError;
use crate::model::MemoryCell;

verus! {

/// Page 0: (address, value) pairs in original cell order.
#[derive(Debug)]
pub struct RegularPage {
    pub pairs: Vec<(u64, Vec<u8>)>,
}

/// A page with id above 0: a dense run of values from a start address.
#[derive(Debug)]
pub struct ContinuousPage {
    pub page_id: u64,
    pub start_address: u64,
    pub values: Vec<Vec<u8>>,
}

/// The partitioned public memory.
#[derive(Debug)]
pub struct PageFacts {
    /// Present exactly when some cell lives on page 0.
    pub regular: Option<RegularPage>,
    /// Ascending by page id; every id above 0 that owns a cell.
    pub continuous: Vec<ContinuousPage>,
}

/// The cells of one page, in original order.
pub open spec fn page_cells(cells: Seq<MemoryCell>, page: u64) -> Seq<MemoryCell> {
    cells.filter(|c: MemoryCell| c.page == page)
}

/// Whether any cell lives on the page.
pub open spec fn has_page(cells: Seq<MemoryCell>, page: u64) -> bool {
    exists|i: int| 0 <= i < cells.len() && (#[trigger] cells[i]).page == page
}

/// The field's additive identity as a 32-byte word.
pub open spec fn zero_word() -> Seq<u8> {
    Seq::new(32, |i: int| 0u8)
}

/// The value of the last cell with the given address, or the zero
/// word when no cell has it.
pub open spec fn last_value_at(cs: Seq<MemoryCell>, addr: u64) -> Seq<u8>
    decreases cs.len(),
{
    if cs.len() == 0 {
        zero_word()
    } else if cs.last().address == addr {
        cs.last().value@
    } else {
        last_value_at(cs.drop_last(), addr)
    }
}

/// The smallest address among the cells.
pub open spec fn min_addr(cs: Seq<MemoryCell>) -> u64
    decreases cs.len(),
{
    if cs.len() <= 1 {
        if cs.len() == 0 {
            0
        } else {
            cs[0].address
        }
    } else if cs.last().address < min_addr(cs.drop_last()) {
        cs.last().address
    } else {
        min_addr(cs.drop_last())
    }
}

/// The largest address among the cells.
pub open spec fn max_addr(cs: Seq<MemoryCell>) -> u64
    decreases cs.len(),
{
    if cs.len() <= 1 {
        if cs.len() == 0 {
            0
        } else {
            cs[0].address
        }
    } else if cs.last().address > max_addr(cs.drop_last()) {
        cs.last().address
    } else {
        max_addr(cs.drop_last())
    }
}

/// Every address lies between the minimum and the maximum.
pub proof fn lemma_addr_bounds(cs: Seq<MemoryCell>, i: int)
    requires
        0 <= i < cs.len(),
    ensures
        min_addr(cs) <= cs[i].address <= max_addr(cs),
    decreases cs.len(),
{
    if cs.len() == 1 {
    } else if i == cs.len() - 1 {
        if cs.len() > 1 {
            lemma_addr_bounds(cs.drop_last(), 0);
        }
    } else {
        lemma_addr_bounds(cs.drop_last(), i);
    }
}

/// The 32-byte zero word.
pub fn zero_word_vec() -> (r: Vec<u8>)
    ensures
        r@ == zero_word(),
{
    let mut r: Vec<u8> = Vec::new();
    let mut i: usize = 0;
    while i < 32
        invariant
            i <= 32,
            r@.len() == i,
            forall|j: int| 0 <= j < i ==> r@[j] == 0,
        decreases 32 - i,
    {
        r.push(0);
        i = i + 1;
    }
    proof {
        assert(r@ =~= zero_word());
    }
    r
}

/// The distinct page ids of the cells, ascending.
pub fn sorted_page_ids(cells: &Vec<MemoryCell>) -> (r: Vec<u64>)
    ensures
        forall|i: int, j: int| 0 <= i < j < r@.len() ==> r@[i] < r@[j],
        forall|p: u64| r@.contains(p) <==> has_page(cells@, p),
        r@.len() <= cells@.len(),
{
    let mut r: Vec<u64> = Vec::new();
    let mut k: usize = 0;
    while k < cells.len()
        invariant
            k <= cells@.len(),
            r@.len() <= k,
            forall|i: int, j: int| 0 <= i < j < r@.len() ==> r@[i] < r@[j],
            forall|p: u64| r@.contains(p) <==> has_page(cells@.take(k as int), p),
        decreases cells@.len() - k,
    {
        let id = cells[k].page;
        let mut pos: usize = 0;
        while pos < r.len() && r[pos] < id
            invariant
                pos <= r@.len(),
                forall|i: int, j: int| 0 <= i < j < r@.len() ==> r@[i] < r@[j],
                forall|i: int| 0 <= i < pos ==> r@[i] < id,
            decreases r@.len() - pos,
        {
            pos = pos + 1;
        }
        let ghost old_r = r@;
        if pos == r.len() || r[pos] != id {
            r.insert(pos, id);
            proof {
                assert(r@ =~= old_r.insert(pos as int, id));
                assert(forall|i: int|
                    0 <= i < r@.len() ==> r@[i] == (if i < pos {
                        old_r[i]
                    } else if i == pos {
                        id
                    } else {
                        old_r[i - 1]
                    }));
                assert forall|p: u64| #[trigger] r@.contains(p) <==> (old_r.contains(p) || p
                    == id) by {
                    if r@.contains(p) {
                        let w = choose|i: int| 0 <= i < r@.len() && r@[i] == p;
                        if w < pos {
                            assert(old_r[w] == p);
                            assert(old_r.contains(p));
                        } else if w > pos {
                            assert(old_r[w - 1] == p);
                            assert(old_r.contains(p));
                        } else {
                            assert(p == id);
                        }
                    }
                    if p == id {
                        assert(r@[pos as int] == p);
                        assert(r@.contains(p));
                    } else if old_r.contains(p) {
                        let w2 = choose|i: int| 0 <= i < old_r.len() && old_r[i] == p;
                        if w2 < pos {
                            assert(r@[w2] == p);
                        } else {
                            assert(r@[w2 + 1] == p);
                        }
                        assert(r@.contains(p));
                    }
                }
            }
        } else {
            proof {
                assert(old_r[pos as int] == id);
                assert(old_r.contains(id));
                assert(forall|p: u64|
                    #[trigger] r@.contains(p) <==> (old_r.contains(p) || p == id));
            }
        }
        proof {
            assert forall|p: u64| has_page(cells@.take(k + 1), p) implies r@.contains(p) by {
                let w = choose|i: int|
                    0 <= i < cells@.take(k + 1).len() && (#[trigger] cells@.take(k + 1)[i]).page
                        == p;
                assert(0 <= w < k + 1);
                if w < k {
                    assert(has_page(cells@.take(k as int), p)) by {
                        assert(cells@.take(k as int)[w].page == p);
                    }
                    assert(old_r.contains(p));
                } else {
                    assert(cells@.take(k + 1)[k as int] == cells@[k as int]);
                    assert(p == id);
                }
                assert(r@.contains(p));
            }
            assert forall|p: u64| r@.contains(p) implies has_page(cells@.take(k + 1), p) by {
                assert(old_r.contains(p) || p == id);
                if p == id {
                    assert(cells@.take(k + 1)[k as int].page == p);
                } else {
                    let w = choose|i: int|
                        0 <= i < cells@.take(k as int).len() && (#[trigger] cells@.take(
                            k as int,
                        )[i]).page == p;
                    assert(cells@.take(k + 1)[w].page == p);
                }
            }
        }
        k = k + 1;
    }
    proof {
        assert(cells@.take(cells@.len() as int) =~= cells@);
    }
    r
}

/// The regular page holds page 0's (address, value) pairs in cell
/// order.
pub open spec fn regular_page_matches(cells: Seq<MemoryCell>, rp: RegularPage) -> bool {
    &&& rp.pairs@.len() == page_cells(cells, 0).len()
    &&& forall|i: int|
        0 <= i < rp.pairs@.len() ==> (#[trigger] rp.pairs@[i]).0 == page_cells(
            cells,
            0,
        )[i].address && rp.pairs@[i].1@ == page_cells(cells, 0)[i].value@
}

/// A continuous page covers its page's address range densely: entry
/// `k` holds the last value written at `start_address + k`, or the
/// zero word.
pub open spec fn continuous_page_matches(cells: Seq<MemoryCell>, cp: ContinuousPage) -> bool {
    let pc = page_cells(cells, cp.page_id);
    &&& cp.start_address == min_addr(pc)
    &&& cp.values@.len() == max_addr(pc) - min_addr(pc) + 1
    &&& forall|k: int|
        0 <= k < cp.values@.len() ==> (#[trigger] cp.values@[k])@ == last_value_at(
            pc,
            (min_addr(pc) + k) as u64,
        )
}

/// Page 0's pairs, in the order the cells arrived.
pub fn build_regular_page(cells: &Vec<MemoryCell>) -> (r: RegularPage)
    ensures
        regular_page_matches(cells@, r),
{
    broadcast use Seq::lemma_filter_push;

    let mut pairs: Vec<(u64, Vec<u8>)> = Vec::new();
    let mut k: usize = 0;
    while k < cells.len()
        invariant
            k <= cells@.len(),
            pairs@.len() == page_cells(cells@.take(k as int), 0).len(),
            forall|i: int|
                0 <= i < pairs@.len() ==> (#[trigger] pairs@[i]).0 == page_cells(
                    cells@.take(k as int),
                    0,
                )[i].address && pairs@[i].1@ == page_cells(cells@.take(k as int), 0)[i].value@,
        decreases cells@.len() - k,
    {
        let ghost pre = page_cells(cells@.take(k as int), 0);
        let ghost c = cells@[k as int];
        proof {
            assert(cells@.take(k + 1) =~= cells@.take(k as int).push(c));
        }
        if cells[k].page == 0 {
            let address = cells[k].address;
            let value = copy_bytes(&cells[k].value);
            pairs.push((address, value));
            proof {
                broadcast use Seq::lemma_filter_push;

                assert(page_cells(cells@.take(k as int).push(c), 0) == pre.push(c));
                assert(page_cells(cells@.take(k + 1), 0) == pre.push(c));
            }
        } else {
            proof {
                broadcast use Seq::lemma_filter_push;

                assert(page_cells(cells@.take(k as int).push(c), 0) == pre);
                assert(page_cells(cells@.take(k + 1), 0) == pre);
            }
        }
        k = k + 1;
    }
    proof {
        assert(cells@.take(cells@.len() as int) =~= cells@);
    }
    RegularPage { pairs }
}

/// Build one continuous page: the dense value run over the page's
/// address range, unseen addresses filled with the zero word, a later
/// cell for an address overriding an earlier one.
pub fn build_continuous_page(cells: &Vec<MemoryCell>, page_id: u64) -> (r: Result<
    ContinuousPage,
    CodecError,
>)
    requires
        has_page(cells@, page_id),
    ensures
        r is Ok ==> r->Ok_0.page_id == page_id && continuous_page_matches(cells@, r->Ok_0),
        r is Ok <==> max_addr(page_cells(cells@, page_id)) - min_addr(page_cells(cells@, page_id))
            < usize::MAX,
        r is Err ==> r->Err_0 == CodecError::ArithmeticInconsistency,
{
    let ghost pc = page_cells(cells@, page_id);
    let mut found = false;
    let mut mn: u64 = 0;
    let mut mx: u64 = 0;
    let mut k: usize = 0;
    while k < cells.len()
        invariant
            k <= cells@.len(),
            found == (page_cells(cells@.take(k as int), page_id).len() > 0),
            found ==> mn == min_addr(page_cells(cells@.take(k as int), page_id)) && mx
                == max_addr(page_cells(cells@.take(k as int), page_id)),
        decreases cells@.len() - k,
    {
        let ghost pck = page_cells(cells@.take(k as int), page_id);
        let ghost c = cells@[k as int];
        proof {
            broadcast use Seq::lemma_filter_push;

            assert(cells@.take(k + 1) =~= cells@.take(k as int).push(c));
        }
        if cells[k].page == page_id {
            proof {
                assert(page_cells(cells@.take(k + 1), page_id) == pck.push(c));
                assert(pck.push(c).drop_last() =~= pck);
                assert(pck.push(c).last() == c);
            }
            if !found {
                found = true;
                mn = cells[k].address;
                mx = cells[k].address;
                proof {
                    assert(pck.push(c).len() == 1);
                    assert(pck.push(c)[0] == c);
                }
            } else {
                if cells[k].address < mn {
                    mn = cells[k].address;
                }
                if cells[k].address > mx {
                    mx = cells[k].address;
                }
                proof {
                    assert(pck.push(c).len() > 1);
                }
            }
        } else {
            proof {
                assert(page_cells(cells@.take(k + 1), page_id) == pck);
            }
        }
        k = k + 1;
    }
    proof {
        assert(cells@.take(cells@.len() as int) =~= cells@);
        let w = choose|i: int| 0 <= i < cells@.len() && (#[trigger] cells@[i]).page == page_id;
        broadcast use vstd::seq_lib::group_filter_ensures;
        assert(pc.contains(cells@[w]));
        assert(pc.len() > 0);
        assert(found);
    }
    if mx - mn >= usize::MAX as u64 {
        return Err(CodecError::ArithmeticInconsistency);
    }
    let n: usize = (mx - mn + 1) as usize;
    let mut values: Vec<Vec<u8>> = Vec::new();
    while values.len() < n
        invariant
            values@.len() <= n,
            forall|j: int| 0 <= j < values@.len() ==> (#[trigger] values@[j])@ == zero_word(),
        decreases n - values@.len(),
    {
        values.push(zero_word_vec());
    }
    let mut i: usize = 0;
    while i < cells.len()
        invariant
            i <= cells@.len(),
            pc == page_cells(cells@, page_id),
            mn == min_addr(pc),
            mx == max_addr(pc),
            n == mx - mn + 1,
            values@.len() == n,
            forall|j: int|
                0 <= j < n ==> (#[trigger] values@[j])@ == last_value_at(
                    page_cells(cells@.take(i as int), page_id),
                    (mn + j) as u64,
                ),
        decreases cells@.len() - i,
    {
        let ghost pck = page_cells(cells@.take(i as int), page_id);
        let ghost c = cells@[i as int];
        proof {
            broadcast use Seq::lemma_filter_push;

            assert(cells@.take(i + 1) =~= cells@.take(i as int).push(c));
        }
        if cells[i].page == page_id {
            proof {
                assert(page_cells(cells@.take(i + 1), page_id) == pck.push(c));
                assert(pck.push(c).drop_last() =~= pck);
                assert(pck.push(c).last() == c);
                broadcast use vstd::seq_lib::group_filter_ensures;
                assert(pc.contains(c)) by {
                    assert(cells@[i as int].page == page_id);
                }
                let w = choose|t: int| 0 <= t < pc.len() && pc[t] == c;
                lemma_addr_bounds(pc, w);
                assert(mn <= c.address <= mx);
            }
            let idx: usize = (cells[i].address - mn) as usize;
            values[idx] = copy_bytes(&cells[i].value);
            proof {
                assert forall|j: int|
                    0 <= j < n implies (#[trigger] values@[j])@ == last_value_at(
                    page_cells(cells@.take(i + 1), page_id),
                    (mn + j) as u64,
                ) by {
                    if j == idx {
                        assert(mn + j == c.address);
                        assert(last_value_at(pck.push(c), (mn + j) as u64) == c.value@);
                    } else {
                        assert(mn + j != c.address);
                        assert(last_value_at(pck.push(c), (mn + j) as u64) == last_value_at(
                            pck,
                            (mn + j) as u64,
                        ));
                    }
                }
            }
        } else {
            proof {
                assert(page_cells(cells@.take(i + 1), page_id) == pck);
            }
        }
        i = i + 1;
    }
    proof {
        assert(cells@.take(cells@.len() as int) =~= cells@);
    }
    Ok(ContinuousPage { page_id, start_address: mn, values })
}

/// The partition as a whole: the regular page exactly when page 0
/// owns a cell, and one continuous page per remaining id, ascending.
/// A page without cells never appears.
pub open spec fn page_facts_match(cells: Seq<MemoryCell>, f: PageFacts) -> bool {
    &&& (f.regular is Some <==> has_page(cells, 0))
    &&& (f.regular is Some ==> regular_page_matches(cells, f.regular->0))
    &&& forall|q1: int, q2: int|
        0 <= q1 < q2 < f.continuous@.len() ==> (#[trigger] f.continuous@[q1]).page_id
            < (#[trigger] f.continuous@[q2]).page_id
    &&& forall|q: int|
        0 <= q < f.continuous@.len() ==> (#[trigger] f.continuous@[q]).page_id != 0 && has_page(
            cells,
            f.continuous@[q].page_id,
        ) && continuous_page_matches(cells, f.continuous@[q])
    &&& forall|p: u64|
        p != 0 && has_page(cells, p) ==> exists|q: int|
            0 <= q < f.continuous@.len() && (#[trigger] f.continuous@[q]).page_id == p
}

/// Two strictly ascending sequences with the same members are the
/// same sequence.
proof fn lemma_ascending_same_members(s1: Seq<u64>, s2: Seq<u64>)
    requires
        forall|i: int, j: int| 0 <= i < j < s1.len() ==> s1[i] < s1[j],
        forall|i: int, j: int| 0 <= i < j < s2.len() ==> s2[i] < s2[j],
        forall|p: u64| s1.contains(p) <==> s2.contains(p),
    ensures
        s1 == s2,
    decreases s1.len(),
{
    if s1.len() == 0 {
        if s2.len() > 0 {
            assert(s2.contains(s2[0]));
            assert(false);
        }
        assert(s1 =~= s2);
    } else {
        assert(s1.contains(s1[0]));
        let j = choose|j: int| 0 <= j < s2.len() && s2[j] == s1[0];
        if j > 0 {
            assert(s2.contains(s2[0]));
            let i = choose|i: int| 0 <= i < s1.len() && s1[i] == s2[0];
            assert(s2[0] < s2[j]);
            assert(s1[0] <= s1[i]);
            assert(false);
        }
        assert(s1[0] == s2[0]);
        let t1 = s1.skip(1);
        let t2 = s2.skip(1);
        assert forall|p: u64| t1.contains(p) implies t2.contains(p) by {
            let i = choose|i: int| 0 <= i < t1.len() && t1[i] == p;
            assert(s1[i + 1] == p);
            assert(s1[0] < p);
            assert(s2.contains(p));
            let j2 = choose|j2: int| 0 <= j2 < s2.len() && s2[j2] == p;
            assert(j2 > 0);
            assert(t2[j2 - 1] == p);
        }
        assert forall|p: u64| t2.contains(p) implies t1.contains(p) by {
            let i = choose|i: int| 0 <= i < t2.len() && t2[i] == p;
            assert(s2[i + 1] == p);
            assert(s2[0] < p);
            assert(s1.contains(p));
            let j2 = choose|j2: int| 0 <= j2 < s1.len() && s1[j2] == p;
            assert(j2 > 0);
            assert(t1[j2 - 1] == p);
        }
        lemma_ascending_same_members(t1, t2);
        assert(s1.len() == s2.len());
        assert forall|i: int| 0 <= i < s1.len() implies s1[i] == s2[i] by {
            if i > 0 {
                assert(t1[i - 1] == t2[i - 1]);
            }
        }
        assert(s1 =~= s2);
    }
}

/// The partition is unique up to views: any two matching partitions
/// list the same pages with the same contents.
pub proof fn lemma_page_facts_views_unique(cells: Seq<MemoryCell>, pf1: PageFacts, pf2: PageFacts)
    requires
        page_facts_match(cells, pf1),
        page_facts_match(cells, pf2),
    ensures
        pf1.regular is Some <==> pf2.regular is Some,
        pf1.regular is Some ==> pf1.regular->0.pairs@.len() == pf2.regular->0.pairs@.len()
            && (forall|i: int|
            0 <= i < pf1.regular->0.pairs@.len() ==> (#[trigger] pf1.regular->0.pairs@[i]).0
                == pf2.regular->0.pairs@[i].0 && pf1.regular->0.pairs@[i].1@
                == pf2.regular->0.pairs@[i].1@),
        pf1.continuous@.len() == pf2.continuous@.len(),
        forall|q: int|
            0 <= q < pf1.continuous@.len() ==> ({
                let c1 = #[trigger] pf1.continuous@[q];
                let c2 = pf2.continuous@[q];
                &&& c1.page_id == c2.page_id
                &&& c1.start_address == c2.start_address
                &&& c1.values@.len() == c2.values@.len()
                &&& (forall|i: int|
                    0 <= i < c1.values@.len() ==> (#[trigger] c1.values@[i])@ == c2.values@[i]@)
            }),
{
    let is1 = Seq::new(pf1.continuous@.len(), |q: int| pf1.continuous@[q].page_id);
    let is2 = Seq::new(pf2.continuous@.len(), |q: int| pf2.continuous@[q].page_id);
    assert forall|p: u64| is1.contains(p) implies is2.contains(p) by {
        let q = choose|q: int| 0 <= q < is1.len() && is1[q] == p;
        assert(pf1.continuous@[q].page_id == p);
        assert(p != 0 && has_page(cells, p));
        let q2 = choose|q2: int|
            0 <= q2 < pf2.continuous@.len() && (#[trigger] pf2.continuous@[q2]).page_id == p;
        assert(is2[q2] == p);
    }
    assert forall|p: u64| is2.contains(p) implies is1.contains(p) by {
        let q = choose|q: int| 0 <= q < is2.len() && is2[q] == p;
        assert(pf2.continuous@[q].page_id == p);
        assert(p != 0 && has_page(cells, p));
        let q2 = choose|q2: int|
            0 <= q2 < pf1.continuous@.len() && (#[trigger] pf1.continuous@[q2]).page_id == p;
        assert(is1[q2] == p);
    }
    lemma_ascending_same_members(is1, is2);
    assert forall|q: int| 0 <= q < pf1.continuous@.len() implies ({
        let c1 = #[trigger] pf1.continuous@[q];
        let c2 = pf2.continuous@[q];
        &&& c1.page_id == c2.page_id
        &&& c1.start_address == c2.start_address
        &&& c1.values@.len() == c2.values@.len()
        &&& (forall|i: int|
            0 <= i < c1.values@.len() ==> (#[trigger] c1.values@[i])@ == c2.values@[i]@)
    }) by {
        assert(is1[q] == is2[q]);
        assert(pf1.continuous@[q].page_id == pf2.continuous@[q].page_id);
        assert(continuous_page_matches(cells, pf1.continuous@[q]));
        assert(continuous_page_matches(cells, pf2.continuous@[q]));
    }
    if pf1.regular is Some {
        assert(has_page(cells, 0));
    }
    if pf2.regular is Some {
        assert(has_page(cells, 0));
    }
}

/// Every non-zero page's address range fits addressable memory.
pub open spec fn all_page_ranges_fit(cells: Seq<MemoryCell>) -> bool {
    forall|p: u64|
        p != 0 && #[trigger] has_page(cells, p) ==> max_addr(page_cells(cells, p)) - min_addr(
            page_cells(cells, p),
        ) < usize::MAX
}

/// Partition the public memory into its pages.
#[verifier::rlimit(100)]
pub fn build_page_facts(cells: &Vec<MemoryCell>) -> (r: Result<PageFacts, CodecError>)
    ensures
        r is Ok ==> page_facts_match(cells@, r->Ok_0),
        r is Ok ==> r->Ok_0.continuous@.len() <= cells@.len(),
        r is Ok <==> all_page_ranges_fit(cells@),
        r is Err ==> r->Err_0 == CodecError::ArithmeticInconsistency,
{
    let ids = sorted_page_ids(cells);
    let mut regular: Option<RegularPage> = None;
    let mut continuous: Vec<ContinuousPage> = Vec::new();
    let mut zoff: usize = 0;
    let mut k: usize = 0;
    while k < ids.len()
        invariant
            k <= ids@.len(),
            ids@.len() <= cells@.len(),
            zoff <= 1,
            zoff <= k,
            forall|i: int, j: int| 0 <= i < j < ids@.len() ==> ids@[i] < ids@[j],
            forall|p: u64| ids@.contains(p) <==> has_page(cells@, p),
            continuous@.len() + zoff == k,
            zoff == 1 ==> ids@[0] == 0,
            zoff == 0 && k > 0 ==> ids@[0] != 0,
            (regular is Some) <==> zoff == 1,
            regular is Some ==> regular_page_matches(cells@, regular->0),
            forall|q: int|
                0 <= q < continuous@.len() ==> (#[trigger] continuous@[q]).page_id == ids@[q
                    + zoff],
            forall|q: int|
                0 <= q < continuous@.len() ==> continuous_page_matches(
                    cells@,
                    #[trigger] continuous@[q],
                ),
            forall|i: int|
                0 <= i < k && #[trigger] ids@[i] != 0 ==> max_addr(page_cells(cells@, ids@[i]))
                    - min_addr(page_cells(cells@, ids@[i])) < usize::MAX,
        decreases ids@.len() - k,
    {
        let id = ids[k];
        proof {
            assert(ids@.contains(id)) by {
                assert(ids@[k as int] == id);
            }
        }
        if id == 0 {
            proof {
                // ids are strictly ascending, so a zero id can only be
                // first.
                if k > 0 {
                    assert(ids@[0] < ids@[k as int]);
                    assert(false);
                }
            }
            regular = Some(build_regular_page(cells));
            zoff = 1;
        } else {
            match build_continuous_page(cells, id) {
                Ok(p) => {
                    let ghost oldc = continuous@;
                    continuous.push(p);
                    proof {
                        assert(continuous@ =~= oldc.push(p));
                        assert(continuous@[continuous@.len() - 1].page_id == ids@[
                        continuous@.len() - 1 + zoff]);
                    }
                },
                Err(e) => {
                    proof {
                        assert(has_page(cells@, id)) by {
                            assert(ids@.contains(id));
                        }
                        assert(!all_page_ranges_fit(cells@));
                    }
                    return Err(e);
                },
            }
        }
        k = k + 1;
    }
    proof {
        assert forall|q: int|
            0 <= q < continuous@.len() implies (#[trigger] continuous@[q]).page_id != 0
            && has_page(cells@, continuous@[q].page_id) by {
            assert(continuous@[q].page_id == ids@[q + zoff]);
            if ids@[q + zoff] == 0 {
                assert(q + zoff > 0 ==> ids@[0] < ids@[q + zoff]);
                assert(q + zoff == 0);
                assert(zoff == 0 && k > 0);
                assert(false);
            }
            assert(ids@.contains(ids@[q + zoff]));
        }
        assert forall|q1: int, q2: int|
            0 <= q1 < q2 < continuous@.len() implies (#[trigger] continuous@[q1]).page_id
            < (#[trigger] continuous@[q2]).page_id by {
            assert(ids@[q1 + zoff] < ids@[q2 + zoff]);
        }
        if regular is Some {
            assert(ids@.contains(ids@[0]));
        }
        if has_page(cells@, 0) {
            assert(ids@.contains(0));
            let i = choose|i: int| 0 <= i < ids@.len() && ids@[i] == 0;
            if i > 0 {
                assert(ids@[0] < ids@[i]);
                assert(false);
            }
            assert(zoff == 1);
        }
    }
    proof {
        assert forall|p: u64| p != 0 && #[trigger] has_page(cells@, p) implies max_addr(
            page_cells(cells@, p),
        ) - min_addr(page_cells(cells@, p)) < usize::MAX by {
            assert(ids@.contains(p));
            let i = choose|i: int| 0 <= i < ids@.len() && ids@[i] == p;
        }
        assert(all_page_ranges_fit(cells@));
    }
    let ghost gcont = continuous@;
    let f = PageFacts { regular, continuous };
    proof {
        assert(f.continuous@ == gcont);
        assert forall|p: u64|
            p != 0 && has_page(cells@, p) implies exists|q: int|
            0 <= q < f.continuous@.len() && (#[trigger] f.continuous@[q]).page_id == p by {
            assert(ids@.contains(p));
            let i = choose|i: int| 0 <= i < ids@.len() && ids@[i] == p;
            if i < zoff {
                assert(false);
            }
            assert(f.continuous@[i - zoff].page_id == ids@[i]);
        }
    }
    Ok(f)
}

} // verus!
