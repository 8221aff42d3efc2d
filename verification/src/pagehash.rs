//! Page commitments: the two hashing schemes.
//!
//! The regular page hashes every (address, value) pair, each side
//! padded to a 32-byte word; a continuous page hashes its values
//! only, the addresses carried separately as one start address.

use vstd::prelude::*;
use crate::bytes::be_nat;
use crate::bytes::be_bytes;
use crate::bytes::lemma_be_bytes_len;
use crate::bytes::lemma_be_nat_canonical;
use crate::bytes::copy_bytes;
use crate::bytes::u64_word;
use crate::hash::keccak_of;
use crate::hash::keccak256;
use crate::pages::RegularPage;
use crate::pages::ContinuousPage;
use crate::products::pair_view;
use crate::products::pairs_view;

verus! {

/// Words laid end to end.
pub open spec fn concat_words(ws: Seq<Seq<u8>>) -> Seq<u8>
    decreases ws.len(),
{
    if ws.len() == 0 {
        Seq::empty()
    } else {
        concat_words(ws.drop_last()) + ws.last()
    }
}

/// The regular page's hash input: for each pair the 32-byte address
/// word then the 32-byte value word, in cell order.
pub open spec fn pair_blocks(ps: Seq<(u64, Seq<u8>)>) -> Seq<u8>
    decreases ps.len(),
{
    if ps.len() == 0 {
        Seq::empty()
    } else {
        pair_blocks(ps.drop_last()) + be_bytes(ps.last().0 as nat, 32) + ps.last().1
    }
}

/// The regular page hash: keccak over the interleaved pair words.
pub fn hash_regular_page(rp: &RegularPage) -> (r: Vec<u8>)
    ensures
        r@.len() == 32,
        r@ == keccak_of(pair_blocks(pairs_view(rp.pairs@))),
{
    let mut buf: Vec<u8> = Vec::new();
    let mut i: usize = 0;
    while i < rp.pairs.len()
        invariant
            i <= rp.pairs@.len(),
            buf@ == pair_blocks(pairs_view(rp.pairs@.take(i as int))),
        decreases rp.pairs@.len() - i,
    {
        let ghost pre = pairs_view(rp.pairs@.take(i as int));
        let mut aw = u64_word(rp.pairs[i].0);
        proof {
            lemma_be_nat_canonical(aw@);
        }
        let mut vw = copy_bytes(&rp.pairs[i].1);
        buf.append(&mut aw);
        buf.append(&mut vw);
        proof {
            assert(pairs_view(rp.pairs@.take(i + 1)) =~= pre.push(pair_view(
                rp.pairs@[i as int],
            )));
            assert(pre.push(pair_view(rp.pairs@[i as int])).drop_last() =~= pre);
            assert(buf@ =~= pair_blocks(pre) + be_bytes(rp.pairs@[i as int].0 as nat, 32)
                + rp.pairs@[i as int].1@);
        }
        i = i + 1;
    }
    proof {
        assert(rp.pairs@.take(rp.pairs@.len() as int) =~= rp.pairs@);
    }
    keccak256(&buf)
}

/// The continuous page hash: keccak over the values alone, in
/// ascending address order; the start address is not hashed.
pub fn hash_continuous_page(cp: &ContinuousPage) -> (r: Vec<u8>)
    ensures
        r@.len() == 32,
        r@ == keccak_of(concat_words(cp.values@.map_values(|v: Vec<u8>| v@))),
{
    let mut buf: Vec<u8> = Vec::new();
    let mut i: usize = 0;
    while i < cp.values.len()
        invariant
            i <= cp.values@.len(),
            buf@ == concat_words(cp.values@.take(i as int).map_values(|v: Vec<u8>| v@)),
        decreases cp.values@.len() - i,
    {
        let ghost pre = cp.values@.take(i as int).map_values(|v: Vec<u8>| v@);
        let mut vw = copy_bytes(&cp.values[i]);
        buf.append(&mut vw);
        proof {
            assert(cp.values@.take(i + 1).map_values(|v: Vec<u8>| v@) =~= pre.push(
                cp.values@[i as int]@,
            ));
            assert(pre.push(cp.values@[i as int]@).drop_last() =~= pre);
        }
        i = i + 1;
    }
    proof {
        assert(cp.values@.take(cp.values@.len() as int) =~= cp.values@);
    }
    keccak256(&buf)
}

/// Two continuous pages with the same values feed the hash the same
/// bytes, whatever their start addresses: the commitment ignores
/// address shifts that keep the value order.
pub proof fn lemma_continuous_hash_ignores_start(c1: ContinuousPage, c2: ContinuousPage)
    requires
        c1.values@.map_values(|v: Vec<u8>| v@) == c2.values@.map_values(|v: Vec<u8>| v@),
    ensures
        keccak_of(concat_words(c1.values@.map_values(|v: Vec<u8>| v@))) == keccak_of(
            concat_words(c2.values@.map_values(|v: Vec<u8>| v@)),
        ),
{
}

pub proof fn lemma_pair_blocks_len(ps: Seq<(u64, Seq<u8>)>)
    requires
        forall|i: int| 0 <= i < ps.len() ==> (#[trigger] ps[i]).1.len() == 32,
    ensures
        pair_blocks(ps).len() == 64 * ps.len(),
    decreases ps.len(),
{
    if ps.len() > 0 {
        lemma_pair_blocks_len(ps.drop_last());
        lemma_be_bytes_len(ps.last().0 as nat, 32);
    }
}

pub proof fn lemma_concat_words_len(ws: Seq<Seq<u8>>)
    requires
        forall|i: int| 0 <= i < ws.len() ==> (#[trigger] ws[i]).len() == 32,
    ensures
        concat_words(ws).len() == 32 * ws.len(),
    decreases ws.len(),
{
    if ws.len() > 0 {
        lemma_concat_words_len(ws.drop_last());
    }
}

/// The regular page's hash input determines the pairs: two pair lists
/// feed the hash the same bytes exactly when they are the same list.
/// So the commitment changes whenever any (address, value) pair does,
/// short of a collision of the hash itself.
pub proof fn lemma_pair_blocks_injective(ps1: Seq<(u64, Seq<u8>)>, ps2: Seq<(u64, Seq<u8>)>)
    requires
        forall|i: int| 0 <= i < ps1.len() ==> (#[trigger] ps1[i]).1.len() == 32,
        forall|i: int| 0 <= i < ps2.len() ==> (#[trigger] ps2[i]).1.len() == 32,
    ensures
        pair_blocks(ps1) == pair_blocks(ps2) <==> ps1 == ps2,
    decreases ps1.len(),
{
    lemma_pair_blocks_len(ps1);
    lemma_pair_blocks_len(ps2);
    if pair_blocks(ps1) == pair_blocks(ps2) {
        assert(ps1.len() == ps2.len());
        if ps1.len() > 0 {
            let a1 = ps1.last();
            let a2 = ps2.last();
            let b1 = pair_blocks(ps1.drop_last());
            let b2 = pair_blocks(ps2.drop_last());
            let w1 = be_bytes(a1.0 as nat, 32);
            let w2 = be_bytes(a2.0 as nat, 32);
            lemma_pair_blocks_len(ps1.drop_last());
            lemma_pair_blocks_len(ps2.drop_last());
            lemma_be_bytes_len(a1.0 as nat, 32);
            lemma_be_bytes_len(a2.0 as nat, 32);
            assert(b1 =~= ((b1 + w1) + a1.1).subrange(0, b1.len() as int));
            assert(b2 =~= ((b2 + w2) + a2.1).subrange(0, b2.len() as int));
            assert(w1 =~= ((b1 + w1) + a1.1).subrange(b1.len() as int, b1.len() as int + 32));
            assert(w2 =~= ((b2 + w2) + a2.1).subrange(b2.len() as int, b2.len() as int + 32));
            assert(a1.1 =~= ((b1 + w1) + a1.1).subrange(b1.len() as int + 32, b1.len() as int + 64));
            assert(a2.1 =~= ((b2 + w2) + a2.1).subrange(b2.len() as int + 32, b2.len() as int + 64));
            assert(b1 == b2 && w1 == w2 && a1.1 == a2.1);
            assert(a1.0 == a2.0) by {
                assert(crate::bytes::pow256(32) > u64::MAX) by {
                    reveal_with_fuel(crate::bytes::pow256, 33);
                }
                crate::bytes::lemma_be_bytes_nat(a1.0 as nat, 32);
                crate::bytes::lemma_be_bytes_nat(a2.0 as nat, 32);
            }
            lemma_pair_blocks_injective(ps1.drop_last(), ps2.drop_last());
            assert(ps1 =~= ps1.drop_last().push(a1));
            assert(ps2 =~= ps2.drop_last().push(a2));
        } else {
            assert(ps1 =~= ps2);
        }
    }
}

/// The continuous page's hash input determines the values: with every
/// value one 32-byte word, equal hash input bytes mean equal value
/// lists, so the commitment changes whenever a value in range does.
pub proof fn lemma_concat_words_injective(ws1: Seq<Seq<u8>>, ws2: Seq<Seq<u8>>)
    requires
        forall|i: int| 0 <= i < ws1.len() ==> (#[trigger] ws1[i]).len() == 32,
        forall|i: int| 0 <= i < ws2.len() ==> (#[trigger] ws2[i]).len() == 32,
    ensures
        concat_words(ws1) == concat_words(ws2) <==> ws1 == ws2,
    decreases ws1.len(),
{
    lemma_concat_words_len(ws1);
    lemma_concat_words_len(ws2);
    if concat_words(ws1) == concat_words(ws2) {
        assert(ws1.len() == ws2.len());
        if ws1.len() > 0 {
            let b1 = concat_words(ws1.drop_last());
            let b2 = concat_words(ws2.drop_last());
            lemma_concat_words_len(ws1.drop_last());
            lemma_concat_words_len(ws2.drop_last());
            assert(b1 =~= (b1 + ws1.last()).subrange(0, b1.len() as int));
            assert(b2 =~= (b2 + ws2.last()).subrange(0, b2.len() as int));
            assert(ws1.last() =~= (b1 + ws1.last()).subrange(b1.len() as int, b1.len() as int + 32));
            assert(ws2.last() =~= (b2 + ws2.last()).subrange(b2.len() as int, b2.len() as int + 32));
            assert(b1 == b2 && ws1.last() == ws2.last());
            lemma_concat_words_injective(ws1.drop_last(), ws2.drop_last());
            assert(ws1 =~= ws1.drop_last().push(ws1.last()));
            assert(ws2 =~= ws2.drop_last().push(ws2.last()));
        } else {
            assert(ws1 =~= ws2);
        }
    }
}

} // verus!
