//! Big-endian byte strings as unsigned integers.
//!
//! Every multi-byte value in this crate (field elements, digests, the
//! entries of the public-input vector) is carried as a big-endian byte
//! string; `be_nat` is the integer such a string stands for.

use vstd::prelude::*;

verus! {

/// The unsigned integer a big-endian byte string stands for.
pub open spec fn be_nat(s: Seq<u8>) -> nat
    decreases s.len(),
{
    if s.len() == 0 {
        0
    } else {
        (be_nat(s.drop_last()) * 256 + s.last()) as nat
    }
}

/// 256 raised to `n`: the weight of a byte `n` places from the end.
pub open spec fn pow256(n: nat) -> nat
    decreases n,
{
    if n == 0 {
        1
    } else {
        256 * pow256((n - 1) as nat)
    }
}

/// A byte string of minimal length for its value: no leading zero,
/// except the single byte `0` standing for zero itself.
pub open spec fn is_minimal(s: Seq<u8>) -> bool {
    s.len() <= 1 || s[0] != 0
}

pub proof fn lemma_pow256_pos(n: nat)
    ensures
        pow256(n) >= 1,
    decreases n,
{
    if n > 0 {
        lemma_pow256_pos((n - 1) as nat);
    }
}

pub proof fn lemma_pow256_add(m: nat, n: nat)
    ensures
        pow256(m + n) == pow256(m) * pow256(n),
    decreases m,
{
    if m == 0 {
        assert(pow256(m) == 1);
        assert(pow256(m + n) == pow256(n));
    } else {
        let m1 = (m - 1) as nat;
        lemma_pow256_add(m1, n);
        assert(pow256(m1 + n) == pow256(m1) * pow256(n));
        assert((m + n - 1) as nat == m1 + n);
        assert(pow256(m + n) == 256 * pow256((m + n - 1) as nat));
        assert(pow256(m) == 256 * pow256(m1));
        assert(256 * (pow256(m1) * pow256(n)) == (256 * pow256(m1)) * pow256(n))
            by (nonlinear_arith);
        assert(pow256(m + n) == pow256(m) * pow256(n));
    }
}

/// Appending byte strings: the left part is shifted by the length of
/// the right part.
pub proof fn lemma_be_nat_append(a: Seq<u8>, b: Seq<u8>)
    ensures
        be_nat(a + b) == be_nat(a) * pow256(b.len()) + be_nat(b),
    decreases b.len(),
{
    if b.len() == 0 {
        assert(a + b =~= a);
        assert(pow256(b.len()) == 1);
        assert(be_nat(b) == 0);
    } else {
        let la = be_nat(a);
        let d = be_nat(b.drop_last());
        let p1 = pow256((b.len() - 1) as nat);
        assert((a + b).drop_last() =~= a + b.drop_last());
        assert((a + b).last() == b.last());
        assert(be_nat(a + b) == be_nat(a + b.drop_last()) * 256 + b.last());
        lemma_be_nat_append(a, b.drop_last());
        assert(be_nat(a + b.drop_last()) == la * p1 + d);
        assert((la * p1 + d) * 256 == la * (p1 * 256) + d * 256) by (nonlinear_arith);
        assert(p1 * 256 == pow256(b.len()));
        assert(be_nat(b) == d * 256 + b.last());
        assert(be_nat(a + b) == la * pow256(b.len()) + be_nat(b));
    }
}

/// A byte string of all zeroes stands for zero.
pub proof fn lemma_be_nat_all_zero(s: Seq<u8>)
    requires
        forall|i: int| 0 <= i < s.len() ==> s[i] == 0,
    ensures
        be_nat(s) == 0,
    decreases s.len(),
{
    if s.len() > 0 {
        lemma_be_nat_all_zero(s.drop_last());
    }
}

/// Leading zeroes do not change the value.
pub proof fn lemma_be_nat_zero_prefix(z: Seq<u8>, s: Seq<u8>)
    requires
        forall|i: int| 0 <= i < z.len() ==> z[i] == 0,
    ensures
        be_nat(z + s) == be_nat(s),
{
    lemma_be_nat_append(z, s);
    lemma_be_nat_all_zero(z);
}

/// The value is bounded by 256 to the length.
pub proof fn lemma_be_nat_bound(s: Seq<u8>)
    ensures
        be_nat(s) < pow256(s.len()),
    decreases s.len(),
{
    if s.len() > 0 {
        lemma_be_nat_bound(s.drop_last());
        assert(be_nat(s.drop_last()) + 1 <= pow256((s.len() - 1) as nat));
        assert((be_nat(s.drop_last()) + 1) * 256 <= pow256((s.len() - 1) as nat) * 256)
            by (nonlinear_arith)
            requires
                be_nat(s.drop_last()) + 1 <= pow256((s.len() - 1) as nat),
        ;
    }
}

/// A string with a non-zero first byte reaches at least the weight of
/// that byte's place.
pub proof fn lemma_be_nat_first_nonzero(s: Seq<u8>)
    requires
        s.len() > 0,
        s[0] != 0,
    ensures
        be_nat(s) >= pow256((s.len() - 1) as nat),
    decreases s.len(),
{
    if s.len() == 1 {
        assert(be_nat(s) == (be_nat(s.drop_last()) * 256 + s.last()) as nat);
        assert(be_nat(s.drop_last()) == 0) by {
            assert(s.drop_last().len() == 0);
        }
    } else {
        assert(s.drop_last()[0] == s[0]);
        lemma_be_nat_first_nonzero(s.drop_last());
        assert(be_nat(s.drop_last()) * 256 >= pow256((s.len() - 2) as nat) * 256)
            by (nonlinear_arith)
            requires
                be_nat(s.drop_last()) >= pow256((s.len() - 2) as nat),
        ;
        assert(pow256((s.len() - 2) as nat) * 256 == pow256((s.len() - 1) as nat));
    }
}

/// A minimal byte string whose value fits below `pow256(k)` is at most
/// `k` bytes long (for `k >= 1`).
pub proof fn lemma_minimal_len_bound(s: Seq<u8>, k: nat)
    requires
        is_minimal(s),
        k >= 1,
        be_nat(s) < pow256(k),
    ensures
        s.len() <= k,
{
    if s.len() > k {
        assert(s[0] != 0);
        lemma_be_nat_first_nonzero(s);
        lemma_pow256_add((s.len() - 1 - k) as nat, k);
        lemma_pow256_pos((s.len() - 1 - k) as nat);
        assert(pow256((s.len() - 1 - k) as nat) * pow256(k) >= 1 * pow256(k)) by (nonlinear_arith)
            requires
                pow256((s.len() - 1 - k) as nat) >= 1,
                pow256(k) >= 1,
        ;
    }
}

/// The canonical big-endian encoding of `n` in exactly `len` bytes
/// (truncating above 256^len).
pub open spec fn be_bytes(n: nat, len: nat) -> Seq<u8>
    decreases len,
{
    if len == 0 {
        Seq::empty()
    } else {
        be_bytes(n / 256, (len - 1) as nat).push((n % 256) as u8)
    }
}

pub proof fn lemma_be_bytes_len(n: nat, len: nat)
    ensures
        be_bytes(n, len).len() == len,
    decreases len,
{
    if len > 0 {
        lemma_be_bytes_len(n / 256, (len - 1) as nat);
    }
}

/// Reading the canonical encoding back gives the value, when it fits.
pub proof fn lemma_be_bytes_nat(n: nat, len: nat)
    requires
        n < pow256(len),
    ensures
        be_nat(be_bytes(n, len)) == n,
    decreases len,
{
    if len == 0 {
    } else {
        let s = be_bytes(n, len);
        lemma_be_bytes_len(n / 256, (len - 1) as nat);
        assert(s.drop_last() =~= be_bytes(n / 256, (len - 1) as nat));
        assert(n / 256 < pow256((len - 1) as nat)) by (nonlinear_arith)
            requires
                n < 256 * pow256((len - 1) as nat),
        ;
        lemma_be_bytes_nat(n / 256, (len - 1) as nat);
        assert(n == (n / 256) * 256 + n % 256) by (nonlinear_arith);
    }
}

/// A byte string is the canonical encoding of its own value: two
/// strings of one length with one value are the same string.
pub proof fn lemma_be_nat_canonical(s: Seq<u8>)
    ensures
        s == be_bytes(be_nat(s), s.len()),
    decreases s.len(),
{
    if s.len() > 0 {
        let n = be_nat(s);
        let q = be_nat(s.drop_last());
        let r = s.last();
        assert(n == q * 256 + r);
        assert(q == n / 256 && r == n % 256) by (nonlinear_arith)
            requires
                n == q * 256 + r,
                0 <= r < 256,
                q >= 0,
        ;
        lemma_be_nat_canonical(s.drop_last());
        assert(s =~= s.drop_last().push(s.last()));
    }
}

/// The eight big-endian bytes of a 64-bit integer.
pub fn u64_to_be8(n: u64) -> (r: Vec<u8>)
    ensures
        r@.len() == 8,
        be_nat(r@) == n,
{
    let b0: u8 = ((n >> 56) & 0xff) as u8;
    let b1: u8 = ((n >> 48) & 0xff) as u8;
    let b2: u8 = ((n >> 40) & 0xff) as u8;
    let b3: u8 = ((n >> 32) & 0xff) as u8;
    let b4: u8 = ((n >> 24) & 0xff) as u8;
    let b5: u8 = ((n >> 16) & 0xff) as u8;
    let b6: u8 = ((n >> 8) & 0xff) as u8;
    let b7: u8 = (n & 0xff) as u8;
    let mut r: Vec<u8> = Vec::new();
    r.push(b0);
    r.push(b1);
    r.push(b2);
    r.push(b3);
    r.push(b4);
    r.push(b5);
    r.push(b6);
    r.push(b7);
    proof {
        assert(r@ =~= seq![b0, b1, b2, b3, b4, b5, b6, b7]);
        assert(n == ((b0 as u64) << 56) + ((b1 as u64) << 48) + ((b2 as u64) << 40) + ((b3
            as u64) << 32) + ((b4 as u64) << 24) + ((b5 as u64) << 16) + ((b6 as u64) << 8) + (b7
            as u64)) by (bit_vector)
            requires
                b0 == ((n >> 56) & 0xff) as u8,
                b1 == ((n >> 48) & 0xff) as u8,
                b2 == ((n >> 40) & 0xff) as u8,
                b3 == ((n >> 32) & 0xff) as u8,
                b4 == ((n >> 24) & 0xff) as u8,
                b5 == ((n >> 16) & 0xff) as u8,
                b6 == ((n >> 8) & 0xff) as u8,
                b7 == (n & 0xff) as u8,
        ;
        assert(((b0 as u64) << 56) == (b0 as u64) * 0x100000000000000) by (bit_vector);
        assert(((b1 as u64) << 48) == (b1 as u64) * 0x1000000000000) by (bit_vector);
        assert(((b2 as u64) << 40) == (b2 as u64) * 0x10000000000) by (bit_vector);
        assert(((b3 as u64) << 32) == (b3 as u64) * 0x100000000) by (bit_vector);
        assert(((b4 as u64) << 24) == (b4 as u64) * 0x1000000) by (bit_vector);
        assert(((b5 as u64) << 16) == (b5 as u64) * 0x10000) by (bit_vector);
        assert(((b6 as u64) << 8) == (b6 as u64) * 0x100) by (bit_vector);
        reveal_with_fuel(be_nat, 9);
    }
    r
}

/// The 32-byte word with the four given 64-bit limbs, most significant
/// first.
pub fn word_from_u64s(c3: u64, c2: u64, c1: u64, c0: u64) -> (r: Vec<u8>)
    ensures
        r@.len() == 32,
        be_nat(r@) == c3 * pow256(24) + c2 * pow256(16) + c1 * pow256(8) + c0,
{
    let mut r = u64_to_be8(c3);
    let mut p2 = u64_to_be8(c2);
    let mut p1 = u64_to_be8(c1);
    let mut p0 = u64_to_be8(c0);
    let ghost a = r@;
    let ghost b = p2@;
    let ghost c = p1@;
    let ghost d = p0@;
    r.append(&mut p2);
    r.append(&mut p1);
    r.append(&mut p0);
    proof {
        assert(r@ =~= ((a + b) + c) + d);
        lemma_be_nat_append(a, b);
        lemma_be_nat_append(a + b, c);
        lemma_be_nat_append((a + b) + c, d);
        assert(pow256(8) == 0x10000000000000000) by {
            reveal_with_fuel(pow256, 9);
        }
        let x2 = be_nat(a + b);
        let x1 = be_nat((a + b) + c);
        assert(x2 * pow256(8) == (c3 * pow256(8) + c2) * 0x10000000000000000);
        assert((c3 * pow256(8) + c2) * 0x10000000000000000 == c3 * (pow256(8)
            * 0x10000000000000000) + c2 * 0x10000000000000000) by (nonlinear_arith);
        assert(pow256(16) == pow256(8) * pow256(8)) by {
            lemma_pow256_add(8, 8);
        }
        assert(x1 == c3 * pow256(16) + c2 * pow256(8) + c1);
        assert(x1 * pow256(8) == (c3 * pow256(16) + c2 * pow256(8) + c1) * pow256(8));
        assert((c3 * pow256(16) + c2 * pow256(8) + c1) * pow256(8) == c3 * (pow256(16) * pow256(
            8,
        )) + c2 * (pow256(8) * pow256(8)) + c1 * pow256(8)) by (nonlinear_arith);
        assert(pow256(24) == pow256(16) * pow256(8)) by {
            lemma_pow256_add(16, 8);
        }
    }
    r
}

/// Left-pad with zeroes to exactly 32 bytes.
pub fn pad_to_32(v: &Vec<u8>) -> (r: Vec<u8>)
    requires
        v@.len() <= 32,
    ensures
        r@.len() == 32,
        be_nat(r@) == be_nat(v@),
        r@.skip(32 - v@.len()) == v@,
        forall|i: int| 0 <= i < 32 - v@.len() ==> r@[i] == 0,
{
    let pad: usize = 32 - v.len();
    let mut r: Vec<u8> = Vec::new();
    let mut i: usize = 0;
    while i < pad
        invariant
            i <= pad,
            pad == 32 - v@.len(),
            r@.len() == i,
            forall|j: int| 0 <= j < i ==> r@[j] == 0,
        decreases pad - i,
    {
        r.push(0);
        i = i + 1;
    }
    let mut k: usize = 0;
    while k < v.len()
        invariant
            k <= v@.len(),
            pad == 32 - v@.len(),
            r@.len() == pad + k,
            forall|j: int| 0 <= j < pad ==> r@[j] == 0,
            r@.skip(pad as int) == v@.take(k as int),
        decreases v@.len() - k,
    {
        r.push(v[k]);
        proof {
            assert(r@.skip(pad as int) =~= v@.take(k + 1));
        }
        k = k + 1;
    }
    proof {
        assert(v@.take(v@.len() as int) =~= v@);
        assert(r@ =~= r@.take(pad as int) + r@.skip(pad as int));
        lemma_be_nat_zero_prefix(r@.take(pad as int), r@.skip(pad as int));
    }
    r
}

/// The 32-byte word holding a 64-bit integer.
pub fn u64_word(n: u64) -> (r: Vec<u8>)
    ensures
        r@.len() == 32,
        be_nat(r@) == n,
{
    let b = u64_to_be8(n);
    pad_to_32(&b)
}

/// A fresh copy of a byte string.
pub fn copy_bytes(v: &Vec<u8>) -> (r: Vec<u8>)
    ensures
        r@ == v@,
{
    let mut r: Vec<u8> = Vec::new();
    let mut i: usize = 0;
    while i < v.len()
        invariant
            i <= v@.len(),
            r@ =~= v@.take(i as int),
        decreases v@.len() - i,
    {
        r.push(v[i]);
        proof {
            assert(r@ =~= v@.take(i + 1));
        }
        i = i + 1;
    }
    proof {
        assert(r@ =~= v@);
    }
    r
}

/// Byte-string equality.
pub fn bytes_eq(a: &Vec<u8>, b: &Vec<u8>) -> (r: bool)
    ensures
        r == (a@ == b@),
{
    if a.len() != b.len() {
        return false;
    }
    let mut i: usize = 0;
    while i < a.len()
        invariant
            i <= a@.len(),
            a@.len() == b@.len(),
            forall|j: int| 0 <= j < i ==> a@[j] == b@[j],
        decreases a@.len() - i,
    {
        if a[i] != b[i] {
            return false;
        }
        i = i + 1;
    }
    proof {
        assert(a@ =~= b@);
    }
    true
}

/// Drop leading zeroes; all-zero input becomes the empty string.
pub fn strip_leading_zeros(v: &Vec<u8>) -> (r: Vec<u8>)
    ensures
        be_nat(r@) == be_nat(v@),
        r@.len() <= v@.len(),
        r@ == v@.skip(v@.len() - r@.len()),
        r@.len() > 0 ==> r@[0] != 0,
        forall|j: int| 0 <= j < v@.len() - r@.len() ==> v@[j] == 0,
{
    let mut s: usize = 0;
    while s < v.len() && v[s] == 0
        invariant
            s <= v@.len(),
            forall|j: int| 0 <= j < s ==> v@[j] == 0,
        decreases v@.len() - s,
    {
        s = s + 1;
    }
    let mut r: Vec<u8> = Vec::new();
    let mut k: usize = s;
    while k < v.len()
        invariant
            s <= k <= v@.len(),
            r@ == v@.subrange(s as int, k as int),
        decreases v@.len() - k,
    {
        r.push(v[k]);
        proof {
            assert(v@.subrange(s as int, k as int).push(v@[k as int]) =~= v@.subrange(
                s as int,
                k + 1,
            ));
        }
        k = k + 1;
    }
    proof {
        assert(r@ =~= v@.skip(s as int));
        assert(v@ =~= v@.take(s as int) + v@.skip(s as int));
        lemma_be_nat_zero_prefix(v@.take(s as int), v@.skip(s as int));
    }
    r
}

} // verus!
