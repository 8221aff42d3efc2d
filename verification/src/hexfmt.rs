//! Hex-number text: the form every integer takes in the input and
//! output documents.

use vstd::prelude::*;
use crate::bytes::be_nat;
use crate::bytes::pow256;
use crate::bytes::is_minimal;
use crate::bytes::pad_to_32;
use crate::bytes::strip_leading_zeros;
use crate::bytes::lemma_be_nat_bound;
use crate::bytes::lemma_minimal_len_bound;
use crate::bytes::lemma_pow256_pos;

verus! {

/// ASCII hex digit, either case.
pub open spec fn is_hex_digit(c: u8) -> bool {
    (0x30 <= c <= 0x39) || (0x61 <= c <= 0x66) || (0x41 <= c <= 0x46)
}

/// The value of one hex digit (zero for a non-digit).
pub open spec fn hex_val(c: u8) -> nat {
    if 0x30 <= c <= 0x39 {
        (c - 0x30) as nat
    } else if 0x61 <= c <= 0x66 {
        (c - 0x61 + 10) as nat
    } else if 0x41 <= c <= 0x46 {
        (c - 0x41 + 10) as nat
    } else {
        0
    }
}

/// The integer a hex digit string stands for.
pub open spec fn hex_nat(s: Seq<u8>) -> nat
    decreases s.len(),
{
    if s.len() == 0 {
        0
    } else {
        (hex_nat(s.drop_last()) * 16 + hex_val(s.last())) as nat
    }
}

/// The digit string with an optional `0x` / `0X` prefix removed.
pub open spec fn hex_body(s: Seq<u8>) -> Seq<u8> {
    if s.len() >= 2 && s[0] == 0x30 && (s[1] == 0x78 || s[1] == 0x58) {
        s.skip(2)
    } else {
        s
    }
}

/// The bytes an even-length hex digit string encodes.
pub open spec fn bytes_of_hex(s: Seq<u8>) -> Seq<u8> {
    Seq::new(s.len() / 2, |k: int| (16 * hex_val(s[2 * k]) + hex_val(s[2 * k + 1])) as u8)
}

pub proof fn lemma_pow256_mono(m: nat, n: nat)
    requires
        m <= n,
    ensures
        pow256(m) <= pow256(n),
    decreases n,
{
    if m < n {
        lemma_pow256_mono(m, (n - 1) as nat);
        lemma_pow256_pos((n - 1) as nat);
    }
}

/// Reading the encoded bytes back as an integer gives the digit
/// string's value.
pub proof fn lemma_be_nat_bytes_of_hex(s: Seq<u8>)
    requires
        s.len() % 2 == 0,
    ensures
        be_nat(bytes_of_hex(s)) == hex_nat(s),
    decreases s.len(),
{
    if s.len() == 0 {
        assert(bytes_of_hex(s) =~= Seq::<u8>::empty());
    } else {
        let t = s.take(s.len() - 2);
        lemma_be_nat_bytes_of_hex(t);
        assert(bytes_of_hex(s).drop_last() =~= bytes_of_hex(t));
        assert(bytes_of_hex(s).last() == (16 * hex_val(s[s.len() - 2]) + hex_val(
            s[s.len() - 1],
        )) as u8);
        assert(s.drop_last().drop_last() =~= t);
        assert(s.drop_last().last() == s[s.len() - 2]);
        assert(hex_nat(s) == hex_nat(s.drop_last()) * 16 + hex_val(s.last()));
        assert(hex_nat(s.drop_last()) == hex_nat(t) * 16 + hex_val(s[s.len() - 2]));
        assert((hex_nat(t) * 16 + hex_val(s[s.len() - 2])) * 16 == hex_nat(t) * 256 + hex_val(
            s[s.len() - 2],
        ) * 16) by (nonlinear_arith);
    }
}

/// The value of one hex digit; `None` when the byte is no digit.
pub fn hex_digit_val(c: u8) -> (r: Option<u8>)
    ensures
        r is Some <==> is_hex_digit(c),
        r is Some ==> r->0 == hex_val(c) && r->0 < 16,
{
    if 0x30 <= c && c <= 0x39 {
        Some(c - 0x30)
    } else if 0x61 <= c && c <= 0x66 {
        Some(c - 0x61 + 10)
    } else if 0x41 <= c && c <= 0x46 {
        Some(c - 0x41 + 10)
    } else {
        None
    }
}

/// Decode an even-length string of hex digits into bytes.
pub fn parse_hex_digits(s: &Vec<u8>) -> (r: Option<Vec<u8>>)
    ensures
        r is Some <==> (s@.len() % 2 == 0 && forall|i: int|
            0 <= i < s@.len() ==> is_hex_digit(s@[i])),
        r is Some ==> r->0@ == bytes_of_hex(s@),
{
    if s.len() % 2 != 0 {
        return None;
    }
    let mut b: Vec<u8> = Vec::new();
    let mut i: usize = 0;
    while i < s.len()
        invariant
            i % 2 == 0,
            i <= s@.len(),
            s@.len() % 2 == 0,
            forall|j: int| 0 <= j < i ==> is_hex_digit(s@[j]),
            b@ =~= bytes_of_hex(s@.take(i as int)),
        decreases s@.len() - i,
    {
        let hi = match hex_digit_val(s[i]) {
            Some(v) => v,
            None => {
                return None;
            },
        };
        let lo = match hex_digit_val(s[i + 1]) {
            Some(v) => v,
            None => {
                return None;
            },
        };
        b.push(16 * hi + lo);
        proof {
            assert(b@ =~= bytes_of_hex(s@.take(i + 2)));
        }
        i = i + 2;
    }
    proof {
        assert(s@.take(s@.len() as int) =~= s@);
    }
    Some(b)
}

/// A hex number that fits in one 32-byte word: an optional `0x`
/// prefix, at least one digit, value below 256^32.
pub open spec fn is_valid_hex_value(s: Seq<u8>) -> bool {
    &&& hex_body(s).len() > 0
    &&& forall|i: int| 0 <= i < hex_body(s).len() ==> is_hex_digit(hex_body(s)[i])
    &&& hex_nat(hex_body(s)) < pow256(32)
}

/// A single leading zero digit does not change the value.
proof fn lemma_hex_nat_zero_digit_prefix(s: Seq<u8>)
    ensures
        hex_nat(seq![0x30u8] + s) == hex_nat(s),
    decreases s.len(),
{
    if s.len() == 0 {
        assert((seq![0x30u8] + s) =~= seq![0x30u8]);
        assert(hex_nat(seq![0x30u8]) == hex_nat(seq![0x30u8].drop_last()) * 16 + hex_val(0x30));
        assert(seq![0x30u8].drop_last() =~= Seq::<u8>::empty());
    } else {
        assert((seq![0x30u8] + s).drop_last() =~= seq![0x30u8] + s.drop_last());
        lemma_hex_nat_zero_digit_prefix(s.drop_last());
    }
}

/// Strip an optional `0x` / `0X` prefix.
pub fn hex_body_vec(s: &Vec<u8>) -> (r: Vec<u8>)
    ensures
        r@ == hex_body(s@),
{
    let mut body: Vec<u8> = Vec::new();
    let start: usize = if s.len() >= 2 && s[0] == 0x30 && (s[1] == 0x78 || s[1] == 0x58) {
        2
    } else {
        0
    };
    let mut k: usize = start;
    while k < s.len()
        invariant
            start <= k <= s@.len(),
            body@ =~= s@.subrange(start as int, k as int),
        decreases s@.len() - k,
    {
        body.push(s[k]);
        proof {
            assert(s@.subrange(start as int, k as int).push(s@[k as int]) =~= s@.subrange(
                start as int,
                k + 1,
            ));
        }
        k = k + 1;
    }
    proof {
        assert(body@ =~= hex_body(s@));
    }
    body
}

/// Parse a hex number into a 32-byte word.
pub fn parse_hex_value(s: &Vec<u8>) -> (r: Option<Vec<u8>>)
    ensures
        r is Some <==> is_valid_hex_value(s@),
        r is Some ==> r->0@.len() == 32 && be_nat(r->0@) == hex_nat(hex_body(s@)),
{
    let body = hex_body_vec(s);
    if body.len() == 0 {
        return None;
    }
    // Make the digit count even so pairs of digits form bytes.
    let mut dv: Vec<u8> = Vec::new();
    if body.len() % 2 != 0 {
        dv.push(0x30);
    }
    let mut k2: usize = 0;
    let ghost off: int = dv@.len() as int;
    while k2 < body.len()
        invariant
            k2 <= body@.len(),
            dv@.len() == off + k2,
            0 <= off <= 1,
            dv@ =~= dv@.take(off) + body@.take(k2 as int),
            off == 1 ==> dv@.take(off) =~= seq![0x30u8],
        decreases body@.len() - k2,
    {
        dv.push(body[k2]);
        proof {
            assert(dv@ =~= dv@.take(off) + body@.take(k2 + 1));
        }
        k2 = k2 + 1;
    }
    proof {
        assert(body@.take(body@.len() as int) =~= body@);
        if off == 1 {
            assert(dv@ =~= seq![0x30u8] + body@);
            lemma_hex_nat_zero_digit_prefix(body@);
        } else {
            assert(dv@ =~= body@);
        }
        assert(hex_nat(dv@) == hex_nat(body@));
    }
    let b = match parse_hex_digits(&dv) {
        Some(b) => b,
        None => {
            proof {
                // Only a non-digit can fail here: the length is even by
                // construction, and a pushed `0` is itself a digit.
                assert(dv@.len() % 2 == 0);
                let bad = choose|i: int|
                    0 <= i < dv@.len() && !is_hex_digit(dv@[i]);
                assert(!is_hex_digit(body@[bad - off]));
            }
            return None;
        },
    };
    proof {
        lemma_be_nat_bytes_of_hex(dv@);
    }
    let m = strip_leading_zeros(&b);
    if m.len() > 32 {
        proof {
            lemma_be_nat_bound(m@);
            assert(is_minimal(m@));
            if be_nat(m@) < pow256(32) {
                lemma_minimal_len_bound(m@, 32);
            }
        }
        return None;
    }
    proof {
        lemma_be_nat_bound(m@);
        lemma_pow256_mono(m@.len() as nat, 32);
        if !(forall|i: int| 0 <= i < body@.len() ==> is_hex_digit(body@[i])) {
            let bad = choose|i: int| 0 <= i < body@.len() && !is_hex_digit(body@[i]);
            assert(!is_hex_digit(dv@[bad + off]));
        }
    }
    Some(pad_to_32(&m))
}

/// Decode the proof payload: hex digits behind an optional `0x`, an
/// even digit count required, the bytes right-padded with zeroes to
/// whole 32-byte words.
pub fn parse_proof_words(s: &Vec<u8>) -> (r: Option<Vec<Vec<u8>>>)
    ensures
        r is Some <==> (hex_body(s@).len() % 2 == 0 && forall|i: int|
            0 <= i < hex_body(s@).len() ==> is_hex_digit(hex_body(s@)[i])),
        r is Some ==> r->0@.len() == (bytes_of_hex(hex_body(s@)).len() + 31) / 32,
        r is Some ==> forall|i: int|
            0 <= i < r->0@.len() ==> (#[trigger] r->0@[i])@.len() == 32,
        r is Some ==> forall|i: int, j: int|
            0 <= i < r->0@.len() && 0 <= j < 32 ==> (#[trigger] r->0@[i]@[j]) == (if 32 * i + j
                < bytes_of_hex(hex_body(s@)).len() {
                bytes_of_hex(hex_body(s@))[32 * i + j]
            } else {
                0u8
            }),
{
    let body = hex_body_vec(s);
    let mut b = match parse_hex_digits(&body) {
        Some(b) => b,
        None => {
            return None;
        },
    };
    let ghost orig = b@;
    proof {
        assert((orig.len() + 31) / 32 * 32 >= orig.len() && ((orig.len() + 31) / 32 * 32) % 32
            == 0 && (orig.len() + 31) / 32 * 32 < orig.len() + 32) by (nonlinear_arith);
    }
    let ghost cap: int = (orig.len() + 31) as int / 32 * 32;
    while b.len() % 32 != 0
        invariant
            orig.len() <= b@.len() <= cap,
            cap % 32 == 0,
            cap < orig.len() + 32,
            b@.take(orig.len() as int) == orig,
            forall|j: int| orig.len() <= j < b@.len() ==> b@[j] == 0,
        decreases cap - b@.len(),
    {
        proof {
            assert(b@.len() < cap);
        }
        b.push(0);
        proof {
            assert(b@.take(orig.len() as int) =~= orig);
        }
    }
    proof {
        assert(b@.len() == cap);
        assert(forall|t: int| 0 <= t < orig.len() ==> b@[t] == orig[t]);
    }
    let mut ws: Vec<Vec<u8>> = Vec::new();
    let mut i: usize = 0;
    while i < b.len()
        invariant
            i % 32 == 0,
            i <= b@.len(),
            b@.len() % 32 == 0,
            ws@.len() == i / 32,
            forall|k: int| 0 <= k < ws@.len() ==> (#[trigger] ws@[k])@.len() == 32,
            forall|k: int, j: int|
                0 <= k < ws@.len() && 0 <= j < 32 ==> (#[trigger] ws@[k]@[j]) == b@[32 * k + j],
        decreases b@.len() - i,
    {
        proof {
            assert(i + 32 <= b@.len()) by (nonlinear_arith)
                requires
                    i < b@.len(),
                    i % 32 == 0,
                    b@.len() % 32 == 0,
            ;
        }
        let mut w: Vec<u8> = Vec::new();
        let mut j: usize = 0;
        while j < 32
            invariant
                j <= 32,
                i + 32 <= b@.len(),
                b@.len() <= usize::MAX,
                w@.len() == j,
                forall|t: int| 0 <= t < j ==> w@[t] == b@[i + t],
            decreases 32 - j,
        {
            w.push(b[i + j]);
            j = j + 1;
        }
        ws.push(w);
        i = i + 32;
    }
    proof {
        assert(ws@.len() == (orig.len() + 31) / 32);
    }
    Some(ws)
}

/// The low nibble of a byte as a lowercase hex digit.
pub open spec fn lo_digit(b: u8) -> u8 {
    if b % 16 < 10 {
        (0x30 + b % 16) as u8
    } else {
        (0x57 + b % 16) as u8
    }
}

/// The high nibble of a byte as a lowercase hex digit.
pub open spec fn hi_digit(b: u8) -> u8 {
    if b / 16 < 10 {
        (0x30 + b / 16) as u8
    } else {
        (0x57 + b / 16) as u8
    }
}

/// Every byte as two digits.
pub open spec fn tail_digits(s: Seq<u8>) -> Seq<u8>
    decreases s.len(),
{
    if s.len() == 0 {
        Seq::empty()
    } else {
        seq![hi_digit(s[0]), lo_digit(s[0])] + tail_digits(s.skip(1))
    }
}

/// The shortest digit string for a minimal byte string: no leading
/// zero digit, and a single `0` for the empty (zero-valued) string.
pub open spec fn min_digits(s: Seq<u8>) -> Seq<u8> {
    if s.len() == 0 {
        seq![0x30u8]
    } else if s[0] < 16 {
        seq![lo_digit(s[0])] + tail_digits(s.skip(1))
    } else {
        tail_digits(s)
    }
}

/// The byte string with leading zeroes removed.
pub open spec fn strip0(s: Seq<u8>) -> Seq<u8>
    decreases s.len(),
{
    if s.len() == 0 || s[0] != 0 {
        s
    } else {
        strip0(s.skip(1))
    }
}

/// The `0x`-prefixed lowercase hex rendering of a byte string's value,
/// with no leading zero digits.
pub open spec fn hex_ascii(s: Seq<u8>) -> Seq<u8> {
    seq![0x30u8, 0x78u8] + min_digits(strip0(s))
}

proof fn lemma_strip0_is_skip(s: Seq<u8>, k: int)
    requires
        0 <= k <= s.len(),
        forall|j: int| 0 <= j < k ==> s[j] == 0,
        k < s.len() ==> s[k] != 0,
    ensures
        strip0(s) == s.skip(k),
    decreases k,
{
    if k == 0 {
        assert(s.skip(0) =~= s);
    } else {
        assert(s[0] == 0);
        lemma_strip0_is_skip(s.skip(1), k - 1);
        assert(s.skip(1).skip(k - 1) =~= s.skip(k));
    }
}

proof fn lemma_tail_digits_snoc(t: Seq<u8>, b: u8)
    ensures
        tail_digits(t.push(b)) == tail_digits(t) + seq![hi_digit(b), lo_digit(b)],
    decreases t.len(),
{
    if t.len() == 0 {
        assert(t.push(b)[0] == b);
        assert(t.push(b).skip(1) =~= Seq::<u8>::empty());
        assert(tail_digits(Seq::<u8>::empty()) =~= Seq::<u8>::empty());
        assert(tail_digits(t.push(b)) =~= seq![hi_digit(b), lo_digit(b)]);
        assert(tail_digits(t) + seq![hi_digit(b), lo_digit(b)] =~= seq![
            hi_digit(b),
            lo_digit(b),
        ]);
    } else {
        assert(t.push(b).skip(1) =~= t.skip(1).push(b));
        assert(t.push(b)[0] == t[0]);
        lemma_tail_digits_snoc(t.skip(1), b);
        assert(tail_digits(t.push(b)) =~= tail_digits(t) + seq![hi_digit(b), lo_digit(b)]);
    }
}

/// One nibble as a lowercase hex digit character.
fn digit_char(d: u8) -> (r: u8)
    requires
        d < 16,
    ensures
        r == (if d < 10 {
            (0x30 + d) as u8
        } else {
            (0x57 + d) as u8
        }),
{
    if d < 10 {
        0x30 + d
    } else {
        0x57 + d
    }
}

/// Render a byte string's value as `0x`-prefixed lowercase hex with no
/// leading zero digits.
pub fn to_hex(v: &Vec<u8>) -> (r: Vec<u8>)
    ensures
        r@ == hex_ascii(v@),
{
    let m = strip_leading_zeros(v);
    proof {
        lemma_strip0_is_skip(v@, v@.len() - m@.len());
        assert(strip0(v@) == m@);
    }
    let mut r: Vec<u8> = Vec::new();
    r.push(0x30);
    r.push(0x78);
    if m.len() == 0 {
        r.push(0x30);
        proof {
            assert(r@ =~= hex_ascii(v@));
        }
        return r;
    }
    let ghost head: Seq<u8> = if m@[0] < 16 {
        seq![lo_digit(m@[0])]
    } else {
        seq![hi_digit(m@[0]), lo_digit(m@[0])]
    };
    let b0 = m[0];
    let hi = b0 / 16;
    let lo = b0 % 16;
    if hi != 0 {
        r.push(digit_char(hi));
    }
    r.push(digit_char(lo));
    proof {
        assert(r@ =~= seq![0x30u8, 0x78u8] + head);
    }
    let mut i: usize = 1;
    while i < m.len()
        invariant
            1 <= i <= m@.len(),
            m@.len() >= 1,
            r@ =~= seq![0x30u8, 0x78u8] + head + tail_digits(m@.subrange(1, i as int)),
        decreases m@.len() - i,
    {
        let b = m[i];
        let ghost pre = m@.subrange(1, i as int);
        r.push(digit_char(b / 16));
        r.push(digit_char(b % 16));
        proof {
            lemma_tail_digits_snoc(pre, m@[i as int]);
            assert(pre.push(m@[i as int]) =~= m@.subrange(1, i + 1));
            assert(r@ =~= seq![0x30u8, 0x78u8] + head + tail_digits(m@.subrange(1, i + 1)));
        }
        i = i + 1;
    }
    proof {
        assert(m@.subrange(1, m@.len() as int) =~= m@.skip(1));
        assert(head + tail_digits(m@.skip(1)) =~= min_digits(m@));
        assert(r@ =~= hex_ascii(v@));
    }
    r
}

} // verus!
