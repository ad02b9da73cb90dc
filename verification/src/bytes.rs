//! Little-endian byte strings and their numeric value.
//!
//! Field elements, section lengths and all fixed-width integers of the binary
//! artifact are little-endian byte strings; `le_val` gives the number a byte
//! string denotes and `le_bytes` the canonical fixed-width encoding of a
//! number.

use vstd::prelude::*;

verus! {

/// Numeric value of a little-endian byte string.
pub open spec fn le_val(s: Seq<u8>) -> nat
    decreases s.len(),
{
    if s.len() == 0 {
        0
    } else {
        s[0] as nat + 256 * le_val(s.subrange(1, s.len() as int))
    }
}

/// 256 to the n-th power: the number of values an n-byte string can denote.
pub open spec fn pow256(n: nat) -> nat
    decreases n,
{
    if n == 0 {
        1
    } else {
        256 * pow256((n - 1) as nat)
    }
}

/// The n-byte little-endian encoding of v (modulo 256^n).
pub open spec fn le_bytes(v: nat, n: nat) -> Seq<u8>
    decreases n,
{
    if n == 0 {
        Seq::empty()
    } else {
        seq![(v % 256) as u8] + le_bytes(v / 256, (n - 1) as nat)
    }
}

/// A byte string is minimal when it carries no trailing zero byte; the empty
/// string is the minimal form of zero.
pub open spec fn minimal_le(s: Seq<u8>) -> bool {
    s.len() == 0 || s[s.len() - 1] != 0
}

pub proof fn lemma_le_val_append(a: Seq<u8>, b: Seq<u8>)
    ensures
        le_val(a + b) == le_val(a) + pow256(a.len()) * le_val(b),
    decreases a.len(),
{
    if a.len() == 0 {
        assert(a + b =~= b);
        assert(le_val(a) == 0);
        assert(pow256(a.len()) == 1);
    } else {
        let a1 = a.subrange(1, a.len() as int);
        lemma_le_val_append(a1, b);
        assert((a + b).subrange(1, (a + b).len() as int) =~= a1 + b);
        assert(le_val(a + b) == a[0] as nat + 256 * le_val(a1 + b));
        assert(le_val(a1 + b) == le_val(a1) + pow256(a1.len()) * le_val(b));
        assert(256 * (le_val(a1) + pow256(a1.len()) * le_val(b))
            == 256 * le_val(a1) + 256 * (pow256(a1.len()) * le_val(b)))
            by (nonlinear_arith);
        assert(256 * (pow256(a1.len()) * le_val(b)) == (256 * pow256(a1.len())) * le_val(b))
            by (nonlinear_arith);
        assert(256 * pow256(a1.len()) == pow256(a.len()));
        assert(le_val(a) == a[0] as nat + 256 * le_val(a1));
        assert(256 * le_val(a1) + (256 * pow256(a1.len())) * le_val(b)
            == 256 * (le_val(a1) + pow256(a1.len()) * le_val(b))) by (nonlinear_arith);
        assert((256 * pow256(a1.len())) * le_val(b) == pow256(a.len()) * le_val(b));
        assert(le_val(a + b) == a[0] as nat + 256 * (le_val(a1) + pow256(a1.len()) * le_val(b)));
        assert(le_val(a + b) == a[0] as nat + 256 * le_val(a1) + pow256(a.len()) * le_val(b));
    }
}

pub proof fn lemma_le_val_bound(s: Seq<u8>)
    ensures
        le_val(s) < pow256(s.len()),
    decreases s.len(),
{
    if s.len() == 0 {
    } else {
        let s1 = s.subrange(1, s.len() as int);
        lemma_le_val_bound(s1);
        assert(le_val(s1) <= pow256(s1.len()) - 1);
        assert(256 * le_val(s1) <= 256 * (pow256(s1.len()) - 1)) by (nonlinear_arith)
            requires le_val(s1) <= pow256(s1.len()) - 1;
    }
}

pub proof fn lemma_le_bytes_val(v: nat, n: nat)
    requires
        v < pow256(n),
    ensures
        le_bytes(v, n).len() == n,
        le_val(le_bytes(v, n)) == v,
    decreases n,
{
    lemma_le_bytes_len(v, n);
    if n == 0 {
    } else {
        assert(v / 256 < pow256((n - 1) as nat)) by (nonlinear_arith)
            requires v < 256 * pow256((n - 1) as nat);
        lemma_le_bytes_val(v / 256, (n - 1) as nat);
        let s = le_bytes(v, n);
        assert(s.subrange(1, s.len() as int) =~= le_bytes(v / 256, (n - 1) as nat));
        assert(v % 256 + 256 * (v / 256) == v) by (nonlinear_arith);
    }
}

pub proof fn lemma_le_bytes_len(v: nat, n: nat)
    ensures
        le_bytes(v, n).len() == n,
    decreases n,
{
    if n > 0 {
        lemma_le_bytes_len(v / 256, (n - 1) as nat);
    }
}

/// A minimal byte string denoting zero is empty.
pub proof fn lemma_minimal_zero(s: Seq<u8>)
    requires
        minimal_le(s),
        le_val(s) == 0,
    ensures
        s.len() == 0,
    decreases s.len(),
{
    if s.len() > 0 {
        let s1 = s.subrange(1, s.len() as int);
        assert(le_val(s) == s[0] as nat + 256 * le_val(s1));
        assert(minimal_le(s1));
        lemma_minimal_zero(s1);
        assert(s.len() == 1);
        assert(s[0] != 0);
    }
}

/// Appending zero bytes does not change the denoted value.
pub proof fn lemma_le_val_pad(a: Seq<u8>, b: Seq<u8>)
    requires
        forall|i: int| 0 <= i < b.len() ==> b[i] == 0,
    ensures
        le_val(a + b) == le_val(a),
    decreases b.len(),
{
    lemma_le_val_append(a, b);
    lemma_le_val_all_zero(b);
}

pub proof fn lemma_le_val_all_zero(b: Seq<u8>)
    requires
        forall|i: int| 0 <= i < b.len() ==> b[i] == 0,
    ensures
        le_val(b) == 0,
    decreases b.len(),
{
    if b.len() > 0 {
        lemma_le_val_all_zero(b.subrange(1, b.len() as int));
    }
}

/// Pads a little-endian number with zero bytes up to `with_bytes` and returns
/// it with its final width; a number already wider is returned unchanged.
pub fn into_format(number: &[u8], with_bytes: usize) -> (r: (Vec<u8>, usize))
    ensures
        r.1 == r.0.len(),
        r.0.len() == if number@.len() >= with_bytes { number@.len() } else { with_bytes as nat },
        r.0@.subrange(0, number@.len() as int) == number@,
        forall|i: int| number@.len() <= i < r.0.len() ==> r.0@[i] == 0,
        le_val(r.0@) == le_val(number@),
{
    let mut value: Vec<u8> = Vec::new();
    let mut i: usize = 0;
    let n = number.len();
    while i < n
        invariant
            i <= n,
            n == number@.len(),
            value@ =~= number@.subrange(0, i as int),
        decreases n - i,
    {
        value.push(number[i]);
        i += 1;
    }
    assert(value@ =~= number@);
    while value.len() < with_bytes
        invariant
            value@.len() >= number@.len(),
            number@.len() >= with_bytes ==> value@.len() == number@.len(),
            number@.len() < with_bytes ==> value@.len() <= with_bytes,
            value@.subrange(0, number@.len() as int) =~= number@,
            forall|j: int| number@.len() <= j < value@.len() ==> value@[j] == 0,
        decreases with_bytes - value.len(),
    {
        let ghost old_v = value@;
        value.push(0);
        assert(value@.subrange(0, number@.len() as int) =~= old_v.subrange(
            0,
            number@.len() as int,
        ));
    }
    proof {
        let pad = value@.subrange(number@.len() as int, value@.len() as int);
        assert(value@ =~= number@ + pad);
        lemma_le_val_pad(number@, pad);
    }
    let size = value.len();
    (value, size)
}

/// The 4-byte little-endian encoding of a 32-bit number.
pub fn u32_to_le(x: u32) -> (r: Vec<u8>)
    ensures
        r@.len() == 4,
        r@ == le_bytes(x as nat, 4),
        le_val(r@) == x as nat,
{
    let mut r: Vec<u8> = Vec::new();
    r.push((x % 256) as u8);
    r.push(((x / 256) % 256) as u8);
    r.push(((x / 65536) % 256) as u8);
    r.push(((x / 16777216) % 256) as u8);
    proof {
        reveal_with_fuel(le_bytes, 5);
        assert(x as nat / 256 / 256 == x as nat / 65536) by (nonlinear_arith);
        assert(x as nat / 256 / 256 / 256 == x as nat / 16777216) by (nonlinear_arith);
        assert(x as nat / 16777216 / 256 == 0) by (nonlinear_arith)
            requires x <= 0xffff_ffff;
        assert(r@ =~= le_bytes(x as nat, 4));
        reveal_with_fuel(pow256, 5);
        assert(pow256(4) == 0x1_0000_0000);
        lemma_le_bytes_val(x as nat, 4);
    }
    r
}

/// The 8-byte little-endian encoding of a 64-bit number.
pub fn u64_to_le(x: u64) -> (r: Vec<u8>)
    ensures
        r@.len() == 8,
        r@ == le_bytes(x as nat, 8),
        le_val(r@) == x as nat,
{
    let mut r: Vec<u8> = Vec::new();
    let mut v = x;
    let mut i: usize = 0;
    proof {
        assert(pow256(0) == 1);
        assert(x as nat / 1 == x as nat);
        assert(le_bytes(x as nat, 8) =~= r@ + le_bytes(x as nat, 8));
    }
    while i < 8
        invariant
            i <= 8,
            r@.len() == i,
            v == x as nat / pow256(i as nat),
            le_bytes(x as nat, 8) =~= r@ + le_bytes(v as nat, (8 - i) as nat),
        decreases 8 - i,
    {
        let ghost old_r = r@;
        let ghost old_v = v as nat;
        r.push((v % 256) as u8);
        v = v / 256;
        proof {
            assert(le_bytes(old_v, (8 - i) as nat) =~= seq![(old_v % 256) as u8] + le_bytes(
                old_v / 256,
                (8 - i - 1) as nat,
            ));
            assert(old_r + le_bytes(old_v, (8 - i) as nat) =~= r@ + le_bytes(
                old_v / 256,
                (8 - i - 1) as nat,
            ));
            lemma_pow256_pos(i as nat);
            assert(x as nat / pow256(i as nat) / 256 == x as nat / (pow256(i as nat) * 256))
                by (nonlinear_arith)
                requires pow256(i as nat) > 0;
            lemma_pow256_pos((i + 1) as nat);
            assert(pow256((i + 1) as nat) == 256 * pow256(i as nat));
        }
        i += 1;
    }
    proof {
        assert(r@ + le_bytes(v as nat, 0) =~= r@);
        assert((x as nat) < pow256(8)) by {
            reveal_with_fuel(pow256, 9);
            assert(pow256(8) == 0x1_0000_0000_0000_0000);
        }
        lemma_le_bytes_val(x as nat, 8);
    }
    r
}

/// The minimal little-endian encoding of a number; zero is the empty string.
pub open spec fn min_bytes(v: nat) -> Seq<u8>
    decreases v,
{
    if v == 0 {
        Seq::empty()
    } else {
        seq![(v % 256) as u8] + min_bytes(v / 256)
    }
}

pub proof fn lemma_min_bytes(v: nat)
    ensures
        minimal_le(min_bytes(v)),
        le_val(min_bytes(v)) == v,
    decreases v,
{
    if v > 0 {
        lemma_min_bytes(v / 256);
        let s = min_bytes(v);
        let rest = min_bytes(v / 256);
        lemma_le_val_single((v % 256) as u8);
        lemma_le_val_append(seq![(v % 256) as u8], rest);
        assert(pow256(1) == 256 * pow256(0));
        assert(pow256(0) == 1);
        assert(((v % 256) as u8) as nat == v % 256);
        assert(le_val(s) == v % 256 + 256 * (v / 256));
        assert(v % 256 + 256 * (v / 256) == v) by (nonlinear_arith);
        if v / 256 == 0 {
            assert(s =~= seq![(v % 256) as u8]);
            assert(v % 256 != 0);
        } else {
            assert(rest.len() > 0);
            assert(s[s.len() - 1] == rest[rest.len() - 1]);
        }
    }
}

/// Two minimal byte strings denoting the same value are the same string.
pub proof fn lemma_minimal_unique(a: Seq<u8>, b: Seq<u8>)
    requires
        minimal_le(a),
        minimal_le(b),
        le_val(a) == le_val(b),
    ensures
        a == b,
    decreases a.len(),
{
    if a.len() == 0 {
        lemma_minimal_zero(b);
        assert(a =~= b);
    } else if b.len() == 0 {
        lemma_minimal_zero(a);
        assert(a =~= b);
    } else {
        let at = a.subrange(1, a.len() as int);
        let bt = b.subrange(1, b.len() as int);
        assert(le_val(a) == a[0] as nat + 256 * le_val(at));
        assert(le_val(b) == b[0] as nat + 256 * le_val(bt));
        assert(a[0] == b[0] && le_val(at) == le_val(bt)) by (nonlinear_arith)
            requires
                a[0] < 256,
                b[0] < 256,
                a[0] as nat + 256 * le_val(at) == b[0] as nat + 256 * le_val(bt);
        assert(minimal_le(at)) by {
            if at.len() > 0 {
                assert(at[at.len() - 1] == a[a.len() - 1]);
            }
        }
        assert(minimal_le(bt)) by {
            if bt.len() > 0 {
                assert(bt[bt.len() - 1] == b[b.len() - 1]);
            }
        }
        lemma_minimal_unique(at, bt);
        assert(a.len() == b.len());
        assert forall|i: int| 0 <= i < a.len() implies a[i] == b[i] by {
            if i > 0 {
                assert(a[i] == at[i - 1]);
                assert(b[i] == bt[i - 1]);
            }
        }
        assert(a =~= b);
    }
}

/// A minimal byte string is the minimal encoding of its value.
pub proof fn lemma_min_bytes_of(s: Seq<u8>)
    requires
        minimal_le(s),
    ensures
        min_bytes(le_val(s)) == s,
{
    lemma_min_bytes(le_val(s));
    lemma_minimal_unique(min_bytes(le_val(s)), s);
}

pub proof fn lemma_le_val_empty()
    ensures
        le_val(Seq::<u8>::empty()) == 0,
{
}

pub proof fn lemma_le_val_single(b: u8)
    ensures
        le_val(seq![b]) == b as nat,
{
    let s = seq![b];
    assert(le_val(s) == s[0] as nat + 256 * le_val(s.subrange(1, 1)));
    assert(s.subrange(1, 1) =~= Seq::<u8>::empty());
    lemma_le_val_empty();
}

pub proof fn lemma_pow256_pos(n: nat)
    ensures
        pow256(n) >= 1,
    decreases n,
{
    if n > 0 {
        lemma_pow256_pos((n - 1) as nat);
    }
}

} // verus!
