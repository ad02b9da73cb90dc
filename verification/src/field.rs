//! The prime-field context: canonical residues as minimal little-endian byte
//! strings, with the arithmetic done by an arbitrary-precision integer crate
//! behind trusted wrappers.
//!
//! A field element is a byte string `v` with `minimal_le(v@)` and
//! `le_val(v@) < le_val(prime@)`; the value zero is the empty string.

use vstd::prelude::*;

use crate::bytes::{le_val, lemma_le_val_append, lemma_le_val_bound, lemma_le_val_single,
    lemma_minimal_zero, lemma_pow256_pos, minimal_le, pow256};

verus! {

/// Relies on num_bigint::BigUint: from_bytes_le / to_bytes_le read and write
/// the little-endian value, and `(a + b) % p` is exact integer arithmetic.
#[verifier::external_body]
fn big_add_mod(a: &Vec<u8>, b: &Vec<u8>, p: &Vec<u8>) -> (r: Vec<u8>)
    requires
        le_val(p@) >= 1,
    ensures
        le_val(r@) == (le_val(a@) + le_val(b@)) % (le_val(p@) as nat),
{
    let x = num_bigint::BigUint::from_bytes_le(a);
    let y = num_bigint::BigUint::from_bytes_le(b);
    let m = num_bigint::BigUint::from_bytes_le(p);
    ((x + y) % m).to_bytes_le()
}

/// Relies on num_bigint::BigUint: `(a * b) % p` is exact integer arithmetic.
#[verifier::external_body]
fn big_mul_mod(a: &Vec<u8>, b: &Vec<u8>, p: &Vec<u8>) -> (r: Vec<u8>)
    requires
        le_val(p@) >= 1,
    ensures
        le_val(r@) == (le_val(a@) * le_val(b@)) % (le_val(p@) as nat),
{
    let x = num_bigint::BigUint::from_bytes_le(a);
    let y = num_bigint::BigUint::from_bytes_le(b);
    let m = num_bigint::BigUint::from_bytes_le(p);
    ((x * y) % m).to_bytes_le()
}

/// Relies on num_bigint::BigUint: `(a + p - b) % p` is exact integer
/// arithmetic; the requires keeps the subtraction from underflowing.
#[verifier::external_body]
fn big_sub_mod(a: &Vec<u8>, b: &Vec<u8>, p: &Vec<u8>) -> (r: Vec<u8>)
    requires
        le_val(p@) >= 1,
        le_val(b@) <= le_val(p@),
    ensures
        le_val(r@) == ((le_val(a@) + le_val(p@) - le_val(b@)) as nat) % (le_val(p@) as nat),
{
    let x = num_bigint::BigUint::from_bytes_le(a);
    let y = num_bigint::BigUint::from_bytes_le(b);
    let m = num_bigint::BigUint::from_bytes_le(p);
    ((x + &m - y) % m).to_bytes_le()
}

/// Relies on num_bigint::BigUint: `a % p` is the canonical residue.
#[verifier::external_body]
fn big_mod(a: &Vec<u8>, p: &Vec<u8>) -> (r: Vec<u8>)
    requires
        le_val(p@) >= 1,
    ensures
        le_val(r@) == le_val(a@) % (le_val(p@) as nat),
{
    let x = num_bigint::BigUint::from_bytes_le(a);
    let m = num_bigint::BigUint::from_bytes_le(p);
    (x % m).to_bytes_le()
}


/// The greatest common divisor, by the Euclidean recursion.
pub open spec fn spec_gcd(a: nat, b: nat) -> nat
    decreases a,
{
    if a == 0 {
        b
    } else {
        spec_gcd(b % a, a)
    }
}

/// Relies on num_bigint::BigUint::modinv: a value comes back exactly when
/// the inverse exists, that is when gcd(a, p) = 1, and it is then a reduced
/// modular multiplicative inverse of `a` modulo `p`.
#[verifier::external_body]
fn big_mod_inv(a: &Vec<u8>, p: &Vec<u8>) -> (r: Option<Vec<u8>>)
    requires
        le_val(p@) >= 2,
    ensures
        r matches Some(v) ==> {
            &&& (le_val(a@) * le_val(v@)) % (le_val(p@) as nat) == 1nat % (le_val(p@) as nat)
            &&& le_val(v@) < le_val(p@)
        },
        r is Some <==> spec_gcd(le_val(a@), le_val(p@)) == 1,
{
    let x = num_bigint::BigUint::from_bytes_le(a);
    let m = num_bigint::BigUint::from_bytes_le(p);
    x.modinv(&m).map(|v| v.to_bytes_le())
}

/// A canonical residue: minimal little-endian bytes, value below the prime.
pub open spec fn fe_wf(v: Seq<u8>, p: Seq<u8>) -> bool {
    &&& minimal_le(v)
    &&& le_val(v) < le_val(p)
}

/// A minimal byte string of positive length denotes at least 256^(len-1).
pub proof fn lemma_minimal_lower_bound(s: Seq<u8>)
    requires
        minimal_le(s),
        s.len() > 0,
    ensures
        le_val(s) >= pow256((s.len() - 1) as nat),
{
    let last = (s.len() - 1) as int;
    let head = s.subrange(0, last);
    assert(s =~= head + s.subrange(last, s.len() as int));
    lemma_le_val_append(head, s.subrange(last, s.len() as int));
    assert(le_val(s.subrange(last, s.len() as int)) >= 1) by {
        let t = s.subrange(last, s.len() as int);
        assert(t[0] == s[last]);
        assert(le_val(t) == t[0] as nat + 256 * le_val(t.subrange(1, t.len() as int)));
    }
    lemma_pow256_pos(head.len());
    assert(pow256(head.len()) * 1 <= pow256(head.len()) * le_val(
        s.subrange(last, s.len() as int),
    )) by (nonlinear_arith)
        requires le_val(s.subrange(last, s.len() as int)) >= 1, pow256(head.len()) >= 0;
}

/// A minimal byte string denoting a value below 256^k has at most k bytes.
pub proof fn lemma_minimal_len(s: Seq<u8>, k: nat)
    requires
        minimal_le(s),
        le_val(s) < pow256(k),
    ensures
        s.len() <= k,
{
    if s.len() > k {
        lemma_minimal_lower_bound(s);
        lemma_pow256_mono(k, (s.len() - 1) as nat);
    }
}

pub proof fn lemma_pow256_mono(a: nat, b: nat)
    requires
        a <= b,
    ensures
        pow256(a) <= pow256(b),
    decreases b,
{
    if a < b {
        lemma_pow256_mono(a, (b - 1) as nat);
        lemma_pow256_pos((b - 1) as nat);
    }
}

/// Strips trailing zero bytes, leaving the minimal form of the same value.
pub fn trim_bytes(v: Vec<u8>) -> (r: Vec<u8>)
    ensures
        minimal_le(r@),
        le_val(r@) == le_val(v@),
{
    let mut r = v;
    while r.len() > 0 && r[r.len() - 1] == 0
        invariant
            le_val(r@) == le_val(v@),
        decreases r.len(),
    {
        let ghost before = r@;
        r.pop();
        proof {
            assert(before =~= r@ + seq![0u8]);
            lemma_le_val_append(r@, seq![0u8]);
            lemma_le_val_single(0u8);
        }
    }
    r
}

/// The prime-field context: the modulus as a minimal little-endian byte
/// string, fixed at construction.
pub struct Field {
    prime: Vec<u8>,
}

impl Field {
    pub open spec fn wf(&self) -> bool {
        &&& minimal_le(self.prime_bytes())
        &&& le_val(self.prime_bytes()) >= 2
    }

    pub open spec fn modulus(&self) -> nat {
        le_val(self.prime_bytes())
    }

    pub closed spec fn prime_bytes(&self) -> Seq<u8> {
        self.prime@
    }

    /// Builds the context from the prime's little-endian bytes; values 0 and 1
    /// denote no field and are rejected.
    pub fn new(prime: Vec<u8>) -> (r: Option<Field>)
        ensures
            r matches Some(f) ==> f.wf() && f.modulus() == le_val(prime@),
            r is None <==> le_val(prime@) < 2,
    {
        let p = trim_bytes(prime);
        if p.len() == 0 {
            proof {
                assert(le_val(p@) == 0);
            }
            None
        } else if p.len() == 1 && p[0] < 2 {
            proof {
                assert(p@ =~= seq![p@[0]]);
                lemma_le_val_single(p[0]);
            }
            None
        } else {
            proof {
                if p@.len() == 1 {
                    assert(p@ =~= seq![p@[0]]);
                    lemma_le_val_single(p@[0]);
                } else {
                    lemma_minimal_lower_bound(p@);
                    lemma_pow256_mono(1, (p@.len() - 1) as nat);
                    lemma_pow256_pos(0);
                    assert(pow256(1) == 256 * pow256(0));
                    assert(le_val(p@) >= 256);
                }
            }
            Some(Field { prime: p })
        }
    }

    /// The prime's little-endian bytes, for the artifact header.
    pub fn prime_le_bytes(&self) -> (r: Vec<u8>)
        ensures
            r@ == self.prime_bytes(),
    {
        let mut r: Vec<u8> = Vec::new();
        let mut i: usize = 0;
        while i < self.prime.len()
            invariant
                i <= self.prime@.len(),
                r@ =~= self.prime@.subrange(0, i as int),
            decreases self.prime@.len() - i,
        {
            r.push(self.prime[i]);
            i += 1;
        }
        proof {
            assert(r@ =~= self.prime@);
        }
        r
    }

    /// Number of bits of the prime.
    pub fn prime_bits(&self) -> (r: usize)
        requires
            self.wf(),
            self.prime_bytes().len() <= usize::MAX / 8,
        ensures
            r == prime_bits_spec(self.prime_bytes()),
    {
        let n = self.prime.len();
        proof {
            if self.prime@.len() == 0 {
                assert(le_val(self.prime@) == 0);
            }
        }
        let top = self.prime[n - 1];
        (n - 1) * 8 + byte_bits(top)
    }

    /// `(a + b) mod p`, canonical.
    pub fn add(&self, a: &Vec<u8>, b: &Vec<u8>) -> (r: Vec<u8>)
        requires
            self.wf(),
        ensures
            fe_wf(r@, self.prime_bytes()),
            le_val(r@) == (le_val(a@) + le_val(b@)) % self.modulus(),
    {
        let raw = big_add_mod(a, b, &self.prime);
        let r = trim_bytes(raw);
        proof {
            self.lemma_residue_len(r@);
        }
        r
    }

    /// `(a * b) mod p`, canonical.
    pub fn mul(&self, a: &Vec<u8>, b: &Vec<u8>) -> (r: Vec<u8>)
        requires
            self.wf(),
        ensures
            fe_wf(r@, self.prime_bytes()),
            le_val(r@) == (le_val(a@) * le_val(b@)) % self.modulus(),
    {
        let raw = big_mul_mod(a, b, &self.prime);
        let r = trim_bytes(raw);
        proof {
            self.lemma_residue_len(r@);
        }
        r
    }

    /// `(a - b) mod p`, canonical; `b` must already be a residue.
    pub fn sub(&self, a: &Vec<u8>, b: &Vec<u8>) -> (r: Vec<u8>)
        requires
            self.wf(),
            le_val(b@) <= self.modulus(),
        ensures
            fe_wf(r@, self.prime_bytes()),
            le_val(r@) == ((le_val(a@) + self.modulus() - le_val(b@)) as nat) % self.modulus(),
    {
        let raw = big_sub_mod(a, b, &self.prime);
        let r = trim_bytes(raw);
        proof {
            self.lemma_residue_len(r@);
        }
        r
    }

    /// Canonical reduction of an arbitrary little-endian number.
    pub fn reduce(&self, a: &Vec<u8>) -> (r: Vec<u8>)
        requires
            self.wf(),
        ensures
            fe_wf(r@, self.prime_bytes()),
            le_val(r@) == le_val(a@) % self.modulus(),
    {
        let raw = big_mod(a, &self.prime);
        let r = trim_bytes(raw);
        proof {
            self.lemma_residue_len(r@);
        }
        r
    }

    /// The modular inverse of `a`: a value exactly when one exists, that is
    /// when `a` and the modulus are coprime; `None` leaves the caller to
    /// fall back to no reduction.
    pub fn inv(&self, a: &Vec<u8>) -> (r: Option<Vec<u8>>)
        requires
            self.wf(),
        ensures
            r matches Some(v) ==> {
                &&& fe_wf(v@, self.prime_bytes())
                &&& (le_val(a@) * le_val(v@)) % self.modulus() == 1nat % self.modulus()
            },
            r is Some <==> spec_gcd(le_val(a@), self.modulus()) == 1,
    {
        match big_mod_inv(a, &self.prime) {
            Some(raw) => {
                let ghost value = le_val(raw@);
                let r = trim_bytes(raw);
                proof {
                    self.lemma_residue_len(r@);
                }
                Some(r)
            },
            None => None,
        }
    }

    proof fn lemma_residue_len(&self, r: Seq<u8>)
        requires
            self.wf(),
            minimal_le(r),
            le_val(r) < self.modulus(),
        ensures
            fe_wf(r, self.prime_bytes()),
            r.len() <= self.prime_bytes().len(),
    {
        lemma_le_val_bound(self.prime@);
        lemma_minimal_len(r, self.prime@.len());
    }
}

/// Whether a canonical residue is zero: exactly the empty byte string.
pub fn fe_is_zero(v: &Vec<u8>) -> (r: bool)
    requires
        minimal_le(v@),
    ensures
        r <==> le_val(v@) == 0,
{
    proof {
        if v@.len() > 0 {
            lemma_minimal_lower_bound(v@);
            lemma_pow256_pos((v@.len() - 1) as nat);
        }
    }
    v.len() == 0
}

/// Bit length of the top byte.
pub open spec fn bit_len(v: nat) -> nat
    decreases v,
{
    if v == 0 {
        0
    } else {
        1 + bit_len(v / 2)
    }
}

/// Bit length of a minimal little-endian number.
pub open spec fn prime_bits_spec(s: Seq<u8>) -> nat {
    if s.len() == 0 {
        0
    } else {
        8 * (s.len() - 1) as nat + bit_len(s[s.len() - 1] as nat)
    }
}

fn byte_bits(b: u8) -> (r: usize)
    ensures
        r == bit_len(b as nat),
        r <= 8,
{
    proof {
        reveal_with_fuel(pow2, 9);
        assert(pow2(8) == 256);
        lemma_bit_len_le(b as nat, 8);
    }
    let mut v = b;
    let mut r: usize = 0;
    while v > 0
        invariant
            r + bit_len(v as nat) == bit_len(b as nat),
            bit_len(b as nat) <= 8,
        decreases v,
    {
        v = v / 2;
        r += 1;
    }
    r
}

/// 2 to the n-th power.
pub open spec fn pow2(n: nat) -> nat
    decreases n,
{
    if n == 0 {
        1
    } else {
        2 * pow2((n - 1) as nat)
    }
}

proof fn lemma_bit_len_le(v: nat, n: nat)
    requires
        v < pow2(n),
    ensures
        bit_len(v) <= n,
    decreases n,
{
    if v > 0 {
        assert(n > 0);
        assert(v / 2 < pow2((n - 1) as nat)) by (nonlinear_arith)
            requires v < 2 * pow2((n - 1) as nat);
        lemma_bit_len_le(v / 2, (n - 1) as nat);
    }
}

} // verus!
