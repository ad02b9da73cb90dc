//! Linear combinations, R1CS constraints and substitutions.
//!
//! A linear combination maps signal ids to nonzero canonical field
//! coefficients; it is held as a vector of terms sorted by strictly
//! increasing signal id, the reserved signal 0 standing for the constant.
//! A constraint is a triple `(A, B, C)` meaning `A·B = C`; it is linear when
//! `A` and `B` are empty, so that it reads `C = 0`.

use vstd::prelude::*;

use crate::bytes::{le_val, lemma_min_bytes, lemma_min_bytes_of, min_bytes, minimal_le};
use crate::field::{fe_is_zero, Field};

verus! {

/// One term of a linear combination: a signal id and its coefficient.
pub struct LinearTerm {
    pub signal: usize,
    pub coeff: Vec<u8>,
}

impl View for LinearTerm {
    type V = (nat, Seq<u8>);

    open spec fn view(&self) -> (nat, Seq<u8>) {
        (self.signal as nat, self.coeff@)
    }
}

/// A linear combination over signals, sorted by strictly increasing id.
pub struct LinearExpr {
    pub terms: Vec<LinearTerm>,
}

impl View for LinearExpr {
    type V = Seq<(nat, Seq<u8>)>;

    open spec fn view(&self) -> Seq<(nat, Seq<u8>)> {
        self.terms@.map_values(|t: LinearTerm| t@)
    }
}

/// The coefficient a term sequence gives a signal; 0 when absent.
pub open spec fn coeff_of(s: Seq<(nat, Seq<u8>)>, sig: nat) -> nat
    decreases s.len(),
{
    if s.len() == 0 {
        0
    } else if s[0].0 == sig {
        le_val(s[0].1)
    } else {
        coeff_of(s.subrange(1, s.len() as int), sig)
    }
}

/// Terms sorted by strictly increasing signal id.
pub open spec fn sig_sorted(s: Seq<(nat, Seq<u8>)>) -> bool {
    forall|i: int, j: int| 0 <= i < j < s.len() ==> s[i].0 < s[j].0
}

/// A normalized term sequence: sorted, every coefficient canonical and
/// nonzero.
pub open spec fn norm_terms(s: Seq<(nat, Seq<u8>)>, p: nat) -> bool {
    &&& sig_sorted(s)
    &&& forall|i: int|
        0 <= i < s.len() ==> minimal_le(#[trigger] s[i].1) && 0 < le_val(s[i].1) < p
}

/// An R1CS constraint `A·B = C`.
pub struct Constraint {
    pub a: LinearExpr,
    pub b: LinearExpr,
    pub c: LinearExpr,
}

impl Constraint {
    pub open spec fn wf(&self, p: nat) -> bool {
        &&& norm_terms(self.a@, p)
        &&& norm_terms(self.b@, p)
        &&& norm_terms(self.c@, p)
    }

    /// Linear: `A` and `B` are empty, the constraint reads `C = 0`.
    pub open spec fn is_linear_spec(&self) -> bool {
        self.a@.len() == 0 && self.b@.len() == 0
    }

    pub fn is_linear(&self) -> (r: bool)
        ensures
            r == self.is_linear_spec(),
    {
        self.a.terms.len() == 0 && self.b.terms.len() == 0
    }

    /// Empty: no term anywhere, the trivial constraint `0·0 = 0`.
    pub open spec fn is_empty_spec(&self) -> bool {
        self.a@.len() == 0 && self.b@.len() == 0 && self.c@.len() == 0
    }

    pub fn is_empty(&self) -> (r: bool)
        ensures
            r == self.is_empty_spec(),
    {
        self.a.terms.len() == 0 && self.b.terms.len() == 0 && self.c.terms.len() == 0
    }

    /// Constant-only: every term is on the reserved signal 0, so no witness
    /// signal occurs; the shape a dead `0 = 0`-like constraint has.
    pub open spec fn is_constant_only_spec(&self) -> bool {
        &&& forall|i: int| 0 <= i < self.a@.len() ==> (#[trigger] self.a@[i]).0 == 0
        &&& forall|i: int| 0 <= i < self.b@.len() ==> (#[trigger] self.b@[i]).0 == 0
        &&& forall|i: int| 0 <= i < self.c@.len() ==> (#[trigger] self.c@[i]).0 == 0
    }
}

/// A recorded elimination: `signal` stands for the linear expression `expr`.
pub struct Substitution {
    pub signal: usize,
    pub expr: LinearExpr,
}

impl Substitution {
    /// The source never occurs in its own replacement, and the constant
    /// signal is never eliminated.
    pub open spec fn wf(&self, p: nat) -> bool {
        &&& norm_terms(self.expr@, p)
        &&& coeff_of(self.expr@, self.signal as nat) == 0
        &&& self.signal != 0
    }
}

/// A signal occurring in no term has coefficient 0.
pub proof fn lemma_coeff_of_absent(s: Seq<(nat, Seq<u8>)>, sig: nat)
    requires
        forall|i: int| 0 <= i < s.len() ==> (#[trigger] s[i]).0 != sig,
    ensures
        coeff_of(s, sig) == 0,
    decreases s.len(),
{
    if s.len() > 0 {
        lemma_coeff_of_absent(s.subrange(1, s.len() as int), sig);
    }
}

/// In a sorted sequence, the coefficient of a present signal is the value
/// stored at its index.
pub proof fn lemma_coeff_of_present(s: Seq<(nat, Seq<u8>)>, i: int)
    requires
        sig_sorted(s),
        0 <= i < s.len(),
    ensures
        coeff_of(s, s[i].0) == le_val(s[i].1),
    decreases s.len(),
{
    if i == 0 {
    } else {
        assert(s[0].0 < s[i].0);
        let t = s.subrange(1, s.len() as int);
        assert(t[i - 1] == s[i]);
        lemma_coeff_of_present(t, i - 1);
    }
}

/// `coeff_of` over a concatenation: the left part decides when it mentions
/// the signal, the right part otherwise.
pub proof fn lemma_coeff_of_concat(a: Seq<(nat, Seq<u8>)>, b: Seq<(nat, Seq<u8>)>, s: nat)
    ensures
        coeff_of(a + b, s) == if exists|j: int| 0 <= j < a.len() && (#[trigger] a[j]).0 == s {
            coeff_of(a, s)
        } else {
            coeff_of(b, s)
        },
    decreases a.len(),
{
    if a.len() == 0 {
        assert(a + b =~= b);
    } else {
        let a1 = a.subrange(1, a.len() as int);
        lemma_coeff_of_concat(a1, b, s);
        assert((a + b).subrange(1, (a + b).len() as int) =~= a1 + b);
        if a[0].0 == s {
        } else {
            assert((exists|j: int| 0 <= j < a.len() && (#[trigger] a[j]).0 == s) <==> (exists|
                j: int,
            | 0 <= j < a1.len() && (#[trigger] a1[j]).0 == s)) by {
                if exists|j: int| 0 <= j < a.len() && (#[trigger] a[j]).0 == s {
                    let j = choose|j: int| 0 <= j < a.len() && (#[trigger] a[j]).0 == s;
                    assert(a1[j - 1] == a[j]);
                }
                if exists|j: int| 0 <= j < a1.len() && (#[trigger] a1[j]).0 == s {
                    let j = choose|j: int| 0 <= j < a1.len() && (#[trigger] a1[j]).0 == s;
                    assert(a[j + 1] == a1[j]);
                }
            }
        }
    }
}

/// Removing the term at index i zeroes that signal and keeps every other
/// coefficient, in a sorted sequence.
pub proof fn lemma_coeff_of_remove(orig: Seq<(nat, Seq<u8>)>, i: int, s: nat)
    requires
        sig_sorted(orig),
        0 <= i < orig.len(),
    ensures
        coeff_of(orig.remove(i), s) == if s == orig[i].0 {
            0
        } else {
            coeff_of(orig, s)
        },
{
    let sig = orig[i].0;
    let pre = orig.subrange(0, i);
    let suf = orig.subrange(i + 1, orig.len() as int);
    let mid = orig.subrange(i, orig.len() as int);
    assert(orig =~= pre + mid);
    assert(orig.remove(i) =~= pre + suf);
    lemma_coeff_of_concat(pre, mid, s);
    lemma_coeff_of_concat(pre, suf, s);
    assert(mid.subrange(1, mid.len() as int) =~= suf);
    if s == sig {
        assert forall|j: int| 0 <= j < pre.len() implies (#[trigger] pre[j]).0 != s by {
            assert(orig[j].0 < orig[i].0);
        }
        assert forall|j: int| 0 <= j < suf.len() implies (#[trigger] suf[j]).0 != s by {
            assert(suf[j] == orig[j + i + 1]);
            assert(orig[i].0 < orig[j + i + 1].0);
        }
        assert forall|j: int| 0 <= j < (pre + suf).len() implies (#[trigger] (pre + suf)[j]).0
            != s by {
            if j < pre.len() {
                assert((pre + suf)[j] == pre[j]);
            } else {
                assert((pre + suf)[j] == suf[j - pre.len()]);
            }
        }
        lemma_coeff_of_absent(pre + suf, s);
    } else {
        assert(mid[0].0 == sig);
        assert(coeff_of(mid, s) == coeff_of(suf, s));
    }
}

/// Replacing the coefficient bytes at index i changes only that signal's
/// coefficient, in a sorted sequence.
pub proof fn lemma_coeff_of_update(orig: Seq<(nat, Seq<u8>)>, i: int, c: Seq<u8>, s: nat)
    requires
        sig_sorted(orig),
        0 <= i < orig.len(),
    ensures
        coeff_of(orig.update(i, (orig[i].0, c)), s) == if s == orig[i].0 {
            le_val(c)
        } else {
            coeff_of(orig, s)
        },
    decreases orig.len(),
{
    let new = orig.update(i, (orig[i].0, c));
    assert(sig_sorted(new)) by {
        assert(forall|j: int| 0 <= j < new.len() ==> (#[trigger] new[j]).0 == orig[j].0);
    }
    if s == orig[i].0 {
        assert(new[i].0 == s);
        lemma_coeff_of_present(new, i);
    } else {
        if i == 0 {
            assert(new.subrange(1, new.len() as int) =~= orig.subrange(1, orig.len() as int));
        } else {
            let orig1 = orig.subrange(1, orig.len() as int);
            assert(new.subrange(1, new.len() as int) =~= orig1.update(i - 1, (orig1[i - 1].0, c)));
            lemma_coeff_of_update(orig1, i - 1, c, s);
        }
    }
}

/// Inserting a term for a fresh signal at its sorted position changes only
/// that signal's coefficient.
pub proof fn lemma_coeff_of_insert(
    orig: Seq<(nat, Seq<u8>)>,
    i: int,
    sig: nat,
    c: Seq<u8>,
    s: nat,
)
    requires
        0 <= i <= orig.len(),
        forall|j: int| 0 <= j < orig.len() ==> (#[trigger] orig[j]).0 != sig,
    ensures
        coeff_of(orig.insert(i, (sig, c)), s) == if s == sig {
            le_val(c)
        } else {
            coeff_of(orig, s)
        },
{
    let new = orig.insert(i, (sig, c));
    let pre = orig.subrange(0, i);
    let suf = orig.subrange(i, orig.len() as int);
    assert(orig =~= pre + suf);
    assert(new =~= pre + (seq![(sig, c)] + suf));
    lemma_coeff_of_concat(pre, suf, s);
    lemma_coeff_of_concat(pre, seq![(sig, c)] + suf, s);
    assert((seq![(sig, c)] + suf).subrange(1, (seq![(sig, c)] + suf).len() as int) =~= suf);
    if s == sig {
        assert forall|j: int| 0 <= j < pre.len() implies (#[trigger] pre[j]).0 != s by {
            assert(pre[j] == orig[j]);
        }
        assert(coeff_of(seq![(sig, c)] + suf, s) == le_val(c));
        assert(!(exists|j: int| 0 <= j < pre.len() && (#[trigger] pre[j]).0 == s));
        assert forall|j: int| 0 <= j < orig.len() implies (#[trigger] orig[j]).0 != s by {}
        lemma_coeff_of_absent(orig, s);
    } else {
        assert(coeff_of(seq![(sig, c)] + suf, s) == coeff_of(suf, s));
    }
}

/// Sortedness survives inserting a fresh signal between its neighbours.
pub proof fn lemma_sorted_insert(orig: Seq<(nat, Seq<u8>)>, i: int, sig: nat, c: Seq<u8>)
    requires
        sig_sorted(orig),
        0 <= i <= orig.len(),
        forall|j: int| 0 <= j < i ==> (#[trigger] orig[j]).0 < sig,
        forall|j: int| i <= j < orig.len() ==> (#[trigger] orig[j]).0 > sig,
    ensures
        sig_sorted(orig.insert(i, (sig, c))),
{
    let new = orig.insert(i, (sig, c));
    assert forall|x: int, y: int| 0 <= x < y < new.len() implies new[x].0 < new[y].0 by {
        if x < i && y < i {
            assert(new[x] == orig[x] && new[y] == orig[y]);
        } else if x < i && y == i {
            assert(new[x] == orig[x]);
        } else if x < i && y > i {
            assert(new[x] == orig[x] && new[y] == orig[y - 1]);
        } else if x == i && y > i {
            assert(new[y] == orig[y - 1]);
        } else if x > i && y > i {
            assert(new[x] == orig[x - 1] && new[y] == orig[y - 1]);
        }
    }
}

impl LinearExpr {
    pub fn empty() -> (r: LinearExpr)
        ensures
            r@ =~= Seq::<(nat, Seq<u8>)>::empty(),
            r@.len() == 0,
    {
        LinearExpr { terms: Vec::new() }
    }

    /// Index of the term carrying `sig`, when present.
    pub fn find(&self, sig: usize) -> (r: Option<usize>)
        requires
            sig_sorted(self@),
        ensures
            match r {
                Some(i) => i < self@.len() && self@[i as int].0 == sig as nat && coeff_of(
                    self@,
                    sig as nat,
                ) == le_val(self@[i as int].1),
                None => coeff_of(self@, sig as nat) == 0 && forall|j: int|
                    0 <= j < self@.len() ==> (#[trigger] self@[j]).0 != sig as nat,
            },
    {
        let n = self.terms.len();
        let mut i: usize = 0;
        while i < n
            invariant
                i <= n,
                n == self@.len(),
                sig_sorted(self@),
                forall|j: int| 0 <= j < i ==> (#[trigger] self@[j]).0 != sig as nat,
            decreases n - i,
        {
            if self.terms[i].signal == sig {
                proof {
                    lemma_coeff_of_present(self@, i as int);
                }
                return Some(i);
            }
            i += 1;
        }
        proof {
            lemma_coeff_of_absent(self@, sig as nat);
        }
        None
    }

    /// Adds `d` to the coefficient of `sig`, canonically; a coefficient that
    /// cancels to zero leaves the expression.
    pub fn upsert(&mut self, sig: usize, d: &Vec<u8>, f: &Field)
        requires
            f.wf(),
            norm_terms(old(self)@, f.modulus()),
        ensures
            norm_terms(final(self)@, f.modulus()),
            forall|s: nat|
                #[trigger] coeff_of(final(self)@, s) == if s == sig as nat {
                    (coeff_of(old(self)@, s) + le_val(d@)) % f.modulus()
                } else {
                    coeff_of(old(self)@, s)
                },
            final(self)@.len() <= old(self)@.len() + 1,
    {
        let ghost orig = self@;
        let ghost p = f.modulus();
        let n = self.terms.len();
        let mut i: usize = 0;
        while i < n && self.terms[i].signal < sig
            invariant
                i <= n,
                n == self@.len(),
                self@ == orig,
                norm_terms(self@, p),
                forall|j: int| 0 <= j < i ==> (#[trigger] self@[j]).0 < sig as nat,
            decreases n - i,
        {
            i += 1;
        }
        if i < n && self.terms[i].signal == sig {
            proof {
                lemma_coeff_of_present(orig, i as int);
            }
            let c = f.add(&self.terms[i].coeff, d);
            if fe_is_zero(&c) {
                self.terms.remove(i);
                proof {
                    assert(self@ =~= orig.remove(i as int));
                    assert forall|s: nat| #[trigger] coeff_of(self@, s) == if s == sig as nat {
                        (coeff_of(orig, s) + le_val(d@)) % p
                    } else {
                        coeff_of(orig, s)
                    } by {
                        lemma_coeff_of_remove(orig, i as int, s);
                    }
                    assert(norm_terms(self@, p)) by {
                        assert forall|x: int, y: int|
                            0 <= x < y < self@.len() implies self@[x].0 < self@[y].0 by {
                            assert(self@[x] == orig.remove(i as int)[x]);
                        }
                        assert forall|x: int| 0 <= x < self@.len() implies minimal_le(
                            #[trigger] self@[x].1,
                        ) && 0 < le_val(self@[x].1) < p by {
                            if x < i {
                                assert(self@[x] == orig[x]);
                            } else {
                                assert(self@[x] == orig[x + 1]);
                            }
                        }
                    }
                }
            } else {
                self.terms.set(i, LinearTerm { signal: sig, coeff: c });
                proof {
                    assert(self@ =~= orig.update(i as int, (sig as nat, c@)));
                    assert(orig[i as int].0 == sig as nat);
                    assert forall|s: nat| #[trigger] coeff_of(self@, s) == if s == sig as nat {
                        (coeff_of(orig, s) + le_val(d@)) % p
                    } else {
                        coeff_of(orig, s)
                    } by {
                        lemma_coeff_of_update(orig, i as int, c@, s);
                    }
                    assert(norm_terms(self@, p)) by {
                        assert(forall|j: int|
                            0 <= j < self@.len() ==> (#[trigger] self@[j]).0 == orig[j].0);
                        assert forall|x: int| 0 <= x < self@.len() implies minimal_le(
                            #[trigger] self@[x].1,
                        ) && 0 < le_val(self@[x].1) < p by {
                            if x != i {
                                assert(self@[x] == orig[x]);
                            }
                        }
                    }
                }
            }
        } else {
            proof {
                assert forall|j: int| 0 <= j < orig.len() implies (#[trigger] orig[j]).0
                    != sig as nat by {
                    if j >= i {
                        assert(i < n);
                        if j > i {
                            assert(orig[i as int].0 < orig[j].0);
                        }
                    }
                }
                lemma_coeff_of_absent(orig, sig as nat);
            }
            let dd = f.reduce(d);
            if !fe_is_zero(&dd) {
                proof {
                    assert forall|j: int| i <= j < orig.len() implies (#[trigger] orig[j]).0
                        > sig as nat by {
                        assert(i < n);
                        if j > i {
                            assert(orig[i as int].0 < orig[j].0);
                        }
                    }
                }
                self.terms.insert(i, LinearTerm { signal: sig, coeff: dd });
                proof {
                    assert(self@ =~= orig.insert(i as int, (sig as nat, dd@)));
                    assert forall|s: nat| #[trigger] coeff_of(self@, s) == if s == sig as nat {
                        (coeff_of(orig, s) + le_val(d@)) % p
                    } else {
                        coeff_of(orig, s)
                    } by {
                        lemma_coeff_of_insert(orig, i as int, sig as nat, dd@, s);
                    }
                    assert(norm_terms(self@, p)) by {
                        lemma_sorted_insert(orig, i as int, sig as nat, dd@);
                        assert forall|x: int| 0 <= x < self@.len() implies minimal_le(
                            #[trigger] self@[x].1,
                        ) && 0 < le_val(self@[x].1) < p by {
                            if x < i {
                                assert(self@[x] == orig[x]);
                            } else if x > i {
                                assert(self@[x] == orig[x - 1]);
                            } else {
                                assert(self@[x] == (sig as nat, dd@));
                                assert(minimal_le(dd@));
                                assert(0 < le_val(dd@) < p);
                            }
                        }
                    }
                }
            }
        }
    }
}

/// The normalization of a term sequence: every coefficient reduced to its
/// canonical residue, terms whose coefficient vanishes removed.
pub open spec fn fix_terms(s: Seq<(nat, Seq<u8>)>, p: nat) -> Seq<(nat, Seq<u8>)>
    decreases s.len(),
{
    if s.len() == 0 {
        Seq::empty()
    } else {
        let rest = fix_terms(s.subrange(1, s.len() as int), p);
        let v = le_val(s[0].1) % p;
        if v == 0 {
            rest
        } else {
            seq![(s[0].0, min_bytes(v))] + rest
        }
    }
}

/// Normalization keeps sortedness, makes every coefficient canonical and
/// nonzero, keeps signals, and reduces every coefficient modulo p.
pub proof fn lemma_fix_terms_props(s: Seq<(nat, Seq<u8>)>, p: nat)
    requires
        p >= 2,
        sig_sorted(s),
    ensures
        norm_terms(fix_terms(s, p), p),
        forall|i: int|
            0 <= i < fix_terms(s, p).len() ==> exists|j: int|
                0 <= j < s.len() && (#[trigger] fix_terms(s, p)[i]).0 == s[j].0,
        forall|sig: nat| #[trigger] coeff_of(fix_terms(s, p), sig) == coeff_of(s, sig) % p,
    decreases s.len(),
{
    let r = fix_terms(s, p);
    if s.len() == 0 {
        assert forall|sig: nat| #[trigger] coeff_of(r, sig) == coeff_of(s, sig) % p by {
            assert(coeff_of(s, sig) == 0);
            vstd::arithmetic::div_mod::lemma_small_mod(0, p);
        }
    } else {
        let tail = s.subrange(1, s.len() as int);
        let rt = fix_terms(tail, p);
        assert(sig_sorted(tail));
        lemma_fix_terms_props(tail, p);
        let v = le_val(s[0].1) % p;
        lemma_min_bytes(v);
        if v == 0 {
            assert(r == rt);
            assert forall|i: int| 0 <= i < r.len() implies exists|j: int|
                0 <= j < s.len() && (#[trigger] r[i]).0 == s[j].0 by {
                let j = choose|j: int| 0 <= j < tail.len() && (#[trigger] rt[i]).0 == tail[j].0;
                assert(s[j + 1] == tail[j]);
                assert(r[i].0 == s[j + 1].0);
            }
            assert forall|sig: nat| #[trigger] coeff_of(r, sig) == coeff_of(s, sig) % p by {
                if s[0].0 == sig {
                    assert(coeff_of(s, sig) == le_val(s[0].1));
                    assert(coeff_of(rt, sig) == coeff_of(tail, sig) % p);
                    assert forall|i: int| 0 <= i < rt.len() implies (#[trigger] rt[i]).0
                        != sig by {
                        let j = choose|j: int|
                            0 <= j < tail.len() && (#[trigger] rt[i]).0 == tail[j].0;
                        assert(s[0].0 < s[j + 1].0);
                    }
                    lemma_coeff_of_absent(rt, sig);
                } else {
                    assert(coeff_of(s, sig) == coeff_of(tail, sig));
                }
            }
        } else {
            let head = seq![(s[0].0, min_bytes(v))];
            assert(r == head + rt);
            assert forall|i: int| 0 <= i < r.len() implies exists|j: int|
                0 <= j < s.len() && (#[trigger] r[i]).0 == s[j].0 by {
                if i == 0 {
                    assert(r[0] == head[0]);
                    assert(r[0].0 == s[0].0);
                } else {
                    assert(r[i] == rt[i - 1]);
                    let j = choose|j: int|
                        0 <= j < tail.len() && (#[trigger] rt[i - 1]).0 == tail[j].0;
                    assert(s[j + 1] == tail[j]);
                }
            }
            assert(norm_terms(r, p)) by {
                assert forall|x: int, y: int| 0 <= x < y < r.len() implies r[x].0 < r[y].0 by {
                    if x == 0 {
                        assert(r[y] == rt[y - 1]);
                        let j = choose|j: int|
                            0 <= j < tail.len() && (#[trigger] rt[y - 1]).0 == tail[j].0;
                        assert(s[0].0 < s[j + 1].0);
                    } else {
                        assert(r[x] == rt[x - 1] && r[y] == rt[y - 1]);
                    }
                }
                assert forall|x: int| 0 <= x < r.len() implies minimal_le(#[trigger] r[x].1) && 0
                    < le_val(r[x].1) < p by {
                    if x == 0 {
                        assert(r[0] == head[0]);
                    } else {
                        assert(r[x] == rt[x - 1]);
                    }
                }
            }
            assert forall|sig: nat| #[trigger] coeff_of(r, sig) == coeff_of(s, sig) % p by {
                lemma_coeff_of_concat(head, rt, sig);
                if s[0].0 == sig {
                    assert(head[0].0 == sig);
                    assert(coeff_of(head, sig) == le_val(min_bytes(v)));
                    assert(coeff_of(r, sig) == v);
                } else {
                    assert(head[0].0 != sig);
                    assert(!(exists|j: int| 0 <= j < head.len() && (#[trigger] head[j]).0 == sig));
                    assert(coeff_of(r, sig) == coeff_of(rt, sig));
                    assert(coeff_of(s, sig) == coeff_of(tail, sig));
                }
            }
        }
    }
}

/// Normalizing an already-normalized term sequence changes nothing.
pub proof fn lemma_fix_norm_noop(s: Seq<(nat, Seq<u8>)>, p: nat)
    requires
        p >= 2,
        norm_terms(s, p),
    ensures
        fix_terms(s, p) == s,
    decreases s.len(),
{
    if s.len() > 0 {
        let tail = s.subrange(1, s.len() as int);
        lemma_fix_norm_noop(tail, p);
        let v = le_val(s[0].1) % p;
        vstd::arithmetic::div_mod::lemma_small_mod(le_val(s[0].1), p);
        assert(v == le_val(s[0].1));
        lemma_min_bytes_of(s[0].1);
        assert(fix_terms(s, p) =~= seq![(s[0].0, s[0].1)] + tail);
        assert(seq![(s[0].0, s[0].1)] + tail =~= s);
    }
}

/// Normalization is idempotent.
pub proof fn lemma_fix_idempotent(s: Seq<(nat, Seq<u8>)>, p: nat)
    requires
        p >= 2,
        sig_sorted(s),
    ensures
        fix_terms(fix_terms(s, p), p) == fix_terms(s, p),
{
    lemma_fix_terms_props(s, p);
    lemma_fix_norm_noop(fix_terms(s, p), p);
}

impl LinearExpr {
    /// Normalizes the expression: reduces every coefficient to its canonical
    /// residue and removes the terms whose coefficient vanishes.
    pub fn fix(&mut self, f: &Field)
        requires
            f.wf(),
            sig_sorted(old(self)@),
        ensures
            final(self)@ == fix_terms(old(self)@, f.modulus()),
            norm_terms(final(self)@, f.modulus()),
    {
        let ghost orig = self@;
        let ghost p = f.modulus();
        let mut out: Vec<LinearTerm> = Vec::new();
        let n = self.terms.len();
        let mut i: usize = 0;
        while i < n
            invariant
                i <= n,
                n == orig.len(),
                self@ == orig,
                f.wf(),
                p == f.modulus(),
                sig_sorted(orig),
                out@.map_values(|t: LinearTerm| t@) =~= fix_terms(orig.subrange(0, i as int), p),
            decreases n - i,
        {
            let ghost before = out@.map_values(|t: LinearTerm| t@);
            let c = f.reduce(&self.terms[i].coeff);
            if !fe_is_zero(&c) {
                let sig = self.terms[i].signal;
                out.push(LinearTerm { signal: sig, coeff: c });
            }
            proof {
                let pre = orig.subrange(0, i as int);
                let cur = orig.subrange(0, i + 1);
                let v = le_val(orig[i as int].1) % p;
                lemma_min_bytes(v);
                if v == 0 {
                    lemma_fix_snoc(cur, p);
                    assert(cur.drop_last() =~= pre);
                } else {
                    lemma_min_bytes_of(c@);
                    assert(c@ == min_bytes(v));
                    lemma_fix_snoc(cur, p);
                    assert(cur.drop_last() =~= pre);
                    assert(out@.map_values(|t: LinearTerm| t@) =~= before + seq![
                        (orig[i as int].0, min_bytes(v)),
                    ]);
                }
            }
            i += 1;
        }
        proof {
            assert(orig.subrange(0, n as int) =~= orig);
        }
        self.terms = out;
        proof {
            lemma_fix_terms_props(orig, p);
        }
    }
}

/// `fix_terms` peels from the back: the last input term contributes last.
pub proof fn lemma_fix_snoc(s: Seq<(nat, Seq<u8>)>, p: nat)
    requires
        s.len() > 0,
    ensures
        fix_terms(s, p) == fix_terms(s.drop_last(), p) + ({
            let v = le_val(s.last().1) % p;
            if v == 0 {
                Seq::<(nat, Seq<u8>)>::empty()
            } else {
                seq![(s.last().0, min_bytes(v))]
            }
        }),
    decreases s.len(),
{
    let v = le_val(s.last().1) % p;
    let last_part = if v == 0 {
        Seq::<(nat, Seq<u8>)>::empty()
    } else {
        seq![(s.last().0, min_bytes(v))]
    };
    if s.len() == 1 {
        assert(s.drop_last() =~= Seq::empty());
        assert(s.subrange(1, s.len() as int) =~= Seq::empty());
        assert(s.last() == s[0]);
        assert(fix_terms(Seq::<(nat, Seq<u8>)>::empty(), p) =~= Seq::<(nat, Seq<u8>)>::empty());
        if v == 0 {
            assert(fix_terms(s, p) =~= last_part);
        } else {
            assert(fix_terms(s, p) =~= seq![(s[0].0, min_bytes(v))] + Seq::<(nat, Seq<u8>)>::empty());
            assert(fix_terms(s, p) =~= last_part);
        }
        assert(fix_terms(s.drop_last(), p) + last_part =~= last_part);
    } else {
        let t = s.subrange(1, s.len() as int);
        lemma_fix_snoc(t, p);
        assert(t.last() == s.last());
        assert(t.drop_last() =~= s.drop_last().subrange(1, s.drop_last().len() as int));
        assert(s.drop_last()[0] == s[0]);
        let v0 = le_val(s[0].1) % p;
        if v0 == 0 {
            assert(fix_terms(s, p) == fix_terms(t, p));
            assert(fix_terms(s.drop_last(), p) == fix_terms(t.drop_last(), p));
        } else {
            let head = seq![(s[0].0, min_bytes(v0))];
            assert(fix_terms(s, p) == head + fix_terms(t, p));
            assert(fix_terms(s.drop_last(), p) == head + fix_terms(t.drop_last(), p));
            assert(head + (fix_terms(t.drop_last(), p) + last_part) =~= (head + fix_terms(
                t.drop_last(),
                p,
            )) + last_part);
        }
    }
}

impl Constraint {
    /// The trivial constraint, with every side empty.
    pub fn trivial() -> (r: Constraint)
        ensures
            r.a@.len() == 0,
            r.b@.len() == 0,
            r.c@.len() == 0,
    {
        Constraint { a: LinearExpr::empty(), b: LinearExpr::empty(), c: LinearExpr::empty() }
    }

    /// Normalizes all three linear combinations (the `fix` step).
    pub fn fix_constraint(&mut self, f: &Field)
        requires
            f.wf(),
            sig_sorted(old(self).a@),
            sig_sorted(old(self).b@),
            sig_sorted(old(self).c@),
        ensures
            final(self).a@ == fix_terms(old(self).a@, f.modulus()),
            final(self).b@ == fix_terms(old(self).b@, f.modulus()),
            final(self).c@ == fix_terms(old(self).c@, f.modulus()),
            final(self).wf(f.modulus()),
    {
        self.a.fix(f);
        self.b.fix(f);
        self.c.fix(f);
    }
}

/// What one substitution does to one coefficient: the source signal leaves,
/// every other signal gains the source coefficient times its weight in the
/// replacement.
pub open spec fn subst_coeff(
    lc: Seq<(nat, Seq<u8>)>,
    sub_sig: nat,
    sub_expr: Seq<(nat, Seq<u8>)>,
    s: nat,
    p: nat,
) -> nat {
    if s == sub_sig {
        0
    } else {
        (coeff_of(lc, s) + coeff_of(lc, sub_sig) * coeff_of(sub_expr, s)) % p
    }
}

/// In a normalized sequence a zero coefficient means the signal is absent.
pub proof fn lemma_norm_zero_absent(s: Seq<(nat, Seq<u8>)>, p: nat, sig: nat)
    requires
        norm_terms(s, p),
        coeff_of(s, sig) == 0,
    ensures
        forall|i: int| 0 <= i < s.len() ==> (#[trigger] s[i]).0 != sig,
{
    assert forall|i: int| 0 <= i < s.len() implies (#[trigger] s[i]).0 != sig by {
        if s[i].0 == sig {
            lemma_coeff_of_present(s, i);
        }
    }
}

pub(crate) fn apply_substitution_expr(lc: &mut LinearExpr, sub: &Substitution, f: &Field) -> (changed: bool)
    requires
        f.wf(),
        norm_terms(old(lc)@, f.modulus()),
        sub.wf(f.modulus()),
    ensures
        norm_terms(final(lc)@, f.modulus()),
        forall|s: nat|
            #[trigger] coeff_of(final(lc)@, s) == subst_coeff(
                old(lc)@,
                sub.signal as nat,
                sub.expr@,
                s,
                f.modulus(),
            ),
        changed <==> coeff_of(old(lc)@, sub.signal as nat) != 0,
{
    let ghost orig = lc@;
    let ghost p = f.modulus();
    let ghost sub_sig = sub.signal as nat;
    let found = lc.find(sub.signal);
    match found {
        None => {
            proof {
                assert forall|s: nat| #[trigger] coeff_of(lc@, s) == subst_coeff(
                    orig,
                    sub_sig,
                    sub.expr@,
                    s,
                    p,
                ) by {
                    if s != sub_sig {
                        assert(coeff_of(orig, sub_sig) == 0);
                        assert(coeff_of(orig, sub_sig) * coeff_of(sub.expr@, s) == 0);
                        if coeff_of(orig, s) == 0 {
                            vstd::arithmetic::div_mod::lemma_small_mod(0, p);
                        } else {
                            lemma_coeff_of_bound(orig, p, s);
                            vstd::arithmetic::div_mod::lemma_small_mod(coeff_of(orig, s), p);
                        }
                    }
                }
            }
            false
        },
        Some(idx) => {
            let k = clone_bytes(&lc.terms[idx].coeff);
            proof {
                assert(k@ == orig[idx as int].1);
                assert(coeff_of(orig, sub_sig) == le_val(k@));
            }
            lc.terms.remove(idx);
            let ghost removed = lc@;
            proof {
                assert(lc@ =~= orig.remove(idx as int));
                assert forall|s: nat| #[trigger] coeff_of(removed, s) == if s == sub_sig {
                    0
                } else {
                    coeff_of(orig, s)
                } by {
                    lemma_coeff_of_remove(orig, idx as int, s);
                }
                assert(norm_terms(removed, p)) by {
                    assert forall|x: int, y: int|
                        0 <= x < y < removed.len() implies removed[x].0 < removed[y].0 by {
                        assert(removed[x] == orig.remove(idx as int)[x]);
                    }
                    assert forall|x: int| 0 <= x < removed.len() implies minimal_le(
                        #[trigger] removed[x].1,
                    ) && 0 < le_val(removed[x].1) < p by {
                        if x < idx {
                            assert(removed[x] == orig[x]);
                        } else {
                            assert(removed[x] == orig[x + 1]);
                        }
                    }
                }
                lemma_norm_zero_absent(sub.expr@, p, sub_sig);
            }
            let m = sub.expr.terms.len();
            let mut j: usize = 0;
            while j < m
                invariant
                    j <= m,
                    m == sub.expr@.len(),
                    f.wf(),
                    p == f.modulus(),
                    sub_sig == sub.signal as nat,
                    sub.wf(p),
                    norm_terms(lc@, p),
                    le_val(k@) == coeff_of(orig, sub_sig),
                    le_val(k@) < p,
                    forall|i: int| 0 <= i < sub.expr@.len() ==> (#[trigger] sub.expr@[i]).0 != sub_sig,
                    forall|s: nat|
                        #[trigger] coeff_of(lc@, s) == if s == sub_sig {
                            0
                        } else if exists|x: int|
                            0 <= x < j && (#[trigger] sub.expr@[x]).0 == s {
                            (coeff_of(removed, s) + le_val(k@) * coeff_of(sub.expr@, s)) % p
                        } else {
                            coeff_of(removed, s)
                        },
                    forall|s: nat| s != sub_sig ==> #[trigger] coeff_of(removed, s) == coeff_of(orig, s),
                    coeff_of(removed, sub_sig) == 0,
                    norm_terms(removed, p),
                    p >= 2,
                decreases m - j,
            {
                let ghost before = lc@;
                let t_sig = sub.expr.terms[j].signal;
                let d = f.mul(&k, &sub.expr.terms[j].coeff);
                proof {
                    assert(sub.expr@[j as int] == (t_sig as nat, sub.expr.terms@[j as int].coeff@));
                    lemma_coeff_of_present(sub.expr@, j as int);
                    assert(le_val(d@) == (le_val(k@) * coeff_of(sub.expr@, t_sig as nat)) % p);
                }
                lc.upsert(t_sig, &d, f);
                proof {
                    assert forall|s: nat| #[trigger] coeff_of(lc@, s) == if s == sub_sig {
                        0
                    } else if exists|x: int|
                        0 <= x < j + 1 && (#[trigger] sub.expr@[x]).0 == s {
                        (coeff_of(removed, s) + le_val(k@) * coeff_of(sub.expr@, s)) % p
                    } else {
                        coeff_of(removed, s)
                    } by {
                        if s == t_sig as nat {
                            assert(s != sub_sig);
                            assert(!(exists|x: int|
                                0 <= x < j && (#[trigger] sub.expr@[x]).0 == s)) by {
                                if exists|x: int| 0 <= x < j && (#[trigger] sub.expr@[x]).0 == s {
                                    let x = choose|x: int|
                                        0 <= x < j && (#[trigger] sub.expr@[x]).0 == s;
                                    assert(sub.expr@[x].0 < sub.expr@[j as int].0);
                                }
                            }
                            assert(coeff_of(before, s) == coeff_of(removed, s));
                            assert(coeff_of(lc@, s) == (coeff_of(removed, s) + le_val(d@)) % p);
                            lemma_coeff_of_bound2(removed, p, s);
                            vstd::arithmetic::div_mod::lemma_add_mod_noop(
                                coeff_of(removed, s) as int,
                                (le_val(k@) * coeff_of(sub.expr@, s)) as int,
                                p as int,
                            );
                            vstd::arithmetic::div_mod::lemma_small_mod(coeff_of(removed, s), p);
                        } else if s == sub_sig {
                            assert(coeff_of(lc@, s) == coeff_of(before, s));
                        } else {
                            assert(coeff_of(lc@, s) == coeff_of(before, s));
                            assert((exists|x: int|
                                0 <= x < j + 1 && (#[trigger] sub.expr@[x]).0 == s) <==> (exists|
                                x: int,
                            | 0 <= x < j && (#[trigger] sub.expr@[x]).0 == s)) by {
                                if exists|x: int|
                                    0 <= x < j + 1 && (#[trigger] sub.expr@[x]).0 == s {
                                    let x = choose|x: int|
                                        0 <= x < j + 1 && (#[trigger] sub.expr@[x]).0 == s;
                                    assert(x != j);
                                }
                            }
                        }
                    }
                }
                j += 1;
            }
            proof {
                assert forall|s: nat| #[trigger] coeff_of(lc@, s) == subst_coeff(
                    orig,
                    sub_sig,
                    sub.expr@,
                    s,
                    p,
                ) by {
                    if s != sub_sig {
                        if exists|x: int| 0 <= x < m && (#[trigger] sub.expr@[x]).0 == s {
                            assert(coeff_of(lc@, s) == (coeff_of(removed, s) + le_val(k@)
                                * coeff_of(sub.expr@, s)) % p);
                        } else {
                            lemma_coeff_of_absent(sub.expr@, s);
                            assert(coeff_of(sub.expr@, s) == 0);
                            assert(le_val(k@) * coeff_of(sub.expr@, s) == 0) by (nonlinear_arith)
                                requires coeff_of(sub.expr@, s) == 0;
                            assert(coeff_of(lc@, s) == coeff_of(removed, s));
                            lemma_coeff_of_bound2(removed, p, s);
                            vstd::arithmetic::div_mod::lemma_small_mod(coeff_of(removed, s), p);
                        }
                    }
                }
                assert(coeff_of(orig, sub_sig) == le_val(orig[idx as int].1));
                assert(le_val(orig[idx as int].1) > 0);
            }
            true
        },
    }
}

/// Coefficients of a normalized sequence are below the modulus.
pub proof fn lemma_coeff_of_bound(s: Seq<(nat, Seq<u8>)>, p: nat, sig: nat)
    requires
        norm_terms(s, p),
        coeff_of(s, sig) != 0,
    ensures
        coeff_of(s, sig) < p,
    decreases s.len(),
{
    if s.len() > 0 {
        if s[0].0 == sig {
        } else {
            let t = s.subrange(1, s.len() as int);
            assert(norm_terms(t, p)) by {
                assert forall|x: int| 0 <= x < t.len() implies minimal_le(#[trigger] t[x].1) && 0
                    < le_val(t[x].1) < p by {
                    assert(t[x] == s[x + 1]);
                }
            }
            lemma_coeff_of_bound(t, p, sig);
        }
    }
}

/// Every coefficient of a normalized sequence is below the modulus, the
/// absent ones being zero.
pub proof fn lemma_coeff_of_bound2(s: Seq<(nat, Seq<u8>)>, p: nat, sig: nat)
    requires
        norm_terms(s, p),
        p >= 1,
    ensures
        coeff_of(s, sig) < p,
{
    if coeff_of(s, sig) != 0 {
        lemma_coeff_of_bound(s, p, sig);
    }
}

/// A copy of a byte string.
pub fn clone_bytes(v: &Vec<u8>) -> (r: Vec<u8>)
    ensures
        r@ == v@,
{
    let mut r: Vec<u8> = Vec::new();
    let mut i: usize = 0;
    while i < v.len()
        invariant
            i <= v@.len(),
            r@ =~= v@.subrange(0, i as int),
        decreases v@.len() - i,
    {
        r.push(v[i]);
        i += 1;
    }
    proof {
        assert(r@ =~= v@);
    }
    r
}

impl Constraint {
    /// Applies one substitution to all three linear combinations; reports
    /// whether anything changed.
    pub fn apply_substitution(&mut self, sub: &Substitution, f: &Field) -> (changed: bool)
        requires
            f.wf(),
            old(self).wf(f.modulus()),
            sub.wf(f.modulus()),
        ensures
            final(self).wf(f.modulus()),
            forall|s: nat|
                #[trigger] coeff_of(final(self).a@, s) == subst_coeff(
                    old(self).a@,
                    sub.signal as nat,
                    sub.expr@,
                    s,
                    f.modulus(),
                ),
            forall|s: nat|
                #[trigger] coeff_of(final(self).b@, s) == subst_coeff(
                    old(self).b@,
                    sub.signal as nat,
                    sub.expr@,
                    s,
                    f.modulus(),
                ),
            forall|s: nat|
                #[trigger] coeff_of(final(self).c@, s) == subst_coeff(
                    old(self).c@,
                    sub.signal as nat,
                    sub.expr@,
                    s,
                    f.modulus(),
                ),
            changed <==> (coeff_of(old(self).a@, sub.signal as nat) != 0 || coeff_of(
                old(self).b@,
                sub.signal as nat,
            ) != 0 || coeff_of(old(self).c@, sub.signal as nat) != 0),
    {
        let ca = apply_substitution_expr(&mut self.a, sub, f);
        let cb = apply_substitution_expr(&mut self.b, sub, f);
        let cc = apply_substitution_expr(&mut self.c, sub, f);
        ca || cb || cc
    }
}

/// The coefficient a single-term sequence gives a signal.
pub proof fn lemma_coeff_of_single(t: (nat, Seq<u8>), s: nat)
    ensures
        coeff_of(seq![t], s) == if t.0 == s {
            le_val(t.1)
        } else {
            0
        },
{
    assert(seq![t].subrange(1, 1) =~= Seq::<(nat, Seq<u8>)>::empty());
    assert(coeff_of(Seq::<(nat, Seq<u8>)>::empty(), s) == 0);
}

/// Every coefficient at or above the bound is zero.
pub open spec fn expr_bounded(e: Seq<(nat, Seq<u8>)>, n: nat) -> bool {
    forall|s: nat| s >= n ==> #[trigger] coeff_of(e, s) == 0
}

/// Sorted terms all below a bound carry no coefficient at or above it.
pub proof fn lemma_bounded_from_terms(e: Seq<(nat, Seq<u8>)>, n: nat)
    requires
        forall|k: int| 0 <= k < e.len() ==> (#[trigger] e[k]).0 < n,
    ensures
        expr_bounded(e, n),
{
    assert forall|s: nat| s >= n implies #[trigger] coeff_of(e, s) == 0 by {
        lemma_coeff_of_absent(e, s);
    }
}

/// A substituted coefficient stays zero where both the constraint and the
/// replacement carry nothing.
pub proof fn lemma_subst_coeff_zero(
    lc: Seq<(nat, Seq<u8>)>,
    sig: nat,
    e: Seq<(nat, Seq<u8>)>,
    s: nat,
    p: nat,
)
    requires
        p >= 1,
        coeff_of(lc, s) == 0,
        coeff_of(e, s) == 0,
    ensures
        subst_coeff(lc, sig, e, s, p) == 0,
{
    if s != sig {
        assert(coeff_of(lc, sig) * coeff_of(e, s) == 0) by (nonlinear_arith)
            requires coeff_of(e, s) == 0;
        vstd::arithmetic::div_mod::lemma_small_mod(0, p);
    }
}

} // verus!
