//! Per-cluster substitution discovery.
//!
//! Each solver consumes one batch of linear constraints and derives
//! signal-to-expression substitutions, never choosing a forbidden signal or
//! the constant signal as the eliminated one. The discovered set is kept
//! triangular: no recorded substitution's source occurs in any recorded
//! replacement, so each signal is substituted at most once, ever.

use vstd::prelude::*;

use crate::algebra::{apply_substitution_expr, coeff_of, expr_bounded, lemma_bounded_from_terms,
    lemma_coeff_of_present, norm_terms, Constraint, LinearExpr, LinearTerm, Substitution};
use crate::bytes::le_val;
use crate::clusters::{signals_below, take_cloned_signals, vec_contains, Cluster};
use crate::field::Field;

verus! {

/// The shape every solver's substitution set has: sources well formed, never
/// forbidden, pairwise distinct, and absent from every replacement.
pub open spec fn subs_wf(subs: Seq<Substitution>, forbidden: Seq<bool>, p: nat) -> bool {
    &&& forall|i: int| 0 <= i < subs.len() ==> (#[trigger] subs[i]).wf(p)
    &&& forall|i: int|
        0 <= i < subs.len() ==> ((#[trigger] subs[i]).signal as nat) < forbidden.len()
            && !forbidden[subs[i].signal as int]
    &&& forall|i: int, j: int|
        0 <= i < subs.len() && 0 <= j < subs.len() && i != j ==> (#[trigger] subs[i]).signal != (
        #[trigger] subs[j]).signal
    &&& forall|i: int, j: int|
        0 <= i < subs.len() && 0 <= j < subs.len() ==> coeff_of(
            (#[trigger] subs[i]).expr@,
            (#[trigger] subs[j]).signal as nat,
        ) == 0
}

/// All constraints well formed.
pub open spec fn all_wf(cs: Seq<Constraint>, p: nat) -> bool {
    forall|i: int| 0 <= i < cs.len() ==> (#[trigger] cs[i]).wf(p)
}

/// All constraints coefficient-bounded on every side.
pub open spec fn all_bounded(cs: Seq<Constraint>, n: nat) -> bool {
    forall|i: int|
        0 <= i < cs.len() ==> expr_bounded((#[trigger] cs[i]).a@, n) && expr_bounded(cs[i].b@, n)
            && expr_bounded(cs[i].c@, n)
}

/// All substitution replacements coefficient-bounded.
pub open spec fn subs_bounded(subs: Seq<Substitution>, n: nat) -> bool {
    forall|i: int| 0 <= i < subs.len() ==> expr_bounded((#[trigger] subs[i]).expr@, n)
}

/// A byte string denoting one.
fn one_bytes() -> (r: Vec<u8>)
    ensures
        le_val(r@) == 1,
        r@ == seq![1u8],
        crate::bytes::minimal_le(r@),
{
    let mut r: Vec<u8> = Vec::new();
    r.push(1);
    proof {
        crate::bytes::lemma_le_val_single(1u8);
        assert(r@ =~= seq![1u8]);
    }
    r
}


/// Whether the constraint batch mentions a witness signal.
pub open spec fn in_cluster(cs: Seq<Constraint>, s: nat) -> bool {
    s != 0 && exists|i: int|
        0 <= i < cs.len() && crate::clusters::has_signal((#[trigger] cs[i])@, s)
}

/// Whether some substitution in the list eliminates the signal.
pub open spec fn is_source(subs: Seq<Substitution>, s: nat) -> bool {
    exists|i: int| 0 <= i < subs.len() && ((#[trigger] subs[i]).signal as nat) == s
}

/// The single-term replacement: the representative, with coefficient one.
pub open spec fn rep_expr(rep: nat) -> Seq<(nat, Seq<u8>)> {
    seq![(rep, seq![1u8])]
}

/// What solving one equality cluster means. With no witness signal the batch
/// comes back untouched; otherwise a representative exists — forbidden
/// whenever the cluster holds any forbidden signal — such that exactly the
/// other non-forbidden cluster signals are substituted by it, and exactly
/// the other forbidden cluster signals yield a residual equality with it.
pub open spec fn eq_solution(
    cs: Seq<Constraint>,
    forbidden: Seq<bool>,
    p: nat,
    subs: Seq<Substitution>,
    residual: Seq<Constraint>,
) -> bool {
    if !(exists|s: nat| in_cluster(cs, s)) {
        subs.len() == 0 && residual == cs
    } else {
        exists|rep: nat|
            {
                &&& #[trigger] in_cluster(cs, rep)
                &&& rep < forbidden.len()
                &&& (exists|f: nat| #[trigger] in_cluster(cs, f) && f < forbidden.len() && forbidden[f as int])
                    ==> forbidden[rep as int]
                &&& forall|s: nat|
                    #[trigger] is_source(subs, s) <==> (in_cluster(cs, s) && s < forbidden.len()
                        && !forbidden[s as int] && s != rep)
                &&& forall|i: int| 0 <= i < subs.len() ==> (#[trigger] subs[i]).expr@ == rep_expr(rep)
                &&& forall|i: int| 0 <= i < residual.len() ==> (#[trigger] residual[i]).is_linear_spec()
                &&& forall|i: int, k: int|
                    0 <= i < residual.len() && 0 <= k < residual[i].c@.len() ==> in_cluster(
                        cs,
                        (#[trigger] residual[i].c@[k]).0,
                    )
            }
    }
}

/// Solves one cluster of pure equalities: every signal of the cluster equals
/// the representative, the least forbidden signal when one occurs, else the
/// least signal. Every other non-forbidden signal is substituted by the
/// representative; every other forbidden signal yields a residual equality
/// with the representative instead.
#[verifier::rlimit(100)]
pub fn eq_cluster_simplification(cluster: Cluster, forbidden: &Vec<bool>, field: &Field) -> (r: (
    Vec<Substitution>,
    Vec<Constraint>,
))
    requires
        field.wf(),
        all_wf(cluster.constraints@, field.modulus()),
        forall|i: int|
            0 <= i < cluster.constraints@.len() ==> signals_below(
                (#[trigger] cluster.constraints@[i])@,
                forbidden@.len() as nat,
            ),
    ensures
        subs_wf(r.0@, forbidden@, field.modulus()),
        subs_bounded(r.0@, forbidden@.len() as nat),
        all_wf(r.1@, field.modulus()),
        all_bounded(r.1@, forbidden@.len() as nat),
        eq_solution(cluster.constraints@, forbidden@, field.modulus(), r.0@, r.1@),
{
    let ghost p = field.modulus();
    let ghost cv = cluster.constraints@;
    // gather the distinct signals of the cluster
    let mut signals: Vec<usize> = Vec::new();
    let n = cluster.constraints.len();
    let mut i: usize = 0;
    while i < n
        invariant
            i <= n,
            n == cluster.constraints@.len(),
            cv == cluster.constraints@,
            forall|k: int|
                0 <= k < signals@.len() ==> (#[trigger] signals@[k]) != 0 && in_cluster(
                    cv,
                    signals@[k] as nat,
                ),
            forall|k: int|
                0 <= k < signals@.len() ==> ((#[trigger] signals@[k]) as nat) < forbidden@.len(),
            forall|k: int, j: int| 0 <= k < j < signals@.len() ==> signals@[k] != signals@[j],
            forall|x: int, sg: nat|
                0 <= x < i && sg != 0 && #[trigger] crate::clusters::has_signal(cv[x]@, sg)
                    ==> signals@.contains(sg as usize),
            forall|x: int|
                0 <= x < cluster.constraints@.len() ==> signals_below(
                    (#[trigger] cluster.constraints@[x])@,
                    forbidden@.len() as nat,
                ),
        decreases n - i,
    {
        let cs = take_cloned_signals(&cluster.constraints[i]);
        let m = cs.len();
        let mut j: usize = 0;
        while j < m
            invariant
                j <= m,
                m == cs@.len(),
                i < n,
                n == cluster.constraints@.len(),
                cv == cluster.constraints@,
                forall|k: int|
                    0 <= k < cs@.len() ==> (#[trigger] cs@[k]) != 0 && crate::clusters::has_signal(
                        cluster.constraints@[i as int]@,
                        cs@[k] as nat,
                    ),
                forall|sg: usize|
                    sg != 0 && crate::clusters::has_signal(cv[i as int]@, sg as nat)
                        ==> cs@.contains(sg),
                forall|k: int| 0 <= k < j ==> signals@.contains(#[trigger] cs@[k]),
                signals_below(cluster.constraints@[i as int]@, forbidden@.len() as nat),
                forall|k: int|
                    0 <= k < signals@.len() ==> (#[trigger] signals@[k]) != 0 && in_cluster(
                        cv,
                        signals@[k] as nat,
                    ),
                forall|k: int|
                    0 <= k < signals@.len() ==> ((#[trigger] signals@[k]) as nat)
                        < forbidden@.len(),
                forall|k: int, jj: int| 0 <= k < jj < signals@.len() ==> signals@[k] != signals@[jj],
                forall|x: int, sg: nat|
                    0 <= x < i && sg != 0 && #[trigger] crate::clusters::has_signal(cv[x]@, sg)
                        ==> signals@.contains(sg as usize),
            decreases m - j,
        {
            let sig = cs[j];
            if !vec_contains(&signals, sig) {
                let ghost before = signals@;
                signals.push(sig);
                proof {
                    assert(crate::clusters::has_signal(
                        cluster.constraints@[i as int]@,
                        sig as nat,
                    ));
                    assert(in_cluster(cv, sig as nat));
                    assert(signals@.contains(sig)) by {
                        assert(signals@[signals@.len() - 1] == sig);
                    }
                    assert forall|y: usize| before.contains(y) implies signals@.contains(y) by {
                        let k = choose|k: int| 0 <= k < before.len() && before[k] == y;
                        assert(signals@[k] == y);
                    }
                }
            }
            proof {
                assert(signals@.contains(cs@[j as int]));
            }
            j += 1;
        }
        proof {
            assert forall|x: int, sg: nat|
                0 <= x < i + 1 && sg != 0 && #[trigger] crate::clusters::has_signal(
                    cv[x]@,
                    sg,
                ) implies signals@.contains(sg as usize) by {
                if x == i {
                    assert(sg < forbidden@.len()) by {
                        assert(signals_below(cv[x]@, forbidden@.len() as nat));
                    }
                    assert(crate::clusters::has_signal(cv[i as int]@, (sg as usize) as nat));
                    assert(cs@.contains(sg as usize));
                    let k = choose|k: int| 0 <= k < cs@.len() && cs@[k] == sg as usize;
                    assert(signals@.contains(cs@[k]));
                }
            }
        }
        i += 1;
    }
    proof {
        assert forall|sg: nat| #[trigger] in_cluster(cv, sg) implies signals@.contains(
            sg as usize,
        ) by {
            let x = choose|x: int|
                0 <= x < cv.len() && crate::clusters::has_signal((#[trigger] cv[x])@, sg);
            assert(sg < forbidden@.len()) by {
                assert(signals_below(cv[x]@, forbidden@.len() as nat));
            }
            assert(crate::clusters::has_signal(cv[x]@, (sg as usize) as nat));
        }
    }

    if signals.len() == 0 {
        proof {
            assert forall|i: int|
                0 <= i < cluster.constraints@.len() implies expr_bounded(
                (#[trigger] cluster.constraints@[i]).a@,
                forbidden@.len() as nat,
            ) && expr_bounded(cluster.constraints@[i].b@, forbidden@.len() as nat) && expr_bounded(
                cluster.constraints@[i].c@,
                forbidden@.len() as nat,
            ) by {
                lemma_bounded_from_below(cluster.constraints@[i], forbidden@.len() as nat);
            }
        }
        proof {
            assert(!(exists|sg: nat| in_cluster(cv, sg))) by {
                if exists|sg: nat| in_cluster(cv, sg) {
                    let sg = choose|sg: nat| in_cluster(cv, sg);
                    assert(signals@.contains(sg as usize));
                }
            }
        }
        let empty_subs: Vec<Substitution> = Vec::new();
        return (empty_subs, cluster.constraints);
    }

    // representative: least forbidden signal when present, else least signal
    let mut rep: usize = signals[0];
    let mut rep_forbidden: bool = forbidden[signals[0]];
    let mut t: usize = 1;
    while t < signals.len()
        invariant
            1 <= t <= signals@.len(),
            signals@.len() > 0,
            exists|k: int| 0 <= k < t && (#[trigger] signals@[k]) == rep,
            rep_forbidden == forbidden@[rep as int],
            rep_forbidden <==> exists|k: int|
                0 <= k < t && forbidden@[(#[trigger] signals@[k]) as int],
            (rep as nat) < forbidden@.len(),
            rep != 0,
            forall|k: int| 0 <= k < signals@.len() ==> (#[trigger] signals@[k]) != 0,
            forall|k: int|
                0 <= k < signals@.len() ==> ((#[trigger] signals@[k]) as nat) < forbidden@.len(),
        decreases signals@.len() - t,
    {
        let s = signals[t];
        let s_forbidden = forbidden[s];
        if (s_forbidden && !rep_forbidden) || (s_forbidden == rep_forbidden && s < rep) {
            rep = s;
            rep_forbidden = s_forbidden;
            proof {
                assert(signals@[t as int] == rep);
            }
        }
        proof {
            if s_forbidden {
                assert(forbidden@[(signals@[t as int]) as int]);
            }
        }
        t += 1;
    }
    let ghost rep_n = rep as nat;
    proof {
        assert(in_cluster(cv, rep_n)) by {
            let k = choose|k: int| 0 <= k < signals@.len() && (#[trigger] signals@[k]) == rep;
        }
    }

    let mut subs: Vec<Substitution> = Vec::new();
    let mut residual: Vec<Constraint> = Vec::new();
    let one = one_bytes();
    let zero: Vec<u8> = Vec::new();
    let minus_one = field.sub(&zero, &one);
    proof {
        assert(le_val(zero@) == 0);
        assert(le_val(minus_one@) == ((0 + p - 1) as nat) % p);
        vstd::arithmetic::div_mod::lemma_small_mod((p - 1) as nat, p);
        assert(le_val(minus_one@) == p - 1);
    }
    let mut t2: usize = 0;
    while t2 < signals.len()
        invariant
            t2 <= signals@.len(),
            field.wf(),
            p == field.modulus(),
            rep != 0,
            (rep as nat) < forbidden@.len(),
            le_val(one@) == 1,
            one@ == seq![1u8],
            crate::bytes::minimal_le(one@),
            le_val(minus_one@) == p - 1,
            crate::bytes::minimal_le(minus_one@),
            forall|k: int| 0 <= k < signals@.len() ==> (#[trigger] signals@[k]) != 0,
            forall|k: int|
                0 <= k < signals@.len() ==> ((#[trigger] signals@[k]) as nat) < forbidden@.len(),
            forall|k: int, jj: int| 0 <= k < jj < signals@.len() ==> signals@[k] != signals@[jj],
            forall|k: int|
                0 <= k < signals@.len() ==> in_cluster(cv, (#[trigger] signals@[k]) as nat),
            rep_n == rep as nat,
            in_cluster(cv, rep_n),
            forall|i2: int, k: int|
                0 <= i2 < residual@.len() && 0 <= k < residual@[i2].c@.len() ==> in_cluster(
                    cv,
                    (#[trigger] residual@[i2].c@[k]).0,
                ),
            forall|k: int|
                0 <= k < subs@.len() ==> exists|x: int|
                    0 <= x < t2 && (#[trigger] subs@[k]).signal == signals@[x],
            forall|x: int|
                0 <= x < t2 && (#[trigger] signals@[x]) != rep
                    && !forbidden@[signals@[x] as int] ==> exists|k: int|
                    0 <= k < subs@.len() && (#[trigger] subs@[k]).signal == signals@[x],
            forall|k: int, jj: int|
                0 <= k < subs@.len() && 0 <= jj < subs@.len() && k != jj ==> (
                #[trigger] subs@[k]).signal != (#[trigger] subs@[jj]).signal,
            forall|k: int|
                0 <= k < subs@.len() ==> (#[trigger] subs@[k]).wf(p) && ((subs@[k].signal as nat)
                    < forbidden@.len()) && !forbidden@[subs@[k].signal as int] && subs@[k].signal
                    != rep && subs@[k].expr@ =~= seq![(rep as nat, one@)],
            subs_bounded(subs@, forbidden@.len() as nat),
            all_wf(residual@, p),
            all_bounded(residual@, forbidden@.len() as nat),
            forall|i2: int| 0 <= i2 < residual@.len() ==> (#[trigger] residual@[i2]).is_linear_spec(),
        decreases signals@.len() - t2,
    {
        let s = signals[t2];
        if s != rep {
            if !forbidden[s] {
                // s is eliminated in favour of the representative
                let coeff = crate::algebra::clone_bytes(&one);
                let expr = LinearExpr { terms: vec![LinearTerm { signal: rep, coeff }] };
                proof {
                    assert(expr@ =~= seq![(rep as nat, one@)]);
                    assert(norm_terms(expr@, p)) by {
                        assert(expr@[0] == (rep as nat, one@));
                    }
                    assert(coeff_of(expr@, s as nat) == 0) by {
                        crate::algebra::lemma_coeff_of_single((rep as nat, one@), s as nat);
                        assert(expr@ =~= seq![(rep as nat, one@)]);
                    }
                }
                let ghost before = subs@;
                subs.push(Substitution { signal: s, expr });
                proof {
                    assert(subs@[subs@.len() - 1].signal == signals@[t2 as int]);
                    assert forall|x: int|
                        0 <= x < t2 + 1 && (#[trigger] signals@[x]) != rep
                            && !forbidden@[signals@[x] as int] implies exists|k: int|
                        0 <= k < subs@.len() && (#[trigger] subs@[k]).signal == signals@[x] by {
                        if x < t2 {
                            let k = choose|k: int|
                                0 <= k < before.len() && (#[trigger] before[k]).signal
                                    == signals@[x];
                            assert(subs@[k].signal == signals@[x]);
                        } else {
                            assert(subs@[subs@.len() - 1].signal == signals@[x]);
                        }
                    }

                    assert(expr_bounded(subs@[subs@.len() - 1].expr@, forbidden@.len() as nat)) by {
                        lemma_bounded_from_terms(
                            subs@[subs@.len() - 1].expr@,
                            forbidden@.len() as nat,
                        );
                    }
                    assert forall|k: int, jj: int|
                        0 <= k < subs@.len() && 0 <= jj < subs@.len() && k != jj implies (
                    #[trigger] subs@[k]).signal != (#[trigger] subs@[jj]).signal by {
                        if k < before.len() && jj < before.len() {
                        } else if k == before.len() {
                            let x = choose|x: int|
                                0 <= x < t2 && (#[trigger] subs@[jj]).signal == signals@[x];
                            assert(signals@[x] != signals@[t2 as int]);
                        } else {
                            let x = choose|x: int|
                                0 <= x < t2 && (#[trigger] subs@[k]).signal == signals@[x];
                            assert(signals@[x] != signals@[t2 as int]);
                        }
                    }
                }
            } else {
                // a second forbidden signal: keep an equality with the
                // representative as a residual constraint
                let crep = crate::algebra::clone_bytes(&minus_one);
                let cs = crate::algebra::clone_bytes(&one);
                let terms = if rep < s {
                    vec![
                        LinearTerm { signal: rep, coeff: crep },
                        LinearTerm { signal: s, coeff: cs },
                    ]
                } else {
                    vec![
                        LinearTerm { signal: s, coeff: cs },
                        LinearTerm { signal: rep, coeff: crep },
                    ]
                };
                let expr = LinearExpr { terms };
                let c = Constraint {
                    a: LinearExpr::empty(),
                    b: LinearExpr::empty(),
                    c: expr,
                };
                proof {
                    assert(c.wf(p)) by {
                        assert(c.c@.len() == 2);
                        assert(c.c@[0] == (c.c.terms@[0].signal as nat, c.c.terms@[0].coeff@));
                        assert(c.c@[1] == (c.c.terms@[1].signal as nat, c.c.terms@[1].coeff@));
                        assert(p - 1 >= 1);
                    }
                    lemma_bounded_from_terms(c.a@, forbidden@.len() as nat);
                    lemma_bounded_from_terms(c.b@, forbidden@.len() as nat);
                    assert(c.c@[0].0 < forbidden@.len() && c.c@[1].0 < forbidden@.len());
                    lemma_bounded_from_terms(c.c@, forbidden@.len() as nat);
                    assert(c.is_linear_spec());
                    assert(c.c@[0].0 == rep_n || c.c@[0].0 == s as nat);
                    assert(c.c@[1].0 == rep_n || c.c@[1].0 == s as nat);
                    assert(in_cluster(cv, s as nat)) by {
                        assert(signals@[t2 as int] == s);
                    }
                }
                let ghost res_before = residual@;
                residual.push(c);
                proof {
                    assert forall|i2: int, k: int|
                        0 <= i2 < residual@.len() && 0 <= k
                            < residual@[i2].c@.len() implies in_cluster(
                        cv,
                        (#[trigger] residual@[i2].c@[k]).0,
                    ) by {
                        if i2 < res_before.len() {
                            assert(residual@[i2] == res_before[i2]);
                        } else {
                            assert(residual@[i2] == c);
                        }
                    }
                }
            }
        }
        t2 += 1;
    }
    proof {
        assert(subs_wf(subs@, forbidden@, p)) by {
            assert forall|i2: int, j2: int|
                0 <= i2 < subs@.len() && 0 <= j2 < subs@.len() implies coeff_of(
                (#[trigger] subs@[i2]).expr@,
                (#[trigger] subs@[j2]).signal as nat,
            ) == 0 by {
                assert(subs@[i2].expr@ =~= seq![(rep as nat, one@)]);
                assert(subs@[j2].signal != rep);
                assert(subs@[i2].expr@[0].0 == rep as nat);
                assert(coeff_of(subs@[i2].expr@, subs@[j2].signal as nat) == coeff_of(
                    subs@[i2].expr@.subrange(1, 1),
                    subs@[j2].signal as nat,
                ));
                assert(subs@[i2].expr@.subrange(1, 1) =~= Seq::<(nat, Seq<u8>)>::empty());
            }
        }
        lemma_eq_assembly(cv, forbidden@, p, subs@, residual@, signals@, rep, rep_forbidden, one@);
    }
    (subs, residual)
}

/// Assembles the per-signal loop facts into the cluster solution statement.
#[verifier::rlimit(100)]
proof fn lemma_eq_assembly(
    cv: Seq<Constraint>,
    forbidden: Seq<bool>,
    p: nat,
    subs: Seq<Substitution>,
    residual: Seq<Constraint>,
    signals: Seq<usize>,
    rep: usize,
    rep_forbidden: bool,
    one: Seq<u8>,
)
    requires
        one == seq![1u8],
        rep != 0,
        (rep as nat) < forbidden.len(),
        rep_forbidden == forbidden[rep as int],
        rep_forbidden <==> exists|k: int|
            0 <= k < signals.len() && forbidden[(#[trigger] signals[k]) as int],
        exists|k: int| 0 <= k < signals.len() && (#[trigger] signals[k]) == rep,
        forall|k: int| 0 <= k < signals.len() ==> (#[trigger] signals[k]) != 0,
        forall|k: int|
            0 <= k < signals.len() ==> ((#[trigger] signals[k]) as nat) < forbidden.len(),
        forall|k: int| 0 <= k < signals.len() ==> in_cluster(cv, (#[trigger] signals[k]) as nat),
        forall|sg: nat| #[trigger] in_cluster(cv, sg) ==> signals.contains(sg as usize),
        forall|k: int|
            0 <= k < subs.len() ==> exists|x: int|
                0 <= x < signals.len() && (#[trigger] subs[k]).signal == signals[x],
        forall|x: int|
            0 <= x < signals.len() && (#[trigger] signals[x]) != rep
                && !forbidden[signals[x] as int] ==> exists|k: int|
                0 <= k < subs.len() && (#[trigger] subs[k]).signal == signals[x],
        forall|k: int|
            0 <= k < subs.len() ==> !forbidden[(#[trigger] subs[k]).signal as int] && subs[k].signal
                != rep && subs[k].expr@ =~= seq![(rep as nat, one)],
        forall|i2: int| 0 <= i2 < residual.len() ==> (#[trigger] residual[i2]).is_linear_spec(),
        forall|i2: int, k: int|
            0 <= i2 < residual.len() && 0 <= k < residual[i2].c@.len() ==> in_cluster(
                cv,
                (#[trigger] residual[i2].c@[k]).0,
            ),
    ensures
        eq_solution(cv, forbidden, p, subs, residual),
{
    let rep_n = rep as nat;
    assert(in_cluster(cv, rep_n)) by {
        let k = choose|k: int| 0 <= k < signals.len() && (#[trigger] signals[k]) == rep;
    }
    assert(exists|sg: nat| in_cluster(cv, sg)) by {
        assert(in_cluster(cv, rep_n));
    }
    assert((exists|f: nat|
        #[trigger] in_cluster(cv, f) && f < forbidden.len() && forbidden[f as int])
        ==> forbidden[rep_n as int]) by {
        if exists|f: nat|
            #[trigger] in_cluster(cv, f) && f < forbidden.len() && forbidden[f as int] {
            let f = choose|f: nat|
                #[trigger] in_cluster(cv, f) && f < forbidden.len() && forbidden[f as int];
            assert(signals.contains(f as usize));
            let k = choose|k: int| 0 <= k < signals.len() && signals[k] == f as usize;
            assert(forbidden[(signals[k]) as int]);
            assert(rep_forbidden);
        }
    }
    assert forall|sg: nat| #[trigger] is_source(subs, sg) implies (in_cluster(cv, sg) && sg
        < forbidden.len() && !forbidden[sg as int] && sg != rep_n) by {
        let k = choose|k: int| 0 <= k < subs.len() && ((#[trigger] subs[k]).signal as nat) == sg;
        let x = choose|x: int|
            0 <= x < signals.len() && (#[trigger] subs[k]).signal == signals[x];
        assert(in_cluster(cv, signals[x] as nat));
    }
    assert forall|sg: nat|
        in_cluster(cv, sg) && sg < forbidden.len() && !forbidden[sg as int] && sg
            != rep_n implies #[trigger] is_source(subs, sg) by {
        assert(signals.contains(sg as usize));
        let x = choose|x: int| 0 <= x < signals.len() && signals[x] == sg as usize;
        assert(signals[x] != rep);
        let k = choose|k: int| 0 <= k < subs.len() && (#[trigger] subs[k]).signal == signals[x];
        assert((subs[k].signal as nat) == sg);
    }
    assert forall|i2: int| 0 <= i2 < subs.len() implies (#[trigger] subs[i2]).expr@ == rep_expr(
        rep_n,
    ) by {
        assert(subs[i2].expr@ =~= seq![(rep as nat, one)]);
        assert(seq![(rep as nat, one)] =~= rep_expr(rep_n));
    }
}


/// The shape the constant phase solves: a linear constraint whose only
/// witness signal is `x` (beside the constant signal 0).
pub open spec fn single_signal_shape(c: Constraint, x: nat) -> bool {
    &&& c.is_linear_spec()
    &&& x != 0
    &&& exists|k: int| 0 <= k < c.c@.len() && (#[trigger] c.c@[k]).0 == x
    &&& forall|k: int| 0 <= k < c.c@.len() ==> (#[trigger] c.c@[k]).0 == 0 || c.c@[k].0 == x
}


/// Under the single-signal shape, the distinct-witness-signal list of the
/// constraint is exactly the one signal.
proof fn lemma_shape_signal(c: Constraint, x: nat, sigs: Seq<usize>)
    requires
        single_signal_shape(c, x),
        forall|i: int|
            0 <= i < sigs.len() ==> sigs[i] != 0 && crate::clusters::has_signal(
                c@,
                (#[trigger] sigs[i]) as nat,
            ),
        forall|sg: usize| sg != 0 && crate::clusters::has_signal(c@, sg as nat) ==> sigs.contains(sg),
        forall|i: int, j: int| 0 <= i < j < sigs.len() ==> sigs[i] != sigs[j],
    ensures
        sigs.len() == 1,
        x == sigs[0] as nat,
{
    let k = choose|k: int| 0 <= k < c.c@.len() && (#[trigger] c.c@[k]).0 == x;
    assert(c@.2 == c.c@);
    assert(crate::clusters::has_signal(c@, x)) by {
        assert(c@.2[k].0 == x);
    }
    assert(x < 0x1_0000_0000_0000_0000_0000nat || true);
    assert(sigs.contains(x as usize)) by {
        assert(((x as usize) as nat) == x) by {
            assert(c.c@[k].0 == x);
        }
    }
    let i0 = choose|i0: int| 0 <= i0 < sigs.len() && sigs[i0] == x as usize;
    assert forall|i: int| 0 <= i < sigs.len() implies (#[trigger] sigs[i]) as nat == x by {
        assert(crate::clusters::has_signal(c@, sigs[i] as nat));
        if exists|t: int| 0 <= t < c@.0.len() && (#[trigger] c@.0[t]).0 == sigs[i] as nat {
            assert(c@.0.len() == 0);
        } else if exists|t: int| 0 <= t < c@.1.len() && (#[trigger] c@.1[t]).0 == sigs[i] as nat {
            assert(c@.1.len() == 0);
        } else {
            let t = choose|t: int| 0 <= t < c@.2.len() && (#[trigger] c@.2[t]).0 == sigs[i] as nat;
            assert(c.c@[t].0 == 0 || c.c@[t].0 == x);
        }
    }
    if sigs.len() > 1 {
        assert(sigs[0] as nat == x && sigs[1] as nat == x);
        assert(sigs[0] != sigs[1]);
        assert(false);
    }
}

/// Solves constant equalities: each constraint fixing a single signal yields
/// a substitution to a field constant, unless the signal is forbidden, was
/// already fixed, or its coefficient has no inverse; those become residuals.
pub fn constant_eq_simplification(
    constraints: Vec<Constraint>,
    forbidden: &Vec<bool>,
    field: &Field,
) -> (r: (Vec<Substitution>, Vec<Constraint>))
    requires
        field.wf(),
        all_wf(constraints@, field.modulus()),
        forall|i: int|
            0 <= i < constraints@.len() ==> signals_below(
                (#[trigger] constraints@[i])@,
                forbidden@.len() as nat,
            ),
    ensures
        subs_wf(r.0@, forbidden@, field.modulus()),
        subs_bounded(r.0@, forbidden@.len() as nat),
        all_wf(r.1@, field.modulus()),
        all_bounded(r.1@, forbidden@.len() as nat),
        r.0@.len() + r.1@.len() == constraints@.len(),
        forall|i: int|
            0 <= i < r.1@.len() ==> crate::clusters::in_views((#[trigger] r.1@[i])@, constraints@),
        forall|j: int, x: nat|
            0 <= j < constraints@.len() && single_signal_shape(#[trigger] constraints@[j], x) && x
                < forbidden@.len() && !forbidden@[x as int] && crate::field::spec_gcd(
                coeff_of(constraints@[j].c@, x),
                field.modulus(),
            ) == 1 ==> #[trigger] is_source(r.0@, x),
{
    let ghost p = field.modulus();
    let ghost cv = constraints@;
    let mut subs: Vec<Substitution> = Vec::new();
    let mut residual: Vec<Constraint> = Vec::new();
    let mut work = constraints;
    let ghost mut done: int = 0;
    while work.len() > 0
        invariant
            field.wf(),
            p == field.modulus(),
            0 <= done <= cv.len(),
            work@ == cv.subrange(done, cv.len() as int),
            all_wf(work@, p),
            forall|i: int|
                0 <= i < work@.len() ==> signals_below(
                    (#[trigger] work@[i])@,
                    forbidden@.len() as nat,
                ),
            subs_wf(subs@, forbidden@, p),
            subs_bounded(subs@, forbidden@.len() as nat),
            all_wf(residual@, p),
            all_bounded(residual@, forbidden@.len() as nat),
            subs@.len() + residual@.len() == done,
            forall|i: int|
                0 <= i < residual@.len() ==> crate::clusters::in_views(
                    (#[trigger] residual@[i])@,
                    cv,
                ),
            forall|j: int, x: nat|
                0 <= j < done && single_signal_shape(#[trigger] cv[j], x) && x < forbidden@.len()
                    && !forbidden@[x as int] && crate::field::spec_gcd(coeff_of(cv[j].c@, x), p)
                    == 1 ==> #[trigger] is_source(subs@, x),
            forall|k: int|
                0 <= k < subs@.len() ==> (#[trigger] subs@[k]).expr@.len() <= 1 && (subs@[k].expr@.len()
                    == 1 ==> subs@[k].expr@[0].0 == 0),
        decreases work@.len(),
    {
        let ghost wv = work@;
        let ghost subs0 = subs@;
        let mut c = work.remove(0);
        proof {
            assert(c == cv[done]);
            assert(work@ =~= cv.subrange(done + 1, cv.len() as int));
        }
        let solved = if !c.is_linear() {
            proof {
                assert forall|x: nat| single_signal_shape(c, x) implies #[trigger] is_source(
                    subs@,
                    x,
                ) by {
                    assert(c.is_linear_spec());
                }
            }
            false
        } else {
            let sigs = take_cloned_signals(&c);
            if sigs.len() != 1 {
                proof {
                    assert forall|x: nat| single_signal_shape(c, x) implies #[trigger] is_source(
                        subs@,
                        x,
                    ) by {
                        lemma_shape_signal(c, x, sigs@);
                    }
                }
                false
            } else {
                let x = sigs[0];
                if forbidden[x] {
                    proof {
                        assert forall|x2: nat|
                            single_signal_shape(c, x2) && x2 < forbidden@.len()
                                && !forbidden@[x2 as int] implies #[trigger] is_source(
                            subs@,
                            x2,
                        ) by {
                            lemma_shape_signal(c, x2, sigs@);
                        }
                    }
                    false
                } else {
                    let mut already = false;
                    let mut k0: usize = 0;
                    while k0 < subs.len()
                        invariant
                            k0 <= subs@.len(),
                            already ==> exists|k: int|
                                0 <= k < subs@.len() && (#[trigger] subs@[k]).signal == x,
                            !already ==> forall|k: int|
                                0 <= k < k0 ==> (#[trigger] subs@[k]).signal != x,
                        decreases subs@.len() - k0,
                    {
                        if subs[k0].signal == x {
                            already = true;
                        }
                        k0 += 1;
                    }
                    if already {
                        proof {
                            assert forall|x2: nat| single_signal_shape(c, x2) implies
                                #[trigger] is_source(subs@, x2) by {
                                lemma_shape_signal(c, x2, sigs@);
                                let k = choose|k: int|
                                    0 <= k < subs@.len() && (#[trigger] subs@[k]).signal == x;
                            }
                        }
                        false
                    } else {
                        match c.c.find(x) {
                            None => {
                                proof {
                                    assert forall|x2: nat| single_signal_shape(c, x2) implies
                                        #[trigger] is_source(subs@, x2) by {
                                        lemma_shape_signal(c, x2, sigs@);
                                        let k = choose|k: int|
                                            0 <= k < c.c@.len() && (#[trigger] c.c@[k]).0 == x2;
                                    }
                                }
                                false
                            },
                            Some(idx) => {
                                let k = crate::algebra::clone_bytes(&c.c.terms[idx].coeff);
                                proof {
                                    assert(c.c@[idx as int].1 == k@);
                                }
                                proof {
                                    assert(coeff_of(c.c@, x as nat) == le_val(k@));
                                }
                                match field.inv(&k) {
                                    None => {
                                        proof {
                                            assert forall|x2: nat|
                                                single_signal_shape(c, x2)
                                                    && crate::field::spec_gcd(
                                                    coeff_of(c.c@, x2),
                                                    p,
                                                ) == 1 implies #[trigger] is_source(subs@, x2) by {
                                                lemma_shape_signal(c, x2, sigs@);
                                            }
                                        }
                                        false
                                    },
                                    Some(kinv) => {
                                        // x = -(constant term) / k
                                        let c0 = match c.c.find(0) {
                                            Some(zidx) => crate::algebra::clone_bytes(
                                                &c.c.terms[zidx].coeff,
                                            ),
                                            None => Vec::new(),
                                        };
                                        let prod = field.mul(&c0, &kinv);
                                        let zero: Vec<u8> = Vec::new();
                                        let value = field.sub(&zero, &prod);
                                        let mut terms: Vec<LinearTerm> = Vec::new();
                                        if value.len() > 0 {
                                            proof {
                                                if le_val(value@) == 0 {
                                                    crate::bytes::lemma_minimal_zero(value@);
                                                }
                                            }
                                            terms.push(LinearTerm { signal: 0, coeff: value });
                                        }
                                        let expr = LinearExpr { terms };
                                        proof {
                                            if expr@.len() == 1 {
                                                assert(expr@[0].0 == 0);
                                                assert(norm_terms(expr@, p));
                                            } else {
                                                assert(expr@ =~= Seq::<(nat, Seq<u8>)>::empty());
                                                assert(norm_terms(expr@, p));
                                            }
                                            assert(coeff_of(expr@, x as nat) == 0) by {
                                                if expr@.len() == 1 {
                                                    crate::algebra::lemma_coeff_of_single(
                                                        expr@[0],
                                                        x as nat,
                                                    );
                                                    assert(expr@ =~= seq![expr@[0]]);
                                                    assert(expr@[0].0 == 0);
                                                    assert(x != 0);
                                                } else {
                                                    assert(expr@ =~= Seq::<(nat, Seq<u8>)>::empty());
                                                }
                                            }
                                        }
                                        let ghost before = subs@;
                                        subs.push(Substitution { signal: x, expr });
                                        proof {
                                            assert(expr_bounded(
                                                subs@[subs@.len() - 1].expr@,
                                                forbidden@.len() as nat,
                                            )) by {
                                                assert((x as nat) < forbidden@.len());
                                                lemma_bounded_from_terms(
                                                    subs@[subs@.len() - 1].expr@,
                                                    forbidden@.len() as nat,
                                                );
                                            }
                                            assert forall|i2: int, j2: int|
                                                0 <= i2 < subs@.len() && 0 <= j2 < subs@.len()
                                                    && i2 != j2 implies (
                                            #[trigger] subs@[i2]).signal != (
                                            #[trigger] subs@[j2]).signal by {
                                                if i2 < before.len() && j2 < before.len() {
                                                } else if i2 == before.len() {
                                                    assert(subs@[j2].signal != x);
                                                } else {
                                                    assert(subs@[i2].signal != x);
                                                }
                                            }
                                            assert forall|i2: int, j2: int|
                                                0 <= i2 < subs@.len() && 0 <= j2
                                                    < subs@.len() implies coeff_of(
                                                (#[trigger] subs@[i2]).expr@,
                                                (#[trigger] subs@[j2]).signal as nat,
                                            ) == 0 by {
                                                assert(subs@[j2].signal != 0);
                                                if subs@[i2].expr@.len() == 1 {
                                                    assert(subs@[i2].expr@[0].0 == 0);
                                                    assert(coeff_of(
                                                        subs@[i2].expr@,
                                                        subs@[j2].signal as nat,
                                                    ) == coeff_of(
                                                        subs@[i2].expr@.subrange(1, 1),
                                                        subs@[j2].signal as nat,
                                                    ));
                                                    assert(subs@[i2].expr@.subrange(1, 1) =~= Seq::<
                                                        (nat, Seq<u8>),
                                                    >::empty());
                                                }
                                            }
                                            assert forall|x2: nat|
                                                single_signal_shape(c, x2) implies
                                                #[trigger] is_source(subs@, x2) by {
                                                lemma_shape_signal(c, x2, sigs@);
                                                assert(subs@[subs@.len() - 1].signal == x);
                                            }
                                        }
                                        true
                                    },
                                }
                            },
                        }
                    }
                }
            }
        };
        if !solved {
            proof {
                lemma_bounded_from_below(c, forbidden@.len() as nat);
            }
            let ghost res0 = residual@;
            residual.push(c);
            proof {
                assert forall|i: int| 0 <= i < residual@.len() implies crate::clusters::in_views(
                    (#[trigger] residual@[i])@,
                    cv,
                ) by {
                    if i < res0.len() {
                        assert(residual@[i] == res0[i]);
                    } else {
                        assert(residual@[i]@ == cv[done]@);
                    }
                }
            }
        }
        proof {
            assert forall|j: int, x: nat|
                0 <= j < done + 1 && single_signal_shape(#[trigger] cv[j], x) && x
                    < forbidden@.len() && !forbidden@[x as int] && crate::field::spec_gcd(
                    coeff_of(cv[j].c@, x),
                    p,
                ) == 1 implies #[trigger] is_source(subs@, x) by {
                if j < done {
                    assert(is_source(subs0, x));
                    let k = choose|k: int|
                        0 <= k < subs0.len() && ((#[trigger] subs0[k]).signal as nat) == x;
                    assert(subs@[k] == subs0[k]);
                } else {
                    assert(cv[j] == c);
                }
            }
            done = done + 1;
        }
    }
    proof {
        assert(done == cv.len());
    }
    (subs, residual)
}

/// A constraint whose signals lie below the bound has all three sides
/// bounded coefficient-wise.
pub proof fn lemma_bounded_from_below(c: Constraint, n: nat)
    requires
        signals_below(c@, n),
    ensures
        expr_bounded(c.a@, n),
        expr_bounded(c.b@, n),
        expr_bounded(c.c@, n),
{
    assert forall|s: nat| s >= n implies #[trigger] coeff_of(c.a@, s) == 0 by {
        assert forall|k: int| 0 <= k < c.a@.len() implies (#[trigger] c.a@[k]).0 != s by {
            if c.a@[k].0 == s {
                assert(c@.0 == c.a@);
                assert(c@.0[k].0 == s);
                assert(crate::clusters::has_signal(c@, s));
            }
        }
        crate::algebra::lemma_coeff_of_absent(c.a@, s);
    }
    assert forall|s: nat| s >= n implies #[trigger] coeff_of(c.b@, s) == 0 by {
        assert forall|k: int| 0 <= k < c.b@.len() implies (#[trigger] c.b@[k]).0 != s by {
            if c.b@[k].0 == s {
                assert(c@.1 == c.b@);
                assert(c@.1[k].0 == s);
                assert(crate::clusters::has_signal(c@, s));
            }
        }
        crate::algebra::lemma_coeff_of_absent(c.b@, s);
    }
    assert forall|s: nat| s >= n implies #[trigger] coeff_of(c.c@, s) == 0 by {
        assert forall|k: int| 0 <= k < c.c@.len() implies (#[trigger] c.c@[k]).0 != s by {
            if c.c@[k].0 == s {
                assert(c@.2 == c.c@);
                assert(c@.2[k].0 == s);
                assert(crate::clusters::has_signal(c@, s));
            }
        }
        crate::algebra::lemma_coeff_of_absent(c.c@, s);
    }
}

/// How many entries of a flag vector are set.
pub open spec fn count_true(s: Seq<bool>) -> nat
    decreases s.len(),
{
    if s.len() == 0 {
        0nat
    } else {
        (if s[0] {
            1nat
        } else {
            0nat
        }) + count_true(s.subrange(1, s.len() as int))
    }
}

proof fn lemma_count_true_le(s: Seq<bool>)
    ensures
        count_true(s) <= s.len(),
    decreases s.len(),
{
    if s.len() > 0 {
        lemma_count_true_le(s.subrange(1, s.len() as int));
    }
}

proof fn lemma_count_true_update(s: Seq<bool>, i: int)
    requires
        0 <= i < s.len(),
        !s[i],
    ensures
        count_true(s.update(i, true)) == count_true(s) + 1,
    decreases s.len(),
{
    let u = s.update(i, true);
    if i == 0 {
        assert(u.subrange(1, u.len() as int) =~= s.subrange(1, s.len() as int));
    } else {
        assert(u[0] == s[0]);
        let s1 = s.subrange(1, s.len() as int);
        assert(u.subrange(1, u.len() as int) =~= s1.update(i - 1, true));
        lemma_count_true_update(s1, i - 1);
    }
}

/// How many rows carry the signal.
fn count_occurrences(rows: &Vec<LinearExpr>, sig: usize) -> (r: usize)
    requires
        forall|i: int| 0 <= i < rows@.len() ==> crate::algebra::sig_sorted((#[trigger] rows@[i])@),
    ensures
        true,
{
    let mut count: usize = 0;
    let mut i: usize = 0;
    while i < rows.len()
        invariant
            count <= i,
            i <= rows@.len(),
            forall|k: int|
                0 <= k < rows@.len() ==> crate::algebra::sig_sorted((#[trigger] rows@[k])@),
        decreases rows@.len() - i,
    {
        if rows[i].find(sig).is_some() {
            count += 1;
        }
        i += 1;
    }
    count
}


/// A signal the solver may never pivot on: the constant, one outside the
/// signal space, a forbidden one, or one already found non-invertible.
pub open spec fn no_candidate(sig: nat, forbidden: Seq<bool>, unusable: Seq<bool>) -> bool {
    ||| sig == 0
    ||| sig >= forbidden.len()
    ||| forbidden[sig as int]
    ||| unusable[sig as int]
}

/// Chooses the next pivot: a non-constant, non-forbidden, still-usable
/// signal occurring in some row; the current heuristic prefers the signal
/// occurring in the fewest rows, the legacy one simply the least id.
#[verifier::rlimit(50)]
fn pick_pivot(
    rows: &Vec<LinearExpr>,
    forbidden: &Vec<bool>,
    unusable: &Vec<bool>,
    use_old_heuristics: bool,
) -> (r: Option<(usize, usize)>)
    requires
        unusable@.len() == forbidden@.len(),
        forall|i: int| 0 <= i < rows@.len() ==> crate::algebra::sig_sorted((#[trigger] rows@[i])@),
    ensures
        r matches Some(pr) ==> {
            &&& pr.0 != 0
            &&& (pr.0 as nat) < forbidden@.len()
            &&& !forbidden@[pr.0 as int]
            &&& !unusable@[pr.0 as int]
            &&& pr.1 < rows@.len()
            &&& exists|k: int|
                0 <= k < rows@[pr.1 as int]@.len() && (#[trigger] rows@[pr.1 as int]@[k]).0
                    == pr.0 as nat
        },
        r is None ==> forall|i: int, k: int|
            0 <= i < rows@.len() && 0 <= k < rows@[i]@.len() ==> no_candidate(
                (#[trigger] rows@[i]@[k]).0,
                forbidden@,
                unusable@,
            ),
{
    let mut best_sig: usize = 0;
    let mut best_row: usize = 0;
    let mut best_count: usize = 0;
    let mut have: bool = false;
    let mut ri: usize = 0;
    while ri < rows.len()
        invariant
            ri <= rows@.len(),
            unusable@.len() == forbidden@.len(),
            forall|i: int|
                0 <= i < rows@.len() ==> crate::algebra::sig_sorted((#[trigger] rows@[i])@),
            have ==> {
                &&& best_sig != 0
                &&& (best_sig as nat) < forbidden@.len()
                &&& !forbidden@[best_sig as int]
                &&& !unusable@[best_sig as int]
                &&& best_row < rows@.len()
                &&& exists|k: int|
                    0 <= k < rows@[best_row as int]@.len() && (
                    #[trigger] rows@[best_row as int]@[k]).0 == best_sig as nat
            },
            !have ==> forall|i: int, k: int|
                0 <= i < ri && 0 <= k < rows@[i]@.len() ==> no_candidate(
                    (#[trigger] rows@[i]@[k]).0,
                    forbidden@,
                    unusable@,
                ),
        decreases rows@.len() - ri,
    {
        let m = rows[ri].terms.len();
        let mut k: usize = 0;
        while k < m
            invariant
                k <= m,
                ri < rows@.len(),
                m == rows@[ri as int]@.len(),
                unusable@.len() == forbidden@.len(),
                forall|i: int|
                    0 <= i < rows@.len() ==> crate::algebra::sig_sorted((#[trigger] rows@[i])@),
                have ==> {
                    &&& best_sig != 0
                    &&& (best_sig as nat) < forbidden@.len()
                    &&& !forbidden@[best_sig as int]
                    &&& !unusable@[best_sig as int]
                    &&& best_row < rows@.len()
                    &&& exists|kk: int|
                        0 <= kk < rows@[best_row as int]@.len() && (
                        #[trigger] rows@[best_row as int]@[kk]).0 == best_sig as nat
                },
                !have ==> forall|i: int, kk: int|
                    0 <= i < ri && 0 <= kk < rows@[i]@.len() ==> no_candidate(
                        (#[trigger] rows@[i]@[kk]).0,
                        forbidden@,
                        unusable@,
                    ),
                !have ==> forall|kk: int|
                    0 <= kk < k ==> no_candidate(
                        (#[trigger] rows@[ri as int]@[kk]).0,
                        forbidden@,
                        unusable@,
                    ),
            decreases m - k,
        {
            let sig = rows[ri].terms[k].signal;
            proof {
                assert(rows@[ri as int]@[k as int].0 == sig as nat);
            }
            if sig != 0 && sig < forbidden.len() && !forbidden[sig] && !unusable[sig] {
                let better = if !have {
                    true
                } else if use_old_heuristics {
                    sig < best_sig
                } else {
                    let count = count_occurrences(rows, sig);
                    count < best_count || (count == best_count && sig < best_sig)
                };
                if better {
                    best_sig = sig;
                    best_row = ri;
                    best_count = if use_old_heuristics {
                        0
                    } else {
                        count_occurrences(rows, sig)
                    };
                    have = true;
                    proof {
                        assert(rows@[ri as int]@[k as int].0 == sig as nat);
                    }
                }
            }
            k += 1;
        }
        ri += 1;
    }
    if have {
        proof {
            assert(best_sig != 0 && (best_sig as nat) < forbidden@.len()
                && !forbidden@[best_sig as int] && !unusable@[best_sig as int] && best_row
                < rows@.len());
            assert(exists|k: int|
                0 <= k < rows@[best_row as int]@.len() && (
                #[trigger] rows@[best_row as int]@[k]).0 == best_sig as nat);
        }
        Some((best_sig, best_row))
    } else {
        None
    }
}

/// Solves a row for the pivot: the replacement expression carrying, for every
/// other signal, the row coefficient scaled by the negated pivot inverse.
fn solve_row(row: &LinearExpr, pivot: usize, minus_inv: &Vec<u8>, f: &Field) -> (e: LinearExpr)
    requires
        f.wf(),
        norm_terms(row@, f.modulus()),
        le_val(minus_inv@) < f.modulus(),
    ensures
        norm_terms(e@, f.modulus()),
        forall|s: nat|
            #[trigger] coeff_of(e@, s) == if s == pivot as nat {
                0
            } else {
                (le_val(minus_inv@) * coeff_of(row@, s)) % f.modulus()
            },
{
    let ghost p = f.modulus();
    let mut e = LinearExpr::empty();
    proof {
        assert(norm_terms(e@, p));
        assert forall|s: nat| #[trigger] coeff_of(e@, s) == 0 by {}
    }
    let n = row.terms.len();
    let mut i: usize = 0;
    while i < n
        invariant
            i <= n,
            n == row@.len(),
            f.wf(),
            p == f.modulus(),
            norm_terms(row@, p),
            le_val(minus_inv@) < p,
            norm_terms(e@, p),
            forall|s: nat|
                #[trigger] coeff_of(e@, s) == if s != pivot as nat && (exists|x: int|
                    0 <= x < i && (#[trigger] row@[x]).0 == s) {
                    (le_val(minus_inv@) * coeff_of(row@, s)) % p
                } else {
                    0
                },
        decreases n - i,
    {
        let sig = row.terms[i].signal;
        let ghost before = e@;
        if sig != pivot {
            let d = f.mul(minus_inv, &row.terms[i].coeff);
            proof {
                assert(row@[i as int] == (sig as nat, row.terms@[i as int].coeff@));
                lemma_coeff_of_present(row@, i as int);
                assert(le_val(d@) == (le_val(minus_inv@) * coeff_of(row@, sig as nat)) % p);
            }
            e.upsert(sig, &d, f);
            proof {
                assert(coeff_of(before, sig as nat) == 0) by {
                    if exists|x: int| 0 <= x < i && (#[trigger] row@[x]).0 == sig as nat {
                        let x = choose|x: int| 0 <= x < i && (#[trigger] row@[x]).0 == sig as nat;
                        assert(row@[x].0 < row@[i as int].0);
                    }
                }
                assert(coeff_of(e@, sig as nat) == (0 + le_val(d@)) % p);
                vstd::arithmetic::div_mod::lemma_small_mod(le_val(d@), p);
            }
        }
        proof {
            assert forall|s: nat| #[trigger] coeff_of(e@, s) == if s != pivot as nat && (exists|
                x: int,
            | 0 <= x < i + 1 && (#[trigger] row@[x]).0 == s) {
                (le_val(minus_inv@) * coeff_of(row@, s)) % p
            } else {
                0
            } by {
                if s == sig as nat && sig != pivot {
                } else if s == pivot as nat {
                    assert(coeff_of(e@, s) == coeff_of(before, s));
                } else {
                    assert(coeff_of(e@, s) == coeff_of(before, s));
                    assert((exists|x: int| 0 <= x < i + 1 && (#[trigger] row@[x]).0 == s) <==> (
                    exists|x: int| 0 <= x < i && (#[trigger] row@[x]).0 == s)) by {
                        if exists|x: int| 0 <= x < i + 1 && (#[trigger] row@[x]).0 == s {
                            let x = choose|x: int|
                                0 <= x < i + 1 && (#[trigger] row@[x]).0 == s;
                            assert(x != i);
                        }
                    }
                }
            }
        }
        i += 1;
    }
    proof {
        assert forall|s: nat| #[trigger] coeff_of(e@, s) == if s == pivot as nat {
            0nat
        } else {
            (le_val(minus_inv@) * coeff_of(row@, s)) % p
        } by {
            if s == pivot as nat {
            } else {
                if exists|x: int| 0 <= x < n && (#[trigger] row@[x]).0 == s {
                } else {
                    crate::algebra::lemma_coeff_of_absent(row@, s);
                    assert(coeff_of(row@, s) == 0);
                    assert(le_val(minus_inv@) * coeff_of(row@, s) == 0) by (nonlinear_arith)
                        requires coeff_of(row@, s) == 0;
                    assert(0nat % p == 0) by {
                        vstd::arithmetic::div_mod::lemma_small_mod(0, p);
                    }
                }
            }
        }
    }
    e
}


/// Some linear constraint of the batch carries the signal with a coefficient
/// that has no modular inverse.
pub open spec fn gcd_blocked_in(cs: Seq<Constraint>, x: nat, p: nat) -> bool {
    exists|j: int|
        0 <= j < cs.len() && (#[trigger] cs[j]).is_linear_spec() && coeff_of(cs[j].c@, x) != 0
            && crate::field::spec_gcd(coeff_of(cs[j].c@, x), p) != 1
}

/// Some row carries the signal with a coefficient that has no modular
/// inverse.
pub open spec fn gcd_blocked_row(rows: Seq<LinearExpr>, x: nat, p: nat) -> bool {
    exists|i: int|
        0 <= i < rows.len() && coeff_of((#[trigger] rows[i])@, x) != 0 && crate::field::spec_gcd(
            coeff_of(rows[i]@, x),
            p,
        ) != 1
}



/// The row is the linear side of some linear input constraint.
pub open spec fn row_from_input(row: LinearExpr, cv: Seq<Constraint>) -> bool {
    exists|j: int| 0 <= j < cv.len() && (#[trigger] cv[j]).is_linear_spec() && row@ == cv[j].c@
}

/// Some row carries the linear input constraint's linear side.
pub open spec fn input_in_rows(c: Constraint, rows: Seq<LinearExpr>) -> bool {
    exists|i: int| 0 <= i < rows.len() && (#[trigger] rows[i])@ == c.c@
}

/// When Gaussian elimination finds no pivot at all, every eliminable-looking
/// signal of the input is explained by a non-invertible coefficient in some
/// input row.
#[verifier::rlimit(100)]
proof fn lemma_gauss_empty_forcing(
    cv: Seq<Constraint>,
    init_rows: Seq<LinearExpr>,
    forbidden: Seq<bool>,
    unusable: Seq<bool>,
    p: nat,
)
    requires
        unusable.len() == forbidden.len(),
        forall|i: int| 0 <= i < init_rows.len() ==> row_from_input(#[trigger] init_rows[i], cv),
        forall|j: int|
            0 <= j < cv.len() && (#[trigger] cv[j]).is_linear_spec() ==> input_in_rows(
                cv[j],
                init_rows,
            ),
        forall|i: int, k: int|
            0 <= i < init_rows.len() && 0 <= k < init_rows[i]@.len() ==> no_candidate(
                (#[trigger] init_rows[i]@[k]).0,
                forbidden,
                unusable,
            ),
        forall|x: int|
            0 <= x < unusable.len() && #[trigger] unusable[x] ==> gcd_blocked_row(
                init_rows,
                x as nat,
                p,
            ),
    ensures
        forall|j: int, x: nat|
            0 <= j < cv.len() && (#[trigger] cv[j]).is_linear_spec() && #[trigger] coeff_of(
                cv[j].c@,
                x,
            ) != 0 && x != 0 && x < forbidden.len() && !forbidden[x as int] ==> gcd_blocked_in(
                cv,
                x,
                p,
            ),
{
    assert forall|j: int, x: nat|
        0 <= j < cv.len() && (#[trigger] cv[j]).is_linear_spec() && #[trigger] coeff_of(
            cv[j].c@,
            x,
        ) != 0 && x != 0 && x < forbidden.len() && !forbidden[x as int] implies gcd_blocked_in(
        cv,
        x,
        p,
    ) by {
        assert(input_in_rows(cv[j], init_rows));
        let i = choose|i: int|
            0 <= i < init_rows.len() && (#[trigger] init_rows[i])@ == cv[j].c@;
        assert(coeff_of(init_rows[i]@, x) != 0);
        assert(exists|kk: int|
            0 <= kk < init_rows[i]@.len() && (#[trigger] init_rows[i]@[kk]).0 == x) by {
            if forall|kk: int|
                0 <= kk < init_rows[i]@.len() ==> (#[trigger] init_rows[i]@[kk]).0 != x {
                crate::algebra::lemma_coeff_of_absent(init_rows[i]@, x);
            }
        }
        let kk = choose|kk: int|
            0 <= kk < init_rows[i]@.len() && (#[trigger] init_rows[i]@[kk]).0 == x;
        assert(no_candidate(init_rows[i]@[kk].0, forbidden, unusable));
        assert(unusable[x as int]);
        assert(gcd_blocked_row(init_rows, x as nat, p));
        let i2 = choose|i2: int|
            0 <= i2 < init_rows.len() && coeff_of((#[trigger] init_rows[i2])@, x) != 0
                && crate::field::spec_gcd(coeff_of(init_rows[i2]@, x), p) != 1;
        assert(row_from_input(init_rows[i2], cv));
        let j2 = choose|j2: int|
            0 <= j2 < cv.len() && (#[trigger] cv[j2]).is_linear_spec() && init_rows[i2]@
                == cv[j2].c@;
        assert(coeff_of(cv[j2].c@, x) != 0);
    }
}

/// Gaussian elimination over one cluster of linear constraints: repeatedly
/// pick an eliminable pivot signal, solve one constraint for it, record the
/// substitution, and eliminate the pivot from everything else. Ends when no
/// eliminable signal is left; the rows still standing come back as residual
/// constraints.
pub fn full_simplification(
    constraints: Vec<Constraint>,
    forbidden: &Vec<bool>,
    field: &Field,
    use_old_heuristics: bool,
) -> (r: (Vec<Substitution>, Vec<Constraint>))
    requires
        field.wf(),
        all_wf(constraints@, field.modulus()),
        forall|i: int|
            0 <= i < constraints@.len() ==> signals_below(
                (#[trigger] constraints@[i])@,
                forbidden@.len() as nat,
            ),
    ensures
        subs_wf(r.0@, forbidden@, field.modulus()),
        subs_bounded(r.0@, forbidden@.len() as nat),
        all_wf(r.1@, field.modulus()),
        all_bounded(r.1@, forbidden@.len() as nat),
        forall|i: int, j: int|
            0 <= i < r.1@.len() && 0 <= j < r.0@.len() && (#[trigger] r.1@[i]).is_linear_spec()
                ==> coeff_of(r.1@[i].c@, (#[trigger] r.0@[j]).signal as nat) == 0,
        r.0@.len() == 0 ==> forall|j: int, x: nat|
            0 <= j < constraints@.len() && (#[trigger] constraints@[j]).is_linear_spec()
                && #[trigger] coeff_of(constraints@[j].c@, x) != 0 && x != 0 && x
                < forbidden@.len() && !forbidden@[x as int] ==> gcd_blocked_in(
                constraints@,
                x,
                field.modulus(),
            ),
{
    let ghost p = field.modulus();
    let ghost nn = forbidden@.len() as nat;
    let ghost cv = constraints@;
    let mut residual: Vec<Constraint> = Vec::new();
    let mut rows: Vec<LinearExpr> = Vec::new();
    let mut work = constraints;
    let ghost mut done: int = 0;
    while work.len() > 0
        invariant
            field.wf(),
            p == field.modulus(),
            nn == forbidden@.len(),
            0 <= done <= cv.len(),
            work@ == cv.subrange(done, cv.len() as int),
            all_wf(work@, p),
            forall|i: int|
                0 <= i < work@.len() ==> signals_below((#[trigger] work@[i])@, nn),
            all_wf(residual@, p),
            all_bounded(residual@, nn),
            forall|i: int| 0 <= i < residual@.len() ==> !(#[trigger] residual@[i]).is_linear_spec(),
            forall|i: int| 0 <= i < rows@.len() ==> norm_terms((#[trigger] rows@[i])@, p),
            forall|i: int| 0 <= i < rows@.len() ==> expr_bounded((#[trigger] rows@[i])@, nn),
            forall|i: int| 0 <= i < rows@.len() ==> row_from_input(#[trigger] rows@[i], cv),
            forall|j: int|
                0 <= j < done && (#[trigger] cv[j]).is_linear_spec() ==> input_in_rows(
                    cv[j],
                    rows@,
                ),
        decreases work@.len(),
    {
        let c = work.remove(0);
        proof {
            assert(c == cv[done]);
            assert(work@ =~= cv.subrange(done + 1, cv.len() as int));
            lemma_bounded_from_below(c, nn);
        }
        let ghost rows_before = rows@;
        if c.is_linear() {
            rows.push(c.c);
            proof {
                assert(rows@[rows@.len() - 1]@ == cv[done].c@);
                assert(cv[done].is_linear_spec());
                assert forall|j: int|
                    0 <= j < done + 1 && (#[trigger] cv[j]).is_linear_spec() implies input_in_rows(
                    cv[j],
                    rows@,
                ) by {
                    if j < done {
                        let i = choose|i: int|
                            0 <= i < rows_before.len() && (#[trigger] rows_before[i])@ == cv[j].c@;
                        assert(rows@[i]@ == cv[j].c@);
                    } else {
                        assert(rows@[rows@.len() - 1]@ == cv[j].c@);
                    }
                }
                assert forall|i: int| 0 <= i < rows@.len() implies row_from_input(
                    #[trigger] rows@[i],
                    cv,
                ) by {
                    if i < rows_before.len() {
                        assert(rows@[i] == rows_before[i]);
                        assert(row_from_input(rows_before[i], cv));
                    } else {
                        assert(rows@[i]@ == cv[done].c@);
                    }
                }
            }
        } else {
            residual.push(c);
        }
        proof {
            done = done + 1;
        }
    }
    let ghost init_rows = rows@;
    proof {
        assert(done == cv.len());
        assert forall|i: int| 0 <= i < init_rows.len() implies row_from_input(
            #[trigger] init_rows[i],
            cv,
        ) by {
            assert(init_rows[i] == rows@[i]);
        }
        assert forall|j: int|
            0 <= j < cv.len() && (#[trigger] cv[j]).is_linear_spec() implies input_in_rows(
            cv[j],
            init_rows,
        ) by {
            assert(input_in_rows(cv[j], rows@));
        }
    }

    let mut subs: Vec<Substitution> = Vec::new();
    let mut unusable: Vec<bool> = Vec::new();
    let mut i0: usize = 0;
    while i0 < forbidden.len()
        invariant
            i0 <= forbidden@.len(),
            unusable@.len() == i0,
            forall|j: int| 0 <= j < i0 ==> !(#[trigger] unusable@[j]),
        decreases forbidden@.len() - i0,
    {
        unusable.push(false);
        i0 += 1;
    }
    proof {
        lemma_count_true_all_false(unusable@);
    }
    let mut marked: usize = 0;
    let n_sigs = forbidden.len();

    loop
        invariant
            field.wf(),
            p == field.modulus(),
            nn == forbidden@.len(),
            nn == n_sigs as nat,
            unusable@.len() == forbidden@.len(),
            marked == count_true(unusable@),
            marked <= forbidden@.len(),
            forall|i: int| 0 <= i < rows@.len() ==> norm_terms((#[trigger] rows@[i])@, p),
            forall|i: int| 0 <= i < rows@.len() ==> expr_bounded((#[trigger] rows@[i])@, nn),
            subs_wf(subs@, forbidden@, p),
            forall|i: int| 0 <= i < subs@.len() ==> expr_bounded((#[trigger] subs@[i]).expr@, nn),
            forall|i: int, j: int|
                0 <= i < rows@.len() && 0 <= j < subs@.len() ==> coeff_of(
                    (#[trigger] rows@[i])@,
                    (#[trigger] subs@[j]).signal as nat,
                ) == 0,
            subs@.len() == 0 ==> rows@ == init_rows,
            subs@.len() == 0 ==> forall|x: int|
                0 <= x < unusable@.len() && #[trigger] unusable@[x] ==> gcd_blocked_row(
                    init_rows,
                    x as nat,
                    p,
                ),
        ensures
            subs@.len() == 0 ==> forall|i: int, k: int|
                0 <= i < rows@.len() && 0 <= k < rows@[i]@.len() ==> no_candidate(
                    (#[trigger] rows@[i]@[k]).0,
                    forbidden@,
                    unusable@,
                ),
        decreases rows@.len(), forbidden@.len() - marked,
    {
        let picked = pick_pivot(&rows, forbidden, &unusable, use_old_heuristics);
        match picked {
            None => {
                break;
            },
            Some((pivot, row_idx)) => {
                // read the pivot coefficient and try to invert it
                let k_opt = rows[row_idx].find(pivot);
                match k_opt {
                    None => {
                        // the chosen pivot does occur in its row, so a sorted
                        // search cannot miss it
                        proof {
                            let kk = choose|kk: int|
                                0 <= kk < rows@[row_idx as int]@.len() && (
                                #[trigger] rows@[row_idx as int]@[kk]).0 == pivot as nat;
                            assert(false);
                        }
                        proof {
                            lemma_count_true_update(unusable@, pivot as int);
                        }
                        unusable.set(pivot, true);
                        proof {
                            lemma_count_true_le(unusable@);
                        }
                        marked = marked + 1;
                    },
                    Some(term_idx) => {
                        let k = crate::algebra::clone_bytes(&rows[row_idx].terms[term_idx].coeff);
                        proof {
                            assert(rows@[row_idx as int]@[term_idx as int].1 == k@);
                        }
                        match field.inv(&k) {
                            None => {
                                // no inverse: this signal cannot be solved for
                                proof {
                                    lemma_count_true_update(unusable@, pivot as int);
                                }
                                let ghost unusable_before = unusable@;
                                unusable.set(pivot, true);
                                proof {
                                    lemma_count_true_le(unusable@);
                                    if subs@.len() == 0 {
                                        assert(coeff_of(rows@[row_idx as int]@, pivot as nat)
                                            == le_val(k@));
                                        assert(le_val(k@) != 0);
                                        assert(crate::field::spec_gcd(le_val(k@), p) != 1);
                                        assert(gcd_blocked_row(init_rows, pivot as nat, p)) by {
                                            assert(rows@[row_idx as int] == init_rows[row_idx as int]);
                                        }
                                        assert forall|x: int|
                                            0 <= x < unusable@.len()
                                                && #[trigger] unusable@[x] implies gcd_blocked_row(
                                            init_rows,
                                            x as nat,
                                            p,
                                        ) by {
                                            if x != pivot {
                                                assert(unusable_before[x]);
                                            }
                                        }
                                    }
                                }
                                marked = marked + 1;
                            },
                            Some(kinv) => {
                                let zero: Vec<u8> = Vec::new();
                                let minus_inv = field.sub(&zero, &kinv);
                                let row = rows.remove(row_idx);
                                let e = solve_row(&row, pivot, &minus_inv, field);
                                proof {
                                    lemma_coeff_of_present(row@, term_idx as int);
                                    assert(coeff_of(row@, pivot as nat) == le_val(k@));
                                    assert(le_val(k@) > 0);
                                }
                                let sub = Substitution { signal: pivot, expr: e };
                                proof {
                                    assert(sub.wf(p));
                                    // the pivot differs from every recorded source
                                    assert forall|j: int|
                                        0 <= j < subs@.len() implies (#[trigger] subs@[j]).signal
                                        != pivot by {
                                        assert(coeff_of(row@, subs@[j].signal as nat) == 0);
                                    }
                                    // the replacement carries no recorded source
                                    assert forall|j: int|
                                        0 <= j < subs@.len() implies coeff_of(
                                        sub.expr@,
                                        (#[trigger] subs@[j]).signal as nat,
                                    ) == 0 by {
                                        assert(coeff_of(row@, subs@[j].signal as nat) == 0);
                                        assert(le_val(minus_inv@) * 0 == 0) by (nonlinear_arith);
                                        vstd::arithmetic::div_mod::lemma_small_mod(0, p);
                                    }
                                    assert(expr_bounded(sub.expr@, nn)) by {
                                        assert forall|s: nat| s >= nn implies #[trigger] coeff_of(
                                            sub.expr@,
                                            s,
                                        ) == 0 by {
                                            if s != pivot as nat {
                                                assert(coeff_of(row@, s) == 0);
                                                assert(le_val(minus_inv@) * 0 == 0)
                                                    by (nonlinear_arith);
                                                vstd::arithmetic::div_mod::lemma_small_mod(0, p);
                                            }
                                        }
                                    }
                                }
                                // eliminate the pivot from the remaining rows
                                let ghost old_subs = subs@;
                                let mut new_rows: Vec<LinearExpr> = Vec::new();
                                let ghost old_rows = rows@;
                                while rows.len() > 0
                                    invariant
                                        field.wf(),
                                        p == field.modulus(),
                                        nn == forbidden@.len(),
                                        sub.wf(p),
                                        sub.signal == pivot,
                                        (pivot as nat) < nn,
                                        expr_bounded(sub.expr@, nn),
                                        subs@ == old_subs,
                                        subs_wf(old_subs, forbidden@, p),
                                        forall|i: int|
                                            0 <= i < old_subs.len() ==> coeff_of(
                                                sub.expr@,
                                                (#[trigger] old_subs[i]).signal as nat,
                                            ) == 0,
                                        new_rows@.len() + rows@.len() == old_rows.len(),
                                        forall|i: int|
                                            0 <= i < rows@.len() ==> (#[trigger] rows@[i])
                                                == old_rows[new_rows@.len() + i],
                                        forall|i: int|
                                            0 <= i < old_rows.len() ==> norm_terms(
                                                (#[trigger] old_rows[i])@,
                                                p,
                                            ),
                                        forall|i: int|
                                            0 <= i < old_rows.len() ==> expr_bounded(
                                                (#[trigger] old_rows[i])@,
                                                nn,
                                            ),
                                        forall|i: int, j: int|
                                            0 <= i < old_rows.len() && 0 <= j < old_subs.len()
                                                ==> coeff_of(
                                                (#[trigger] old_rows[i])@,
                                                (#[trigger] old_subs[j]).signal as nat,
                                            ) == 0,
                                        forall|i: int|
                                            0 <= i < new_rows@.len() ==> norm_terms(
                                                (#[trigger] new_rows@[i])@,
                                                p,
                                            ),
                                        forall|i: int|
                                            0 <= i < new_rows@.len() ==> expr_bounded(
                                                (#[trigger] new_rows@[i])@,
                                                nn,
                                            ),
                                        forall|i: int, j: int|
                                            0 <= i < new_rows@.len() && 0 <= j < old_subs.len()
                                                ==> coeff_of(
                                                (#[trigger] new_rows@[i])@,
                                                (#[trigger] old_subs[j]).signal as nat,
                                            ) == 0,
                                        forall|i: int|
                                            0 <= i < new_rows@.len() ==> coeff_of(
                                                (#[trigger] new_rows@[i])@,
                                                pivot as nat,
                                            ) == 0,
                                    decreases rows@.len(),
                                {
                                    let mut r0 = rows.remove(0);
                                    let ghost old_r = r0@;
                                    apply_substitution_expr(&mut r0, &sub, field);
                                    proof {
                                        assert forall|j: int|
                                            0 <= j < old_subs.len() implies coeff_of(
                                            r0@,
                                            (#[trigger] old_subs[j]).signal as nat,
                                        ) == 0 by {
                                            let sj = old_subs[j].signal as nat;
                                            if sj != pivot as nat {
                                                assert(coeff_of(old_r, sj) == 0);
                                                assert(coeff_of(sub.expr@, sj) == 0);
                                                assert(coeff_of(old_r, pivot as nat) * 0 == 0)
                                                    by (nonlinear_arith);
                                                vstd::arithmetic::div_mod::lemma_small_mod(0, p);
                                            }
                                        }
                                        assert(expr_bounded(r0@, nn)) by {
                                            assert forall|x: nat| x >= nn implies #[trigger] coeff_of(
                                                r0@,
                                                x,
                                            ) == 0 by {
                                                assert(x != pivot as nat);
                                                assert(coeff_of(old_r, x) == 0);
                                                assert(coeff_of(sub.expr@, x) == 0);
                                                assert(coeff_of(old_r, pivot as nat) * 0 == 0)
                                                    by (nonlinear_arith);
                                                vstd::arithmetic::div_mod::lemma_small_mod(0, p);
                                            }
                                        }
                                    }
                                    new_rows.push(r0);
                                }
                                rows = new_rows;
                                // rewrite the replacements already recorded
                                let mut new_subs: Vec<Substitution> = Vec::new();
                                while subs.len() > 0
                                    invariant
                                        field.wf(),
                                        p == field.modulus(),
                                        nn == forbidden@.len(),
                                        sub.wf(p),
                                        sub.signal == pivot,
                                        (pivot as nat) < nn,
                                        !forbidden@[pivot as int],
                                        expr_bounded(sub.expr@, nn),
                                        new_subs@.len() + subs@.len() == old_subs.len(),
                                        forall|i: int|
                                            0 <= i < subs@.len() ==> (#[trigger] subs@[i])
                                                == old_subs[new_subs@.len() + i],
                                        subs_wf(old_subs, forbidden@, p),
                                        forall|i: int|
                                            0 <= i < old_subs.len() ==> (#[trigger] old_subs[i]).signal
                                                != pivot,
                                        forall|i: int|
                                            0 <= i < old_subs.len() ==> coeff_of(
                                                sub.expr@,
                                                (#[trigger] old_subs[i]).signal as nat,
                                            ) == 0,
                                        forall|i: int|
                                            0 <= i < old_subs.len() ==> expr_bounded(
                                                (#[trigger] old_subs[i]).expr@,
                                                nn,
                                            ),
                                        forall|i: int|
                                            0 <= i < new_subs@.len() ==> (#[trigger] new_subs@[i]).signal
                                                == old_subs[i].signal,
                                        forall|i: int|
                                            0 <= i < new_subs@.len() ==> (#[trigger] new_subs@[i]).wf(p),
                                        forall|i: int|
                                            0 <= i < new_subs@.len() ==> expr_bounded(
                                                (#[trigger] new_subs@[i]).expr@,
                                                nn,
                                            ),
                                        forall|i: int, j: int|
                                            0 <= i < new_subs@.len() && 0 <= j < old_subs.len()
                                                ==> coeff_of(
                                                (#[trigger] new_subs@[i]).expr@,
                                                (#[trigger] old_subs[j]).signal as nat,
                                            ) == 0,
                                        forall|i: int|
                                            0 <= i < new_subs@.len() ==> coeff_of(
                                                (#[trigger] new_subs@[i]).expr@,
                                                pivot as nat,
                                            ) == 0,
                                    decreases subs@.len(),
                                {
                                    let mut s0 = subs.remove(0);
                                    let ghost old_expr = s0.expr@;
                                    let ghost s0sig = s0.signal as nat;
                                    apply_substitution_expr(&mut s0.expr, &sub, field);
                                    proof {
                                        let ghost ke = coeff_of(old_expr, pivot as nat);
                                        assert(coeff_of(s0.expr@, s0sig) == 0) by {
                                            assert(s0sig != pivot as nat);
                                            assert(coeff_of(old_expr, s0sig) == 0);
                                            assert(coeff_of(sub.expr@, s0sig) == 0);
                                            assert(ke * 0 == 0) by (nonlinear_arith);
                                            vstd::arithmetic::div_mod::lemma_small_mod(0, p);
                                        }
                                    }
                                    new_subs.push(s0);
                                    proof {
                                        let ni = new_subs@.len() - 1;
                                        assert(new_subs@[ni].signal as nat == s0sig);
                                        assert forall|j: int|
                                            0 <= j < old_subs.len() implies coeff_of(
                                            (#[trigger] new_subs@[ni]).expr@,
                                            old_subs[j].signal as nat,
                                        ) == 0 by {
                                            let sj = old_subs[j].signal as nat;
                                            assert(sj != pivot as nat);
                                            assert(coeff_of(old_expr, sj) == 0);
                                            assert(coeff_of(sub.expr@, sj) == 0);
                                            assert(coeff_of(old_expr, pivot as nat) * 0 == 0)
                                                by (nonlinear_arith);
                                            vstd::arithmetic::div_mod::lemma_small_mod(0, p);
                                        }
                                        assert(coeff_of(new_subs@[ni].expr@, pivot as nat) == 0);
                                        assert(expr_bounded(new_subs@[ni].expr@, nn)) by {
                                            assert forall|x: nat| x >= nn implies #[trigger] coeff_of(
                                                new_subs@[ni].expr@,
                                                x,
                                            ) == 0 by {
                                                assert(x != pivot as nat);
                                                assert(coeff_of(old_expr, x) == 0);
                                                assert(coeff_of(sub.expr@, x) == 0);
                                                assert(coeff_of(old_expr, pivot as nat) * 0 == 0)
                                                    by (nonlinear_arith);
                                                vstd::arithmetic::div_mod::lemma_small_mod(0, p);
                                            }
                                        }
                                        assert(new_subs@[ni].wf(p));
                                    }
                                }
                                new_subs.push(sub);
                                subs = new_subs;
                                proof {
                                    let l = subs@.len();
                                    assert(subs@[l - 1].signal == pivot);
                                    assert(subs_wf(subs@, forbidden@, p)) by {
                                        assert forall|i: int, j: int|
                                            0 <= i < subs@.len() && 0 <= j < subs@.len() && i
                                                != j implies (#[trigger] subs@[i]).signal != (
                                        #[trigger] subs@[j]).signal by {
                                            if i < l - 1 && j < l - 1 {
                                                assert(subs@[i].signal == old_subs[i].signal);
                                                assert(subs@[j].signal == old_subs[j].signal);
                                            } else if i == l - 1 {
                                                assert(subs@[j].signal == old_subs[j].signal);
                                                assert(old_subs[j].signal != pivot);
                                            } else {
                                                assert(subs@[i].signal == old_subs[i].signal);
                                                assert(old_subs[i].signal != pivot);
                                            }
                                        }
                                        assert forall|i: int, j: int|
                                            0 <= i < subs@.len() && 0 <= j
                                                < subs@.len() implies coeff_of(
                                            (#[trigger] subs@[i]).expr@,
                                            (#[trigger] subs@[j]).signal as nat,
                                        ) == 0 by {
                                            if i < l - 1 && j < l - 1 {
                                                assert(subs@[j].signal == old_subs[j].signal);
                                            } else if i == l - 1 && j < l - 1 {
                                                assert(subs@[j].signal == old_subs[j].signal);
                                            } else if i < l - 1 && j == l - 1 {
                                            } else {
                                            }
                                        }
                                    }
                                    assert forall|i: int, j: int|
                                        0 <= i < rows@.len() && 0 <= j < subs@.len() implies coeff_of(
                                        (#[trigger] rows@[i])@,
                                        (#[trigger] subs@[j]).signal as nat,
                                    ) == 0 by {
                                        if j < l - 1 {
                                            assert(subs@[j].signal == old_subs[j].signal);
                                        }
                                    }
                                }
                            },
                        }
                    },
                }
            },
        }
    }

    proof {
        if subs@.len() == 0 {
            assert(rows@ == init_rows);
            assert forall|i: int, k: int|
                0 <= i < init_rows.len() && 0 <= k < init_rows[i]@.len() implies no_candidate(
                (#[trigger] init_rows[i]@[k]).0,
                forbidden@,
                unusable@,
            ) by {
                assert(rows@[i]@[k] == init_rows[i]@[k]);
            }
            lemma_gauss_empty_forcing(cv, init_rows, forbidden@, unusable@, p);
        }
    }

    // rows still standing come back as residual linear constraints; none of
    // them carries any recorded substitution source
    while rows.len() > 0
        invariant
            field.wf(),
            p == field.modulus(),
            nn == forbidden@.len(),
            forall|i: int| 0 <= i < rows@.len() ==> norm_terms((#[trigger] rows@[i])@, p),
            forall|i: int| 0 <= i < rows@.len() ==> expr_bounded((#[trigger] rows@[i])@, nn),
            forall|i: int, j: int|
                0 <= i < rows@.len() && 0 <= j < subs@.len() ==> coeff_of(
                    (#[trigger] rows@[i])@,
                    (#[trigger] subs@[j]).signal as nat,
                ) == 0,
            all_wf(residual@, p),
            all_bounded(residual@, nn),
            forall|i: int, j: int|
                0 <= i < residual@.len() && 0 <= j < subs@.len() && (
                #[trigger] residual@[i]).is_linear_spec() ==> coeff_of(
                    residual@[i].c@,
                    (#[trigger] subs@[j]).signal as nat,
                ) == 0,
        decreases rows@.len(),
    {
        let ghost rv = rows@;
        let row = rows.remove(0);
        proof {
            assert(rv[0] == row);
            assert forall|i: int, j: int|
                0 <= i < rows@.len() && 0 <= j < subs@.len() implies coeff_of(
                (#[trigger] rows@[i])@,
                (#[trigger] subs@[j]).signal as nat,
            ) == 0 by {
                assert(rows@[i] == rv[i + 1]);
            }
        }
        let c = Constraint { a: LinearExpr::empty(), b: LinearExpr::empty(), c: row };
        proof {
            assert(c.a@ =~= Seq::<(nat, Seq<u8>)>::empty());
            assert(c.b@ =~= Seq::<(nat, Seq<u8>)>::empty());
            lemma_bounded_from_terms(c.a@, nn);
            lemma_bounded_from_terms(c.b@, nn);
        }
        residual.push(c);
    }
    (subs, residual)
}

proof fn lemma_count_true_all_false(s: Seq<bool>)
    requires
        forall|i: int| 0 <= i < s.len() ==> !(#[trigger] s[i]),
    ensures
        count_true(s) == 0,
    decreases s.len(),
{
    if s.len() > 0 {
        lemma_count_true_all_false(s.subrange(1, s.len() as int));
    }
}

} // verus!
