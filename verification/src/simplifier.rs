//! The iterative simplification pipeline.
//!
//! The driver runs the named phases in order: single-assignment (pure
//! equalities), constant-assignment, relevance recomputation, the optional
//! linear phase, materialization of the deferred non-linear constraints, up
//! to the configured number of additional linear rounds, a flush of whatever
//! is left, dead-constraint removal, and the witness rebuild. Substitution
//! application degrades gracefully: an unsolvable cluster merely yields
//! fewer substitutions, never an error. A signal is substituted at most
//! once, ever: a substitution whose source was already eliminated is dropped
//! when results are collected.

use vstd::prelude::*;

use crate::algebra::{coeff_of, expr_bounded, lemma_subst_coeff_zero, Constraint, Substitution};
use crate::clusters::{build_clusters, take_cloned_signals};
use crate::dag::{lemma_below_from_bounded, CHolder, Dag, Encoding, SimplificationFlags};
use crate::field::Field;
use crate::solver::{all_bounded, all_wf, constant_eq_simplification, eq_cluster_simplification,
    full_simplification, subs_bounded, subs_wf};

verus! {

/// What the driver knows of every substitution it carries: well formed, a
/// non-forbidden source below the signal space, a bounded replacement, and a
/// source already marked deleted (so no signal is ever substituted twice).
pub open spec fn dsubs_ok(
    subs: Seq<Substitution>,
    forbidden: Seq<bool>,
    deleted: Seq<bool>,
    p: nat,
    n: nat,
) -> bool {
    &&& forall|i: int| 0 <= i < subs.len() ==> (#[trigger] subs[i]).wf(p)
    &&& forall|i: int|
        0 <= i < subs.len() ==> ((#[trigger] subs[i]).signal as nat) < forbidden.len()
            && !forbidden[subs[i].signal as int]
    &&& forall|i: int| 0 <= i < subs.len() ==> expr_bounded((#[trigger] subs[i]).expr@, n)
    &&& forall|i: int|
        0 <= i < subs.len() ==> ((#[trigger] subs[i]).signal as int) < deleted.len() && deleted[(
        subs[i]).signal as int]
}

/// Deleted signals are never forbidden.
pub open spec fn deleted_ok(deleted: Seq<bool>, forbidden: Seq<bool>) -> bool {
    &&& deleted.len() == forbidden.len()
    &&& forall|s: int| 0 <= s < deleted.len() && #[trigger] deleted[s] ==> !forbidden[s]
}


/// The trace facts the driver maintains: every logged substitution is well
/// formed with a non-forbidden source, every source is marked eliminated,
/// and no source repeats — a signal is substituted at most once, ever.
pub open spec fn trace_ok(
    trace: Seq<Substitution>,
    forbidden: Seq<bool>,
    deleted: Seq<bool>,
    p: nat,
) -> bool {
    &&& forall|i: int|
        0 <= i < trace.len() ==> (#[trigger] trace[i]).wf(p) && ((trace[i].signal as nat)
            < forbidden.len()) && !forbidden[trace[i].signal as int] && (trace[i].signal as int)
            < deleted.len() && deleted[trace[i].signal as int]
    &&& forall|i: int, j: int|
        0 <= i < trace.len() && 0 <= j < trace.len() && i != j ==> (#[trigger] trace[i]).signal
            != (#[trigger] trace[j]).signal
}

/// Logging a freshly collected batch keeps the trace facts: the batch's
/// sources are new (undeleted before the batch was collected), distinct, and
/// marked afterwards.
proof fn lemma_trace_extend(
    trace0: Seq<Substitution>,
    trace1: Seq<Substitution>,
    batch: Seq<Substitution>,
    forbidden: Seq<bool>,
    deleted_pre: Seq<bool>,
    deleted_post: Seq<bool>,
    p: nat,
)
    requires
        trace_ok(trace0, forbidden, deleted_pre, p),
        deleted_pre.len() == deleted_post.len(),
        forall|s: int| 0 <= s < deleted_pre.len() && (#[trigger] deleted_pre[s]) ==> deleted_post[s],
        dsubs_ok(batch, forbidden, deleted_post, p, forbidden.len() as nat),
        forall|i: int, j: int|
            0 <= i < batch.len() && 0 <= j < batch.len() && i != j ==> (#[trigger] batch[i]).signal
                != (#[trigger] batch[j]).signal,
        forall|i: int|
            0 <= i < batch.len() ==> !deleted_pre[(#[trigger] batch[i]).signal as int],
        trace1.len() == trace0.len() + batch.len(),
        forall|i: int| 0 <= i < trace0.len() ==> (#[trigger] trace1[i]) == trace0[i],
        forall|k: int|
            0 <= k < batch.len() ==> (#[trigger] trace1[trace0.len() + k]).signal
                == batch[k].signal && trace1[trace0.len() + k].expr@ == batch[k].expr@,
    ensures
        trace_ok(trace1, forbidden, deleted_post, p),
{
    assert forall|i: int| 0 <= i < trace1.len() implies (#[trigger] trace1[i]).wf(p) && ((
    trace1[i].signal as nat) < forbidden.len()) && !forbidden[trace1[i].signal as int] && (
    trace1[i].signal as int) < deleted_post.len() && deleted_post[trace1[i].signal as int] by {
        if i < trace0.len() {
            assert(trace1[i] == trace0[i]);
        } else {
            let k = i - trace0.len();
            assert(trace1[trace0.len() + k].signal == batch[k].signal && trace1[trace0.len()
                + k].expr@ == batch[k].expr@);
            assert(trace0.len() + k == i);
            assert(batch[k].wf(p));
        }
    }
    assert forall|i: int, j: int|
        0 <= i < trace1.len() && 0 <= j < trace1.len() && i != j implies (
    #[trigger] trace1[i]).signal != (#[trigger] trace1[j]).signal by {
        if i < trace0.len() && j < trace0.len() {
            assert(trace1[i] == trace0[i] && trace1[j] == trace0[j]);
        } else if i < trace0.len() && j >= trace0.len() {
            let k = j - trace0.len();
            assert(trace1[i] == trace0[i]);
            assert(deleted_pre[trace0[i].signal as int]);
            assert(trace1[trace0.len() + k].signal == batch[k].signal);
            assert(trace0.len() + k == j);
            assert(!deleted_pre[batch[k].signal as int]);
        } else if i >= trace0.len() && j < trace0.len() {
            let k = i - trace0.len();
            assert(trace1[j] == trace0[j]);
            assert(deleted_pre[trace0[j].signal as int]);
            assert(trace1[trace0.len() + k].signal == batch[k].signal);
            assert(trace0.len() + k == i);
            assert(!deleted_pre[batch[k].signal as int]);
        } else {
            let ki = i - trace0.len();
            let kj = j - trace0.len();
            assert(trace1[trace0.len() + ki].signal == batch[ki].signal);
            assert(trace1[trace0.len() + kj].signal == batch[kj].signal);
            assert(trace0.len() + ki == i && trace0.len() + kj == j);
        }
    }
}

/// Collects one solver batch into the running substitution list: a source
/// already eliminated is dropped (defensive enforcement of at-most-once),
/// every kept source is marked deleted.
fn collect_substitutions(
    acc: &mut Vec<Substitution>,
    batch: Vec<Substitution>,
    deleted: &mut Vec<bool>,
    forbidden: &Vec<bool>,
    f: &Field,
)
    requires
        f.wf(),
        forall|i: int| 0 <= i < batch@.len() ==> (#[trigger] batch@[i]).wf(f.modulus()),
        forall|i: int|
            0 <= i < batch@.len() ==> ((#[trigger] batch@[i]).signal as nat) < forbidden@.len()
                && !forbidden@[batch@[i].signal as int],
        subs_bounded(batch@, forbidden@.len() as nat),
        dsubs_ok(old(acc)@, forbidden@, old(deleted)@, f.modulus(), forbidden@.len() as nat),
        deleted_ok(old(deleted)@, forbidden@),
        forall|i: int, j: int|
            0 <= i < old(acc)@.len() && 0 <= j < old(acc)@.len() && i != j ==> (
            #[trigger] old(acc)@[i]).signal != (#[trigger] old(acc)@[j]).signal,
    ensures
        dsubs_ok(final(acc)@, forbidden@, final(deleted)@, f.modulus(), forbidden@.len() as nat),
        deleted_ok(final(deleted)@, forbidden@),
        final(deleted)@.len() == old(deleted)@.len(),
        forall|s: int|
            0 <= s < old(deleted)@.len() && (#[trigger] old(deleted)@[s]) ==> final(deleted)@[s],
        final(acc)@.len() >= old(acc)@.len(),
        forall|i: int| 0 <= i < old(acc)@.len() ==> (#[trigger] final(acc)@[i]) == old(acc)@[i],
        forall|i: int, j: int|
            0 <= i < final(acc)@.len() && 0 <= j < final(acc)@.len() && i != j ==> (
            #[trigger] final(acc)@[i]).signal != (#[trigger] final(acc)@[j]).signal,
        forall|i: int|
            old(acc)@.len() <= i < final(acc)@.len() ==> !old(deleted)@[(
            #[trigger] final(acc)@[i]).signal as int],
{
    let ghost p = f.modulus();
    let ghost nn = forbidden@.len() as nat;
    let mut work = batch;
    while work.len() > 0
        invariant
            f.wf(),
            p == f.modulus(),
            nn == forbidden@.len(),
            forall|i: int| 0 <= i < work@.len() ==> (#[trigger] work@[i]).wf(p),
            forall|i: int|
                0 <= i < work@.len() ==> ((#[trigger] work@[i]).signal as nat) < forbidden@.len()
                    && !forbidden@[work@[i].signal as int],
            subs_bounded(work@, nn),
            dsubs_ok(acc@, forbidden@, deleted@, p, nn),
            deleted_ok(deleted@, forbidden@),
            deleted@.len() == old(deleted)@.len(),
            forall|s: int|
                0 <= s < old(deleted)@.len() && (#[trigger] old(deleted)@[s]) ==> deleted@[s],
            acc@.len() >= old(acc)@.len(),
            forall|i: int| 0 <= i < old(acc)@.len() ==> (#[trigger] acc@[i]) == old(acc)@[i],
            forall|i: int, j: int|
                0 <= i < acc@.len() && 0 <= j < acc@.len() && i != j ==> (
                #[trigger] acc@[i]).signal != (#[trigger] acc@[j]).signal,
            forall|i: int|
                old(acc)@.len() <= i < acc@.len() ==> !old(deleted)@[(
                #[trigger] acc@[i]).signal as int],
        decreases work@.len(),
    {
        let ghost wv = work@;
        let sub = work.remove(0);
        proof {
            assert(wv[0] == sub);
            assert forall|i: int| 0 <= i < work@.len() implies (#[trigger] work@[i]).wf(p) && ((
            work@[i].signal as nat) < forbidden@.len()) && !forbidden@[work@[i].signal as int]
                && expr_bounded(work@[i].expr@, nn) by {
                assert(work@[i] == wv[i + 1]);
            }
        }
        if !deleted[sub.signal] {
            let ghost acc_before = acc@;
            let ghost sig = sub.signal;
            deleted.set(sub.signal, true);
            acc.push(sub);
            proof {
                assert forall|i: int, j: int|
                    0 <= i < acc@.len() && 0 <= j < acc@.len() && i != j implies (
                #[trigger] acc@[i]).signal != (#[trigger] acc@[j]).signal by {
                    if i == acc@.len() - 1 {
                        assert(acc@[j] == acc_before[j]);
                        assert(deleted@[acc_before[j].signal as int]);
                    } else if j == acc@.len() - 1 {
                        assert(acc@[i] == acc_before[i]);
                        assert(deleted@[acc_before[i].signal as int]);
                    } else {
                        assert(acc@[i] == acc_before[i] && acc@[j] == acc_before[j]);
                    }
                }
            }
        }
    }
}

/// Applies every substitution of the list to every constraint, keeping the
/// constraints well formed and bounded.
fn apply_subs_to_constraints(
    cs: Vec<Constraint>,
    subs: &Vec<Substitution>,
    f: &Field,
    bound: Ghost<nat>,
) -> (r: Vec<Constraint>)
    requires
        f.wf(),
        all_wf(cs@, f.modulus()),
        all_bounded(cs@, bound@),
        forall|i: int| 0 <= i < subs@.len() ==> (#[trigger] subs@[i]).wf(f.modulus()),
        forall|i: int| 0 <= i < subs@.len() ==> expr_bounded((#[trigger] subs@[i]).expr@, bound@),
    ensures
        all_wf(r@, f.modulus()),
        all_bounded(r@, bound@),
        r@.len() == cs@.len(),
{
    let ghost p = f.modulus();
    let mut out: Vec<Constraint> = Vec::new();
    let mut work = cs;
    let ghost total = work@.len();
    while work.len() > 0
        invariant
            f.wf(),
            p == f.modulus(),
            all_wf(work@, p),
            all_bounded(work@, bound@),
            all_wf(out@, p),
            all_bounded(out@, bound@),
            out@.len() + work@.len() == total,
            forall|i: int| 0 <= i < subs@.len() ==> (#[trigger] subs@[i]).wf(p),
            forall|i: int| 0 <= i < subs@.len() ==> expr_bounded((#[trigger] subs@[i]).expr@, bound@),
        decreases work@.len(),
    {
        let mut c = work.remove(0);
        let c2 = apply_all_subs(c, subs, f, bound);
        out.push(c2);
    }
    out
}

/// Applies every substitution of the list to one constraint.
fn apply_all_subs(c: Constraint, subs: &Vec<Substitution>, f: &Field, bound: Ghost<nat>) -> (r:
    Constraint)
    requires
        f.wf(),
        c.wf(f.modulus()),
        expr_bounded(c.a@, bound@),
        expr_bounded(c.b@, bound@),
        expr_bounded(c.c@, bound@),
        forall|i: int| 0 <= i < subs@.len() ==> (#[trigger] subs@[i]).wf(f.modulus()),
        forall|i: int| 0 <= i < subs@.len() ==> expr_bounded((#[trigger] subs@[i]).expr@, bound@),
    ensures
        r.wf(f.modulus()),
        expr_bounded(r.a@, bound@),
        expr_bounded(r.b@, bound@),
        expr_bounded(r.c@, bound@),
{
    let ghost p = f.modulus();
    let mut c = c;
    let n = subs.len();
    let mut i: usize = 0;
    while i < n
        invariant
            i <= n,
            n == subs@.len(),
            f.wf(),
            p == f.modulus(),
            c.wf(p),
            expr_bounded(c.a@, bound@),
            expr_bounded(c.b@, bound@),
            expr_bounded(c.c@, bound@),
            forall|k: int| 0 <= k < subs@.len() ==> (#[trigger] subs@[k]).wf(p),
            forall|k: int| 0 <= k < subs@.len() ==> expr_bounded((#[trigger] subs@[k]).expr@, bound@),
        decreases n - i,
    {
        let ghost olda = c.a@;
        let ghost oldb = c.b@;
        let ghost oldc = c.c@;
        let sub = &subs[i];
        c.apply_substitution(sub, f);
        proof {
            assert forall|s: nat| s >= bound@ implies #[trigger] coeff_of(c.a@, s) == 0 by {
                lemma_subst_coeff_zero(olda, sub.signal as nat, sub.expr@, s, p);
            }
            assert forall|s: nat| s >= bound@ implies #[trigger] coeff_of(c.b@, s) == 0 by {
                lemma_subst_coeff_zero(oldb, sub.signal as nat, sub.expr@, s, p);
            }
            assert forall|s: nat| s >= bound@ implies #[trigger] coeff_of(c.c@, s) == 0 by {
                lemma_subst_coeff_zero(oldc, sub.signal as nat, sub.expr@, s, p);
            }
        }
        i += 1;
    }
    c
}

/// Runs one equality-phase pass: clusters the pure equalities and solves
/// each cluster in dispatch order, collecting the results keyed by cluster
/// index so the outcome does not depend on completion order.
fn eq_simplification(
    equalities: Vec<Constraint>,
    forbidden: &Vec<bool>,
    f: &Field,
) -> (r: (Vec<Substitution>, Vec<Constraint>))
    requires
        f.wf(),
        all_wf(equalities@, f.modulus()),
        all_bounded(equalities@, forbidden@.len() as nat),
    ensures
        forall|i: int| 0 <= i < r.0@.len() ==> (#[trigger] r.0@[i]).wf(f.modulus()),
        forall|i: int|
            0 <= i < r.0@.len() ==> ((#[trigger] r.0@[i]).signal as nat) < forbidden@.len()
                && !forbidden@[r.0@[i].signal as int],
        subs_bounded(r.0@, forbidden@.len() as nat),
        all_wf(r.1@, f.modulus()),
        all_bounded(r.1@, forbidden@.len() as nat),
{
    let ghost p = f.modulus();
    let ghost nn = forbidden@.len() as nat;
    proof {
        assert forall|i: int| 0 <= i < equalities@.len() implies crate::clusters::signals_below(
            (#[trigger] equalities@[i])@,
            nn,
        ) by {
            lemma_below_from_bounded(equalities@[i], p, nn);
        }
    }
    let clusters = build_clusters(equalities, forbidden.len());
    let mut subs: Vec<Substitution> = Vec::new();
    let mut cons: Vec<Constraint> = Vec::new();
    let mut work = clusters;
    while work.len() > 0
        invariant
            f.wf(),
            p == f.modulus(),
            nn == forbidden@.len(),
            forall|k: int, i: int|
                0 <= k < work@.len() && 0 <= i < (#[trigger] work@[k]).constraints@.len() ==> (
                #[trigger] work@[k].constraints@[i]).wf(p) && crate::clusters::signals_below(
                    work@[k].constraints@[i]@,
                    nn,
                ),
            forall|i: int| 0 <= i < subs@.len() ==> (#[trigger] subs@[i]).wf(p),
            forall|i: int|
                0 <= i < subs@.len() ==> ((#[trigger] subs@[i]).signal as nat) < forbidden@.len()
                    && !forbidden@[subs@[i].signal as int],
            subs_bounded(subs@, nn),
            all_wf(cons@, p),
            all_bounded(cons@, nn),
        decreases work@.len(),
    {
        let ghost wv = work@;
        let cluster = work.remove(0);
        proof {
            assert forall|k: int, i: int|
                0 <= k < work@.len() && 0 <= i < (#[trigger] work@[k]).constraints@.len() implies (
            #[trigger] work@[k].constraints@[i]).wf(p) && crate::clusters::signals_below(
                work@[k].constraints@[i]@,
                nn,
            ) by {
                assert(work@[k] == wv[k + 1]);
            }
            assert(all_wf(cluster.constraints@, p)) by {
                assert forall|i: int|
                    0 <= i < cluster.constraints@.len() implies (
                #[trigger] cluster.constraints@[i]).wf(p) by {
                    assert(wv[0] == cluster);
                }
            }
            assert forall|i: int|
                0 <= i < cluster.constraints@.len() implies crate::clusters::signals_below(
                (#[trigger] cluster.constraints@[i])@,
                nn,
            ) by {
                assert(wv[0] == cluster);
            }
        }
        let (csubs, ccons) = eq_cluster_simplification(cluster, forbidden, f);
        let ghost sv = subs@;
        let ghost csv = csubs@;
        let ghost cv = cons@;
        let ghost ccv = ccons@;
        append_subs(&mut subs, csubs);
        append_constraints(&mut cons, ccons);
        proof {
            lemma_batch_props(sv, csv, subs@, forbidden@, p, nn);
            lemma_batch_cons(cv, ccv, cons@, p, nn);
        }
    }
    (subs, cons)
}

/// Runs one linear-phase pass: clusters the linear constraints and performs
/// Gaussian elimination on each cluster in dispatch order.
fn linear_simplification(
    linear: Vec<Constraint>,
    forbidden: &Vec<bool>,
    f: &Field,
    use_old_heuristics: bool,
) -> (r: (Vec<Substitution>, Vec<Constraint>))
    requires
        f.wf(),
        all_wf(linear@, f.modulus()),
        all_bounded(linear@, forbidden@.len() as nat),
    ensures
        forall|i: int| 0 <= i < r.0@.len() ==> (#[trigger] r.0@[i]).wf(f.modulus()),
        forall|i: int|
            0 <= i < r.0@.len() ==> ((#[trigger] r.0@[i]).signal as nat) < forbidden@.len()
                && !forbidden@[r.0@[i].signal as int],
        subs_bounded(r.0@, forbidden@.len() as nat),
        all_wf(r.1@, f.modulus()),
        all_bounded(r.1@, forbidden@.len() as nat),
{
    let ghost p = f.modulus();
    let ghost nn = forbidden@.len() as nat;
    proof {
        assert forall|i: int| 0 <= i < linear@.len() implies crate::clusters::signals_below(
            (#[trigger] linear@[i])@,
            nn,
        ) by {
            lemma_below_from_bounded(linear@[i], p, nn);
        }
    }
    let clusters = build_clusters(linear, forbidden.len());
    let mut subs: Vec<Substitution> = Vec::new();
    let mut cons: Vec<Constraint> = Vec::new();
    let mut work = clusters;
    while work.len() > 0
        invariant
            f.wf(),
            p == f.modulus(),
            nn == forbidden@.len(),
            forall|k: int, i: int|
                0 <= k < work@.len() && 0 <= i < (#[trigger] work@[k]).constraints@.len() ==> (
                #[trigger] work@[k].constraints@[i]).wf(p) && crate::clusters::signals_below(
                    work@[k].constraints@[i]@,
                    nn,
                ),
            forall|i: int| 0 <= i < subs@.len() ==> (#[trigger] subs@[i]).wf(p),
            forall|i: int|
                0 <= i < subs@.len() ==> ((#[trigger] subs@[i]).signal as nat) < forbidden@.len()
                    && !forbidden@[subs@[i].signal as int],
            subs_bounded(subs@, nn),
            all_wf(cons@, p),
            all_bounded(cons@, nn),
        decreases work@.len(),
    {
        let ghost wv = work@;
        let cluster = work.remove(0);
        proof {
            assert forall|k: int, i: int|
                0 <= k < work@.len() && 0 <= i < (#[trigger] work@[k]).constraints@.len() implies (
            #[trigger] work@[k].constraints@[i]).wf(p) && crate::clusters::signals_below(
                work@[k].constraints@[i]@,
                nn,
            ) by {
                assert(work@[k] == wv[k + 1]);
            }
            assert(all_wf(cluster.constraints@, p)) by {
                assert forall|i: int|
                    0 <= i < cluster.constraints@.len() implies (
                #[trigger] cluster.constraints@[i]).wf(p) by {
                    assert(wv[0] == cluster);
                }
            }
            assert forall|i: int|
                0 <= i < cluster.constraints@.len() implies crate::clusters::signals_below(
                (#[trigger] cluster.constraints@[i])@,
                nn,
            ) by {
                assert(wv[0] == cluster);
            }
        }
        let (csubs, ccons) = full_simplification(cluster.constraints, forbidden, f, use_old_heuristics);
        let ghost sv = subs@;
        let ghost csv = csubs@;
        let ghost cv = cons@;
        let ghost ccv = ccons@;
        append_subs(&mut subs, csubs);
        append_constraints(&mut cons, ccons);
        proof {
            lemma_batch_props(sv, csv, subs@, forbidden@, p, nn);
            lemma_batch_cons(cv, ccv, cons@, p, nn);
        }
    }
    (subs, cons)
}

/// Appends solver substitutions, keeping the per-item facts.
fn append_subs(acc: &mut Vec<Substitution>, more: Vec<Substitution>)
    ensures
        final(acc)@ == old(acc)@ + more@,
{
    let mut more = more;
    let ghost mv = more@;
    let ghost base = old(acc)@;
    let total = more.len();
    let mut moved_count: usize = 0;
    while more.len() > 0
        invariant
            acc@ == base + mv.subrange(0, moved_count as int),
            moved_count + more@.len() == total,
            total == mv.len(),
            forall|i: int| 0 <= i < more@.len() ==> (#[trigger] more@[i]) == mv[moved_count + i],
        decreases more@.len(),
    {
        let ghost before = acc@;
        let s0 = more.remove(0);
        acc.push(s0);
        proof {
            assert(acc@ =~= base + mv.subrange(0, moved_count + 1));
        }
        moved_count += 1;
    }
    proof {
        assert(mv.subrange(0, mv.len() as int) =~= mv);
    }
}

/// Appends solver residual constraints.
fn append_constraints(acc: &mut Vec<Constraint>, more: Vec<Constraint>)
    ensures
        final(acc)@ == old(acc)@ + more@,
{
    let mut more = more;
    let ghost mv = more@;
    let ghost base = old(acc)@;
    let total = more.len();
    let mut moved_count: usize = 0;
    while more.len() > 0
        invariant
            acc@ == base + mv.subrange(0, moved_count as int),
            moved_count + more@.len() == total,
            total == mv.len(),
            forall|i: int| 0 <= i < more@.len() ==> (#[trigger] more@[i]) == mv[moved_count + i],
        decreases more@.len(),
    {
        let s0 = more.remove(0);
        acc.push(s0);
        proof {
            assert(acc@ =~= base + mv.subrange(0, moved_count + 1));
        }
        moved_count += 1;
    }
    proof {
        assert(mv.subrange(0, mv.len() as int) =~= mv);
    }
}

/// Concatenating a solver batch keeps the per-item substitution facts.
proof fn lemma_batch_props(
    a: Seq<Substitution>,
    b: Seq<Substitution>,
    whole: Seq<Substitution>,
    forbidden: Seq<bool>,
    p: nat,
    n: nat,
)
    requires
        whole == a + b,
        forall|i: int| 0 <= i < a.len() ==> (#[trigger] a[i]).wf(p),
        forall|i: int|
            0 <= i < a.len() ==> ((#[trigger] a[i]).signal as nat) < forbidden.len() && !forbidden[a[i].signal as int],
        subs_bounded(a, n),
        subs_wf(b, forbidden, p),
        subs_bounded(b, n),
    ensures
        forall|i: int| 0 <= i < whole.len() ==> (#[trigger] whole[i]).wf(p),
        forall|i: int|
            0 <= i < whole.len() ==> ((#[trigger] whole[i]).signal as nat) < forbidden.len()
                && !forbidden[whole[i].signal as int],
        subs_bounded(whole, n),
{
    assert forall|i: int| 0 <= i < whole.len() implies (#[trigger] whole[i]).wf(p) && ((
    whole[i].signal as nat) < forbidden.len()) && !forbidden[whole[i].signal as int]
        && expr_bounded(whole[i].expr@, n) by {
        if i < a.len() {
            assert(whole[i] == a[i]);
        } else {
            assert(whole[i] == b[i - a.len()]);
        }
    }
}

/// Concatenating a residual batch keeps well-formedness and bounds.
proof fn lemma_batch_cons(
    a: Seq<Constraint>,
    b: Seq<Constraint>,
    whole: Seq<Constraint>,
    p: nat,
    n: nat,
)
    requires
        whole == a + b,
        all_wf(a, p),
        all_bounded(a, n),
        all_wf(b, p),
        all_bounded(b, n),
    ensures
        all_wf(whole, p),
        all_bounded(whole, n),
{
    assert forall|i: int| 0 <= i < whole.len() implies (#[trigger] whole[i]).wf(p) && expr_bounded(
        whole[i].a@,
        n,
    ) && expr_bounded(whole[i].b@, n) && expr_bounded(whole[i].c@, n) by {
        if i < a.len() {
            assert(whole[i] == a[i]);
        } else {
            assert(whole[i] == b[i - a.len()]);
        }
    }
}

/// The indexed, appendable container of final constraints.
pub struct ConstraintStorage {
    pub constraints: Vec<Constraint>,
}

impl ConstraintStorage {
    pub fn new() -> (r: ConstraintStorage)
        ensures
            r.constraints@.len() == 0,
    {
        ConstraintStorage { constraints: Vec::new() }
    }

    /// Appends a constraint and returns its id.
    pub fn add_constraint(&mut self, c: Constraint) -> (id: usize)
        ensures
            final(self).constraints@ == old(self).constraints@.push(c),
            id == old(self).constraints@.len(),
    {
        let id = self.constraints.len();
        self.constraints.push(c);
        id
    }

    pub fn read_constraint(&self, id: usize) -> (r: &Constraint)
        requires
            id < self.constraints@.len(),
        ensures
            *r == self.constraints@[id as int],
    {
        &self.constraints[id]
    }

    pub fn get_no_constraints(&self) -> (r: usize)
        ensures
            r == self.constraints@.len(),
    {
        self.constraints.len()
    }

    /// Removes the trivial constraints: the empty ones and the constant-only
    /// ones (the `0 = 0` shapes); everything kept comes from the old store.
    pub fn remove_trivial(self, f: &Field, bound: Ghost<nat>) -> (r: ConstraintStorage)
        requires
            f.wf(),
            all_wf(self.constraints@, f.modulus()),
            all_bounded(self.constraints@, bound@),
        ensures
            all_wf(r.constraints@, f.modulus()),
            all_bounded(r.constraints@, bound@),
            forall|i: int|
                0 <= i < r.constraints@.len() ==> !(
                #[trigger] r.constraints@[i]).is_constant_only_spec(),
            forall|i: int|
                0 <= i < r.constraints@.len() ==> crate::clusters::in_views(
                    (#[trigger] r.constraints@[i])@,
                    self.constraints@,
                ),
    {
        let ghost p = f.modulus();
        let ghost nn = bound@;
        let ghost orig = self.constraints@;
        let mut kept: Vec<Constraint> = Vec::new();
        let mut work: Vec<Constraint> = self.constraints;
        proof {
            assert forall|i: int| 0 <= i < work@.len() implies crate::clusters::in_views(
                (#[trigger] work@[i])@,
                orig,
            ) by {
                assert(work@[i]@ == orig[i]@);
            }
        }
        while work.len() > 0
            invariant
                f.wf(),
                p == f.modulus(),
                nn == bound@,
                all_wf(work@, p),
                all_bounded(work@, nn),
                all_wf(kept@, p),
                all_bounded(kept@, nn),
                forall|i: int|
                    0 <= i < kept@.len() ==> !(#[trigger] kept@[i]).is_constant_only_spec(),
                forall|i: int|
                    0 <= i < kept@.len() ==> crate::clusters::in_views(
                        (#[trigger] kept@[i])@,
                        orig,
                    ),
                forall|i: int|
                    0 <= i < work@.len() ==> crate::clusters::in_views(
                        (#[trigger] work@[i])@,
                        orig,
                    ),
            decreases work@.len(),
        {
            let ghost wv = work@;
            let c = work.remove(0);
            proof {
                assert(wv[0] == c);
                assert forall|i: int| 0 <= i < work@.len() implies crate::clusters::in_views(
                    (#[trigger] work@[i])@,
                    orig,
                ) by {
                    assert(work@[i] == wv[i + 1]);
                }
            }
            if !constraint_is_trivial(&c, f) {
                kept.push(c);
            }
        }
        ConstraintStorage { constraints: kept }
    }
}

/// Whether a well-formed constraint is trivial: empty or constant-only.
fn constraint_is_trivial(c: &Constraint, f: &Field) -> (r: bool)
    requires
        f.wf(),
        c.wf(f.modulus()),
    ensures
        !r ==> !c.is_constant_only_spec(),
{
    let ta = expr_constant_only(&c.a);
    let tb = expr_constant_only(&c.b);
    let tc = expr_constant_only(&c.c);
    ta && tb && tc
}

fn expr_constant_only(e: &crate::algebra::LinearExpr) -> (r: bool)
    ensures
        r <==> (forall|i: int| 0 <= i < e@.len() ==> (#[trigger] e@[i]).0 == 0),
{
    let n = e.terms.len();
    let mut i: usize = 0;
    while i < n
        invariant
            i <= n,
            n == e@.len(),
            forall|k: int| 0 <= k < i ==> (#[trigger] e@[k]).0 == 0,
        decreases n - i,
    {
        if e.terms[i].signal != 0 {
            proof {
                assert(e@[i as int].0 != 0);
            }
            return false;
        }
        proof {
            assert(e@[i as int] == (e.terms@[i as int].signal as nat, e.terms@[i as int].coeff@));
        }
        i += 1;
    }
    true
}

/// The witness renumbering: every original signal maps to its new contiguous
/// index or to nothing when erased; `witness` inverts the map.
pub struct SignalMap {
    pub map: Vec<Option<usize>>,
    pub witness: Vec<usize>,
}

impl SignalMap {
    /// Totality over survivors, injectivity, and contiguity: the map and the
    /// witness vector invert each other, and every index below the witness
    /// count is hit exactly once.
    pub open spec fn wf(&self) -> bool {
        &&& forall|s: int|
            0 <= s < self.map@.len() ==> match #[trigger] self.map@[s] {
                Some(i) => i < self.witness@.len() && self.witness@[i as int] == s,
                None => true,
            }
        &&& forall|i: int|
            0 <= i < self.witness@.len() ==> (#[trigger] self.witness@[i]) < self.map@.len()
                && self.map@[self.witness@[i] as int] == Some(i as usize)
        &&& forall|i: int, j: int|
            0 <= i < j < self.witness@.len() ==> self.witness@[i] < self.witness@[j]
    }

    /// New index of an original signal, or None when erased.
    pub fn get(&self, s: usize) -> (r: Option<usize>)
        requires
            s < self.map@.len(),
        ensures
            r == self.map@[s as int],
    {
        self.map[s]
    }

    /// Number of surviving wires.
    pub fn no_wires(&self) -> (r: usize)
        ensures
            r == self.witness@.len(),
    {
        self.witness.len()
    }
}

/// Builds the witness renumbering. A signal is erased when it was deleted by
/// substitution, or (with removal enabled) when it is not forbidden and no
/// stored constraint touches it; all surviving signals get new contiguous
/// indices in original id order, and a forbidden signal is never erased.
pub fn rebuild_witness(
    max_signal: usize,
    deleted: &Vec<bool>,
    forbidden: &Vec<bool>,
    used: &Vec<bool>,
    remove_unused: bool,
) -> (r: SignalMap)
    requires
        deleted@.len() == max_signal,
        forbidden@.len() == max_signal,
        used@.len() == max_signal,
        deleted_ok(deleted@, forbidden@),
    ensures
        r.wf(),
        r.map@.len() == max_signal,
        forall|s: int|
            0 <= s < max_signal ==> ((#[trigger] r.map@[s]) is Some <==> (!deleted@[s] && (
            forbidden@[s] || !remove_unused || used@[s]))),
        forall|s: int| 0 <= s < max_signal && forbidden@[s] ==> (#[trigger] r.map@[s]) is Some,
{
    let mut map: Vec<Option<usize>> = Vec::new();
    let mut witness: Vec<usize> = Vec::new();
    let mut s: usize = 0;
    while s < max_signal
        invariant
            s <= max_signal,
            deleted@.len() == max_signal,
            forbidden@.len() == max_signal,
            used@.len() == max_signal,
            deleted_ok(deleted@, forbidden@),
            map@.len() == s,
            witness@.len() <= s,
            forall|x: int|
                0 <= x < s ==> ((#[trigger] map@[x]) is Some <==> (!deleted@[x] && (forbidden@[x]
                    || !remove_unused || used@[x]))),
            forall|x: int|
                0 <= x < map@.len() ==> match #[trigger] map@[x] {
                    Some(i) => i < witness@.len() && witness@[i as int] == x,
                    None => true,
                },
            forall|i: int|
                0 <= i < witness@.len() ==> (#[trigger] witness@[i]) < map@.len()
                    && map@[witness@[i] as int] == Some(i as usize),
            forall|i: int, j: int| 0 <= i < j < witness@.len() ==> witness@[i] < witness@[j],
        decreases max_signal - s,
    {
        let keep = !deleted[s] && (forbidden[s] || !remove_unused || used[s]);
        if keep {
            let idx = witness.len();
            map.push(Some(idx));
            witness.push(s);
            proof {
                assert(witness@[idx as int] == s);
                assert(map@[s as int] == Some(idx));
            }
        } else {
            map.push(None);
        }
        s += 1;
    }
    SignalMap { map, witness }
}

/// Per-item facts of a substitution list: well formed and bounded, never a
/// forbidden source.
pub open spec fn subs_items_ok(subs: Seq<Substitution>, forbidden: Seq<bool>, p: nat, n: nat) -> bool {
    &&& forall|i: int| 0 <= i < subs.len() ==> (#[trigger] subs[i]).wf(p)
    &&& forall|i: int|
        0 <= i < subs.len() ==> ((#[trigger] subs[i]).signal as nat) < forbidden.len()
            && !forbidden[subs[i].signal as int]
    &&& subs_bounded(subs, n)
}

/// A copy of a substitution, same source and replacement.
fn clone_substitution(s: &Substitution) -> (r: Substitution)
    ensures
        r.signal == s.signal,
        r.expr@ == s.expr@,
{
    Substitution { signal: s.signal, expr: crate::clusters::clone_expr(&s.expr) }
}

/// Index of the substitution fixing `sig`, when one is recorded.
fn find_sub_index(subs: &Vec<Substitution>, sig: usize) -> (r: Option<usize>)
    ensures
        r matches Some(i) ==> i < subs@.len() && subs@[i as int].signal == sig,
{
    let mut i: usize = 0;
    while i < subs.len()
        invariant
            i <= subs@.len(),
        decreases subs@.len() - i,
    {
        if subs[i].signal == sig {
            return Some(i);
        }
        i += 1;
    }
    None
}

/// Rebuilds the relevant-signal set: a signal of the encoding resolved
/// through the substitution maps contributes the signals of its replacement,
/// an unresolved one contributes itself.
fn build_relevant_set(
    enc: &Encoding,
    subs1: &Vec<Substitution>,
    subs2: &Vec<Substitution>,
    n_signals: usize,
) -> (r: Vec<bool>)
    ensures
        r@.len() == n_signals,
{
    let mut relevant: Vec<bool> = Vec::new();
    let mut i0: usize = 0;
    while i0 < n_signals
        invariant
            relevant@.len() == i0,
            i0 <= n_signals,
        decreases n_signals - i0,
    {
        relevant.push(false);
        i0 += 1;
    }
    let nn = enc.nodes.len();
    let mut ni: usize = 0;
    while ni < nn
        invariant
            ni <= nn,
            nn == enc.nodes@.len(),
            relevant@.len() == n_signals,
        decreases nn - ni,
    {
        let ns = enc.nodes[ni].signals.len();
        let mut si: usize = 0;
        while si < ns
            invariant
                si <= ns,
                ni < enc.nodes@.len(),
                ns == enc.nodes@[ni as int].signals@.len(),
                relevant@.len() == n_signals,
            decreases ns - si,
        {
            let sig = enc.nodes[ni].signals[si];
            match find_sub_index(subs1, sig) {
                Some(k) => {
                    mark_expr_signals(&mut relevant, &subs1[k].expr);
                },
                None => {
                    match find_sub_index(subs2, sig) {
                        Some(k) => {
                            mark_expr_signals(&mut relevant, &subs2[k].expr);
                        },
                        None => {
                            if sig < relevant.len() {
                                relevant.set(sig, true);
                            }
                        },
                    }
                },
            }
            si += 1;
        }
        ni += 1;
    }
    relevant
}

/// Marks every signal of the expression relevant.
fn mark_expr_signals(relevant: &mut Vec<bool>, e: &crate::algebra::LinearExpr)
    ensures
        final(relevant)@.len() == old(relevant)@.len(),
{
    let n = e.terms.len();
    let mut i: usize = 0;
    while i < n
        invariant
            i <= n,
            n == e.terms@.len(),
            relevant@.len() == old(relevant)@.len(),
        decreases n - i,
    {
        let sig = e.terms[i].signal;
        if sig < relevant.len() {
            relevant.set(sig, true);
        }
        i += 1;
    }
}

/// Keeps only the substitutions whose source is still relevant; irrelevant
/// ones are dropped to bound memory, never applied elsewhere.
fn remove_not_relevant(
    subs: Vec<Substitution>,
    relevant: &Vec<bool>,
    forbidden: Ghost<Seq<bool>>,
    f: &Field,
    bound: Ghost<nat>,
) -> (r: Vec<Substitution>)
    requires
        f.wf(),
        subs_items_ok(subs@, forbidden@, f.modulus(), bound@),
    ensures
        subs_items_ok(r@, forbidden@, f.modulus(), bound@),
{
    let ghost p = f.modulus();
    let mut kept: Vec<Substitution> = Vec::new();
    let mut work = subs;
    while work.len() > 0
        invariant
            f.wf(),
            p == f.modulus(),
            subs_items_ok(work@, forbidden@, p, bound@),
            subs_items_ok(kept@, forbidden@, p, bound@),
        decreases work@.len(),
    {
        let ghost wv = work@;
        let sub = work.remove(0);
        proof {
            assert(wv[0] == sub);
            assert forall|i: int| 0 <= i < work@.len() implies (#[trigger] work@[i]).wf(p) && ((
            work@[i].signal as nat) < forbidden@.len()) && !forbidden@[work@[i].signal as int]
                && expr_bounded(work@[i].expr@, bound@) by {
                assert(work@[i] == wv[i + 1]);
            }
        }
        if sub.signal < relevant.len() && relevant[sub.signal] {
            kept.push(sub);
        }
    }
    kept
}

/// The simplification pipeline state handed over by the flattener. Cluster
/// solving collects its results keyed by dispatch index, so the outcome is
/// the same whether the clusters are solved one after the other, as here, or
/// fanned out; the parallelism flag is an execution hint with no effect on
/// the result.
pub struct Simplifier {
    pub field: Field,
    pub no_public_inputs: usize,
    pub no_public_outputs: usize,
    pub no_private_inputs: usize,
    pub forbidden: Vec<bool>,
    pub max_signal: usize,
    pub dag_encoding: Encoding,
    pub linear: Vec<Constraint>,
    pub equalities: Vec<Constraint>,
    pub cons_equalities: Vec<Constraint>,
    pub no_rounds: usize,
    pub flag_s: bool,
    pub parallel_flag: bool,
    pub flag_old_heuristics: bool,
    pub port_substitution: bool,
}

impl Simplifier {
    pub open spec fn wf(&self) -> bool {
        &&& self.field.wf()
        &&& self.forbidden@.len() == self.max_signal
        &&& all_wf(self.linear@, self.field.modulus())
        &&& all_bounded(self.linear@, self.max_signal as nat)
        &&& all_wf(self.equalities@, self.field.modulus())
        &&& all_bounded(self.equalities@, self.max_signal as nat)
        &&& all_wf(self.cons_equalities@, self.field.modulus())
        &&& all_bounded(self.cons_equalities@, self.max_signal as nat)
        &&& self.dag_encoding.wf(self.field.modulus(), self.max_signal as nat)
    }
}

/// Walks the encoding once, applies the three substitution frames to every
/// deferred non-linear constraint and materializes it: constraints that
/// became linear go back to the linear pool, the rest enter the store.
fn obtain_and_simplify_non_linear(
    enc: &Encoding,
    storage: &mut ConstraintStorage,
    subs_single: &Vec<Substitution>,
    subs_cons: &Vec<Substitution>,
    subs_linear: &Vec<Substitution>,
    f: &Field,
    bound: Ghost<nat>,
) -> (with_linear: Vec<Constraint>)
    requires
        f.wf(),
        enc.wf(f.modulus(), bound@),
        all_wf(old(storage).constraints@, f.modulus()),
        all_bounded(old(storage).constraints@, bound@),
        forall|i: int| 0 <= i < subs_single@.len() ==> (#[trigger] subs_single@[i]).wf(f.modulus()),
        subs_bounded(subs_single@, bound@),
        forall|i: int| 0 <= i < subs_cons@.len() ==> (#[trigger] subs_cons@[i]).wf(f.modulus()),
        subs_bounded(subs_cons@, bound@),
        forall|i: int| 0 <= i < subs_linear@.len() ==> (#[trigger] subs_linear@[i]).wf(f.modulus()),
        subs_bounded(subs_linear@, bound@),
    ensures
        all_wf(final(storage).constraints@, f.modulus()),
        all_bounded(final(storage).constraints@, bound@),
        all_wf(with_linear@, f.modulus()),
        all_bounded(with_linear@, bound@),
{
    let ghost p = f.modulus();
    let mut with_linear: Vec<Constraint> = Vec::new();
    let nn = enc.nodes.len();
    let mut ni: usize = 0;
    while ni < nn
        invariant
            ni <= nn,
            nn == enc.nodes@.len(),
            f.wf(),
            p == f.modulus(),
            enc.wf(p, bound@),
            all_wf(storage.constraints@, p),
            all_bounded(storage.constraints@, bound@),
            all_wf(with_linear@, p),
            all_bounded(with_linear@, bound@),
            forall|i: int| 0 <= i < subs_single@.len() ==> (#[trigger] subs_single@[i]).wf(p),
            subs_bounded(subs_single@, bound@),
            forall|i: int| 0 <= i < subs_cons@.len() ==> (#[trigger] subs_cons@[i]).wf(p),
            subs_bounded(subs_cons@, bound@),
            forall|i: int| 0 <= i < subs_linear@.len() ==> (#[trigger] subs_linear@[i]).wf(p),
            subs_bounded(subs_linear@, bound@),
        decreases nn - ni,
    {
        let nc = enc.nodes[ni].non_linear.len();
        let mut ci: usize = 0;
        while ci < nc
            invariant
                ci <= nc,
                ni < enc.nodes@.len(),
                nc == enc.nodes@[ni as int].non_linear@.len(),
                f.wf(),
                p == f.modulus(),
                enc.wf(p, bound@),
                all_wf(storage.constraints@, p),
                all_bounded(storage.constraints@, bound@),
                all_wf(with_linear@, p),
                all_bounded(with_linear@, bound@),
                forall|i: int| 0 <= i < subs_single@.len() ==> (#[trigger] subs_single@[i]).wf(p),
                subs_bounded(subs_single@, bound@),
                forall|i: int| 0 <= i < subs_cons@.len() ==> (#[trigger] subs_cons@[i]).wf(p),
                subs_bounded(subs_cons@, bound@),
                forall|i: int| 0 <= i < subs_linear@.len() ==> (#[trigger] subs_linear@[i]).wf(p),
                subs_bounded(subs_linear@, bound@),
            decreases nc - ci,
        {
            let c0 = crate::clusters::clone_constraint(&enc.nodes[ni].non_linear[ci]);
            proof {
                let orig = enc.nodes@[ni as int].non_linear@[ci as int];
                assert(orig.wf(p) && crate::dag::c_bounded(orig, bound@));
                assert(c0@ == orig@);
                assert(c0.a@ == orig.a@ && c0.b@ == orig.b@ && c0.c@ == orig.c@);
            }
            let c1 = apply_all_subs(c0, subs_single, f, bound);
            let c2 = apply_all_subs(c1, subs_cons, f, bound);
            let mut c3 = apply_all_subs(c2, subs_linear, f, bound);
            let ghost pre_a = c3.a@;
            let ghost pre_b = c3.b@;
            let ghost pre_c = c3.c@;
            c3.fix_constraint(f);
            proof {
                crate::algebra::lemma_fix_norm_noop(pre_a, p);
                crate::algebra::lemma_fix_norm_noop(pre_b, p);
                crate::algebra::lemma_fix_norm_noop(pre_c, p);
                assert(c3.a@ == pre_a && c3.b@ == pre_b && c3.c@ == pre_c);
            }
            if c3.is_linear() {
                with_linear.push(c3);
            } else {
                storage.add_constraint(c3);
            }
            ci += 1;
        }
        ni += 1;
    }
    with_linear
}

/// Applies one round's substitutions to every stored constraint; the
/// constraints that became linear leave the store and are returned for the
/// next round.
fn apply_subs_extract_linear(
    storage: ConstraintStorage,
    subs: &Vec<Substitution>,
    f: &Field,
    bound: Ghost<nat>,
) -> (r: (ConstraintStorage, Vec<Constraint>))
    requires
        f.wf(),
        all_wf(storage.constraints@, f.modulus()),
        all_bounded(storage.constraints@, bound@),
        forall|i: int| 0 <= i < subs@.len() ==> (#[trigger] subs@[i]).wf(f.modulus()),
        subs_bounded(subs@, bound@),
    ensures
        all_wf(r.0.constraints@, f.modulus()),
        all_bounded(r.0.constraints@, bound@),
        all_wf(r.1@, f.modulus()),
        all_bounded(r.1@, bound@),
{
    let ghost p = f.modulus();
    let mut kept: Vec<Constraint> = Vec::new();
    let mut linear: Vec<Constraint> = Vec::new();
    let mut work = storage.constraints;
    while work.len() > 0
        invariant
            f.wf(),
            p == f.modulus(),
            all_wf(work@, p),
            all_bounded(work@, bound@),
            all_wf(kept@, p),
            all_bounded(kept@, bound@),
            all_wf(linear@, p),
            all_bounded(linear@, bound@),
            forall|i: int| 0 <= i < subs@.len() ==> (#[trigger] subs@[i]).wf(p),
            subs_bounded(subs@, bound@),
        decreases work@.len(),
    {
        let c = work.remove(0);
        let c2 = apply_all_subs(c, subs, f, bound);
        if c2.is_linear() {
            linear.push(c2);
        } else {
            kept.push(c2);
        }
    }
    (ConstraintStorage { constraints: kept }, linear)
}

/// Whether any stored constraint touches the witness signal.
pub open spec fn store_mentions(store: ConstraintStorage, s: nat) -> bool {
    s != 0 && exists|i: int|
        0 <= i < store.constraints@.len() && crate::clusters::has_signal(
            (#[trigger] store.constraints@[i])@,
            s,
        )
}

/// Marks exactly the signals some stored constraint touches.
fn compute_used(storage: &ConstraintStorage, n: usize) -> (r: Vec<bool>)
    requires
        forall|i: int|
            0 <= i < storage.constraints@.len() ==> crate::clusters::signals_below(
                (#[trigger] storage.constraints@[i])@,
                n as nat,
            ),
    ensures
        r@.len() == n,
        forall|s: int| 0 <= s < n ==> ((#[trigger] r@[s]) <==> store_mentions(*storage, s as nat)),
{
    let mut used: Vec<bool> = Vec::new();
    let mut i0: usize = 0;
    while i0 < n
        invariant
            used@.len() == i0,
            i0 <= n,
            forall|s: int| 0 <= s < i0 ==> !(#[trigger] used@[s]),
        decreases n - i0,
    {
        used.push(false);
        i0 += 1;
    }
    let nc = storage.constraints.len();
    let mut ci: usize = 0;
    while ci < nc
        invariant
            ci <= nc,
            nc == storage.constraints@.len(),
            used@.len() == n,
            forall|i: int|
                0 <= i < storage.constraints@.len() ==> crate::clusters::signals_below(
                    (#[trigger] storage.constraints@[i])@,
                    n as nat,
                ),
            forall|s: int|
                0 <= s < n ==> ((#[trigger] used@[s]) <==> (s != 0 && exists|i: int|
                    0 <= i < ci && crate::clusters::has_signal(
                        (#[trigger] storage.constraints@[i])@,
                        s as nat,
                    ))),
        decreases nc - ci,
    {
        let sigs = take_cloned_signals(&storage.constraints[ci]);
        let ghost used_before = used@;
        let mut si: usize = 0;
        while si < sigs.len()
            invariant
                si <= sigs@.len(),
                ci < nc,
                nc == storage.constraints@.len(),
                used@.len() == n,
                crate::clusters::signals_below(storage.constraints@[ci as int]@, n as nat),
                forall|k: int|
                    0 <= k < sigs@.len() ==> (#[trigger] sigs@[k]) != 0
                        && crate::clusters::has_signal(
                        storage.constraints@[ci as int]@,
                        sigs@[k] as nat,
                    ),
                forall|sg: usize|
                    sg != 0 && crate::clusters::has_signal(
                        storage.constraints@[ci as int]@,
                        sg as nat,
                    ) ==> sigs@.contains(sg),
                forall|s: int|
                    0 <= s < n ==> ((#[trigger] used@[s]) <==> (used_before[s] || exists|k: int|
                        0 <= k < si && (#[trigger] sigs@[k]) == s as usize)),
            decreases sigs@.len() - si,
        {
            let sg = sigs[si];
            let ghost before = used@;
            if sg < used.len() {
                used.set(sg, true);
            }
            proof {
                assert(crate::clusters::has_signal(
                    storage.constraints@[ci as int]@,
                    sigs@[si as int] as nat,
                ));
                assert((sg as nat) < n as nat);
                assert forall|s: int|
                    0 <= s < n implies ((#[trigger] used@[s]) <==> (used_before[s] || exists|
                    k: int,
                |
                    0 <= k < si + 1 && (#[trigger] sigs@[k]) == s as usize)) by {
                    if s == sg {
                        assert(sigs@[si as int] == s as usize);
                        assert(used@[s]);
                    } else {
                        assert(used@[s] == before[s]);
                        assert((exists|k: int|
                            0 <= k < si + 1 && (#[trigger] sigs@[k]) == s as usize) <==> (exists|
                            k: int,
                        |
                            0 <= k < si && (#[trigger] sigs@[k]) == s as usize)) by {
                            if exists|k: int|
                                0 <= k < si + 1 && (#[trigger] sigs@[k]) == s as usize {
                                let k = choose|k: int|
                                    0 <= k < si + 1 && (#[trigger] sigs@[k]) == s as usize;
                                assert(k != si);
                            }
                        }
                    }
                }
            }
            si += 1;
        }
        proof {
            assert forall|s: int|
                0 <= s < n implies ((#[trigger] used@[s]) <==> (s != 0 && exists|i: int|
                    0 <= i < ci + 1 && crate::clusters::has_signal(
                        (#[trigger] storage.constraints@[i])@,
                        s as nat,
                    ))) by {
                if used@[s] {
                    if !used_before[s] {
                        let k = choose|k: int|
                            0 <= k < sigs@.len() && (#[trigger] sigs@[k]) == s as usize;
                        assert(crate::clusters::has_signal(
                            storage.constraints@[ci as int]@,
                            s as nat,
                        ));
                    }
                } else {
                    if s != 0 && exists|i: int|
                        0 <= i < ci + 1 && crate::clusters::has_signal(
                            (#[trigger] storage.constraints@[i])@,
                            s as nat,
                        ) {
                        let i = choose|i: int|
                            0 <= i < ci + 1 && crate::clusters::has_signal(
                                (#[trigger] storage.constraints@[i])@,
                                s as nat,
                            );
                        if i == ci {
                            assert(sigs@.contains(s as usize));
                            let k = choose|k: int| 0 <= k < sigs@.len() && sigs@[k] == s as usize;
                            assert(used@[s]);
                        } else {
                            assert(used_before[s]);
                        }
                    }
                }
            }
        }
        ci += 1;
    }
    used
}

/// The simplified system: field, encoding, counts, surviving constraints and
/// the witness map, as handed to reporting and to the binary encoder.
pub struct ConstraintList {
    pub field: Field,
    pub dag_encoding: Encoding,
    pub no_public_outputs: usize,
    pub no_public_inputs: usize,
    pub no_private_inputs: usize,
    pub no_labels: usize,
    pub constraints: ConstraintStorage,
    pub signal_map: SignalMap,
}

impl ConstraintList {
    pub open spec fn wf(&self) -> bool {
        &&& self.field.wf()
        &&& all_wf(self.constraints.constraints@, self.field.modulus())
        &&& self.signal_map.wf()
        &&& self.signal_map.map@.len() == self.no_labels
    }

    /// Number of original signals (labels).
    pub fn no_labels(&self) -> (r: usize)
        ensures
            r == self.no_labels,
    {
        self.no_labels
    }

    /// Number of surviving wires.
    pub fn no_wires(&self) -> (r: usize)
        ensures
            r == self.signal_map.witness@.len(),
    {
        self.signal_map.no_wires()
    }

    /// The surviving original signal ids, in witness-index order.
    pub fn get_witness_as_vec(&self) -> (r: Vec<usize>)
        ensures
            r@ == self.signal_map.witness@,
    {
        let mut r: Vec<usize> = Vec::new();
        let mut i: usize = 0;
        while i < self.signal_map.witness.len()
            invariant
                i <= self.signal_map.witness@.len(),
                r@ =~= self.signal_map.witness@.subrange(0, i as int),
            decreases self.signal_map.witness@.len() - i,
        {
            r.push(self.signal_map.witness[i]);
            i += 1;
        }
        proof {
            assert(r@ =~= self.signal_map.witness@);
        }
        r
    }
}

/// Runs the whole simplification pipeline and rebuilds the witness map.
/// Returns the simplified system, the number of additional linear rounds
/// performed (never more than the budget), and the substitution trace (in
/// discovery order; empty unless tracing was requested).
pub fn simplification(smp: Simplifier) -> (r: (ConstraintList, usize, Vec<Substitution>))
    requires
        smp.wf(),
    ensures
        r.0.wf(),
        r.0.field.modulus() == smp.field.modulus(),
        forall|i: int|
            0 <= i < r.0.constraints.constraints@.len() ==> !(
            #[trigger] r.0.constraints.constraints@[i]).is_constant_only_spec(),
        r.0.no_labels == smp.max_signal,
        forall|s: int|
            0 <= s < smp.max_signal && smp.forbidden@[s] ==> (
            #[trigger] r.0.signal_map.map@[s]) is Some,
        r.0.no_public_outputs == smp.no_public_outputs,
        r.0.no_public_inputs == smp.no_public_inputs,
        r.0.no_private_inputs == smp.no_private_inputs,
        forall|s: int|
            0 <= s < smp.max_signal && (#[trigger] r.0.signal_map.map@[s]) is Some
                ==> smp.forbidden@[s] || store_mentions(r.0.constraints, s as nat),
        forall|i: int|
            0 <= i < r.2@.len() ==> (#[trigger] r.2@[i]).wf(smp.field.modulus()) && ((
            r.2@[i].signal as nat) < smp.forbidden@.len()) && !smp.forbidden@[r.2@[i].signal as int],
        forall|i: int, j: int|
            0 <= i < r.2@.len() && 0 <= j < r.2@.len() && i != j ==> (#[trigger] r.2@[i]).signal
                != (#[trigger] r.2@[j]).signal,
        r.1 <= smp.no_rounds,
{
    let f = smp.field;
    let ghost p = f.modulus();
    let forbidden = smp.forbidden;
    let max_signal = smp.max_signal;
    let ghost nnat = max_signal as nat;
    let mut trace: Vec<Substitution> = Vec::new();

    let mut deleted: Vec<bool> = Vec::new();
    let mut d0: usize = 0;
    while d0 < max_signal
        invariant
            deleted@.len() == d0,
            d0 <= max_signal,
            forall|x: int| 0 <= x < d0 ==> !(#[trigger] deleted@[x]),
        decreases max_signal - d0,
    {
        deleted.push(false);
        d0 += 1;
    }

    let empty_subs: Vec<Substitution> = Vec::new();
    let relevant = build_relevant_set(&smp.dag_encoding, &empty_subs, &empty_subs, max_signal);

    // single-assignment phase: pure equalities
    let mut lconst: Vec<Constraint> = Vec::new();
    let (eq_subs_raw, eq_residual) = eq_simplification(smp.equalities, &forbidden, &f);
    append_constraints(&mut lconst, eq_residual);
    let mut single_subs: Vec<Substitution> = Vec::new();
    let ghost deleted_pre1 = deleted@;
    let ghost trace_pre1 = trace@;
    collect_substitutions(&mut single_subs, eq_subs_raw, &mut deleted, &forbidden, &f);
    if smp.port_substitution {
        log_substitutions(&mut trace, &single_subs);
        proof {
            lemma_trace_extend(
                trace_pre1,
                trace@,
                single_subs@,
                forbidden@,
                deleted_pre1,
                deleted@,
                p,
            );
        }
    }
    proof {
        assert(trace_ok(trace@, forbidden@, deleted@, p));
    }
    let linear = apply_subs_to_constraints(smp.linear, &single_subs, &f, Ghost(nnat));
    let cons_equalities = apply_subs_to_constraints(
        smp.cons_equalities,
        &single_subs,
        &f,
        Ghost(nnat),
    );
    let single_subs = remove_not_relevant(single_subs, &relevant, Ghost(forbidden@), &f, Ghost(nnat));

    // constant-assignment phase
    proof {
        assert forall|i: int|
            0 <= i < cons_equalities@.len() implies crate::clusters::signals_below(
            (#[trigger] cons_equalities@[i])@,
            forbidden@.len() as nat,
        ) by {
            lemma_below_from_bounded(cons_equalities@[i], p, forbidden@.len() as nat);
        }
    }
    let (cons_subs_raw, cons_residual) = constant_eq_simplification(cons_equalities, &forbidden, &f);
    append_constraints(&mut lconst, cons_residual);
    let mut cons_subs: Vec<Substitution> = Vec::new();
    let ghost deleted_pre2 = deleted@;
    let ghost trace_pre2 = trace@;
    collect_substitutions(&mut cons_subs, cons_subs_raw, &mut deleted, &forbidden, &f);
    if smp.port_substitution {
        log_substitutions(&mut trace, &cons_subs);
        proof {
            lemma_trace_extend(
                trace_pre2,
                trace@,
                cons_subs@,
                forbidden@,
                deleted_pre2,
                deleted@,
                p,
            );
        }
    }
    proof {
        assert(trace_ok(trace@, forbidden@, deleted@, p));
    }
    let linear = apply_subs_to_constraints(linear, &cons_subs, &f, Ghost(nnat));

    // relevance recomputation
    let relevant = build_relevant_set(&smp.dag_encoding, &single_subs, &cons_subs, max_signal);

    // linear phase, unless skipped
    let apply_linear = !smp.flag_s;
    let mut linear_subs: Vec<Substitution> = Vec::new();
    if apply_linear {
        let (lsubs_raw, lcons) = linear_simplification(
            linear,
            &forbidden,
            &f,
            smp.flag_old_heuristics,
        );
        let mut all_lin: Vec<Substitution> = Vec::new();
        let ghost deleted_pre3 = deleted@;
        let ghost trace_pre3 = trace@;
        collect_substitutions(&mut all_lin, lsubs_raw, &mut deleted, &forbidden, &f);
        if smp.port_substitution {
            log_substitutions(&mut trace, &all_lin);
            proof {
                lemma_trace_extend(
                    trace_pre3,
                    trace@,
                    all_lin@,
                    forbidden@,
                    deleted_pre3,
                    deleted@,
                    p,
                );
            }
        }
        linear_subs = remove_not_relevant(all_lin, &relevant, Ghost(forbidden@), &f, Ghost(nnat));
        append_constraints(&mut lconst, lcons);
        lconst = apply_subs_to_constraints(lconst, &linear_subs, &f, Ghost(nnat));
    } else {
        append_constraints(&mut lconst, linear);
    }

    // storage construction: the one pass over the non-linear constraints
    let mut storage = ConstraintStorage::new();
    let with_linear = obtain_and_simplify_non_linear(
        &smp.dag_encoding,
        &mut storage,
        &single_subs,
        &cons_subs,
        &linear_subs,
        &f,
        Ghost(nnat),
    );
    let mut dag_encoding = smp.dag_encoding;
    dag_encoding.empty_encoding_constraints();

    // additional linear rounds, bounded by the budget
    let mut linear_cur = with_linear;
    let mut rounds_used: usize = 0;
    while apply_linear && rounds_used < smp.no_rounds && linear_cur.len() > 0
        invariant
            f.wf(),
            p == f.modulus(),
            nnat == max_signal,
            forbidden@.len() == max_signal,
            rounds_used <= smp.no_rounds,
            all_wf(linear_cur@, p),
            all_bounded(linear_cur@, nnat),
            all_wf(lconst@, p),
            all_bounded(lconst@, nnat),
            all_wf(storage.constraints@, p),
            all_bounded(storage.constraints@, nnat),
            deleted_ok(deleted@, forbidden@),
            deleted@.len() == max_signal,
            trace_ok(trace@, forbidden@, deleted@, p),
        decreases smp.no_rounds - rounds_used,
    {
        let (rsubs_raw, rcons) = linear_simplification(
            linear_cur,
            &forbidden,
            &f,
            smp.flag_old_heuristics,
        );
        let mut round_subs: Vec<Substitution> = Vec::new();
        let ghost deleted_pre4 = deleted@;
        let ghost trace_pre4 = trace@;
        collect_substitutions(&mut round_subs, rsubs_raw, &mut deleted, &forbidden, &f);
        if smp.port_substitution {
            log_substitutions(&mut trace, &round_subs);
            proof {
                lemma_trace_extend(
                    trace_pre4,
                    trace@,
                    round_subs@,
                    forbidden@,
                    deleted_pre4,
                    deleted@,
                    p,
                );
            }
        }
        append_constraints(&mut lconst, rcons);
        lconst = apply_subs_to_constraints(lconst, &round_subs, &f, Ghost(nnat));
        let (new_storage, extracted) = apply_subs_extract_linear(
            storage,
            &round_subs,
            &f,
            Ghost(nnat),
        );
        storage = new_storage;
        linear_cur = extracted;
        rounds_used += 1;
    }

    // flush: whatever is still outstanding enters the store as-is
    let mut rest = linear_cur;
    while rest.len() > 0
        invariant
            f.wf(),
            p == f.modulus(),
            all_wf(rest@, p),
            all_bounded(rest@, nnat),
            all_wf(storage.constraints@, p),
            all_bounded(storage.constraints@, nnat),
        decreases rest@.len(),
    {
        let c = rest.remove(0);
        storage.add_constraint(c);
    }
    let mut rest2 = lconst;
    while rest2.len() > 0
        invariant
            f.wf(),
            p == f.modulus(),
            all_wf(rest2@, p),
            all_bounded(rest2@, nnat),
            all_wf(storage.constraints@, p),
            all_bounded(storage.constraints@, nnat),
        decreases rest2@.len(),
    {
        let c = rest2.remove(0);
        storage.add_constraint(c);
    }

    // dead-constraint removal: the trivial constant-only shapes leave
    let storage = storage.remove_trivial(&f, Ghost(nnat));

    // witness rebuild
    proof {
        assert forall|i: int|
            0 <= i < storage.constraints@.len() implies crate::clusters::signals_below(
            (#[trigger] storage.constraints@[i])@,
            max_signal as nat,
        ) by {
            lemma_below_from_bounded(storage.constraints@[i], p, max_signal as nat);
        }
    }
    let used = compute_used(&storage, max_signal);
    let signal_map = rebuild_witness(max_signal, &deleted, &forbidden, &used, true);

    let list = ConstraintList {
        field: f,
        dag_encoding,
        no_public_outputs: smp.no_public_outputs,
        no_public_inputs: smp.no_public_inputs,
        no_private_inputs: smp.no_private_inputs,
        no_labels: max_signal,
        constraints: storage,
        signal_map,
    };
    (list, rounds_used, trace)
}

/// Appends copies of the discovered substitutions to the trace, in order.
fn log_substitutions(trace: &mut Vec<Substitution>, subs: &Vec<Substitution>)
    ensures
        final(trace)@.len() == old(trace)@.len() + subs@.len(),
        forall|i: int| 0 <= i < old(trace)@.len() ==> (#[trigger] final(trace)@[i]) == old(trace)@[i],
        forall|k: int|
            0 <= k < subs@.len() ==> (#[trigger] final(trace)@[old(trace)@.len() + k]).signal
                == subs@[k].signal && final(trace)@[old(trace)@.len() + k].expr@ == subs@[k].expr@,
{
    let mut i: usize = 0;
    while i < subs.len()
        invariant
            i <= subs@.len(),
            trace@.len() == old(trace)@.len() + i,
            forall|j: int| 0 <= j < old(trace)@.len() ==> (#[trigger] trace@[j]) == old(trace)@[j],
            forall|k: int|
                0 <= k < i ==> (#[trigger] trace@[old(trace)@.len() + k]).signal == subs@[k].signal
                    && trace@[old(trace)@.len() + k].expr@ == subs@[k].expr@,
        decreases subs@.len() - i,
    {
        trace.push(clone_substitution(&subs[i]));
        i += 1;
    }
}

/// Maps the circuit graph to a simplified constraint list: flattens the
/// instance tree into global constraints, runs the simplification pipeline
/// and rebuilds the witness. None when the prime is no field modulus or the
/// signal space would overflow the machine word.
pub fn map_to_list(dag: Dag, flags: SimplificationFlags) -> (r: Option<(
    ConstraintList,
    crate::log_writer::LogWasm,
)>)
    requires
        dag.wf(crate::bytes::le_val(dag.prime@)),
    ensures
        r matches Some(pair) ==> pair.0.wf() && pair.1.no_labels == pair.0.no_labels
            && pair.1.no_wires == pair.0.signal_map.witness@.len()
            && pair.1.no_public_inputs == pair.0.no_public_inputs
            && pair.1.no_public_outputs == pair.0.no_public_outputs
            && pair.1.no_private_inputs == pair.0.no_private_inputs,
        r is Some <==> crate::bytes::le_val(dag.prime@) >= 2 && 1 + crate::dag::tree_total(
            dag,
            dag.main_id as int,
        ) <= usize::MAX,
        r matches Some(pair) ==> {
            &&& pair.0.field.modulus() == crate::bytes::le_val(dag.prime@)
            &&& pair.0.no_labels == 1 + crate::dag::tree_total(dag, dag.main_id as int)
            &&& pair.0.no_public_inputs == dag.public_inputs
            &&& pair.0.no_public_outputs == dag.public_outputs
            &&& pair.0.no_private_inputs == dag.private_inputs
        },
{
    let prime = crate::algebra::clone_bytes(&dag.prime);
    let field = match Field::new(prime) {
        Some(fl) => fl,
        None => {
            return None;
        },
    };
    let ghost p = field.modulus();
    let mut counter: usize = 1;
    let mut holder = CHolder {
        linear: Vec::new(),
        equalities: Vec::new(),
        constant_equalities: Vec::new(),
    };
    let mut enc_nodes: Vec<crate::dag::EncodingNode> = Vec::new();
    let main_id = dag.main_id;
    let off = match crate::dag::flatten_node(
        &dag,
        main_id,
        &mut counter,
        &mut holder,
        &mut enc_nodes,
        &field,
    ) {
        Some(o) => o,
        None => {
            return None;
        },
    };
    let max_signal = counter;
    let mut forbidden: Vec<bool> = Vec::new();
    let mut f0: usize = 0;
    while f0 < max_signal
        invariant
            forbidden@.len() == f0,
            f0 <= max_signal,
        decreases max_signal - f0,
    {
        forbidden.push(false);
        f0 += 1;
    }
    let nfm = dag.nodes[main_id].forbidden_if_main.len();
    let mut fi: usize = 0;
    while fi < nfm
        invariant
            fi <= nfm,
            main_id < dag.nodes@.len(),
            nfm == dag.nodes@[main_id as int].forbidden_if_main@.len(),
            forbidden@.len() == max_signal,
            dag.wf(p),
            off >= 1,
            off + dag.nodes@[main_id as int].n_signals <= max_signal,
        decreases nfm - fi,
    {
        let l = dag.nodes[main_id].forbidden_if_main[fi];
        proof {
            assert(1 <= dag.nodes@[main_id as int].forbidden_if_main@[fi as int]
                <= dag.nodes@[main_id as int].n_signals);
        }
        forbidden.set(off - 1 + l, true);
        fi += 1;
    }
    let smp = Simplifier {
        field,
        no_public_inputs: dag.public_inputs,
        no_public_outputs: dag.public_outputs,
        no_private_inputs: dag.private_inputs,
        forbidden,
        max_signal,
        dag_encoding: Encoding { nodes: enc_nodes },
        linear: holder.linear,
        equalities: holder.equalities,
        cons_equalities: holder.constant_equalities,
        no_rounds: flags.no_rounds,
        flag_s: flags.flag_s,
        parallel_flag: flags.parallel_flag,
        flag_old_heuristics: flags.flag_old_heuristics,
        port_substitution: flags.port_substitution,
    };
    proof {
        assert(smp.wf()) by {
            assert forall|i: int| 0 <= i < smp.linear@.len() implies (#[trigger] smp.linear@[i]).wf(
                p,
            ) && expr_bounded(smp.linear@[i].a@, max_signal as nat) && expr_bounded(
                smp.linear@[i].b@,
                max_signal as nat,
            ) && expr_bounded(smp.linear@[i].c@, max_signal as nat) by {
                assert(crate::dag::c_ok(smp.linear@[i], p, max_signal as nat));
            }
            assert forall|i: int|
                0 <= i < smp.equalities@.len() implies (#[trigger] smp.equalities@[i]).wf(p)
                && expr_bounded(smp.equalities@[i].a@, max_signal as nat) && expr_bounded(
                smp.equalities@[i].b@,
                max_signal as nat,
            ) && expr_bounded(smp.equalities@[i].c@, max_signal as nat) by {
                assert(crate::dag::c_ok(smp.equalities@[i], p, max_signal as nat));
            }
            assert forall|i: int|
                0 <= i < smp.cons_equalities@.len() implies (#[trigger] smp.cons_equalities@[i]).wf(
                p,
            ) && expr_bounded(smp.cons_equalities@[i].a@, max_signal as nat) && expr_bounded(
                smp.cons_equalities@[i].b@,
                max_signal as nat,
            ) && expr_bounded(smp.cons_equalities@[i].c@, max_signal as nat) by {
                assert(crate::dag::c_ok(smp.cons_equalities@[i], p, max_signal as nat));
            }
            assert(smp.dag_encoding.wf(p, max_signal as nat)) by {
                assert forall|i: int, c: int|
                    0 <= i < smp.dag_encoding.nodes@.len() && 0 <= c < (
                    #[trigger] smp.dag_encoding.nodes@[i]).non_linear@.len() implies (
                #[trigger] smp.dag_encoding.nodes@[i].non_linear@[c]).wf(p) && crate::dag::c_bounded(
                    smp.dag_encoding.nodes@[i].non_linear@[c],
                    max_signal as nat,
                ) by {
                    assert(crate::dag::c_ok(
                        smp.dag_encoding.nodes@[i].non_linear@[c],
                        p,
                        max_signal as nat,
                    ));
                }
            }
        }
    }
    let (list, _rounds, _trace) = simplification(smp);
    let mut log = crate::log_writer::LogWasm::new();
    log.no_labels = list.no_labels();
    log.no_wires = list.no_wires();
    log.no_private_inputs = list.no_private_inputs;
    log.no_public_inputs = list.no_public_inputs;
    log.no_public_outputs = list.no_public_outputs;
    Some((list, log))
}

} // verus!
