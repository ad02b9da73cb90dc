//! Grouping of constraints into clusters connected through shared signals.
//!
//! Two constraints belong to one cluster when a chain of shared signals links
//! them; clusters are the unit of independent solving. Cluster contents keep
//! the input order, and the cluster sequence is ordered by first occurrence,
//! so downstream result collection is deterministic.

use vstd::prelude::*;

use crate::algebra::Constraint;

verus! {

impl View for Constraint {
    type V = (Seq<(nat, Seq<u8>)>, Seq<(nat, Seq<u8>)>, Seq<(nat, Seq<u8>)>);

    open spec fn view(&self) -> (Seq<(nat, Seq<u8>)>, Seq<(nat, Seq<u8>)>, Seq<(nat, Seq<u8>)>) {
        (self.a@, self.b@, self.c@)
    }
}

/// Whether a constraint carries a term on the signal.
pub open spec fn has_signal(
    v: (Seq<(nat, Seq<u8>)>, Seq<(nat, Seq<u8>)>, Seq<(nat, Seq<u8>)>),
    s: nat,
) -> bool {
    ||| exists|i: int| 0 <= i < v.0.len() && (#[trigger] v.0[i]).0 == s
    ||| exists|i: int| 0 <= i < v.1.len() && (#[trigger] v.1[i]).0 == s
    ||| exists|i: int| 0 <= i < v.2.len() && (#[trigger] v.2[i]).0 == s
}

/// Every signal of the constraint is below the bound.
pub open spec fn signals_below(
    v: (Seq<(nat, Seq<u8>)>, Seq<(nat, Seq<u8>)>, Seq<(nat, Seq<u8>)>),
    n: nat,
) -> bool {
    forall|s: nat| #[trigger] has_signal(v, s) ==> s < n
}

/// Whether a vector holds a value.
pub fn vec_contains(v: &Vec<usize>, x: usize) -> (r: bool)
    ensures
        r <==> v@.contains(x),
{
    let mut i: usize = 0;
    while i < v.len()
        invariant
            i <= v@.len(),
            forall|j: int| 0 <= j < i ==> v@[j] != x,
        decreases v@.len() - i,
    {
        if v[i] == x {
            return true;
        }
        i += 1;
    }
    false
}

/// The distinct witness signals a constraint touches, the reserved signal 0
/// excluded.
pub fn take_cloned_signals(c: &Constraint) -> (r: Vec<usize>)
    ensures
        forall|i: int| 0 <= i < r@.len() ==> r@[i] != 0 && has_signal(c@, (#[trigger] r@[i]) as nat),
        forall|s: usize| s != 0 && has_signal(c@, s as nat) ==> r@.contains(s),
        forall|i: int, j: int| 0 <= i < j < r@.len() ==> r@[i] != r@[j],
{
    let mut r: Vec<usize> = Vec::new();
    collect_signals(&mut r, &c.a.terms, Ghost(c@));
    let ghost r1 = r@;
    collect_signals(&mut r, &c.b.terms, Ghost(c@));
    let ghost r2 = r@;
    collect_signals(&mut r, &c.c.terms, Ghost(c@));
    proof {
        assert forall|s: usize| s != 0 && has_signal(c@, s as nat) implies r@.contains(s) by {
            if exists|i: int| 0 <= i < c@.0.len() && (#[trigger] c@.0[i]).0 == s as nat {
                let i = choose|i: int| 0 <= i < c@.0.len() && (#[trigger] c@.0[i]).0 == s as nat;
                assert(c@.0[i] == (c.a.terms@[i].signal as nat, c.a.terms@[i].coeff@));
                assert(c.a.terms@[i].signal == s);
                assert(r1.contains(s));
                assert(r2.contains(s));
            } else if exists|i: int| 0 <= i < c@.1.len() && (#[trigger] c@.1[i]).0 == s as nat {
                let i = choose|i: int| 0 <= i < c@.1.len() && (#[trigger] c@.1[i]).0 == s as nat;
                assert(c@.1[i] == (c.b.terms@[i].signal as nat, c.b.terms@[i].coeff@));
                assert(c.b.terms@[i].signal == s);
                assert(r2.contains(s));
            } else {
                let i = choose|i: int| 0 <= i < c@.2.len() && (#[trigger] c@.2[i]).0 == s as nat;
                assert(c@.2[i] == (c.c.terms@[i].signal as nat, c.c.terms@[i].coeff@));
                assert(c.c.terms@[i].signal == s);
            }
        }
    }
    r
}

/// Adds the nonzero signals of one term list to the accumulator, without
/// duplicates; every accumulated signal occurs in `whole`.
fn collect_signals(
    r: &mut Vec<usize>,
    terms: &Vec<crate::algebra::LinearTerm>,
    whole: Ghost<(Seq<(nat, Seq<u8>)>, Seq<(nat, Seq<u8>)>, Seq<(nat, Seq<u8>)>)>,
)
    requires
        terms@.map_values(|t: crate::algebra::LinearTerm| t@) == whole@.0 || terms@.map_values(
            |t: crate::algebra::LinearTerm| t@,
        ) == whole@.1 || terms@.map_values(|t: crate::algebra::LinearTerm| t@) == whole@.2,
        forall|i: int|
            0 <= i < old(r)@.len() ==> old(r)@[i] != 0 && has_signal(
                whole@,
                (#[trigger] old(r)@[i]) as nat,
            ),
        forall|i: int, j: int| 0 <= i < j < old(r)@.len() ==> old(r)@[i] != old(r)@[j],
    ensures
        forall|i: int|
            0 <= i < final(r)@.len() ==> final(r)@[i] != 0 && has_signal(
                whole@,
                (#[trigger] final(r)@[i]) as nat,
            ),
        forall|i: int, j: int| 0 <= i < j < final(r)@.len() ==> final(r)@[i] != final(r)@[j],
        forall|x: usize| old(r)@.contains(x) ==> final(r)@.contains(x),
        forall|k: int|
            0 <= k < terms@.len() && (#[trigger] terms@[k]).signal != 0 ==> final(r)@.contains(
                terms@[k].signal,
            ),
{
    let ghost tv = terms@.map_values(|t: crate::algebra::LinearTerm| t@);
    let n = terms.len();
    let mut i: usize = 0;
    while i < n
        invariant
            i <= n,
            n == terms@.len(),
            tv == terms@.map_values(|t: crate::algebra::LinearTerm| t@),
            tv == whole@.0 || tv == whole@.1 || tv == whole@.2,
            forall|k: int|
                0 <= k < r@.len() ==> r@[k] != 0 && has_signal(whole@, (#[trigger] r@[k]) as nat),
            forall|k: int, j: int| 0 <= k < j < r@.len() ==> r@[k] != r@[j],
            forall|x: usize| old(r)@.contains(x) ==> r@.contains(x),
            forall|k: int|
                0 <= k < i && (#[trigger] terms@[k]).signal != 0 ==> r@.contains(terms@[k].signal),
        decreases n - i,
    {
        let sig = terms[i].signal;
        if sig != 0 && !vec_contains(r, sig) {
            let ghost before = r@;
            r.push(sig);
            proof {
                assert(tv[i as int].0 == sig as nat);
                assert(has_signal(whole@, sig as nat));
                assert forall|x: usize| before.contains(x) implies r@.contains(x) by {
                    let k = choose|k: int| 0 <= k < before.len() && before[k] == x;
                    assert(r@[k] == x);
                }
                assert(r@.contains(sig)) by {
                    assert(r@[r@.len() - 1] == sig);
                }
            }
        }
        proof {
            if sig != 0 {
                assert(r@.contains(sig));
            }
        }
        i += 1;
    }
}

/// A union-find forest over signal ids; each entry points toward a smaller
/// representative, roots point to themselves.
struct SignalForest {
    parent: Vec<usize>,
}

impl SignalForest {
    spec fn wf(&self) -> bool {
        forall|i: int| 0 <= i < self.parent@.len() ==> (#[trigger] self.parent@[i]) <= i
    }

    fn new(n: usize) -> (r: SignalForest)
        ensures
            r.wf(),
            r.parent@.len() == n,
    {
        let mut parent: Vec<usize> = Vec::new();
        let mut i: usize = 0;
        while i < n
            invariant
                i <= n,
                parent@.len() == i,
                forall|j: int| 0 <= j < i ==> (#[trigger] parent@[j]) == j,
            decreases n - i,
        {
            parent.push(i);
            i += 1;
        }
        SignalForest { parent }
    }

    fn find(&self, x: usize) -> (r: usize)
        requires
            self.wf(),
            x < self.parent@.len(),
        ensures
            r < self.parent@.len(),
            self.parent@[r as int] == r,
    {
        let mut cur = x;
        while self.parent[cur] != cur
            invariant
                self.wf(),
                cur < self.parent@.len(),
            decreases cur,
        {
            cur = self.parent[cur];
        }
        cur
    }

    fn union(&mut self, a: usize, b: usize)
        requires
            old(self).wf(),
            a < old(self).parent@.len(),
            b < old(self).parent@.len(),
        ensures
            final(self).wf(),
            final(self).parent@.len() == old(self).parent@.len(),
    {
        let ra = self.find(a);
        let rb = self.find(b);
        if ra < rb {
            self.parent.set(rb, ra);
        } else if rb < ra {
            self.parent.set(ra, rb);
        }
    }
}


/// The constraint view occurs in the sequence.
pub open spec fn in_views(
    v: (Seq<(nat, Seq<u8>)>, Seq<(nat, Seq<u8>)>, Seq<(nat, Seq<u8>)>),
    cs: Seq<Constraint>,
) -> bool {
    exists|j: int| 0 <= j < cs.len() && v == (#[trigger] cs[j])@
}

/// The constraint view occurs in some cluster.
pub open spec fn in_clusters(
    v: (Seq<(nat, Seq<u8>)>, Seq<(nat, Seq<u8>)>, Seq<(nat, Seq<u8>)>),
    cls: Seq<Cluster>,
) -> bool {
    exists|k: int, i: int|
        0 <= k < cls.len() && 0 <= i < cls[k].constraints@.len() && v == (#[trigger] cls[k].constraints@[i])@
}

/// One cluster: its constraints in input order and the count of distinct
/// signals it touches.
pub struct Cluster {
    pub constraints: Vec<Constraint>,
    pub num_signals: usize,
}

impl Cluster {
    pub fn size(&self) -> (r: usize)
        ensures
            r == self.constraints@.len(),
    {
        self.constraints.len()
    }
}

/// A copy of a constraint, same view.
pub fn clone_constraint(c: &Constraint) -> (r: Constraint)
    ensures
        r@ == c@,
{
    let a = clone_expr(&c.a);
    let b = clone_expr(&c.b);
    let cc = clone_expr(&c.c);
    Constraint { a, b, c: cc }
}

pub(crate) fn clone_expr(e: &crate::algebra::LinearExpr) -> (r: crate::algebra::LinearExpr)
    ensures
        r@ == e@,
{
    let mut terms: Vec<crate::algebra::LinearTerm> = Vec::new();
    let mut i: usize = 0;
    while i < e.terms.len()
        invariant
            i <= e.terms@.len(),
            terms@.map_values(|t: crate::algebra::LinearTerm| t@) =~= e@.subrange(0, i as int),
        decreases e.terms@.len() - i,
    {
        let ghost before = terms@.map_values(|t: crate::algebra::LinearTerm| t@);
        let coeff = crate::algebra::clone_bytes(&e.terms[i].coeff);
        let signal = e.terms[i].signal;
        terms.push(crate::algebra::LinearTerm { signal, coeff });
        proof {
            assert(e@[i as int] == (e.terms@[i as int].signal as nat, e.terms@[i as int].coeff@));
            assert(terms@.map_values(|t: crate::algebra::LinearTerm| t@) =~= before + seq![
                (signal as nat, coeff@),
            ]);
            assert(before + seq![(signal as nat, coeff@)] =~= e@.subrange(0, i + 1));
        }
        i += 1;
    }
    proof {
        assert(e@.subrange(0, e.terms@.len() as int) =~= e@);
    }
    crate::algebra::LinearExpr { terms }
}

/// Partitions constraints into clusters of transitively signal-connected
/// constraints. Nothing is invented and nothing is dropped: every emitted
/// constraint is one of the inputs, and every input reappears in some
/// cluster. A constraint without witness signals forms a cluster of its own.
pub fn build_clusters(constraints: Vec<Constraint>, no_signals: usize) -> (r: Vec<Cluster>)
    requires
        forall|j: int| 0 <= j < constraints@.len() ==> signals_below((#[trigger] constraints@[j])@, no_signals as nat),
    ensures
        forall|k: int, i: int|
            0 <= k < r@.len() && 0 <= i < r@[k].constraints@.len() ==> in_views(
                (#[trigger] r@[k].constraints@[i])@,
                constraints@,
            ),
        forall|j: int| 0 <= j < constraints@.len() ==> in_clusters((#[trigger] constraints@[j])@, r@),
{
    let n = constraints.len();
    let mut forest = SignalForest::new(no_signals);

    // union the signals of each constraint
    let mut j: usize = 0;
    while j < n
        invariant
            j <= n,
            n == constraints@.len(),
            forest.wf(),
            forest.parent@.len() == no_signals,
            forall|x: int| 0 <= x < constraints@.len() ==> signals_below((#[trigger] constraints@[x])@, no_signals as nat),
        decreases n - j,
    {
        let sigs = take_cloned_signals(&constraints[j]);
        if sigs.len() > 0 {
            let first = sigs[0];
            proof {
                assert(has_signal(constraints@[j as int]@, sigs@[0] as nat));
            }
            let mut t: usize = 1;
            while t < sigs.len()
                invariant
                    1 <= t,
                    forest.wf(),
                    forest.parent@.len() == no_signals,
                    first < no_signals,
                    forall|i: int|
                        0 <= i < sigs@.len() ==> has_signal(
                            constraints@[j as int]@,
                            (#[trigger] sigs@[i]) as nat,
                        ),
                    signals_below(constraints@[j as int]@, no_signals as nat),
                decreases sigs@.len() - t,
            {
                forest.union(first, sigs[t]);
                t += 1;
            }
        }
        j += 1;
    }

    // assign each constraint a dense cluster id, in first-occurrence order
    let mut root_to_cluster: Vec<usize> = Vec::new();
    let mut i2: usize = 0;
    while i2 < no_signals
        invariant
            i2 <= no_signals,
            root_to_cluster@.len() == i2,
            forall|j: int| 0 <= j < i2 ==> (#[trigger] root_to_cluster@[j]) == usize::MAX,
        decreases no_signals - i2,
    {
        root_to_cluster.push(usize::MAX);
        i2 += 1;
    }
    let mut cluster_of: Vec<usize> = Vec::new();
    let mut num_clusters: usize = 0;
    let mut j2: usize = 0;
    while j2 < n
        invariant
            j2 <= n,
            n == constraints@.len(),
            cluster_of@.len() == j2,
            forest.wf(),
            forest.parent@.len() == no_signals,
            root_to_cluster@.len() == no_signals,
            num_clusters <= j2,
            forall|x: int| 0 <= x < j2 ==> (#[trigger] cluster_of@[x]) < num_clusters,
            forall|x: int|
                0 <= x < no_signals ==> (#[trigger] root_to_cluster@[x]) == usize::MAX
                    || root_to_cluster@[x] < num_clusters,
            forall|x: int| 0 <= x < constraints@.len() ==> signals_below((#[trigger] constraints@[x])@, no_signals as nat),
        decreases n - j2,
    {
        let sigs = take_cloned_signals(&constraints[j2]);
        if sigs.len() > 0 {
            proof {
                assert(has_signal(constraints@[j2 as int]@, sigs@[0] as nat));
            }
            let root = forest.find(sigs[0]);
            let assigned = root_to_cluster[root];
            if assigned == usize::MAX {
                root_to_cluster.set(root, num_clusters);
                cluster_of.push(num_clusters);
                num_clusters += 1;
            } else {
                cluster_of.push(assigned);
            }
        } else {
            cluster_of.push(num_clusters);
            num_clusters += 1;
        }
        j2 += 1;
    }

    // count distinct signals per cluster
    let mut counts: Vec<usize> = Vec::new();
    let mut k0: usize = 0;
    while k0 < num_clusters
        invariant
            k0 <= num_clusters,
            counts@.len() == k0,
        decreases num_clusters - k0,
    {
        counts.push(0);
        k0 += 1;
    }
    let mut s0: usize = 0;
    while s0 < no_signals
        invariant
            s0 <= no_signals,
            counts@.len() == num_clusters,
            forest.wf(),
            forest.parent@.len() == no_signals,
            root_to_cluster@.len() == no_signals,
        decreases no_signals - s0,
    {
        let root = forest.find(s0);
        let cl = root_to_cluster[root];
        if cl < num_clusters && counts[cl] < usize::MAX {
            let c = counts[cl];
            counts.set(cl, c + 1);
        }
        s0 += 1;
    }

    // materialize the clusters
    let mut clusters: Vec<Cluster> = Vec::new();
    let mut k: usize = 0;
    while k < num_clusters
        invariant
            k <= num_clusters,
            n == constraints@.len(),
            clusters@.len() == k,
            cluster_of@.len() == n,
            counts@.len() == num_clusters,
            forall|x: int| 0 <= x < n ==> (#[trigger] cluster_of@[x]) < num_clusters,
            forall|kk: int, i: int|
                0 <= kk < clusters@.len() && 0 <= i < clusters@[kk].constraints@.len() ==> in_views(
                    (#[trigger] clusters@[kk].constraints@[i])@,
                    constraints@,
                ),
            forall|j: int|
                0 <= j < n && (#[trigger] cluster_of@[j]) < k ==> in_clusters(
                    constraints@[j]@,
                    clusters@,
                ),
        decreases num_clusters - k,
    {
        let mut cvec: Vec<Constraint> = Vec::new();
        let mut j3: usize = 0;
        while j3 < n
            invariant
                j3 <= n,
                n == constraints@.len(),
                cluster_of@.len() == n,
                forall|i: int|
                    0 <= i < cvec@.len() ==> in_views((#[trigger] cvec@[i])@, constraints@),
                forall|j: int|
                    0 <= j < j3 && (#[trigger] cluster_of@[j]) == k ==> exists|i: int|
                        0 <= i < cvec@.len() && constraints@[j]@ == (#[trigger] cvec@[i])@,
            decreases n - j3,
        {
            if cluster_of[j3] == k {
                let c = clone_constraint(&constraints[j3]);
                let ghost before = cvec@;
                cvec.push(c);
                proof {
                    assert(cvec@[cvec@.len() - 1]@ == constraints@[j3 as int]@);
                    assert(in_views(cvec@[cvec@.len() - 1]@, constraints@));
                    assert forall|i: int| 0 <= i < cvec@.len() implies in_views(
                        (#[trigger] cvec@[i])@,
                        constraints@,
                    ) by {
                        if i < before.len() {
                            assert(cvec@[i] == before[i]);
                        }
                    }
                    assert forall|j: int|
                        0 <= j < j3 + 1 && (#[trigger] cluster_of@[j]) == k implies exists|i: int|
                        0 <= i < cvec@.len() && constraints@[j]@ == (#[trigger] cvec@[i])@ by {
                        if j < j3 {
                            let i = choose|i: int|
                                0 <= i < before.len() && constraints@[j]@ == (#[trigger] before[i])@;
                            assert(cvec@[i] == before[i]);
                            assert(constraints@[j]@ == cvec@[i]@);
                        } else {
                            assert(constraints@[j]@ == cvec@[cvec@.len() - 1]@);
                        }
                    }
                }
            }
            j3 += 1;
        }
        let nsig = counts[k];
        let ghost before_cl = clusters@;
        let ghost cvec_v = cvec@;
        clusters.push(Cluster { constraints: cvec, num_signals: nsig });
        proof {
            assert(clusters@[k as int].constraints@ == cvec_v);
            assert forall|kk: int, i: int|
                0 <= kk < clusters@.len() && 0 <= i < clusters@[kk].constraints@.len() implies in_views(
                (#[trigger] clusters@[kk].constraints@[i])@,
                constraints@,
            ) by {
                if kk < before_cl.len() {
                    assert(clusters@[kk] == before_cl[kk]);
                } else {
                    assert(clusters@[kk].constraints@ == cvec_v);
                }
            }
            assert forall|j: int|
                0 <= j < n && (#[trigger] cluster_of@[j]) < k + 1 implies in_clusters(
                constraints@[j]@,
                clusters@,
            ) by {
                if cluster_of@[j] < k {
                    let (kk, i) = choose|kk: int, i: int|
                        0 <= kk < before_cl.len() && 0 <= i < before_cl[kk].constraints@.len()
                            && constraints@[j]@ == (#[trigger] before_cl[kk].constraints@[i])@;
                    assert(clusters@[kk] == before_cl[kk]);
                    assert(in_clusters(constraints@[j]@, clusters@));
                } else {
                    let i = choose|i: int|
                        0 <= i < cvec_v.len() && constraints@[j]@ == (#[trigger] cvec_v[i])@;
                    assert(clusters@[k as int].constraints@[i]@ == constraints@[j]@);
                    assert(in_clusters(constraints@[j]@, clusters@));
                }
            }
        }
        k += 1;
    }
    proof {
        assert forall|j: int| 0 <= j < constraints@.len() implies in_clusters(
            (#[trigger] constraints@[j])@,
            clusters@,
        ) by {
            assert(cluster_of@[j] < num_clusters);
        }
    }
    clusters
}

} // verus!
