//! The hierarchical circuit graph and its flattening.
//!
//! A node describes one template: its local signals (ids `1..=n_signals`,
//! with 0 the shared constant), its constraints over those locals, and edges
//! to subcomponent nodes together with wiring bindings that equate a parent
//! local with a child local. Edges always point to earlier nodes, so the
//! graph is acyclic and the main node comes last.
//!
//! Flattening walks the instance tree depth first, gives every instance a
//! fresh block of global signal ids from a running counter, emits its
//! constraints shifted into global ids, turns each wiring binding into an
//! equality constraint, and buckets everything into equalities, constant
//! equalities, other linear constraints, and deferred non-linear constraints
//! recorded per instance in the encoding for later passes.

use vstd::prelude::*;

use crate::algebra::{coeff_of, norm_terms, Constraint, LinearExpr, LinearTerm};
use crate::bytes::le_val;
use crate::clusters::signals_below;
use crate::field::Field;
use crate::algebra::{expr_bounded, lemma_bounded_from_terms};
use crate::solver::{all_wf, lemma_bounded_from_below};

verus! {

/// One wiring binding: the parent's local signal equals the child's local
/// signal.
pub struct DagEdge {
    pub goes_to: usize,
    pub bindings: Vec<(usize, usize)>,
}

/// One template node of the circuit graph.
pub struct DagNode {
    pub name: Vec<u8>,
    pub parameters: Vec<Vec<u8>>,
    pub is_custom_gate: bool,
    pub n_signals: usize,
    pub forbidden_if_main: Vec<usize>,
    pub constraints: Vec<Constraint>,
    pub edges: Vec<DagEdge>,
    pub ordered_signals: Vec<usize>,
}

/// The circuit graph: prime, template nodes, and the main node's id.
pub struct Dag {
    pub prime: Vec<u8>,
    pub nodes: Vec<DagNode>,
    pub main_id: usize,
    pub public_inputs: usize,
    pub public_outputs: usize,
    pub private_inputs: usize,
}

impl Dag {
    /// Acyclicity and local well-formedness: edges point to earlier nodes,
    /// local constraints use local ids only, bindings stay in range.
    pub open spec fn wf(&self, p: nat) -> bool {
        &&& self.main_id < self.nodes@.len()
        &&& forall|i: int, e: int|
            0 <= i < self.nodes@.len() && 0 <= e < (#[trigger] self.nodes@[i]).edges@.len() ==> (
            #[trigger] self.nodes@[i].edges@[e]).goes_to < i
        &&& forall|i: int|
            0 <= i < self.nodes@.len() ==> all_wf((#[trigger] self.nodes@[i]).constraints@, p)
        &&& forall|i: int, c: int|
            0 <= i < self.nodes@.len() && 0 <= c < (#[trigger] self.nodes@[i]).constraints@.len()
                ==> signals_below(
                (#[trigger] self.nodes@[i].constraints@[c])@,
                (self.nodes@[i].n_signals + 1) as nat,
            )
        &&& forall|i: int, e: int|
            0 <= i < self.nodes@.len() && 0 <= e < (#[trigger] self.nodes@[i]).edges@.len()
                ==> bindings_ok(
                (#[trigger] self.nodes@[i].edges@[e]).bindings@,
                self.nodes@[i].n_signals as nat,
                self.nodes@[self.nodes@[i].edges@[e].goes_to as int].n_signals as nat,
            )
        &&& forall|i: int, k: int|
            0 <= i < self.nodes@.len() && 0 <= k
                < (#[trigger] self.nodes@[i]).ordered_signals@.len() ==> 1 <= (
            #[trigger] self.nodes@[i].ordered_signals@[k]) <= self.nodes@[i].n_signals
        &&& forall|i: int, k: int|
            0 <= i < self.nodes@.len() && 0 <= k
                < (#[trigger] self.nodes@[i]).forbidden_if_main@.len() ==> 1 <= (
            #[trigger] self.nodes@[i].forbidden_if_main@[k]) <= self.nodes@[i].n_signals
    }
}

/// Bindings pair a nonzero parent local with a nonzero child local, both in
/// range.
pub open spec fn bindings_ok(bs: Seq<(usize, usize)>, parent_n: nat, child_n: nat) -> bool {
    forall|k: int|
        0 <= k < bs.len() ==> {
            &&& 1 <= (#[trigger] bs[k]).0 <= parent_n
            &&& 1 <= bs[k].1 <= child_n
        }
}

/// One flattened instance in the encoding: global signal ids and the
/// deferred non-linear constraints, kept for the later walk that stores
/// multiplicative constraints.
pub struct EncodingNode {
    pub node_id: usize,
    pub name: Vec<u8>,
    pub parameters: Vec<Vec<u8>>,
    pub is_custom_gate: bool,
    pub signals: Vec<usize>,
    pub ordered_signals: Vec<usize>,
    pub non_linear: Vec<Constraint>,
}

/// The flattened instance list, re-walkable without re-instantiating.
pub struct Encoding {
    pub nodes: Vec<EncodingNode>,
}

impl Encoding {
    /// All recorded constraints well formed and within the signal space.
    pub open spec fn wf(&self, p: nat, n: nat) -> bool {
        &&& forall|i: int|
            0 <= i < self.nodes@.len() ==> all_wf((#[trigger] self.nodes@[i]).non_linear@, p)
        &&& forall|i: int, c: int|
            0 <= i < self.nodes@.len() && 0 <= c < (#[trigger] self.nodes@[i]).non_linear@.len()
                ==> c_bounded(#[trigger] self.nodes@[i].non_linear@[c], n)
        &&& forall|i: int, k: int|
            0 <= i < self.nodes@.len() && 0 <= k < (#[trigger] self.nodes@[i]).signals@.len() ==> (
            #[trigger] self.nodes@[i].signals@[k]) < n
        &&& forall|i: int, k: int|
            0 <= i < self.nodes@.len() && 0 <= k
                < (#[trigger] self.nodes@[i]).ordered_signals@.len() ==> (
            #[trigger] self.nodes@[i].ordered_signals@[k]) < n
    }

    /// Drops the recorded constraints once they have been consumed.
    pub fn empty_encoding_constraints(&mut self)
        ensures
            final(self).nodes@.len() == old(self).nodes@.len(),
    {
        let mut out: Vec<EncodingNode> = Vec::new();
        let n = self.nodes.len();
        while self.nodes.len() > 0
            invariant
                out@.len() + self.nodes@.len() == n,
            decreases self.nodes@.len(),
        {
            let mut node = self.nodes.remove(0);
            node.non_linear = Vec::new();
            out.push(node);
        }
        self.nodes = out;
    }
}

/// All three sides of a constraint carry no coefficient at or above `n`.
pub open spec fn c_bounded(c: Constraint, n: nat) -> bool {
    &&& expr_bounded(c.a@, n)
    &&& expr_bounded(c.b@, n)
    &&& expr_bounded(c.c@, n)
}

/// A well-formed, bounded constraint.
pub open spec fn c_ok(c: Constraint, p: nat, n: nat) -> bool {
    &&& c.wf(p)
    &&& c_bounded(c, n)
}

pub open spec fn all_ok(cs: Seq<Constraint>, p: nat, n: nat) -> bool {
    forall|i: int| 0 <= i < cs.len() ==> c_ok(#[trigger] cs[i], p, n)
}

/// With well-formed sides, coefficient-wise boundedness gives presence-wise
/// boundedness: every mentioned signal is below the bound.
pub proof fn lemma_below_from_bounded(c: Constraint, p: nat, n: nat)
    requires
        c_ok(c, p, n),
    ensures
        signals_below(c@, n),
{
    assert forall|s: nat| #[trigger] crate::clusters::has_signal(c@, s) implies s < n by {
        if exists|i: int| 0 <= i < c@.0.len() && (#[trigger] c@.0[i]).0 == s {
            let i = choose|i: int| 0 <= i < c@.0.len() && (#[trigger] c@.0[i]).0 == s;
            crate::algebra::lemma_coeff_of_present(c.a@, i);
            if s >= n {
                assert(coeff_of(c.a@, s) == 0);
            }
        } else if exists|i: int| 0 <= i < c@.1.len() && (#[trigger] c@.1[i]).0 == s {
            let i = choose|i: int| 0 <= i < c@.1.len() && (#[trigger] c@.1[i]).0 == s;
            crate::algebra::lemma_coeff_of_present(c.b@, i);
            if s >= n {
                assert(coeff_of(c.b@, s) == 0);
            }
        } else {
            let i = choose|i: int| 0 <= i < c@.2.len() && (#[trigger] c@.2[i]).0 == s;
            crate::algebra::lemma_coeff_of_present(c.c@, i);
            if s >= n {
                assert(coeff_of(c.c@, s) == 0);
            }
        }
    }
}

/// The buckets the flattener fills.
pub struct CHolder {
    pub linear: Vec<Constraint>,
    pub equalities: Vec<Constraint>,
    pub constant_equalities: Vec<Constraint>,
}

/// Whether a linear constraint is a pure two-signal equality `x = y`: no
/// constant term, exactly two witness signals, coefficients summing to zero.
pub fn is_equality(c: &Constraint, f: &Field) -> (r: bool)
    requires
        f.wf(),
        c.wf(f.modulus()),
    ensures
        r ==> {
            &&& c.is_linear_spec()
            &&& c.c@.len() == 2
            &&& c.c@[0].0 != 0
            &&& c.c@[1].0 != 0
            &&& (le_val(c.c@[0].1) + le_val(c.c@[1].1)) % f.modulus() == 0
        },
{
    if !(c.a.terms.len() == 0 && c.b.terms.len() == 0 && c.c.terms.len() == 2) {
        return false;
    }
    if c.c.terms[0].signal == 0 || c.c.terms[1].signal == 0 {
        return false;
    }
    proof {
        assert(c.c@[0] == (c.c.terms@[0].signal as nat, c.c.terms@[0].coeff@));
        assert(c.c@[1] == (c.c.terms@[1].signal as nat, c.c.terms@[1].coeff@));
    }
    let sum = f.add(&c.c.terms[0].coeff, &c.c.terms[1].coeff);
    crate::field::fe_is_zero(&sum)
}

/// Whether a linear constraint fixes a single witness signal to a constant:
/// exactly one term on a witness signal, beside an optional constant term.
pub fn is_constant_equality(c: &Constraint) -> (r: bool)
    ensures
        r ==> {
            &&& c.is_linear_spec()
            &&& c.c@.len() >= 1
            &&& c.c@[c.c@.len() - 1].0 != 0
            &&& forall|k: int| 0 <= k < c.c@.len() - 1 ==> (#[trigger] c.c@[k]).0 == 0
        },
{
    if !(c.a.terms.len() == 0 && c.b.terms.len() == 0) {
        return false;
    }
    proof {
        assert forall|k: int| 0 <= k < c.c@.len() implies #[trigger] c.c@[k] == (
            c.c.terms@[k].signal as nat,
            c.c.terms@[k].coeff@,
        ) by {}
    }
    let n = c.c.terms.len();
    if n == 1 {
        c.c.terms[0].signal != 0
    } else if n == 2 {
        c.c.terms[0].signal == 0 && c.c.terms[1].signal != 0
    } else {
        false
    }
}

/// Shifts a local linear expression into global ids: local `l >= 1` becomes
/// `offset + l - 1`, the constant signal stays 0.
fn shift_expr(e: &LinearExpr, offset: usize, bound: Ghost<nat>) -> (r: LinearExpr)
    requires
        offset >= 1,
        forall|k: int| 0 <= k < e@.len() ==> (#[trigger] e@[k]).0 + offset <= bound@,
        crate::algebra::sig_sorted(e@),
        bound@ <= usize::MAX,
    ensures
        r@.len() == e@.len(),
        forall|k: int|
            0 <= k < e@.len() ==> (#[trigger] r@[k]) == (
                if e@[k].0 == 0 {
                    0nat
                } else {
                    (e@[k].0 + offset - 1) as nat
                },
                e@[k].1,
            ),
        crate::algebra::sig_sorted(r@),
        forall|k: int| 0 <= k < r@.len() ==> (#[trigger] r@[k]).0 < bound@ || r@[k].0 == 0,
{
    let mut terms: Vec<LinearTerm> = Vec::new();
    let n = e.terms.len();
    let mut i: usize = 0;
    while i < n
        invariant
            i <= n,
            n == e@.len(),
            offset >= 1,
            bound@ <= usize::MAX,
            forall|k: int| 0 <= k < e@.len() ==> (#[trigger] e@[k]).0 + offset <= bound@,
            terms@.len() == i,
            forall|k: int|
                0 <= k < i ==> ((#[trigger] terms@[k]).signal as nat, terms@[k].coeff@) == (
                    if e@[k].0 == 0 {
                        0nat
                    } else {
                        (e@[k].0 + offset - 1) as nat
                    },
                    e@[k].1,
                ),
        decreases n - i,
    {
        let local = e.terms[i].signal;
        let coeff = crate::algebra::clone_bytes(&e.terms[i].coeff);
        proof {
            assert(e@[i as int] == (e.terms@[i as int].signal as nat, e.terms@[i as int].coeff@));
            assert(e@[i as int].0 + offset <= bound@);
        }
        let global = if local == 0 {
            0
        } else {
            offset - 1 + local
        };
        terms.push(LinearTerm { signal: global, coeff });
        i += 1;
    }
    let r = LinearExpr { terms };
    proof {
        assert forall|x: int, y: int| 0 <= x < y < r@.len() implies r@[x].0 < r@[y].0 by {
            assert(e@[x].0 < e@[y].0);
        }
    }
    r
}

/// Shifts a whole constraint into global ids.
fn shift_constraint(c: &Constraint, offset: usize, counter: usize, f: &Field) -> (r: Constraint)
    requires
        f.wf(),
        c.wf(f.modulus()),
        offset >= 1,
        forall|k: int| 0 <= k < c.a@.len() ==> (#[trigger] c.a@[k]).0 + offset <= counter,
        forall|k: int| 0 <= k < c.b@.len() ==> (#[trigger] c.b@[k]).0 + offset <= counter,
        forall|k: int| 0 <= k < c.c@.len() ==> (#[trigger] c.c@[k]).0 + offset <= counter,
    ensures
        c_ok(r, f.modulus(), counter as nat),
        r.a@.len() == c.a@.len(),
        r.b@.len() == c.b@.len(),
        r.c@.len() == c.c@.len(),
{
    let ghost p = f.modulus();
    let a = shift_expr(&c.a, offset, Ghost(counter as nat));
    let b = shift_expr(&c.b, offset, Ghost(counter as nat));
    let cc = shift_expr(&c.c, offset, Ghost(counter as nat));
    let r = Constraint { a, b, c: cc };
    proof {
        lemma_shift_ok(c.a@, r.a@, p, counter as nat);
        lemma_shift_ok(c.b@, r.b@, p, counter as nat);
        lemma_shift_ok(c.c@, r.c@, p, counter as nat);
    }
    r
}

proof fn lemma_shift_ok(orig: Seq<(nat, Seq<u8>)>, new: Seq<(nat, Seq<u8>)>, p: nat, n: nat)
    requires
        norm_terms(orig, p),
        crate::algebra::sig_sorted(new),
        new.len() == orig.len(),
        forall|k: int| 0 <= k < new.len() ==> (#[trigger] new[k]).1 == orig[k].1,
        forall|k: int| 0 <= k < new.len() ==> (#[trigger] new[k]).0 < n,
    ensures
        norm_terms(new, p),
        expr_bounded(new, n),
{
    assert forall|k: int| 0 <= k < new.len() implies crate::bytes::minimal_le(#[trigger] new[k].1)
        && 0 < le_val(new[k].1) < p by {
        assert(orig[k].1 == new[k].1);
    }
    assert forall|s: nat| s >= n implies #[trigger] coeff_of(new, s) == 0 by {
        assert forall|k: int| 0 <= k < new.len() implies (#[trigger] new[k]).0 != s by {}
        crate::algebra::lemma_coeff_of_absent(new, s);
    }
}


/// The number of global signals flattening allocates for an instance of
/// `node`, counting the node's own block and, recursively, one block per
/// subcomponent instance reached through the first `e` edges. Edges that do
/// not point to an earlier node contribute nothing, as flattening never
/// follows them.
pub open spec fn flatten_total(dag: Dag, node: int, e: int) -> nat
    decreases node, e,
{
    if node < 0 || node >= dag.nodes@.len() || e < 0 {
        0
    } else if e > dag.nodes@[node].edges@.len() {
        flatten_total(dag, node, dag.nodes@[node].edges@.len() as int)
    } else if e == 0 {
        dag.nodes@[node].n_signals as nat
    } else {
        let child = dag.nodes@[node].edges@[e - 1].goes_to as int;
        flatten_total(dag, node, e - 1) + (if 0 <= child < node {
            flatten_total(dag, child, dag.nodes@[child].edges@.len() as int)
        } else {
            0
        })
    }
}

/// The whole signal block an instance subtree allocates.
pub open spec fn tree_total(dag: Dag, node: int) -> nat {
    if 0 <= node < dag.nodes@.len() {
        flatten_total(dag, node, dag.nodes@[node].edges@.len() as int)
    } else {
        0
    }
}

/// The allocation grows with the number of edges taken.
pub proof fn lemma_flatten_total_mono(dag: Dag, node: int, e1: int, e2: int)
    requires
        0 <= node < dag.nodes@.len(),
        0 <= e1 <= e2,
    ensures
        flatten_total(dag, node, e1) <= flatten_total(dag, node, e2),
    decreases e2,
{
    let len = dag.nodes@[node].edges@.len() as int;
    if e2 > len {
        if e1 > len {
            assert(flatten_total(dag, node, e1) == flatten_total(dag, node, len));
        } else {
            lemma_flatten_total_mono(dag, node, e1, len);
        }
    } else if e1 < e2 {
        lemma_flatten_total_mono(dag, node, e1, e2 - 1);
    }
}

/// The flags steering simplification: the round budget, whether the linear
/// phase is skipped, whether cluster solving may fan out, which
/// pivot-selection heuristic to use, and whether to trace substitutions.
pub struct SimplificationFlags {
    pub no_rounds: usize,
    pub flag_s: bool,
    pub parallel_flag: bool,
    pub flag_old_heuristics: bool,
    pub port_substitution: bool,
}

/// Boundedness is monotone in the bound.
pub proof fn lemma_c_ok_mono(c: Constraint, p: nat, n1: nat, n2: nat)
    requires
        c_ok(c, p, n1),
        n1 <= n2,
    ensures
        c_ok(c, p, n2),
{
    assert forall|s: nat| s >= n2 implies #[trigger] coeff_of(c.a@, s) == 0 by {
        assert(s >= n1);
    }
    assert forall|s: nat| s >= n2 implies #[trigger] coeff_of(c.b@, s) == 0 by {
        assert(s >= n1);
    }
    assert forall|s: nat| s >= n2 implies #[trigger] coeff_of(c.c@, s) == 0 by {
        assert(s >= n1);
    }
}

pub proof fn lemma_all_ok_mono(cs: Seq<Constraint>, p: nat, n1: nat, n2: nat)
    requires
        all_ok(cs, p, n1),
        n1 <= n2,
    ensures
        all_ok(cs, p, n2),
{
    assert forall|i: int| 0 <= i < cs.len() implies c_ok(#[trigger] cs[i], p, n2) by {
        lemma_c_ok_mono(cs[i], p, n1, n2);
    }
}

/// The encoding nodes' recorded state is within bounds.
pub open spec fn enc_ok(nodes: Seq<EncodingNode>, p: nat, n: nat) -> bool {
    &&& forall|i: int, c: int|
        0 <= i < nodes.len() && 0 <= c < (#[trigger] nodes[i]).non_linear@.len() ==> c_ok(
            #[trigger] nodes[i].non_linear@[c],
            p,
            n,
        )
    &&& forall|i: int, k: int|
        0 <= i < nodes.len() && 0 <= k < (#[trigger] nodes[i]).signals@.len() ==> (
        #[trigger] nodes[i].signals@[k]) < n
    &&& forall|i: int, k: int|
        0 <= i < nodes.len() && 0 <= k < (#[trigger] nodes[i]).ordered_signals@.len() ==> (
        #[trigger] nodes[i].ordered_signals@[k]) < n
}

pub proof fn lemma_enc_ok_mono(nodes: Seq<EncodingNode>, p: nat, n1: nat, n2: nat)
    requires
        enc_ok(nodes, p, n1),
        n1 <= n2,
    ensures
        enc_ok(nodes, p, n2),
{
    assert forall|i: int, c: int|
        0 <= i < nodes.len() && 0 <= c < (#[trigger] nodes[i]).non_linear@.len() implies c_ok(
        #[trigger] nodes[i].non_linear@[c],
        p,
        n2,
    ) by {
        lemma_c_ok_mono(nodes[i].non_linear@[c], p, n1, n2);
    }
}

/// Every signal mentioned in a constraint under `signals_below(bound)` sits
/// below the bound, term by term.
proof fn lemma_term_bounds(c: Constraint, bound: nat)
    requires
        signals_below(c@, bound),
    ensures
        forall|k: int| 0 <= k < c.a@.len() ==> (#[trigger] c.a@[k]).0 < bound,
        forall|k: int| 0 <= k < c.b@.len() ==> (#[trigger] c.b@[k]).0 < bound,
        forall|k: int| 0 <= k < c.c@.len() ==> (#[trigger] c.c@[k]).0 < bound,
{
    assert forall|k: int| 0 <= k < c.a@.len() implies (#[trigger] c.a@[k]).0 < bound by {
        assert(c@.0 == c.a@);
        assert(c@.0[k].0 == c.a@[k].0);
        assert(crate::clusters::has_signal(c@, c.a@[k].0));
    }
    assert forall|k: int| 0 <= k < c.b@.len() implies (#[trigger] c.b@[k]).0 < bound by {
        assert(c@.1 == c.b@);
        assert(c@.1[k].0 == c.b@[k].0);
        assert(crate::clusters::has_signal(c@, c.b@[k].0));
    }
    assert forall|k: int| 0 <= k < c.c@.len() implies (#[trigger] c.c@[k]).0 < bound by {
        assert(c@.2 == c.c@);
        assert(c@.2[k].0 == c.c@[k].0);
        assert(crate::clusters::has_signal(c@, c.c@[k].0));
    }
}

/// The pure equality `sa = sb` as a linear constraint, `sa < sb`.
fn make_equality(sa: usize, sb: usize, f: &Field) -> (r: Constraint)
    requires
        f.wf(),
        sa < sb,
        sa != 0,
    ensures
        r.wf(f.modulus()),
        r.is_linear_spec(),
        r.c@.len() == 2,
        r.c@[0].0 == sa as nat,
        r.c@[1].0 == sb as nat,
{
    let ghost p = f.modulus();
    let mut one: Vec<u8> = Vec::new();
    one.push(1);
    proof {
        crate::bytes::lemma_le_val_single(1u8);
        assert(one@ =~= seq![1u8]);
    }
    let zero: Vec<u8> = Vec::new();
    let minus_one = f.sub(&zero, &one);
    proof {
        assert(le_val(zero@) == 0);
        vstd::arithmetic::div_mod::lemma_small_mod((p - 1) as nat, p);
        assert(le_val(minus_one@) == p - 1);
    }
    let mut terms: Vec<LinearTerm> = Vec::new();
    terms.push(LinearTerm { signal: sa, coeff: one });
    terms.push(LinearTerm { signal: sb, coeff: minus_one });
    let c = Constraint { a: LinearExpr::empty(), b: LinearExpr::empty(), c: LinearExpr { terms } };
    proof {
        assert(c.c@.len() == 2);
        assert(c.c@[0] == (c.c.terms@[0].signal as nat, c.c.terms@[0].coeff@));
        assert(c.c@[1] == (c.c.terms@[1].signal as nat, c.c.terms@[1].coeff@));
        assert(norm_terms(c.c@, p));
    }
    c
}

/// Flattens one instance subtree: allocates a fresh block of global ids for
/// the node, emits and buckets its shifted constraints, records the instance
/// in the encoding, recurses into subcomponents and turns every wiring
/// binding into an equality. Returns the instance's signal offset, or None
/// when the global signal space would overflow the machine word.
pub(crate) fn flatten_node(
    dag: &Dag,
    node_id: usize,
    counter: &mut usize,
    holder: &mut CHolder,
    enc_nodes: &mut Vec<EncodingNode>,
    f: &Field,
) -> (r: Option<usize>)
    requires
        f.wf(),
        dag.wf(f.modulus()),
        node_id < dag.nodes@.len(),
        *old(counter) >= 1,
        all_ok(old(holder).linear@, f.modulus(), *old(counter) as nat),
        all_ok(old(holder).equalities@, f.modulus(), *old(counter) as nat),
        all_ok(old(holder).constant_equalities@, f.modulus(), *old(counter) as nat),
        enc_ok(old(enc_nodes)@, f.modulus(), *old(counter) as nat),
    ensures
        *final(counter) >= *old(counter),
        *final(counter) >= 1,
        all_ok(final(holder).linear@, f.modulus(), *final(counter) as nat),
        all_ok(final(holder).equalities@, f.modulus(), *final(counter) as nat),
        all_ok(final(holder).constant_equalities@, f.modulus(), *final(counter) as nat),
        enc_ok(final(enc_nodes)@, f.modulus(), *final(counter) as nat),
        r matches Some(off) ==> off == *old(counter) && off + dag.nodes@[node_id as int].n_signals
            <= *final(counter),
        r is Some ==> *old(counter) + tree_total(*dag, node_id as int) <= usize::MAX
            && *final(counter) == *old(counter) + tree_total(*dag, node_id as int),
        r is None ==> *old(counter) + tree_total(*dag, node_id as int) > usize::MAX,
    decreases node_id,
{
    let ghost p = f.modulus();
    let n_sig = dag.nodes[node_id].n_signals;
    proof {
        lemma_flatten_total_mono(
            *dag,
            node_id as int,
            0,
            dag.nodes@[node_id as int].edges@.len() as int,
        );
        assert(flatten_total(*dag, node_id as int, 0) == n_sig as nat);
        assert(tree_total(*dag, node_id as int) >= n_sig as nat);
    }
    if *counter > usize::MAX - n_sig {
        return None;
    }
    let offset = *counter;
    *counter = offset + n_sig;
    proof {
        lemma_all_ok_mono(holder.linear@, p, offset as nat, *counter as nat);
        lemma_all_ok_mono(holder.equalities@, p, offset as nat, *counter as nat);
        lemma_all_ok_mono(holder.constant_equalities@, p, offset as nat, *counter as nat);
        lemma_enc_ok_mono(enc_nodes@, p, offset as nat, *counter as nat);
    }

    // shift and bucket this node's own constraints
    let mut nl: Vec<Constraint> = Vec::new();
    let ncons = dag.nodes[node_id].constraints.len();
    let mut ci: usize = 0;
    while ci < ncons
        invariant
            ci <= ncons,
            f.wf(),
            p == f.modulus(),
            dag.wf(p),
            node_id < dag.nodes@.len(),
            ncons == dag.nodes@[node_id as int].constraints@.len(),
            offset >= 1,
            offset == *old(counter),
            *counter == offset + dag.nodes@[node_id as int].n_signals,
            all_ok(holder.linear@, p, *counter as nat),
            all_ok(holder.equalities@, p, *counter as nat),
            all_ok(holder.constant_equalities@, p, *counter as nat),
            all_ok(nl@, p, *counter as nat),
        decreases ncons - ci,
    {
        let c0 = &dag.nodes[node_id].constraints[ci];
        proof {
            lemma_term_bounds(*c0, (dag.nodes@[node_id as int].n_signals + 1) as nat);
        }
        let shifted = shift_constraint(c0, offset, *counter, f);
        if shifted.is_linear() {
            if is_equality(&shifted, f) {
                holder.equalities.push(shifted);
            } else if is_constant_equality(&shifted) {
                holder.constant_equalities.push(shifted);
            } else {
                holder.linear.push(shifted);
            }
        } else {
            nl.push(shifted);
        }
        ci += 1;
    }

    // record the instance in the encoding
    let mut signals: Vec<usize> = Vec::new();
    let mut si: usize = 0;
    while si < n_sig
        invariant
            si <= n_sig,
            offset >= 1,
            offset + n_sig <= usize::MAX,
            signals@.len() == si,
            forall|k: int| 0 <= k < si ==> (#[trigger] signals@[k]) == offset + k,
        decreases n_sig - si,
    {
        signals.push(offset + si);
        si += 1;
    }
    let mut ordered: Vec<usize> = Vec::new();
    let nord = dag.nodes[node_id].ordered_signals.len();
    let mut oi: usize = 0;
    while oi < nord
        invariant
            oi <= nord,
            f.wf(),
            dag.wf(p),
            node_id < dag.nodes@.len(),
            nord == dag.nodes@[node_id as int].ordered_signals@.len(),
            offset >= 1,
            offset + dag.nodes@[node_id as int].n_signals <= usize::MAX,
            ordered@.len() == oi,
            forall|k: int|
                0 <= k < oi ==> (#[trigger] ordered@[k]) < offset
                    + dag.nodes@[node_id as int].n_signals,
        decreases nord - oi,
    {
        let l = dag.nodes[node_id].ordered_signals[oi];
        ordered.push(offset - 1 + l);
        oi += 1;
    }
    let name = crate::algebra::clone_bytes(&dag.nodes[node_id].name);
    let mut parameters: Vec<Vec<u8>> = Vec::new();
    let npar = dag.nodes[node_id].parameters.len();
    let mut pi: usize = 0;
    while pi < npar
        invariant
            pi <= npar,
            node_id < dag.nodes@.len(),
            npar == dag.nodes@[node_id as int].parameters@.len(),
        decreases npar - pi,
    {
        parameters.push(crate::algebra::clone_bytes(&dag.nodes[node_id].parameters[pi]));
        pi += 1;
    }
    let ghost counter_at_node = *counter;
    enc_nodes.push(
        EncodingNode {
            node_id,
            name,
            parameters,
            is_custom_gate: dag.nodes[node_id].is_custom_gate,
            signals,
            ordered_signals: ordered,
            non_linear: nl,
        },
    );
    proof {
        assert(enc_ok(enc_nodes@, p, *counter as nat));
    }

    // recurse into subcomponents and wire them up
    let nedges = dag.nodes[node_id].edges.len();
    let mut ei: usize = 0;
    while ei < nedges
        invariant
            ei <= nedges,
            f.wf(),
            p == f.modulus(),
            dag.wf(p),
            node_id < dag.nodes@.len(),
            nedges == dag.nodes@[node_id as int].edges@.len(),
            offset >= 1,
            offset == *old(counter),
            *counter >= offset + dag.nodes@[node_id as int].n_signals,
            *counter == *old(counter) + flatten_total(*dag, node_id as int, ei as int),
            all_ok(holder.linear@, p, *counter as nat),
            all_ok(holder.equalities@, p, *counter as nat),
            all_ok(holder.constant_equalities@, p, *counter as nat),
            enc_ok(enc_nodes@, p, *counter as nat),
        decreases nedges - ei,
    {
        let child = dag.nodes[node_id].edges[ei].goes_to;
        proof {
            assert(dag.nodes@[node_id as int].edges@[ei as int].goes_to < node_id);
            assert(flatten_total(*dag, node_id as int, ei + 1) == flatten_total(
                *dag,
                node_id as int,
                ei as int,
            ) + tree_total(*dag, child as int)) by {
                assert(ei + 1 <= dag.nodes@[node_id as int].edges@.len());
                assert(dag.nodes@[node_id as int].edges@[(ei + 1) - 1]
                    == dag.nodes@[node_id as int].edges@[ei as int]);
            }
        }
        let ghost counter_before = *counter;
        let child_off_opt = flatten_node(dag, child, counter, holder, enc_nodes, f);
        let child_off = match child_off_opt {
            None => {
                proof {
                    lemma_flatten_total_mono(
                        *dag,
                        node_id as int,
                        ei + 1,
                        dag.nodes@[node_id as int].edges@.len() as int,
                    );
                    assert(counter_before + tree_total(*dag, child as int) > usize::MAX);
                    assert(*old(counter) + tree_total(*dag, node_id as int) >= counter_before
                        + tree_total(*dag, child as int));
                }
                return None;
            },
            Some(o) => o,
        };
        // each binding becomes an equality between parent and child globals
        let nb = dag.nodes[node_id].edges[ei].bindings.len();
        let mut bi: usize = 0;
        while bi < nb
            invariant
                bi <= nb,
                f.wf(),
                p == f.modulus(),
                dag.wf(p),
                node_id < dag.nodes@.len(),
                ei < dag.nodes@[node_id as int].edges@.len(),
                nb == dag.nodes@[node_id as int].edges@[ei as int].bindings@.len(),
                offset >= 1,
                offset == *old(counter),
                child_off >= offset + dag.nodes@[node_id as int].n_signals,
                child_off + dag.nodes@[dag.nodes@[node_id as int].edges@[ei as int].goes_to as int].n_signals
                    <= *counter,
                *counter >= offset + dag.nodes@[node_id as int].n_signals,
                all_ok(holder.linear@, p, *counter as nat),
                all_ok(holder.equalities@, p, *counter as nat),
                all_ok(holder.constant_equalities@, p, *counter as nat),
                enc_ok(enc_nodes@, p, *counter as nat),
            decreases nb - bi,
        {
            let (lp, lc) = dag.nodes[node_id].edges[ei].bindings[bi];
            proof {
                assert(dag.nodes@[node_id as int].edges@[ei as int].bindings@[bi as int] == (lp, lc));
                assert(1 <= lp <= dag.nodes@[node_id as int].n_signals);
                assert(1 <= lc <= dag.nodes@[dag.nodes@[node_id as int].edges@[ei as int].goes_to as int].n_signals);
            }
            let pg = offset - 1 + lp;
            let cg = child_off - 1 + lc;
            let eq = make_equality(pg, cg, f);
            proof {
                lemma_bounded_from_terms(eq.a@, *counter as nat);
                lemma_bounded_from_terms(eq.b@, *counter as nat);
                assert forall|k: int| 0 <= k < eq.c@.len() implies (#[trigger] eq.c@[k]).0
                    < *counter as nat by {}
                lemma_bounded_from_terms(eq.c@, *counter as nat);
            }
            holder.equalities.push(eq);
            bi += 1;
        }
        ei += 1;
    }
    proof {
        assert(*counter == *old(counter) + flatten_total(
            *dag,
            node_id as int,
            dag.nodes@[node_id as int].edges@.len() as int,
        ));
        assert(tree_total(*dag, node_id as int) == flatten_total(
            *dag,
            node_id as int,
            dag.nodes@[node_id as int].edges@.len() as int,
        ));
    }
    Some(offset)
}

} // verus!
