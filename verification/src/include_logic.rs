//! Include resolution: the stack of files still to parse, and the include
//! graph that finds custom-gate usage reached from files missing the
//! custom-gate pragma.

use vstd::prelude::*;

verus! {

/// A failed include resolution, with its message.
#[derive(Debug)]
pub struct Report {
    pub message: String,
}

impl Report {
    pub fn new(message: String) -> (r: Report)
        ensures
            r.message@ == message@,
    {
        Report { message }
    }
}

/// Whether a vector of strings holds one with the given characters.
fn contains_string(v: &Vec<String>, x: &String) -> (r: bool)
    ensures
        r <==> exists|i: int| 0 <= i < v@.len() && (#[trigger] v@[i])@ == x@,
{
    let mut i: usize = 0;
    while i < v.len()
        invariant
            i <= v@.len(),
            forall|j: int| 0 <= j < i ==> (#[trigger] v@[j])@ != x@,
        decreases v@.len() - i,
    {
        if v[i].eq(x) {
            return true;
        }
        i += 1;
    }
    false
}

/// First position of a string in a vector.
fn position_of(v: &Vec<String>, x: &String) -> (r: Option<usize>)
    ensures
        match r {
            Some(i) => i < v@.len() && v@[i as int]@ == x@ && forall|j: int|
                0 <= j < i ==> (#[trigger] v@[j])@ != x@,
            None => forall|j: int| 0 <= j < v@.len() ==> (#[trigger] v@[j])@ != x@,
        },
{
    let mut i: usize = 0;
    while i < v.len()
        invariant
            i <= v@.len(),
            forall|j: int| 0 <= j < i ==> (#[trigger] v@[j])@ != x@,
        decreases v@.len() - i,
    {
        if v[i].eq(x) {
            return Some(i);
        }
        i += 1;
    }
    None
}

/// The stack of files waiting to be parsed; a file already taken is never
/// taken again.
pub struct FileStack {
    pub locations: Vec<usize>,
    pub stack: Vec<String>,
    pub black_paths: Vec<String>,
}

impl FileStack {
    pub fn new(src: String) -> (r: FileStack)
        ensures
            r.stack@.len() == 1,
            r.stack@[0]@ == src@,
            r.locations@ == seq![0usize],
            r.black_paths@.len() == 0,
    {
        let mut stack: Vec<String> = Vec::new();
        stack.push(src);
        let mut locations: Vec<usize> = Vec::new();
        locations.push(0);
        proof {
            assert(locations@ =~= seq![0usize]);
        }
        FileStack { locations, stack, black_paths: Vec::new() }
    }

    /// Queues an included file: when the name is one of the libraries and was
    /// not already taken, it is stacked together with its library position;
    /// an unknown name is an error.
    pub fn add_include(f_stack: &mut FileStack, name: String, libraries: &Vec<String>) -> (r:
        Result<String, Report>)
        ensures
            r matches Ok(n) ==> n@ == name@ && (exists|i: int|
                0 <= i < libraries@.len() && (#[trigger] libraries@[i])@ == name@),
            r is Ok ==> final(f_stack).black_paths@ == old(f_stack).black_paths@ && (if (exists|
                b: int,
            | 0 <= b < old(f_stack).black_paths@.len() && (
            #[trigger] old(f_stack).black_paths@[b])@ == name@) {
                *final(f_stack) == *old(f_stack)
            } else {
                exists|i: int|
                    {
                        &&& 0 <= i < libraries@.len()
                        &&& (#[trigger] libraries@[i])@ == name@
                        &&& forall|j: int| 0 <= j < i ==> (#[trigger] libraries@[j])@ != name@
                        &&& final(f_stack).stack@ == old(f_stack).stack@.push(name)
                        &&& final(f_stack).locations@ == old(f_stack).locations@.push(i as usize)
                    }
            }),
            r is Err ==> (forall|i: int|
                0 <= i < libraries@.len() ==> (#[trigger] libraries@[i])@ != name@)
                && *final(f_stack) == *old(f_stack),
    {
        match position_of(libraries, &name) {
            Some(index) => {
                if !contains_string(&f_stack.black_paths, &name) {
                    let name2 = name.clone();
                    f_stack.stack.push(name2);
                    f_stack.locations.push(index);
                    proof {
                        assert(f_stack.stack@ == old(f_stack).stack@.push(name));
                        assert(f_stack.locations@ == old(f_stack).locations@.push(index));
                    }
                }
                Ok(name)
            },
            None => {
                let mut message = name;
                message.append(": include not found");
                Err(Report::new(message))
            },
        }
    }

    /// Takes the next not-yet-parsed file off the stack, blackens it, and
    /// returns the library position stacked beside it; None once everything
    /// was taken. A file queued twice leaves a stale entry on the parallel
    /// position stack, so the returned position can belong to a skipped
    /// duplicate.
    pub fn take_next(f_stack: &mut FileStack) -> (r: Option<usize>)
        ensures
            final(f_stack).stack@.len() <= old(f_stack).stack@.len(),
            r is Some ==> final(f_stack).black_paths@.len() == old(f_stack).black_paths@.len() + 1,
            r is None ==> final(f_stack).stack@.len() == 0 || final(f_stack).black_paths@.len()
                == old(f_stack).black_paths@.len() + 1,
    {
        loop
            invariant
                f_stack.stack@.len() <= old(f_stack).stack@.len(),
                f_stack.locations@.len() <= old(f_stack).locations@.len(),
                f_stack.black_paths@.len() == old(f_stack).black_paths@.len(),
            decreases f_stack.stack@.len(),
        {
            match f_stack.stack.pop() {
                None => {
                    return None;
                },
                Some(file) => {
                    if !contains_string(&f_stack.black_paths, &file) {
                        f_stack.black_paths.push(file);
                        match f_stack.locations.pop() {
                            Some(index) => {
                                return Some(index);
                            },
                            None => {
                                return None;
                            },
                        }
                    }
                },
            }
        }
    }
}

/// One parsed file: its path and whether it declares the custom-gate pragma.
pub struct IncludesNode {
    pub path: String,
    pub custom_gates_pragma: bool,
}

/// The include graph: files as nodes, include edges grouped by source path,
/// and the files that actually use custom gates.
pub struct IncludesGraph {
    nodes: Vec<IncludesNode>,
    adjacency: Vec<(String, Vec<usize>)>,
    custom_gates_nodes: Vec<usize>,
}

impl IncludesGraph {
    /// Every recorded edge target and custom-gate node is a valid node.
    pub closed spec fn wf(&self) -> bool {
        &&& forall|i: int, k: int|
            0 <= i < self.adjacency@.len() && 0 <= k < (#[trigger] self.adjacency@[i]).1@.len()
                ==> ((#[trigger] self.adjacency@[i].1@[k]) as int) < self.nodes@.len()
        &&& forall|i: int|
            0 <= i < self.custom_gates_nodes@.len() ==> ((#[trigger] self.custom_gates_nodes@[i]) as int)
                < self.nodes@.len()
    }

    pub closed spec fn node_count(&self) -> nat {
        self.nodes@.len()
    }

    pub closed spec fn nodes_seq(&self) -> Seq<IncludesNode> {
        self.nodes@
    }

    pub closed spec fn adjacency_seq(&self) -> Seq<(String, Vec<usize>)> {
        self.adjacency@
    }

    pub closed spec fn custom_nodes_seq(&self) -> Seq<usize> {
        self.custom_gates_nodes@
    }

    pub fn new() -> (r: IncludesGraph)
        ensures
            r.wf(),
            r.node_count() == 0,
    {
        IncludesGraph { nodes: Vec::new(), adjacency: Vec::new(), custom_gates_nodes: Vec::new() }
    }

    /// Records a parsed file, remembering it as a custom-gate user when its
    /// source actually uses one.
    pub fn add_node(&mut self, path: String, custom_gates_pragma: bool, custom_gates_usage: bool)
        requires
            old(self).wf(),
            old(self).node_count() < usize::MAX,
        ensures
            final(self).wf(),
            final(self).node_count() == old(self).node_count() + 1,
            final(self).nodes_seq() == old(self).nodes_seq().push(
                (IncludesNode { path, custom_gates_pragma }),
            ),
            final(self).custom_nodes_seq() == if custom_gates_usage {
                old(self).custom_nodes_seq().push(old(self).node_count() as usize)
            } else {
                old(self).custom_nodes_seq()
            },
            final(self).adjacency_seq() == old(self).adjacency_seq(),
    {
        self.nodes.push(IncludesNode { path, custom_gates_pragma });
        if custom_gates_usage {
            self.custom_gates_nodes.push(self.nodes.len() - 1);
        }
    }

    /// Records an include edge from the given path to the most recently
    /// added node; a path outside the libraries is an error.
    pub fn add_edge(&mut self, old_path: String, libraries: &Vec<String>) -> (r: Result<
        (),
        Report,
    >)
        requires
            old(self).wf(),
            old(self).node_count() > 0,
        ensures
            final(self).wf(),
            final(self).node_count() == old(self).node_count(),
            r is Err ==> (forall|i: int|
                0 <= i < libraries@.len() ==> (#[trigger] libraries@[i])@ != old_path@)
                && final(self).nodes_seq() == old(self).nodes_seq()
                && final(self).adjacency_seq() == old(self).adjacency_seq()
                && final(self).custom_nodes_seq() == old(self).custom_nodes_seq(),
            (exists|i: int| 0 <= i < libraries@.len() && (#[trigger] libraries@[i])@ == old_path@)
                ==> r is Ok,
            r is Ok ==> final(self).nodes_seq() == old(self).nodes_seq()
                && final(self).custom_nodes_seq() == old(self).custom_nodes_seq() && exists|i: int|
                0 <= i < final(self).adjacency_seq().len() && (
                #[trigger] final(self).adjacency_seq()[i]).1@.len() >= 1
                    && final(self).adjacency_seq()[i].1@.last() == (old(self).node_count()
                    - 1) as usize,
    {
        if contains_string(libraries, &old_path) {
            let target = self.nodes.len() - 1;
            let mut i: usize = 0;
            let n = self.adjacency.len();
            while i < n
                invariant
                    i <= n,
                    n == self.adjacency@.len(),
                    self.wf(),
                    self.nodes@ == old(self).nodes@,
                    self.custom_gates_nodes@ == old(self).custom_gates_nodes@,
                    (target as int) < self.nodes@.len(),
                    target as int == old(self).node_count() - 1,
                decreases n - i,
            {
                if self.adjacency[i].0.eq(&old_path) {
                    let ghost pre_adj = self.adjacency@;
                    let (path, mut edges) = self.adjacency.remove(i);
                    edges.push(target);
                    proof {
                        assert forall|x: int, k: int|
                            0 <= x < self.adjacency@.len() && 0 <= k < (
                            #[trigger] self.adjacency@[x]).1@.len() implies ((
                        #[trigger] self.adjacency@[x].1@[k]) as int) < self.nodes@.len() by {
                            if x < i {
                                assert(self.adjacency@[x] == pre_adj[x]);
                            } else {
                                assert(self.adjacency@[x] == pre_adj[x + 1]);
                            }
                        }
                    }
                    let ghost mid_adj = self.adjacency@;
                    self.adjacency.insert(i, (path, edges));
                    proof {
                        assert forall|x: int, k: int|
                            0 <= x < self.adjacency@.len() && 0 <= k < (
                            #[trigger] self.adjacency@[x]).1@.len() implies ((
                        #[trigger] self.adjacency@[x].1@[k]) as int) < self.nodes@.len() by {
                            if x < i {
                                assert(self.adjacency@[x] == mid_adj[x]);
                            } else if x > i {
                                assert(self.adjacency@[x] == mid_adj[x - 1]);
                            } else {
                                assert(self.adjacency@[x].1@ == pre_adj[i as int].1@.push(target));
                                assert forall|kk: int|
                                    0 <= kk < self.adjacency@[x].1@.len() implies ((
                                #[trigger] self.adjacency@[x].1@[kk]) as int)
                                    < self.nodes@.len() by {
                                    if kk < pre_adj[i as int].1@.len() {
                                        assert(self.adjacency@[x].1@[kk] == pre_adj[i as int].1@[kk]);
                                    }
                                }
                            }
                        }
                    }
                    proof {
                        assert(self.adjacency@[i as int].1@.last() == target);
                        assert(self.adjacency@[i as int].1@.len() >= 1);
                        assert(self.adjacency_seq()[i as int].1@.len() >= 1
                            && self.adjacency_seq()[i as int].1@.last() == target);
                    }
                    return Ok(());
                }
                i += 1;
            }
            let ghost pre_adj = self.adjacency@;
            let mut edges: Vec<usize> = Vec::new();
            edges.push(target);
            self.adjacency.push((old_path, edges));
            proof {
                assert forall|x: int, k: int|
                    0 <= x < self.adjacency@.len() && 0 <= k < (
                    #[trigger] self.adjacency@[x]).1@.len() implies ((
                #[trigger] self.adjacency@[x].1@[k]) as int) < self.nodes@.len() by {
                    if x < self.adjacency@.len() - 1 {
                        assert(self.adjacency@[x] == pre_adj[x]);
                    } else {
                        assert(self.adjacency@[x].1@ =~= seq![target]);
                    }
                }
                let last = self.adjacency@.len() - 1;
                assert(self.adjacency@[last].1@ =~= seq![target]);
                assert(self.adjacency@[last].1@.last() == target);
                assert(self.adjacency_seq()[last].1@.len() >= 1
                    && self.adjacency_seq()[last].1@.last() == target);
            }
            Ok(())
        } else {
            let mut message = old_path;
            message.append(": file system error");
            Err(Report::new(message))
        }
    }

    /// All include chains that reach a custom-gate user from a file missing
    /// the custom-gate pragma; every reported chain extends from one of the
    /// custom-gate nodes.
    pub fn get_problematic_paths(&self) -> (r: Vec<Vec<String>>)
        requires
            self.wf(),
        ensures
            forall|k: int| 0 <= k < r@.len() ==> (#[trigger] r@[k])@.len() >= 1,
    {
        let mut problematic: Vec<Vec<String>> = Vec::new();
        let mut i: usize = 0;
        while i < self.custom_gates_nodes.len()
            invariant
                i <= self.custom_gates_nodes@.len(),
                self.wf(),
                forall|k: int| 0 <= k < problematic@.len() ==> (#[trigger] problematic@[k])@.len() >= 1,
            decreases self.custom_gates_nodes@.len() - i,
        {
            let from = self.custom_gates_nodes[i];
            let marks = self.fresh_marks();
            let found = self.traverse(
                from,
                Vec::new(),
                marks,
                Ghost(edge_total(self.adjacency@)),
            );
            let mut found = found;
            while found.len() > 0
                invariant
                    forall|k: int|
                        0 <= k < problematic@.len() ==> (#[trigger] problematic@[k])@.len() >= 1,
                    forall|k: int| 0 <= k < found@.len() ==> (#[trigger] found@[k])@.len() >= 1,
                decreases found@.len(),
            {
                let ghost fv = found@;
                let q = found.remove(0);
                proof {
                    assert(fv[0] == q);
                    assert forall|k: int| 0 <= k < found@.len() implies (
                    #[trigger] found@[k])@.len() >= 1 by {
                        assert(found@[k] == fv[k + 1]);
                    }
                }
                problematic.push(q);
            }
            i += 1;
        }
        problematic
    }

    /// A fresh edge-mark table mirroring the adjacency shape.
    fn fresh_marks(&self) -> (r: Vec<Vec<bool>>)
        ensures
            marks_shape(r@, self.adjacency@),
            marks_count(r@) == 0,
    {
        let mut r: Vec<Vec<bool>> = Vec::new();
        let n = self.adjacency.len();
        let mut i: usize = 0;
        while i < n
            invariant
                i <= n,
                n == self.adjacency@.len(),
                r@.len() == i,
                forall|x: int| 0 <= x < i ==> (#[trigger] r@[x])@.len() == self.adjacency@[x].1@.len(),
                forall|x: int, k: int|
                    0 <= x < i && 0 <= k < r@[x]@.len() ==> !(#[trigger] r@[x]@[k]),
                marks_count(r@) == 0,
            decreases n - i,
        {
            let m = self.adjacency[i].1.len();
            let mut row: Vec<bool> = Vec::new();
            let mut k: usize = 0;
            while k < m
                invariant
                    k <= m,
                    row@.len() == k,
                    forall|x: int| 0 <= x < k ==> !(#[trigger] row@[x]),
                decreases m - k,
            {
                row.push(false);
                k += 1;
            }
            let ghost before = r@;
            r.push(row);
            proof {
                lemma_marks_count_snoc(r@);
                assert(r@.drop_last() =~= before);
                lemma_count_row_zero(r@[r@.len() - 1]@);
            }
            i += 1;
        }
        r
    }

    /// Walks the include edges from a node, never taking one edge twice on a
    /// chain; a reached node without the pragma contributes the chain so far.
    fn traverse(&self, from: usize, path: Vec<String>, marks: Vec<Vec<bool>>, budget: Ghost<nat>) -> (r:
        Vec<Vec<String>>)
        requires
            self.wf(),
            (from as int) < self.node_count(),
            marks_shape(marks@, self.adjacency@),
            marks_count(marks@) + budget@ == edge_total(self.adjacency@),
        ensures
            forall|k: int| 0 <= k < r@.len() ==> (#[trigger] r@[k])@.len() >= path@.len() + 1,
        decreases budget@,
    {
        proof {
            lemma_marks_count_le(marks@, self.adjacency@);
        }
        let mut problematic: Vec<Vec<String>> = Vec::new();
        let from_path = self.nodes[from].path.clone();
        let using_pragma = self.nodes[from].custom_gates_pragma;
        let mut new_path = clone_paths(&path);
        new_path.push(from_path.clone());
        if !using_pragma {
            problematic.push(clone_paths(&new_path));
        }
        match position_of_pairs(&self.adjacency, &from_path) {
            None => problematic,
            Some(ai) => {
                let n_edges = self.adjacency[ai].1.len();
                let mut e: usize = 0;
                let mut cur_marks = marks;
                let ghost mut budget_g: nat = budget@;
                while e < n_edges
                    invariant
                        e <= n_edges,
                        self.wf(),
                        ai < self.adjacency@.len(),
                        n_edges == self.adjacency@[ai as int].1@.len(),
                        marks_shape(cur_marks@, self.adjacency@),
                        marks_count(cur_marks@) + budget_g == edge_total(self.adjacency@),
                        budget_g <= budget@,
                        new_path@.len() == path@.len() + 1,
                        forall|k: int|
                            0 <= k < problematic@.len() ==> (#[trigger] problematic@[k])@.len()
                                >= path@.len() + 1,
                    decreases n_edges - e,
                {
                    let to = self.adjacency[ai].1[e];
                    if !cur_marks[ai][e] {
                        let ghost before = cur_marks@;
                        let mut row = cur_marks.remove(ai);
                        row.set(e, true);
                        cur_marks.insert(ai, row);
                        proof {
                            assert(cur_marks@[ai as int]@ =~= before[ai as int]@.update(
                                e as int,
                                true,
                            ));
                            assert forall|x: int|
                                0 <= x < cur_marks@.len() && x != ai implies (#[trigger] cur_marks@[x])
                                == before[x] by {
                                let removed = before.remove(ai as int);
                                if x < ai {
                                    assert(cur_marks@[x] == removed[x]);
                                } else {
                                    assert(cur_marks@[x] == removed[x - 1]);
                                }
                            }
                            lemma_marks_count_update(before, cur_marks@, ai as int, e as int);
                            assert(marks_shape(cur_marks@, self.adjacency@)) by {
                                assert forall|x: int|
                                    0 <= x < cur_marks@.len() implies (#[trigger] cur_marks@[x])@.len()
                                    == self.adjacency@[x].1@.len() by {
                                    if x != ai {
                                        assert(cur_marks@[x] == before[x]);
                                    }
                                }
                            }
                            lemma_marks_count_le(cur_marks@, self.adjacency@);
                        }
                        proof {
                            lemma_marks_count_le(cur_marks@, self.adjacency@);
                            assert(budget_g >= 1);
                            budget_g = (budget_g - 1) as nat;
                        }
                        let cloned = clone_marks(&cur_marks);
                        let sub = self.traverse(to, clone_paths(&new_path), cloned, Ghost(budget_g));
                        let mut sub = sub;
                        while sub.len() > 0
                            invariant
                                forall|k: int|
                                    0 <= k < problematic@.len() ==> (
                                    #[trigger] problematic@[k])@.len() >= path@.len() + 1,
                                forall|k: int|
                                    0 <= k < sub@.len() ==> (#[trigger] sub@[k])@.len()
                                        >= path@.len() + 1,
                            decreases sub@.len(),
                        {
                            let ghost sv = sub@;
                            let q = sub.remove(0);
                            proof {
                                assert(sv[0] == q);
                                assert forall|k: int| 0 <= k < sub@.len() implies (
                                #[trigger] sub@[k])@.len() >= path@.len() + 1 by {
                                    assert(sub@[k] == sv[k + 1]);
                                }
                            }
                            problematic.push(q);
                        }
                    }
                    e += 1;
                }
                problematic
            },
        }
    }

    /// One chain rendered as its paths joined by arrows.
    pub fn display_path(path: &Vec<String>) -> (r: String)
        requires
            path@.len() >= 1,
        ensures
            r@ == joined_chars(path@.map_values(|s: String| s@)),
    {
        let ghost pv = path@.map_values(|s: String| s@);
        let mut covered = path[0].clone();
        proof {
            assert(pv.subrange(0, 1) =~= seq![pv[0]]);
            assert(joined_chars(pv.subrange(0, 1)) == pv[0]);
        }
        let mut i: usize = 1;
        while i < path.len()
            invariant
                1 <= i <= path@.len(),
                pv == path@.map_values(|s: String| s@),
                covered@ == joined_chars(pv.subrange(0, i as int)),
            decreases path@.len() - i,
        {
            covered.append(" -> ");
            covered.append(path[i].as_str());
            proof {
                reveal_strlit(" -> ");
                assert(" -> "@ =~= arrow_chars());
                let cur = pv.subrange(0, i + 1);
                assert(cur.drop_last() =~= pv.subrange(0, i as int));
                assert(cur.last() == pv[i as int]);
                assert(cur.len() >= 2);
                assert(joined_chars(cur) == joined_chars(cur.drop_last()) + arrow_chars()
                    + cur.last());
            }
            i += 1;
        }
        proof {
            assert(pv.subrange(0, pv.len() as int) =~= pv);
        }
        covered
    }
}

/// First adjacency entry for the path.
fn position_of_pairs(v: &Vec<(String, Vec<usize>)>, x: &String) -> (r: Option<usize>)
    ensures
        r matches Some(i) ==> i < v@.len(),
{
    let mut i: usize = 0;
    while i < v.len()
        invariant
            i <= v@.len(),
        decreases v@.len() - i,
    {
        if v[i].0.eq(x) {
            return Some(i);
        }
        i += 1;
    }
    None
}

/// A copy of a path list.
fn clone_paths(v: &Vec<String>) -> (r: Vec<String>)
    ensures
        r@.len() == v@.len(),
        forall|i: int| 0 <= i < v@.len() ==> (#[trigger] r@[i])@ == v@[i]@,
{
    let mut r: Vec<String> = Vec::new();
    let mut i: usize = 0;
    while i < v.len()
        invariant
            i <= v@.len(),
            r@.len() == i,
            forall|j: int| 0 <= j < i ==> (#[trigger] r@[j])@ == v@[j]@,
        decreases v@.len() - i,
    {
        r.push(v[i].clone());
        i += 1;
    }
    r
}

/// A copy of the edge-mark table.
fn clone_marks(v: &Vec<Vec<bool>>) -> (r: Vec<Vec<bool>>)
    ensures
        r@.len() == v@.len(),
        forall|i: int| 0 <= i < v@.len() ==> (#[trigger] r@[i])@ == v@[i]@,
        marks_count(r@) == marks_count(v@),
{
    let mut r: Vec<Vec<bool>> = Vec::new();
    let mut i: usize = 0;
    while i < v.len()
        invariant
            i <= v@.len(),
            r@.len() == i,
            forall|j: int| 0 <= j < i ==> (#[trigger] r@[j])@ == v@[j]@,
            marks_count(r@) == marks_count(v@.subrange(0, i as int)),
        decreases v@.len() - i,
    {
        let m = v[i].len();
        let mut row: Vec<bool> = Vec::new();
        let mut k: usize = 0;
        while k < m
            invariant
                k <= m,
                i < v@.len(),
                m == v@[i as int]@.len(),
                row@ =~= v@[i as int]@.subrange(0, k as int),
            decreases m - k,
        {
            row.push(v[i][k]);
            k += 1;
        }
        proof {
            assert(row@ =~= v@[i as int]@);
        }
        let ghost before = r@;
        r.push(row);
        proof {
            lemma_marks_count_snoc(r@);
            assert(r@.drop_last() =~= before);
            lemma_marks_count_snoc(v@.subrange(0, i + 1));
            assert(v@.subrange(0, i + 1).drop_last() =~= v@.subrange(0, i as int));
            assert(v@.subrange(0, i + 1).last() == v@[i as int]);
            assert(crate::solver::count_true(r@.last()@) == crate::solver::count_true(
                v@[i as int]@,
            ));
        }
        i += 1;
    }
    proof {
        assert(v@.subrange(0, v@.len() as int) =~= v@);
    }
    r
}

/// The mark table mirrors the adjacency shape.
pub open spec fn marks_shape(m: Seq<Vec<bool>>, adj: Seq<(String, Vec<usize>)>) -> bool {
    &&& m.len() == adj.len()
    &&& forall|i: int| 0 <= i < m.len() ==> (#[trigger] m[i])@.len() == adj[i].1@.len()
}

/// How many edges are marked.
pub open spec fn marks_count(m: Seq<Vec<bool>>) -> nat
    decreases m.len(),
{
    if m.len() == 0 {
        0nat
    } else {
        marks_count(m.drop_last()) + crate::solver::count_true(m.last()@)
    }
}

/// How many edges the adjacency lists hold in all.
pub open spec fn edge_total(adj: Seq<(String, Vec<usize>)>) -> nat
    decreases adj.len(),
{
    if adj.len() == 0 {
        0nat
    } else {
        edge_total(adj.drop_last()) + adj.last().1@.len()
    }
}

proof fn lemma_marks_count_snoc(m: Seq<Vec<bool>>)
    requires
        m.len() > 0,
    ensures
        marks_count(m) == marks_count(m.drop_last()) + crate::solver::count_true(m.last()@),
{
}

proof fn lemma_count_row_zero(row: Seq<bool>)
    requires
        forall|i: int| 0 <= i < row.len() ==> !(#[trigger] row[i]),
    ensures
        crate::solver::count_true(row) == 0,
    decreases row.len(),
{
    if row.len() > 0 {
        lemma_count_row_zero(row.subrange(1, row.len() as int));
    }
}

/// Marked edges never outnumber the edges.
proof fn lemma_marks_count_le(m: Seq<Vec<bool>>, adj: Seq<(String, Vec<usize>)>)
    requires
        marks_shape(m, adj),
    ensures
        marks_count(m) <= edge_total(adj),
    decreases m.len(),
{
    if m.len() > 0 {
        assert(marks_shape(m.drop_last(), adj.drop_last())) by {
            assert forall|i: int| 0 <= i < m.drop_last().len() implies (
            #[trigger] m.drop_last()[i])@.len() == adj.drop_last()[i].1@.len() by {
                assert(m.drop_last()[i] == m[i]);
                assert(adj.drop_last()[i] == adj[i]);
            }
        }
        lemma_marks_count_le(m.drop_last(), adj.drop_last());
        lemma_count_true_le_len(m.last()@);
        assert(m.last()@.len() == adj.last().1@.len());
    }
}

proof fn lemma_count_true_le_len(row: Seq<bool>)
    ensures
        crate::solver::count_true(row) <= row.len(),
    decreases row.len(),
{
    if row.len() > 0 {
        lemma_count_true_le_len(row.subrange(1, row.len() as int));
    }
}

/// Marking one unmarked edge raises the count by one.
proof fn lemma_marks_count_update(before: Seq<Vec<bool>>, after: Seq<Vec<bool>>, i: int, k: int)
    requires
        0 <= i < before.len(),
        after.len() == before.len(),
        0 <= k < before[i]@.len(),
        !before[i]@[k],
        after[i]@ == before[i]@.update(k, true),
        forall|x: int| 0 <= x < before.len() && x != i ==> (#[trigger] after[x]) == before[x],
    ensures
        marks_count(after) == marks_count(before) + 1,
    decreases before.len(),
{
    lemma_count_true_update_row(before[i]@, k);
    if i == before.len() - 1 {
        assert(after.drop_last() =~= before.drop_last()) by {
            assert forall|x: int| 0 <= x < before.len() - 1 implies after.drop_last()[x]
                == before.drop_last()[x] by {
                assert(after[x] == before[x]);
            }
        }
        assert(after.last() == after[i]);
    } else {
        lemma_marks_count_update(before.drop_last(), after.drop_last(), i, k);
        assert(after.last() == before.last());
    }
}

proof fn lemma_count_true_update_row(row: Seq<bool>, k: int)
    requires
        0 <= k < row.len(),
        !row[k],
    ensures
        crate::solver::count_true(row.update(k, true)) == crate::solver::count_true(row) + 1,
    decreases row.len(),
{
    let u = row.update(k, true);
    if k == 0 {
        assert(u.subrange(1, u.len() as int) =~= row.subrange(1, row.len() as int));
    } else {
        assert(u[0] == row[0]);
        let r1 = row.subrange(1, row.len() as int);
        assert(u.subrange(1, u.len() as int) =~= r1.update(k - 1, true));
        lemma_count_true_update_row(r1, k - 1);
    }
}

/// The arrow separator between chain entries.
pub open spec fn arrow_chars() -> Seq<char> {
    seq![' ', '-', '>', ' ']
}

/// A chain of paths joined by arrows.
pub open spec fn joined_chars(ps: Seq<Seq<char>>) -> Seq<char>
    decreases ps.len(),
{
    if ps.len() == 0 {
        Seq::empty()
    } else if ps.len() == 1 {
        ps[0]
    } else {
        joined_chars(ps.drop_last()) + arrow_chars() + ps.last()
    }
}

} // verus!
