use vstd::prelude::*;
use crate::search::{Property, Search, Target};
use crate::tree::{kept_children, kept_labels, parented, TreeView};

verus! {

/// One structural change to a tree, as a value.
pub enum Edit<V, L> {
    /// Append a node.
    Add {
        parent: Option<usize>,
        children: Seq<usize>,
        transitions: Seq<Option<L>>,
        value: V,
        label: Option<L>,
    },
    /// Detach a node and hand its children to its parent.
    Delete { node: usize },
}

impl<V, L> TreeView<V, L> {
    /// Whether the tree carries out `edit` rather than refusing it.
    pub open spec fn accepts(self, edit: Edit<V, L>) -> bool {
        match edit {
            Edit::Add { parent, children, transitions, value, label } => {
                &&& self.nodes() < usize::MAX
                &&& children.len() == transitions.len()
                &&& parent matches Some(p) ==> p < self.nodes()
            },
            Edit::Delete { node } => {
                &&& node < self.nodes()
                &&& self.parents[node as int].is_some()
                &&& self.size > 0
            },
        }
    }

    /// The tree after `edit`; a refused edit leaves it as it was.
    pub open spec fn after(self, edit: Edit<V, L>) -> Self {
        if !self.accepts(edit) {
            self
        } else {
            match edit {
                Edit::Add { parent, children, transitions, value, label } => self.with_node(
                    parent,
                    children,
                    transitions,
                    Some(value),
                    label,
                ),
                Edit::Delete { node } => self.spliced(node),
            }
        }
    }

    /// The tree after a whole sequence of edits, applied first to last.
    pub open spec fn after_all(self, edits: Seq<Edit<V, L>>) -> Self
        decreases edits.len(),
    {
        if edits.len() == 0 {
            self
        } else {
            self.after_all(edits.drop_last()).after(edits.last())
        }
    }
}

/// Appending a node keeps the structural invariant.
pub proof fn lemma_with_node_wf<V, L>(
    t: TreeView<V, L>,
    parent: Option<usize>,
    children: Seq<usize>,
    transitions: Seq<Option<L>>,
    value: Option<V>,
    label: Option<L>,
)
    requires
        t.wf(),
        t.nodes() < usize::MAX,
        children.len() == transitions.len(),
        parent matches Some(p) ==> p < t.nodes(),
    ensures
        t.with_node(parent, children, transitions, value, label).wf(),
        t.with_node(parent, children, transitions, value, label).nodes() == t.nodes() + 1,
{
    let u = t.with_node(parent, children, transitions, value, label);
    assert forall|i: int| 0 <= i < u.children.len() implies (#[trigger] u.children[i]).len()
        == u.transitions[i].len() by {
        if i < t.children.len() {
            assert(t.children[i].len() == t.transitions[i].len());
        }
    }
    assert forall|i: int| 0 <= i < u.parents.len() implies (match #[trigger] u.parents[i] {
        Some(p) => p < u.children.len(),
        None => true,
    }) by {
        if i < t.parents.len() {
            assert(u.parents[i] == t.parents[i]);
        }
    }
}

/// Index stability: whatever edits follow, accepted or refused, a slot that
/// exists keeps its index and its payload, and the arena never shrinks. The
/// index an accepted `Add` hands out is the old number of slots, which no
/// earlier slot has.
pub proof fn lemma_index_stability<V, L>(t: TreeView<V, L>, edits: Seq<Edit<V, L>>, j: int)
    requires
        t.wf(),
        0 <= j < t.nodes(),
    ensures
        t.after_all(edits).wf(),
        t.after_all(edits).nodes() >= t.nodes(),
        t.after_all(edits).values[j] == t.values[j],
    decreases edits.len(),
{
    if edits.len() > 0 {
        lemma_index_stability(t, edits.drop_last(), j);
        let before = t.after_all(edits.drop_last());
        let edit = edits.last();
        assert(t.after_all(edits) == before.after(edit));
        if before.accepts(edit) {
            match edit {
                Edit::Add { parent, children, transitions, value, label } => {
                    if before.nodes() < usize::MAX {
                        lemma_with_node_wf(
                            before,
                            parent,
                            children,
                            transitions,
                            Some(value),
                            label,
                        );
                    }
                },
                Edit::Delete { node } => {
                    lemma_spliced_wf(before, node);
                },
            }
        }
    }
}

/// Add round-trip: after a node has been added below `p`, whose list did not
/// hold the index about to be handed out, the children of `p` hold the new
/// index exactly once, in last place, and the label at that place is the one
/// given.
pub proof fn lemma_add_round_trip<V, L>(
    t: TreeView<V, L>,
    p: usize,
    children: Seq<usize>,
    transitions: Seq<Option<L>>,
    value: Option<V>,
    label: Option<L>,
)
    requires
        t.wf(),
        p < t.nodes(),
        forall|k: int|
            0 <= k < t.children[p as int].len() ==> t.children[p as int][k] != t.nodes(),
    ensures
        ({
            let u = t.with_node(Some(p), children, transitions, value, label);
            let idx = t.nodes() as usize;
            let last = u.children[p as int].len() - 1;
            &&& u.children[p as int].len() == t.children[p as int].len() + 1
            &&& u.children[p as int].len() == u.transitions[p as int].len()
            &&& forall|k: int|
                0 <= k < u.children[p as int].len() ==> (u.children[p as int][k] == idx <==> k
                    == last)
            &&& u.transitions[p as int][last] == label
            &&& u.parents[idx as int] == Some(p)
            &&& u.values[idx as int] == value
        }),
{
    let u = t.with_node(Some(p), children, transitions, value, label);
    assert(t.children[p as int].len() == t.transitions[p as int].len());
}

/// Dropping `i` from a list that holds it exactly once, at position `k`,
/// removes that position, and the label beside it.
pub proof fn lemma_kept_is_remove<L>(cs: Seq<usize>, ts: Seq<Option<L>>, i: usize, k: int)
    requires
        cs.len() == ts.len(),
        0 <= k < cs.len(),
        cs[k] == i,
        forall|j: int| 0 <= j < cs.len() && j != k ==> cs[j] != i,
    ensures
        kept_children(cs, i) == cs.remove(k),
        kept_labels(cs, ts, i) == ts.remove(k),
    decreases cs.len(),
{
    if k == 0 {
        lemma_kept_absent(cs.skip(1), ts.skip(1), i);
        assert(cs.skip(1) =~= cs.remove(0));
        assert(ts.skip(1) =~= ts.remove(0));
    } else {
        assert(cs[0] != i);
        lemma_kept_is_remove(cs.skip(1), ts.skip(1), i, k - 1);
        assert(seq![cs[0]] + cs.skip(1).remove(k - 1) =~= cs.remove(k));
        assert(seq![ts[0]] + ts.skip(1).remove(k - 1) =~= ts.remove(k));
    }
}

/// Dropping `i` from a list that does not hold it changes nothing.
pub proof fn lemma_kept_absent<L>(cs: Seq<usize>, ts: Seq<Option<L>>, i: usize)
    requires
        cs.len() == ts.len(),
        forall|j: int| 0 <= j < cs.len() ==> cs[j] != i,
    ensures
        kept_children(cs, i) == cs,
        kept_labels(cs, ts, i) == ts,
    decreases cs.len(),
{
    if cs.len() > 0 {
        assert(cs[0] != i);
        assert forall|j: int| 0 <= j < cs.skip(1).len() implies cs.skip(1)[j] != i by {
            assert(cs.skip(1)[j] == cs[j + 1]);
        }
        lemma_kept_absent(cs.skip(1), ts.skip(1), i);
        assert(seq![cs[0]] + cs.skip(1) =~= cs);
        assert(seq![ts[0]] + ts.skip(1) =~= ts);
    } else {
        assert(cs =~= Seq::empty());
        assert(ts =~= Seq::empty());
    }
}

/// A parent column with an entry that names a parent counts at least one.
pub proof fn lemma_parented_positive(parents: Seq<Option<usize>>, i: int)
    requires
        0 <= i < parents.len(),
        parents[i].is_some(),
    ensures
        parented(parents) >= 1,
    decreases parents.len(),
{
    if i < parents.len() - 1 {
        lemma_parented_positive(parents.drop_last(), i);
    }
}

/// Two parent columns that differ, as to which entries name a parent, only
/// at `i`, where the first names one and the second none, count one apart.
pub proof fn lemma_parented_less_one(a: Seq<Option<usize>>, b: Seq<Option<usize>>, i: int)
    requires
        a.len() == b.len(),
        0 <= i < a.len(),
        a[i].is_some(),
        b[i].is_none(),
        forall|n: int| 0 <= n < a.len() && n != i ==> a[n].is_some() == b[n].is_some(),
    ensures
        parented(b) + 1 == parented(a),
    decreases a.len(),
{
    if i == a.len() - 1 {
        lemma_parented_same(a.drop_last(), b.drop_last());
    } else {
        lemma_parented_less_one(a.drop_last(), b.drop_last(), i);
    }
}

/// Two parent columns that agree on which entries name a parent count the
/// same.
pub proof fn lemma_parented_same(a: Seq<Option<usize>>, b: Seq<Option<usize>>)
    requires
        a.len() == b.len(),
        forall|n: int| 0 <= n < a.len() ==> a[n].is_some() == b[n].is_some(),
    ensures
        parented(b) == parented(a),
    decreases a.len(),
{
    if a.len() > 0 {
        lemma_parented_same(a.drop_last(), b.drop_last());
    }
}

/// Adding a childless node keeps the link invariant.
pub proof fn lemma_with_node_linked<V, L>(
    t: TreeView<V, L>,
    parent: Option<usize>,
    value: Option<V>,
    label: Option<L>,
)
    requires
        t.wf(),
        t.linked(),
        t.nodes() < usize::MAX,
        parent matches Some(p) ==> p < t.nodes(),
    ensures
        t.with_node(parent, Seq::empty(), Seq::empty(), value, label).linked(),
{
    let u = t.with_node(parent, Seq::empty(), Seq::empty(), value, label);
    let idx = t.nodes() as usize;
    assert(u.parents.drop_last() =~= t.parents);
    assert forall|n: int, k: int|
        0 <= n < u.children.len() && 0 <= k < u.children[n].len() implies u.parents[(
    #[trigger] u.children[n][k]) as int] == Some(n as usize) by {
        if n < t.nodes() {
            if parent == Some(n as usize) && k == t.children[n].len() {
            } else {
                assert(u.children[n][k] == t.children[n][k]);
                assert(t.children[n][k] < t.children.len());
            }
        }
    }
    assert forall|n: int, k1: int, k2: int|
        0 <= n < u.children.len() && 0 <= k1 < k2 < u.children[n].len() implies
        #[trigger] u.children[n][k1] != #[trigger] u.children[n][k2] by {
        if n < t.nodes() {
            assert(u.children[n][k1] == t.children[n][k1]);
            assert(t.children[n][k1] < t.children.len());
            if parent == Some(n as usize) && k2 == t.children[n].len() {
            } else {
                assert(u.children[n][k2] == t.children[n][k2]);
            }
        }
    }
    assert forall|n: int| 0 <= n < u.parents.len() implies (match #[trigger] u.parents[n] {
        Some(p) => p < n && exists|k: int|
            0 <= k < u.children[p as int].len() && #[trigger] u.children[p as int][k] == n,
        None => true,
    }) by {
        if n < t.nodes() {
            assert(u.parents[n] == t.parents[n]);
            if let Some(p) = t.parents[n] {
                let k = choose|k: int|
                    0 <= k < t.children[p as int].len() && #[trigger] t.children[p as int][k]
                        == n;
                assert(u.children[p as int][k] == n);
            }
        } else if let Some(p) = parent {
            assert(u.children[p as int][t.children[p as int].len() as int] == idx);
        }
    }
}

/// Splicing a node out keeps the link invariant.
pub proof fn lemma_spliced_linked<V, L>(t: TreeView<V, L>, i: usize)
    requires
        t.wf(),
        t.linked(),
        i < t.nodes(),
        t.parents[i as int].is_some(),
    ensures
        t.spliced(i).linked(),
        ({
            let p = t.parents[i as int].unwrap() as int;
            exists|k: int|
                0 <= k < t.children[p].len() && #[trigger] t.children[p][k] == i && t.spliced(
                    i,
                ).children[p] == t.children[p].remove(k) + t.children[i as int] && t.spliced(
                    i,
                ).transitions[p] == t.transitions[p].remove(k) + t.transitions[i as int]
        }),
{
    let u = t.spliced(i);
    let p = t.parents[i as int].unwrap();
    let kids = t.children[i as int];
    let cs = t.children[p as int];
    let ts = t.transitions[p as int];
    assert(p < i);
    assert(cs.len() == ts.len());
    let k0 = choose|k: int| 0 <= k < cs.len() && #[trigger] t.children[p as int][k] == i;
    assert forall|j: int| 0 <= j < cs.len() && j != k0 implies cs[j] != i by {
        if j < k0 {
            assert(t.children[p as int][j] != t.children[p as int][k0]);
        } else {
            assert(t.children[p as int][k0] != t.children[p as int][j]);
        }
    }
    lemma_kept_is_remove(cs, ts, i, k0);
    let rest = cs.remove(k0);
    let newp = rest + kids;
    assert(u.children[p as int] == newp);
    assert(u.children[i as int] == Seq::<usize>::empty());
    assert forall|j: int| 0 <= j < kids.len() implies t.parents[kids[j] as int] == Some(i)
        && kids[j] < t.nodes() && kids[j] > i by {
        assert(t.parents[t.children[i as int][j] as int] == Some(i));
        assert(t.children[i as int][j] < t.children.len());
        assert(match t.parents[kids[j] as int] {
            Some(q) => q < kids[j],
            None => true,
        });
    }
    assert forall|j: int| 0 <= j < rest.len() implies t.parents[rest[j] as int] == Some(p)
        && rest[j] != i && rest[j] < t.nodes() && !(exists|m: int|
        0 <= m < kids.len() && kids[m] == rest[j]) by {
        let src = if j < k0 {
            j
        } else {
            j + 1
        };
        assert(rest[j] == t.children[p as int][src]);
        assert(t.parents[t.children[p as int][src] as int] == Some(p));
        assert(t.children[p as int][src] < t.children.len());
    }
    assert forall|n: int, k: int|
        0 <= n < u.children.len() && 0 <= k < u.children[n].len() implies u.parents[(
    #[trigger] u.children[n][k]) as int] == Some(n as usize) by {
        if n == i {
        } else if n == p {
            if k < rest.len() {
                assert(newp[k] == rest[k]);
            } else {
                assert(newp[k] == kids[k - rest.len()]);
            }
        } else {
            let e = t.children[n][k];
            assert(u.children[n][k] == e);
            assert(t.parents[e as int] == Some(n as usize));
            assert(e < t.children.len());
        }
    }
    assert forall|n: int, k1: int, k2: int|
        0 <= n < u.children.len() && 0 <= k1 < k2 < u.children[n].len() implies
        #[trigger] u.children[n][k1] != #[trigger] u.children[n][k2] by {
        if n == i {
        } else if n == p {
            if k2 < rest.len() {
                let s1 = if k1 < k0 {
                    k1
                } else {
                    k1 + 1
                };
                let s2 = if k2 < k0 {
                    k2
                } else {
                    k2 + 1
                };
                assert(newp[k1] == t.children[p as int][s1]);
                assert(newp[k2] == t.children[p as int][s2]);
            } else if k1 < rest.len() {
                assert(newp[k1] == rest[k1]);
                assert(newp[k2] == kids[k2 - rest.len()]);
            } else {
                assert(newp[k1] == t.children[i as int][k1 - rest.len()]);
                assert(newp[k2] == t.children[i as int][k2 - rest.len()]);
            }
        } else {
            assert(u.children[n][k1] == t.children[n][k1]);
            assert(u.children[n][k2] == t.children[n][k2]);
        }
    }
    assert forall|n: int| 0 <= n < u.parents.len() implies (match #[trigger] u.parents[n] {
        Some(q) => q < n && exists|k: int|
            0 <= k < u.children[q as int].len() && #[trigger] u.children[q as int][k] == n,
        None => true,
    }) by {
        if n == i {
        } else if exists|m: int| 0 <= m < kids.len() && kids[m] == n {
            let m = choose|m: int| 0 <= m < kids.len() && kids[m] == n;
            assert(u.parents[n] == Some(p));
            assert(newp[rest.len() + m] == kids[m]);
            assert(u.children[p as int][rest.len() + m] == n);
        } else {
            assert(u.parents[n] == t.parents[n]);
            if let Some(q) = t.parents[n] {
                let k = choose|k: int|
                    0 <= k < t.children[q as int].len() && #[trigger] t.children[q as int][k]
                        == n;
                if q == i {
                    assert(kids[k] == n);
                } else if q == p {
                    let dst = if k < k0 {
                        k
                    } else {
                        k - 1
                    };
                    assert(k != k0);
                    assert(newp[dst] == cs[k]);
                    assert(u.children[p as int][dst] == n);
                } else {
                    assert(u.children[q as int][k] == n);
                }
            }
        }
    }
    assert forall|n: int| 0 <= n < t.parents.len() && n != i implies t.parents[n].is_some()
        == u.parents[n].is_some() by {
        if exists|m: int| 0 <= m < kids.len() && kids[m] == n {
            let m = choose|m: int| 0 <= m < kids.len() && kids[m] == n;
            assert(t.parents[kids[m] as int] == Some(i));
        }
    }
    lemma_parented_less_one(t.parents, u.parents, i as int);
}

/// Delete frame: splicing node `i` out keeps the number of slots and every
/// payload, that of `i` too; it leaves the lists of every node but `i` and
/// its parent as they were, and the parent link of every node but `i` and
/// the children of `i`.
pub proof fn lemma_delete_frame<V, L>(t: TreeView<V, L>, i: usize)
    requires
        t.wf(),
        i < t.nodes(),
        t.parents[i as int].is_some(),
    ensures
        ({
            let u = t.spliced(i);
            let p = t.parents[i as int].unwrap();
            &&& u.children.len() == t.children.len()
            &&& u.transitions.len() == t.transitions.len()
            &&& u.parents.len() == t.parents.len()
            &&& u.values == t.values
            &&& forall|j: int|
                0 <= j < t.nodes() && j != i && j != p ==> #[trigger] u.children[j]
                    == t.children[j] && u.transitions[j] == t.transitions[j]
            &&& forall|j: int|
                0 <= j < t.nodes() && j != i && !t.children[i as int].contains(j as usize)
                    ==> #[trigger] u.parents[j] == t.parents[j]
        }),
{
    let u = t.spliced(i);
    let p = t.parents[i as int].unwrap();
    let kids = t.children[i as int];
    assert(p < t.nodes());
    assert forall|j: int|
        0 <= j < t.nodes() && j != i && !kids.contains(j as usize) implies #[trigger] u.parents[j]
        == t.parents[j] by {
        if exists|k: int| 0 <= k < kids.len() && kids[k] == j {
            let k = choose|k: int| 0 <= k < kids.len() && kids[k] == j;
            assert(kids[k] == j as usize);
            assert(kids.contains(j as usize));
        }
    }
}

/// Splice invariant: after node `i` has been spliced out it has no parent
/// and no children, one live node fewer is counted, and its former children
/// stand last in the lists of its former parent, in their order and with
/// their labels, and those that name a slot name that parent as theirs.
pub proof fn lemma_splice<V, L>(t: TreeView<V, L>, i: usize)
    requires
        t.wf(),
        i < t.nodes(),
        t.parents[i as int].is_some(),
        t.parents[i as int] != Some(i),
        t.size > 0,
    ensures
        ({
            let u = t.spliced(i);
            let p = t.parents[i as int].unwrap();
            let kids = t.children[i as int];
            let start = u.children[p as int].len() - kids.len();
            &&& u.parents[i as int].is_none()
            &&& u.children[i as int].len() == 0
            &&& u.transitions[i as int].len() == 0
            &&& u.size == t.size - 1
            &&& start >= 0
            &&& u.children[p as int].len() == u.transitions[p as int].len()
            &&& forall|k: int|
                0 <= k < kids.len() ==> {
                    &&& u.children[p as int][start + k] == kids[k]
                    &&& u.transitions[p as int][start + k] == t.transitions[i as int][k]
                    &&& kids[k] != i && kids[k] < t.nodes() ==> u.parents[kids[k] as int]
                        == Some(p)
                }
            &&& forall|k: int| 0 <= k < start ==> u.children[p as int][k] != i
        }),
{
    let u = t.spliced(i);
    let p = t.parents[i as int].unwrap();
    let kids = t.children[i as int];
    assert(p < t.nodes());
    assert(kids.len() == t.transitions[i as int].len());
    assert(t.children[p as int].len() == t.transitions[p as int].len());
    lemma_kept_shape(t.children[p as int], t.transitions[p as int], i);
}

/// What is kept after dropping `i` holds no `i`, and as many labels as
/// children.
pub proof fn lemma_kept_shape<L>(cs: Seq<usize>, ts: Seq<Option<L>>, i: usize)
    requires
        cs.len() == ts.len(),
    ensures
        kept_children(cs, i).len() == kept_labels(cs, ts, i).len(),
        forall|k: int| 0 <= k < kept_children(cs, i).len() ==> kept_children(cs, i)[k] != i,
    decreases cs.len(),
{
    if cs.len() > 0 {
        lemma_kept_shape(cs.skip(1), ts.skip(1), i);
    }
}

/// Splicing a node out keeps the structural invariant.
pub proof fn lemma_spliced_wf<V, L>(t: TreeView<V, L>, i: usize)
    requires
        t.wf(),
        i < t.nodes(),
        t.parents[i as int].is_some(),
        t.size > 0,
    ensures
        t.spliced(i).wf(),
        t.spliced(i).nodes() == t.nodes(),
        t.spliced(i).values == t.values,
{
    let u = t.spliced(i);
    let p = t.parents[i as int].unwrap();
    let kids = t.children[i as int];
    let n = t.nodes();
    assert(p < n);
    assert(kids.len() == t.transitions[i as int].len());
    assert(t.children[p as int].len() == t.transitions[p as int].len());
    lemma_kept_shape(t.children[p as int], t.transitions[p as int], i);
    assert forall|j: int| 0 <= j < u.children.len() implies (#[trigger] u.children[j]).len()
        == u.transitions[j].len() by {
        if j != p && j != i {
            assert(t.children[j].len() == t.transitions[j].len());
        }
    }
    assert forall|j: int| 0 <= j < u.parents.len() implies (match #[trigger] u.parents[j] {
        Some(q) => q < u.children.len(),
        None => true,
    }) by {
        assert(match t.parents[j] {
            Some(q) => q < t.children.len(),
            None => true,
        });
    }
}

/// Splice position: when `i` is the last child of its parent, its former
/// children take the very place `i` had, in their order and with their
/// labels.
pub proof fn lemma_splice_in_place<V, L>(t: TreeView<V, L>, i: usize)
    requires
        t.wf(),
        t.linked(),
        i < t.nodes(),
        t.parents[i as int].is_some(),
        t.children[t.parents[i as int].unwrap() as int].last() == i,
    ensures
        ({
            let u = t.spliced(i);
            let p = t.parents[i as int].unwrap() as int;
            &&& u.children[p] == t.children[p].drop_last() + t.children[i as int]
            &&& u.transitions[p] == t.transitions[p].drop_last() + t.transitions[i as int]
        }),
{
    let p = t.parents[i as int].unwrap() as int;
    let cs = t.children[p];
    let ts = t.transitions[p];
    assert(p < t.nodes());
    assert(cs.len() == ts.len());
    lemma_spliced_linked(t, i);
    let k = choose|k: int|
        0 <= k < cs.len() && #[trigger] t.children[p][k] == i && t.spliced(i).children[p]
            == cs.remove(k) + t.children[i as int] && t.spliced(i).transitions[p] == ts.remove(k)
            + t.transitions[i as int];
    let last = cs.len() - 1;
    if k < last {
        assert(t.children[p][k] != t.children[p][last]);
    }
    assert(cs.remove(last) =~= cs.drop_last());
    assert(ts.remove(last) =~= ts.drop_last());
}

/// Search boundary: in a tree that holds only a childless root, a search
/// visits the root and nothing else, so it finds nothing unless the root
/// itself matches.
pub proof fn lemma_search_root_only<V, L>(
    t: TreeView<V, L>,
    target: Target<V, L>,
    property: Property,
    method: Search,
)
    requires
        t.nodes() == 1,
        t.children[0].len() == 0,
    ensures
        t.traversal(method) == seq![0usize],
        !t.node_matches(0, target, property) ==> t.hits(target, property, method).len() == 0,
{
    let seen0 = Seq::new(t.children.len(), |j: int| false);
    let work0 = seq![0usize];
    assert(work0.drop_last() =~= Seq::<usize>::empty());
    assert(work0.drop_first() =~= Seq::<usize>::empty());
    assert(Seq::<usize>::empty() + t.children[0] =~= Seq::<usize>::empty());
    assert(t.visit_order(method, Seq::empty(), seen0.update(0, true)) == Seq::<usize>::empty());
    assert(t.traversal(method) =~= seq![0usize]) by {
        reveal_with_fuel(TreeView::visit_order, 2);
    }
    let pred = t.is_hit(target, property);
    assert(seq![0usize].filter(pred) == if pred(0usize) {
        Seq::<usize>::empty().push(0usize)
    } else {
        Seq::<usize>::empty()
    }) by {
        reveal_with_fuel(Seq::filter, 2);
        assert(seq![0usize].drop_last() =~= Seq::<usize>::empty());
    }
}

} // verus!
