use vstd::prelude::*;
use crate::error::TreeError;

verus! {

/// The mathematical content of a [`Tree`]: four parallel columns indexed by
/// node id, and the count of live nodes.
pub struct TreeView<V, L> {
    /// For each node, the ids of its children in insertion order.
    pub children: Seq<Seq<usize>>,
    /// For each node, the labels of the edges to its children, position by position.
    pub transitions: Seq<Seq<Option<L>>>,
    /// For each node, its parent; `None` for the root and for detached nodes.
    pub parents: Seq<Option<usize>>,
    /// For each node, its payload, if it has one.
    pub values: Seq<Option<V>>,
    /// The number of live nodes.
    pub size: nat,
}

impl<V, L> TreeView<V, L> {
    /// The number of slots in the arena, live or detached.
    pub open spec fn nodes(self) -> nat {
        self.children.len()
    }

    /// The structural invariant of the arena: a root slot exists, the four
    /// columns are equally long, child and label lists pair up, and every
    /// parent link points into the arena. A child list may hold any index: one
    /// that names no slot is carried along and never followed.
    pub open spec fn wf(self) -> bool {
        &&& 1 <= self.children.len() <= usize::MAX
        &&& self.transitions.len() == self.children.len()
        &&& self.parents.len() == self.children.len()
        &&& self.values.len() == self.children.len()
        &&& self.size <= self.children.len()
        &&& forall|i: int|
            0 <= i < self.children.len() ==> (#[trigger] self.children[i]).len()
                == self.transitions[i].len()
        &&& forall|i: int|
            0 <= i < self.parents.len() ==> match #[trigger] self.parents[i] {
                Some(p) => p < self.children.len(),
                None => true,
            }
    }

    /// Whether every listed child names a slot of the arena.
    pub open spec fn children_in_range(self) -> bool {
        forall|i: int, k: int|
            0 <= i < self.children.len() && 0 <= k < self.children[i].len()
                ==> (#[trigger] self.children[i][k]) < self.children.len()
    }

    /// The link invariant of a tree whose nodes were all added without
    /// children of their own: every listed child names a slot and names its
    /// lister as parent,
    /// no list holds an index twice, every node with a parent has a smaller
    /// index as parent and stands in that parent's list, and the live count
    /// covers the root besides every node that has a parent. The first three
    /// say that a node with a parent is listed by it exactly once.
    pub open spec fn linked(self) -> bool {
        &&& self.children_in_range()
        &&& self.size > parented(self.parents)
        &&& forall|n: int, k: int|
            0 <= n < self.children.len() && 0 <= k < self.children[n].len()
                ==> self.parents[(#[trigger] self.children[n][k]) as int] == Some(n as usize)
        &&& forall|n: int, k1: int, k2: int|
            0 <= n < self.children.len() && 0 <= k1 < k2 < self.children[n].len()
                ==> #[trigger] self.children[n][k1] != #[trigger] self.children[n][k2]
        &&& forall|n: int|
            0 <= n < self.parents.len() ==> match #[trigger] self.parents[n] {
                Some(p) => p < n && exists|k: int|
                    0 <= k < self.children[p as int].len() && #[trigger] self.children[p as int][k]
                        == n,
                None => true,
            }
    }

    /// The arena after a new node has been appended: the parent, if any, lists
    /// the new index last with the given edge label, and the new row is pushed
    /// onto every column.
    pub open spec fn with_node(
        self,
        parent: Option<usize>,
        children: Seq<usize>,
        transitions: Seq<Option<L>>,
        value: Option<V>,
        label: Option<L>,
    ) -> Self {
        let idx = self.children.len() as usize;
        let (ch, tr) = match parent {
            Some(p) => (
                self.children.update(p as int, self.children[p as int].push(idx)),
                self.transitions.update(p as int, self.transitions[p as int].push(label)),
            ),
            None => (self.children, self.transitions),
        };
        TreeView {
            children: ch.push(children),
            transitions: tr.push(transitions),
            parents: self.parents.push(parent),
            values: self.values.push(value),
            size: self.size + 1,
        }
    }

    /// The arena after node `i`, whose parent is `p`, has been spliced out:
    /// `p` no longer lists `i` and lists the children of `i` last, with their
    /// labels; those of them that name a slot now name `p` as parent; `i` is
    /// left with no parent and no children, its payload untouched.
    pub open spec fn spliced(self, i: usize) -> Self {
        let p = self.parents[i as int].unwrap();
        let kids = self.children[i as int];
        let labels = self.transitions[i as int];
        let pc = kept_children(self.children[p as int], i) + kids;
        let pt = kept_labels(self.children[p as int], self.transitions[p as int], i) + labels;
        TreeView {
            children: self.children.update(p as int, pc).update(i as int, Seq::empty()),
            transitions: self.transitions.update(p as int, pt).update(i as int, Seq::empty()),
            parents: Seq::new(
                self.parents.len(),
                |n: int|
                    if n == i {
                        None
                    } else if exists|k: int| 0 <= k < kids.len() && kids[k] == n {
                        Some(p)
                    } else {
                        self.parents[n]
                    },
            ),
            values: self.values,
            size: (self.size - 1) as nat,
        }
    }
}

/// How many entries of the parent column name a parent.
pub open spec fn parented(parents: Seq<Option<usize>>) -> nat
    decreases parents.len(),
{
    if parents.len() == 0 {
        0
    } else {
        parented(parents.drop_last()) + if parents.last().is_some() {
            1nat
        } else {
            0nat
        }
    }
}

/// The entries of `cs` other than `i`, in their order.
pub open spec fn kept_children(cs: Seq<usize>, i: usize) -> Seq<usize>
    decreases cs.len(),
{
    if cs.len() == 0 {
        Seq::empty()
    } else if cs[0] == i {
        kept_children(cs.skip(1), i)
    } else {
        seq![cs[0]] + kept_children(cs.skip(1), i)
    }
}

/// The labels of `ts` at the positions where `cs` holds something other than
/// `i`, in their order.
pub open spec fn kept_labels<L>(cs: Seq<usize>, ts: Seq<Option<L>>, i: usize) -> Seq<Option<L>>
    decreases cs.len(),
{
    if cs.len() == 0 || ts.len() != cs.len() {
        Seq::empty()
    } else if cs[0] == i {
        kept_labels(cs.skip(1), ts.skip(1), i)
    } else {
        seq![ts[0]] + kept_labels(cs.skip(1), ts.skip(1), i)
    }
}

/// An arena of nodes joined by labelled edges. Node 0 is the root.
pub struct Tree<V, L> {
    children: Vec<Vec<usize>>,
    transitions: Vec<Vec<Option<L>>>,
    parents: Vec<Option<usize>>,
    values: Vec<Option<V>>,
    size: usize,
}

impl<V, L> View for Tree<V, L> {
    type V = TreeView<V, L>;

    closed spec fn view(&self) -> TreeView<V, L> {
        TreeView {
            children: Seq::new(self.children@.len(), |i: int| self.children@[i]@),
            transitions: Seq::new(self.transitions@.len(), |i: int| self.transitions@[i]@),
            parents: self.parents@,
            values: self.values@,
            size: self.size as nat,
        }
    }
}

impl<V, L> Tree<V, L> {
    /// Whether the arena satisfies its structural invariant.
    pub open spec fn wf(&self) -> bool {
        self@.wf()
    }

    /// A tree holding only the root: index 0, no parent, no children, no value.
    pub fn new() -> (t: Self)
        ensures
            t.wf(),
            t@.linked(),
            t@.children == seq![Seq::<usize>::empty()],
            t@.transitions == seq![Seq::<Option<L>>::empty()],
            t@.parents == seq![None::<usize>],
            t@.values == seq![None::<V>],
            t@.size == 1,
    {
        let mut children: Vec<Vec<usize>> = Vec::new();
        let mut transitions: Vec<Vec<Option<L>>> = Vec::new();
        let mut parents: Vec<Option<usize>> = Vec::new();
        let mut values: Vec<Option<V>> = Vec::new();
        children.push(Vec::new());
        transitions.push(Vec::new());
        parents.push(None);
        values.push(None);
        let t = Tree { children, transitions, parents, values, size: 1 };
        assert(t@.children =~= seq![Seq::<usize>::empty()]);
        assert(t@.transitions =~= seq![Seq::<Option<L>>::empty()]);
        proof {
            assert(t@.parents.drop_last() =~= Seq::<Option<usize>>::empty());
            assert(parented(t@.parents) == 0) by {
                reveal_with_fuel(parented, 2);
            }
        }
        t
    }

    /// The number of live nodes.
    pub fn len(&self) -> (n: usize)
        ensures
            n == self@.size,
    {
        self.size
    }

    /// The number of arena slots, live or detached.
    pub fn node_count(&self) -> (n: usize)
        ensures
            n == self@.nodes(),
    {
        self.children.len()
    }

    /// Appends a node and returns the index that follows it, which is one more
    /// than the index the node is stored at.
    ///
    /// The call is refused with `OutOfRange`, and the tree left as it was, when
    /// `parent` names no existing slot. The lists given for the new node are
    /// stored as they are.
    pub fn add_node(
        &mut self,
        parent: Option<usize>,
        children: Vec<usize>,
        transitions: Vec<Option<L>>,
        value: V,
        parent_transition: Option<L>,
    ) -> (r: Result<usize, TreeError>)
        requires
            old(self).wf(),
            children@.len() == transitions@.len(),
        ensures
            final(self).wf(),
            old(self)@.linked() && children@.len() == 0 ==> final(self)@.linked(),
            match r {
                Ok(next) => {
                    &&& parent matches Some(p) ==> p < old(self)@.nodes()
                    &&& next == old(self)@.nodes() + 1
                    &&& final(self)@ == old(self)@.with_node(
                        parent,
                        children@,
                        transitions@,
                        Some(value),
                        parent_transition,
                    )
                },
                Err(e) => {
                    &&& e == TreeError::OutOfRange
                    &&& parent matches Some(p) && p >= old(self)@.nodes()
                    &&& final(self)@ == old(self)@
                },
            },
    {
        self.push_row(parent, children, transitions, Some(value), parent_transition)
    }

    /// Appends a node whose payload slot may be vacant; otherwise as
    /// [`Tree::add_node`].
    pub fn push_row(
        &mut self,
        parent: Option<usize>,
        children: Vec<usize>,
        transitions: Vec<Option<L>>,
        value: Option<V>,
        parent_transition: Option<L>,
    ) -> (r: Result<usize, TreeError>)
        requires
            old(self).wf(),
            children@.len() == transitions@.len(),
        ensures
            final(self).wf(),
            old(self)@.linked() && children@.len() == 0 ==> final(self)@.linked(),
            match r {
                Ok(next) => {
                    &&& parent matches Some(p) ==> p < old(self)@.nodes()
                    &&& next == old(self)@.nodes() + 1
                    &&& final(self)@ == old(self)@.with_node(
                        parent,
                        children@,
                        transitions@,
                        value,
                        parent_transition,
                    )
                },
                Err(e) => {
                    &&& e == TreeError::OutOfRange
                    &&& parent matches Some(p) && p >= old(self)@.nodes()
                    &&& final(self)@ == old(self)@
                },
            },
    {
        let index: usize = self.children.len();
        if let Some(p) = parent {
            if p >= index {
                return Err(TreeError::OutOfRange);
            }
        }
        if let Some(p) = parent {
            self.children[p].push(index);
            self.transitions[p].push(parent_transition);
        }
        self.children.push(children);
        self.transitions.push(transitions);
        self.parents.push(parent);
        self.values.push(value);
        let next: usize = self.children.len();
        assert(self.size < next);
        self.size += 1;
        proof {
            let want = old(self)@.with_node(
                parent,
                children@,
                transitions@,
                value,
                parent_transition,
            );
            assert(self@.children =~~= want.children);
            assert(self@.transitions =~~= want.transitions);
            assert(self@.parents =~= want.parents);
            assert(self@.values =~= want.values);
            if old(self)@.linked() && children@.len() == 0 {
                assert(children@ =~= Seq::empty());
                assert(transitions@ =~= Seq::empty());
                crate::laws::lemma_with_node_linked(old(self)@, parent, value, parent_transition);
            }
        }
        Ok(next)
    }

    /// Detaches node `i` and hands its children, with their edge labels, to
    /// its parent.
    ///
    /// `NotFound` when `i` names no slot; `InvalidOperation` when `i` has no
    /// parent (the root, or a node already detached) or the live count is
    /// already zero, which cannot happen while the link invariant holds. On
    /// an error the tree is left as it was.
    pub fn delete_node(&mut self, i: usize) -> (r: Result<(), TreeError>)
        requires
            old(self).wf(),
        ensures
            final(self).wf(),
            old(self)@.linked() ==> final(self)@.linked(),
            i < old(self)@.nodes() && old(self)@.parents[i as int].is_some() && (old(self)@.size
                > 0 || old(self)@.linked()) ==> r.is_ok(),
            match r {
                Ok(_) => {
                    &&& i < old(self)@.nodes()
                    &&& old(self)@.parents[i as int].is_some()
                    &&& old(self)@.size > 0
                    &&& final(self)@ == old(self)@.spliced(i)
                },
                Err(e) => {
                    &&& final(self)@ == old(self)@
                    &&& e == TreeError::NotFound <==> i >= old(self)@.nodes()
                    &&& e == TreeError::InvalidOperation <==> i < old(self)@.nodes() && (old(
                        self,
                    )@.parents[i as int].is_none() || old(self)@.size == 0)
                    &&& e == TreeError::NotFound || e == TreeError::InvalidOperation
                },
            },
    {
        let n: usize = self.children.len();
        if i >= n {
            return Err(TreeError::NotFound);
        }
        let p: usize = match self.parents[i] {
            Some(p) => p,
            None => {
                return Err(TreeError::InvalidOperation);
            },
        };
        if self.size == 0 {
            proof {
                crate::laws::lemma_parented_positive(self@.parents, i as int);
            }
            return Err(TreeError::InvalidOperation);
        }
        let mut kids: Vec<usize> = Vec::new();
        let mut labels: Vec<Option<L>> = Vec::new();
        std::mem::swap(&mut kids, &mut self.children[i]);
        std::mem::swap(&mut labels, &mut self.transitions[i]);
        let ghost cs0 = old(self)@.children[p as int];
        let ghost ts0 = old(self)@.transitions[p as int];
        proof {
            assert(kids@ == old(self)@.children[i as int]);
            assert(labels@ == old(self)@.transitions[i as int]);
            assert(cs0.len() == ts0.len());
        }
        if p != i {
            let mut k: usize = self.children[p].len();
            while k > 0
                invariant
                    p != i,
                    p < n,
                    i < n,
                    self.children@.len() == n,
                    self.transitions@.len() == n,
                    old(self).children@.len() == n,
                    old(self).transitions@.len() == n,
                    self.parents == old(self).parents,
                    self.values == old(self).values,
                    self.size == old(self).size,
                    k <= cs0.len(),
                    cs0.len() == ts0.len(),
                    self.children@[p as int]@.len() == self.transitions@[p as int]@.len(),
                    self.children@[i as int]@ == Seq::<usize>::empty(),
                    self.transitions@[i as int]@ == Seq::<Option<L>>::empty(),
                    forall|j: int|
                        0 <= j < n && j != p && j != i ==> #[trigger] self.children@[j]
                            == old(self).children@[j],
                    forall|j: int|
                        0 <= j < n && j != p && j != i ==> #[trigger] self.transitions@[j]
                            == old(self).transitions@[j],
                    self.children@[p as int]@ == cs0.take(k as int) + kept_children(
                        cs0.skip(k as int),
                        i,
                    ),
                    self.transitions@[p as int]@ == ts0.take(k as int) + kept_labels(
                        cs0.skip(k as int),
                        ts0.skip(k as int),
                        i,
                    ),
                decreases k,
            {
                k -= 1;
                proof {
                    assert(cs0.skip(k as int).skip(1) =~= cs0.skip(k as int + 1));
                    assert(ts0.skip(k as int).skip(1) =~= ts0.skip(k as int + 1));
                    assert(cs0.skip(k as int)[0] == cs0[k as int]);
                    assert(ts0.skip(k as int)[0] == ts0[k as int]);
                    assert(cs0.skip(k as int).len() == ts0.skip(k as int).len());
                }
                if self.children[p][k] == i {
                    self.children[p].remove(k);
                    self.transitions[p].remove(k);
                    assert(self.children@[p as int]@ =~= cs0.take(k as int) + kept_children(
                        cs0.skip(k as int),
                        i,
                    ));
                    assert(self.transitions@[p as int]@ =~= ts0.take(k as int) + kept_labels(
                        cs0.skip(k as int),
                        ts0.skip(k as int),
                        i,
                    ));
                } else {
                    assert(self.children@[p as int]@ =~= cs0.take(k as int) + kept_children(
                        cs0.skip(k as int),
                        i,
                    ));
                    assert(self.transitions@[p as int]@ =~= ts0.take(k as int) + kept_labels(
                        cs0.skip(k as int),
                        ts0.skip(k as int),
                        i,
                    ));
                }
            }
            assert(cs0.skip(0) =~= cs0);
            assert(ts0.skip(0) =~= ts0);
            assert(cs0.take(0) + kept_children(cs0, i) =~= kept_children(cs0, i));
            assert(ts0.take(0) + kept_labels(cs0, ts0, i) =~= kept_labels(cs0, ts0, i));
        }
        let ghost rows = self.children;
        let ghost edges = self.transitions;
        let mut k: usize = 0;
        while k < kids.len()
            invariant
                k <= kids.len(),
                p < n,
                self.parents@.len() == n,
                old(self).parents@.len() == n,
                self.children == rows,
                self.transitions == edges,
                self.values == old(self).values,
                self.size == old(self).size,
                forall|j: int|
                    0 <= j < n ==> #[trigger] self.parents@[j] == if exists|m: int|
                        0 <= m < k && kids@[m] == j {
                        Some(p)
                    } else {
                        old(self).parents@[j]
                    },
            decreases kids.len() - k,
        {
            let c: usize = kids[k];
            if c < n {
                self.parents[c] = Some(p);
            }
            k += 1;
        }
        if p != i {
            self.children[p].append(&mut kids);
            self.transitions[p].append(&mut labels);
        }
        self.parents[i] = None;
        self.size -= 1;
        proof {
            let want = old(self)@.spliced(i);
            assert(self@.children =~~= want.children);
            assert(self@.transitions =~~= want.transitions);
            assert(self@.parents =~= want.parents);
            assert(self@.values =~= want.values);
            if old(self)@.linked() {
                crate::laws::lemma_spliced_linked(old(self)@, i);
            }
            crate::laws::lemma_spliced_wf(old(self)@, i);
        }
        Ok(())
    }

    /// The children of node `i`, in insertion order.
    pub fn children(&self, i: usize) -> (r: &Vec<usize>)
        requires
            self.wf(),
            i < self@.nodes(),
        ensures
            r@ == self@.children[i as int],
    {
        &self.children[i]
    }

    /// The edge labels of node `i`, position by position with its children.
    pub fn transitions(&self, i: usize) -> (r: &Vec<Option<L>>)
        requires
            self.wf(),
            i < self@.nodes(),
        ensures
            r@ == self@.transitions[i as int],
    {
        &self.transitions[i]
    }

    /// The parent of node `i`, if it has one.
    pub fn parent(&self, i: usize) -> (r: Option<usize>)
        requires
            self.wf(),
            i < self@.nodes(),
        ensures
            r == self@.parents[i as int],
    {
        self.parents[i]
    }

    /// The payload of node `i`, if it has one.
    pub fn value(&self, i: usize) -> (r: Option<&V>)
        requires
            self.wf(),
            i < self@.nodes(),
        ensures
            match r {
                Some(v) => self@.values[i as int] == Some(*v),
                None => self@.values[i as int].is_none(),
            },
    {
        self.values[i].as_ref()
    }

    /// Stores `value` as the payload of node `i`, replacing any earlier one.
    /// `OutOfRange`, with the tree unchanged, when `i` names no slot.
    pub fn set_value(&mut self, i: usize, value: V) -> (r: Result<(), TreeError>)
        requires
            old(self).wf(),
        ensures
            final(self).wf(),
            match r {
                Ok(_) => {
                    &&& i < old(self)@.nodes()
                    &&& final(self)@ == (TreeView {
                        values: old(self)@.values.update(i as int, Some(value)),
                        ..old(self)@
                    })
                },
                Err(e) => {
                    &&& e == TreeError::OutOfRange
                    &&& i >= old(self)@.nodes()
                    &&& final(self)@ == old(self)@
                },
            },
    {
        if i >= self.values.len() {
            return Err(TreeError::OutOfRange);
        }
        self.values[i] = Some(value);
        proof {
            assert(self@.children =~~= old(self)@.children);
            assert(self@.transitions =~~= old(self)@.transitions);
        }
        Ok(())
    }
}

} // verus!
