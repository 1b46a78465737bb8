use vstd::prelude::*;
use vstd::laws_eq::obeys_concrete_eq;
use crate::error::TreeError;
use crate::tree::{Tree, TreeView};

verus! {

impl<V, L> TreeView<V, L> {
    /// The child reached from `node` over the first edge labelled `sym`, if
    /// there is such an edge.
    pub open spec fn step(self, node: int, sym: L) -> Option<usize> {
        match self.transitions[node].index_of_first(Some(sym)) {
            Some(k) => Some(self.children[node][k]),
            None => None,
        }
    }

    /// The node reached from `node` by following `key` symbol by symbol, or
    /// `None` as soon as a symbol has no matching edge.
    pub open spec fn walk(self, node: usize, key: Seq<L>) -> Option<usize>
        decreases key.len(),
    {
        if key.len() == 0 {
            Some(node)
        } else {
            match self.step(node as int, key[0]) {
                Some(c) => self.walk(c, key.skip(1)),
                None => None,
            }
        }
    }

    /// What a lookup of `key` from the root yields: the payload slot of the
    /// node the walk ends at, or `KeyNotFound` when the walk breaks off.
    pub open spec fn fetch(self, key: Seq<L>) -> Result<Option<V>, TreeError> {
        match self.walk(0, key) {
            Some(n) => Ok(self.values[n as int]),
            None => Err(TreeError::KeyNotFound),
        }
    }

    /// The arena after `key` has been entered below `node` with payload
    /// `value`: existing edges are followed, each missing edge gets a fresh
    /// node with a vacant payload, and the node the key ends at receives
    /// `value`.
    pub open spec fn grown(self, node: usize, key: Seq<L>, value: V) -> Self
        decreases key.len(),
    {
        if key.len() == 0 {
            TreeView { values: self.values.update(node as int, Some(value)), ..self }
        } else {
            match self.step(node as int, key[0]) {
                Some(c) => self.grown(c, key.skip(1), value),
                None => self.with_node(
                    Some(node),
                    Seq::empty(),
                    Seq::empty(),
                    None,
                    Some(key[0]),
                ).grown(self.children.len() as usize, key.skip(1), value),
            }
        }
    }
}

impl<V, L: PartialEq> Tree<V, L> {
    /// Scans the edges of `node` in stored order for the first one labelled
    /// `sym` and returns the child it leads to.
    pub fn child_by_label(&self, node: usize, sym: &L) -> (r: Option<usize>)
        requires
            self.wf(),
            obeys_concrete_eq::<L>(),
            node < self@.nodes(),
        ensures
            r == self@.step(node as int, *sym),
            self@.children_in_range() ==> (r matches Some(c) ==> c < self@.nodes()),
    {
        let labels = self.transitions(node);
        let kids = self.children(node);
        let mut k: usize = 0;
        while k < labels.len()
            invariant
                k <= labels@.len(),
                obeys_concrete_eq::<L>(),
                self.wf(),
                node < self@.nodes(),
                kids@ == self@.children[node as int],
                labels@ == self@.transitions[node as int],
                forall|j: int| 0 <= j < k ==> labels@[j] != Some(*sym),
            decreases labels@.len() - k,
        {
            let same = match &labels[k] {
                Some(l) => {
                    proof {
                        reveal(obeys_concrete_eq);
                    }
                    *l == *sym
                },
                None => false,
            };
            if same {
                proof {
                    labels@.index_of_first_ensures(Some(*sym));
                }
                return Some(kids[k]);
            }
            k += 1;
        }
        proof {
            labels@.index_of_first_ensures(Some(*sym));
        }
        None
    }
}

/// An associative container keyed by sequences of symbols, stored as a tree
/// whose edge labels are the symbols.
pub struct Trie<V, L> {
    tree: Tree<V, L>,
}

impl<V, L> View for Trie<V, L> {
    type V = TreeView<V, L>;

    closed spec fn view(&self) -> TreeView<V, L> {
        self.tree@
    }
}

impl<V, L: PartialEq> Trie<V, L> {
    /// Whether the underlying arena satisfies its structural invariant and
    /// its link invariant.
    pub open spec fn wf(&self) -> bool {
        self@.wf() && self@.linked()
    }

    /// A trie holding only the root, which carries no payload.
    pub fn new() -> (t: Self)
        ensures
            t.wf(),
            t@.nodes() == 1,
            t@.children == seq![Seq::<usize>::empty()],
            t@.transitions == seq![Seq::<Option<L>>::empty()],
            t@.parents == seq![None::<usize>],
            t@.values == seq![None::<V>],
            t@.size == 1,
    {
        Trie { tree: Tree::new() }
    }

    /// The tree that stores the trie.
    pub fn tree(&self) -> (t: &Tree<V, L>)
        ensures
            t@ == self@,
    {
        &self.tree
    }

    /// Adds a childless node to the underlying tree, as [`Tree::push_row`]
    /// does with empty lists.
    pub fn add_node(&mut self, parent: Option<usize>, value: Option<V>, label: Option<L>) -> (r:
        Result<usize, TreeError>)
        requires
            old(self).wf(),
        ensures
            final(self).wf(),
            match r {
                Ok(next) => {
                    &&& parent matches Some(p) ==> p < old(self)@.nodes()
                    &&& next == old(self)@.nodes() + 1
                    &&& final(self)@ == old(self)@.with_node(
                        parent,
                        Seq::empty(),
                        Seq::empty(),
                        value,
                        label,
                    )
                },
                Err(e) => {
                    &&& e == TreeError::OutOfRange
                    &&& parent matches Some(p) && p >= old(self)@.nodes()
                    &&& final(self)@ == old(self)@
                },
            },
    {
        let children: Vec<usize> = Vec::new();
        let transitions: Vec<Option<L>> = Vec::new();
        assert(children@ =~= Seq::empty());
        assert(transitions@ =~= Seq::empty());
        self.tree.push_row(parent, children, transitions, value, label)
    }

    /// Splices a node out of the underlying tree, as [`Tree::delete_node`]
    /// does; a node with a parent is always removed.
    pub fn delete_node(&mut self, i: usize) -> (r: Result<(), TreeError>)
        requires
            old(self).wf(),
        ensures
            final(self).wf(),
            match r {
                Ok(_) => {
                    &&& i < old(self)@.nodes()
                    &&& old(self)@.parents[i as int].is_some()
                    &&& final(self)@ == old(self)@.spliced(i)
                },
                Err(e) => {
                    &&& final(self)@ == old(self)@
                    &&& e == TreeError::NotFound <==> i >= old(self)@.nodes()
                    &&& e == TreeError::InvalidOperation <==> i < old(self)@.nodes() && old(
                        self,
                    )@.parents[i as int].is_none()
                    &&& e == TreeError::NotFound || e == TreeError::InvalidOperation
                },
            },
    {
        self.tree.delete_node(i)
    }

    /// Follows `key` from the root and returns the node it ends at, or `None`
    /// when some symbol has no matching edge.
    pub fn locate(&self, key: &[L]) -> (r: Option<usize>)
        requires
            self.wf(),
            obeys_concrete_eq::<L>(),
        ensures
            r == self@.walk(0, key@),
            r matches Some(n) ==> n < self@.nodes(),
    {
        let mut cur: usize = 0;
        let mut k: usize = 0;
        assert(key@.skip(0) =~= key@);
        while k < key.len()
            invariant
                k <= key@.len(),
                self.wf(),
                obeys_concrete_eq::<L>(),
                cur < self@.nodes(),
                self@.walk(0, key@) == self@.walk(cur, key@.skip(k as int)),
            decreases key@.len() - k,
        {
            assert(key@.skip(k as int).skip(1) =~= key@.skip(k as int + 1));
            match self.tree.child_by_label(cur, &key[k]) {
                Some(c) => {
                    cur = c;
                },
                None => {
                    return None;
                },
            }
            k += 1;
        }
        Some(cur)
    }

    /// Looks `key` up. `KeyNotFound` when the walk breaks off; otherwise the
    /// payload of the node the key ends at, which is `None` for a node that
    /// exists only as a prefix of longer keys.
    pub fn get(&self, key: &[L]) -> (r: Result<Option<&V>, TreeError>)
        requires
            self.wf(),
            obeys_concrete_eq::<L>(),
        ensures
            match r {
                Ok(Some(v)) => self@.fetch(key@) == Ok::<Option<V>, TreeError>(Some(*v)),
                Ok(None) => self@.fetch(key@) == Ok::<Option<V>, TreeError>(None),
                Err(e) => self@.fetch(key@) == Err::<Option<V>, TreeError>(e),
            },
    {
        match self.locate(key) {
            Some(n) => Ok(self.tree.value(n)),
            None => Err(TreeError::KeyNotFound),
        }
    }

    /// Whether the walk along `key` reaches a node.
    pub fn contains(&self, key: &[L]) -> (r: bool)
        requires
            self.wf(),
            obeys_concrete_eq::<L>(),
        ensures
            r == self@.walk(0, key@).is_some(),
            r == self@.fetch(key@).is_ok(),
    {
        self.locate(key).is_some()
    }

    /// Enters `key` with payload `value`, creating the nodes the key lacks
    /// and overwriting the payload if the key was present.
    pub fn set(&mut self, key: Vec<L>, value: V)
        requires
            old(self).wf(),
            obeys_concrete_eq::<L>(),
        ensures
            final(self).wf(),
            final(self)@ == old(self)@.grown(0, key@, value),
            final(self)@.fetch(key@) == Ok::<Option<V>, TreeError>(Some(value)),
    {
        let ghost ks = key@;
        let mut cur: usize = 0;
        assert(ks.skip(0) =~= ks);
        for sym in it: key
            invariant
                it.seq() == ks,
                self.wf(),
                self.tree.wf(),
                obeys_concrete_eq::<L>(),
                cur < self@.nodes(),
                old(self)@.grown(0, ks, value) == self@.grown(
                    cur,
                    ks.skip(it.index() as int),
                    value,
                ),
        {
            assert(ks.skip(it.index() as int).skip(1) =~= ks.skip(it.index() as int + 1));
            match self.tree.child_by_label(cur, &sym) {
                Some(c) => {
                    cur = c;
                },
                None => {
                    let fresh: usize = self.tree.node_count();
                    let added = self.tree.push_row(
                        Some(cur),
                        Vec::new(),
                        Vec::new(),
                        None,
                        Some(sym),
                    );
                    cur = fresh;
                },
            }
        }
        let stored = self.tree.set_value(cur, value);
        proof {
            crate::trie_laws::lemma_grown(old(self)@, 0, ks, value);
        }
    }
}

} // verus!
