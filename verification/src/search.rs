use vstd::prelude::*;
use vstd::laws_eq::obeys_concrete_eq;
use std::collections::VecDeque;
use crate::tree::{Tree, TreeView};

verus! {

/// The per-node column a search compares against.
#[derive(Clone, Copy, Debug, PartialEq, Eq, Structural)]
pub enum Property {
    /// The node's list of child indices.
    Children,
    /// The node's list of edge labels.
    Transitions,
    /// The node's parent, as a one-element list.
    Parents,
    /// The node's payload, as a one-element list.
    Values,
}

/// The order in which a search takes nodes off its work list.
#[derive(Clone, Copy, Debug, PartialEq, Eq, Structural)]
pub enum Search {
    /// Take the most recently added node first.
    Depth,
    /// Take the earliest added node first.
    Breadth,
}

/// One element of a node's property list, or one element to look for.
pub enum Item<V, L> {
    /// A node index: a child or a parent.
    Index(usize),
    /// An edge label.
    Label(L),
    /// A payload.
    Value(V),
    /// The absence of a label, a parent or a payload.
    Nothing,
}

impl<T> Item<T, T> {
    /// The element that a host value stands for when it is held against
    /// `property`: nothing for an absent value; for the children and parents
    /// columns the index it reads as, if it reads as one; a label for the
    /// transitions column, and for an index column where it reads as none, so
    /// that it matches no index; a payload for the values column.
    pub fn from_token(property: Property, index: Option<usize>, token: Option<T>) -> (r: Self)
        ensures
            r == match token {
                None => Item::<T, T>::Nothing,
                Some(t) => match property {
                    Property::Children | Property::Parents => match index {
                        Some(i) => Item::<T, T>::Index(i),
                        None => Item::<T, T>::Label(t),
                    },
                    Property::Transitions => Item::<T, T>::Label(t),
                    Property::Values => Item::<T, T>::Value(t),
                },
            },
    {
        match token {
            None => Item::Nothing,
            Some(t) => match property {
                Property::Children | Property::Parents => match index {
                    Some(i) => Item::Index(i),
                    None => Item::Label(t),
                },
                Property::Transitions => Item::Label(t),
                Property::Values => Item::Value(t),
            },
        }
    }
}

/// What a search looks for.
pub enum Target<V, L> {
    /// A single element.
    One(Item<V, L>),
    /// An ordered list of elements, paired position by position with the
    /// property list.
    Many(Vec<Item<V, L>>),
}

/// What a search found.
#[derive(Debug, PartialEq, Eq)]
pub enum MatchResult {
    /// The first matching node in traversal order.
    One(usize),
    /// Every matching node, in traversal order.
    All(Vec<usize>),
}

/// How many slots are not yet marked.
pub open spec fn unseen(seen: Seq<bool>) -> nat
    decreases seen.len(),
{
    if seen.len() == 0 {
        0
    } else {
        unseen(seen.drop_last()) + if seen.last() {
            0nat
        } else {
            1nat
        }
    }
}

/// Marking a slot that was not marked leaves one unmarked slot fewer.
pub proof fn lemma_mark_seen(seen: Seq<bool>, i: int)
    requires
        0 <= i < seen.len(),
        !seen[i],
    ensures
        unseen(seen.update(i, true)) + 1 == unseen(seen),
    decreases seen.len(),
{
    let marked = seen.update(i, true);
    if i == seen.len() - 1 {
        assert(marked.drop_last() =~= seen.drop_last());
    } else {
        assert(marked.drop_last() =~= seen.drop_last().update(i, true));
        lemma_mark_seen(seen.drop_last(), i);
    }
}

/// The traversal rule, one step at a time: an empty work list ends the
/// traversal; an index that is marked, or that the marks do not cover, is
/// dropped from the work list; any other index is visited next, marked, and
/// followed on the work list by its children.
pub proof fn lemma_visit_order_step<V, L>(
    t: TreeView<V, L>,
    method: Search,
    work: Seq<usize>,
    seen: Seq<bool>,
)
    ensures
        work.len() == 0 ==> t.visit_order(method, work, seen) == Seq::<usize>::empty(),
        work.len() > 0 ==> ({
            let i = match method {
                Search::Depth => work.last(),
                Search::Breadth => work.first(),
            };
            let rest = match method {
                Search::Depth => work.drop_last(),
                Search::Breadth => work.drop_first(),
            };
            t.visit_order(method, work, seen) == if i >= seen.len() || seen[i as int] {
                t.visit_order(method, rest, seen)
            } else {
                seq![i] + t.visit_order(
                    method,
                    rest + t.children[i as int],
                    seen.update(i as int, true),
                )
            }
        }),
{
}

impl<V, L> TreeView<V, L> {
    /// How many elements the chosen property of node `i` has.
    pub open spec fn property_len(self, i: int, property: Property) -> nat {
        match property {
            Property::Children => self.children[i].len(),
            Property::Transitions => self.transitions[i].len(),
            Property::Parents => 1,
            Property::Values => 1,
        }
    }

    /// Element `k` of the chosen property of node `i`.
    pub open spec fn property_item(self, i: int, property: Property, k: int) -> Item<V, L> {
        match property {
            Property::Children => Item::Index(self.children[i][k]),
            Property::Transitions => match self.transitions[i][k] {
                Some(l) => Item::Label(l),
                None => Item::Nothing,
            },
            Property::Parents => match self.parents[i] {
                Some(p) => Item::Index(p),
                None => Item::Nothing,
            },
            Property::Values => match self.values[i] {
                Some(v) => Item::Value(v),
                None => Item::Nothing,
            },
        }
    }

    /// Whether node `i` matches the target. Only the last comparison counts:
    /// a single element is held against the last element of the property
    /// list, and a list against the property list at the last position both
    /// have. Earlier positions do not matter, and an empty pairing never
    /// matches.
    pub open spec fn node_matches(self, i: int, target: Target<V, L>, property: Property) -> bool {
        let len = self.property_len(i, property);
        match target {
            Target::One(x) => len > 0 && self.property_item(i, property, len - 1) == x,
            Target::Many(xs) => {
                let m = if xs@.len() < len {
                    xs@.len()
                } else {
                    len
                };
                m > 0 && self.property_item(i, property, m - 1) == xs@[m - 1]
            },
        }
    }

    /// The test a search applies to each visited node.
    pub open spec fn is_hit(self, target: Target<V, L>, property: Property) -> spec_fn(
        usize,
    ) -> bool {
        |i: usize| self.node_matches(i as int, target, property)
    }

    /// The nodes a traversal still visits, in order, given the work list and
    /// the marks of the slots already visited. The next index is taken from
    /// the back of the work list (depth first) or from its front (breadth
    /// first); an index that is marked, or that the marks do not cover, is
    /// skipped; a visited node is marked and its children join the back of
    /// the work list in their stored order.
    pub open spec fn visit_order(self, method: Search, work: Seq<usize>, seen: Seq<bool>) -> Seq<
        usize,
    >
        decreases unseen(seen), work.len(),
        via Self::visit_order_ends
    {
        if work.len() == 0 {
            Seq::empty()
        } else {
            let i = match method {
                Search::Depth => work.last(),
                Search::Breadth => work.first(),
            };
            let rest = match method {
                Search::Depth => work.drop_last(),
                Search::Breadth => work.drop_first(),
            };
            if i >= seen.len() || seen[i as int] {
                self.visit_order(method, rest, seen)
            } else {
                seq![i] + self.visit_order(
                    method,
                    rest + self.children[i as int],
                    seen.update(i as int, true),
                )
            }
        }
    }

    #[via_fn]
    proof fn visit_order_ends(self, method: Search, work: Seq<usize>, seen: Seq<bool>) {
        if work.len() > 0 {
            let i = match method {
                Search::Depth => work.last(),
                Search::Breadth => work.first(),
            };
            if i < seen.len() && !seen[i as int] {
                lemma_mark_seen(seen, i as int);
            }
        }
    }

    /// The nodes a search visits, in order: the traversal from the root, in
    /// which each slot is visited at most once.
    pub open spec fn traversal(self, method: Search) -> Seq<usize> {
        self.visit_order(method, seq![0usize], Seq::new(self.children.len(), |j: int| false))
    }

    /// The visited nodes that match the target, in traversal order.
    pub open spec fn hits(self, target: Target<V, L>, property: Property, method: Search) -> Seq<
        usize,
    > {
        self.traversal(method).filter(self.is_hit(target, property))
    }
}

impl<V: PartialEq, L: PartialEq> Tree<V, L> {
    /// Whether `item` equals element `k` of the chosen property of node `i`.
    fn item_matches(&self, i: usize, property: Property, k: usize, item: &Item<V, L>) -> (r: bool)
        requires
            self.wf(),
            obeys_concrete_eq::<V>(),
            obeys_concrete_eq::<L>(),
            i < self@.nodes(),
            k < self@.property_len(i as int, property),
        ensures
            r == (self@.property_item(i as int, property, k as int) == *item),
    {
        proof {
            reveal(obeys_concrete_eq);
        }
        match property {
            Property::Children => match item {
                Item::Index(a) => self.children(i)[k] == *a,
                _ => false,
            },
            Property::Transitions => match (&self.transitions(i)[k], item) {
                (Some(l), Item::Label(x)) => *l == *x,
                (None, Item::Nothing) => true,
                _ => false,
            },
            Property::Parents => match (self.parent(i), item) {
                (Some(p), Item::Index(a)) => p == *a,
                (None, Item::Nothing) => true,
                _ => false,
            },
            Property::Values => match (self.value(i), item) {
                (Some(v), Item::Value(x)) => *v == *x,
                (None, Item::Nothing) => true,
                _ => false,
            },
        }
    }

    /// Whether node `i` matches the target under the last-comparison rule.
    pub fn matches(&self, i: usize, target: &Target<V, L>, property: Property) -> (r: bool)
        requires
            self.wf(),
            obeys_concrete_eq::<V>(),
            obeys_concrete_eq::<L>(),
            i < self@.nodes(),
        ensures
            r == self@.node_matches(i as int, *target, property),
    {
        let len: usize = match property {
            Property::Children => self.children(i).len(),
            Property::Transitions => self.transitions(i).len(),
            Property::Parents => 1,
            Property::Values => 1,
        };
        match target {
            Target::One(x) => len > 0 && self.item_matches(i, property, len - 1, x),
            Target::Many(xs) => {
                let m: usize = if xs.len() < len {
                    xs.len()
                } else {
                    len
                };
                m > 0 && self.item_matches(i, property, m - 1, &xs[m - 1])
            },
        }
    }

    /// Walks the tree from the root and reports the nodes that match.
    ///
    /// With `match_all` unset the walk stops at the first match and reports
    /// it; with `match_all` set it reports every match in the order visited.
    /// `None` when nothing matches. Each slot is visited at most once, so the
    /// walk ends even where child lists lead back to a slot already seen; a
    /// listed index that names no slot is passed over.
    pub fn search(
        &self,
        target: &Target<V, L>,
        match_all: bool,
        property: Property,
        method: Search,
    ) -> (r: Option<MatchResult>)
        requires
            self.wf(),
            obeys_concrete_eq::<V>(),
            obeys_concrete_eq::<L>(),
        ensures
            match r {
                None => self@.hits(*target, property, method).len() == 0,
                Some(MatchResult::One(i)) => {
                    &&& !match_all
                    &&& self@.hits(*target, property, method).len() > 0
                    &&& i == self@.hits(*target, property, method)[0]
                },
                Some(MatchResult::All(v)) => {
                    &&& match_all
                    &&& v@.len() > 0
                    &&& v@ == self@.hits(*target, property, method)
                },
            },
    {
        let n: usize = self.node_count();
        let mut seen: Vec<bool> = Vec::new();
        while seen.len() < n
            invariant
                seen@.len() <= n,
                forall|j: int| 0 <= j < seen@.len() ==> !(#[trigger] seen@[j]),
            decreases n - seen@.len(),
        {
            seen.push(false);
        }
        assert(seen@ =~= Seq::new(self@.children.len(), |j: int| false));
        let mut work: VecDeque<usize> = VecDeque::new();
        work.push_back(0);
        assert(work@ =~= seq![0usize]);
        let mut found: Vec<usize> = Vec::new();
        let ghost done: Seq<usize> = Seq::empty();
        let ghost pred = self@.is_hit(*target, property);
        assert(done.filter(pred) =~= Seq::<usize>::empty());
        loop
            invariant_except_break
                self@.traversal(method) == done + self@.visit_order(method, work@, seen@),
            invariant
                self.wf(),
                obeys_concrete_eq::<V>(),
                obeys_concrete_eq::<L>(),
                n == self@.nodes(),
                seen@.len() == n,
                pred == self@.is_hit(*target, property),
                found@ == done.filter(pred),
                !match_all ==> found@.len() == 0,
            ensures
                self@.traversal(method) == done,
                found@ == done.filter(pred),
                !match_all ==> found@.len() == 0,
            decreases unseen(seen@), work@.len(),
        {
            let next = match method {
                Search::Depth => work.pop_back(),
                Search::Breadth => work.pop_front(),
            };
            let i: usize = match next {
                Some(i) => i,
                None => {
                    assert(done + Seq::<usize>::empty() =~= done);
                    break ;
                },
            };
            if i >= n || seen[i] {
                continue ;
            }
            let ghost rest = work@;
            let ghost tail = self@.visit_order(
                method,
                rest + self@.children[i as int],
                seen@.update(i as int, true),
            );
            proof {
                lemma_mark_seen(seen@, i as int);
                assert(self@.traversal(method) =~= done.push(i) + tail);
                assert(done.push(i).drop_last() =~= done);
                assert(done.push(i).filter(pred) == if pred(i) {
                    done.filter(pred).push(i)
                } else {
                    done.filter(pred)
                }) by {
                    reveal(Seq::filter);
                }
                assert(pred(i) == self@.node_matches(i as int, *target, property));
            }
            if self.matches(i, target, property) {
                if match_all {
                    found.push(i);
                } else {
                    proof {
                        Seq::filter_distributes_over_add(done.push(i), tail, pred);
                        assert(done.push(i).filter(pred) =~= seq![i]);
                    }
                    return Some(MatchResult::One(i));
                }
            }
            proof {
                done = done.push(i);
            }
            seen.set(i, true);
            let kids = self.children(i);
            let mut k: usize = 0;
            while k < kids.len()
                invariant
                    k <= kids@.len(),
                    self.wf(),
                    n == self@.nodes(),
                    i < n,
                    kids@ == self@.children[i as int],
                    work@ == rest + kids@.take(k as int),
                decreases kids@.len() - k,
            {
                work.push_back(kids[k]);
                assert(work@ =~= rest + kids@.take(k as int + 1));
                k += 1;
            }
            assert(kids@.take(k as int) =~= kids@);
        }
        if found.len() > 0 {
            Some(MatchResult::All(found))
        } else {
            None
        }
    }
}

} // verus!
