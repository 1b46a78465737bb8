use vstd::prelude::*;
use crate::error::TreeError;
use crate::laws::{lemma_with_node_linked, lemma_with_node_wf};
use crate::tree::TreeView;

verus! {

/// The first position of `needle` in a list that got one more entry: the
/// position it had, or the new last place if it was absent and is the entry
/// added.
pub proof fn lemma_first_after_push<A>(ts: Seq<A>, x: A, needle: A)
    ensures
        ts.push(x).index_of_first(needle) == match ts.index_of_first(needle) {
            Some(k) => Some(k),
            None => if x == needle {
                Some(ts.len() as int)
            } else {
                None
            },
        },
{
    let us = ts.push(x);
    ts.index_of_first_ensures(needle);
    us.index_of_first_ensures(needle);
    match ts.index_of_first(needle) {
        Some(k) => {
            assert(us[k] == needle);
            assert(us.contains(needle));
            let m = us.index_of_first(needle).unwrap();
            if m < k {
                assert(ts[m] == us[m]);
            }
            if k < m {
                assert(us[k] == needle);
            }
        },
        None => {
            if x == needle {
                assert(us[ts.len() as int] == needle);
                assert(us.contains(needle));
                let m = us.index_of_first(needle).unwrap();
                if m < ts.len() {
                    assert(ts[m] == needle);
                    assert(ts.contains(needle));
                }
            } else {
                if us.contains(needle) {
                    let m = us.index_of_first(needle).unwrap();
                    assert(ts[m] == needle);
                    assert(ts.contains(needle));
                }
            }
        },
    }
}

/// The edges of a tree after a childless node has been added below `p`: the
/// new edge is found under its label if `p` had no edge with that label, and
/// every other lookup answers as before.
pub proof fn lemma_with_node_step<V, L>(
    t: TreeView<V, L>,
    p: usize,
    value: Option<V>,
    label: Option<L>,
    node: usize,
    sym: L,
)
    requires
        t.wf(),
        p < t.nodes(),
        node < t.nodes(),
    ensures
        t.with_node(Some(p), Seq::empty(), Seq::empty(), value, label).step(node as int, sym)
            == if node == p && t.step(node as int, sym).is_none() && label == Some(sym) {
            Some(t.nodes() as usize)
        } else {
            t.step(node as int, sym)
        },
{
    let u = t.with_node(Some(p), Seq::empty(), Seq::empty(), value, label);
    assert(t.children[node as int].len() == t.transitions[node as int].len());
    t.transitions[node as int].index_of_first_ensures(Some(sym));
    if node == p {
        lemma_first_after_push(t.transitions[p as int], label, Some(sym));
        assert(u.transitions[p as int] == t.transitions[p as int].push(label));
        assert(u.children[p as int] == t.children[p as int].push(t.nodes() as usize));
    } else {
        assert(u.transitions[node as int] == t.transitions[node as int]);
        assert(u.children[node as int] == t.children[node as int]);
    }
}

/// A step taken in a tree whose listed children all name slots ends at an
/// existing slot.
pub proof fn lemma_step_in_range<V, L>(t: TreeView<V, L>, node: usize, sym: L)
    requires
        t.wf(),
        t.children_in_range(),
        node < t.nodes(),
    ensures
        t.step(node as int, sym) matches Some(c) ==> c < t.nodes(),
{
    assert(t.children[node as int].len() == t.transitions[node as int].len());
    t.transitions[node as int].index_of_first_ensures(Some(sym));
    if let Some(k) = t.transitions[node as int].index_of_first(Some(sym)) {
        assert(t.children[node as int][k] < t.children.len());
    }
}

/// Whether child and label lists pair up and every listed child names a
/// slot, which is what following an edge relies on.
pub open spec fn walkable<V, L>(t: TreeView<V, L>) -> bool {
    &&& t.transitions.len() == t.children.len()
    &&& forall|i: int|
        0 <= i < t.children.len() ==> (#[trigger] t.children[i]).len() == t.transitions[i].len()
    &&& t.children_in_range()
}

/// Adding a childless, payload-free node below `x` keeps the tree walkable.
pub proof fn lemma_with_node_walkable<V, L>(t: TreeView<V, L>, x: usize, label: Option<L>)
    requires
        walkable(t),
        x < t.nodes(),
    ensures
        walkable(t.with_node(Some(x), Seq::empty(), Seq::empty(), None, label)),
        t.with_node(Some(x), Seq::empty(), Seq::empty(), None, label).nodes() == t.nodes() + 1,
        (t.children.len() as usize) <= t.nodes(),
{
    let t1 = t.with_node(Some(x), Seq::empty(), Seq::empty(), None, label);
    assert(t1.nodes() == t.nodes() + 1);
    assert forall|i: int, k: int|
        0 <= i < t1.children.len() && 0 <= k < t1.children[i].len() implies (
    #[trigger] t1.children[i][k]) < t1.children.len() by {
        if i < t.children.len() {
            if i == x && k == t.children[i].len() {
            } else {
                assert(t1.children[i][k] == t.children[i][k]);
                assert(t.children[i][k] < t.children.len());
            }
        }
    }
    assert forall|i: int| 0 <= i < t1.children.len() implies (#[trigger] t1.children[i]).len()
        == t1.transitions[i].len() by {
        if i < t.children.len() {
            assert(t.children[i].len() == t.transitions[i].len());
        }
    }
}

/// Entering a key never takes a slot away and adds at most one per symbol.
pub proof fn lemma_grown_size<V, L>(t: TreeView<V, L>, x: usize, key: Seq<L>, v: V)
    requires
        walkable(t),
        x < t.nodes(),
    ensures
        t.nodes() <= t.grown(x, key, v).nodes() <= t.nodes() + key.len(),
    decreases key.len(),
{
    if key.len() > 0 {
        assert(t.children[x as int].len() == t.transitions[x as int].len());
        t.transitions[x as int].index_of_first_ensures(Some(key[0]));
        match t.step(x as int, key[0]) {
            Some(c) => {
                let k = t.transitions[x as int].index_of_first(Some(key[0])).unwrap();
                assert(t.children[x as int][k] < t.children.len());
                lemma_grown_size(t, c, key.skip(1), v);
            },
            None => {
                let n = t.children.len() as usize;
                let t1 = t.with_node(Some(x), Seq::empty(), Seq::empty(), None, Some(key[0]));
                lemma_with_node_walkable(t, x, Some(key[0]));
                lemma_grown_size(t1, n, key.skip(1), v);
            },
        }
    }
}

/// Entering a key, where the arena that results still fits the index type,
/// keeps both invariants, adds at most one slot per symbol, keeps every edge
/// that could be followed before, and makes the key lead to a node that
/// holds the payload entered.
pub proof fn lemma_grown<V, L>(t: TreeView<V, L>, x: usize, key: Seq<L>, v: V)
    requires
        t.wf(),
        t.linked(),
        x < t.nodes(),
        t.grown(x, key, v).nodes() <= usize::MAX,
    ensures
        t.grown(x, key, v).wf(),
        t.grown(x, key, v).linked(),
        t.nodes() <= t.grown(x, key, v).nodes() <= t.nodes() + key.len(),
        forall|node: usize, sym: L|
            node < t.nodes() && (#[trigger] t.step(node as int, sym)).is_some() ==> t.grown(
                x,
                key,
                v,
            ).step(node as int, sym) == t.step(node as int, sym),
        t.grown(x, key, v).walk(x, key) matches Some(e) && e < t.grown(x, key, v).nodes()
            && t.grown(x, key, v).values[e as int] == Some(v),
        forall|j: int|
            0 <= j < t.nodes() && Some(j as usize) != t.grown(x, key, v).walk(x, key) ==> (
            #[trigger] t.grown(x, key, v).values[j]) == t.values[j],
    decreases key.len(),
{
    let u = t.grown(x, key, v);
    if key.len() == 0 {
        assert(u.children == t.children);
        assert(u.transitions == t.transitions);
        assert(u.parents == t.parents);
    } else {
        let rest = key.skip(1);
        lemma_step_in_range(t, x, key[0]);
        match t.step(x as int, key[0]) {
            Some(c) => {
                lemma_grown(t, c, rest, v);
                assert(u.step(x as int, key[0]) == Some(c));
            },
            None => {
                let n = t.nodes() as usize;
                let t1 = t.with_node(Some(x), Seq::empty(), Seq::empty(), None, Some(key[0]));
                assert(t1.nodes() == t.nodes() + 1);
                if t.nodes() == usize::MAX {
                    lemma_with_node_walkable(t, x, Some(key[0]));
                    lemma_grown_size(t1, n, rest, v);
                }
                lemma_with_node_wf(t, Some(x), Seq::empty(), Seq::empty(), None, Some(key[0]));
                lemma_with_node_linked(t, Some(x), None, Some(key[0]));
                lemma_with_node_step(t, x, None, Some(key[0]), x, key[0]);
                assert(t1.step(x as int, key[0]) == Some(n));
                lemma_grown(t1, n, rest, v);
                assert(u == t1.grown(n, rest, v));
                assert(u.step(x as int, key[0]) == Some(n));
                assert forall|node: usize, sym: L|
                    node < t.nodes() && (#[trigger] t.step(node as int, sym)).is_some() implies u.step(
                    node as int,
                    sym,
                ) == t.step(node as int, sym) by {
                    lemma_with_node_step(t, x, None, Some(key[0]), node, sym);
                    assert(t1.step(node as int, sym) == t.step(node as int, sym));
                }
            },
        }
    }
}

/// A walk that succeeds keeps its course in any tree that keeps the edges
/// it follows.
pub proof fn lemma_walk_kept<V, L>(t: TreeView<V, L>, u: TreeView<V, L>, x: usize, q: Seq<L>)
    requires
        t.wf(),
        t.children_in_range(),
        x < t.nodes(),
        t.walk(x, q).is_some(),
        forall|node: usize, sym: L|
            node < t.nodes() && (#[trigger] t.step(node as int, sym)).is_some() ==> u.step(
                node as int,
                sym,
            ) == t.step(node as int, sym),
    ensures
        u.walk(x, q) == t.walk(x, q),
        t.walk(x, q).unwrap() < t.nodes(),
    decreases q.len(),
{
    if q.len() > 0 {
        lemma_step_in_range(t, x, q[0]);
        assert(t.step(x as int, q[0]).is_some());
        lemma_walk_kept(t, u, t.step(x as int, q[0]).unwrap(), q.skip(1));
    }
}

/// Entering a key disturbs no other entry: a key that led to a node before
/// leads to the same node after, and unless that node is the one the entered
/// key ends at, a lookup answers as before.
pub proof fn lemma_set_keeps_others<V, L>(t: TreeView<V, L>, key: Seq<L>, v: V, q: Seq<L>)
    requires
        t.wf(),
        t.linked(),
        t.grown(0, key, v).nodes() <= usize::MAX,
        t.walk(0, q).is_some(),
    ensures
        t.grown(0, key, v).walk(0, q) == t.walk(0, q),
        t.walk(0, q) != t.grown(0, key, v).walk(0, key) ==> t.grown(0, key, v).fetch(q)
            == t.fetch(q),
{
    lemma_grown(t, 0, key, v);
    lemma_walk_kept(t, t.grown(0, key, v), 0, q);
}

/// Entering a key that already leads to a node changes nothing but that
/// node's payload.
pub proof fn lemma_grown_on_present<V, L>(t: TreeView<V, L>, x: usize, key: Seq<L>, v: V)
    requires
        t.wf(),
        t.children_in_range(),
        x < t.nodes(),
        t.walk(x, key).is_some(),
    ensures
        t.grown(x, key, v) == (TreeView {
            values: t.values.update(t.walk(x, key).unwrap() as int, Some(v)),
            ..t
        }),
    decreases key.len(),
{
    if key.len() > 0 {
        lemma_step_in_range(t, x, key[0]);
        lemma_grown_on_present(t, t.step(x as int, key[0]).unwrap(), key.skip(1), v);
    }
}

/// Set then get: once a key has been entered with a payload, looking the key
/// up yields that payload.
pub proof fn lemma_set_then_get<V, L>(t: TreeView<V, L>, key: Seq<L>, v: V)
    requires
        t.wf(),
        t.linked(),
        t.grown(0, key, v).nodes() <= usize::MAX,
    ensures
        t.grown(0, key, v).wf(),
        t.grown(0, key, v).fetch(key) == Ok::<Option<V>, TreeError>(Some(v)),
{
    lemma_grown(t, 0, key, v);
}

/// Overwrite: entering the same key a second time adds no slot and no edge,
/// and a lookup then yields the second payload.
pub proof fn lemma_set_overwrites<V, L>(t: TreeView<V, L>, key: Seq<L>, v: V, w: V)
    requires
        t.wf(),
        t.linked(),
        t.grown(0, key, v).nodes() <= usize::MAX,
    ensures
        ({
            let once = t.grown(0, key, v);
            let twice = once.grown(0, key, w);
            &&& twice.fetch(key) == Ok::<Option<V>, TreeError>(Some(w))
            &&& twice.nodes() == once.nodes()
            &&& twice.children == once.children
            &&& twice.transitions == once.transitions
            &&& twice.parents == once.parents
            &&& twice.size == once.size
        }),
{
    let once = t.grown(0, key, v);
    lemma_grown(t, 0, key, v);
    lemma_grown_on_present(once, 0, key, w);
    let e = once.walk(0, key).unwrap();
    let twice = once.grown(0, key, w);
    assert(twice.walk(0, key) == once.walk(0, key)) by {
        lemma_walk_ignores_values(once, twice, 0, key);
    }
}

/// A walk depends on the edges alone.
pub proof fn lemma_walk_ignores_values<V, L>(
    a: TreeView<V, L>,
    b: TreeView<V, L>,
    x: usize,
    key: Seq<L>,
)
    requires
        a.children == b.children,
        a.transitions == b.transitions,
    ensures
        a.walk(x, key) == b.walk(x, key),
    decreases key.len(),
{
    if key.len() > 0 {
        if let Some(c) = a.step(x as int, key[0]) {
            lemma_walk_ignores_values(a, b, c, key.skip(1));
        }
    }
}

/// The path a key takes when it is entered below a node that has no edges:
/// its first `m` symbols lead to the `m`-th of the freshly added nodes, and
/// every node on the way but the last is left without a payload of its own.
pub proof fn lemma_fresh_path<V, L>(t: TreeView<V, L>, x: usize, key: Seq<L>, v: V, m: int)
    requires
        t.wf(),
        t.linked(),
        x < t.nodes(),
        t.transitions[x as int].len() == 0,
        t.nodes() + key.len() <= usize::MAX,
        0 <= m <= key.len(),
    ensures
        t.grown(x, key, v).walk(x, key.take(m)) == Some(
            if m == 0 {
                x
            } else {
                (t.nodes() + m - 1) as usize
            },
        ),
        m < key.len() ==> t.grown(x, key, v).values[if m == 0 {
            x as int
        } else {
            t.nodes() + m - 1
        }] == if m == 0 {
            t.values[x as int]
        } else {
            None
        },
    decreases key.len(),
{
    let u = t.grown(x, key, v);
    if key.len() == 0 {
        assert(key.take(0) =~= Seq::<L>::empty());
    } else {
        let rest = key.skip(1);
        let n = t.nodes() as usize;
        t.transitions[x as int].index_of_first_ensures(Some(key[0]));
        assert(t.step(x as int, key[0]).is_none());
        let t1 = t.with_node(Some(x), Seq::empty(), Seq::empty(), None, Some(key[0]));
        lemma_with_node_wf(t, Some(x), Seq::empty(), Seq::empty(), None, Some(key[0]));
        lemma_with_node_linked(t, Some(x), None, Some(key[0]));
        lemma_with_node_step(t, x, None, Some(key[0]), x, key[0]);
        assert(u == t1.grown(n, rest, v));
        lemma_grown_size(t1, n, rest, v);
        lemma_grown(t1, n, rest, v);
        if m == 0 {
            assert(key.take(0) =~= Seq::<L>::empty());
            lemma_fresh_path(t1, n, rest, v, rest.len() as int);
            assert(rest.take(rest.len() as int) =~= rest);
            assert(u.walk(n, rest) != Some(x));
            assert(u.values[x as int] == t1.values[x as int]);
        } else {
            let q = key.take(m);
            assert(q.skip(1) =~= rest.take(m - 1));
            assert(q[0] == key[0]);
            assert(t1.step(x as int, key[0]) == Some(n));
            assert(u.step(x as int, key[0]) == Some(n));
            lemma_fresh_path(t1, n, rest, v, m - 1);
            assert(u.walk(x, q) == u.walk(n, q.skip(1)));
        }
    }
}

/// Prefix distinction: after a key has been entered into a trie that held
/// only its root, each proper prefix of the key is found and holds no
/// payload. A lookup tells this apart from a key whose walk breaks off,
/// which is reported as `KeyNotFound`.
pub proof fn lemma_prefix_is_found_vacant<V, L>(t: TreeView<V, L>, key: Seq<L>, v: V, m: int)
    requires
        t.wf(),
        t.linked(),
        t.nodes() == 1,
        t.transitions[0].len() == 0,
        t.values[0].is_none(),
        key.len() < usize::MAX,
        0 <= m < key.len(),
    ensures
        t.grown(0, key, v).fetch(key.take(m)) == Ok::<Option<V>, TreeError>(None),
{
    lemma_fresh_path(t, 0, key, v, m);
}

/// Whether the slots from `x` on form a bare path spelling `key`: each holds
/// one edge, labelled with the next symbol and leading to the next slot, and
/// the slot the key ends at holds none.
pub open spec fn spells<V, L>(u: TreeView<V, L>, x: int, key: Seq<L>) -> bool {
    &&& forall|m: int|
        0 <= m < key.len() ==> #[trigger] u.transitions[x + m] == seq![Some(key[m])]
            && u.children[x + m] == seq![(x + m + 1) as usize]
    &&& u.transitions[x + key.len()].len() == 0
}

/// Entering a key below the last slot of the arena, when that slot has no
/// edges, leaves the earlier slots' edges alone and lays the key out as a
/// bare path from that slot on.
pub proof fn lemma_fresh_path_spells<V, L>(t: TreeView<V, L>, x: usize, key: Seq<L>, v: V)
    requires
        t.wf(),
        x + 1 == t.nodes(),
        t.transitions[x as int].len() == 0,
        t.nodes() + key.len() <= usize::MAX,
    ensures
        spells(t.grown(x, key, v), x as int, key),
        forall|j: int|
            0 <= j < x ==> (#[trigger] t.grown(x, key, v).transitions[j]) == t.transitions[j],
        forall|j: int|
            0 <= j < x ==> (#[trigger] t.grown(x, key, v).children[j]) == t.children[j],
    decreases key.len(),
{
    let u = t.grown(x, key, v);
    if key.len() == 0 {
        assert(u.transitions == t.transitions);
        assert(u.children == t.children);
    } else {
        let rest = key.skip(1);
        let n = t.nodes() as usize;
        assert(t.children[x as int].len() == t.transitions[x as int].len());
        t.transitions[x as int].index_of_first_ensures(Some(key[0]));
        let t1 = t.with_node(Some(x), Seq::empty(), Seq::empty(), None, Some(key[0]));
        lemma_with_node_wf(t, Some(x), Seq::empty(), Seq::empty(), None, Some(key[0]));
        assert(u == t1.grown(n, rest, v));
        lemma_fresh_path_spells(t1, n, rest, v);
        assert(t1.transitions[x as int] =~= seq![Some(key[0])]);
        assert(t1.children[x as int] =~= seq![n]);
        assert(u.transitions[x as int] == t1.transitions[x as int]);
        assert(u.children[x as int] == t1.children[x as int]);
        assert(spells(u, n as int, rest));
        assert forall|m: int| 0 <= m < key.len() implies #[trigger] u.transitions[x + m]
            == seq![Some(key[m])] && u.children[x + m] == seq![(x + m + 1) as usize] by {
            if m > 0 {
                assert(x + m == n + (m - 1));
                assert(u.transitions[n + (m - 1)] == seq![Some(rest[m - 1])]);
                assert(u.children[n + (m - 1)] == seq![(n + (m - 1) + 1) as usize]);
                assert(rest[m - 1] == key[m]);
            }
        }
        assert(x + key.len() == n + rest.len());
        assert(u.transitions[x + key.len()] == u.transitions[n + rest.len()]);
        assert forall|j: int| 0 <= j < x implies (#[trigger] u.transitions[j])
            == t.transitions[j] by {
            assert(u.transitions[j] == t1.transitions[j]);
        }
        assert forall|j: int| 0 <= j < x implies (#[trigger] u.children[j]) == t.children[j] by {
            assert(u.children[j] == t1.children[j]);
        }
    }
}

/// On a bare path spelling `key`, a walk that has followed the key for `m`
/// symbols breaks off if what is left of the sought key `q` leaves the path:
/// it differs from the key at some symbol, or goes on after the key's end.
pub proof fn lemma_walk_off_path<V, L>(u: TreeView<V, L>, key: Seq<L>, q: Seq<L>, m: int, d: int)
    requires
        spells(u, 0, key),
        key.len() < usize::MAX,
        0 <= m <= d < q.len(),
        d <= key.len(),
        forall|j: int| 0 <= j < d ==> q[j] == key[j],
        d < key.len() ==> q[d] != key[d],
    ensures
        u.walk(m as usize, q.skip(m)).is_none(),
    decreases d - m,
{
    let sym = q.skip(m)[0];
    assert(sym == q[m]);
    let row = u.transitions[m];
    row.index_of_first_ensures(Some(sym));
    if m == d {
        if d < key.len() {
            assert(u.transitions[0 + d] == seq![Some(key[d])]);
            if let Some(k) = row.index_of_first(Some(sym)) {
                assert(row[k] == Some(key[d]));
            }
        }
        assert(u.step(m, sym).is_none());
    } else {
        assert(u.transitions[0 + m] == seq![Some(key[m])]);
        assert(row[0] == Some(sym));
        assert(row.contains(Some(sym)));
        assert(u.step(m, sym) == Some((m + 1) as usize));
        assert(q.skip(m).skip(1) =~= q.skip(m + 1));
        lemma_walk_off_path(u, key, q, m + 1, d);
    }
}

/// Missing keys: after a key has been entered into a trie that held only its
/// root, a sought key that differs from it at position `d`, or goes on after
/// its end, is reported as `KeyNotFound`.
pub proof fn lemma_off_path_is_missing<V, L>(
    t: TreeView<V, L>,
    key: Seq<L>,
    v: V,
    q: Seq<L>,
    d: int,
)
    requires
        t.wf(),
        t.nodes() == 1,
        t.transitions[0].len() == 0,
        key.len() < usize::MAX,
        0 <= d < q.len(),
        d <= key.len(),
        forall|j: int| 0 <= j < d ==> q[j] == key[j],
        d < key.len() ==> q[d] != key[d],
    ensures
        t.grown(0, key, v).fetch(q) == Err::<Option<V>, TreeError>(TreeError::KeyNotFound),
{
    lemma_fresh_path_spells(t, 0, key, v);
    lemma_walk_off_path(t.grown(0, key, v), key, q, 0, d);
    assert(q.skip(0) =~= q);
}

} // verus!
