//! Documents as trees: a map from paths (sequences of keys) to the node found
//! there.  The TOML and JSON models both use this shape.
use vstd::prelude::*;

verus! {

/// The part of `t` at and below `p`, with `p` taken off each path.
pub open spec fn subtree<K, N>(t: Map<Seq<K>, N>, p: Seq<K>) -> Map<Seq<K>, N> {
    Map::new(|q: Seq<K>| t.dom().contains(p + q), |q: Seq<K>| t[p + q])
}

/// `t` without `p` and everything below it.
pub open spec fn prune<K, N>(t: Map<Seq<K>, N>, p: Seq<K>) -> Map<Seq<K>, N> {
    Map::new(|q: Seq<K>| t.dom().contains(q) && !p.is_prefix_of(q), |q: Seq<K>| t[q])
}

/// `t` with whatever stood at and below `p` replaced by `s`.
pub open spec fn graft<K, N>(t: Map<Seq<K>, N>, p: Seq<K>, s: Map<Seq<K>, N>) -> Map<Seq<K>, N> {
    Map::new(
        |q: Seq<K>|
            (t.dom().contains(q) && !p.is_prefix_of(q)) || (p.is_prefix_of(q) && s.dom().contains(
                q.skip(p.len() as int),
            )),
        |q: Seq<K>|
            if p.is_prefix_of(q) {
                s[q.skip(p.len() as int)]
            } else {
                t[q]
            },
    )
}

/// A tree of one node, at the empty path.
pub open spec fn leaf<K, N>(n: N) -> Map<Seq<K>, N> {
    Map::empty().insert(Seq::<K>::empty(), n)
}

/// The node at `p`, if any.
pub open spec fn node_at<K, N>(t: Map<Seq<K>, N>, p: Seq<K>) -> Option<N> {
    if t.dom().contains(p) {
        Some(t[p])
    } else {
        None
    }
}

/// `t` and `u` agree on every path outside of `p`.
pub open spec fn same_outside<K, N>(t: Map<Seq<K>, N>, u: Map<Seq<K>, N>, p: Seq<K>) -> bool {
    forall|q: Seq<K>| !p.is_prefix_of(q) ==> #[trigger] node_at(t, q) == node_at(u, q)
}

/// A path of one step is a prefix of `q` exactly when `q` starts with that
/// step.
pub proof fn lemma_single_prefix<K>(x: K, q: Seq<K>)
    ensures
        seq![x].is_prefix_of(q) <==> (q.len() > 0 && q[0] == x),
{
    if q.len() > 0 && q[0] == x {
        assert(q.subrange(0, 1) =~= seq![x]);
    }
    if seq![x].is_prefix_of(q) {
        assert(q.subrange(0, 1)[0] == q[0]);
    }
}

/// Two trees with the same node at every path are the same tree.
pub proof fn lemma_same_nodes<K, N>(t: Map<Seq<K>, N>, u: Map<Seq<K>, N>)
    requires
        forall|q: Seq<K>| #[trigger] node_at(t, q) == node_at(u, q),
    ensures
        t == u,
{
    assert forall|q: Seq<K>| #[trigger] t.dom().contains(q) == u.dom().contains(q) by {
        assert(node_at(t, q) == node_at(u, q));
    }
    assert(t.dom() =~= u.dom());
    assert forall|q: Seq<K>| #[trigger] t.dom().contains(q) implies t[q] == u[q] by {
        assert(node_at(t, q) == node_at(u, q));
    }
    assert(t =~= u);
}

/// What `graft` leaves at a path.
pub proof fn lemma_graft_at<K, N>(t: Map<Seq<K>, N>, p: Seq<K>, s: Map<Seq<K>, N>, q: Seq<K>)
    ensures
        !p.is_prefix_of(q) ==> node_at(graft(t, p, s), q) == node_at(t, q),
        p.is_prefix_of(q) ==> node_at(graft(t, p, s), q) == node_at(s, q.skip(p.len() as int)),
{
}

/// A path is the path of its own node in a one-node graft.
pub proof fn lemma_graft_leaf_at<K, N>(t: Map<Seq<K>, N>, p: Seq<K>, n: N)
    ensures
        node_at(graft(t, p, leaf(n)), p) == Some(n),
        forall|q: Seq<K>|
            #[trigger] p.is_prefix_of(q) && q != p ==> node_at(graft(t, p, leaf::<K, N>(n)), q)
                is None,
{
    assert(p.is_prefix_of(p));
    assert(p.skip(p.len() as int) =~= Seq::<K>::empty());
    assert forall|q: Seq<K>| #[trigger] p.is_prefix_of(q) && q != p implies node_at(
        graft(t, p, leaf::<K, N>(n)),
        q,
    ) is None by {
        if q.skip(p.len() as int) =~= Seq::<K>::empty() {
            assert(q =~= p);
        }
    }
}

/// What `prune` leaves at a path.
pub proof fn lemma_prune_at<K, N>(t: Map<Seq<K>, N>, p: Seq<K>, q: Seq<K>)
    ensures
        !p.is_prefix_of(q) ==> node_at(prune(t, p), q) == node_at(t, q),
        p.is_prefix_of(q) ==> node_at(prune(t, p), q) is None,
{
}

} // verus!
