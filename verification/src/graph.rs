//! Reachability in a graph whose nodes are package numbers, and what a
//! worklist search may conclude from it.

use vstd::prelude::*;
use vstd::set_lib::{lemma_int_range, lemma_len_subset, set_int_range};

verus! {

/// `path` leads away from `from` along edges: its first node is a successor
/// of `from`, and each further node a successor of the one before it.
pub open spec fn is_path(edge: spec_fn(i32, i32) -> bool, from: i32, path: Seq<i32>) -> bool {
    &&& path.len() >= 1
    &&& edge(from, path[0])
    &&& forall|k: int| 0 <= k < path.len() - 1 ==> edge(#[trigger] path[k], path[k + 1])
}

/// `to` can be reached from `from` in one step or more.
pub open spec fn reachable(edge: spec_fn(i32, i32) -> bool, from: i32, to: i32) -> bool {
    exists|path: Seq<i32>| #[trigger] is_path(edge, from, path) && path.last() == to
}

/// A successor is reachable.
pub proof fn lemma_edge_is_reachable(edge: spec_fn(i32, i32) -> bool, from: i32, to: i32)
    requires
        edge(from, to),
    ensures
        reachable(edge, from, to),
{
    let path = seq![to];
    assert(is_path(edge, from, path) && path.last() == to);
}

/// A successor of what is reachable is reachable.
pub proof fn lemma_reachable_extends(
    edge: spec_fn(i32, i32) -> bool,
    from: i32,
    mid: i32,
    to: i32,
)
    requires
        reachable(edge, from, mid),
        edge(mid, to),
    ensures
        reachable(edge, from, to),
{
    let path = choose|path: Seq<i32>| #[trigger] is_path(edge, from, path) && path.last() == mid;
    let longer = path.push(to);
    assert forall|k: int| 0 <= k < longer.len() - 1 implies edge(
        #[trigger] longer[k],
        longer[k + 1],
    ) by {
        if k < path.len() - 1 {
            assert(edge(path[k], path[k + 1]));
        }
    }
    assert(is_path(edge, from, longer) && longer.last() == to);
}

/// Nothing is reachable from a node without successors.
pub proof fn lemma_no_edge_nothing_reachable(edge: spec_fn(i32, i32) -> bool, from: i32)
    requires
        forall|q: i32| !#[trigger] edge(from, q),
    ensures
        forall|q: i32| !reachable(edge, from, q),
{
    assert forall|q: i32| !reachable(edge, from, q) by {
        if reachable(edge, from, q) {
            let path = choose|path: Seq<i32>|
                #[trigger] is_path(edge, from, path) && path.last() == q;
            assert(edge(from, path[0]));
        }
    }
}

proof fn lemma_path_stays_inside(
    edge: spec_fn(i32, i32) -> bool,
    from: i32,
    inside: Set<i32>,
    path: Seq<i32>,
    k: int,
)
    requires
        is_path(edge, from, path),
        0 <= k < path.len(),
        forall|q: i32| #[trigger] edge(from, q) ==> inside.contains(q),
        forall|p: i32, q: i32| inside.contains(p) && #[trigger] edge(p, q) ==> inside.contains(q),
    ensures
        inside.contains(path[k]),
    decreases k,
{
    if k > 0 {
        lemma_path_stays_inside(edge, from, inside, path, k - 1);
        assert(edge(path[k - 1], path[k]));
    }
}

/// A set that holds the successors of `from`, and with each node its
/// successors, holds all that is reachable from `from`.
pub proof fn lemma_closed_set_holds_reachable(
    edge: spec_fn(i32, i32) -> bool,
    from: i32,
    inside: Set<i32>,
)
    requires
        forall|q: i32| #[trigger] edge(from, q) ==> inside.contains(q),
        forall|p: i32, q: i32| inside.contains(p) && #[trigger] edge(p, q) ==> inside.contains(q),
    ensures
        forall|q: i32| reachable(edge, from, q) ==> inside.contains(q),
{
    assert forall|q: i32| reachable(edge, from, q) implies inside.contains(q) by {
        let path = choose|path: Seq<i32>| #[trigger] is_path(edge, from, path) && path.last() == q;
        lemma_path_stays_inside(edge, from, inside, path, path.len() - 1);
    }
}

/// Distinct numbers from 0 up to `n`, `n` left out, are at most `n`.
pub proof fn lemma_distinct_bounded(s: Seq<i32>, n: int)
    requires
        0 <= n,
        s.no_duplicates(),
        forall|i: int| 0 <= i < s.len() ==> 0 <= #[trigger] s[i] < n,
    ensures
        s.len() <= n,
{
    if s.len() > 0 {
        let t = s.map_values(|x: i32| x as int);
        assert(t.no_duplicates());
        t.unique_seq_to_set();
        assert(0 <= s[0] < n);
        lemma_int_range(0, n);
        assert(t.to_set().subset_of(set_int_range(0, n))) by {
            assert forall|x: int| t.to_set().contains(x) implies set_int_range(0, n).contains(
                x,
            ) by {
                let i = choose|i: int| 0 <= i < t.len() && t[i] == x;
                assert(t[i] == s[i] as int);
            }
        }
        lemma_len_subset(t.to_set(), set_int_range(0, n));
    }
}

} // verus!
