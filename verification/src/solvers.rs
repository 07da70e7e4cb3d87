//! The two solvers: the transitive closure of a package's dependencies by
//! first choices, and the plan of what to install beside what is installed.

use crate::debversion::{
    lemma_version_order_antisymmetric, lemma_version_order_transitive, version_order,
    DebianVersionNum, VersionModel,
};
use crate::deps_available::{is_satisfied, wrong_version};
use crate::graph::{
    lemma_closed_set_holds_reachable, lemma_distinct_bounded, lemma_edge_is_reachable,
    lemma_no_edge_nothing_reachable, lemma_reachable_extends, reachable,
};
use crate::packages::{holds, Alternative, Database, Dependency, Packages};
use std::collections::VecDeque;
use vstd::prelude::*;

verus! {

broadcast use vstd::std_specs::hash::group_hash_axioms;

/// `q` is the first choice of one of the dependencies of `p`.
pub open spec fn first_choice(db: Database, p: i32, q: i32) -> bool {
    let deps = db.dependencies_of(p);
    exists|i: int| 0 <= i < deps.len() && (#[trigger] deps[i]).len() > 0 && deps[i][0].package == q
}

/// The graph that leads from each package to the first choices of its
/// dependencies.
pub open spec fn first_choice_edge(db: Database) -> spec_fn(i32, i32) -> bool {
    |p: i32, q: i32| first_choice(db, p, q)
}

/// `q` belongs to the transitive closure of the dependencies of `root`,
/// taking the first choice of each.
pub open spec fn in_closure(db: Database, root: i32, q: i32) -> bool {
    reachable(first_choice_edge(db), root, q)
}

/// An alternative is a candidate where its package is installed in a
/// version that the alternative does not accept, or is not installed; and a
/// version of it is known to be available.
pub open spec fn is_candidate(db: Database, alt: Alternative) -> bool {
    (wrong_version(db, alt) || !db.installed.contains_key(alt.package))
        && db.available.contains_key(alt.package)
}

/// The available version of the package of `alt`.
pub open spec fn offered(db: Database, alt: Alternative) -> VersionModel {
    db.available[alt.package]
}

/// Among the first `n` alternatives, the one at `k` is a candidate whose
/// available version no other candidate's exceeds, and which none before it
/// equals. Versions of different packages are compared with each other.
pub open spec fn is_best_among(db: Database, dep: Seq<Alternative>, n: int, k: int) -> bool {
    &&& 0 <= k < n <= dep.len()
    &&& is_candidate(db, dep[k])
    &&& forall|j: int|
        0 <= j < n && is_candidate(db, #[trigger] dep[j]) ==> version_order(
            offered(db, dep[j]),
            offered(db, dep[k]),
        ) <= 0
    &&& forall|j: int|
        0 <= j < k && is_candidate(db, #[trigger] dep[j]) ==> version_order(
            offered(db, dep[j]),
            offered(db, dep[k]),
        ) < 0
}

/// The alternative at `k` is the first candidate with the highest available
/// version of all.
pub open spec fn is_best_candidate(db: Database, dep: Seq<Alternative>, k: int) -> bool {
    is_best_among(db, dep, dep.len() as int, k)
}

/// The package picked for a dependency that is not met: that of the first
/// candidate with the highest available version; none where there is no
/// candidate.
pub open spec fn selected(db: Database, dep: Seq<Alternative>) -> Option<i32> {
    if exists|k: int| is_best_candidate(db, dep, k) {
        Some(dep[choose|k: int| is_best_candidate(db, dep, k)].package)
    } else {
        None
    }
}

/// `q` is picked for one of the dependencies of `p` that are not met.
pub open spec fn plan_choice(db: Database, p: i32, q: i32) -> bool {
    let deps = db.dependencies_of(p);
    exists|i: int|
        0 <= i < deps.len() && !is_satisfied(db, #[trigger] deps[i]) && selected(db, deps[i])
            == Some(q)
}

/// The graph that leads from each package to the packages picked for its
/// dependencies that are not met.
pub open spec fn plan_edge(db: Database) -> spec_fn(i32, i32) -> bool {
    |p: i32, q: i32| plan_choice(db, p, q)
}

/// `q` must be installed beside `root`: it is not `root`, and the picks lead
/// from `root` to it.
pub open spec fn in_plan(db: Database, root: i32, q: i32) -> bool {
    q != root && reachable(plan_edge(db), root, q)
}

/// There is one best candidate at most.
pub proof fn lemma_best_candidate_unique(db: Database, dep: Seq<Alternative>, k1: int, k2: int)
    requires
        is_best_candidate(db, dep, k1),
        is_best_candidate(db, dep, k2),
    ensures
        k1 == k2,
{
    lemma_version_order_antisymmetric(offered(db, dep[k1]), offered(db, dep[k2]));
}

/// The pick is the package of the best candidate.
pub proof fn lemma_selected_is_best(db: Database, dep: Seq<Alternative>, k: int)
    requires
        is_best_candidate(db, dep, k),
    ensures
        selected(db, dep) == Some(dep[k].package),
{
    let chosen = choose|k: int| is_best_candidate(db, dep, k);
    lemma_best_candidate_unique(db, dep, chosen, k);
}

/// Looking at one more alternative: a candidate whose version exceeds the
/// best so far becomes the best, and else the best so far stays.
proof fn lemma_best_step(db: Database, dep: Seq<Alternative>, n: int, best: Option<int>)
    requires
        0 <= n < dep.len(),
        match best {
            Some(k) => is_best_among(db, dep, n, k),
            None => forall|j: int| 0 <= j < n ==> !is_candidate(db, #[trigger] dep[j]),
        },
    ensures
        match best {
            Some(k) => if is_candidate(db, dep[n]) && version_order(
                offered(db, dep[n]),
                offered(db, dep[k]),
            ) > 0 {
                is_best_among(db, dep, n + 1, n)
            } else {
                is_best_among(db, dep, n + 1, k)
            },
            None => if is_candidate(db, dep[n]) {
                is_best_among(db, dep, n + 1, n)
            } else {
                forall|j: int| 0 <= j < n + 1 ==> !is_candidate(db, #[trigger] dep[j])
            },
        },
{
    let new = offered(db, dep[n]);
    lemma_version_order_antisymmetric(new, new);
    match best {
        Some(k) => {
            let old = offered(db, dep[k]);
            lemma_version_order_antisymmetric(new, old);
            if is_candidate(db, dep[n]) && version_order(new, old) > 0 {
                assert forall|j: int| 0 <= j < n && is_candidate(db, #[trigger] dep[j]) implies
                    version_order(offered(db, dep[j]), new) < 0 by {
                    lemma_version_order_transitive(offered(db, dep[j]), old, new);
                }
            }
        },
        None => {},
    }
}

/// In a well-formed database every pick is a package.
pub proof fn lemma_plan_choice_is_package(db: Database, p: i32, q: i32)
    requires
        db.wf(),
        plan_choice(db, p, q),
    ensures
        db.is_package(q),
{
    let deps = db.dependencies_of(p);
    let i = choose|i: int|
        0 <= i < deps.len() && !is_satisfied(db, #[trigger] deps[i]) && selected(db, deps[i])
            == Some(q);
    let k = choose|k: int| is_best_candidate(db, deps[i], k);
    assert(db.dependencies.contains_key(p));
    assert(db.names_packages(db.dependencies[p][i]));
}

/// A worklist search as it stands: what was recorded, in order, and what
/// waits.
pub struct SearchState {
    pub done: Seq<i32>,
    pub waiting: Seq<i32>,
}

/// The first choices of the dependencies, in order, but for those that
/// `seen` holds.
pub open spec fn first_choices(deps: Seq<Seq<Alternative>>, seen: Seq<i32>) -> Seq<i32>
    decreases deps.len(),
{
    if deps.len() == 0 {
        Seq::empty()
    } else {
        let before = first_choices(deps.drop_last(), seen);
        let dep = deps.last();
        if dep.len() > 0 && !seen.contains(dep[0].package) {
            before.push(dep[0].package)
        } else {
            before
        }
    }
}

/// The closure search before its first step: nothing is recorded, and the
/// first choices of the dependencies of `root` wait.
pub open spec fn closure_start(db: Database, root: i32) -> SearchState {
    SearchState {
        done: Seq::empty(),
        waiting: first_choices(db.dependencies_of(root), Seq::empty()),
    }
}

/// One step of the closure search: the package that came to wait last is
/// taken; unless it was recorded before, it is recorded, and the first
/// choices of its dependencies come to wait, but for those recorded.
pub open spec fn closure_step(db: Database, s: SearchState) -> SearchState {
    if s.waiting.len() == 0 {
        s
    } else {
        let x = s.waiting.last();
        let rest = s.waiting.drop_last();
        if s.done.contains(x) {
            SearchState { done: s.done, waiting: rest }
        } else {
            SearchState {
                done: s.done.push(x),
                waiting: rest + first_choices(db.dependencies_of(x), s.done.push(x)),
            }
        }
    }
}

/// The closure search after a number of steps.
pub open spec fn closure_after(db: Database, root: i32, steps: nat) -> SearchState
    decreases steps,
{
    if steps == 0 {
        closure_start(db, root)
    } else {
        closure_step(db, closure_after(db, root, (steps - 1) as nat))
    }
}

/// `found` is what the closure search from `root` has recorded once nothing
/// waits any more.
pub open spec fn is_closure(db: Database, root: i32, found: Seq<i32>) -> bool {
    exists|steps: nat|
        (#[trigger] closure_after(db, root, steps)).waiting.len() == 0 && closure_after(
            db,
            root,
            steps,
        ).done == found
}

/// What is picked for the dependencies that are not met, in order.
pub open spec fn picks(db: Database, deps: Seq<Seq<Alternative>>) -> Seq<i32>
    decreases deps.len(),
{
    if deps.len() == 0 {
        Seq::empty()
    } else {
        let before = picks(db, deps.drop_last());
        let dep = deps.last();
        if !is_satisfied(db, dep) && selected(db, dep) is Some {
            before.push(selected(db, dep)->0)
        } else {
            before
        }
    }
}

/// The plan search before its first step: nothing is recorded, and `root`
/// waits.
pub open spec fn plan_start(root: i32) -> SearchState {
    SearchState { done: Seq::empty(), waiting: seq![root] }
}

/// One step of the plan search: the package that waits longest is taken;
/// unless it was recorded before, it is recorded, and what is picked for
/// its dependencies that are not met comes to wait.
pub open spec fn plan_step(db: Database, s: SearchState) -> SearchState {
    if s.waiting.len() == 0 {
        s
    } else {
        let x = s.waiting[0];
        let rest = s.waiting.subrange(1, s.waiting.len() as int);
        if s.done.contains(x) {
            SearchState { done: s.done, waiting: rest }
        } else {
            SearchState {
                done: s.done.push(x),
                waiting: rest + picks(db, db.dependencies_of(x)),
            }
        }
    }
}

/// The plan search after a number of steps.
pub open spec fn plan_after(db: Database, root: i32, steps: nat) -> SearchState
    decreases steps,
{
    if steps == 0 {
        plan_start(root)
    } else {
        plan_step(db, plan_after(db, root, (steps - 1) as nat))
    }
}

/// `found` is what the plan search from `root` has recorded behind `root`
/// once nothing waits any more.
pub open spec fn is_plan(db: Database, root: i32, found: Seq<i32>) -> bool {
    exists|steps: nat|
        (#[trigger] plan_after(db, root, steps)).waiting.len() == 0 && plan_after(
            db,
            root,
            steps,
        ).done.len() > 0 && plan_after(db, root, steps).done.subrange(
            1,
            plan_after(db, root, steps).done.len() as int,
        ) == found
}

/// A closure search in which nothing waits stays as it is.
pub proof fn lemma_closure_settles(db: Database, root: i32, early: nat, late: nat)
    requires
        early <= late,
        closure_after(db, root, early).waiting.len() == 0,
    ensures
        closure_after(db, root, late) == closure_after(db, root, early),
    decreases late,
{
    if early < late {
        lemma_closure_settles(db, root, early, (late - 1) as nat);
    }
}

/// A plan search in which nothing waits stays as it is.
pub proof fn lemma_plan_settles(db: Database, root: i32, early: nat, late: nat)
    requires
        early <= late,
        plan_after(db, root, early).waiting.len() == 0,
    ensures
        plan_after(db, root, late) == plan_after(db, root, early),
    decreases late,
{
    if early < late {
        lemma_plan_settles(db, root, early, (late - 1) as nat);
    }
}

/// The closure search records one sequence only.
pub proof fn lemma_closure_is_unique(db: Database, root: i32, a: Seq<i32>, b: Seq<i32>)
    requires
        is_closure(db, root, a),
        is_closure(db, root, b),
    ensures
        a == b,
{
    let m = choose|steps: nat|
        (#[trigger] closure_after(db, root, steps)).waiting.len() == 0 && closure_after(
            db,
            root,
            steps,
        ).done == a;
    let n = choose|steps: nat|
        (#[trigger] closure_after(db, root, steps)).waiting.len() == 0 && closure_after(
            db,
            root,
            steps,
        ).done == b;
    if m <= n {
        lemma_closure_settles(db, root, m, n);
    } else {
        lemma_closure_settles(db, root, n, m);
    }
}

/// The plan search records one sequence only.
pub proof fn lemma_plan_is_unique(db: Database, root: i32, a: Seq<i32>, b: Seq<i32>)
    requires
        is_plan(db, root, a),
        is_plan(db, root, b),
    ensures
        a == b,
{
    let m = choose|steps: nat|
        (#[trigger] plan_after(db, root, steps)).waiting.len() == 0 && plan_after(
            db,
            root,
            steps,
        ).done.len() > 0 && plan_after(db, root, steps).done.subrange(
            1,
            plan_after(db, root, steps).done.len() as int,
        ) == a;
    let n = choose|steps: nat|
        (#[trigger] plan_after(db, root, steps)).waiting.len() == 0 && plan_after(
            db,
            root,
            steps,
        ).done.len() > 0 && plan_after(db, root, steps).done.subrange(
            1,
            plan_after(db, root, steps).done.len() as int,
        ) == b;
    if m <= n {
        lemma_plan_settles(db, root, m, n);
    } else {
        lemma_plan_settles(db, root, n, m);
    }
}

/// What holds of a worklist search while it runs. Nothing was recorded
/// twice. What was recorded or waits is reachable from `root`, or is `root`
/// itself in a search that starts at `root` (`rooted`). Such a search has
/// recorded `root` or has it waiting; the other has recorded the successors
/// of `root` or has them waiting. And the successors of what was recorded
/// are recorded or wait.
#[verifier::opaque]
pub open spec fn search_invariant(
    edge: spec_fn(i32, i32) -> bool,
    root: i32,
    rooted: bool,
    done: Seq<i32>,
    waiting: Seq<i32>,
) -> bool {
    &&& done.no_duplicates()
    &&& forall|x: i32| #[trigger] done.contains(x) ==> (rooted && x == root) || reachable(
        edge,
        root,
        x,
    )
    &&& forall|x: i32| #[trigger] waiting.contains(x) ==> (rooted && x == root) || reachable(
        edge,
        root,
        x,
    )
    &&& rooted ==> done.contains(root) || waiting.contains(root)
    &&& !rooted ==> forall|q: i32| #[trigger] edge(root, q) ==> done.contains(q) || waiting.contains(q)
    &&& forall|p: i32, q: i32|
        done.contains(p) && #[trigger] edge(p, q) ==> done.contains(q) || waiting.contains(q)
}

proof fn lemma_push_contains(s: Seq<i32>, x: i32)
    ensures
        forall|y: i32| #[trigger] s.push(x).contains(y) <==> s.contains(y) || y == x,
        forall|y: i32| #[trigger] s.contains(y) ==> s.push(x).contains(y),
{
    assert forall|y: i32| #[trigger] s.push(x).contains(y) <==> s.contains(y) || y == x by {
        if s.push(x).contains(y) {
            let i = choose|i: int| 0 <= i < s.push(x).len() && s.push(x)[i] == y;
            if i < s.len() {
                assert(s[i] == y);
            }
        }
        if s.contains(y) {
            let i = choose|i: int| 0 <= i < s.len() && s[i] == y;
            assert(s.push(x)[i] == y);
        }
        if y == x {
            assert(s.push(x)[s.len() as int] == y);
        }
    }
}

proof fn lemma_drop_last_contains(s: Seq<i32>)
    requires
        s.len() > 0,
    ensures
        forall|y: i32| #[trigger] s.contains(y) <==> s.drop_last().contains(y) || y == s.last(),
        forall|y: i32| #[trigger] s.drop_last().contains(y) ==> s.contains(y),
{
    assert(s =~= s.drop_last().push(s.last()));
    lemma_push_contains(s.drop_last(), s.last());
}

proof fn lemma_drop_first_contains(s: Seq<i32>)
    requires
        s.len() > 0,
    ensures
        forall|y: i32| #[trigger]
            s.contains(y) <==> s.subrange(1, s.len() as int).contains(y) || y == s[0],
        forall|y: i32| #[trigger] s.subrange(1, s.len() as int).contains(y) ==> s.contains(y),
        s.no_duplicates() ==> s.subrange(1, s.len() as int).no_duplicates() && !s.subrange(
            1,
            s.len() as int,
        ).contains(s[0]),
{
    let t = s.subrange(1, s.len() as int);
    assert forall|y: i32| #[trigger] s.contains(y) <==> t.contains(y) || y == s[0] by {
        if s.contains(y) {
            let i = choose|i: int| 0 <= i < s.len() && s[i] == y;
            if i > 0 {
                assert(t[i - 1] == y);
            }
        }
        if t.contains(y) {
            let i = choose|i: int| 0 <= i < t.len() && t[i] == y;
            assert(s[i + 1] == y);
        }
    }
    if s.no_duplicates() {
        if t.contains(s[0]) {
            let i = choose|i: int| 0 <= i < t.len() && t[i] == s[0];
            assert(s[i + 1] == s[0]);
        }
    }
}

/// A search that has recorded nothing, and on whose worklist the successors
/// of `root` wait, is in order.
proof fn lemma_search_starts(edge: spec_fn(i32, i32) -> bool, root: i32, waiting: Seq<i32>)
    requires
        forall|y: i32| #[trigger] waiting.contains(y) ==> edge(root, y),
        forall|q: i32| #[trigger] edge(root, q) ==> waiting.contains(q),
    ensures
        search_invariant(edge, root, false, Seq::<i32>::empty(), waiting),
{
    reveal(search_invariant);
    assert forall|x: i32| #[trigger] waiting.contains(x) implies reachable(edge, root, x) by {
        lemma_edge_is_reachable(edge, root, x);
    }
}

/// A search that has recorded nothing, and on whose worklist `root` alone
/// waits, is in order.
proof fn lemma_rooted_search_starts(edge: spec_fn(i32, i32) -> bool, root: i32)
    ensures
        search_invariant(edge, root, true, Seq::<i32>::empty(), seq![root]),
{
    reveal(search_invariant);
    assert(seq![root][0] == root);
}

/// Taking from the worklist a node that was recorded before leaves the
/// search in order.
proof fn lemma_search_skips(
    edge: spec_fn(i32, i32) -> bool,
    root: i32,
    rooted: bool,
    done: Seq<i32>,
    waiting: Seq<i32>,
    x: i32,
    rest: Seq<i32>,
)
    requires
        search_invariant(edge, root, rooted, done, waiting),
        done.contains(x),
        forall|y: i32| #[trigger] waiting.contains(y) ==> rest.contains(y) || y == x,
        forall|y: i32| #[trigger] rest.contains(y) ==> waiting.contains(y),
    ensures
        search_invariant(edge, root, rooted, done, rest),
{
    reveal(search_invariant);
}

/// Recording a node taken from the worklist, and putting its successors on
/// the worklist, leaves the search in order; those that were recorded
/// before need not be put there.
proof fn lemma_search_visits(
    edge: spec_fn(i32, i32) -> bool,
    root: i32,
    rooted: bool,
    done: Seq<i32>,
    waiting: Seq<i32>,
    x: i32,
    next: Seq<i32>,
)
    requires
        search_invariant(edge, root, rooted, done, waiting),
        waiting.contains(x),
        !done.contains(x),
        forall|y: i32| #[trigger] waiting.contains(y) ==> next.contains(y) || y == x,
        forall|y: i32| #[trigger] next.contains(y) ==> waiting.contains(y) || edge(x, y),
        forall|q: i32| #[trigger] edge(x, q) ==> done.push(x).contains(q) || next.contains(q),
    ensures
        search_invariant(edge, root, rooted, done.push(x), next),
        (rooted && x == root) || reachable(edge, root, x),
{
    reveal(search_invariant);
    let recorded = done.push(x);
    lemma_push_contains(done, x);
    assert(recorded.no_duplicates());
    assert forall|y: i32| #[trigger] next.contains(y) implies (rooted && y == root) || reachable(
        edge,
        root,
        y,
    ) by {
        if !waiting.contains(y) {
            if rooted && x == root {
                lemma_edge_is_reachable(edge, root, y);
            } else {
                lemma_reachable_extends(edge, root, x, y);
            }
        }
    }
    assert forall|p: i32, q: i32| recorded.contains(p) && #[trigger] edge(
        p,
        q,
    ) implies recorded.contains(q) || next.contains(q) by {
        if p != x {
            assert(done.contains(p));
            assert(done.contains(q) || waiting.contains(q));
        }
    }
    if !rooted {
        assert forall|q: i32| #[trigger] edge(root, q) implies recorded.contains(q)
            || next.contains(q) by {
            assert(done.contains(q) || waiting.contains(q));
        }
    }
}

/// Once the worklist is empty, the search has recorded exactly what is
/// reachable from `root`, and `root` too where it started there, each node
/// once.
proof fn lemma_search_ends(
    edge: spec_fn(i32, i32) -> bool,
    root: i32,
    rooted: bool,
    done: Seq<i32>,
)
    requires
        search_invariant(edge, root, rooted, done, Seq::<i32>::empty()),
    ensures
        done.no_duplicates(),
        forall|q: i32| #[trigger]
            done.contains(q) <==> (rooted && q == root) || reachable(edge, root, q),
{
    reveal(search_invariant);
    let inside = done.to_set();
    let none = Seq::<i32>::empty();
    assert(!none.contains(root));
    assert forall|p: i32, q: i32| inside.contains(p) && #[trigger] edge(
        p,
        q,
    ) implies inside.contains(q) by {
        assert(done.contains(p));
        assert(done.contains(q) || none.contains(q));
    }
    assert forall|q: i32| #[trigger] edge(root, q) implies inside.contains(q) by {
        if rooted {
            assert(inside.contains(root));
        } else {
            assert(done.contains(q) || none.contains(q));
        }
    }
    lemma_closed_set_holds_reachable(edge, root, inside);
    assert forall|q: i32| #[trigger]
        done.contains(q) <==> (rooted && q == root) || reachable(edge, root, q) by {
        if reachable(edge, root, q) {
            assert(inside.contains(q));
        }
    }
}

/// In a well-formed database every first choice is a package.
pub proof fn lemma_first_choice_is_package(db: Database, p: i32, q: i32)
    requires
        db.wf(),
        first_choice(db, p, q),
    ensures
        db.is_package(q),
{
    let deps = db.dependencies_of(p);
    let i = choose|i: int|
        0 <= i < deps.len() && (#[trigger] deps[i]).len() > 0 && deps[i][0].package == q;
    assert(db.dependencies.contains_key(p));
    assert(db.names_packages(db.dependencies[p][i]));
}

/// In a well-formed database whatever belongs to a closure is a package.
pub proof fn lemma_closure_holds_packages(db: Database, root: i32, q: i32)
    requires
        db.wf(),
        in_closure(db, root, q),
    ensures
        db.is_package(q),
{
    let edge = first_choice_edge(db);
    let path = choose|path: Seq<i32>| #[trigger]
        crate::graph::is_path(edge, root, path) && path.last() == q;
    let before = if path.len() == 1 {
        root
    } else {
        path[path.len() - 2]
    };
    assert(edge(before, q));
    lemma_first_choice_is_package(db, before, q);
}

impl Packages {
    /// Puts on the worklist the first choice of every dependency of `p`,
    /// but for those that `seen` holds.
    fn push_first_choices(&self, p: i32, seen: &Vec<i32>, worklist: &mut Vec<i32>)
        ensures
            forall|y: i32| old(worklist)@.contains(y) ==> #[trigger] final(worklist)@.contains(y),
            forall|y: i32| #[trigger]
                final(worklist)@.contains(y) ==> old(worklist)@.contains(y) || first_choice(
                    self@,
                    p,
                    y,
                ),
            forall|q: i32| #[trigger]
                first_choice(self@, p, q) ==> seen@.contains(q) || final(worklist)@.contains(q),
            final(worklist)@ == old(worklist)@ + first_choices(self@.dependencies_of(p), seen@),
    {
        assert(self@.dependencies_of(p).take(0) =~= Seq::<Seq<Alternative>>::empty());
        assert(worklist@ + Seq::<i32>::empty() =~= worklist@);
        match self.dependencies.get(&p) {
            None => {
                assert(self@.dependencies_of(p) =~= Seq::<Seq<Alternative>>::empty());
            },
            Some(dependencies) => {
                let ghost deps = self@.dependencies_of(p);
                assert(deps == dependencies.deep_view());
                let mut i: usize = 0;
                while i < dependencies.len()
                    invariant
                        i <= dependencies.len(),
                        deps == dependencies.deep_view(),
                        deps == self@.dependencies_of(p),
                        worklist@ == old(worklist)@ + first_choices(deps.take(i as int), seen@),
                        forall|y: i32|
                            old(worklist)@.contains(y) ==> #[trigger] worklist@.contains(y),
                        forall|y: i32| #[trigger]
                            worklist@.contains(y) ==> old(worklist)@.contains(y) || first_choice(
                                self@,
                                p,
                                y,
                            ),
                        forall|k: int|
                            0 <= k < i && (#[trigger] deps[k]).len() > 0 ==> seen@.contains(
                                deps[k][0].package,
                            ) || worklist@.contains(deps[k][0].package),
                    decreases dependencies.len() - i,
                {
                    let dependency = &dependencies[i];
                    let ghost before = first_choices(deps.take(i as int), seen@);
                    assert(deps.take(i + 1).drop_last() =~= deps.take(i as int));
                    assert(deps.take(i + 1).last() == deps[i as int]);
                    if dependency.len() > 0 {
                        let q = dependency[0].package_num;
                        assert(deps[i as int][0].package == q);
                        if !holds(seen, q) {
                            proof {
                                lemma_push_contains(worklist@, q);
                            }
                            worklist.push(q);
                            assert(worklist@ =~= old(worklist)@ + before.push(q));
                        }
                    }
                    i += 1;
                }
                assert(deps.take(dependencies.len() as int) =~= deps);
            },
        }
    }

    /// The transitive closure of the dependencies of the package of this
    /// name, the first alternative taken of each dependency, whatever is
    /// installed. Each package occurs once, in the order in which the
    /// search met it. Empty where the name is unknown.
    pub fn transitive_dep_solution(&self, package_name: &str) -> (r: Vec<i32>)
        requires
            self.wf(),
        ensures
            r@.no_duplicates(),
            !self@.has_name(package_name@) ==> r@.len() == 0,
            self@.has_name(package_name@) ==> is_closure(
                self@,
                self@.id_of(package_name@),
                r@,
            ),
            self@.has_name(package_name@) ==> forall|q: i32| #[trigger]
                r@.contains(q) <==> in_closure(self@, self@.id_of(package_name@), q),
            self@.has_name(package_name@) && self@.dependencies_of(
                self@.id_of(package_name@),
            ).len() == 0 ==> r@.len() == 0,
    {
        let root = match self.find_package(package_name) {
            Some(id) => id,
            None => {
                return Vec::new();
            },
        };
        let ghost db = self@;
        let ghost edge = first_choice_edge(db);
        let n = self.names.len();
        let mut dependency_set: Vec<i32> = Vec::new();
        let mut worklist: Vec<i32> = Vec::new();
        self.push_first_choices(root, &dependency_set, &mut worklist);
        let ghost mut steps: nat = 0;
        proof {
            assert(dependency_set@ =~= Seq::<i32>::empty());
            assert(worklist@ =~= first_choices(db.dependencies_of(root), Seq::empty()));
            lemma_search_starts(edge, root, worklist@);
        }
        while worklist.len() > 0
            invariant
                self.wf(),
                db == self@,
                edge == first_choice_edge(db),
                n == db.names.len(),
                closure_after(db, root, steps) == (SearchState {
                    done: dependency_set@,
                    waiting: worklist@,
                }),
                search_invariant(edge, root, false, dependency_set@, worklist@),
                dependency_set@.no_duplicates(),
                forall|i: int|
                    0 <= i < dependency_set@.len() ==> 0 <= #[trigger] dependency_set@[i] < n,
                dependency_set@.len() <= n,
            decreases n - dependency_set@.len(), worklist@.len(),
        {
            let ghost done = dependency_set@;
            let ghost waiting = worklist@;
            let x = worklist.pop().unwrap();
            let ghost rest = worklist@;
            proof {
                assert(x == waiting.last());
                assert(rest =~= waiting.drop_last());
                lemma_drop_last_contains(waiting);
            }
            if holds(&dependency_set, x) {
                proof {
                    lemma_search_skips(edge, root, false, done, waiting, x, rest);
                }
            } else {
                dependency_set.push(x);
                self.push_first_choices(x, &dependency_set, &mut worklist);
                proof {
                    lemma_search_visits(edge, root, false, done, waiting, x, worklist@);
                    lemma_closure_holds_packages(db, root, x);
                    lemma_distinct_bounded(dependency_set@, n as int);
                }
            }
            proof {
                steps = steps + 1;
            }
        }
        proof {
            assert(worklist@ =~= Seq::<i32>::empty());
            assert(closure_after(db, root, steps).waiting.len() == 0);
            lemma_search_ends(edge, root, false, dependency_set@);
            if db.dependencies_of(root).len() == 0 {
                assert forall|q: i32| !#[trigger] edge(root, q) by {}
                lemma_no_edge_nothing_reachable(edge, root);
                if dependency_set@.len() > 0 {
                    assert(dependency_set@.contains(dependency_set@[0]));
                }
            }
        }
        dependency_set
    }

    /// Picks the package to install for a dependency that is not met: of the
    /// alternatives that are installed in a wrong version, or not installed,
    /// and have an available version, the first with the highest available
    /// version. The versions of different packages are compared with each
    /// other. `None` where no such alternative has an available version.
    pub fn select_dependency(&self, dep: &Dependency) -> (r: Option<i32>)
        requires
            !is_satisfied(self@, dep.deep_view()),
        ensures
            r == selected(self@, dep.deep_view()),
            r is None <==> forall|j: int|
                0 <= j < dep.len() ==> !is_candidate(self@, #[trigger] dep.deep_view()[j]),
    {
        let ghost db = self@;
        let ghost alts = dep.deep_view();
        let mut best_package_num: Option<i32> = None;
        let mut highest_version: Option<&DebianVersionNum> = None;
        let ghost mut best: Option<int> = None;
        let mut i: usize = 0;
        while i < dep.len()
            invariant
                i <= dep.len(),
                db == self@,
                alts == dep.deep_view(),
                match best {
                    Some(k) => is_best_among(db, alts, i as int, k) && best_package_num == Some(
                        alts[k].package,
                    ) && highest_version is Some && highest_version->0@ == offered(db, alts[k]),
                    None => best_package_num is None && highest_version is None && forall|j: int|
                        0 <= j < i ==> !is_candidate(db, #[trigger] alts[j]),
                },
            decreases dep.len() - i,
        {
            let alternative = &dep[i];
            let package_num = alternative.package_num;
            proof {
                lemma_best_step(db, alts, i as int, best);
            }
            let eligible = self.alternative_has_wrong_version(alternative)
                || self.installed_version(package_num).is_none();
            if eligible {
                if let Some(version) = self.available_version(package_num) {
                    let higher = match highest_version {
                        None => true,
                        Some(highest) => version.compare(highest) > 0,
                    };
                    if higher {
                        best_package_num = Some(package_num);
                        highest_version = Some(version);
                        proof {
                            best = Some(i as int);
                        }
                    }
                }
            }
            i += 1;
        }
        proof {
            match best {
                Some(k) => {
                    lemma_selected_is_best(db, alts, k);
                },
                None => {},
            }
        }
        best_package_num
    }

    /// Puts on the worklist what is picked for each dependency of `p` that
    /// is not met.
    fn push_selected(&self, p: i32, worklist: &mut VecDeque<i32>)
        ensures
            forall|y: i32| old(worklist)@.contains(y) ==> #[trigger] final(worklist)@.contains(y),
            forall|y: i32| #[trigger]
                final(worklist)@.contains(y) ==> old(worklist)@.contains(y) || plan_choice(
                    self@,
                    p,
                    y,
                ),
            forall|q: i32| #[trigger] plan_choice(self@, p, q) ==> final(worklist)@.contains(q),
            final(worklist)@ == old(worklist)@ + picks(self@, self@.dependencies_of(p)),
    {
        assert(self@.dependencies_of(p).take(0) =~= Seq::<Seq<Alternative>>::empty());
        assert(worklist@ + Seq::<i32>::empty() =~= worklist@);
        match self.dependencies.get(&p) {
            None => {
                assert(self@.dependencies_of(p) =~= Seq::<Seq<Alternative>>::empty());
            },
            Some(dependencies) => {
                let ghost deps = self@.dependencies_of(p);
                assert(deps == dependencies.deep_view());
                let mut i: usize = 0;
                while i < dependencies.len()
                    invariant
                        i <= dependencies.len(),
                        deps == dependencies.deep_view(),
                        deps == self@.dependencies_of(p),
                        worklist@ == old(worklist)@ + picks(self@, deps.take(i as int)),
                        forall|y: i32|
                            old(worklist)@.contains(y) ==> #[trigger] worklist@.contains(y),
                        forall|y: i32| #[trigger]
                            worklist@.contains(y) ==> old(worklist)@.contains(y) || plan_choice(
                                self@,
                                p,
                                y,
                            ),
                        forall|k: int|
                            0 <= k < i && !is_satisfied(self@, #[trigger] deps[k]) && selected(
                                self@,
                                deps[k],
                            ) is Some ==> worklist@.contains(selected(self@, deps[k])->0),
                    decreases dependencies.len() - i,
                {
                    let dependency = &dependencies[i];
                    let ghost before = picks(self@, deps.take(i as int));
                    assert(deps[i as int] == dependency.deep_view());
                    assert(deps.take(i + 1).drop_last() =~= deps.take(i as int));
                    assert(deps.take(i + 1).last() == deps[i as int]);
                    if self.dep_is_satisfied(dependency).is_none() {
                        if let Some(package_num) = self.select_dependency(dependency) {
                            proof {
                                lemma_push_contains(worklist@, package_num);
                            }
                            worklist.push_back(package_num);
                            assert(worklist@ =~= old(worklist)@ + before.push(package_num));
                        }
                    }
                    i += 1;
                }
                assert(deps.take(dependencies.len() as int) =~= deps);
            },
        }
    }

    /// The packages to install beside the package of this name so that its
    /// dependencies are met: for each dependency that is not met, of the
    /// package and of whatever is picked in turn, the pick of
    /// `select_dependency`. The package itself is left out. Each package
    /// occurs once, in the order in which the search met it. Empty where the
    /// name is unknown, and where every dependency of the package is met.
    pub fn compute_how_to_install(&self, package_name: &str) -> (r: Vec<i32>)
        requires
            self.wf(),
        ensures
            r@.no_duplicates(),
            !self@.has_name(package_name@) ==> r@.len() == 0,
            self@.has_name(package_name@) ==> is_plan(self@, self@.id_of(package_name@), r@),
            self@.has_name(package_name@) ==> !r@.contains(self@.id_of(package_name@)),
            self@.has_name(package_name@) ==> forall|q: i32| #[trigger]
                r@.contains(q) <==> in_plan(self@, self@.id_of(package_name@), q),
            self@.has_name(package_name@) && (forall|i: int|
                0 <= i < self@.dependencies_of(self@.id_of(package_name@)).len() ==> is_satisfied(
                    self@,
                    #[trigger] self@.dependencies_of(self@.id_of(package_name@))[i],
                )) ==> r@.len() == 0,
    {
        let root = match self.find_package(package_name) {
            Some(id) => id,
            None => {
                return Vec::new();
            },
        };
        let ghost db = self@;
        let ghost edge = plan_edge(db);
        let n = self.names.len();
        let mut dependencies_to_add: Vec<i32> = Vec::new();
        let mut worklist: VecDeque<i32> = VecDeque::new();
        worklist.push_back(root);
        let ghost mut steps: nat = 0;
        proof {
            assert(dependencies_to_add@ =~= Seq::<i32>::empty());
            assert(worklist@ =~= seq![root]);
            lemma_rooted_search_starts(edge, root);
        }
        while worklist.len() > 0
            invariant
                self.wf(),
                db == self@,
                edge == plan_edge(db),
                n == db.names.len(),
                plan_after(db, root, steps) == (SearchState {
                    done: dependencies_to_add@,
                    waiting: worklist@,
                }),
                db.is_package(root),
                search_invariant(edge, root, true, dependencies_to_add@, worklist@),
                dependencies_to_add@.no_duplicates(),
                forall|i: int|
                    0 <= i < dependencies_to_add@.len() ==> 0 <= #[trigger] dependencies_to_add@[i]
                        < n,
                dependencies_to_add@.len() <= n,
                dependencies_to_add@.len() > 0 ==> dependencies_to_add@[0] == root,
                dependencies_to_add@.len() == 0 ==> worklist@.len() > 0 && worklist@[0] == root,
            decreases n - dependencies_to_add@.len(), worklist@.len(),
        {
            let ghost done = dependencies_to_add@;
            let ghost waiting = worklist@;
            let current_package_num = worklist.pop_front().unwrap();
            let ghost rest = worklist@;
            proof {
                lemma_drop_first_contains(waiting);
                assert(waiting.contains(current_package_num)) by {
                    assert(waiting[0] == current_package_num);
                }
            }
            if holds(&dependencies_to_add, current_package_num) {
                proof {
                    lemma_search_skips(edge, root, true, done, waiting, current_package_num, rest);
                }
            } else {
                dependencies_to_add.push(current_package_num);
                self.push_selected(current_package_num, &mut worklist);
                proof {
                    lemma_search_visits(
                        edge,
                        root,
                        true,
                        done,
                        waiting,
                        current_package_num,
                        worklist@,
                    );
                    if current_package_num != root {
                        lemma_plan_holds_packages(db, root, current_package_num);
                    }
                    lemma_distinct_bounded(dependencies_to_add@, n as int);
                }
            }
            proof {
                steps = steps + 1;
            }
        }
        proof {
            assert(worklist@ =~= Seq::<i32>::empty());
            assert(plan_after(db, root, steps).waiting.len() == 0);
            lemma_search_ends(edge, root, true, dependencies_to_add@);
            assert(dependencies_to_add@.contains(root));
            lemma_drop_first_contains(dependencies_to_add@);
            if forall|i: int|
                0 <= i < db.dependencies_of(root).len() ==> is_satisfied(
                    db,
                    #[trigger] db.dependencies_of(root)[i],
                ) {
                assert forall|q: i32| !#[trigger] edge(root, q) by {}
                lemma_no_edge_nothing_reachable(edge, root);
                let others = dependencies_to_add@.subrange(1, dependencies_to_add@.len() as int);
                if others.len() > 0 {
                    assert(others.contains(others[0]));
                }
            }
        }
        let ghost all = dependencies_to_add@;
        dependencies_to_add.remove(0);
        proof {
            assert(dependencies_to_add@ =~= all.subrange(1, all.len() as int));
            assert forall|q: i32| #[trigger]
                dependencies_to_add@.contains(q) <==> in_plan(db, root, q) by {
                assert(all.contains(q) <==> q == root || reachable(edge, root, q));
            }
        }
        dependencies_to_add
    }
}

/// In a well-formed database whatever the picks lead to is a package.
pub proof fn lemma_plan_holds_packages(db: Database, root: i32, q: i32)
    requires
        db.wf(),
        reachable(plan_edge(db), root, q),
    ensures
        db.is_package(q),
{
    let edge = plan_edge(db);
    let path = choose|path: Seq<i32>| #[trigger]
        crate::graph::is_path(edge, root, path) && path.last() == q;
    let before = if path.len() == 1 {
        root
    } else {
        path[path.len() - 2]
    };
    assert(edge(before, q));
    lemma_plan_choice_is_package(db, before, q);
}

} // verus!
