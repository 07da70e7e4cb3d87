//! Whether a dependency is met by what is installed, and which installed
//! packages miss it by their version only.

use crate::debversion::{compare_with_op, relation_holds};
use crate::packages::{Alternative, Database, Dependency, Packages, RelVersionedPackageNum};
use vstd::prelude::*;

verus! {

broadcast use vstd::std_specs::hash::group_hash_axioms;

/// An alternative is met where its package is installed and, if it asks for
/// a version, the installed version stands in the relation asked for.
pub open spec fn satisfies(db: Database, alt: Alternative) -> bool {
    db.installed.contains_key(alt.package) && match alt.constraint {
        None => true,
        Some((op, required)) => relation_holds(op, db.installed[alt.package], required),
    }
}

/// An alternative is missed by the version only where its package is
/// installed and the installed version does not stand in the relation asked
/// for.
pub open spec fn wrong_version(db: Database, alt: Alternative) -> bool {
    db.installed.contains_key(alt.package) && match alt.constraint {
        None => false,
        Some((op, required)) => !relation_holds(op, db.installed[alt.package], required),
    }
}

/// A dependency is met where one of its alternatives is.
pub open spec fn is_satisfied(db: Database, dep: Seq<Alternative>) -> bool {
    exists|i: int| 0 <= i < dep.len() && satisfies(db, #[trigger] dep[i])
}

/// The package of the first alternative that is met, if any is.
pub open spec fn first_satisfying(db: Database, dep: Seq<Alternative>) -> Option<i32>
    decreases dep.len(),
{
    if dep.len() == 0 {
        None
    } else if satisfies(db, dep[0]) {
        Some(dep[0].package)
    } else {
        first_satisfying(db, dep.drop_first())
    }
}

/// The packages of the alternatives that are missed by the version only, in
/// the order of the alternatives.
pub open spec fn wrong_version_packages(db: Database, dep: Seq<Alternative>) -> Seq<i32>
    decreases dep.len(),
{
    if dep.len() == 0 {
        Seq::empty()
    } else {
        let before = wrong_version_packages(db, dep.drop_last());
        if wrong_version(db, dep.last()) {
            before.push(dep.last().package)
        } else {
            before
        }
    }
}

/// Where the alternative at `i` is met and none before it is, the
/// dependency is met by that alternative's package, whatever follows it.
pub proof fn lemma_first_satisfying_is_first(db: Database, dep: Seq<Alternative>, i: int)
    requires
        0 <= i < dep.len(),
        satisfies(db, dep[i]),
        forall|j: int| 0 <= j < i ==> !satisfies(db, #[trigger] dep[j]),
    ensures
        first_satisfying(db, dep) == Some(dep[i].package),
    decreases i,
{
    if i > 0 {
        assert(!satisfies(db, dep[0]));
        let rest = dep.drop_first();
        assert forall|j: int| 0 <= j < i - 1 implies !satisfies(db, #[trigger] rest[j]) by {
            assert(rest[j] == dep[j + 1]);
        }
        lemma_first_satisfying_is_first(db, rest, i - 1);
    }
}

/// No package is returned exactly where the dependency is not met.
pub proof fn lemma_first_satisfying_none(db: Database, dep: Seq<Alternative>)
    ensures
        first_satisfying(db, dep) is None <==> !is_satisfied(db, dep),
    decreases dep.len(),
{
    if dep.len() > 0 {
        let rest = dep.drop_first();
        lemma_first_satisfying_none(db, rest);
        if satisfies(db, dep[0]) {
        } else if is_satisfied(db, rest) {
            let i = choose|i: int| 0 <= i < rest.len() && satisfies(db, #[trigger] rest[i]);
            assert(satisfies(db, dep[i + 1]));
        } else if is_satisfied(db, dep) {
            let i = choose|i: int| 0 <= i < dep.len() && satisfies(db, #[trigger] dep[i]);
            assert(satisfies(db, rest[i - 1]));
        }
    }
}

/// A package is among those missed by the version only exactly where one of
/// the dependency's alternatives names it and is missed so.
pub proof fn lemma_wrong_version_packages_contains(db: Database, dep: Seq<Alternative>, id: i32)
    ensures
        wrong_version_packages(db, dep).contains(id) <==> exists|i: int|
            0 <= i < dep.len() && wrong_version(db, #[trigger] dep[i]) && dep[i].package == id,
    decreases dep.len(),
{
    if dep.len() > 0 {
        let before = dep.drop_last();
        let found = wrong_version_packages(db, before);
        lemma_wrong_version_packages_contains(db, before, id);
        let last = dep.len() - 1;
        if wrong_version_packages(db, dep).contains(id) {
            if found.contains(id) {
                let i = choose|i: int|
                    0 <= i < before.len() && wrong_version(db, #[trigger] before[i])
                        && before[i].package == id;
                assert(wrong_version(db, dep[i]) && dep[i].package == id);
            } else {
                let k = choose|k: int|
                    0 <= k < wrong_version_packages(db, dep).len() && wrong_version_packages(
                        db,
                        dep,
                    )[k] == id;
                assert(wrong_version(db, dep[last]) && dep[last].package == id);
            }
        }
        if exists|i: int|
            0 <= i < dep.len() && wrong_version(db, #[trigger] dep[i]) && dep[i].package == id {
            let i = choose|i: int|
                0 <= i < dep.len() && wrong_version(db, #[trigger] dep[i]) && dep[i].package == id;
            if i < last {
                assert(wrong_version(db, before[i]) && before[i].package == id);
                assert(found.contains(id));
                let k = choose|k: int| 0 <= k < found.len() && found[k] == id;
                assert(wrong_version_packages(db, dep)[k] == id);
            } else {
                assert(wrong_version_packages(db, dep)[found.len() as int] == id);
            }
        }
    }
}

impl Packages {
    /// Whether one alternative is met by what is installed.
    pub fn alternative_is_satisfied(&self, alt: &RelVersionedPackageNum) -> (r: bool)
        ensures
            r == satisfies(self@, alt.deep_view()),
    {
        match self.installed_debvers.get(&alt.package_num) {
            None => false,
            Some(installed) => match &alt.rel_version {
                None => true,
                Some((op, required)) => compare_with_op(op, installed, required),
            },
        }
    }

    /// Whether one alternative is installed, but in a version that the
    /// alternative does not accept.
    pub fn alternative_has_wrong_version(&self, alt: &RelVersionedPackageNum) -> (r: bool)
        ensures
            r == wrong_version(self@, alt.deep_view()),
    {
        match self.installed_debvers.get(&alt.package_num) {
            None => false,
            Some(installed) => match &alt.rel_version {
                None => false,
                Some((op, required)) => !compare_with_op(op, installed, required),
            },
        }
    }

    /// The package that meets the dependency: that of the first alternative
    /// that is installed in an accepted version. `None` where no alternative
    /// is met.
    pub fn dep_is_satisfied(&self, dd: &Dependency) -> (r: Option<i32>)
        ensures
            r == first_satisfying(self@, dd.deep_view()),
            r is None <==> !is_satisfied(self@, dd.deep_view()),
    {
        let ghost dep = dd.deep_view();
        proof {
            lemma_first_satisfying_none(self@, dep);
        }
        let mut i: usize = 0;
        while i < dd.len()
            invariant
                i <= dd.len(),
                dep == dd.deep_view(),
                forall|j: int| 0 <= j < i ==> !satisfies(self@, #[trigger] dep[j]),
            decreases dd.len() - i,
        {
            if self.alternative_is_satisfied(&dd[i]) {
                proof {
                    lemma_first_satisfying_is_first(self@, dep, i as int);
                }
                return Some(dd[i].package_num);
            }
            i += 1;
        }
        None
    }

    /// The packages that are installed in a version that the dependency does
    /// not accept, in the order of its alternatives. The dependency must not
    /// be met.
    pub fn dep_satisfied_by_wrong_version(&self, dd: &Dependency) -> (r: Vec<i32>)
        requires
            !is_satisfied(self@, dd.deep_view()),
        ensures
            r@ == wrong_version_packages(self@, dd.deep_view()),
    {
        let ghost dep = dd.deep_view();
        let mut result: Vec<i32> = Vec::new();
        let mut i: usize = 0;
        assert(dep.take(0) =~= Seq::<Alternative>::empty());
        while i < dd.len()
            invariant
                i <= dd.len(),
                dep == dd.deep_view(),
                result@ == wrong_version_packages(self@, dep.take(i as int)),
            decreases dd.len() - i,
        {
            assert(dep.take(i + 1).drop_last() =~= dep.take(i as int));
            if self.alternative_has_wrong_version(&dd[i]) {
                result.push(dd[i].package_num);
            }
            i += 1;
        }
        assert(dep.take(dd.len() as int) =~= dep);
        result
    }

    /// For each dependency of the package of this name, in their order, the
    /// package that meets it, if any does. `None` where the name is unknown.
    pub fn deps_available(&self, package_name: &str) -> (r: Option<Vec<Option<i32>>>)
        requires
            self.wf(),
        ensures
            r is Some <==> self@.has_name(package_name@),
            match r {
                Some(found) => {
                    let deps = self@.dependencies_of(self@.id_of(package_name@));
                    &&& found.len() == deps.len()
                    &&& forall|i: int|
                        0 <= i < deps.len() ==> #[trigger] found[i] == first_satisfying(
                            self@,
                            deps[i],
                        )
                },
                None => true,
            },
    {
        let id = match self.find_package(package_name) {
            Some(id) => id,
            None => {
                return None;
            },
        };
        let mut found: Vec<Option<i32>> = Vec::new();
        match self.dependencies.get(&id) {
            None => {},
            Some(dependencies) => {
                let ghost deps = self@.dependencies_of(id);
                assert(deps == dependencies.deep_view());
                let mut i: usize = 0;
                while i < dependencies.len()
                    invariant
                        i <= dependencies.len(),
                        deps == dependencies.deep_view(),
                        found.len() == i,
                        forall|k: int|
                            0 <= k < i ==> #[trigger] found[k] == first_satisfying(
                                self@,
                                deps[k],
                            ),
                    decreases dependencies.len() - i,
                {
                    let by = self.dep_is_satisfied(&dependencies[i]);
                    found.push(by);
                    i += 1;
                }
            },
        }
        Some(found)
    }
}

} // verus!
