//! The package database: names and their numbers, dependencies, installed
//! and available versions, and checksums.

use crate::async_fns::AsyncState;
use crate::debversion::{DebianVersionNum, VersionModel, VersionRelation};
use std::collections::HashMap;
use vstd::prelude::*;

verus! {

broadcast use vstd::std_specs::hash::group_hash_axioms;

/// One way to meet a dependency, as plain values: a package and, where the
/// dependency is versioned, the relation that the installed version must
/// have to a required version.
pub struct Alternative {
    pub package: i32,
    pub constraint: Option<(VersionRelation, VersionModel)>,
}

/// One way to meet a dependency.
#[derive(Debug, Clone)]
pub struct RelVersionedPackageNum {
    pub package_num: i32,
    pub rel_version: Option<(VersionRelation, DebianVersionNum)>,
}

impl DeepView for RelVersionedPackageNum {
    type V = Alternative;

    open spec fn deep_view(&self) -> Alternative {
        Alternative {
            package: self.package_num,
            constraint: match self.rel_version {
                Some((op, v)) => Some((op, v@)),
                None => None,
            },
        }
    }
}

/// A dependency: alternatives of which one must be met, the first being the
/// default choice.
pub type Dependency = Vec<RelVersionedPackageNum>;

/// The database as plain values. A package's number is its index in `names`.
pub struct Database {
    pub names: Seq<Seq<char>>,
    pub dependencies: Map<i32, Seq<Seq<Alternative>>>,
    pub installed: Map<i32, VersionModel>,
    pub available: Map<i32, VersionModel>,
    pub checksums: Map<i32, Seq<char>>,
}

impl Database {
    /// `id` is the number of a package.
    pub open spec fn is_package(self, id: i32) -> bool {
        0 <= id < self.names.len()
    }

    /// A package of this name is known.
    pub open spec fn has_name(self, name: Seq<char>) -> bool {
        self.names.contains(name)
    }

    /// The number of the package of this name.
    pub open spec fn id_of(self, name: Seq<char>) -> i32 {
        choose|id: i32| self.is_package(id) && self.names[id as int] == name
    }

    /// The dependencies of a package; none where none were recorded.
    pub open spec fn dependencies_of(self, id: i32) -> Seq<Seq<Alternative>> {
        if self.dependencies.contains_key(id) {
            self.dependencies[id]
        } else {
            Seq::empty()
        }
    }

    /// Every alternative of the dependency names a package.
    pub open spec fn names_packages(self, dep: Seq<Alternative>) -> bool {
        forall|j: int| 0 <= j < dep.len() ==> self.is_package((#[trigger] dep[j]).package)
    }

    /// The database is well formed: no name occurs twice, the numbers fit,
    /// whatever is recorded is recorded of a package, and every dependency
    /// has at least one alternative and names packages only.
    pub open spec fn wf(self) -> bool {
        &&& self.names.no_duplicates()
        &&& self.names.len() <= i32::MAX
        &&& forall|id: i32| #[trigger] self.dependencies.contains_key(id) ==> self.is_package(id)
        &&& forall|id: i32| #[trigger] self.installed.contains_key(id) ==> self.is_package(id)
        &&& forall|id: i32| #[trigger] self.available.contains_key(id) ==> self.is_package(id)
        &&& forall|id: i32| #[trigger] self.checksums.contains_key(id) ==> self.is_package(id)
        &&& forall|id: i32, i: int|
            self.dependencies.contains_key(id) && 0 <= i < self.dependencies[id].len() ==> (
            #[trigger] self.dependencies[id][i]).len() > 0 && self.names_packages(
                self.dependencies[id][i],
            )
    }
}

/// The package database.
pub struct Packages {
    pub(crate) names: Vec<String>,
    pub(crate) dependencies: HashMap<i32, Vec<Dependency>>,
    pub(crate) installed_debvers: HashMap<i32, DebianVersionNum>,
    pub(crate) available_debvers: HashMap<i32, DebianVersionNum>,
    pub(crate) md5sums: HashMap<i32, String>,
    pub(crate) async_state: AsyncState,
}

impl View for Packages {
    type V = Database;

    open(crate) spec fn view(&self) -> Database {
        Database {
            names: self.names.deep_view(),
            dependencies: self.dependencies@.map_values(|d: Vec<Dependency>| d.deep_view()),
            installed: self.installed_debvers@.map_values(|v: DebianVersionNum| v@),
            available: self.available_debvers@.map_values(|v: DebianVersionNum| v@),
            checksums: self.md5sums@.map_values(|s: String| s@),
        }
    }
}

impl Packages {
    /// The database is well formed.
    pub open spec fn wf(&self) -> bool {
        self@.wf()
    }

    /// The verification queue.
    pub open(crate) spec fn queue(&self) -> AsyncState {
        self.async_state
    }

    /// A database without packages, with an empty verification queue.
    pub fn new() -> (p: Packages)
        ensures
            p.wf(),
            p@.names == Seq::<Seq<char>>::empty(),
            p@.dependencies == Map::<i32, Seq<Seq<Alternative>>>::empty(),
            p@.installed == Map::<i32, VersionModel>::empty(),
            p@.available == Map::<i32, VersionModel>::empty(),
            p@.checksums == Map::<i32, Seq<char>>::empty(),
            p.queue().server() == crate::async_fns::default_server(),
            p.queue().pending().len() == 0,
    {
        let p = Packages {
            names: Vec::new(),
            dependencies: HashMap::new(),
            installed_debvers: HashMap::new(),
            available_debvers: HashMap::new(),
            md5sums: HashMap::new(),
            async_state: AsyncState::new(),
        };
        assert(p@.names =~= Seq::<Seq<char>>::empty());
        assert(p@.dependencies =~= Map::<i32, Seq<Seq<Alternative>>>::empty());
        assert(p@.installed =~= Map::<i32, VersionModel>::empty());
        assert(p@.available =~= Map::<i32, VersionModel>::empty());
        assert(p@.checksums =~= Map::<i32, Seq<char>>::empty());
        p
    }
}

/// In a well-formed database a package's name leads back to its number.
pub proof fn lemma_id_of_name(db: Database, id: i32)
    requires
        db.wf(),
        db.is_package(id),
    ensures
        db.has_name(db.names[id as int]),
        db.id_of(db.names[id as int]) == id,
{
    let name = db.names[id as int];
    let chosen = db.id_of(name);
    assert(db.is_package(chosen) && db.names[chosen as int] == name);
}

/// A name keeps its number when another name is taken into the database.
pub proof fn lemma_numbers_are_stable(db: Database, name: Seq<char>, other: Seq<char>)
    requires
        db.wf(),
        db.names.len() < i32::MAX,
        !db.has_name(name),
        db.has_name(other),
    ensures
        (Database { names: db.names.push(name), ..db }).has_name(other),
        (Database { names: db.names.push(name), ..db }).id_of(other) == db.id_of(other),
{
    let after = Database { names: db.names.push(name), ..db };
    let i = choose|i: int| 0 <= i < db.names.len() && db.names[i] == other;
    lemma_id_of_name(db, i as i32);
    assert(after.names[i] == other);
    assert(after.names.no_duplicates());
    assert(after.wf());
    lemma_id_of_name(after, i as i32);
}

/// Whether `v` holds `x`.
pub fn holds(v: &Vec<i32>, x: i32) -> (r: bool)
    ensures
        r == v@.contains(x),
{
    let mut i: usize = 0;
    while i < v.len()
        invariant
            i <= v.len(),
            forall|j: int| 0 <= j < i ==> v@[j] != x,
        decreases v.len() - i,
    {
        if v[i] == x {
            return true;
        }
        i += 1;
    }
    false
}

impl Packages {
    /// The number of the package of this name, if one is known.
    pub fn find_package(&self, name: &str) -> (r: Option<i32>)
        requires
            self.wf(),
        ensures
            match r {
                Some(id) => self@.has_name(name@) && id == self@.id_of(name@) && self@.is_package(
                    id,
                ) && self@.names[id as int] == name@,
                None => !self@.has_name(name@),
            },
    {
        let key = name.to_owned();
        let mut i: usize = 0;
        while i < self.names.len()
            invariant
                self.wf(),
                i <= self.names.len(),
                key@ == name@,
                forall|j: int| 0 <= j < i ==> self@.names[j] != name@,
            decreases self.names.len() - i,
        {
            if self.names[i] == key {
                proof {
                    lemma_id_of_name(self@, i as i32);
                }
                return Some(i as i32);
            }
            i += 1;
        }
        None
    }

    /// Whether a package of this name is known.
    pub fn package_exists(&self, name: &str) -> (r: bool)
        requires
            self.wf(),
        ensures
            r == self@.has_name(name@),
    {
        self.find_package(name).is_some()
    }

    /// The number of the package of this name, which must be known.
    pub fn get_package_num(&self, name: &str) -> (id: i32)
        requires
            self.wf(),
            self@.has_name(name@),
        ensures
            id == self@.id_of(name@),
            self@.is_package(id),
            self@.names[id as int] == name@,
    {
        match self.find_package(name) {
            Some(id) => id,
            None => 0,
        }
    }

    /// The number of the package of this name; a name not seen before gets
    /// the next number.
    pub fn get_package_num_inserting(&mut self, name: &str) -> (id: i32)
        requires
            old(self).wf(),
            old(self)@.has_name(name@) || old(self)@.names.len() < i32::MAX,
        ensures
            final(self).wf(),
            final(self).queue() == old(self).queue(),
            final(self)@.is_package(id),
            final(self)@.names[id as int] == name@,
            final(self)@.id_of(name@) == id,
            old(self)@.has_name(name@) ==> final(self)@ == old(self)@,
            !old(self)@.has_name(name@) ==> id == old(self)@.names.len() && final(self)@ == (Database {
                names: old(self)@.names.push(name@),
                ..old(self)@
            }),
            forall|other: Seq<char>| #[trigger]
                old(self)@.has_name(other) ==> final(self)@.has_name(other) && final(self)@.id_of(
                    other,
                ) == old(self)@.id_of(other),
    {
        match self.find_package(name) {
            Some(id) => id,
            None => {
                let id = self.names.len() as i32;
                self.names.push(name.to_owned());
                proof {
                    assert(self@.names =~= old(self)@.names.push(name@));
                    assert(self@.names.no_duplicates());
                    assert(self@.wf());
                    lemma_id_of_name(self@, id);
                    assert forall|other: Seq<char>| #[trigger]
                        old(self)@.has_name(other) implies self@.has_name(other) && self@.id_of(
                        other,
                    ) == old(self)@.id_of(other) by {
                        lemma_numbers_are_stable(old(self)@, name@, other);
                    }
                }
                id
            },
        }
    }

    /// The name of a package.
    pub fn get_package_name(&self, package_num: i32) -> (name: &str)
        requires
            self@.is_package(package_num),
        ensures
            name@ == self@.names[package_num as int],
    {
        self.names[package_num as usize].as_str()
    }

    /// How many packages are known.
    pub fn package_count(&self) -> (n: usize)
        ensures
            n == self@.names.len(),
    {
        self.names.len()
    }

    /// The dependencies that were recorded of a package.
    pub fn dependencies_of(&self, package_num: i32) -> (r: Option<&Vec<Dependency>>)
        ensures
            match r {
                Some(deps) => self@.dependencies.contains_key(package_num) && deps.deep_view()
                    == self@.dependencies[package_num],
                None => !self@.dependencies.contains_key(package_num),
            },
    {
        self.dependencies.get(&package_num)
    }

    /// The installed version of a package, if it is installed.
    pub fn installed_version(&self, package_num: i32) -> (r: Option<&DebianVersionNum>)
        ensures
            match r {
                Some(v) => self@.installed.contains_key(package_num) && v@
                    == self@.installed[package_num],
                None => !self@.installed.contains_key(package_num),
            },
    {
        self.installed_debvers.get(&package_num)
    }

    /// The available version of a package, if one is known.
    pub fn available_version(&self, package_num: i32) -> (r: Option<&DebianVersionNum>)
        ensures
            match r {
                Some(v) => self@.available.contains_key(package_num) && v@
                    == self@.available[package_num],
                None => !self@.available.contains_key(package_num),
            },
    {
        self.available_debvers.get(&package_num)
    }

    /// The checksum recorded of a package, if one was.
    pub fn checksum_of(&self, package_num: i32) -> (r: Option<&str>)
        ensures
            match r {
                Some(c) => self@.checksums.contains_key(package_num) && c@
                    == self@.checksums[package_num],
                None => !self@.checksums.contains_key(package_num),
            },
    {
        match self.md5sums.get(&package_num) {
            Some(c) => Some(c.as_str()),
            None => None,
        }
    }

    /// The installed version of the package of this name; `None` where the
    /// name is unknown or the package is not installed.
    pub fn get_installed_debver(&self, name: &str) -> (r: Option<&DebianVersionNum>)
        requires
            self.wf(),
        ensures
            match r {
                Some(v) => self@.has_name(name@) && self@.installed.contains_key(
                    self@.id_of(name@),
                ) && v@ == self@.installed[self@.id_of(name@)],
                None => !self@.has_name(name@) || !self@.installed.contains_key(
                    self@.id_of(name@),
                ),
            },
    {
        match self.find_package(name) {
            Some(id) => self.installed_version(id),
            None => None,
        }
    }

    /// The available version of the package of this name; `None` where the
    /// name is unknown or no version is known to be available.
    pub fn get_available_debver(&self, name: &str) -> (r: Option<&DebianVersionNum>)
        requires
            self.wf(),
        ensures
            match r {
                Some(v) => self@.has_name(name@) && self@.available.contains_key(
                    self@.id_of(name@),
                ) && v@ == self@.available[self@.id_of(name@)],
                None => !self@.has_name(name@) || !self@.available.contains_key(
                    self@.id_of(name@),
                ),
            },
    {
        match self.find_package(name) {
            Some(id) => self.available_version(id),
            None => None,
        }
    }

    /// Records the installed version of a package. Nothing is recorded, and
    /// `false` returned, where the number is no package's.
    pub fn set_installed_version(&mut self, package_num: i32, version: DebianVersionNum) -> (done:
        bool)
        requires
            old(self).wf(),
        ensures
            final(self).wf(),
            final(self).queue() == old(self).queue(),
            done == old(self)@.is_package(package_num),
            done ==> final(self)@ == (Database {
                installed: old(self)@.installed.insert(package_num, version@),
                ..old(self)@
            }),
            !done ==> final(self)@ == old(self)@,
    {
        if package_num < 0 || package_num as usize >= self.names.len() {
            return false;
        }
        self.installed_debvers.insert(package_num, version);
        proof {
            assert(self@.installed =~= old(self)@.installed.insert(package_num, version@));
        }
        true
    }

    /// Records the available version of a package. Nothing is recorded, and
    /// `false` returned, where the number is no package's.
    pub fn set_available_version(&mut self, package_num: i32, version: DebianVersionNum) -> (done:
        bool)
        requires
            old(self).wf(),
        ensures
            final(self).wf(),
            final(self).queue() == old(self).queue(),
            done == old(self)@.is_package(package_num),
            done ==> final(self)@ == (Database {
                available: old(self)@.available.insert(package_num, version@),
                ..old(self)@
            }),
            !done ==> final(self)@ == old(self)@,
    {
        if package_num < 0 || package_num as usize >= self.names.len() {
            return false;
        }
        self.available_debvers.insert(package_num, version);
        proof {
            assert(self@.available =~= old(self)@.available.insert(package_num, version@));
        }
        true
    }

    /// Records the checksum of a package. Nothing is recorded, and `false`
    /// returned, where the number is no package's.
    pub fn set_md5sum(&mut self, package_num: i32, checksum: &str) -> (done: bool)
        requires
            old(self).wf(),
        ensures
            final(self).wf(),
            final(self).queue() == old(self).queue(),
            done == old(self)@.is_package(package_num),
            done ==> final(self)@ == (Database {
                checksums: old(self)@.checksums.insert(package_num, checksum@),
                ..old(self)@
            }),
            !done ==> final(self)@ == old(self)@,
    {
        if package_num < 0 || package_num as usize >= self.names.len() {
            return false;
        }
        self.md5sums.insert(package_num, checksum.to_owned());
        proof {
            assert(self@.checksums =~= old(self)@.checksums.insert(package_num, checksum@));
        }
        true
    }

    /// Whether a dependency may be recorded: it has an alternative, and every
    /// alternative names a package.
    pub fn is_valid_dependency(&self, dep: &Dependency) -> (r: bool)
        ensures
            r == (dep.len() > 0 && self@.names_packages(dep.deep_view())),
    {
        if dep.len() == 0 {
            return false;
        }
        let mut j: usize = 0;
        while j < dep.len()
            invariant
                j <= dep.len(),
                forall|k: int| 0 <= k < j ==> self@.is_package((#[trigger] dep.deep_view()[k]).package),
            decreases dep.len() - j,
        {
            let num = dep[j].package_num;
            if num < 0 || num as usize >= self.names.len() {
                assert(!self@.is_package(dep.deep_view()[j as int].package));
                return false;
            }
            j += 1;
        }
        true
    }

    /// Adds a dependency to those of a package, behind the ones recorded
    /// before. Nothing is recorded, and `false` returned, where the number is
    /// no package's, the dependency has no alternative, or an alternative
    /// names no package.
    pub fn add_dependency(&mut self, package_num: i32, dep: Dependency) -> (done: bool)
        requires
            old(self).wf(),
        ensures
            final(self).wf(),
            final(self).queue() == old(self).queue(),
            done == (old(self)@.is_package(package_num) && dep.len() > 0 && old(
                self,
            )@.names_packages(dep.deep_view())),
            done ==> final(self)@ == (Database {
                dependencies: old(self)@.dependencies.insert(
                    package_num,
                    old(self)@.dependencies_of(package_num).push(dep.deep_view()),
                ),
                ..old(self)@
            }),
            !done ==> final(self)@ == old(self)@,
    {
        if package_num < 0 || package_num as usize >= self.names.len() {
            return false;
        }
        if !self.is_valid_dependency(&dep) {
            return false;
        }
        let ghost dep_model = dep.deep_view();
        let mut deps: Vec<Dependency> = match self.dependencies.remove(&package_num) {
            Some(deps) => deps,
            None => Vec::new(),
        };
        let ghost before = deps.deep_view();
        assert(before =~= old(self)@.dependencies_of(package_num));
        deps.push(dep);
        assert(deps.deep_view() =~= before.push(dep_model));
        self.dependencies.insert(package_num, deps);
        proof {
            assert(self@.dependencies =~= old(self)@.dependencies.insert(
                package_num,
                before.push(dep_model),
            ));
            assert forall|id: i32, i: int|
                self@.dependencies.contains_key(id) && 0 <= i < self@.dependencies[id].len() implies (
            #[trigger] self@.dependencies[id][i]).len() > 0 && self@.names_packages(
                self@.dependencies[id][i],
            ) by {
                if id == package_num {
                    if i < before.len() {
                        assert(old(self)@.dependencies.contains_key(id));
                        assert(self@.dependencies[id][i] == old(self)@.dependencies[id][i]);
                    }
                } else {
                    assert(old(self)@.dependencies.contains_key(id));
                    assert(self@.dependencies[id][i] == old(self)@.dependencies[id][i]);
                }
            }
        }
        true
    }
}

} // verus!
