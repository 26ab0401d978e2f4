//! A registry of named dependencies: each name maps to the path of the
//! dependency's file. Loading from and saving to disk happen outside the
//! registry; validation takes the set of existing paths as an explicit
//! argument.

use vstd::prelude::*;

use crate::bytesutil::{clone_bytes, list_contains, views};

verus! {

/// One named dependency and the path of its file.
pub struct Dependency {
    pub name: Vec<u8>,
    pub path: Vec<u8>,
}

/// The mathematical view of a dependency.
#[verifier::ext_equal]
pub struct DependencyModel {
    pub name: Seq<u8>,
    pub path: Seq<u8>,
}

impl Dependency {
    /// The dependency's mathematical view.
    pub open spec fn model(self) -> DependencyModel {
        DependencyModel { name: self.name@, path: self.path@ }
    }
}

/// The views of a dependency list.
pub open spec fn dep_models(s: Seq<Dependency>) -> Seq<DependencyModel> {
    s.map_values(|d: Dependency| d.model())
}

/// The index of the first dependency named `name`, if any.
pub open spec fn dep_find(m: Seq<DependencyModel>, name: Seq<u8>) -> Option<int>
    decreases m.len(),
{
    if m.len() == 0 {
        None
    } else if m.first().name == name {
        Some(0)
    } else {
        match dep_find(m.drop_first(), name) {
            Some(j) => Some(j + 1),
            None => None,
        }
    }
}

/// `dep_find` returns the least index carrying `name`, and `None`
/// exactly when no entry does.
pub proof fn lemma_dep_find(m: Seq<DependencyModel>, name: Seq<u8>)
    ensures
        match dep_find(m, name) {
            Some(i) => 0 <= i < m.len() && m[i].name == name && forall|j: int|
                0 <= j < i ==> m[j].name != name,
            None => forall|j: int| 0 <= j < m.len() ==> m[j].name != name,
        },
    decreases m.len(),
{
    if m.len() == 0 {
    } else if m.first().name == name {
        assert(m[0].name == name);
    } else {
        lemma_dep_find(m.drop_first(), name);
        match dep_find(m.drop_first(), name) {
            Some(j) => {
                assert(m.drop_first()[j] == m[j + 1]);
                assert forall|k: int| 0 <= k < j + 1 implies m[k].name != name by {
                    if k > 0 {
                        assert(m.drop_first()[k - 1] == m[k]);
                        assert(m.drop_first()[k - 1].name != name);
                    } else {
                        assert(m[0] == m.first());
                    }
                }
            },
            None => {
                assert forall|k: int| 0 <= k < m.len() implies m[k].name != name by {
                    if k > 0 {
                        assert(m.drop_first()[k - 1] == m[k]);
                        assert(m.drop_first()[k - 1].name != name);
                    } else {
                        assert(m[0] == m.first());
                    }
                }
            },
        }
    }
}

/// The registry after adding or replacing the entry named `name`.
pub open spec fn spec_put(
    m: Seq<DependencyModel>,
    name: Seq<u8>,
    path: Seq<u8>,
) -> Seq<DependencyModel> {
    match dep_find(m, name) {
        Some(i) => m.update(i, DependencyModel { name, path }),
        None => m.push(DependencyModel { name, path }),
    }
}

/// The registry after removing the entry named `name`, when present.
pub open spec fn spec_remove(m: Seq<DependencyModel>, name: Seq<u8>) -> Seq<DependencyModel> {
    match dep_find(m, name) {
        Some(i) => m.remove(i),
        None => m,
    }
}

/// A registry of named dependencies, kept in insertion order with unique
/// names.
pub struct DependencyManager {
    dependencies: Vec<Dependency>,
}

impl DependencyManager {
    /// The registry's mathematical view.
    pub closed spec fn model(self) -> Seq<DependencyModel> {
        dep_models(self.dependencies@)
    }

    /// Creates an empty registry.
    pub fn new() -> (m: DependencyManager)
        ensures
            m.model() =~= Seq::<DependencyModel>::empty(),
    {
        DependencyManager { dependencies: Vec::new() }
    }

    /// The index of the first entry named `name`.
    fn find(&self, name: &Vec<u8>) -> (r: Option<usize>)
        ensures
            match r {
                Some(i) => dep_find(self.model(), name@) == Some(i as int),
                None => dep_find(self.model(), name@) is None,
            },
    {
        proof {
            lemma_dep_find(self.model(), name@);
        }
        let mut i: usize = 0;
        while i < self.dependencies.len()
            invariant
                0 <= i <= self.model().len(),
                forall|j: int| 0 <= j < i ==> self.model()[j].name != name@,
            decreases self.model().len() - i,
        {
            if crate::bytesutil::bytes_eq(&self.dependencies[i].name, name) {
                proof {
                    match dep_find(self.model(), name@) {
                        Some(k) => {
                            if k < i {
                                assert(self.model()[k].name != name@);
                            }
                            if i < k {
                                assert(self.model()[i as int].name != name@);
                            }
                        },
                        None => {
                            assert(self.model()[i as int].name != name@);
                        },
                    }
                }
                return Some(i);
            }
            i = i + 1;
        }
        None
    }

    /// Adds a dependency, replacing the path of an existing entry of the
    /// same name.
    pub fn add_dependency(&mut self, name: &Vec<u8>, path: &Vec<u8>)
        ensures
            final(self).model() == spec_put(old(self).model(), name@, path@),
    {
        proof {
            lemma_dep_find(self.model(), name@);
        }
        let found = self.find(name);
        let dep = Dependency { name: clone_bytes(name), path: clone_bytes(path) };
        match found {
            Some(i) => {
                let ghost prev = self.model();
                let _ = self.dependencies.remove(i);
                self.dependencies.insert(i, dep);
                proof {
                    assert(self.model() =~= prev.update(
                        i as int,
                        DependencyModel { name: name@, path: path@ },
                    ));
                }
            },
            None => {
                let ghost prev = self.model();
                self.dependencies.push(dep);
                proof {
                    assert(self.model() =~= prev.push(
                        DependencyModel { name: name@, path: path@ },
                    ));
                }
            },
        }
    }

    /// Removes the dependency named `name`; reports whether one was
    /// there.
    pub fn remove_dependency(&mut self, name: &Vec<u8>) -> (removed: bool)
        ensures
            final(self).model() == spec_remove(old(self).model(), name@),
            removed == (dep_find(old(self).model(), name@) is Some),
    {
        proof {
            lemma_dep_find(self.model(), name@);
        }
        let found = self.find(name);
        match found {
            Some(i) => {
                let ghost prev = self.model();
                let _ = self.dependencies.remove(i);
                proof {
                    assert(self.model() =~= prev.remove(i as int));
                }
                true
            },
            None => false,
        }
    }

    /// The path registered under `name`, if any.
    pub fn resolve_dependency(&self, name: &Vec<u8>) -> (r: Option<Vec<u8>>)
        ensures
            match dep_find(self.model(), name@) {
                Some(i) => r matches Some(p) && p@ == self.model()[i].path,
                None => r is None,
            },
    {
        proof {
            lemma_dep_find(self.model(), name@);
        }
        let found = self.find(name);
        match found {
            Some(i) => Some(clone_bytes(&self.dependencies[i].path)),
            None => None,
        }
    }

    /// Updates the path of an existing dependency; reports whether the
    /// name was registered.
    pub fn update_dependency(&mut self, name: &Vec<u8>, new_path: &Vec<u8>) -> (updated: bool)
        ensures
            updated == (dep_find(old(self).model(), name@) is Some),
            updated ==> final(self).model() == spec_put(old(self).model(), name@, new_path@),
            !updated ==> final(self).model() == old(self).model(),
    {
        proof {
            lemma_dep_find(self.model(), name@);
        }
        let found = self.find(name);
        match found {
            Some(i) => {
                let ghost prev = self.model();
                let dep = Dependency { name: clone_bytes(name), path: clone_bytes(new_path) };
                let _ = self.dependencies.remove(i);
                self.dependencies.insert(i, dep);
                proof {
                    assert(self.model() =~= prev.update(
                        i as int,
                        DependencyModel { name: name@, path: new_path@ },
                    ));
                }
                true
            },
            None => false,
        }
    }

    /// Lists every registered dependency as a name/path pair, in
    /// insertion order.
    pub fn list_dependencies(&self) -> (r: Vec<(Vec<u8>, Vec<u8>)>)
        ensures
            r@.len() == self.model().len(),
            forall|i: int|
                0 <= i < r@.len() ==> (#[trigger] r@[i]).0@ == self.model()[i].name && r@[i].1@
                    == self.model()[i].path,
    {
        let mut out: Vec<(Vec<u8>, Vec<u8>)> = Vec::new();
        let mut i: usize = 0;
        while i < self.dependencies.len()
            invariant
                0 <= i <= self.model().len(),
                out@.len() == i,
                forall|j: int|
                    0 <= j < i ==> (#[trigger] out@[j]).0@ == self.model()[j].name && out@[j].1@
                        == self.model()[j].path,
            decreases self.model().len() - i,
        {
            out.push(
                (
                    clone_bytes(&self.dependencies[i].name),
                    clone_bytes(&self.dependencies[i].path),
                ),
            );
            i = i + 1;
        }
        out
    }

    /// Whether a dependency path exists, against the given set of
    /// existing paths.
    pub fn validate_dependency_path(&self, path: &Vec<u8>, existing: &Vec<Vec<u8>>) -> (r: bool)
        ensures
            r == views(existing@).contains(path@),
    {
        list_contains(existing, path)
    }
}

} // verus!
