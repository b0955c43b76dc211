//! The declared configuration: packages with their source-to-destination
//! mapping templates, and the named, fully resolved package the engine
//! consumes.

use vstd::prelude::*;

use crate::path::spec_file_name;
use crate::path::file_name_of;
use crate::path::ends_with_sep;
use crate::var::VarMap;
use crate::var::VarsBuildError;
use crate::var::VarsParseError;
use crate::var::spec_subst;
use crate::var::build_vars;
use vstd::string::StringExecFns;

verus! {

/// How a package's files are stored; `Local` keeps them in a subdirectory
/// named after the package.
#[derive(Debug, Clone, Copy, PartialEq, Eq, Structural)]
pub enum PackageType {
    Local,
}

/// One declared package: its kind, its own variables, and its mapping from
/// relative sources to destination templates, in declaration order.
#[derive(Debug, Clone, PartialEq, Eq)]
pub struct Package {
    pub kind: PackageType,
    pub vars: Vec<(String, String)>,
    pub maps: Vec<(String, String)>,
}

/// The whole declaration document: global variables and the package table,
/// keyed by package name.
#[derive(Debug, Clone, PartialEq, Eq)]
pub struct Config {
    pub vars: Vec<(String, String)>,
    pub packages: Vec<(String, Package)>,
}

/// The view of a list of string pairs.
pub open spec fn pairs_view(v: Seq<(String, String)>) -> Seq<(Seq<char>, Seq<char>)> {
    v.map_values(|p: (String, String)| (p.0@, p.1@))
}

/// Errors in turning a declared package into a resolved one.
#[derive(Debug, PartialEq, Eq)]
pub enum PkgsParseError {
    VarsBuild(VarsBuildError),
    VarsParse(VarsParseError),
    NoneFilename(String),
}

/// A fully resolved package: name, kind, and mapping with every variable
/// substituted and directory-style destinations expanded.
#[derive(Debug, Clone, PartialEq, Eq)]
pub struct NamedPackage {
    name: String,
    kind: PackageType,
    maps: Vec<(String, String)>,
}

impl NamedPackage {
    /// The resolved mapping, in order.
    pub closed spec fn maps_pairs(self) -> Seq<(Seq<char>, Seq<char>)> {
        pairs_view(self.maps@)
    }

    pub closed spec fn name_spec(self) -> Seq<char> {
        self.name@
    }

    pub closed spec fn kind_spec(self) -> PackageType {
        self.kind
    }

    /// The storage directory: for a local package, the package name.
    pub open spec fn dir_spec(self) -> Seq<char> {
        self.name_spec()
    }

    /// Source keys are unique.
    pub open spec fn wf(self) -> bool {
        forall|p: int, q: int|
            0 <= p < q < self.maps_pairs().len() ==> (#[trigger] self.maps_pairs()[p]).0
                != (#[trigger] self.maps_pairs()[q]).0
    }

    /// The storage subdirectory this package occupies under the root.
    pub fn get_directory(&self) -> (r: String)
        ensures
            r@ == self.dir_spec(),
    {
        match self.kind {
            PackageType::Local => self.name.clone(),
        }
    }

    pub fn name(&self) -> (r: &String)
        ensures
            r@ == self.name_spec(),
    {
        &self.name
    }

    pub fn kind(&self) -> (r: PackageType)
        ensures
            r == self.kind_spec(),
    {
        self.kind
    }

    pub fn maps(&self) -> (r: &Vec<(String, String)>)
        ensures
            pairs_view(r@) == self.maps_pairs(),
    {
        &self.maps
    }

    /// Position of `key` among the sources, if present.
    fn position_of(&self, key: &String) -> (r: Option<usize>)
        ensures
            match r {
                Some(i) => i < self.maps_pairs().len() && self.maps_pairs()[i as int].0 == key@,
                None => forall|i: int|
                    0 <= i < self.maps_pairs().len() ==> self.maps_pairs()[i].0 != key@,
            },
    {
        let n = self.maps.len();
        let mut i: usize = 0;
        while i < n
            invariant
                i <= n,
                n == self.maps_pairs().len(),
                forall|j: int| 0 <= j < i ==> self.maps_pairs()[j].0 != key@,
            decreases n - i,
        {
            if self.maps[i].0.eq(key) {
                return Some(i);
            }
            i = i + 1;
        }
        None
    }

    /// Sets the destination for `key`: replaces the pair in place when the
    /// source is already declared, appends it otherwise.
    pub fn insert_map(&mut self, key: &String, value: &String)
        requires
            old(self).wf(),
        ensures
            final(self).wf(),
            final(self).name_spec() == old(self).name_spec(),
            final(self).kind_spec() == old(self).kind_spec(),
            ({
                let oldm = old(self).maps_pairs();
                if exists|i: int| 0 <= i < oldm.len() && oldm[i].0 == key@ {
                    final(self).maps_pairs() == oldm.update(
                        choose|i: int| 0 <= i < oldm.len() && oldm[i].0 == key@,
                        (key@, value@),
                    )
                } else {
                    final(self).maps_pairs() == oldm.push((key@, value@))
                }
            }),
    {
        let ghost oldm = self.maps_pairs();
        match self.position_of(key) {
            Some(i) => {
                self.maps.remove(i);
                self.maps.insert(i, (key.clone(), value.clone()));
                proof {
                    let ghost j = choose|j: int| 0 <= j < oldm.len() && oldm[j].0 == key@;
                    assert(self.maps_pairs() =~= oldm.update(j, (key@, value@))) by {
                        assert(oldm[j].0 == oldm[i as int].0);
                        assert(j == i as int);
                        assert(self.maps@ =~= old(self).maps@.remove(i as int).insert(
                            i as int,
                            (self.maps@[i as int].0, self.maps@[i as int].1),
                        ));
                    }
                }
            },
            None => {
                self.maps.push((key.clone(), value.clone()));
                proof {
                    assert(self.maps_pairs() =~= oldm.push((key@, value@)));
                }
            },
        }
    }

    /// Removes the pair declared for `key`, if any.
    pub fn remove_map(&mut self, key: &String)
        requires
            old(self).wf(),
        ensures
            final(self).wf(),
            final(self).name_spec() == old(self).name_spec(),
            final(self).kind_spec() == old(self).kind_spec(),
            ({
                let oldm = old(self).maps_pairs();
                if exists|i: int| 0 <= i < oldm.len() && oldm[i].0 == key@ {
                    final(self).maps_pairs() == oldm.remove(
                        choose|i: int| 0 <= i < oldm.len() && oldm[i].0 == key@,
                    )
                } else {
                    final(self).maps_pairs() == oldm
                }
            }),
    {
        let ghost oldm = self.maps_pairs();
        match self.position_of(key) {
            Some(i) => {
                self.maps.remove(i);
                proof {
                    let ghost j = choose|j: int| 0 <= j < oldm.len() && oldm[j].0 == key@;
                    assert(oldm[j].0 == oldm[i as int].0);
                    assert(j == i as int);
                    assert(self.maps_pairs() =~= oldm.remove(i as int));
                    oldm.remove_ensures(i as int);
                    assert forall|p: int, q: int|
                        0 <= p < q < self.maps_pairs().len() implies self.maps_pairs()[p].0
                        != self.maps_pairs()[q].0 by {
                        if q < i as int {
                        } else if p < i as int {
                            assert(self.maps_pairs()[q] == oldm[q + 1]);
                        } else {
                            assert(self.maps_pairs()[p] == oldm[p + 1]);
                            assert(self.maps_pairs()[q] == oldm[q + 1]);
                        }
                    }
                }
            },
            None => {
            },
        }
    }

    /// Resolves a declared package: substitutes variables in each destination
    /// template and, for a destination ending in a separator, appends the
    /// source's file name.  A repeated source key keeps its first position,
    /// the later destination winning.
    pub fn try_new(name: &String, package: Package, vars: VarMap) -> (r: Result<
        NamedPackage,
        PkgsParseError,
    >)
        requires
            vars.wf(),
        ensures
            match r {
                Ok(p) => {
                    &&& p.wf()
                    &&& p.name_spec() == name@
                    &&& p.kind_spec() == package.kind
                    &&& resolved_maps(vars.map_spec(), pairs_view(package.maps@)) == Ok::<
                        _,
                        PkgsParseErrV,
                    >(p.maps_pairs())
                },
                Err(e) => resolved_maps(vars.map_spec(), pairs_view(package.maps@)) == Err::<
                    Seq<(Seq<char>, Seq<char>)>,
                    _,
                >(e@),
            },
    {
        let mut maps: Vec<(String, String)> = Vec::new();
        let mut out = NamedPackage { name: name.clone(), kind: package.kind, maps };
        let n = package.maps.len();
        let mut i: usize = 0;
        proof {
            assert(pairs_view(package.maps@).take(0) =~= Seq::<(Seq<char>, Seq<char>)>::empty());
            assert(out.maps_pairs() =~= Seq::<(Seq<char>, Seq<char>)>::empty());
        }
        while i < n
            invariant
                i <= n,
                n == package.maps@.len(),
                vars.wf(),
                out.name_spec() == name@,
                out.kind_spec() == package.kind,
                out.wf(),
                resolved_maps(vars.map_spec(), pairs_view(package.maps@).take(i as int)) == Ok::<
                    _,
                    PkgsParseErrV,
                >(out.maps_pairs()),
            decreases n - i,
        {
            let k = &package.maps[i].0;
            let v = &package.maps[i].1;
            proof {
                lemma_resolved_maps_snoc(
                    vars.map_spec(),
                    pairs_view(package.maps@).take(i as int),
                    (k@, v@),
                );
                assert(pairs_view(package.maps@).take(i + 1) =~= pairs_view(
                    package.maps@,
                ).take(i as int).push((k@, v@)));
            }
            let mut value = match vars.parse(v) {
                Ok(s) => s,
                Err(e) => {
                    proof {
                        lemma_resolved_maps_err_persists(
                            vars.map_spec(),
                            pairs_view(package.maps@),
                            i + 1,
                        );
                    }
                    return Err(PkgsParseError::VarsParse(e));
                },
            };
            if ends_with_sep(&value) {
                match file_name_of(k) {
                    Some(f) => {
                        value.append(f.as_str());
                    },
                    None => {
                        proof {
                            lemma_resolved_maps_err_persists(
                                vars.map_spec(),
                                pairs_view(package.maps@),
                                i + 1,
                            );
                        }
                        return Err(PkgsParseError::NoneFilename(k.clone()));
                    },
                }
            }
            out.insert_map(k, &value);
            i = i + 1;
        }
        proof {
            assert(pairs_view(package.maps@).take(n as int) =~= pairs_view(package.maps@));
        }
        Ok(out)
    }
}

/// One resolved destination: the substituted template, with the source's
/// file name appended when the substitution ends in a separator.
pub open spec fn resolve_one(
    vars: Map<Seq<char>, Seq<char>>,
    k: Seq<char>,
    v: Seq<char>,
) -> Result<Seq<char>, PkgsParseErrV> {
    match spec_subst(vars, v, 0) {
        Err(e) => Err(PkgsParseErrV::VarsParse(e)),
        Ok(s) => {
            if s.len() > 0 && s[s.len() - 1] == '/' {
                match spec_file_name(k) {
                    Some(f) => Ok(s + f),
                    None => Err(PkgsParseErrV::NoneFilename(k)),
                }
            } else {
                Ok(s)
            }
        },
    }
}

/// The shape of a resolution error.
pub enum PkgsParseErrV {
    VarsBuild(crate::var::VarsBuildErrV),
    VarsParse(crate::var::VarsParseErrV),
    NoneFilename(Seq<char>),
}

impl View for PkgsParseError {
    type V = PkgsParseErrV;

    open spec fn view(&self) -> PkgsParseErrV {
        match self {
            PkgsParseError::VarsBuild(e) => PkgsParseErrV::VarsBuild(e@),
            PkgsParseError::VarsParse(e) => PkgsParseErrV::VarsParse(e@),
            PkgsParseError::NoneFilename(k) => PkgsParseErrV::NoneFilename(k@),
        }
    }
}

/// The whole resolved mapping, first error first; a repeated source keeps
/// its first position, the later destination winning.
pub open spec fn resolved_maps(
    vars: Map<Seq<char>, Seq<char>>,
    maps: Seq<(Seq<char>, Seq<char>)>,
) -> Result<Seq<(Seq<char>, Seq<char>)>, PkgsParseErrV>
    decreases maps.len(),
{
    if maps.len() == 0 {
        Ok(Seq::empty())
    } else {
        match resolved_maps(vars, maps.drop_last()) {
            Err(e) => Err(e),
            Ok(acc) => match resolve_one(vars, maps.last().0, maps.last().1) {
                Err(e) => Err(e),
                Ok(d) => {
                    if exists|i: int| 0 <= i < acc.len() && acc[i].0 == maps.last().0 {
                        Ok(
                            acc.update(
                                choose|i: int| 0 <= i < acc.len() && acc[i].0 == maps.last().0,
                                (maps.last().0, d),
                            ),
                        )
                    } else {
                        Ok(acc.push((maps.last().0, d)))
                    }
                },
            },
        }
    }
}

/// Once resolution fails on a prefix, the whole resolution fails the same
/// way.
proof fn lemma_resolved_maps_err_persists(
    vars: Map<Seq<char>, Seq<char>>,
    maps: Seq<(Seq<char>, Seq<char>)>,
    i: int,
)
    requires
        0 <= i <= maps.len(),
        resolved_maps(vars, maps.take(i)) is Err,
    ensures
        resolved_maps(vars, maps) == resolved_maps(vars, maps.take(i)),
    decreases maps.len(),
{
    if i < maps.len() {
        assert(maps.drop_last().take(i) =~= maps.take(i));
        lemma_resolved_maps_err_persists(vars, maps.drop_last(), i);
    } else {
        assert(maps.take(i) =~= maps);
    }
}

proof fn lemma_resolved_maps_snoc(
    vars: Map<Seq<char>, Seq<char>>,
    maps: Seq<(Seq<char>, Seq<char>)>,
    p: (Seq<char>, Seq<char>),
)
    ensures
        resolved_maps(vars, maps.push(p)) == ({
            match resolved_maps(vars, maps) {
                Err(e) => Err::<Seq<(Seq<char>, Seq<char>)>, PkgsParseErrV>(e),
                Ok(acc) => match resolve_one(vars, p.0, p.1) {
                    Err(e) => Err(e),
                    Ok(d) => {
                        if exists|i: int| 0 <= i < acc.len() && acc[i].0 == p.0 {
                            Ok(
                                acc.update(
                                    choose|i: int| 0 <= i < acc.len() && acc[i].0 == p.0,
                                    (p.0, d),
                                ),
                            )
                        } else {
                            Ok(acc.push((p.0, d)))
                        }
                    },
                },
            }
        }),
{
    assert(maps.push(p).drop_last() =~= maps);
    assert(maps.push(p).last() == p);
}

impl Config {
    /// Package names are unique.
    pub open spec fn wf(self) -> bool {
        forall|p: int, q: int|
            0 <= p < q < self.packages@.len() ==> (#[trigger] self.packages@[p]).0@
                != (#[trigger] self.packages@[q]).0@
    }

    /// `name` is declared at position `i` and at no earlier one.
    pub open spec fn declared_at(self, name: Seq<char>, i: int) -> bool {
        &&& 0 <= i < self.packages@.len()
        &&& self.packages@[i].0@ == name
        &&& forall|j: int| 0 <= j < i ==> (#[trigger] self.packages@[j]).0@ != name
    }

    /// The first declared package under `name`, if any.
    pub fn find_package(&self, name: &String) -> (r: Option<&Package>)
        ensures
            match r {
                Some(p) => exists|i: int|
                    #[trigger] self.declared_at(name@, i) && self.packages@[i].1 == p,
                None => forall|i: int|
                    0 <= i < self.packages@.len() ==> (#[trigger] self.packages@[i]).0@ != name@,
            },
    {
        let n = self.packages.len();
        let mut i: usize = 0;
        while i < n
            invariant
                i <= n,
                n == self.packages@.len(),
                forall|j: int| 0 <= j < i ==> (#[trigger] self.packages@[j]).0@ != name@,
            decreases n - i,
        {
            if self.packages[i].0.eq(name) {
                proof {
                    assert(self.declared_at(name@, i as int));
                }
                return Some(&self.packages[i].1);
            }
            i = i + 1;
        }
        None
    }

    /// Resolves the first declared package under `name` against the global
    /// variables: its destination templates substituted against the built
    /// table, a failure reported exactly where building or resolving
    /// fails.  The package must be declared.
    pub fn get(&self, name: &String) -> (r: Result<NamedPackage, PkgsParseError>)
        requires
            exists|i: int|
                0 <= i < self.packages@.len() && (#[trigger] self.packages@[i]).0@ == name@,
        ensures
            match r {
                Ok(p) => exists|i: int|
                    {
                        &&& #[trigger] self.declared_at(name@, i)
                        &&& p.wf()
                        &&& p.name_spec() == name@
                        &&& p.kind_spec() == self.packages@[i].1.kind
                        &&& build_vars(Map::empty(), pairs_view(self.vars@)) matches Ok(m)
                            && resolved_maps(m, pairs_view(self.packages@[i].1.maps@)) == Ok::<
                            _,
                            PkgsParseErrV,
                        >(p.maps_pairs())
                    },
                Err(e) => exists|i: int|
                    {
                        &&& #[trigger] self.declared_at(name@, i)
                        &&& match build_vars(Map::empty(), pairs_view(self.vars@)) {
                            Err(be) => e@ == PkgsParseErrV::VarsBuild(be),
                            Ok(m) => resolved_maps(m, pairs_view(self.packages@[i].1.maps@))
                                == Err::<Seq<(Seq<char>, Seq<char>)>, _>(e@),
                        }
                    },
            },
    {
        let package = match self.find_package(name) {
            Some(p) => p,
            None => {
                // ruled out: the package is declared
                proof {
                    assert(false);
                }
                return Err(PkgsParseError::NoneFilename(name.clone()));
            },
        };
        let ghost gi = choose|i: int|
            self.declared_at(name@, i) && self.packages@[i].1 == *package;
        let vars = match VarMap::try_new(&self.vars) {
            Ok(v) => v,
            Err(e) => {
                proof {
                    assert(self.declared_at(name@, gi));
                }
                return Err(PkgsParseError::VarsBuild(e));
            },
        };
        let pkg = Package {
            kind: package.kind,
            vars: Vec::new(),
            maps: clone_pairs(&package.maps),
        };
        let r = NamedPackage::try_new(name, pkg, vars);
        proof {
            assert(self.declared_at(name@, gi));
            assert(pairs_view(self.packages@[gi].1.maps@) == pairs_view(package.maps@));
        }
        r
    }
}

/// A pairwise copy of a list of string pairs.
pub fn clone_pairs(v: &Vec<(String, String)>) -> (r: Vec<(String, String)>)
    ensures
        pairs_view(r@) == pairs_view(v@),
{
    let mut r: Vec<(String, String)> = Vec::new();
    let n = v.len();
    let mut i: usize = 0;
    while i < n
        invariant
            i <= n,
            n == v@.len(),
            r@.len() == i,
            forall|j: int| 0 <= j < i ==> r@[j].0@ == v@[j].0@ && r@[j].1@ == v@[j].1@,
        decreases n - i,
    {
        r.push((v[i].0.clone(), v[i].1.clone()));
        i = i + 1;
    }
    proof {
        assert(pairs_view(r@) =~= pairs_view(v@));
    }
    r
}

} // verus!
