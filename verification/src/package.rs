use vstd::prelude::*;

verus! {

/// What the graph records of one resolved package: its name, its version and
/// its source location, each as plain text. Two identities denote the same
/// package exactly when all three fields agree.
pub struct PackageIdentity {
    pub name: String,
    pub version: String,
    pub source: String,
}

/// The mathematical value of a `PackageIdentity`: its three fields as
/// character sequences.
pub struct PackageIdentityView {
    pub name: Seq<char>,
    pub version: Seq<char>,
    pub source: Seq<char>,
}

impl View for PackageIdentity {
    type V = PackageIdentityView;

    open spec fn view(&self) -> PackageIdentityView {
        PackageIdentityView { name: self.name@, version: self.version@, source: self.source@ }
    }
}

impl PackageIdentity {
    pub fn new(name: String, version: String, source: String) -> (p: PackageIdentity)
        ensures
            p@.name == name@,
            p@.version == version@,
            p@.source == source@,
    {
        PackageIdentity { name, version, source }
    }
}

impl Clone for PackageIdentity {
    fn clone(&self) -> (r: Self)
        ensures
            r@ == self@,
    {
        PackageIdentity {
            name: self.name.clone(),
            version: self.version.clone(),
            source: self.source.clone(),
        }
    }
}

impl PartialEq for PackageIdentity {
    fn eq(&self, other: &Self) -> (r: bool) {
        self.name == other.name && self.version == other.version && self.source == other.source
    }
}

impl vstd::std_specs::cmp::PartialEqSpecImpl for PackageIdentity {
    open spec fn obeys_eq_spec() -> bool {
        true
    }

    open spec fn eq_spec(&self, other: &Self) -> bool {
        self@ == other@
    }
}

/// One package of the resolver's output: its identity and, where the resolver
/// recorded one, its list of direct dependencies. A package whose dependency
/// list is unknown carries `None` and forces no node of its own.
pub struct ResolvedPackage {
    pub id: PackageIdentity,
    pub deps: Option<Vec<PackageIdentity>>,
}

/// The mathematical value of a `ResolvedPackage`.
pub struct ResolvedPackageView {
    pub id: PackageIdentityView,
    pub deps: Option<Seq<PackageIdentityView>>,
}

impl View for ResolvedPackage {
    type V = ResolvedPackageView;

    open spec fn view(&self) -> ResolvedPackageView {
        ResolvedPackageView {
            id: self.id@,
            deps: match self.deps {
                None => None,
                Some(ds) => Some(ds@.map_values(|p: PackageIdentity| p@)),
            },
        }
    }
}

impl ResolvedPackage {
    pub fn new(id: PackageIdentity, deps: Option<Vec<PackageIdentity>>) -> (p: ResolvedPackage)
        ensures
            p@.id == id@,
            deps is None ==> p@.deps is None,
            deps is Some ==> p@.deps == Some(deps->Some_0@.map_values(|q: PackageIdentity| q@)),
    {
        ResolvedPackage { id, deps }
    }
}

} // verus!
