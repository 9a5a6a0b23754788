use vstd::prelude::*;

use crate::error::BuildError;
use crate::paths::spec_parent;

verus! {

/// One requirement emitted by a resource during registration.
///
/// `RequireUnique` hands a freshly supplied sub-resource to the engine,
/// which registers and expands it and records a dependency on it.
/// `RequireShared` depends on an already-registered node by id without
/// re-registering it.  `ReservePath` claims exclusive ownership of an
/// output path.  The `Precede` variants are the same with the edge
/// direction reversed: the referenced resource must be generated
/// strictly after the emitting one.
pub enum Registration {
    RequireRoot,
    RequireUnique(Resource),
    RequireShared(u64),
    ReservePath(String),
    PrecedeUnique(Resource),
    PrecedeShared(u64),
}

/// The sentinel resource that orders the base of every build.
/// It occupies id 0, has no requirements and generates nothing.
pub struct Root {}

/// A directory that must exist in the output tree.
/// It claims its path and is ordered after the root sentinel.
pub struct Directory {
    pub path: String,
}

/// A file copied from `source` to the claimed output path.
/// It requires a `Directory` for the parent of its output path.
pub struct CopyFile {
    pub source: String,
    pub path: String,
}

/// A file whose content is produced during the build and kept in
/// memory; it claims its output path.
pub struct VirtualFile {
    pub path: String,
    pub content: Option<String>,
}

/// A resource composed directly from a list of registrations, with an
/// optional dedup key: two `Custom` resources are considered equal for
/// path arbitration exactly when both carry the same `Some` key.
pub struct Custom {
    pub key: Option<String>,
    pub registrations: Vec<Registration>,
}

/// A unit of declared build output.  The set of kinds is closed; each
/// kind answers the capability interface (its registrations and its
/// equality for path arbitration) by a match on this enum.
pub enum Resource {
    Root(Root),
    Directory(Directory),
    CopyFile(CopyFile),
    VirtualFile(VirtualFile),
    Custom(Custom),
}

impl Root {
    pub fn new() -> (r: Root) {
        Root {}
    }
}

impl Directory {
    pub fn new(path: String) -> (d: Directory)
        ensures
            d.path == path,
    {
        Directory { path }
    }
}

impl CopyFile {
    pub fn new(source: String, path: String) -> (c: CopyFile)
        ensures
            c.source == source,
            c.path == path,
    {
        CopyFile { source, path }
    }
}

impl VirtualFile {
    pub fn new(path: String) -> (v: VirtualFile)
        ensures
            v.path == path,
            v.content is None,
    {
        VirtualFile { path, content: None }
    }

    pub fn content(&self) -> (r: Option<&String>)
        ensures
            r is Some <==> self.content is Some,
            r matches Some(c) ==> self.content == Some(*c),
    {
        match &self.content {
            Some(c) => Some(c),
            None => None,
        }
    }

    /// Records the generated content of this file.
    pub fn set_content(&mut self, content: String)
        ensures
            final(self).path == old(self).path,
            final(self).content == Some(content),
    {
        self.content = Some(content);
    }
}

impl Custom {
    pub fn new(key: Option<String>, registrations: Vec<Registration>) -> (c: Custom)
        ensures
            c.key == key,
            c.registrations == registrations,
    {
        Custom { key, registrations }
    }
}

/// Equality used only for path-claim arbitration: the default is
/// "never equal"; kinds that support sharing an output location
/// compare the fields that identify the output.
pub open spec fn spec_equals(a: Resource, b: Resource) -> bool {
    match (a, b) {
        (Resource::Root(_), Resource::Root(_)) => true,
        (Resource::Directory(x), Resource::Directory(y)) => x.path@ == y.path@,
        (Resource::CopyFile(x), Resource::CopyFile(y)) => x.source@ == y.source@ && x.path@
            == y.path@,
        (Resource::VirtualFile(x), Resource::VirtualFile(y)) => x.path@ == y.path@,
        (Resource::Custom(x), Resource::Custom(y)) => match (x.key, y.key) {
            (Some(k), Some(l)) => k@ == l@,
            _ => false,
        },
        _ => false,
    }
}

/// The expansion depth of a resource: 1 for the resource itself plus
/// the deepest chain of uniquely-required sub-resources below it.
pub open spec fn spec_depth(r: Resource) -> nat
    decreases r,
{
    match r {
        Resource::Root(_) => 1,
        Resource::Directory(_) => 1,
        Resource::CopyFile(c) => if spec_parent(c.path@) is Some {
            2
        } else {
            1
        },
        Resource::VirtualFile(_) => 1,
        Resource::Custom(c) => 1 + regs_depth(c.registrations@),
    }
}

/// The deepest expansion chain among a list of registrations.
pub open spec fn regs_depth(s: Seq<Registration>) -> nat
    decreases s,
{
    if s.len() == 0 {
        0
    } else {
        let d = reg_depth(s[0]);
        let rest = regs_depth(s.drop_first());
        if d > rest {
            d
        } else {
            rest
        }
    }
}

/// A pure declaration chain: a composed resource whose registrations
/// all hand the engine fresh sub-chains, with no path claims, no
/// shared references and no ordering against the root.  Such a
/// resource can only be refused by the recursion budget.
pub open spec fn chain_only(r: Resource) -> bool
    decreases r,
{
    match r {
        Resource::Custom(c) => chain_only_regs(c.registrations@),
        _ => false,
    }
}

/// Whether every registration in the list hands the engine a fresh
/// sub-chain.
pub open spec fn chain_only_regs(s: Seq<Registration>) -> bool
    decreases s,
{
    if s.len() == 0 {
        true
    } else {
        (s[0] matches Registration::RequireUnique(r) && chain_only(r)) && chain_only_regs(
            s.drop_first(),
        )
    }
}

/// The expansion depth contributed by one registration: only the
/// variants that carry a fresh sub-resource recurse.
pub open spec fn reg_depth(g: Registration) -> nat
    decreases g,
{
    match g {
        Registration::RequireUnique(r) => spec_depth(r),
        Registration::PrecedeUnique(r) => spec_depth(r),
        _ => 0,
    }
}

impl Resource {
    /// Path-arbitration equality; see `spec_equals`.
    pub fn equals(&self, other: &Resource) -> (r: bool)
        ensures
            r == spec_equals(*self, *other),
    {
        match (self, other) {
            (Resource::Root(_), Resource::Root(_)) => true,
            (Resource::Directory(x), Resource::Directory(y)) => x.path == y.path,
            (Resource::CopyFile(x), Resource::CopyFile(y)) => x.source == y.source && x.path
                == y.path,
            (Resource::VirtualFile(x), Resource::VirtualFile(y)) => x.path == y.path,
            (Resource::Custom(x), Resource::Custom(y)) => match (&x.key, &y.key) {
                (Some(k), Some(l)) => k.eq(l),
                _ => false,
            },
            _ => false,
        }
    }
}

/// An identifiable reference to a registered resource.
pub struct Dependency {
    pub id: u64,
    pub resource: Resource,
}

impl Dependency {
    pub fn new(id: u64, resource: Resource) -> (d: Dependency)
        ensures
            d.id == id,
            d.resource == resource,
    {
        Dependency { id, resource }
    }

    pub fn resource(&self) -> (r: &Resource)
        ensures
            *r == self.resource,
    {
        &self.resource
    }
}

/// Reads the generated content out of a dependency that refers to a
/// virtual file.  Fails when the dependency is not a virtual file or
/// when its content has not been generated yet.
pub fn extract_content(dependency: &Dependency) -> (r: Result<String, BuildError>)
    ensures
        r is Ok <==> (dependency.resource matches Resource::VirtualFile(v) && v.content is Some),
        r matches Ok(c) ==> (dependency.resource matches Resource::VirtualFile(v)
            && v.content matches Some(d) && c@ == d@),
        r matches Err(e) ==> (e matches BuildError::GenerationFailed { id, .. } && id
            == dependency.id),
    {
    match &dependency.resource {
        Resource::VirtualFile(v) => match &v.content {
            Some(c) => Ok(c.clone()),
            None => Err(
                BuildError::GenerationFailed {
                    id: dependency.id,
                    message: String::from_str("resource has no content"),
                },
            ),
        },
        _ => Err(
            BuildError::GenerationFailed {
                id: dependency.id,
                message: String::from_str("resource is not a virtual file"),
            },
        ),
    }
}

} // verus!
