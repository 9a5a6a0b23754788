use vstd::prelude::*;

use crate::error::BuildError;
use crate::resource::Resource;

verus! {

/// The single source of truth mapping a resource id to its object.
///
/// Ids are assigned by a monotonic counter starting at 0 and are never
/// reused, so the arena is a vector indexed by id.
pub struct Registry {
    items: Vec<Resource>,
}

impl Registry {
    /// The sequence of registered resources; the id of a resource is
    /// its index here.
    pub closed spec fn view(&self) -> Seq<Resource> {
        self.items@
    }

    pub fn new() -> (r: Registry)
        ensures
            r@ == Seq::<Resource>::empty(),
    {
        Registry { items: Vec::new() }
    }

    /// How many resources have been registered.
    pub fn len(&self) -> (n: usize)
        ensures
            n == self@.len(),
    {
        self.items.len()
    }

    /// Assigns the next unused id to `object` and stores it.
    pub fn register(&mut self, object: Resource) -> (id: u64)
        ensures
            id as int == old(self)@.len(),
            final(self)@ == old(self)@.push(object),
            old(self)@.len() < usize::MAX as int,
    {
        let id = self.items.len() as u64;
        self.items.push(object);
        let n = self.items.len();
        proof {
            assert(n as int == id + 1);
        }
        id
    }

    /// Whether `id` names a registered resource.
    pub fn contains(&self, id: u64) -> (r: bool)
        ensures
            r == (id < self@.len()),
    {
        id < self.items.len() as u64
    }

    /// Looks a resource up by id.
    pub fn get(&self, id: u64) -> (r: Option<&Resource>)
        ensures
            r matches Some(res) ==> id < self@.len() && *res == self@[id as int],
            r is None <==> id >= self@.len(),
    {
        if id < self.items.len() as u64 {
            Some(&self.items[id as usize])
        } else {
            None
        }
    }

    /// Records the generated content of the virtual file registered
    /// under `id`.  Fails with `NotFound` for an unknown id and leaves
    /// the registry unchanged when the resource is not a virtual file.
    pub fn set_content(&mut self, id: u64, content: String) -> (r: Result<(), BuildError>)
        ensures
            final(self)@.len() == old(self)@.len(),
            forall|i: int|
                0 <= i < old(self)@.len() && i != id as int ==> final(self)@[i] == old(self)@[i],
            r is Ok <==> (id < old(self)@.len() && old(self)@[id as int] matches
                Resource::VirtualFile(_)),
            r is Ok ==> (old(self)@[id as int] matches Resource::VirtualFile(v) && final(self)@[id
                as int] == Resource::VirtualFile(
                crate::resource::VirtualFile { path: v.path, content: Some(content) },
            )),
            r matches Err(e) ==> final(self)@ == old(self)@ && (e == BuildError::NotFound(id) || (e
                matches BuildError::GenerationFailed { id: gid, .. } && gid == id)),
    {
        if id >= self.items.len() as u64 {
            return Err(BuildError::NotFound(id));
        }
        let idx = id as usize;
        let path_opt: Option<String> = match &self.items[idx] {
            Resource::VirtualFile(v) => Some(v.path.clone()),
            _ => None,
        };
        match path_opt {
            Some(path) => {
                self.items.set(
                    idx,
                    Resource::VirtualFile(
                        crate::resource::VirtualFile { path, content: Some(content) },
                    ),
                );
                Ok(())
            },
            None => Err(
                BuildError::GenerationFailed {
                    id,
                    message: String::from_str("resource is not a virtual file"),
                },
            ),
        }
    }
}

} // verus!
