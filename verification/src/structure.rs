use vstd::prelude::*;

use crate::paths::{lemma_parent_shorter, parent_of, spec_parent};

verus! {

/// What a path in the output tree is.
#[derive(Debug, PartialEq, Eq, Structural, Clone, Copy)]
pub enum Node {
    File,
    Directory,
}

/// The planned output tree: each known path mapped to what it is,
/// later recordings winning.
pub open spec fn structure_map(t: Seq<(String, Node)>) -> Map<Seq<char>, Node>
    decreases t.len(),
{
    if t.len() == 0 {
        Map::empty()
    } else {
        structure_map(t.drop_last()).insert(t.last().0@, t.last().1)
    }
}

/// The planned layout of the output tree, used to create every needed
/// directory before generation runs.
pub struct Structure {
    entries: Vec<(String, Node)>,
}

#[via_fn]
proof fn spec_add_node_decreases(m: Map<Seq<char>, Node>, path: Seq<char>, node: Node) {
    lemma_parent_shorter(path);
}

/// Recording a node: an existing file conflicts with anything, an
/// existing directory conflicts with a file and absorbs a directory;
/// a new path first records its parent as a directory, and a path
/// with no parent cannot be added.
pub open spec fn spec_add_node(m: Map<Seq<char>, Node>, path: Seq<char>, node: Node) -> Option<
    Map<Seq<char>, Node>,
>
    decreases path.len(),
    via spec_add_node_decreases
{
    if m.dom().contains(path) {
        match (m[path], node) {
            (Node::Directory, Node::Directory) => Some(m),
            _ => None,
        }
    } else {
        match spec_parent(path) {
            None => None,
            Some(pp) => match spec_add_node(m, pp, Node::Directory) {
                None => None,
                Some(m2) => Some(m2.insert(path, node)),
            },
        }
    }
}

impl Structure {
    /// The recorded tree.
    pub closed spec fn view(&self) -> Map<Seq<char>, Node> {
        structure_map(self.entries@)
    }

    pub fn new() -> (s: Structure)
        ensures
            s@ == Map::<Seq<char>, Node>::empty(),
    {
        let s = Structure { entries: Vec::new() };
        proof {
            assert(s.entries@.len() == 0);
        }
        s
    }

    /// Whether `path` is recorded, and as what.
    pub fn get(&self, path: &str) -> (r: Option<Node>)
        ensures
            r is Some <==> self@.dom().contains(path@),
            r matches Some(n) ==> n == self@[path@],
    {
        let count = self.entries.len();
        let mut i: usize = count;
        while i > 0
            invariant
                i <= count,
                count == self.entries@.len(),
                forall|l: int| i <= l < count ==> (#[trigger] self.entries@[l]).0@ != path@,
            decreases i,
        {
            i -= 1;
            if self.entries[i].0.eq(&path.to_owned()) {
                proof {
                    lemma_structure_last(self.entries@, i as int);
                }
                return Some(self.entries[i].1);
            }
        }
        proof {
            lemma_structure_dom(self.entries@, path@);
        }
        None
    }

    /// The recorded paths and their kinds, in recording order.
    pub fn entries(&self) -> (r: &Vec<(String, Node)>)
        ensures
            structure_map(r@) == self@,
    {
        &self.entries
    }
}

proof fn lemma_structure_dom(t: Seq<(String, Node)>, k: Seq<char>)
    ensures
        structure_map(t).dom().contains(k) <==> exists|i: int|
            0 <= i < t.len() && (#[trigger] t[i]).0@ == k,
    decreases t.len(),
{
    if t.len() > 0 {
        lemma_structure_dom(t.drop_last(), k);
        if structure_map(t).dom().contains(k) && t.last().0@ != k {
            let i = choose|i: int| 0 <= i < t.len() - 1 && (#[trigger] t.drop_last()[i]).0@ == k;
            assert((t[i]).0@ == k);
        }
        if exists|i: int| 0 <= i < t.len() && (#[trigger] t[i]).0@ == k {
            let i = choose|i: int| 0 <= i < t.len() && (#[trigger] t[i]).0@ == k;
            if i < t.len() - 1 && t.last().0@ != k {
                assert((t.drop_last()[i]).0@ == k);
            }
        }
    }
}

proof fn lemma_structure_last(t: Seq<(String, Node)>, j: int)
    requires
        0 <= j < t.len(),
        forall|l: int| j < l < t.len() ==> (#[trigger] t[l]).0@ != t[j].0@,
    ensures
        structure_map(t).dom().contains(t[j].0@),
        structure_map(t)[t[j].0@] == t[j].1,
    decreases t.len(),
{
    if j == t.len() - 1 {
    } else {
        assert(t.last().0@ != t[j].0@);
        lemma_structure_last(t.drop_last(), j);
        assert((t.drop_last()[j]) == t[j]);
    }
}

/// Seeds the structure with its root: the empty path as a directory.
pub fn initialize(structure: &mut Structure)
    ensures
        final(structure)@ == old(structure)@.insert(Seq::<char>::empty(), Node::Directory),
{
    let entry = (String::new(), Node::Directory);
    structure.entries.push(entry);
    proof {
        assert(structure.entries@.drop_last() =~= old(structure).entries@);
    }
}

/// Records `path` as `node`, recording every missing ancestor as a
/// directory first; see `spec_add_node`.  Returns whether the
/// recording succeeded; on a conflict nothing is recorded.
pub fn add_node(structure: &mut Structure, path: &str, node: Node) -> (r: bool)
    ensures
        r <==> spec_add_node(old(structure)@, path@, node) is Some,
        r ==> Some(final(structure)@) == spec_add_node(old(structure)@, path@, node),
        !r ==> final(structure)@ == old(structure)@,
    decreases path@.len(),
{
    match structure.get(path) {
        Some(existing) => match (existing, node) {
            (Node::Directory, Node::Directory) => true,
            _ => false,
        },
        None => {
            proof {
                lemma_parent_shorter(path@);
            }
            match parent_of(path) {
                None => false,
                Some(parent) => {
                    if add_node(structure, parent.as_str(), Node::Directory) {
                        let ghost mid = structure.entries@;
                        let entry = (path.to_owned(), node);
                        structure.entries.push(entry);
                        proof {
                            assert(structure.entries@.drop_last() =~= mid);
                        }
                        true
                    } else {
                        false
                    }
                },
            }
        },
    }
}

} // verus!
