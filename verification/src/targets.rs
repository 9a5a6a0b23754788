use vstd::prelude::*;

use crate::filter::{filter_allows, opt_patterns, spec_filter_allows, spec_filters_valid};
use crate::paths::{join_path, spec_join};
use crate::resource::{CopyFile, Registration, Resource};

verus! {

/// What a build target declares about itself: the paths it reads and
/// the path it writes.
pub trait Analyze {
    /// The paths this target reads.
    spec fn spec_dependencies(&self) -> Seq<Seq<char>>;

    /// The path this target writes.
    spec fn spec_output(&self) -> Seq<char>;

    fn dependencies(&self) -> (r: Vec<String>)
        ensures
            r.deep_view() == self.spec_dependencies(),
    ;

    fn output(&self) -> (r: String)
        ensures
            r@ == self.spec_output(),
    ;
}

/// A target that can be added to an incremental build: it declares its
/// inputs and its output; its effect is performed by the build loop.
pub trait Target: Analyze {

}

impl Analyze for CopyFile {
    open spec fn spec_dependencies(&self) -> Seq<Seq<char>> {
        seq![self.source@]
    }

    open spec fn spec_output(&self) -> Seq<char> {
        self.path@
    }

    fn dependencies(&self) -> (r: Vec<String>)
        ensures
            r.deep_view() == self.spec_dependencies(),
    {
        let mut r: Vec<String> = Vec::new();
        r.push(self.source.clone());
        proof {
            assert(r.deep_view() =~= seq![self.source@]);
        }
        r
    }

    fn output(&self) -> (r: String)
        ensures
            r@ == self.spec_output(),
    {
        self.path.clone()
    }
}

impl Target for CopyFile {

}

/// The copies selected from a directory walk: each relative path that
/// passes the filters becomes a `(source, destination)` pair, in
/// order.
pub open spec fn spec_selected(
    source: Seq<char>,
    destination: Seq<char>,
    accept: Option<Seq<String>>,
    exclude: Option<Seq<String>>,
    rels: Seq<String>,
) -> Seq<(Seq<char>, Seq<char>)>
    decreases rels.len(),
{
    if rels.len() == 0 {
        Seq::empty()
    } else {
        let rest = spec_selected(source, destination, accept, exclude, rels.drop_last());
        if spec_filter_allows(accept, exclude, rels.last()@) {
            rest.push(
                (spec_join(source, rels.last()@), spec_join(destination, rels.last()@)),
            )
        } else {
            rest
        }
    }
}

/// A directory copied file by file: every file under `source` whose
/// relative path passes the filters is copied to the same relative
/// path under `destination`.
pub struct CopyDir {
    pub source: String,
    pub destination: String,
    pub accept: Option<Vec<String>>,
    pub exclude: Option<Vec<String>>,
}

impl CopyDir {
    pub fn new(
        source: String,
        destination: String,
        accept: Option<Vec<String>>,
        exclude: Option<Vec<String>>,
    ) -> (c: CopyDir)
        ensures
            c.source == source,
            c.destination == destination,
            c.accept == accept,
            c.exclude == exclude,
    {
        CopyDir { source, destination, accept, exclude }
    }

    pub fn builder(source: String, destination: String) -> (b: CopyDirBuilder)
        ensures
            b.source == source,
            b.destination == destination,
            b.accept is None,
            b.exclude is None,
    {
        CopyDirBuilder::new(source, destination)
    }

    /// Selects the copies this directory produces, given the relative
    /// paths of the files found under `source`: each one that passes
    /// the filters becomes a `CopyFile` from `source`/rel to
    /// `destination`/rel, keeping the walk's order.  `None` when a
    /// filter pattern does not compile.
    pub fn select_targets(&self, relative_paths: &Vec<String>) -> (r: Option<Vec<CopyFile>>)
        ensures
            r is Some <==> spec_filters_valid(
                opt_patterns(self.accept),
                opt_patterns(self.exclude),
            ),
            r matches Some(ts) ==> ts@.map_values(|c: CopyFile| (c.source@, c.path@))
                == spec_selected(
                self.source@,
                self.destination@,
                opt_patterns(self.accept),
                opt_patterns(self.exclude),
                relative_paths@,
            ),
    {
        let mut out: Vec<CopyFile> = Vec::new();
        let mut i: usize = 0;
        if relative_paths.len() == 0 {
            // the filters must still be checked, so that an invalid
            // pattern is reported whether or not the walk found files
            match filter_allows(&self.accept, &self.exclude, &String::new()) {
                None => {
                    return None;
                },
                Some(_) => {},
            }
            proof {
                assert(out@.map_values(|c: CopyFile| (c.source@, c.path@)) =~= spec_selected(
                    self.source@,
                    self.destination@,
                    opt_patterns(self.accept),
                    opt_patterns(self.exclude),
                    relative_paths@,
                ));
            }
            return Some(out);
        }
        while i < relative_paths.len()
            invariant
                i <= relative_paths@.len(),
                out@.map_values(|c: CopyFile| (c.source@, c.path@)) == spec_selected(
                    self.source@,
                    self.destination@,
                    opt_patterns(self.accept),
                    opt_patterns(self.exclude),
                    relative_paths@.subrange(0, i as int),
                ),
                i > 0 ==> spec_filters_valid(opt_patterns(self.accept), opt_patterns(self.exclude)),
            decreases relative_paths@.len() - i,
        {
            let ghost pre = relative_paths@.subrange(0, i as int);
            let allowed = match filter_allows(&self.accept, &self.exclude, &relative_paths[i]) {
                None => {
                    return None;
                },
                Some(b) => b,
            };
            let ghost outpre = out@;
            if allowed {
                let from = join_path(self.source.as_str(), relative_paths[i].as_str());
                let to = join_path(self.destination.as_str(), relative_paths[i].as_str());
                out.push(CopyFile { source: from, path: to });
            }
            proof {
                let cur = relative_paths@.subrange(0, i as int + 1);
                assert(cur.drop_last() =~= pre);
                assert(cur.last() == relative_paths@[i as int]);
                if allowed {
                    assert(out@.map_values(|c: CopyFile| (c.source@, c.path@)) =~= outpre.map_values(
                        |c: CopyFile| (c.source@, c.path@),
                    ).push(
                        (
                            spec_join(self.source@, relative_paths@[i as int]@),
                            spec_join(self.destination@, relative_paths@[i as int]@),
                        ),
                    ));
                }
            }
            i += 1;
        }
        proof {
            assert(relative_paths@.subrange(0, relative_paths@.len() as int) =~= relative_paths@);
        }
        Some(out)
    }

    /// The registrations a copied directory emits: one uniquely-owned
    /// `CopyFile` resource per selected file, in order.
    pub fn to_registrations(files: Vec<CopyFile>) -> (r: Vec<Registration>)
        ensures
            r@.len() == files@.len(),
            forall|i: int|
                0 <= i < files@.len() ==> r@[i] == Registration::RequireUnique(
                    Resource::CopyFile(#[trigger] files@[i]),
                ),
    {
        let mut r: Vec<Registration> = Vec::new();
        let mut files = files;
        let ghost all = files@;
        while files.len() > 0
            invariant
                r@.len() + files@.len() == all.len(),
                forall|j: int|
                    0 <= j < files@.len() ==> files@[j] == all[r@.len() + j],
                forall|j: int|
                    0 <= j < r@.len() ==> r@[j] == Registration::RequireUnique(
                        Resource::CopyFile(#[trigger] all[j]),
                    ),
            decreases files@.len(),
        {
            let f = files.remove(0);
            r.push(Registration::RequireUnique(Resource::CopyFile(f)));
        }
        r
    }
}

/// Builds a `CopyDir`, collecting accept and exclude patterns.
pub struct CopyDirBuilder {
    pub source: String,
    pub destination: String,
    pub accept: Option<Vec<String>>,
    pub exclude: Option<Vec<String>>,
}

impl CopyDirBuilder {
    pub fn new(source: String, destination: String) -> (b: CopyDirBuilder)
        ensures
            b.source == source,
            b.destination == destination,
            b.accept is None,
            b.exclude is None,
    {
        CopyDirBuilder { source, destination, accept: None, exclude: None }
    }

    pub fn accept(self, patterns: Vec<String>) -> (b: CopyDirBuilder)
        ensures
            b.source == self.source,
            b.destination == self.destination,
            b.accept == Some(patterns),
            b.exclude == self.exclude,
    {
        CopyDirBuilder {
            source: self.source,
            destination: self.destination,
            accept: Some(patterns),
            exclude: self.exclude,
        }
    }

    pub fn exclude(self, patterns: Vec<String>) -> (b: CopyDirBuilder)
        ensures
            b.source == self.source,
            b.destination == self.destination,
            b.accept == self.accept,
            b.exclude == Some(patterns),
    {
        CopyDirBuilder {
            source: self.source,
            destination: self.destination,
            accept: self.accept,
            exclude: Some(patterns),
        }
    }

    pub fn build(self) -> (c: CopyDir)
        ensures
            c.source == self.source,
            c.destination == self.destination,
            c.accept == self.accept,
            c.exclude == self.exclude,
    {
        CopyDir {
            source: self.source,
            destination: self.destination,
            accept: self.accept,
            exclude: self.exclude,
        }
    }
}

} // verus!
