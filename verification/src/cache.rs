use vstd::prelude::*;

use crate::paths::{
    append_ext_hash, join_path, spec_append_ext, spec_join, spec_strip_ext, spec_strip_prefix_dir,
    strip_extension, strip_prefix_dir,
};

verus! {

// ---------------------------------------------------------------------------
// Content hashing
// ---------------------------------------------------------------------------

/// The hexadecimal BLAKE3 digest of a byte string.
pub uninterp spec fn blake3_hex(bytes: Seq<u8>) -> Seq<char>;

/// Relies on `blake3::hash` and `Hash`'s display form: the digest is a
/// function of the bytes alone, shown as 64 lowercase hex characters.
#[verifier::external_body]
pub fn content_hash(bytes: &Vec<u8>) -> (r: String)
    ensures
        r@ == blake3_hex(bytes@),
        spec_is_hex_digest(r@),
{
    blake3::hash(bytes.as_slice()).to_string()
}

/// Whether `c` is a lowercase hexadecimal digit.
pub open spec fn is_hex_char(c: char) -> bool {
    ('0' <= c && c <= '9') || ('a' <= c && c <= 'f')
}

/// Whether `s` has the shape of a recorded digest: exactly 64
/// lowercase hexadecimal characters.
pub open spec fn spec_is_hex_digest(s: Seq<char>) -> bool {
    s.len() == 64 && forall|i: int| 0 <= i < s.len() ==> is_hex_char(#[trigger] s[i])
}

/// Checks the shape of a recorded digest; see `spec_is_hex_digest`.
pub fn is_hex_digest(s: &str) -> (r: bool)
    ensures
        r == spec_is_hex_digest(s@),
{
    let len = s.unicode_len();
    if len != 64 {
        return false;
    }
    let mut i: usize = 0;
    while i < len
        invariant
            i <= len,
            len == s@.len(),
            forall|j: int| 0 <= j < i ==> is_hex_char(#[trigger] s@[j]),
        decreases len - i,
    {
        let c = s.get_char(i);
        if !(('0' <= c && c <= '9') || ('a' <= c && c <= 'f')) {
            return false;
        }
        i += 1;
    }
    true
}

/// The dependency-hash mapping recorded by a key-hash list, later
/// entries winning.
pub open spec fn hash_map_of(t: Seq<(String, String)>) -> Map<Seq<char>, Seq<char>>
    decreases t.len(),
{
    if t.len() == 0 {
        Map::empty()
    } else {
        hash_map_of(t.drop_last()).insert(t.last().0@, t.last().1@)
    }
}

proof fn lemma_hash_dom(t: Seq<(String, String)>, k: Seq<char>)
    ensures
        hash_map_of(t).dom().contains(k) <==> exists|i: int|
            0 <= i < t.len() && (#[trigger] t[i]).0@ == k,
    decreases t.len(),
{
    if t.len() > 0 {
        lemma_hash_dom(t.drop_last(), k);
        if hash_map_of(t).dom().contains(k) && t.last().0@ != k {
            let i = choose|i: int| 0 <= i < t.len() - 1 && (#[trigger] t.drop_last()[i]).0@ == k;
            assert((t[i]).0@ == k);
        }
        if exists|i: int| 0 <= i < t.len() && (#[trigger] t[i]).0@ == k {
            let i = choose|i: int| 0 <= i < t.len() && (#[trigger] t[i]).0@ == k;
            if i < t.len() - 1 && t.last().0@ != k {
                assert((t.drop_last()[i]).0@ == k);
            }
        }
    }
}

// ---------------------------------------------------------------------------
// The cache interface and its degenerate implementation
// ---------------------------------------------------------------------------

/// The cache subsystem boundary: a record per target key, holding the
/// target's content hash and the hash of every dependency at the time
/// the target was last generated.  Records are only ever replaced
/// whole, never mutated in place.  `hash` computes the content hash of
/// the file at `filepath`.
pub trait Cache<H> {
    fn set(&mut self, key: &str, hash: &H, deps: &Vec<(String, H)>);

    fn get(&self, key: &str) -> Option<(H, Vec<(String, H)>)>;

    fn hash(&mut self, filepath: &str) -> H;
}

/// The cache that caches nothing: every target reads as never cached
/// and all hashes are equal, which forces full regeneration every run.
pub struct NoCache {}

impl NoCache {
    pub fn new() -> (c: NoCache) {
        NoCache {}
    }
}

impl Cache<u64> for NoCache {
    /// Recording is a no-op.
    fn set(&mut self, _key: &str, _hash: &u64, _deps: &Vec<(String, u64)>)
        ensures
            *final(self) == *old(self),
    {
    }

    /// Every target reads as never cached.
    fn get(&self, _key: &str) -> (r: Option<(u64, Vec<(String, u64)>)>)
        ensures
            r is None,
    {
        None
    }

    /// Every hash is equal.
    fn hash(&mut self, _filepath: &str) -> (r: u64)
        ensures
            r == 0,
            *final(self) == *old(self),
    {
        0
    }
}

// ---------------------------------------------------------------------------
// An in-memory record store
// ---------------------------------------------------------------------------

/// The pairwise view of a dependency-hash list.
pub open spec fn dep_views(s: Seq<(String, String)>) -> Seq<(Seq<char>, Seq<char>)> {
    s.map_values(|p: (String, String)| (p.0@, p.1@))
}

/// An in-memory cache of records, the last record written for a key
/// winning.  It stores hashes in their hexadecimal display form.
pub struct MemCache {
    entries: Vec<(String, String, Vec<(String, String)>)>,
}

/// The records held by an entry list, later entries winning.
pub open spec fn records_of(s: Seq<(String, String, Vec<(String, String)>)>) -> Map<
    Seq<char>,
    (Seq<char>, Seq<(Seq<char>, Seq<char>)>),
>
    decreases s.len(),
{
    if s.len() == 0 {
        Map::empty()
    } else {
        records_of(s.drop_last()).insert(s.last().0@, (s.last().1@, dep_views(s.last().2@)))
    }
}

proof fn lemma_records_dom(s: Seq<(String, String, Vec<(String, String)>)>, k: Seq<char>)
    ensures
        records_of(s).dom().contains(k) <==> exists|i: int|
            0 <= i < s.len() && (#[trigger] s[i]).0@ == k,
    decreases s.len(),
{
    if s.len() > 0 {
        lemma_records_dom(s.drop_last(), k);
        if records_of(s).dom().contains(k) && s.last().0@ != k {
            let i = choose|i: int| 0 <= i < s.len() - 1 && (#[trigger] s.drop_last()[i]).0@ == k;
            assert((s[i]).0@ == k);
        }
        if exists|i: int| 0 <= i < s.len() && (#[trigger] s[i]).0@ == k {
            let i = choose|i: int| 0 <= i < s.len() && (#[trigger] s[i]).0@ == k;
            if i < s.len() - 1 && s.last().0@ != k {
                assert((s.drop_last()[i]).0@ == k);
            }
        }
    }
}

/// The last entry for a key decides its record.
proof fn lemma_records_last(s: Seq<(String, String, Vec<(String, String)>)>, j: int)
    requires
        0 <= j < s.len(),
        forall|l: int| j < l < s.len() ==> (#[trigger] s[l]).0@ != s[j].0@,
    ensures
        records_of(s).dom().contains(s[j].0@),
        records_of(s)[s[j].0@] == (s[j].1@, dep_views(s[j].2@)),
    decreases s.len(),
{
    if j == s.len() - 1 {
    } else {
        assert(s.last().0@ != s[j].0@);
        lemma_records_last(s.drop_last(), j);
        assert((s.drop_last()[j]) == s[j]);
    }
}

impl MemCache {
    /// The recorded targets: each key maps to the hash and the
    /// dependency-hash pairs it was last set with.
    pub closed spec fn records(&self) -> Map<Seq<char>, (Seq<char>, Seq<(Seq<char>, Seq<char>)>)> {
        records_of(self.entries@)
    }

    pub fn new() -> (c: MemCache)
        ensures
            c.records() == Map::<Seq<char>, (Seq<char>, Seq<(Seq<char>, Seq<char>)>)>::empty(),
    {
        let c = MemCache { entries: Vec::new() };
        proof {
            assert(c.entries@.len() == 0);
        }
        c
    }

    /// Records `hash` and `deps` for `key`, replacing any prior record
    /// for that key.
    pub fn set(&mut self, key: &str, hash: &String, deps: &Vec<(String, String)>)
        ensures
            final(self).records() == old(self).records().insert(
                key@,
                (hash@, dep_views(deps@)),
            ),
    {
        let mut copied: Vec<(String, String)> = Vec::new();
        let mut i: usize = 0;
        while i < deps.len()
            invariant
                i <= deps@.len(),
                copied@.len() == i,
                forall|j: int|
                    0 <= j < i ==> (#[trigger] copied@[j]).0@ == deps@[j].0@ && copied@[j].1@
                        == deps@[j].1@,
            decreases deps@.len() - i,
        {
            let d = (deps[i].0.clone(), deps[i].1.clone());
            copied.push(d);
            i += 1;
        }
        let entry = (key.to_owned(), hash.clone(), copied);
        self.entries.push(entry);
        proof {
            assert(self.entries@.drop_last() =~= old(self).entries@);
            assert(dep_views(self.entries@.last().2@) =~= dep_views(deps@));
        }
    }

    /// Returns the last recorded hash of `key` and the dependency
    /// hashes recorded with it, exactly as they were set, or `None`
    /// for a key never recorded.
    pub fn get(&self, key: &str) -> (r: Option<(String, Vec<(String, String)>)>)
        ensures
            r is Some <==> self.records().dom().contains(key@),
            r matches Some(p) ==> self.records()[key@] == (p.0@, dep_views(p.1@)),
    {
        let n = self.entries.len();
        let mut i: usize = n;
        while i > 0
            invariant
                i <= n,
                n == self.entries@.len(),
                forall|l: int| i <= l < n ==> (#[trigger] self.entries@[l]).0@ != key@,
            decreases i,
        {
            i -= 1;
            if self.entries[i].0.eq(&key.to_owned()) {
                let mut copied: Vec<(String, String)> = Vec::new();
                let mut j: usize = 0;
                while j < self.entries[i].2.len()
                    invariant
                        0 <= i < self.entries@.len(),
                        j <= self.entries@[i as int].2@.len(),
                        copied@.len() == j,
                        forall|l: int|
                            0 <= l < j ==> (#[trigger] copied@[l]).0@ == self.entries@[i as
                                int].2@[l].0@ && copied@[l].1@ == self.entries@[i as int].2@[l].1@,
                    decreases self.entries@[i as int].2@.len() - j,
                {
                    let d = (self.entries[i].2[j].0.clone(), self.entries[i].2[j].1.clone());
                    copied.push(d);
                    j += 1;
                }
                let hash = self.entries[i].1.clone();
                proof {
                    lemma_records_last(self.entries@, i as int);
                    assert(dep_views(copied@) =~= dep_views(self.entries@[i as int].2@));
                }
                return Some((hash, copied));
            }
        }
        proof {
            lemma_records_dom(self.entries@, key@);
        }
        None
    }
}

/// Cache round-trip: recording a hash and a dependency map under a key
/// and then reading that key back yields exactly the recorded pair,
/// whatever was recorded before.
pub proof fn lemma_cache_round_trip(
    records: Map<Seq<char>, (Seq<char>, Seq<(Seq<char>, Seq<char>)>)>,
    key: Seq<char>,
    hash: Seq<char>,
    deps: Seq<(Seq<char>, Seq<char>)>,
)
    ensures
        records.insert(key, (hash, deps)).dom().contains(key),
        records.insert(key, (hash, deps))[key] == (hash, deps),
{
}

// ---------------------------------------------------------------------------
// The on-disk cache layout
// ---------------------------------------------------------------------------

/// The layout of a cache directory: under the cache's base path, each
/// target key owns a directory with a "target.blake3" hash record and
/// an "inputs" tree holding one ".blake3" record per dependency.  The
/// functions here compute and invert those locations; the reading and
/// writing of the files themselves is left to the caller.
pub struct FsCache {
    path: String,
}

impl FsCache {
    /// The base path of the cache directory.
    pub closed spec fn base(&self) -> Seq<char> {
        self.path@
    }

    pub fn new(path: String) -> (c: FsCache)
        ensures
            c.base() == path@,
    {
        FsCache { path }
    }

    /// Where the target hash of `key` is recorded.
    pub fn target_location(&self, key: &str) -> (r: String)
        ensures
            r@ == spec_append_ext(spec_join(spec_join(self.base(), key@), "target"@)),
    {
        let dir = join_path(self.path.as_str(), key);
        let file = join_path(dir.as_str(), "target");
        append_ext_hash(file.as_str())
    }

    /// The directory holding the dependency records of `key`.
    pub fn dep_dir(&self, key: &str) -> (r: String)
        ensures
            r@ == spec_join(spec_join(self.base(), key@), "inputs"@),
    {
        let dir = join_path(self.path.as_str(), key);
        join_path(dir.as_str(), "inputs")
    }

    /// Where the hash of dependency `dep` of `key` is recorded.
    pub fn dep_location(&self, key: &str, dep: &str) -> (r: String)
        ensures
            r@ == spec_append_ext(
                spec_join(spec_join(spec_join(self.base(), key@), "inputs"@), dep@),
            ),
    {
        let dir = self.dep_dir(key);
        let file = join_path(dir.as_str(), dep);
        append_ext_hash(file.as_str())
    }

    /// Recovers a dependency path (still carrying its hash extension)
    /// from the location of its record, or `None` when the location
    /// does not lie under the dependency directory of `key`.
    pub fn get_dep_from_location(&self, key: &str, location: &str) -> (r: Option<String>)
        ensures
            ({
                let dd = spec_join(spec_join(self.base(), key@), "inputs"@);
                &&& (r is Some <==> spec_strip_prefix_dir(location@, dd) is Some)
                &&& (r matches Some(p) ==> spec_strip_prefix_dir(location@, dd) matches Some(q)
                    && p@ == q)
            }),
    {
        let dir = self.dep_dir(key);
        strip_prefix_dir(location, dir.as_str())
    }

    /// The files that recording `hash` and `deps` under `key` writes:
    /// first the target record, then one record per dependency, each
    /// given as a location and the content to store there.
    pub fn set_plan(&self, key: &str, hash: &String, deps: &Vec<(String, String)>) -> (r: Vec<
        (String, String),
    >)
        ensures
            r@.len() == 1 + deps@.len(),
            r@[0].0@ == spec_append_ext(spec_join(spec_join(self.base(), key@), "target"@)),
            r@[0].1@ == hash@,
            forall|i: int|
                1 <= i < r@.len() ==> (#[trigger] r@[i]).0@ == spec_append_ext(
                    spec_join(
                        spec_join(spec_join(self.base(), key@), "inputs"@),
                        deps@[i - 1].0@,
                    ),
                ) && r@[i].1@ == deps@[i - 1].1@,
    {
        let mut r: Vec<(String, String)> = Vec::new();
        let target = self.target_location(key);
        r.push((target, hash.clone()));
        let mut i: usize = 0;
        while i < deps.len()
            invariant
                i <= deps@.len(),
                r@.len() == 1 + i,
                r@[0].0@ == spec_append_ext(spec_join(spec_join(self.base(), key@), "target"@)),
                r@[0].1@ == hash@,
                forall|j: int|
                    1 <= j < r@.len() ==> (#[trigger] r@[j]).0@ == spec_append_ext(
                        spec_join(
                            spec_join(spec_join(self.base(), key@), "inputs"@),
                            deps@[j - 1].0@,
                        ),
                    ) && r@[j].1@ == deps@[j - 1].1@,
            decreases deps@.len() - i,
        {
            let loc = self.dep_location(key, deps[i].0.as_str());
            r.push((loc, deps[i].1.clone()));
            i += 1;
        }
        r
    }

    /// Assembles the record of `key` from what was read back from
    /// disk: the content of the target record and the location and
    /// content of every dependency record found under the dependency
    /// directory.  Returns `None` when the target record is missing or
    /// malformed, when a dependency record does not lie under the
    /// dependency directory, or when one is not a hash.
    pub fn assemble_record(
        &self,
        key: &str,
        target_content: Option<String>,
        dep_files: &Vec<(String, String)>,
    ) -> (r: Option<(String, Vec<(String, String)>)>)
        ensures
            ({
                let dd = spec_join(spec_join(self.base(), key@), "inputs"@);
                &&& (r is Some ==> target_content is Some && spec_is_hex_digest(
                    target_content->Some_0@,
                ) && r->Some_0.0@ == target_content->Some_0@)
                &&& (r is Some ==> r->Some_0.1@.len() == dep_files@.len() && forall|i: int|
                    0 <= i < dep_files@.len() ==> spec_strip_prefix_dir(
                        (#[trigger] dep_files@[i]).0@,
                        dd,
                    ) is Some && r->Some_0.1@[i].0@ == spec_strip_ext(
                        spec_strip_prefix_dir(dep_files@[i].0@, dd)->Some_0,
                    ) && r->Some_0.1@[i].1@ == dep_files@[i].1@ && spec_is_hex_digest(
                        dep_files@[i].1@,
                    ))
                &&& (r is None ==> target_content is None || !spec_is_hex_digest(
                    target_content->Some_0@,
                ) || exists|i: int|
                    0 <= i < dep_files@.len() && (spec_strip_prefix_dir(
                        (#[trigger] dep_files@[i]).0@,
                        dd,
                    ) is None || !spec_is_hex_digest(dep_files@[i].1@)))
            }),
    {
        let hash = match target_content {
            None => {
                return None;
            },
            Some(h) => h,
        };
        if !is_hex_digest(hash.as_str()) {
            return None;
        }
        let mut deps: Vec<(String, String)> = Vec::new();
        let mut i: usize = 0;
        let ghost dd = spec_join(spec_join(self.base(), key@), "inputs"@);
        while i < dep_files.len()
            invariant
                i <= dep_files@.len(),
                deps@.len() == i,
                dd == spec_join(spec_join(self.base(), key@), "inputs"@),
                forall|j: int|
                    0 <= j < i ==> spec_strip_prefix_dir((#[trigger] dep_files@[j]).0@, dd)
                        is Some && deps@[j].0@ == spec_strip_ext(
                        spec_strip_prefix_dir(dep_files@[j].0@, dd)->Some_0,
                    ) && deps@[j].1@ == dep_files@[j].1@ && spec_is_hex_digest(dep_files@[j].1@),
            decreases dep_files@.len() - i,
        {
            if !is_hex_digest(dep_files[i].1.as_str()) {
                return None;
            }
            match self.get_dep_from_location(key, dep_files[i].0.as_str()) {
                None => {
                    return None;
                },
                Some(with_ext) => {
                    let dep = strip_extension(with_ext.as_str());
                    deps.push((dep, dep_files[i].1.clone()));
                },
            }
            i += 1;
        }
        Some((hash, deps))
    }
}

/// On-disk record round-trip: the location that `set_plan` writes a
/// dependency's hash to reads back, through `get_dep_from_location`
/// and `strip_extension`, as exactly that dependency — for any
/// dependency path that is relative, non-empty and not a directory.
/// Together with `set_plan` and `assemble_record`'s contracts this
/// says that a record written by `set` is returned unchanged by `get`.
pub proof fn lemma_dep_location_round_trip(base: Seq<char>, key: Seq<char>, dep: Seq<char>)
    requires
        dep.len() > 0,
        dep[0] != '/',
        dep[dep.len() - 1] != '/',
    ensures
        ({
            let dd = spec_join(spec_join(base, key), "inputs"@);
            let loc = spec_append_ext(spec_join(dd, dep));
            &&& spec_strip_prefix_dir(loc, dd) is Some
            &&& spec_strip_ext(spec_strip_prefix_dir(loc, dd)->Some_0) == dep
        }),
{
    reveal_strlit("inputs");
    reveal_strlit(".blake3");
    let ext = ".blake3"@;
    let dd = spec_join(spec_join(base, key), "inputs"@);
    // the dependency directory ends in a file name, never a separator
    assert(dd.len() > 0 && dd.last() == 's');
    // joining appends exactly one separator
    let joined = spec_join(dd, dep);
    assert(joined =~= dd + seq!['/'] + dep);
    // the path ends in the dependency's last character, so the hash
    // extension is appended
    assert(joined.last() == dep.last());
    let loc = spec_append_ext(joined);
    assert(loc =~= dd + seq!['/'] + dep + ext);
    // the location lies under the dependency directory
    assert(loc.subrange(0, dd.len() as int) =~= dd);
    assert(loc[dd.len() as int] == '/');
    let rest = spec_strip_prefix_dir(loc, dd)->Some_0;
    assert(rest =~= dep + ext);
    // the appended extension owns the last dot and holds no separator
    assert(forall|j: int| 0 <= j < ext.len() ==> ext[j] != '/');
    assert(ext[0] == '.' && (forall|j: int| 0 < j < ext.len() ==> ext[j] != '.'));
    crate::paths::lemma_last_index_unique(ext, '.', 0);
    crate::paths::lemma_last_index_none(ext, '/');
    crate::paths::lemma_last_index_concat(dep, ext, '.');
    crate::paths::lemma_last_index_concat(dep, ext, '/');
    assert(crate::paths::last_index_of(rest, '.') == dep.len());
    // the dependency does not end in a separator, so its last
    // separator lies strictly before its last character
    crate::paths::lemma_last_index_of(dep, '/');
    let ls = crate::paths::last_index_of(dep, '/');
    if ls == dep.len() - 1 {
        assert(dep[ls] == '/');
    }
    assert(crate::paths::last_index_of(rest, '/') == ls);
    assert(ls + 1 < dep.len());
    assert(rest.subrange(0, dep.len() as int) =~= dep);
}

// ---------------------------------------------------------------------------
// The rebuild decision
// ---------------------------------------------------------------------------

/// What the build loop should do with one target.
#[derive(Debug, PartialEq, Eq, Structural)]
pub enum TargetDecision {
    /// The target must be (re)generated.
    Rebuild,
    /// The target is up to date; generation is skipped.
    Skip,
    /// The target has no generation rule but exists: hash and record
    /// it passively so it can anchor other targets' dependencies.
    CacheOnly,
    /// The target has no generation rule and does not exist: the
    /// build fails.
    MissingNoRule,
}

/// When a target with a rule must be rebuilt: its output is missing,
/// it has no cache record, the set of its dependency paths changed, or
/// some dependency's hash changed.
pub open spec fn spec_needs_rebuild(
    target_exists: bool,
    cached: Option<(Seq<char>, Map<Seq<char>, Seq<char>>)>,
    current: Map<Seq<char>, Seq<char>>,
) -> bool {
    !target_exists || match cached {
        None => true,
        Some(c) => c.1.dom() != current.dom() || (exists|d: Seq<char>|
            current.dom().contains(d) && c.1.dom().contains(d) && c.1[d] != #[trigger] current[d]),
    }
}

/// The record view of an optional (hash, dependency list) pair.
pub open spec fn spec_cached_view(cached: Option<(String, Vec<(String, String)>)>) -> Option<
    (Seq<char>, Map<Seq<char>, Seq<char>>),
> {
    match cached {
        Some(p) => Some((p.0@, hash_map_of(p.1@))),
        None => None,
    }
}

/// Decides whether a target needs regeneration; see
/// `spec_needs_rebuild`.  `cached` is the target's cache record, if
/// any; `current` maps each of the target's current dependency paths
/// to its current hash (later duplicates winning).
#[verifier::loop_isolation(false)]
pub fn needs_rebuild(
    target_exists: bool,
    cached: &Option<(String, Vec<(String, String)>)>,
    current: &Vec<(String, String)>,
) -> (r: bool)
    ensures
        r == spec_needs_rebuild(target_exists, spec_cached_view(*cached), hash_map_of(current@)),
{
    if !target_exists {
        return true;
    }
    let (_cached_hash, cached_deps) = match cached {
        None => {
            return true;
        },
        Some(p) => (&p.0, &p.1),
    };
    // the set of dependency paths must agree in both directions
    let mut i: usize = 0;
    while i < current.len()
        invariant
            i <= current@.len(),
            forall|j: int|
                0 <= j < i ==> hash_map_of(cached_deps@).dom().contains(
                    (#[trigger] current@[j]).0@,
                ),
        decreases current@.len() - i,
    {
        match lookup(cached_deps, current[i].0.as_str()) {
            None => {
                proof {
                    lemma_hash_dom(current@, current@[i as int].0@);
                    assert(hash_map_of(current@).dom().contains(current@[i as int].0@));
                    assert(!hash_map_of(cached_deps@).dom().contains(current@[i as int].0@));
                    assert(hash_map_of(cached_deps@).dom() != hash_map_of(current@).dom());
                }
                return true;
            },
            Some(_) => {},
        }
        i += 1;
    }
    let mut i: usize = 0;
    while i < cached_deps.len()
        invariant
            i <= cached_deps@.len(),
            forall|j: int|
                0 <= j < i ==> hash_map_of(current@).dom().contains(
                    (#[trigger] cached_deps@[j]).0@,
                ),
            forall|j: int|
                0 <= j < current@.len() ==> hash_map_of(cached_deps@).dom().contains(
                    (#[trigger] current@[j]).0@,
                ),
        decreases cached_deps@.len() - i,
    {
        match lookup(current, cached_deps[i].0.as_str()) {
            None => {
                proof {
                    lemma_hash_dom(cached_deps@, cached_deps@[i as int].0@);
                    assert(hash_map_of(cached_deps@).dom().contains(cached_deps@[i as int].0@));
                    assert(!hash_map_of(current@).dom().contains(cached_deps@[i as int].0@));
                    assert(hash_map_of(cached_deps@).dom() != hash_map_of(current@).dom());
                }
                return true;
            },
            Some(_) => {},
        }
        i += 1;
    }
    proof {
        assert(hash_map_of(cached_deps@).dom() =~= hash_map_of(current@).dom()) by {
            assert forall|k: Seq<char>|
                hash_map_of(cached_deps@).dom().contains(k) == hash_map_of(current@).dom().contains(
                    k,
                ) by {
                lemma_hash_dom(cached_deps@, k);
                lemma_hash_dom(current@, k);
                if hash_map_of(cached_deps@).dom().contains(k) {
                    let j = choose|j: int|
                        0 <= j < cached_deps@.len() && (#[trigger] cached_deps@[j]).0@ == k;
                }
                if hash_map_of(current@).dom().contains(k) {
                    let j = choose|j: int|
                        0 <= j < current@.len() && (#[trigger] current@[j]).0@ == k;
                }
            }
        }
    }
    // every current dependency's hash must match the recorded one
    let mut i: usize = 0;
    while i < current.len()
        invariant
            i <= current@.len(),
            hash_map_of(cached_deps@).dom() == hash_map_of(current@).dom(),
            forall|j: int|
                0 <= j < current@.len() ==> hash_map_of(cached_deps@).dom().contains(
                    (#[trigger] current@[j]).0@,
                ),
            forall|k: Seq<char>|
                (exists|j: int| 0 <= j < i && (#[trigger] current@[j]).0@ == k) ==> #[trigger] hash_map_of(
                    current@,
                ).dom().contains(k) && hash_map_of(cached_deps@)[k] == hash_map_of(current@)[k],
        decreases current@.len() - i,
    {
        let cur_hash = match lookup(current, current[i].0.as_str()) {
            Some(h) => h,
            None => {
                proof {
                    lemma_hash_dom(current@, current@[i as int].0@);
                }
                proof {
                    assert(false);
                }
                return true;
            },
        };
        match lookup(cached_deps, current[i].0.as_str()) {
            Some(rec_hash) => {
                if !rec_hash.eq(&cur_hash) {
                    proof {
                        let ghost k = current@[i as int].0@;
                        lemma_hash_dom(current@, k);
                        assert(hash_map_of(current@).dom().contains(k)
                            && hash_map_of(cached_deps@).dom().contains(k)
                            && hash_map_of(cached_deps@)[k] != hash_map_of(current@)[k]);
                    }
                    return true;
                }
            },
            None => {
                proof {
                    assert(false);
                }
                return true;
            },
        }
        i += 1;
    }
    proof {
        assert forall|d: Seq<char>|
            hash_map_of(current@).dom().contains(d) implies hash_map_of(cached_deps@)[d] == hash_map_of(
            current@,
        )[d] by {
            lemma_hash_dom(current@, d);
            let j = choose|j: int| 0 <= j < current@.len() && (#[trigger] current@[j]).0@ == d;
        }
    }
    false
}

/// Looks a key up in a key-hash list, the last entry winning.
fn lookup(entries: &Vec<(String, String)>, key: &str) -> (r: Option<String>)
    ensures
        r is Some <==> hash_map_of(entries@).dom().contains(key@),
        r matches Some(h) ==> hash_map_of(entries@).dom().contains(key@) && h@ == hash_map_of(
            entries@,
        )[key@],
{
    let n = entries.len();
    let mut i: usize = n;
    while i > 0
        invariant
            i <= n,
            n == entries@.len(),
            forall|l: int| i <= l < n ==> (#[trigger] entries@[l]).0@ != key@,
        decreases i,
    {
        i -= 1;
        if entries[i].0.eq(&key.to_owned()) {
            proof {
                lemma_last_pair(entries@, i as int);
            }
            return Some(entries[i].1.clone());
        }
    }
    proof {
        lemma_hash_dom(entries@, key@);
    }
    None
}

/// The last entry for a key decides its mapping.
proof fn lemma_last_pair(s: Seq<(String, String)>, j: int)
    requires
        0 <= j < s.len(),
        forall|l: int| j < l < s.len() ==> (#[trigger] s[l]).0@ != s[j].0@,
    ensures
        hash_map_of(s).dom().contains(s[j].0@),
        hash_map_of(s)[s[j].0@] == s[j].1@,
    decreases s.len(),
{
    if j == s.len() - 1 {
    } else {
        assert(s.last().0@ != s[j].0@);
        lemma_last_pair(s.drop_last(), j);
        assert((s.drop_last()[j]) == s[j]);
    }
}

/// Decides what the build loop does with one target: targets with a
/// rule are rebuilt or skipped by `spec_needs_rebuild`; targets
/// without a rule are cached passively when they exist and fail the
/// build when they do not.
pub open spec fn spec_decide_target(
    has_rule: bool,
    target_exists: bool,
    cached: Option<(Seq<char>, Map<Seq<char>, Seq<char>>)>,
    current: Map<Seq<char>, Seq<char>>,
) -> TargetDecision {
    if has_rule {
        if spec_needs_rebuild(target_exists, cached, current) {
            TargetDecision::Rebuild
        } else {
            TargetDecision::Skip
        }
    } else {
        if target_exists {
            TargetDecision::CacheOnly
        } else {
            TargetDecision::MissingNoRule
        }
    }
}

/// The rebuild decision policy, one target at a time; see
/// `spec_decide_target`.
pub fn decide_target(
    has_rule: bool,
    target_exists: bool,
    cached: &Option<(String, Vec<(String, String)>)>,
    current: &Vec<(String, String)>,
) -> (r: TargetDecision)
    ensures
        r == spec_decide_target(
            has_rule,
            target_exists,
            spec_cached_view(*cached),
            hash_map_of(current@),
        ),
{
    if has_rule {
        if needs_rebuild(target_exists, cached, current) {
            TargetDecision::Rebuild
        } else {
            TargetDecision::Skip
        }
    } else {
        if target_exists {
            TargetDecision::CacheOnly
        } else {
            TargetDecision::MissingNoRule
        }
    }
}

/// Incremental skip: a target that exists, has a record, and whose
/// dependency set and every dependency hash are unchanged is reported
/// up to date; changing any dependency's hash forces a rebuild.
pub proof fn lemma_incremental_rebuild(
    hash: Seq<char>,
    deps: Map<Seq<char>, Seq<char>>,
    current: Map<Seq<char>, Seq<char>>,
)
    ensures
        deps == current ==> spec_decide_target(true, true, Some((hash, deps)), current)
            == TargetDecision::Skip,
        (deps.dom() == current.dom() && (exists|d: Seq<char>|
            current.dom().contains(d) && deps.dom().contains(d) && deps[d] != #[trigger] current[d]))
            ==> spec_decide_target(true, true, Some((hash, deps)), current)
            == TargetDecision::Rebuild,
{
}

} // verus!
