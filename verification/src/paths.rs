use vstd::prelude::*;

verus! {

// Paths are plain strings of `/`-separated components.  The functions
// here define the library's path model: where it matters the contracts
// state the exact character-level result.

/// The index of the last occurrence of `c` in `s`, or -1.
pub open spec fn last_index_of(s: Seq<char>, c: char) -> int
    decreases s.len(),
{
    if s.len() == 0 {
        -1
    } else if s.last() == c {
        s.len() - 1
    } else {
        last_index_of(s.drop_last(), c)
    }
}

pub proof fn lemma_last_index_of(s: Seq<char>, c: char)
    ensures
        -1 <= last_index_of(s, c) < s.len(),
        last_index_of(s, c) >= 0 ==> s[last_index_of(s, c)] == c,
        forall|j: int| last_index_of(s, c) < j < s.len() ==> s[j] != c,
    decreases s.len(),
{
    if s.len() > 0 && s.last() != c {
        lemma_last_index_of(s.drop_last(), c);
        assert forall|j: int| last_index_of(s, c) < j < s.len() implies s[j] != c by {
            if j < s.len() - 1 {
                assert(s.drop_last()[j] == s[j]);
            }
        }
    }
}

/// The characterization of `last_index_of` pins it down: the position
/// of `c` after which `c` never occurs again.
pub proof fn lemma_last_index_unique(s: Seq<char>, c: char, k: int)
    requires
        0 <= k < s.len(),
        s[k] == c,
        forall|j: int| k < j < s.len() ==> s[j] != c,
    ensures
        last_index_of(s, c) == k,
{
    lemma_last_index_of(s, c);
    let li = last_index_of(s, c);
    if li < k {
        assert(s[k] != c);
    }
    if li > k {
        assert(s[li] == c);
    }
}

/// A string without `c` has no last occurrence of it.
pub proof fn lemma_last_index_none(s: Seq<char>, c: char)
    requires
        forall|j: int| 0 <= j < s.len() ==> s[j] != c,
    ensures
        last_index_of(s, c) == -1,
{
    lemma_last_index_of(s, c);
    let li = last_index_of(s, c);
    if li >= 0 {
        assert(s[li] == c);
    }
}

/// The last occurrence of `c` in a concatenation: in the second part
/// if it occurs there, else in the first.
pub proof fn lemma_last_index_concat(a: Seq<char>, b: Seq<char>, c: char)
    ensures
        last_index_of(a + b, c) == (if last_index_of(b, c) >= 0 {
            a.len() + last_index_of(b, c)
        } else {
            last_index_of(a, c)
        }),
    decreases b.len(),
{
    let s = a + b;
    if b.len() == 0 {
        assert(s =~= a);
    } else {
        assert(s.last() == b.last());
        if s.last() == c {
        } else {
            assert(s.drop_last() =~= a + b.drop_last());
            lemma_last_index_concat(a, b.drop_last(), c);
        }
    }
}

/// Finds the last occurrence of `c` in `s`.
fn find_last(s: &str, c: char) -> (r: Option<usize>)
    ensures
        match r {
            Some(i) => i as int == last_index_of(s@, c),
            None => last_index_of(s@, c) == -1,
        },
{
    let len = s.unicode_len();
    let mut best: Option<usize> = None;
    let mut k: usize = 0;
    while k < len
        invariant
            k <= len,
            len == s@.len(),
            match best {
                Some(i) => i as int == last_index_of(s@.subrange(0, k as int), c),
                None => last_index_of(s@.subrange(0, k as int), c) == -1,
            },
        decreases len - k,
    {
        let ghost pre = s@.subrange(0, k as int);
        let ch = s.get_char(k);
        proof {
            let cur = s@.subrange(0, k as int + 1);
            assert(cur.drop_last() =~= pre);
            assert(cur.last() == s@[k as int]);
        }
        if ch == c {
            best = Some(k);
        }
        k += 1;
    }
    proof {
        assert(s@.subrange(0, len as int) =~= s@);
    }
    best
}

/// The parent of a path: `None` for the empty path and for "/";
/// otherwise everything before the last separator ("" when there is
/// none, "/" when the separator is leading).
pub open spec fn spec_parent(s: Seq<char>) -> Option<Seq<char>> {
    let i = last_index_of(s, '/');
    if s.len() == 0 {
        None
    } else if i == -1 {
        Some(Seq::<char>::empty())
    } else if i == 0 {
        if s.len() == 1 {
            None
        } else {
            Some(seq!['/'])
        }
    } else {
        Some(s.subrange(0, i))
    }
}

/// A parent path is strictly shorter than the path itself.
pub proof fn lemma_parent_shorter(s: Seq<char>)
    ensures
        spec_parent(s) matches Some(q) ==> q.len() < s.len(),
{
    lemma_last_index_of(s, '/');
}

/// The parent directory of `path`; see `spec_parent`.
pub fn parent_of(path: &str) -> (r: Option<String>)
    ensures
        r is Some <==> spec_parent(path@) is Some,
        r matches Some(p) ==> spec_parent(path@) matches Some(q) && p@ == q,
{
    let len = path.unicode_len();
    if len == 0 {
        return None;
    }
    match find_last(path, '/') {
        None => Some(String::new()),
        Some(i) => {
            if i == 0 {
                if len == 1 {
                    None
                } else {
                    let r = path.substring_char(0, 1);
                    proof {
                        lemma_last_index_of(path@, '/');
                        assert(path@.subrange(0, 1) =~= seq!['/']);
                    }
                    Some(r.to_owned())
                }
            } else {
                proof {
                    lemma_last_index_of(path@, '/');
                }
                Some(path.substring_char(0, i).to_owned())
            }
        },
    }
}

/// Joining `a` and `b`: `b` when `b` is absolute or `a` is empty, else
/// the two glued with exactly one separator.
pub open spec fn spec_join(a: Seq<char>, b: Seq<char>) -> Seq<char> {
    if b.len() > 0 && b[0] == '/' {
        b
    } else if a.len() == 0 {
        b
    } else if a.last() == '/' {
        a + b
    } else {
        a + seq!['/'] + b
    }
}

/// Joins two path strings; see `spec_join`.
pub fn join_path(a: &str, b: &str) -> (r: String)
    ensures
        r@ == spec_join(a@, b@),
{
    let blen = b.unicode_len();
    if blen > 0 && b.get_char(0) == '/' {
        return b.to_owned();
    }
    let alen = a.unicode_len();
    if alen == 0 {
        return b.to_owned();
    }
    let mut r = a.to_owned();
    if a.get_char(alen - 1) == '/' {
        r.append(b);
        r
    } else {
        r.append("/");
        r.append(b);
        proof {
            reveal_strlit("/");
            assert(r@ =~= a@ + seq!['/'] + b@);
        }
        r
    }
}

/// Appending the hash extension: a path with a file name gains the
/// suffix ".blake3"; the empty path and paths ending in a separator
/// stay unchanged.
pub open spec fn spec_append_ext(s: Seq<char>) -> Seq<char> {
    if s.len() == 0 || s.last() == '/' {
        s
    } else {
        s + ".blake3"@
    }
}

/// Appends the hash extension to `path`; see `spec_append_ext`.
pub fn append_ext_hash(path: &str) -> (r: String)
    ensures
        r@ == spec_append_ext(path@),
{
    let len = path.unicode_len();
    if len == 0 || path.get_char(len - 1) == '/' {
        path.to_owned()
    } else {
        let mut r = path.to_owned();
        r.append(".blake3");
        r
    }
}

/// Dropping the last extension of the file name: everything from the
/// last dot on is removed, unless that dot starts the file name or
/// lies before it.
pub open spec fn spec_strip_ext(s: Seq<char>) -> Seq<char> {
    let ls = last_index_of(s, '/');
    let ld = last_index_of(s, '.');
    if ld > ls + 1 {
        s.subrange(0, ld)
    } else {
        s
    }
}

/// Removes the file name's last extension; see `spec_strip_ext`.
pub fn strip_extension(path: &str) -> (r: String)
    ensures
        r@ == spec_strip_ext(path@),
{
    let len = path.unicode_len();
    proof {
        lemma_last_index_of(path@, '/');
        lemma_last_index_of(path@, '.');
    }
    let ls = find_last(path, '/');
    let ld = find_last(path, '.');
    match ld {
        Some(d) => {
            let cut = match ls {
                Some(sidx) => d > sidx + 1,
                None => d > 0,
            };
            if cut {
                path.substring_char(0, d).to_owned()
            } else {
                path.to_owned()
            }
        },
        None => path.to_owned(),
    }
}

/// Whether the file name of `s` carries the hash extension ".blake3".
pub open spec fn spec_has_hash_ext(s: Seq<char>) -> bool {
    s.len() >= 8 && s.subrange(s.len() - 7, s.len() as int) == ".blake3"@ && s[s.len() - 8] != '/'
}

/// Whether `path` names a recorded hash file; see `spec_has_hash_ext`.
pub fn has_hash_ext(path: &str) -> (r: bool)
    ensures
        r == spec_has_hash_ext(path@),
{
    let len = path.unicode_len();
    if len < 8 {
        return false;
    }
    if path.get_char(len - 8) == '/' {
        return false;
    }
    let tail = path.substring_char(len - 7, len);
    let eq = tail.to_owned().eq(&String::from_str(".blake3"));
    proof {
        if tail@ == ".blake3"@ {
            assert(path@.subrange(path@.len() - 7, path@.len() as int) == ".blake3"@);
        }
    }
    eq
}

/// Whether `s` lies strictly below the directory `dir`, and if so the
/// remainder after the separator.
pub open spec fn spec_strip_prefix_dir(s: Seq<char>, dir: Seq<char>) -> Option<Seq<char>> {
    if s.len() > dir.len() + 1 && s.subrange(0, dir.len() as int) == dir && s[dir.len() as int]
        == '/' {
        Some(s.subrange(dir.len() as int + 1, s.len() as int))
    } else {
        None
    }
}

/// Strips the leading directory `dir` and its separator from `s`; see
/// `spec_strip_prefix_dir`.
pub fn strip_prefix_dir(s: &str, dir: &str) -> (r: Option<String>)
    ensures
        r is Some <==> spec_strip_prefix_dir(s@, dir@) is Some,
        r matches Some(p) ==> spec_strip_prefix_dir(s@, dir@) matches Some(q) && p@ == q,
{
    let slen = s.unicode_len();
    let dlen = dir.unicode_len();
    if slen <= dlen {
        return None;
    }
    if slen - dlen <= 1 {
        return None;
    }
    if s.get_char(dlen) != '/' {
        return None;
    }
    let head = s.substring_char(0, dlen);
    if head.to_owned().eq(&dir.to_owned()) {
        Some(s.substring_char(dlen + 1, slen).to_owned())
    } else {
        None
    }
}

} // verus!
