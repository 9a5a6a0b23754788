use vstd::prelude::*;

verus! {

/// Whether `pattern` is a valid regular expression.
pub uninterp spec fn regex_valid(pattern: Seq<char>) -> bool;

/// Whether the regular expression `pattern` matches somewhere in
/// `text`.
pub uninterp spec fn regex_matches(pattern: Seq<char>, text: Seq<char>) -> bool;

/// Relies on `regex::Regex::new` and `Regex::is_match`: whether a
/// pattern compiles depends on the pattern alone, and whether it
/// matches depends on the pattern and the haystack alone.
#[verifier::external_body]
fn match_pattern(pattern: &String, text: &String) -> (r: Option<bool>)
    ensures
        r is Some <==> regex_valid(pattern@),
        r matches Some(b) ==> b == regex_matches(pattern@, text@),
{
    match regex::Regex::new(pattern.as_str()) {
        Ok(re) => Some(re.is_match(text.as_str())),
        Err(_) => None,
    }
}

/// Whether every pattern in the list is a valid regular expression.
pub open spec fn spec_all_valid(patterns: Seq<String>) -> bool {
    forall|i: int| 0 <= i < patterns.len() ==> regex_valid((#[trigger] patterns[i])@)
}

/// Whether some pattern in the list matches `path`.
pub open spec fn spec_any_match(patterns: Seq<String>, path: Seq<char>) -> bool {
    exists|i: int| 0 <= i < patterns.len() && regex_matches((#[trigger] patterns[i])@, path)
}

/// Whether some pattern matches `path`, or `None` when a pattern does
/// not compile.
fn any_match(patterns: &Vec<String>, path: &String) -> (r: Option<bool>)
    ensures
        r is Some <==> spec_all_valid(patterns@),
        r matches Some(b) ==> b == spec_any_match(patterns@, path@),
{
    let mut found = false;
    let mut i: usize = 0;
    while i < patterns.len()
        invariant
            i <= patterns@.len(),
            forall|j: int| 0 <= j < i ==> regex_valid((#[trigger] patterns@[j])@),
            found == exists|j: int|
                0 <= j < i && regex_matches((#[trigger] patterns@[j])@, path@),
        decreases patterns@.len() - i,
    {
        match match_pattern(&patterns[i], path) {
            None => {
                return None;
            },
            Some(b) => {
                if b {
                    found = true;
                    proof {
                        assert(regex_matches((patterns@[i as int])@, path@));
                    }
                }
            },
        }
        i += 1;
    }
    Some(found)
}

/// The option view of an optional pattern list.
pub open spec fn opt_patterns(o: Option<Vec<String>>) -> Option<Seq<String>> {
    match o {
        Some(v) => Some(v@),
        None => None,
    }
}

/// Whether the optional pattern lists are all valid.
pub open spec fn spec_filters_valid(
    accept: Option<Seq<String>>,
    exclude: Option<Seq<String>>,
) -> bool {
    (match accept {
        Some(inc) => spec_all_valid(inc),
        None => true,
    }) && (match exclude {
        Some(exc) => spec_all_valid(exc),
        None => true,
    })
}

/// The filter decision: with both lists, paths are allowed by default,
/// the exclude list denies, and the accept list overrides the
/// exclude list; with only an accept list, paths are denied unless
/// included; with only an exclude list, paths are allowed unless
/// excluded; with neither, every path is allowed.
pub open spec fn spec_filter_allows(
    accept: Option<Seq<String>>,
    exclude: Option<Seq<String>>,
    path: Seq<char>,
) -> bool {
    match (accept, exclude) {
        (Some(inc), Some(exc)) => spec_any_match(inc, path) || !spec_any_match(exc, path),
        (Some(inc), None) => spec_any_match(inc, path),
        (None, Some(exc)) => !spec_any_match(exc, path),
        (None, None) => true,
    }
}

/// Whether `path` passes the accept/exclude filters; `None` when a
/// pattern does not compile.  See `spec_filter_allows`.
pub fn filter_allows(
    accept: &Option<Vec<String>>,
    exclude: &Option<Vec<String>>,
    path: &String,
) -> (r: Option<bool>)
    ensures
        r is Some <==> spec_filters_valid(opt_patterns(*accept), opt_patterns(*exclude)),
        r matches Some(b) ==> b == spec_filter_allows(
            opt_patterns(*accept),
            opt_patterns(*exclude),
            path@,
        ),
{
    let inc = match accept {
        Some(pats) => match any_match(pats, path) {
            None => {
                return None;
            },
            Some(b) => Some(b),
        },
        None => None,
    };
    let exc = match exclude {
        Some(pats) => match any_match(pats, path) {
            None => {
                return None;
            },
            Some(b) => Some(b),
        },
        None => None,
    };
    match (inc, exc) {
        (Some(i), Some(e)) => Some(i || !e),
        (Some(i), None) => Some(i),
        (None, Some(e)) => Some(!e),
        (None, None) => Some(true),
    }
}

} // verus!
