//! Path-pattern routing: which rule's transformer chain, if any, applies to
//! a changed path.  Rules are tried in declaration order and the first match
//! wins — a path is handled by at most one rule, never a union of several.

use vstd::prelude::*;

use crate::config::Configuration;
use crate::config::ConfigurationItem;
use crate::errors::Error;

verus! {

/// A path the matcher can take: the repository-relative paths the diff
/// engine reports.  Matching an empty or absolute path, or one that starts
/// with a `.` or `..` component, or one holding a NUL, does not return.
pub open spec fn repo_path_ok(p: Seq<char>) -> bool {
    &&& p.len() > 0
    &&& !p.contains('\0')
    &&& p[0] != '/'
    &&& !(p[0] == '.' && (p.len() == 1 || p[1] == '/' || (p[1] == '.' && (p.len() == 2 || p[2]
        == '/'))))
}

/// Whether libgit2 accepts `pattern` as a pathspec.
pub uninterp spec fn pathspec_ok(pattern: Seq<char>) -> bool;

/// The pattern a compiled pathspec was built from.
pub uninterp spec fn pathspec_pattern(ps: git2::Pathspec) -> Seq<char>;

/// Whether the glob-style pathspec `pattern` matches the repository-relative
/// `path`, under libgit2's default matching (glob semantics, case
/// sensitive).  The result depends on the pattern and the path alone.
pub uninterp spec fn pathspec_match(pattern: Seq<char>, path: Seq<char>) -> bool;

#[verifier::external_type_specification]
#[verifier::external_body]
pub struct ExPathspec(git2::Pathspec);

/// Relies on git2::Pathspec::new: compiles one pattern, and fails exactly
/// on the patterns libgit2 refuses — which, allocation aside, is only a
/// pattern holding a NUL, so that clause is stated outright.  A pattern
/// libgit2 parses to nothing (empty, or starting with `#`) compiles and
/// then matches every path.
#[verifier::external_body]
fn compile_pathspec(pattern: &String) -> (r: Option<git2::Pathspec>)
    ensures
        r is Some <==> pathspec_ok(pattern@),
        pattern@.contains('\0') ==> r is None,
        r matches Some(ps) ==> pathspec_pattern(ps) == pattern@,
{
    git2::Pathspec::new([pattern.as_str()]).ok()
}

/// Relies on git2::Pathspec::matches_path with default flags: a pure
/// function of the compiled pattern and the path.  The path must be a
/// repository-relative path the call can represent.  On Windows targets
/// git2 rewrites `\` to `/` in the path before matching: the name is read
/// for paths as libgit2 sees them, which agree across platforms for paths
/// free of backslashes.
#[verifier::external_body]
fn pathspec_matches(ps: &git2::Pathspec, path: &String) -> (r: bool)
    requires
        repo_path_ok(path@),
    ensures
        r == pathspec_match(pathspec_pattern(*ps), path@),
{
    ps.matches_path(std::path::Path::new(path.as_str()), git2::PathspecFlags::DEFAULT)
}

/// Where the scan of the rule list, from rule `i` on, ends up.
pub enum RouteOutcome {
    /// Rule `0` holds the first pattern that matches the path.
    Match(int),
    /// No rule's pattern matches the path.
    NoMatch,
    /// A pattern scanned before any match was not a valid pathspec.
    BadPattern,
}

pub open spec fn spec_route_from(
    items: Seq<ConfigurationItem>,
    path: Seq<char>,
    i: int,
) -> RouteOutcome
    decreases items.len() - i,
{
    if i < 0 || i >= items.len() {
        RouteOutcome::NoMatch
    } else if !pathspec_ok(items[i].pathspec@) {
        RouteOutcome::BadPattern
    } else if pathspec_match(items[i].pathspec@, path) {
        RouteOutcome::Match(i)
    } else {
        spec_route_from(items, path, i + 1)
    }
}

/// Which rule handles `path`: the first whose pattern matches, if any.
pub open spec fn spec_route(items: Seq<ConfigurationItem>, path: Seq<char>) -> RouteOutcome {
    spec_route_from(items, path, 0)
}

/// A matched route names a real rule: the first one, scanning from `i0`,
/// whose pattern is valid and matches; every rule before it is valid and
/// does not match.
pub proof fn lemma_route_from_match(
    items: Seq<ConfigurationItem>,
    path: Seq<char>,
    i0: int,
    i: int,
)
    requires
        0 <= i0,
        spec_route_from(items, path, i0) == RouteOutcome::Match(i),
    ensures
        i0 <= i < items.len(),
        pathspec_ok(items[i].pathspec@),
        pathspec_match(items[i].pathspec@, path),
        forall|j: int|
            i0 <= j < i ==> pathspec_ok(#[trigger] items[j].pathspec@) && !pathspec_match(
                items[j].pathspec@,
                path,
            ),
    decreases items.len() - i0,
{
    if i0 < items.len() && pathspec_ok(items[i0].pathspec@) && !pathspec_match(
        items[i0].pathspec@,
        path,
    ) {
        lemma_route_from_match(items, path, i0 + 1, i);
    }
}

/// Finds the first rule whose pattern matches `path`, scanning in
/// declaration order.  An invalid pattern reached before a match stops the
/// run with a backend error.
pub fn route(config: &Configuration, path: &String) -> (r: Result<Option<usize>, Error>)
    requires
        repo_path_ok(path@),
    ensures
        (match spec_route(config@, path@) {
            RouteOutcome::Match(i) => r matches Ok(k) && k matches Some(k) && k == i,
            RouteOutcome::NoMatch => r matches Ok(k) && k is None,
            RouteOutcome::BadPattern => r matches Err(e) && e is GitError,
        }),
{
    let items = config.items();
    let mut i: usize = 0;
    while i < items.len()
        invariant
            repo_path_ok(path@),
            i <= items@.len(),
            items@ == config@,
            spec_route(config@, path@) == spec_route_from(config@, path@, i as int),
        decreases items@.len() - i,
    {
        match compile_pathspec(&items[i].pathspec) {
            None => {
                return Err(Error::GitError(String::from_str("invalid pathspec pattern")));
            },
            Some(ps) => {
                if pathspec_matches(&ps, path) {
                    return Ok(Some(i));
                }
            },
        }
        i = i + 1;
    }
    Ok(None)
}

} // verus!
