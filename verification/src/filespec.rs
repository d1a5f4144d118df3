//! Pathspecs and filespecs: which files a request selects.
//!
//! Pattern matching follows the version-control pathspec grammar and is
//! performed by the `git2` library behind trusted wrappers; the compiled
//! pathspec is carried next to the patterns it was compiled from.

use vstd::prelude::*;
use vstd::string::StringSliceAdditionalSpecFns;
use vstd::utf8::encode_utf8;

use crate::ids::PseudoCommitId;

verus! {

/// The pathspec type of the `git2` library, carried opaquely.
#[verifier::external_type_specification]
#[verifier::external_body]
pub struct ExPathspec(git2::Pathspec);

/// The patterns a compiled pathspec was built from.
pub uninterp spec fn pathspec_patterns(ps: git2::Pathspec) -> Seq<Seq<char>>;

/// Whether the patterns compile: a function of the patterns alone.
pub uninterp spec fn pathspec_valid(patterns: Seq<Seq<char>>) -> bool;

/// Whether a path matches the patterns, case-insensitively: a function of
/// the patterns and the path alone.
pub uninterp spec fn pathspec_matches(patterns: Seq<Seq<char>>, path: Seq<char>) -> bool;

/// A path the matcher accepts: nonempty and project-relative, with no
/// leading `.` or `..` component and no NUL byte. On other paths the
/// underlying library refuses the conversion and the matching call would
/// panic.
pub open spec fn plain_repo_path(b: Seq<u8>) -> bool {
    &&& b.len() > 0
    &&& b[0] != 0x2fu8
    &&& !(b[0] == 0x2eu8 && (b.len() == 1 || b[1] == 0x2fu8 || (b[1] == 0x2eu8 && (b.len() == 2
        || b[2] == 0x2fu8))))
    &&& forall|i: int| 0 <= i < b.len() ==> b[i] != 0u8
}

/// Decide `plain_repo_path`.
pub fn is_plain_repo_path(path: &str) -> (r: bool)
    ensures
        r == plain_repo_path(path.spec_bytes()),
{
    let b = path.as_bytes();
    let n = b.len();
    if n == 0 {
        return false;
    }
    if b[0] == 0x2f {
        return false;
    }
    if b[0] == 0x2e && (n == 1 || b[1] == 0x2f || (b[1] == 0x2e && (n == 2 || b[2] == 0x2f))) {
        return false;
    }
    let mut i: usize = 0;
    while i < n
        invariant
            n == b@.len(),
            b@ == path.spec_bytes(),
            i <= n,
            forall|j: int| 0 <= j < i ==> b@[j] != 0u8,
        decreases n - i,
    {
        if b[i] == 0 {
            return false;
        }
        i = i + 1;
    }
    true
}

/// A set of patterns in the version-control pathspec grammar, together
/// with its compiled form.
///
/// Carries the role of the underlying library's pathspec, wrapped so the
/// patterns it was compiled from stay visible to specifications.
pub struct PathMatcher {
    patterns: Vec<String>,
    inner: git2::Pathspec,
}

/// Relies on `git2::Pathspec::new`: compiling succeeds or fails by the
/// patterns alone, and the compiled value holds exactly those patterns.
#[verifier::external_body]
fn pathspec_compile(patterns: &Vec<String>) -> (r: Option<git2::Pathspec>)
    ensures
        r is Some <==> pathspec_valid(patterns@.map_values(|s: String| s@)),
        r matches Some(ps) ==> pathspec_patterns(ps) == patterns@.map_values(|s: String| s@),
{
    match git2::Pathspec::new(patterns.iter()) {
        Ok(ps) => Some(ps),
        Err(_) => None,
    }
}

/// Relies on `git2::Pathspec::matches_path` with the IGNORE_CASE flag: the
/// answer depends on the compiled patterns and the path alone. The call
/// converts the path for the underlying library first and panics when the
/// path is empty, absolute, or led by a dot component, so those shapes
/// are excluded here.
#[verifier::external_body]
fn pathspec_match_inner(ps: &git2::Pathspec, path: &str) -> (r: bool)
    requires
        plain_repo_path(path.spec_bytes()),
    ensures
        r == pathspec_matches(pathspec_patterns(*ps), path@),
{
    ps.matches_path(std::path::Path::new(path), git2::PathspecFlags::IGNORE_CASE)
}

/// Relies on `git2::Pathspec::new` accepting an empty pattern list.
#[verifier::external_body]
fn pathspec_compile_empty() -> (r: git2::Pathspec)
    ensures
        pathspec_patterns(r) == Seq::<Seq<char>>::empty(),
{
    git2::Pathspec::new(Vec::<String>::new().iter()).unwrap()
}

impl PathMatcher {
    /// The patterns this pathspec was built from.
    pub closed spec fn view_patterns(self) -> Seq<Seq<char>> {
        self.patterns@.map_values(|s: String| s@)
    }

    /// The compiled form holds exactly the stored patterns.
    pub closed spec fn wf(self) -> bool {
        pathspec_patterns(self.inner) == self.view_patterns()
    }

    /// Compile a pattern list, or nothing when the patterns are rejected.
    pub fn try_from_vec(patterns: Vec<String>) -> (r: Option<PathMatcher>)
        ensures
            r is Some <==> pathspec_valid(patterns@.map_values(|s: String| s@)),
            r matches Some(p) ==> p.wf() && p.view_patterns() == patterns@.map_values(
                |s: String| s@,
            ),
    {
        match pathspec_compile(&patterns) {
            Some(inner) => Some(PathMatcher { patterns, inner }),
            None => None,
        }
    }

    /// The pathspec with no patterns, which matches every path.
    pub fn empty() -> (r: PathMatcher)
        ensures
            r.wf(),
            r.view_patterns().len() == 0,
    {
        let inner = pathspec_compile_empty();
        let r = PathMatcher { patterns: Vec::new(), inner };
        proof {
            assert(r.view_patterns() =~= Seq::<Seq<char>>::empty());
        }
        r
    }

    /// The stored patterns.
    pub fn patterns(&self) -> (r: &Vec<String>)
        ensures
            r@.map_values(|s: String| s@) == self.view_patterns(),
    {
        &self.patterns
    }

    /// Combine two pathspecs into one holding both pattern lists, or
    /// nothing when the combination is rejected.
    pub fn merge(&self, other: &PathMatcher) -> (r: Option<PathMatcher>)
        ensures
            r is Some <==> pathspec_valid(self.view_patterns() + other.view_patterns()),
            r matches Some(p) ==> p.wf() && p.view_patterns() == self.view_patterns()
                + other.view_patterns(),
    {
        let mut patterns: Vec<String> = Vec::new();
        let n1 = self.patterns.len();
        let mut i: usize = 0;
        while i < n1
            invariant
                n1 == self.patterns@.len(),
                i <= n1,
                patterns@ =~= self.patterns@.take(i as int),
            decreases n1 - i,
        {
            patterns.push(self.patterns[i].clone());
            proof {
                assert(self.patterns@.take(i + 1) =~= self.patterns@.take(i as int).push(
                    self.patterns@[i as int],
                ));
            }
            i = i + 1;
        }
        let n2 = other.patterns.len();
        let mut j: usize = 0;
        proof {
            assert(self.patterns@.take(n1 as int) =~= self.patterns@);
        }
        while j < n2
            invariant
                n2 == other.patterns@.len(),
                j <= n2,
                patterns@ =~= self.patterns@ + other.patterns@.take(j as int),
            decreases n2 - j,
        {
            patterns.push(other.patterns[j].clone());
            proof {
                assert(other.patterns@.take(j + 1) =~= other.patterns@.take(j as int).push(
                    other.patterns@[j as int],
                ));
                assert(self.patterns@ + other.patterns@.take(j as int).push(
                    other.patterns@[j as int],
                ) =~= (self.patterns@ + other.patterns@.take(j as int)).push(
                    other.patterns@[j as int],
                ));
            }
            j = j + 1;
        }
        proof {
            assert(other.patterns@.take(n2 as int) =~= other.patterns@);
        }
        proof {
            assert(patterns@.map_values(|s: String| s@) =~= self.view_patterns()
                + other.view_patterns());
        }
        match PathMatcher::try_from_vec(patterns) {
            Some(p) => {
                proof {
                    assert(p.view_patterns() =~= self.view_patterns() + other.view_patterns());
                }
                Some(p)
            },
            None => None,
        }
    }

    /// Whether a path matches, always case-insensitively.
    pub fn matches(&self, path: &str) -> (r: bool)
        requires
            self.wf(),
            plain_repo_path(path.spec_bytes()),
        ensures
            r == pathspec_matches(self.view_patterns(), path@),
    {
        pathspec_match_inner(&self.inner, path)
    }
}


/// Whether the listing keeps a key: the path has the accepted shape and,
/// when any patterns are given, matches them.
pub open spec fn key_kept(patterns: Seq<Seq<char>>, k: crate::files::FileKey) -> bool {
    plain_repo_path(encode_utf8(k.filename@)) && (patterns.len() == 0 || pathspec_matches(
        patterns,
        k.filename@,
    ))
}

/// The keys the listing keeps, in order.
pub open spec fn kept_keys(
    ks: Seq<crate::files::FileKey>,
    patterns: Seq<Seq<char>>,
) -> Seq<crate::files::FileKey>
    decreases ks.len(),
{
    if ks.len() == 0 {
        Seq::empty()
    } else {
        let rest = kept_keys(ks.drop_last(), patterns);
        if key_kept(patterns, ks.last()) {
            rest.push(ks.last())
        } else {
            rest
        }
    }
}

/// Keep exactly the keys whose filename the pathspec accepts; with no
/// patterns every properly shaped path is kept.
pub fn filter_keys(keys: Vec<crate::files::FileKey>, ps: &PathMatcher) -> (r: Vec<
    crate::files::FileKey,
>)
    requires
        ps.wf(),
    ensures
        r@ == kept_keys(keys@, ps.view_patterns()),
        forall|i: int|
            0 <= i < r@.len() ==> key_kept(ps.view_patterns(), #[trigger] r@[i]),
{
    let n = keys.len();
    let no_patterns = ps.patterns().len() == 0;
    proof {
        assert(no_patterns == (ps.view_patterns().len() == 0));
    }
    let mut out: Vec<crate::files::FileKey> = Vec::new();
    let mut i: usize = 0;
    proof {
        assert(keys@.take(0) =~= Seq::<crate::files::FileKey>::empty());
    }
    while i < n
        invariant
            n == keys@.len(),
            ps.wf(),
            no_patterns == (ps.view_patterns().len() == 0),
            i <= n,
            out@ == kept_keys(keys@.take(i as int), ps.view_patterns()),
            forall|j: int|
                0 <= j < out@.len() ==> key_kept(ps.view_patterns(), #[trigger] out@[j]),
        decreases n - i,
    {
        proof {
            assert(keys@.take(i + 1) =~= keys@.take(i as int).push(keys@[i as int]));
            assert(keys@.take(i + 1).drop_last() =~= keys@.take(i as int));
        }
        let k = &keys[i];
        let keep = is_plain_repo_path(k.filename.as_str()) && (no_patterns || ps.matches(
            k.filename.as_str(),
        ));
        if keep {
            let ghost before = out@;
            out.push(k.duplicate());
            proof {
                assert(out@.drop_last() =~= before);
                assert(crate::files::key_matches(out@.last(), keys@[i as int]));
                assert(out@.last().filename@ == keys@[i as int].filename@);
                assert(out@.last() == out@.last());
            }
        }
        i = i + 1;
    }
    proof {
        assert(keys@.take(n as int) =~= keys@);
    }
    out
}

/// A collection of file keys to work on: any file that matches the
/// pathspec and is reachable from at least one of the commits.
pub struct Filespec {
    pub commits: Vec<PseudoCommitId>,
    pub pathspec: PathMatcher,
}

impl Filespec {
    pub fn new(commits: Vec<PseudoCommitId>, pathspec: PathMatcher) -> (r: Filespec)
        ensures
            r.commits == commits,
            r.pathspec == pathspec,
    {
        Filespec { commits, pathspec }
    }
}

} // verus!
