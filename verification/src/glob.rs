//! Glob sets: the patterns of a file group compiled to one matcher.
//!
//! Compiling and matching are the work of the `globset` crate. What is said
//! of them here is taken on trust, not proved. Each result is a function of
//! the texts handed in, on the platform the library is compiled for, and is
//! known here by a name only.

use vstd::prelude::*;

verus! {

#[verifier::external_type_specification]
#[verifier::external_body]
pub struct ExGlobSet(globset::GlobSet);

#[verifier::external_type_specification]
#[verifier::external_body]
pub struct ExGlobSetBuilder(globset::GlobSetBuilder);

#[verifier::external_type_specification]
#[verifier::external_body]
pub struct ExGlobError(globset::Error);

/// Whether `globset::Glob::new` accepts a pattern.
pub uninterp spec fn glob_valid(pattern: Seq<char>) -> bool;

/// Whether `globset::GlobSetBuilder::build` succeeds on these patterns, each
/// of them accepted by `Glob::new`.
pub uninterp spec fn glob_set_builds(patterns: Seq<Seq<char>>) -> bool;

/// Whether the glob of a pattern matches a path, as `globset` has it.
pub uninterp spec fn glob_matches(pattern: Seq<char>, path: Seq<char>) -> bool;

/// The patterns added to a builder, in the order they were added.
pub uninterp spec fn builder_patterns(b: globset::GlobSetBuilder) -> Seq<Seq<char>>;

/// The patterns of a glob set, each at its sequence number.
pub uninterp spec fn glob_set_patterns(s: globset::GlobSet) -> Seq<Seq<char>>;

/// `globset::GlobSetBuilder::new`: a builder without patterns.
#[verifier::external_body]
pub(crate) fn builder_new() -> (b: globset::GlobSetBuilder)
    ensures
        builder_patterns(b) == Seq::<Seq<char>>::empty(),
{
    globset::GlobSetBuilder::new()
}

/// `globset::Glob::new` and `globset::GlobSetBuilder::add`: parses a pattern
/// and, where it is a glob, adds it to the builder as its last pattern. A
/// pattern that is no glob leaves the builder as it was.
#[verifier::external_body]
pub(crate) fn builder_add(b: &mut globset::GlobSetBuilder, pattern: &str) -> (r: Result<
    (),
    globset::Error,
>)
    ensures
        r is Ok <==> glob_valid(pattern@),
        r is Ok ==> builder_patterns(*final(b)) == builder_patterns(*old(b)).push(pattern@),
        r is Err ==> builder_patterns(*final(b)) == builder_patterns(*old(b)),
{
    let glob = globset::Glob::new(pattern)?;
    b.add(glob);
    Ok(())
}

/// `globset::GlobSetBuilder::build`: the glob set of the builder's patterns,
/// each under the sequence number at which it was added.
#[verifier::external_body]
pub(crate) fn builder_build(b: &globset::GlobSetBuilder) -> (r: Result<
    globset::GlobSet,
    globset::Error,
>)
    ensures
        r is Ok <==> glob_set_builds(builder_patterns(*b)),
        r matches Ok(s) ==> glob_set_patterns(s) == builder_patterns(*b),
{
    b.build()
}

/// `globset::GlobSet::matches`: the sequence numbers of the patterns that
/// match the path, each once, in ascending order.
#[verifier::external_body]
pub(crate) fn glob_set_matches(s: &globset::GlobSet, path: &str) -> (r: Vec<usize>)
    ensures
        forall|i: int, j: int| 0 <= i < j < r@.len() ==> r@[i] < r@[j],
        forall|i: int| 0 <= i < r@.len() ==> (#[trigger] r@[i]) < glob_set_patterns(*s).len(),
        forall|k: int|
            0 <= k < glob_set_patterns(*s).len() ==> (r@.contains(k as usize) <==> glob_matches(
                #[trigger] glob_set_patterns(*s)[k],
                path@,
            )),
{
    s.matches(path)
}

} // verus!
