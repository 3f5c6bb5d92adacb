//! The matcher of a file group: its patterns, each under the group's prefix,
//! compiled to one glob set.

use vstd::prelude::*;
use vstd::string::*;
use crate::fileset::{FileGroup, FileGroupStategy};
use crate::glob::{
    builder_add,
    builder_build,
    builder_new,
    builder_patterns,
    glob_matches,
    glob_set_builds,
    glob_set_matches,
    glob_set_patterns,
    glob_valid,
};
use crate::path::{path_text, separator};
use crate::task::{GroupPatterns, GroupPatternsView};

verus! {

/// A pattern under a prefix: the pattern itself where the prefix is empty,
/// else the prefix's text, a separator and the pattern.
pub open spec fn prefixed(prefix: Seq<Seq<char>>, pattern: Seq<char>) -> Seq<char> {
    if prefix.len() == 0 {
        pattern
    } else {
        path_text(prefix) + separator() + pattern
    }
}

/// The patterns of a group, each under the group's prefix.
pub open spec fn full_patterns(p: GroupPatternsView) -> Seq<Seq<char>> {
    Seq::new(p.items.len(), |i: int| prefixed(p.prefix, p.items[i].0))
}

/// Whether the patterns of a group compile: each is a glob, and the set of
/// them builds.
pub open spec fn compiles(p: GroupPatternsView) -> bool {
    &&& forall|i: int| 0 <= i < p.items.len() ==> glob_valid(#[trigger] full_patterns(p)[i])
    &&& glob_set_builds(full_patterns(p))
}

/// The first pattern at or after `from` that matches a path.
pub open spec fn first_match(full: Seq<Seq<char>>, path: Seq<char>, from: int) -> Option<int>
    decreases full.len() - from,
{
    if from < 0 || from >= full.len() {
        None
    } else if glob_matches(full[from], path) {
        Some(from)
    } else {
        first_match(full, path, from + 1)
    }
}

/// The strategy for a path: that of the first item whose pattern matches it;
/// none where no pattern matches.
pub open spec fn strategy_for(p: GroupPatternsView, path: Seq<char>) -> Option<FileGroupStategy> {
    match first_match(full_patterns(p), path, 0) {
        Some(k) => Some(p.items[k].1),
        None => None,
    }
}

/// The first match is the least place that matches.
pub proof fn lemma_first_match(full: Seq<Seq<char>>, path: Seq<char>, from: int, k: int)
    requires
        0 <= from <= k < full.len(),
        glob_matches(full[k], path),
        forall|j: int| from <= j < k ==> !glob_matches(full[j], path),
    ensures
        first_match(full, path, from) == Some(k),
    decreases k - from,
{
    if from < k {
        lemma_first_match(full, path, from + 1, k);
    }
}

/// Where nothing matches there is no first match.
pub proof fn lemma_no_match(full: Seq<Seq<char>>, path: Seq<char>, from: int)
    requires
        0 <= from,
        forall|j: int| from <= j < full.len() ==> !glob_matches(full[j], path),
    ensures
        first_match(full, path, from) is None,
    decreases full.len() - from,
{
    if from < full.len() {
        lemma_no_match(full, path, from + 1);
    }
}

/// The patterns of a group together with the glob set compiled from them.
pub struct GroupMatcher {
    patterns: GroupPatterns,
    globs: globset::GlobSet,
}

impl View for GroupMatcher {
    type V = GroupPatternsView;

    closed spec fn view(&self) -> GroupPatternsView {
        self.patterns@
    }
}

impl GroupMatcher {
    /// The glob set holds the group's patterns, each under the prefix.
    #[verifier::type_invariant]
    closed spec fn wf(&self) -> bool {
        glob_set_patterns(self.globs) == full_patterns(self.patterns@)
    }

    /// Compiles the patterns of a group. Fails where a pattern is no glob
    /// or the set does not build.
    pub fn compile(patterns: GroupPatterns) -> (r: Option<GroupMatcher>)
        ensures
            r is Some <==> compiles(patterns@),
            r matches Some(m) ==> m@ == patterns@,
    {
        let ghost full = full_patterns(patterns@);
        let mut builder = builder_new();
        let prefix_text = patterns.prefix.to_text();
        let bare = patterns.prefix.is_empty();
        let mut i: usize = 0;
        while i < patterns.items.len()
            invariant
                i <= patterns.items.len(),
                full == full_patterns(patterns@),
                prefix_text@ == path_text(patterns@.prefix),
                bare == (patterns@.prefix.len() == 0),
                builder_patterns(builder) == full.take(i as int),
                forall|j: int| 0 <= j < i ==> glob_valid(#[trigger] full[j]),
            decreases patterns.items.len() - i,
        {
            let text = if bare {
                patterns.items[i].pattern.clone()
            } else {
                let mut text = prefix_text.clone();
                proof {
                    reveal_strlit("/");
                }
                assert("/"@ =~= separator());
                text.append("/");
                text.append(patterns.items[i].pattern.as_str());
                text
            };
            assert(text@ == full[i as int]);
            match builder_add(&mut builder, text.as_str()) {
                Ok(()) => {},
                Err(_) => {
                    return None;
                },
            }
            assert(full.take(i + 1) =~= full.take(i as int).push(full[i as int]));
            i += 1;
        }
        assert(full.take(patterns.items.len() as int) =~= full);
        match builder_build(&builder) {
            Ok(globs) => Some(GroupMatcher { patterns, globs }),
            Err(_) => None,
        }
    }

    /// The group.
    pub fn group(&self) -> (r: FileGroup)
        ensures
            r == self@.group,
    {
        self.patterns.group
    }

    /// The patterns that were compiled.
    pub fn patterns(&self) -> (r: &GroupPatterns)
        ensures
            r@ == self@,
    {
        &self.patterns
    }

    /// The strategy for a path below the root: that of the first item whose
    /// pattern matches the path.
    pub fn strategy(&self, relative: &str) -> (r: Option<FileGroupStategy>)
        ensures
            r == strategy_for(self@, relative@),
    {
        proof {
            use_type_invariant(self);
        }
        let ghost full = full_patterns(self@);
        let hits = glob_set_matches(&self.globs, relative);
        if hits.len() == 0 {
            proof {
                assert forall|j: int| 0 <= j < full.len() implies !glob_matches(
                    full[j],
                    relative@,
                ) by {
                    if glob_matches(full[j], relative@) {
                        assert(hits@.contains(j as usize));
                    }
                }
                lemma_no_match(full, relative@, 0);
            }
            None
        } else {
            let k = hits[0];
            proof {
                assert(hits@.contains(k));
                assert forall|j: int| 0 <= j < k implies !glob_matches(full[j], relative@) by {
                    if glob_matches(full[j], relative@) {
                        assert(hits@.contains(j as usize));
                        let m = choose|m: int| 0 <= m < hits@.len() && hits@[m] == j as usize;
                        if m > 0 {
                            assert(hits@[0] < hits@[m]);
                        }
                    }
                }
                lemma_first_match(full, relative@, 0, k as int);
            }
            Some(self.patterns.items[k].strategy)
        }
    }
}

} // verus!
