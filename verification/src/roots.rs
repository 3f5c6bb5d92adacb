//! Root coalescing: the directories that have to be walked to find the files
//! of a set of file groups.
//!
//! Every file group has a root directory. File groups whose roots nest share
//! one walk: the set of roots holds, of all the groups' roots, only those
//! that lie under no other, and each group is attached to the root that
//! covers its own, with the path from that root down to its own as its
//! prefix.

use vstd::prelude::*;
use crate::fileset::FileGroup;
use crate::order::strict_total;
use crate::path::{lemma_part_order, part_lt, path_before, FsPath};

verus! {

/// One root and the groups attached to it, each with its prefix.
#[derive(Debug, PartialEq, Eq)]
pub struct RootEntry {
    pub root: FsPath,
    pub groups: Vec<(FileGroup, FsPath)>,
}

/// Whether a list of attachments holds `g` with prefix `p`.
pub open spec fn pairs_have(gs: Seq<(FileGroup, FsPath)>, g: FileGroup, p: Seq<Seq<char>>) -> bool {
    exists|k: int| 0 <= k < gs.len() && (#[trigger] gs[k]).0 == g && gs[k].1@ == p
}

/// Whether one of the first `n` entries has root `r`.
pub open spec fn have_root(rs: Seq<RootEntry>, n: int, r: Seq<Seq<char>>) -> bool {
    exists|i: int| 0 <= i < n && i < rs.len() && (#[trigger] rs[i]).root@ == r
}

/// Whether one of the first `n` entries has root `r` and holds `g` with
/// prefix `p`.
pub open spec fn have_triple(
    rs: Seq<RootEntry>,
    n: int,
    r: Seq<Seq<char>>,
    g: FileGroup,
    p: Seq<Seq<char>>,
) -> bool {
    exists|i: int|
        0 <= i < n && i < rs.len() && (#[trigger] rs[i]).root@ == r && pairs_have(
            rs[i].groups@,
            g,
            p,
        )
}

/// Whether a list of paths holds a path.
pub open spec fn lists(paths: Seq<FsPath>, r: Seq<Seq<char>>) -> bool {
    exists|a: int| 0 <= a < paths.len() && (#[trigger] paths[a])@ == r
}

/// Whether no two entries have the same root.
pub open spec fn distinct_roots(rs: Seq<RootEntry>) -> bool {
    forall|i: int, j: int|
        0 <= i < j < rs.len() ==> (#[trigger] rs[i]).root@ != (#[trigger] rs[j]).root@
}

/// An attachment: a root, a group attached to it, and the group's prefix
/// below the root.
pub type Attachment = (Seq<Seq<char>>, FileGroup, Seq<Seq<char>>);

/// What a set of roots with attachments must be: no root lies under
/// another, a group is attached once at most, and only to a root of the set.
pub open spec fn coalesced(roots: Set<Seq<Seq<char>>>, attached: Set<Attachment>) -> bool {
    &&& forall|a: Seq<Seq<char>>, b: Seq<Seq<char>>|
        roots.contains(a) && roots.contains(b) && a.is_prefix_of(b) ==> a == b
    &&& forall|s: Attachment, t: Attachment|
        attached.contains(s) && attached.contains(t) && s.1 == t.1 ==> s == t
    &&& forall|t: Attachment| attached.contains(t) ==> roots.contains(t.0)
}

/// The roots after attaching a group with root `root`: as before where a
/// root covers `root`; else `root` comes in and the roots under it go.
pub open spec fn roots_after(roots: Set<Seq<Seq<char>>>, root: Seq<Seq<char>>) -> Set<
    Seq<Seq<char>>,
> {
    if exists|c: Seq<Seq<char>>| roots.contains(c) && c.is_prefix_of(root) {
        roots
    } else {
        Set::new(|r: Seq<Seq<char>>| (roots.contains(r) && !root.is_prefix_of(r)) || r == root)
    }
}

/// The attachments after attaching `group` with root `root`. The group
/// leaves where it was attached before. Where a root covers `root`, the
/// group is attached to it with what is left of `root` below it. Else the
/// group is attached to `root` itself with the empty prefix, and the groups
/// of the roots under `root` move to `root`, their prefixes lengthened by
/// the way from `root` down to their old root.
pub open spec fn attached_after(
    roots: Set<Seq<Seq<char>>>,
    attached: Set<Attachment>,
    group: FileGroup,
    root: Seq<Seq<char>>,
) -> Set<Attachment> {
    if exists|c: Seq<Seq<char>>| roots.contains(c) && c.is_prefix_of(root) {
        Set::new(
            |t: Attachment|
                (attached.contains(t) && t.1 != group) || (t.1 == group && roots.contains(t.0)
                    && t.0.is_prefix_of(root) && t.2 == root.skip(t.0.len() as int)),
        )
    } else {
        Set::new(
            |t: Attachment|
                (attached.contains(t) && t.1 != group && !root.is_prefix_of(t.0)) || (t.0 == root
                    && t.1 != group && exists|r: Seq<Seq<char>>, p: Seq<Seq<char>>|
                    #[trigger] attached.contains((r, t.1, p)) && root.is_prefix_of(r) && t.2
                        == r.skip(root.len() as int) + p) || t == (
                    root,
                    group,
                    Seq::<Seq<char>>::empty(),
                ),
        )
    }
}

/// Attaching a group keeps a coalesced set coalesced, and keeps for every
/// group that was attached the path that its root and prefix make.
pub proof fn lemma_attach_coalesced(
    roots: Set<Seq<Seq<char>>>,
    attached: Set<Attachment>,
    group: FileGroup,
    root: Seq<Seq<char>>,
)
    requires
        coalesced(roots, attached),
    ensures
        coalesced(roots_after(roots, root), attached_after(roots, attached, group, root)),
        forall|t: Attachment|
            attached_after(roots, attached, group, root).contains(t) && t.1 == group ==> t.0
                + t.2 == root,
        forall|s: Attachment|
            attached.contains(s) && s.1 != group ==> exists|t: Attachment|
                #[trigger] attached_after(roots, attached, group, root).contains(t) && t.1 == s.1
                    && t.0 + t.2 == s.0 + s.2,
        exists|t: Attachment|
            #[trigger] attached_after(roots, attached, group, root).contains(t) && t.1 == group,
{
    let roots2 = roots_after(roots, root);
    let attached2 = attached_after(roots, attached, group, root);
    if exists|c: Seq<Seq<char>>| roots.contains(c) && c.is_prefix_of(root) {
        let c = choose|c: Seq<Seq<char>>| roots.contains(c) && c.is_prefix_of(root);
        assert forall|s: Attachment, t: Attachment|
            attached2.contains(s) && attached2.contains(t) && s.1 == t.1 implies s == t by {
            if s.1 == group {
                lemma_prefixes_nest(s.0, t.0, root);
            }
        }
        assert forall|t: Attachment| attached2.contains(t) && t.1 == group implies t.0 + t.2
            == root by {
            assert(t.0 + root.skip(t.0.len() as int) =~= root);
        }
        assert forall|s: Attachment| attached.contains(s) && s.1 != group implies exists|
            t: Attachment,
        |
            #[trigger] attached2.contains(t) && t.1 == s.1 && t.0 + t.2 == s.0 + s.2 by {
            assert(attached2.contains(s));
        }
        assert(attached2.contains((c, group, root.skip(c.len() as int))));
    } else {
        assert forall|a: Seq<Seq<char>>, b: Seq<Seq<char>>|
            roots2.contains(a) && roots2.contains(b) && a.is_prefix_of(b) implies a == b by {
            if a == root && b != root {
            } else if b == root && a != root {
                assert(roots.contains(a) && a.is_prefix_of(root));
            }
        }
        assert forall|s: Attachment, t: Attachment|
            attached2.contains(s) && attached2.contains(t) && s.1 == t.1 implies s == t by {
            if s.1 != group {
                let s0 = if attached.contains(s) && !root.is_prefix_of(s.0) {
                    s
                } else {
                    let (r, p) = choose|r: Seq<Seq<char>>, p: Seq<Seq<char>>|
                        #[trigger] attached.contains((r, s.1, p)) && root.is_prefix_of(r) && s.2
                            == r.skip(root.len() as int) + p;
                    (r, s.1, p)
                };
                let t0 = if attached.contains(t) && !root.is_prefix_of(t.0) {
                    t
                } else {
                    let (r, p) = choose|r: Seq<Seq<char>>, p: Seq<Seq<char>>|
                        #[trigger] attached.contains((r, t.1, p)) && root.is_prefix_of(r) && t.2
                            == r.skip(root.len() as int) + p;
                    (r, t.1, p)
                };
                assert(attached.contains(s0) && attached.contains(t0));
                assert(s0 == t0);
            }
        }
        assert forall|t: Attachment| attached2.contains(t) && t.1 == group implies t.0 + t.2
            == root by {
            assert(root + Seq::<Seq<char>>::empty() =~= root);
        }
        assert forall|s: Attachment| attached.contains(s) && s.1 != group implies exists|
            t: Attachment,
        |
            #[trigger] attached2.contains(t) && t.1 == s.1 && t.0 + t.2 == s.0 + s.2 by {
            if root.is_prefix_of(s.0) {
                let t = (root, s.1, s.0.skip(root.len() as int) + s.2);
                assert(attached.contains((s.0, t.1, s.2)));
                assert(attached2.contains(t));
                assert(t.0 + t.2 =~= s.0 + s.2);
            } else {
                assert(attached2.contains(s));
            }
        }
        assert(attached2.contains((root, group, Seq::<Seq<char>>::empty())));
    }
}

/// Two prefixes of one sequence: one is a prefix of the other.
pub proof fn lemma_prefixes_nest<T>(a: Seq<T>, b: Seq<T>, s: Seq<T>)
    requires
        a.is_prefix_of(s),
        b.is_prefix_of(s),
    ensures
        a.is_prefix_of(b) || b.is_prefix_of(a),
{
    if a.len() <= b.len() {
        assert(a =~= b.subrange(0, a.len() as int));
    } else {
        assert(b =~= a.subrange(0, b.len() as int));
    }
}

/// Appending an attachment adds it to what the list holds.
pub proof fn lemma_pairs_push(gs: Seq<(FileGroup, FsPath)>, x: (FileGroup, FsPath))
    ensures
        forall|g: FileGroup, p: Seq<Seq<char>>|
            #![trigger pairs_have(gs.push(x), g, p)]
            pairs_have(gs.push(x), g, p) <==> pairs_have(gs, g, p) || (x.0 == g && x.1@ == p),
{
    let after = gs.push(x);
    assert forall|g: FileGroup, p: Seq<Seq<char>>|
        pairs_have(after, g, p) <==> pairs_have(gs, g, p) || (x.0 == g && x.1@ == p) by {
        if pairs_have(gs, g, p) {
            let k = choose|k: int| 0 <= k < gs.len() && (#[trigger] gs[k]).0 == g && gs[k].1@ == p;
            assert(after[k] == gs[k]);
        }
        if x.0 == g && x.1@ == p {
            assert(after[gs.len() as int] == x);
        }
        if pairs_have(after, g, p) {
            let k = choose|k: int|
                0 <= k < after.len() && (#[trigger] after[k]).0 == g && after[k].1@ == p;
            if k < gs.len() {
                assert(after[k] == gs[k]);
            }
        }
    }
}

/// Appending an entry adds its root and its attachments to what the list
/// holds.
pub proof fn lemma_entries_push(rs: Seq<RootEntry>, e: RootEntry)
    ensures
        forall|r: Seq<Seq<char>>|
            #![trigger have_root(rs.push(e), rs.len() as int + 1, r)]
            have_root(rs.push(e), rs.len() as int + 1, r) <==> have_root(rs, rs.len() as int, r)
                || e.root@ == r,
        forall|r: Seq<Seq<char>>, g: FileGroup, p: Seq<Seq<char>>|
            #![trigger have_triple(rs.push(e), rs.len() as int + 1, r, g, p)]
            have_triple(rs.push(e), rs.len() as int + 1, r, g, p) <==> have_triple(
                rs,
                rs.len() as int,
                r,
                g,
                p,
            ) || (e.root@ == r && pairs_have(e.groups@, g, p)),
{
    let after = rs.push(e);
    let n = rs.len() as int;
    assert forall|r: Seq<Seq<char>>| have_root(after, n + 1, r) <==> have_root(rs, n, r) || e.root@
        == r by {
        if have_root(rs, n, r) {
            let i = choose|i: int| 0 <= i < n && i < rs.len() && (#[trigger] rs[i]).root@ == r;
            assert(after[i] == rs[i]);
        }
        if e.root@ == r {
            assert(after[n] == e);
        }
        if have_root(after, n + 1, r) {
            let i = choose|i: int|
                0 <= i < n + 1 && i < after.len() && (#[trigger] after[i]).root@ == r;
            if i < n {
                assert(after[i] == rs[i]);
            }
        }
    }
    assert forall|r: Seq<Seq<char>>, g: FileGroup, p: Seq<Seq<char>>|
        have_triple(after, n + 1, r, g, p) <==> have_triple(rs, n, r, g, p) || (e.root@ == r
            && pairs_have(e.groups@, g, p)) by {
        if have_triple(rs, n, r, g, p) {
            let i = choose|i: int|
                0 <= i < n && i < rs.len() && (#[trigger] rs[i]).root@ == r && pairs_have(
                    rs[i].groups@,
                    g,
                    p,
                );
            assert(after[i] == rs[i]);
        }
        if e.root@ == r && pairs_have(e.groups@, g, p) {
            assert(after[n] == e);
        }
        if have_triple(after, n + 1, r, g, p) {
            let i = choose|i: int|
                0 <= i < n + 1 && i < after.len() && (#[trigger] after[i]).root@ == r
                    && pairs_have(after[i].groups@, g, p);
            if i < n {
                assert(after[i] == rs[i]);
            }
        }
    }
}

/// One more entry counted adds its root and its attachments.
pub proof fn lemma_entries_step(rs: Seq<RootEntry>, n: int)
    requires
        0 <= n < rs.len(),
    ensures
        forall|r: Seq<Seq<char>>|
            #![trigger have_root(rs, n + 1, r)]
            have_root(rs, n + 1, r) <==> have_root(rs, n, r) || rs[n].root@ == r,
        forall|r: Seq<Seq<char>>, g: FileGroup, p: Seq<Seq<char>>|
            #![trigger have_triple(rs, n + 1, r, g, p)]
            have_triple(rs, n + 1, r, g, p) <==> have_triple(rs, n, r, g, p) || (rs[n].root@ == r
                && pairs_have(rs[n].groups@, g, p)),
{
    assert forall|r: Seq<Seq<char>>| have_root(rs, n + 1, r) <==> have_root(rs, n, r) || rs[n].root@
        == r by {
        if have_root(rs, n + 1, r) {
            let i = choose|i: int|
                0 <= i < n + 1 && i < rs.len() && (#[trigger] rs[i]).root@ == r;
        }
    }
    assert forall|r: Seq<Seq<char>>, g: FileGroup, p: Seq<Seq<char>>|
        have_triple(rs, n + 1, r, g, p) <==> have_triple(rs, n, r, g, p) || (rs[n].root@ == r
            && pairs_have(rs[n].groups@, g, p)) by {
        if have_triple(rs, n + 1, r, g, p) {
            let i = choose|i: int|
                0 <= i < n + 1 && i < rs.len() && (#[trigger] rs[i]).root@ == r && pairs_have(
                    rs[i].groups@,
                    g,
                    p,
                );
        }
    }
}

/// The attachments of a list without those of one group.
fn without_group(gs: &Vec<(FileGroup, FsPath)>, group: FileGroup) -> (r: Vec<(FileGroup, FsPath)>)
    ensures
        forall|g: FileGroup, p: Seq<Seq<char>>|
            pairs_have(r@, g, p) <==> pairs_have(gs@, g, p) && g != group,
{
    let mut out: Vec<(FileGroup, FsPath)> = Vec::new();
    let mut i: usize = 0;
    while i < gs.len()
        invariant
            i <= gs.len(),
            forall|g: FileGroup, p: Seq<Seq<char>>|
                pairs_have(out@, g, p) <==> pairs_have(gs@.take(i as int), g, p) && g != group,
        decreases gs.len() - i,
    {
        let ghost before = out@;
        if gs[i].0 != group {
            let pair = (gs[i].0, gs[i].1.clone());
            proof {
                lemma_pairs_push(out@, pair);
            }
            out.push(pair);
        }
        proof {
            assert(gs@.take(i + 1) =~= gs@.take(i as int).push(gs@[i as int]));
            lemma_pairs_push(gs@.take(i as int), gs@[i as int]);
            assert forall|g: FileGroup, p: Seq<Seq<char>>|
                pairs_have(out@, g, p) <==> pairs_have(gs@.take(i + 1), g, p) && g != group by {
                assert(pairs_have(gs@.take(i as int).push(gs@[i as int]), g, p) <==> pairs_have(
                    gs@.take(i as int),
                    g,
                    p,
                ) || (gs@[i as int].0 == g && gs@[i as int].1@ == p));
                assert(pairs_have(before, g, p) <==> pairs_have(gs@.take(i as int), g, p) && g
                    != group);
            }
        }
        i += 1;
    }
    assert(gs@.take(gs.len() as int) =~= gs@);
    out
}

/// Appends to `into` the attachments of `gs`, each prefix lengthened by
/// `way` in front.
fn lengthened(gs: &Vec<(FileGroup, FsPath)>, way: &FsPath, into: &mut Vec<(FileGroup, FsPath)>)
    ensures
        forall|g: FileGroup, q: Seq<Seq<char>>|
            pairs_have(final(into)@, g, q) <==> pairs_have(old(into)@, g, q) || exists|
                p: Seq<Seq<char>>,
            |
                #[trigger] pairs_have(gs@, g, p) && q == way@ + p,
{
    let mut i: usize = 0;
    while i < gs.len()
        invariant
            i <= gs.len(),
            forall|g: FileGroup, q: Seq<Seq<char>>|
                pairs_have(into@, g, q) <==> pairs_have(old(into)@, g, q) || exists|
                    p: Seq<Seq<char>>,
                |
                    #[trigger] pairs_have(gs@.take(i as int), g, p) && q == way@ + p,
        decreases gs.len() - i,
    {
        let mut parts = crate::text::clone_strings(&way.parts);
        let mut k: usize = 0;
        while k < gs[i].1.parts.len()
            invariant
                i < gs.len(),
                k <= gs[i as int].1.parts.len(),
                crate::text::texts(parts@) == way@ + gs[i as int].1@.take(k as int),
            decreases gs[i as int].1.parts.len() - k,
        {
            proof {
                crate::text::lemma_texts_push(parts@, gs[i as int].1.parts@[k as int]);
            }
            parts.push(gs[i].1.parts[k].clone());
            assert(crate::text::texts(parts@) =~= way@ + gs[i as int].1@.take(k + 1));
            k += 1;
        }
        assert(gs[i as int].1@.take(gs[i as int].1.parts.len() as int) =~= gs[i as int].1@);
        let pair = (gs[i].0, FsPath { parts });
        proof {
            assert(gs@.take(i + 1) =~= gs@.take(i as int).push(gs@[i as int]));
            lemma_pairs_push(gs@.take(i as int), gs@[i as int]);
            lemma_pairs_push(into@, pair);
            let before = into@;
            let after = into@.push(pair);
            assert forall|g: FileGroup, q: Seq<Seq<char>>|
                pairs_have(after, g, q) <==> pairs_have(old(into)@, g, q) || exists|
                    p: Seq<Seq<char>>,
                |
                    #[trigger] pairs_have(gs@.take(i + 1), g, p) && q == way@ + p by {
                if pair.0 == g && pair.1@ == q {
                    assert(gs@.take(i + 1)[i as int] == gs@[i as int]);
                    assert(pairs_have(gs@.take(i + 1), g, gs@[i as int].1@));
                }
                if exists|p: Seq<Seq<char>>|
                    #[trigger] pairs_have(gs@.take(i + 1), g, p) && q == way@ + p {
                    let p = choose|p: Seq<Seq<char>>|
                        #[trigger] pairs_have(gs@.take(i + 1), g, p) && q == way@ + p;
                    if pairs_have(gs@.take(i as int), g, p) {
                    }
                }
                if exists|p: Seq<Seq<char>>|
                    #[trigger] pairs_have(gs@.take(i as int), g, p) && q == way@ + p {
                    let p = choose|p: Seq<Seq<char>>|
                        #[trigger] pairs_have(gs@.take(i as int), g, p) && q == way@ + p;
                    assert(pairs_have(gs@.take(i + 1), g, p));
                }
            }
        }
        into.push(pair);
        i += 1;
    }
    assert(gs@.take(gs.len() as int) =~= gs@);
}

/// The first entry whose root covers `root`.
fn covering(rs: &Vec<RootEntry>, root: &FsPath) -> (r: Option<usize>)
    ensures
        match r {
            Some(c) => c < rs.len() && rs[c as int].root@.is_prefix_of(root@),
            None => forall|i: int| 0 <= i < rs.len() ==> !(#[trigger] rs[i]).root@.is_prefix_of(root@),
        },
{
    let mut i: usize = 0;
    while i < rs.len()
        invariant
            i <= rs.len(),
            forall|j: int| 0 <= j < i ==> !(#[trigger] rs[j]).root@.is_prefix_of(root@),
        decreases rs.len() - i,
    {
        if root.starts_with(&rs[i].root) {
            return Some(i);
        }
        i += 1;
    }
    None
}

/// The roots to walk for a schema's file groups, each with the groups
/// attached to it.
#[derive(Debug, PartialEq, Eq)]
pub struct SchemaRoots {
    roots: Vec<RootEntry>,
}

impl Default for SchemaRoots {
    fn default() -> (r: SchemaRoots)
        ensures
            r.root_set() == Set::<Seq<Seq<char>>>::empty(),
            r.attachments() == Set::<Attachment>::empty(),
    {
        SchemaRoots::new()
    }
}

impl SchemaRoots {
    /// The roots.
    pub closed spec fn root_set(&self) -> Set<Seq<Seq<char>>> {
        Set::new(|r: Seq<Seq<char>>| have_root(self.roots@, self.roots@.len() as int, r))
    }

    /// The attachments: which group hangs at which root, with which prefix.
    pub closed spec fn attachments(&self) -> Set<Attachment> {
        Set::new(|t: Attachment| have_triple(self.roots@, self.roots@.len() as int, t.0, t.1, t.2))
    }

    /// No root lies under another, a group is attached once at most, and
    /// every root has one entry.
    #[verifier::type_invariant]
    pub closed spec fn wf(&self) -> bool {
        &&& coalesced(self.root_set(), self.attachments())
        &&& distinct_roots(self.roots@)
    }

    /// A well-formed set of roots is coalesced.
    pub proof fn lemma_coalesced(self)
        requires
            self.wf(),
        ensures
            coalesced(self.root_set(), self.attachments()),
    {
    }

    /// No root and no attachment.
    pub fn new() -> (r: SchemaRoots)
        ensures
            r.root_set() == Set::<Seq<Seq<char>>>::empty(),
            r.attachments() == Set::<Attachment>::empty(),
    {
        let r = SchemaRoots { roots: Vec::new() };
        assert(r.root_set() =~= Set::<Seq<Seq<char>>>::empty());
        assert(r.attachments() =~= Set::<Attachment>::empty());
        r
    }

    /// Attaches `group`, whose root directory is `root`.
    ///
    /// Where a root of the set covers `root`, the group is attached to it
    /// with what is left of `root` below it. Else `root` becomes a root
    /// itself: the roots under it leave the set and hand it their groups,
    /// whose prefixes grow by the way from `root` down to their old root.
    /// A group that was attached before leaves its old place.
    pub fn attach(&mut self, group: FileGroup, root: &FsPath)
        ensures
            final(self).root_set() == roots_after(old(self).root_set(), root@),
            final(self).attachments() == attached_after(
                old(self).root_set(),
                old(self).attachments(),
                group,
                root@,
            ),
            coalesced(old(self).root_set(), old(self).attachments()),
            coalesced(final(self).root_set(), final(self).attachments()),
    {
        proof {
            use_type_invariant(&*self);
            lemma_attach_coalesced(self.root_set(), self.attachments(), group, root@);
        }
        let ghost before = self.roots@;
        let ghost n = self.roots@.len() as int;
        let ghost roots0 = self.root_set();
        let ghost attached0 = self.attachments();
        let found = covering(&self.roots, root);
        let mut out: Vec<RootEntry> = Vec::new();
        match found {
            Some(ci) => {
                let rel = match root.strip_prefix(&self.roots[ci].root) {
                    Some(rel) => rel,
                    None => FsPath::new(),
                };
                let ghost cover = before[ci as int].root@;
                let mut i: usize = 0;
                while i < self.roots.len()
                    invariant
                        i <= self.roots.len(),
                        self.roots@ == before,
                        ci < before.len(),
                        cover == before[ci as int].root@,
                        out.len() == i,
                        forall|j: int| 0 <= j < i ==> (#[trigger] out@[j]).root@ == before[j].root@,
                        forall|r: Seq<Seq<char>>|
                            have_root(out@, i as int, r) <==> have_root(before, i as int, r),
                        forall|r: Seq<Seq<char>>, g: FileGroup, p: Seq<Seq<char>>|
                            have_triple(out@, i as int, r, g, p) <==> (have_triple(
                                before,
                                i as int,
                                r,
                                g,
                                p,
                            ) && g != group) || (ci < i && r == cover && g == group && p == rel@),
                    decreases self.roots.len() - i,
                {
                    let mut groups = without_group(&self.roots[i].groups, group);
                    if i == ci {
                        let pair = (group, rel.clone());
                        proof {
                            lemma_pairs_push(groups@, pair);
                        }
                        groups.push(pair);
                    }
                    let entry = RootEntry { root: self.roots[i].root.clone(), groups };
                    proof {
                        lemma_entries_push(out@, entry);
                        lemma_entries_step(before, i as int);
                        let next = out@.push(entry);
                        let n1 = i as int + 1;
                        assert(out@.len() as int + 1 == n1);
                        assert forall|r: Seq<Seq<char>>, g: FileGroup, p: Seq<Seq<char>>|
                            #![trigger have_triple(next, n1, r, g, p)]
                            have_triple(next, n1, r, g, p) <==> (have_triple(
                                before,
                                n1,
                                r,
                                g,
                                p,
                            ) && g != group) || (ci < n1 && r == cover && g == group && p
                                == rel@) by {
                            assert(have_triple(next, out@.len() as int + 1, r, g, p)
                                <==> have_triple(out@, out@.len() as int, r, g, p) || (entry.root@
                                == r && pairs_have(entry.groups@, g, p)));
                            assert(have_triple(before, i + 1, r, g, p) <==> have_triple(
                                before,
                                i as int,
                                r,
                                g,
                                p,
                            ) || (before[i as int].root@ == r && pairs_have(
                                before[i as int].groups@,
                                g,
                                p,
                            )));
                            assert(pairs_have(entry.groups@, g, p) <==> (pairs_have(
                                before[i as int].groups@,
                                g,
                                p,
                            ) && g != group) || (i == ci && g == group && p == rel@));
                        }
                        assert forall|r: Seq<Seq<char>>|
                            #![trigger have_root(next, n1, r)]
                            have_root(next, n1, r) <==> have_root(before, n1, r) by {
                            assert(have_root(next, out@.len() as int + 1, r) <==> have_root(
                                out@,
                                out@.len() as int,
                                r,
                            ) || entry.root@ == r);
                            assert(have_root(before, i + 1, r) <==> have_root(
                                before,
                                i as int,
                                r,
                            ) || before[i as int].root@ == r);
                        }
                    }
                    out.push(entry);
                    i += 1;
                }
                proof {
                    let roots1 = Set::new(|r: Seq<Seq<char>>| have_root(out@, out@.len() as int, r));
                    let attached1 = Set::new(
                        |t: Attachment| have_triple(out@, out@.len() as int, t.0, t.1, t.2),
                    );
                    assert(roots0.contains(cover)) by {
                        assert(before[ci as int].root@ == cover);
                    }
                    assert(roots1 =~= roots_after(roots0, root@));
                    assert forall|t: Attachment|
                        attached1.contains(t) <==> attached_after(
                            roots0,
                            attached0,
                            group,
                            root@,
                        ).contains(t) by {
                        let after = attached_after(roots0, attached0, group, root@);
                        assert(rel@ == root@.skip(cover.len() as int));
                        assert(cover.is_prefix_of(root@));
                        assert(attached0.contains(t) <==> have_triple(before, n, t.0, t.1, t.2));
                        assert(attached1.contains(t) <==> have_triple(
                            out@,
                            n,
                            t.0,
                            t.1,
                            t.2,
                        ));
                        if t.1 == group && roots0.contains(t.0) && t.0.is_prefix_of(root@) {
                            lemma_prefixes_nest(t.0, cover, root@);
                            assert(t.0 == cover);
                        }
                        if attached1.contains(t) {
                            assert(after.contains(t));
                        }
                        if after.contains(t) {
                            assert(attached1.contains(t));
                        }
                    }
                    assert(attached1 =~= attached_after(roots0, attached0, group, root@));
                    assert(distinct_roots(out@)) by {
                        assert forall|a: int, b: int| 0 <= a < b < out@.len() implies (
                        #[trigger] out@[a]).root@ != (#[trigger] out@[b]).root@ by {
                            assert(out@[a].root@ == before[a].root@);
                            assert(out@[b].root@ == before[b].root@);
                        }
                    }
                }
                self.roots = out;
            },
            None => {
                let mut absorbed: Vec<(FileGroup, FsPath)> = Vec::new();
                let mut i: usize = 0;
                while i < self.roots.len()
                    invariant
                        i <= self.roots.len(),
                        self.roots@ == before,
                        distinct_roots(before),
                        distinct_roots(out@),
                        forall|r: Seq<Seq<char>>|
                            have_root(out@, out@.len() as int, r) <==> have_root(
                                before,
                                i as int,
                                r,
                            ) && !root@.is_prefix_of(r),
                        forall|r: Seq<Seq<char>>, g: FileGroup, p: Seq<Seq<char>>|
                            have_triple(out@, out@.len() as int, r, g, p) <==> have_triple(
                                before,
                                i as int,
                                r,
                                g,
                                p,
                            ) && g != group && !root@.is_prefix_of(r),
                        forall|g: FileGroup, q: Seq<Seq<char>>|
                            pairs_have(absorbed@, g, q) <==> g != group && exists|
                                r: Seq<Seq<char>>,
                                p: Seq<Seq<char>>,
                            |
                                #[trigger] have_triple(before, i as int, r, g, p)
                                    && root@.is_prefix_of(r) && q == r.skip(root@.len() as int)
                                    + p,
                    decreases self.roots.len() - i,
                {
                    let groups = without_group(&self.roots[i].groups, group);
                    let ghost here = before[i as int].root@;
                    let ghost absorbed0 = absorbed@;
                    proof {
                        lemma_entries_step(before, i as int);
                    }
                    match self.roots[i].root.strip_prefix(root) {
                        Some(way) => {
                            lengthened(&groups, &way, &mut absorbed);
                            proof {
                                assert forall|g: FileGroup, q: Seq<Seq<char>>|
                                    pairs_have(absorbed@, g, q) <==> g != group && exists|
                                        r: Seq<Seq<char>>,
                                        p: Seq<Seq<char>>,
                                    |
                                        #[trigger] have_triple(before, i + 1, r, g, p)
                                            && root@.is_prefix_of(r) && q == r.skip(
                                            root@.len() as int,
                                        ) + p by {
                                    if pairs_have(absorbed@, g, q) && !pairs_have(absorbed0, g, q) {
                                        let p = choose|p: Seq<Seq<char>>|
                                            #[trigger] pairs_have(groups@, g, p) && q == way@ + p;
                                        assert(have_triple(before, i + 1, here, g, p));
                                    }
                                    if pairs_have(absorbed0, g, q) {
                                        let (r, p) = choose|r: Seq<Seq<char>>, p: Seq<Seq<char>>|
                                            #[trigger] have_triple(before, i as int, r, g, p)
                                                && root@.is_prefix_of(r) && q == r.skip(
                                                root@.len() as int,
                                            ) + p;
                                        assert(have_triple(before, i + 1, r, g, p));
                                    }
                                    if g != group && exists|r: Seq<Seq<char>>, p: Seq<Seq<char>>|
                                        #[trigger] have_triple(before, i + 1, r, g, p)
                                            && root@.is_prefix_of(r) && q == r.skip(
                                            root@.len() as int,
                                        ) + p {
                                        let (r, p) = choose|r: Seq<Seq<char>>, p: Seq<Seq<char>>|
                                            #[trigger] have_triple(before, i + 1, r, g, p)
                                                && root@.is_prefix_of(r) && q == r.skip(
                                                root@.len() as int,
                                            ) + p;
                                        if have_triple(before, i as int, r, g, p) {
                                        } else {
                                            assert(pairs_have(groups@, g, p));
                                        }
                                    }
                                }
                            }
                        },
                        None => {
                            let entry = RootEntry { root: self.roots[i].root.clone(), groups };
                            proof {
                                lemma_entries_push(out@, entry);
                                assert(distinct_roots(out@.push(entry))) by {
                                    let next = out@.push(entry);
                                    assert forall|a: int, b: int|
                                        0 <= a < b < next.len() implies (#[trigger] next[a]).root@
                                        != (#[trigger] next[b]).root@ by {
                                        if b == out@.len() {
                                            assert(next[a] == out@[a]);
                                            if out@[a].root@ == entry.root@ {
                                                assert(have_root(
                                                    out@,
                                                    out@.len() as int,
                                                    entry.root@,
                                                ));
                                                let m = choose|m: int|
                                                    0 <= m < i && m < before.len() && (
                                                    #[trigger] before[m]).root@ == entry.root@;
                                                assert(before[m].root@ != before[i as int].root@);
                                            }
                                        } else {
                                            assert(next[a] == out@[a]);
                                            assert(next[b] == out@[b]);
                                        }
                                    }
                                }
                                assert forall|g: FileGroup, q: Seq<Seq<char>>|
                                    pairs_have(absorbed@, g, q) <==> g != group && exists|
                                        r: Seq<Seq<char>>,
                                        p: Seq<Seq<char>>,
                                    |
                                        #[trigger] have_triple(before, i + 1, r, g, p)
                                            && root@.is_prefix_of(r) && q == r.skip(
                                            root@.len() as int,
                                        ) + p by {
                                    if pairs_have(absorbed0, g, q) {
                                        let (r, p) = choose|r: Seq<Seq<char>>, p: Seq<Seq<char>>|
                                            #[trigger] have_triple(before, i as int, r, g, p)
                                                && root@.is_prefix_of(r) && q == r.skip(
                                                root@.len() as int,
                                            ) + p;
                                        assert(have_triple(before, i + 1, r, g, p));
                                    }
                                    if g != group && exists|r: Seq<Seq<char>>, p: Seq<Seq<char>>|
                                        #[trigger] have_triple(before, i + 1, r, g, p)
                                            && root@.is_prefix_of(r) && q == r.skip(
                                            root@.len() as int,
                                        ) + p {
                                        let (r, p) = choose|r: Seq<Seq<char>>, p: Seq<Seq<char>>|
                                            #[trigger] have_triple(before, i + 1, r, g, p)
                                                && root@.is_prefix_of(r) && q == r.skip(
                                                root@.len() as int,
                                            ) + p;
                                        assert(have_triple(before, i as int, r, g, p));
                                    }
                                }
                            }
                            out.push(entry);
                        },
                    }
                    i += 1;
                }
                let pair = (group, FsPath::new());
                proof {
                    lemma_pairs_push(absorbed@, pair);
                }
                absorbed.push(pair);
                let entry = RootEntry { root: root.clone(), groups: absorbed };
                proof {
                    lemma_entries_push(out@, entry);
                    assert(distinct_roots(out@.push(entry))) by {
                        let next = out@.push(entry);
                        assert forall|a: int, b: int| 0 <= a < b < next.len() implies (
                        #[trigger] next[a]).root@ != (#[trigger] next[b]).root@ by {
                            if b == out@.len() {
                                assert(next[a] == out@[a]);
                                if out@[a].root@ == root@ {
                                    assert(have_root(out@, out@.len() as int, root@));
                                    assert(root@ =~= root@.subrange(0, root@.len() as int));
                                    assert(root@.is_prefix_of(root@));
                                }
                            } else {
                                assert(next[a] == out@[a]);
                                assert(next[b] == out@[b]);
                            }
                        }
                    }
                }
                out.push(entry);
                proof {
                    let roots1 = Set::new(|r: Seq<Seq<char>>| have_root(out@, out@.len() as int, r));
                    let attached1 = Set::new(
                        |t: Attachment| have_triple(out@, out@.len() as int, t.0, t.1, t.2),
                    );
                    assert(!exists|c: Seq<Seq<char>>| roots0.contains(c) && c.is_prefix_of(root@))
                        by {
                        if exists|c: Seq<Seq<char>>| roots0.contains(c) && c.is_prefix_of(root@) {
                            let c = choose|c: Seq<Seq<char>>|
                                roots0.contains(c) && c.is_prefix_of(root@);
                            let k = choose|k: int|
                                0 <= k < n && k < before.len() && (#[trigger] before[k]).root@ == c;
                        }
                    }
                    assert(roots1 =~= roots_after(roots0, root@));
                    assert forall|t: Attachment|
                        attached1.contains(t) <==> attached_after(
                            roots0,
                            attached0,
                            group,
                            root@,
                        ).contains(t) by {
                        if t.0 == root@ && t.1 != group && exists|
                            r: Seq<Seq<char>>,
                            p: Seq<Seq<char>>,
                        |
                            #[trigger] attached0.contains((r, t.1, p)) && root@.is_prefix_of(r)
                                && t.2 == r.skip(root@.len() as int) + p {
                            let (r, p) = choose|r: Seq<Seq<char>>, p: Seq<Seq<char>>|
                                #[trigger] attached0.contains((r, t.1, p)) && root@.is_prefix_of(r)
                                    && t.2 == r.skip(root@.len() as int) + p;
                            assert(have_triple(before, n, r, t.1, p));
                        }
                        if attached1.contains(t) && t.0 == root@ && t.1 != group && !(
                        attached0.contains(t) && !root@.is_prefix_of(t.0)) {
                            let (r, p) = choose|r: Seq<Seq<char>>, p: Seq<Seq<char>>|
                                #[trigger] have_triple(before, n, r, t.1, p) && root@.is_prefix_of(
                                    r,
                                ) && t.2 == r.skip(root@.len() as int) + p;
                            assert(attached0.contains((r, t.1, p)));
                        }
                    }
                    assert(attached1 =~= attached_after(roots0, attached0, group, root@));
                }
                self.roots = out;
            },
        }
    }

    /// The root that a group is attached to, and the group's prefix below
    /// it.
    pub fn root_of(&self, group: FileGroup) -> (r: Option<(&FsPath, &FsPath)>)
        ensures
            coalesced(self.root_set(), self.attachments()),
            match r {
                Some((root, prefix)) => self.attachments().contains((root@, group, prefix@)),
                None => forall|t: Attachment| self.attachments().contains(t) ==> t.1 != group,
            },
    {
        proof {
            use_type_invariant(self);
        }
        let mut i: usize = 0;
        while i < self.roots.len()
            invariant
                i <= self.roots.len(),
                coalesced(self.root_set(), self.attachments()),
                forall|r: Seq<Seq<char>>, p: Seq<Seq<char>>|
                    !have_triple(self.roots@, i as int, r, group, p),
            decreases self.roots.len() - i,
        {
            let mut k: usize = 0;
            while k < self.roots[i].groups.len()
                invariant
                    i < self.roots.len(),
                    coalesced(self.root_set(), self.attachments()),
                    k <= self.roots[i as int].groups.len(),
                    forall|j: int| 0 <= j < k ==> (#[trigger] self.roots[i as int].groups[j]).0 != group,
                decreases self.roots[i as int].groups.len() - k,
            {
                if self.roots[i].groups[k].0 == group {
                    let root = &self.roots[i].root;
                    let prefix = &self.roots[i].groups[k].1;
                    assert(pairs_have(self.roots[i as int].groups@, group, prefix@));
                    assert(have_triple(
                        self.roots@,
                        self.roots@.len() as int,
                        root@,
                        group,
                        prefix@,
                    ));
                    return Some((root, prefix));
                }
                k += 1;
            }
            proof {
                lemma_entries_step(self.roots@, i as int);
            }
            i += 1;
        }
        None
    }

    /// Whether a path is one of the roots.
    pub fn has_root(&self, root: &FsPath) -> (r: bool)
        ensures
            r == self.root_set().contains(root@),
    {
        let mut i: usize = 0;
        while i < self.roots.len()
            invariant
                i <= self.roots.len(),
                !have_root(self.roots@, i as int, root@),
            decreases self.roots.len() - i,
        {
            if self.roots[i].root.same(root) {
                assert(have_root(self.roots@, self.roots@.len() as int, root@));
                return true;
            }
            proof {
                lemma_entries_step(self.roots@, i as int);
            }
            i += 1;
        }
        false
    }

    /// The roots, each once, in the order of paths.
    pub fn roots(&self) -> (r: Vec<FsPath>)
        ensures
            forall|i: int, j: int|
                0 <= i < j < r.len() ==> path_before((#[trigger] r[i])@, (#[trigger] r[j])@),
            forall|i: int| 0 <= i < r.len() ==> self.root_set().contains(#[trigger] r[i]@),
            forall|root: Seq<Seq<char>>|
                self.root_set().contains(root) ==> exists|i: int|
                    0 <= i < r.len() && #[trigger] r[i]@ == root,
    {
        proof {
            use_type_invariant(self);
            lemma_part_order();
        }
        let mut out: Vec<FsPath> = Vec::new();
        let mut i: usize = 0;
        while i < self.roots.len()
            invariant
                i <= self.roots.len(),
                distinct_roots(self.roots@),
                strict_total(part_lt()),
                forall|a: int, b: int|
                    0 <= a < b < out.len() ==> path_before((#[trigger] out[a])@, (#[trigger] out[b])@),
                forall|a: int| 0 <= a < out.len() ==> have_root(self.roots@, i as int, #[trigger] out[a]@),
                forall|j: int| 0 <= j < i ==> lists(out@, (#[trigger] self.roots@[j]).root@),
            decreases self.roots.len() - i,
        {
            let x = self.roots[i].root.clone();
            let mut p: usize = 0;
            while p < out.len() && out[p].before(&x)
                invariant
                    p <= out.len(),
                    forall|a: int| 0 <= a < p ==> path_before((#[trigger] out[a])@, x@),
                decreases out.len() - p,
            {
                p += 1;
            }
            let ghost before = out@;
            proof {
                assert forall|a: int| 0 <= a < before.len() implies (#[trigger] before[a])@
                    != x@ by {
                    let m = choose|m: int|
                        0 <= m < i && m < self.roots@.len() && (#[trigger] self.roots@[m]).root@
                            == before[a]@;
                    assert(self.roots@[m].root@ != self.roots@[i as int].root@);
                }
                assert forall|b: int| p <= b < before.len() implies path_before(
                    x@,
                    (#[trigger] before[b])@,
                ) by {
                    crate::order::lemma_lex_total(x@, before[p as int]@, part_lt());
                    if b > p {
                        crate::order::lemma_lex_transitive(
                            x@,
                            before[p as int]@,
                            before[b]@,
                            part_lt(),
                        );
                    }
                }
            }
            out.insert(p, x);
            proof {
                let after = out@;
                assert(after =~= before.insert(p as int, x));
                assert forall|a: int, b: int| 0 <= a < b < after.len() implies path_before(
                    (#[trigger] after[a])@,
                    (#[trigger] after[b])@,
                ) by {
                    let a0 = if a < p { a } else { a - 1 };
                    let b0 = if b < p { b } else { b - 1 };
                    if a != p {
                        assert(after[a] == before[a0]);
                    }
                    if b != p {
                        assert(after[b] == before[b0]);
                    }
                }
                lemma_entries_step(self.roots@, i as int);
                assert forall|a: int| 0 <= a < after.len() implies have_root(
                    self.roots@,
                    i + 1,
                    #[trigger] after[a]@,
                ) by {
                    if a != p {
                        let a0 = if a < p { a } else { a - 1 };
                        assert(after[a] == before[a0]);
                        assert(have_root(self.roots@, i as int, before[a0]@));
                    }
                }
                let upto = i as int + 1;
                assert forall|j: int| 0 <= j < upto implies lists(
                    after,
                    (#[trigger] self.roots@[j]).root@,
                ) by {
                    if j == i {
                        assert(after[p as int]@ == self.roots@[j].root@);
                    } else {
                        assert(lists(before, self.roots@[j].root@));
                        let a0 = choose|a0: int|
                            0 <= a0 < before.len() && (#[trigger] before[a0])@
                                == self.roots@[j].root@;
                        let a = if a0 < p { a0 } else { a0 + 1 };
                        assert(after[a] == before[a0]);
                    }
                }
            }
            i += 1;
        }
        proof {
            assert forall|root: Seq<Seq<char>>| self.root_set().contains(root) implies exists|
                a: int,
            |
                0 <= a < out.len() && #[trigger] out[a]@ == root by {
                let j = choose|j: int|
                    0 <= j < self.roots@.len() && j < self.roots@.len() && (
                    #[trigger] self.roots@[j]).root@ == root;
                assert(lists(out@, self.roots@[j].root@));
                let a = choose|a: int|
                    0 <= a < out.len() && (#[trigger] out@[a])@ == self.roots@[j].root@;
                assert(out[a]@ == root);
            }
        }
        out
    }
}

} // verus!
