//! Paths as sequences of components.
//!
//! A path is the list of its components, in order. An absolute path starts
//! with the root component, written `/`; every other component is a name.
//! Two paths are the same path when they have the same components, and one
//! path lies under another when the other's components are a prefix of its
//! own: only whole components count.

use vstd::prelude::*;
use vstd::string::*;
use crate::order::{lemma_lex_skip, lex, strict_total};
use crate::text::{clone_strings, join_strings, join_texts, lemma_texts_push, strings_eq, texts};

verus! {

/// The root component.
pub open spec fn root_part() -> Seq<char> {
    seq!['/']
}

/// The separator between components in a path's text.
pub open spec fn separator() -> Seq<char> {
    seq!['/']
}

/// Whether a component sequence starts with the root component.
pub open spec fn is_absolute(p: Seq<Seq<char>>) -> bool {
    p.len() > 0 && p[0] == root_part()
}

/// `base` joined with `tail`, as `PathBuf::join` has it: an absolute `tail`
/// replaces `base`, any other is appended.
pub open spec fn joined(base: Seq<Seq<char>>, tail: Seq<Seq<char>>) -> Seq<Seq<char>> {
    if is_absolute(tail) {
        tail
    } else {
        base + tail
    }
}

/// Reading a text from left to right: the segments closed by a separator so
/// far (empty ones left out), and the segment still open.
pub open spec fn scan(s: Seq<char>) -> (Seq<Seq<char>>, Seq<char>)
    decreases s.len(),
{
    if s.len() == 0 {
        (Seq::empty(), Seq::empty())
    } else {
        let (closed, open) = scan(s.drop_last());
        if s.last() == '/' {
            (if open.len() > 0 { closed.push(open) } else { closed }, Seq::empty())
        } else {
            (closed, open.push(s.last()))
        }
    }
}

/// The non-empty segments of a text between its separators.
pub open spec fn segments(s: Seq<char>) -> Seq<Seq<char>> {
    let (closed, open) = scan(s);
    if open.len() > 0 {
        closed.push(open)
    } else {
        closed
    }
}

/// The components that a text stands for: the root component if the text
/// starts with a separator, then its non-empty segments.
pub open spec fn parsed(s: Seq<char>) -> Seq<Seq<char>> {
    if s.len() > 0 && s[0] == '/' {
        seq![root_part()] + segments(s)
    } else {
        segments(s)
    }
}

/// The text of a component sequence: the names separated by `/`, after a
/// leading `/` where the path is absolute.
pub open spec fn path_text(p: Seq<Seq<char>>) -> Seq<char> {
    if is_absolute(p) {
        root_part() + join_texts(p.skip(1), separator())
    } else {
        join_texts(p, separator())
    }
}

/// Whether a text is a name: not empty, and without a separator in it.
pub open spec fn is_name(t: Seq<char>) -> bool {
    t.len() > 0 && forall|i: int| 0 <= i < t.len() ==> t[i] != '/'
}

/// The names of a component sequence: all components but the root.
pub open spec fn names_of(p: Seq<Seq<char>>) -> Seq<Seq<char>> {
    if is_absolute(p) {
        p.skip(1)
    } else {
        p
    }
}

/// Whether a component sequence is what a text can stand for: every
/// component but a leading root is a name.
pub open spec fn is_plain(p: Seq<Seq<char>>) -> bool {
    forall|i: int| 0 <= i < names_of(p).len() ==> is_name(#[trigger] names_of(p)[i])
}

/// Reading on over a name lengthens the open segment by the name.
pub proof fn lemma_scan_name(s: Seq<char>, t: Seq<char>)
    requires
        forall|i: int| 0 <= i < t.len() ==> t[i] != '/',
    ensures
        scan(s + t) == (scan(s).0, scan(s).1 + t),
    decreases t.len(),
{
    if t.len() == 0 {
        assert(s + t =~= s);
        assert(scan(s).1 + t =~= scan(s).1);
    } else {
        let init = t.drop_last();
        lemma_scan_name(s, init);
        assert((s + t).drop_last() =~= s + init);
        assert((s + t).last() == t.last());
        assert((scan(s).1 + init).push(t.last()) =~= scan(s).1 + t);
    }
}

/// Reading on over a separator closes the open segment.
pub proof fn lemma_scan_separator(s: Seq<char>)
    ensures
        scan(s + separator()) == (
            if scan(s).1.len() > 0 {
                scan(s).0.push(scan(s).1)
            } else {
                scan(s).0
            },
            Seq::<char>::empty(),
        ),
{
    assert((s + separator()).drop_last() =~= s);
    assert((s + separator()).last() == '/');
}

/// Reading names joined by separators, after nothing or after a leading
/// separator: all names but the last are closed, the last is open.
pub proof fn lemma_scan_joined(lead: Seq<char>, names: Seq<Seq<char>>)
    requires
        lead == Seq::<char>::empty() || lead == separator(),
        names.len() > 0,
        forall|i: int| 0 <= i < names.len() ==> is_name(#[trigger] names[i]),
    ensures
        scan(lead + join_texts(names, separator())) == (names.drop_last(), names.last()),
    decreases names.len(),
{
    assert(scan(Seq::<char>::empty()) == (Seq::<Seq<char>>::empty(), Seq::<char>::empty()));
    if lead == separator() {
        lemma_scan_separator(Seq::<char>::empty());
        assert(Seq::<char>::empty() + separator() =~= separator());
    }
    assert(scan(lead) == (Seq::<Seq<char>>::empty(), Seq::<char>::empty()));
    let last = names.last();
    assert(is_name(names[names.len() - 1]));
    if names.len() == 1 {
        lemma_scan_name(lead, last);
        assert(Seq::<char>::empty() + last =~= last);
        assert(names.drop_last() =~= Seq::<Seq<char>>::empty());
    } else {
        let init = names.drop_last();
        assert forall|i: int| 0 <= i < init.len() implies is_name(#[trigger] init[i]) by {
            assert(init[i] == names[i]);
        }
        lemma_scan_joined(lead, init);
        let before = lead + join_texts(init, separator());
        lemma_scan_separator(before);
        lemma_scan_name(before + separator(), last);
        assert(lead + join_texts(names, separator()) =~= before + separator() + last);
        assert(init.drop_last().push(init.last()) =~= init);
        assert(Seq::<char>::empty() + last =~= last);
    }
}

/// Text and back. The text of a plain path stands for the path: parsing
/// the text gives the components that the text was made of.
pub proof fn lemma_text_round_trip(p: Seq<Seq<char>>)
    requires
        is_plain(p),
    ensures
        parsed(path_text(p)) == p,
{
    let names = names_of(p);
    let lead = if is_absolute(p) {
        separator()
    } else {
        Seq::<char>::empty()
    };
    let text = path_text(p);
    assert(text =~= lead + join_texts(names, separator()));
    if names.len() > 0 {
        lemma_scan_joined(lead, names);
        assert(names.drop_last().push(names.last()) =~= names);
        assert(is_name(names[names.len() - 1]));
        assert(segments(text) == names);
        if is_absolute(p) {
            assert(text[0] == '/');
            assert(seq![root_part()] + names =~= p);
        } else {
            assert(is_name(names[0]));
            lemma_join_starts(names);
            assert(Seq::<char>::empty() + join_texts(names, separator()) =~= join_texts(
                names,
                separator(),
            ));
            assert(text[0] == names[0][0]);
        }
    } else {
        assert(join_texts(names, separator()) =~= Seq::<char>::empty());
        if is_absolute(p) {
            assert(text =~= separator());
            lemma_scan_separator(Seq::<char>::empty());
            assert(Seq::<char>::empty() + separator() =~= separator());
            assert(seq![root_part()] + Seq::<Seq<char>>::empty() =~= p);
        } else {
            assert(text =~= Seq::<char>::empty());
            assert(p =~= Seq::<Seq<char>>::empty());
        }
    }
}

/// Names joined by separators start as the first name starts.
pub proof fn lemma_join_starts(names: Seq<Seq<char>>)
    requires
        names.len() > 0,
        names[0].len() > 0,
    ensures
        join_texts(names, separator()).len() > 0,
        join_texts(names, separator())[0] == names[0][0],
    decreases names.len(),
{
    if names.len() > 1 {
        let init = names.drop_last();
        assert(init[0] == names[0]);
        lemma_join_starts(init);
    }
}

/// The order of characters: by code point.
pub open spec fn char_lt() -> spec_fn(char, char) -> bool {
    |x: char, y: char| (x as int) < (y as int)
}

/// The order of characters is a strict total order.
pub proof fn lemma_char_order()
    ensures
        strict_total(char_lt()),
{
    assert forall|x: char, y: char| x != y implies #[trigger] char_lt()(x, y) || char_lt()(
        y,
        x,
    ) by {
        assert(x as int != y as int);
    }
}

/// Whether a text comes before another: in the lexicographic order of
/// their characters.
pub open spec fn text_before(a: Seq<char>, b: Seq<char>) -> bool {
    lex(a, b, char_lt())
}

/// The rank of a component: the root first, then `.`, then `..`, then the
/// names.
pub open spec fn rank(part: Seq<char>) -> int {
    if part == root_part() {
        0
    } else if part == seq!['.'] {
        1
    } else if part == seq!['.', '.'] {
        2
    } else {
        3
    }
}

/// The order of components: by rank, names among themselves as texts.
pub open spec fn part_lt() -> spec_fn(Seq<char>, Seq<char>) -> bool {
    |a: Seq<char>, b: Seq<char>|
        rank(a) < rank(b) || (rank(a) == 3 && rank(b) == 3 && text_before(a, b))
}

/// The order of components is a strict total order.
pub proof fn lemma_part_order()
    ensures
        strict_total(part_lt()),
{
    lemma_char_order();
    assert forall|x: Seq<char>| !#[trigger] part_lt()(x, x) by {
        crate::order::lemma_lex_irreflexive(x, char_lt());
    }
    assert forall|x: Seq<char>, y: Seq<char>| x != y implies #[trigger] part_lt()(x, y)
        || part_lt()(y, x) by {
        if rank(x) == 3 && rank(y) == 3 {
            crate::order::lemma_lex_total(x, y, char_lt());
        }
    }
    assert forall|x: Seq<char>, y: Seq<char>, z: Seq<char>|
        #[trigger] part_lt()(x, y) && #[trigger] part_lt()(y, z) implies part_lt()(x, z) by {
        if rank(x) == 3 && rank(y) == 3 && rank(z) == 3 {
            crate::order::lemma_lex_transitive(x, y, z, char_lt());
        }
    }
}

/// Whether a path comes before another: in the lexicographic order of
/// their components. This is the order in which roots are listed.
pub open spec fn path_before(a: Seq<Seq<char>>, b: Seq<Seq<char>>) -> bool {
    lex(a, b, part_lt())
}

/// Whether a text comes before another.
pub fn text_less(a: &str, b: &str) -> (r: bool)
    ensures
        r == text_before(a@, b@),
{
    let la = a.unicode_len();
    let lb = b.unicode_len();
    let mut i: usize = 0;
    assert(a@.take(0) =~= b@.take(0));
    while i < la && i < lb
        invariant
            la == a@.len(),
            lb == b@.len(),
            i <= la,
            i <= lb,
            a@.take(i as int) == b@.take(i as int),
        decreases la - i,
    {
        let x = a.get_char(i);
        let y = b.get_char(i);
        if x != y {
            proof {
                lemma_lex_skip(a@, b@, char_lt(), i as int);
                assert(a@.skip(i as int)[0] == x);
                assert(b@.skip(i as int)[0] == y);
            }
            return (x as u32) < (y as u32);
        }
        assert(a@.take(i + 1) =~= a@.take(i as int).push(x));
        assert(b@.take(i + 1) =~= b@.take(i as int).push(y));
        i += 1;
    }
    proof {
        lemma_lex_skip(a@, b@, char_lt(), i as int);
    }
    i < lb
}

/// The rank of a component.
pub fn part_rank(part: &str) -> (r: u8)
    ensures
        r == rank(part@),
{
    let n = part.unicode_len();
    if n == 1 {
        let c = part.get_char(0);
        assert(part@ =~= seq![c]);
        if c == '/' {
            0
        } else if c == '.' {
            assert(seq!['.'] != root_part()) by {
                assert(seq!['.'][0] != root_part()[0]);
            }
            1
        } else {
            assert(part@ != root_part()) by {
                assert(part@[0] != root_part()[0]);
            }
            assert(part@ != seq!['.']) by {
                assert(part@[0] != seq!['.'][0]);
            }
            3
        }
    } else if n == 2 && part.get_char(0) == '.' && part.get_char(1) == '.' {
        assert(part@ =~= seq!['.', '.']);
        2
    } else {
        assert(part@ != seq!['.', '.']) by {
            if part@.len() == 2 {
                assert(part@[0] != seq!['.', '.'][0] || part@[1] != seq!['.', '.'][1]);
            }
        }
        3
    }
}

/// Whether a component comes before another.
pub fn part_less(a: &str, b: &str) -> (r: bool)
    ensures
        r == part_lt()(a@, b@),
{
    let ra = part_rank(a);
    let rb = part_rank(b);
    if ra != rb {
        ra < rb
    } else if ra == 3 {
        text_less(a, b)
    } else {
        false
    }
}

/// A path, held as its components.
#[derive(Debug, PartialEq, Eq, Hash)]
pub struct FsPath {
    pub parts: Vec<String>,
}

impl View for FsPath {
    type V = Seq<Seq<char>>;

    open spec fn view(&self) -> Seq<Seq<char>> {
        texts(self.parts@)
    }
}

impl Clone for FsPath {
    fn clone(&self) -> (r: Self)
        ensures
            r@ == self@,
    {
        FsPath { parts: clone_strings(&self.parts) }
    }
}

impl FsPath {
    /// The empty path: no component. Every path lies under it.
    pub fn new() -> (r: FsPath)
        ensures
            r@ == Seq::<Seq<char>>::empty(),
    {
        let r = FsPath { parts: Vec::new() };
        assert(r@ =~= Seq::<Seq<char>>::empty());
        r
    }

    /// The path that a text stands for. Repeated and trailing separators
    /// count for nothing.
    pub fn parse(s: &str) -> (r: FsPath)
        ensures
            r@ == parsed(s@),
    {
        let n = s.unicode_len();
        let mut parts: Vec<String> = Vec::new();
        if n > 0 && s.get_char(0) == '/' {
            proof {
                reveal_strlit("/");
            }
            parts.push(String::from_str("/"));
            assert("/"@ =~= root_part());
        }
        let ghost lead = texts(parts@);
        let mut start: usize = 0;
        let mut i: usize = 0;
        assert(s@.take(0) =~= Seq::<char>::empty());
        assert(s@.subrange(0, 0) =~= Seq::<char>::empty());
        assert(texts(parts@) =~= lead + scan(s@.take(0)).0);
        while i < n
            invariant
                n == s@.len(),
                start <= i <= n,
                texts(parts@) == lead + scan(s@.take(i as int)).0,
                scan(s@.take(i as int)).1 == s@.subrange(start as int, i as int),
            decreases n - i,
        {
            let c = s.get_char(i);
            let ghost before = s@.take(i as int);
            let ghost after = s@.take(i + 1);
            assert(after.drop_last() =~= before);
            assert(after.last() == c);
            if c == '/' {
                if start < i {
                    let piece = s.substring_char(start, i);
                    let text = String::from_str(piece);
                    proof {
                        lemma_texts_push(parts@, text);
                    }
                    parts.push(text);
                    assert(texts(parts@) =~= lead + scan(after).0);
                }
                start = i + 1;
                assert(s@.subrange(start as int, i + 1) =~= Seq::<char>::empty());
            } else {
                assert(s@.subrange(start as int, i + 1) =~= s@.subrange(
                    start as int,
                    i as int,
                ).push(c));
            }
            i += 1;
        }
        assert(s@.take(n as int) =~= s@);
        if start < n {
            let piece = s.substring_char(start, n);
            let text = String::from_str(piece);
            proof {
                lemma_texts_push(parts@, text);
            }
            parts.push(text);
            assert(texts(parts@) =~= lead + segments(s@));
        }
        let r = FsPath { parts };
        assert(r@ =~= parsed(s@));
        r
    }

    /// The path's text.
    pub fn to_text(&self) -> (r: String)
        ensures
            r@ == path_text(self@),
    {
        if self.parts.len() > 0 && self.parts[0].as_str().unicode_len() == 1
            && self.parts[0].as_str().get_char(0) == '/' {
            assert(self@[0] =~= root_part());
            let mut rest: Vec<String> = Vec::new();
            let mut i: usize = 1;
            while i < self.parts.len()
                invariant
                    1 <= i <= self.parts.len(),
                    texts(rest@) == texts(self.parts@).subrange(1, i as int),
                decreases self.parts.len() - i,
            {
                proof {
                    lemma_texts_push(rest@, self.parts@[i as int]);
                }
                rest.push(self.parts[i].clone());
                assert(texts(rest@) =~= texts(self.parts@).subrange(1, i + 1));
                i += 1;
            }
            assert(texts(self.parts@).subrange(1, self.parts.len() as int) =~= self@.skip(1));
            proof {
                reveal_strlit("/");
            }
            assert("/"@ =~= separator());
            let mut out = String::from_str("/");
            let tail = join_strings(&rest, "/");
            out.append(tail.as_str());
            out
        } else {
            proof {
                reveal_strlit("/");
                if self.parts.len() > 0 {
                    assert(self@[0] == self.parts@[0]@);
                }
            }
            assert("/"@ =~= separator());
            join_strings(&self.parts, "/")
        }
    }

    /// Whether the path has no component.
    pub fn is_empty(&self) -> (r: bool)
        ensures
            r == (self@.len() == 0),
    {
        self.parts.len() == 0
    }

    /// Whether two paths have the same components.
    pub fn same(&self, other: &FsPath) -> (r: bool)
        ensures
            r == (self@ == other@),
    {
        strings_eq(&self.parts, &other.parts)
    }

    /// Whether the path lies under `base`, or is `base` itself.
    pub fn starts_with(&self, base: &FsPath) -> (r: bool)
        ensures
            r == base@.is_prefix_of(self@),
    {
        if base.parts.len() > self.parts.len() {
            return false;
        }
        let mut i: usize = 0;
        while i < base.parts.len()
            invariant
                base.parts.len() <= self.parts.len(),
                i <= base.parts.len(),
                forall|j: int| 0 <= j < i ==> self@[j] == base@[j],
            decreases base.parts.len() - i,
        {
            if self.parts[i] != base.parts[i] {
                assert(self@[i as int] != base@[i as int]);
                return false;
            }
            i += 1;
        }
        assert(base@ =~= self@.subrange(0, base@.len() as int));
        true
    }

    /// What is left of the path below `base`; `None` where the path does
    /// not lie under `base`.
    pub fn strip_prefix(&self, base: &FsPath) -> (r: Option<FsPath>)
        ensures
            r is Some <==> base@.is_prefix_of(self@),
            r matches Some(rest) ==> rest@ == self@.skip(base@.len() as int),
    {
        if !self.starts_with(base) {
            return None;
        }
        let mut rest: Vec<String> = Vec::new();
        let mut i: usize = base.parts.len();
        while i < self.parts.len()
            invariant
                base.parts.len() <= i <= self.parts.len(),
                texts(rest@) == self@.subrange(base.parts.len() as int, i as int),
            decreases self.parts.len() - i,
        {
            proof {
                lemma_texts_push(rest@, self.parts@[i as int]);
            }
            rest.push(self.parts[i].clone());
            assert(texts(rest@) =~= self@.subrange(base.parts.len() as int, i + 1));
            i += 1;
        }
        assert(self@.subrange(base.parts.len() as int, self.parts.len() as int) =~= self@.skip(
            base@.len() as int,
        ));
        Some(FsPath { parts: rest })
    }

    /// Whether the path comes before another in the order of paths.
    pub fn before(&self, other: &FsPath) -> (r: bool)
        ensures
            r == path_before(self@, other@),
    {
        let la = self.parts.len();
        let lb = other.parts.len();
        let mut i: usize = 0;
        assert(self@.take(0) =~= other@.take(0));
        while i < la && i < lb
            invariant
                la == self@.len(),
                lb == other@.len(),
                la == self.parts@.len(),
                lb == other.parts@.len(),
                i <= la,
                i <= lb,
                self@.take(i as int) == other@.take(i as int),
            decreases la - i,
        {
            if self.parts[i] != other.parts[i] {
                proof {
                    lemma_lex_skip(self@, other@, part_lt(), i as int);
                    assert(self@.skip(i as int)[0] == self.parts@[i as int]@);
                    assert(other@.skip(i as int)[0] == other.parts@[i as int]@);
                }
                return part_less(self.parts[i].as_str(), other.parts[i].as_str());
            }
            assert(self@.take(i + 1) =~= self@.take(i as int).push(self.parts@[i as int]@));
            assert(other@.take(i + 1) =~= other@.take(i as int).push(other.parts@[i as int]@));
            i += 1;
        }
        proof {
            lemma_lex_skip(self@, other@, part_lt(), i as int);
        }
        i < lb
    }

    /// Whether the path starts at the root.
    pub fn is_absolute(&self) -> (r: bool)
        ensures
            r == is_absolute(self@),
    {
        if self.parts.len() == 0 {
            return false;
        }
        let first = self.parts[0].as_str();
        assert(self@[0] == first@);
        if first.unicode_len() != 1 {
            return false;
        }
        let c = first.get_char(0);
        assert(first@ =~= seq![c]);
        c == '/'
    }

    /// The path with `tail` joined onto it.
    pub fn join(&self, tail: &FsPath) -> (r: FsPath)
        ensures
            r@ == joined(self@, tail@),
    {
        if tail.is_absolute() {
            return tail.clone();
        }
        let mut parts = clone_strings(&self.parts);
        let mut i: usize = 0;
        while i < tail.parts.len()
            invariant
                i <= tail.parts.len(),
                texts(parts@) == self@ + tail@.take(i as int),
            decreases tail.parts.len() - i,
        {
            proof {
                lemma_texts_push(parts@, tail.parts@[i as int]);
            }
            parts.push(tail.parts[i].clone());
            assert(texts(parts@) =~= self@ + tail@.take(i + 1));
            i += 1;
        }
        assert(tail@.take(tail.parts.len() as int) =~= tail@);
        FsPath { parts }
    }
}

} // verus!
