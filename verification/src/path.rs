//! Lexical paths: sequences of segments, compared and combined without
//! touching the file system.
//!
//! A name is held as the bytes that the platform keeps for it, so that a
//! name which is no valid text is a name like any other.

use vstd::prelude::*;
use vstd::slice::slice_to_vec;

verus! {

/// One segment of a path, as a mathematical value.
pub enum Part {
    /// A volume or drive marker that precedes the root on some platforms,
    /// by its bytes.
    Prefix(Seq<u8>),
    /// The root directory.
    Root,
    /// The current directory, `.`.
    Current,
    /// The parent directory, `..`.
    Parent,
    /// A named file or directory, by the bytes of its name.
    Name(Seq<u8>),
}

/// One segment of a path.
#[derive(Debug, Clone, PartialEq, Eq, Hash)]
pub enum Segment {
    /// A volume or drive marker that precedes the root on some platforms,
    /// by its bytes.
    Prefix(Vec<u8>),
    /// The root directory.
    Root,
    /// The current directory, `.`.
    Current,
    /// The parent directory, `..`.
    Parent,
    /// A named file or directory, by the bytes of its name.
    Name(Vec<u8>),
}

impl View for Segment {
    type V = Part;

    open spec fn view(&self) -> Part {
        match self {
            Segment::Prefix(s) => Part::Prefix(s@),
            Segment::Root => Part::Root,
            Segment::Current => Part::Current,
            Segment::Parent => Part::Parent,
            Segment::Name(s) => Part::Name(s@),
        }
    }
}

/// The mathematical value of a run of segments.
pub open spec fn parts_of(segments: Seq<Segment>) -> Seq<Part> {
    segments.map_values(|s: Segment| s@)
}

/// A path held as its segments, first segment first.
#[derive(Debug, Clone, PartialEq, Eq, Hash)]
pub struct LexPath {
    pub segments: Vec<Segment>,
}

impl View for LexPath {
    type V = Seq<Part>;

    open spec fn view(&self) -> Seq<Part> {
        parts_of(self.segments@)
    }
}

/// The values of a vector of paths.
pub open spec fn paths_view(paths: Seq<LexPath>) -> Seq<Seq<Part>> {
    paths.map_values(|p: LexPath| p@)
}

/// Appending a path appends its value.
pub proof fn lemma_paths_push(paths: Seq<LexPath>, last: LexPath)
    ensures
        paths_view(paths.push(last)) == paths_view(paths).push(last@),
{
    assert(paths_view(paths.push(last)) =~= paths_view(paths).push(last@));
}

/// The segments that the platform's path grammar reads out of a text.
pub uninterp spec fn path_parts(text: Seq<char>) -> Seq<Part>;

/// Normal form of a path: left to right, `..` removes the segment kept last
/// (and does nothing when none is kept), `.` is dropped, and every other
/// segment is kept as it is.
pub open spec fn normalized(p: Seq<Part>) -> Seq<Part>
    decreases p.len(),
{
    if p.len() == 0 {
        Seq::empty()
    } else {
        let kept = normalized(p.drop_last());
        match p.last() {
            Part::Parent => if kept.len() > 0 {
                kept.drop_last()
            } else {
                kept
            },
            Part::Current => kept,
            _ => kept.push(p.last()),
        }
    }
}

/// Whether a path starts at a root or a prefix, so that it stands on its own
/// wherever it is resolved.
pub open spec fn is_anchored(p: Seq<Part>) -> bool {
    p.len() > 0 && (p[0] is Root || p[0] is Prefix)
}

/// `other` resolved against `base`: an anchored path is taken as it is, any
/// other is appended to the base.
pub open spec fn joined(base: Seq<Part>, other: Seq<Part>) -> Seq<Part> {
    if is_anchored(other) {
        other
    } else {
        base + other
    }
}

/// The directory that holds a path: the path without its last segment, and
/// the empty path where there is no such directory (the path is empty or ends
/// in a root or a prefix).
pub open spec fn containing_dir(p: Seq<Part>) -> Seq<Part> {
    if p.len() == 0 || p.last() is Root || p.last() is Prefix {
        Seq::empty()
    } else {
        p.drop_last()
    }
}

/// Whether `p` lies at or below `base`, segment by segment.
pub open spec fn lies_under(p: Seq<Part>, base: Seq<Part>) -> bool {
    base.is_prefix_of(p)
}

/// A path as seen from `root`: what follows `root` where the path lies at or
/// below it, and the path itself where it does not.
pub open spec fn relative_to(p: Seq<Part>, root: Seq<Part>) -> Seq<Part> {
    if lies_under(p, root) {
        p.skip(root.len() as int)
    } else {
        p
    }
}

/// Whether no `.` or `..` segment occurs in `p`.
pub open spec fn is_plain(p: Seq<Part>) -> bool {
    forall|i: int| 0 <= i < p.len() ==> !(#[trigger] p[i] is Parent) && !(p[i] is Current)
}

/// Appending a segment appends its value.
pub proof fn lemma_parts_push(segments: Seq<Segment>, last: Segment)
    ensures
        forall|x: Segment| x@ == last@ ==> #[trigger] parts_of(segments.push(x)) == parts_of(segments).push(last@),
{
    assert forall|x: Segment| x@ == last@ implies #[trigger] parts_of(segments.push(x)) == parts_of(
        segments,
    ).push(last@) by {
        assert(parts_of(segments.push(x)) =~= parts_of(segments).push(last@));
    }
}

/// Whether two names have the same bytes.
fn same_bytes(a: &Vec<u8>, b: &Vec<u8>) -> (same: bool)
    ensures
        same == (a@ == b@),
{
    if a.len() != b.len() {
        return false;
    }
    let mut i: usize = 0;
    while i < a.len()
        invariant
            i <= a.len(),
            a.len() == b.len(),
            forall|j: int| 0 <= j < i ==> a@[j] == b@[j],
        decreases a.len() - i,
    {
        if a[i] != b[i] {
            return false;
        }
        i += 1;
    }
    assert(a@ =~= b@);
    true
}

impl Segment {
    /// A segment equal to this one.
    pub fn duplicate(&self) -> (copy: Segment)
        ensures
            copy@ == self@,
    {
        match self {
            Segment::Prefix(s) => Segment::Prefix(slice_to_vec(s.as_slice())),
            Segment::Root => Segment::Root,
            Segment::Current => Segment::Current,
            Segment::Parent => Segment::Parent,
            Segment::Name(s) => Segment::Name(slice_to_vec(s.as_slice())),
        }
    }

    /// Whether two segments are the same.
    pub fn same_as(&self, other: &Segment) -> (same: bool)
        ensures
            same == (self@ == other@),
    {
        match (self, other) {
            (Segment::Prefix(a), Segment::Prefix(b)) => same_bytes(a, b),
            (Segment::Root, Segment::Root) => true,
            (Segment::Current, Segment::Current) => true,
            (Segment::Parent, Segment::Parent) => true,
            (Segment::Name(a), Segment::Name(b)) => same_bytes(a, b),
            _ => false,
        }
    }
}

/// Reads the segments out of a path text with `std::path::Path::components`,
/// one segment for each component in the order given, a name with the bytes
/// that `OsStr::as_encoded_bytes` gives for it. The contract claims that the
/// segments are a function of the text alone, named `path_parts`.
#[verifier::external_body]
fn split_segments(text: &str) -> (segments: Vec<Segment>)
    ensures
        parts_of(segments@) == path_parts(text@),
{
    let mut segments = Vec::new();
    for component in std::path::Path::new(text).components() {
        let bytes = component.as_os_str().as_encoded_bytes().to_vec();
        segments.push(
            match component {
                std::path::Component::Prefix(_) => Segment::Prefix(bytes),
                std::path::Component::RootDir => Segment::Root,
                std::path::Component::CurDir => Segment::Current,
                std::path::Component::ParentDir => Segment::Parent,
                std::path::Component::Normal(_) => Segment::Name(bytes),
            },
        );
    }
    segments
}

impl LexPath {
    /// The empty path.
    pub fn new() -> (path: LexPath)
        ensures
            path@ == Seq::<Part>::empty(),
    {
        LexPath { segments: Vec::new() }
    }

    /// The path that a text denotes under the platform's path grammar.
    pub fn parse(text: &str) -> (path: LexPath)
        ensures
            path@ == path_parts(text@),
    {
        LexPath { segments: split_segments(text) }
    }

    /// A path equal to this one.
    pub fn duplicate(&self) -> (copy: LexPath)
        ensures
            copy@ == self@,
    {
        let mut segments: Vec<Segment> = Vec::new();
        let mut i: usize = 0;
        while i < self.segments.len()
            invariant
                i <= self.segments.len(),
                parts_of(segments@) == self@.take(i as int),
            decreases self.segments.len() - i,
        {
            proof {
                lemma_parts_push(segments@, self.segments[i as int]);
            }
            segments.push(self.segments[i].duplicate());
            i += 1;
            assert(parts_of(segments@) =~= self@.take(i as int));
        }
        assert(self@.take(i as int) =~= self@);
        LexPath { segments }
    }

    /// Whether two paths have the same segments.
    pub fn same_as(&self, other: &LexPath) -> (same: bool)
        ensures
            same == (self@ == other@),
    {
        if self.segments.len() != other.segments.len() {
            assert(self@.len() != other@.len());
            return false;
        }
        let mut i: usize = 0;
        while i < self.segments.len()
            invariant
                i <= self.segments.len(),
                self.segments.len() == other.segments.len(),
                forall|j: int| 0 <= j < i ==> self@[j] == other@[j],
            decreases self.segments.len() - i,
        {
            if !self.segments[i].same_as(&other.segments[i]) {
                assert(self@[i as int] != other@[i as int]);
                return false;
            }
            i += 1;
        }
        assert(self@ =~= other@);
        true
    }

    /// Whether this path lies at or below `base`. Only whole segments match.
    pub fn starts_with(&self, base: &LexPath) -> (under: bool)
        ensures
            under == lies_under(self@, base@),
    {
        if base.segments.len() > self.segments.len() {
            assert(base@.len() > self@.len());
            return false;
        }
        let mut i: usize = 0;
        while i < base.segments.len()
            invariant
                i <= base.segments.len(),
                base.segments.len() <= self.segments.len(),
                forall|j: int| 0 <= j < i ==> self@[j] == base@[j],
            decreases base.segments.len() - i,
        {
            if !self.segments[i].same_as(&base.segments[i]) {
                assert(self@[i as int] != base@[i as int]);
                return false;
            }
            i += 1;
        }
        true
    }

    /// The rest of this path after `base`, where this path lies at or below
    /// `base`, and nothing where it does not.
    pub fn strip_prefix(&self, base: &LexPath) -> (rest: Option<LexPath>)
        ensures
            rest is Some <==> lies_under(self@, base@),
            rest matches Some(r) ==> r@ == self@.skip(base@.len() as int),
    {
        if !self.starts_with(base) {
            return None;
        }
        let mut segments: Vec<Segment> = Vec::new();
        let start: usize = base.segments.len();
        let mut i: usize = start;
        while i < self.segments.len()
            invariant
                start <= i <= self.segments.len(),
                parts_of(segments@) == self@.subrange(start as int, i as int),
            decreases self.segments.len() - i,
        {
            proof {
                lemma_parts_push(segments@, self.segments[i as int]);
            }
            segments.push(self.segments[i].duplicate());
            i += 1;
            assert(parts_of(segments@) =~= self@.subrange(start as int, i as int));
        }
        assert(self@.subrange(start as int, i as int) =~= self@.skip(base@.len() as int));
        Some(LexPath { segments })
    }

    /// This path as seen from `root`.
    pub fn relative_to(&self, root: &LexPath) -> (rest: LexPath)
        ensures
            rest@ == relative_to(self@, root@),
    {
        match self.strip_prefix(root) {
            Some(rest) => rest,
            None => self.duplicate(),
        }
    }

    /// Whether this path starts at a root or a prefix.
    pub fn is_anchored(&self) -> (anchored: bool)
        ensures
            anchored == is_anchored(self@),
    {
        if self.segments.len() == 0 {
            return false;
        }
        match &self.segments[0] {
            Segment::Root => true,
            Segment::Prefix(_) => true,
            _ => false,
        }
    }

    /// `other` resolved against this path.
    pub fn join(&self, other: &LexPath) -> (path: LexPath)
        ensures
            path@ == joined(self@, other@),
    {
        if other.is_anchored() {
            return other.duplicate();
        }
        let mut path = self.duplicate();
        let mut i: usize = 0;
        while i < other.segments.len()
            invariant
                i <= other.segments.len(),
                path@ == self@ + other@.take(i as int),
            decreases other.segments.len() - i,
        {
            proof {
                lemma_parts_push(path.segments@, other.segments[i as int]);
            }
            path.segments.push(other.segments[i].duplicate());
            i += 1;
            assert(path@ =~= self@ + other@.take(i as int));
        }
        assert(other@.take(i as int) =~= other@);
        path
    }

    /// The directory that holds this path.
    pub fn parent(&self) -> (dir: LexPath)
        ensures
            dir@ == containing_dir(self@),
    {
        let n: usize = self.segments.len();
        if n == 0 {
            return LexPath::new();
        }
        match &self.segments[n - 1] {
            Segment::Root => {
                return LexPath::new();
            },
            Segment::Prefix(_) => {
                return LexPath::new();
            },
            _ => {},
        }
        let mut dir = self.duplicate();
        dir.segments.pop();
        assert(dir@ =~= self@.drop_last());
        dir
    }
}

/// Brings a path into normal form without looking at the file system.
pub fn normalize_path(path: &LexPath) -> (result: LexPath)
    ensures
        result@ == normalized(path@),
{
    let mut result = LexPath::new();
    let mut i: usize = 0;
    while i < path.segments.len()
        invariant
            i <= path.segments.len(),
            result@ == normalized(path@.take(i as int)),
        decreases path.segments.len() - i,
    {
        proof {
            assert(path@.take(i + 1).drop_last() =~= path@.take(i as int));
            assert(path@.take(i + 1).last() == path@[i as int]);
        }
        let ghost before = result@;
        match &path.segments[i] {
            Segment::Parent => {
                if result.segments.len() > 0 {
                    result.segments.pop();
                    assert(result@ =~= before.drop_last());
                }
            },
            Segment::Current => {},
            other => {
                result.segments.push(other.duplicate());
                assert(result@ =~= before.push(path@[i as int]));
            },
        }
        i += 1;
    }
    assert(path@.take(i as int) =~= path@);
    result
}

/// Whether two paths have the same normal form.
pub fn are_paths_equal(path1: &LexPath, path2: &LexPath) -> (equal: bool)
    ensures
        equal == (normalized(path1@) == normalized(path2@)),
{
    let norm_path1 = normalize_path(path1);
    let norm_path2 = normalize_path(path2);
    norm_path1.same_as(&norm_path2)
}

/// A normal form holds no `.` and no `..`.
pub proof fn lemma_normalized_is_plain(p: Seq<Part>)
    ensures
        is_plain(normalized(p)),
    decreases p.len(),
{
    if p.len() > 0 {
        lemma_normalized_is_plain(p.drop_last());
    }
}

/// A path without `.` and `..` is its own normal form.
pub proof fn lemma_plain_is_normalized(p: Seq<Part>)
    requires
        is_plain(p),
    ensures
        normalized(p) == p,
    decreases p.len(),
{
    if p.len() > 0 {
        lemma_plain_is_normalized(p.drop_last());
        assert(p.drop_last().push(p.last()) =~= p);
    }
}

/// Normalising twice gives what normalising once gives.
pub proof fn lemma_normalized_idempotent(p: Seq<Part>)
    ensures
        normalized(normalized(p)) == normalized(p),
{
    lemma_normalized_is_plain(p);
    lemma_plain_is_normalized(normalized(p));
}

} // verus!
