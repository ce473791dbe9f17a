//! The include expander: what one source file becomes in the target tree.
//!
//! A file is read line by line. A line that cannot be read as text makes the
//! whole file binary, and it is copied as it is. A line that is an include
//! directive is replaced by the text of the file it names, exactly one level
//! deep; where that file cannot be had as text, the line stays as it is.
//! Every line written ends in a line feed.

use crate::path::{
    containing_dir, joined, lemma_paths_push, normalize_path, normalized, path_parts, paths_view,
    LexPath, Part,
};
use crate::text::{
    byte_lines, chars_of, classify_line, directive_path, is_utf8, lines_of, split_lines, LineKind,
    LINE_FEED,
};
use vstd::prelude::*;
use vstd::string::*;
use vstd::utf8::*;

verus! {

/// What reading one include target gave: its bytes, or nothing where the
/// file is missing or cannot be read.
pub open spec fn reads_view(reads: Seq<Option<Vec<u8>>>) -> Seq<Option<Seq<u8>>> {
    reads.map_values(
        |r: Option<Vec<u8>>|
            match r {
                Some(bytes) => Some(bytes@),
                None => None,
            },
    )
}

/// Whether every line can be read as text.
pub open spec fn is_text(lines: Seq<Seq<u8>>) -> bool {
    forall|i: int| 0 <= i < lines.len() ==> valid_utf8(#[trigger] lines[i])
}

/// The path text that a line names, where the line is an include directive.
pub open spec fn line_directive(line: Seq<u8>, prefix: Seq<char>) -> Option<Seq<char>> {
    directive_path(decode_utf8(line), prefix)
}

/// How many of the lines are include directives.
pub open spec fn directive_count(lines: Seq<Seq<u8>>, prefix: Seq<char>) -> nat
    decreases lines.len(),
{
    if lines.len() == 0 {
        0
    } else {
        directive_count(lines.drop_last(), prefix) + if line_directive(lines.last(), prefix)
            is Some {
            1nat
        } else {
            0nat
        }
    }
}

/// The text to splice in for the directive with number `k`: the bytes read
/// for it, where there are any and they are text.
pub open spec fn splice_for(reads: Seq<Option<Seq<u8>>>, k: int) -> Option<Seq<u8>> {
    if 0 <= k < reads.len() && reads[k] is Some && valid_utf8(reads[k]->0) {
        reads[k]
    } else {
        None
    }
}

/// What is written for one line, before the line feed: the spliced text for
/// a directive that has one, and the line itself otherwise.
pub open spec fn emitted(line: Seq<u8>, prefix: Seq<char>, splice: Option<Seq<u8>>) -> Seq<u8> {
    if line_directive(line, prefix) is Some && splice is Some {
        splice->0
    } else {
        line
    }
}

/// The expansion of a text file: for each line in turn what is written for
/// it, then a line feed. The directives take their reads in order.
pub open spec fn expanded(
    lines: Seq<Seq<u8>>,
    prefix: Seq<char>,
    reads: Seq<Option<Seq<u8>>>,
) -> Seq<u8>
    decreases lines.len(),
{
    if lines.len() == 0 {
        Seq::empty()
    } else {
        let head = lines.drop_last();
        expanded(head, prefix, reads) + emitted(
            lines.last(),
            prefix,
            splice_for(reads, directive_count(head, prefix) as int),
        ) + seq![LINE_FEED]
    }
}

/// The files that the directives of a text file name, in order: each path
/// text resolved against the directory that holds the file.
pub open spec fn include_targets(
    lines: Seq<Seq<u8>>,
    dir: Seq<Part>,
    prefix: Seq<char>,
) -> Seq<Seq<Part>>
    decreases lines.len(),
{
    if lines.len() == 0 {
        Seq::empty()
    } else {
        let head = include_targets(lines.drop_last(), dir, prefix);
        match line_directive(lines.last(), prefix) {
            Some(text) => head.push(joined(dir, path_parts(text))),
            None => head,
        }
    }
}

/// The normal forms of a run of paths.
pub open spec fn all_normalized(paths: Seq<Seq<Part>>) -> Seq<Seq<Part>> {
    paths.map_values(|p: Seq<Part>| normalized(p))
}

/// The bytes that a source file becomes: a binary file stays as it is, and
/// a text file is expanded line by line.
pub open spec fn output_of(
    content: Seq<u8>,
    prefix: Seq<char>,
    reads: Seq<Option<Seq<u8>>>,
) -> Seq<u8> {
    if is_text(lines_of(content)) {
        expanded(lines_of(content), prefix, reads)
    } else {
        content
    }
}

/// The files to read for the source file at `path`: those that its
/// directives name, and none for a binary file.
pub open spec fn targets_of(path: Seq<Part>, content: Seq<u8>, prefix: Seq<char>) -> Seq<
    Seq<Part>,
> {
    if is_text(lines_of(content)) {
        include_targets(lines_of(content), containing_dir(path), prefix)
    } else {
        Seq::empty()
    }
}

/// The files that the source file at `path` includes: the normal forms of
/// the files to read for it.
pub open spec fn includes_of(path: Seq<Part>, content: Seq<u8>, prefix: Seq<char>) -> Seq<
    Seq<Part>,
> {
    all_normalized(targets_of(path, content, prefix))
}

/// Why a file could not be expanded.
#[derive(Debug, Clone, Copy, PartialEq, Eq, Structural)]
pub enum ExpandError {
    /// The file is not there.
    NotFound,
    /// The file holds what cannot be read as text.
    InvalidEncoding,
    /// The file could not be opened, read or written for another reason.
    Other,
}

/// What the expander makes of one source file.
#[derive(Debug, Clone, PartialEq, Eq)]
pub struct Expansion {
    /// The bytes of the output file.
    pub output: Vec<u8>,
    /// For each directive in order, the file that it names: the path to
    /// read for it.
    pub targets: Vec<LexPath>,
    /// For each directive in order, the normal form of that path: the
    /// included file that the source now depends on.
    pub includes: Vec<LexPath>,
}

/// The two paths of an include: where the included file is read, and the
/// normal form under which the dependency is recorded.
pub fn resolve_include(file: &LexPath, included: &LexPath) -> (paths: (LexPath, LexPath))
    ensures
        paths.0@ == joined(containing_dir(file@), included@),
        paths.1@ == normalized(paths.0@),
{
    let dir = file.parent();
    let target = dir.join(included);
    let resolved = normalize_path(&target);
    (target, resolved)
}

/// Appends bytes to an output.
fn append_bytes(out: &mut Vec<u8>, more: &Vec<u8>)
    ensures
        final(out)@ == old(out)@ + more@,
{
    let mut i: usize = 0;
    while i < more.len()
        invariant
            i <= more.len(),
            out@ == old(out)@ + more@.take(i as int),
        decreases more.len() - i,
    {
        out.push(more[i]);
        i += 1;
        assert(out@ =~= old(out)@ + more@.take(i as int));
    }
    assert(more@.take(i as int) =~= more@);
}

/// A copy of some bytes.
fn copy_bytes(bytes: &Vec<u8>) -> (copy: Vec<u8>)
    ensures
        copy@ == bytes@,
{
    let mut copy: Vec<u8> = Vec::new();
    append_bytes(&mut copy, bytes);
    assert(copy@ =~= bytes@);
    copy
}

/// Whether the read with number `k` gave text to splice in.
fn has_splice(reads: &Vec<Option<Vec<u8>>>, k: usize) -> (usable: bool)
    ensures
        usable == (splice_for(reads_view(reads@), k as int) is Some),
        usable ==> k < reads.len() && reads[k as int] is Some && splice_for(
            reads_view(reads@),
            k as int,
        ) == Some(reads[k as int]->0@),
{
    if k >= reads.len() {
        return false;
    }
    match &reads[k] {
        Some(bytes) => is_utf8(bytes),
        None => false,
    }
}

/// Expands one source file.
///
/// `content` holds the bytes of the file at `path`, `include_string` the
/// prefix that marks a directive, and `reads` what reading the include
/// targets gave, one entry for each directive in order; a directive without
/// an entry counts as one whose file could not be read. So a first call
/// without reads tells what to read, and a second call with what was read
/// gives the output.
///
/// A file with a line that is no text is binary: its output is the content
/// as it is, and it includes nothing. For a text file the output is
/// `expanded`, and the targets and includes are those of its directives,
/// whatever reading them gave.
pub fn process_file(
    path: &LexPath,
    content: &Vec<u8>,
    include_string: &str,
    reads: &Vec<Option<Vec<u8>>>,
) -> (expansion: Expansion)
    ensures
        expansion.output@ == output_of(content@, include_string@, reads_view(reads@)),
        paths_view(expansion.targets@) == targets_of(path@, content@, include_string@),
        paths_view(expansion.includes@) == includes_of(path@, content@, include_string@),
{
    let prefix = chars_of(include_string);
    let lines = split_lines(content);
    let ghost all = lines_of(content@);
    let ghost dir = containing_dir(path@);
    let ghost given = reads_view(reads@);
    let mut output: Vec<u8> = Vec::new();
    let mut targets: Vec<LexPath> = Vec::new();
    let mut includes: Vec<LexPath> = Vec::new();
    let mut k: usize = 0;
    let mut i: usize = 0;
    while i < lines.len()
        invariant
            i <= lines.len(),
            k <= i,
            byte_lines(lines@) == all,
            all == lines_of(content@),
            dir == containing_dir(path@),
            given == reads_view(reads@),
            prefix@ == include_string@,
            is_text(all.take(i as int)),
            output@ == expanded(all.take(i as int), prefix@, given),
            k == directive_count(all.take(i as int), prefix@),
            paths_view(targets@) == include_targets(all.take(i as int), dir, prefix@),
            paths_view(includes@) == all_normalized(
                include_targets(all.take(i as int), dir, prefix@),
            ),
        decreases lines.len() - i,
    {
        let line = &lines[i];
        proof {
            assert(all.take(i + 1).drop_last() =~= all.take(i as int));
            assert(all.take(i + 1).last() == line@);
        }
        match classify_line(line, &prefix) {
            LineKind::Binary => {
                assert(!valid_utf8(all[i as int]));
                let unchanged = Expansion {
                    output: copy_bytes(content),
                    targets: Vec::new(),
                    includes: Vec::new(),
                };
                assert(paths_view(unchanged.targets@) =~= Seq::<Seq<Part>>::empty());
                assert(paths_view(unchanged.includes@) =~= all_normalized(Seq::empty()));
                return unchanged;
            },
            LineKind::Plain => {
                append_bytes(&mut output, line);
            },
            LineKind::Directive(text) => {
                let included = LexPath::parse(text.as_str());
                let (target, resolved) = resolve_include(path, &included);
                proof {
                    lemma_paths_push(targets@, target);
                    lemma_paths_push(includes@, resolved);
                    assert(all_normalized(paths_view(targets@).push(target@)) =~= all_normalized(
                        paths_view(targets@),
                    ).push(resolved@));
                }
                targets.push(target);
                includes.push(resolved);
                if has_splice(reads, k) {
                    match &reads[k] {
                        Some(bytes) => {
                            append_bytes(&mut output, bytes);
                        },
                        None => {},
                    }
                } else {
                    append_bytes(&mut output, line);
                }
                k += 1;
            },
        }
        output.push(LINE_FEED);
        i += 1;
        assert(is_text(all.take(i as int))) by {
            assert forall|j: int| 0 <= j < i implies valid_utf8(#[trigger] all.take(i as int)[j]) by {
                if j < i - 1 {
                    assert(all.take(i - 1)[j] == all.take(i as int)[j]);
                }
            }
        }
    }
    assert(all.take(i as int) =~= all);
    Expansion { output, targets, includes }
}

/// The number that the directive on line `i` has among the directives of
/// the file: the position of its read.
pub open spec fn directive_number(lines: Seq<Seq<u8>>, prefix: Seq<char>, i: int) -> int {
    directive_count(lines.take(i), prefix) as int
}

/// The output for the first lines of a file is where the output for the
/// whole file begins.
pub proof fn lemma_expanded_prefix(
    lines: Seq<Seq<u8>>,
    prefix: Seq<char>,
    reads: Seq<Option<Seq<u8>>>,
    n: int,
)
    requires
        0 <= n <= lines.len(),
    ensures
        expanded(lines.take(n), prefix, reads).is_prefix_of(expanded(lines, prefix, reads)),
    decreases lines.len(),
{
    if n == lines.len() {
        assert(lines.take(n) =~= lines);
    } else {
        let head = lines.drop_last();
        lemma_expanded_prefix(head, prefix, reads, n);
        assert(head.take(n) =~= lines.take(n));
    }
}

/// Each line gives one stretch of the output: what is written for it, then
/// a line feed, right after the output for the lines before it.
pub proof fn lemma_line_output(
    lines: Seq<Seq<u8>>,
    prefix: Seq<char>,
    reads: Seq<Option<Seq<u8>>>,
    i: int,
)
    requires
        0 <= i < lines.len(),
    ensures
        expanded(lines.take(i + 1), prefix, reads) == expanded(lines.take(i), prefix, reads)
            + emitted(lines[i], prefix, splice_for(reads, directive_number(lines, prefix, i)))
            + seq![LINE_FEED],
        expanded(lines.take(i + 1), prefix, reads).is_prefix_of(expanded(lines, prefix, reads)),
{
    assert(lines.take(i + 1).drop_last() =~= lines.take(i));
    assert(lines.take(i + 1).last() == lines[i]);
    lemma_expanded_prefix(lines, prefix, reads, i + 1);
}

/// Substitution is one level deep: where a directive's file was read as
/// text, that text stands in the output byte for byte, whatever it holds,
/// directives of its own included.
pub proof fn lemma_included_text_verbatim(
    lines: Seq<Seq<u8>>,
    prefix: Seq<char>,
    reads: Seq<Option<Seq<u8>>>,
    i: int,
    included: Seq<u8>,
)
    requires
        0 <= i < lines.len(),
        line_directive(lines[i], prefix) is Some,
        0 <= directive_number(lines, prefix, i) < reads.len(),
        reads[directive_number(lines, prefix, i)] == Some(included),
        valid_utf8(included),
    ensures
        expanded(lines.take(i + 1), prefix, reads) == expanded(lines.take(i), prefix, reads)
            + included + seq![LINE_FEED],
        expanded(lines.take(i + 1), prefix, reads).is_prefix_of(expanded(lines, prefix, reads)),
{
    lemma_line_output(lines, prefix, reads, i);
}

/// A directive whose file could not be had as text stays in the output as
/// it was written: the file is missing or unreadable (no bytes were read),
/// or it is binary (the bytes read are no text).
pub proof fn lemma_failed_include_keeps_line(
    lines: Seq<Seq<u8>>,
    prefix: Seq<char>,
    reads: Seq<Option<Seq<u8>>>,
    i: int,
)
    requires
        0 <= i < lines.len(),
        line_directive(lines[i], prefix) is Some,
        ({
            let k = directive_number(lines, prefix, i);
            k >= reads.len() || reads[k] is None || !valid_utf8(reads[k]->0)
        }),
    ensures
        expanded(lines.take(i + 1), prefix, reads) == expanded(lines.take(i), prefix, reads)
            + lines[i] + seq![LINE_FEED],
        expanded(lines.take(i + 1), prefix, reads).is_prefix_of(expanded(lines, prefix, reads)),
{
    lemma_line_output(lines, prefix, reads, i);
}

/// A line that is no directive is copied as it is.
pub proof fn lemma_plain_line_copied(
    lines: Seq<Seq<u8>>,
    prefix: Seq<char>,
    reads: Seq<Option<Seq<u8>>>,
    i: int,
)
    requires
        0 <= i < lines.len(),
        line_directive(lines[i], prefix) is None,
    ensures
        expanded(lines.take(i + 1), prefix, reads) == expanded(lines.take(i), prefix, reads)
            + lines[i] + seq![LINE_FEED],
        expanded(lines.take(i + 1), prefix, reads).is_prefix_of(expanded(lines, prefix, reads)),
{
    lemma_line_output(lines, prefix, reads, i);
}

/// A binary file goes to the target tree byte for byte, and includes
/// nothing.
pub proof fn lemma_binary_passes_through(
    path: Seq<Part>,
    content: Seq<u8>,
    prefix: Seq<char>,
    reads: Seq<Option<Seq<u8>>>,
    i: int,
)
    requires
        0 <= i < lines_of(content).len(),
        !valid_utf8(lines_of(content)[i]),
    ensures
        output_of(content, prefix, reads) == content,
        includes_of(path, content, prefix) == Seq::<Seq<Part>>::empty(),
{
    assert(includes_of(path, content, prefix) =~= Seq::<Seq<Part>>::empty());
}

/// Every directive names an include, whatever reading its file gave: the
/// file that the directive on line `i` names is among the targets, and its
/// normal form among the includes, both at the directive's number.
pub proof fn lemma_directive_is_included(
    lines: Seq<Seq<u8>>,
    dir: Seq<Part>,
    prefix: Seq<char>,
    i: int,
)
    requires
        0 <= i < lines.len(),
        line_directive(lines[i], prefix) is Some,
    ensures
        ({
            let k = directive_number(lines, prefix, i);
            let target = joined(dir, path_parts(line_directive(lines[i], prefix)->0));
            let targets = include_targets(lines, dir, prefix);
            &&& 0 <= k < targets.len()
            &&& targets[k] == target
            &&& all_normalized(targets)[k] == normalized(target)
        }),
    decreases lines.len(),
{
    lemma_targets_count(lines, dir, prefix);
    let head = lines.drop_last();
    if i == lines.len() - 1 {
        assert(lines.take(i) =~= head);
        lemma_targets_count(head, dir, prefix);
    } else {
        lemma_directive_is_included(head, dir, prefix, i);
        assert(head.take(i) =~= lines.take(i));
        assert(head[i] == lines[i]);
    }
}

/// A file has as many targets as directives.
pub proof fn lemma_targets_count(lines: Seq<Seq<u8>>, dir: Seq<Part>, prefix: Seq<char>)
    ensures
        include_targets(lines, dir, prefix).len() == directive_count(lines, prefix),
    decreases lines.len(),
{
    if lines.len() > 0 {
        lemma_targets_count(lines.drop_last(), dir, prefix);
    }
}

/// The files of a tree, as a mathematical value: each path that holds a
/// file, with the bytes of that file.
pub type Files = Map<Seq<Part>, Seq<u8>>;

/// What reading each of `targets` gives in a tree.
pub open spec fn reads_from(fs: Files, targets: Seq<Seq<Part>>) -> Seq<Option<Seq<u8>>> {
    targets.map_values(
        |t: Seq<Part>|
            if fs.dom().contains(t) {
                Some(fs[t])
            } else {
                None::<Seq<u8>>
            },
    )
}

/// A tree after the file at `source` was expanded into the file at
/// `output`. Where there is no file at `source`, nothing is written.
pub open spec fn after_expansion(
    fs: Files,
    source: Seq<Part>,
    output: Seq<Part>,
    prefix: Seq<char>,
) -> Files {
    if fs.dom().contains(source) {
        let content = fs[source];
        let reads = reads_from(fs, targets_of(source, content, prefix));
        fs.insert(output, output_of(content, prefix, reads))
    } else {
        fs
    }
}

/// Whether an expansion left alone what it read: the source and the files
/// that the source names hold after it what they held before.
pub open spec fn sources_unchanged(
    fs: Files,
    source: Seq<Part>,
    output: Seq<Part>,
    prefix: Seq<char>,
) -> bool {
    let after = after_expansion(fs, source, output, prefix);
    fs.dom().contains(source) ==> {
        let targets = targets_of(source, fs[source], prefix);
        &&& after[source] == fs[source]
        &&& reads_from(after, targets) == reads_from(fs, targets)
    }
}

/// Writing the output somewhere else than the source and the files that it
/// names leaves the sources unchanged.
pub proof fn lemma_output_elsewhere(
    fs: Files,
    source: Seq<Part>,
    output: Seq<Part>,
    prefix: Seq<char>,
)
    requires
        output != source,
        fs.dom().contains(source) ==> !targets_of(source, fs[source], prefix).contains(output),
    ensures
        sources_unchanged(fs, source, output, prefix),
{
    if fs.dom().contains(source) {
        let targets = targets_of(source, fs[source], prefix);
        let after = after_expansion(fs, source, output, prefix);
        assert(reads_from(after, targets) =~= reads_from(fs, targets)) by {
            assert forall|k: int| 0 <= k < targets.len() implies reads_from(after, targets)[k]
                == reads_from(fs, targets)[k] by {
                assert(targets[k] != output);
            }
        }
    }
}

/// Expanding again what was expanded changes nothing: where the first
/// expansion left the sources unchanged, a second one, run on the tree
/// that holds the output of the first, writes the same bytes.
pub proof fn lemma_expansion_idempotent(
    fs: Files,
    source: Seq<Part>,
    output: Seq<Part>,
    prefix: Seq<char>,
)
    requires
        sources_unchanged(fs, source, output, prefix),
    ensures
        after_expansion(after_expansion(fs, source, output, prefix), source, output, prefix)
            == after_expansion(fs, source, output, prefix),
{
    if fs.dom().contains(source) {
        let once = after_expansion(fs, source, output, prefix);
        assert(once.dom().contains(source));
        assert(after_expansion(once, source, output, prefix) =~= once);
    }
}

} // verus!
