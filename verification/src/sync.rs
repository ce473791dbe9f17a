//! The initial pass over the source tree: which files to expand, where each
//! goes in the target tree, and what the graph learns from each expansion.

use crate::expand::{
    directive_number, includes_of, is_text, lemma_directive_is_included, line_directive,
    ExpandError,
};
use crate::graph::{
    includers_of, lemma_record_all_grows, seen_from, with_edges, Dependencies, DependencyGraph,
};
use crate::path::{
    are_paths_equal, containing_dir, joined, lemma_paths_push, lies_under, normalized, path_parts,
    paths_view, relative_to, LexPath, Part,
};
use crate::text::lines_of;
use vstd::prelude::*;

verus! {

/// One entry of a directory walk, as a mathematical value.
pub struct Entry {
    pub path: Seq<Part>,
    pub depth: nat,
    pub is_file: bool,
}

/// One entry of a directory walk. A walk lists a directory before what it
/// holds, and `depth` counts the directories between the entry and the
/// place where the walk began.
#[derive(Debug, Clone, PartialEq, Eq)]
pub struct WalkEntry {
    pub path: LexPath,
    pub depth: usize,
    pub is_file: bool,
}

impl View for WalkEntry {
    type V = Entry;

    open spec fn view(&self) -> Entry {
        Entry { path: self.path@, depth: self.depth as nat, is_file: self.is_file }
    }
}

/// The values of the entries of a walk.
pub open spec fn entries_view(entries: Seq<WalkEntry>) -> Seq<Entry> {
    entries.map_values(|e: WalkEntry| e@)
}

/// Whether entry `j` is the target root and every entry after it and before
/// `end` lies deeper than it, that is, inside it.
pub open spec fn covers(entries: Seq<Entry>, target: Seq<Part>, j: int, end: int) -> bool {
    &&& normalized(entries[j].path) == normalized(target)
    &&& forall|k: int| j < k < end ==> (#[trigger] entries[k]).depth > entries[j].depth
}

/// Whether entry `i` is left out of the walk: it is the target root, or it
/// lies inside an entry that is.
pub open spec fn pruned(entries: Seq<Entry>, target: Seq<Part>, i: int) -> bool {
    exists|j: int| 0 <= j <= i && #[trigger] covers(entries, target, j, i + 1)
}

/// The files of a walk that are not left out, in the order of the walk.
pub open spec fn listed(entries: Seq<Entry>, target: Seq<Part>) -> Seq<Seq<Part>>
    decreases entries.len(),
{
    if entries.len() == 0 {
        Seq::empty()
    } else {
        let head = listed(entries.drop_last(), target);
        let last = entries.last();
        if last.is_file && !pruned(entries, target, entries.len() - 1) {
            head.push(last.path)
        } else {
            head
        }
    }
}

/// Whether an entry is left out depends only on the entries up to it.
pub proof fn lemma_pruned_prefix(entries: Seq<Entry>, target: Seq<Part>, i: int, n: int)
    requires
        0 <= i < n <= entries.len(),
    ensures
        pruned(entries.take(n), target, i) == pruned(entries, target, i),
{
    let short = entries.take(n);
    if pruned(short, target, i) {
        let j = choose|j: int| 0 <= j <= i && #[trigger] covers(short, target, j, i + 1);
        assert(covers(entries, target, j, i + 1)) by {
            assert(short[j] == entries[j]);
            assert forall|k: int| j < k < i + 1 implies (#[trigger] entries[k]).depth
                > entries[j].depth by {
                assert(short[k].depth > short[j].depth);
            }
        }
    }
    if pruned(entries, target, i) {
        let j = choose|j: int| 0 <= j <= i && #[trigger] covers(entries, target, j, i + 1);
        assert(covers(short, target, j, i + 1)) by {
            assert(short[j] == entries[j]);
            assert forall|k: int| j < k < i + 1 implies (#[trigger] short[k]).depth
                > short[j].depth by {
                assert(entries[k].depth > entries[j].depth);
            }
        }
    }
}

/// Lists the files of a walk of the source tree, leaving out the target
/// root and all that lies inside it.
pub fn list_of_paths(entries: &Vec<WalkEntry>, target: &LexPath) -> (paths: Vec<LexPath>)
    ensures
        paths_view(paths@) == listed(entries_view(entries@), target@),
{
    let ghost all = entries_view(entries@);
    let mut paths: Vec<LexPath> = Vec::new();
    let mut skip: Option<usize> = None;
    let mut i: usize = 0;
    while i < entries.len()
        invariant
            i <= entries.len(),
            all == entries_view(entries@),
            paths_view(paths@) == listed(all.take(i as int), target@),
            skip matches Some(d) ==> exists|j: int|
                0 <= j < i && #[trigger] covers(all, target@, j, i as int) && all[j].depth == d,
            forall|j: int|
                0 <= j < i && #[trigger] covers(all, target@, j, i as int) ==> skip is Some
                    && skip->0 <= all[j].depth,
        decreases entries.len() - i,
    {
        let entry = &entries[i];
        let ghost at = i as int;
        proof {
            assert(all[at] == entry@);
            assert(all.take(at + 1).drop_last() =~= all.take(at));
            assert(all.take(at + 1).last() == all[at]);
            lemma_pruned_prefix(all, target@, at, at + 1);
        }
        let inside = match skip {
            Some(d) => entry.depth > d,
            None => false,
        };
        if inside {
            proof {
                let j = choose|j: int|
                    0 <= j < i && #[trigger] covers(all, target@, j, at) && all[j].depth
                        == skip->0;
                assert(covers(all, target@, j, at + 1));
                assert(pruned(all, target@, at));
                assert forall|j2: int|
                    0 <= j2 < at + 1 && #[trigger] covers(
                        all,
                        target@,
                        j2,
                        at + 1,
                    ) implies skip is Some && skip->0 <= all[j2].depth by {
                    if j2 < at {
                        assert(covers(all, target@, j2, at));
                    }
                }
            }
        } else {
            proof {
                assert forall|j2: int| 0 <= j2 < at implies !#[trigger] covers(
                    all,
                    target@,
                    j2,
                    at + 1,
                ) by {
                    if covers(all, target@, j2, at + 1) {
                        assert(covers(all, target@, j2, at));
                        assert(all[at].depth > all[j2].depth);
                    }
                }
            }
            if are_paths_equal(&entry.path, target) {
                skip = Some(entry.depth);
                proof {
                    assert(covers(all, target@, at, at + 1));
                    assert(pruned(all, target@, at));
                }
            } else {
                skip = None;
                proof {
                    assert(!covers(all, target@, at, at + 1));
                    assert(!pruned(all, target@, at));
                }
                if entry.is_file {
                    let copy = entry.path.duplicate();
                    proof {
                        lemma_paths_push(paths@, copy);
                    }
                    paths.push(copy);
                }
            }
        }
        i += 1;
    }
    assert(all.take(i as int) =~= all);
    paths
}

/// One expansion to carry out, as a mathematical value.
pub struct JobView {
    pub source: Seq<Part>,
    pub output: Seq<Part>,
    pub relative: Seq<Part>,
}

/// One expansion to carry out: the file at `source` is expanded into the
/// file at `output`. `relative` names the file inside the source tree, and
/// is the name under which the graph knows it.
#[derive(Debug, Clone, PartialEq, Eq)]
pub struct Job {
    pub source: LexPath,
    pub output: LexPath,
    pub relative: LexPath,
}

impl View for Job {
    type V = JobView;

    open spec fn view(&self) -> JobView {
        JobView { source: self.source@, output: self.output@, relative: self.relative@ }
    }
}

/// The expansion of a file that lies in the source tree: its output has the
/// same place in the target tree.
pub open spec fn mirror_job(file: Seq<Part>, source_root: Seq<Part>, target_root: Seq<Part>) -> JobView {
    let relative = file.skip(source_root.len() as int);
    JobView { source: file, output: joined(target_root, relative), relative }
}

/// The expansion of the file that the graph knows as `relative`.
pub open spec fn refresh_job(
    relative: Seq<Part>,
    source_root: Seq<Part>,
    target_root: Seq<Part>,
) -> JobView {
    JobView {
        source: joined(source_root, relative),
        output: joined(target_root, relative),
        relative,
    }
}

/// A source tree, the target tree that mirrors it, and what is known of the
/// includes between the files of the source tree.
pub struct Mirror {
    pub source_root: LexPath,
    pub target_root: LexPath,
    pub graph: DependencyGraph,
}

impl Mirror {
    /// Whether the graph is in order.
    pub open spec fn wf(&self) -> bool {
        self.graph.wf()
    }

    /// A mirror of `source_root` at `target_root` that knows of no include.
    pub fn new(source_root: LexPath, target_root: LexPath) -> (mirror: Mirror)
        ensures
            mirror.wf(),
            mirror.source_root == source_root,
            mirror.target_root == target_root,
            mirror.graph@ == Map::<Seq<Part>, Set<Seq<Part>>>::empty(),
    {
        Mirror { source_root, target_root, graph: DependencyGraph::new() }
    }

    /// The expansion of a file found in the source tree, and nothing for a
    /// file that does not lie in it.
    pub fn job_for(&self, file: &LexPath) -> (job: Option<Job>)
        ensures
            job is Some <==> lies_under(file@, self.source_root@),
            job matches Some(j) ==> j@ == mirror_job(
                file@,
                self.source_root@,
                self.target_root@,
            ),
    {
        match file.strip_prefix(&self.source_root) {
            None => None,
            Some(relative) => {
                let output = self.target_root.join(&relative);
                Some(Job { source: file.duplicate(), output, relative })
            },
        }
    }

    /// Takes note of what an expansion found: the expanded file includes
    /// each of `includes`. The included files are recorded as seen from the
    /// source root.
    pub fn record_expansion(&mut self, job: &Job, includes: &Vec<LexPath>)
        requires
            old(self).wf(),
        ensures
            final(self).wf(),
            final(self).source_root == old(self).source_root,
            final(self).target_root == old(self).target_root,
            final(self).graph@ == with_edges(
                old(self).graph@,
                seen_from(paths_view(includes@), old(self).source_root@),
                job.relative@,
            ),
    {
        self.graph.record_all(includes, &self.source_root, &job.relative);
    }

    /// Takes note of how an expansion went: what it found is recorded, and
    /// a failure changes nothing and stops nothing.
    pub fn record_outcome(&mut self, job: &Job, outcome: &Result<Vec<LexPath>, ExpandError>)
        requires
            old(self).wf(),
        ensures
            final(self).wf(),
            final(self).source_root == old(self).source_root,
            final(self).target_root == old(self).target_root,
            final(self).graph@ == graph_after(
                old(self).graph@,
                old(self).source_root@,
                job.relative@,
                outcome,
            ),
    {
        match outcome {
            Ok(includes) => {
                self.record_expansion(job, includes);
            },
            Err(_) => {},
        }
    }
}

/// The graph after an expansion of the file known as `including`: with an
/// edge for each include found, and as it was where the expansion failed.
pub open spec fn graph_after(
    g: Dependencies,
    source_root: Seq<Part>,
    including: Seq<Part>,
    outcome: &Result<Vec<LexPath>, ExpandError>,
) -> Dependencies {
    match outcome {
        Ok(includes) => with_edges(g, seen_from(paths_view(includes@), source_root), including),
        Err(_) => g,
    }
}

/// The walk never brings back the mirror's own output: each listed path is
/// that of a file that was not left out, and so is not the target root.
pub proof fn lemma_listed_skips_target(entries: Seq<Entry>, target: Seq<Part>, k: int)
    requires
        0 <= k < listed(entries, target).len(),
    ensures
        exists|i: int|
            0 <= i < entries.len() && (#[trigger] entries[i]).is_file && !pruned(
                entries,
                target,
                i,
            ) && entries[i].path == listed(entries, target)[k],
        normalized(listed(entries, target)[k]) != normalized(target),
    decreases entries.len(),
{
    let head = entries.drop_last();
    let n = entries.len() - 1;
    if k < listed(head, target).len() {
        lemma_listed_skips_target(head, target, k);
        let i = choose|i: int|
            0 <= i < head.len() && (#[trigger] head[i]).is_file && !pruned(head, target, i)
                && head[i].path == listed(head, target)[k];
        assert(head =~= entries.take(n));
        lemma_pruned_prefix(entries, target, i, n);
        assert(entries[i] == head[i]);
    } else {
        assert(entries[n].is_file && !pruned(entries, target, n));
        assert(!covers(entries, target, n, n + 1));
    }
}

/// An include is recorded whether or not its file could be read: once the
/// includes of a text file are recorded, the graph knows the file as an
/// includer of what each of its directives names.
pub proof fn lemma_directive_is_recorded(
    g: Dependencies,
    path: Seq<Part>,
    content: Seq<u8>,
    prefix: Seq<char>,
    root: Seq<Part>,
    including: Seq<Part>,
    i: int,
)
    requires
        is_text(lines_of(content)),
        0 <= i < lines_of(content).len(),
        line_directive(lines_of(content)[i], prefix) is Some,
    ensures
        ({
            let text = line_directive(lines_of(content)[i], prefix)->0;
            let included = normalized(joined(containing_dir(path), path_parts(text)));
            let after = with_edges(
                g,
                seen_from(includes_of(path, content, prefix), root),
                including,
            );
            includers_of(after, relative_to(included, root)).contains(including)
        }),
{
    let lines = lines_of(content);
    lemma_directive_is_included(lines, containing_dir(path), prefix, i);
    let keys = seen_from(includes_of(path, content, prefix), root);
    let k = directive_number(lines, prefix, i);
    lemma_record_all_grows(g, keys, including);
    assert(keys[k] == relative_to(includes_of(path, content, prefix)[k], root));
}

} // verus!
