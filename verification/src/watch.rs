//! The watch dispatcher: what to do when the file system reports a change.
//!
//! The dispatcher decides, and its caller acts. For each path of an event
//! `plan_event` says what is to be done. Where that is an expansion, the
//! caller carries it out and hands the result to `complete_change`, which
//! records what the expansion found and names the files that include the
//! changed one. Those are expanded again, and that is all: what includes
//! them in turn is left alone.

use crate::expand::ExpandError;
use crate::graph::{includers_of, Dependencies};
use crate::path::{joined, lies_under, normalize_path, normalized, relative_to, LexPath, Part};
use crate::sync::{graph_after, refresh_job, Job, JobView, Mirror};
use vstd::prelude::*;

verus! {

/// What an event reports of its paths.
#[derive(Debug, Clone, Copy, PartialEq, Eq, Structural)]
pub enum ChangeKind {
    /// The paths were read.
    Access,
    /// The paths were removed.
    Remove,
    /// The paths were created or changed.
    Update,
}

/// What is to be done for one path of an event, as a mathematical value.
pub enum PlanView {
    Ignore,
    Unresolvable,
    RemoveOutput(Seq<Part>),
    Expand(JobView),
}

/// What is to be done for one path of an event.
#[derive(Debug, Clone, PartialEq, Eq)]
pub enum Plan {
    /// Nothing.
    Ignore,
    /// Nothing: the path has no place in the source tree.
    Unresolvable,
    /// Delete the file at this path of the target tree, if there is one.
    RemoveOutput(LexPath),
    /// Expand the file, then report with `complete_change`.
    Expand(Job),
}

impl View for Plan {
    type V = PlanView;

    open spec fn view(&self) -> PlanView {
        match self {
            Plan::Ignore => PlanView::Ignore,
            Plan::Unresolvable => PlanView::Unresolvable,
            Plan::RemoveOutput(p) => PlanView::RemoveOutput(p@),
            Plan::Expand(j) => PlanView::Expand(j@),
        }
    }
}

/// What is to be done for a removed path, given in normal form: its mirror
/// in the target tree goes, as long as that lies in the target tree.
pub open spec fn removal_plan(path: Seq<Part>, source_root: Seq<Part>, target_root: Seq<Part>) -> PlanView {
    if !lies_under(path, source_root) {
        PlanView::Unresolvable
    } else {
        let output = joined(target_root, path.skip(source_root.len() as int));
        if lies_under(output, target_root) {
            PlanView::RemoveOutput(output)
        } else {
            PlanView::Ignore
        }
    }
}

/// What is to be done for a created or changed path, given in normal form.
/// A path in the target tree is the mirror's own output and is ignored.
/// Any other is placed in the source tree by its resolved form, which is
/// the path itself where the file system gave none.
pub open spec fn update_plan(
    path: Seq<Part>,
    resolved: Option<Seq<Part>>,
    source_root: Seq<Part>,
    target_root: Seq<Part>,
) -> PlanView {
    let found = match resolved {
        Some(r) => r,
        None => path,
    };
    if lies_under(path, target_root) {
        PlanView::Ignore
    } else if !lies_under(found, source_root) {
        PlanView::Unresolvable
    } else {
        let relative = found.skip(source_root.len() as int);
        PlanView::Expand(
            JobView { source: path, output: joined(target_root, relative), relative },
        )
    }
}

/// What is to be done for one path of an event.
pub open spec fn planned(
    kind: ChangeKind,
    path: Seq<Part>,
    resolved: Option<Seq<Part>>,
    source_root: Seq<Part>,
    target_root: Seq<Part>,
) -> PlanView {
    match kind {
        ChangeKind::Access => PlanView::Ignore,
        ChangeKind::Remove => removal_plan(normalized(path), source_root, target_root),
        ChangeKind::Update => update_plan(normalized(path), resolved, source_root, target_root),
    }
}

/// Whether `jobs` are the expansions of exactly the files in `dependents`,
/// each once.
pub open spec fn refreshes(
    jobs: Seq<Job>,
    dependents: Set<Seq<Part>>,
    source_root: Seq<Part>,
    target_root: Seq<Part>,
) -> bool {
    &&& forall|i: int|
        0 <= i < jobs.len() ==> dependents.contains((#[trigger] jobs[i]).relative@) && jobs[i]@
            == refresh_job(jobs[i].relative@, source_root, target_root)
    &&& forall|d: Seq<Part>|
        dependents.contains(d) ==> exists|i: int|
            0 <= i < jobs.len() && (#[trigger] jobs[i]).relative@ == d
    &&& forall|i: int, j: int|
        0 <= i < j < jobs.len() ==> (#[trigger] jobs[i]).relative@ != (
        #[trigger] jobs[j]).relative@
}

impl Mirror {
    /// Decides what is to be done for one path of an event. `resolved` is
    /// the form of the path that the file system gave, with links followed,
    /// and nothing where it gave none.
    pub fn plan_event(&self, kind: ChangeKind, path: &LexPath, resolved: Option<&LexPath>) -> (plan:
        Plan)
        ensures
            plan@ == planned(
                kind,
                path@,
                match resolved {
                    Some(r) => Some(r@),
                    None => None,
                },
                self.source_root@,
                self.target_root@,
            ),
    {
        match kind {
            ChangeKind::Access => Plan::Ignore,
            ChangeKind::Remove => {
                let path = normalize_path(path);
                match path.strip_prefix(&self.source_root) {
                    None => Plan::Unresolvable,
                    Some(relative) => {
                        let output = self.target_root.join(&relative);
                        if output.starts_with(&self.target_root) {
                            Plan::RemoveOutput(output)
                        } else {
                            Plan::Ignore
                        }
                    },
                }
            },
            ChangeKind::Update => {
                let path = normalize_path(path);
                if path.starts_with(&self.target_root) {
                    return Plan::Ignore;
                }
                let found = match resolved {
                    Some(r) => r.strip_prefix(&self.source_root),
                    None => path.strip_prefix(&self.source_root),
                };
                match found {
                    None => Plan::Unresolvable,
                    Some(relative) => {
                        let output = self.target_root.join(&relative);
                        Plan::Expand(Job { source: path, output, relative })
                    },
                }
            },
        }
    }

    /// The expansions of the files known to include `changed`.
    pub fn refresh_jobs(&self, changed: &LexPath) -> (jobs: Vec<Job>)
        requires
            self.wf(),
        ensures
            refreshes(
                jobs@,
                includers_of(self.graph@, changed@),
                self.source_root@,
                self.target_root@,
            ),
    {
        let mut jobs: Vec<Job> = Vec::new();
        match self.graph.dependents_of(changed) {
            None => {},
            Some(dependents) => {
                let mut i: usize = 0;
                while i < dependents.len()
                    invariant
                        i <= dependents.len(),
                        jobs@.len() == i,
                        forall|j: int|
                            0 <= j < i ==> (#[trigger] jobs@[j]).relative@ == dependents@[j]@
                                && jobs@[j]@ == refresh_job(
                                dependents@[j]@,
                                self.source_root@,
                                self.target_root@,
                            ),
                    decreases dependents.len() - i,
                {
                    let relative = dependents[i].duplicate();
                    let source = self.source_root.join(&relative);
                    let output = self.target_root.join(&relative);
                    jobs.push(Job { source, output, relative });
                    i += 1;
                }
                proof {
                    let deps = includers_of(self.graph@, changed@);
                    assert forall|d: Seq<Part>| deps.contains(d) implies exists|i: int|
                        0 <= i < jobs@.len() && (#[trigger] jobs@[i]).relative@ == d by {
                        let k = choose|k: int|
                            0 <= k < dependents@.len() && (#[trigger] dependents@[k])@ == d;
                        assert(jobs@[k].relative@ == d);
                    }
                    assert forall|a: int, b: int| 0 <= a < b < jobs@.len() implies (
                    #[trigger] jobs@[a]).relative@ != (#[trigger] jobs@[b]).relative@ by {
                        assert(dependents@[a]@ != dependents@[b]@);
                    }
                    assert forall|i: int| 0 <= i < jobs@.len() implies deps.contains(
                        (#[trigger] jobs@[i]).relative@,
                    ) by {
                        assert(dependents@[i]@ == jobs@[i].relative@);
                    }
                }
            },
        }
        jobs
    }

    /// Takes note of how the expansion of a changed file went, and names
    /// the expansions that follow from the change.
    ///
    /// Where the expansion succeeded, its includes are recorded. Then the
    /// files known to include the changed file are looked up, each to be
    /// expanded once. Their own includers are not looked up.
    pub fn complete_change(&mut self, job: &Job, outcome: &Result<Vec<LexPath>, ExpandError>) -> (jobs:
        Vec<Job>)
        requires
            old(self).wf(),
        ensures
            final(self).wf(),
            final(self).source_root == old(self).source_root,
            final(self).target_root == old(self).target_root,
            final(self).graph@ == graph_after(
                old(self).graph@,
                old(self).source_root@,
                job.relative@,
                outcome,
            ),
            refreshes(
                jobs@,
                includers_of(
                    final(self).graph@,
                    relative_to(job.source@, old(self).source_root@),
                ),
                old(self).source_root@,
                old(self).target_root@,
            ),
    {
        self.record_outcome(job, outcome);
        let changed = job.source.relative_to(&self.source_root);
        self.refresh_jobs(&changed)
    }
}

/// The mirror never takes its own output for a source: a created or
/// changed path that lies in the target tree is ignored, wherever else it
/// lies and whatever the file system says of it.
pub proof fn lemma_own_output_ignored(
    path: Seq<Part>,
    resolved: Option<Seq<Part>>,
    source_root: Seq<Part>,
    target_root: Seq<Part>,
)
    requires
        lies_under(normalized(path), target_root),
    ensures
        planned(ChangeKind::Update, path, resolved, source_root, target_root) is Ignore,
{
}

/// A change goes one hop and no further. Let `b` include `a` and `c`
/// include `b`, but not `a`. Then the expansions that follow a change of
/// `a` hold that of `b` and not that of `c`.
pub proof fn lemma_one_hop(
    jobs: Seq<Job>,
    g: Dependencies,
    a: Seq<Part>,
    b: Seq<Part>,
    c: Seq<Part>,
    source_root: Seq<Part>,
    target_root: Seq<Part>,
)
    requires
        refreshes(jobs, includers_of(g, a), source_root, target_root),
        includers_of(g, a).contains(b),
        includers_of(g, b).contains(c),
        !includers_of(g, a).contains(c),
    ensures
        exists|i: int| 0 <= i < jobs.len() && (#[trigger] jobs[i]).relative@ == b,
        forall|i: int| 0 <= i < jobs.len() ==> (#[trigger] jobs[i]).relative@ != c,
{
}

} // verus!
