//! The dependency graph: for each included file, the files that include it.
//!
//! Edges are only ever added. Nothing is forgotten while a graph lives.

use crate::path::{paths_view, relative_to, LexPath, Part};
use vstd::prelude::*;

verus! {

/// A dependency graph as a mathematical value: each included path with the
/// set of paths that include it.
pub type Dependencies = Map<Seq<Part>, Set<Seq<Part>>>;

/// The files known to include `included`: none where it was never recorded.
pub open spec fn includers_of(g: Dependencies, included: Seq<Part>) -> Set<Seq<Part>> {
    if g.dom().contains(included) {
        g[included]
    } else {
        Set::empty()
    }
}

/// A graph with one more edge: `including` includes `included`.
pub open spec fn with_edge(g: Dependencies, included: Seq<Part>, including: Seq<Part>) -> Dependencies {
    g.insert(included, includers_of(g, included).insert(including))
}

/// A graph with an edge from each of `includes`, in order, to `including`.
pub open spec fn with_edges(
    g: Dependencies,
    includes: Seq<Seq<Part>>,
    including: Seq<Part>,
) -> Dependencies
    decreases includes.len(),
{
    if includes.len() == 0 {
        g
    } else {
        with_edge(with_edges(g, includes.drop_last(), including), includes.last(), including)
    }
}

/// Whether every edge of `before` is an edge of `after`.
pub open spec fn grows_to(before: Dependencies, after: Dependencies) -> bool {
    forall|k: Seq<Part>| #[trigger]
        before.dom().contains(k) ==> after.dom().contains(k) && before[k].subset_of(after[k])
}

/// One included file with the files that include it.
pub struct Edge {
    included: LexPath,
    includers: Vec<LexPath>,
}

/// The values of the paths in a vector, as a set.
pub open spec fn path_set(paths: Seq<LexPath>) -> Set<Seq<Part>> {
    Set::new(|p: Seq<Part>| exists|i: int| 0 <= i < paths.len() && (#[trigger] paths[i])@ == p)
}

/// Whether no two paths in a vector are the same.
pub open spec fn distinct_paths(paths: Seq<LexPath>) -> bool {
    forall|i: int, j: int|
        0 <= i < j < paths.len() ==> (#[trigger] paths[i])@ != (#[trigger] paths[j])@
}

/// The dependency graph.
pub struct DependencyGraph {
    edges: Vec<Edge>,
}

impl DependencyGraph {
    /// Whether some entry is kept for `key`.
    pub closed spec fn has_key(&self, key: Seq<Part>) -> bool {
        exists|i: int| 0 <= i < self.edges.len() && (#[trigger] self.edges[i]).included@ == key
    }

    /// The position of the entry kept for `key`.
    pub closed spec fn key_index(&self, key: Seq<Part>) -> int {
        choose|i: int| 0 <= i < self.edges.len() && (#[trigger] self.edges[i]).included@ == key
    }

    /// The entry at `i` is the one kept for its included file.
    proof fn lemma_key_at(&self, i: int)
        requires
            self.wf(),
            0 <= i < self.edges.len(),
        ensures
            self.has_key(self.edges[i].included@),
            self.key_index(self.edges[i].included@) == i,
    {
        let key = self.edges[i].included@;
        let c = self.key_index(key);
        assert(self.edges[c].included@ == key);
        if c < i {
            assert(self.edges[c].included@ != self.edges[i].included@);
        } else if i < c {
            assert(self.edges[i].included@ != self.edges[c].included@);
        }
    }

    /// Each included file is kept once, and each of its includers once.
    pub closed spec fn wf(&self) -> bool {
        &&& forall|i: int, j: int|
            0 <= i < j < self.edges.len() ==> (#[trigger] self.edges[i]).included@ != (
            #[trigger] self.edges[j]).included@
        &&& forall|i: int|
            0 <= i < self.edges.len() ==> distinct_paths((#[trigger] self.edges[i]).includers@)
    }
}

impl View for DependencyGraph {
    type V = Dependencies;

    closed spec fn view(&self) -> Dependencies {
        Map::new(
            |k: Seq<Part>| self.has_key(k),
            |k: Seq<Part>| path_set(self.edges[self.key_index(k)].includers@),
        )
    }
}

/// The set of a vector with one more path.
pub proof fn lemma_path_set_push(paths: Seq<LexPath>, last: LexPath)
    ensures
        path_set(paths.push(last)) == path_set(paths).insert(last@),
{
    let longer = paths.push(last);
    assert forall|p: Seq<Part>| path_set(longer).contains(p) == path_set(paths).insert(
        last@,
    ).contains(p) by {
        if path_set(longer).contains(p) {
            let j = choose|j: int| 0 <= j < longer.len() && (#[trigger] longer[j])@ == p;
            if j < paths.len() {
                assert(paths[j]@ == p);
            }
        }
        if path_set(paths).contains(p) {
            let j = choose|j: int| 0 <= j < paths.len() && (#[trigger] paths[j])@ == p;
            assert(longer[j]@ == p);
        }
        if p == last@ {
            assert(longer[paths.len() as int]@ == p);
        }
    }
    assert(path_set(longer) =~= path_set(paths).insert(last@));
}

/// Whether `path` occurs in `paths`.
fn contains_path(paths: &Vec<LexPath>, path: &LexPath) -> (found: bool)
    ensures
        found == path_set(paths@).contains(path@),
{
    let mut i: usize = 0;
    while i < paths.len()
        invariant
            i <= paths.len(),
            forall|j: int| 0 <= j < i ==> (#[trigger] paths[j])@ != path@,
        decreases paths.len() - i,
    {
        if paths[i].same_as(path) {
            return true;
        }
        i += 1;
    }
    false
}

/// A copy of a vector of paths.
pub fn duplicate_paths(paths: &Vec<LexPath>) -> (copy: Vec<LexPath>)
    ensures
        copy@.len() == paths@.len(),
        forall|i: int| 0 <= i < paths@.len() ==> (#[trigger] copy@[i])@ == paths@[i]@,
{
    let mut copy: Vec<LexPath> = Vec::new();
    let mut i: usize = 0;
    while i < paths.len()
        invariant
            i <= paths.len(),
            copy@.len() == i,
            forall|j: int| 0 <= j < i ==> (#[trigger] copy@[j])@ == paths@[j]@,
        decreases paths.len() - i,
    {
        copy.push(paths[i].duplicate());
        i += 1;
    }
    copy
}

impl DependencyGraph {
    /// A graph without edges.
    pub fn new() -> (graph: DependencyGraph)
        ensures
            graph.wf(),
            graph@ == Map::<Seq<Part>, Set<Seq<Part>>>::empty(),
    {
        let graph = DependencyGraph { edges: Vec::new() };
        assert(graph@ =~= Map::<Seq<Part>, Set<Seq<Part>>>::empty());
        graph
    }

    /// The position of the entry for `key`, if there is one.
    fn find(&self, key: &LexPath) -> (at: Option<usize>)
        requires
            self.wf(),
        ensures
            at is Some <==> self.has_key(key@),
            at matches Some(i) ==> i < self.edges.len() && self.edges[i as int].included@ == key@
                && self.key_index(key@) == i,
    {
        let mut i: usize = 0;
        while i < self.edges.len()
            invariant
                self.wf(),
                i <= self.edges.len(),
                forall|j: int| 0 <= j < i ==> (#[trigger] self.edges[j]).included@ != key@,
            decreases self.edges.len() - i,
        {
            if self.edges[i].included.same_as(key) {
                proof {
                    self.lemma_key_at(i as int);
                }
                return Some(i);
            }
            i += 1;
        }
        None
    }

    /// The files known to include `path`, each once, or nothing where
    /// `path` was never recorded as included.
    pub fn dependents_of(&self, path: &LexPath) -> (dependents: Option<Vec<LexPath>>)
        requires
            self.wf(),
        ensures
            dependents is Some <==> self@.dom().contains(path@),
            dependents matches Some(d) ==> path_set(d@) == self@[path@] && distinct_paths(d@),
    {
        match self.find(path) {
            None => None,
            Some(i) => {
                let d = duplicate_paths(&self.edges[i].includers);
                proof {
                    let kept = self.edges[i as int].includers@;
                    assert(path_set(d@) =~= path_set(kept)) by {
                        assert forall|p: Seq<Part>| path_set(d@).contains(p) == path_set(
                            kept,
                        ).contains(p) by {
                            if path_set(d@).contains(p) {
                                let j = choose|j: int| 0 <= j < d@.len() && (#[trigger] d@[j])@ == p;
                                assert(kept[j]@ == p);
                            }
                            if path_set(kept).contains(p) {
                                let j = choose|j: int|
                                    0 <= j < kept.len() && (#[trigger] kept[j])@ == p;
                                assert(d@[j]@ == p);
                            }
                        }
                    }
                    assert(distinct_paths(d@)) by {
                        assert forall|a: int, b: int| 0 <= a < b < d@.len() implies (
                        #[trigger] d@[a])@ != (#[trigger] d@[b])@ by {
                            assert(kept[a]@ != kept[b]@);
                        }
                    }
                }
                Some(d)
            },
        }
    }

    /// Records that `including` includes `included`.
    pub fn record(&mut self, included: &LexPath, including: &LexPath)
        requires
            old(self).wf(),
        ensures
            final(self).wf(),
            final(self)@ == with_edge(old(self)@, included@, including@),
    {
        let ghost before = *self;
        match self.find(included) {
            Some(i) => {
                if !contains_path(&self.edges[i].includers, including) {
                    let copy = including.duplicate();
                    proof {
                        lemma_path_set_push(self.edges[i as int].includers@, copy);
                    }
                    self.edges[i].includers.push(copy);
                    assert(self.edges@.len() == before.edges@.len());
                    assert(forall|j: int|
                        0 <= j < self.edges.len() ==> (#[trigger] self.edges[j]).included
                            == before.edges[j].included);
                    assert(forall|j: int|
                        0 <= j < self.edges.len() && j != i ==> (#[trigger] self.edges[j])
                            == before.edges[j]);
                    assert(self.wf()) by {
                        assert forall|j: int| 0 <= j < self.edges.len() implies distinct_paths(
                            (#[trigger] self.edges[j]).includers@,
                        ) by {
                            if j == i {
                                let now = self.edges[j].includers@;
                                let kept = before.edges[j].includers@;
                                assert(distinct_paths(kept));
                                assert forall|a: int, b: int| 0 <= a < b < now.len() implies (
                                #[trigger] now[a])@ != (#[trigger] now[b])@ by {
                                    if b < kept.len() {
                                        assert(kept[a]@ != kept[b]@);
                                    } else {
                                        assert(kept[a]@ != including@);
                                    }
                                }
                            } else {
                                assert(distinct_paths(before.edges[j].includers@));
                            }
                        }
                    }
                } else {
                    assert(path_set(self.edges[i as int].includers@).insert(including@)
                        =~= path_set(self.edges[i as int].includers@));
                }
                proof {
                    let want = with_edge(before@, included@, including@);
                    assert forall|k: Seq<Part>| self.has_key(k) == before.has_key(k) by {
                        if self.has_key(k) {
                            let c = self.key_index(k);
                            assert(before.edges[c].included@ == k);
                        }
                        if before.has_key(k) {
                            let c = before.key_index(k);
                            assert(self.edges[c].included@ == k);
                        }
                    }
                    assert forall|k: Seq<Part>| self.has_key(k) implies #[trigger] self@[k]
                        == want[k] by {
                        let c = self.key_index(k);
                        assert(before.edges[c].included@ == k);
                        before.lemma_key_at(c);
                        if c == i {
                        } else {
                            assert(self.edges[c] == before.edges[c]);
                        }
                    }
                    assert(self@.dom() =~= want.dom());
                    assert(self@ =~= want);
                }
            },
            None => {
                let mut includers: Vec<LexPath> = Vec::new();
                let copy = including.duplicate();
                proof {
                    lemma_path_set_push(includers@, copy);
                    assert(path_set(includers@) =~= Set::<Seq<Part>>::empty());
                }
                includers.push(copy);
                self.edges.push(Edge { included: included.duplicate(), includers });
                proof {
                    let want = with_edge(before@, included@, including@);
                    let n = before.edges.len() as int;
                    assert(forall|j: int|
                        0 <= j < n ==> (#[trigger] self.edges[j]) == before.edges[j]);
                    assert(self.wf()) by {
                        assert forall|a: int, b: int| 0 <= a < b < self.edges.len() implies (
                        #[trigger] self.edges[a]).included@ != (
                        #[trigger] self.edges[b]).included@ by {
                            if b < n {
                                assert(before.edges[a].included@ != before.edges[b].included@);
                            } else {
                                assert(before.edges[a].included@ != included@);
                            }
                        }
                        assert forall|j: int| 0 <= j < self.edges.len() implies distinct_paths(
                            (#[trigger] self.edges[j]).includers@,
                        ) by {
                            if j < n {
                                assert(distinct_paths(before.edges[j].includers@));
                            }
                        }
                    }
                    assert forall|k: Seq<Part>| self.has_key(k) == (before.has_key(k) || k
                        == included@) by {
                        if self.has_key(k) {
                            let c = self.key_index(k);
                            if c < n {
                                assert(before.edges[c].included@ == k);
                            }
                        }
                        if before.has_key(k) {
                            let c = before.key_index(k);
                            assert(self.edges[c].included@ == k);
                        }
                        if k == included@ {
                            assert(self.edges[n].included@ == k);
                        }
                    }
                    assert forall|k: Seq<Part>| self.has_key(k) implies #[trigger] self@[k]
                        == want[k] by {
                        let c = self.key_index(k);
                        self.lemma_key_at(c);
                        if c < n {
                            assert(before.edges[c].included@ == k);
                            before.lemma_key_at(c);
                        } else {
                            assert(k == included@);
                        }
                    }
                    assert(self@.dom() =~= want.dom());
                    assert(self@ =~= want);
                }
            },
        }
    }

    /// Records that `including` includes each of `includes`, each taken as
    /// seen from `root`.
    pub fn record_all(&mut self, includes: &Vec<LexPath>, root: &LexPath, including: &LexPath)
        requires
            old(self).wf(),
        ensures
            final(self).wf(),
            final(self)@ == with_edges(old(self)@, seen_from(paths_view(includes@), root@), including@),
    {
        let ghost keys = seen_from(paths_view(includes@), root@);
        let mut i: usize = 0;
        while i < includes.len()
            invariant
                i <= includes.len(),
                self.wf(),
                keys == seen_from(paths_view(includes@), root@),
                self@ == with_edges(old(self)@, keys.take(i as int), including@),
            decreases includes.len() - i,
        {
            let key = includes[i].relative_to(root);
            proof {
                assert(keys.take(i + 1).drop_last() =~= keys.take(i as int));
                assert(keys.take(i + 1).last() == key@);
            }
            self.record(&key, including);
            i += 1;
        }
        assert(keys.take(i as int) =~= keys);
    }
}

/// A run of paths, each as seen from `root`.
pub open spec fn seen_from(paths: Seq<Seq<Part>>, root: Seq<Part>) -> Seq<Seq<Part>> {
    paths.map_values(|p: Seq<Part>| relative_to(p, root))
}

/// Recording an edge adds that edge and loses none.
pub proof fn lemma_record_grows(g: Dependencies, included: Seq<Part>, including: Seq<Part>)
    ensures
        grows_to(g, with_edge(g, included, including)),
        includers_of(with_edge(g, included, including), included).contains(including),
{
}

/// Recording a run of edges loses none, and adds an edge for each path of
/// the run.
pub proof fn lemma_record_all_grows(g: Dependencies, includes: Seq<Seq<Part>>, including: Seq<Part>)
    ensures
        grows_to(g, with_edges(g, includes, including)),
        forall|i: int|
            0 <= i < includes.len() ==> includers_of(
                with_edges(g, includes, including),
                #[trigger] includes[i],
            ).contains(including),
    decreases includes.len(),
{
    if includes.len() > 0 {
        let head = includes.drop_last();
        let mid = with_edges(g, head, including);
        lemma_record_all_grows(g, head, including);
        lemma_record_grows(mid, includes.last(), including);
        let end = with_edges(g, includes, including);
        assert forall|i: int| 0 <= i < includes.len() implies includers_of(
            end,
            #[trigger] includes[i],
        ).contains(including) by {
            if i < head.len() {
                assert(head[i] == includes[i]);
                assert(includers_of(mid, head[i]).contains(including));
                assert(mid.dom().contains(head[i]) && mid[head[i]].contains(including));
                assert(end[head[i]].contains(including));
            }
        }
        assert forall|k: Seq<Part>| #[trigger] g.dom().contains(k) implies end.dom().contains(k)
            && g[k].subset_of(end[k]) by {
            assert(mid.dom().contains(k) && g[k].subset_of(mid[k]));
            assert(end.dom().contains(k) && mid[k].subset_of(end[k]));
        }
    } else {
        assert(with_edges(g, includes, including) == g);
    }
}

} // verus!
