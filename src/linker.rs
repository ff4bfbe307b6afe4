use vstd::prelude::*;

use crate::chunk_graph::{ChunkGraph, ChunkId};
use crate::module::ModuleId;
use crate::module_graph::{GraphView, ModuleGraph};
use crate::scanner::{count_unbuilt, lemma_unbuilt_set, Diagnostic, EntryData};

verus! {

/// `m` is one of `list`.
pub open spec fn holds(list: Seq<ModuleId>, m: ModuleId) -> bool {
    exists|j: int| 0 <= j < list.len() && list[j] == m
}

/// Every resolved edge that leaves a module of `list` arrives at a module of `list`.
pub open spec fn closed_under_edges(g: GraphView, list: Seq<ModuleId>) -> bool {
    forall|d: int, j: int|
        0 <= d < g.dependencies.len() && 0 <= j < list.len() && #[trigger] g.origins[d] == Some(
            #[trigger] list[j],
        ) && g.resolved[d] is Some ==> holds(list, g.resolved[d]->0)
}

/// `m` is reached from `start` in at most `n` resolved edges, each leaving the module
/// that asked for its dependency.
pub open spec fn reach(g: GraphView, start: ModuleId, m: ModuleId, n: nat) -> bool
    decreases n,
{
    m == start || (n > 0 && exists|d: int|
        0 <= d < g.dependencies.len() && #[trigger] g.origins[d] is Some && g.resolved[d] == Some(m) && reach(
            g,
            start,
            g.origins[d]->0,
            (n - 1) as nat,
        ))
}

/// `m` is reached from `start` along resolved edges.
pub open spec fn reachable(g: GraphView, start: ModuleId, m: ModuleId) -> bool {
    exists|n: nat| #[trigger] reach(g, start, m, n)
}

/// The modules of one chunk: exactly the modules reachable from the entry module
/// (it is among them, all are reachable from it, and the list is closed under
/// resolved edges), each once, in increasing module id, which is the order in which
/// the scan discovered them.
pub open spec fn chunk_modules_ok(g: GraphView, start: ModuleId, list: Seq<ModuleId>) -> bool {
    &&& holds(list, start)
    &&& forall|j: int| 0 <= j < list.len() ==> #[trigger] list[j] < g.modules.len()
    &&& forall|a: int, b: int| 0 <= a < b < list.len() ==> list[a] < list[b]
    &&& forall|j: int| 0 <= j < list.len() ==> reachable(g, start, #[trigger] list[j])
    &&& closed_under_edges(g, list)
}

/// The module that an entry's first dependency resolved to, if any.
pub open spec fn entry_module(g: GraphView, e: EntryData) -> Option<ModuleId> {
    if e.dependencies@.len() > 0 && e.dependencies@[0] < g.dependencies.len() {
        g.resolved[e.dependencies@[0] as int]
    } else {
        None
    }
}

/// The finished module graph with the chunk graph built on it.
pub struct LinkerState {
    pub module_graph: ModuleGraph,
    pub chunk_graph: ChunkGraph,
    pub diagnostics: Vec<Diagnostic>,
}

impl LinkerState {
    pub fn new(module_graph: ModuleGraph, diagnostics: Vec<Diagnostic>) -> (r: LinkerState)
        ensures
            r.module_graph == module_graph,
            r.diagnostics == diagnostics,
            r.chunk_graph.chunks@.len() == 0,
            r.chunk_graph.chunk_groups@.len() == 0,
    {
        LinkerState { module_graph, chunk_graph: ChunkGraph::new(), diagnostics }
    }
}

/// The modules reachable from `start` along resolved edges, in order of module id.
pub fn collect_chunk_modules(graph: &ModuleGraph, start: ModuleId) -> (r: Vec<ModuleId>)
    requires
        graph@.wf(),
        start < graph@.modules.len(),
    ensures
        chunk_modules_ok(graph@, start, r@),
{
    let n = graph.module_count();
    let mut visited: Vec<bool> = Vec::new();
    let mut k: usize = 0;
    while k < n
        invariant
            k <= n,
            visited@.len() == k,
            count_unbuilt(visited@) == k,
            forall|q: int| 0 <= q < k ==> !#[trigger] visited@[q],
        decreases n - k,
    {
        proof {
            assert(visited@.push(false).drop_last() =~= visited@);
        }
        visited.push(false);
        k = k + 1;
    }
    proof {
        lemma_unbuilt_set(visited@, start as int);
    }
    let ghost v0 = visited@;
    visited.set(start, true);
    let mut order: Vec<ModuleId> = Vec::new();
    order.push(start);
    proof {
        assert forall|m: int| 0 <= m < n && #[trigger] visited@[m] implies holds(order@, m as ModuleId) by {
            if m != start {
                assert(!v0[m]);
            }
            assert(order@[0] == start);
        }
    }
    let ghost g = graph@;
    proof {
        assert(reach(g, start, start, 0));
    }
    let mut i: usize = 0;
    while i < order.len()
        invariant
            g == graph@,
            g.wf(),
            n == g.modules.len(),
            visited@.len() == n,
            i <= order@.len(),
            order@.len() + count_unbuilt(visited@) == n,
            order@.len() >= 1,
            order@[0] == start,
            forall|j: int| 0 <= j < order@.len() ==> #[trigger] order@[j] < n && visited@[order@[j] as int],
            forall|m: int| 0 <= m < n && #[trigger] visited@[m] ==> holds(order@, m as ModuleId),
            forall|a: int, b: int| 0 <= a < b < order@.len() ==> order@[a] != order@[b],
            forall|j: int| 0 <= j < order@.len() ==> reachable(g, start, #[trigger] order@[j]),
            forall|d: int, j: int|
                0 <= d < g.dependencies.len() && 0 <= j < i && #[trigger] g.origins[d] == Some(
                    #[trigger] order@[j],
                ) && g.resolved[d] is Some ==> visited@[g.resolved[d]->0 as int],
        decreases n - i,
    {
        let m = order[i];
        let dn = graph.dependency_count();
        let mut d: usize = 0;
        while d < dn
            invariant
                g == graph@,
                g.wf(),
                dn == g.dependencies.len(),
                n == g.modules.len(),
                visited@.len() == n,
                i < order@.len(),
                m == order@[i as int],
                d <= dn,
                order@.len() + count_unbuilt(visited@) == n,
                order@[0] == start,
                forall|j: int| 0 <= j < order@.len() ==> #[trigger] order@[j] < n && visited@[order@[j] as int],
                forall|q: int| 0 <= q < n && #[trigger] visited@[q] ==> holds(order@, q as ModuleId),
                forall|a: int, b: int| 0 <= a < b < order@.len() ==> order@[a] != order@[b],
                forall|j: int| 0 <= j < order@.len() ==> reachable(g, start, #[trigger] order@[j]),
                forall|e: int, j: int|
                    0 <= e < g.dependencies.len() && 0 <= j < i && #[trigger] g.origins[e] == Some(
                        #[trigger] order@[j],
                    ) && g.resolved[e] is Some ==> visited@[g.resolved[e]->0 as int],
                forall|e: int|
                    0 <= e < d && #[trigger] g.origins[e] == Some(m) && g.resolved[e] is Some
                        ==> visited@[g.resolved[e]->0 as int],
            decreases dn - d,
        {
            if graph.get_origin_module(d) == Some(m) {
                match graph.get_resolved_module(d) {
                    Some(t) => {
                        if !visited[t] {
                            let ghost o0 = order@;
                            let ghost v0 = visited@;
                            proof {
                                lemma_unbuilt_set(visited@, t as int);
                                assert forall|j: int| 0 <= j < o0.len() implies o0[j] != t by {
                                    assert(v0[o0[j] as int]);
                                }
                            }
                            proof {
                                assert(reachable(g, start, m));
                                let n = choose|n: nat| #[trigger] reach(g, start, m, n);
                                assert(g.origins[d as int] is Some && g.resolved[d as int] == Some(t) && reach(g, start, g.origins[d as int]->0, n));
                                assert(reach(g, start, t, n + 1));
                            }
                            visited.set(t, true);
                            order.push(t);
                            proof {
                                assert forall|q: int| 0 <= q < n && #[trigger] visited@[q]
                                    implies holds(order@, q as ModuleId) by {
                                    if q == t {
                                        assert(order@[o0.len() as int] == t);
                                    } else {
                                        assert(v0[q]);
                                        let j = choose|j: int| 0 <= j < o0.len() && o0[j] == q as ModuleId;
                                        assert(order@[j] == q as ModuleId);
                                    }
                                }
                            }
                        }
                    },
                    None => {},
                }
            }
            d = d + 1;
        }
        i = i + 1;
    }
    let mut result: Vec<ModuleId> = Vec::new();
    let mut id: usize = 0;
    while id < n
        invariant
            g == graph@,
            n == g.modules.len(),
            visited@.len() == n,
            id <= n,
            forall|j: int| 0 <= j < order@.len() ==> #[trigger] order@[j] < n && visited@[order@[j] as int],
            forall|m: int| 0 <= m < n && #[trigger] visited@[m] ==> holds(order@, m as ModuleId),
            forall|j: int| 0 <= j < result@.len() ==> #[trigger] result@[j] < id && visited@[result@[j] as int],
            forall|a: int, b: int| 0 <= a < b < result@.len() ==> result@[a] < result@[b],
            forall|m: int| 0 <= m < id && #[trigger] visited@[m] ==> holds(result@, m as ModuleId),
        decreases n - id,
    {
        if visited[id] {
            let ghost r0 = result@;
            result.push(id);
            proof {
                assert forall|m: int| 0 <= m < id + 1 && #[trigger] visited@[m] implies holds(result@, m as ModuleId) by {
                    if m == id {
                        assert(result@[r0.len() as int] == id);
                    } else {
                        let j = choose|j: int| 0 <= j < r0.len() && r0[j] == m as ModuleId;
                        assert(result@[j] == r0[j]);
                    }
                }
            }
        }
        id = id + 1;
    }
    proof {
        assert(visited@[start as int]);
        assert forall|j: int| 0 <= j < result@.len() implies reachable(g, start, #[trigger] result@[j]) by {
            let m = result@[j];
            assert(visited@[m as int]);
            let i = choose|i: int| 0 <= i < order@.len() && order@[i] == m;
            assert(reachable(g, start, order@[i]));
        }
        assert forall|d: int, j: int|
            0 <= d < g.dependencies.len() && 0 <= j < result@.len() && #[trigger] g.origins[d] == Some(
                #[trigger] result@[j],
            ) && g.resolved[d] is Some implies holds(result@, g.resolved[d]->0) by {
            let m = result@[j];
            assert(visited@[m as int]);
            let i = choose|i: int| 0 <= i < order@.len() && order@[i] == m;
            assert(g.origins[d] == Some(order@[i]));
            let t = g.resolved[d]->0;
            assert(visited@[t as int]);
        }
    }
    result
}

/// Turns a finished module graph into one chunk and one chunk group per entry.
pub struct ChunkLinker {
    pub entries: Vec<EntryData>,
}

impl ChunkLinker {
    pub fn new(entries: Vec<EntryData>) -> (r: ChunkLinker)
        ensures
            r.entries == entries,
    {
        ChunkLinker { entries }
    }

    /// For each entry, in order, a chunk and a chunk group named after it; the chunk
    /// holds what the entry's module reaches, or nothing when the entry did not resolve.
    pub fn build_chunk_graph(&self, state: &mut LinkerState)
        requires
            old(state).module_graph@.wf(),
            old(state).chunk_graph.chunks@.len() == 0,
            old(state).chunk_graph.chunk_groups@.len() == 0,
        ensures
            final(state).module_graph == old(state).module_graph,
            final(state).diagnostics == old(state).diagnostics,
            final(state).chunk_graph.chunks@.len() == self.entries@.len(),
            final(state).chunk_graph.chunk_groups@.len() == self.entries@.len(),
            forall|e: int|
                0 <= e < self.entries@.len() ==> {
                    let c = #[trigger] final(state).chunk_graph.chunks@[e];
                    &&& c.name is Some
                    &&& c.name->0@ == self.entries@[e].name@
                    &&& final(state).chunk_graph.chunk_groups@[e].chunks@ == seq![e as ChunkId]
                    &&& match entry_module(final(state).module_graph@, self.entries@[e]) {
                        Some(m) => chunk_modules_ok(final(state).module_graph@, m, c.modules@),
                        None => c.modules@.len() == 0,
                    }
                },
    {
        let ghost g = state.module_graph@;
        let mut i: usize = 0;
        while i < self.entries.len()
            invariant
                i <= self.entries@.len(),
                state.module_graph == old(state).module_graph,
                state.diagnostics == old(state).diagnostics,
                g == state.module_graph@,
                g.wf(),
                state.chunk_graph.chunks@.len() == i,
                state.chunk_graph.chunk_groups@.len() == i,
                forall|e: int|
                    0 <= e < i ==> {
                        let c = #[trigger] state.chunk_graph.chunks@[e];
                        &&& c.name is Some
                        &&& c.name->0@ == self.entries@[e].name@
                        &&& state.chunk_graph.chunk_groups@[e].chunks@ == seq![e as ChunkId]
                        &&& match entry_module(g, self.entries@[e]) {
                            Some(m) => chunk_modules_ok(g, m, c.modules@),
                            None => c.modules@.len() == 0,
                        }
                    },
            decreases self.entries@.len() - i,
        {
            let entry = &self.entries[i];
            let mut resolved: Option<ModuleId> = None;
            if entry.dependencies.len() > 0 && entry.dependencies[0] < state.module_graph.dependency_count() {
                resolved = state.module_graph.get_resolved_module(entry.dependencies[0]);
            }
            let chunk = state.chunk_graph.create_chunk(Some(entry.name.clone()));
            state.chunk_graph.create_chunk_group(chunk, Some(entry.name.clone()));
            match resolved {
                Some(m) => {
                    let modules = collect_chunk_modules(&state.module_graph, m);
                    state.chunk_graph.set_chunk_modules(chunk, modules);
                },
                None => {},
            }
            i = i + 1;
        }
    }
}

} // verus!
