use vstd::prelude::*;

use std::sync::Arc;

use rspack_sources::{ConcatSource, RawSource, Source};

use crate::chunk_graph::{ChunkGraph, ChunkId};
use crate::compiler::CompilerOptions;
use crate::factory::{first_with_path, resolvable, ModuleFactory};
use crate::linker::{entry_module, chunk_modules_ok, ChunkLinker, LinkerState};
use crate::module::{Module, ModuleId};
use crate::module_graph::GraphView;
use crate::scanner::{entry_dependency, import_slot, dependencies_accounted, created_before, discovered_from_earlier, discovery_ordered, lemma_paths_unique, import_dep, import_edge, import_edges, imports_linked, build_failure_recorded, builds_recorded, diagnostics_exact, failure_recorded, file_of, has_module, is_failure_of, progress, scan_closed, settled, Diagnostic, ModuleScanner, ScannerState};
use crate::dependency::{DependencyId, DependencyKind};

verus! {

/// The parts joined in order, with nothing between them.
pub open spec fn concat_all(parts: Seq<Seq<char>>) -> Seq<char>
    decreases parts.len(),
{
    if parts.len() == 0 {
        Seq::empty()
    } else {
        concat_all(parts.drop_last()) + parts.last()
    }
}

/// Relies on rspack_sources' `ConcatSource::source`: the sources of its children
/// (here `RawSource`s of the parts, each of which gives its string back) joined in order.
#[verifier::external_body]
fn concat_sources(parts: &Vec<String>) -> (r: String)
    ensures
        r@ == concat_all(parts@.map_values(|p: String| p@)),
{
    ConcatSource::new(parts.iter().map(|p| RawSource::from(p.clone()))).source().into_owned()
}

/// The output of code generation for one module.
pub struct CodeGenerationResult {
    pub source: String,
}

/// What code generation makes of one module: a function of the module alone.
pub open spec fn generated(m: Module) -> Seq<char> {
    m.source@
}

/// Generates the code of one module.
pub fn generate_module(module: &Module) -> (r: CodeGenerationResult)
    ensures
        r.source@ == generated(*module),
{
    CodeGenerationResult { source: module.source.clone() }
}

/// What code generation makes of a whole graph: one output per module, by module id.
pub open spec fn codegen(g: GraphView) -> Seq<Seq<char>> {
    g.modules.map_values(|m: Module| generated(m))
}

/// The content of a chunk holding `modules`: their generated sources, in chunk order.
pub open spec fn chunk_source(modules: Seq<ModuleId>, results: Seq<CodeGenerationResult>) -> Seq<char> {
    concat_all(modules.map_values(|m: ModuleId| results[m as int].source@))
}

/// The chunk graph with the generated code of every module.
pub struct CodeGenerationState {
    pub chunk_graph: ChunkGraph,
    /// One result per module, indexed by module id.
    pub code_generation_results: Vec<CodeGenerationResult>,
    pub diagnostics: Vec<Diagnostic>,
}

/// The assembled output: for each chunk, in chunk order, its name and content.
pub struct ChunkAssetState {
    pub assets: Vec<(String, String)>,
}

/// Every chunk is named and holds only modules that have generated code.
pub open spec fn assets_ready(state: CodeGenerationState) -> bool {
    forall|c: int|
        0 <= c < state.chunk_graph.chunks@.len() ==> {
            &&& (#[trigger] state.chunk_graph.chunks@[c]).name is Some
            &&& forall|j: int|
                0 <= j < state.chunk_graph.chunks@[c].modules@.len()
                    ==> #[trigger] state.chunk_graph.chunks@[c].modules@[j]
                    < state.code_generation_results@.len()
        }
}

/// The assets of `state`: one per chunk, named after it, holding its chunk source.
pub open spec fn assets_of(state: CodeGenerationState, assets: Seq<(String, String)>) -> bool {
    &&& assets.len() == state.chunk_graph.chunks@.len()
    &&& forall|c: int|
        0 <= c < assets.len() ==> {
            let chunk = #[trigger] state.chunk_graph.chunks@[c];
            &&& assets[c].0@ == chunk.name->0@
            &&& assets[c].1@ == chunk_source(chunk.modules@, state.code_generation_results@)
        }
}

/// One build: scan, link, code generation, chunk assets.
pub struct Compilation {
    pub options: Arc<CompilerOptions>,
    pub scanner: ModuleScanner,
    pub diagnostics: Vec<Diagnostic>,
}

impl Compilation {
    pub fn new(options: Arc<CompilerOptions>, factory: Arc<ModuleFactory>) -> (r: Compilation)
        ensures
            r.options == options,
            r.scanner.factory == factory,
            r.scanner.context@ == options.context@,
            r.diagnostics@.len() == 0,
    {
        let context = options.context.clone();
        Compilation { options, scanner: ModuleScanner::new(context, factory), diagnostics: Vec::new() }
    }

    /// Builds the module graph from the configured entries.
    pub fn scan(&mut self) -> (r: ScannerState)
        ensures
            final(self).options == old(self).options,
            final(self).scanner == old(self).scanner,
            final(self).diagnostics == old(self).diagnostics,
            r.inv(old(self).scanner.factory.files@),
            r.task_queue@.len() == 0,
            scan_closed(r, old(self).scanner.factory.files@),
            diagnostics_exact(r, old(self).scanner.factory.files@),
            import_edges(r, old(self).scanner.factory.files@),
            discovery_ordered(r.module_graph@),
            dependencies_accounted(r, old(self).scanner.factory.files@),
            forall|e: int|
                0 <= e < r.entries@.len() ==> {
                    let d = (#[trigger] r.entries@[e]).dependencies@[0] as int;
                    &&& r.module_graph@.dependencies[d].context == Some(old(self).scanner.context)
                    &&& (r.module_graph@.resolved[d] is Some ==> r.module_graph@.origins[d] is None)
                },
            forall|m: int|
                0 <= m < r.module_graph@.modules.len() && #[trigger] r.parents@[r.created_by@[m] as int] is None
                    ==> r.module_graph@.modules[m].resolved_in@ == old(self).scanner.context@,
            forall|e: int|
                0 <= e < old(self).options.entry@.len() ==> !resolvable(
                    old(self).scanner.factory.files@,
                    (#[trigger] old(self).options.entry@[e]).import@,
                ) || has_module(r.module_graph@, old(self).options.entry@[e].import@),
            forall|e: int|
                0 <= e < old(self).options.entry@.len() ==> (resolvable(
                    old(self).scanner.factory.files@,
                    (#[trigger] old(self).options.entry@[e]).import@,
                ) <==> r.module_graph@.resolved[r.entries@[e].dependencies@[0] as int] is Some),
            r.entries@.len() == old(self).options.entry@.len(),
            forall|e: int|
                0 <= e < r.entries@.len() ==> {
                    let d = #[trigger] r.entries@[e];
                    &&& d.name@ == old(self).options.entry@[e].name@
                    &&& d.dependencies@.len() == 1
                    &&& r.module_graph@.dependencies[d.dependencies@[0] as int].request@
                        == old(self).options.entry@[e].import@
                },
    {
        let mut state = ScannerState::new(self.scanner.factory.files.len());
        proof {
            assert(progress(state, self.scanner.factory.files@, state.task_queue@));
            assert(builds_recorded(state, self.scanner.factory.files@));
            assert(imports_linked(state, self.scanner.factory.files@));
            assert(dependencies_accounted(state, self.scanner.factory.files@));
        }
        self.scanner.add_entries(&mut state, &self.options.entry);
        proof {
            let files = self.scanner.factory.files@;
            let g = state.module_graph@;
            let dg = state.diagnostics@;
            assert forall|d: DependencyId|
                d < g.dependencies.len() && #[trigger] g.dependencies[d as int].is_module_dependency_spec() implies {
                    &&& (g.resolved[d as int] is Some <==> resolvable(files, g.dependencies[d as int].request@))
                    &&& (failure_recorded(dg, d) <==> !resolvable(files, g.dependencies[d as int].request@))
                } by {
                assert(settled(g, dg, d));
                if g.resolved[d as int] is Some {
                    let m = g.resolved[d as int]->0 as int;
                    assert(first_with_path(files, g.modules[m].path@, state.module_file@[m] as int));
                    assert(files[state.module_file@[m] as int].path@ == g.dependencies[d as int].request@);
                }
                if failure_recorded(dg, d) {
                    let i = choose|i: int| 0 <= i < dg.len() && is_failure_of(#[trigger] dg[i], d);
                    assert(is_failure_of(dg[i], d));
                }
            }
            assert forall|m: int, k: int|
                0 <= m < g.modules.len() && file_of(state, files, m).build_error is None && 0 <= k
                    < file_of(state, files, m).imports@.len() implies #[trigger] import_edge(state, files, m, k) by {
                assert(state.built@[m]);
                assert(import_dep(state, files, m, k));
                let p = file_of(state, files, m).imports@[k]@;
                let d = choose|d: DependencyId|
                    d < g.dependencies.len() && #[trigger] state.parents@[d as int] == Some(m as ModuleId)
                        && g.dependencies[d as int].request@ == p
                        && g.dependencies[d as int].is_module_dependency_spec();
                if resolvable(files, p) {
                    assert(g.dependencies[d as int].is_module_dependency_spec());
                    assert(g.resolved[d as int] is Some);
                }
            }
            assert forall|e: int|
                0 <= e < state.entries@.len() implies {
                    let d = (#[trigger] state.entries@[e]).dependencies@[0] as int;
                    &&& g.dependencies[d].context == Some(self.scanner.context)
                    &&& (g.resolved[d] is Some ==> g.origins[d] is None)
                } by {
                assert(state.entries@[0 + e] == state.entries@[e]);
                let d = state.entries@[e].dependencies@[0];
                if state.parents@[d as int] is Some {
                    assert(import_slot(state, files, d, state.parents@[d as int]->0 as int));
                    assert(g.dependencies[d as int].kind == DependencyKind::Entry);
                }
            }
            assert forall|m: int|
                0 <= m < g.modules.len() && #[trigger] state.parents@[state.created_by@[m] as int] is None
                    implies g.modules[m].resolved_in@ == self.scanner.context@ by {
                let d = state.created_by@[m];
                assert(created_before(g, state.parents@, d, m));
                assert(entry_dependency(state.entries@, d));
                let e = choose|e: int| 0 <= e < state.entries@.len() && (#[trigger] state.entries@[e]).dependencies@.len() == 1 && state.entries@[e].dependencies@[0] == d;
                assert(state.entries@[0 + e] == state.entries@[e]);
            }
            assert forall|m: int| 0 <= m < g.modules.len() implies #[trigger] discovered_from_earlier(g, m) by {
                let d = state.created_by@[m];
                assert(created_before(g, state.parents@, d, m));
                assert(first_with_path(files, g.modules[m].path@, state.module_file@[m] as int));
                assert(resolvable(files, g.dependencies[d as int].request@));
                assert(g.resolved[d as int] is Some);
                let t = g.resolved[d as int]->0 as int;
                assert(g.modules[t].path@ == g.modules[m].path@);
                if t != m {
                    lemma_paths_unique(&state, files, t, m);
                }
                assert(g.origins[d as int] == state.parents@[d as int]);
            }
            assert forall|m: int|
                0 <= m < g.modules.len() && #[trigger] file_of(state, files, m).build_error is Some
                    implies build_failure_recorded(dg, m as ModuleId) by {
                assert(state.built@[m]);
            }

            assert forall|e: int| 0 <= e < state.entries@.len() implies {
                    let d = #[trigger] state.entries@[e];
                    &&& d.name@ == old(self).options.entry@[e].name@
                    &&& d.dependencies@.len() == 1
                    &&& state.module_graph@.dependencies[d.dependencies@[0] as int].request@
                        == old(self).options.entry@[e].import@
                } by {
                assert(state.entries@[0 + e] == state.entries@[e]);
            }
            assert forall|e: int|
                0 <= e < old(self).options.entry@.len() implies (resolvable(
                    old(self).scanner.factory.files@,
                    (#[trigger] old(self).options.entry@[e]).import@,
                ) <==> state.module_graph@.resolved[state.entries@[e].dependencies@[0] as int] is Some) by {
                assert(state.entries@[0 + e] == state.entries@[e]);
            }
        }
        state
    }

    /// Builds the chunk graph on the finished module graph: one chunk per entry.
    pub fn link(&mut self, scanner_state: ScannerState) -> (r: LinkerState)
        requires
            scanner_state.module_graph@.wf(),
        ensures
            *final(self) == *old(self),
            r.module_graph == scanner_state.module_graph,
            r.diagnostics == scanner_state.diagnostics,
            r.chunk_graph.chunks@.len() == scanner_state.entries@.len(),
            r.chunk_graph.chunk_groups@.len() == scanner_state.entries@.len(),
            forall|e: int|
                0 <= e < scanner_state.entries@.len() ==> {
                    let c = #[trigger] r.chunk_graph.chunks@[e];
                    &&& c.name is Some
                    &&& c.name->0@ == scanner_state.entries@[e].name@
                    &&& r.chunk_graph.chunk_groups@[e].chunks@ == seq![e as ChunkId]
                    &&& match entry_module(r.module_graph@, scanner_state.entries@[e]) {
                        Some(m) => chunk_modules_ok(r.module_graph@, m, c.modules@),
                        None => c.modules@.len() == 0,
                    }
                },
    {
        let ScannerState { module_graph, diagnostics, entries, .. } = scanner_state;
        let mut linker_state = LinkerState::new(module_graph, diagnostics);
        let linker = ChunkLinker::new(entries);
        linker.build_chunk_graph(&mut linker_state);
        linker_state
    }

    /// Generates the code of every module of the graph, by module id. Generating a
    /// module cannot fail in this library, so this stage has no error path and never
    /// stops a build.
    pub fn code_generation(&self, linker_state: LinkerState) -> (r: CodeGenerationState)
        ensures
            r.chunk_graph == linker_state.chunk_graph,
            r.diagnostics == linker_state.diagnostics,
            r.code_generation_results@.len() == linker_state.module_graph@.modules.len(),
            r.code_generation_results@.map_values(|c: CodeGenerationResult| c.source@)
                == codegen(linker_state.module_graph@),
    {
        let LinkerState { module_graph, chunk_graph, diagnostics } = linker_state;
        let n = module_graph.module_count();
        let mut results: Vec<CodeGenerationResult> = Vec::new();
        let mut i: usize = 0;
        while i < n
            invariant
                i <= n,
                n == module_graph@.modules.len(),
                results@.len() == i,
                forall|j: int| 0 <= j < i ==> (#[trigger] results@[j]).source@ == generated(module_graph@.modules[j]),
            decreases n - i,
        {
            results.push(generate_module(module_graph.module_by_id(i)));
            i = i + 1;
        }
        proof {
            assert(results@.map_values(|c: CodeGenerationResult| c.source@) =~= codegen(module_graph@));
        }
        CodeGenerationState { chunk_graph, code_generation_results: results, diagnostics }
    }

    /// Assembles each chunk's content from its modules' generated code.
    pub fn create_chunk_asset(&self, state: &mut CodeGenerationState) -> (r: ChunkAssetState)
        requires
            assets_ready(*old(state)),
        ensures
            *final(state) == *old(state),
            assets_of(*old(state), r.assets@),
    {
        let mut assets: Vec<(String, String)> = Vec::new();
        let mut c: usize = 0;
        while c < state.chunk_graph.chunks.len()
            invariant
                *state == *old(state),
                assets_ready(*state),
                c <= state.chunk_graph.chunks@.len(),
                assets@.len() == c,
                forall|k: int|
                    0 <= k < c ==> {
                        let chunk = #[trigger] state.chunk_graph.chunks@[k];
                        &&& assets@[k].0@ == chunk.name->0@
                        &&& assets@[k].1@ == chunk_source(chunk.modules@, state.code_generation_results@)
                    },
            decreases state.chunk_graph.chunks@.len() - c,
        {
            let chunk = state.chunk_graph.chunk_by_id(c);
            let name = match &chunk.name {
                Some(n) => n.clone(),
                None => String::new(),
            };
            let modules = state.chunk_graph.get_chunk_modules(c);
            let source = self.render_chunk_modules(state, c, modules);
            assets.push((name, source));
            c = c + 1;
        }
        ChunkAssetState { assets }
    }

    /// Joins the generated code of `chunk_modules`, in their order.
    pub fn render_chunk_modules(
        &self,
        state: &CodeGenerationState,
        chunk_id: ChunkId,
        chunk_modules: &Vec<ModuleId>,
    ) -> (r: String)
        requires
            forall|j: int|
                0 <= j < chunk_modules@.len() ==> #[trigger] chunk_modules@[j]
                    < state.code_generation_results@.len(),
        ensures
            r@ == chunk_source(chunk_modules@, state.code_generation_results@),
    {
        let mut parts: Vec<String> = Vec::new();
        let mut k: usize = 0;
        while k < chunk_modules.len()
            invariant
                k <= chunk_modules@.len(),
                parts@.len() == k,
                forall|j: int|
                    0 <= j < chunk_modules@.len() ==> #[trigger] chunk_modules@[j]
                        < state.code_generation_results@.len(),
                forall|j: int|
                    0 <= j < k ==> (#[trigger] parts@[j])@
                        == state.code_generation_results@[chunk_modules@[j] as int].source@,
            decreases chunk_modules@.len() - k,
        {
            parts.push(self.render_module(state, chunk_id, chunk_modules[k]));
            k = k + 1;
        }
        proof {
            assert(parts@.map_values(|p: String| p@) =~= chunk_modules@.map_values(
                |m: ModuleId| state.code_generation_results@[m as int].source@,
            ));
        }
        concat_sources(&parts)
    }

    /// The generated code of one module.
    pub fn render_module(&self, state: &CodeGenerationState, chunk_id: ChunkId, module_id: ModuleId) -> (r: String)
        requires
            module_id < state.code_generation_results@.len(),
        ensures
            r@ == state.code_generation_results@[module_id as int].source@,
    {
        state.code_generation_results[module_id].source.clone()
    }
}

} // verus!
