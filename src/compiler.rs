use vstd::prelude::*;

use std::sync::Arc;

use crate::compilation::{generated, codegen, concat_all, ChunkAssetState, CodeGenerationResult, Compilation};
use crate::factory::{resolvable, SourceFile};
use crate::module::ModuleId;
use crate::factory::ModuleFactory;
use crate::plugin::PluginDriver;
use crate::linker::{chunk_modules_ok, entry_module};
use crate::scanner::{dependencies_accounted, discovery_ordered, import_edges, diagnostics_exact, scan_closed, Diagnostic, EntryData, ScannerState};

verus! {

/// One configured entry: its name and the request that seeds it.
pub struct EntryItem {
    pub name: String,
    pub import: String,
}

/// What a build is configured with.
pub struct CompilerOptions {
    /// The global context: where requests are resolved when nothing closer says.
    pub context: String,
    pub entry: Vec<EntryItem>,
    /// The extensions the resolver tries.
    pub extensions: Vec<String>,
}

/// `s` is what a scan of `files` from `entries` ends with.
pub open spec fn is_scan_result(s: ScannerState, files: Seq<SourceFile>, entries: Seq<EntryItem>) -> bool {
    &&& s.inv(files)
    &&& s.task_queue@.len() == 0
    &&& scan_closed(s, files)
    &&& diagnostics_exact(s, files)
    &&& import_edges(s, files)
    &&& discovery_ordered(s.module_graph@)
    &&& dependencies_accounted(s, files)
    &&& s.entries@.len() == entries.len()
    &&& forall|e: int|
        0 <= e < entries.len() ==> {
            let d = #[trigger] s.entries@[e];
            &&& d.name@ == entries[e].name@
            &&& d.dependencies@.len() == 1
            &&& s.module_graph@.dependencies[d.dependencies@[0] as int].request@ == entries[e].import@
        }
}

/// `content` is the chunk of entry `e`: the generated code of the modules reachable
/// from the entry's module, each once, in chunk order; empty when the entry did not resolve.
pub open spec fn asset_of_entry(s: ScannerState, e: EntryData, content: Seq<char>) -> bool {
    match entry_module(s.module_graph@, e) {
        Some(m) => exists|l: Seq<ModuleId>|
            #[trigger] chunk_modules_ok(s.module_graph@, m, l) && content == concat_all(
                l.map_values(|x: ModuleId| generated(s.module_graph@.modules[x as int])),
            ),
        None => content.len() == 0,
    }
}

/// Runs builds: each one a new compilation through scan, link, code generation
/// and chunk assets. Creating a compilation owes every registered plugin its
/// compilation-created hook; the host runs the hooks and reports each one done, and
/// the build scans only once all of them are.
pub struct Compiler {
    pub options: Arc<CompilerOptions>,
    pub factory: Arc<ModuleFactory>,
    pub plugin_driver: PluginDriver,
    pub last_compilation: Option<Compilation>,
}

impl Compiler {
    pub fn new(options: Arc<CompilerOptions>, factory: Arc<ModuleFactory>, plugin_count: usize) -> (r: Compiler)
        ensures
            r.options == options,
            r.factory == factory,
            r.plugin_driver.plugin_count == plugin_count,
            r.last_compilation is None,
    {
        Compiler { options, factory, plugin_driver: PluginDriver::new(plugin_count), last_compilation: None }
    }

    /// Starts a fresh compilation, replacing the last one, and owes every plugin its
    /// compilation-created hook.
    pub fn new_compilation(&mut self) -> (r: &mut Compilation)
        ensures
            final(self).options == old(self).options,
            final(self).factory == old(self).factory,
            final(self).plugin_driver.plugin_count == old(self).plugin_driver.plugin_count,
            final(self).plugin_driver.hooks_completed == 0,
            r.options == old(self).options,
            r.scanner.factory == old(self).factory,
            r.diagnostics@.len() == 0,
            final(self).last_compilation == Some(*final(r)),
    {
        self.plugin_driver.compilation_created();
        self.last_compilation = Some(Compilation::new(self.options.clone(), self.factory.clone()));
        self.last_compilation.as_mut().unwrap()
    }

    /// One plugin's compilation-created hook has completed.
    pub fn hook_completed(&mut self)
        requires
            old(self).plugin_driver.hooks_completed < old(self).plugin_driver.plugin_count,
        ensures
            final(self).options == old(self).options,
            final(self).factory == old(self).factory,
            final(self).last_compilation == old(self).last_compilation,
            final(self).plugin_driver.plugin_count == old(self).plugin_driver.plugin_count,
            final(self).plugin_driver.hooks_completed == old(self).plugin_driver.hooks_completed + 1,
    {
        self.plugin_driver.hook_completed();
    }

    /// Runs the fresh compilation through to its chunk assets, one per entry, named
    /// after it. Scanning waits for every compilation-created hook. Diagnostics are
    /// kept on the compilation and do not stop the build.
    pub fn build(&mut self) -> (r: ChunkAssetState)
        requires
            old(self).plugin_driver.hooks_completed >= old(self).plugin_driver.plugin_count,
            old(self).last_compilation is Some,
            old(self).last_compilation->0.options == old(self).options,
            old(self).last_compilation->0.scanner.factory == old(self).factory,
            old(self).last_compilation->0.diagnostics@.len() == 0,
        ensures
            final(self).plugin_driver == old(self).plugin_driver,
            final(self).options == old(self).options,
            final(self).factory == old(self).factory,
            final(self).last_compilation is Some,
            r.assets@.len() == old(self).options.entry@.len(),
            forall|e: int|
                0 <= e < r.assets@.len() ==> (#[trigger] r.assets@[e]).0@
                    == old(self).options.entry@[e].name@,
            forall|e: int|
                0 <= e < r.assets@.len() && !resolvable(old(self).factory.files@, old(self).options.entry@[e].import@)
                    ==> (#[trigger] r.assets@[e]).1@.len() == 0,
            exists|s: ScannerState|
                #[trigger] is_scan_result(s, old(self).factory.files@, old(self).options.entry@) && {
                    &&& final(self).last_compilation->0.diagnostics@ == s.diagnostics@
                    &&& forall|e: int| 0 <= e < r.assets@.len() ==> asset_of_entry(s, s.entries@[e], (#[trigger] r.assets@[e]).1@)
                },
    {
        let compilation = self.last_compilation.as_mut().unwrap();
        let scanner_state = compilation.scan();
        let ghost entries = scanner_state.entries@;
        let ghost ss = scanner_state;
        let linker_state = compilation.link(scanner_state);
        let ghost g = linker_state.module_graph@;
        let mut code_generation_state = compilation.code_generation(linker_state);
        let mut diagnostics: Vec<Diagnostic> = Vec::new();
        std::mem::swap(&mut diagnostics, &mut code_generation_state.diagnostics);
        compilation.diagnostics.append(&mut diagnostics);
        proof {
            let st = code_generation_state;
            assert forall|c: int| 0 <= c < st.chunk_graph.chunks@.len() implies {
                &&& (#[trigger] st.chunk_graph.chunks@[c]).name is Some
                &&& forall|j: int|
                    0 <= j < st.chunk_graph.chunks@[c].modules@.len()
                        ==> #[trigger] st.chunk_graph.chunks@[c].modules@[j]
                        < st.code_generation_results@.len()
            } by {
                assert(entries[c] == entries[c]);
                match entry_module(g, entries[c]) {
                    Some(m) => {
                        assert(chunk_modules_ok(g, m, st.chunk_graph.chunks@[c].modules@));
                    },
                    None => {},
                }
            }
        }
        let ghost st = code_generation_state;
        let ghost opts = compilation.options;
        let ghost files = compilation.scanner.factory.files@;
        let ghost diags = compilation.diagnostics@;
        let r = compilation.create_chunk_asset(&mut code_generation_state);
        proof {
            assert(diags =~= ss.diagnostics@);
            assert(is_scan_result(ss, files, opts.entry@));
            assert forall|e: int| 0 <= e < r.assets@.len() implies asset_of_entry(ss, ss.entries@[e], (#[trigger] r.assets@[e]).1@) by {
                let c = st.chunk_graph.chunks@[e];
                assert(entries[e] == ss.entries@[e]);
                match entry_module(g, entries[e]) {
                    Some(m) => {
                        assert(chunk_modules_ok(g, m, c.modules@));
                        let srcs = st.code_generation_results@.map_values(|x: CodeGenerationResult| x.source@);
                        assert(c.modules@.map_values(|x: ModuleId| st.code_generation_results@[x as int].source@)
                            =~= c.modules@.map_values(|x: ModuleId| generated(g.modules[x as int]))) by {
                            assert forall|j: int| 0 <= j < c.modules@.len() implies st.code_generation_results@[c.modules@[j] as int].source@
                                == generated(g.modules[c.modules@[j] as int]) by {
                                let x = c.modules@[j] as int;
                                assert(srcs[x] == codegen(g)[x]);
                            }
                        }
                    },
                    None => {
                        assert(c.modules@.map_values(|x: ModuleId| st.code_generation_results@[x as int].source@) =~= Seq::<Seq<char>>::empty());
                    },
                }
            }
            assert forall|e: int| 0 <= e < r.assets@.len() implies (#[trigger] r.assets@[e]).0@
                == opts.entry@[e].name@ by {
                assert(r.assets@[e].0@ == st.chunk_graph.chunks@[e].name->0@);
                assert(st.chunk_graph.chunks@[e].name->0@ == entries[e].name@);
                assert(entries[e].name@ == opts.entry@[e].name@);
            }
            assert forall|e: int|
                0 <= e < r.assets@.len() && !resolvable(files, opts.entry@[e].import@)
                    implies (#[trigger] r.assets@[e]).1@.len() == 0 by {
                let c = st.chunk_graph.chunks@[e];
                assert(entry_module(g, entries[e]) is None);
                assert(c.modules@.len() == 0);
                assert(c.modules@.map_values(|m: ModuleId| st.code_generation_results@[m as int].source@) =~= Seq::<Seq<char>>::empty());
                assert(concat_all(Seq::<Seq<char>>::empty()) == Seq::<char>::empty());
            }

        }
        r
    }
}

} // verus!
