use std::sync::Arc;

use unpack::chunk_graph::ChunkGraph;
use unpack::compilation::Compilation;
use unpack::compiler::{Compiler, CompilerOptions, EntryItem};
use unpack::dependency::{Dependency, DependencyKind};
use unpack::factory::{ModuleFactory, SourceFile};
use unpack::module::Module;
use unpack::module_graph::ModuleGraph;
use unpack::plugin::{first_answer, PluginDriver};
use unpack::scanner::{resolve_context, Diagnostic};

fn file(path: &str, imports: &[&str], source: &str) -> SourceFile {
    SourceFile {
        path: path.to_string(),
        context: None,
        imports: imports.iter().map(|s| s.to_string()).collect(),
        source: source.to_string(),
        build_error: None,
    }
}

fn options(entries: &[(&str, &str)]) -> CompilerOptions {
    CompilerOptions {
        context: "/project".to_string(),
        entry: entries
            .iter()
            .map(|(n, i)| EntryItem { name: n.to_string(), import: i.to_string() })
            .collect(),
        extensions: vec![".js".to_string()],
    }
}

fn run(entries: &[(&str, &str)], files: Vec<SourceFile>) -> (Vec<(String, String)>, Vec<Diagnostic>) {
    let mut compiler = Compiler::new(Arc::new(options(entries)), Arc::new(ModuleFactory::new(files)), 0);
    compiler.new_compilation();
    let assets = compiler.build();
    let diagnostics = compiler.last_compilation.take().unwrap().diagnostics;
    (assets.assets, diagnostics)
}

#[test]
fn scenario_single_entry_with_import() {
    let (assets, diagnostics) = run(
        &[("main", "./index.js")],
        vec![file("./index.js", &["./foo.js"], "index;"), file("./foo.js", &[], "foo;")],
    );
    assert_eq!(assets, vec![("main".to_string(), "index;foo;".to_string())]);
    assert_eq!(diagnostics.len(), 0);
}

#[test]
fn scenario_missing_import() {
    let (assets, diagnostics) = run(
        &[("main", "./index.js")],
        vec![file("./index.js", &["./missing.js"], "index;")],
    );
    assert_eq!(diagnostics.len(), 1);
    match &diagnostics[0] {
        Diagnostic::Resolution { request, .. } => assert_eq!(request, "./missing.js"),
        _ => panic!("expected a resolution diagnostic"),
    }
    assert_eq!(assets, vec![("main".to_string(), "index;".to_string())]);
}

#[test]
fn scenario_two_independent_entries() {
    let (assets, diagnostics) = run(
        &[("a", "./a.js"), ("b", "./b.js")],
        vec![
            file("./a.js", &["./a2.js"], "a;"),
            file("./a2.js", &[], "a2;"),
            file("./b.js", &["./b2.js"], "b;"),
            file("./b2.js", &[], "b2;"),
        ],
    );
    assert_eq!(
        assets,
        vec![("a".to_string(), "a;a2;".to_string()), ("b".to_string(), "b;b2;".to_string())]
    );
    assert!(diagnostics.is_empty());
}

#[test]
fn order_is_discovery_not_name() {
    // z.js is discovered before b.js, so it comes first though it sorts last.
    let (assets, _) = run(
        &[("main", "./m.js")],
        vec![
            file("./b.js", &[], "B"),
            file("./m.js", &["./z.js", "./b.js"], "M"),
            file("./z.js", &["./y.js"], "Z"),
            file("./y.js", &[], "Y"),
        ],
    );
    assert_eq!(assets[0].1, "MZBY");
}

#[test]
fn each_failure_adds_one_diagnostic() {
    let mut broken = file("./broken.js", &["./never.js"], "broken;");
    broken.build_error = Some("syntax error".to_string());
    let (assets, diagnostics) = run(
        &[("main", "./index.js")],
        vec![file("./index.js", &["./gone1.js", "./broken.js", "./gone2.js"], "index;"), broken],
    );
    assert_eq!(diagnostics.len(), 3);
    assert!(matches!(&diagnostics[0], Diagnostic::Resolution { request, .. } if request == "./gone1.js"));
    assert!(matches!(&diagnostics[1], Diagnostic::Resolution { request, .. } if request == "./gone2.js"));
    assert!(
        matches!(&diagnostics[2], Diagnostic::Build { path, message, .. } if path == "./broken.js" && message == "syntax error")
    );
    assert_eq!(assets[0].1, "index;broken;");
}

#[test]
fn missing_entry_gives_empty_chunk() {
    let (assets, diagnostics) = run(&[("main", "./nowhere.js")], vec![]);
    assert_eq!(assets, vec![("main".to_string(), String::new())]);
    assert_eq!(diagnostics.len(), 1);
}

#[test]
fn no_entries_no_assets() {
    let (assets, diagnostics) = run(&[], vec![file("./a.js", &[], "a")]);
    assert!(assets.is_empty());
    assert!(diagnostics.is_empty());
}

#[test]
fn shared_module_built_once_and_cycles_end() {
    // a imports b and c, both import d; d imports a back.
    let mut compilation = Compilation::new(
        Arc::new(options(&[("main", "./a.js")])),
        Arc::new(ModuleFactory::new(vec![
            file("./a.js", &["./b.js", "./c.js"], "a"),
            file("./b.js", &["./d.js"], "b"),
            file("./c.js", &["./d.js"], "c"),
            file("./d.js", &["./a.js"], "d"),
        ])),
    );
    let state = compilation.scan();
    let graph = &state.module_graph;
    assert_eq!(graph.module_count(), 4);
    let paths: Vec<String> = (0..4).map(|i| graph.module_by_id(i).path.clone()).collect();
    assert_eq!(paths, vec!["./a.js", "./b.js", "./c.js", "./d.js"]);
    assert!(state.diagnostics.is_empty());
    let linker = compilation.link(state);
    let results = compilation.code_generation(linker);
    assert_eq!(results.chunk_graph.chunks[0].modules, vec![0, 1, 2, 3]);
}

#[test]
fn module_ids_are_stable() {
    let mut graph = ModuleGraph::new();
    let m = |p: &str| Module {
        path: p.to_string(),
        context: None,
        resolved_in: "/".to_string(),
        source: String::new(),
    };
    let a = graph.add_module(m("./a.js"));
    let d = graph.add_dependency(Dependency::new(DependencyKind::StaticImport, "./b.js".to_string(), None));
    let b = graph.add_module(m("./b.js"));
    graph.set_resolved_module(Some(a), d, b);
    assert_eq!((a, b, d), (0, 1, 0));
    assert_eq!(graph.module_by_id(a).path, "./a.js");
    assert_eq!(graph.module_by_id(b).path, "./b.js");
    assert_eq!(graph.get_resolved_module(d), Some(b));
    assert_eq!(graph.get_origin_module(d), Some(a));
    assert_eq!(graph.outgoing_of(a), &vec![d]);
    assert_eq!(graph.incoming_of(b), &vec![d]);
}

#[test]
fn code_generation_is_repeatable() {
    let files = vec![file("./index.js", &["./foo.js"], "index;"), file("./foo.js", &[], "foo;")];
    let first = run(&[("main", "./index.js")], files);
    let files = vec![file("./index.js", &["./foo.js"], "index;"), file("./foo.js", &[], "foo;")];
    let second = run(&[("main", "./index.js")], files);
    assert_eq!(first.0, second.0);
}

#[test]
fn context_precedence() {
    let dep = Some("/dep".to_string());
    let origin = Some("/origin".to_string());
    let global = "/global".to_string();
    assert_eq!(resolve_context(&dep, &origin, &global), "/dep");
    assert_eq!(resolve_context(&None, &origin, &global), "/origin");
    assert_eq!(resolve_context(&None, &None, &global), "/global");
}

#[test]
fn chunk_names_later_registration_wins() {
    let mut chunks = ChunkGraph::new();
    let first = chunks.create_chunk(Some("main".to_string()));
    let second = chunks.create_chunk(Some("main".to_string()));
    let unnamed = chunks.create_chunk(None);
    assert_eq!((first, second, unnamed), (0, 1, 2));
    assert_eq!(chunks.chunk_by_name(&"main".to_string()), Some(1));
    assert_eq!(chunks.chunk_by_name(&"other".to_string()), None);
    let group = chunks.create_chunk_group(second, Some("main".to_string()));
    assert_eq!(chunks.chunk_groups[group].chunks, vec![1]);
    assert_eq!(chunks.chunk_group_by_name(&"main".to_string()), Some(group));
}

#[test]
fn informational_dependencies_are_not_resolved() {
    let dep = Dependency::new(DependencyKind::Informational, "x".to_string(), None);
    assert!(!dep.as_module_dependency());
    let dep = Dependency::new(DependencyKind::StaticImport, "x".to_string(), None);
    assert!(dep.as_module_dependency());
}

#[test]
fn chunk_content_joins_parts_in_order() {
    // Goes through the concatenation of generated sources: order and contents both count.
    let (assets, _) = run(
        &[("main", "./1.js")],
        vec![file("./1.js", &["./2.js"], "one\n"), file("./2.js", &[], "two\n")],
    );
    assert_eq!(assets[0].1, "one\ntwo\n");
}

#[test]
fn first_plugin_answer_wins() {
    let replies = vec![None, Some("./b.js".to_string()), Some("./c.js".to_string())];
    assert_eq!(first_answer(replies), Some("./b.js".to_string()));
    let none: Vec<Option<String>> = vec![None, None];
    assert_eq!(first_answer(none), None);
    assert_eq!(first_answer(Vec::<Option<Vec<u8>>>::new()), None);
    assert_eq!(first_answer(vec![Some(vec![1u8]), Some(vec![2u8])]), Some(vec![1u8]));
}

#[test]
fn failed_build_leaves_its_subtree_out() {
    let mut broken = file("./broken.js", &["./hidden.js"], "broken;");
    broken.build_error = Some("bad".to_string());
    let mut compilation = Compilation::new(
        Arc::new(options(&[("main", "./index.js")])),
        Arc::new(ModuleFactory::new(vec![
            file("./index.js", &["./broken.js"], "index;"),
            broken,
            file("./hidden.js", &[], "hidden;"),
        ])),
    );
    let state = compilation.scan();
    assert_eq!(state.module_graph.module_count(), 2);
    assert_eq!(state.diagnostics.len(), 1);
    let linker = compilation.link(state);
    let mut generated = compilation.code_generation(linker);
    let assets = compilation.create_chunk_asset(&mut generated);
    assert_eq!(assets.assets, vec![("main".to_string(), "index;broken;".to_string())]);
}

#[test]
fn resolution_uses_first_file_with_path() {
    let (assets, _) = run(
        &[("main", "./a.js")],
        vec![file("./a.js", &[], "first"), file("./a.js", &[], "second")],
    );
    assert_eq!(assets[0].1, "first");
}

#[test]
fn module_context_reaches_imports() {
    let mut index = file("./index.js", &["./foo.js"], "i");
    index.context = Some("/project/src".to_string());
    let mut compilation = Compilation::new(
        Arc::new(options(&[("main", "./index.js")])),
        Arc::new(ModuleFactory::new(vec![index, file("./foo.js", &[], "f")])),
    );
    let state = compilation.scan();
    let graph = &state.module_graph;
    // The entry dependency carries the global context; foo.js was asked for by index.js.
    assert_eq!(graph.module_by_id(0).resolved_in, "/project");
    assert_eq!(graph.module_by_id(1).resolved_in, "/project/src");
}

#[test]
fn plugin_driver_gates_scanning_and_overrides() {
    let mut driver = PluginDriver::new(2);
    assert!(driver.ready_to_scan());
    driver.compilation_created();
    assert!(!driver.ready_to_scan());
    driver.hook_completed();
    assert!(!driver.ready_to_scan());
    driver.hook_completed();
    assert!(driver.ready_to_scan());
    let replies = vec![None, Some("./override.js".to_string())];
    assert_eq!(driver.resolve_request("./a.js".to_string(), replies), "./override.js");
    assert_eq!(driver.resolve_request("./a.js".to_string(), vec![None, None]), "./a.js");
}

#[test]
fn a_dependency_failure_is_recorded_once_with_its_id() {
    let (_, diagnostics) = run(
        &[("main", "./index.js")],
        vec![file("./index.js", &["./missing.js", "./missing.js"], "index;")],
    );
    // Two dependencies with the same request: one record for each dependency.
    assert_eq!(diagnostics.len(), 2);
    let ids: Vec<usize> = diagnostics
        .iter()
        .map(|d| match d {
            Diagnostic::Resolution { dependency, .. } => *dependency,
            _ => panic!("expected a resolution diagnostic"),
        })
        .collect();
    assert_eq!(ids, vec![1, 2]);
}

#[test]
fn chunk_order_is_scan_discovery_order() {
    // b.js imports a.js, which the scan discovered first (as entry "a"),
    // so in chunk "b" the code of a.js comes before that of b.js.
    let (assets, diagnostics) = run(
        &[("a", "./a.js"), ("b", "./b.js")],
        vec![file("./a.js", &[], "A"), file("./b.js", &["./c.js", "./a.js"], "B"), file("./c.js", &[], "C")],
    );
    assert!(diagnostics.is_empty());
    assert_eq!(assets, vec![("a".to_string(), "A".to_string()), ("b".to_string(), "ABC".to_string())]);
}

#[test]
fn build_waits_for_compilation_hooks() {
    let mut compiler = Compiler::new(
        Arc::new(options(&[("main", "./index.js")])),
        Arc::new(ModuleFactory::new(vec![file("./index.js", &[], "index;")])),
        2,
    );
    assert!(compiler.plugin_driver.ready_to_scan());
    compiler.new_compilation();
    assert!(!compiler.plugin_driver.ready_to_scan());
    compiler.hook_completed();
    compiler.hook_completed();
    assert!(compiler.plugin_driver.ready_to_scan());
    let assets = compiler.build();
    assert_eq!(assets.assets, vec![("main".to_string(), "index;".to_string())]);
}
