use vstd::prelude::*;

use crate::compilation::{codegen, CodeGenerationResult};
use crate::factory::{first_with_path, resolvable, SourceFile};
use crate::module_graph::GraphView;
use crate::scanner::{diagnostics_sound, file_of, has_module, lemma_paths_unique, scan_closed, Diagnostic, ScannerState};

verus! {

/// Module ids are never reused: each graph operation keeps every module and
/// dependency already allocated (`extended_by`), so across any sequence of them
/// an id keeps naming the same module.
pub proof fn lemma_ids_stable_across_operations(a: GraphView, b: GraphView, c: GraphView)
    requires
        a.extended_by(b),
        b.extended_by(c),
    ensures
        a.extended_by(c),
        forall|i: int| 0 <= i < a.modules.len() ==> #[trigger] c.modules[i] == a.modules[i],
{
    assert forall|i: int| 0 <= i < a.modules.len() implies #[trigger] c.modules[i] == a.modules[i] by {
        assert(b.modules[i] == a.modules[i]);
    }
    assert forall|i: int| 0 <= i < a.dependencies.len() implies #[trigger] c.dependencies[i]
        == a.dependencies[i] by {
        assert(b.dependencies[i] == a.dependencies[i]);
    }
}

/// Code generation is a function of the graph: two runs on one graph give the
/// same output for every module.
pub proof fn lemma_codegen_deterministic(
    g: GraphView,
    first: Seq<CodeGenerationResult>,
    second: Seq<CodeGenerationResult>,
)
    requires
        first.map_values(|c: CodeGenerationResult| c.source@) == codegen(g),
        second.map_values(|c: CodeGenerationResult| c.source@) == codegen(g),
    ensures
        first.len() == second.len(),
        forall|i: int| 0 <= i < first.len() ==> (#[trigger] first[i]).source@ == second[i].source@,
{
    let a = first.map_values(|c: CodeGenerationResult| c.source@);
    let b = second.map_values(|c: CodeGenerationResult| c.source@);
    assert(a.len() == first.len());
    assert(b.len() == second.len());
    assert forall|i: int| 0 <= i < first.len() implies (#[trigger] first[i]).source@ == second[i].source@ by {
        assert(a[i] == b[i]);
    }
}

/// `p` is reached from request `start` in at most `n` steps, each step an import
/// of the file that answers the previous request and builds.
pub open spec fn reaches(files: Seq<SourceFile>, start: Seq<char>, p: Seq<char>, n: nat) -> bool
    decreases n,
{
    p == start || (n > 0 && exists|f: int, k: int|
        first_with_path(files, files[f].path@, f) && files[f].build_error is None && 0 <= k
            < files[f].imports@.len() && (#[trigger] files[f].imports@[k])@ == p && reaches(
            files,
            start,
            files[f].path@,
            (n - 1) as nat,
        ))
}

/// Two first indices of one path are the same index.
proof fn lemma_first_unique(files: Seq<SourceFile>, p: Seq<char>, a: int, b: int)
    requires
        first_with_path(files, p, a),
        first_with_path(files, p, b),
    ensures
        a == b,
{
    if a < b {
        assert(files[a].path@ != p);
    } else if b < a {
        assert(files[b].path@ != p);
    }
}

/// Every module reachable from an entry is discovered: once a scan has run to the
/// end, any request that resolves and is reached from an entry request along imports
/// of files that build has a module, and no two modules share a path.
pub proof fn lemma_reachable_modules_discovered(
    s: ScannerState,
    files: Seq<SourceFile>,
    start: Seq<char>,
    p: Seq<char>,
    n: nat,
)
    requires
        s.inv(files),
        scan_closed(s, files),
        resolvable(files, start) ==> has_module(s.module_graph@, start),
        reaches(files, start, p, n),
        resolvable(files, p),
    ensures
        has_module(s.module_graph@, p),
        forall|a: int, b: int|
            0 <= a < s.module_graph@.modules.len() && 0 <= b < s.module_graph@.modules.len() && a != b
                ==> (#[trigger] s.module_graph@.modules[a]).path@ != (#[trigger] s.module_graph@.modules[b]).path@,
    decreases n,
{
    assert forall|a: int, b: int|
        0 <= a < s.module_graph@.modules.len() && 0 <= b < s.module_graph@.modules.len() && a != b
            implies (#[trigger] s.module_graph@.modules[a]).path@ != (#[trigger] s.module_graph@.modules[b]).path@ by {
        lemma_paths_unique(&s, files, a, b);
    }
    if p != start {
        let (f, k) = choose|f: int, k: int|
            first_with_path(files, files[f].path@, f) && files[f].build_error is None && 0 <= k
                < files[f].imports@.len() && (#[trigger] files[f].imports@[k])@ == p && reaches(
                files,
                start,
                files[f].path@,
                (n - 1) as nat,
            );
        let q = files[f].path@;
        assert(resolvable(files, q));
        lemma_reachable_modules_discovered(s, files, start, q, (n - 1) as nat);
        let g = s.module_graph@;
        let m = choose|m: int| 0 <= m < g.modules.len() && (#[trigger] g.modules[m]).path@ == q;
        assert(first_with_path(files, g.modules[m].path@, s.module_file@[m] as int));
        lemma_first_unique(files, q, f, s.module_file@[m] as int);
        assert(file_of(s, files, m) == files[f]);
        assert(file_of(s, files, m).imports@[k]@ == p);
    }
}

/// A scan keeps going past failures and records only real ones: at every point of a
/// scan each diagnostic names a request that no file answers or a file whose build
/// fails, and every module in the graph is made of a file that a request resolved to.
pub proof fn lemma_scan_records_only_real_failures(s: ScannerState, files: Seq<SourceFile>)
    requires
        s.inv(files),
    ensures
        diagnostics_sound(s.diagnostics@, files),
        forall|m: int| 0 <= m < s.module_graph@.modules.len() ==> resolvable(files, (#[trigger] s.module_graph@.modules[m]).path@),
{
    assert forall|m: int| 0 <= m < s.module_graph@.modules.len() implies resolvable(files, (#[trigger] s.module_graph@.modules[m]).path@) by {
        let f = s.module_file@[m] as int;
        assert(first_with_path(files, s.module_graph@.modules[m].path@, f));
        assert(files[f].path@ == s.module_graph@.modules[m].path@);
    }
}

/// A scan without failures reports nothing: when every module dependency's request
/// resolves and every file builds, the scan state holds no diagnostic.
pub proof fn lemma_no_failures_no_diagnostics(s: ScannerState, files: Seq<SourceFile>)
    requires
        s.inv(files),
        forall|d: int|
            0 <= d < s.module_graph@.dependencies.len() && (#[trigger] s.module_graph@.dependencies[d]).is_module_dependency_spec()
                ==> resolvable(files, s.module_graph@.dependencies[d].request@),
        forall|f: int| 0 <= f < files.len() ==> (#[trigger] files[f]).build_error is None,
    ensures
        s.diagnostics@.len() == 0,
{
    if s.diagnostics@.len() > 0 {
        let x = s.diagnostics@[0];
        match x {
            Diagnostic::Resolution { request, dependency } => {
                assert(s.module_graph@.dependencies[dependency as int].is_module_dependency_spec());
            },
            Diagnostic::Build { path, message, .. } => {
                let f = choose|f: int|
                    0 <= f < files.len() && (#[trigger] files[f]).path@ == path@ && files[f].build_error is Some
                        && files[f].build_error->0@ == message@;
            },
        }
    }
}

} // verus!
