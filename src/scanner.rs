use vstd::prelude::*;

use std::collections::VecDeque;
use std::sync::Arc;

use crate::dependency::{Dependency, DependencyId, DependencyKind};
use crate::compiler::EntryItem;
use crate::factory::{first_with_path, resolvable, discovered, ModuleFactory, SourceFile};
use crate::module::{BuildContext, ModuleId};
use crate::module_graph::{GraphView, ModuleGraph};

verus! {

/// A recoverable failure, recorded and never removed.
pub enum Diagnostic {
    /// A dependency whose request no file answers.
    Resolution { request: String, dependency: DependencyId },
    /// A module whose build failed.
    Build { module: ModuleId, path: String, message: String },
}

/// The dependencies that seed traversal from one named entry.
pub struct EntryData {
    pub name: String,
    pub dependencies: Vec<DependencyId>,
}

/// A unit of scanning work, each carrying the ids needed to resume it.
pub enum Task {
    Factorize { dependency: DependencyId, origin: Option<ModuleId>, origin_context: Option<String> },
    Add { module: ModuleId, dependency: DependencyId, origin: Option<ModuleId> },
    Build { module: ModuleId },
    ProcessDeps { dependencies: Vec<DependencyId>, origin: Option<ModuleId> },
}

/// How much queue work a task stands for: a factorize can lead to an add, an add to
/// a build, and dependencies to process lead to one factorize each.
pub open spec fn task_weight(t: Task) -> nat {
    match t {
        Task::Factorize { .. } => 3,
        Task::Add { .. } => 2,
        Task::Build { .. } => 1,
        Task::ProcessDeps { dependencies, .. } => 1 + 3 * dependencies@.len(),
    }
}

/// The weight of every queued task.
pub open spec fn queue_weight(q: Seq<Task>) -> nat
    decreases q.len(),
{
    if q.len() == 0 {
        0
    } else {
        task_weight(q[0]) + queue_weight(q.drop_first())
    }
}

/// How many files have no module yet.
pub open spec fn count_unassigned(s: Seq<Option<ModuleId>>) -> nat
    decreases s.len(),
{
    if s.len() == 0 {
        0
    } else {
        count_unassigned(s.drop_last()) + if s.last() is None { 1nat } else { 0nat }
    }
}

/// How many entries are `false`.
pub open spec fn count_unbuilt(s: Seq<bool>) -> nat
    decreases s.len(),
{
    if s.len() == 0 {
        0
    } else {
        count_unbuilt(s.drop_last()) + if s.last() { 0nat } else { 1nat }
    }
}

/// Each resolved dependency points at a module whose path is its request.
pub open spec fn resolutions_match(g: GraphView) -> bool {
    forall|d: int|
        0 <= d < g.dependencies.len() && #[trigger] g.resolved[d] is Some ==> g.modules[g.resolved[d]->0 as int].path@
            == g.dependencies[d].request@
}

/// Dependency `d` asks for module `m`'s path and was discovered by no module or by
/// one with a smaller id.
pub open spec fn created_before(g: GraphView, parents: Seq<Option<ModuleId>>, d: DependencyId, m: int) -> bool {
    &&& d < g.dependencies.len()
    &&& g.dependencies[d as int].request@ == g.modules[m].path@
    &&& g.dependencies[d as int].is_module_dependency_spec()
    &&& (parents[d as int] is None || parents[d as int]->0 < m)
    &&& (g.dependencies[d as int].context is Some ==> g.modules[m].resolved_in@ == g.dependencies[d as int].context->0@)
}

/// The origin a task carries is the parent of its dependencies.
pub open spec fn task_parent_ok(t: Task, parents: Seq<Option<ModuleId>>) -> bool {
    match t {
        Task::Factorize { dependency, origin, .. } => dependency < parents.len() && parents[dependency as int] == origin,
        Task::Add { dependency, origin, .. } => dependency < parents.len() && parents[dependency as int] == origin,
        Task::Build { .. } => true,
        Task::ProcessDeps { dependencies, origin } => forall|k: int|
            0 <= k < dependencies@.len() ==> #[trigger] dependencies@[k] < parents.len() && parents[dependencies@[k] as int] == origin,
    }
}

proof fn lemma_parents_grow(q: Seq<Task>, parents_before: Seq<Option<ModuleId>>, parents_after: Seq<Option<ModuleId>>)
    requires
        forall|i: int| 0 <= i < q.len() ==> task_parent_ok(#[trigger] q[i], parents_before),
        parents_before.is_prefix_of(parents_after),
    ensures
        forall|i: int| 0 <= i < q.len() ==> task_parent_ok(#[trigger] q[i], parents_after),
{
    assert forall|i: int| 0 <= i < q.len() implies task_parent_ok(#[trigger] q[i], parents_after) by {
        match q[i] {
            Task::ProcessDeps { dependencies, origin } => {
                assert forall|k: int| 0 <= k < dependencies@.len() implies #[trigger] dependencies@[k] < parents_after.len()
                    && parents_after[dependencies@[k] as int] == origin by {
                    assert(task_parent_ok(q[i], parents_before));
                    assert(parents_after[dependencies@[k] as int] == parents_before[dependencies@[k] as int]);
                }
            },
            Task::Factorize { dependency, .. } => {
                assert(parents_after[dependency as int] == parents_before[dependency as int]);
            },
            Task::Add { dependency, .. } => {
                assert(parents_after[dependency as int] == parents_before[dependency as int]);
            },
            _ => {},
        }
    }
}

/// An origin, if there is one, names a module of `g`.
pub open spec fn origin_ok(origin: Option<ModuleId>, g: GraphView) -> bool {
    origin is Some ==> origin->0 < g.modules.len()
}

/// The ids a task carries are valid in `g`, and an add joins a dependency to a
/// module whose path is its request.
pub open spec fn task_ok(t: Task, g: GraphView) -> bool {
    match t {
        Task::Factorize { dependency, origin, .. } => dependency < g.dependencies.len()
            && g.dependencies[dependency as int].is_module_dependency_spec() && origin_ok(origin, g),
        Task::Add { module, dependency, origin } => module < g.modules.len() && dependency
            < g.dependencies.len() && origin_ok(origin, g) && g.modules[module as int].path@
            == g.dependencies[dependency as int].request@,
        Task::Build { module } => module < g.modules.len(),
        Task::ProcessDeps { dependencies, origin } => origin_ok(origin, g) && forall|k: int|
            0 <= k < dependencies@.len() ==> #[trigger] dependencies@[k] < g.dependencies.len(),
    }
}

proof fn lemma_queue_push(q: Seq<Task>, t: Task)
    ensures
        queue_weight(q.push(t)) == queue_weight(q) + task_weight(t),
    decreases q.len(),
{
    if q.len() > 0 {
        assert(q.push(t).drop_first() =~= q.drop_first().push(t));
        assert(q.push(t)[0] == q[0]);
        lemma_queue_push(q.drop_first(), t);
    } else {
        assert(q.push(t).drop_first() =~= Seq::<Task>::empty());
        assert(q.push(t)[0] == t);
        assert(queue_weight(q.push(t).drop_first()) == 0);
    }
}

proof fn lemma_unassigned_set(s: Seq<Option<ModuleId>>, i: int, v: ModuleId)
    requires
        0 <= i < s.len(),
        s[i] is None,
    ensures
        count_unassigned(s.update(i, Some(v))) + 1 == count_unassigned(s),
    decreases s.len(),
{
    let t = s.update(i, Some(v));
    if i < s.len() - 1 {
        assert(t.drop_last() =~= s.drop_last().update(i, Some(v)));
        lemma_unassigned_set(s.drop_last(), i, v);
    } else {
        assert(t.drop_last() =~= s.drop_last());
    }
}

pub proof fn lemma_unbuilt_set(s: Seq<bool>, i: int)
    requires
        0 <= i < s.len(),
        !s[i],
    ensures
        count_unbuilt(s.update(i, true)) + 1 == count_unbuilt(s),
    decreases s.len(),
{
    let t = s.update(i, true);
    if i < s.len() - 1 {
        assert(t.drop_last() =~= s.drop_last().update(i, true));
        lemma_unbuilt_set(s.drop_last(), i);
    } else {
        assert(t.drop_last() =~= s.drop_last());
    }
}

/// `t` factorizes dependency `d`.
pub open spec fn is_factorize_of(t: Task, d: DependencyId) -> bool {
    match t {
        Task::Factorize { dependency, .. } => dependency == d,
        _ => false,
    }
}

/// The factorize tasks queued for `deps`, in order: one for each that asks for a module.
pub open spec fn creation_tasks(
    deps: Seq<DependencyId>,
    g: GraphView,
    origin: Option<ModuleId>,
    context: Option<String>,
) -> Seq<Task>
    decreases deps.len(),
{
    if deps.len() == 0 {
        Seq::empty()
    } else {
        let rest = creation_tasks(deps.drop_last(), g, origin, context);
        if g.dependencies[deps.last() as int].is_module_dependency_spec() {
            rest.push(Task::Factorize { dependency: deps.last(), origin, origin_context: context })
        } else {
            rest
        }
    }
}

/// A factorize task for dependency `d` is queued.
pub open spec fn factorize_queued(q: Seq<Task>, d: DependencyId) -> bool {
    exists|i: int| 0 <= i < q.len() && is_factorize_of(#[trigger] q[i], d)
}

/// Some module of `g` has path `p`.
pub open spec fn has_module(g: GraphView, p: Seq<char>) -> bool {
    exists|m: int| 0 <= m < g.modules.len() && (#[trigger] g.modules[m]).path@ == p
}

/// Task `t` will still lead to a factorize of a request `p`.
pub open spec fn task_pending(t: Task, g: GraphView, p: Seq<char>) -> bool {
    match t {
        Task::Factorize { dependency, .. } => dependency < g.dependencies.len()
            && g.dependencies[dependency as int].request@ == p,
        Task::ProcessDeps { dependencies, .. } => exists|k: int|
            0 <= k < dependencies@.len() && #[trigger] dependencies@[k] < g.dependencies.len()
                && g.dependencies[dependencies@[k] as int].request@ == p
                && g.dependencies[dependencies@[k] as int].is_module_dependency_spec(),
        _ => false,
    }
}

/// Some queued task will still lead to a factorize of `p`.
pub open spec fn pending(q: Seq<Task>, g: GraphView, p: Seq<char>) -> bool {
    exists|i: int| 0 <= i < q.len() && task_pending(#[trigger] q[i], g, p)
}

/// Request `p` is taken care of: it cannot resolve, a module has its path, or
/// queued work will get to it.
pub open spec fn covered(files: Seq<SourceFile>, g: GraphView, q: Seq<Task>, p: Seq<char>) -> bool {
    !resolvable(files, p) || has_module(g, p) || pending(q, g, p)
}

/// `t` is an add or a build of module `m`.
pub open spec fn is_build_step_of(t: Task, m: ModuleId) -> bool {
    match t {
        Task::Add { module, .. } => module == m,
        Task::Build { module } => module == m,
        _ => false,
    }
}

/// An add or build task for module `m` is queued.
pub open spec fn build_pending(q: Seq<Task>, m: ModuleId) -> bool {
    exists|i: int| 0 <= i < q.len() && is_build_step_of(#[trigger] q[i], m)
}

/// The file module `m` is made of.
pub open spec fn file_of(s: ScannerState, files: Seq<SourceFile>, m: int) -> SourceFile {
    files[s.module_file@[m] as int]
}

/// Module `m` is built or about to be.
pub open spec fn module_progress(s: ScannerState, q: Seq<Task>, m: int) -> bool {
    !s.built@[m] ==> build_pending(q, m as ModuleId)
}

/// Import `k` of a successfully built module `m` is taken care of.
pub open spec fn import_covered(s: ScannerState, files: Seq<SourceFile>, q: Seq<Task>, m: int, k: int) -> bool {
    s.built@[m] && file_of(s, files, m).build_error is None && 0 <= k < file_of(s, files, m).imports@.len()
        ==> covered(files, s.module_graph@, q, file_of(s, files, m).imports@[k]@)
}

/// Against queue `q`: every module is built or will be, and every import of a
/// successfully built module is taken care of.
pub open spec fn progress(s: ScannerState, files: Seq<SourceFile>, q: Seq<Task>) -> bool {
    &&& forall|m: int| 0 <= m < s.module_graph@.modules.len() ==> #[trigger] module_progress(s, q, m)
    &&& forall|m: int, k: int|
        0 <= m < s.module_graph@.modules.len() ==> #[trigger] import_covered(s, files, q, m, k)
}

proof fn lemma_has_module_grows(g: GraphView, h: GraphView, p: Seq<char>)
    requires
        has_module(g, p),
        g.extended_by(h),
    ensures
        has_module(h, p),
{
    let m = choose|m: int| 0 <= m < g.modules.len() && (#[trigger] g.modules[m]).path@ == p;
    assert(h.modules[m] == g.modules[m]);
}

proof fn lemma_task_pending_grows(t: Task, g: GraphView, h: GraphView, p: Seq<char>)
    requires
        task_pending(t, g, p),
        g.extended_by(h),
    ensures
        task_pending(t, h, p),
{
    match t {
        Task::Factorize { dependency, .. } => {
            assert(h.dependencies[dependency as int] == g.dependencies[dependency as int]);
        },
        Task::ProcessDeps { dependencies, .. } => {
            let k = choose|k: int|
                0 <= k < dependencies@.len() && #[trigger] dependencies@[k] < g.dependencies.len()
                    && g.dependencies[dependencies@[k] as int].request@ == p
                    && g.dependencies[dependencies@[k] as int].is_module_dependency_spec();
            assert(h.dependencies[dependencies@[k] as int] == g.dependencies[dependencies@[k] as int]);
        },
        _ => {},
    }
}

/// Coverage survives the first task leaving the queue (when it was not the witness),
/// more tasks joining its end, and the graph growing.
proof fn lemma_covered_shift(
    files: Seq<SourceFile>,
    g: GraphView,
    h: GraphView,
    q0: Seq<Task>,
    q1: Seq<Task>,
    p: Seq<char>,
)
    requires
        covered(files, g, q0, p),
        g.extended_by(h),
        q0.len() > 0,
        q0.drop_first().is_prefix_of(q1),
        !task_pending(q0[0], g, p),
    ensures
        covered(files, h, q1, p),
{
    if has_module(g, p) {
        lemma_has_module_grows(g, h, p);
    } else if pending(q0, g, p) {
        let i = choose|i: int| 0 <= i < q0.len() && task_pending(#[trigger] q0[i], g, p);
        assert(i > 0);
        assert(q1[i - 1] == q0.drop_first()[i - 1]);
        lemma_task_pending_grows(q0[i], g, h, p);
        assert(task_pending(q1[i - 1], h, p));
    }
}

/// A queued build step survives the first task leaving (when it was not the witness).
proof fn lemma_build_pending_shift(q0: Seq<Task>, q1: Seq<Task>, m: ModuleId)
    requires
        build_pending(q0, m),
        q0.len() > 0,
        q0.drop_first().is_prefix_of(q1),
        !is_build_step_of(q0[0], m),
    ensures
        build_pending(q1, m),
{
    let i = choose|i: int| 0 <= i < q0.len() && is_build_step_of(#[trigger] q0[i], m);
    assert(q1[i - 1] == q0.drop_first()[i - 1]);
}

proof fn lemma_covered_transfer(
    files: Seq<SourceFile>,
    g: GraphView,
    h: GraphView,
    q0: Seq<Task>,
    q1: Seq<Task>,
    p: Seq<char>,
)
    requires
        covered(files, g, q0, p),
        g.extended_by(h),
        q0.len() > 0,
        q0.drop_first().is_prefix_of(q1),
        task_pending(q0[0], g, p) ==> covered(files, h, q1, p),
    ensures
        covered(files, h, q1, p),
{
    if !task_pending(q0[0], g, p) {
        lemma_covered_shift(files, g, h, q0, q1, p);
    }
}

/// Progress of an old module `m` carries over one step, when the step left it alone.
proof fn lemma_module_shift(s0: ScannerState, s1: ScannerState, files: Seq<SourceFile>, q0: Seq<Task>, m: int)
    requires
        progress(s0, files, q0),
        q0.len() > 0,
        q0.drop_first().is_prefix_of(s1.task_queue@),
        s0.module_graph@.extended_by(s1.module_graph@),
        0 <= m < s0.module_graph@.modules.len(),
        s1.built@[m] == s0.built@[m],
        s1.module_file@[m] == s0.module_file@[m],
        !s1.built@[m] ==> !is_build_step_of(q0[0], m as ModuleId),
        forall|p: Seq<char>| task_pending(q0[0], s0.module_graph@, p) ==> #[trigger] covered(
            files,
            s1.module_graph@,
            s1.task_queue@,
            p,
        ),
    ensures
        module_progress(s1, s1.task_queue@, m),
        forall|k: int| #[trigger] import_covered(s1, files, s1.task_queue@, m, k),
{
    assert(module_progress(s0, q0, m));
    if !s1.built@[m] {
        lemma_build_pending_shift(q0, s1.task_queue@, m as ModuleId);
    }
    assert forall|k: int| #[trigger] import_covered(s1, files, s1.task_queue@, m, k) by {
        assert(import_covered(s0, files, q0, m, k));
        assert(file_of(s1, files, m) == file_of(s0, files, m));
        if s1.built@[m] && file_of(s1, files, m).build_error is None && 0 <= k < file_of(s1, files, m).imports@.len() {
            let p = file_of(s1, files, m).imports@[k]@;
            lemma_covered_transfer(files, s0.module_graph@, s1.module_graph@, q0, s1.task_queue@, p);
        }
    }
}

/// Progress survives tasks joining the queue and dependencies joining the graph.
proof fn lemma_progress_grow(s0: ScannerState, s1: ScannerState, files: Seq<SourceFile>)
    requires
        progress(s0, files, s0.task_queue@),
        s0.task_queue@.is_prefix_of(s1.task_queue@),
        s0.module_graph@.extended_by(s1.module_graph@),
        s1.module_graph@.modules.len() == s0.module_graph@.modules.len(),
        s1.built == s0.built,
        s1.module_file == s0.module_file,
    ensures
        progress(s1, files, s1.task_queue@),
{
    let q0 = s0.task_queue@;
    let q1 = s1.task_queue@;
    let g0 = s0.module_graph@;
    let g1 = s1.module_graph@;
    assert forall|m: int| 0 <= m < g1.modules.len() implies #[trigger] module_progress(s1, q1, m) by {
        assert(module_progress(s0, q0, m));
        if !s1.built@[m] {
            let i = choose|i: int| 0 <= i < q0.len() && is_build_step_of(#[trigger] q0[i], m as ModuleId);
            assert(q1[i] == q0[i]);
        }
    }
    assert forall|m: int, k: int| 0 <= m < g1.modules.len() implies #[trigger] import_covered(s1, files, q1, m, k) by {
        assert(import_covered(s0, files, q0, m, k));
        if s1.built@[m] && file_of(s1, files, m).build_error is None && 0 <= k < file_of(s1, files, m).imports@.len() {
            let p = file_of(s1, files, m).imports@[k]@;
            if has_module(g0, p) {
                lemma_has_module_grows(g0, g1, p);
            } else if pending(q0, g0, p) {
                let i = choose|i: int| 0 <= i < q0.len() && task_pending(#[trigger] q0[i], g0, p);
                assert(q1[i] == q0[i]);
                lemma_task_pending_grows(q0[i], g0, g1, p);
            }
        }
    }
}

proof fn lemma_progress_same(s0: ScannerState, s1: ScannerState, files: Seq<SourceFile>, q: Seq<Task>)
    requires
        progress(s0, files, q),
        s1.module_graph == s0.module_graph,
        s1.built == s0.built,
        s1.module_file == s0.module_file,
    ensures
        progress(s1, files, q),
{
    assert forall|m: int| 0 <= m < s1.module_graph@.modules.len() implies #[trigger] module_progress(s1, q, m) by {
        assert(module_progress(s0, q, m));
    }
    assert forall|m: int, k: int| 0 <= m < s1.module_graph@.modules.len() implies #[trigger] import_covered(s1, files, q, m, k) by {
        assert(import_covered(s0, files, q, m, k));
    }
}

/// Once the queue is empty: every module is built, and each import of a module
/// that built cannot resolve or has a module.
pub open spec fn scan_closed(s: ScannerState, files: Seq<SourceFile>) -> bool {
    &&& forall|m: int| 0 <= m < s.module_graph@.modules.len() ==> #[trigger] s.built@[m]
    &&& forall|m: int, k: int|
        0 <= m < s.module_graph@.modules.len() && file_of(s, files, m).build_error is None && 0 <= k
            < file_of(s, files, m).imports@.len() ==> !resolvable(files, (#[trigger] file_of(s, files, m).imports@[k])@)
            || has_module(s.module_graph@, file_of(s, files, m).imports@[k]@)
}

/// `t` records the resolution of dependency `d`.
pub open spec fn is_add_of(t: Task, d: DependencyId) -> bool {
    match t {
        Task::Add { dependency, .. } => dependency == d,
        _ => false,
    }
}

/// An add task recording the resolution of dependency `d` is queued.
pub open spec fn add_queued(q: Seq<Task>, d: DependencyId) -> bool {
    exists|i: int| 0 <= i < q.len() && is_add_of(#[trigger] q[i], d)
}

/// Dependency `d` is resolved, cannot resolve, or queued work will resolve it.
pub open spec fn resolution_on_track(files: Seq<SourceFile>, g: GraphView, q: Seq<Task>, d: DependencyId) -> bool {
    ||| !resolvable(files, g.dependencies[d as int].request@)
    ||| g.resolved[d as int] is Some
    ||| factorize_queued(q, d)
    ||| add_queued(q, d)
}

proof fn lemma_track_shift(
    files: Seq<SourceFile>,
    g: GraphView,
    h: GraphView,
    q0: Seq<Task>,
    q1: Seq<Task>,
    d: DependencyId,
)
    requires
        resolution_on_track(files, g, q0, d),
        d < g.dependencies.len(),
        g.extended_by(h),
        q0.len() > 0,
        q0.drop_first().is_prefix_of(q1),
        !is_factorize_of(q0[0], d),
        !is_add_of(q0[0], d),
    ensures
        resolution_on_track(files, h, q1, d),
{
    assert(h.dependencies[d as int] == g.dependencies[d as int]);
    if factorize_queued(q0, d) {
        let i = choose|i: int| 0 <= i < q0.len() && is_factorize_of(#[trigger] q0[i], d);
        assert(q1[i - 1] == q0.drop_first()[i - 1]);
    } else if add_queued(q0, d) {
        let i = choose|i: int| 0 <= i < q0.len() && is_add_of(#[trigger] q0[i], d);
        assert(q1[i - 1] == q0.drop_first()[i - 1]);
    }
}

/// `t` is dependencies to process that include `d`.
pub open spec fn is_process_of(t: Task, d: DependencyId) -> bool {
    match t {
        Task::ProcessDeps { dependencies, .. } => exists|k: int| 0 <= k < dependencies@.len() && #[trigger] dependencies@[k] == d,
        _ => false,
    }
}

/// Dependency `d` is resolved, has its failure recorded, names no module, or queued
/// work will get to it.
pub open spec fn dep_on_track(g: GraphView, q: Seq<Task>, diagnostics: Seq<Diagnostic>, d: DependencyId) -> bool {
    ||| g.resolved[d as int] is Some
    ||| failure_recorded(diagnostics, d)
    ||| !g.dependencies[d as int].is_module_dependency_spec()
    ||| exists|i: int| 0 <= i < q.len() && (is_factorize_of(#[trigger] q[i], d) || is_add_of(q[i], d) || is_process_of(q[i], d))
}

/// Dependency `d` is resolved, has its failure recorded, or names no module.
pub open spec fn settled(g: GraphView, diagnostics: Seq<Diagnostic>, d: DependencyId) -> bool {
    ||| g.resolved[d as int] is Some
    ||| failure_recorded(diagnostics, d)
    ||| !g.dependencies[d as int].is_module_dependency_spec()
}

/// After a scan: each diagnostic is about a distinct module dependency or module; a
/// module dependency is resolved exactly when its request resolves, and has a
/// resolution failure recorded exactly when it does not; each module whose file
/// fails to build has its failure recorded.
pub open spec fn diagnostics_exact(s: ScannerState, files: Seq<SourceFile>) -> bool {
    let g = s.module_graph@;
    &&& diagnostics_linked(s.diagnostics@, s.built@, g)
    &&& forall|d: DependencyId|
        d < g.dependencies.len() && #[trigger] g.dependencies[d as int].is_module_dependency_spec() ==> {
            &&& (g.resolved[d as int] is Some <==> resolvable(files, g.dependencies[d as int].request@))
            &&& (failure_recorded(s.diagnostics@, d) <==> !resolvable(files, g.dependencies[d as int].request@))
        }
    &&& forall|m: int|
        0 <= m < g.modules.len() && #[trigger] file_of(s, files, m).build_error is Some
            ==> build_failure_recorded(s.diagnostics@, m as ModuleId)
}

/// Import `k` of module `m` is a dependency that `m` discovered; when its request
/// resolves, the dependency is resolved to the module with that path, with `m` as
/// its recorded origin.
pub open spec fn import_edge(s: ScannerState, files: Seq<SourceFile>, m: int, k: int) -> bool {
    let g = s.module_graph@;
    let p = file_of(s, files, m).imports@[k]@;
    exists|d: DependencyId|
        d < g.dependencies.len() && #[trigger] s.parents@[d as int] == Some(m as ModuleId) && g.dependencies[d as int].request@ == p
            && (resolvable(files, p) ==> {
            &&& g.resolved[d as int] is Some
            &&& g.origins[d as int] == Some(m as ModuleId)
            &&& g.modules[g.resolved[d as int]->0 as int].path@ == p
        })
}

/// After a scan: every import of every module that built is a recorded edge.
pub open spec fn import_edges(s: ScannerState, files: Seq<SourceFile>) -> bool {
    forall|m: int, k: int|
        0 <= m < s.module_graph@.modules.len() && file_of(s, files, m).build_error is None && 0 <= k
            < file_of(s, files, m).imports@.len() ==> #[trigger] import_edge(s, files, m, k)
}

/// `d` is the dependency of one of the configured entries.
pub open spec fn entry_dependency(entries: Seq<EntryData>, d: DependencyId) -> bool {
    exists|e: int| 0 <= e < entries.len() && (#[trigger] entries[e]).dependencies@.len() == 1 && entries[e].dependencies@[0] == d
}

/// Dependency `d`, discovered by module `m`, is import `d - deps_start[m]` of `m`'s file.
pub open spec fn import_slot(s: ScannerState, files: Seq<SourceFile>, d: DependencyId, m: int) -> bool {
    let g = s.module_graph@;
    let start = s.deps_start@[m] as int;
    &&& 0 <= m < g.modules.len()
    &&& s.built@[m]
    &&& file_of(s, files, m).build_error is None
    &&& start <= d < start + file_of(s, files, m).imports@.len()
    &&& g.dependencies[d as int].request@ == file_of(s, files, m).imports@[d - start]@
    &&& g.dependencies[d as int].kind == DependencyKind::StaticImport
}

/// Every dependency is an entry's, or one of the imports of the module that built
/// it; and the dependencies a module's build discovered are its imports, one each.
pub open spec fn dependencies_accounted(s: ScannerState, files: Seq<SourceFile>) -> bool {
    let g = s.module_graph@;
    &&& forall|d: DependencyId|
        d < g.dependencies.len() && #[trigger] s.parents@[d as int] is None ==> entry_dependency(s.entries@, d)
    &&& forall|d: DependencyId|
        d < g.dependencies.len() && #[trigger] s.parents@[d as int] is Some ==> import_slot(s, files, d, s.parents@[d as int]->0 as int)
    &&& forall|m: int, k: int|
        0 <= m < g.modules.len() && s.built@[m] && file_of(s, files, m).build_error is None && 0 <= k
            < file_of(s, files, m).imports@.len() ==> s.deps_start@[m] + k < g.dependencies.len()
            && #[trigger] s.parents@[s.deps_start@[m] + k] == Some(m as ModuleId)
}

/// Module ids follow discovery: each module is the target of a resolved dependency
/// asked for by an entry or by a module with a smaller id.
pub open spec fn discovery_ordered(g: GraphView) -> bool {
    forall|m: int| 0 <= m < g.modules.len() ==> #[trigger] discovered_from_earlier(g, m)
}

/// Module `m` is the target of a resolved dependency asked for by an entry or by a
/// module with a smaller id.
pub open spec fn discovered_from_earlier(g: GraphView, m: int) -> bool {
    exists|d: DependencyId|
        d < g.dependencies.len() && #[trigger] g.resolved[d as int] == Some(m as ModuleId) && (g.origins[d as int] is None
            || g.origins[d as int]->0 < m)
}

/// Each module whose build was attempted and failed has its failure recorded.
pub open spec fn builds_recorded(s: ScannerState, files: Seq<SourceFile>) -> bool {
    forall|m: int|
        0 <= m < s.module_graph@.modules.len() && #[trigger] s.built@[m] && file_of(s, files, m).build_error is Some
            ==> build_failure_recorded(s.diagnostics@, m as ModuleId)
}

proof fn lemma_recorded_kept(d0: Seq<Diagnostic>, d1: Seq<Diagnostic>)
    requires
        d0.is_prefix_of(d1),
    ensures
        forall|d: DependencyId| #[trigger] failure_recorded(d0, d) ==> failure_recorded(d1, d),
        forall|m: ModuleId| #[trigger] build_failure_recorded(d0, m) ==> build_failure_recorded(d1, m),
{
    assert forall|d: DependencyId| #[trigger] failure_recorded(d0, d) implies failure_recorded(d1, d) by {
        let i = choose|i: int| 0 <= i < d0.len() && is_failure_of(#[trigger] d0[i], d);
        assert(d1[i] == d0[i]);
    }
    assert forall|m: ModuleId| #[trigger] build_failure_recorded(d0, m) implies build_failure_recorded(d1, m) by {
        let i = choose|i: int| 0 <= i < d0.len() && is_build_failure_of(#[trigger] d0[i], m);
        assert(d1[i] == d0[i]);
    }
}

proof fn lemma_builds_same(s0: ScannerState, s1: ScannerState, files: Seq<SourceFile>)
    requires
        builds_recorded(s0, files),
        s1.module_graph@.modules == s0.module_graph@.modules,
        s1.built == s0.built,
        s1.module_file == s0.module_file,
        s1.diagnostics == s0.diagnostics,
    ensures
        builds_recorded(s1, files),
{
    assert forall|m: int|
        0 <= m < s1.module_graph@.modules.len() && #[trigger] s1.built@[m] && file_of(s1, files, m).build_error is Some
            implies build_failure_recorded(s1.diagnostics@, m as ModuleId) by {
        assert(file_of(s1, files, m) == file_of(s0, files, m));
    }
}

/// Some dependency that module `m` discovered asks for import `k` of its file.
pub open spec fn import_dep(s: ScannerState, files: Seq<SourceFile>, m: int, k: int) -> bool {
    exists|d: DependencyId|
        d < s.module_graph@.dependencies.len() && #[trigger] s.parents@[d as int] == Some(m as ModuleId)
            && s.module_graph@.dependencies[d as int].request@ == file_of(s, files, m).imports@[k]@
            && s.module_graph@.dependencies[d as int].is_module_dependency_spec()
}

/// Every import of a module that built is a dependency discovered by that module.
pub open spec fn imports_linked(s: ScannerState, files: Seq<SourceFile>) -> bool {
    forall|m: int, k: int|
        0 <= m < s.module_graph@.modules.len() && s.built@[m] && file_of(s, files, m).build_error is None && 0 <= k
            < file_of(s, files, m).imports@.len() ==> #[trigger] import_dep(s, files, m, k)
}

proof fn lemma_imports_linked_grow(s0: ScannerState, s1: ScannerState, files: Seq<SourceFile>)
    requires
        imports_linked(s0, files),
        s0.module_graph@.extended_by(s1.module_graph@),
        s0.parents@.len() == s0.module_graph@.dependencies.len(),
        s0.parents@.is_prefix_of(s1.parents@),
        s1.module_graph@.modules.len() == s0.module_graph@.modules.len(),
        s1.built == s0.built,
        s1.module_file == s0.module_file,
    ensures
        imports_linked(s1, files),
{
    assert forall|m: int, k: int|
        0 <= m < s1.module_graph@.modules.len() && s1.built@[m] && file_of(s1, files, m).build_error is None && 0 <= k
            < file_of(s1, files, m).imports@.len() implies #[trigger] import_dep(s1, files, m, k) by {
        assert(file_of(s1, files, m) == file_of(s0, files, m));
        assert(import_dep(s0, files, m, k));
        let d = choose|d: DependencyId|
            d < s0.module_graph@.dependencies.len() && #[trigger] s0.parents@[d as int] == Some(m as ModuleId)
                && s0.module_graph@.dependencies[d as int].request@ == file_of(s0, files, m).imports@[k]@
                && s0.module_graph@.dependencies[d as int].is_module_dependency_spec();
        assert(s1.parents@[d as int] == s0.parents@[d as int]);
        assert(s1.module_graph@.dependencies[d as int] == s0.module_graph@.dependencies[d as int]);
    }
}

proof fn lemma_accounted_grow(s0: ScannerState, s1: ScannerState, files: Seq<SourceFile>)
    requires
        dependencies_accounted(s0, files),
        s0.module_graph@.extended_by(s1.module_graph@),
        s0.parents@.len() == s0.module_graph@.dependencies.len(),
        s1.parents@.len() == s1.module_graph@.dependencies.len(),
        s0.parents@.is_prefix_of(s1.parents@),
        s1.module_graph@.modules.len() == s0.module_graph@.modules.len(),
        s1.built == s0.built,
        s1.module_file == s0.module_file,
        s1.deps_start == s0.deps_start,
        s0.entries@.len() <= s1.entries@.len(),
        forall|e: int| 0 <= e < s0.entries@.len() ==> #[trigger] s1.entries@[e] == s0.entries@[e],
        forall|d: DependencyId|
            s0.module_graph@.dependencies.len() <= d < s1.module_graph@.dependencies.len() ==> #[trigger] s1.parents@[d as int] is None
                && entry_dependency(s1.entries@, d),
    ensures
        dependencies_accounted(s1, files),
{
    let g0 = s0.module_graph@;
    let g1 = s1.module_graph@;
    assert forall|d: DependencyId|
        d < g1.dependencies.len() && #[trigger] s1.parents@[d as int] is None implies entry_dependency(s1.entries@, d) by {
        if d < g0.dependencies.len() {
            assert(s1.parents@[d as int] == s0.parents@[d as int]);
            assert(entry_dependency(s0.entries@, d));
            let e = choose|e: int| 0 <= e < s0.entries@.len() && (#[trigger] s0.entries@[e]).dependencies@.len() == 1 && s0.entries@[e].dependencies@[0] == d;
            assert(s1.entries@[e] == s0.entries@[e]);
        }
    }
    assert forall|d: DependencyId|
        d < g1.dependencies.len() && #[trigger] s1.parents@[d as int] is Some implies import_slot(s1, files, d, s1.parents@[d as int]->0 as int) by {
        assert(d < g0.dependencies.len());
        assert(s1.parents@[d as int] == s0.parents@[d as int]);
        let p = s1.parents@[d as int]->0 as int;
        assert(import_slot(s0, files, d, p));
        assert(file_of(s1, files, p) == file_of(s0, files, p));
        assert(g1.dependencies[d as int] == g0.dependencies[d as int]);
    }
    assert forall|m: int, k: int|
        0 <= m < g1.modules.len() && s1.built@[m] && file_of(s1, files, m).build_error is None && 0 <= k
            < file_of(s1, files, m).imports@.len() implies s1.deps_start@[m] + k < g1.dependencies.len()
            && #[trigger] s1.parents@[s1.deps_start@[m] + k] == Some(m as ModuleId) by {
        assert(file_of(s1, files, m) == file_of(s0, files, m));
        assert(s0.parents@[s0.deps_start@[m] + k] == Some(m as ModuleId));
    }
}

proof fn lemma_on_track_shift(
    g: GraphView,
    h: GraphView,
    q0: Seq<Task>,
    q1: Seq<Task>,
    dg0: Seq<Diagnostic>,
    dg1: Seq<Diagnostic>,
    d: DependencyId,
)
    requires
        dep_on_track(g, q0, dg0, d),
        d < g.dependencies.len(),
        g.extended_by(h),
        q0.len() > 0,
        q0.drop_first().is_prefix_of(q1),
        dg0.is_prefix_of(dg1),
        !is_factorize_of(q0[0], d),
        !is_add_of(q0[0], d),
        !is_process_of(q0[0], d),
    ensures
        dep_on_track(h, q1, dg1, d),
{
    assert(h.dependencies[d as int] == g.dependencies[d as int]);
    lemma_recorded_kept(dg0, dg1);
    if g.resolved[d as int] is Some || failure_recorded(dg0, d) || !g.dependencies[d as int].is_module_dependency_spec() {
    } else {
        let i = choose|i: int| 0 <= i < q0.len() && (is_factorize_of(#[trigger] q0[i], d) || is_add_of(q0[i], d) || is_process_of(q0[i], d));
        assert(i > 0);
        assert(q1[i - 1] == q0.drop_first()[i - 1]);
    }
}

/// The in-progress state of one scan.
pub struct ScannerState {
    pub module_graph: ModuleGraph,
    pub task_queue: VecDeque<Task>,
    pub diagnostics: Vec<Diagnostic>,
    pub entries: Vec<EntryData>,
    /// For each file of the factory, the module made of it, if any.
    pub file_module: Vec<Option<ModuleId>>,
    /// For each module, the file it was made of.
    pub module_file: Vec<usize>,
    /// For each module, whether its build was attempted.
    pub built: Vec<bool>,
    /// For each dependency, the module whose build discovered it; none for an entry.
    pub parents: Vec<Option<ModuleId>>,
    /// For each module, the dependency whose factorize created it.
    pub created_by: Vec<DependencyId>,
    /// For each built module, the id of the first dependency its build discovered.
    pub deps_start: Vec<DependencyId>,
}

impl ScannerState {
    pub fn new(file_count: usize) -> (r: ScannerState)
        ensures
            r.inv_for(file_count as nat),
            r.task_queue@.len() == 0,
            r.module_graph@.modules.len() == 0,
            r.module_graph@.dependencies.len() == 0,
            r.diagnostics@.len() == 0,
            r.entries@.len() == 0,
    {
        let mut file_module: Vec<Option<ModuleId>> = Vec::new();
        let mut i: usize = 0;
        while i < file_count
            invariant
                i <= file_count,
                file_module@.len() == i,
                forall|f: int| 0 <= f < i ==> #[trigger] file_module@[f] is None,
            decreases file_count - i,
        {
            file_module.push(None);
            i = i + 1;
        }
        ScannerState {
            module_graph: ModuleGraph::new(),
            task_queue: VecDeque::new(),
            diagnostics: Vec::new(),
            entries: Vec::new(),
            file_module,
            module_file: Vec::new(),
            built: Vec::new(),
            parents: Vec::new(),
            created_by: Vec::new(),
            deps_start: Vec::new(),
        }
    }

    /// What is left to do, in two parts: modules still to be created or built,
    /// then the work queued.
    pub open spec fn potential(&self) -> nat {
        2 * count_unassigned(self.file_module@) + count_unbuilt(self.built@)
    }

    /// Well-formedness against a factory with `n` files.
    pub open spec fn inv_for(&self, n: nat) -> bool {
        let g = self.module_graph@;
        &&& g.wf()
        &&& self.file_module@.len() == n
        &&& self.module_file@.len() == g.modules.len()
        &&& self.built@.len() == g.modules.len()
        &&& forall|f: int|
            0 <= f < n && #[trigger] self.file_module@[f] is Some ==> {
                &&& self.file_module@[f]->0 < g.modules.len()
                &&& self.module_file@[self.file_module@[f]->0 as int] == f
            }
        &&& forall|m: int|
            0 <= m < g.modules.len() ==> {
                &&& #[trigger] self.module_file@[m] < n
                &&& self.file_module@[self.module_file@[m] as int] is Some
                &&& self.file_module@[self.module_file@[m] as int]->0 == m
            }
        &&& forall|i: int| 0 <= i < self.task_queue@.len() ==> task_ok(#[trigger] self.task_queue@[i], g)
        &&& resolutions_match(g)
        &&& self.parents@.len() == g.dependencies.len()
        &&& self.created_by@.len() == g.modules.len()
        &&& self.deps_start@.len() == g.modules.len()
        &&& forall|m: int| 0 <= m < g.modules.len() ==> created_before(g, self.parents@, #[trigger] self.created_by@[m], m)
        &&& forall|i: int| 0 <= i < self.task_queue@.len() ==> task_parent_ok(#[trigger] self.task_queue@[i], self.parents@)
        &&& forall|d: int| 0 <= d < g.dependencies.len() && #[trigger] g.resolved[d] is Some ==> g.origins[d] == self.parents@[d]
        &&& forall|e: int, k: int|
            0 <= e < self.entries@.len() && 0 <= k < self.entries@[e].dependencies@.len()
                ==> #[trigger] self.entries@[e].dependencies@[k] < g.dependencies.len()
    }

    /// Modules against the factory's files: each is made of the first file with its
    /// path, with that file's code and context.
    pub open spec fn matches(&self, files: Seq<SourceFile>) -> bool {
        let g = self.module_graph@;
        forall|m: int|
            0 <= m < g.modules.len() ==> {
                &&& first_with_path(files, g.modules[m].path@, #[trigger] self.module_file@[m] as int)
                &&& files[self.module_file@[m] as int].source@ == g.modules[m].source@
                &&& files[self.module_file@[m] as int].context == g.modules[m].context
            }
    }

    /// The scan-wide invariant.
    pub open spec fn inv(&self, files: Seq<SourceFile>) -> bool {
        &&& self.inv_for(files.len())
        &&& self.matches(files)
        &&& diagnostics_sound(self.diagnostics@, files)
        &&& diagnostics_linked(self.diagnostics@, self.built@, self.module_graph@)
    }
}

/// No two modules of the state share a path.
pub proof fn lemma_paths_unique(s: &ScannerState, files: Seq<SourceFile>, a: int, b: int)
    requires
        s.inv(files),
        0 <= a < s.module_graph@.modules.len(),
        0 <= b < s.module_graph@.modules.len(),
        a != b,
    ensures
        s.module_graph@.modules[a].path@ != s.module_graph@.modules[b].path@,
{
    let fa = s.module_file@[a] as int;
    let fb = s.module_file@[b] as int;
    assert(s.file_module@[fa]->0 == a);
    assert(s.file_module@[fb]->0 == b);
    assert(first_with_path(files, s.module_graph@.modules[a].path@, fa));
    assert(first_with_path(files, s.module_graph@.modules[b].path@, fb));
    if s.module_graph@.modules[a].path@ == s.module_graph@.modules[b].path@ {
        if fa < fb {
            assert(files[fa].path@ != s.module_graph@.modules[b].path@);
        } else if fb < fa {
            assert(files[fb].path@ != s.module_graph@.modules[a].path@);
        }
    }
}

proof fn lemma_task_grows(t: Task, g: GraphView, h: GraphView)
    requires
        task_ok(t, g),
        g.extended_by(h),
    ensures
        task_ok(t, h),
{
    match t {
        Task::ProcessDeps { dependencies, origin } => {
            assert forall|k: int| 0 <= k < dependencies@.len() implies #[trigger] dependencies@[k]
                < h.dependencies.len() by {}
        },
        Task::Factorize { dependency, .. } => {
            assert(h.dependencies[dependency as int] == g.dependencies[dependency as int]);
        },
        Task::Add { module, dependency, .. } => {
            assert(h.modules[module as int] == g.modules[module as int]);
            assert(h.dependencies[dependency as int] == g.dependencies[dependency as int]);
        },
        _ => {},
    }
}

proof fn lemma_state_grows(s: ScannerState, g: GraphView, h: GraphView)
    requires
        diagnostics_linked(s.diagnostics@, s.built@, g),
        forall|i: int| 0 <= i < s.task_queue@.len() ==> task_ok(#[trigger] s.task_queue@[i], g),
        forall|e: int, k: int|
            0 <= e < s.entries@.len() && 0 <= k < s.entries@[e].dependencies@.len()
                ==> #[trigger] s.entries@[e].dependencies@[k] < g.dependencies.len(),
        g.extended_by(h),
    ensures
        forall|i: int| 0 <= i < s.task_queue@.len() ==> task_ok(#[trigger] s.task_queue@[i], h),
        forall|e: int, k: int|
            0 <= e < s.entries@.len() && 0 <= k < s.entries@[e].dependencies@.len()
                ==> #[trigger] s.entries@[e].dependencies@[k] < h.dependencies.len(),
        diagnostics_linked(s.diagnostics@, s.built@, h),
{
    lemma_linked_grow(s.diagnostics@, s.built@, s.built@, g, h);
    assert forall|i: int| 0 <= i < s.task_queue@.len() implies task_ok(#[trigger] s.task_queue@[i], h) by {
        lemma_task_grows(s.task_queue@[i], g, h);
    }
}

/// The context a dependency is resolved in: its own, else its origin's, else the global one.
pub open spec fn chosen_context(dep: Option<String>, origin: Option<String>, global: String) -> Seq<char> {
    match dep {
        Some(c) => c@,
        None => match origin {
            Some(c) => c@,
            None => global@,
        },
    }
}

pub fn resolve_context(dep: &Option<String>, origin: &Option<String>, global: &String) -> (r: String)
    ensures
        r@ == chosen_context(*dep, *origin, *global),
{
    match dep {
        Some(c) => c.clone(),
        None => match origin {
            Some(c) => c.clone(),
            None => global.clone(),
        },
    }
}

/// Each diagnostic records a real failure: a request that no file answers, or a
/// file whose build fails.
pub open spec fn diagnostics_sound(diagnostics: Seq<Diagnostic>, files: Seq<SourceFile>) -> bool {
    forall|i: int|
        0 <= i < diagnostics.len() ==> match #[trigger] diagnostics[i] {
            Diagnostic::Resolution { request, .. } => !resolvable(files, request@),
            Diagnostic::Build { path, message, .. } => exists|f: int|
                0 <= f < files.len() && (#[trigger] files[f]).path@ == path@ && files[f].build_error is Some
                    && files[f].build_error->0@ == message@,
        }
}

/// Diagnostics `a` and `b` are about the same dependency or the same module.
pub open spec fn same_subject(a: Diagnostic, b: Diagnostic) -> bool {
    match (a, b) {
        (Diagnostic::Resolution { dependency: x, .. }, Diagnostic::Resolution { dependency: y, .. }) => x == y,
        (Diagnostic::Build { module: x, .. }, Diagnostic::Build { module: y, .. }) => x == y,
        _ => false,
    }
}

/// Each diagnostic names a module dependency of `g` with its request, or a module of
/// `g` whose build was attempted, with its path; no two are about the same subject.
pub open spec fn diagnostics_linked(diagnostics: Seq<Diagnostic>, built: Seq<bool>, g: GraphView) -> bool {
    &&& forall|i: int|
        0 <= i < diagnostics.len() ==> match #[trigger] diagnostics[i] {
            Diagnostic::Resolution { request, dependency } => dependency < g.dependencies.len()
                && g.dependencies[dependency as int].request@ == request@
                && g.dependencies[dependency as int].is_module_dependency_spec(),
            Diagnostic::Build { module, path, .. } => module < g.modules.len() && module < built.len()
                && built[module as int] && g.modules[module as int].path@ == path@,
        }
    &&& forall|i: int, j: int|
        0 <= i < j < diagnostics.len() ==> !same_subject(#[trigger] diagnostics[i], #[trigger] diagnostics[j])
}

/// `x` records that dependency `d` did not resolve.
pub open spec fn is_failure_of(x: Diagnostic, d: DependencyId) -> bool {
    match x {
        Diagnostic::Resolution { dependency, .. } => dependency == d,
        _ => false,
    }
}

/// `x` records that the build of module `m` failed.
pub open spec fn is_build_failure_of(x: Diagnostic, m: ModuleId) -> bool {
    match x {
        Diagnostic::Build { module, .. } => module == m,
        _ => false,
    }
}

/// A resolution failure of dependency `d` is recorded.
pub open spec fn failure_recorded(diagnostics: Seq<Diagnostic>, d: DependencyId) -> bool {
    exists|i: int| 0 <= i < diagnostics.len() && is_failure_of(#[trigger] diagnostics[i], d)
}

/// A build failure of module `m` is recorded.
pub open spec fn build_failure_recorded(diagnostics: Seq<Diagnostic>, m: ModuleId) -> bool {
    exists|i: int| 0 <= i < diagnostics.len() && is_build_failure_of(#[trigger] diagnostics[i], m)
}

proof fn lemma_linked_grow(diagnostics: Seq<Diagnostic>, b0: Seq<bool>, b1: Seq<bool>, g: GraphView, h: GraphView)
    requires
        diagnostics_linked(diagnostics, b0, g),
        g.extended_by(h),
        b0.len() <= b1.len(),
        forall|i: int| 0 <= i < b0.len() && #[trigger] b0[i] ==> b1[i],
    ensures
        diagnostics_linked(diagnostics, b1, h),
{
    assert forall|i: int| 0 <= i < diagnostics.len() implies match #[trigger] diagnostics[i] {
        Diagnostic::Resolution { request, dependency } => dependency < h.dependencies.len()
            && h.dependencies[dependency as int].request@ == request@
            && h.dependencies[dependency as int].is_module_dependency_spec(),
        Diagnostic::Build { module, path, .. } => module < h.modules.len() && module < b1.len()
            && b1[module as int] && h.modules[module as int].path@ == path@,
    } by {
        match diagnostics[i] {
            Diagnostic::Resolution { request, dependency } => {
                assert(h.dependencies[dependency as int] == g.dependencies[dependency as int]);
            },
            Diagnostic::Build { module, path, .. } => {
                assert(h.modules[module as int] == g.modules[module as int]);
                assert(b0[module as int]);
            },
        }
    }
}

proof fn lemma_linked_push(diagnostics: Seq<Diagnostic>, built: Seq<bool>, g: GraphView, x: Diagnostic)
    requires
        diagnostics_linked(diagnostics, built, g),
        match x {
            Diagnostic::Resolution { request, dependency } => dependency < g.dependencies.len()
                && g.dependencies[dependency as int].request@ == request@
                && g.dependencies[dependency as int].is_module_dependency_spec()
                && !failure_recorded(diagnostics, dependency),
            Diagnostic::Build { module, path, .. } => module < g.modules.len() && module < built.len()
                && built[module as int] && g.modules[module as int].path@ == path@
                && !build_failure_recorded(diagnostics, module),
        },
    ensures
        diagnostics_linked(diagnostics.push(x), built, g),
{
    let d = diagnostics.push(x);
    assert forall|i: int, j: int| 0 <= i < j < d.len() implies !same_subject(#[trigger] d[i], #[trigger] d[j]) by {
        if j == diagnostics.len() {
            assert(d[i] == diagnostics[i]);
            match x {
                Diagnostic::Resolution { dependency, .. } => {
                    if same_subject(d[i], d[j]) {
                        assert(is_failure_of(diagnostics[i], dependency));
                    }
                },
                Diagnostic::Build { module, .. } => {
                    if same_subject(d[i], d[j]) {
                        assert(is_build_failure_of(diagnostics[i], module));
                    }
                },
            }
        } else {
            assert(d[i] == diagnostics[i]);
            assert(d[j] == diagnostics[j]);
        }
    }
    assert forall|i: int| 0 <= i < d.len() implies match #[trigger] d[i] {
        Diagnostic::Resolution { request, dependency } => dependency < g.dependencies.len()
            && g.dependencies[dependency as int].request@ == request@
            && g.dependencies[dependency as int].is_module_dependency_spec(),
        Diagnostic::Build { module, path, .. } => module < g.modules.len() && module < built.len()
            && built[module as int] && g.modules[module as int].path@ == path@,
    } by {
        if i < diagnostics.len() {
            assert(d[i] == diagnostics[i]);
        }
    }
}

proof fn lemma_sound_push(diagnostics: Seq<Diagnostic>, files: Seq<SourceFile>, x: Diagnostic)
    requires
        diagnostics_sound(diagnostics, files),
        match x {
            Diagnostic::Resolution { request, .. } => !resolvable(files, request@),
            Diagnostic::Build { path, message, .. } => exists|f: int|
                0 <= f < files.len() && (#[trigger] files[f]).path@ == path@ && files[f].build_error is Some
                    && files[f].build_error->0@ == message@,
        },
    ensures
        diagnostics_sound(diagnostics.push(x), files),
{
    let d = diagnostics.push(x);
    assert forall|i: int| 0 <= i < d.len() implies match #[trigger] d[i] {
        Diagnostic::Resolution { request, .. } => !resolvable(files, request@),
        Diagnostic::Build { path, message, .. } => exists|f: int|
            0 <= f < files.len() && (#[trigger] files[f]).path@ == path@ && files[f].build_error is Some
                && files[f].build_error->0@ == message@,
    } by {
        if i < diagnostics.len() {
            assert(d[i] == diagnostics[i]);
        }
    }
}

/// Is a resolution failure of `d` already recorded?
fn failure_recorded_in(diagnostics: &Vec<Diagnostic>, d: DependencyId) -> (r: bool)
    ensures
        r == failure_recorded(diagnostics@, d),
{
    let mut i: usize = 0;
    while i < diagnostics.len()
        invariant
            i <= diagnostics@.len(),
            forall|j: int| 0 <= j < i ==> !is_failure_of(#[trigger] diagnostics@[j], d),
        decreases diagnostics@.len() - i,
    {
        match &diagnostics[i] {
            Diagnostic::Resolution { dependency, .. } => {
                if *dependency == d {
                    assert(is_failure_of(diagnostics@[i as int], d));
                    return true;
                }
            },
            _ => {},
        }
        i = i + 1;
    }
    false
}

/// The diagnostics of `before` are kept, in order, at the start of those of `after`.
pub open spec fn diagnostics_kept(before: Seq<Diagnostic>, after: Seq<Diagnostic>) -> bool {
    before.is_prefix_of(after)
}

/// `after` is `before` with one more diagnostic: a resolution failure of `request`.
pub open spec fn one_resolution_failure(before: Seq<Diagnostic>, after: Seq<Diagnostic>, request: Seq<char>) -> bool {
    &&& after.len() == before.len() + 1
    &&& after.subrange(0, before.len() as int) == before
    &&& match after.last() {
        Diagnostic::Resolution { request: r, .. } => r@ == request,
        _ => false,
    }
}

/// Drives the factorize, add, build and process-dependencies loop that fills a module graph.
pub struct ModuleScanner {
    /// The global context: the fallback for resolving any request.
    pub context: String,
    pub factory: Arc<ModuleFactory>,
}

impl ModuleScanner {
    pub fn new(context: String, factory: Arc<ModuleFactory>) -> (r: ModuleScanner)
        ensures
            r.context@ == context@,
            r.factory == factory,
    {
        ModuleScanner { context, factory }
    }

    fn enqueue(state: &mut ScannerState, t: Task)
        ensures
            final(state).task_queue@ == old(state).task_queue@.push(t),
            queue_weight(final(state).task_queue@) == queue_weight(old(state).task_queue@) + task_weight(t),
            final(state).module_graph == old(state).module_graph,
            final(state).diagnostics == old(state).diagnostics,
            final(state).entries == old(state).entries,
            final(state).file_module == old(state).file_module,
            final(state).module_file == old(state).module_file,
            final(state).built == old(state).built,
            final(state).parents == old(state).parents,
            final(state).created_by == old(state).created_by,
            final(state).deps_start == old(state).deps_start,
    {
        proof {
            lemma_queue_push(state.task_queue@, t);
        }
        state.task_queue.push_back(t);
    }

    /// Queues a factorize task for each of `dependencies` that asks for a module.
    pub fn handle_module_creation(
        &self,
        state: &mut ScannerState,
        dependencies: &Vec<DependencyId>,
        origin: Option<ModuleId>,
        context: Option<String>,
    )
        requires
            old(state).inv(self.factory.files@),
            origin_ok(origin, old(state).module_graph@),
            forall|k: int| 0 <= k < dependencies@.len()
                ==> #[trigger] dependencies@[k] < old(state).module_graph@.dependencies.len(),
            forall|k: int| 0 <= k < dependencies@.len()
                ==> old(state).parents@[#[trigger] dependencies@[k] as int] == origin,
        ensures
            final(state).deps_start == old(state).deps_start,
            final(state).inv(self.factory.files@),
            final(state).parents == old(state).parents,
            queue_weight(final(state).task_queue@) <= queue_weight(old(state).task_queue@) + 3 * dependencies@.len(),
            final(state).potential() == old(state).potential(),
            final(state).module_graph == old(state).module_graph,
            final(state).diagnostics == old(state).diagnostics,
            final(state).entries == old(state).entries,
            final(state).built == old(state).built,
            final(state).module_file == old(state).module_file,
            old(state).task_queue@.is_prefix_of(final(state).task_queue@),
            final(state).task_queue@ == old(state).task_queue@ + creation_tasks(
                dependencies@,
                old(state).module_graph@,
                origin,
                context,
            ),
            forall|k: int|
                0 <= k < dependencies@.len()
                    && old(state).module_graph@.dependencies[dependencies@[k] as int].is_module_dependency_spec()
                    ==> factorize_queued(final(state).task_queue@, #[trigger] dependencies@[k]),
    {
        let mut k: usize = 0;
        proof {
            assert(dependencies@.subrange(0, 0) =~= Seq::<DependencyId>::empty());
            assert(old(state).task_queue@ + Seq::<Task>::empty() =~= old(state).task_queue@);
        }
        while k < dependencies.len()
            invariant
                k <= dependencies@.len(),
                state.inv(self.factory.files@),
                origin_ok(origin, state.module_graph@),
                forall|q: int| 0 <= q < dependencies@.len()
                    ==> #[trigger] dependencies@[q] < state.module_graph@.dependencies.len(),
                queue_weight(state.task_queue@) <= queue_weight(old(state).task_queue@) + 3 * k,
                state.potential() == old(state).potential(),
                state.module_graph == old(state).module_graph,
                state.diagnostics == old(state).diagnostics,
                state.entries == old(state).entries,
                state.built == old(state).built,
                state.module_file == old(state).module_file,
                state.parents == old(state).parents,
                state.deps_start == old(state).deps_start,
                forall|q: int| 0 <= q < dependencies@.len()
                    ==> state.parents@[#[trigger] dependencies@[q] as int] == origin,
                old(state).task_queue@.is_prefix_of(state.task_queue@),
                forall|q: int|
                    0 <= q < k && state.module_graph@.dependencies[dependencies@[q] as int].is_module_dependency_spec()
                        ==> factorize_queued(state.task_queue@, #[trigger] dependencies@[q]),
                state.task_queue@ == old(state).task_queue@ + creation_tasks(
                    dependencies@.subrange(0, k as int),
                    old(state).module_graph@,
                    origin,
                    context,
                ),
            decreases dependencies@.len() - k,
        {
            let id = dependencies[k];
            proof {
                assert(dependencies@.subrange(0, k + 1).drop_last() =~= dependencies@.subrange(0, k as int));
                assert(dependencies@.subrange(0, k + 1).last() == id);
            }
            if state.module_graph.dependency_by_id(id).as_module_dependency() {
                let ghost before = state.task_queue@;
                Self::enqueue(
                    state,
                    Task::Factorize { dependency: id, origin, origin_context: context.clone() },
                );
                assert(state.task_queue@.subrange(0, old(state).task_queue@.len() as int)
                    == before.subrange(0, old(state).task_queue@.len() as int));
                proof {
                    assert(is_factorize_of(state.task_queue@[before.len() as int], id));
                    assert forall|q: int|
                        0 <= q < k && state.module_graph@.dependencies[dependencies@[q] as int].is_module_dependency_spec()
                            implies factorize_queued(state.task_queue@, #[trigger] dependencies@[q]) by {
                        let i = choose|i: int| 0 <= i < before.len() && is_factorize_of(#[trigger] before[i], dependencies@[q]);
                        assert(state.task_queue@[i] == before[i]);
                    }
                    assert(state.task_queue@ =~= old(state).task_queue@ + creation_tasks(
                        dependencies@.subrange(0, k + 1),
                        old(state).module_graph@,
                        origin,
                        context,
                    ));
                }
            }
            k = k + 1;
        }
        proof {
            assert(dependencies@.subrange(0, dependencies@.len() as int) =~= dependencies@);
        }
    }

    /// Resolves one dependency; a new file becomes a new module, a known one is reused.
    /// A request that does not resolve is recorded once per dependency and never retried.
    pub fn handle_factorize(
        &self,
        state: &mut ScannerState,
        dependency: DependencyId,
        origin: Option<ModuleId>,
        origin_context: Option<String>,
    )
        requires
            old(state).inv(self.factory.files@),
            dependency < old(state).module_graph@.dependencies.len(),
            old(state).module_graph@.dependencies[dependency as int].is_module_dependency_spec(),
            origin_ok(origin, old(state).module_graph@),
            old(state).parents@[dependency as int] == origin,
        ensures
            forall|m: int| 0 <= m < old(state).module_graph@.modules.len() ==> #[trigger] final(state).deps_start@[m] == old(state).deps_start@[m],
            final(state).inv(self.factory.files@),
            final(state).parents == old(state).parents,
            final(state).potential() < old(state).potential() || (final(state).potential()
                == old(state).potential() && queue_weight(final(state).task_queue@) < queue_weight(
                old(state).task_queue@,
            ) + 3),
            final(state).entries == old(state).entries,
            old(state).module_graph@.extended_by(final(state).module_graph@),
            final(state).module_graph@.dependencies == old(state).module_graph@.dependencies,
            final(state).module_graph@.resolved == old(state).module_graph@.resolved,
            final(state).module_graph@.origins == old(state).module_graph@.origins,
            old(state).task_queue@.is_prefix_of(final(state).task_queue@),
            forall|m: int| 0 <= m < old(state).module_graph@.modules.len() ==> #[trigger] final(state).built@[m]
                == old(state).built@[m] && final(state).module_file@[m] == old(state).module_file@[m],
            forall|m: int| old(state).module_graph@.modules.len() <= m < final(state).module_graph@.modules.len()
                ==> !final(state).built@[m] && build_pending(final(state).task_queue@, m as ModuleId),
            resolvable(self.factory.files@, old(state).module_graph@.dependencies[dependency as int].request@)
                ==> has_module(final(state).module_graph@, old(state).module_graph@.dependencies[dependency as int].request@),
            resolvable(self.factory.files@, old(state).module_graph@.dependencies[dependency as int].request@)
                ==> add_queued(final(state).task_queue@, dependency),
            ({
                let dep = old(state).module_graph@.dependencies[dependency as int];
                let request = dep.request@;
                let g0 = old(state).module_graph@;
                let g1 = final(state).module_graph@;
                if resolvable(self.factory.files@, request) {
                    &&& final(state).diagnostics == old(state).diagnostics
                    &&& final(state).task_queue@.len() == old(state).task_queue@.len() + 1
                    &&& final(state).task_queue@.drop_last() == old(state).task_queue@
                    &&& exists|m: ModuleId| {
                        &&& final(state).task_queue@.last() == (Task::Add { module: m, dependency, origin })
                        &&& m < g1.modules.len()
                        &&& (#[trigger] g1.modules[m as int]).path@ == request
                        &&& if has_module(g0, request) {
                            g1.modules == g0.modules && m < g0.modules.len()
                        } else {
                            &&& g1.modules.len() == g0.modules.len() + 1
                            &&& m == g0.modules.len()
                            &&& g1.modules[m as int].resolved_in@ == chosen_context(dep.context, origin_context, self.context)
                        }
                    }
                } else {
                    &&& final(state).module_graph == old(state).module_graph
                    &&& final(state).task_queue@ == old(state).task_queue@
                    &&& failure_recorded(final(state).diagnostics@, dependency)
                    &&& if failure_recorded(old(state).diagnostics@, dependency) {
                        final(state).diagnostics == old(state).diagnostics
                    } else {
                        &&& one_resolution_failure(old(state).diagnostics@, final(state).diagnostics@, request)
                        &&& is_failure_of(final(state).diagnostics@.last(), dependency)
                    }
                }
            }),
    {
        let dep = state.module_graph.dependency_by_id(dependency);
        let context = resolve_context(&dep.context, &origin_context, &self.context);
        match self.factory.resolve(&dep.request) {
            Err(e) => {
                if !failure_recorded_in(&state.diagnostics, dependency) {
                    let x = Diagnostic::Resolution { request: e.request, dependency };
                    proof {
                        lemma_sound_push(state.diagnostics@, self.factory.files@, x);
                        lemma_linked_push(state.diagnostics@, state.built@, state.module_graph@, x);
                    }
                    state.diagnostics.push(x);
                    proof {
                        assert(state.diagnostics@.subrange(0, old(state).diagnostics@.len() as int)
                            =~= old(state).diagnostics@);
                        assert(is_failure_of(state.diagnostics@[state.diagnostics@.len() - 1], dependency));
                    }
                }
            },
            Ok(f) => {
                match state.file_module[f] {
                    Some(m) => {
                        proof {
                            let g = state.module_graph@;
                            assert(self.factory.files@[f as int].path@ == dep.request@);
                            assert(first_with_path(self.factory.files@, g.modules[m as int].path@, state.module_file@[m as int] as int));
                            assert(state.module_file@[m as int] == f);
                            assert(g.modules[m as int].path@ == dep.request@);
                        }
                        Self::enqueue(state, Task::Add { module: m, dependency, origin });
                        proof {
                            let q = state.task_queue@;
                            assert(is_add_of(q[q.len() - 1], dependency));
                            assert(q.drop_last() =~= old(state).task_queue@);
                            assert(state.module_graph@.modules[m as int].path@ == dep.request@);
                        }
                    },
                    None => {
                        proof {
                            let g = state.module_graph@;
                            if has_module(g, dep.request@) {
                                let m = choose|m: int| 0 <= m < g.modules.len() && (#[trigger] g.modules[m]).path@ == dep.request@;
                                assert(first_with_path(self.factory.files@, dep.request@, state.module_file@[m] as int));
                                if (state.module_file@[m] as int) < f as int {
                                    assert(self.factory.files@[state.module_file@[m] as int].path@ != dep.request@);
                                } else if (f as int) < state.module_file@[m] as int {
                                    assert(self.factory.files@[f as int].path@ != dep.request@);
                                }
                                assert(state.file_module@[f as int] is Some);
                            }
                        }
                        let module = self.factory.create_module(f, context);
                        let ghost g0 = state.module_graph@;
                        let ghost fm0 = state.file_module@;
                        let ghost b0 = state.built@;
                        let id = state.module_graph.add_module(module);
                        proof {
                            lemma_state_grows(*state, g0, state.module_graph@);
                            lemma_unassigned_set(fm0, f as int, id);
                            assert(b0.push(false).drop_last() =~= b0);
                        }
                        state.file_module.set(f, Some(id));
                        state.module_file.push(f);
                        state.built.push(false);
                        state.created_by.push(dependency);
                        state.deps_start.push(0);
                        proof {
                            let g = state.module_graph@;
                            lemma_linked_grow(state.diagnostics@, b0, state.built@, g0, g);
                            assert forall|m: int|
                                0 <= m < g.modules.len() implies {
                                    &&& first_with_path(self.factory.files@, g.modules[m].path@, #[trigger] state.module_file@[m] as int)
                                    &&& self.factory.files@[state.module_file@[m] as int].source@ == g.modules[m].source@
                                    &&& self.factory.files@[state.module_file@[m] as int].context == g.modules[m].context
                                } by {
                                if m < g0.modules.len() {
                                    assert(g.modules[m] == g0.modules[m]);
                                }
                            }
                        }
                        Self::enqueue(state, Task::Add { module: id, dependency, origin });
                        proof {
                            let q = state.task_queue@;
                            assert(is_build_step_of(q[q.len() - 1], id));
                            assert(is_add_of(q[q.len() - 1], dependency));
                            assert(q.drop_last() =~= old(state).task_queue@);
                            assert(state.module_graph@.modules[id as int].path@ == dep.request@);
                        }
                    },
                }
            },
        }
    }

    /// Records the resolved edge, then queues the module's build.
    pub fn handle_add(
        &self,
        state: &mut ScannerState,
        module: ModuleId,
        dependency: DependencyId,
        origin: Option<ModuleId>,
    )
        requires
            old(state).inv(self.factory.files@),
            module < old(state).module_graph@.modules.len(),
            dependency < old(state).module_graph@.dependencies.len(),
            origin_ok(origin, old(state).module_graph@),
            old(state).module_graph@.modules[module as int].path@
                == old(state).module_graph@.dependencies[dependency as int].request@,
            old(state).parents@[dependency as int] == origin,
        ensures
            final(state).deps_start == old(state).deps_start,
            final(state).inv(self.factory.files@),
            final(state).parents == old(state).parents,
            final(state).potential() == old(state).potential(),
            queue_weight(final(state).task_queue@) == queue_weight(old(state).task_queue@) + 1,
            final(state).entries == old(state).entries,
            final(state).diagnostics == old(state).diagnostics,
            final(state).module_graph@.modules == old(state).module_graph@.modules,
            final(state).module_graph@.dependencies == old(state).module_graph@.dependencies,
            final(state).module_graph@.resolved == old(state).module_graph@.resolved.update(
                dependency as int,
                Some(module),
            ),
            final(state).module_graph@.origins == old(state).module_graph@.origins.update(dependency as int, origin),
            final(state).module_graph@.incoming == old(state).module_graph@.incoming.update(
                module as int,
                old(state).module_graph@.incoming[module as int].push(dependency),
            ),
            origin is Some ==> final(state).module_graph@.outgoing == old(state).module_graph@.outgoing.update(
                origin->0 as int,
                old(state).module_graph@.outgoing[origin->0 as int].push(dependency),
            ),
            origin is None ==> final(state).module_graph@.outgoing == old(state).module_graph@.outgoing,
            final(state).task_queue@ == old(state).task_queue@.push(Task::Build { module }),
            final(state).built == old(state).built,
            final(state).module_file == old(state).module_file,
    {
        let ghost g0 = state.module_graph@;
        state.module_graph.set_resolved_module(origin, dependency, module);
        proof {
            lemma_state_grows(*state, g0, state.module_graph@);
            let g = state.module_graph@;
            assert forall|d: int| 0 <= d < g.dependencies.len() && #[trigger] g.resolved[d] is Some
                implies g.modules[g.resolved[d]->0 as int].path@ == g.dependencies[d].request@ by {
                if d != dependency as int {
                    assert(g.resolved[d] == g0.resolved[d]);
                }
            }
            assert forall|d: int| 0 <= d < g.dependencies.len() && #[trigger] g.resolved[d] is Some
                implies g.origins[d] == state.parents@[d] by {
                if d != dependency as int {
                    assert(g.resolved[d] == g0.resolved[d]);
                    assert(g.origins[d] == g0.origins[d]);
                }
            }
        }
        Self::enqueue(state, Task::Build { module });
    }

    /// Builds a module once; what it imports becomes new dependencies to process.
    pub fn handle_build(&self, state: &mut ScannerState, module: ModuleId)
        requires
            old(state).inv(self.factory.files@),
            module < old(state).module_graph@.modules.len(),
        ensures
            final(state).deps_start@.len() == old(state).deps_start@.len(),
            forall|m: int| 0 <= m < old(state).deps_start@.len() && m != module as int ==> #[trigger] final(state).deps_start@[m] == old(state).deps_start@[m],
            old(state).built@[module as int] ==> final(state).deps_start@[module as int] == old(state).deps_start@[module as int],
            !old(state).built@[module as int] ==> final(state).deps_start@[module as int] == old(state).module_graph@.dependencies.len(),
            final(state).inv(self.factory.files@),
            final(state).potential() < old(state).potential() || (final(state).potential()
                == old(state).potential() && final(state).task_queue@ == old(state).task_queue@),
            final(state).entries == old(state).entries,
            old(state).module_graph@.extended_by(final(state).module_graph@),
            final(state).module_graph@.modules == old(state).module_graph@.modules,
            old(state).task_queue@.is_prefix_of(final(state).task_queue@),
            final(state).built@ == old(state).built@.update(module as int, true),
            final(state).module_file == old(state).module_file,
            old(state).parents@.is_prefix_of(final(state).parents@),
            forall|d: int| old(state).parents@.len() <= d < final(state).parents@.len() ==> #[trigger] final(state).parents@[d] == Some(module),
            ({
                let file = self.factory.files@[old(state).module_file@[module as int] as int];
                !old(state).built@[module as int] && file.build_error is None ==> forall|k: int|
                    0 <= k < file.imports@.len() ==> pending(
                        final(state).task_queue@,
                        final(state).module_graph@,
                        (#[trigger] file.imports@[k])@,
                    )
            }),
            ({
                let file = self.factory.files@[old(state).module_file@[module as int] as int];
                let g0 = old(state).module_graph@;
                let g1 = final(state).module_graph@;
                let n = g0.dependencies.len();
                if old(state).built@[module as int] {
                    &&& final(state).diagnostics == old(state).diagnostics
                    &&& final(state).task_queue@ == old(state).task_queue@
                    &&& final(state).module_graph == old(state).module_graph
                } else if file.build_error is Some {
                    &&& final(state).task_queue@ == old(state).task_queue@
                    &&& final(state).module_graph == old(state).module_graph
                    &&& final(state).diagnostics@.len() == old(state).diagnostics@.len() + 1
                    &&& final(state).diagnostics@.drop_last() == old(state).diagnostics@
                    &&& match final(state).diagnostics@.last() {
                        Diagnostic::Build { module: m, path, message } => m == module && path@ == file.path@
                            && message@ == file.build_error->0@,
                        _ => false,
                    }
                } else {
                    &&& final(state).diagnostics == old(state).diagnostics
                    &&& g1.resolved.subrange(0, n as int) == g0.resolved
                    &&& g1.origins.subrange(0, n as int) == g0.origins
                    &&& g1.dependencies.len() == n + file.imports@.len()
                    &&& forall|k: int| 0 <= k < file.imports@.len() ==> {
                        &&& (#[trigger] g1.dependencies[n + k]).request@ == file.imports@[k]@
                        &&& g1.dependencies[n + k].kind == DependencyKind::StaticImport
                        &&& g1.dependencies[n + k].context is None
                    }
                    &&& final(state).task_queue@.len() == old(state).task_queue@.len() + 1
                    &&& final(state).task_queue@.drop_last() == old(state).task_queue@
                    &&& match final(state).task_queue@.last() {
                        Task::ProcessDeps { dependencies, origin } => origin == Some(module)
                            && dependencies@.len() == file.imports@.len()
                            && forall|k: int| 0 <= k < dependencies@.len() ==> #[trigger] dependencies@[k] == n + k,
                        _ => false,
                    }
                }
            }),
    {
        if state.built[module] {
            proof {
                assert(state.built@.update(module as int, true) =~= state.built@);
            }
            return;
        }
        proof {
            lemma_unbuilt_set(state.built@, module as int);
        }
        let ghost b0 = state.built@;
        state.built.set(module, true);
        let start = state.module_graph.dependency_count();
        state.deps_start.set(module, start);
        proof {
            lemma_linked_grow(state.diagnostics@, b0, state.built@, state.module_graph@, state.module_graph@);
            if build_failure_recorded(state.diagnostics@, module) {
                let i = choose|i: int| 0 <= i < state.diagnostics@.len() && is_build_failure_of(#[trigger] state.diagnostics@[i], module);
                assert(b0[module as int]);
            }
        }
        let file = state.module_file[module];
        match self.factory.build(file, &BuildContext { context: self.context.clone() }) {
            Err(e) => {
                let x = Diagnostic::Build { module, path: e.path, message: e.message };
                proof {
                    let files = self.factory.files@;
                    assert(files[file as int].path@ == files[file as int].path@);
                    lemma_sound_push(state.diagnostics@, files, x);
                    assert(first_with_path(files, state.module_graph@.modules[module as int].path@, file as int));
                    lemma_linked_push(state.diagnostics@, state.built@, state.module_graph@, x);
                }
                state.diagnostics.push(x);
                proof {
                    assert(state.diagnostics@.subrange(0, old(state).diagnostics@.len() as int)
                        =~= old(state).diagnostics@);
                    assert(state.diagnostics@.drop_last() =~= old(state).diagnostics@);
                }
            },
            Ok(result) => {
                let deps = result.dependencies;
                let mut ids: Vec<DependencyId> = Vec::new();
                let mut k: usize = 0;
                while k < deps.len()
                    invariant
                        k <= deps@.len(),
                        state.inv(self.factory.files@),
                        module < state.module_graph@.modules.len(),
                        state.potential() < old(state).potential(),
                        state.entries == old(state).entries,
                        state.diagnostics == old(state).diagnostics,
                        old(state).module_graph@.extended_by(state.module_graph@),
                        state.module_graph@.modules == old(state).module_graph@.modules,
                        forall|q: int| 0 <= q < ids@.len()
                            ==> #[trigger] ids@[q] < state.module_graph@.dependencies.len(),
                        ids@.len() == k,
                        discovered(self.factory.files@[file as int], deps@),
                        forall|q: int| 0 <= q < ids@.len() ==> {
                            &&& state.module_graph@.dependencies[#[trigger] ids@[q] as int].request@ == deps@[q].request@
                            &&& state.module_graph@.dependencies[ids@[q] as int].kind == DependencyKind::StaticImport
                        },
                        state.task_queue@ == old(state).task_queue@,
                        state.built@ == old(state).built@.update(module as int, true),
                        state.module_file == old(state).module_file,
                        state.deps_start@.len() == old(state).deps_start@.len(),
                        forall|m: int| 0 <= m < old(state).deps_start@.len() && m != module as int ==> #[trigger] state.deps_start@[m] == old(state).deps_start@[m],
                        state.deps_start@[module as int] == old(state).module_graph@.dependencies.len(),
                        state.module_graph@.dependencies.len() == old(state).module_graph@.dependencies.len() + k,
                        state.module_graph@.resolved.subrange(0, old(state).module_graph@.dependencies.len() as int)
                            == old(state).module_graph@.resolved,
                        state.module_graph@.origins.subrange(0, old(state).module_graph@.dependencies.len() as int)
                            == old(state).module_graph@.origins,
                        forall|q: int| 0 <= q < ids@.len() ==> #[trigger] ids@[q] == old(state).module_graph@.dependencies.len() + q,
                        state.parents@.len() == state.module_graph@.dependencies.len(),
                        state.parents@.subrange(0, old(state).module_graph@.dependencies.len() as int) == old(state).parents@,
                        forall|q: int| 0 <= q < ids@.len() ==> state.parents@[#[trigger] ids@[q] as int] == Some(module),
                        forall|d: int| old(state).parents@.len() <= d < state.parents@.len() ==> #[trigger] state.parents@[d] == Some(module),
                        forall|q: int| 0 <= q < k ==> {
                            &&& (#[trigger] state.module_graph@.dependencies[old(state).module_graph@.dependencies.len() + q]).request@ == deps@[q].request@
                            &&& state.module_graph@.dependencies[old(state).module_graph@.dependencies.len() + q].kind == DependencyKind::StaticImport
                            &&& state.module_graph@.dependencies[old(state).module_graph@.dependencies.len() + q].context is None
                        },
                    decreases deps@.len() - k,
                {
                    let ghost g0 = state.module_graph@;
                    let ghost parents_before = state.parents@;
                    let id = state.module_graph.add_dependency(deps[k].clone());
                    state.parents.push(Some(module));
                    proof {
                        lemma_parents_grow(state.task_queue@, parents_before, state.parents@);
                        let g = state.module_graph@;
                        assert forall|d: int| 0 <= d < g.dependencies.len() && #[trigger] g.resolved[d] is Some
                            implies g.origins[d] == state.parents@[d] by {
                            assert(d < g0.dependencies.len());
                            assert(g.resolved[d] == g0.resolved[d]);
                            assert(g.origins[d] == g0.origins[d]);
                        }
                    }
                    proof {
                        lemma_state_grows(*state, g0, state.module_graph@);
                        assert forall|q: int| 0 <= q < ids@.len() implies {
                            &&& state.module_graph@.dependencies[#[trigger] ids@[q] as int].request@ == deps@[q].request@
                            &&& state.module_graph@.dependencies[ids@[q] as int].kind == DependencyKind::StaticImport
                        } by {
                            assert(state.module_graph@.dependencies[ids@[q] as int] == g0.dependencies[ids@[q] as int]);
                        }
                        let n = old(state).module_graph@.dependencies.len();
                        let g = state.module_graph@;
                        assert(state.parents@.subrange(0, n as int) =~= parents_before.subrange(0, n as int));
                        assert(g.resolved.subrange(0, n as int) =~= g0.resolved.subrange(0, n as int));
                        assert(g.origins.subrange(0, n as int) =~= g0.origins.subrange(0, n as int));
                        assert forall|q: int| 0 <= q < k + 1 implies {
                            &&& (#[trigger] g.dependencies[n + q]).request@ == deps@[q].request@
                            &&& g.dependencies[n + q].kind == DependencyKind::StaticImport
                            &&& g.dependencies[n + q].context is None
                        } by {
                            if q < k {
                                assert(g.dependencies[n + q] == g0.dependencies[n + q]);
                            }
                        }
                    }
                    ids.push(id);
                    k = k + 1;
                }
                let ghost ids_v = ids@;
                Self::enqueue(state, Task::ProcessDeps { dependencies: ids, origin: Some(module) });
                proof {
                    let q = state.task_queue@;
                    let g = state.module_graph@;
                    let fl = self.factory.files@[file as int];
                    assert(q.drop_last() =~= old(state).task_queue@);
                    assert forall|k: int| 0 <= k < fl.imports@.len() implies {
                        &&& (#[trigger] g.dependencies[old(state).module_graph@.dependencies.len() + k]).request@ == fl.imports@[k]@
                        &&& g.dependencies[old(state).module_graph@.dependencies.len() + k].kind == DependencyKind::StaticImport
                        &&& g.dependencies[old(state).module_graph@.dependencies.len() + k].context is None
                    } by {
                        assert(deps@[k].request@ == fl.imports@[k]@);
                    }
                    assert forall|k: int| 0 <= k < fl.imports@.len() implies pending(q, g, (#[trigger] fl.imports@[k])@) by {
                        assert(ids_v[k] < g.dependencies.len());
                        assert(task_pending(q[q.len() - 1], g, fl.imports@[k]@));
                    }
                }
            },
        }
    }

    /// Queues the factorize tasks for what a module's build discovered.
    pub fn handle_process_deps(
        &self,
        state: &mut ScannerState,
        dependencies: Vec<DependencyId>,
        origin: Option<ModuleId>,
    )
        requires
            old(state).inv(self.factory.files@),
            origin_ok(origin, old(state).module_graph@),
            forall|k: int| 0 <= k < dependencies@.len()
                ==> #[trigger] dependencies@[k] < old(state).module_graph@.dependencies.len(),
            forall|k: int| 0 <= k < dependencies@.len()
                ==> old(state).parents@[#[trigger] dependencies@[k] as int] == origin,
        ensures
            final(state).deps_start == old(state).deps_start,
            final(state).inv(self.factory.files@),
            final(state).parents == old(state).parents,
            queue_weight(final(state).task_queue@) <= queue_weight(old(state).task_queue@) + 3 * dependencies@.len(),
            final(state).potential() == old(state).potential(),
            final(state).module_graph == old(state).module_graph,
            final(state).diagnostics == old(state).diagnostics,
            final(state).entries == old(state).entries,
            final(state).built == old(state).built,
            final(state).module_file == old(state).module_file,
            old(state).task_queue@.is_prefix_of(final(state).task_queue@),
            final(state).task_queue@ == old(state).task_queue@ + creation_tasks(
                dependencies@,
                old(state).module_graph@,
                origin,
                match origin {
                    Some(m) => old(state).module_graph@.modules[m as int].context,
                    None => None,
                },
            ),
            forall|k: int|
                0 <= k < dependencies@.len()
                    && old(state).module_graph@.dependencies[dependencies@[k] as int].is_module_dependency_spec()
                    ==> factorize_queued(final(state).task_queue@, #[trigger] dependencies@[k]),
    {
        let context = match origin {
            Some(m) => state.module_graph.module_by_id(m).context.clone(),
            None => None,
        };
        self.handle_module_creation(state, &dependencies, origin, context);
    }

    #[verifier::rlimit(100)]
    fn handle_task(&self, state: &mut ScannerState, task: Task)
        requires
            old(state).inv(self.factory.files@),
            task_ok(task, old(state).module_graph@),
            task_parent_ok(task, old(state).parents@),
        ensures
            final(state).inv(self.factory.files@),
            final(state).potential() < old(state).potential() || (final(state).potential()
                == old(state).potential() && queue_weight(final(state).task_queue@) < queue_weight(
                old(state).task_queue@,
            ) + task_weight(task)),
            final(state).entries == old(state).entries,
            old(state).module_graph@.extended_by(final(state).module_graph@),
            diagnostics_kept(old(state).diagnostics@, final(state).diagnostics@),
            progress(*old(state), self.factory.files@, seq![task].add(old(state).task_queue@))
                ==> progress(*final(state), self.factory.files@, final(state).task_queue@),
            forall|p: Seq<char>|
                #[trigger] covered(self.factory.files@, old(state).module_graph@, seq![task].add(old(state).task_queue@), p)
                    ==> covered(self.factory.files@, final(state).module_graph@, final(state).task_queue@, p),
            forall|d: DependencyId|
                d < old(state).module_graph@.dependencies.len() && #[trigger] resolution_on_track(
                    self.factory.files@,
                    old(state).module_graph@,
                    seq![task].add(old(state).task_queue@),
                    d,
                ) ==> resolution_on_track(self.factory.files@, final(state).module_graph@, final(state).task_queue@, d),
            forall|d: DependencyId|
                d < old(state).module_graph@.dependencies.len() && #[trigger] dep_on_track(
                    old(state).module_graph@,
                    seq![task].add(old(state).task_queue@),
                    old(state).diagnostics@,
                    d,
                ) ==> dep_on_track(final(state).module_graph@, final(state).task_queue@, final(state).diagnostics@, d),
            forall|d: DependencyId|
                old(state).module_graph@.dependencies.len() <= d < final(state).module_graph@.dependencies.len()
                    ==> #[trigger] dep_on_track(final(state).module_graph@, final(state).task_queue@, final(state).diagnostics@, d),
            builds_recorded(*old(state), self.factory.files@) ==> builds_recorded(*final(state), self.factory.files@),
            imports_linked(*old(state), self.factory.files@) ==> imports_linked(*final(state), self.factory.files@),
            dependencies_accounted(*old(state), self.factory.files@) ==> dependencies_accounted(*final(state), self.factory.files@),
            match task {
                Task::Factorize { dependency, origin, origin_context } => {
                    &&& (forall|m: int| 0 <= m < old(state).module_graph@.modules.len() ==> #[trigger] final(state).deps_start@[m] == old(state).deps_start@[m])
                    &&& (final(state).inv(self.factory.files@))
                    &&& (final(state).parents == old(state).parents)
                    &&& (final(state).potential() < old(state).potential() || (final(state).potential()
                    == old(state).potential() && queue_weight(final(state).task_queue@) < queue_weight(
                    old(state).task_queue@,
                ) + 3))
                    &&& (final(state).entries == old(state).entries)
                    &&& (old(state).module_graph@.extended_by(final(state).module_graph@))
                    &&& (final(state).module_graph@.dependencies == old(state).module_graph@.dependencies)
                    &&& (final(state).module_graph@.resolved == old(state).module_graph@.resolved)
                    &&& (final(state).module_graph@.origins == old(state).module_graph@.origins)
                    &&& (old(state).task_queue@.is_prefix_of(final(state).task_queue@))
                    &&& (forall|m: int| 0 <= m < old(state).module_graph@.modules.len() ==> #[trigger] final(state).built@[m]
                    == old(state).built@[m] && final(state).module_file@[m] == old(state).module_file@[m])
                    &&& (forall|m: int| old(state).module_graph@.modules.len() <= m < final(state).module_graph@.modules.len()
                    ==> !final(state).built@[m] && build_pending(final(state).task_queue@, m as ModuleId))
                    &&& (resolvable(self.factory.files@, old(state).module_graph@.dependencies[dependency as int].request@)
                    ==> has_module(final(state).module_graph@, old(state).module_graph@.dependencies[dependency as int].request@))
                    &&& (resolvable(self.factory.files@, old(state).module_graph@.dependencies[dependency as int].request@)
                    ==> add_queued(final(state).task_queue@, dependency))
                    &&& (({
                    let dep = old(state).module_graph@.dependencies[dependency as int];
                    let request = dep.request@;
                    let g0 = old(state).module_graph@;
                    let g1 = final(state).module_graph@;
                    if resolvable(self.factory.files@, request) {
                        &&& final(state).diagnostics == old(state).diagnostics
                        &&& final(state).task_queue@.len() == old(state).task_queue@.len() + 1
                        &&& final(state).task_queue@.drop_last() == old(state).task_queue@
                        &&& exists|m: ModuleId| {
                            &&& final(state).task_queue@.last() == (Task::Add { module: m, dependency, origin })
                            &&& m < g1.modules.len()
                            &&& (#[trigger] g1.modules[m as int]).path@ == request
                            &&& if has_module(g0, request) {
                                g1.modules == g0.modules && m < g0.modules.len()
                            } else {
                                &&& g1.modules.len() == g0.modules.len() + 1
                                &&& m == g0.modules.len()
                                &&& g1.modules[m as int].resolved_in@ == chosen_context(dep.context, origin_context, self.context)
                            }
                        }
                    } else {
                        &&& final(state).module_graph == old(state).module_graph
                        &&& final(state).task_queue@ == old(state).task_queue@
                        &&& failure_recorded(final(state).diagnostics@, dependency)
                        &&& if failure_recorded(old(state).diagnostics@, dependency) {
                            final(state).diagnostics == old(state).diagnostics
                        } else {
                            &&& one_resolution_failure(old(state).diagnostics@, final(state).diagnostics@, request)
                            &&& is_failure_of(final(state).diagnostics@.last(), dependency)
                        }
                    }
                }))
                },
                Task::Add { module, dependency, origin } => {
                    &&& (final(state).deps_start == old(state).deps_start)
                    &&& (final(state).inv(self.factory.files@))
                    &&& (final(state).parents == old(state).parents)
                    &&& (final(state).potential() == old(state).potential())
                    &&& (queue_weight(final(state).task_queue@) == queue_weight(old(state).task_queue@) + 1)
                    &&& (final(state).entries == old(state).entries)
                    &&& (final(state).diagnostics == old(state).diagnostics)
                    &&& (final(state).module_graph@.modules == old(state).module_graph@.modules)
                    &&& (final(state).module_graph@.dependencies == old(state).module_graph@.dependencies)
                    &&& (final(state).module_graph@.resolved == old(state).module_graph@.resolved.update(
                    dependency as int,
                    Some(module),
                ))
                    &&& (final(state).module_graph@.origins == old(state).module_graph@.origins.update(dependency as int, origin))
                    &&& (final(state).module_graph@.incoming == old(state).module_graph@.incoming.update(
                    module as int,
                    old(state).module_graph@.incoming[module as int].push(dependency),
                ))
                    &&& (origin is Some ==> final(state).module_graph@.outgoing == old(state).module_graph@.outgoing.update(
                    origin->0 as int,
                    old(state).module_graph@.outgoing[origin->0 as int].push(dependency),
                ))
                    &&& (origin is None ==> final(state).module_graph@.outgoing == old(state).module_graph@.outgoing)
                    &&& (final(state).task_queue@ == old(state).task_queue@.push(Task::Build { module }))
                    &&& (final(state).built == old(state).built)
                    &&& (final(state).module_file == old(state).module_file)
                },
                Task::Build { module } => {
                    &&& (final(state).deps_start@.len() == old(state).deps_start@.len())
                    &&& (forall|m: int| 0 <= m < old(state).deps_start@.len() && m != module as int ==> #[trigger] final(state).deps_start@[m] == old(state).deps_start@[m])
                    &&& (old(state).built@[module as int] ==> final(state).deps_start@[module as int] == old(state).deps_start@[module as int])
                    &&& (!old(state).built@[module as int] ==> final(state).deps_start@[module as int] == old(state).module_graph@.dependencies.len())
                    &&& (final(state).inv(self.factory.files@))
                    &&& (final(state).potential() < old(state).potential() || (final(state).potential()
                    == old(state).potential() && final(state).task_queue@ == old(state).task_queue@))
                    &&& (final(state).entries == old(state).entries)
                    &&& (old(state).module_graph@.extended_by(final(state).module_graph@))
                    &&& (final(state).module_graph@.modules == old(state).module_graph@.modules)
                    &&& (old(state).task_queue@.is_prefix_of(final(state).task_queue@))
                    &&& (final(state).built@ == old(state).built@.update(module as int, true))
                    &&& (final(state).module_file == old(state).module_file)
                    &&& (old(state).parents@.is_prefix_of(final(state).parents@))
                    &&& (forall|d: int| old(state).parents@.len() <= d < final(state).parents@.len() ==> #[trigger] final(state).parents@[d] == Some(module))
                    &&& (({
                    let file = self.factory.files@[old(state).module_file@[module as int] as int];
                    !old(state).built@[module as int] && file.build_error is None ==> forall|k: int|
                        0 <= k < file.imports@.len() ==> pending(
                            final(state).task_queue@,
                            final(state).module_graph@,
                            (#[trigger] file.imports@[k])@,
                        )
                }))
                    &&& (({
                    let file = self.factory.files@[old(state).module_file@[module as int] as int];
                    let g0 = old(state).module_graph@;
                    let g1 = final(state).module_graph@;
                    let n = g0.dependencies.len();
                    if old(state).built@[module as int] {
                        &&& final(state).diagnostics == old(state).diagnostics
                        &&& final(state).task_queue@ == old(state).task_queue@
                        &&& final(state).module_graph == old(state).module_graph
                    } else if file.build_error is Some {
                        &&& final(state).task_queue@ == old(state).task_queue@
                        &&& final(state).module_graph == old(state).module_graph
                        &&& final(state).diagnostics@.len() == old(state).diagnostics@.len() + 1
                        &&& final(state).diagnostics@.drop_last() == old(state).diagnostics@
                        &&& match final(state).diagnostics@.last() {
                            Diagnostic::Build { module: m, path, message } => m == module && path@ == file.path@
                                && message@ == file.build_error->0@,
                            _ => false,
                        }
                    } else {
                        &&& final(state).diagnostics == old(state).diagnostics
                        &&& g1.resolved.subrange(0, n as int) == g0.resolved
                        &&& g1.origins.subrange(0, n as int) == g0.origins
                        &&& g1.dependencies.len() == n + file.imports@.len()
                        &&& forall|k: int| 0 <= k < file.imports@.len() ==> {
                            &&& (#[trigger] g1.dependencies[n + k]).request@ == file.imports@[k]@
                            &&& g1.dependencies[n + k].kind == DependencyKind::StaticImport
                            &&& g1.dependencies[n + k].context is None
                        }
                        &&& final(state).task_queue@.len() == old(state).task_queue@.len() + 1
                        &&& final(state).task_queue@.drop_last() == old(state).task_queue@
                        &&& match final(state).task_queue@.last() {
                            Task::ProcessDeps { dependencies, origin } => origin == Some(module)
                                && dependencies@.len() == file.imports@.len()
                                && forall|k: int| 0 <= k < dependencies@.len() ==> #[trigger] dependencies@[k] == n + k,
                            _ => false,
                        }
                    }
                }))
                },
                Task::ProcessDeps { dependencies, origin } => {
                    &&& (final(state).deps_start == old(state).deps_start)
                    &&& (final(state).inv(self.factory.files@))
                    &&& (final(state).parents == old(state).parents)
                    &&& (queue_weight(final(state).task_queue@) <= queue_weight(old(state).task_queue@) + 3 * dependencies@.len())
                    &&& (final(state).potential() == old(state).potential())
                    &&& (final(state).module_graph == old(state).module_graph)
                    &&& (final(state).diagnostics == old(state).diagnostics)
                    &&& (final(state).entries == old(state).entries)
                    &&& (final(state).built == old(state).built)
                    &&& (final(state).module_file == old(state).module_file)
                    &&& (old(state).task_queue@.is_prefix_of(final(state).task_queue@))
                    &&& (final(state).task_queue@ == old(state).task_queue@ + creation_tasks(
                    dependencies@,
                    old(state).module_graph@,
                    origin,
                    match origin {
                        Some(m) => old(state).module_graph@.modules[m as int].context,
                        None => None,
                    },
                ))
                    &&& (forall|k: int|
                    0 <= k < dependencies@.len()
                        && old(state).module_graph@.dependencies[dependencies@[k] as int].is_module_dependency_spec()
                        ==> factorize_queued(final(state).task_queue@, #[trigger] dependencies@[k]))
                },
            },
    {
        let ghost s0 = *state;
        let ghost q0 = seq![task].add(state.task_queue@);
        let ghost files = self.factory.files@;
        proof {
            assert(q0.drop_first() =~= s0.task_queue@);
            assert(q0[0] == task);
        }
        match task {
            Task::Factorize { dependency, origin, origin_context } => {
                self.handle_factorize(state, dependency, origin, origin_context);
            },
            Task::Add { module, dependency, origin } => {
                self.handle_add(state, module, dependency, origin);
                proof {
                    let q = state.task_queue@;
                    assert(is_build_step_of(q[q.len() - 1], module));
                }
            },
            Task::Build { module } => {
                self.handle_build(state, module);
            },
            Task::ProcessDeps { dependencies, origin } => {
                self.handle_process_deps(state, dependencies, origin);
            },
        }
        proof {
            let s1 = *state;
            let g0 = s0.module_graph@;
            let g1 = s1.module_graph@;
            assert(q0.drop_first().is_prefix_of(s1.task_queue@));
            assert forall|p: Seq<char>| task_pending(q0[0], g0, p) implies #[trigger] covered(
                files,
                g1,
                s1.task_queue@,
                p,
            ) by {
                match task {
                    Task::ProcessDeps { dependencies, .. } => {
                        let k = choose|k: int|
                            0 <= k < dependencies@.len() && #[trigger] dependencies@[k] < g0.dependencies.len()
                                && g0.dependencies[dependencies@[k] as int].request@ == p
                                && g0.dependencies[dependencies@[k] as int].is_module_dependency_spec();
                        assert(factorize_queued(s1.task_queue@, dependencies@[k]));
                        let i = choose|i: int| 0 <= i < s1.task_queue@.len() && is_factorize_of(
                            #[trigger] s1.task_queue@[i],
                            dependencies@[k],
                        );
                        assert(task_pending(s1.task_queue@[i], g1, p));
                    },
                    _ => {},
                }
            }
            assert forall|p: Seq<char>| #[trigger] covered(files, g0, q0, p) implies covered(
                files,
                g1,
                s1.task_queue@,
                p,
            ) by {
                lemma_covered_transfer(files, g0, g1, q0, s1.task_queue@, p);
            }
            let dg0 = s0.diagnostics@;
            let dg1 = s1.diagnostics@;
            lemma_recorded_kept(dg0, dg1);
            assert forall|d: DependencyId|
                d < g0.dependencies.len() && #[trigger] dep_on_track(g0, q0, dg0, d)
                    implies dep_on_track(g1, s1.task_queue@, dg1, d) by {
                assert(g1.dependencies[d as int] == g0.dependencies[d as int]);
                if is_factorize_of(q0[0], d) || is_add_of(q0[0], d) || is_process_of(q0[0], d) {
                    match task {
                        Task::Factorize { .. } => {
                            if add_queued(s1.task_queue@, d) {
                                let i = choose|i: int| 0 <= i < s1.task_queue@.len() && is_add_of(#[trigger] s1.task_queue@[i], d);
                                assert(is_add_of(s1.task_queue@[i], d));
                            }
                        },
                        Task::ProcessDeps { dependencies, .. } => {
                            let k = choose|k: int| 0 <= k < dependencies@.len() && #[trigger] dependencies@[k] == d;
                            if g0.dependencies[d as int].is_module_dependency_spec() {
                                assert(factorize_queued(s1.task_queue@, dependencies@[k]));
                                let i = choose|i: int| 0 <= i < s1.task_queue@.len() && is_factorize_of(#[trigger] s1.task_queue@[i], d);
                                assert(is_factorize_of(s1.task_queue@[i], d));
                            }
                        },
                        _ => {},
                    }
                } else {
                    lemma_on_track_shift(g0, g1, q0, s1.task_queue@, dg0, dg1, d);
                }
            }
            assert forall|d: DependencyId|
                g0.dependencies.len() <= d < g1.dependencies.len()
                    implies #[trigger] dep_on_track(g1, s1.task_queue@, dg1, d) by {
                match task {
                    Task::Build { module } => {
                        let q = s1.task_queue@;
                        let t = q[q.len() - 1];
                        match t {
                            Task::ProcessDeps { dependencies, .. } => {
                                let k = d - g0.dependencies.len();
                                assert(dependencies@[k] == d);
                                assert(is_process_of(t, d));
                            },
                            _ => {},
                        }
                    },
                    _ => {},
                }
            }
            if dependencies_accounted(s0, files) {
                let n = g0.dependencies.len();
                assert(s0.parents@.is_prefix_of(s1.parents@));
                assert forall|d: DependencyId|
                    d < g1.dependencies.len() && #[trigger] s1.parents@[d as int] is None implies entry_dependency(s1.entries@, d) by {
                    if d < n {
                        assert(s1.parents@[d as int] == s0.parents@[d as int]);
                    }
                }
                assert forall|d: DependencyId|
                    d < g1.dependencies.len() && #[trigger] s1.parents@[d as int] is Some implies import_slot(
                        s1,
                        files,
                        d,
                        s1.parents@[d as int]->0 as int,
                    ) by {
                    let p = s1.parents@[d as int]->0 as int;
                    if d < n {
                        assert(s1.parents@[d as int] == s0.parents@[d as int]);
                        assert(import_slot(s0, files, d, p));
                        assert(file_of(s1, files, p) == file_of(s0, files, p));
                        assert(s1.deps_start@[p] == s0.deps_start@[p]);
                        assert(g1.dependencies[d as int] == g0.dependencies[d as int]);
                    } else {
                        match task {
                            Task::Build { module } => {
                                assert(p == module as int);
                                assert(file_of(s1, files, p) == file_of(s0, files, p));
                                assert(s1.deps_start@[p] == n);
                                let k = d - n;
                                assert(g1.dependencies[n + k].request@ == file_of(s0, files, p).imports@[k]@);
                            },
                            _ => {},
                        }
                    }
                }
                assert forall|m: int, k: int|
                    0 <= m < g1.modules.len() && s1.built@[m] && file_of(s1, files, m).build_error is None && 0 <= k
                        < file_of(s1, files, m).imports@.len() implies s1.deps_start@[m] + k < g1.dependencies.len()
                        && #[trigger] s1.parents@[s1.deps_start@[m] + k] == Some(m as ModuleId) by {
                    if m < g0.modules.len() && s0.built@[m] {
                        assert(file_of(s1, files, m) == file_of(s0, files, m));
                        assert(s1.deps_start@[m] == s0.deps_start@[m]);
                        assert(s0.parents@[s0.deps_start@[m] + k] == Some(m as ModuleId));
                    } else {
                        match task {
                            Task::Build { module } => {
                                assert(m == module as int);
                                assert(file_of(s1, files, m) == file_of(s0, files, m));
                                assert(s1.deps_start@[m] == n);
                            },
                            _ => {},
                        }
                    }
                }
            }
            if imports_linked(s0, files) {
                assert forall|m: int, k: int|
                    0 <= m < g1.modules.len() && s1.built@[m] && file_of(s1, files, m).build_error is None && 0 <= k
                        < file_of(s1, files, m).imports@.len() implies #[trigger] import_dep(s1, files, m, k) by {
                    assert(s0.parents@.is_prefix_of(s1.parents@));
                    if m < g0.modules.len() && s0.built@[m] {
                        assert(file_of(s1, files, m) == file_of(s0, files, m));
                        assert(import_dep(s0, files, m, k));
                        let d = choose|d: DependencyId|
                            d < g0.dependencies.len() && #[trigger] s0.parents@[d as int] == Some(m as ModuleId)
                                && g0.dependencies[d as int].request@ == file_of(s0, files, m).imports@[k]@
                                && g0.dependencies[d as int].is_module_dependency_spec();
                        assert(s1.parents@[d as int] == s0.parents@[d as int]);
                        assert(g1.dependencies[d as int] == g0.dependencies[d as int]);
                    } else {
                        match task {
                            Task::Build { module } => {
                                assert(m == module as int);
                                assert(file_of(s1, files, m) == file_of(s0, files, m));
                                let q = s1.task_queue@;
                                match q[q.len() - 1] {
                                    Task::ProcessDeps { dependencies, .. } => {
                                        let d = dependencies@[k];
                                        assert(d as int == g0.dependencies.len() + k);
                                        assert(g1.dependencies[d as int].request@ == file_of(s0, files, m).imports@[k]@);
                                        assert(s1.parents@[d as int] == Some(module));
                                    },
                                    _ => {},
                                }
                            },
                            _ => {},
                        }
                    }
                }
            }
            if builds_recorded(s0, files) {
                assert forall|m: int|
                    0 <= m < g1.modules.len() && #[trigger] s1.built@[m] && file_of(s1, files, m).build_error is Some
                        implies build_failure_recorded(dg1, m as ModuleId) by {
                    if m < g0.modules.len() && s0.built@[m] {
                        assert(file_of(s1, files, m) == file_of(s0, files, m));
                        assert(build_failure_recorded(dg0, m as ModuleId));
                    } else {
                        match task {
                            Task::Build { module } => {
                                assert(m == module as int);
                                assert(file_of(s1, files, m) == file_of(s0, files, m));
                                assert(is_build_failure_of(dg1[dg1.len() - 1], module));
                            },
                            _ => {},
                        }
                    }
                }
            }
            assert forall|d: DependencyId|
                d < g0.dependencies.len() && #[trigger] resolution_on_track(files, g0, q0, d)
                    implies resolution_on_track(files, g1, s1.task_queue@, d) by {
                assert(g1.dependencies[d as int] == g0.dependencies[d as int]);
                if is_factorize_of(q0[0], d) || is_add_of(q0[0], d) {
                } else {
                    lemma_track_shift(files, g0, g1, q0, s1.task_queue@, d);
                }
            }
            if progress(s0, files, q0) {
                assert forall|m: int| 0 <= m < g1.modules.len() implies #[trigger] module_progress(
                    s1,
                    s1.task_queue@,
                    m,
                ) && forall|k: int| #[trigger] import_covered(s1, files, s1.task_queue@, m, k) by {
                    if m < g0.modules.len() {
                        match task {
                            Task::Build { module } => {
                                if m == module {
                                    assert forall|k: int| #[trigger] import_covered(s1, files, s1.task_queue@, m, k) by {
                                        assert(file_of(s1, files, m) == file_of(s0, files, m));
                                        assert(import_covered(s0, files, q0, m, k));
                                        if s0.built@[m] && file_of(s1, files, m).build_error is None && 0 <= k
                                            < file_of(s1, files, m).imports@.len() {
                                            let p = file_of(s1, files, m).imports@[k]@;
                                            lemma_covered_transfer(files, g0, g1, q0, s1.task_queue@, p);
                                        }
                                    }
                                } else {
                                    lemma_module_shift(s0, s1, files, q0, m);
                                }
                            },
                            Task::Add { module, .. } => {
                                if m == module as int && !s1.built@[m] {
                                    let q = s1.task_queue@;
                                    assert(is_build_step_of(q[q.len() - 1], module));
                                    assert forall|k: int| #[trigger] import_covered(s1, files, s1.task_queue@, m, k) by {
                                        assert(file_of(s1, files, m) == file_of(s0, files, m));
                                    }
                                } else {
                                    lemma_module_shift(s0, s1, files, q0, m);
                                }
                            },
                            _ => {
                                lemma_module_shift(s0, s1, files, q0, m);
                            },
                        }
                    } else {
                        assert(!s1.built@[m]);
                    }
                }
                assert forall|m: int, k: int| 0 <= m < g1.modules.len() implies #[trigger] import_covered(
                    s1,
                    files,
                    s1.task_queue@,
                    m,
                    k,
                ) by {
                    assert(module_progress(s1, s1.task_queue@, m));
                }
            }
        }
    }

    /// Runs tasks until the queue is empty, starting from `dependencies`.
    pub fn build_loop(&self, state: &mut ScannerState, dependencies: Vec<DependencyId>)
        requires
            old(state).inv(self.factory.files@),
            progress(*old(state), self.factory.files@, old(state).task_queue@),
            builds_recorded(*old(state), self.factory.files@),
            forall|k: int| 0 <= k < dependencies@.len()
                ==> #[trigger] dependencies@[k] < old(state).module_graph@.dependencies.len(),
            forall|k: int| 0 <= k < dependencies@.len()
                ==> old(state).parents@[#[trigger] dependencies@[k] as int] is None,
            imports_linked(*old(state), self.factory.files@),
            dependencies_accounted(*old(state), self.factory.files@),
        ensures
            dependencies_accounted(*final(state), self.factory.files@),
            imports_linked(*final(state), self.factory.files@),
            builds_recorded(*final(state), self.factory.files@),
            forall|k: int| 0 <= k < dependencies@.len() ==> settled(final(state).module_graph@, final(state).diagnostics@, #[trigger] dependencies@[k]),
            forall|d: DependencyId|
                old(state).module_graph@.dependencies.len() <= d < final(state).module_graph@.dependencies.len()
                    ==> #[trigger] settled(final(state).module_graph@, final(state).diagnostics@, d),
            final(state).inv(self.factory.files@),
            final(state).task_queue@.len() == 0,
            final(state).entries == old(state).entries,
            old(state).module_graph@.extended_by(final(state).module_graph@),
            diagnostics_kept(old(state).diagnostics@, final(state).diagnostics@),
            progress(*final(state), self.factory.files@, final(state).task_queue@),
            scan_closed(*final(state), self.factory.files@),
            forall|k: int|
                0 <= k < dependencies@.len() && old(state).module_graph@.dependencies[dependencies@[k] as int].is_module_dependency_spec()
                    ==> !resolvable(self.factory.files@, old(state).module_graph@.dependencies[#[trigger] dependencies@[k] as int].request@)
                    || (has_module(final(state).module_graph@, old(state).module_graph@.dependencies[dependencies@[k] as int].request@)
                    && final(state).module_graph@.resolved[dependencies@[k] as int] is Some),
    {
        let ghost files = self.factory.files@;
        let ghost s_start = *state;
        self.handle_module_creation(state, &dependencies, None, Some(self.context.clone()));
        proof {
            lemma_progress_grow(s_start, *state, files);
            let g = state.module_graph@;
            assert forall|k: int|
                0 <= k < dependencies@.len() && g.dependencies[dependencies@[k] as int].is_module_dependency_spec()
                    implies covered(files, g, state.task_queue@, g.dependencies[#[trigger] dependencies@[k] as int].request@) by {
                assert(factorize_queued(state.task_queue@, dependencies@[k]));
                let i = choose|i: int| 0 <= i < state.task_queue@.len() && is_factorize_of(
                    #[trigger] state.task_queue@[i],
                    dependencies@[k],
                );
                assert(task_pending(state.task_queue@[i], g, g.dependencies[dependencies@[k] as int].request@));
                assert(resolution_on_track(files, g, state.task_queue@, dependencies@[k]));
            }
            assert forall|k: int| 0 <= k < dependencies@.len()
                implies dep_on_track(g, state.task_queue@, state.diagnostics@, #[trigger] dependencies@[k]) by {
                if g.dependencies[dependencies@[k] as int].is_module_dependency_spec() {
                    assert(factorize_queued(state.task_queue@, dependencies@[k]));
                    let i = choose|i: int| 0 <= i < state.task_queue@.len() && is_factorize_of(
                        #[trigger] state.task_queue@[i],
                        dependencies@[k],
                    );
                    assert(is_factorize_of(state.task_queue@[i], dependencies@[k]));
                }
            }
            lemma_builds_same(s_start, *state, files);
            lemma_imports_linked_grow(s_start, *state, files);
            lemma_accounted_grow(s_start, *state, files);
        }
        let ghost g_start = state.module_graph@;
        loop
            invariant
                state.inv(self.factory.files@),
                files == self.factory.files@,
                state.entries == old(state).entries,
                old(state).module_graph@.extended_by(state.module_graph@),
                g_start.extended_by(state.module_graph@),
                g_start.dependencies == old(state).module_graph@.dependencies,
                diagnostics_kept(old(state).diagnostics@, state.diagnostics@),
                progress(*state, files, state.task_queue@),
                forall|k: int| 0 <= k < dependencies@.len() ==> #[trigger] dependencies@[k] < g_start.dependencies.len(),
                forall|k: int|
                    0 <= k < dependencies@.len() && g_start.dependencies[dependencies@[k] as int].is_module_dependency_spec()
                        ==> covered(files, state.module_graph@, state.task_queue@, g_start.dependencies[#[trigger] dependencies@[k] as int].request@),
                forall|k: int|
                    0 <= k < dependencies@.len() && g_start.dependencies[dependencies@[k] as int].is_module_dependency_spec()
                        ==> resolution_on_track(files, state.module_graph@, state.task_queue@, #[trigger] dependencies@[k]),
                forall|k: int|
                    0 <= k < dependencies@.len() ==> dep_on_track(state.module_graph@, state.task_queue@, state.diagnostics@, #[trigger] dependencies@[k]),
                forall|d: DependencyId|
                    g_start.dependencies.len() <= d < state.module_graph@.dependencies.len()
                        ==> #[trigger] dep_on_track(state.module_graph@, state.task_queue@, state.diagnostics@, d),
                builds_recorded(*state, files),
                imports_linked(*state, files),
                dependencies_accounted(*state, files),
            ensures
                state.inv(self.factory.files@),
                state.task_queue@.len() == 0,
                state.entries == old(state).entries,
                old(state).module_graph@.extended_by(state.module_graph@),
                diagnostics_kept(old(state).diagnostics@, state.diagnostics@),
                progress(*state, files, state.task_queue@),
                forall|k: int|
                    0 <= k < dependencies@.len() && g_start.dependencies[dependencies@[k] as int].is_module_dependency_spec()
                        ==> covered(files, state.module_graph@, state.task_queue@, g_start.dependencies[#[trigger] dependencies@[k] as int].request@),
                forall|k: int|
                    0 <= k < dependencies@.len() && g_start.dependencies[dependencies@[k] as int].is_module_dependency_spec()
                        ==> resolution_on_track(files, state.module_graph@, state.task_queue@, #[trigger] dependencies@[k]),
                forall|k: int|
                    0 <= k < dependencies@.len() ==> dep_on_track(state.module_graph@, state.task_queue@, state.diagnostics@, #[trigger] dependencies@[k]),
                forall|d: DependencyId|
                    g_start.dependencies.len() <= d < state.module_graph@.dependencies.len()
                        ==> #[trigger] dep_on_track(state.module_graph@, state.task_queue@, state.diagnostics@, d),
                builds_recorded(*state, files),
                imports_linked(*state, files),
                dependencies_accounted(*state, files),
            decreases state.potential(), queue_weight(state.task_queue@),
        {
            let ghost q0 = state.task_queue@;
            let ghost s_before = *state;
            match state.task_queue.pop_front() {
                None => {
                    proof {
                        lemma_progress_same(s_before, *state, files, q0);
                        lemma_builds_same(s_before, *state, files);
                        lemma_imports_linked_grow(s_before, *state, files);
                        lemma_accounted_grow(s_before, *state, files);
                    }
                    break;
                },
                Some(task) => {
                    proof {
                        assert(state.task_queue@ =~= q0.drop_first());
                        assert(task_ok(q0[0], state.module_graph@));
                        assert(task_parent_ok(q0[0], state.parents@));
                        assert(seq![task].add(state.task_queue@) =~= q0);
                        lemma_progress_same(s_before, *state, files, q0);
                        lemma_builds_same(s_before, *state, files);
                        lemma_imports_linked_grow(s_before, *state, files);
                        lemma_accounted_grow(s_before, *state, files);
                    }
                    let ghost g_mid = state.module_graph@;
                    let ghost dg_mid = state.diagnostics@;
                    self.handle_task(state, task);
                    proof {
                        assert forall|k: int|
                            0 <= k < dependencies@.len() && g_start.dependencies[dependencies@[k] as int].is_module_dependency_spec()
                                implies resolution_on_track(files, state.module_graph@, state.task_queue@, #[trigger] dependencies@[k]) by {
                            assert(resolution_on_track(files, g_mid, q0, dependencies@[k]));
                        }
                        assert forall|k: int| 0 <= k < dependencies@.len()
                            implies dep_on_track(state.module_graph@, state.task_queue@, state.diagnostics@, #[trigger] dependencies@[k]) by {
                            assert(dep_on_track(g_mid, q0, dg_mid, dependencies@[k]));
                        }
                        assert forall|d: DependencyId|
                            g_start.dependencies.len() <= d < state.module_graph@.dependencies.len()
                                implies #[trigger] dep_on_track(state.module_graph@, state.task_queue@, state.diagnostics@, d) by {
                            if d < g_mid.dependencies.len() {
                                assert(dep_on_track(g_mid, q0, dg_mid, d));
                            }
                        }
                    }
                },
            }
        }
        proof {
            let g = state.module_graph@;
            let q = state.task_queue@;
            assert forall|m: int| 0 <= m < g.modules.len() implies #[trigger] state.built@[m] by {
                assert(module_progress(*state, q, m));
            }
            assert forall|m: int, k: int|
                0 <= m < g.modules.len() && file_of(*state, files, m).build_error is None && 0 <= k
                    < file_of(*state, files, m).imports@.len() implies !resolvable(files, (#[trigger] file_of(*state, files, m).imports@[k])@)
                    || has_module(g, file_of(*state, files, m).imports@[k]@) by {
                assert(state.built@[m]);
                assert(import_covered(*state, files, q, m, k));
            }
            assert forall|k: int|
                0 <= k < dependencies@.len() && old(state).module_graph@.dependencies[dependencies@[k] as int].is_module_dependency_spec()
                    implies !resolvable(files, old(state).module_graph@.dependencies[#[trigger] dependencies@[k] as int].request@)
                    || (has_module(g, old(state).module_graph@.dependencies[dependencies@[k] as int].request@)
                    && g.resolved[dependencies@[k] as int] is Some) by {
                assert(resolution_on_track(files, g, q, dependencies@[k]));
                assert(covered(files, g, q, g_start.dependencies[dependencies@[k] as int].request@));
            }
            assert forall|k: int| 0 <= k < dependencies@.len() implies settled(g, state.diagnostics@, #[trigger] dependencies@[k]) by {
                assert(dep_on_track(g, q, state.diagnostics@, dependencies@[k]));
            }
            assert forall|d: DependencyId|
                old(state).module_graph@.dependencies.len() <= d < g.dependencies.len()
                    implies #[trigger] settled(g, state.diagnostics@, d) by {
                assert(dep_on_track(g, q, state.diagnostics@, d));
            }
        }
    }

    /// Seeds the scan with one entry dependency per configured entry, then runs it.
    pub fn add_entries(&self, state: &mut ScannerState, entries: &Vec<EntryItem>)
        requires
            old(state).inv(self.factory.files@),
            progress(*old(state), self.factory.files@, old(state).task_queue@),
            builds_recorded(*old(state), self.factory.files@),
            imports_linked(*old(state), self.factory.files@),
            dependencies_accounted(*old(state), self.factory.files@),
        ensures
            dependencies_accounted(*final(state), self.factory.files@),
            imports_linked(*final(state), self.factory.files@),
            builds_recorded(*final(state), self.factory.files@),
            forall|d: DependencyId|
                old(state).module_graph@.dependencies.len() <= d < final(state).module_graph@.dependencies.len()
                    ==> #[trigger] settled(final(state).module_graph@, final(state).diagnostics@, d),
            final(state).inv(self.factory.files@),
            final(state).task_queue@.len() == 0,
            old(state).module_graph@.extended_by(final(state).module_graph@),
            diagnostics_kept(old(state).diagnostics@, final(state).diagnostics@),
            scan_closed(*final(state), self.factory.files@),
            forall|e: int|
                0 <= e < entries@.len() ==> !resolvable(self.factory.files@, (#[trigger] entries@[e]).import@)
                    || has_module(final(state).module_graph@, entries@[e].import@),
            forall|e: int|
                0 <= e < entries@.len() ==> (resolvable(self.factory.files@, (#[trigger] entries@[e]).import@)
                    <==> final(state).module_graph@.resolved[final(state).entries@[old(state).entries@.len() + e].dependencies@[0] as int] is Some),
            final(state).entries@.len() == old(state).entries@.len() + entries@.len(),
            forall|e: int| 0 <= e < old(state).entries@.len() ==> #[trigger] final(state).entries@[e] == old(state).entries@[e],
            forall|e: int|
                0 <= e < entries@.len() ==> {
                    let d = #[trigger] final(state).entries@[old(state).entries@.len() + e];
                    &&& d.name@ == entries@[e].name@
                    &&& d.dependencies@.len() == 1
                    &&& final(state).module_graph@.dependencies[d.dependencies@[0] as int].kind == DependencyKind::Entry
                    &&& final(state).module_graph@.dependencies[d.dependencies@[0] as int].request@ == entries@[e].import@
                    &&& final(state).module_graph@.dependencies[d.dependencies@[0] as int].context == Some(self.context)
                },
    {
        let mut ids: Vec<DependencyId> = Vec::new();
        let mut i: usize = 0;
        while i < entries.len()
            invariant
                i <= entries@.len(),
                state.inv(self.factory.files@),
                old(state).module_graph@.extended_by(state.module_graph@),
                state.diagnostics == old(state).diagnostics,
                state.entries@.len() == old(state).entries@.len() + i,
                forall|e: int| 0 <= e < old(state).entries@.len() ==> #[trigger] state.entries@[e] == old(state).entries@[e],
                forall|e: int|
                    0 <= e < i ==> {
                        let d = #[trigger] state.entries@[old(state).entries@.len() + e];
                        &&& d.name@ == entries@[e].name@
                        &&& d.dependencies@.len() == 1
                        &&& d.dependencies@[0] == ids@[e]
                        &&& state.module_graph@.dependencies[d.dependencies@[0] as int].kind == DependencyKind::Entry
                        &&& state.module_graph@.dependencies[d.dependencies@[0] as int].request@ == entries@[e].import@
                        &&& state.module_graph@.dependencies[d.dependencies@[0] as int].context == Some(self.context)
                    },
                forall|q: int| 0 <= q < ids@.len()
                    ==> #[trigger] ids@[q] < state.module_graph@.dependencies.len(),
                progress(*state, self.factory.files@, state.task_queue@),
                ids@.len() == i,
                forall|q: int| 0 <= q < i ==> {
                    &&& state.module_graph@.dependencies[#[trigger] ids@[q] as int].request@ == entries@[q].import@
                    &&& state.module_graph@.dependencies[ids@[q] as int].kind == DependencyKind::Entry
                },
                state.task_queue@ == old(state).task_queue@,
                state.module_graph@.modules == old(state).module_graph@.modules,
                state.module_graph@.dependencies.len() == old(state).module_graph@.dependencies.len() + i,
                forall|q: int| 0 <= q < i ==> #[trigger] ids@[q] == old(state).module_graph@.dependencies.len() + q,
                forall|q: int| 0 <= q < i ==> state.parents@[#[trigger] ids@[q] as int] is None,
                state.parents@.subrange(0, old(state).module_graph@.dependencies.len() as int) == old(state).parents@,
                state.module_graph@.modules.len() == old(state).module_graph@.modules.len(),
                state.built == old(state).built,
                state.module_file == old(state).module_file,
                state.deps_start == old(state).deps_start,
            decreases entries@.len() - i,
        {
            let entry = &entries[i];
            let dep = Dependency::new(DependencyKind::Entry, entry.import.clone(), Some(self.context.clone()));
            let ghost g0 = state.module_graph@;
            let ghost s0 = *state;
            let ghost parents_before = state.parents@;
            let id = state.module_graph.add_dependency(dep);
            state.parents.push(None);
            proof {
                lemma_parents_grow(state.task_queue@, parents_before, state.parents@);
                let g = state.module_graph@;
                assert forall|d: int| 0 <= d < g.dependencies.len() && #[trigger] g.resolved[d] is Some
                    implies g.origins[d] == state.parents@[d] by {
                    assert(d < g0.dependencies.len());
                    assert(g.resolved[d] == g0.resolved[d]);
                    assert(g.origins[d] == g0.origins[d]);
                }
            }
            proof {
                lemma_state_grows(*state, g0, state.module_graph@);
                lemma_progress_grow(s0, *state, self.factory.files@);
            }
            let ghost s1 = *state;
            let mut entry_deps: Vec<DependencyId> = Vec::new();
            entry_deps.push(id);
            state.entries.push(EntryData { name: entry.name.clone(), dependencies: entry_deps });
            proof {
                lemma_progress_same(s1, *state, self.factory.files@, state.task_queue@);
                assert forall|q: int| 0 <= q < ids@.len() implies {
                    &&& state.module_graph@.dependencies[#[trigger] ids@[q] as int].request@ == entries@[q].import@
                    &&& state.module_graph@.dependencies[ids@[q] as int].kind == DependencyKind::Entry
                } by {
                    assert(state.module_graph@.dependencies[ids@[q] as int] == g0.dependencies[ids@[q] as int]);
                }
            }
            ids.push(id);
            i = i + 1;
        }
        let ghost g1 = state.module_graph@;
        let ghost e1 = state.entries@;
        let ghost ids_v = ids@;
        proof {
            lemma_builds_same(*old(state), *state, self.factory.files@);
            assert(state.parents@.subrange(0, old(state).parents@.len() as int) == old(state).parents@);
            lemma_imports_linked_grow(*old(state), *state, self.factory.files@);
            assert forall|d: DependencyId|
                old(state).module_graph@.dependencies.len() <= d < state.module_graph@.dependencies.len()
                    implies #[trigger] state.parents@[d as int] is None && entry_dependency(state.entries@, d) by {
                let q = d - old(state).module_graph@.dependencies.len();
                assert(ids_v[q] == d);
                let e = old(state).entries@.len() + q;
                assert(state.entries@[e].dependencies@[0] == ids_v[q]);
            }
            lemma_accounted_grow(*old(state), *state, self.factory.files@);
        }
        self.build_loop(state, ids);
        proof {
            assert forall|d: DependencyId|
                old(state).module_graph@.dependencies.len() <= d < state.module_graph@.dependencies.len()
                    implies #[trigger] settled(state.module_graph@, state.diagnostics@, d) by {
                if d < g1.dependencies.len() {
                    let q = d - old(state).module_graph@.dependencies.len();
                    assert(ids_v[q] == d);
                }
            }
            assert forall|e: int|
                0 <= e < entries@.len() implies !resolvable(self.factory.files@, (#[trigger] entries@[e]).import@)
                    || has_module(state.module_graph@, entries@[e].import@) by {
                assert(g1.dependencies[ids_v[e] as int].is_module_dependency_spec());
            }
            let g2 = state.module_graph@;
            assert forall|e: int|
                0 <= e < entries@.len() implies (resolvable(self.factory.files@, (#[trigger] entries@[e]).import@)
                    <==> g2.resolved[state.entries@[old(state).entries@.len() + e].dependencies@[0] as int] is Some) by {
                assert(g1.dependencies[ids_v[e] as int].is_module_dependency_spec());
                let d = e1[old(state).entries@.len() + e];
                assert(d.dependencies@[0] == ids_v[e]);
                let r = g2.resolved[ids_v[e] as int];
                if r is Some {
                    let m = r->0 as int;
                    assert(g2.modules[m].path@ == g2.dependencies[ids_v[e] as int].request@);
                    assert(first_with_path(self.factory.files@, g2.modules[m].path@, state.module_file@[m] as int));
                    assert(self.factory.files@[state.module_file@[m] as int].path@ == entries@[e].import@);
                }
            }
            let g2 = state.module_graph@;
            assert forall|e: int|
                0 <= e < entries@.len() implies {
                    let d = #[trigger] state.entries@[old(state).entries@.len() + e];
                    &&& d.name@ == entries@[e].name@
                    &&& d.dependencies@.len() == 1
                    &&& g2.dependencies[d.dependencies@[0] as int].kind == DependencyKind::Entry
                    &&& g2.dependencies[d.dependencies@[0] as int].request@ == entries@[e].import@
                    &&& g2.dependencies[d.dependencies@[0] as int].context == Some(self.context)
                } by {
                let d = e1[old(state).entries@.len() + e];
                assert(d.dependencies@[0] < g1.dependencies.len());
                assert(g2.dependencies[d.dependencies@[0] as int] == g1.dependencies[d.dependencies@[0] as int]);
            }
        }
    }
}

} // verus!
