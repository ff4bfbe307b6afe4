use vstd::prelude::*;

use crate::dependency::{Dependency, DependencyId};
use crate::module::{Module, ModuleId};

verus! {

/// Incoming and outgoing resolved edges of one module, as dependency ids.
pub struct ModuleGraphModule {
    pub incoming: Vec<DependencyId>,
    pub outgoing: Vec<DependencyId>,
}

/// The abstract content of a module graph.
pub ghost struct GraphView {
    pub modules: Seq<Module>,
    pub dependencies: Seq<Dependency>,
    /// For each dependency, the module it resolved to.
    pub resolved: Seq<Option<ModuleId>>,
    /// For each dependency that was resolved, the module that asked for it.
    pub origins: Seq<Option<ModuleId>>,
    pub incoming: Seq<Seq<DependencyId>>,
    pub outgoing: Seq<Seq<DependencyId>>,
}

impl GraphView {
    pub open spec fn wf(self) -> bool {
        &&& self.resolved.len() == self.dependencies.len()
        &&& self.origins.len() == self.dependencies.len()
        &&& self.incoming.len() == self.modules.len()
        &&& self.outgoing.len() == self.modules.len()
        &&& forall|d: int|
            0 <= d < self.resolved.len() && #[trigger] self.resolved[d] is Some
                ==> self.resolved[d]->0 < self.modules.len()
        &&& forall|d: int|
            0 <= d < self.origins.len() && #[trigger] self.origins[d] is Some
                ==> self.origins[d]->0 < self.modules.len()
    }

    /// Every module and dependency of `self` is still there, unchanged, in `next`,
    /// and a dependency once resolved stays resolved.
    pub open spec fn extended_by(self, next: GraphView) -> bool {
        &&& self.modules.len() <= next.modules.len()
        &&& self.dependencies.len() <= next.dependencies.len()
        &&& forall|i: int| 0 <= i < self.modules.len() ==> #[trigger] next.modules[i] == self.modules[i]
        &&& forall|i: int|
            0 <= i < self.dependencies.len() ==> #[trigger] next.dependencies[i] == self.dependencies[i]
        &&& forall|i: int|
            0 <= i < self.dependencies.len() && #[trigger] self.resolved[i] is Some ==> next.resolved[i] is Some
    }
}

/// Owns every module and dependency of one build, and the edges between them.
pub struct ModuleGraph {
    modules: Vec<Module>,
    dependencies: Vec<Dependency>,
    resolved: Vec<Option<ModuleId>>,
    origins: Vec<Option<ModuleId>>,
    connections: Vec<ModuleGraphModule>,
}

impl View for ModuleGraph {
    type V = GraphView;

    closed spec fn view(&self) -> GraphView {
        GraphView {
            modules: self.modules@,
            dependencies: self.dependencies@,
            resolved: self.resolved@,
            origins: self.origins@,
            incoming: self.connections@.map_values(|c: ModuleGraphModule| c.incoming@),
            outgoing: self.connections@.map_values(|c: ModuleGraphModule| c.outgoing@),
        }
    }
}

impl ModuleGraph {
    pub fn new() -> (r: ModuleGraph)
        ensures
            r@.wf(),
            r@.modules.len() == 0,
            r@.dependencies.len() == 0,
    {
        let r = ModuleGraph {
            modules: Vec::new(),
            dependencies: Vec::new(),
            resolved: Vec::new(),
            origins: Vec::new(),
            connections: Vec::new(),
        };
        assert(r@.incoming =~= Seq::<Seq<DependencyId>>::empty());
        assert(r@.outgoing =~= Seq::<Seq<DependencyId>>::empty());
        r
    }

    pub fn module_count(&self) -> (r: usize)
        ensures
            r == self@.modules.len(),
    {
        self.modules.len()
    }

    pub fn dependency_count(&self) -> (r: usize)
        ensures
            r == self@.dependencies.len(),
    {
        self.dependencies.len()
    }

    /// Allocates a new module id; ids already handed out keep their modules.
    pub fn add_module(&mut self, module: Module) -> (id: ModuleId)
        requires
            old(self)@.wf(),
        ensures
            final(self)@.wf(),
            id == old(self)@.modules.len(),
            final(self)@.modules == old(self)@.modules.push(module),
            final(self)@.dependencies == old(self)@.dependencies,
            final(self)@.resolved == old(self)@.resolved,
            final(self)@.origins == old(self)@.origins,
            final(self)@.incoming == old(self)@.incoming.push(Seq::empty()),
            final(self)@.outgoing == old(self)@.outgoing.push(Seq::empty()),
            old(self)@.extended_by(final(self)@),
    {
        let id = self.modules.len();
        self.modules.push(module);
        self.connections.push(ModuleGraphModule { incoming: Vec::new(), outgoing: Vec::new() });
        proof {
            let v = self@;
            let o = old(self)@;
            assert(v.incoming =~= o.incoming.push(Seq::empty()));
            assert(v.outgoing =~= o.outgoing.push(Seq::empty()));
        }
        id
    }

    /// Allocates a new dependency id, not yet resolved.
    pub fn add_dependency(&mut self, dependency: Dependency) -> (id: DependencyId)
        requires
            old(self)@.wf(),
        ensures
            final(self)@.wf(),
            id == old(self)@.dependencies.len(),
            final(self)@.modules == old(self)@.modules,
            final(self)@.dependencies == old(self)@.dependencies.push(dependency),
            final(self)@.resolved == old(self)@.resolved.push(None),
            final(self)@.origins == old(self)@.origins.push(None),
            final(self)@.incoming == old(self)@.incoming,
            final(self)@.outgoing == old(self)@.outgoing,
            old(self)@.extended_by(final(self)@),
    {
        let id = self.dependencies.len();
        self.dependencies.push(dependency);
        self.resolved.push(None);
        self.origins.push(None);
        proof {
            let v = self@;
            let o = old(self)@;
            assert forall|d: int| 0 <= d < v.resolved.len() && #[trigger] v.resolved[d] is Some
                implies v.resolved[d]->0 < v.modules.len() by {
                if d < o.resolved.len() {
                    assert(v.resolved[d] == o.resolved[d]);
                }
            }
            assert forall|d: int| 0 <= d < v.origins.len() && #[trigger] v.origins[d] is Some
                implies v.origins[d]->0 < v.modules.len() by {
                if d < o.origins.len() {
                    assert(v.origins[d] == o.origins[d]);
                }
            }
        }
        id
    }

    /// Records that `dependency_id`, asked for by `origin`, resolved to `module_id`.
    pub fn set_resolved_module(
        &mut self,
        origin: Option<ModuleId>,
        dependency_id: DependencyId,
        module_id: ModuleId,
    )
        requires
            old(self)@.wf(),
            dependency_id < old(self)@.dependencies.len(),
            module_id < old(self)@.modules.len(),
            origin is Some ==> origin->0 < old(self)@.modules.len(),
        ensures
            final(self)@.wf(),
            final(self)@.modules == old(self)@.modules,
            final(self)@.dependencies == old(self)@.dependencies,
            final(self)@.resolved == old(self)@.resolved.update(dependency_id as int, Some(module_id)),
            final(self)@.origins == old(self)@.origins.update(dependency_id as int, origin),
            final(self)@.incoming == old(self)@.incoming.update(
                module_id as int,
                old(self)@.incoming[module_id as int].push(dependency_id),
            ),
            origin is Some ==> final(self)@.outgoing == old(self)@.outgoing.update(
                origin->0 as int,
                old(self)@.outgoing[origin->0 as int].push(dependency_id),
            ),
            origin is None ==> final(self)@.outgoing == old(self)@.outgoing,
            old(self)@.extended_by(final(self)@),
    {
        self.resolved.set(dependency_id, Some(module_id));
        self.origins.set(dependency_id, origin);
        let mut target = ModuleGraphModule { incoming: Vec::new(), outgoing: Vec::new() };
        std::mem::swap(&mut target, &mut self.connections[module_id]);
        target.incoming.push(dependency_id);
        self.connections.set(module_id, target);
        proof {
            let o = old(self)@;
            assert(self@.incoming =~= o.incoming.update(module_id as int, o.incoming[module_id as int].push(dependency_id)));
            assert(self@.outgoing =~= o.outgoing);
        }
        let ghost mid = self@;
        match origin {
            Some(from) => {
                let mut source = ModuleGraphModule { incoming: Vec::new(), outgoing: Vec::new() };
                std::mem::swap(&mut source, &mut self.connections[from]);
                source.outgoing.push(dependency_id);
                self.connections.set(from, source);
                proof {
                    let o = old(self)@;
                    assert(self@.incoming =~= mid.incoming);
                    assert(self@.outgoing =~= o.outgoing.update(from as int, o.outgoing[from as int].push(dependency_id)));
                }
            },
            None => {},
        }
    }

    /// Looks a module up; an unknown id is a caller bug.
    pub fn module_by_id(&self, id: ModuleId) -> (r: &Module)
        requires
            id < self@.modules.len(),
        ensures
            *r == self@.modules[id as int],
    {
        &self.modules[id]
    }

    /// Looks a dependency up; an unknown id is a caller bug.
    pub fn dependency_by_id(&self, id: DependencyId) -> (r: &Dependency)
        requires
            id < self@.dependencies.len(),
        ensures
            *r == self@.dependencies[id as int],
    {
        &self.dependencies[id]
    }

    /// The module that a dependency resolved to, if any.
    pub fn get_resolved_module(&self, id: DependencyId) -> (r: Option<ModuleId>)
        requires
            self@.wf(),
            id < self@.dependencies.len(),
        ensures
            r == self@.resolved[id as int],
    {
        self.resolved[id]
    }

    /// The module that asked for a resolved dependency, if any.
    pub fn get_origin_module(&self, id: DependencyId) -> (r: Option<ModuleId>)
        requires
            self@.wf(),
            id < self@.dependencies.len(),
        ensures
            r == self@.origins[id as int],
    {
        self.origins[id]
    }

    /// The dependencies recorded as leaving module `id`, in the order they were resolved.
    pub fn outgoing_of(&self, id: ModuleId) -> (r: &Vec<DependencyId>)
        requires
            self@.wf(),
            id < self@.modules.len(),
        ensures
            r@ == self@.outgoing[id as int],
    {
        &self.connections[id].outgoing
    }

    /// The dependencies recorded as arriving at module `id`.
    pub fn incoming_of(&self, id: ModuleId) -> (r: &Vec<DependencyId>)
        requires
            self@.wf(),
            id < self@.modules.len(),
        ensures
            r@ == self@.incoming[id as int],
    {
        &self.connections[id].incoming
    }
}

} // verus!
