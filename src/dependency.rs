use vstd::prelude::*;

verus! {

/// Index of a dependency in a module graph; never reused.
pub type DependencyId = usize;

/// The closed set of dependency kinds the bundler knows.
#[derive(PartialEq, Eq, Structural, Clone, Copy, Debug)]
pub enum DependencyKind {
    /// The root request of a configured entry.
    Entry,
    /// A static `import` of another module.
    StaticImport,
    /// An edge that only records information and names no module to resolve.
    Informational,
}

/// A typed request for another module, with an optional resolution context of its own.
pub struct Dependency {
    pub kind: DependencyKind,
    pub request: String,
    pub context: Option<String>,
}

impl Dependency {
    pub fn new(kind: DependencyKind, request: String, context: Option<String>) -> (r: Dependency)
        ensures
            r.kind == kind,
            r.request@ == request@,
            r.context == context,
    {
        Dependency { kind, request, context }
    }

    /// Does this dependency ask for a module to be resolved?
    pub open spec fn is_module_dependency_spec(&self) -> bool {
        self.kind != DependencyKind::Informational
    }

    pub fn as_module_dependency(&self) -> (r: bool)
        ensures
            r == self.is_module_dependency_spec(),
    {
        match self.kind {
            DependencyKind::Informational => false,
            _ => true,
        }
    }

    pub fn request(&self) -> (r: &String)
        ensures
            r@ == self.request@,
    {
        &self.request
    }

    pub fn get_context(&self) -> (r: &Option<String>)
        ensures
            r == &self.context,
    {
        &self.context
    }
}

impl Clone for Dependency {
    fn clone(&self) -> (r: Dependency)
        ensures
            r.kind == self.kind,
            r.request@ == self.request@,
            r.context == self.context,
    {
        Dependency { kind: self.kind, request: self.request.clone(), context: self.context.clone() }
    }
}

} // verus!
