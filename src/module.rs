use vstd::prelude::*;

verus! {

/// Index of a module in a module graph; never reused.
pub type ModuleId = usize;

/// The stable identity of a module: its resolved path.
pub struct ModuleIdentifier(pub String);

/// One built input file.
pub struct Module {
    /// Resolved path; two modules of one graph never share it.
    pub path: String,
    /// The module's own context, used to resolve what it imports.
    pub context: Option<String>,
    /// The context the module was resolved in.
    pub resolved_in: String,
    /// What code generation emits for this module.
    pub source: String,
}

impl Module {
    pub fn identifier(&self) -> (r: ModuleIdentifier)
        ensures
            r.0@ == self.path@,
    {
        ModuleIdentifier(self.path.clone())
    }

    pub fn get_context(&self) -> (r: &Option<String>)
        ensures
            r == &self.context,
    {
        &self.context
    }
}

/// What a module's build is handed: the global context of the compilation.
pub struct BuildContext {
    pub context: String,
}

/// What a module build hands back: the dependencies it discovered.
pub struct BuildResult {
    pub dependencies: Vec<crate::dependency::Dependency>,
}

} // verus!
