use vstd::prelude::*;

use crate::dependency::{Dependency, DependencyKind};
use crate::module::{BuildContext, BuildResult, Module};

verus! {

/// One input file as the module factory knows it: its path, what it imports
/// and the code it generates.
pub struct SourceFile {
    pub path: String,
    pub context: Option<String>,
    pub imports: Vec<String>,
    pub source: String,
    /// Set when building this file fails, with the reason.
    pub build_error: Option<String>,
}

/// Resolution of a request found no file.
pub struct ResolveError {
    pub request: String,
}

/// Building a module failed.
pub struct BuildError {
    pub path: String,
    pub message: String,
}

/// Turns requests into modules and builds them, from a table of known files.
pub struct ModuleFactory {
    pub files: Vec<SourceFile>,
}

/// `i` is the first file whose path is `p`.
pub open spec fn first_with_path(files: Seq<SourceFile>, p: Seq<char>, i: int) -> bool {
    &&& 0 <= i < files.len()
    &&& files[i].path@ == p
    &&& forall|j: int| 0 <= j < i ==> (#[trigger] files[j].path)@ != p
}

/// Some file has path `p`.
pub open spec fn resolvable(files: Seq<SourceFile>, p: Seq<char>) -> bool {
    exists|i: int| 0 <= i < files.len() && (#[trigger] files[i].path)@ == p
}

/// The dependencies a successful build of `f` discovers, one static import per import.
pub open spec fn discovered(f: SourceFile, deps: Seq<Dependency>) -> bool {
    &&& deps.len() == f.imports@.len()
    &&& forall|k: int|
        0 <= k < deps.len() ==> {
            &&& (#[trigger] deps[k]).kind == DependencyKind::StaticImport
            &&& deps[k].request@ == f.imports@[k]@
            &&& deps[k].context is None
        }
}

impl ModuleFactory {
    pub fn new(files: Vec<SourceFile>) -> (r: ModuleFactory)
        ensures
            r.files@ == files@,
    {
        ModuleFactory { files }
    }

    /// Finds the first file whose path is `request`.
    pub fn resolve(&self, request: &String) -> (r: Result<usize, ResolveError>)
        ensures
            match r {
                Ok(i) => first_with_path(self.files@, request@, i as int),
                Err(e) => !resolvable(self.files@, request@) && e.request@ == request@,
            },
    {
        let mut i: usize = 0;
        while i < self.files.len()
            invariant
                i <= self.files@.len(),
                forall|j: int| 0 <= j < i ==> (#[trigger] self.files@[j].path)@ != request@,
            decreases self.files@.len() - i,
        {
            if self.files[i].path == *request {
                return Ok(i);
            }
            i = i + 1;
        }
        Err(ResolveError { request: request.clone() })
    }

    /// The module for file `file`, resolved in context `resolved_in`.
    pub fn create_module(&self, file: usize, resolved_in: String) -> (m: Module)
        requires
            file < self.files@.len(),
        ensures
            m.path@ == self.files@[file as int].path@,
            m.context == self.files@[file as int].context,
            m.source@ == self.files@[file as int].source@,
            m.resolved_in@ == resolved_in@,
    {
        let f = &self.files[file];
        Module {
            path: f.path.clone(),
            context: f.context.clone(),
            resolved_in,
            source: f.source.clone(),
        }
    }

    /// Builds file `file`: its imports, or its build error. A table of known files
    /// needs nothing from the build context.
    pub fn build(&self, file: usize, build_context: &BuildContext) -> (r: Result<BuildResult, BuildError>)
        requires
            file < self.files@.len(),
        ensures
            match r {
                Ok(b) => self.files@[file as int].build_error is None
                    && discovered(self.files@[file as int], b.dependencies@),
                Err(e) => self.files@[file as int].build_error is Some
                    && e.path@ == self.files@[file as int].path@
                    && e.message@ == self.files@[file as int].build_error->0@,
            },
    {
        let f = &self.files[file];
        match &f.build_error {
            Some(message) => Err(BuildError { path: f.path.clone(), message: message.clone() }),
            None => {
                let mut dependencies: Vec<Dependency> = Vec::new();
                let mut k: usize = 0;
                while k < f.imports.len()
                    invariant
                        k <= f.imports@.len(),
                        dependencies@.len() == k,
                        forall|q: int|
                            0 <= q < k ==> {
                                &&& (#[trigger] dependencies@[q]).kind == DependencyKind::StaticImport
                                &&& dependencies@[q].request@ == f.imports@[q]@
                                &&& dependencies@[q].context is None
                            },
                    decreases f.imports@.len() - k,
                {
                    dependencies.push(
                        Dependency::new(DependencyKind::StaticImport, f.imports[k].clone(), None),
                    );
                    k = k + 1;
                }
                Ok(BuildResult { dependencies })
            },
        }
    }
}

} // verus!
