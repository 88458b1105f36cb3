use vstd::prelude::*;

use crate::compiler::context::Context;
use crate::compiler::module::Module;

verus! {

/// Why code generation stopped: it is not written yet.
#[derive(Debug, Clone, Copy, PartialEq, Eq, Structural)]
pub enum GenHalt {
    NotImplemented,
}

/// Generates the object code of one module.
pub struct Generator {
    module: Module,
}

impl Generator {
    /// The module to generate code for.
    pub closed spec fn module(&self) -> Module {
        self.module
    }

    /// A generator for `module`.
    pub fn new(ctx: &Context, module: Module) -> (r: Self)
        requires
            ctx.has_module(module),
        ensures
            r.module() == module,
    {
        Generator { module }
    }

    /// Generating code is not written yet: it always stops.
    pub fn codegen(&mut self) -> (r: Result<(), GenHalt>)
        ensures
            r == Err::<(), GenHalt>(GenHalt::NotImplemented),
    {
        Err(GenHalt::NotImplemented)
    }
}

} // verus!
