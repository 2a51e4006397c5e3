//! The intermediate representation.

pub mod error;
pub mod execution;
pub mod function;
pub mod gen;
pub mod link;
pub mod module;
pub mod operands;
pub mod pass;
pub mod printer;
pub mod stmt;
pub mod types;
pub mod value;

use crate::ast::program::Program;
use crate::experimental::return_infer::ReturnInferPass;
use module::{Header, IrGenerator, Unit};
use vstd::prelude::*;

verus! {

/// The passes that run by default: the inference of return types, where it is
/// switched on.
pub open spec fn default_passes(infer_returns: bool) -> Seq<ReturnInferPass> {
    if infer_returns {
        seq![ReturnInferPass]
    } else {
        Seq::empty()
    }
}

/// Appends the passes that run by default.
pub fn install_default_passes(gen: &mut IrGenerator<'_, ReturnInferPass>, infer_returns: bool)
    ensures
        final(gen).module_passes.list() == old(gen).module_passes.list() + default_passes(
            infer_returns,
        ),
        final(gen).input == old(gen).input,
        final(gen).headers == old(gen).headers,
        final(gen).module == old(gen).module,
        final(gen).registry == old(gen).registry,
{
    let ghost before = gen.module_passes.list();
    if infer_returns {
        gen.add_module_pass(ReturnInferPass);
        assert(before.push(ReturnInferPass) =~= before + seq![ReturnInferPass]);
    } else {
        assert(before + Seq::<ReturnInferPass>::empty() =~= before);
    }
}

impl<'a> IrGenerator<'a, ReturnInferPass> {
    /// A generator with the passes that run by default.
    pub fn with_default_passes(
        input: &'a Program,
        headers: &'a Vec<Header>,
        infer_returns: bool,
    ) -> (g: Self)
        ensures
            g.wf(),
            g.unit() == Unit::empty(),
            g.unit().sound(),
            *g.input == *input,
            g.headers@ == headers@,
            g.module_passes.list() == default_passes(infer_returns),
    {
        let mut g = IrGenerator::new(input, headers);
        install_default_passes(&mut g, infer_returns);
        proof {
            assert(Seq::<ReturnInferPass>::empty() + default_passes(infer_returns)
                =~= default_passes(infer_returns));
        }
        g
    }
}

} // verus!
