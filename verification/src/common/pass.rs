//! Passes over one function, and pipelines of them.

use crate::ir::function::{Function, FunctionModel};
use vstd::prelude::*;

verus! {

/// A pass over one function.
pub trait FunctionPass: Sized {
    /// The pass can run on the function.
    spec fn accepts(&self, func: FunctionModel) -> bool;

    /// The pass may turn `before` into `after`.
    spec fn relates(&self, before: FunctionModel, after: FunctionModel) -> bool;

    /// Runs the pass.
    fn run(&self, func: &mut Function)
        requires
            self.accepts(old(func)@),
        ensures
            self.relates(old(func)@, final(func)@),
    ;
}

/// Passes that run one after the other.
pub struct FunctionPassManager<P: FunctionPass> {
    passes: Vec<P>,
}

/// The passes from position `k` on can run one after the other.
pub open spec fn all_accept<P: FunctionPass>(passes: Seq<P>, k: nat, func: FunctionModel) -> bool
    decreases passes.len() - k,
{
    if k >= passes.len() {
        true
    } else {
        &&& passes[k as int].accepts(func)
        &&& forall|after: FunctionModel| #[trigger]
            passes[k as int].relates(func, after) ==> all_accept(passes, k + 1, after)
    }
}

/// `states` are what the passes make of its first element one after the
/// other.
pub open spec fn is_run<P: FunctionPass>(passes: Seq<P>, states: Seq<FunctionModel>) -> bool {
    &&& states.len() == passes.len() + 1
    &&& forall|k: int|
        0 <= k < passes.len() ==> (#[trigger] passes[k]).relates(states[k], states[k + 1])
}

impl<P: FunctionPass> FunctionPassManager<P> {
    /// The passes in the order in which they run.
    pub closed spec fn list(&self) -> Seq<P> {
        self.passes@
    }

    /// A pipeline without passes.
    pub fn new() -> (m: Self)
        ensures
            m.list().len() == 0,
    {
        FunctionPassManager { passes: Vec::new() }
    }

    /// Appends a pass.
    pub fn add_pass(&mut self, pass: P)
        ensures
            final(self).list() == old(self).list().push(pass),
    {
        self.passes.push(pass);
    }

    /// Runs all passes on a function in order.
    pub fn run(&self, func: &mut Function)
        requires
            all_accept(self.list(), 0, old(func)@),
        ensures
            exists|states: Seq<FunctionModel>| #[trigger]
                is_run(self.list(), states) && states[0] == old(func)@ && states.last() == final(func)@,
    {
        let ghost mut states: Seq<FunctionModel> = seq![func@];
        let mut k: usize = 0;
        while k < self.passes.len()
            invariant
                k <= self.passes.len(),
                states.len() == k + 1,
                states[0] == old(func)@,
                states.last() == func@,
                all_accept(self.passes@, k as nat, func@),
                forall|j: int|
                    0 <= j < k ==> (#[trigger] self.passes@[j]).relates(states[j], states[j + 1]),
            decreases self.passes.len() - k,
        {
            self.passes[k].run(func);
            proof {
                states = states.push(func@);
            }
            k = k + 1;
        }
        assert(is_run(self.list(), states));
    }
}

} // verus!
