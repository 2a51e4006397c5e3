//! Passes over a whole program, and pipelines of them.

use super::error::{Error, ErrorModel};
use super::module::{IrGenerator, Unit};
use crate::ast::program::Program;
use vstd::prelude::*;

verus! {

/// A pass over a whole program.
pub trait ModulePass: Sized {
    /// What the pass makes of the tables of a program.
    spec fn outcome(&self, input: Program, before: Unit) -> Result<Unit, ErrorModel>;

    /// What the pass leaves of the tables of a program where it fails.
    spec fn left(&self, input: Program, before: Unit) -> Unit;

    /// Runs the pass.
    fn run<Q>(&self, gen: &mut IrGenerator<'_, Q>) -> (r: Result<(), Error>)
        requires
            old(gen).wf(),
            old(gen).unit().sound(),
        ensures
            final(gen).wf(),
            final(gen).input == old(gen).input,
            final(gen).headers == old(gen).headers,
            final(gen).module_passes == old(gen).module_passes,
            match r {
                Ok(_) => final(gen).unit().sound() && self.outcome(*old(gen).input, old(gen).unit())
                    == Ok::<Unit, ErrorModel>(final(gen).unit()),
                Err(e) => self.outcome(*old(gen).input, old(gen).unit()) == Err::<Unit, ErrorModel>(
                    e@,
                ) && final(gen).unit() == self.left(*old(gen).input, old(gen).unit()),
            },
    ;
}

/// Passes that run one after the other.
pub struct ModulePassManager<P> {
    passes: Vec<P>,
}

/// What the first `n` passes make of the tables of a program, up to the first
/// error.
pub open spec fn passed<P: ModulePass>(
    passes: Seq<P>,
    input: Program,
    before: Unit,
    n: nat,
) -> Result<Unit, ErrorModel>
    decreases n,
{
    if n == 0 {
        Ok(before)
    } else {
        match passed(passes, input, before, (n - 1) as nat) {
            Err(e) => Err(e),
            Ok(u) => passes[n - 1].outcome(input, u),
        }
    }
}

/// What the first failing one of the first `n` passes leaves.
pub open spec fn passed_left<P: ModulePass>(
    passes: Seq<P>,
    input: Program,
    before: Unit,
    n: nat,
) -> Unit
    decreases n,
{
    if n == 0 {
        before
    } else {
        match passed(passes, input, before, (n - 1) as nat) {
            Err(_) => passed_left(passes, input, before, (n - 1) as nat),
            Ok(u) => passes[n - 1].left(input, u),
        }
    }
}

/// The first error is the error of the pipeline.
pub proof fn lemma_passed_stops<P: ModulePass>(
    passes: Seq<P>,
    input: Program,
    before: Unit,
    k: nat,
    n: nat,
)
    requires
        k <= n,
        passed(passes, input, before, k) is Err,
    ensures
        passed(passes, input, before, n) == passed(passes, input, before, k),
        passed_left(passes, input, before, n) == passed_left(passes, input, before, k),
    decreases n - k,
{
    if k < n {
        lemma_passed_stops(passes, input, before, k + 1, n);
    }
}

impl<P> ModulePassManager<P> {
    /// The passes in the order in which they run.
    pub closed spec fn list(&self) -> Seq<P> {
        self.passes@
    }

    /// A pipeline without passes.
    pub fn new() -> (m: Self)
        ensures
            m.list() == Seq::<P>::empty(),
    {
        ModulePassManager { passes: Vec::new() }
    }

    /// Appends a pass.
    pub fn add_pass(&mut self, pass: P)
        ensures
            final(self).list() == old(self).list().push(pass),
    {
        self.passes.push(pass);
    }
}

impl<P: ModulePass> ModulePassManager<P> {
    /// Runs all passes in order, up to the first error.
    pub fn run<Q>(&self, gen: &mut IrGenerator<'_, Q>) -> (r: Result<(), Error>)
        requires
            old(gen).wf(),
            old(gen).unit().sound(),
        ensures
            final(gen).wf(),
            final(gen).input == old(gen).input,
            final(gen).headers == old(gen).headers,
            final(gen).module_passes == old(gen).module_passes,
            match r {
                Ok(_) => final(gen).unit().sound() && passed(
                    self.list(),
                    *old(gen).input,
                    old(gen).unit(),
                    self.list().len(),
                ) == Ok::<Unit, ErrorModel>(final(gen).unit()),
                Err(e) => passed(
                    self.list(),
                    *old(gen).input,
                    old(gen).unit(),
                    self.list().len(),
                ) == Err::<Unit, ErrorModel>(e@) && final(gen).unit() == passed_left(
                    self.list(),
                    *old(gen).input,
                    old(gen).unit(),
                    self.list().len(),
                ),
            },
    {
        let ghost input = *gen.input;
        let ghost before = gen.unit();
        let ghost all = self.list();
        let mut k: usize = 0;
        while k < self.passes.len()
            invariant
                k <= self.passes.len(),
                all == self.passes@,
                input == *old(gen).input,
                before == old(gen).unit(),
                gen.wf(),
                gen.unit().sound(),
                gen.input == old(gen).input,
                gen.headers == old(gen).headers,
                gen.module_passes == old(gen).module_passes,
                passed(all, input, before, k as nat) == Ok::<Unit, ErrorModel>(gen.unit()),
            decreases self.passes.len() - k,
        {
            match self.passes[k].run(gen) {
                Ok(_) => {},
                Err(e) => {
                    proof {
                        lemma_passed_stops(all, input, before, (k + 1) as nat, all.len());
                    }
                    return Err(e);
                },
            }
            k = k + 1;
        }
        Ok(())
    }
}

} // verus!
