//! The driver of the optimizations.

use super::mem2reg::{lemma_room_for_phis, promoted, room_for_phis, Mem2RegPass};
use crate::common::generator::Generator;
use crate::common::pass::{all_accept, is_run, FunctionPass, FunctionPassManager};
use crate::ir::error::Error;
use crate::ir::function::FunctionModel;
use crate::ir::gen::function_gen::done;
use crate::ir::module::{Module, Registry};
use crate::ir::printer::{initializers_match, module_text, IrPrinter};
use vstd::prelude::*;
use vstd::string::*;

verus! {

/// Runs passes over all functions of a module.
pub struct Optimizer<'a, P: FunctionPass> {
    pub passes: FunctionPassManager<P>,
    pub module: &'a mut Module,
    pub registry: &'a Registry,
}

/// The passes one after the other may turn `before` into `after`.
pub open spec fn runs_to<P: FunctionPass>(
    passes: Seq<P>,
    before: FunctionModel,
    after: FunctionModel,
) -> bool {
    exists|states: Seq<FunctionModel>| #[trigger]
        is_run(passes, states) && states[0] == before && states.last() == after
}

/// Every function of `before` has run through the passes in `after`; nothing
/// else changed.
pub open spec fn optimized<P: FunctionPass>(
    passes: Seq<P>,
    before: Module,
    after: Module,
) -> bool {
    &&& after.wf()
    &&& after.global_list == before.global_list
    &&& after.function_list.names() == before.function_list.names()
    &&& after.function_list@.dom() == before.function_list@.dom()
    &&& forall|n: Seq<char>| #[trigger]
        before.function_list@.contains_key(n) ==> runs_to(
            passes,
            before.function_list@[n],
            after.function_list@[n],
        )
}

impl<'a, P: FunctionPass> Optimizer<'a, P> {
    /// The passes in order.
    pub open spec fn pipeline(&self) -> Seq<P> {
        self.passes.list()
    }

    /// The module as it is now.
    pub open spec fn module_now(&self) -> Module {
        *self.module
    }

    /// The types.
    pub open spec fn types(&self) -> Registry {
        *self.registry
    }

    /// An optimizer without passes.
    pub fn new(module: &'a mut Module, registry: &'a Registry) -> (o: Self)
        ensures
            o.pipeline() == Seq::<P>::empty(),
            o.module_now() == *old(module),
            *final(o.module) == *final(module),
            o.types() == *registry,
    {
        let o = Optimizer { passes: FunctionPassManager::new(), module, registry };
        assert(o.pipeline() =~= Seq::<P>::empty());
        o
    }

    /// Appends a pass.
    pub fn add_function_pass(&mut self, pass: P)
        ensures
            final(self).pipeline() == old(self).pipeline().push(pass),
            final(self).module_now() == old(self).module_now(),
            *final(final(self).module) == *final(old(self).module),
            final(self).types() == old(self).types(),
    {
        self.passes.add_pass(pass);
    }
}

impl<'a> Optimizer<'a, Mem2RegPass> {
    /// An optimizer with the default passes.
    pub fn with_default_passes(module: &'a mut Module, registry: &'a Registry) -> (o: Self)
        ensures
            o.pipeline() == default_passes(),
            o.module_now() == *old(module),
            *final(o.module) == *final(module),
            o.types() == *registry,
    {
        let mut o = Self::new(module, registry);
        install_default_passes(&mut o);
        assert(o.pipeline() =~= default_passes());
        o
    }
}

/// The default passes: the promotion of stack variables.
pub open spec fn default_passes() -> Seq<Mem2RegPass> {
    seq![Mem2RegPass]
}

/// Appends the default passes.
pub fn install_default_passes(optimizer: &mut Optimizer<'_, Mem2RegPass>)
    ensures
        final(optimizer).pipeline() == old(optimizer).pipeline() + default_passes(),
        final(optimizer).module_now() == old(optimizer).module_now(),
        *final(final(optimizer).module) == *final(old(optimizer).module),
        final(optimizer).types() == old(optimizer).types(),
{
    optimizer.add_function_pass(Mem2RegPass);
    assert(optimizer.pipeline() =~= old(optimizer).pipeline() + default_passes());
}

/// The branches of the function have targets, and there is room for all phis.
pub open spec fn has_room(f: FunctionModel) -> bool {
    f.body matches Some(body) ==> room_for_phis(body)
}

/// Whether the branches of all functions of a module have targets, and there
/// is room for all phis: then the default passes accept every function.
pub fn can_optimize(module: &Module) -> (b: bool)
    requires
        module.wf(),
    ensures
        b == forall|n: Seq<char>|
            module.function_list@.contains_key(n) ==> has_room(
                #[trigger] module.function_list@[n],
            ),
        b ==> forall|n: Seq<char>| #[trigger]
            module.function_list@.contains_key(n) ==> all_accept(
                default_passes(),
                0,
                module.function_list@[n],
            ),
{
    let functions = &module.function_list;
    let ghost names = functions.names();
    let mut i: usize = 0;
    while i < functions.len()
        invariant
            i <= names.len(),
            functions.wf(),
            *functions == module.function_list,
            names == functions.names(),
            forall|k: int|
                0 <= k < i ==> has_room(functions@[#[trigger] names[k]]),
        decreases names.len() - i,
    {
        proof {
            functions.lemma_names();
            assert(names.contains(names[i as int]));
            assert(functions@.contains_key(names[i as int]));
        }
        if let Some(body) = &functions.value_at(i).body {
            if !Mem2RegPass::can_promote(body) {
                assert(!has_room(module.function_list@[names[i as int]]));
                return false;
            }
        }
        i = i + 1;
    }
    proof {
        functions.lemma_names();
        assert forall|n: Seq<char>|
            module.function_list@.contains_key(n) implies has_room(
            #[trigger] module.function_list@[n],
        ) by {
            assert(names.contains(n));
            let k = choose|k: int| 0 <= k < names.len() && names[k] == n;
            assert(has_room(functions@[names[k]]));
        }
        assert forall|n: Seq<char>| #[trigger]
            module.function_list@.contains_key(n) implies all_accept(
            default_passes(),
            0,
            module.function_list@[n],
        ) by {
            let f = module.function_list@[n];
            assert(has_room(f));
            if let Some(body) = f.body {
                lemma_room_for_phis(body);
            }
            lemma_default_passes(f, f);
        }
    }
    true
}

/// The default passes replace every function by its promoted form.
pub proof fn lemma_default_passes(before: FunctionModel, after: FunctionModel)
    ensures
        all_accept(default_passes(), 0, before) == Mem2RegPass.accepts(before),
        runs_to(default_passes(), before, after) <==> after == promoted(before),
{
    let passes = default_passes();
    reveal_with_fuel(all_accept, 3);
    assert(passes[0] == Mem2RegPass);
    if runs_to(passes, before, after) {
        let states = choose|states: Seq<FunctionModel>| #[trigger]
            is_run(passes, states) && states[0] == before && states.last() == after;
        assert(passes[0].relates(states[0], states[1]));
    }
    if after == promoted(before) {
        let states = seq![before, after];
        assert(is_run(passes, states));
    }
}

impl<'a, P: FunctionPass> Generator for Optimizer<'a, P> {
    type Error = Error;

    open spec fn ready(&self) -> bool {
        &&& self.module_now().wf()
        &&& forall|n: Seq<char>| #[trigger]
            self.module_now().function_list@.contains_key(n) ==> all_accept(
                self.pipeline(),
                0,
                self.module_now().function_list@[n],
            )
    }

    open spec fn generates(&self, after: &Self, r: Result<(), Error>) -> bool {
        &&& r is Ok
        &&& after.pipeline() == self.pipeline()
        &&& after.types() == self.types()
        &&& optimized(self.pipeline(), self.module_now(), after.module_now())
    }

    open spec fn printable(&self) -> bool {
        &&& self.module_now().wf()
        &&& self.types().wf()
        &&& forall|n: Seq<char>|
            self.module_now().global_list@.contains_key(n) ==> initializers_match(
                #[trigger] self.module_now().global_list@[n],
            )
    }

    open spec fn printed(&self) -> (Seq<char>, bool) {
        let t = module_text(self.module_now(), self.types());
        (t.0, t.1 is Ok)
    }

    fn generate(&mut self) -> (r: Result<(), Error>)
        ensures
            *final(final(self).module) == *final(old(self).module),
    {
        let ghost before = *self.module;
        let ghost passes = self.passes.list();
        let n: usize = self.module.function_list.len();
        proof {
            before.function_list.lemma_names();
        }
        let ghost names = before.function_list.names();
        let mut i: usize = 0;
        while i < n
            invariant
                i <= n,
                n == names.len(),
                names == before.function_list.names(),
                names.no_duplicates(),
                forall|k: Seq<char>| #[trigger]
                    names.contains(k) <==> before.function_list@.contains_key(k),
                passes == self.passes.list(),
                self.registry == old(self).registry,
                self.passes == old(self).passes,
                *final(self.module) == *final(old(self).module),
                self.module.wf(),
                self.module.global_list == before.global_list,
                self.module.function_list.names() == names,
                self.module.function_list@.dom() == before.function_list@.dom(),
                forall|k: Seq<char>| #[trigger]
                    before.function_list@.contains_key(k) ==> all_accept(
                        passes,
                        0,
                        before.function_list@[k],
                    ),
                forall|j: int|
                    0 <= j < i ==> runs_to(
                        passes,
                        before.function_list@[#[trigger] names[j]],
                        self.module.function_list@[names[j]],
                    ),
                forall|j: int|
                    i <= j < n ==> self.module.function_list@[#[trigger] names[j]]
                        == before.function_list@[names[j]],
            decreases n - i,
        {
            let ghost mid = self.module.function_list@;
            proof {
                assert(names.contains(names[i as int]));
            }
            let func = self.module.function_list.value_at_mut(i);
            self.passes.run(func);
            proof {
                assert(self.module.function_list@.dom() =~= mid.dom());
            }
            i = i + 1;
        }
        proof {
            assert forall|k: Seq<char>| #[trigger]
                before.function_list@.contains_key(k) implies runs_to(
                passes,
                before.function_list@[k],
                self.module.function_list@[k],
            ) by {
                assert(names.contains(k));
                let j = choose|j: int| 0 <= j < names.len() && names[j] == k;
                assert(names[j] == k);
            }
        }
        Ok(())
    }

    fn output(&self, out: &mut String) -> (r: Result<(), Error>)
        ensures
            done(r) == module_text(self.module_now(), *self.registry).1,
    {
        let mut printer = IrPrinter::new();
        let r = printer.emit_module(&*self.module, self.registry);
        out.append(printer.out.as_str());
        r
    }
}

} // verus!
