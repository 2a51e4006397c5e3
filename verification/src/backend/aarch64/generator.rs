//! The assembly of a whole module.

use super::aapcs::OUTGOING_ARG_SLOT_BYTES;
use super::entry::{
    arguments_fit, fetch_arguments, fetched, global_data, global_fits, initial_data, initial_words,
};
use super::frame::{FrameLayout, STACK_ALIGN, STACK_ARG_FP_BASE};
use super::function_generator::{function_code, selectable, AsmFunctionGenerator};
use super::inst::{inst_models, InstModel, Instruction};
use super::limits::can_print;
use super::lines::{all_printable, lines_text, program_lines};
use super::printer::AsmPrinter;
use super::register_allocator::{
    allocatable, allocation, can_allocate, is_allocation, lemma_no_vregs_left,
    lemma_the_allocation, physical, rewritten_all, vregs, Location, RegisterAllocator,
};
use super::selection::{Code, Setting};
use super::{
    function_models, global_models, GeneratedFunction, GeneratedGlobal, GlobalModel,
    ProgramFunction,
};
use crate::backend::common::layout::{
    aligned, layouts_fit, layouts_of, size_fits, LayoutModel, StructLayouts,
};
use crate::backend::common::stack::{
    block_allocas, frame_fits, frame_of, slot_offsets, StackSlot,
};
use crate::backend::error::{outcome, Error, ErrorModel};
use crate::common::generator::Generator;
use crate::common::names::NameMap;
use crate::common::target::{symbol_text, Target};
use crate::ir::function::{BlockModel, BodyModel, Function, FunctionBody, FunctionModel};
use crate::ir::link::linked;
use crate::ir::module::{Module, Registry};
use crate::ir::value::{GlobalDef, GlobalDefModel};
use vstd::prelude::*;
use vstd::string::*;

verus! {

/// The slots with the given offsets.
pub open spec fn slots_at(offsets: Map<usize, int>) -> Map<usize, StackSlot> {
    offsets.map_values(|o: int| StackSlot { offset_from_fp: o as i64 })
}

/// The frame of a function before its registers are allocated: the offsets of
/// the slots, and the size.
pub open spec fn first_frame(
    blocks: Seq<BlockModel>,
    layouts: Map<Seq<char>, LayoutModel>,
) -> Result<(Map<usize, int>, int), ErrorModel> {
    match block_allocas(blocks) {
        Err(e) => Err(e),
        Ok(allocas) => frame_of(allocas, layouts),
    }
}

/// What the selection for a function depends on.
pub open spec fn setting_of(
    name: Seq<char>,
    slots: Map<usize, int>,
    layouts: Map<Seq<char>, LayoutModel>,
    target: Target,
) -> Setting {
    Setting { func: name, allocas: slots_at(slots), layouts, target }
}

/// Where the selection for a function starts.
pub open spec fn no_code(next: nat) -> Code {
    Code { insts: Seq::empty(), next, conds: Map::empty() }
}

/// The instructions of a function with virtual registers, and the size of its
/// frame: the arguments are fetched, then comes what is selected for the body.
pub open spec fn stream(
    name: Seq<char>,
    body: BodyModel,
    layouts: Map<Seq<char>, LayoutModel>,
    target: Target,
) -> Result<(Seq<InstModel>, int), ErrorModel> {
    match first_frame(body.blocks, layouts) {
        Err(e) => Err(e),
        Ok((slots, size)) => match fetched(body.arguments) {
            Err(e) => Err(e),
            Ok(fetches) => match function_code(
                setting_of(name, slots, layouts, target),
                no_code(body.next_vreg),
                body.blocks,
            ) {
                Err(e) => Err(e),
                Ok(code) => Ok((fetches + code.insts, size)),
            },
        },
    }
}

/// What a function must be for its instructions to be generated: up to the
/// first error, each stage is given what it accepts.  Sizes, offsets and
/// register numbers stay within the machine's integers, branches lead to
/// blocks of the function, and nothing needs floating point.
pub open spec fn function_fits(
    name: Seq<char>,
    body: BodyModel,
    layouts: Map<Seq<char>, LayoutModel>,
    target: Target,
) -> bool {
    &&& block_allocas(body.blocks) matches Ok(allocas) ==> frame_fits(allocas, layouts)
    &&& first_frame(body.blocks, layouts) matches Ok((slots, _)) ==> {
        &&& body.arguments.len() * OUTGOING_ARG_SLOT_BYTES + STACK_ARG_FP_BASE <= i64::MAX
        &&& fetched(body.arguments) is Ok ==> selectable(
            setting_of(name, slots, layouts, target),
            body.next_vreg,
            body.blocks,
        )
    }
    &&& stream(name, body, layouts, target) matches Ok((insts, size)) ==> {
        &&& allocatable(insts)
        &&& size + 16 * (vregs(insts).len() + 1) <= i64::MAX
    }
}

/// A function in assembly: its instructions with the registers of the
/// allocation, under the symbol that the linker sees, with a frame that holds
/// the spilled registers too.
pub open spec fn assembled_function(
    name: Seq<char>,
    body: BodyModel,
    layouts: Map<Seq<char>, LayoutModel>,
    links: Map<Seq<char>, Seq<char>>,
    target: Target,
) -> Result<ProgramFunction, ErrorModel> {
    match stream(name, body, layouts, target) {
        Err(e) => Err(e),
        Ok((insts, size)) => {
            let (alloc, end) = allocation(insts, size);
            match rewritten_all(alloc, insts) {
                Err(e) => Err(e),
                Ok(out) => Ok(
                    ProgramFunction {
                        symbol: symbol_text(target, linked(links, name)),
                        frame_size: aligned(end, STACK_ALIGN as int),
                        insts: out,
                        uses_fp: false,
                    },
                ),
            }
        },
    }
}

/// `f` is the assembly of a function: its instructions are those that fetch the
/// arguments and those that are selected for the body, with the registers of
/// an allocation, and its frame ends where that allocation ends.
pub open spec fn is_assembly(
    name: Seq<char>,
    body: BodyModel,
    layouts: Map<Seq<char>, LayoutModel>,
    links: Map<Seq<char>, Seq<char>>,
    target: Target,
    f: ProgramFunction,
) -> bool {
    &&& f.symbol == symbol_text(target, linked(links, name))
    &&& !f.uses_fp
    &&& stream(name, body, layouts, target) matches Ok((insts, size)) && exists|
        alloc: Map<usize, Location>,
        end: int,
    | #[trigger]
        is_allocation(insts, size, alloc, end) && rewritten_all(alloc, insts) == Ok::<
            Seq<InstModel>,
            ErrorModel,
        >(f.insts) && f.frame_size == aligned(end, STACK_ALIGN as int)
}

/// The globals with the given names in assembly.
pub open spec fn assembled_globals(
    defs: Map<Seq<char>, GlobalDefModel>,
    names: Seq<Seq<char>>,
    layouts: Map<Seq<char>, LayoutModel>,
    target: Target,
) -> Result<Seq<GlobalModel>, ErrorModel>
    decreases names.len(),
{
    if names.len() == 0 {
        Ok(Seq::empty())
    } else {
        match assembled_globals(defs, names.drop_last(), layouts, target) {
            Err(e) => Err(e),
            Ok(front) => match initial_data(defs[names.last()], layouts) {
                Err(e) => Err(e),
                Ok(data) => Ok(
                    front.push(GlobalModel { symbol: symbol_text(target, names.last()), data }),
                ),
            },
        }
    }
}

/// The sizes of the globals with the given names stay within the machine's
/// integers, up to the first error.
pub open spec fn globals_fit(
    defs: Map<Seq<char>, GlobalDefModel>,
    names: Seq<Seq<char>>,
    layouts: Map<Seq<char>, LayoutModel>,
    target: Target,
) -> bool
    decreases names.len(),
{
    names.len() > 0 ==> {
        let def = defs[names.last()];
        &&& globals_fit(defs, names.drop_last(), layouts, target)
        &&& assembled_globals(defs, names.drop_last(), layouts, target) is Ok ==> size_fits(
            def.dtype,
            layouts,
        ) && 4 * initial_words(def).len() <= i64::MAX
    }
}

/// The functions with the given names in assembly; those without a body are
/// left out.
pub open spec fn assembled_functions(
    entries: Map<Seq<char>, FunctionModel>,
    names: Seq<Seq<char>>,
    layouts: Map<Seq<char>, LayoutModel>,
    links: Map<Seq<char>, Seq<char>>,
    target: Target,
) -> Result<Seq<ProgramFunction>, ErrorModel>
    decreases names.len(),
{
    if names.len() == 0 {
        Ok(Seq::empty())
    } else {
        match assembled_functions(entries, names.drop_last(), layouts, links, target) {
            Err(e) => Err(e),
            Ok(front) => match entries[names.last()].body {
                None => Ok(front),
                Some(body) => match assembled_function(
                    names.last(),
                    body,
                    layouts,
                    links,
                    target,
                ) {
                    Err(e) => Err(e),
                    Ok(f) => Ok(front.push(f)),
                },
            },
        }
    }
}

/// The functions with the given names can be generated, up to the first error.
pub open spec fn functions_fit(
    entries: Map<Seq<char>, FunctionModel>,
    names: Seq<Seq<char>>,
    layouts: Map<Seq<char>, LayoutModel>,
    links: Map<Seq<char>, Seq<char>>,
    target: Target,
) -> bool
    decreases names.len(),
{
    names.len() > 0 ==> {
        &&& functions_fit(entries, names.drop_last(), layouts, links, target)
        &&& assembled_functions(entries, names.drop_last(), layouts, links, target) is Ok ==> (
        entries[names.last()].body matches Some(body) ==> function_fits(
            names.last(),
            body,
            layouts,
            target,
        ))
    }
}

/// A module in assembly: its globals and its functions.
pub open spec fn assembled(module: Module, registry: Registry, target: Target) -> Result<
    (Seq<GlobalModel>, Seq<ProgramFunction>),
    ErrorModel,
> {
    match layouts_of(registry.struct_types@, registry.struct_types.names()) {
        Err(e) => Err(e),
        Ok(layouts) => match assembled_globals(
            module.global_list@,
            module.global_list.names(),
            layouts,
            target,
        ) {
            Err(e) => Err(e),
            Ok(globals) => match assembled_functions(
                module.function_list@,
                module.function_list.names(),
                layouts,
                registry.link_names@,
                target,
            ) {
                Err(e) => Err(e),
                Ok(functions) => Ok((globals, functions)),
            },
        },
    }
}

/// The module can be generated, up to the first error: its sizes stay within
/// the machine's integers, and so do its functions, which are well formed.
pub open spec fn module_fits(module: Module, registry: Registry, target: Target) -> bool {
    &&& layouts_fit(registry.struct_types@, registry.struct_types.names())
    &&& layouts_of(registry.struct_types@, registry.struct_types.names()) matches Ok(layouts) ==> {
        &&& globals_fit(module.global_list@, module.global_list.names(), layouts, target)
        &&& assembled_globals(
            module.global_list@,
            module.global_list.names(),
            layouts,
            target,
        ) is Ok ==> functions_fit(
            module.function_list@,
            module.function_list.names(),
            layouts,
            registry.link_names@,
            target,
        )
    }
}

proof fn lemma_slots_at(slots: Map<usize, StackSlot>)
    ensures
        slots_at(slot_offsets(slots)) == slots,
{
    assert(slots_at(slot_offsets(slots)) =~= slots);
}

/// A function in assembly, or nothing where a stage does not accept what it is
/// given.
pub fn checked_function(
    name: &str,
    body: &FunctionBody,
    layouts: &StructLayouts,
    registry: &Registry,
    target: Target,
) -> (r: Option<Result<GeneratedFunction, Error>>)
    requires
        layouts.wf(),
        registry.wf(),
    ensures
        r is Some == function_fits(name@, body@, layouts@, target),
        r matches Some(f) ==> outcome(f) == assembled_function(
            name@,
            body@,
            layouts@,
            registry.link_names@,
            target,
        ),
        r matches Some(Ok(f)) ==> is_assembly(
            name@,
            body@,
            layouts@,
            registry.link_names@,
            target,
            f@,
        ),
{
    let blocks = body.blocks.as_slice();
    if !FrameLayout::fits(blocks, layouts) {
        return None;
    }
    let mut frame = match FrameLayout::from_blocks(blocks, layouts) {
        Ok(frame) => frame,
        Err(e) => {
            return Some(Err(e));
        },
    };
    proof {
        lemma_slots_at(frame.allocas());
    }
    if !arguments_fit(&body.arguments) {
        return None;
    }
    let mut insts: Vec<Instruction> = match fetch_arguments(&body.arguments) {
        Ok(insts) => insts,
        Err(e) => {
            return Some(Err(e));
        },
    };
    let ghost fetches = inst_models(insts@);
    let generator = AsmFunctionGenerator::new(name, &frame, layouts, target, body.next_vreg);
    if !generator.can_generate(blocks) {
        return None;
    }
    let mut selected = match generator.generate(blocks) {
        Ok(selected) => selected,
        Err(e) => {
            return Some(Err(e));
        },
    };
    let ghost chosen = inst_models(selected@);
    insts.append(&mut selected);
    let ghost size = frame.bytes();
    let ghost all = inst_models(insts@);
    assert(all =~= fetches + chosen);
    assert(stream(name@, body@, layouts@, target) == Ok::<(Seq<InstModel>, int), ErrorModel>(
        (all, size),
    ));
    if !can_allocate(insts.as_slice(), &frame) {
        return None;
    }
    let out = RegisterAllocator::new(insts.as_slice(), &mut frame).run();
    proof {
        let end = frame.bytes();
        let alloc = choose|alloc: Map<usize, Location>| #[trigger]
            is_allocation(all, size, alloc, end) && rewritten_all(alloc, all) == match out {
                Ok(v) => Ok::<Seq<InstModel>, ErrorModel>(inst_models(v@)),
                Err(e) => Err::<Seq<InstModel>, ErrorModel>(e@),
            };
        lemma_the_allocation(all, size, alloc, end);
    }
    match out {
        Err(e) => Some(Err(e)),
        Ok(insts) => Some(
            Ok(
                GeneratedFunction {
                    symbol: target.mangle_symbol(registry.link_name(name).as_str()),
                    frame_size: frame.frame_size_aligned(),
                    insts,
                    uses_fp: false,
                },
            ),
        ),
    }
}

/// A function in assembly.
pub fn generate_function(
    name: &str,
    body: &FunctionBody,
    layouts: &StructLayouts,
    registry: &Registry,
    target: Target,
) -> (r: Result<GeneratedFunction, Error>)
    requires
        layouts.wf(),
        registry.wf(),
        function_fits(name@, body@, layouts@, target),
    ensures
        outcome(r) == assembled_function(
            name@,
            body@,
            layouts@,
            registry.link_names@,
            target,
        ),
        r matches Ok(f) ==> is_assembly(
            name@,
            body@,
            layouts@,
            registry.link_names@,
            target,
            f@,
        ),
{
    checked_function(name, body, layouts, registry, target).unwrap()
}

proof fn lemma_globals_stop(
    defs: Map<Seq<char>, GlobalDefModel>,
    names: Seq<Seq<char>>,
    layouts: Map<Seq<char>, LayoutModel>,
    target: Target,
    k: int,
)
    requires
        0 <= k <= names.len(),
    ensures
        assembled_globals(defs, names.take(k), layouts, target) is Err ==> assembled_globals(
            defs,
            names,
            layouts,
            target,
        ) == assembled_globals(defs, names.take(k), layouts, target) && globals_fit(
            defs,
            names,
            layouts,
            target,
        ) == globals_fit(defs, names.take(k), layouts, target),
        !globals_fit(defs, names.take(k), layouts, target) ==> !globals_fit(
            defs,
            names,
            layouts,
            target,
        ),
    decreases names.len() - k,
{
    if k < names.len() {
        assert(names.take(k + 1).drop_last() =~= names.take(k));
        lemma_globals_stop(defs, names, layouts, target, k + 1);
    } else {
        assert(names.take(k) =~= names);
    }
}

proof fn lemma_functions_stop(
    entries: Map<Seq<char>, FunctionModel>,
    names: Seq<Seq<char>>,
    layouts: Map<Seq<char>, LayoutModel>,
    links: Map<Seq<char>, Seq<char>>,
    target: Target,
    k: int,
)
    requires
        0 <= k <= names.len(),
    ensures
        assembled_functions(entries, names.take(k), layouts, links, target) is Err
            ==> assembled_functions(entries, names, layouts, links, target) == assembled_functions(
            entries,
            names.take(k),
            layouts,
            links,
            target,
        ) && functions_fit(entries, names, layouts, links, target) == functions_fit(
            entries,
            names.take(k),
            layouts,
            links,
            target,
        ),
        !functions_fit(entries, names.take(k), layouts, links, target) ==> !functions_fit(
            entries,
            names,
            layouts,
            links,
            target,
        ),
    decreases names.len() - k,
{
    if k < names.len() {
        assert(names.take(k + 1).drop_last() =~= names.take(k));
        lemma_functions_stop(entries, names, layouts, links, target, k + 1);
    } else {
        assert(names.take(k) =~= names);
    }
}

/// No virtual register is left in a function in assembly.
pub proof fn lemma_function_physical(
    name: Seq<char>,
    body: BodyModel,
    layouts: Map<Seq<char>, LayoutModel>,
    links: Map<Seq<char>, Seq<char>>,
    target: Target,
)
    requires
        function_fits(name, body, layouts, target),
    ensures
        assembled_function(name, body, layouts, links, target) matches Ok(f) ==> forall|i: int|
            0 <= i < f.insts.len() ==> physical(#[trigger] f.insts[i]),
{
    if let Ok((insts, size)) = stream(name, body, layouts, target) {
        let (alloc, _) = allocation(insts, size);
        if rewritten_all(alloc, insts) is Ok {
            lemma_no_vregs_left(alloc, insts);
        }
    }
}

/// No virtual register is left in the functions of a module in assembly.
pub proof fn lemma_functions_physical(
    entries: Map<Seq<char>, FunctionModel>,
    names: Seq<Seq<char>>,
    layouts: Map<Seq<char>, LayoutModel>,
    links: Map<Seq<char>, Seq<char>>,
    target: Target,
)
    requires
        functions_fit(entries, names, layouts, links, target),
    ensures
        assembled_functions(entries, names, layouts, links, target) matches Ok(functions)
            ==> forall|k: int, i: int|
            0 <= k < functions.len() && 0 <= i < functions[k].insts.len() ==> physical(
                #[trigger] functions[k].insts[i],
            ),
    decreases names.len(),
{
    if names.len() > 0 {
        lemma_functions_physical(entries, names.drop_last(), layouts, links, target);
        if assembled_functions(entries, names.drop_last(), layouts, links, target) is Ok {
            if let Some(body) = entries[names.last()].body {
                lemma_function_physical(names.last(), body, layouts, links, target);
            }
        }
    }
}

/// The globals of a module in assembly, or nothing where a size leaves the
/// machine's integers.
fn checked_globals(list: &NameMap<GlobalDef>, layouts: &StructLayouts, target: Target) -> (r:
    Option<Result<Vec<GeneratedGlobal>, Error>>)
    requires
        list.wf(),
        layouts.wf(),
    ensures
        r is Some == globals_fit(list@, list.names(), layouts@, target),
        match r {
            Some(Ok(v)) => assembled_globals(list@, list.names(), layouts@, target) == Ok::<
                Seq<GlobalModel>,
                ErrorModel,
            >(global_models(v@)),
            Some(Err(e)) => assembled_globals(list@, list.names(), layouts@, target) == Err::<
                Seq<GlobalModel>,
                ErrorModel,
            >(e@),
            None => true,
        },
{
    let ghost names = list.names();
    let mut globals: Vec<GeneratedGlobal> = Vec::new();
    let mut i: usize = 0;
    assert(names.take(0) =~= Seq::empty());
    assert(global_models(globals@) =~= Seq::empty());
    while i < list.len()
        invariant
            i <= names.len(),
            list.wf(),
            layouts.wf(),
            names == list.names(),
            globals_fit(list@, names.take(i as int), layouts@, target),
            assembled_globals(list@, names.take(i as int), layouts@, target) == Ok::<
                Seq<GlobalModel>,
                ErrorModel,
            >(global_models(globals@)),
        decreases names.len() - i,
    {
        proof {
            assert(names.take(i + 1).drop_last() =~= names.take(i as int));
            assert(names.take(i + 1).last() == names[i as int]);
            lemma_globals_stop(list@, names, layouts@, target, i + 1);
        }
        let def = list.value_at(i);
        if !global_fits(layouts, def) {
            return None;
        }
        let data = match global_data(layouts, def) {
            Ok(data) => data,
            Err(e) => {
                return Some(Err(e));
            },
        };
        let global = GeneratedGlobal {
            symbol: target.mangle_symbol(list.name_at(i).as_str()),
            data,
        };
        let ghost before = global_models(globals@);
        let ghost model = global@;
        globals.push(global);
        assert(global_models(globals@) =~= before.push(model));
        i = i + 1;
    }
    assert(names.take(i as int) =~= names);
    Some(Ok(globals))
}

/// The functions of a module in assembly, or nothing where a stage does not
/// accept what it is given.
fn checked_functions(
    list: &NameMap<Function>,
    layouts: &StructLayouts,
    registry: &Registry,
    target: Target,
) -> (r: Option<Result<Vec<GeneratedFunction>, Error>>)
    requires
        list.wf(),
        layouts.wf(),
        registry.wf(),
    ensures
        r is Some == functions_fit(list@, list.names(), layouts@, registry.link_names@, target),
        match r {
            Some(Ok(v)) => assembled_functions(
                list@,
                list.names(),
                layouts@,
                registry.link_names@,
                target,
            ) == Ok::<Seq<ProgramFunction>, ErrorModel>(function_models(v@)),
            Some(Err(e)) => assembled_functions(
                list@,
                list.names(),
                layouts@,
                registry.link_names@,
                target,
            ) == Err::<Seq<ProgramFunction>, ErrorModel>(e@),
            None => true,
        },
{
    let ghost names = list.names();
    let ghost links = registry.link_names@;
    let mut functions: Vec<GeneratedFunction> = Vec::new();
    let mut i: usize = 0;
    assert(names.take(0) =~= Seq::empty());
    assert(function_models(functions@) =~= Seq::empty());
    while i < list.len()
        invariant
            i <= names.len(),
            list.wf(),
            layouts.wf(),
            registry.wf(),
            names == list.names(),
            links == registry.link_names@,
            functions_fit(list@, names.take(i as int), layouts@, links, target),
            assembled_functions(list@, names.take(i as int), layouts@, links, target) == Ok::<
                Seq<ProgramFunction>,
                ErrorModel,
            >(function_models(functions@)),
        decreases names.len() - i,
    {
        proof {
            assert(names.take(i + 1).drop_last() =~= names.take(i as int));
            assert(names.take(i + 1).last() == names[i as int]);
            lemma_functions_stop(list@, names, layouts@, links, target, i + 1);
        }
        if let Some(body) = &list.value_at(i).body {
            let name = list.name_at(i);
            match checked_function(name.as_str(), body, layouts, registry, target) {
                None => {
                    return None;
                },
                Some(Err(e)) => {
                    return Some(Err(e));
                },
                Some(Ok(f)) => {
                    let ghost before = function_models(functions@);
                    let ghost model = f@;
                    functions.push(f);
                    assert(function_models(functions@) =~= before.push(model));
                },
            }
        }
        i = i + 1;
    }
    assert(names.take(i as int) =~= names);
    Some(Ok(functions))
}

/// Generates the assembly of a module.
pub struct AArch64AsmGenerator<'a> {
    pub module: &'a Module,
    pub registry: &'a Registry,
    pub target: Target,
    /// The globals that were generated.
    pub globals: Vec<GeneratedGlobal>,
    /// The functions that were generated.
    pub functions: Vec<GeneratedFunction>,
}

impl<'a> AArch64AsmGenerator<'a> {
    /// A generator that has generated nothing.
    pub fn new(module: &'a Module, registry: &'a Registry, target: Target) -> (g: Self)
        ensures
            *g.module == *module,
            *g.registry == *registry,
            g.target == target,
            g.globals@.len() == 0,
            g.functions@.len() == 0,
    {
        AArch64AsmGenerator {
            module,
            registry,
            target,
            globals: Vec::new(),
            functions: Vec::new(),
        }
    }

    /// The tables of the module are well formed.
    pub open spec fn wf(&self) -> bool {
        self.module.wf() && self.registry.wf()
    }

    /// Generates the assembly, or does nothing where a stage does not accept
    /// what it is given.
    pub fn generate_checked(&mut self) -> (r: Option<Result<(), Error>>)
        requires
            old(self).wf(),
        ensures
            r is Some == module_fits(*old(self).module, *old(self).registry, old(self).target),
            match r {
                Some(x) => old(self).generates(final(self), x),
                None => *final(self) == *old(self),
            },
    {
        if !StructLayouts::fit(&self.registry.struct_types) {
            return None;
        }
        let layouts = match StructLayouts::from_struct_types(&self.registry.struct_types) {
            Ok(layouts) => layouts,
            Err(e) => {
                return Some(Err(e));
            },
        };
        let globals = match checked_globals(&self.module.global_list, &layouts, self.target) {
            None => {
                return None;
            },
            Some(Err(e)) => {
                return Some(Err(e));
            },
            Some(Ok(globals)) => globals,
        };
        let functions = match checked_functions(
            &self.module.function_list,
            &layouts,
            self.registry,
            self.target,
        ) {
            None => {
                return None;
            },
            Some(Err(e)) => {
                return Some(Err(e));
            },
            Some(Ok(functions)) => functions,
        };
        self.globals = globals;
        self.functions = functions;
        Some(Ok(()))
    }

    /// Whether all that was generated can be printed.
    pub fn can_output(&self) -> (b: bool)
        ensures
            b == self.printable(),
    {
        let mut i: usize = 0;
        while i < self.functions.len()
            invariant
                i <= self.functions.len(),
                forall|k: int|
                    0 <= k < i ==> all_printable(
                        (#[trigger] self.functions@[k])@.insts,
                        self.functions@[k]@.uses_fp,
                    ),
            decreases self.functions.len() - i,
        {
            if !can_print(&self.functions[i]) {
                return false;
            }
            i = i + 1;
        }
        true
    }
}

impl<'a> Generator for AArch64AsmGenerator<'a> {
    type Error = Error;

    open spec fn ready(&self) -> bool {
        self.wf() && module_fits(*self.module, *self.registry, self.target)
    }

    open spec fn generates(&self, after: &Self, r: Result<(), Error>) -> bool {
        &&& after.module == self.module
        &&& after.registry == self.registry
        &&& after.target == self.target
        &&& match r {
            Ok(_) => assembled(*self.module, *self.registry, self.target) == Ok::<
                (Seq<GlobalModel>, Seq<ProgramFunction>),
                ErrorModel,
            >((global_models(after.globals@), function_models(after.functions@))),
            Err(e) => {
                &&& assembled(*self.module, *self.registry, self.target) == Err::<
                    (Seq<GlobalModel>, Seq<ProgramFunction>),
                    ErrorModel,
                >(e@)
                &&& after.globals == self.globals
                &&& after.functions == self.functions
            },
        }
    }

    open spec fn printable(&self) -> bool {
        forall|i: int|
            0 <= i < self.functions@.len() ==> all_printable(
                (#[trigger] self.functions@[i])@.insts,
                self.functions@[i]@.uses_fp,
            )
    }

    open spec fn printed(&self) -> (Seq<char>, bool) {
        (
            lines_text(
                program_lines(
                    self.target,
                    global_models(self.globals@),
                    function_models(self.functions@),
                ),
            ),
            true,
        )
    }

    /// Generates the assembly of all globals and functions.
    fn generate(&mut self) -> (r: Result<(), Error>) {
        self.generate_checked().unwrap()
    }

    /// Prints the listing behind what `out` holds.
    fn output(&self, out: &mut String) -> (r: Result<(), Error>) {
        let mut printer = AsmPrinter::new(self.target);
        printer.emit_program(&self.globals, &self.functions);
        out.append(printer.out.as_str());
        Ok(())
    }
}

} // verus!
