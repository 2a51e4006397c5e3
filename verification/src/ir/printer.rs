//! The printed form of modules.

use super::error::{Error, ErrorModel};
use super::function::{
    block_models, local_models, stmt_models, BasicBlock, BlockModel, BodyModel, Function,
    FunctionBody, FunctionModel,
};
use super::gen::function_gen::done;
use super::link::linked;
use super::module::{Module, Registry};
use super::stmt::{Stmt, StmtModel};
use super::types::{Dtype, DtypeModel, FunctionType, FunctionTypeModel, MemberModel, StructType};
use super::value::{GlobalDef, GlobalDefModel, Local, LocalModel};
use crate::common::text::{
    group_text, i32_to_text, int_text, join_strings, join_text, nat_text, owned, texts,
    usize_to_text,
};
use vstd::prelude::*;
use vstd::string::*;

verus! {

broadcast use group_text;

/// The target for which modules are printed.
pub const TARGET_TRIPLE: &'static str = "aarch64-unknown-linux-gnu";

/// The data layout of the target.
pub const TARGET_DATALAYOUT: &'static str = "e-m:e-i8:8:32-i16:16:32-i64:64-i128:128-n32:64-S128";

/// Why a statement without a text cannot be printed.
pub const UNPRINTABLE: &'static str = "formatter error";

/// The header of a module.
pub open spec fn header_text(triple: Seq<char>, layout: Seq<char>) -> Seq<char> {
    "target triple = \""@ + triple + "\"\n"@ + "target datalayout = \""@ + layout + "\"\n\n"@
}

/// The definition of a struct type.
pub open spec fn struct_text(name: Seq<char>, members: Seq<MemberModel>) -> Seq<char> {
    "%"@ + name + " = type { "@ + join_text(
        Seq::new(members.len(), |i: int| members[i].dtype.text()),
        ", "@,
    ) + " }\n"@
}

/// A global has at most one initializer, unless it is an array.
pub open spec fn initializers_match(def: GlobalDefModel) -> bool {
    def.initializers matches Some(v) ==> def.dtype is Array || v.len() == 1
}

/// The initial value of a global.
pub open spec fn initial_text(def: GlobalDefModel) -> Seq<char> {
    match def.initializers {
        None => if def.dtype is I32 {
            "0"@
        } else {
            "zeroinitializer"@
        },
        Some(v) => match def.dtype {
            DtypeModel::Array(element, _) => "["@ + join_text(
                Seq::new(v.len(), |i: int| element.text() + " "@ + int_text(v[i] as int)),
                ", "@,
            ) + "]"@,
            _ => int_text(v[0] as int),
        },
    }
}

/// The definition of a global.
pub open spec fn global_text(name: Seq<char>, def: GlobalDefModel) -> Seq<char> {
    "@"@ + name + " = dso_local global "@ + def.dtype.text() + " "@ + initial_text(def)
        + ", align 4\n"@
}

/// A parameter of a function definition.
pub open spec fn parameter_text(l: LocalModel) -> Seq<char> {
    (if l.dtype is Pointer {
        "ptr"@
    } else {
        l.dtype.text()
    }) + " %r"@ + nat_text(l.id)
}

/// The lines of the statements up to the first that cannot be printed, and
/// whether there is none such.
pub open spec fn stmts_text(stmts: Seq<StmtModel>) -> (Seq<char>, bool)
    decreases stmts.len(),
{
    if stmts.len() == 0 {
        (Seq::empty(), true)
    } else {
        let (front, ok) = stmts_text(stmts.drop_last());
        match stmts.last().text() {
            Some(t) => if ok {
                (front + t + "\n"@, true)
            } else {
                (front, false)
            },
            None => (front, false),
        }
    }
}

/// The lines of the blocks up to the first statement that cannot be printed,
/// and whether there is none such.
pub open spec fn blocks_text(blocks: Seq<BlockModel>) -> (Seq<char>, bool)
    decreases blocks.len(),
{
    if blocks.len() == 0 {
        (Seq::empty(), true)
    } else {
        let (front, ok) = blocks_text(blocks.drop_last());
        if ok {
            let (body, all) = stmts_text(blocks.last().stmts);
            (front + blocks.last().label.text() + ":\n"@ + body, all)
        } else {
            (front, false)
        }
    }
}

/// The first line of a function definition.
pub open spec fn define_text(name: Seq<char>, ret: DtypeModel, args: Seq<LocalModel>) -> Seq<char> {
    "define dso_local "@ + ret.text() + " @"@ + name + "("@ + join_text(
        Seq::new(args.len(), |i: int| parameter_text(args[i])),
        ", "@,
    ) + ") {\n"@
}

/// The definition of a function, up to the first statement that cannot be
/// printed, and whether there is none such.
pub open spec fn function_text(name: Seq<char>, ret: DtypeModel, body: BodyModel) -> (
    Seq<char>,
    bool,
) {
    let (blocks, ok) = blocks_text(body.blocks);
    if ok {
        (define_text(name, ret, body.arguments) + blocks + "}\n\n"@, true)
    } else {
        (define_text(name, ret, body.arguments) + blocks, false)
    }
}

/// The declaration of a function.
pub open spec fn declare_text(name: Seq<char>, ty: FunctionTypeModel) -> Seq<char> {
    "declare dso_local "@ + ty.return_dtype.text() + " @"@ + name + "("@ + join_text(
        Seq::new(ty.arguments.len(), |i: int| ty.arguments[i].1.text()),
        ", "@,
    ) + ")\n\n"@
}

/// The definitions of the structs with the given names.
pub open spec fn structs_text(
    structs: Map<Seq<char>, Seq<MemberModel>>,
    names: Seq<Seq<char>>,
) -> Seq<char>
    decreases names.len(),
{
    if names.len() == 0 {
        Seq::empty()
    } else {
        structs_text(structs, names.drop_last()) + struct_text(names.last(), structs[names.last()])
    }
}

/// The definitions of the globals with the given names.
pub open spec fn globals_text(
    globals: Map<Seq<char>, GlobalDefModel>,
    names: Seq<Seq<char>>,
) -> Seq<char>
    decreases names.len(),
{
    if names.len() == 0 {
        Seq::empty()
    } else {
        globals_text(globals, names.drop_last()) + global_text(names.last(), globals[names.last()])
    }
}

/// A function that is defined or declared, under the name that the linker
/// sees.
pub open spec fn one_function_text(
    f: FunctionModel,
    types: Map<Seq<char>, FunctionTypeModel>,
    links: Map<Seq<char>, Seq<char>>,
) -> (Seq<char>, Result<(), ErrorModel>) {
    if !types.contains_key(f.identifier) {
        (Seq::empty(), Err(ErrorModel::FunctionNotDefined { symbol: f.identifier }))
    } else {
        match f.body {
            Some(body) => {
                let (t, ok) = function_text(
                    linked(links, f.identifier),
                    types[f.identifier].return_dtype,
                    body,
                );
                (
                    t,
                    if ok {
                        Ok(())
                    } else {
                        Err(ErrorModel::Io { cause: UNPRINTABLE@ })
                    },
                )
            },
            None => (declare_text(linked(links, f.identifier), types[f.identifier]), Ok(())),
        }
    }
}

/// The functions with the given names, up to the first error.
pub open spec fn functions_text(
    functions: Map<Seq<char>, FunctionModel>,
    names: Seq<Seq<char>>,
    types: Map<Seq<char>, FunctionTypeModel>,
    links: Map<Seq<char>, Seq<char>>,
) -> (Seq<char>, Result<(), ErrorModel>)
    decreases names.len(),
{
    if names.len() == 0 {
        (Seq::empty(), Ok(()))
    } else {
        let (front, r) = functions_text(functions, names.drop_last(), types, links);
        match r {
            Err(e) => (front, Err(e)),
            Ok(_) => {
                let (t, last) = one_function_text(functions[names.last()], types, links);
                (front + t, last)
            },
        }
    }
}

/// A whole module, up to the first error.
pub open spec fn module_text(module: Module, registry: Registry) -> (
    Seq<char>,
    Result<(), ErrorModel>,
) {
    let (functions, r) = functions_text(
        module.function_list@,
        module.function_list.names(),
        registry.function_types@,
        registry.link_names@,
    );
    (
        header_text(TARGET_TRIPLE@, TARGET_DATALAYOUT@) + structs_text(
            registry.struct_types@,
            registry.struct_types.names(),
        ) + "\n"@ + globals_text(module.global_list@, module.global_list.names()) + "\n"@
            + functions,
        r,
    )
}

/// Collects the printed form of a module.
pub struct IrPrinter {
    pub out: String,
}

impl IrPrinter {
    /// A printer that has printed nothing.
    pub fn new() -> (p: Self)
        ensures
            p.out@ == Seq::<char>::empty(),
    {
        IrPrinter { out: String::new() }
    }

    /// Prints the header of a module.
    pub fn emit_header(&mut self, target_triple: &str, datalayout: &str)
        ensures
            final(self).out@ == old(self).out@ + header_text(target_triple@, datalayout@),
    {
        self.out.append("target triple = \"");
        self.out.append(target_triple);
        self.out.append("\"\n");
        self.out.append("target datalayout = \"");
        self.out.append(datalayout);
        self.out.append("\"\n\n");
    }

    /// Prints the definition of a struct type.
    pub fn emit_struct_type(&mut self, name: &str, st: &StructType)
        ensures
            final(self).out@ == old(self).out@ + struct_text(name@, st@),
    {
        let mut members: Vec<String> = Vec::new();
        let mut i: usize = 0;
        while i < st.elements.len()
            invariant
                i <= st.elements.len(),
                members.len() == i,
                forall|j: int| 0 <= j < i ==> #[trigger] members@[j]@ == st@[j].dtype.text(),
            decreases st.elements.len() - i,
        {
            members.push(st.elements[i].1.dtype.to_text());
            i = i + 1;
        }
        assert(texts(members@) =~= Seq::new(st@.len(), |i: int| st@[i].dtype.text()));
        self.out.append("%");
        self.out.append(name);
        self.out.append(" = type { ");
        self.out.append(join_strings(&members, ", ").as_str());
        self.out.append(" }\n");
    }

    fn initial_value(def: &GlobalDef) -> (s: String)
        requires
            initializers_match(def@),
        ensures
            s@ == initial_text(def@),
    {
        match &def.initializers {
            None => match &def.dtype {
                Dtype::I32 => owned("0"),
                _ => owned("zeroinitializer"),
            },
            Some(inits) => match &def.dtype {
                Dtype::Array { element, .. } => {
                    let mut elems: Vec<String> = Vec::new();
                    let mut i: usize = 0;
                    while i < inits.len()
                        invariant
                            i <= inits.len(),
                            elems.len() == i,
                            forall|j: int|
                                0 <= j < i ==> #[trigger] elems@[j]@ == element@.text() + " "@
                                    + int_text(inits@[j] as int),
                        decreases inits.len() - i,
                    {
                        let mut s = element.to_text();
                        s.append(" ");
                        s.append(i32_to_text(inits[i]).as_str());
                        elems.push(s);
                        i = i + 1;
                    }
                    assert(texts(elems@) =~= Seq::new(
                        inits@.len(),
                        |i: int| element@.text() + " "@ + int_text(inits@[i] as int),
                    ));
                    let mut s = owned("[");
                    s.append(join_strings(&elems, ", ").as_str());
                    s.append("]");
                    s
                },
                _ => i32_to_text(inits[0]),
            },
        }
    }

    /// Prints the definition of a global.
    pub fn emit_global(&mut self, name: &str, def: &GlobalDef)
        requires
            initializers_match(def@),
        ensures
            final(self).out@ == old(self).out@ + global_text(name@, def@),
    {
        let init = Self::initial_value(def);
        self.out.append("@");
        self.out.append(name);
        self.out.append(" = dso_local global ");
        self.out.append(def.dtype.to_text().as_str());
        self.out.append(" ");
        self.out.append(init.as_str());
        self.out.append(", align 4\n");
    }

    fn emit_stmts(&mut self, stmts: &Vec<Stmt>) -> (ok: bool)
        ensures
            (final(self).out@, ok) == (
                old(self).out@ + stmts_text(stmt_models(stmts@)).0,
                stmts_text(stmt_models(stmts@)).1,
            ),
    {
        let ghost all = stmt_models(stmts@);
        let mut i: usize = 0;
        assert(all.take(0) =~= Seq::empty());
        assert(self.out@ + Seq::<char>::empty() =~= self.out@);
        while i < stmts.len()
            invariant
                i <= stmts.len(),
                all == stmt_models(stmts@),
                stmts_text(all.take(i as int)).1,
                self.out@ == old(self).out@ + stmts_text(all.take(i as int)).0,
            decreases stmts.len() - i,
        {
            assert(all.take(i + 1).drop_last() =~= all.take(i as int));
            assert(all.take(i + 1).last() == stmts@[i as int]@);
            match stmts[i].to_text() {
                Some(t) => {
                    self.out.append(t.as_str());
                    self.out.append("\n");
                },
                None => {
                    proof {
                        lemma_stmts_text_stops(all, i + 1);
                    }
                    return false;
                },
            }
            i = i + 1;
        }
        assert(all.take(i as int) =~= all);
        true
    }

    fn emit_blocks(&mut self, blocks: &Vec<BasicBlock>) -> (ok: bool)
        ensures
            (final(self).out@, ok) == (
                old(self).out@ + blocks_text(block_models(blocks@)).0,
                blocks_text(block_models(blocks@)).1,
            ),
    {
        let ghost all = block_models(blocks@);
        let mut i: usize = 0;
        assert(all.take(0) =~= Seq::empty());
        assert(self.out@ + Seq::<char>::empty() =~= self.out@);
        while i < blocks.len()
            invariant
                i <= blocks.len(),
                all == block_models(blocks@),
                blocks_text(all.take(i as int)).1,
                self.out@ == old(self).out@ + blocks_text(all.take(i as int)).0,
            decreases blocks.len() - i,
        {
            assert(all.take(i + 1).drop_last() =~= all.take(i as int));
            assert(all.take(i + 1).last() == blocks@[i as int]@);
            self.out.append(blocks[i].label.key().as_str());
            self.out.append(":\n");
            if !self.emit_stmts(&blocks[i].stmts) {
                proof {
                    lemma_blocks_text_stops(all, i + 1);
                }
                return false;
            }
            i = i + 1;
        }
        assert(all.take(i as int) =~= all);
        true
    }

    fn parameters_to_text(args: &Vec<Local>) -> (s: String)
        ensures
            s@ == join_text(
                Seq::new(
                    local_models(args@).len(),
                    |i: int| parameter_text(local_models(args@)[i]),
                ),
                ", "@,
            ),
    {
        let ghost models = local_models(args@);
        let mut parts: Vec<String> = Vec::new();
        let mut i: usize = 0;
        while i < args.len()
            invariant
                i <= args.len(),
                models == local_models(args@),
                parts.len() == i,
                forall|j: int| 0 <= j < i ==> #[trigger] parts@[j]@ == parameter_text(models[j]),
            decreases args.len() - i,
        {
            let mut s = if args[i].dtype.is_pointer() {
                owned("ptr")
            } else {
                args[i].dtype.to_text()
            };
            s.append(" %r");
            s.append(usize_to_text(args[i].id.0).as_str());
            parts.push(s);
            i = i + 1;
        }
        assert(texts(parts@) =~= Seq::new(models.len(), |i: int| parameter_text(models[i])));
        join_strings(&parts, ", ")
    }

    /// Prints the definition of a function.
    pub fn emit_function_def(
        &mut self,
        identifier: &str,
        return_dtype: &Dtype,
        body: &FunctionBody,
    ) -> (r: Result<(), Error>)
        ensures
            final(self).out@ == old(self).out@ + function_text(
                identifier@,
                return_dtype@,
                body@,
            ).0,
            done(r) == if function_text(identifier@, return_dtype@, body@).1 {
                Ok::<(), ErrorModel>(())
            } else {
                Err(ErrorModel::Io { cause: UNPRINTABLE@ })
            },
    {
        self.out.append("define dso_local ");
        self.out.append(return_dtype.to_text().as_str());
        self.out.append(" @");
        self.out.append(identifier);
        self.out.append("(");
        self.out.append(Self::parameters_to_text(&body.arguments).as_str());
        self.out.append(") {\n");
        if !self.emit_blocks(&body.blocks) {
            return Err(Error::Io { cause: owned(UNPRINTABLE) });
        }
        self.out.append("}\n\n");
        Ok(())
    }

    /// Prints the declaration of a function.
    pub fn emit_function_decl(&mut self, identifier: &str, func_type: &FunctionType)
        ensures
            final(self).out@ == old(self).out@ + declare_text(identifier@, func_type@),
    {
        let ghost args = func_type@.arguments;
        let mut parts: Vec<String> = Vec::new();
        let mut i: usize = 0;
        while i < func_type.arguments.len()
            invariant
                i <= func_type.arguments.len(),
                args == func_type@.arguments,
                parts.len() == i,
                forall|j: int| 0 <= j < i ==> #[trigger] parts@[j]@ == args[j].1.text(),
            decreases func_type.arguments.len() - i,
        {
            parts.push(func_type.arguments[i].1.to_text());
            i = i + 1;
        }
        assert(texts(parts@) =~= Seq::new(args.len(), |i: int| args[i].1.text()));
        self.out.append("declare dso_local ");
        self.out.append(func_type.return_dtype.to_text().as_str());
        self.out.append(" @");
        self.out.append(identifier);
        self.out.append("(");
        self.out.append(join_strings(&parts, ", ").as_str());
        self.out.append(")\n\n");
    }

    /// Prints an empty line.
    pub fn emit_newline(&mut self)
        ensures
            final(self).out@ == old(self).out@ + "\n"@,
    {
        self.out.append("\n");
    }

    fn emit_function(&mut self, f: &Function, registry: &Registry) -> (r: Result<(), Error>)
        requires
            registry.wf(),
        ensures
            final(self).out@ == old(self).out@ + one_function_text(
                f@,
                registry.function_types@,
                registry.link_names@,
            ).0,
            done(r) == one_function_text(f@, registry.function_types@, registry.link_names@).1,
    {
        let link = registry.link_name(f.identifier.as_str());
        match registry.function_types.get(f.identifier.as_str()) {
            None => {
                assert(self.out@ + Seq::<char>::empty() =~= self.out@);
                Err(Error::FunctionNotDefined { symbol: f.identifier.clone() })
            },
            Some(t) => match &f.body {
                Some(body) => self.emit_function_def(link.as_str(), &t.return_dtype, body),
                None => {
                    self.emit_function_decl(link.as_str(), t);
                    Ok(())
                },
            },
        }
    }

    fn emit_structs(&mut self, registry: &Registry)
        requires
            registry.wf(),
        ensures
            final(self).out@ == old(self).out@ + structs_text(
                registry.struct_types@,
                registry.struct_types.names(),
            ),
    {
        let ghost head = self.out@;
        let ghost structs = registry.struct_types@;
        let ghost names = registry.struct_types.names();
        let mut i: usize = 0;
        assert(names.take(0) =~= Seq::empty());
        assert(head + Seq::<char>::empty() =~= head);
        while i < registry.struct_types.len()
            invariant
                i <= names.len(),
                registry.wf(),
                structs == registry.struct_types@,
                names == registry.struct_types.names(),
                self.out@ == head + structs_text(structs, names.take(i as int)),
            decreases names.len() - i,
        {
            assert(names.take(i + 1).drop_last() =~= names.take(i as int));
            self.emit_struct_type(
                registry.struct_types.name_at(i).as_str(),
                registry.struct_types.value_at(i),
            );
            i = i + 1;
        }
        assert(names.take(i as int) =~= names);
    }

    fn emit_globals(&mut self, module: &Module)
        requires
            module.wf(),
            forall|n: Seq<char>|
                module.global_list@.contains_key(n) ==> initializers_match(
                    #[trigger] module.global_list@[n],
                ),
        ensures
            final(self).out@ == old(self).out@ + globals_text(
                module.global_list@,
                module.global_list.names(),
            ),
    {
        let ghost head = self.out@;
        let ghost globals = module.global_list@;
        let ghost names = module.global_list.names();
        let mut i: usize = 0;
        assert(names.take(0) =~= Seq::empty());
        assert(head + Seq::<char>::empty() =~= head);
        while i < module.global_list.len()
            invariant
                i <= names.len(),
                module.wf(),
                globals == module.global_list@,
                names == module.global_list.names(),
                forall|n: Seq<char>|
                    globals.contains_key(n) ==> initializers_match(#[trigger] globals[n]),
                self.out@ == head + globals_text(globals, names.take(i as int)),
            decreases names.len() - i,
        {
            assert(names.take(i + 1).drop_last() =~= names.take(i as int));
            let def = module.global_list.value_at(i);
            assert(globals.contains_key(names[i as int])) by {
                module.global_list.lemma_names();
            }
            self.emit_global(module.global_list.name_at(i).as_str(), def);
            i = i + 1;
        }
        assert(names.take(i as int) =~= names);
    }

    fn emit_functions(&mut self, module: &Module, registry: &Registry) -> (r: Result<(), Error>)
        requires
            module.wf(),
            registry.wf(),
        ensures
            final(self).out@ == old(self).out@ + functions_text(
                module.function_list@,
                module.function_list.names(),
                registry.function_types@,
                registry.link_names@,
            ).0,
            done(r) == functions_text(
                module.function_list@,
                module.function_list.names(),
                registry.function_types@,
                registry.link_names@,
            ).1,
    {
        let ghost head = self.out@;
        let ghost functions = module.function_list@;
        let ghost names = module.function_list.names();
        let ghost types = registry.function_types@;
        let ghost links = registry.link_names@;
        let mut k: usize = 0;
        assert(names.take(0) =~= Seq::empty());
        assert(head + Seq::<char>::empty() =~= head);
        while k < module.function_list.len()
            invariant
                k <= names.len(),
                module.wf(),
                registry.wf(),
                head == old(self).out@,
                functions == module.function_list@,
                names == module.function_list.names(),
                types == registry.function_types@,
                links == registry.link_names@,
                functions_text(functions, names.take(k as int), types, links).1 is Ok,
                self.out@ == head + functions_text(functions, names.take(k as int), types, links).0,
            decreases names.len() - k,
        {
            assert(names.take(k + 1).drop_last() =~= names.take(k as int));
            match self.emit_function(module.function_list.value_at(k), registry) {
                Ok(_) => {},
                Err(e) => {
                    proof {
                        lemma_functions_text_stops(functions, names, types, links, k + 1);
                    }
                    return Err(e);
                },
            }
            k = k + 1;
        }
        assert(names.take(k as int) =~= names);
        Ok(())
    }

    /// Prints a whole module.
    pub fn emit_module(&mut self, module: &Module, registry: &Registry) -> (r: Result<(), Error>)
        requires
            module.wf(),
            registry.wf(),
            forall|n: Seq<char>|
                module.global_list@.contains_key(n) ==> initializers_match(
                    #[trigger] module.global_list@[n],
                ),
        ensures
            final(self).out@ == old(self).out@ + module_text(*module, *registry).0,
            done(r) == module_text(*module, *registry).1,
    {
        self.emit_header(TARGET_TRIPLE, TARGET_DATALAYOUT);
        self.emit_structs(registry);
        self.emit_newline();
        self.emit_globals(module);
        self.emit_newline();
        self.emit_functions(module, registry)
    }
}

proof fn lemma_stmts_text_stops(stmts: Seq<StmtModel>, k: int)
    requires
        0 <= k <= stmts.len(),
        !stmts_text(stmts.take(k)).1,
    ensures
        stmts_text(stmts) == stmts_text(stmts.take(k)),
    decreases stmts.len() - k,
{
    if k < stmts.len() {
        assert(stmts.take(k + 1).drop_last() =~= stmts.take(k));
        lemma_stmts_text_stops(stmts, k + 1);
    } else {
        assert(stmts.take(k) =~= stmts);
    }
}

proof fn lemma_blocks_text_stops(blocks: Seq<BlockModel>, k: int)
    requires
        0 <= k <= blocks.len(),
        !blocks_text(blocks.take(k)).1,
    ensures
        blocks_text(blocks) == blocks_text(blocks.take(k)),
    decreases blocks.len() - k,
{
    if k < blocks.len() {
        assert(blocks.take(k + 1).drop_last() =~= blocks.take(k));
        lemma_blocks_text_stops(blocks, k + 1);
    } else {
        assert(blocks.take(k) =~= blocks);
    }
}

proof fn lemma_functions_text_stops(
    functions: Map<Seq<char>, FunctionModel>,
    names: Seq<Seq<char>>,
    types: Map<Seq<char>, FunctionTypeModel>,
    links: Map<Seq<char>, Seq<char>>,
    k: int,
)
    requires
        0 <= k <= names.len(),
        functions_text(functions, names.take(k), types, links).1 is Err,
    ensures
        functions_text(functions, names, types, links) == functions_text(
            functions,
            names.take(k),
            types,
            links,
        ),
    decreases names.len() - k,
{
    if k < names.len() {
        assert(names.take(k + 1).drop_last() =~= names.take(k));
        lemma_functions_text_stops(functions, names, types, links, k + 1);
    } else {
        assert(names.take(k) =~= names);
    }
}

} // verus!
