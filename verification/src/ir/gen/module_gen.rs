//! The translation of whole programs: imports, names, passes, bodies.

use crate::ast::decl::{
    ArrayInitializer, FnDecl, FnDef, StructDef, VarDecl, VarDeclStmt, VarDeclStmtInner,
    VarDefInner,
};
use crate::ast::expr::RightVal;
use crate::ast::program::{Program, ProgramElement, ProgramElementInner, UseStmt};
use crate::common::cfg::{branches_resolve, falls_through};
use crate::common::generator::Generator;
use crate::common::names::with_name;
use crate::ir::error::{Error, ErrorModel};
use crate::ir::function::{BodyModel, Function, FunctionBody, FunctionModel};
use crate::ir::gen::blocks::{lemma_branches_resolve, lemma_function_blocks};
use crate::ir::gen::conversions::{
    compose_var_decl_dtype, declared, introduced_name, outcome, signature_type, signature_type_as,
    specified, specified_dtype, var_decl_stmt_dtype, var_decl_stmt_type,
};
use crate::ir::gen::function_gen::{done, FunctionGenerator};
use crate::ir::gen::harvest::{harvest_function_irs, harvested};
use crate::ir::gen::lowering::{function_code, stmts_in_range, Context, State};
use crate::ir::gen::static_eval::{handle_right_val_static, right_value};
use crate::ir::gen::type_infer::{function_types, infer_function, known_of, Known};
use crate::ir::link::{compute_link_name, link_name};
use crate::ir::module::{unit_of, Header, IrGenerator, Module, Registry, Unit};
use crate::ir::pass::{passed, passed_left, ModulePass, ModulePassManager};
use crate::ir::printer::{functions_text, initializers_match, module_text, IrPrinter};
use crate::ir::types::{
    Dtype, DtypeModel, FunctionType, FunctionTypeModel, MemberModel, StructMember, StructType,
};
use crate::ir::value::{GlobalDef, GlobalDefModel};
use vstd::prelude::*;
use vstd::string::*;

verus! {

/// The name of a function in an imported module.
pub open spec fn qualified(module: Seq<char>, name: Seq<char>) -> Seq<char> {
    module + "::"@ + name
}

/// A function is declared under `name`: the first declaration counts, and
/// later ones must agree with it.
pub open spec fn declare(u: Unit, decl: FnDecl, name: Seq<char>, is_external: bool) -> Result<
    Unit,
    ErrorModel,
> {
    match signature_type_as(decl, name) {
        Err(e) => Err(e),
        Ok(t) => if u.functions.contains_key(name) && u.functions[name] != t {
            Err(ErrorModel::ConflictedFunction { symbol: name })
        } else {
            Ok(
                Unit {
                    function_names: with_name(u.function_names, name),
                    functions: u.functions.insert(name, t),
                    linked_names: with_name(u.linked_names, name),
                    links: u.links.insert(name, link_name(name, is_external)),
                    entry_names: with_name(u.entry_names, name),
                    entries: u.entries.insert(name, FunctionModel { identifier: name, body: None }),
                    ..u
                },
            )
        },
    }
}

/// The unit that a declaration that fails leaves: where the type is at odds
/// with an earlier one, it has taken the place of that.
pub open spec fn declare_left(u: Unit, decl: FnDecl, name: Seq<char>) -> Unit {
    match signature_type_as(decl, name) {
        Err(_) => u,
        Ok(t) => Unit {
            function_names: with_name(u.function_names, name),
            functions: u.functions.insert(name, t),
            ..u
        },
    }
}

/// The functions that the first `n` elements of a header declare; all else in
/// a header has no effect.
pub open spec fn declare_all(
    u: Unit,
    module: Seq<char>,
    elements: Seq<ProgramElement>,
    n: nat,
) -> Result<Unit, ErrorModel>
    decreases n,
{
    if n == 0 {
        Ok(u)
    } else {
        match declare_all(u, module, elements, (n - 1) as nat) {
            Err(e) => Err(e),
            Ok(v) => match elements[n - 1].inner {
                ProgramElementInner::FnDeclStmt(d) => declare(
                    v,
                    *d.fn_decl,
                    qualified(module, d.fn_decl.identifier@),
                    true,
                ),
                _ => Ok(v),
            },
        }
    }
}

/// The unit that the first failing one of the first `n` elements of a header
/// leaves.
pub open spec fn declare_all_left(
    u: Unit,
    module: Seq<char>,
    elements: Seq<ProgramElement>,
    n: nat,
) -> Unit
    decreases n,
{
    if n == 0 {
        u
    } else {
        match declare_all(u, module, elements, (n - 1) as nat) {
            Err(_) => declare_all_left(u, module, elements, (n - 1) as nat),
            Ok(v) => match elements[n - 1].inner {
                ProgramElementInner::FnDeclStmt(d) => declare_left(
                    v,
                    *d.fn_decl,
                    qualified(module, d.fn_decl.identifier@),
                ),
                _ => v,
            },
        }
    }
}

/// One import.
pub open spec fn import(u: Unit, module: Seq<char>, header: Header) -> Result<Unit, ErrorModel> {
    match header {
        Header::Missing { path } => Err(
            ErrorModel::ModuleNotFound { module_name: module, path: path@ },
        ),
        Header::Unreadable { cause } => Err(ErrorModel::Io { cause: cause@ }),
        Header::Malformed { message } => Err(
            ErrorModel::ModuleParseFailed { module_name: module, message: message@ },
        ),
        Header::Parsed(p) => declare_all(u, module, p.elements@, p.elements@.len()),
    }
}

/// The unit that a failing import leaves.
pub open spec fn import_left(u: Unit, module: Seq<char>, header: Header) -> Unit {
    match header {
        Header::Parsed(p) => declare_all_left(u, module, p.elements@, p.elements@.len()),
        _ => u,
    }
}

/// The first `n` imports.
pub open spec fn imports(u: Unit, uses: Seq<UseStmt>, headers: Seq<Header>, n: nat) -> Result<
    Unit,
    ErrorModel,
>
    decreases n,
{
    if n == 0 {
        Ok(u)
    } else {
        match imports(u, uses, headers, (n - 1) as nat) {
            Err(e) => Err(e),
            Ok(v) => import(v, uses[n - 1].module_name@, headers[n - 1]),
        }
    }
}

/// The unit that the first failing one of the first `n` imports leaves.
pub open spec fn imports_left(u: Unit, uses: Seq<UseStmt>, headers: Seq<Header>, n: nat) -> Unit
    decreases n,
{
    if n == 0 {
        u
    } else {
        match imports(u, uses, headers, (n - 1) as nat) {
            Err(_) => imports_left(u, uses, headers, (n - 1) as nat),
            Ok(v) => import_left(v, uses[n - 1].module_name@, headers[n - 1]),
        }
    }
}

/// The values of the first `n` of a list of constant expressions.
pub open spec fn constants(vals: Seq<RightVal>, n: nat) -> Result<Seq<i32>, ErrorModel>
    decreases n,
{
    if n == 0 {
        Ok(Seq::empty())
    } else {
        match constants(vals, (n - 1) as nat) {
            Err(e) => Err(e),
            Ok(front) => match right_value(vals[n - 1]) {
                Err(e) => Err(e),
                Ok(v) => Ok(front.push(v as i32)),
            },
        }
    }
}

/// The initial values that a definition gives.
pub open spec fn initial_values(inner: VarDefInner) -> Result<Seq<i32>, ErrorModel> {
    match inner {
        VarDefInner::Scalar(s) => match right_value(*s.val) {
            Err(e) => Err(e),
            Ok(v) => Ok(seq![v as i32]),
        },
        VarDefInner::Array(a) => match a.initializer {
            ArrayInitializer::ExplicitList(vals) => constants(vals@, vals@.len()),
            ArrayInitializer::Fill { val, count } => match right_value(*val) {
                Err(e) => Err(e),
                Ok(v) => Ok(Seq::new(count as nat, |i: int| v as i32)),
            },
        },
    }
}

/// The initial values of a global, if it has any.
pub open spec fn initializers_of(stmt: VarDeclStmt) -> Result<Option<Seq<i32>>, ErrorModel> {
    match stmt.inner {
        VarDeclStmtInner::Decl(_) => Ok(None),
        VarDeclStmtInner::Def(d) => match initial_values(d.inner) {
            Err(e) => Err(e),
            Ok(v) => Ok(Some(v)),
        },
    }
}

/// A global variable is declared or defined.
pub open spec fn add_global(u: Unit, stmt: VarDeclStmt) -> Result<Unit, ErrorModel> {
    match var_decl_stmt_type(stmt) {
        Err(e) => Err(e),
        Ok(dtype) => match initializers_of(stmt) {
            Err(e) => Err(e),
            Ok(initializers) => {
                let name = introduced_name(stmt);
                if u.globals.contains_key(name) {
                    Err(ErrorModel::VariableRedefinition { symbol: name })
                } else {
                    Ok(
                        Unit {
                            global_names: with_name(u.global_names, name),
                            globals: u.globals.insert(name, GlobalDefModel { dtype, initializers }),
                            ..u
                        },
                    )
                }
            },
        },
    }
}

/// A function definition is announced: it must agree with what was declared.
pub open spec fn announce(u: Unit, f: FnDef) -> Result<Unit, ErrorModel> {
    let name = f.fn_decl.identifier@;
    if !u.functions.contains_key(name) {
        declare(u, *f.fn_decl, name, false)
    } else {
        match signature_type(*f.fn_decl) {
            Err(e) => Err(e),
            Ok(t) => if u.functions[name] != t {
                Err(ErrorModel::DeclDefMismatch { symbol: name })
            } else {
                Ok(u)
            },
        }
    }
}

/// The type of a member, without brackets; nothing where none is given.
pub open spec fn member_base(d: VarDecl) -> DtypeModel {
    match d.type_specifier {
        Some(t) => specified(t),
        None => DtypeModel::Void,
    }
}

/// The first `n` members of a struct.  A member that is a struct must be of a
/// struct that is known.
pub open spec fn members(
    structs: Map<Seq<char>, Seq<MemberModel>>,
    name: Seq<char>,
    decls: Seq<VarDecl>,
    n: nat,
) -> Result<Seq<MemberModel>, ErrorModel>
    decreases n,
{
    if n == 0 {
        Ok(Seq::empty())
    } else {
        match members(structs, name, decls, (n - 1) as nat) {
            Err(e) => Err(e),
            Ok(front) => {
                let d = decls[n - 1];
                let base = member_base(d);
                let member = MemberModel {
                    name: d.identifier@,
                    index: (n - 1) as nat,
                    dtype: declared(base, d.inner),
                };
                match base {
                    DtypeModel::Struct(inner) => if structs.contains_key(inner) {
                        Ok(front.push(member))
                    } else {
                        Err(
                            ErrorModel::UndefinedStructMemberType {
                                struct_name: name,
                                member_type: inner,
                            },
                        )
                    },
                    _ => Ok(front.push(member)),
                }
            },
        }
    }
}

/// A struct is defined.
pub open spec fn add_struct(u: Unit, s: StructDef) -> Result<Unit, ErrorModel> {
    let name = s.identifier@;
    match members(u.structs, name, s.decls@, s.decls@.len()) {
        Err(e) => Err(e),
        Ok(m) => Ok(
            Unit {
                struct_names: with_name(u.struct_names, name),
                structs: u.structs.insert(name, m),
                ..u
            },
        ),
    }
}

/// One top-level element is registered.
pub open spec fn register(u: Unit, e: ProgramElement) -> Result<Unit, ErrorModel> {
    match e.inner {
        ProgramElementInner::VarDeclStmt(s) => add_global(u, *s),
        ProgramElementInner::FnDeclStmt(d) => declare(
            u,
            *d.fn_decl,
            d.fn_decl.identifier@,
            false,
        ),
        ProgramElementInner::FnDef(f) => announce(u, *f),
        ProgramElementInner::StructDef(s) => add_struct(u, *s),
    }
}

/// The unit that a top-level element leaves that cannot be registered.
pub open spec fn register_left(u: Unit, e: ProgramElement) -> Unit {
    match e.inner {
        ProgramElementInner::FnDeclStmt(d) => declare_left(u, *d.fn_decl, d.fn_decl.identifier@),
        _ => u,
    }
}

/// The first `n` top-level elements are registered.
pub open spec fn registered(u: Unit, elements: Seq<ProgramElement>, n: nat) -> Result<
    Unit,
    ErrorModel,
>
    decreases n,
{
    if n == 0 {
        Ok(u)
    } else {
        match registered(u, elements, (n - 1) as nat) {
            Err(e) => Err(e),
            Ok(v) => register(v, elements[n - 1]),
        }
    }
}

/// The unit that the first failing one of the first `n` top-level elements
/// leaves.
pub open spec fn registered_left(u: Unit, elements: Seq<ProgramElement>, n: nat) -> Unit
    decreases n,
{
    if n == 0 {
        u
    } else {
        match registered(u, elements, (n - 1) as nat) {
            Err(_) => registered_left(u, elements, (n - 1) as nat),
            Ok(v) => register_left(v, elements[n - 1]),
        }
    }
}

/// What type inference knows of a unit.
pub open spec fn known(u: Unit) -> Known {
    Known { structs: u.structs, functions: u.functions, globals: u.globals }
}

/// What a body can refer to.
pub open spec fn context(u: Unit, resolved: Map<Seq<char>, DtypeModel>) -> Context {
    Context {
        structs: u.structs,
        functions: u.functions,
        globals: u.globals,
        links: u.links,
        resolved,
    }
}

/// Where the translation of a body starts.
pub open spec fn start() -> State {
    State {
        locals: Map::empty(),
        scopes: Seq::empty(),
        code: Seq::empty(),
        arguments: Seq::empty(),
        vreg: 0,
        block: 1,
    }
}

/// The body of a function: types are found, statements translated, and blocks
/// formed.
pub open spec fn translated(u: Unit, f: FnDef) -> Result<BodyModel, ErrorModel> {
    match function_types(known(u), f) {
        Err(e) => Err(e),
        Ok(types) => {
            let (st, r) = function_code(context(u, types), start(), f);
            match r {
                Err(e) => Err(e),
                Ok(_) => Ok(
                    BodyModel {
                        arguments: st.arguments,
                        blocks: harvested(st.code),
                        next_vreg: st.vreg,
                    },
                ),
            }
        },
    }
}

/// A function gets its body.
pub open spec fn add_body(u: Unit, f: FnDef) -> Result<Unit, ErrorModel> {
    let name = f.fn_decl.identifier@;
    match translated(u, f) {
        Err(e) => Err(e),
        Ok(body) => if u.entries.contains_key(name) {
            Ok(
                Unit {
                    entries: u.entries.insert(
                        name,
                        FunctionModel { identifier: u.entries[name].identifier, body: Some(body) },
                    ),
                    ..u
                },
            )
        } else {
            Err(ErrorModel::FunctionNotDefined { symbol: name })
        },
    }
}

/// The functions defined by the first `n` top-level elements get their bodies.
pub open spec fn with_bodies(u: Unit, elements: Seq<ProgramElement>, n: nat) -> Result<
    Unit,
    ErrorModel,
>
    decreases n,
{
    if n == 0 {
        Ok(u)
    } else {
        match with_bodies(u, elements, (n - 1) as nat) {
            Err(e) => Err(e),
            Ok(v) => match elements[n - 1].inner {
                ProgramElementInner::FnDef(f) => add_body(v, *f),
                _ => Ok(v),
            },
        }
    }
}

/// The unit that the first failing one of the first `n` bodies leaves: that
/// with the bodies before it.
pub open spec fn with_bodies_left(u: Unit, elements: Seq<ProgramElement>, n: nat) -> Unit
    decreases n,
{
    if n == 0 {
        u
    } else {
        match with_bodies(u, elements, (n - 1) as nat) {
            Err(_) => with_bodies_left(u, elements, (n - 1) as nat),
            Ok(v) => v,
        }
    }
}

/// All names are known: imports first, then the program's own.
pub open spec fn announced(u: Unit, input: Program, headers: Seq<Header>) -> Result<
    Unit,
    ErrorModel,
> {
    match imports(u, input.use_stmts@, headers, input.use_stmts@.len()) {
        Err(e) => Err(e),
        Ok(v) => registered(v, input.elements@, input.elements@.len()),
    }
}

/// The unit that is left where not all names can be known.
pub open spec fn announced_left(u: Unit, input: Program, headers: Seq<Header>) -> Unit {
    match imports(u, input.use_stmts@, headers, input.use_stmts@.len()) {
        Err(_) => imports_left(u, input.use_stmts@, headers, input.use_stmts@.len()),
        Ok(v) => registered_left(v, input.elements@, input.elements@.len()),
    }
}

/// All names are known, and the passes have run.
pub open spec fn prepared<P: ModulePass>(
    u: Unit,
    input: Program,
    headers: Seq<Header>,
    passes: Seq<P>,
) -> Result<Unit, ErrorModel> {
    match announced(u, input, headers) {
        Err(e) => Err(e),
        Ok(v) => passed(passes, input, v, passes.len()),
    }
}

/// The unit that is left where a name or a pass fails.
pub open spec fn prepared_left<P: ModulePass>(
    u: Unit,
    input: Program,
    headers: Seq<Header>,
    passes: Seq<P>,
) -> Unit {
    match announced(u, input, headers) {
        Err(_) => announced_left(u, input, headers),
        Ok(v) => passed_left(passes, input, v, passes.len()),
    }
}

/// The translation of a program.
pub open spec fn generated<P: ModulePass>(
    u: Unit,
    input: Program,
    headers: Seq<Header>,
    passes: Seq<P>,
) -> Result<Unit, ErrorModel> {
    match prepared(u, input, headers, passes) {
        Err(e) => Err(e),
        Ok(v) => with_bodies(v, input.elements@, input.elements@.len()),
    }
}

/// The unit that a translation that fails leaves.
pub open spec fn generated_left<P: ModulePass>(
    u: Unit,
    input: Program,
    headers: Seq<Header>,
    passes: Seq<P>,
) -> Unit {
    match prepared(u, input, headers, passes) {
        Err(_) => prepared_left(u, input, headers, passes),
        Ok(v) => with_bodies_left(v, input.elements@, input.elements@.len()),
    }
}

/// The numbers in the body of a function are in range, before and after
/// translation.
pub open spec fn body_fits(u: Unit, f: FnDef) -> bool {
    &&& stmts_in_range(f.stmts@)
    &&& function_types(known(u), f) matches Ok(types) ==> function_code(
        context(u, types),
        start(),
        f,
    ).0.fits()
}

/// The numbers in all bodies are in range.
pub open spec fn bodies_fit(u: Unit, elements: Seq<ProgramElement>) -> bool {
    forall|i: int|
        0 <= i < elements.len() ==> ((#[trigger] elements[i]).inner matches ProgramElementInner::FnDef(
            f,
        ) ==> body_fits(u, *f))
}

/// The outcome of a step that leaves the unit `u`, which is `left` where the
/// step fails.
pub open spec fn leaves(
    r: Result<(), Error>,
    u: Unit,
    expected: Result<Unit, ErrorModel>,
    left: Unit,
) -> bool {
    match r {
        Ok(_) => expected == Ok::<Unit, ErrorModel>(u),
        Err(e) => expected == Err::<Unit, ErrorModel>(e@) && u == left,
    }
}

proof fn lemma_declare_all_stops(
    u: Unit,
    module: Seq<char>,
    elements: Seq<ProgramElement>,
    k: nat,
    n: nat,
)
    requires
        k <= n,
        declare_all(u, module, elements, k) is Err,
    ensures
        declare_all(u, module, elements, n) == declare_all(u, module, elements, k),
        declare_all_left(u, module, elements, n) == declare_all_left(u, module, elements, k),
    decreases n - k,
{
    if k < n {
        lemma_declare_all_stops(u, module, elements, k + 1, n);
    }
}

proof fn lemma_imports_stop(
    u: Unit,
    uses: Seq<UseStmt>,
    headers: Seq<Header>,
    k: nat,
    n: nat,
)
    requires
        k <= n,
        imports(u, uses, headers, k) is Err,
    ensures
        imports(u, uses, headers, n) == imports(u, uses, headers, k),
        imports_left(u, uses, headers, n) == imports_left(u, uses, headers, k),
    decreases n - k,
{
    if k < n {
        lemma_imports_stop(u, uses, headers, k + 1, n);
    }
}

proof fn lemma_constants_stop(vals: Seq<RightVal>, k: nat, n: nat)
    requires
        k <= n,
        constants(vals, k) is Err,
    ensures
        constants(vals, n) == constants(vals, k),
    decreases n - k,
{
    if k < n {
        lemma_constants_stop(vals, k + 1, n);
    }
}

proof fn lemma_members_stop(
    structs: Map<Seq<char>, Seq<MemberModel>>,
    name: Seq<char>,
    decls: Seq<VarDecl>,
    k: nat,
    n: nat,
)
    requires
        k <= n,
        members(structs, name, decls, k) is Err,
    ensures
        members(structs, name, decls, n) == members(structs, name, decls, k),
    decreases n - k,
{
    if k < n {
        lemma_members_stop(structs, name, decls, k + 1, n);
    }
}

proof fn lemma_registered_stops(u: Unit, elements: Seq<ProgramElement>, k: nat, n: nat)
    requires
        k <= n,
        registered(u, elements, k) is Err,
    ensures
        registered(u, elements, n) == registered(u, elements, k),
        registered_left(u, elements, n) == registered_left(u, elements, k),
    decreases n - k,
{
    if k < n {
        lemma_registered_stops(u, elements, k + 1, n);
    }
}

proof fn lemma_with_bodies_stops(u: Unit, elements: Seq<ProgramElement>, k: nat, n: nat)
    requires
        k <= n,
        with_bodies(u, elements, k) is Err,
    ensures
        with_bodies(u, elements, n) == with_bodies(u, elements, k),
        with_bodies_left(u, elements, n) == with_bodies_left(u, elements, k),
    decreases n - k,
{
    if k < n {
        lemma_with_bodies_stops(u, elements, k + 1, n);
    }
}

/// The values of a list of constant expressions.
fn evaluate_list(vals: &Vec<RightVal>) -> (r: Result<Vec<i32>, Error>)
    ensures
        match r {
            Ok(v) => constants(vals@, vals@.len()) == Ok::<Seq<i32>, ErrorModel>(v@),
            Err(e) => constants(vals@, vals@.len()) == Err::<Seq<i32>, ErrorModel>(e@),
        },
{
    let mut values: Vec<i32> = Vec::new();
    let mut i: usize = 0;
    assert(values@ =~= Seq::empty());
    while i < vals.len()
        invariant
            i <= vals.len(),
            constants(vals@, i as nat) == Ok::<Seq<i32>, ErrorModel>(values@),
        decreases vals.len() - i,
    {
        match handle_right_val_static(&vals[i]) {
            Ok(v) => {
                values.push(v);
            },
            Err(e) => {
                proof {
                    lemma_constants_stop(vals@, (i + 1) as nat, vals@.len());
                }
                return Err(e);
            },
        }
        i = i + 1;
    }
    Ok(values)
}

/// The initial values that a definition gives.
fn evaluate_initializer(inner: &VarDefInner) -> (r: Result<Vec<i32>, Error>)
    ensures
        match r {
            Ok(v) => initial_values(*inner) == Ok::<Seq<i32>, ErrorModel>(v@),
            Err(e) => initial_values(*inner) == Err::<Seq<i32>, ErrorModel>(e@),
        },
{
    match inner {
        VarDefInner::Scalar(s) => {
            let v: i32 = match handle_right_val_static(&s.val) {
                Ok(v) => v,
                Err(e) => {
                    return Err(e);
                },
            };
            let mut values: Vec<i32> = Vec::new();
            values.push(v);
            assert(values@ =~= seq![v]);
            Ok(values)
        },
        VarDefInner::Array(a) => match &a.initializer {
            ArrayInitializer::ExplicitList(vals) => evaluate_list(vals),
            ArrayInitializer::Fill { val, count } => {
                let v: i32 = match handle_right_val_static(val) {
                    Ok(v) => v,
                    Err(e) => {
                        return Err(e);
                    },
                };
                let mut values: Vec<i32> = Vec::new();
                while values.len() < *count
                    invariant
                        values.len() <= *count,
                        forall|i: int| 0 <= i < values.len() ==> values@[i] == v,
                    decreases *count - values.len(),
                {
                    values.push(v);
                }
                assert(values@ =~= Seq::new(*count as nat, |i: int| v));
                Ok(values)
            },
        },
    }
}

impl<'a, P> IrGenerator<'a, P> {
    /// Everything but the tables is as it was.
    pub open spec fn same_setting(&self, other: &Self) -> bool {
        &&& self.input == other.input
        &&& self.headers == other.headers
        &&& self.module_passes == other.module_passes
    }

    /// Imports a module: the functions that its header declares are known
    /// under qualified names.
    fn handle_use_stmt(&mut self, use_stmt: &UseStmt, header: &Header) -> (r: Result<(), Error>)
        requires
            old(self).wf(),
        ensures
            final(self).wf(),
            final(self).same_setting(old(self)),
            leaves(
                r,
                final(self).unit(),
                import(old(self).unit(), use_stmt.module_name@, *header),
                import_left(old(self).unit(), use_stmt.module_name@, *header),
            ),
    {
        let module_name = &use_stmt.module_name;
        let program = match header {
            Header::Missing { path } => {
                return Err(
                    Error::ModuleNotFound { module_name: module_name.clone(), path: path.clone() },
                );
            },
            Header::Unreadable { cause } => {
                return Err(Error::Io { cause: cause.clone() });
            },
            Header::Malformed { message } => {
                return Err(
                    Error::ModuleParseFailed {
                        module_name: module_name.clone(),
                        message: message.clone(),
                    },
                );
            },
            Header::Parsed(p) => p,
        };
        let elements = &program.elements;
        let ghost before = self.unit();
        let mut i: usize = 0;
        while i < elements.len()
            invariant
                i <= elements.len(),
                before == old(self).unit(),
                *header == Header::Parsed(*program),
                *elements == program.elements,
                *module_name == use_stmt.module_name,
                self.wf(),
                self.same_setting(old(self)),
                declare_all(before, module_name@, elements@, i as nat) == Ok::<Unit, ErrorModel>(
                    self.unit(),
                ),
            decreases elements.len() - i,
        {
            match &elements[i].inner {
                ProgramElementInner::FnDeclStmt(d) => {
                    let mut name = module_name.clone();
                    name.append("::");
                    name.append(d.fn_decl.identifier.as_str());
                    match self.register_function(&d.fn_decl, name, true) {
                        Ok(_) => {},
                        Err(e) => {
                            proof {
                                lemma_declare_all_stops(
                                    before,
                                    module_name@,
                                    elements@,
                                    (i + 1) as nat,
                                    elements@.len(),
                                );
                            }
                            return Err(e);
                        },
                    }
                },
                _ => {},
            }
            i = i + 1;
        }
        Ok(())
    }

    /// Registers a global variable.
    fn handle_global_var_decl(&mut self, stmt: &VarDeclStmt) -> (r: Result<(), Error>)
        requires
            old(self).wf(),
        ensures
            final(self).wf(),
            final(self).same_setting(old(self)),
            leaves(r, final(self).unit(), add_global(old(self).unit(), *stmt), old(self).unit()),
    {
        let identifier = stmt.identifier();
        let dtype = match var_decl_stmt_dtype(stmt) {
            Ok(d) => d,
            Err(e) => {
                return Err(e);
            },
        };
        let initializers = match &stmt.inner {
            VarDeclStmtInner::Def(d) => match evaluate_initializer(&d.inner) {
                Ok(v) => Some(v),
                Err(e) => {
                    return Err(e);
                },
            },
            VarDeclStmtInner::Decl(_) => None,
        };
        if self.module.global_list.contains_key(identifier.as_str()) {
            return Err(Error::VariableRedefinition { symbol: identifier.clone() });
        }
        let ghost before = self.unit();
        let def = GlobalDef { dtype, initializers };
        let ghost model = def@;
        self.module.global_list.insert(identifier.clone(), def);
        proof {
            assert(self.unit() =~= (Unit {
                global_names: with_name(before.global_names, identifier@),
                globals: before.globals.insert(identifier@, model),
                ..before
            }));
        }
        Ok(())
    }

    /// Registers a function declaration.
    fn handle_fn_decl(&mut self, decl: &FnDecl) -> (r: Result<(), Error>)
        requires
            old(self).wf(),
        ensures
            final(self).wf(),
            final(self).same_setting(old(self)),
            leaves(
                r,
                final(self).unit(),
                declare(old(self).unit(), *decl, decl.identifier@, false),
                declare_left(old(self).unit(), *decl, decl.identifier@),
            ),
    {
        self.register_function(decl, decl.identifier.clone(), false)
    }

    /// Registers a function under a name.
    fn register_function(&mut self, decl: &FnDecl, name: String, is_external: bool) -> (r: Result<
        (),
        Error,
    >)
        requires
            old(self).wf(),
        ensures
            final(self).wf(),
            final(self).same_setting(old(self)),
            leaves(
                r,
                final(self).unit(),
                declare(old(self).unit(), *decl, name@, is_external),
                declare_left(old(self).unit(), *decl, name@),
            ),
    {
        let function_type = match FunctionType::from_decl_as(decl, name.as_str()) {
            Ok(t) => t,
            Err(e) => {
                return Err(e);
            },
        };
        let agrees = match self.registry.function_types.get(name.as_str()) {
            Some(prior) => prior.same(&function_type),
            None => true,
        };
        let ghost before = self.unit();
        let ghost t = function_type@;
        self.registry.function_types.insert(name.clone(), function_type);
        if !agrees {
            proof {
                assert(self.unit() =~= (Unit {
                    function_names: with_name(before.function_names, name@),
                    functions: before.functions.insert(name@, t),
                    ..before
                }));
            }
            return Err(Error::ConflictedFunction { symbol: name });
        }
        let link = compute_link_name(name.as_str(), is_external);
        self.registry.link_names.insert(name.clone(), link);
        self.module.function_list.insert(
            name.clone(),
            Function { identifier: name.clone(), body: None },
        );
        proof {
            assert(self.unit() =~= (Unit {
                function_names: with_name(before.function_names, name@),
                functions: before.functions.insert(name@, t),
                linked_names: with_name(before.linked_names, name@),
                links: before.links.insert(name@, link_name(name@, is_external)),
                entry_names: with_name(before.entry_names, name@),
                entries: before.entries.insert(
                    name@,
                    FunctionModel { identifier: name@, body: None },
                ),
                ..before
            }));
        }
        Ok(())
    }

    /// Registers the signature of a function definition.
    fn handle_fn_def(&mut self, stmt: &FnDef) -> (r: Result<(), Error>)
        requires
            old(self).wf(),
        ensures
            final(self).wf(),
            final(self).same_setting(old(self)),
            leaves(r, final(self).unit(), announce(old(self).unit(), *stmt), old(self).unit()),
    {
        let identifier = &stmt.fn_decl.identifier;
        match self.registry.function_types.get(identifier.as_str()) {
            None => self.handle_fn_decl(&stmt.fn_decl),
            Some(prior) => {
                let def_type = match FunctionType::from_decl(&stmt.fn_decl) {
                    Ok(t) => t,
                    Err(e) => {
                        return Err(e);
                    },
                };
                if !prior.same(&def_type) {
                    return Err(Error::DeclDefMismatch { symbol: identifier.clone() });
                }
                Ok(())
            },
        }
    }

    /// Registers a struct type.
    fn handle_struct_def(&mut self, struct_def: &StructDef) -> (r: Result<(), Error>)
        requires
            old(self).wf(),
        ensures
            final(self).wf(),
            final(self).same_setting(old(self)),
            leaves(
                r,
                final(self).unit(),
                add_struct(old(self).unit(), *struct_def),
                old(self).unit(),
            ),
    {
        let identifier = &struct_def.identifier;
        let decls = &struct_def.decls;
        let mut st = StructType { elements: Vec::new() };
        let ghost structs = self.registry.struct_types@;
        let mut i: usize = 0;
        assert(st@ =~= Seq::empty());
        while i < decls.len()
            invariant
                i <= decls.len(),
                *self == *old(self),
                *identifier == struct_def.identifier,
                *decls == struct_def.decls,
                self.wf(),
                structs == self.registry.struct_types@,
                members(structs, identifier@, decls@, i as nat) == Ok::<
                    Seq<MemberModel>,
                    ErrorModel,
                >(st@),
            decreases decls.len() - i,
        {
            let decl = &decls[i];
            let base = match &decl.type_specifier {
                Some(t) => specified_dtype(t),
                None => Dtype::Void,
            };
            let ghost base_model = base@;
            match &base {
                Dtype::Struct { name } => {
                    if !self.registry.struct_types.contains_key(name.as_str()) {
                        proof {
                            lemma_members_stop(
                                structs,
                                identifier@,
                                decls@,
                                (i + 1) as nat,
                                decls@.len(),
                            );
                        }
                        return Err(
                            Error::UndefinedStructMemberType {
                                struct_name: identifier.clone(),
                                member_type: name.clone(),
                            },
                        );
                    }
                },
                _ => {},
            }
            let ghost before = st@;
            let dtype = compose_var_decl_dtype(base, &decl.inner);
            let ghost member = MemberModel {
                name: decl.identifier@,
                index: i as nat,
                dtype: dtype@,
            };
            st.elements.push((decl.identifier.clone(), StructMember { index: i, dtype }));
            assert(st@ =~= before.push(member));
            i = i + 1;
        }
        let ghost before = self.unit();
        let ghost m = st@;
        self.registry.struct_types.insert(identifier.clone(), st);
        proof {
            assert(self.unit() =~= (Unit {
                struct_names: with_name(before.struct_names, identifier@),
                structs: before.structs.insert(identifier@, m),
                ..before
            }));
        }
        Ok(())
    }

    /// Processes all imports.
    fn handle_use_stmts(&mut self) -> (r: Result<(), Error>)
        requires
            old(self).wf(),
            old(self).headers@.len() == old(self).input.use_stmts@.len(),
        ensures
            final(self).wf(),
            final(self).same_setting(old(self)),
            leaves(
                r,
                final(self).unit(),
                imports(
                    old(self).unit(),
                    old(self).input.use_stmts@,
                    old(self).headers@,
                    old(self).input.use_stmts@.len(),
                ),
                imports_left(
                    old(self).unit(),
                    old(self).input.use_stmts@,
                    old(self).headers@,
                    old(self).input.use_stmts@.len(),
                ),
            ),
    {
        let uses = &self.input.use_stmts;
        let headers = self.headers;
        let ghost before = self.unit();
        let mut i: usize = 0;
        while i < uses.len()
            invariant
                i <= uses.len(),
                uses.len() == headers.len(),
                before == old(self).unit(),
                *uses == old(self).input.use_stmts,
                headers == old(self).headers,
                self.wf(),
                self.same_setting(old(self)),
                imports(before, uses@, headers@, i as nat) == Ok::<Unit, ErrorModel>(self.unit()),
            decreases uses.len() - i,
        {
            match self.handle_use_stmt(&uses[i], &headers[i]) {
                Ok(_) => {},
                Err(e) => {
                    proof {
                        lemma_imports_stop(before, uses@, headers@, (i + 1) as nat, uses@.len());
                    }
                    return Err(e);
                },
            }
            i = i + 1;
        }
        Ok(())
    }

    /// Registers all top-level elements.
    fn handle_elements(&mut self) -> (r: Result<(), Error>)
        requires
            old(self).wf(),
        ensures
            final(self).wf(),
            final(self).same_setting(old(self)),
            leaves(
                r,
                final(self).unit(),
                registered(
                    old(self).unit(),
                    old(self).input.elements@,
                    old(self).input.elements@.len(),
                ),
                registered_left(
                    old(self).unit(),
                    old(self).input.elements@,
                    old(self).input.elements@.len(),
                ),
            ),
    {
        let elements = &self.input.elements;
        let ghost before = self.unit();
        let mut i: usize = 0;
        while i < elements.len()
            invariant
                i <= elements.len(),
                before == old(self).unit(),
                *elements == old(self).input.elements,
                self.wf(),
                self.same_setting(old(self)),
                registered(before, elements@, i as nat) == Ok::<Unit, ErrorModel>(self.unit()),
            decreases elements.len() - i,
        {
            let r = match &elements[i].inner {
                ProgramElementInner::VarDeclStmt(stmt) => self.handle_global_var_decl(stmt),
                ProgramElementInner::FnDeclStmt(d) => self.handle_fn_decl(&d.fn_decl),
                ProgramElementInner::FnDef(f) => self.handle_fn_def(f),
                ProgramElementInner::StructDef(s) => self.handle_struct_def(s),
            };
            match r {
                Ok(_) => {},
                Err(e) => {
                    proof {
                        lemma_registered_stops(
                            before,
                            elements@,
                            (i + 1) as nat,
                            elements@.len(),
                        );
                    }
                    return Err(e);
                },
            }
            i = i + 1;
        }
        Ok(())
    }

    /// Translates the body of a function.
    fn translate_body(&self, fn_def: &FnDef) -> (r: Result<FunctionBody, Error>)
        requires
            self.wf(),
            self.unit().sound(),
            body_fits(self.unit(), *fn_def),
        ensures
            outcome(r) == translated(self.unit(), *fn_def),
    {
        let ghost u = self.unit();
        let resolved_types = match infer_function(
            &self.registry,
            &self.module.global_list,
            fn_def,
        ) {
            Ok(t) => t,
            Err(e) => {
                return Err(e);
            },
        };
        let ghost types = resolved_types@;
        let mut function_generator = FunctionGenerator::new(
            &self.registry,
            &self.module.global_list,
            resolved_types,
        );
        assert(known_of(self.registry, self.module.global_list) == known(u));
        let ghost cx = context(u, types);
        proof {
            assert(function_generator.context() == cx);
            assert(cx.wf());
        }
        match function_generator.generate(fn_def) {
            Ok(_) => {},
            Err(e) => {
                return Err(e);
            },
        }
        proof {
            lemma_function_blocks(cx, start(), *fn_def);
        }
        Ok(
            FunctionBody {
                arguments: function_generator.arguments,
                blocks: harvest_function_irs(function_generator.irs),
                next_vreg: function_generator.next_vreg,
            },
        )
    }

    /// Translates the body of a function and stores it.
    fn handle_fn_body(&mut self, fn_def: &FnDef) -> (r: Result<(), Error>)
        requires
            old(self).wf(),
            old(self).unit().sound(),
            body_fits(old(self).unit(), *fn_def),
        ensures
            final(self).wf(),
            final(self).same_setting(old(self)),
            leaves(r, final(self).unit(), add_body(old(self).unit(), *fn_def), old(self).unit()),
    {
        let body = match self.translate_body(fn_def) {
            Ok(b) => b,
            Err(e) => {
                return Err(e);
            },
        };
        let name = &fn_def.fn_decl.identifier;
        let identifier = match self.module.function_list.get(name.as_str()) {
            Some(f) => f.identifier.clone(),
            None => {
                return Err(Error::FunctionNotDefined { symbol: name.clone() });
            },
        };
        let ghost before = self.unit();
        let func = Function { identifier, body: Some(body) };
        let ghost model = func@;
        proof {
            self.module.function_list.lemma_names();
        }
        self.module.function_list.insert(name.clone(), func);
        proof {
            assert(self.unit() =~= (Unit { entries: before.entries.insert(name@, model), ..before }));
        }
        Ok(())
    }

    /// Translates all bodies.
    fn handle_bodies(&mut self) -> (r: Result<(), Error>)
        requires
            old(self).wf(),
            old(self).unit().sound(),
            bodies_fit(old(self).unit(), old(self).input.elements@),
        ensures
            final(self).wf(),
            final(self).same_setting(old(self)),
            r is Ok ==> final(self).unit().sound(),
            leaves(
                r,
                final(self).unit(),
                with_bodies(
                    old(self).unit(),
                    old(self).input.elements@,
                    old(self).input.elements@.len(),
                ),
                with_bodies_left(
                    old(self).unit(),
                    old(self).input.elements@,
                    old(self).input.elements@.len(),
                ),
            ),
    {
        let elements = &self.input.elements;
        let ghost before = self.unit();
        let mut i: usize = 0;
        while i < elements.len()
            invariant
                i <= elements.len(),
                before == old(self).unit(),
                *elements == old(self).input.elements,
                bodies_fit(before, elements@),
                self.wf(),
                self.same_setting(old(self)),
                self.unit().sound(),
                self.unit().structs == before.structs,
                self.unit().functions == before.functions,
                self.unit().globals == before.globals,
                self.unit().links == before.links,
                with_bodies(before, elements@, i as nat) == Ok::<Unit, ErrorModel>(self.unit()),
            decreases elements.len() - i,
        {
            match &elements[i].inner {
                ProgramElementInner::FnDef(fn_def) => {
                    proof {
                        assert(elements@[i as int].inner == ProgramElementInner::FnDef(*fn_def));
                        assert(body_fits(before, **fn_def));
                        assert(known(self.unit()) == known(before));
                        assert(body_fits(self.unit(), **fn_def));
                    }
                    match self.handle_fn_body(fn_def) {
                        Ok(_) => {},
                        Err(e) => {
                            proof {
                                lemma_with_bodies_stops(
                                    before,
                                    elements@,
                                    (i + 1) as nat,
                                    elements@.len(),
                                );
                            }
                            return Err(e);
                        },
                    }
                },
                _ => {},
            }
            i = i + 1;
        }
        Ok(())
    }
}

proof fn lemma_imports_sound(u: Unit, uses: Seq<UseStmt>, headers: Seq<Header>, n: nat)
    requires
        u.sound(),
    ensures
        imports(u, uses, headers, n) matches Ok(v) ==> v.sound(),
    decreases n,
{
    if n > 0 {
        lemma_imports_sound(u, uses, headers, (n - 1) as nat);
        match imports(u, uses, headers, (n - 1) as nat) {
            Err(_) => {},
            Ok(v) => match headers[n - 1] {
                Header::Parsed(p) => lemma_declare_all_sound(
                    v,
                    uses[n - 1].module_name@,
                    p.elements@,
                    p.elements@.len(),
                ),
                _ => {},
            },
        }
    }
}

proof fn lemma_declare_all_sound(
    u: Unit,
    module: Seq<char>,
    elements: Seq<ProgramElement>,
    n: nat,
)
    requires
        u.sound(),
    ensures
        declare_all(u, module, elements, n) matches Ok(v) ==> v.sound(),
    decreases n,
{
    if n > 0 {
        lemma_declare_all_sound(u, module, elements, (n - 1) as nat);
    }
}

proof fn lemma_constants_len(vals: Seq<RightVal>, n: nat)
    ensures
        constants(vals, n) matches Ok(v) ==> v.len() == n,
    decreases n,
{
    if n > 0 {
        lemma_constants_len(vals, (n - 1) as nat);
    }
}

proof fn lemma_register_sound(u: Unit, e: ProgramElement)
    requires
        u.sound(),
    ensures
        register(u, e) matches Ok(v) ==> v.sound(),
{
}

proof fn lemma_registered_sound(u: Unit, elements: Seq<ProgramElement>, n: nat)
    requires
        u.sound(),
    ensures
        registered(u, elements, n) matches Ok(v) ==> v.sound(),
    decreases n,
{
    if n > 0 {
        lemma_registered_sound(u, elements, (n - 1) as nat);
        match registered(u, elements, (n - 1) as nat) {
            Err(_) => {},
            Ok(v) => lemma_register_sound(v, elements[n - 1]),
        }
    }
}

/// Once all names are known, every function has a type that it can return,
/// and every global has initializers that match its type.
pub proof fn lemma_announced_sound(u: Unit, input: Program, headers: Seq<Header>)
    requires
        u.sound(),
    ensures
        announced(u, input, headers) matches Ok(v) ==> v.sound(),
{
    lemma_imports_sound(u, input.use_stmts@, headers, input.use_stmts@.len());
    match imports(u, input.use_stmts@, headers, input.use_stmts@.len()) {
        Err(_) => {},
        Ok(v) => lemma_registered_sound(v, input.elements@, input.elements@.len()),
    }
}

/// Every function has a name at the linker, made from its own as that of an
/// imported function or as that of a function of the program.
pub open spec fn all_linked(u: Unit) -> bool {
    forall|n: Seq<char>| #[trigger]
        u.functions.contains_key(n) ==> u.links.contains_key(n) && (u.links[n] == link_name(n, true)
            || u.links[n] == link_name(n, false))
}

proof fn lemma_declare_all_linked(
    u: Unit,
    module: Seq<char>,
    elements: Seq<ProgramElement>,
    n: nat,
)
    requires
        all_linked(u),
    ensures
        declare_all(u, module, elements, n) matches Ok(v) ==> all_linked(v),
    decreases n,
{
    if n > 0 {
        lemma_declare_all_linked(u, module, elements, (n - 1) as nat);
    }
}

proof fn lemma_imports_linked(u: Unit, uses: Seq<UseStmt>, headers: Seq<Header>, n: nat)
    requires
        all_linked(u),
    ensures
        imports(u, uses, headers, n) matches Ok(v) ==> all_linked(v),
    decreases n,
{
    if n > 0 {
        lemma_imports_linked(u, uses, headers, (n - 1) as nat);
        if let Ok(v) = imports(u, uses, headers, (n - 1) as nat) {
            if let Header::Parsed(p) = headers[n - 1] {
                lemma_declare_all_linked(
                    v,
                    uses[n - 1].module_name@,
                    p.elements@,
                    p.elements@.len(),
                );
            }
        }
    }
}

proof fn lemma_registered_linked(u: Unit, elements: Seq<ProgramElement>, n: nat)
    requires
        all_linked(u),
    ensures
        registered(u, elements, n) matches Ok(v) ==> all_linked(v),
    decreases n,
{
    if n > 0 {
        lemma_registered_linked(u, elements, (n - 1) as nat);
    }
}

/// Once all names are known, every function that a call can name has a name
/// at the linker.
pub proof fn lemma_announced_linked(u: Unit, input: Program, headers: Seq<Header>)
    requires
        all_linked(u),
    ensures
        announced(u, input, headers) matches Ok(v) ==> all_linked(v),
{
    lemma_imports_linked(u, input.use_stmts@, headers, input.use_stmts@.len());
    if let Ok(v) = imports(u, input.use_stmts@, headers, input.use_stmts@.len()) {
        lemma_registered_linked(v, input.elements@, input.elements@.len());
    }
}

impl<'a, P: ModulePass> Generator for IrGenerator<'a, P> {
    type Error = Error;

    open spec fn ready(&self) -> bool {
        &&& self.wf()
        &&& self.unit().sound()
        &&& self.headers@.len() == self.input.use_stmts@.len()
        &&& prepared(self.unit(), *self.input, self.headers@, self.module_passes.list()) matches Ok(
            u,
        ) ==> bodies_fit(u, self.input.elements@)
    }

    open spec fn generates(&self, after: &Self, r: Result<(), Error>) -> bool {
        &&& after.wf()
        &&& after.same_setting(self)
        &&& r is Ok ==> after.unit().sound()
        &&& leaves(
            r,
            after.unit(),
            generated(self.unit(), *self.input, self.headers@, self.module_passes.list()),
            generated_left(self.unit(), *self.input, self.headers@, self.module_passes.list()),
        )
    }

    open spec fn printable(&self) -> bool {
        self.wf() && self.unit().sound()
    }

    open spec fn printed(&self) -> (Seq<char>, bool) {
        (
            module_text(self.module, self.registry).0,
            module_text(self.module, self.registry).1 is Ok,
        )
    }

    /// Translates the program: imports, names, passes, bodies.
    fn generate(&mut self) -> (r: Result<(), Error>) {
        let ghost before = self.unit();
        let ghost input = *self.input;
        let ghost headers = self.headers@;
        proof {
            lemma_announced_sound(before, input, headers);
        }
        match self.handle_use_stmts() {
            Ok(_) => {},
            Err(e) => {
                return Err(e);
            },
        }
        match self.handle_elements() {
            Ok(_) => {},
            Err(e) => {
                return Err(e);
            },
        }
        let mut passes: ModulePassManager<P> = ModulePassManager::new();
        std::mem::swap(&mut self.module_passes, &mut passes);
        let outcome = passes.run(self);
        std::mem::swap(&mut self.module_passes, &mut passes);
        match outcome {
            Ok(_) => {},
            Err(e) => {
                return Err(e);
            },
        }
        self.handle_bodies()
    }

    /// Prints the translation behind what `out` holds.
    fn output(&self, out: &mut String) -> (r: Result<(), Error>)
        ensures
            done(r) == module_text(self.module, self.registry).1,
    {
        let mut printer = IrPrinter::new();
        proof {
            assert forall|n: Seq<char>|
                self.module.global_list@.contains_key(n) implies initializers_match(
                #[trigger] self.module.global_list@[n],
            ) by {
                assert(self.unit().globals.contains_key(n));
            }
        }
        let r = printer.emit_module(&self.module, &self.registry);
        out.append(printer.out.as_str());
        r
    }
}

/// The entry block exists, every branch goes to a block, and control never
/// falls through to the next block.
pub open spec fn well_built(body: BodyModel) -> bool {
    &&& body.blocks.len() > 0
    &&& branches_resolve(body.blocks)
    &&& forall|i: int|
        0 <= i < body.blocks.len() ==> !falls_through(#[trigger] body.blocks[i])
}

/// A translated body is well built.
pub proof fn lemma_translated_well_built(u: Unit, f: FnDef)
    ensures
        translated(u, f) matches Ok(body) ==> well_built(body),
{
    if let Ok(types) = function_types(known(u), f) {
        let cx = context(u, types);
        if function_code(cx, start(), f).1 is Ok {
            lemma_function_blocks(cx, start(), f);
            lemma_branches_resolve(cx, start(), f);
        }
    }
}

/// The name of a function that an element defines.
pub open spec fn defines(e: ProgramElement, name: Seq<char>) -> bool {
    e.inner matches ProgramElementInner::FnDef(f) && f.fn_decl.identifier@ == name
}

/// The translation of bodies changes nothing but bodies: those that elements
/// define are well built, and the others stay as they were.
pub proof fn lemma_with_bodies(u: Unit, elements: Seq<ProgramElement>, n: nat)
    requires
        n <= elements.len(),
    ensures
        with_bodies(u, elements, n) matches Ok(v) ==> {
            &&& v == (Unit { entries: v.entries, ..u })
            &&& v.entries.dom() == u.entries.dom()
            &&& forall|name: Seq<char>| #[trigger]
                v.entries.contains_key(name) ==> v.entries[name].identifier
                    == u.entries[name].identifier
            &&& forall|i: int, name: Seq<char>|
                0 <= i < n && #[trigger] defines(elements[i], name) ==> v.entries.contains_key(name)
                    && (v.entries[name].body matches Some(body) && well_built(body))
            &&& forall|name: Seq<char>| #[trigger]
                v.entries.contains_key(name) && (forall|i: int|
                    0 <= i < n ==> !defines(elements[i], name)) ==> v.entries[name]
                    == u.entries[name]
        },
    decreases n,
{
    if n > 0 {
        lemma_with_bodies(u, elements, (n - 1) as nat);
        if let Ok(w) = with_bodies(u, elements, (n - 1) as nat) {
            if let ProgramElementInner::FnDef(f) = elements[n - 1].inner {
                lemma_translated_well_built(w, *f);
                let name = f.fn_decl.identifier@;
                assert(defines(elements[n - 1], name));
                if let Ok(v) = add_body(w, *f) {
                    assert(v.entries.dom() =~= w.entries.dom());
                }
            }
            if let Ok(v) = with_bodies(u, elements, n) {
                assert forall|name: Seq<char>| #[trigger]
                    v.entries.contains_key(name) && (forall|i: int|
                        0 <= i < n ==> !defines(elements[i], name)) implies v.entries[name]
                    == u.entries[name] by {
                    assert(!defines(elements[n - 1], name));
                    assert(w.entries.contains_key(name));
                }
            }
        }
    }
}

/// A program that is translated has a body for every function that it
/// defines; the body is well built.
pub proof fn lemma_generated_bodies<P: ModulePass>(
    u: Unit,
    input: Program,
    headers: Seq<Header>,
    passes: Seq<P>,
    i: int,
    name: Seq<char>,
)
    requires
        0 <= i < input.elements@.len(),
        defines(input.elements@[i], name),
    ensures
        generated(u, input, headers, passes) matches Ok(v) ==> v.entries.contains_key(name) && (
        v.entries[name].body matches Some(body) && well_built(body)),
{
    if let Ok(w) = prepared(u, input, headers, passes) {
        lemma_with_bodies(w, input.elements@, input.elements@.len());
    }
}

proof fn lemma_functions_known(
    functions: Map<Seq<char>, FunctionModel>,
    names: Seq<Seq<char>>,
    types: Map<Seq<char>, FunctionTypeModel>,
    links: Map<Seq<char>, Seq<char>>,
)
    requires
        forall|n: Seq<char>| #[trigger]
            functions.contains_key(n) ==> types.contains_key(functions[n].identifier),
        forall|i: int| 0 <= i < names.len() ==> functions.contains_key(#[trigger] names[i]),
    ensures
        functions_text(functions, names, types, links).1 matches Err(e) ==> e is Io,
    decreases names.len(),
{
    if names.len() > 0 {
        let front = names.drop_last();
        assert forall|i: int| 0 <= i < front.len() implies functions.contains_key(
            #[trigger] front[i],
        ) by {
            assert(functions.contains_key(names[i]));
        }
        lemma_functions_known(functions, front, types, links);
        assert(functions.contains_key(names[names.len() - 1]));
    }
}

/// Every function of a sound unit is found when the unit is printed: only a
/// statement without a text can stop the printer.
pub proof fn lemma_sound_printed(module: Module, registry: Registry)
    requires
        module.wf(),
        registry.wf(),
        unit_of(module, registry).sound(),
    ensures
        module_text(module, registry).1 matches Err(e) ==> e is Io,
{
    let u = unit_of(module, registry);
    module.function_list.lemma_names();
    assert forall|n: Seq<char>| #[trigger]
        module.function_list@.contains_key(n) implies registry.function_types@.contains_key(
        module.function_list@[n].identifier,
    ) by {
        assert(u.entries.contains_key(n));
    }
    lemma_functions_known(
        module.function_list@,
        module.function_list.names(),
        registry.function_types@,
        registry.link_names@,
    );
}

} // verus!
