//! The translation of function bodies.

use crate::ast::decl::{ArrayInitializer, FnDef, VarDecl, VarDeclInner, VarDeclStmtInner, VarDef, VarDefInner};
use crate::ast::expr::{
    ArithBiOpExpr, ArithExpr, ArithExprInner, ArrayExpr, BoolBiOpExpr, BoolExpr, BoolExprInner,
    BoolUnit, BoolUnitInner, ComExpr, ExprUnit, ExprUnitInner, FnCall, IndexExpr, IndexExprInner,
    LeftVal, LeftValInner, MemberExpr, RightVal, RightValInner,
};
use crate::ast::ops::BoolBiOp;
use crate::ast::stmt::{
    AssignmentStmt, CallStmt, CodeBlockStmt, CodeBlockStmtInner, IfStmt, ReturnStmt, WhileStmt,
};
use crate::common::names::NameMap;
use crate::ir::error::{Error, ErrorModel};
use crate::ir::function::{local_models, stmt_models, BlockLabel, LabelModel};
use crate::ir::gen::conversions::{
    compose_var_decl_dtype, compose_var_def_dtype, declared, outcome, specified_dtype,
};
use crate::ir::gen::lowering::{
    Context,
    State,
    accessed_member,
    args_code,
    arith_code,
    arith_in_range,
    array_base,
    array_element,
    assignment_code,
    bool_in_range,
    bool_unit_in_range,
    branch_code,
    call_code,
    call_value_code,
    comparison_code,
    decl_code,
    def_code,
    def_in_range,
    element_code,
    element_in_range,
    explicit_type,
    fill_code,
    function_code,
    holds_array,
    if_code,
    index_code,
    index_in_range,
    indexed,
    init_code,
    init_in_range,
    jump_code,
    lemma_args_grow,
    lemma_args_prefix,
    lemma_arith_grows,
    lemma_branch_grows,
    lemma_else_grows,
    lemma_fill_grows,
    lemma_init_grows,
    lemma_list_init_prefix,
    lemma_params_grow,
    lemma_params_prefix,
    lemma_right_grows,
    lemma_stmts_grow,
    lemma_stmts_prefix,
    lemma_unit_branch_grows,
    lemma_unit_grows,
    list_init_code,
    loaded,
    local_base,
    lookup,
    materialized,
    member_code,
    member_in_range,
    params_code,
    place_code,
    place_in_range,
    reference_code,
    return_code,
    right_code,
    right_in_range,
    short_circuit,
    stmt_code,
    stmt_in_range,
    stmts_code,
    stmts_in_range,
    truth_code,
    truth_start,
    unit_branch_code,
    unit_code,
    unit_in_range,
    values_in_range,
    while_code,
};
use crate::ir::module::Registry;
use crate::ir::stmt::{
    arith_of, operand_models, ArithBinOp, CmpPredicate, Stmt, StmtInner, StmtModel,
};
use crate::ir::types::{copy_parameters, parameters, Dtype, DtypeModel};
use crate::ir::value::{GlobalDef, GlobalRef, Local, LocalId, Operand, OperandModel};
use vstd::prelude::*;

verus! {

/// The outcome of an operation without result.
pub open spec fn done(r: Result<(), Error>) -> Result<(), ErrorModel> {
    match r {
        Ok(_) => Ok(()),
        Err(e) => Err(e@),
    }
}

/// The model of an optional label.
pub open spec fn label_model(l: Option<&BlockLabel>) -> Option<LabelModel> {
    match l {
        Some(b) => Some(b@),
        None => None,
    }
}

/// The names of the open scopes.
pub open spec fn scope_names(scopes: Seq<Vec<String>>) -> Seq<Seq<Seq<char>>> {
    Seq::new(scopes.len(), |i: int| crate::common::text::texts(scopes[i]@))
}

/// Translates one function body.
pub struct FunctionGenerator<'ir> {
    pub registry: &'ir Registry,
    pub global_variables: &'ir NameMap<GlobalDef>,
    /// The types found for local variables declared without one.
    pub resolved_types: NameMap<Dtype>,
    /// The local variables in scope.
    pub local_variables: NameMap<Local>,
    /// The names introduced in each open scope.
    pub scope_locals: Vec<Vec<String>>,
    /// The statements so far.
    pub irs: Vec<Stmt>,
    /// The values that carry the arguments.
    pub arguments: Vec<Local>,
    /// The next number for a value.
    pub next_vreg: usize,
    /// The next number for a block.
    pub next_basic_block: usize,
}

impl<'ir> FunctionGenerator<'ir> {
    /// The declarations that the body can refer to.
    pub open spec fn context(&self) -> Context {
        Context {
            structs: self.registry.struct_types@,
            functions: self.registry.function_types@,
            globals: self.global_variables@,
            links: self.registry.link_names@,
            resolved: self.resolved_types@,
        }
    }

    /// What has been translated so far.
    pub open spec fn state(&self) -> State {
        State {
            locals: self.local_variables@,
            scopes: scope_names(self.scope_locals@),
            code: stmt_models(self.irs@),
            arguments: local_models(self.arguments@),
            vreg: self.next_vreg as nat,
            block: self.next_basic_block as nat,
        }
    }

    /// The tables are well formed, and functions have types that are.
    pub open spec fn inv(&self) -> bool {
        &&& self.registry.wf()
        &&& self.global_variables.wf()
        &&& self.resolved_types.wf()
        &&& self.local_variables.wf()
        &&& self.context().wf()
    }

    /// A generator that has translated nothing.
    pub fn new(
        registry: &'ir Registry,
        global_variables: &'ir NameMap<GlobalDef>,
        resolved_types: NameMap<Dtype>,
    ) -> (g: Self)
        requires
            registry.wf(),
            global_variables.wf(),
            resolved_types.wf(),
        ensures
            g.context() == (Context {
                structs: registry.struct_types@,
                functions: registry.function_types@,
                globals: global_variables@,
                links: registry.link_names@,
                resolved: resolved_types@,
            }),
            g.context().wf() ==> g.inv(),
            g.state() == (State {
                locals: Map::empty(),
                scopes: Seq::empty(),
                code: Seq::empty(),
                arguments: Seq::empty(),
                vreg: 0,
                block: 1,
            }),
    {
        let g = FunctionGenerator {
            registry,
            global_variables,
            resolved_types,
            local_variables: NameMap::new(),
            scope_locals: Vec::new(),
            irs: Vec::new(),
            arguments: Vec::new(),
            next_vreg: 0,
            next_basic_block: 1,
        };
        assert(scope_names(g.scope_locals@) =~= Seq::empty());
        assert(stmt_models(g.irs@) =~= Seq::empty());
        assert(local_models(g.arguments@) =~= Seq::empty());
        g
    }

    /// The next number for a value.
    pub fn alloc_vreg(&mut self) -> (idx: usize)
        requires
            old(self).inv(),
            old(self).next_vreg < usize::MAX,
        ensures
            final(self).inv(),
            final(self).context() == old(self).context(),
            idx == old(self).next_vreg,
            final(self).state() == (State { vreg: old(self).state().vreg + 1, ..old(self).state() }),
    {
        let idx: usize = self.next_vreg;
        self.next_vreg = self.next_vreg + 1;
        idx
    }

    /// A new value of type `dtype`.
    pub fn fresh_local(&mut self, dtype: Dtype) -> (local: Local)
        requires
            old(self).inv(),
            old(self).next_vreg < usize::MAX,
        ensures
            final(self).inv(),
            final(self).context() == old(self).context(),
            (final(self).state(), OperandModel::Local(local@)) == old(self).state().fresh(dtype@),
    {
        let id: usize = self.alloc_vreg();
        Local::new(dtype, LocalId(id))
    }

    /// A new value of type `dtype` as an operand.
    pub fn alloc_temporary(&mut self, dtype: Dtype) -> (o: Operand)
        requires
            old(self).inv(),
            old(self).next_vreg < usize::MAX,
        ensures
            final(self).inv(),
            final(self).context() == old(self).context(),
            (final(self).state(), o@) == old(self).state().fresh(dtype@),
    {
        Operand::Local(self.fresh_local(dtype))
    }

    /// A new label.
    pub fn alloc_basic_block(&mut self) -> (label: BlockLabel)
        requires
            old(self).inv(),
            old(self).next_basic_block < usize::MAX,
        ensures
            final(self).inv(),
            final(self).context() == old(self).context(),
            (final(self).state(), label@) == old(self).state().label(),
    {
        let idx: usize = self.next_basic_block;
        self.next_basic_block = self.next_basic_block + 1;
        BlockLabel::BasicBlock(idx)
    }

    /// The place that a name stands for: a local variable, else a global.
    pub fn lookup_variable(&self, id: &String) -> (r: Result<Operand, Error>)
        requires
            self.inv(),
        ensures
            outcome(r) == lookup(self.context(), self.state(), id@),
    {
        match self.local_variables.get(id.as_str()) {
            Some(local) => Ok(Operand::from(local)),
            None => match self.global_variables.get(id.as_str()) {
                Some(global) => Ok(
                    Operand::Global(
                        GlobalRef { name: id.clone(), dtype: global.dtype.clone() },
                    ),
                ),
                None => Err(Error::VariableNotDefined { symbol: id.clone() }),
            },
        }
    }

    /// Opens a scope.
    pub fn enter_scope(&mut self)
        requires
            old(self).inv(),
        ensures
            final(self).inv(),
            final(self).context() == old(self).context(),
            final(self).state() == old(self).state().enter(),
    {
        let empty: Vec<String> = Vec::new();
        let ghost before = self.scope_locals@;
        self.scope_locals.push(empty);
        proof {
            assert(crate::common::text::texts(empty@) =~= Seq::empty());
            assert(scope_names(self.scope_locals@) =~= scope_names(before).push(Seq::empty()));
        }
    }

    /// Closes the innermost scope and forgets its names.
    pub fn exit_scope(&mut self)
        requires
            old(self).inv(),
        ensures
            final(self).inv(),
            final(self).context() == old(self).context(),
            final(self).state() == old(self).state().exit(),
    {
        let ghost before = self.state();
        match self.scope_locals.pop() {
            Some(names) => {
                let ghost texts = crate::common::text::texts(names@);
                let ghost scopes = self.scope_locals@;
                assert(scope_names(scopes) =~= before.scopes.drop_last());
                assert(before.scopes.last() == texts);
                let mut i: usize = 0;
                assert(texts.take(0).to_set() =~= Set::empty());
                assert(self.local_variables@ =~= before.locals.remove_keys(texts.take(0).to_set()));
                while i < names.len()
                    invariant
                        i <= names.len(),
                        texts == crate::common::text::texts(names@),
                        self.inv(),
                        self.context() == old(self).context(),
                        self.scope_locals@ == scopes,
                        self.irs == old(self).irs,
                        self.arguments == old(self).arguments,
                        self.next_vreg == old(self).next_vreg,
                        self.next_basic_block == old(self).next_basic_block,
                        self.local_variables@ == before.locals.remove_keys(
                            texts.take(i as int).to_set(),
                        ),
                    decreases names.len() - i,
                {
                    self.local_variables.remove(names[i].as_str());
                    proof {
                        let t = texts.take(i + 1);
                        let n = texts[i as int];
                        assert forall|k: Seq<char>| t.to_set().contains(k) <==> (
                        texts.take(i as int).to_set().contains(k) || k == n) by {
                            if texts.take(i as int).contains(k) {
                                let j = choose|j: int|
                                    0 <= j < i && texts.take(i as int)[j] == k;
                                assert(t[j] == k);
                            }
                            assert(t[i as int] == n);
                            if t.contains(k) {
                                let j = choose|j: int| 0 <= j < t.len() && t[j] == k;
                                if j < i {
                                    assert(texts.take(i as int)[j] == k);
                                }
                            }
                        }
                        assert(self.local_variables@ =~= before.locals.remove_keys(t.to_set()));
                    }
                    i = i + 1;
                }
                assert(texts.take(i as int) =~= texts);
                assert(self.state() =~= before.exit());
            },
            None => {
                assert(self.state() =~= before);
            },
        }
    }

    /// Records `id` in the innermost scope, if there is one.
    pub fn record_scoped_local(&mut self, id: String)
        requires
            old(self).inv(),
        ensures
            final(self).inv(),
            final(self).context() == old(self).context(),
            final(self).state() == old(self).state().record(id@),
    {
        let ghost before = self.state();
        let n: usize = self.scope_locals.len();
        if n > 0 {
            let ghost old_scopes = self.scope_locals@;
            self.scope_locals[n - 1].push(id);
            proof {
                let texts = crate::common::text::texts(self.scope_locals@[n - 1]@);
                assert(texts =~= before.scopes.last().push(id@));
                assert(scope_names(self.scope_locals@) =~= before.scopes.drop_last().push(
                    before.scopes.last().push(id@),
                ));
            }
        }
        assert(self.state() =~= before.record(id@));
    }

    fn push(&mut self, s: Stmt)
        requires
            old(self).inv(),
        ensures
            final(self).inv(),
            final(self).context() == old(self).context(),
            final(self).state() == old(self).state().emit(s@),
    {
        let ghost before = self.irs@;
        self.irs.push(s);
        assert(stmt_models(self.irs@) =~= stmt_models(before).push(s@));
    }

    /// Allocates a stack slot.
    pub fn emit_alloca(&mut self, dst: Operand)
        requires
            old(self).inv(),
        ensures
            final(self).inv(),
            final(self).context() == old(self).context(),
            final(self).state() == old(self).state().emit(StmtModel::Alloca { dst: dst@ }),
    {
        self.push(Stmt::as_alloca(dst));
    }

    /// Loads `dst` from the address `ptr`.
    pub fn emit_load(&mut self, dst: Operand, ptr: Operand)
        requires
            old(self).inv(),
        ensures
            final(self).inv(),
            final(self).context() == old(self).context(),
            final(self).state() == old(self).state().emit(StmtModel::Load { dst: dst@, ptr: ptr@ }),
    {
        self.push(Stmt::as_load(dst, ptr));
    }

    /// Stores `src` to the address `ptr`.
    pub fn emit_store(&mut self, src: Operand, ptr: Operand)
        requires
            old(self).inv(),
        ensures
            final(self).inv(),
            final(self).context() == old(self).context(),
            final(self).state() == old(self).state().emit(StmtModel::Store { src: src@, ptr: ptr@ }),
    {
        self.push(Stmt::as_store(src, ptr));
    }

    /// Computes the address of an element.
    pub fn emit_gep(&mut self, new_ptr: Operand, base_ptr: Operand, index: Operand)
        requires
            old(self).inv(),
        ensures
            final(self).inv(),
            final(self).context() == old(self).context(),
            final(self).state() == old(self).state().emit(StmtModel::Gep { new_ptr: new_ptr@, base_ptr: base_ptr@, index: index@ }),
    {
        self.push(Stmt::as_gep(new_ptr, base_ptr, index));
    }

    /// Performs an arithmetic operation.
    pub fn emit_biop(&mut self, op: ArithBinOp, left: Operand, right: Operand, dst: Operand)
        requires
            old(self).inv(),
        ensures
            final(self).inv(),
            final(self).context() == old(self).context(),
            final(self).state() == old(self).state().emit(StmtModel::BiOp { kind: op, left: left@, right: right@, dst: dst@ }),
    {
        self.push(Stmt::as_biop(op, left, right, dst));
    }

    /// Compares.
    pub fn emit_cmp(&mut self, op: CmpPredicate, left: Operand, right: Operand, dst: Operand)
        requires
            old(self).inv(),
        ensures
            final(self).inv(),
            final(self).context() == old(self).context(),
            final(self).state() == old(self).state().emit(StmtModel::Cmp { kind: op, left: left@, right: right@, dst: dst@ }),
    {
        self.push(Stmt::as_cmp(op, left, right, dst));
    }

    /// Branches on `cond`.
    pub fn emit_cjump(&mut self, cond: Operand, true_label: BlockLabel, false_label: BlockLabel)
        requires
            old(self).inv(),
        ensures
            final(self).inv(),
            final(self).context() == old(self).context(),
            final(self).state() == old(self).state().emit(StmtModel::CJump { cond: cond@, true_label: true_label@, false_label: false_label@ }),
    {
        self.push(Stmt::as_cjump(cond, true_label, false_label));
    }

    /// Branches.
    pub fn emit_jump(&mut self, target: BlockLabel)
        requires
            old(self).inv(),
        ensures
            final(self).inv(),
            final(self).context() == old(self).context(),
            final(self).state() == old(self).state().emit(StmtModel::Jump { target: target@ }),
    {
        self.push(Stmt::as_jump(target));
    }

    /// Starts a block.
    pub fn emit_label(&mut self, label: BlockLabel)
        requires
            old(self).inv(),
        ensures
            final(self).inv(),
            final(self).context() == old(self).context(),
            final(self).state() == old(self).state().emit(StmtModel::Label { label: label@ }),
    {
        self.push(Stmt::as_label(label));
    }

    /// Calls a function.
    pub fn emit_call(&mut self, func_name: String, result: Option<Operand>, args: Vec<Operand>)
        requires
            old(self).inv(),
        ensures
            final(self).inv(),
            final(self).context() == old(self).context(),
            final(self).state() == old(self).state().emit(StmtModel::Call { func_name: func_name@, res: crate::ir::stmt::option_model(result), args: operand_models(args@) }),
    {
        self.push(Stmt::as_call(func_name, result, args));
    }

    /// Returns.
    pub fn emit_return(&mut self, val: Option<Operand>)
        requires
            old(self).inv(),
        ensures
            final(self).inv(),
            final(self).context() == old(self).context(),
            final(self).state() == old(self).state().emit(StmtModel::Return { val: crate::ir::stmt::option_model(val) }),
    {
        self.push(Stmt::as_return(val));
    }
}

/// Whether a type is an array or a pointer to one.
fn is_array_place(d: &Dtype) -> (b: bool)
    ensures
        b == holds_array(d@),
{
    proof {
        reveal_with_fuel(Dtype::model, 3);
    }
    match d {
        Dtype::Array { .. } => true,
        Dtype::Pointer { pointee } => match &**pointee {
            Dtype::Array { .. } => true,
            _ => false,
        },
        _ => false,
    }
}

/// The element type of an array, or of what a pointer points to.
fn array_element_dtype(d: &Dtype) -> (e: Option<&Dtype>)
    ensures
        match e {
            Some(x) => array_element(d@) == Some(x@),
            None => array_element(d@) is None,
        },
{
    proof {
        reveal_with_fuel(Dtype::model, 3);
    }
    match d {
        Dtype::Array { element, .. } => Some(&**element),
        Dtype::Pointer { pointee } => match &**pointee {
            Dtype::Array { element, .. } => Some(&**element),
            _ => None,
        },
        _ => None,
    }
}

/// What indexing a value of a type yields.
fn indexed_dtype(d: &Dtype) -> (e: Option<&Dtype>)
    ensures
        match e {
            Some(x) => indexed(d@) == Some(x@),
            None => indexed(d@) is None,
        },
{
    proof {
        reveal_with_fuel(Dtype::model, 3);
    }
    match d {
        Dtype::Pointer { pointee } => match &**pointee {
            Dtype::Array { element, .. } => Some(&**element),
            _ => Some(&**pointee),
        },
        Dtype::Array { element, .. } => Some(&**element),
        _ => None,
    }
}

/// An index as an operand.
fn array_index_operand(index: usize) -> (o: Operand)
    requires
        index <= i32::MAX,
    ensures
        o@ == OperandModel::i32_const(index as int),
{
    Operand::from(index as i32)
}

impl<'ir> FunctionGenerator<'ir> {
    /// The value of an operand: scalars behind an address are loaded.
    fn load_value(&mut self, op: Operand) -> (r: Operand)
        requires
            old(self).inv(),
            loaded(old(self).state(), op@).0.fits(),
        ensures
            final(self).inv(),
            final(self).context() == old(self).context(),
            (final(self).state(), r@) == loaded(old(self).state(), op@),
    {
        let ghost cx = self.context();
        let ghost st = self.state();
        proof {
            reveal_with_fuel(Dtype::model, 3);
        }
        let target: Option<Dtype> = match op.dtype() {
            Dtype::Pointer { pointee } => match &**pointee {
                Dtype::Array { .. } | Dtype::Struct { .. } => None,
                other => if op.is_addressable() {
                    Some(other.clone())
                } else {
                    None
                },
            },
            Dtype::I32 => if op.is_global() {
                Some(Dtype::I32)
            } else {
                None
            },
            _ => None,
        };
        match target {
            Some(d) => {
                let dst = self.alloc_temporary(d);
                self.emit_load(dst.clone(), op);
                dst
            },
            None => op,
        }
    }

    /// Translates an atomic expression to a value.
    fn handle_expr_unit(&mut self, unit: &ExprUnit) -> (r: Result<Operand, Error>)
        requires
            old(self).inv(),
            unit_in_range(*unit),
            unit_code(old(self).context(), old(self).state(), *unit).0.fits(),
        ensures
            final(self).inv(),
            final(self).context() == old(self).context(),
            (final(self).state(), outcome(r)) == unit_code(old(self).context(), old(self).state(), *unit),
        decreases unit, 0int,
    {
        let ghost cx = self.context();
        let ghost st = self.state();
        match &unit.inner {
            ExprUnitInner::Num(num) => Ok(Operand::from(*num)),
            ExprUnitInner::Id(id) => {
                let op = self.lookup_variable(id)?;
                if is_array_place(op.dtype()) {
                    return Err(Error::ArrayUsedAsValue { symbol: id.clone() });
                }
                Ok(self.load_value(op))
            },
            ExprUnitInner::ArithExpr(expr) => {
                let op = self.handle_arith_expr(expr)?;
                Ok(self.load_value(op))
            },
            ExprUnitInner::FnCall(fn_call) => self.handle_call_value(fn_call, unit),
            ExprUnitInner::ArrayExpr(expr) => {
                let op = self.handle_array_expr(expr)?;
                Ok(self.load_value(op))
            },
            ExprUnitInner::MemberExpr(expr) => {
                let op = self.handle_member_expr(expr)?;
                Ok(self.load_value(op))
            },
            ExprUnitInner::Reference(id) => self.handle_reference_expr(id),
        }
    }

    /// Translates a call that stands in an expression.
    fn handle_call_value(&mut self, fn_call: &FnCall, unit: &ExprUnit) -> (r: Result<Operand, Error>)
        requires
            old(self).inv(),
            values_in_range(fn_call.vals@),
            call_value_code(old(self).context(), old(self).state(), *fn_call, unit@).0.fits(),
        ensures
            final(self).inv(),
            final(self).context() == old(self).context(),
            (final(self).state(), outcome(r)) == call_value_code(old(self).context(), old(self).state(), *fn_call, unit@),
        decreases fn_call, 0int,
    {
        let ghost cx = self.context();
        let ghost st = self.state();
        let name = fn_call.qualified_name();
        let returns_value = match self.registry.function_types.get(name.as_str()) {
            Some(t) => match t.return_dtype {
                Dtype::I32 => true,
                _ => false,
            },
            None => false,
        };
        if !returns_value {
            return Err(Error::InvalidExprUnit { expr_unit: unit.copy() });
        }
        proof {
            lemma_args_grow(cx, st.fresh(DtypeModel::I32).0, fn_call.vals@);
        }
        let res = self.alloc_temporary(Dtype::I32);
        let args = self.handle_arguments(&fn_call.vals)?;
        self.emit_call(self.registry.link_name(name.as_str()), Some(res.clone()), args);
        Ok(res)
    }

    /// Translates the arguments of a call.
    fn handle_arguments(&mut self, vals: &Vec<RightVal>) -> (r: Result<Vec<Operand>, Error>)
        requires
            old(self).inv(),
            values_in_range(vals@),
            args_code(old(self).context(), old(self).state(), vals@).0.fits(),
        ensures
            final(self).inv(),
            final(self).context() == old(self).context(),
            (
                final(self).state(),
                match r {
                    Ok(args) => Ok(operand_models(args@)),
                    Err(e) => Err(e@),
                },
            ) == args_code(old(self).context(), old(self).state(), vals@),
        decreases vals, 0int,
    {
        let ghost cx = self.context();
        let ghost st = self.state();
        let mut args: Vec<Operand> = Vec::new();
        let mut i: usize = 0;
        assert(vals@.take(0) =~= Seq::empty());
        assert(operand_models(args@) =~= Seq::empty());
        while i < vals.len()
            invariant
                i <= vals.len(),
                cx == old(self).context(),
                st == old(self).state(),
                self.inv(),
                self.context() == cx,
                values_in_range(vals@),
                args_code(cx, st, vals@).0.fits(),
                args_code(cx, st, vals@.take(i as int)) == (
                    self.state(),
                    Ok::<Seq<OperandModel>, ErrorModel>(operand_models(args@)),
                ),
            decreases vals.len() - i,
        {
            let ghost before = args@;
            proof {
                let longer = vals@.take(i + 1);
                assert(longer.drop_last() =~= vals@.take(i as int));
                assert(longer.last() == vals@[i as int]);
                lemma_args_prefix(cx, st, vals@, i + 1);
            }
            let v = self.handle_right_val(&vals[i])?;
            args.push(v);
            assert(operand_models(args@) =~= operand_models(before).push(v@));
            i = i + 1;
        }
        assert(vals@.take(i as int) =~= vals@);
        Ok(args)
    }

    /// Translates a reference to an array.
    fn handle_reference_expr(&mut self, id: &String) -> (r: Result<Operand, Error>)
        requires
            old(self).inv(),
            reference_code(old(self).context(), old(self).state(), id@).0.fits(),
        ensures
            final(self).inv(),
            final(self).context() == old(self).context(),
            (final(self).state(), outcome(r)) == reference_code(old(self).context(), old(self).state(), id@),
    {
        let ghost cx = self.context();
        let ghost st = self.state();
        let operand = self.lookup_variable(id)?;
        let element = match array_element_dtype(operand.dtype()) {
            Some(e) => e.clone(),
            None => {
                return Err(Error::InvalidReference { symbol: id.clone() });
            },
        };
        let target = self.alloc_temporary(Dtype::ptr_to(Dtype::unsized_array(element)));
        self.emit_gep(target.clone(), operand, Operand::from(0i32));
        Ok(target)
    }

    /// Translates an arithmetic expression to a value.
    fn handle_arith_expr(&mut self, expr: &ArithExpr) -> (r: Result<Operand, Error>)
        requires
            old(self).inv(),
            arith_in_range(*expr),
            arith_code(old(self).context(), old(self).state(), *expr).0.fits(),
        ensures
            final(self).inv(),
            final(self).context() == old(self).context(),
            (final(self).state(), outcome(r)) == arith_code(old(self).context(), old(self).state(), *expr),
        decreases expr, 0int,
    {
        match &expr.inner {
            ArithExprInner::ArithBiOpExpr(e) => self.handle_arith_biop_expr(e),
            ArithExprInner::ExprUnit(unit) => self.handle_expr_unit(unit),
        }
    }

    /// Translates an arithmetic operation to a value.
    fn handle_arith_biop_expr(&mut self, expr: &ArithBiOpExpr) -> (r: Result<Operand, Error>)
        requires
            old(self).inv(),
            arith_in_range(*expr.left),
            arith_in_range(*expr.right),
            (match arith_code(old(self).context(), old(self).state(), *expr.left) {
                (s1, Err(x)) => (s1, Err(x)),
                (s1, Ok(left)) => match arith_code(old(self).context(), s1, *expr.right) {
                    (s2, Err(x)) => (s2, Err(x)),
                    (s2, Ok(right)) => {
                        let (s3, dst) = s2.fresh(DtypeModel::I32);
                        (
                            s3.emit(
                                StmtModel::BiOp { kind: arith_of(expr.op), left, right, dst },
                            ),
                            Ok(dst),
                        )
                    },
                },
            }).0.fits(),
        ensures
            final(self).inv(),
            final(self).context() == old(self).context(),
            (final(self).state(), outcome(r)) == (match arith_code(old(self).context(), old(self).state(), *expr.left) {
                (s1, Err(x)) => (s1, Err(x)),
                (s1, Ok(left)) => match arith_code(old(self).context(), s1, *expr.right) {
                    (s2, Err(x)) => (s2, Err(x)),
                    (s2, Ok(right)) => {
                        let (s3, dst) = s2.fresh(DtypeModel::I32);
                        (
                            s3.emit(
                                StmtModel::BiOp { kind: arith_of(expr.op), left, right, dst },
                            ),
                            Ok(dst),
                        )
                    },
                },
            }),
        decreases expr, 0int,
    {
        let ghost cx = self.context();
        let ghost st = self.state();
        proof {
            lemma_arith_grows(cx, arith_code(cx, st, *expr.left).0, *expr.right);
        }
        let left = self.handle_arith_expr(&expr.left)?;
        let right = self.handle_arith_expr(&expr.right)?;
        let dst = self.alloc_temporary(Dtype::I32);
        self.emit_biop(ArithBinOp::from(&expr.op), left, right, dst.clone());
        Ok(dst)
    }

    /// Translates a right-hand side to a value.
    fn handle_right_val(&mut self, val: &RightVal) -> (r: Result<Operand, Error>)
        requires
            old(self).inv(),
            right_in_range(*val),
            right_code(old(self).context(), old(self).state(), *val).0.fits(),
        ensures
            final(self).inv(),
            final(self).context() == old(self).context(),
            (final(self).state(), outcome(r)) == right_code(old(self).context(), old(self).state(), *val),
        decreases val, 0int,
    {
        match &val.inner {
            RightValInner::ArithExpr(expr) => self.handle_arith_expr(expr),
            RightValInner::BoolExpr(expr) => self.handle_bool_expr_as_value(expr),
        }
    }

    /// The base of an array access: an address of a pointer is loaded first.
    fn load_array_base(&mut self, arr: Operand) -> (r: Operand)
        requires
            old(self).inv(),
            array_base(old(self).state(), arr@).0.fits(),
        ensures
            final(self).inv(),
            final(self).context() == old(self).context(),
            (final(self).state(), r@) == array_base(old(self).state(), arr@),
    {
        let ghost cx = self.context();
        let ghost st = self.state();
        proof {
            reveal_with_fuel(Dtype::model, 3);
        }
        let target: Option<Dtype> = match arr.dtype() {
            Dtype::Pointer { pointee } => if pointee.is_pointer() {
                Some((&**pointee).clone())
            } else {
                None
            },
            _ => None,
        };
        match target {
            Some(d) => {
                let loaded = self.alloc_temporary(d);
                self.emit_load(loaded.clone(), arr);
                loaded
            },
            None => arr,
        }
    }

    /// Translates an array access to an address.
    fn handle_array_expr(&mut self, expr: &ArrayExpr) -> (r: Result<Operand, Error>)
        requires
            old(self).inv(),
            element_in_range(*expr),
            element_code(old(self).context(), old(self).state(), *expr).0.fits(),
        ensures
            final(self).inv(),
            final(self).context() == old(self).context(),
            (final(self).state(), outcome(r)) == element_code(old(self).context(), old(self).state(), *expr),
        decreases expr, 0int,
    {
        let ghost cx = self.context();
        let ghost st = self.state();
        let arr = self.handle_left_val(&expr.arr)?;
        let base = self.load_array_base(arr);
        let element = match indexed_dtype(base.dtype()) {
            Some(e) => e.clone(),
            None => {
                return Err(Error::InvalidArrayExpression);
            },
        };
        let target = self.alloc_temporary(Dtype::ptr_to(element));
        let index = self.handle_index_expr(&expr.idx)?;
        self.emit_gep(target.clone(), base, index);
        Ok(target)
    }

    /// The index and type of the member that a member access refers to.
    fn find_accessed_member(&self, op: &Operand, expr: &MemberExpr) -> (m: Option<(i32, Dtype)>)
        requires
            self.inv(),
        ensures
            match m {
                Some(x) => accessed_member(self.context(), op@, *expr) matches Some(y) && x.0
                    == y.index && x.1@ == y.dtype,
                None => accessed_member(self.context(), op@, *expr) is None,
            },
    {
        let name = match op.dtype().struct_type_name() {
            Some(n) => n,
            None => {
                return None;
            },
        };
        let struct_type = match self.registry.struct_types.get(name.as_str()) {
            Some(t) => t,
            None => {
                return None;
            },
        };
        match struct_type.member(&expr.member_id) {
            Some(m) => {
                if m.index > i32::MAX as usize {
                    return None;
                }
                match &m.dtype {
                    Dtype::Void => None,
                    d => Some((m.index as i32, d.clone())),
                }
            },
            None => None,
        }
    }

    /// Translates a member access to an address.
    fn handle_member_expr(&mut self, expr: &MemberExpr) -> (r: Result<Operand, Error>)
        requires
            old(self).inv(),
            member_in_range(*expr),
            member_code(old(self).context(), old(self).state(), *expr).0.fits(),
        ensures
            final(self).inv(),
            final(self).context() == old(self).context(),
            (final(self).state(), outcome(r)) == member_code(old(self).context(), old(self).state(), *expr),
        decreases expr, 0int,
    {
        let ghost cx = self.context();
        let ghost st = self.state();
        let s = self.handle_left_val(&expr.struct_id)?;
        match self.find_accessed_member(&s, expr) {
            Some((index, dtype)) => {
                let target = self.alloc_temporary(Dtype::ptr_to(dtype));
                self.emit_gep(target.clone(), s, Operand::from(index));
                Ok(target)
            },
            None => Err(Error::InvalidStructMemberExpression { expr: expr.copy() }),
        }
    }

    /// Translates a place to an address.
    fn handle_left_val(&mut self, val: &LeftVal) -> (r: Result<Operand, Error>)
        requires
            old(self).inv(),
            place_in_range(*val),
            place_code(old(self).context(), old(self).state(), *val).0.fits(),
        ensures
            final(self).inv(),
            final(self).context() == old(self).context(),
            (final(self).state(), outcome(r)) == place_code(old(self).context(), old(self).state(), *val),
        decreases val, 0int,
    {
        match &val.inner {
            LeftValInner::Id(id) => self.lookup_variable(id),
            LeftValInner::ArrayExpr(expr) => self.handle_array_expr(expr),
            LeftValInner::MemberExpr(expr) => self.handle_member_expr(expr),
        }
    }

    /// Translates an array index to a value.
    fn handle_index_expr(&mut self, expr: &IndexExpr) -> (r: Result<Operand, Error>)
        requires
            old(self).inv(),
            index_in_range(*expr),
            index_code(old(self).context(), old(self).state(), *expr).0.fits(),
        ensures
            final(self).inv(),
            final(self).context() == old(self).context(),
            (final(self).state(), outcome(r)) == index_code(old(self).context(), old(self).state(), *expr),
    {
        match &expr.inner {
            IndexExprInner::Id(id) => {
                let src = self.lookup_variable(id)?;
                let idx = self.alloc_temporary(Dtype::I32);
                self.emit_load(idx.clone(), src);
                Ok(idx)
            },
            IndexExprInner::Num(num) => Ok(array_index_operand(*num)),
        }
    }

    /// Stores 1 or 0 at `bool_ptr`, depending on which label control reaches.
    fn emit_bool_materialization(
        &mut self,
        true_label: BlockLabel,
        false_label: BlockLabel,
        after_label: BlockLabel,
        bool_ptr: Operand,
    )
        requires
            old(self).inv(),
        ensures
            final(self).inv(),
            final(self).context() == old(self).context(),
            final(self).state() == materialized(
                old(self).state(),
                true_label@,
                false_label@,
                after_label@,
                bool_ptr@,
            ),
    {
        self.emit_label(true_label);
        self.emit_store(Operand::from(1i32), bool_ptr.clone());
        self.emit_jump(after_label.clone());
        self.emit_label(false_label);
        self.emit_store(Operand::from(0i32), bool_ptr);
        self.emit_jump(after_label.clone());
        self.emit_label(after_label);
    }

    /// Translates a boolean expression to the value 0 or 1.
    fn handle_bool_expr_as_value(&mut self, expr: &BoolExpr) -> (r: Result<Operand, Error>)
        requires
            old(self).inv(),
            bool_in_range(*expr),
            truth_code(old(self).context(), old(self).state(), *expr).0.fits(),
        ensures
            final(self).inv(),
            final(self).context() == old(self).context(),
            (final(self).state(), outcome(r)) == truth_code(old(self).context(), old(self).state(), *expr),
        decreases expr, 1int,
    {
        let ghost cx = self.context();
        let ghost st = self.state();
        proof {
            lemma_branch_grows(
                cx,
                truth_start(st),
                *expr,
                LabelModel::BasicBlock(st.block),
                LabelModel::BasicBlock(st.block + 1),
            );
        }
        let true_label = self.alloc_basic_block();
        let false_label = self.alloc_basic_block();
        let after_label = self.alloc_basic_block();
        let slot = self.allocate_pointer_local(Dtype::I32);
        let bool_evaluated = Operand::Local(slot);
        self.handle_bool_expr_as_branch(expr, true_label.clone(), false_label.clone())?;
        self.emit_bool_materialization(
            true_label,
            false_label,
            after_label,
            bool_evaluated.clone(),
        );
        let loaded = self.alloc_temporary(Dtype::I32);
        self.emit_load(loaded.clone(), bool_evaluated);
        Ok(loaded)
    }

    /// Translates a boolean expression to a branch.
    fn handle_bool_expr_as_branch(&mut self, expr: &BoolExpr, true_label: BlockLabel, false_label: BlockLabel) -> (r: Result<(), Error>)
        requires
            old(self).inv(),
            bool_in_range(*expr),
            branch_code(old(self).context(), old(self).state(), *expr, true_label@, false_label@).0.fits(),
        ensures
            final(self).inv(),
            final(self).context() == old(self).context(),
            (final(self).state(), done(r)) == branch_code(old(self).context(), old(self).state(), *expr, true_label@, false_label@),
        decreases expr, 0int,
    {
        match &expr.inner {
            BoolExprInner::BoolBiOpExpr(biop) => self.handle_bool_biop_expr(
                biop,
                true_label,
                false_label,
            ),
            BoolExprInner::BoolUnit(unit) => self.handle_bool_unit(unit, true_label, false_label),
        }
    }

    /// Translates `&&` or `||` to branches.
    fn handle_bool_biop_expr(
        &mut self,
        expr: &BoolBiOpExpr,
        true_label: BlockLabel,
        false_label: BlockLabel,
    ) -> (r: Result<(), Error>)
        requires
            old(self).inv(),
            bool_in_range(*expr.left),
            bool_in_range(*expr.right),
            short_circuit(
                old(self).context(),
                old(self).state(),
                *expr,
                true_label@,
                false_label@,
            ).0.fits(),
        ensures
            final(self).inv(),
            final(self).context() == old(self).context(),
            (final(self).state(), done(r)) == short_circuit(
                old(self).context(),
                old(self).state(),
                *expr,
                true_label@,
                false_label@,
            ),
        decreases expr, 0int,
    {
        let ghost cx = self.context();
        let ghost st = self.state();
        proof {
            let (s1, eval_right) = st.label();
            let s2 = match expr.op {
                BoolBiOp::And => branch_code(cx, s1, *expr.left, eval_right, false_label@).0,
                BoolBiOp::Or => branch_code(cx, s1, *expr.left, true_label@, eval_right).0,
            };
            match expr.op {
                BoolBiOp::And => lemma_branch_grows(
                    cx,
                    s1,
                    *expr.left,
                    eval_right,
                    false_label@,
                ),
                BoolBiOp::Or => lemma_branch_grows(cx, s1, *expr.left, true_label@, eval_right),
            }
            lemma_branch_grows(
                cx,
                s2.emit(StmtModel::Label { label: eval_right }),
                *expr.right,
                true_label@,
                false_label@,
            );
        }
        let eval_right_label = self.alloc_basic_block();
        match expr.op {
            BoolBiOp::And => {
                self.handle_bool_expr_as_branch(
                    &expr.left,
                    eval_right_label.clone(),
                    false_label.clone(),
                )?;
            },
            BoolBiOp::Or => {
                self.handle_bool_expr_as_branch(
                    &expr.left,
                    true_label.clone(),
                    eval_right_label.clone(),
                )?;
            },
        }
        self.emit_label(eval_right_label);
        self.handle_bool_expr_as_branch(&expr.right, true_label, false_label)
    }

    /// Translates a comparison to a branch.
    fn handle_com_op_expr(&mut self, expr: &ComExpr, true_label: BlockLabel, false_label: BlockLabel) -> (r: Result<(), Error>)
        requires
            old(self).inv(),
            unit_in_range(*expr.left),
            unit_in_range(*expr.right),
            comparison_code(old(self).context(), old(self).state(), *expr, true_label@, false_label@).0.fits(),
        ensures
            final(self).inv(),
            final(self).context() == old(self).context(),
            (final(self).state(), done(r)) == comparison_code(old(self).context(), old(self).state(), *expr, true_label@, false_label@),
        decreases expr, 0int,
    {
        let ghost cx = self.context();
        let ghost st = self.state();
        proof {
            lemma_unit_grows(cx, unit_code(cx, st, *expr.left).0, *expr.right);
        }
        let left = self.handle_expr_unit(&expr.left)?;
        let right = self.handle_expr_unit(&expr.right)?;
        let dst = self.alloc_temporary(Dtype::I1);
        self.emit_cmp(CmpPredicate::from(&expr.op), left, right, dst.clone());
        self.emit_cjump(dst, true_label, false_label);
        Ok(())
    }

    /// Translates an atomic boolean expression to a branch.
    fn handle_bool_unit(&mut self, unit: &BoolUnit, true_label: BlockLabel, false_label: BlockLabel) -> (r: Result<(), Error>)
        requires
            old(self).inv(),
            bool_unit_in_range(*unit),
            unit_branch_code(old(self).context(), old(self).state(), *unit, true_label@, false_label@).0.fits(),
        ensures
            final(self).inv(),
            final(self).context() == old(self).context(),
            (final(self).state(), done(r)) == unit_branch_code(old(self).context(), old(self).state(), *unit, true_label@, false_label@),
        decreases unit, 0int,
    {
        match &unit.inner {
            BoolUnitInner::ComExpr(expr) => self.handle_com_op_expr(expr, true_label, false_label),
            BoolUnitInner::BoolExpr(expr) => self.handle_bool_expr_as_branch(
                expr,
                true_label,
                false_label,
            ),
            BoolUnitInner::BoolUOpExpr(expr) => self.handle_bool_unit(
                &expr.cond,
                false_label,
                true_label,
            ),
        }
    }

    /// A new stack slot for a value of type `pointee`.
    fn allocate_pointer_local(&mut self, pointee: Dtype) -> (local: Local)
        requires
            old(self).inv(),
            old(self).next_vreg < usize::MAX,
        ensures
            final(self).inv(),
            final(self).context() == old(self).context(),
            (final(self).state(), OperandModel::Local(local@)) == old(self).state().slot(pointee@),
    {
        let local = self.fresh_local(Dtype::ptr_to(pointee));
        self.emit_alloca(Operand::from(&local));
        local
    }

    /// A new stack slot that holds `right_val`.
    fn define_scalar_local(&mut self, pointee: Dtype, right_val: Operand) -> (local: Local)
        requires
            old(self).inv(),
            old(self).next_vreg < usize::MAX,
        ensures
            final(self).inv(),
            final(self).context() == old(self).context(),
            ({
                let (s, slot) = old(self).state().slot(pointee@);
                &&& OperandModel::Local(local@) == slot
                &&& final(self).state() == s.emit(
                    StmtModel::Store { src: right_val@, ptr: slot },
                )
            }),
    {
        let local = self.allocate_pointer_local(pointee);
        self.emit_store(right_val, Operand::from(&local));
        local
    }

    /// Introduces a local variable.
    fn insert_scoped_local(&mut self, identifier: &String, variable: Local) -> (r: Result<
        (),
        Error,
    >)
        requires
            old(self).inv(),
        ensures
            final(self).inv(),
            final(self).context() == old(self).context(),
            (final(self).state(), done(r)) == old(self).state().introduce(
                identifier@,
                variable@,
            ),
    {
        if self.local_variables.insert(identifier.clone(), variable) {
            return Err(Error::VariableRedefinition { symbol: identifier.clone() });
        }
        self.record_scoped_local(identifier.clone());
        Ok(())
    }

    /// The element type of a local variable.
    fn local_base_dtype(&self, identifier: &String, explicit: Option<Dtype>, is_scalar: bool) -> (d:
        Dtype)
        requires
            self.inv(),
        ensures
            d@ == local_base(
                self.context(),
                identifier@,
                match explicit {
                    Some(t) => Some(t@),
                    None => None,
                },
                is_scalar,
            ),
    {
        match explicit {
            Some(t) => t,
            None => {
                if is_scalar {
                    match self.resolved_types.get(identifier.as_str()) {
                        Some(t) => t.clone(),
                        None => Dtype::I32,
                    }
                } else {
                    Dtype::I32
                }
            },
        }
    }

    /// The storage type of a local declaration.
    fn plan_local_decl_storage(&self, decl: &VarDecl) -> (d: Dtype)
        requires
            self.inv(),
        ensures
            d@ == declared(
                local_base(
                    self.context(),
                    decl.identifier@,
                    explicit_type(decl.type_specifier),
                    decl.inner is Scalar,
                ),
                decl.inner,
            ),
    {
        let explicit: Option<Dtype> = match &decl.type_specifier {
            Some(t) => Some(specified_dtype(t)),
            None => None,
        };
        let is_scalar = match &decl.inner {
            VarDeclInner::Scalar => true,
            VarDeclInner::Array(_) => false,
        };
        let base = self.local_base_dtype(&decl.identifier, explicit, is_scalar);
        compose_var_decl_dtype(base, &decl.inner)
    }

    /// Translates a local declaration.
    pub fn handle_local_var_decl(&mut self, decl: &VarDecl) -> (r: Result<(), Error>)
        requires
            old(self).inv(),
            decl_code(old(self).context(), old(self).state(), *decl).0.fits(),
        ensures
            final(self).inv(),
            final(self).context() == old(self).context(),
            (final(self).state(), done(r)) == decl_code(old(self).context(), old(self).state(), *decl),
    {
        let pointee = self.plan_local_decl_storage(decl);
        let variable = self.allocate_pointer_local(pointee);
        self.insert_scoped_local(&decl.identifier, variable)
    }

    /// Stores a list of values in an array.
    pub fn init_array(&mut self, base_ptr: &Operand, vals: &Vec<RightVal>) -> (r: Result<(), Error>)
        requires
            old(self).inv(),
            values_in_range(vals@),
            vals.len() <= i32::MAX + 1,
            list_init_code(old(self).context(), old(self).state(), base_ptr@, vals@).0.fits(),
        ensures
            final(self).inv(),
            final(self).context() == old(self).context(),
            (final(self).state(), done(r)) == list_init_code(old(self).context(), old(self).state(), base_ptr@, vals@),
    {
        let ghost cx = self.context();
        let ghost st = self.state();
        let mut i: usize = 0;
        assert(vals@.take(0) =~= Seq::empty());
        while i < vals.len()
            invariant
                i <= vals.len(),
                vals.len() <= i32::MAX + 1,
                cx == old(self).context(),
                st == old(self).state(),
                self.inv(),
                self.context() == cx,
                values_in_range(vals@),
                list_init_code(cx, st, base_ptr@, vals@).0.fits(),
                list_init_code(cx, st, base_ptr@, vals@.take(i as int)) == (
                    self.state(),
                    Ok::<(), ErrorModel>(()),
                ),
            decreases vals.len() - i,
        {
            proof {
                let longer = vals@.take(i + 1);
                assert(longer.drop_last() =~= vals@.take(i as int));
                assert(longer.last() == vals@[i as int]);
                lemma_list_init_prefix(cx, st, base_ptr@, vals@, i + 1);
                lemma_right_grows(
                    cx,
                    self.state().fresh(DtypeModel::I32.pointer()).0,
                    vals@[i as int],
                );
            }
            let element_ptr = self.alloc_temporary(Dtype::ptr_to(Dtype::I32));
            let right_elem = self.handle_right_val(&vals[i])?;
            self.emit_gep(element_ptr.clone(), base_ptr.clone(), array_index_operand(i));
            self.emit_store(right_elem, element_ptr);
            i = i + 1;
        }
        assert(vals@.take(i as int) =~= vals@);
        Ok(())
    }

    /// Initializes an array.
    pub fn init_array_from(&mut self, base_ptr: &Operand, initializer: &ArrayInitializer) -> (r: Result<(), Error>)
        requires
            old(self).inv(),
            init_in_range(*initializer),
            init_code(old(self).context(), old(self).state(), base_ptr@, *initializer).0.fits(),
        ensures
            final(self).inv(),
            final(self).context() == old(self).context(),
            (final(self).state(), done(r)) == init_code(old(self).context(), old(self).state(), base_ptr@, *initializer),
    {
        let ghost cx = self.context();
        let ghost st = self.state();
        match initializer {
            ArrayInitializer::ExplicitList(vals) => self.init_array(base_ptr, vals),
            ArrayInitializer::Fill { val, count } => {
                proof {
                    let (s1, r) = right_code(cx, st, **val);
                    if let Ok(v) = r {
                        lemma_fill_grows(s1, base_ptr@, v, *count as nat, *count as nat);
                    }
                }
                let fill_val = self.handle_right_val(val)?;
                let ghost start = self.state();
                let mut i: usize = 0;
                while i < *count
                    invariant
                        i <= *count,
                        *count <= i32::MAX + 1,
                        cx == old(self).context(),
                        self.inv(),
                        self.context() == cx,
                        self.state() == fill_code(start, base_ptr@, fill_val@, i as nat),
                        fill_code(start, base_ptr@, fill_val@, *count as nat).fits(),
                    decreases *count - i,
                {
                    proof {
                        lemma_fill_grows(
                            start,
                            base_ptr@,
                            fill_val@,
                            (i + 1) as nat,
                            *count as nat,
                        );
                    }
                    let element_ptr = self.alloc_temporary(Dtype::ptr_to(Dtype::I32));
                    self.emit_gep(element_ptr.clone(), base_ptr.clone(), array_index_operand(i));
                    self.emit_store(fill_val.clone(), element_ptr);
                    i = i + 1;
                }
                Ok(())
            },
        }
    }

    /// Translates a local definition.
    pub fn handle_local_var_def(&mut self, def: &VarDef) -> (r: Result<(), Error>)
        requires
            old(self).inv(),
            def_in_range(*def),
            def_code(old(self).context(), old(self).state(), *def).0.fits(),
        ensures
            final(self).inv(),
            final(self).context() == old(self).context(),
            (final(self).state(), done(r)) == def_code(old(self).context(), old(self).state(), *def),
    {
        let ghost cx = self.context();
        let ghost st = self.state();
        let explicit: Option<Dtype> = match &def.type_specifier {
            Some(t) => Some(specified_dtype(t)),
            None => None,
        };
        let is_scalar = match &def.inner {
            VarDefInner::Scalar(_) => true,
            VarDefInner::Array(_) => false,
        };
        let base = self.local_base_dtype(&def.identifier, explicit, is_scalar);
        let pointee = compose_var_def_dtype(base, &def.inner);
        let variable: Local = match &def.inner {
            VarDefInner::Scalar(scalar) => {
                let right_val = self.handle_right_val(&scalar.val)?;
                self.define_scalar_local(pointee, right_val)
            },
            VarDefInner::Array(array) => {
                proof {
                    let (s1, slot) = st.slot(pointee@);
                    lemma_init_grows(cx, s1, slot, array.initializer);
                }
                let local = self.allocate_pointer_local(pointee);
                self.init_array_from(&Operand::from(&local), &array.initializer)?;
                local
            },
        };
        self.insert_scoped_local(&def.identifier, variable)
    }

    /// Translates an assignment.
    pub fn handle_assignment_stmt(&mut self, stmt: &AssignmentStmt) -> (r: Result<(), Error>)
        requires
            old(self).inv(),
            place_in_range(*stmt.left_val),
            right_in_range(*stmt.right_val),
            assignment_code(old(self).context(), old(self).state(), *stmt).0.fits(),
        ensures
            final(self).inv(),
            final(self).context() == old(self).context(),
            (final(self).state(), done(r)) == assignment_code(old(self).context(), old(self).state(), *stmt),
    {
        let ghost cx = self.context();
        let ghost st = self.state();
        proof {
            lemma_right_grows(cx, place_code(cx, st, *stmt.left_val).0, *stmt.right_val);
        }
        let left = self.handle_left_val(&stmt.left_val)?;
        let right = self.handle_right_val(&stmt.right_val)?;
        self.emit_store(right, left);
        Ok(())
    }

    /// Translates a call for its effects.
    pub fn handle_call_stmt(&mut self, stmt: &CallStmt) -> (r: Result<(), Error>)
        requires
            old(self).inv(),
            values_in_range(stmt.fn_call.vals@),
            call_code(old(self).context(), old(self).state(), *stmt).0.fits(),
        ensures
            final(self).inv(),
            final(self).context() == old(self).context(),
            (final(self).state(), done(r)) == call_code(old(self).context(), old(self).state(), *stmt),
    {
        let ghost cx = self.context();
        let ghost st = self.state();
        let function_name = stmt.fn_call.qualified_name();
        let args = self.handle_arguments(&stmt.fn_call.vals)?;
        let returns_value = match self.registry.function_types.get(function_name.as_str()) {
            None => {
                return Err(Error::FunctionNotDefined { symbol: function_name });
            },
            Some(t) => match t.return_dtype {
                Dtype::I32 => true,
                _ => false,
            },
        };
        let retval: Option<Operand> = if returns_value {
            Some(self.alloc_temporary(Dtype::I32))
        } else {
            None
        };
        self.emit_call(self.registry.link_name(function_name.as_str()), retval, args);
        Ok(())
    }

    /// Translates a statement; the labels are the targets of the innermost loop.
    pub fn handle_block(&mut self, stmt: &CodeBlockStmt, con_label: Option<&BlockLabel>, bre_label: Option<&BlockLabel>) -> (r: Result<(), Error>)
        requires
            old(self).inv(),
            stmt_in_range(*stmt),
            stmt_code(old(self).context(), old(self).state(), *stmt, label_model(con_label), label_model(bre_label)).0.fits(),
        ensures
            final(self).inv(),
            final(self).context() == old(self).context(),
            (final(self).state(), done(r)) == stmt_code(old(self).context(), old(self).state(), *stmt, label_model(con_label), label_model(bre_label)),
        decreases stmt,
    {
        match &stmt.inner {
            CodeBlockStmtInner::Assignment(s) => self.handle_assignment_stmt(s),
            CodeBlockStmtInner::VarDecl(s) => match &s.inner {
                VarDeclStmtInner::Decl(d) => self.handle_local_var_decl(d),
                VarDeclStmtInner::Def(d) => self.handle_local_var_def(d),
            },
            CodeBlockStmtInner::Call(s) => self.handle_call_stmt(s),
            CodeBlockStmtInner::If(s) => self.handle_if_stmt(s, con_label, bre_label),
            CodeBlockStmtInner::While(s) => self.handle_while_stmt(s),
            CodeBlockStmtInner::Return(s) => self.handle_return_stmt(s),
            CodeBlockStmtInner::Continue(_) => self.handle_continue_stmt(con_label),
            CodeBlockStmtInner::Break(_) => self.handle_break_stmt(bre_label),
            CodeBlockStmtInner::Null(_) => Ok(()),
        }
    }

    /// Translates a list of statements.
    fn handle_stmts(&mut self, stmts: &Vec<CodeBlockStmt>, con_label: Option<&BlockLabel>, bre_label: Option<&BlockLabel>) -> (r: Result<(), Error>)
        requires
            old(self).inv(),
            stmts_in_range(stmts@),
            stmts_code(old(self).context(), old(self).state(), stmts@, label_model(con_label), label_model(bre_label)).0.fits(),
        ensures
            final(self).inv(),
            final(self).context() == old(self).context(),
            (final(self).state(), done(r)) == stmts_code(old(self).context(), old(self).state(), stmts@, label_model(con_label), label_model(bre_label)),
        decreases stmts,
    {
        let ghost cx = self.context();
        let ghost st = self.state();
        let ghost con = label_model(con_label);
        let ghost bre = label_model(bre_label);
        let mut i: usize = 0;
        assert(stmts@.take(0) =~= Seq::empty());
        while i < stmts.len()
            invariant
                i <= stmts.len(),
                con == label_model(con_label),
                bre == label_model(bre_label),
                cx == old(self).context(),
                st == old(self).state(),
                self.inv(),
                self.context() == cx,
                stmts_in_range(stmts@),
                stmts_code(cx, st, stmts@, con, bre).0.fits(),
                stmts_code(cx, st, stmts@.take(i as int), con, bre) == (
                    self.state(),
                    Ok::<(), ErrorModel>(()),
                ),
            decreases stmts.len() - i,
        {
            proof {
                let longer = stmts@.take(i + 1);
                assert(longer.drop_last() =~= stmts@.take(i as int));
                assert(longer.last() == stmts@[i as int]);
                lemma_stmts_prefix(cx, st, stmts@, con, bre, i + 1);
            }
            self.handle_block(&stmts[i], con_label, bre_label)?;
            i = i + 1;
        }
        assert(stmts@.take(i as int) =~= stmts@);
        Ok(())
    }

    /// Translates a conditional.
    pub fn handle_if_stmt(&mut self, stmt: &IfStmt, con_label: Option<&BlockLabel>, bre_label: Option<&BlockLabel>) -> (r: Result<(), Error>)
        requires
            old(self).inv(),
            bool_unit_in_range(*stmt.bool_unit),
            stmts_in_range(stmt.if_stmts@),
            stmt.else_stmts matches Some(e) ==> stmts_in_range(e@),
            if_code(old(self).context(), old(self).state(), *stmt, label_model(con_label), label_model(bre_label)).0.fits(),
        ensures
            final(self).inv(),
            final(self).context() == old(self).context(),
            (final(self).state(), done(r)) == if_code(old(self).context(), old(self).state(), *stmt, label_model(con_label), label_model(bre_label)),
        decreases stmt,
    {
        let ghost cx = self.context();
        let ghost st = self.state();
        let ghost con = label_model(con_label);
        let ghost bre = label_model(bre_label);
        proof {
            let (s1, on_true) = st.label();
            let (s2, on_false) = s1.label();
            let (s3, after) = s2.label();
            lemma_unit_branch_grows(cx, s3, *stmt.bool_unit, on_true, on_false);
            let s4 = unit_branch_code(cx, s3, *stmt.bool_unit, on_true, on_false).0.emit(
                StmtModel::Label { label: on_true },
            ).enter();
            lemma_stmts_grow(cx, s4, stmt.if_stmts@, con, bre);
            let s6 = stmts_code(cx, s4, stmt.if_stmts@, con, bre).0.exit().emit(
                StmtModel::Jump { target: after },
            ).emit(StmtModel::Label { label: on_false }).enter();
            lemma_else_grows(cx, s6, stmt.else_stmts, con, bre);
        }
        let true_label = self.alloc_basic_block();
        let false_label = self.alloc_basic_block();
        let after_label = self.alloc_basic_block();
        self.handle_bool_unit(&stmt.bool_unit, true_label.clone(), false_label.clone())?;
        self.emit_label(true_label);
        self.enter_scope();
        self.handle_stmts(&stmt.if_stmts, con_label, bre_label)?;
        self.exit_scope();
        self.emit_jump(after_label.clone());
        self.emit_label(false_label);
        self.enter_scope();
        match &stmt.else_stmts {
            Some(else_stmts) => {
                self.handle_stmts(else_stmts, con_label, bre_label)?;
            },
            None => {},
        }
        self.exit_scope();
        self.emit_jump(after_label.clone());
        self.emit_label(after_label);
        Ok(())
    }

    /// Translates a loop.
    pub fn handle_while_stmt(&mut self, stmt: &WhileStmt) -> (r: Result<(), Error>)
        requires
            old(self).inv(),
            bool_unit_in_range(*stmt.bool_unit),
            stmts_in_range(stmt.stmts@),
            while_code(old(self).context(), old(self).state(), *stmt).0.fits(),
        ensures
            final(self).inv(),
            final(self).context() == old(self).context(),
            (final(self).state(), done(r)) == while_code(old(self).context(), old(self).state(), *stmt),
        decreases stmt,
    {
        let ghost cx = self.context();
        let ghost st = self.state();
        proof {
            let (s1, test) = st.label();
            let (s2, on_true) = s1.label();
            let (s3, on_false) = s2.label();
            let s4 = s3.emit(StmtModel::Jump { target: test }).emit(
                StmtModel::Label { label: test },
            );
            lemma_unit_branch_grows(cx, s4, *stmt.bool_unit, on_true, on_false);
            let s5 = unit_branch_code(cx, s4, *stmt.bool_unit, on_true, on_false).0.emit(
                StmtModel::Label { label: on_true },
            ).enter();
            lemma_stmts_grow(cx, s5, stmt.stmts@, Some(test), Some(on_false));
        }
        let test_label = self.alloc_basic_block();
        let true_label = self.alloc_basic_block();
        let false_label = self.alloc_basic_block();
        self.emit_jump(test_label.clone());
        self.emit_label(test_label.clone());
        self.handle_bool_unit(&stmt.bool_unit, true_label.clone(), false_label.clone())?;
        self.emit_label(true_label);
        self.enter_scope();
        self.handle_stmts(&stmt.stmts, Some(&test_label), Some(&false_label))?;
        self.exit_scope();
        self.emit_jump(test_label);
        self.emit_label(false_label);
        Ok(())
    }

    /// Translates a return.
    pub fn handle_return_stmt(&mut self, stmt: &ReturnStmt) -> (r: Result<(), Error>)
        requires
            old(self).inv(),
            stmt.val matches Some(v) ==> right_in_range(*v),
            return_code(old(self).context(), old(self).state(), *stmt).0.fits(),
        ensures
            final(self).inv(),
            final(self).context() == old(self).context(),
            (final(self).state(), done(r)) == return_code(old(self).context(), old(self).state(), *stmt),
    {
        match &stmt.val {
            None => {
                self.emit_return(None);
            },
            Some(val) => {
                let v = self.handle_right_val(val)?;
                self.emit_return(Some(v));
            },
        }
        Ok(())
    }

    /// Translates a `continue`.
    pub fn handle_continue_stmt(&mut self, con_label: Option<&BlockLabel>) -> (r: Result<(), Error>)
        requires
            old(self).inv(),
        ensures
            final(self).inv(),
            final(self).context() == old(self).context(),
            (final(self).state(), done(r)) == jump_code(old(self).state(), label_model(con_label), ErrorModel::InvalidContinueInst),
    {
        match con_label {
            Some(label) => {
                self.emit_jump(label.clone());
                Ok(())
            },
            None => Err(Error::InvalidContinueInst),
        }
    }

    /// Translates a `break`.
    pub fn handle_break_stmt(&mut self, bre_label: Option<&BlockLabel>) -> (r: Result<(), Error>)
        requires
            old(self).inv(),
        ensures
            final(self).inv(),
            final(self).context() == old(self).context(),
            (final(self).state(), done(r)) == jump_code(old(self).state(), label_model(bre_label), ErrorModel::InvalidBreakInst),
    {
        match bre_label {
            Some(label) => {
                self.emit_jump(label.clone());
                Ok(())
            },
            None => Err(Error::InvalidBreakInst),
        }
    }

    /// Stores each argument in a slot of its own.
    fn spill_arguments(&mut self, params: &Vec<(String, Dtype)>) -> (r: Result<(), Error>)
        requires
            old(self).inv(),
            params_code(old(self).state(), parameters(params@)).0.fits(),
        ensures
            final(self).inv(),
            final(self).context() == old(self).context(),
            (final(self).state(), done(r)) == params_code(old(self).state(), parameters(params@)),
    {
        let ghost cx = self.context();
        let ghost st = self.state();
        let ghost all = parameters(params@);
        let mut i: usize = 0;
        assert(all.take(0) =~= Seq::empty());
        while i < params.len()
            invariant
                i <= params.len(),
                all == parameters(params@),
                cx == old(self).context(),
                st == old(self).state(),
                self.inv(),
                self.context() == cx,
                params_code(st, all).0.fits(),
                params_code(st, all.take(i as int)) == (self.state(), Ok::<(), ErrorModel>(())),
            decreases params.len() - i,
        {
            proof {
                let longer = all.take(i + 1);
                assert(longer.drop_last() =~= all.take(i as int));
                assert(longer.last() == all[i as int]);
                lemma_params_prefix(st, all, i + 1);
            }
            let id = &params[i].0;
            if self.local_variables.contains_key(id.as_str()) {
                return Err(Error::VariableRedefinition { symbol: id.clone() });
            }
            let arg_local = self.fresh_local(params[i].1.clone());
            let ghost before = self.arguments@;
            self.arguments.push(arg_local.clone());
            assert(local_models(self.arguments@) =~= local_models(before).push(arg_local@));
            let slot = self.allocate_pointer_local(params[i].1.clone());
            self.emit_store(Operand::from(arg_local), Operand::from(&slot));
            self.local_variables.insert(id.clone(), slot);
            i = i + 1;
        }
        assert(all.take(i as int) =~= all);
        Ok(())
    }

    /// Translates a function: a slot for each argument, the body, and a return.
    pub fn generate(&mut self, from: &FnDef) -> (r: Result<(), Error>)
        requires
            old(self).inv(),
            stmts_in_range(from.stmts@),
            function_code(old(self).context(), old(self).state(), *from).0.fits(),
        ensures
            final(self).inv(),
            final(self).context() == old(self).context(),
            (final(self).state(), done(r)) == function_code(old(self).context(), old(self).state(), *from),
    {
        let ghost cx = self.context();
        let ghost st = self.state();
        let identifier = &from.fn_decl.identifier;
        let (arguments, returns_value) = match self.registry.function_types.get(
            identifier.as_str(),
        ) {
            None => {
                return Err(Error::FunctionNotDefined { symbol: identifier.clone() });
            },
            Some(t) => (
                copy_parameters(&t.arguments),
                match t.return_dtype {
                    Dtype::I32 => true,
                    _ => false,
                },
            ),
        };
        proof {
            let s1 = st.emit(
                StmtModel::Label { label: LabelModel::Function(from.fn_decl.identifier@) },
            );
            let s2 = params_code(s1, parameters(arguments@)).0;
            lemma_params_grow(s1, parameters(arguments@));
            lemma_stmts_grow(cx, s2, from.stmts@, None, None);
        }
        self.emit_label(BlockLabel::Function(identifier.clone()));
        self.spill_arguments(&arguments)?;
        self.handle_stmts(&from.stmts, None, None)?;
        let returned = match &self.irs[self.irs.len() - 1].inner {
            StmtInner::Return(_) => true,
            _ => false,
        };
        if !returned {
            if returns_value {
                self.emit_return(Some(Operand::from(0i32)));
            } else {
                self.emit_return(None);
            }
        }
        Ok(())
    }
}

} // verus!
