//! What a function body is translated to.
//!
//! The translation is described as a function of the surrounding
//! declarations ([`Context`]) and of what has been translated so far
//! ([`State`]): each construct takes a state to the next one and yields an
//! operand, or an error.

use crate::ast::copy::ExprModel;
use crate::ast::decl::{ArrayInitializer, FnDef, VarDecl, VarDef, VarDefInner, VarDeclStmtInner};
use crate::ast::expr::{
    ArithExpr, ArithExprInner, ArrayExpr, BoolBiOpExpr, BoolExpr, BoolExprInner, BoolUnit,
    BoolUnitInner, ComExpr, ExprUnit, ExprUnitInner, FnCall, IndexExpr, IndexExprInner, LeftVal, LeftValInner,
    MemberExpr, RightVal, RightValInner,
};
use crate::ast::ops::BoolBiOp;
use crate::ast::stmt::{
    AssignmentStmt, CallStmt, CodeBlockStmt, CodeBlockStmtInner, IfStmt, ReturnStmt, WhileStmt,
};
use crate::ir::error::ErrorModel;
use crate::ir::function::LabelModel;
use crate::ir::gen::conversions::{declared, defined, returnable, specified};
use crate::ir::link::linked;
use crate::ir::stmt::{arith_of, predicate_of, StmtModel};
use crate::ir::types::{find_member, DtypeModel, FunctionTypeModel, MemberModel};
use crate::ir::value::{GlobalDefModel, LocalModel, OperandModel};
use vstd::prelude::*;

verus! {

/// The declarations that a function body can refer to.
pub struct Context {
    /// The members of the structs.
    pub structs: Map<Seq<char>, Seq<MemberModel>>,
    /// The types of the functions.
    pub functions: Map<Seq<char>, FunctionTypeModel>,
    /// The global variables.
    pub globals: Map<Seq<char>, GlobalDefModel>,
    /// The names that the linker sees.
    pub links: Map<Seq<char>, Seq<char>>,
    /// The types found for local variables declared without one.
    pub resolved: Map<Seq<char>, DtypeModel>,
}

impl Context {
    /// Functions return nothing or an `i32`.
    pub open spec fn wf(self) -> bool {
        forall|f: Seq<char>|
            self.functions.contains_key(f) ==> returnable(
                (#[trigger] self.functions[f]).return_dtype,
            )
    }
}

/// What has been translated so far.
#[verifier::ext_equal]
pub struct State {
    /// The local variables in scope, each with the value that holds its
    /// address.
    pub locals: Map<Seq<char>, LocalModel>,
    /// The names introduced in each open scope, innermost last.
    pub scopes: Seq<Seq<Seq<char>>>,
    /// The statements so far.
    pub code: Seq<StmtModel>,
    /// The values that carry the arguments.
    pub arguments: Seq<LocalModel>,
    /// The next number for a value.
    pub vreg: nat,
    /// The next number for a block.
    pub block: nat,
}

impl State {
    /// The numbers in use fit in a machine word.
    pub open spec fn fits(self) -> bool {
        self.vreg <= usize::MAX && self.block <= usize::MAX
    }

    /// One more statement.
    pub open spec fn emit(self, s: StmtModel) -> State {
        State { code: self.code.push(s), ..self }
    }

    /// A new value of type `d`.
    pub open spec fn fresh(self, d: DtypeModel) -> (State, OperandModel) {
        (State { vreg: self.vreg + 1, ..self }, OperandModel::local(self.vreg, d))
    }

    /// A new label.
    pub open spec fn label(self) -> (State, LabelModel) {
        (State { block: self.block + 1, ..self }, LabelModel::BasicBlock(self.block))
    }

    /// A new scope.
    pub open spec fn enter(self) -> State {
        State { scopes: self.scopes.push(Seq::empty()), ..self }
    }

    /// The innermost scope closed, and its names forgotten.
    pub open spec fn exit(self) -> State {
        if self.scopes.len() == 0 {
            self
        } else {
            State {
                scopes: self.scopes.drop_last(),
                locals: self.locals.remove_keys(self.scopes.last().to_set()),
                ..self
            }
        }
    }

    /// The name recorded in the innermost scope, if there is one.
    pub open spec fn record(self, name: Seq<char>) -> State {
        if self.scopes.len() == 0 {
            self
        } else {
            State {
                scopes: self.scopes.drop_last().push(self.scopes.last().push(name)),
                ..self
            }
        }
    }

    /// The variable `name` introduced; it must not be in scope already.
    pub open spec fn introduce(self, name: Seq<char>, local: LocalModel) -> (State, Result<(), ErrorModel>) {
        let st = State { locals: self.locals.insert(name, local), ..self };
        if self.locals.contains_key(name) {
            (st, Err(ErrorModel::VariableRedefinition { symbol: name }))
        } else {
            (st.record(name), Ok(()))
        }
    }

    /// A load from `ptr` of a value of type `d`.
    pub open spec fn load(self, d: DtypeModel, ptr: OperandModel) -> (State, OperandModel) {
        let (st, dst) = self.fresh(d);
        (st.emit(StmtModel::Load { dst, ptr }), dst)
    }

    /// A new stack slot for a value of type `d`.
    pub open spec fn slot(self, d: DtypeModel) -> (State, OperandModel) {
        let (st, dst) = self.fresh(d.pointer());
        (st.emit(StmtModel::Alloca { dst }), dst)
    }

    /// `self` has gone on to `later`: numbers only grow, and code is only
    /// added.
    pub open spec fn leads_to(self, later: State) -> bool {
        &&& self.vreg <= later.vreg
        &&& self.block <= later.block
        &&& self.code.len() <= later.code.len()
        &&& forall|i: int|
            #![trigger self.code[i]]
            #![trigger later.code[i]]
            0 <= i < self.code.len() ==> self.code[i] == later.code[i]
    }
}

/// The local of an operand that is one.
pub open spec fn local_of(o: OperandModel) -> LocalModel {
    o->Local_0
}

/// The place that a name stands for: a local variable, else a global.
pub open spec fn lookup(cx: Context, st: State, id: Seq<char>) -> Result<OperandModel, ErrorModel> {
    if st.locals.contains_key(id) {
        Ok(OperandModel::Local(st.locals[id]))
    } else if cx.globals.contains_key(id) {
        Ok(OperandModel::Global { name: id, dtype: cx.globals[id].dtype })
    } else {
        Err(ErrorModel::VariableNotDefined { symbol: id })
    }
}

/// An array, or a pointer to one.
pub open spec fn holds_array(d: DtypeModel) -> bool {
    d is Array || (d matches DtypeModel::Pointer(p) && *p is Array)
}

/// The element type of an array, or of what a pointer points to.
pub open spec fn array_element(d: DtypeModel) -> Option<DtypeModel> {
    match d {
        DtypeModel::Array(e, _) => Some(*e),
        DtypeModel::Pointer(p) => match *p {
            DtypeModel::Array(e, _) => Some(*e),
            _ => None,
        },
        _ => None,
    }
}

/// What indexing a value of type `d` yields.
pub open spec fn indexed(d: DtypeModel) -> Option<DtypeModel> {
    match d {
        DtypeModel::Pointer(p) => match *p {
            DtypeModel::Array(e, _) => Some(*e),
            _ => Some(*p),
        },
        DtypeModel::Array(e, _) => Some(*e),
        _ => None,
    }
}

/// The value of an operand: scalars behind an address are loaded.
pub open spec fn loaded(st: State, op: OperandModel) -> (State, OperandModel) {
    match op.ty() {
        DtypeModel::Pointer(p) => if !(op is Const) && !(*p is Array) && !(*p is Struct) {
            st.load(*p, op)
        } else {
            (st, op)
        },
        DtypeModel::I32 => if op is Global {
            st.load(DtypeModel::I32, op)
        } else {
            (st, op)
        },
        _ => (st, op),
    }
}

/// `loaded` applied to an outcome.
pub open spec fn then_loaded(step: (State, Result<OperandModel, ErrorModel>)) -> (
    State,
    Result<OperandModel, ErrorModel>,
) {
    match step.1 {
        Err(e) => (step.0, Err(e)),
        Ok(op) => {
            let (st, v) = loaded(step.0, op);
            (st, Ok(v))
        },
    }
}

/// The address of the array `id`, as a reference to it.
pub open spec fn reference_code(cx: Context, st: State, id: Seq<char>) -> (
    State,
    Result<OperandModel, ErrorModel>,
) {
    match lookup(cx, st, id) {
        Err(e) => (st, Err(e)),
        Ok(op) => match array_element(op.ty()) {
            None => (st, Err(ErrorModel::InvalidReference { symbol: id })),
            Some(e) => {
                let (s1, target) = st.fresh(e.array(None).pointer());
                (
                    s1.emit(
                        StmtModel::Gep {
                            new_ptr: target,
                            base_ptr: op,
                            index: OperandModel::i32_const(0),
                        },
                    ),
                    Ok(target),
                )
            },
        },
    }
}

/// The value of an array index.
pub open spec fn index_code(cx: Context, st: State, e: IndexExpr) -> (
    State,
    Result<OperandModel, ErrorModel>,
) {
    match e.inner {
        IndexExprInner::Id(id) => match lookup(cx, st, id@) {
            Err(x) => (st, Err(x)),
            Ok(src) => {
                let (s1, idx) = st.load(DtypeModel::I32, src);
                (s1, Ok(idx))
            },
        },
        IndexExprInner::Num(n) => (st, Ok(OperandModel::i32_const(n as int))),
    }
}

/// The address of a place.
pub open spec fn place_code(cx: Context, st: State, p: LeftVal) -> (
    State,
    Result<OperandModel, ErrorModel>,
)
    decreases p,
{
    match p.inner {
        LeftValInner::Id(id) => (st, lookup(cx, st, id@)),
        LeftValInner::ArrayExpr(e) => element_code(cx, st, *e),
        LeftValInner::MemberExpr(e) => member_code(cx, st, *e),
    }
}

/// The base of an array access: an address of a pointer is loaded first.
pub open spec fn array_base(st: State, arr: OperandModel) -> (State, OperandModel) {
    match arr.ty() {
        DtypeModel::Pointer(p) => if *p is Pointer {
            st.load(*p, arr)
        } else {
            (st, arr)
        },
        _ => (st, arr),
    }
}

/// The address of an array element.
pub open spec fn element_code(cx: Context, st: State, e: ArrayExpr) -> (
    State,
    Result<OperandModel, ErrorModel>,
)
    decreases e,
{
    let (s0, place) = place_code(cx, st, *e.arr);
    match place {
        Err(x) => (s0, Err(x)),
        Ok(arr) => {
            let (s1, base_ptr) = array_base(s0, arr);
            match indexed(base_ptr.ty()) {
                None => (s1, Err(ErrorModel::InvalidArrayExpression)),
                Some(d) => {
                    let (s2, new_ptr) = s1.fresh(d.pointer());
                    let (s3, idx) = index_code(cx, s2, *e.idx);
                    match idx {
                        Err(x) => (s3, Err(x)),
                        Ok(index) => (
                            s3.emit(StmtModel::Gep { new_ptr, base_ptr, index }),
                            Ok(new_ptr),
                        ),
                    }
                },
            }
        },
    }
}

/// The member that a member access refers to, when the struct is found at
/// `op`.
pub open spec fn accessed_member(cx: Context, op: OperandModel, e: MemberExpr) -> Option<
    MemberModel,
> {
    match op.ty().struct_name() {
        None => None,
        Some(name) => if cx.structs.contains_key(name) {
            match find_member(cx.structs[name], e.member_id@, 0) {
                Some(m) => if m.index <= i32::MAX && !(m.dtype is Void) {
                    Some(m)
                } else {
                    None
                },
                None => None,
            }
        } else {
            None
        },
    }
}

/// The address of a struct member.
pub open spec fn member_code(cx: Context, st: State, e: MemberExpr) -> (
    State,
    Result<OperandModel, ErrorModel>,
)
    decreases e,
{
    let (s0, place) = place_code(cx, st, *e.struct_id);
    match place {
        Err(x) => (s0, Err(x)),
        Ok(op) => match accessed_member(cx, op, e) {
            None => (s0, Err(ErrorModel::InvalidStructMemberExpression { expr: e })),
            Some(m) => {
                let (s1, target) = s0.fresh(m.dtype.pointer());
                (
                    s1.emit(
                        StmtModel::Gep {
                            new_ptr: target,
                            base_ptr: op,
                            index: OperandModel::i32_const(m.index as int),
                        },
                    ),
                    Ok(target),
                )
            },
        },
    }
}

/// The value of an atomic expression.
pub open spec fn unit_code(cx: Context, st: State, u: ExprUnit) -> (
    State,
    Result<OperandModel, ErrorModel>,
)
    decreases u,
{
    match u.inner {
        ExprUnitInner::Num(n) => (st, Ok(OperandModel::i32_const(n as int))),
        ExprUnitInner::Id(id) => match lookup(cx, st, id@) {
            Err(e) => (st, Err(e)),
            Ok(op) => if holds_array(op.ty()) {
                (st, Err(ErrorModel::ArrayUsedAsValue { symbol: id@ }))
            } else {
                then_loaded((st, Ok(op)))
            },
        },
        ExprUnitInner::ArithExpr(e) => then_loaded(arith_code(cx, st, *e)),
        ExprUnitInner::FnCall(c) => call_value_code(cx, st, *c, u@),
        ExprUnitInner::ArrayExpr(e) => then_loaded(element_code(cx, st, *e)),
        ExprUnitInner::MemberExpr(e) => then_loaded(member_code(cx, st, *e)),
        ExprUnitInner::Reference(id) => reference_code(cx, st, id@),
    }
}

/// The value of a call, which stands in the expression `unit`.
pub open spec fn call_value_code(cx: Context, st: State, c: FnCall, unit: ExprModel) -> (
    State,
    Result<OperandModel, ErrorModel>,
)
    decreases c,
{
    if cx.functions.contains_key(c.callee()) && cx.functions[c.callee()].return_dtype is I32 {
        let (s1, res) = st.fresh(DtypeModel::I32);
        let (s2, values) = args_code(cx, s1, c.vals@);
        match values {
            Err(e) => (s2, Err(e)),
            Ok(args) => (
                s2.emit(
                    StmtModel::Call {
                        func_name: linked(cx.links, c.callee()),
                        res: Some(res),
                        args,
                    },
                ),
                Ok(res),
            ),
        }
    } else {
        (st, Err(ErrorModel::InvalidExprUnit { expr_unit: unit }))
    }
}

/// The values of a list of arguments.
pub open spec fn args_code(cx: Context, st: State, vals: Seq<RightVal>) -> (
    State,
    Result<Seq<OperandModel>, ErrorModel>,
)
    decreases vals,
{
    if vals.len() == 0 {
        (st, Ok(Seq::empty()))
    } else {
        let (s1, front) = args_code(cx, st, vals.drop_last());
        match front {
            Err(e) => (s1, Err(e)),
            Ok(args) => {
                let (s2, last) = right_code(cx, s1, vals.last());
                match last {
                    Err(e) => (s2, Err(e)),
                    Ok(v) => (s2, Ok(args.push(v))),
                }
            },
        }
    }
}

/// The value of an arithmetic expression.
pub open spec fn arith_code(cx: Context, st: State, e: ArithExpr) -> (
    State,
    Result<OperandModel, ErrorModel>,
)
    decreases e,
{
    match e.inner {
        ArithExprInner::ArithBiOpExpr(b) => {
            let (s1, l) = arith_code(cx, st, *b.left);
            match l {
                Err(x) => (s1, Err(x)),
                Ok(left) => {
                    let (s2, r) = arith_code(cx, s1, *b.right);
                    match r {
                        Err(x) => (s2, Err(x)),
                        Ok(right) => {
                            let (s3, dst) = s2.fresh(DtypeModel::I32);
                            (
                                s3.emit(StmtModel::BiOp { kind: arith_of(b.op), left, right, dst }),
                                Ok(dst),
                            )
                        },
                    }
                },
            }
        },
        ArithExprInner::ExprUnit(u) => unit_code(cx, st, *u),
    }
}

/// The value of a right-hand side.
pub open spec fn right_code(cx: Context, st: State, v: RightVal) -> (
    State,
    Result<OperandModel, ErrorModel>,
)
    decreases v,
{
    match v.inner {
        RightValInner::ArithExpr(e) => arith_code(cx, st, *e),
        RightValInner::BoolExpr(e) => truth_code(cx, st, *e),
    }
}

/// The end of a boolean value: 1 or 0 is stored at `ptr`, depending on which
/// label control reaches, and loaded.
pub open spec fn materialized(
    st: State,
    on_true: LabelModel,
    on_false: LabelModel,
    after: LabelModel,
    ptr: OperandModel,
) -> State {
    st.emit(StmtModel::Label { label: on_true }).emit(
        StmtModel::Store { src: OperandModel::i32_const(1), ptr },
    ).emit(StmtModel::Jump { target: after }).emit(StmtModel::Label { label: on_false }).emit(
        StmtModel::Store { src: OperandModel::i32_const(0), ptr },
    ).emit(StmtModel::Jump { target: after }).emit(StmtModel::Label { label: after })
}

/// The value of a boolean expression as 0 or 1.
pub open spec fn truth_code(cx: Context, st: State, e: BoolExpr) -> (
    State,
    Result<OperandModel, ErrorModel>,
)
    decreases e, 1int,
{
    let (s1, on_true) = st.label();
    let (s2, on_false) = s1.label();
    let (s3, after) = s2.label();
    let (s4, ptr) = s3.slot(DtypeModel::I32);
    let (s5, r) = branch_code(cx, s4, e, on_true, on_false);
    match r {
        Err(x) => (s5, Err(x)),
        Ok(_) => {
            let s6 = materialized(s5, on_true, on_false, after, ptr);
            let (s7, v) = s6.load(DtypeModel::I32, ptr);
            (s7, Ok(v))
        },
    }
}

/// A branch on a boolean expression.  The right operand of `&&` and `||` is
/// reached only where the left one does not decide.
pub open spec fn branch_code(
    cx: Context,
    st: State,
    e: BoolExpr,
    on_true: LabelModel,
    on_false: LabelModel,
) -> (State, Result<(), ErrorModel>)
    decreases e, 0int,
{
    match e.inner {
        BoolExprInner::BoolBiOpExpr(b) => {
            let (s1, eval_right) = st.label();
            let (s2, l) = match b.op {
                BoolBiOp::And => branch_code(cx, s1, *b.left, eval_right, on_false),
                BoolBiOp::Or => branch_code(cx, s1, *b.left, on_true, eval_right),
            };
            match l {
                Err(x) => (s2, Err(x)),
                Ok(_) => branch_code(
                    cx,
                    s2.emit(StmtModel::Label { label: eval_right }),
                    *b.right,
                    on_true,
                    on_false,
                ),
            }
        },
        BoolExprInner::BoolUnit(u) => unit_branch_code(cx, st, *u, on_true, on_false),
    }
}

/// A branch on `&&` or `||`.
pub open spec fn short_circuit(
    cx: Context,
    st: State,
    b: BoolBiOpExpr,
    on_true: LabelModel,
    on_false: LabelModel,
) -> (State, Result<(), ErrorModel>) {
    let (s1, eval_right) = st.label();
    let (s2, l) = match b.op {
        BoolBiOp::And => branch_code(cx, s1, *b.left, eval_right, on_false),
        BoolBiOp::Or => branch_code(cx, s1, *b.left, on_true, eval_right),
    };
    match l {
        Err(x) => (s2, Err(x)),
        Ok(_) => branch_code(
            cx,
            s2.emit(StmtModel::Label { label: eval_right }),
            *b.right,
            on_true,
            on_false,
        ),
    }
}

/// A branch on a comparison.
pub open spec fn comparison_code(
    cx: Context,
    st: State,
    c: ComExpr,
    on_true: LabelModel,
    on_false: LabelModel,
) -> (State, Result<(), ErrorModel>)
    decreases c,
{
    let (s1, l) = unit_code(cx, st, *c.left);
    match l {
        Err(x) => (s1, Err(x)),
        Ok(left) => {
            let (s2, r) = unit_code(cx, s1, *c.right);
            match r {
                Err(x) => (s2, Err(x)),
                Ok(right) => {
                    let (s3, dst) = s2.fresh(DtypeModel::I1);
                    (
                        s3.emit(
                            StmtModel::Cmp { kind: predicate_of(c.op), left, right, dst },
                        ).emit(
                            StmtModel::CJump {
                                cond: dst,
                                true_label: on_true,
                                false_label: on_false,
                            },
                        ),
                        Ok(()),
                    )
                },
            }
        },
    }
}

/// A branch on an atomic boolean expression; a negation exchanges the labels.
pub open spec fn unit_branch_code(
    cx: Context,
    st: State,
    u: BoolUnit,
    on_true: LabelModel,
    on_false: LabelModel,
) -> (State, Result<(), ErrorModel>)
    decreases u,
{
    match u.inner {
        BoolUnitInner::ComExpr(c) => comparison_code(cx, st, *c, on_true, on_false),
        BoolUnitInner::BoolExpr(e) => branch_code(cx, st, *e, on_true, on_false),
        BoolUnitInner::BoolUOpExpr(n) => unit_branch_code(cx, st, *n.cond, on_false, on_true),
    }
}

/// The element type of a local variable: the one given, else for a scalar the
/// one found by inference, else `i32`.
pub open spec fn local_base(
    cx: Context,
    name: Seq<char>,
    explicit: Option<DtypeModel>,
    scalar: bool,
) -> DtypeModel {
    match explicit {
        Some(t) => t,
        None => if scalar && cx.resolved.contains_key(name) {
            cx.resolved[name]
        } else {
            DtypeModel::I32
        },
    }
}

/// The type given by an optional type specifier.
pub open spec fn explicit_type(ts: Option<crate::ast::types::TypeSpecifier>) -> Option<DtypeModel> {
    match ts {
        Some(t) => Some(specified(t)),
        None => None,
    }
}

/// A local declaration: a slot, and the name for it.
pub open spec fn decl_code(cx: Context, st: State, d: VarDecl) -> (State, Result<(), ErrorModel>) {
    let elem = local_base(
        cx,
        d.identifier@,
        explicit_type(d.type_specifier),
        d.inner is Scalar,
    );
    let (s1, slot) = st.slot(declared(elem, d.inner));
    s1.introduce(d.identifier@, local_of(slot))
}

/// The store of one array element.
pub open spec fn element_store(
    st: State,
    base_ptr: OperandModel,
    new_ptr: OperandModel,
    index: int,
    src: OperandModel,
) -> State {
    st.emit(
        StmtModel::Gep { new_ptr, base_ptr, index: OperandModel::i32_const(index) },
    ).emit(StmtModel::Store { src, ptr: new_ptr })
}

/// The stores of a list of array elements.
pub open spec fn list_init_code(
    cx: Context,
    st: State,
    base_ptr: OperandModel,
    vals: Seq<RightVal>,
) -> (State, Result<(), ErrorModel>)
    decreases vals.len(),
{
    if vals.len() == 0 {
        (st, Ok(()))
    } else {
        let (s1, front) = list_init_code(cx, st, base_ptr, vals.drop_last());
        match front {
            Err(e) => (s1, Err(e)),
            Ok(_) => {
                let (s2, new_ptr) = s1.fresh(DtypeModel::I32.pointer());
                let (s3, last) = right_code(cx, s2, vals.last());
                match last {
                    Err(e) => (s3, Err(e)),
                    Ok(v) => (
                        element_store(s3, base_ptr, new_ptr, vals.len() - 1, v),
                        Ok(()),
                    ),
                }
            },
        }
    }
}

/// The stores of one value to the first `count` array elements.
pub open spec fn fill_code(st: State, base_ptr: OperandModel, v: OperandModel, count: nat) -> State
    decreases count,
{
    if count == 0 {
        st
    } else {
        let s1 = fill_code(st, base_ptr, v, (count - 1) as nat);
        let (s2, new_ptr) = s1.fresh(DtypeModel::I32.pointer());
        element_store(s2, base_ptr, new_ptr, count - 1, v)
    }
}

/// The initialization of an array.
pub open spec fn init_code(
    cx: Context,
    st: State,
    base_ptr: OperandModel,
    init: ArrayInitializer,
) -> (State, Result<(), ErrorModel>) {
    match init {
        ArrayInitializer::ExplicitList(vals) => list_init_code(cx, st, base_ptr, vals@),
        ArrayInitializer::Fill { val, count } => {
            let (s1, r) = right_code(cx, st, *val);
            match r {
                Err(e) => (s1, Err(e)),
                Ok(v) => (fill_code(s1, base_ptr, v, count as nat), Ok(())),
            }
        },
    }
}

/// A local definition: a slot, its initialization, and the name for it.
pub open spec fn def_code(cx: Context, st: State, d: VarDef) -> (State, Result<(), ErrorModel>) {
    let elem = local_base(
        cx,
        d.identifier@,
        explicit_type(d.type_specifier),
        d.inner is Scalar,
    );
    let pointee = defined(elem, d.inner);
    match d.inner {
        VarDefInner::Scalar(s) => {
            let (s1, r) = right_code(cx, st, *s.val);
            match r {
                Err(e) => (s1, Err(e)),
                Ok(src) => {
                    let (s2, slot) = s1.slot(pointee);
                    s2.emit(StmtModel::Store { src, ptr: slot }).introduce(
                        d.identifier@,
                        local_of(slot),
                    )
                },
            }
        },
        VarDefInner::Array(a) => {
            let (s1, slot) = st.slot(pointee);
            let (s2, r) = init_code(cx, s1, slot, a.initializer);
            match r {
                Err(e) => (s2, Err(e)),
                Ok(_) => s2.introduce(d.identifier@, local_of(slot)),
            }
        },
    }
}

/// An assignment.
pub open spec fn assignment_code(cx: Context, st: State, a: AssignmentStmt) -> (
    State,
    Result<(), ErrorModel>,
) {
    let (s1, l) = place_code(cx, st, *a.left_val);
    match l {
        Err(e) => (s1, Err(e)),
        Ok(ptr) => {
            let (s2, r) = right_code(cx, s1, *a.right_val);
            match r {
                Err(e) => (s2, Err(e)),
                Ok(src) => (s2.emit(StmtModel::Store { src, ptr }), Ok(())),
            }
        },
    }
}

/// A call for its effects.
pub open spec fn call_code(cx: Context, st: State, c: CallStmt) -> (State, Result<(), ErrorModel>) {
    let callee = c.fn_call.callee();
    let func_name = linked(cx.links, callee);
    let (s1, values) = args_code(cx, st, c.fn_call.vals@);
    match values {
        Err(e) => (s1, Err(e)),
        Ok(args) => if !cx.functions.contains_key(callee) {
            (s1, Err(ErrorModel::FunctionNotDefined { symbol: callee }))
        } else if cx.functions[callee].return_dtype is I32 {
            let (s2, res) = s1.fresh(DtypeModel::I32);
            (s2.emit(StmtModel::Call { func_name, res: Some(res), args }), Ok(()))
        } else {
            (s1.emit(StmtModel::Call { func_name, res: None, args }), Ok(()))
        },
    }
}

/// A return.
pub open spec fn return_code(cx: Context, st: State, r: ReturnStmt) -> (
    State,
    Result<(), ErrorModel>,
) {
    match r.val {
        None => (st.emit(StmtModel::Return { val: None }), Ok(())),
        Some(v) => {
            let (s1, x) = right_code(cx, st, *v);
            match x {
                Err(e) => (s1, Err(e)),
                Ok(val) => (s1.emit(StmtModel::Return { val: Some(val) }), Ok(())),
            }
        },
    }
}

/// A jump to `target`, or the error `e` where there is none.
pub open spec fn jump_code(st: State, target: Option<LabelModel>, e: ErrorModel) -> (
    State,
    Result<(), ErrorModel>,
) {
    match target {
        Some(target) => (st.emit(StmtModel::Jump { target }), Ok(())),
        None => (st, Err(e)),
    }
}

/// A statement.  `on_continue` and `on_break` are the targets of the
/// innermost enclosing loop.
pub open spec fn stmt_code(
    cx: Context,
    st: State,
    s: CodeBlockStmt,
    on_continue: Option<LabelModel>,
    on_break: Option<LabelModel>,
) -> (State, Result<(), ErrorModel>)
    decreases s,
{
    match s.inner {
        CodeBlockStmtInner::VarDecl(v) => match v.inner {
            VarDeclStmtInner::Decl(d) => decl_code(cx, st, *d),
            VarDeclStmtInner::Def(d) => def_code(cx, st, *d),
        },
        CodeBlockStmtInner::Assignment(a) => assignment_code(cx, st, *a),
        CodeBlockStmtInner::Call(c) => call_code(cx, st, *c),
        CodeBlockStmtInner::If(i) => if_code(cx, st, *i, on_continue, on_break),
        CodeBlockStmtInner::While(w) => while_code(cx, st, *w),
        CodeBlockStmtInner::Return(r) => return_code(cx, st, *r),
        CodeBlockStmtInner::Continue(_) => jump_code(
            st,
            on_continue,
            ErrorModel::InvalidContinueInst,
        ),
        CodeBlockStmtInner::Break(_) => jump_code(st, on_break, ErrorModel::InvalidBreakInst),
        CodeBlockStmtInner::Null(_) => (st, Ok(())),
    }
}

/// A list of statements.
pub open spec fn stmts_code(
    cx: Context,
    st: State,
    stmts: Seq<CodeBlockStmt>,
    on_continue: Option<LabelModel>,
    on_break: Option<LabelModel>,
) -> (State, Result<(), ErrorModel>)
    decreases stmts,
{
    if stmts.len() == 0 {
        (st, Ok(()))
    } else {
        let (s1, front) = stmts_code(cx, st, stmts.drop_last(), on_continue, on_break);
        match front {
            Err(e) => (s1, Err(e)),
            Ok(_) => stmt_code(cx, s1, stmts.last(), on_continue, on_break),
        }
    }
}

/// The else branch of a conditional.
pub open spec fn else_code(
    cx: Context,
    st: State,
    branch: Option<Vec<CodeBlockStmt>>,
    on_continue: Option<LabelModel>,
    on_break: Option<LabelModel>,
) -> (State, Result<(), ErrorModel>)
    decreases branch,
{
    match branch {
        Some(stmts) => stmts_code(cx, st, stmts@, on_continue, on_break),
        None => (st, Ok(())),
    }
}

/// A conditional.
pub open spec fn if_code(
    cx: Context,
    st: State,
    i: IfStmt,
    on_continue: Option<LabelModel>,
    on_break: Option<LabelModel>,
) -> (State, Result<(), ErrorModel>)
    decreases i,
{
    let (s1, on_true) = st.label();
    let (s2, on_false) = s1.label();
    let (s3, after) = s2.label();
    let (s4, c) = unit_branch_code(cx, s3, *i.bool_unit, on_true, on_false);
    match c {
        Err(e) => (s4, Err(e)),
        Ok(_) => {
            let (s5, t) = stmts_code(
                cx,
                s4.emit(StmtModel::Label { label: on_true }).enter(),
                i.if_stmts@,
                on_continue,
                on_break,
            );
            match t {
                Err(e) => (s5, Err(e)),
                Ok(_) => {
                    let s6 = s5.exit().emit(StmtModel::Jump { target: after }).emit(
                        StmtModel::Label { label: on_false },
                    ).enter();
                    let (s7, f) = else_code(cx, s6, i.else_stmts, on_continue, on_break);
                    match f {
                        Err(e) => (s7, Err(e)),
                        Ok(_) => (
                            s7.exit().emit(StmtModel::Jump { target: after }).emit(
                                StmtModel::Label { label: after },
                            ),
                            Ok(()),
                        ),
                    }
                },
            }
        },
    }
}

/// A loop.
pub open spec fn while_code(cx: Context, st: State, w: WhileStmt) -> (
    State,
    Result<(), ErrorModel>,
)
    decreases w,
{
    let (s1, test) = st.label();
    let (s2, on_true) = s1.label();
    let (s3, on_false) = s2.label();
    let s4 = s3.emit(StmtModel::Jump { target: test }).emit(StmtModel::Label { label: test });
    let (s5, c) = unit_branch_code(cx, s4, *w.bool_unit, on_true, on_false);
    match c {
        Err(e) => (s5, Err(e)),
        Ok(_) => {
            let (s6, b) = stmts_code(
                cx,
                s5.emit(StmtModel::Label { label: on_true }).enter(),
                w.stmts@,
                Some(test),
                Some(on_false),
            );
            match b {
                Err(e) => (s6, Err(e)),
                Ok(_) => (
                    s6.exit().emit(StmtModel::Jump { target: test }).emit(
                        StmtModel::Label { label: on_false },
                    ),
                    Ok(()),
                ),
            }
        },
    }
}

/// The entry of a function: each argument is stored in a slot of its own.
pub open spec fn params_code(st: State, params: Seq<(Seq<char>, DtypeModel)>) -> (
    State,
    Result<(), ErrorModel>,
)
    decreases params.len(),
{
    if params.len() == 0 {
        (st, Ok(()))
    } else {
        let (s1, front) = params_code(st, params.drop_last());
        match front {
            Err(e) => (s1, Err(e)),
            Ok(_) => {
                let (name, d) = params.last();
                if s1.locals.contains_key(name) {
                    (s1, Err(ErrorModel::VariableRedefinition { symbol: name }))
                } else {
                    let (s2, arg) = s1.fresh(d);
                    let s3 = State { arguments: s2.arguments.push(local_of(arg)), ..s2 };
                    let (s4, slot) = s3.slot(d);
                    let s5 = s4.emit(StmtModel::Store { src: arg, ptr: slot });
                    (State { locals: s5.locals.insert(name, local_of(slot)), ..s5 }, Ok(()))
                }
            },
        }
    }
}

/// The end of a function: a return, unless the last statement is one.
pub open spec fn implicit_return(st: State, d: DtypeModel) -> State {
    if st.code.last() is Return {
        st
    } else if d is I32 {
        st.emit(StmtModel::Return { val: Some(OperandModel::i32_const(0)) })
    } else {
        st.emit(StmtModel::Return { val: None })
    }
}

/// The body of a function.
pub open spec fn function_code(cx: Context, st: State, f: FnDef) -> (
    State,
    Result<(), ErrorModel>,
) {
    let name = f.fn_decl.identifier@;
    if !cx.functions.contains_key(name) {
        (st, Err(ErrorModel::FunctionNotDefined { symbol: name }))
    } else {
        let ty = cx.functions[name];
        let s1 = st.emit(StmtModel::Label { label: LabelModel::Function(name) });
        let (s2, p) = params_code(s1, ty.arguments);
        match p {
            Err(e) => (s2, Err(e)),
            Ok(_) => {
                let (s3, b) = stmts_code(cx, s2, f.stmts@, None, None);
                match b {
                    Err(e) => (s3, Err(e)),
                    Ok(_) => (implicit_return(s3, ty.return_dtype), Ok(())),
                }
            },
        }
    }
}

/// Translating a place only adds.
pub proof fn lemma_place_grows(cx: Context, st: State, p: LeftVal)
    ensures
        st.leads_to(place_code(cx, st, p).0),
    decreases p,
{
    match p.inner {
        LeftValInner::Id(_) => {},
        LeftValInner::ArrayExpr(e) => lemma_element_grows(cx, st, *e),
        LeftValInner::MemberExpr(e) => lemma_member_grows(cx, st, *e),
    }
}

/// Translating an array access only adds.
pub proof fn lemma_element_grows(cx: Context, st: State, e: ArrayExpr)
    ensures
        st.leads_to(element_code(cx, st, e).0),
    decreases e,
{
    lemma_place_grows(cx, st, *e.arr);
}

/// Translating a member access only adds.
pub proof fn lemma_member_grows(cx: Context, st: State, e: MemberExpr)
    ensures
        st.leads_to(member_code(cx, st, e).0),
    decreases e,
{
    lemma_place_grows(cx, st, *e.struct_id);
}

/// Translating an atomic expression only adds.
pub proof fn lemma_unit_grows(cx: Context, st: State, u: ExprUnit)
    ensures
        st.leads_to(unit_code(cx, st, u).0),
    decreases u,
{
    match u.inner {
        ExprUnitInner::ArithExpr(e) => lemma_arith_grows(cx, st, *e),
        ExprUnitInner::FnCall(c) => lemma_call_value_grows(cx, st, *c, u@),
        ExprUnitInner::ArrayExpr(e) => lemma_element_grows(cx, st, *e),
        ExprUnitInner::MemberExpr(e) => lemma_member_grows(cx, st, *e),
        _ => {},
    }
}

/// Translating a call only adds.
pub proof fn lemma_call_value_grows(cx: Context, st: State, c: FnCall, unit: ExprModel)
    ensures
        st.leads_to(call_value_code(cx, st, c, unit).0),
    decreases c,
{
    lemma_args_grow(cx, st.fresh(DtypeModel::I32).0, c.vals@);
}

/// Translating arguments only adds.
pub proof fn lemma_args_grow(cx: Context, st: State, vals: Seq<RightVal>)
    ensures
        st.leads_to(args_code(cx, st, vals).0),
    decreases vals,
{
    if vals.len() > 0 {
        lemma_args_grow(cx, st, vals.drop_last());
        lemma_right_grows(cx, args_code(cx, st, vals.drop_last()).0, vals.last());
    }
}

/// Translating an arithmetic expression only adds.
pub proof fn lemma_arith_grows(cx: Context, st: State, e: ArithExpr)
    ensures
        st.leads_to(arith_code(cx, st, e).0),
    decreases e,
{
    match e.inner {
        ArithExprInner::ArithBiOpExpr(b) => {
            lemma_arith_grows(cx, st, *b.left);
            lemma_arith_grows(cx, arith_code(cx, st, *b.left).0, *b.right);
        },
        ArithExprInner::ExprUnit(u) => lemma_unit_grows(cx, st, *u),
    }
}

/// Translating a right-hand side only adds.
pub proof fn lemma_right_grows(cx: Context, st: State, v: RightVal)
    ensures
        st.leads_to(right_code(cx, st, v).0),
    decreases v,
{
    match v.inner {
        RightValInner::ArithExpr(e) => lemma_arith_grows(cx, st, *e),
        RightValInner::BoolExpr(e) => lemma_truth_grows(cx, st, *e),
    }
}

/// The state in which a boolean value branches.
pub open spec fn truth_start(st: State) -> State {
    st.label().0.label().0.label().0.slot(DtypeModel::I32).0
}

/// Translating a boolean value only adds.
pub proof fn lemma_truth_grows(cx: Context, st: State, e: BoolExpr)
    ensures
        st.leads_to(truth_code(cx, st, e).0),
    decreases e, 1int,
{
    lemma_branch_grows(
        cx,
        truth_start(st),
        e,
        LabelModel::BasicBlock(st.block),
        LabelModel::BasicBlock(st.block + 1),
    );
}

/// Translating a branch only adds.
pub proof fn lemma_branch_grows(
    cx: Context,
    st: State,
    e: BoolExpr,
    on_true: LabelModel,
    on_false: LabelModel,
)
    ensures
        st.leads_to(branch_code(cx, st, e, on_true, on_false).0),
    decreases e, 0int,
{
    match e.inner {
        BoolExprInner::BoolBiOpExpr(b) => {
            let (s1, eval_right) = st.label();
            let s2 = match b.op {
                BoolBiOp::And => {
                    lemma_branch_grows(cx, s1, *b.left, eval_right, on_false);
                    branch_code(cx, s1, *b.left, eval_right, on_false).0
                },
                BoolBiOp::Or => {
                    lemma_branch_grows(cx, s1, *b.left, on_true, eval_right);
                    branch_code(cx, s1, *b.left, on_true, eval_right).0
                },
            };
            lemma_branch_grows(
                cx,
                s2.emit(StmtModel::Label { label: eval_right }),
                *b.right,
                on_true,
                on_false,
            );
        },
        BoolExprInner::BoolUnit(u) => lemma_unit_branch_grows(cx, st, *u, on_true, on_false),
    }
}

/// Translating a comparison only adds.
pub proof fn lemma_comparison_grows(
    cx: Context,
    st: State,
    c: ComExpr,
    on_true: LabelModel,
    on_false: LabelModel,
)
    ensures
        st.leads_to(comparison_code(cx, st, c, on_true, on_false).0),
    decreases c,
{
    lemma_unit_grows(cx, st, *c.left);
    lemma_unit_grows(cx, unit_code(cx, st, *c.left).0, *c.right);
}

/// Translating an atomic branch only adds.
pub proof fn lemma_unit_branch_grows(
    cx: Context,
    st: State,
    u: BoolUnit,
    on_true: LabelModel,
    on_false: LabelModel,
)
    ensures
        st.leads_to(unit_branch_code(cx, st, u, on_true, on_false).0),
    decreases u,
{
    match u.inner {
        BoolUnitInner::ComExpr(c) => lemma_comparison_grows(cx, st, *c, on_true, on_false),
        BoolUnitInner::BoolExpr(e) => lemma_branch_grows(cx, st, *e, on_true, on_false),
        BoolUnitInner::BoolUOpExpr(n) => lemma_unit_branch_grows(
            cx,
            st,
            *n.cond,
            on_false,
            on_true,
        ),
    }
}

/// Translating an initializer list only adds.
pub proof fn lemma_list_init_grows(
    cx: Context,
    st: State,
    base_ptr: OperandModel,
    vals: Seq<RightVal>,
)
    ensures
        st.leads_to(list_init_code(cx, st, base_ptr, vals).0),
    decreases vals.len(),
{
    if vals.len() > 0 {
        lemma_list_init_grows(cx, st, base_ptr, vals.drop_last());
        let s1 = list_init_code(cx, st, base_ptr, vals.drop_last()).0;
        lemma_right_grows(cx, s1.fresh(DtypeModel::I32.pointer()).0, vals.last());
    }
}

/// Filling an array only adds, and more for a greater count.
pub proof fn lemma_fill_grows(st: State, base_ptr: OperandModel, v: OperandModel, count: nat, more: nat)
    requires
        count <= more,
    ensures
        fill_code(st, base_ptr, v, count).leads_to(fill_code(st, base_ptr, v, more)),
        st.leads_to(fill_code(st, base_ptr, v, count)),
    decreases more,
{
    if count < more {
        lemma_fill_grows(st, base_ptr, v, count, (more - 1) as nat);
    } else if count > 0 {
        lemma_fill_grows(st, base_ptr, v, (count - 1) as nat, (count - 1) as nat);
    }
}

/// Translating an array initializer only adds.
pub proof fn lemma_init_grows(
    cx: Context,
    st: State,
    base_ptr: OperandModel,
    init: ArrayInitializer,
)
    ensures
        st.leads_to(init_code(cx, st, base_ptr, init).0),
{
    match init {
        ArrayInitializer::ExplicitList(vals) => lemma_list_init_grows(cx, st, base_ptr, vals@),
        ArrayInitializer::Fill { val, count } => {
            lemma_right_grows(cx, st, *val);
            let (s1, r) = right_code(cx, st, *val);
            if let Ok(v) = r {
                lemma_fill_grows(s1, base_ptr, v, count as nat, count as nat);
            }
        },
    }
}

/// Translating a definition only adds.
pub proof fn lemma_def_grows(cx: Context, st: State, d: VarDef)
    ensures
        st.leads_to(def_code(cx, st, d).0),
{
    match d.inner {
        VarDefInner::Scalar(s) => lemma_right_grows(cx, st, *s.val),
        VarDefInner::Array(a) => {
            let elem = local_base(
                cx,
                d.identifier@,
                explicit_type(d.type_specifier),
                d.inner is Scalar,
            );
            let (s1, slot) = st.slot(defined(elem, d.inner));
            lemma_init_grows(cx, s1, slot, a.initializer);
        },
    }
}

/// Translating an assignment only adds.
pub proof fn lemma_assignment_grows(cx: Context, st: State, a: AssignmentStmt)
    ensures
        st.leads_to(assignment_code(cx, st, a).0),
{
    lemma_place_grows(cx, st, *a.left_val);
    lemma_right_grows(cx, place_code(cx, st, *a.left_val).0, *a.right_val);
}

/// Translating a call only adds.
pub proof fn lemma_call_grows(cx: Context, st: State, c: CallStmt)
    ensures
        st.leads_to(call_code(cx, st, c).0),
{
    lemma_args_grow(cx, st, c.fn_call.vals@);
}

/// Translating a return only adds.
pub proof fn lemma_return_grows(cx: Context, st: State, r: ReturnStmt)
    ensures
        st.leads_to(return_code(cx, st, r).0),
{
    if let Some(v) = r.val {
        lemma_right_grows(cx, st, *v);
    }
}

/// Translating a statement only adds.
pub proof fn lemma_stmt_grows(
    cx: Context,
    st: State,
    s: CodeBlockStmt,
    on_continue: Option<LabelModel>,
    on_break: Option<LabelModel>,
)
    ensures
        st.leads_to(stmt_code(cx, st, s, on_continue, on_break).0),
    decreases s,
{
    match s.inner {
        CodeBlockStmtInner::VarDecl(v) => match v.inner {
            VarDeclStmtInner::Decl(_) => {},
            VarDeclStmtInner::Def(d) => lemma_def_grows(cx, st, *d),
        },
        CodeBlockStmtInner::Assignment(a) => lemma_assignment_grows(cx, st, *a),
        CodeBlockStmtInner::Call(c) => lemma_call_grows(cx, st, *c),
        CodeBlockStmtInner::If(i) => lemma_if_grows(cx, st, *i, on_continue, on_break),
        CodeBlockStmtInner::While(w) => lemma_while_grows(cx, st, *w),
        CodeBlockStmtInner::Return(r) => lemma_return_grows(cx, st, *r),
        _ => {},
    }
}

/// Translating statements only adds.
pub proof fn lemma_stmts_grow(
    cx: Context,
    st: State,
    stmts: Seq<CodeBlockStmt>,
    on_continue: Option<LabelModel>,
    on_break: Option<LabelModel>,
)
    ensures
        st.leads_to(stmts_code(cx, st, stmts, on_continue, on_break).0),
    decreases stmts,
{
    if stmts.len() > 0 {
        lemma_stmts_grow(cx, st, stmts.drop_last(), on_continue, on_break);
        let s1 = stmts_code(cx, st, stmts.drop_last(), on_continue, on_break).0;
        lemma_stmt_grows(cx, s1, stmts.last(), on_continue, on_break);
    }
}

/// Translating an else branch only adds.
pub proof fn lemma_else_grows(
    cx: Context,
    st: State,
    branch: Option<Vec<CodeBlockStmt>>,
    on_continue: Option<LabelModel>,
    on_break: Option<LabelModel>,
)
    ensures
        st.leads_to(else_code(cx, st, branch, on_continue, on_break).0),
    decreases branch,
{
    if let Some(stmts) = branch {
        lemma_stmts_grow(cx, st, stmts@, on_continue, on_break);
    }
}

/// Translating a conditional only adds.
pub proof fn lemma_if_grows(
    cx: Context,
    st: State,
    i: IfStmt,
    on_continue: Option<LabelModel>,
    on_break: Option<LabelModel>,
)
    ensures
        st.leads_to(if_code(cx, st, i, on_continue, on_break).0),
    decreases i,
{
    let (s1, on_true) = st.label();
    let (s2, on_false) = s1.label();
    let (s3, after) = s2.label();
    lemma_unit_branch_grows(cx, s3, *i.bool_unit, on_true, on_false);
    let s4 = unit_branch_code(cx, s3, *i.bool_unit, on_true, on_false).0.emit(
        StmtModel::Label { label: on_true },
    ).enter();
    lemma_stmts_grow(cx, s4, i.if_stmts@, on_continue, on_break);
    let s6 = stmts_code(cx, s4, i.if_stmts@, on_continue, on_break).0.exit().emit(
        StmtModel::Jump { target: after },
    ).emit(StmtModel::Label { label: on_false }).enter();
    lemma_else_grows(cx, s6, i.else_stmts, on_continue, on_break);
}

/// Translating a loop only adds.
pub proof fn lemma_while_grows(cx: Context, st: State, w: WhileStmt)
    ensures
        st.leads_to(while_code(cx, st, w).0),
    decreases w,
{
    let (s1, test) = st.label();
    let (s2, on_true) = s1.label();
    let (s3, on_false) = s2.label();
    let s4 = s3.emit(StmtModel::Jump { target: test }).emit(StmtModel::Label { label: test });
    lemma_unit_branch_grows(cx, s4, *w.bool_unit, on_true, on_false);
    let s5 = unit_branch_code(cx, s4, *w.bool_unit, on_true, on_false).0.emit(
        StmtModel::Label { label: on_true },
    ).enter();
    lemma_stmts_grow(cx, s5, w.stmts@, Some(test), Some(on_false));
}

/// Translating parameters only adds.
pub proof fn lemma_params_grow(st: State, params: Seq<(Seq<char>, DtypeModel)>)
    ensures
        st.leads_to(params_code(st, params).0),
    decreases params.len(),
{
    if params.len() > 0 {
        lemma_params_grow(st, params.drop_last());
    }
}

/// The first arguments are translated on the way to all of them, and an error
/// among them is final.
pub proof fn lemma_args_prefix(cx: Context, st: State, vals: Seq<RightVal>, k: int)
    requires
        0 <= k <= vals.len(),
    ensures
        args_code(cx, st, vals.take(k)).0.leads_to(args_code(cx, st, vals).0),
        args_code(cx, st, vals.take(k)).1 is Err ==> args_code(cx, st, vals) == args_code(cx, st, vals.take(k)),
    decreases vals.len() - k,
{
    if k < vals.len() {
        let longer = vals.take(k + 1);
        assert(longer.drop_last() =~= vals.take(k));
        assert(longer.last() == vals[k]);
        lemma_right_grows(cx, args_code(cx, st, vals.take(k)).0, vals[k]);
        lemma_args_prefix(cx, st, vals, k + 1);
    } else {
        assert(vals.take(k) =~= vals);
    }
}

/// The first statements are translated on the way to all of them, and an error
/// among them is final.
pub proof fn lemma_stmts_prefix(
    cx: Context,
    st: State,
    stmts: Seq<CodeBlockStmt>,
    on_continue: Option<LabelModel>,
    on_break: Option<LabelModel>, k: int)
    requires
        0 <= k <= stmts.len(),
    ensures
        stmts_code(cx, st, stmts.take(k), on_continue, on_break).0.leads_to(stmts_code(cx, st, stmts, on_continue, on_break).0),
        stmts_code(cx, st, stmts.take(k), on_continue, on_break).1 is Err ==> stmts_code(cx, st, stmts, on_continue, on_break) == stmts_code(cx, st, stmts.take(k), on_continue, on_break),
    decreases stmts.len() - k,
{
    if k < stmts.len() {
        let longer = stmts.take(k + 1);
        assert(longer.drop_last() =~= stmts.take(k));
        assert(longer.last() == stmts[k]);
        lemma_stmt_grows(
            cx,
            stmts_code(cx, st, stmts.take(k), on_continue, on_break).0,
            stmts[k],
            on_continue,
            on_break,
        );
        lemma_stmts_prefix(cx, st, stmts, on_continue, on_break, k + 1);
    } else {
        assert(stmts.take(k) =~= stmts);
    }
}

/// The first elements are initialized on the way to all of them, and an error
/// among them is final.
pub proof fn lemma_list_init_prefix(
    cx: Context,
    st: State,
    base_ptr: OperandModel,
    vals: Seq<RightVal>, k: int)
    requires
        0 <= k <= vals.len(),
    ensures
        list_init_code(cx, st, base_ptr, vals.take(k)).0.leads_to(list_init_code(cx, st, base_ptr, vals).0),
        list_init_code(cx, st, base_ptr, vals.take(k)).1 is Err ==> list_init_code(cx, st, base_ptr, vals) == list_init_code(cx, st, base_ptr, vals.take(k)),
    decreases vals.len() - k,
{
    if k < vals.len() {
        let longer = vals.take(k + 1);
        assert(longer.drop_last() =~= vals.take(k));
        assert(longer.last() == vals[k]);
        lemma_right_grows(
            cx,
            list_init_code(cx, st, base_ptr, vals.take(k)).0.fresh(DtypeModel::I32.pointer()).0,
            vals[k],
        );
        lemma_list_init_prefix(cx, st, base_ptr, vals, k + 1);
    } else {
        assert(vals.take(k) =~= vals);
    }
}

/// The first parameters are translated on the way to all of them, and an error
/// among them is final.
pub proof fn lemma_params_prefix(st: State, params: Seq<(Seq<char>, DtypeModel)>, k: int)
    requires
        0 <= k <= params.len(),
    ensures
        params_code(st, params.take(k)).0.leads_to(params_code(st, params).0),
        params_code(st, params.take(k)).1 is Err ==> params_code(st, params) == params_code(st, params.take(k)),
    decreases params.len() - k,
{
    if k < params.len() {
        let longer = params.take(k + 1);
        assert(longer.drop_last() =~= params.take(k));
        assert(longer.last() == params[k]);
        
        lemma_params_prefix(st, params, k + 1);
    } else {
        assert(params.take(k) =~= params);
    }
}

/// An index literal fits in the index type of address computations.
pub open spec fn index_in_range(e: IndexExpr) -> bool {
    match e.inner {
        IndexExprInner::Num(n) => n <= i32::MAX,
        IndexExprInner::Id(_) => true,
    }
}

/// All index literals in a place are in range.
pub open spec fn place_in_range(p: LeftVal) -> bool
    decreases p,
{
    match p.inner {
        LeftValInner::Id(_) => true,
        LeftValInner::ArrayExpr(e) => element_in_range(*e),
        LeftValInner::MemberExpr(e) => member_in_range(*e),
    }
}

/// All index literals in an array access are in range.
pub open spec fn element_in_range(e: ArrayExpr) -> bool
    decreases e,
{
    place_in_range(*e.arr) && index_in_range(*e.idx)
}

/// All index literals in a member access are in range.
pub open spec fn member_in_range(e: MemberExpr) -> bool
    decreases e,
{
    place_in_range(*e.struct_id)
}

/// All index literals in an atomic expression are in range.
pub open spec fn unit_in_range(u: ExprUnit) -> bool
    decreases u,
{
    match u.inner {
        ExprUnitInner::ArithExpr(e) => arith_in_range(*e),
        ExprUnitInner::FnCall(c) => values_in_range(c.vals@),
        ExprUnitInner::ArrayExpr(e) => element_in_range(*e),
        ExprUnitInner::MemberExpr(e) => member_in_range(*e),
        _ => true,
    }
}

/// All index literals in a list of values are in range.
pub open spec fn values_in_range(vals: Seq<RightVal>) -> bool
    decreases vals,
{
    forall|i: int| 0 <= i < vals.len() ==> right_in_range(#[trigger] vals[i])
}

/// All index literals in an arithmetic expression are in range.
pub open spec fn arith_in_range(e: ArithExpr) -> bool
    decreases e,
{
    match e.inner {
        ArithExprInner::ArithBiOpExpr(b) => arith_in_range(*b.left) && arith_in_range(*b.right),
        ArithExprInner::ExprUnit(u) => unit_in_range(*u),
    }
}

/// All index literals in a right-hand side are in range.
pub open spec fn right_in_range(v: RightVal) -> bool
    decreases v,
{
    match v.inner {
        RightValInner::ArithExpr(e) => arith_in_range(*e),
        RightValInner::BoolExpr(e) => bool_in_range(*e),
    }
}

/// All index literals in a boolean expression are in range.
pub open spec fn bool_in_range(e: BoolExpr) -> bool
    decreases e,
{
    match e.inner {
        BoolExprInner::BoolBiOpExpr(b) => bool_in_range(*b.left) && bool_in_range(*b.right),
        BoolExprInner::BoolUnit(u) => bool_unit_in_range(*u),
    }
}

/// All index literals in an atomic boolean expression are in range.
pub open spec fn bool_unit_in_range(u: BoolUnit) -> bool
    decreases u,
{
    match u.inner {
        BoolUnitInner::ComExpr(c) => unit_in_range(*c.left) && unit_in_range(*c.right),
        BoolUnitInner::BoolExpr(e) => bool_in_range(*e),
        BoolUnitInner::BoolUOpExpr(n) => bool_unit_in_range(*n.cond),
    }
}

/// All indices and index literals of an array initializer are in range.
pub open spec fn init_in_range(init: ArrayInitializer) -> bool {
    match init {
        ArrayInitializer::ExplicitList(vals) => values_in_range(vals@) && vals@.len() <= i32::MAX + 1,
        ArrayInitializer::Fill { val, count } => right_in_range(*val) && count <= i32::MAX + 1,
    }
}

/// All indices and index literals of a definition are in range.
pub open spec fn def_in_range(d: VarDef) -> bool {
    match d.inner {
        VarDefInner::Scalar(s) => right_in_range(*s.val),
        VarDefInner::Array(a) => init_in_range(a.initializer),
    }
}

/// All indices and index literals of a statement are in range.
pub open spec fn stmt_in_range(s: CodeBlockStmt) -> bool
    decreases s,
{
    match s.inner {
        CodeBlockStmtInner::VarDecl(v) => match v.inner {
            VarDeclStmtInner::Decl(_) => true,
            VarDeclStmtInner::Def(d) => def_in_range(*d),
        },
        CodeBlockStmtInner::Assignment(a) => place_in_range(*a.left_val) && right_in_range(
            *a.right_val,
        ),
        CodeBlockStmtInner::Call(c) => values_in_range(c.fn_call.vals@),
        CodeBlockStmtInner::If(i) => {
            &&& bool_unit_in_range(*i.bool_unit)
            &&& stmts_in_range(i.if_stmts@)
            &&& match i.else_stmts {
                Some(e) => stmts_in_range(e@),
                None => true,
            }
        },
        CodeBlockStmtInner::While(w) => bool_unit_in_range(*w.bool_unit) && stmts_in_range(
            w.stmts@,
        ),
        CodeBlockStmtInner::Return(r) => match r.val {
            Some(v) => right_in_range(*v),
            None => true,
        },
        _ => true,
    }
}

/// All indices and index literals of a list of statements are in range.
pub open spec fn stmts_in_range(stmts: Seq<CodeBlockStmt>) -> bool
    decreases stmts,
{
    forall|i: int| 0 <= i < stmts.len() ==> stmt_in_range(#[trigger] stmts[i])
}

} // verus!
