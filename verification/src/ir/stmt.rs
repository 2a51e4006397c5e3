//! Statements of the intermediate representation.

use super::function::{BlockLabel, LabelModel};
use super::types::{Dtype, DtypeModel};
use super::value::{Operand, OperandModel};
use crate::ast::ops::{ArithBiOp, ComOp};
use crate::common::text::{group_text, join_strings, join_text, owned, texts};
use vstd::prelude::*;
use vstd::string::*;

verus! {

broadcast use group_text;

/// An arithmetic operation.
#[derive(Clone, Copy, Debug, PartialEq, Eq, Structural)]
pub enum ArithBinOp {
    Add,
    Sub,
    Mul,
    SDiv,
}

/// The operation of a source-level operator.
pub open spec fn arith_of(op: ArithBiOp) -> ArithBinOp {
    match op {
        ArithBiOp::Add => ArithBinOp::Add,
        ArithBiOp::Sub => ArithBinOp::Sub,
        ArithBiOp::Mul => ArithBinOp::Mul,
        ArithBiOp::Div => ArithBinOp::SDiv,
    }
}

impl From<&ArithBiOp> for ArithBinOp {
    fn from(value: &ArithBiOp) -> (op: Self) {
        match value {
            ArithBiOp::Add => ArithBinOp::Add,
            ArithBiOp::Sub => ArithBinOp::Sub,
            ArithBiOp::Mul => ArithBinOp::Mul,
            ArithBiOp::Div => ArithBinOp::SDiv,
        }
    }
}

impl vstd::std_specs::convert::FromSpecImpl<&ArithBiOp> for ArithBinOp {
    open spec fn obeys_from_spec() -> bool {
        true
    }

    open spec fn from_spec(value: &ArithBiOp) -> Self {
        arith_of(*value)
    }
}

impl ArithBinOp {
    /// The mnemonic of the operation.
    pub open spec fn text(self) -> Seq<char> {
        match self {
            ArithBinOp::Add => "add"@,
            ArithBinOp::Sub => "sub"@,
            ArithBinOp::Mul => "mul"@,
            ArithBinOp::SDiv => "sdiv"@,
        }
    }

    /// The mnemonic of the operation.
    pub fn to_text(&self) -> (s: &'static str)
        ensures
            s@ == self.text(),
    {
        match self {
            ArithBinOp::Add => "add",
            ArithBinOp::Sub => "sub",
            ArithBinOp::Mul => "mul",
            ArithBinOp::SDiv => "sdiv",
        }
    }
}

/// A comparison of signed integers.
#[derive(Clone, Copy, Debug, PartialEq, Eq, Structural)]
pub enum CmpPredicate {
    Eq,
    Ne,
    Sgt,
    Sge,
    Slt,
    Sle,
}

/// The predicate of a source-level operator.
pub open spec fn predicate_of(op: ComOp) -> CmpPredicate {
    match op {
        ComOp::Eq => CmpPredicate::Eq,
        ComOp::Ne => CmpPredicate::Ne,
        ComOp::Gt => CmpPredicate::Sgt,
        ComOp::Ge => CmpPredicate::Sge,
        ComOp::Lt => CmpPredicate::Slt,
        ComOp::Le => CmpPredicate::Sle,
    }
}

impl From<&ComOp> for CmpPredicate {
    fn from(value: &ComOp) -> (op: Self) {
        match value {
            ComOp::Eq => CmpPredicate::Eq,
            ComOp::Ne => CmpPredicate::Ne,
            ComOp::Gt => CmpPredicate::Sgt,
            ComOp::Ge => CmpPredicate::Sge,
            ComOp::Lt => CmpPredicate::Slt,
            ComOp::Le => CmpPredicate::Sle,
        }
    }
}

impl vstd::std_specs::convert::FromSpecImpl<&ComOp> for CmpPredicate {
    open spec fn obeys_from_spec() -> bool {
        true
    }

    open spec fn from_spec(value: &ComOp) -> Self {
        predicate_of(*value)
    }
}

impl CmpPredicate {
    /// The mnemonic of the predicate.
    pub open spec fn text(self) -> Seq<char> {
        match self {
            CmpPredicate::Eq => "eq"@,
            CmpPredicate::Ne => "ne"@,
            CmpPredicate::Sgt => "sgt"@,
            CmpPredicate::Sge => "sge"@,
            CmpPredicate::Slt => "slt"@,
            CmpPredicate::Sle => "sle"@,
        }
    }

    /// The mnemonic of the predicate.
    pub fn to_text(&self) -> (s: &'static str)
        ensures
            s@ == self.text(),
    {
        match self {
            CmpPredicate::Eq => "eq",
            CmpPredicate::Ne => "ne",
            CmpPredicate::Sgt => "sgt",
            CmpPredicate::Sge => "sge",
            CmpPredicate::Slt => "slt",
            CmpPredicate::Sle => "sle",
        }
    }
}

/// A call of the function that the linker knows as `func_name`.
#[derive(Debug)]
pub struct CallStmt {
    pub func_name: String,
    pub res: Option<Operand>,
    pub args: Vec<Operand>,
}

/// A load of `dst` from the address `ptr`.
#[derive(Debug)]
pub struct LoadStmt {
    pub dst: Operand,
    pub ptr: Operand,
}

/// The value that belongs to the block that control came from.
#[derive(Debug)]
pub struct PhiStmt {
    pub dst: Operand,
    pub incomings: Vec<(BlockLabel, Operand)>,
}

/// An arithmetic operation.
#[derive(Debug)]
pub struct BiOpStmt {
    pub kind: ArithBinOp,
    pub left: Operand,
    pub right: Operand,
    pub dst: Operand,
}

/// The allocation of a stack slot.
#[derive(Debug)]
pub struct AllocaStmt {
    pub dst: Operand,
}

/// A comparison.
#[derive(Debug)]
pub struct CmpStmt {
    pub kind: CmpPredicate,
    pub left: Operand,
    pub right: Operand,
    pub dst: Operand,
}

/// A conditional branch.
#[derive(Debug)]
pub struct CJumpStmt {
    pub cond: Operand,
    pub true_label: BlockLabel,
    pub false_label: BlockLabel,
}

/// The start of a block.
#[derive(Debug)]
pub struct LabelStmt {
    pub label: BlockLabel,
}

/// A store of `src` to the address `ptr`.
#[derive(Debug)]
pub struct StoreStmt {
    pub src: Operand,
    pub ptr: Operand,
}

/// A branch.
#[derive(Debug)]
pub struct JumpStmt {
    pub target: BlockLabel,
}

/// The address of an element.
#[derive(Debug)]
pub struct GepStmt {
    pub new_ptr: Operand,
    pub base_ptr: Operand,
    pub index: Operand,
}

/// A return, with or without a value.
#[derive(Debug)]
pub struct ReturnStmt {
    pub val: Option<Operand>,
}

/// The form of a statement.
#[derive(Debug)]
pub enum StmtInner {
    Call(CallStmt),
    Load(LoadStmt),
    Phi(PhiStmt),
    BiOp(BiOpStmt),
    Alloca(AllocaStmt),
    Cmp(CmpStmt),
    CJump(CJumpStmt),
    Label(LabelStmt),
    Store(StoreStmt),
    Jump(JumpStmt),
    Gep(GepStmt),
    Return(ReturnStmt),
}

/// A statement.
#[derive(Debug)]
pub struct Stmt {
    pub inner: StmtInner,
}

/// The mathematical model of a [`Stmt`].
pub enum StmtModel {
    Call { func_name: Seq<char>, res: Option<OperandModel>, args: Seq<OperandModel> },
    Load { dst: OperandModel, ptr: OperandModel },
    Phi { dst: OperandModel, incomings: Seq<(LabelModel, OperandModel)> },
    BiOp { kind: ArithBinOp, left: OperandModel, right: OperandModel, dst: OperandModel },
    Alloca { dst: OperandModel },
    Cmp { kind: CmpPredicate, left: OperandModel, right: OperandModel, dst: OperandModel },
    CJump { cond: OperandModel, true_label: LabelModel, false_label: LabelModel },
    Label { label: LabelModel },
    Store { src: OperandModel, ptr: OperandModel },
    Jump { target: LabelModel },
    Gep { new_ptr: OperandModel, base_ptr: OperandModel, index: OperandModel },
    Return { val: Option<OperandModel> },
}

/// The model of an optional operand.
pub open spec fn option_model(o: Option<Operand>) -> Option<OperandModel> {
    match o {
        Some(x) => Some(x@),
        None => None,
    }
}

/// The models of a list of operands.
pub open spec fn operand_models(ops: Seq<Operand>) -> Seq<OperandModel> {
    Seq::new(ops.len(), |i: int| ops[i]@)
}

/// The models of the incoming values of a phi.
pub open spec fn incoming_models(incomings: Seq<(BlockLabel, Operand)>) -> Seq<
    (LabelModel, OperandModel),
> {
    Seq::new(incomings.len(), |i: int| (incomings[i].0@, incomings[i].1@))
}

/// A copy of an optional operand.
pub fn copy_option(o: &Option<Operand>) -> (copy: Option<Operand>)
    ensures
        copy == *o,
{
    match o {
        Some(x) => Some(x.clone()),
        None => None,
    }
}

/// A copy of a list of operands.
pub fn copy_operands(ops: &Vec<Operand>) -> (copy: Vec<Operand>)
    ensures
        copy@ == ops@,
{
    let mut copy: Vec<Operand> = Vec::new();
    let mut i: usize = 0;
    while i < ops.len()
        invariant
            i <= ops.len(),
            copy@ == ops@.take(i as int),
        decreases ops.len() - i,
    {
        copy.push(ops[i].clone());
        assert(ops@.take(i + 1) =~= ops@.take(i as int).push(ops@[i as int]));
        i = i + 1;
    }
    assert(ops@.take(i as int) =~= ops@);
    copy
}

/// A copy of the incoming values of a phi.
pub fn copy_incomings(incomings: &Vec<(BlockLabel, Operand)>) -> (copy: Vec<(BlockLabel, Operand)>)
    ensures
        copy@ == incomings@,
{
    let mut copy: Vec<(BlockLabel, Operand)> = Vec::new();
    let mut i: usize = 0;
    while i < incomings.len()
        invariant
            i <= incomings.len(),
            copy@ == incomings@.take(i as int),
        decreases incomings.len() - i,
    {
        copy.push((incomings[i].0.clone(), incomings[i].1.clone()));
        assert(incomings@.take(i + 1) =~= incomings@.take(i as int).push(incomings@[i as int]));
        i = i + 1;
    }
    assert(incomings@.take(i as int) =~= incomings@);
    copy
}

impl View for Stmt {
    type V = StmtModel;

    open spec fn view(&self) -> StmtModel {
        match self.inner {
            StmtInner::Call(s) => StmtModel::Call { func_name: s.func_name@, res: option_model(s.res), args: operand_models(s.args@) },
            StmtInner::Load(s) => StmtModel::Load { dst: s.dst@, ptr: s.ptr@ },
            StmtInner::Phi(s) => StmtModel::Phi { dst: s.dst@, incomings: incoming_models(s.incomings@) },
            StmtInner::BiOp(s) => StmtModel::BiOp { kind: s.kind, left: s.left@, right: s.right@, dst: s.dst@ },
            StmtInner::Alloca(s) => StmtModel::Alloca { dst: s.dst@ },
            StmtInner::Cmp(s) => StmtModel::Cmp { kind: s.kind, left: s.left@, right: s.right@, dst: s.dst@ },
            StmtInner::CJump(s) => StmtModel::CJump { cond: s.cond@, true_label: s.true_label@, false_label: s.false_label@ },
            StmtInner::Label(s) => StmtModel::Label { label: s.label@ },
            StmtInner::Store(s) => StmtModel::Store { src: s.src@, ptr: s.ptr@ },
            StmtInner::Jump(s) => StmtModel::Jump { target: s.target@ },
            StmtInner::Gep(s) => StmtModel::Gep { new_ptr: s.new_ptr@, base_ptr: s.base_ptr@, index: s.index@ },
            StmtInner::Return(s) => StmtModel::Return { val: option_model(s.val) },
        }
    }
}

impl Clone for Stmt {
    fn clone(&self) -> (copy: Self)
        ensures
            copy@ == self@,
    {
        match &self.inner {
            StmtInner::Call(s) => Stmt::as_call(s.func_name.clone(), copy_option(&s.res), copy_operands(&s.args)),
            StmtInner::Load(s) => Stmt::as_load(s.dst.clone(), s.ptr.clone()),
            StmtInner::Phi(s) => Stmt::as_phi(s.dst.clone(), copy_incomings(&s.incomings)),
            StmtInner::BiOp(s) => Stmt::as_biop(s.kind, s.left.clone(), s.right.clone(), s.dst.clone()),
            StmtInner::Alloca(s) => Stmt::as_alloca(s.dst.clone()),
            StmtInner::Cmp(s) => Stmt::as_cmp(s.kind, s.left.clone(), s.right.clone(), s.dst.clone()),
            StmtInner::CJump(s) => Stmt::as_cjump(s.cond.clone(), s.true_label.clone(), s.false_label.clone()),
            StmtInner::Label(s) => Stmt::as_label(s.label.clone()),
            StmtInner::Store(s) => Stmt::as_store(s.src.clone(), s.ptr.clone()),
            StmtInner::Jump(s) => Stmt::as_jump(s.target.clone()),
            StmtInner::Gep(s) => Stmt::as_gep(s.new_ptr.clone(), s.base_ptr.clone(), s.index.clone()),
            StmtInner::Return(s) => Stmt::as_return(copy_option(&s.val)),
        }
    }
}

impl Stmt {
    /// A call of the function that the linker knows as `func_name`.
    pub fn as_call(func_name: String, res: Option<Operand>, args: Vec<Operand>) -> (stmt: Self)
        ensures
            stmt@ == (StmtModel::Call { func_name: func_name@, res: option_model(res), args: operand_models(args@) }),
    {
        Stmt { inner: StmtInner::Call(CallStmt { func_name, res, args }) }
    }

    /// A load of `dst` from the address `ptr`.
    pub fn as_load(dst: Operand, ptr: Operand) -> (stmt: Self)
        ensures
            stmt@ == (StmtModel::Load { dst: dst@, ptr: ptr@ }),
    {
        Stmt { inner: StmtInner::Load(LoadStmt { dst, ptr }) }
    }

    /// The value that belongs to the block that control came from.
    pub fn as_phi(dst: Operand, incomings: Vec<(BlockLabel, Operand)>) -> (stmt: Self)
        ensures
            stmt@ == (StmtModel::Phi { dst: dst@, incomings: incoming_models(incomings@) }),
    {
        Stmt { inner: StmtInner::Phi(PhiStmt { dst, incomings }) }
    }

    /// An arithmetic operation.
    pub fn as_biop(kind: ArithBinOp, left: Operand, right: Operand, dst: Operand) -> (stmt: Self)
        ensures
            stmt@ == (StmtModel::BiOp { kind: kind, left: left@, right: right@, dst: dst@ }),
    {
        Stmt { inner: StmtInner::BiOp(BiOpStmt { kind, left, right, dst }) }
    }

    /// The allocation of a stack slot.
    pub fn as_alloca(dst: Operand) -> (stmt: Self)
        ensures
            stmt@ == (StmtModel::Alloca { dst: dst@ }),
    {
        Stmt { inner: StmtInner::Alloca(AllocaStmt { dst }) }
    }

    /// A comparison.
    pub fn as_cmp(kind: CmpPredicate, left: Operand, right: Operand, dst: Operand) -> (stmt: Self)
        ensures
            stmt@ == (StmtModel::Cmp { kind: kind, left: left@, right: right@, dst: dst@ }),
    {
        Stmt { inner: StmtInner::Cmp(CmpStmt { kind, left, right, dst }) }
    }

    /// A conditional branch.
    pub fn as_cjump(cond: Operand, true_label: BlockLabel, false_label: BlockLabel) -> (stmt: Self)
        ensures
            stmt@ == (StmtModel::CJump { cond: cond@, true_label: true_label@, false_label: false_label@ }),
    {
        Stmt { inner: StmtInner::CJump(CJumpStmt { cond, true_label, false_label }) }
    }

    /// The start of a block.
    pub fn as_label(label: BlockLabel) -> (stmt: Self)
        ensures
            stmt@ == (StmtModel::Label { label: label@ }),
    {
        Stmt { inner: StmtInner::Label(LabelStmt { label }) }
    }

    /// A store of `src` to the address `ptr`.
    pub fn as_store(src: Operand, ptr: Operand) -> (stmt: Self)
        ensures
            stmt@ == (StmtModel::Store { src: src@, ptr: ptr@ }),
    {
        Stmt { inner: StmtInner::Store(StoreStmt { src, ptr }) }
    }

    /// A branch.
    pub fn as_jump(target: BlockLabel) -> (stmt: Self)
        ensures
            stmt@ == (StmtModel::Jump { target: target@ }),
    {
        Stmt { inner: StmtInner::Jump(JumpStmt { target }) }
    }

    /// The address of an element.
    pub fn as_gep(new_ptr: Operand, base_ptr: Operand, index: Operand) -> (stmt: Self)
        ensures
            stmt@ == (StmtModel::Gep { new_ptr: new_ptr@, base_ptr: base_ptr@, index: index@ }),
    {
        Stmt { inner: StmtInner::Gep(GepStmt { new_ptr, base_ptr, index }) }
    }

    /// A return, with or without a value.
    pub fn as_return(val: Option<Operand>) -> (stmt: Self)
        ensures
            stmt@ == (StmtModel::Return { val: option_model(val) }),
    {
        Stmt { inner: StmtInner::Return(ReturnStmt { val }) }
    }
}

/// An argument with its type; pointers and arrays are passed as `ptr`.
pub open spec fn argument_text(a: OperandModel) -> Seq<char> {
    if a.ty() is Pointer || a.ty() is Array {
        "ptr "@ + a.text()
    } else {
        a.ty().text() + " "@ + a.text()
    }
}

/// The arguments of a call, separated by commas.
pub open spec fn arguments_text(args: Seq<OperandModel>) -> Seq<char> {
    join_text(Seq::new(args.len(), |i: int| argument_text(args[i])), ", "@)
}

/// One incoming value of a phi.
pub open spec fn incoming_text(incoming: (LabelModel, OperandModel)) -> Seq<char> {
    "[ "@ + incoming.1.text() + ", %"@ + incoming.0.text() + " ]"@
}

/// The incoming values of a phi, separated by commas.
pub open spec fn incomings_text(incomings: Seq<(LabelModel, OperandModel)>) -> Seq<char> {
    join_text(Seq::new(incomings.len(), |i: int| incoming_text(incomings[i])), ", "@)
}

/// What the address computation steps over, and whether it first steps into
/// the object that the base points to.
pub open spec fn gep_shape(base: DtypeModel) -> Option<(DtypeModel, bool)> {
    match base {
        DtypeModel::Pointer(p) => match *p {
            DtypeModel::Array(_, Some(_)) => Some((*p, true)),
            DtypeModel::Struct(_) => Some((*p, true)),
            DtypeModel::Array(e, None) => Some((*e, false)),
            _ => Some((*p, false)),
        },
        DtypeModel::Array(_, _) => Some((base, true)),
        _ => None,
    }
}

impl StmtModel {
    /// The statement as it is written in the printed representation, if its
    /// operands allow it: only arrays and pointers can be indexed.
    pub open spec fn text(self) -> Option<Seq<char>> {
        match self {
            StmtModel::Call { func_name, res, args } => Some(
                match res {
                    Some(r) => "\t"@ + r.text() + " = call "@ + r.ty().text() + " @"@ + func_name
                        + "("@ + arguments_text(args) + ")"@,
                    None => "\tcall void @"@ + func_name + "("@ + arguments_text(args) + ")"@,
                },
            ),
            StmtModel::Load { dst, ptr } => Some(
                "\t"@ + dst.text() + " = load "@ + dst.ty().text() + ", ptr "@ + ptr.text()
                    + ", align 4"@,
            ),
            StmtModel::Phi { dst, incomings } => Some(
                "\t"@ + dst.text() + " = phi "@ + dst.ty().text() + " "@ + incomings_text(incomings),
            ),
            StmtModel::BiOp { kind, left, right, dst } => Some(
                "\t"@ + dst.text() + " = "@ + kind.text() + " "@ + dst.ty().text() + " "@
                    + left.text() + ", "@ + right.text(),
            ),
            StmtModel::Alloca { dst } => Some(
                "\t"@ + dst.text() + " = alloca "@ + (match dst.ty() {
                    DtypeModel::Pointer(p) => p.text(),
                    other => other.text(),
                }) + ", align 4"@,
            ),
            StmtModel::Cmp { kind, left, right, dst } => Some(
                "\t"@ + dst.text() + " = icmp "@ + kind.text() + " "@ + left.ty().text() + " "@
                    + left.text() + ", "@ + right.text(),
            ),
            StmtModel::CJump { cond, true_label, false_label } => Some(
                "\tbr i1 "@ + cond.text() + ", label %"@ + true_label.text() + ", label %"@
                    + false_label.text(),
            ),
            StmtModel::Label { label } => Some(label.text() + ":"@),
            StmtModel::Store { src, ptr } => Some(
                "\tstore "@ + src.ty().text() + " "@ + src.text() + ", ptr "@ + ptr.text()
                    + ", align 4"@,
            ),
            StmtModel::Jump { target } => Some("\tbr label %"@ + target.text()),
            StmtModel::Gep { new_ptr, base_ptr, index } => match gep_shape(base_ptr.ty()) {
                Some((stepped, into)) => Some(
                    "\t"@ + new_ptr.text() + " = getelementptr "@ + stepped.text() + ", ptr "@
                        + base_ptr.text() + (if into {
                        ", i32 0, i32 "@
                    } else {
                        ", i32 "@
                    }) + index.text(),
                ),
                None => None,
            },
            StmtModel::Return { val } => Some(
                match val {
                    Some(v) => "\tret "@ + v.ty().text() + " "@ + v.text(),
                    None => "\tret void"@,
                },
            ),
        }
    }
}

fn arguments_to_text(args: &Vec<Operand>) -> (s: String)
    ensures
        s@ == arguments_text(operand_models(args@)),
{
    let mut parts: Vec<String> = Vec::new();
    let mut i: usize = 0;
    while i < args.len()
        invariant
            i <= args.len(),
            parts.len() == i,
            forall|j: int| 0 <= j < i ==> #[trigger] parts@[j]@ == argument_text(args@[j]@),
        decreases args.len() - i,
    {
        let a = &args[i];
        let mut s = String::new();
        match a.dtype() {
            Dtype::Pointer { .. } | Dtype::Array { .. } => {
                s.append("ptr ");
            },
            other => {
                s.append(other.to_text().as_str());
                s.append(" ");
            },
        }
        s.append(a.to_text().as_str());
        parts.push(s);
        i = i + 1;
    }
    let ghost models = operand_models(args@);
    assert(texts(parts@) =~= Seq::new(models.len(), |i: int| argument_text(models[i])));
    join_strings(&parts, ", ")
}

fn incomings_to_text(incomings: &Vec<(BlockLabel, Operand)>) -> (s: String)
    ensures
        s@ == incomings_text(incoming_models(incomings@)),
{
    let mut parts: Vec<String> = Vec::new();
    let mut i: usize = 0;
    let ghost models = incoming_models(incomings@);
    while i < incomings.len()
        invariant
            i <= incomings.len(),
            models == incoming_models(incomings@),
            parts.len() == i,
            forall|j: int| 0 <= j < i ==> #[trigger] parts@[j]@ == incoming_text(models[j]),
        decreases incomings.len() - i,
    {
        let mut s = owned("[ ");
        s.append(incomings[i].1.to_text().as_str());
        s.append(", %");
        s.append(incomings[i].0.key().as_str());
        s.append(" ]");
        parts.push(s);
        i = i + 1;
    }
    assert(texts(parts@) =~= Seq::new(models.len(), |i: int| incoming_text(models[i])));
    join_strings(&parts, ", ")
}

impl CallStmt {
    fn to_text(&self) -> (s: String)
        ensures
            Some(s@) == (StmtModel::Call {
                func_name: self.func_name@,
                res: option_model(self.res),
                args: operand_models(self.args@),
            }).text(),
    {
        let mut s = owned("\t");
        match &self.res {
            Some(r) => {
                s.append(r.to_text().as_str());
                s.append(" = call ");
                s.append(r.dtype().to_text().as_str());
                s.append(" @");
            },
            None => {
                s = owned("\tcall void @");
            },
        }
        s.append(self.func_name.as_str());
        s.append("(");
        s.append(arguments_to_text(&self.args).as_str());
        s.append(")");
        s
    }
}

/// What the address computation steps over, and whether it first steps into
/// the object that the base points to.
fn gep_step(base: &Dtype) -> (step: Option<(&Dtype, bool)>)
    ensures
        match step {
            Some(x) => gep_shape(base@) == Some((x.0@, x.1)),
            None => gep_shape(base@) is None,
        },
{
    proof {
        reveal_with_fuel(Dtype::model, 3);
    }
    match base {
        Dtype::Pointer { pointee } => match &**pointee {
            Dtype::Array { element, length } => match length {
                Some(_) => Some((&**pointee, true)),
                None => Some((&**element, false)),
            },
            Dtype::Struct { .. } => Some((&**pointee, true)),
            _ => Some((&**pointee, false)),
        },
        Dtype::Array { .. } => Some((base, true)),
        _ => None,
    }
}

impl GepStmt {
    fn to_text(&self) -> (s: Option<String>)
        ensures
            match s {
                Some(t) => Some(t@),
                None => None,
            } == (StmtModel::Gep {
                new_ptr: self.new_ptr@,
                base_ptr: self.base_ptr@,
                index: self.index@,
            }).text(),
    {
        match gep_step(self.base_ptr.dtype()) {
            Some((stepped, into)) => {
                let mut s = owned("\t");
                s.append(self.new_ptr.to_text().as_str());
                s.append(" = getelementptr ");
                s.append(stepped.to_text().as_str());
                s.append(", ptr ");
                s.append(self.base_ptr.to_text().as_str());
                if into {
                    s.append(", i32 0, i32 ");
                } else {
                    s.append(", i32 ");
                }
                s.append(self.index.to_text().as_str());
                Some(s)
            },
            None => None,
        }
    }
}

impl LoadStmt {
    fn to_text(&self) -> (s: String)
        ensures
            Some(s@) == (StmtModel::Load { dst: self.dst@, ptr: self.ptr@ }).text(),
    {
        let mut s = owned("\t");
        s.append(self.dst.to_text().as_str());
        s.append(" = load ");
        s.append(self.dst.dtype().to_text().as_str());
        s.append(", ptr ");
        s.append(self.ptr.to_text().as_str());
        s.append(", align 4");
        s
    }
}

impl PhiStmt {
    fn to_text(&self) -> (s: String)
        ensures
            Some(s@) == (StmtModel::Phi { dst: self.dst@, incomings: incoming_models(self.incomings@) }).text(),
    {
        let mut s = owned("\t");
        s.append(self.dst.to_text().as_str());
        s.append(" = phi ");
        s.append(self.dst.dtype().to_text().as_str());
        s.append(" ");
        s.append(incomings_to_text(&self.incomings).as_str());
        s
    }
}

impl BiOpStmt {
    fn to_text(&self) -> (s: String)
        ensures
            Some(s@) == (StmtModel::BiOp { kind: self.kind, left: self.left@, right: self.right@, dst: self.dst@ }).text(),
    {
        let mut s = owned("\t");
        s.append(self.dst.to_text().as_str());
        s.append(" = ");
        s.append(self.kind.to_text());
        s.append(" ");
        s.append(self.dst.dtype().to_text().as_str());
        s.append(" ");
        s.append(self.left.to_text().as_str());
        s.append(", ");
        s.append(self.right.to_text().as_str());
        s
    }
}

impl AllocaStmt {
    fn to_text(&self) -> (s: String)
        ensures
            Some(s@) == (StmtModel::Alloca { dst: self.dst@ }).text(),
    {
        let mut s = owned("\t");
        s.append(self.dst.to_text().as_str());
        s.append(" = alloca ");
        match self.dst.dtype() {
            Dtype::Pointer { pointee } => s.append(pointee.to_text().as_str()),
            other => s.append(other.to_text().as_str()),
        }
        s.append(", align 4");
        s
    }
}

impl CmpStmt {
    fn to_text(&self) -> (s: String)
        ensures
            Some(s@) == (StmtModel::Cmp { kind: self.kind, left: self.left@, right: self.right@, dst: self.dst@ }).text(),
    {
        let mut s = owned("\t");
        s.append(self.dst.to_text().as_str());
        s.append(" = icmp ");
        s.append(self.kind.to_text());
        s.append(" ");
        s.append(self.left.dtype().to_text().as_str());
        s.append(" ");
        s.append(self.left.to_text().as_str());
        s.append(", ");
        s.append(self.right.to_text().as_str());
        s
    }
}

impl CJumpStmt {
    fn to_text(&self) -> (s: String)
        ensures
            Some(s@) == (StmtModel::CJump { cond: self.cond@, true_label: self.true_label@, false_label: self.false_label@ }).text(),
    {
        let mut s = owned("\tbr i1 ");
        s.append(self.cond.to_text().as_str());
        s.append(", label %");
        s.append(self.true_label.key().as_str());
        s.append(", label %");
        s.append(self.false_label.key().as_str());
        s
    }
}

impl LabelStmt {
    fn to_text(&self) -> (s: String)
        ensures
            Some(s@) == (StmtModel::Label { label: self.label@ }).text(),
    {
        let mut s = owned(self.label.key().as_str());
        s.append(":");
        s
    }
}

impl StoreStmt {
    fn to_text(&self) -> (s: String)
        ensures
            Some(s@) == (StmtModel::Store { src: self.src@, ptr: self.ptr@ }).text(),
    {
        let mut s = owned("\tstore ");
        s.append(self.src.dtype().to_text().as_str());
        s.append(" ");
        s.append(self.src.to_text().as_str());
        s.append(", ptr ");
        s.append(self.ptr.to_text().as_str());
        s.append(", align 4");
        s
    }
}

impl JumpStmt {
    fn to_text(&self) -> (s: String)
        ensures
            Some(s@) == (StmtModel::Jump { target: self.target@ }).text(),
    {
        let mut s = owned("\tbr label %");
        s.append(self.target.key().as_str());
        s
    }
}

impl ReturnStmt {
    fn to_text(&self) -> (s: String)
        ensures
            Some(s@) == (StmtModel::Return { val: option_model(self.val) }).text(),
    {
        match &self.val {
            Some(v) => {
                let mut s = owned("\tret ");
                s.append(v.dtype().to_text().as_str());
                s.append(" ");
                s.append(v.to_text().as_str());
                s
            },
            None => owned("\tret void"),
        }
    }
}

impl Stmt {
    /// The statement as it is written in the printed representation, if its
    /// operands allow it.
    pub fn to_text(&self) -> (s: Option<String>)
        ensures
            match s {
                Some(t) => Some(t@),
                None => None,
            } == self@.text(),
    {
        match &self.inner {
            StmtInner::Gep(s) => s.to_text(),
            StmtInner::Call(s) => Some(s.to_text()),
            StmtInner::Load(s) => Some(s.to_text()),
            StmtInner::Phi(s) => Some(s.to_text()),
            StmtInner::BiOp(s) => Some(s.to_text()),
            StmtInner::Alloca(s) => Some(s.to_text()),
            StmtInner::Cmp(s) => Some(s.to_text()),
            StmtInner::CJump(s) => Some(s.to_text()),
            StmtInner::Label(s) => Some(s.to_text()),
            StmtInner::Store(s) => Some(s.to_text()),
            StmtInner::Jump(s) => Some(s.to_text()),
            StmtInner::Return(s) => Some(s.to_text()),
        }
    }
}

/// How a statement uses an operand.
#[derive(Clone, Copy, Debug, PartialEq, Eq, Structural)]
pub enum OperandRole {
    /// The statement defines the value.
    Def,
    /// The statement reads the value, not as the address of a load or store.
    Use,
    /// The address of a load.
    LoadPtr,
    /// The address of a store.
    StorePtr,
}

/// An operand of a statement together with its role.
pub struct OperandRef<'a> {
    pub operand: &'a Operand,
    pub role: OperandRole,
}

impl StmtModel {
    /// The value that the statement defines, if any.
    pub open spec fn def(self) -> Option<OperandModel> {
        match self {
            StmtModel::Call { res, .. } => res,
            StmtModel::Load { dst, .. } => Some(dst),
            StmtModel::Phi { dst, .. } => Some(dst),
            StmtModel::BiOp { dst, .. } => Some(dst),
            StmtModel::Alloca { dst } => Some(dst),
            StmtModel::Cmp { dst, .. } => Some(dst),
            StmtModel::Gep { new_ptr, .. } => Some(new_ptr),
            _ => None,
        }
    }

    /// The operands that the statement reads, each with its role.
    pub open spec fn reads(self) -> Seq<(OperandModel, OperandRole)> {
        match self {
            StmtModel::Call { args, .. } => Seq::new(
                args.len(),
                |i: int| (args[i], OperandRole::Use),
            ),
            StmtModel::Load { ptr, .. } => seq![(ptr, OperandRole::LoadPtr)],
            StmtModel::Phi { incomings, .. } => Seq::new(
                incomings.len(),
                |i: int| (incomings[i].1, OperandRole::Use),
            ),
            StmtModel::BiOp { left, right, .. } => seq![
                (left, OperandRole::Use),
                (right, OperandRole::Use),
            ],
            StmtModel::Cmp { left, right, .. } => seq![
                (left, OperandRole::Use),
                (right, OperandRole::Use),
            ],
            StmtModel::CJump { cond, .. } => seq![(cond, OperandRole::Use)],
            StmtModel::Store { src, ptr } => seq![
                (src, OperandRole::Use),
                (ptr, OperandRole::StorePtr),
            ],
            StmtModel::Gep { base_ptr, index, .. } => seq![
                (base_ptr, OperandRole::Use),
                (index, OperandRole::Use),
            ],
            StmtModel::Return { val } => match val {
                Some(v) => seq![(v, OperandRole::Use)],
                None => Seq::empty(),
            },
            _ => Seq::empty(),
        }
    }

    /// All operands with their roles: the definition first, then the reads.
    pub open spec fn roles(self) -> Seq<(OperandModel, OperandRole)> {
        (match self.def() {
            Some(d) => seq![(d, OperandRole::Def)],
            None => Seq::empty(),
        }) + self.reads()
    }
}

/// The operands and roles of a list of references.
pub open spec fn role_models(refs: Seq<OperandRef<'_>>) -> Seq<(OperandModel, OperandRole)> {
    Seq::new(refs.len(), |i: int| (refs[i].operand@, refs[i].role))
}

impl Stmt {
    /// All operands with their roles: the definition first, then the reads.
    pub fn operands(&self) -> (refs: Vec<OperandRef<'_>>)
        ensures
            role_models(refs@) == self@.roles(),
    {
        let mut refs: Vec<OperandRef<'_>> = Vec::new();
        match &self.inner {
            StmtInner::Alloca(s) => {
                refs.push(OperandRef { operand: &s.dst, role: OperandRole::Def });
            },
            StmtInner::Load(s) => {
                refs.push(OperandRef { operand: &s.dst, role: OperandRole::Def });
                refs.push(OperandRef { operand: &s.ptr, role: OperandRole::LoadPtr });
            },
            StmtInner::Store(s) => {
                refs.push(OperandRef { operand: &s.src, role: OperandRole::Use });
                refs.push(OperandRef { operand: &s.ptr, role: OperandRole::StorePtr });
            },
            StmtInner::BiOp(s) => {
                refs.push(OperandRef { operand: &s.dst, role: OperandRole::Def });
                refs.push(OperandRef { operand: &s.left, role: OperandRole::Use });
                refs.push(OperandRef { operand: &s.right, role: OperandRole::Use });
            },
            StmtInner::Cmp(s) => {
                refs.push(OperandRef { operand: &s.dst, role: OperandRole::Def });
                refs.push(OperandRef { operand: &s.left, role: OperandRole::Use });
                refs.push(OperandRef { operand: &s.right, role: OperandRole::Use });
            },
            StmtInner::CJump(s) => {
                refs.push(OperandRef { operand: &s.cond, role: OperandRole::Use });
            },
            StmtInner::Call(s) => {
                match &s.res {
                    Some(r) => refs.push(OperandRef { operand: r, role: OperandRole::Def }),
                    None => {},
                }
                let ghost head = role_models(refs@);
                assert(head =~= match self@.def() {
                    Some(d) => seq![(d, OperandRole::Def)],
                    None => Seq::empty(),
                });
                let mut i: usize = 0;
                while i < s.args.len()
                    invariant
                        i <= s.args.len(),
                        refs.len() == head.len() + i,
                        forall|j: int| 0 <= j < head.len() ==> role_models(refs@)[j] == head[j],
                        forall|j: int|
                            0 <= j < i ==> role_models(refs@)[head.len() + j] == (
                                #[trigger] s.args@[j]@,
                                OperandRole::Use,
                            ),
                    decreases s.args.len() - i,
                {
                    refs.push(OperandRef { operand: &s.args[i], role: OperandRole::Use });
                    i = i + 1;
                }
                proof {
                    let reads = self@.reads();
                    assert forall|j: int| 0 <= j < reads.len() implies reads[j] == (
                        s.args@[j]@,
                        OperandRole::Use,
                    ) by {}
                    assert forall|j: int| head.len() <= j < refs.len() implies role_models(refs@)[j]
                        == reads[j - head.len()] by {
                        assert(s.args@[j - head.len()]@ == s.args@[j - head.len()]@);
                        assert(role_models(refs@)[head.len() + (j - head.len())] == (
                            s.args@[j - head.len()]@,
                            OperandRole::Use,
                        ));
                    }
                    assert(role_models(refs@) =~= head + reads);
                }
            },
            StmtInner::Gep(s) => {
                refs.push(OperandRef { operand: &s.new_ptr, role: OperandRole::Def });
                refs.push(OperandRef { operand: &s.base_ptr, role: OperandRole::Use });
                refs.push(OperandRef { operand: &s.index, role: OperandRole::Use });
            },
            StmtInner::Return(s) => match &s.val {
                Some(v) => refs.push(OperandRef { operand: v, role: OperandRole::Use }),
                None => {},
            },
            StmtInner::Phi(s) => {
                refs.push(OperandRef { operand: &s.dst, role: OperandRole::Def });
                let mut i: usize = 0;
                while i < s.incomings.len()
                    invariant
                        i <= s.incomings.len(),
                        refs.len() == 1 + i,
                        role_models(refs@)[0] == (s.dst@, OperandRole::Def),
                        forall|j: int|
                            0 <= j < i ==> role_models(refs@)[1 + j] == (
                                (#[trigger] s.incomings@[j]).1@,
                                OperandRole::Use,
                            ),
                    decreases s.incomings.len() - i,
                {
                    refs.push(OperandRef { operand: &s.incomings[i].1, role: OperandRole::Use });
                    i = i + 1;
                }
                proof {
                    assert forall|j: int| 1 <= j < refs.len() implies role_models(refs@)[j]
                        == self@.reads()[j - 1] by {
                        assert(role_models(refs@)[1 + (j - 1)] == (
                            s.incomings@[j - 1].1@,
                            OperandRole::Use,
                        ));
                    }
                }
            },
            StmtInner::Label(_) => {},
            StmtInner::Jump(_) => {},
        }
        assert(role_models(refs@) =~= self@.roles());
        refs
    }
}

impl StmtModel {
    /// The same statement with `reads` in place of the operands it reads.
    pub open spec fn with_reads(self, reads: Seq<OperandModel>) -> StmtModel {
        match self {
            StmtModel::Call { func_name, res, .. } => StmtModel::Call {
                func_name,
                res,
                args: reads,
            },
            StmtModel::Load { dst, .. } => StmtModel::Load { dst, ptr: reads[0] },
            StmtModel::Phi { dst, incomings } => StmtModel::Phi {
                dst,
                incomings: Seq::new(incomings.len(), |i: int| (incomings[i].0, reads[i])),
            },
            StmtModel::BiOp { kind, dst, .. } => StmtModel::BiOp {
                kind,
                left: reads[0],
                right: reads[1],
                dst,
            },
            StmtModel::Cmp { kind, dst, .. } => StmtModel::Cmp {
                kind,
                left: reads[0],
                right: reads[1],
                dst,
            },
            StmtModel::CJump { true_label, false_label, .. } => StmtModel::CJump {
                cond: reads[0],
                true_label,
                false_label,
            },
            StmtModel::Store { .. } => StmtModel::Store { src: reads[0], ptr: reads[1] },
            StmtModel::Gep { new_ptr, .. } => StmtModel::Gep {
                new_ptr,
                base_ptr: reads[0],
                index: reads[1],
            },
            StmtModel::Return { val } => StmtModel::Return {
                val: match val {
                    Some(_) => Some(reads[0]),
                    None => None,
                },
            },
            _ => self,
        }
    }
}

/// Some operand with the model `x` is taken by `f` to one with the model `y`.
pub open spec fn image<F: Fn(&Operand) -> Operand>(f: F, x: OperandModel, y: OperandModel) -> bool {
    exists|a: Operand, b: Operand|
        a@ == x && b@ == y && #[trigger] call_ensures(f, (&a,), b)
}

/// `outs` are the images under `f` of the operands `ins`.
pub open spec fn mapped<F: Fn(&Operand) -> Operand>(
    f: F,
    ins: Seq<(OperandModel, OperandRole)>,
    outs: Seq<OperandModel>,
) -> bool {
    &&& outs.len() == ins.len()
    &&& forall|i: int| 0 <= i < ins.len() ==> image(f, ins[i].0, #[trigger] outs[i])
}

fn apply<F: Fn(&Operand) -> Operand>(f: &F, o: &Operand) -> (r: Operand)
    requires
        call_requires(*f, (o,)),
    ensures
        image(*f, o@, r@),
{
    let r = (*f)(o);
    assert(call_ensures(*f, (o,), r));
    r
}

impl Stmt {
    /// The same statement with `f` applied to every operand it reads; what it
    /// defines stays.
    pub fn map_use_operands<F: Fn(&Operand) -> Operand>(&self, f: F) -> (stmt: Stmt)
        requires
            forall|o: Operand| #[trigger] call_requires(f, (&o,)),
        ensures
            exists|outs: Seq<OperandModel>| #[trigger]
                mapped(f, self@.reads(), outs) && stmt@ == self@.with_reads(outs),
    {
        let ghost mut outs: Seq<OperandModel> = Seq::empty();
        let stmt = match &self.inner {
            StmtInner::Alloca(s) => Stmt::as_alloca(s.dst.clone()),
            StmtInner::Load(s) => {
                let p = apply(&f, &s.ptr);
                proof {
                    outs = seq![p@];
                }
                Stmt::as_load(s.dst.clone(), p)
            },
            StmtInner::Store(s) => {
                let v = apply(&f, &s.src);
                let p = apply(&f, &s.ptr);
                proof {
                    outs = seq![v@, p@];
                }
                Stmt::as_store(v, p)
            },
            StmtInner::BiOp(s) => {
                let l = apply(&f, &s.left);
                let r = apply(&f, &s.right);
                proof {
                    outs = seq![l@, r@];
                }
                Stmt::as_biop(s.kind, l, r, s.dst.clone())
            },
            StmtInner::Cmp(s) => {
                let l = apply(&f, &s.left);
                let r = apply(&f, &s.right);
                proof {
                    outs = seq![l@, r@];
                }
                Stmt::as_cmp(s.kind, l, r, s.dst.clone())
            },
            StmtInner::CJump(s) => {
                let c = apply(&f, &s.cond);
                proof {
                    outs = seq![c@];
                }
                Stmt::as_cjump(c, s.true_label.clone(), s.false_label.clone())
            },
            StmtInner::Call(s) => {
                let mut args: Vec<Operand> = Vec::new();
                let mut i: usize = 0;
                while i < s.args.len()
                    invariant
                        forall|o: Operand| #[trigger] call_requires(f, (&o,)),
                        i <= s.args.len(),
                        args.len() == i,
                        forall|j: int|
                            0 <= j < i ==> image(f, s.args@[j]@, (#[trigger] args@[j])@),
                    decreases s.args.len() - i,
                {
                    args.push(apply(&f, &s.args[i]));
                    i = i + 1;
                }
                proof {
                    outs = operand_models(args@);
                    assert(mapped(f, self@.reads(), outs));
                }
                Stmt::as_call(s.func_name.clone(), copy_option(&s.res), args)
            },
            StmtInner::Gep(s) => {
                let b = apply(&f, &s.base_ptr);
                let i = apply(&f, &s.index);
                proof {
                    outs = seq![b@, i@];
                }
                Stmt::as_gep(s.new_ptr.clone(), b, i)
            },
            StmtInner::Return(s) => match &s.val {
                Some(v) => {
                    let r = apply(&f, v);
                    proof {
                        outs = seq![r@];
                    }
                    Stmt::as_return(Some(r))
                },
                None => Stmt::as_return(None),
            },
            StmtInner::Phi(s) => {
                let mut incomings: Vec<(BlockLabel, Operand)> = Vec::new();
                let mut i: usize = 0;
                while i < s.incomings.len()
                    invariant
                        forall|o: Operand| #[trigger] call_requires(f, (&o,)),
                        i <= s.incomings.len(),
                        incomings.len() == i,
                        forall|j: int|
                            0 <= j < i ==> (#[trigger] incomings@[j]).0 == s.incomings@[j].0
                                && image(f, s.incomings@[j].1@, incomings@[j].1@),
                    decreases s.incomings.len() - i,
                {
                    let v = apply(&f, &s.incomings[i].1);
                    incomings.push((s.incomings[i].0.clone(), v));
                    i = i + 1;
                }
                proof {
                    outs = Seq::new(incomings@.len(), |j: int| incomings@[j].1@);
                    assert(mapped(f, self@.reads(), outs));
                    assert(incoming_models(incomings@) =~= Seq::new(
                        s.incomings@.len(),
                        |j: int| (incoming_models(s.incomings@)[j].0, outs[j]),
                    ));
                }
                Stmt::as_phi(s.dst.clone(), incomings)
            },
            StmtInner::Label(s) => Stmt::as_label(s.label.clone()),
            StmtInner::Jump(s) => Stmt::as_jump(s.target.clone()),
        };
        assert(mapped(f, self@.reads(), outs));
        stmt
    }
}

} // verus!
