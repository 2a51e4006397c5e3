//! Values: what instructions operate on, and the definitions of globals.

use super::types::{Dtype, DtypeModel};
use crate::common::text::{group_text, i64_to_text, int_text, nat_text, owned, usize_to_text};
use vstd::prelude::*;
use vstd::string::*;

verus! {

broadcast use group_text;

/// The number of a local value within its function.
#[derive(Clone, Copy, PartialEq, Eq, Hash, Debug, Structural)]
pub struct LocalId(pub usize);

/// A local value with its type.
#[derive(Debug)]
pub struct Local {
    pub id: LocalId,
    pub dtype: Dtype,
}

/// The mathematical model of a [`Local`].
pub struct LocalModel {
    pub id: nat,
    pub dtype: DtypeModel,
}

impl View for Local {
    type V = LocalModel;

    open spec fn view(&self) -> LocalModel {
        LocalModel { id: self.id.0 as nat, dtype: self.dtype@ }
    }
}

impl Clone for Local {
    fn clone(&self) -> (copy: Self)
        ensures
            copy == *self,
    {
        Local { id: self.id, dtype: self.dtype.clone() }
    }
}

impl Local {
    /// The local value `id` of type `dtype`.
    pub fn new(dtype: Dtype, id: LocalId) -> (local: Self)
        ensures
            local == (Local { id, dtype }),
    {
        Local { id, dtype }
    }

    /// The printed name of the value.
    pub fn to_text(&self) -> (s: String)
        ensures
            s@ == "%r"@ + nat_text(self.id.0 as nat),
    {
        let mut s = owned("%r");
        s.append(usize_to_text(self.id.0).as_str());
        s
    }
}

/// The definition of a global.
#[derive(Debug)]
pub struct GlobalDef {
    pub dtype: Dtype,
    pub initializers: Option<Vec<i32>>,
}

/// The mathematical model of a [`GlobalDef`].
pub struct GlobalDefModel {
    pub dtype: DtypeModel,
    pub initializers: Option<Seq<i32>>,
}

impl View for GlobalDef {
    type V = GlobalDefModel;

    open spec fn view(&self) -> GlobalDefModel {
        GlobalDefModel {
            dtype: self.dtype@,
            initializers: match self.initializers {
                Some(v) => Some(v@),
                None => None,
            },
        }
    }
}

/// A reference to a global by name.
#[derive(Debug)]
pub struct GlobalRef {
    pub name: String,
    pub dtype: Dtype,
}

impl Clone for GlobalRef {
    fn clone(&self) -> (copy: Self)
        ensures
            copy == *self,
    {
        GlobalRef { name: self.name.clone(), dtype: self.dtype.clone() }
    }
}

/// A typed integer constant.
#[derive(Debug)]
pub struct IntConst {
    pub dtype: Dtype,
    pub val: i64,
}

impl Clone for IntConst {
    fn clone(&self) -> (copy: Self)
        ensures
            copy == *self,
    {
        IntConst { dtype: self.dtype.clone(), val: self.val }
    }
}

/// What an instruction operates on.
#[derive(Debug)]
pub enum Operand {
    Const(IntConst),
    Local(Local),
    Global(GlobalRef),
}

/// The mathematical model of an [`Operand`].
pub enum OperandModel {
    Const { dtype: DtypeModel, val: int },
    Local(LocalModel),
    Global { name: Seq<char>, dtype: DtypeModel },
}

impl View for Operand {
    type V = OperandModel;

    open spec fn view(&self) -> OperandModel {
        match *self {
            Operand::Const(c) => OperandModel::Const { dtype: c.dtype@, val: c.val as int },
            Operand::Local(l) => OperandModel::Local(l@),
            Operand::Global(g) => OperandModel::Global { name: g.name@, dtype: g.dtype@ },
        }
    }
}

impl Clone for Operand {
    fn clone(&self) -> (copy: Self)
        ensures
            copy == *self,
    {
        match self {
            Operand::Const(c) => Operand::Const(c.clone()),
            Operand::Local(l) => Operand::Local(l.clone()),
            Operand::Global(g) => Operand::Global(g.clone()),
        }
    }
}

impl OperandModel {
    /// The type of the operand.
    pub open spec fn ty(self) -> DtypeModel {
        match self {
            OperandModel::Const { dtype, .. } => dtype,
            OperandModel::Local(l) => l.dtype,
            OperandModel::Global { dtype, .. } => dtype,
        }
    }

    /// The operand as it is written in the printed representation.
    pub open spec fn text(self) -> Seq<char> {
        match self {
            OperandModel::Const { val, .. } => int_text(val),
            OperandModel::Local(l) => "%r"@ + nat_text(l.id),
            OperandModel::Global { name, .. } => "@"@ + name,
        }
    }

    /// The constant `val` of type `i32`.
    pub open spec fn i32_const(val: int) -> OperandModel {
        OperandModel::Const { dtype: DtypeModel::I32, val }
    }

    /// The local value `id` of type `dtype`.
    pub open spec fn local(id: nat, dtype: DtypeModel) -> OperandModel {
        OperandModel::Local(LocalModel { id, dtype })
    }
}

impl Operand {
    /// The type of the operand.
    pub fn dtype(&self) -> (d: &Dtype)
        ensures
            d@ == self@.ty(),
    {
        match self {
            Operand::Const(c) => &c.dtype,
            Operand::Local(l) => &l.dtype,
            Operand::Global(g) => &g.dtype,
        }
    }

    /// The number of the local value, if the operand is one.
    pub fn local_id(&self) -> (id: Option<LocalId>)
        ensures
            match self@ {
                OperandModel::Local(l) => id matches Some(i) && i.0 == l.id,
                _ => id is None,
            },
    {
        match self {
            Operand::Local(l) => Some(l.id),
            _ => None,
        }
    }

    /// Whether the operand is a local value or a global.
    pub fn is_addressable(&self) -> (b: bool)
        ensures
            b == !(self@ is Const),
    {
        match self {
            Operand::Const(_) => false,
            _ => true,
        }
    }

    /// Whether the operand is a global.
    pub fn is_global(&self) -> (b: bool)
        ensures
            b == (self@ is Global),
    {
        match self {
            Operand::Global(_) => true,
            _ => false,
        }
    }

    /// The operand as it is written in the printed representation.
    pub fn to_text(&self) -> (s: String)
        ensures
            s@ == self@.text(),
    {
        match self {
            Operand::Const(c) => i64_to_text(c.val),
            Operand::Local(l) => l.to_text(),
            Operand::Global(g) => {
                let mut s = owned("@");
                s.append(g.name.as_str());
                s
            },
        }
    }
}

impl From<Local> for Operand {
    fn from(l: Local) -> (o: Self) {
        Operand::Local(l)
    }
}

impl vstd::std_specs::convert::FromSpecImpl<Local> for Operand {
    open spec fn obeys_from_spec() -> bool {
        true
    }

    open spec fn from_spec(l: Local) -> Self {
        Operand::Local(l)
    }
}

impl From<&Local> for Operand {
    fn from(l: &Local) -> (o: Self) {
        Operand::Local(l.clone())
    }
}

impl vstd::std_specs::convert::FromSpecImpl<&Local> for Operand {
    open spec fn obeys_from_spec() -> bool {
        true
    }

    open spec fn from_spec(l: &Local) -> Self {
        Operand::Local(*l)
    }
}

impl From<GlobalRef> for Operand {
    fn from(g: GlobalRef) -> (o: Self) {
        Operand::Global(g)
    }
}

impl vstd::std_specs::convert::FromSpecImpl<GlobalRef> for Operand {
    open spec fn obeys_from_spec() -> bool {
        true
    }

    open spec fn from_spec(g: GlobalRef) -> Self {
        Operand::Global(g)
    }
}

impl From<i32> for Operand {
    fn from(v: i32) -> (o: Self) {
        Operand::Const(IntConst { dtype: Dtype::I32, val: v as i64 })
    }
}

impl vstd::std_specs::convert::FromSpecImpl<i32> for Operand {
    open spec fn obeys_from_spec() -> bool {
        true
    }

    open spec fn from_spec(v: i32) -> Self {
        Operand::Const(IntConst { dtype: Dtype::I32, val: v as i64 })
    }
}

} // verus!
