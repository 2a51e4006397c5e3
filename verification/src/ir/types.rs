//! Data types of the intermediate representation.

use crate::common::text::{group_text, nat_text, owned, usize_to_text};
use vstd::prelude::*;
use vstd::string::*;

verus! {

broadcast use group_text;

/// A data type.
#[derive(Debug)]
pub enum Dtype {
    Void,
    I1,
    I32,
    Struct { name: String },
    Pointer { pointee: Box<Dtype> },
    Array { element: Box<Dtype>, length: Option<usize> },
}

/// The mathematical model of a [`Dtype`].
pub enum DtypeModel {
    Void,
    I1,
    I32,
    Struct(Seq<char>),
    Pointer(Box<DtypeModel>),
    Array(Box<DtypeModel>, Option<nat>),
}

impl DtypeModel {
    /// The name of the struct that the type is, points to, or is an array of.
    pub open spec fn struct_name(self) -> Option<Seq<char>>
        decreases self,
    {
        match self {
            DtypeModel::Struct(name) => Some(name),
            DtypeModel::Pointer(p) => p.struct_name(),
            DtypeModel::Array(e, _) => e.struct_name(),
            _ => None,
        }
    }

    /// The type as it is written in the printed representation.
    pub open spec fn text(self) -> Seq<char>
        decreases self,
    {
        match self {
            DtypeModel::I1 => "i1"@,
            DtypeModel::I32 => "i32"@,
            DtypeModel::Void => "void"@,
            DtypeModel::Struct(name) => "%"@ + name,
            DtypeModel::Pointer(_) => "ptr"@,
            DtypeModel::Array(e, Some(n)) => "["@ + nat_text(n) + " x "@ + e.text() + "]"@,
            DtypeModel::Array(e, None) => e.text(),
        }
    }

    /// A pointer to the type.
    pub open spec fn pointer(self) -> DtypeModel {
        DtypeModel::Pointer(Box::new(self))
    }

    /// An array of the type.
    pub open spec fn array(self, length: Option<nat>) -> DtypeModel {
        DtypeModel::Array(Box::new(self), length)
    }
}

impl Dtype {
    /// The model of the type.
    pub open spec fn model(self) -> DtypeModel
        decreases self,
    {
        match self {
            Dtype::Void => DtypeModel::Void,
            Dtype::I1 => DtypeModel::I1,
            Dtype::I32 => DtypeModel::I32,
            Dtype::Struct { name } => DtypeModel::Struct(name@),
            Dtype::Pointer { pointee } => DtypeModel::Pointer(Box::new(pointee.model())),
            Dtype::Array { element, length } => DtypeModel::Array(
                Box::new(element.model()),
                match length {
                    Some(n) => Some(n as nat),
                    None => None,
                },
            ),
        }
    }

    /// A pointer to `pointee`.
    pub fn ptr_to(pointee: Self) -> (d: Self)
        ensures
            d@ == pointee@.pointer(),
    {
        Dtype::Pointer { pointee: Box::new(pointee) }
    }

    /// An array of `len` times `elem`.
    pub fn array_of(elem: Self, len: usize) -> (d: Self)
        ensures
            d@ == elem@.array(Some(len as nat)),
    {
        Dtype::Array { element: Box::new(elem), length: Some(len) }
    }

    /// An array of `elem` of unknown length.
    pub fn unsized_array(elem: Self) -> (d: Self)
        ensures
            d@ == elem@.array(None),
    {
        Dtype::Array { element: Box::new(elem), length: None }
    }

    /// The name of the struct that the type is, points to, or is an array of.
    pub fn struct_type_name(&self) -> (name: Option<&String>)
        ensures
            match name {
                Some(n) => self@.struct_name() == Some(n@),
                None => self@.struct_name() is None,
            },
        decreases self,
    {
        match self {
            Dtype::Struct { name } => Some(name),
            Dtype::Pointer { pointee } => pointee.struct_type_name(),
            Dtype::Array { element, .. } => element.struct_type_name(),
            _ => None,
        }
    }

    /// The type as it is written in the printed representation.
    pub fn to_text(&self) -> (s: String)
        ensures
            s@ == self@.text(),
        decreases self,
    {
        match self {
            Dtype::I1 => owned("i1"),
            Dtype::I32 => owned("i32"),
            Dtype::Void => owned("void"),
            Dtype::Struct { name } => {
                let mut s = owned("%");
                s.append(name.as_str());
                s
            },
            Dtype::Pointer { .. } => owned("ptr"),
            Dtype::Array { element, length } => match length {
                Some(n) => {
                    let mut s = owned("[");
                    s.append(usize_to_text(*n).as_str());
                    s.append(" x ");
                    s.append(element.to_text().as_str());
                    s.append("]");
                    s
                },
                None => element.to_text(),
            },
        }
    }

    /// Whether the type is a pointer.
    pub fn is_pointer(&self) -> (b: bool)
        ensures
            b == (self@ is Pointer),
    {
        match self {
            Dtype::Pointer { .. } => true,
            _ => false,
        }
    }

    /// Whether two types are the same.
    pub fn same(&self, other: &Self) -> (b: bool)
        ensures
            b == (self@ == other@),
        decreases self,
    {
        match (self, other) {
            (Dtype::Void, Dtype::Void) => true,
            (Dtype::I1, Dtype::I1) => true,
            (Dtype::I32, Dtype::I32) => true,
            (Dtype::Struct { name: a }, Dtype::Struct { name: b }) => *a == *b,
            (Dtype::Pointer { pointee: a }, Dtype::Pointer { pointee: b }) => a.same(b),
            (
                Dtype::Array { element: a, length: m },
                Dtype::Array { element: b, length: n },
            ) => {
                let lengths = match (m, n) {
                    (Some(x), Some(y)) => *x == *y,
                    (None, None) => true,
                    _ => false,
                };
                lengths && a.same(b)
            },
            _ => false,
        }
    }
}

impl View for Dtype {
    type V = DtypeModel;

    open spec fn view(&self) -> DtypeModel {
        self.model()
    }
}

impl Clone for Dtype {
    fn clone(&self) -> (copy: Self)
        ensures
            copy == *self,
        decreases self,
    {
        match self {
            Dtype::Void => Dtype::Void,
            Dtype::I1 => Dtype::I1,
            Dtype::I32 => Dtype::I32,
            Dtype::Struct { name } => Dtype::Struct { name: name.clone() },
            Dtype::Pointer { pointee } => Dtype::Pointer {
                pointee: Box::new((&**pointee).clone()),
            },
            Dtype::Array { element, length } => Dtype::Array {
                element: Box::new((&**element).clone()),
                length: *length,
            },
        }
    }
}

impl PartialEq for Dtype {
    fn eq(&self, other: &Self) -> (b: bool) {
        self.same(other)
    }
}

impl vstd::std_specs::cmp::PartialEqSpecImpl for Dtype {
    open spec fn obeys_eq_spec() -> bool {
        true
    }

    open spec fn eq_spec(&self, other: &Self) -> bool {
        self@ == other@
    }
}

/// A member of a struct.
#[derive(Debug)]
pub struct StructMember {
    /// The position of the member within its struct.
    pub index: usize,
    pub dtype: Dtype,
}

/// The mathematical model of a [`StructMember`].
pub struct MemberModel {
    pub name: Seq<char>,
    pub index: nat,
    pub dtype: DtypeModel,
}

/// A struct type: its members in order, with their names.
#[derive(Debug)]
pub struct StructType {
    pub elements: Vec<(String, StructMember)>,
}

impl View for StructType {
    type V = Seq<MemberModel>;

    open spec fn view(&self) -> Seq<MemberModel> {
        Seq::new(
            self.elements@.len(),
            |i: int| MemberModel {
                name: self.elements@[i].0@,
                index: self.elements@[i].1.index as nat,
                dtype: self.elements@[i].1.dtype@,
            },
        )
    }
}

/// The first member named `name` among those from position `from` on.
pub open spec fn find_member(members: Seq<MemberModel>, name: Seq<char>, from: nat) -> Option<
    MemberModel,
>
    decreases members.len() - from,
{
    if from >= members.len() {
        None
    } else if members[from as int].name == name {
        Some(members[from as int])
    } else {
        find_member(members, name, from + 1)
    }
}

impl StructType {
    /// The first member named `name`.
    pub fn member(&self, name: &String) -> (member: Option<&StructMember>)
        ensures
            match member {
                Some(m) => find_member(self@, name@, 0) == Some(
                    MemberModel { name: name@, index: m.index as nat, dtype: m.dtype@ },
                ),
                None => find_member(self@, name@, 0) is None,
            },
    {
        let mut i: usize = 0;
        while i < self.elements.len()
            invariant
                i <= self.elements.len(),
                find_member(self@, name@, 0) == find_member(self@, name@, i as nat),
            decreases self.elements.len() - i,
        {
            assert(self@[i as int].name == self.elements@[i as int].0@);
            if self.elements[i].0 == *name {
                return Some(&self.elements[i].1);
            }
            i = i + 1;
        }
        None
    }
}

/// A function type: the return type and the named parameters.
#[derive(Debug)]
pub struct FunctionType {
    pub return_dtype: Dtype,
    pub arguments: Vec<(String, Dtype)>,
}

/// The mathematical model of a [`FunctionType`].
pub struct FunctionTypeModel {
    pub return_dtype: DtypeModel,
    pub arguments: Seq<(Seq<char>, DtypeModel)>,
}

/// The names and types of a list of parameters.
pub open spec fn parameters(args: Seq<(String, Dtype)>) -> Seq<(Seq<char>, DtypeModel)> {
    Seq::new(args.len(), |i: int| (args[i].0@, args[i].1@))
}

impl View for FunctionType {
    type V = FunctionTypeModel;

    open spec fn view(&self) -> FunctionTypeModel {
        FunctionTypeModel {
            return_dtype: self.return_dtype@,
            arguments: parameters(self.arguments@),
        }
    }
}

/// A copy of a list of parameters.
pub fn copy_parameters(args: &Vec<(String, Dtype)>) -> (copy: Vec<(String, Dtype)>)
    ensures
        copy@ == args@,
{
    let mut copy: Vec<(String, Dtype)> = Vec::new();
    let mut i: usize = 0;
    while i < args.len()
        invariant
            i <= args.len(),
            copy@ == args@.take(i as int),
        decreases args.len() - i,
    {
        copy.push((args[i].0.clone(), args[i].1.clone()));
        assert(args@.take(i + 1) =~= args@.take(i as int).push(args@[i as int]));
        i = i + 1;
    }
    assert(args@.take(i as int) =~= args@);
    copy
}

impl Clone for FunctionType {
    fn clone(&self) -> (copy: Self)
        ensures
            copy@ == self@,
    {
        FunctionType {
            return_dtype: self.return_dtype.clone(),
            arguments: copy_parameters(&self.arguments),
        }
    }
}

impl FunctionType {
    /// Whether two function types are the same, parameter names included.
    pub fn same(&self, other: &Self) -> (b: bool)
        ensures
            b == (self@ == other@),
    {
        if !self.return_dtype.same(&other.return_dtype) {
            return false;
        }
        if self.arguments.len() != other.arguments.len() {
            assert(self@.arguments.len() != other@.arguments.len());
            return false;
        }
        let mut i: usize = 0;
        while i < self.arguments.len()
            invariant
                i <= self.arguments.len(),
                self.arguments.len() == other.arguments.len(),
                forall|j: int| 0 <= j < i ==> self@.arguments[j] == other@.arguments[j],
            decreases self.arguments.len() - i,
        {
            let same_name = self.arguments[i].0 == other.arguments[i].0;
            if !same_name || !self.arguments[i].1.same(&other.arguments[i].1) {
                assert(self@.arguments[i as int] != other@.arguments[i as int]);
                return false;
            }
            i = i + 1;
        }
        assert(self@.arguments =~= other@.arguments);
        true
    }
}

} // verus!
