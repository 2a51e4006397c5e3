//! The data types that declarations in the source stand for.

use crate::ast::decl::{
    FnDecl, VarDecl, VarDeclInner, VarDeclStmt, VarDeclStmtInner, VarDef, VarDefInner,
};
use crate::ast::types::{TypeSpecifier, TypeSpecifierInner};
use crate::common::text::owned;
use crate::ir::error::{Error, ErrorModel};
use crate::ir::types::{parameters, Dtype, DtypeModel, FunctionType, FunctionTypeModel};
use vstd::prelude::*;

verus! {

/// The type that a type specifier stands for: references are pointers to
/// arrays of unknown length.
pub open spec fn specified(ts: TypeSpecifier) -> DtypeModel
    decreases ts,
{
    match ts.inner {
        TypeSpecifierInner::BuiltIn(_) => DtypeModel::I32,
        TypeSpecifierInner::Composite(name) => DtypeModel::Struct(name@),
        TypeSpecifierInner::Reference(inner) => specified(*inner).array(None).pointer(),
    }
}

/// The type that an optional type specifier stands for; without one, `i32`.
pub open spec fn base(ts: Option<TypeSpecifier>) -> DtypeModel {
    match ts {
        Some(t) => specified(t),
        None => DtypeModel::I32,
    }
}

/// The storage type of a declaration with the element type `base`.
pub open spec fn declared(base: DtypeModel, inner: VarDeclInner) -> DtypeModel {
    match inner {
        VarDeclInner::Scalar => base,
        VarDeclInner::Array(a) => base.array(Some(a.len as nat)),
    }
}

/// The storage type of a definition with the element type `base`.
pub open spec fn defined(base: DtypeModel, inner: VarDefInner) -> DtypeModel {
    match inner {
        VarDefInner::Scalar(_) => base,
        VarDefInner::Array(a) => base.array(Some(a.len as nat)),
    }
}

/// The type of a declaration.
pub open spec fn var_decl_type(decl: VarDecl) -> DtypeModel {
    declared(base(decl.type_specifier), decl.inner)
}

/// The type of a definition; structs cannot be initialized.
pub open spec fn var_def_type(def: VarDef) -> Result<DtypeModel, ErrorModel> {
    if base(def.type_specifier) is Struct {
        Err(ErrorModel::StructInitialization)
    } else {
        Ok(defined(base(def.type_specifier), def.inner))
    }
}

/// The type of a declaration or definition.
pub open spec fn var_decl_stmt_type(stmt: VarDeclStmt) -> Result<DtypeModel, ErrorModel> {
    match stmt.inner {
        VarDeclStmtInner::Decl(d) => Ok(var_decl_type(*d)),
        VarDeclStmtInner::Def(d) => var_def_type(*d),
    }
}

/// The outcome of an operation, with models in place of values.
pub open spec fn outcome<T: View>(r: Result<T, Error>) -> Result<T::V, ErrorModel> {
    match r {
        Ok(v) => Ok(v@),
        Err(e) => Err(e@),
    }
}

/// The type that a type specifier stands for.
pub fn specified_dtype(ts: &TypeSpecifier) -> (d: Dtype)
    ensures
        d@ == specified(*ts),
    decreases ts,
{
    match &ts.inner {
        TypeSpecifierInner::BuiltIn(_) => Dtype::I32,
        TypeSpecifierInner::Composite(name) => Dtype::Struct { name: name.clone() },
        TypeSpecifierInner::Reference(inner) => Dtype::ptr_to(
            Dtype::unsized_array(specified_dtype(inner)),
        ),
    }
}

/// The type that an optional type specifier stands for; without one, `i32`.
pub fn base_dtype(ts: &Option<TypeSpecifier>) -> (d: Dtype)
    ensures
        d@ == base(*ts),
{
    match ts {
        Some(t) => specified_dtype(t),
        None => Dtype::I32,
    }
}

/// The storage type of a declaration with the element type `base`.
pub fn compose_var_decl_dtype(base: Dtype, inner: &VarDeclInner) -> (d: Dtype)
    ensures
        d@ == declared(base@, *inner),
{
    match inner {
        VarDeclInner::Scalar => base,
        VarDeclInner::Array(a) => Dtype::array_of(base, a.len),
    }
}

/// The storage type of a definition with the element type `base`.
pub fn compose_var_def_dtype(base: Dtype, inner: &VarDefInner) -> (d: Dtype)
    ensures
        d@ == defined(base@, *inner),
{
    match inner {
        VarDefInner::Scalar(_) => base,
        VarDefInner::Array(a) => Dtype::array_of(base, a.len),
    }
}

/// The type of a declaration.
pub fn var_decl_dtype(decl: &VarDecl) -> (d: Dtype)
    ensures
        d@ == var_decl_type(*decl),
{
    compose_var_decl_dtype(base_dtype(&decl.type_specifier), &decl.inner)
}

/// The type of a definition.
pub fn var_def_dtype(def: &VarDef) -> (d: Result<Dtype, Error>)
    ensures
        outcome(d) == var_def_type(*def),
{
    let base = base_dtype(&def.type_specifier);
    match base {
        Dtype::Struct { .. } => Err(Error::StructInitialization),
        other => Ok(compose_var_def_dtype(other, &def.inner)),
    }
}

/// The type of a declaration or definition.
pub fn var_decl_stmt_dtype(stmt: &VarDeclStmt) -> (d: Result<Dtype, Error>)
    ensures
        outcome(d) == var_decl_stmt_type(*stmt),
{
    match &stmt.inner {
        VarDeclStmtInner::Decl(d) => Ok(var_decl_dtype(d)),
        VarDeclStmtInner::Def(d) => var_def_dtype(d),
    }
}

/// The name that a declaration or definition introduces.
pub open spec fn introduced_name(stmt: VarDeclStmt) -> Seq<char> {
    match stmt.inner {
        VarDeclStmtInner::Decl(d) => d.identifier@,
        VarDeclStmtInner::Def(d) => d.identifier@,
    }
}

impl VarDeclStmt {
    /// The name that the statement introduces.
    pub fn identifier(&self) -> (name: &String)
        ensures
            name@ == introduced_name(*self),
    {
        match &self.inner {
            VarDeclStmtInner::Decl(d) => &d.identifier,
            VarDeclStmtInner::Def(d) => &d.identifier,
        }
    }
}

/// The types of a list of parameters: arrays cannot be passed by value.
pub open spec fn parameter_types(decls: Seq<VarDecl>) -> Result<
    Seq<(Seq<char>, DtypeModel)>,
    ErrorModel,
>
    decreases decls.len(),
{
    if decls.len() == 0 {
        Ok(Seq::empty())
    } else {
        match parameter_types(decls.drop_last()) {
            Err(e) => Err(e),
            Ok(front) => {
                let d = decls.last();
                if d.inner is Array {
                    Err(ErrorModel::ArrayParameterNotAllowed { symbol: d.identifier@ })
                } else {
                    Ok(front.push((d.identifier@, var_decl_type(d))))
                }
            },
        }
    }
}

/// The parameters of a function signature.
pub open spec fn signature_decls(decl: FnDecl) -> Seq<VarDecl> {
    match decl.param_decl {
        Some(p) => p.decls@,
        None => Seq::empty(),
    }
}

/// The return type of a signature: nothing where none is given.
pub open spec fn signature_return(decl: FnDecl) -> DtypeModel {
    match decl.return_dtype {
        Some(t) => specified(t),
        None => DtypeModel::Void,
    }
}

/// Functions return nothing or an `i32`.
pub open spec fn returnable(d: DtypeModel) -> bool {
    d is Void || d is I32
}

/// The type of a function signature, for a function called `name`.
pub open spec fn signature_type_as(decl: FnDecl, name: Seq<char>) -> Result<
    FunctionTypeModel,
    ErrorModel,
> {
    match parameter_types(signature_decls(decl)) {
        Err(e) => Err(e),
        Ok(arguments) => if returnable(signature_return(decl)) {
            Ok(FunctionTypeModel { return_dtype: signature_return(decl), arguments })
        } else {
            Err(ErrorModel::UnsupportedReturnType { symbol: name })
        },
    }
}

/// The type of a function signature.
pub open spec fn signature_type(decl: FnDecl) -> Result<FunctionTypeModel, ErrorModel> {
    signature_type_as(decl, decl.identifier@)
}

proof fn lemma_parameter_error_stays(decls: Seq<VarDecl>, k: int)
    requires
        0 <= k <= decls.len(),
        parameter_types(decls.take(k)) is Err,
    ensures
        parameter_types(decls) == parameter_types(decls.take(k)),
    decreases decls.len() - k,
{
    if k < decls.len() {
        assert(decls.take(k + 1).drop_last() =~= decls.take(k));
        lemma_parameter_error_stays(decls, k + 1);
    } else {
        assert(decls.take(k) =~= decls);
    }
}

fn parameter_dtypes(decls: &Vec<VarDecl>) -> (r: Result<Vec<(String, Dtype)>, Error>)
    ensures
        match r {
            Ok(args) => parameter_types(decls@) == Ok::<Seq<(Seq<char>, DtypeModel)>, ErrorModel>(
                parameters(args@),
            ),
            Err(e) => parameter_types(decls@) == Err::<Seq<(Seq<char>, DtypeModel)>, ErrorModel>(
                e@,
            ),
        },
{
    let mut args: Vec<(String, Dtype)> = Vec::new();
    let mut i: usize = 0;
    assert(decls@.take(0) =~= Seq::empty());
    assert(parameters(args@) =~= Seq::empty());
    while i < decls.len()
        invariant
            i <= decls.len(),
            parameter_types(decls@.take(i as int)) == Ok::<
                Seq<(Seq<char>, DtypeModel)>,
                ErrorModel,
            >(parameters(args@)),
        decreases decls.len() - i,
    {
        let d = &decls[i];
        let ghost longer = decls@.take(i + 1);
        let ghost before = args@;
        assert(longer.drop_last() =~= decls@.take(i as int));
        match &d.inner {
            VarDeclInner::Array(_) => {
                proof {
                    lemma_parameter_error_stays(decls@, i + 1);
                }
                return Err(Error::ArrayParameterNotAllowed { symbol: d.identifier.clone() });
            },
            VarDeclInner::Scalar => {
                args.push((d.identifier.clone(), var_decl_dtype(d)));
            },
        }
        assert(parameters(args@) =~= parameters(before).push((d.identifier@, var_decl_type(*d))));
        i = i + 1;
    }
    assert(decls@.take(i as int) =~= decls@);
    Ok(args)
}

impl FunctionType {
    /// The type of a function signature.
    pub fn from_decl(decl: &FnDecl) -> (t: Result<FunctionType, Error>)
        ensures
            outcome(t) == signature_type(*decl),
    {
        Self::from_decl_as(decl, decl.identifier.as_str())
    }

    /// The type of a function signature, for a function called `name`.
    pub fn from_decl_as(decl: &FnDecl, name: &str) -> (t: Result<FunctionType, Error>)
        ensures
            outcome(t) == signature_type_as(*decl, name@),
    {
        let arguments = match &decl.param_decl {
            Some(p) => match parameter_dtypes(&p.decls) {
                Ok(args) => args,
                Err(e) => {
                    return Err(e);
                },
            },
            None => {
                let none: Vec<(String, Dtype)> = Vec::new();
                assert(parameters(none@) =~= Seq::empty());
                none
            },
        };
        let return_dtype = match &decl.return_dtype {
            Some(t) => specified_dtype(t),
            None => Dtype::Void,
        };
        match &return_dtype {
            Dtype::Void | Dtype::I32 => Ok(FunctionType { return_dtype, arguments }),
            _ => Err(Error::UnsupportedReturnType { symbol: owned(name) }),
        }
    }
}

} // verus!
