//! The parser of declarations and definitions.

use super::common::{
    answers, find_first, find_one, first_of, grammar_error, grammar_fault, last_of, num_error,
    number, only, parse_num, parse_type_spec, shaped, type_of, Error, ErrorModel, Node, Rule,
};
use super::expr::{
    identifier_texts, identifiers, last_identifier, last_name, missing, parse_right_val,
    parse_right_val_list, right_val_error, right_val_is, values_are, values_error,
};
use super::stmt::{block_are, parse_code_block_stmt, stmt_error};
use crate::ast::decl::{
    ArrayInitializer, FnDecl, FnDeclStmt, FnDef, ParamDecl, StructDef, VarDecl, VarDeclArray,
    VarDeclInner, VarDeclStmt, VarDeclStmtInner, VarDef, VarDefArray, VarDefInner, VarDefScalar,
};
use crate::ast::program::{ProgramElement, ProgramElementInner, UseStmt};
use crate::ast::stmt::CodeBlockStmt;
use crate::ast::types::TypeSpecifier;
use crate::common::text::{join_strings, join_text};
use vstd::prelude::*;

verus! {

/// The type of the last type specifier.
pub open spec fn last_type(nodes: Seq<Node>, k: nat) -> Option<TypeSpecifier> {
    match last_of(nodes, Rule::TypeSpec, k) {
        Some(i) => type_of(nodes[i as int]),
        None => None,
    }
}

/// What is wrong with the numbers from position `i` on.
pub open spec fn numbers_error(nodes: Seq<Node>, i: nat) -> Option<ErrorModel>
    decreases nodes.len() - i,
{
    if i >= nodes.len() {
        None
    } else if nodes[i as int].rule == Rule::Num {
        match num_error(nodes[i as int]) {
            Some(e) => Some(e),
            None => numbers_error(nodes, i + 1),
        }
    } else {
        numbers_error(nodes, i + 1)
    }
}

/// What is wrong with a declaration.
pub open spec fn var_decl_error(n: Node) -> Option<ErrorModel> {
    match numbers_error(n.children@, 0) {
        Some(e) => Some(e),
        None => missing(only(n.children@, Rule::Identifier), "var_decl.identifier"@, n),
    }
}

/// A length that a number gives.
pub open spec fn length_is(n: Node, len: usize) -> bool {
    number(n.text@) matches Some(x) && len == x as i32 as usize
}

/// The declaration that a tree stands for: of an array where there is a
/// number.
pub open spec fn var_decl_is(n: Node, d: VarDecl) -> bool {
    let c = n.children@;
    &&& only(c, Rule::Identifier) matches Some(i) && d.identifier@ == c[i as int].text@
    &&& d.type_specifier == last_type(c, c.len())
    &&& match last_of(c, Rule::Num, c.len()) {
        None => d.inner is Scalar,
        Some(i) => d.inner matches VarDeclInner::Array(a) && length_is(c[i as int], a.len),
    }
}

/// What is wrong with the declarations of a list from position `i` on.
pub open spec fn typed_list_error(nodes: Seq<Node>, i: nat) -> Option<ErrorModel>
    decreases nodes.len() - i,
{
    if i >= nodes.len() {
        None
    } else if nodes[i as int].rule == Rule::TypedVarDecl {
        match var_decl_error(nodes[i as int]) {
            Some(e) => Some(e),
            None => typed_list_error(nodes, i + 1),
        }
    } else {
        typed_list_error(nodes, i + 1)
    }
}

/// The declarations among the first `k` parts of a list.
pub open spec fn typed_list_are(nodes: Seq<Node>, k: nat, decls: Seq<VarDecl>) -> bool
    decreases k,
{
    if k == 0 {
        decls.len() == 0
    } else if nodes[k - 1].rule == Rule::TypedVarDecl {
        decls.len() > 0 && typed_list_are(nodes, (k - 1) as nat, decls.drop_last()) && var_decl_is(
            nodes[k - 1],
            decls.last(),
        )
    } else {
        typed_list_are(nodes, (k - 1) as nat, decls)
    }
}

/// What is wrong with the member lists of a struct from position `i` on.
pub open spec fn struct_error(nodes: Seq<Node>, i: nat) -> Option<ErrorModel>
    decreases nodes.len() - i,
{
    if i >= nodes.len() {
        None
    } else if nodes[i as int].rule == Rule::TypedVarDeclList {
        match typed_list_error(nodes[i as int].children@, 0) {
            Some(e) => Some(e),
            None => struct_error(nodes, i + 1),
        }
    } else {
        struct_error(nodes, i + 1)
    }
}

/// The members in the last list before position `k`.
pub open spec fn last_list_are(nodes: Seq<Node>, k: nat, decls: Seq<VarDecl>) -> bool {
    match last_of(nodes, Rule::TypedVarDeclList, k) {
        None => decls.len() == 0,
        Some(i) => typed_list_are(
            nodes[i as int].children@,
            nodes[i as int].children@.len(),
            decls,
        ),
    }
}

/// The struct that a tree stands for.
pub open spec fn struct_is(n: Node, s: StructDef) -> bool {
    &&& s.identifier@ == last_name(n.children@)
    &&& last_list_are(n.children@, n.children@.len(), s.decls@)
}

/// What is wrong with the initializer of an array.
pub open spec fn initializer_error(n: Node) -> Option<ErrorModel> {
    let c = n.children@;
    match only(c, Rule::RightValList) {
        Some(i) => values_error(c[i as int], 0),
        None => match (only(c, Rule::RightVal), only(c, Rule::Num)) {
            (None, _) => Some(grammar_fault("array_initializer.val"@, n)),
            (Some(_), None) => Some(grammar_fault("array_initializer.count"@, n)),
            (Some(i), Some(j)) => match right_val_error(c[i as int]) {
                Some(e) => Some(e),
                None => num_error(c[j as int]),
            },
        },
    }
}

/// The initializer that a tree stands for: a list, or a value and a count.
pub open spec fn initializer_is(n: Node, a: ArrayInitializer) -> bool {
    let c = n.children@;
    match only(c, Rule::RightValList) {
        Some(i) => a matches ArrayInitializer::ExplicitList(vals) && values_are(
            c[i as int],
            c[i as int].children@.len(),
            vals@,
        ),
        None => {
            &&& a matches ArrayInitializer::Fill { val, count }
            &&& only(c, Rule::RightVal) matches Some(i) && right_val_is(c[i as int], *val)
            &&& only(c, Rule::Num) matches Some(j) && length_is(c[j as int], count)
        },
    }
}

/// What is wrong with the type of a definition, which stands behind a colon.
pub open spec fn annotation_error(n: Node) -> Option<ErrorModel> {
    if only(n.children@, Rule::Colon) is Some {
        missing(only(n.children@, Rule::TypeSpec), "var_def.type_spec"@, n)
    } else {
        None
    }
}

/// The type of a definition.
pub open spec fn annotation(n: Node) -> Option<TypeSpecifier> {
    if only(n.children@, Rule::Colon) is Some {
        match only(n.children@, Rule::TypeSpec) {
            Some(i) => type_of(n.children@[i as int]),
            None => None,
        }
    } else {
        None
    }
}

/// What is wrong with a definition.
pub open spec fn var_def_error(n: Node) -> Option<ErrorModel> {
    let c = n.children@;
    match only(c, Rule::ArrayInitializer) {
        Some(k) => match only(c, Rule::Num) {
            None => Some(grammar_fault("var_def.array_len"@, n)),
            Some(i) => match num_error(c[i as int]) {
                Some(e) => Some(e),
                None => match annotation_error(n) {
                    Some(e) => Some(e),
                    None => initializer_error(c[k as int]),
                },
            },
        },
        None => match annotation_error(n) {
            Some(e) => Some(e),
            None => match only(c, Rule::RightVal) {
                None => Some(grammar_fault("var_def.val"@, n)),
                Some(i) => right_val_error(c[i as int]),
            },
        },
    }
}

/// The definition that a tree stands for: of an array where it has the
/// initializer of one.
pub open spec fn var_def_is(n: Node, d: VarDef) -> bool {
    let c = n.children@;
    &&& d.identifier@ == c[0].text@
    &&& d.type_specifier == annotation(n)
    &&& match only(c, Rule::ArrayInitializer) {
        Some(k) => {
            &&& d.inner matches VarDefInner::Array(a)
            &&& only(c, Rule::Num) matches Some(i) && length_is(c[i as int], a.len)
            &&& initializer_is(c[k as int], a.initializer)
        },
        None => {
            &&& d.inner matches VarDefInner::Scalar(s)
            &&& only(c, Rule::RightVal) matches Some(i) && right_val_is(c[i as int], *s.val)
        },
    }
}

/// What is wrong with the statement of a declaration or definition.
pub open spec fn var_decl_stmt_error(n: Node) -> Option<ErrorModel> {
    let c = n.children@;
    match first_of(c, seq![Rule::VarDef, Rule::VarDecl], 0) {
        None => Some(grammar_fault("var_decl_stmt"@, n)),
        Some(i) => if c[i as int].rule == Rule::VarDef {
            var_def_error(c[i as int])
        } else {
            var_decl_error(c[i as int])
        },
    }
}

/// The declaration or definition that a tree stands for.
pub open spec fn var_decl_stmt_is(n: Node, s: VarDeclStmt) -> bool {
    let c = n.children@;
    match first_of(c, seq![Rule::VarDef, Rule::VarDecl], 0) {
        None => false,
        Some(i) => if c[i as int].rule == Rule::VarDef {
            s.inner matches VarDeclStmtInner::Def(d) && var_def_is(c[i as int], *d)
        } else {
            s.inner matches VarDeclStmtInner::Decl(d) && var_decl_is(c[i as int], *d)
        },
    }
}

/// What is wrong with parameters.
pub open spec fn param_error(n: Node) -> Option<ErrorModel> {
    match only(n.children@, Rule::TypedVarDeclList) {
        None => Some(grammar_fault("param_decl"@, n)),
        Some(i) => typed_list_error(n.children@[i as int].children@, 0),
    }
}

/// The parameters that a tree stands for.
pub open spec fn param_is(n: Node, p: ParamDecl) -> bool {
    match only(n.children@, Rule::TypedVarDeclList) {
        None => false,
        Some(i) => typed_list_are(
            n.children@[i as int].children@,
            n.children@[i as int].children@.len(),
            p.decls@,
        ),
    }
}

/// What is wrong with the parameter lists of a function from position `i` on.
pub open spec fn fn_decl_error(nodes: Seq<Node>, i: nat) -> Option<ErrorModel>
    decreases nodes.len() - i,
{
    if i >= nodes.len() {
        None
    } else if nodes[i as int].rule == Rule::ParamDecl {
        match param_error(nodes[i as int]) {
            Some(e) => Some(e),
            None => fn_decl_error(nodes, i + 1),
        }
    } else {
        fn_decl_error(nodes, i + 1)
    }
}

/// The parameters in the last list before position `k`.
pub open spec fn last_param_is(nodes: Seq<Node>, k: nat, p: Option<Box<ParamDecl>>) -> bool {
    match last_of(nodes, Rule::ParamDecl, k) {
        None => p is None,
        Some(i) => p matches Some(x) && param_is(nodes[i as int], *x),
    }
}

/// The signature that a tree stands for.
pub open spec fn fn_decl_is(n: Node, d: FnDecl) -> bool {
    let c = n.children@;
    &&& d.identifier@ == last_name(c)
    &&& last_param_is(c, c.len(), d.param_decl)
    &&& d.return_dtype == last_type(c, c.len())
}

/// What is wrong with the declaration of a function.
pub open spec fn fn_decl_stmt_error(n: Node) -> Option<ErrorModel> {
    match only(n.children@, Rule::FnDecl) {
        None => Some(grammar_fault("fn_decl_stmt"@, n)),
        Some(i) => fn_decl_error(n.children@[i as int].children@, 0),
    }
}

/// The declaration of a function that a tree stands for.
pub open spec fn fn_decl_stmt_is(n: Node, s: FnDeclStmt) -> bool {
    match only(n.children@, Rule::FnDecl) {
        None => false,
        Some(i) => fn_decl_is(n.children@[i as int], *s.fn_decl),
    }
}

/// What is wrong with the definition of a function from position `i` on.
pub open spec fn fn_def_error(n: Node, i: nat) -> Option<ErrorModel>
    decreases n.children@.len() - i,
{
    let c = n.children@;
    if i >= c.len() {
        missing(last_of(c, Rule::FnDecl, c.len()), "fn_def.fn_decl"@, n)
    } else if c[i as int].rule == Rule::FnDecl {
        match fn_decl_error(c[i as int].children@, 0) {
            Some(e) => Some(e),
            None => fn_def_error(n, i + 1),
        }
    } else if c[i as int].rule == Rule::CodeBlockStmt {
        match stmt_error(c[i as int]) {
            Some(e) => Some(e),
            None => fn_def_error(n, i + 1),
        }
    } else {
        fn_def_error(n, i + 1)
    }
}

/// The definition of a function that a tree stands for.
pub open spec fn fn_def_is(n: Node, f: FnDef) -> bool {
    let c = n.children@;
    &&& last_of(c, Rule::FnDecl, c.len()) matches Some(i) && fn_decl_is(c[i as int], *f.fn_decl)
    &&& block_are(n, c.len(), f.stmts@)
}

/// What is at the top level.
pub open spec fn element_part(n: Node) -> Option<nat> {
    first_of(
        n.children@,
        seq![Rule::VarDeclStmt, Rule::StructDef, Rule::FnDeclStmt, Rule::FnDef],
        0,
    )
}

/// What is wrong with a top-level element.
pub open spec fn element_error(n: Node) -> Option<ErrorModel> {
    match element_part(n) {
        None => None,
        Some(i) => {
            let c = n.children@[i as int];
            match c.rule {
                Rule::VarDeclStmt => var_decl_stmt_error(c),
                Rule::StructDef => struct_error(c.children@, 0),
                Rule::FnDeclStmt => fn_decl_stmt_error(c),
                _ => fn_def_error(c, 0),
            }
        },
    }
}

/// The top-level element that a tree stands for.
pub open spec fn element_is(n: Node, e: ProgramElement) -> bool {
    match element_part(n) {
        None => false,
        Some(i) => {
            let c = n.children@[i as int];
            match c.rule {
                Rule::VarDeclStmt => e.inner matches ProgramElementInner::VarDeclStmt(s)
                    && var_decl_stmt_is(c, *s),
                Rule::StructDef => e.inner matches ProgramElementInner::StructDef(s) && struct_is(
                    c,
                    *s,
                ),
                Rule::FnDeclStmt => e.inner matches ProgramElementInner::FnDeclStmt(s)
                    && fn_decl_stmt_is(c, *s),
                _ => e.inner matches ProgramElementInner::FnDef(f) && fn_def_is(c, *f),
            }
        },
    }
}

/// The import that a tree stands for: the names on the path, joined.
pub open spec fn use_is(n: Node, u: UseStmt) -> bool {
    u.module_name@ == join_text(identifiers(n.children@, n.children@.len()), "::"@)
}

/// The import that a tree stands for.
pub fn parse_use_stmt(n: &Node) -> (u: UseStmt)
    ensures
        use_is(*n, u),
{
    UseStmt { module_name: join_strings(&identifier_texts(n), "::") }
}

/// The top-level element that a tree stands for, if it stands for one.
pub fn parse_program_element(n: &Node) -> (r: Result<Option<Box<ProgramElement>>, Error>)
    requires
        shaped(*n),
    ensures
        answers(r, element_error(*n)),
        r matches Ok(x) ==> match x {
            Some(e) => element_is(*n, *e),
            None => element_part(*n) is None,
        },
{
    let rules = vec![Rule::VarDeclStmt, Rule::StructDef, Rule::FnDeclStmt, Rule::FnDef];
    assert(rules@ =~= seq![Rule::VarDeclStmt, Rule::StructDef, Rule::FnDeclStmt, Rule::FnDef]);
    match find_first(&n.children, &rules) {
        None => Ok(None),
        Some(i) => {
            let c = &n.children[i];
            assert(shaped(n.children@[i as int]));
            let inner = match c.rule {
                Rule::VarDeclStmt => match parse_var_decl_stmt(c) {
                    Ok(s) => ProgramElementInner::VarDeclStmt(s),
                    Err(e) => {
                        return Err(e);
                    },
                },
                Rule::StructDef => match parse_struct_def(c) {
                    Ok(s) => ProgramElementInner::StructDef(s),
                    Err(e) => {
                        return Err(e);
                    },
                },
                Rule::FnDeclStmt => match parse_fn_decl_stmt(c) {
                    Ok(s) => ProgramElementInner::FnDeclStmt(s),
                    Err(e) => {
                        return Err(e);
                    },
                },
                _ => match parse_fn_def(c) {
                    Ok(f) => ProgramElementInner::FnDef(f),
                    Err(e) => {
                        return Err(e);
                    },
                },
            };
            Ok(Some(Box::new(ProgramElement { inner })))
        },
    }
}

/// The struct that a tree stands for.
pub fn parse_struct_def(n: &Node) -> (r: Result<Box<StructDef>, Error>)
    requires
        shaped(*n),
    ensures
        answers(r, struct_error(n.children@, 0)),
        r matches Ok(s) ==> struct_is(*n, *s),
{
    let c = &n.children;
    let mut decls: Vec<VarDecl> = Vec::new();
    let mut i: usize = 0;
    while i < c.len()
        invariant
            i <= c.len(),
            *c == n.children,
            shaped(*n),
            struct_error(c@, 0) == struct_error(c@, i as nat),
            last_list_are(c@, i as nat, decls@),
        decreases c.len() - i,
    {
        match c[i].rule {
            Rule::TypedVarDeclList => {
                assert(shaped(c@[i as int]));
                match parse_typed_var_decl_list(&c[i]) {
                    Ok(d) => {
                        decls = d;
                    },
                    Err(e) => {
                        return Err(e);
                    },
                }
            },
            _ => {},
        }
        i = i + 1;
    }
    Ok(Box::new(StructDef { identifier: last_identifier(n), decls }))
}

/// The declarations of a list.
pub fn parse_typed_var_decl_list(n: &Node) -> (r: Result<Vec<VarDecl>, Error>)
    requires
        shaped(*n),
    ensures
        answers(r, typed_list_error(n.children@, 0)),
        r matches Ok(decls) ==> typed_list_are(n.children@, n.children@.len(), decls@),
{
    let c = &n.children;
    let mut decls: Vec<VarDecl> = Vec::new();
    let mut i: usize = 0;
    while i < c.len()
        invariant
            i <= c.len(),
            *c == n.children,
            shaped(*n),
            typed_list_error(c@, 0) == typed_list_error(c@, i as nat),
            typed_list_are(c@, i as nat, decls@),
        decreases c.len() - i,
    {
        match c[i].rule {
            Rule::TypedVarDecl => {
                assert(shaped(c@[i as int]));
                match parse_var_decl(&c[i]) {
                    Ok(d) => {
                        let ghost before = decls@;
                        decls.push(*d);
                        assert(decls@.drop_last() =~= before);
                    },
                    Err(e) => {
                        return Err(e);
                    },
                }
            },
            _ => {},
        }
        i = i + 1;
    }
    Ok(decls)
}

/// The declaration that a tree stands for.
pub fn parse_var_decl(n: &Node) -> (r: Result<Box<VarDecl>, Error>)
    requires
        shaped(*n),
    ensures
        answers(r, var_decl_error(*n)),
        r matches Ok(d) ==> var_decl_is(*n, *d),
{
    let c = &n.children;
    let mut type_specifier: Option<TypeSpecifier> = None;
    let mut array_len: Option<usize> = None;
    let mut i: usize = 0;
    while i < c.len()
        invariant
            i <= c.len(),
            *c == n.children,
            shaped(*n),
            numbers_error(c@, 0) == numbers_error(c@, i as nat),
            type_specifier == last_type(c@, i as nat),
            match last_of(c@, Rule::Num, i as nat) {
                None => array_len is None,
                Some(j) => array_len matches Some(len) && length_is(c@[j as int], len),
            },
        decreases c.len() - i,
    {
        match c[i].rule {
            Rule::TypeSpec => {
                assert(shaped(c@[i as int]));
                type_specifier = parse_type_spec(&c[i]);
            },
            Rule::Num => match parse_num(&c[i]) {
                Ok(v) => {
                    array_len = Some(v as usize);
                },
                Err(e) => {
                    return Err(e);
                },
            },
            _ => {},
        }
        i = i + 1;
    }
    let identifier = match find_one(c, Rule::Identifier) {
        Some(j) => c[j].text.clone(),
        None => {
            return Err(grammar_error("var_decl.identifier", n));
        },
    };
    let inner = match array_len {
        Some(len) => VarDeclInner::Array(Box::new(VarDeclArray { len })),
        None => VarDeclInner::Scalar,
    };
    Ok(Box::new(VarDecl { identifier, type_specifier, inner }))
}

/// The declaration or definition that a tree stands for.
pub fn parse_var_decl_stmt(n: &Node) -> (r: Result<Box<VarDeclStmt>, Error>)
    requires
        shaped(*n),
    ensures
        answers(r, var_decl_stmt_error(*n)),
        r matches Ok(s) ==> var_decl_stmt_is(*n, *s),
{
    let rules = vec![Rule::VarDef, Rule::VarDecl];
    assert(rules@ =~= seq![Rule::VarDef, Rule::VarDecl]);
    match find_first(&n.children, &rules) {
        None => Err(grammar_error("var_decl_stmt", n)),
        Some(i) => {
            let c = &n.children[i];
            assert(shaped(n.children@[i as int]));
            match c.rule {
                Rule::VarDef => match parse_var_def(c) {
                    Ok(d) => Ok(Box::new(VarDeclStmt { inner: VarDeclStmtInner::Def(d) })),
                    Err(e) => Err(e),
                },
                _ => match parse_var_decl(c) {
                    Ok(d) => Ok(Box::new(VarDeclStmt { inner: VarDeclStmtInner::Decl(d) })),
                    Err(e) => Err(e),
                },
            }
        },
    }
}

/// The type of a definition.
fn parse_annotation(n: &Node) -> (r: Result<Option<TypeSpecifier>, Error>)
    requires
        shaped(*n),
    ensures
        answers(r, annotation_error(*n)),
        r matches Ok(t) ==> t == annotation(*n),
{
    let c = &n.children;
    if find_one(c, Rule::Colon).is_none() {
        return Ok(None);
    }
    match find_one(c, Rule::TypeSpec) {
        Some(i) => {
            assert(shaped(c@[i as int]));
            Ok(parse_type_spec(&c[i]))
        },
        None => Err(grammar_error("var_def.type_spec", n)),
    }
}

/// The definition that a tree stands for.
pub fn parse_var_def(n: &Node) -> (r: Result<Box<VarDef>, Error>)
    requires
        shaped(*n),
        n.children@.len() > 0,
    ensures
        answers(r, var_def_error(*n)),
        r matches Ok(d) ==> var_def_is(*n, *d),
{
    let c = &n.children;
    let identifier = c[0].text.clone();
    match find_one(c, Rule::ArrayInitializer) {
        Some(k) => {
            let len: usize = match find_one(c, Rule::Num) {
                None => {
                    return Err(grammar_error("var_def.array_len", n));
                },
                Some(i) => match parse_num(&c[i]) {
                    Ok(v) => v as usize,
                    Err(e) => {
                        return Err(e);
                    },
                },
            };
            let type_specifier = match parse_annotation(n) {
                Ok(t) => t,
                Err(e) => {
                    return Err(e);
                },
            };
            assert(shaped(c@[k as int]));
            let initializer = match parse_array_initializer(&c[k]) {
                Ok(a) => a,
                Err(e) => {
                    return Err(e);
                },
            };
            Ok(
                Box::new(
                    VarDef {
                        identifier,
                        type_specifier,
                        inner: VarDefInner::Array(Box::new(VarDefArray { len, initializer })),
                    },
                ),
            )
        },
        None => {
            let type_specifier = match parse_annotation(n) {
                Ok(t) => t,
                Err(e) => {
                    return Err(e);
                },
            };
            let val = match find_one(c, Rule::RightVal) {
                None => {
                    return Err(grammar_error("var_def.val", n));
                },
                Some(i) => {
                    assert(shaped(c@[i as int]));
                    match parse_right_val(&c[i]) {
                        Ok(v) => v,
                        Err(e) => {
                            return Err(e);
                        },
                    }
                },
            };
            Ok(
                Box::new(
                    VarDef {
                        identifier,
                        type_specifier,
                        inner: VarDefInner::Scalar(Box::new(VarDefScalar { val })),
                    },
                ),
            )
        },
    }
}

/// The initializer that a tree stands for.
fn parse_array_initializer(n: &Node) -> (r: Result<ArrayInitializer, Error>)
    requires
        shaped(*n),
    ensures
        answers(r, initializer_error(*n)),
        r matches Ok(a) ==> initializer_is(*n, a),
{
    let c = &n.children;
    match find_one(c, Rule::RightValList) {
        Some(i) => {
            assert(shaped(c@[i as int]));
            return match parse_right_val_list(&c[i]) {
                Ok(vals) => Ok(ArrayInitializer::ExplicitList(vals)),
                Err(e) => Err(e),
            };
        },
        None => {},
    }
    let i: usize = match find_one(c, Rule::RightVal) {
        Some(i) => i,
        None => {
            return Err(grammar_error("array_initializer.val", n));
        },
    };
    let j: usize = match find_one(c, Rule::Num) {
        Some(j) => j,
        None => {
            return Err(grammar_error("array_initializer.count", n));
        },
    };
    assert(shaped(c@[i as int]));
    let val = match parse_right_val(&c[i]) {
        Ok(v) => v,
        Err(e) => {
            return Err(e);
        },
    };
    match parse_num(&c[j]) {
        Ok(v) => Ok(ArrayInitializer::Fill { val, count: v as usize }),
        Err(e) => Err(e),
    }
}

/// The declaration of a function that a tree stands for.
pub fn parse_fn_decl_stmt(n: &Node) -> (r: Result<Box<FnDeclStmt>, Error>)
    requires
        shaped(*n),
    ensures
        answers(r, fn_decl_stmt_error(*n)),
        r matches Ok(s) ==> fn_decl_stmt_is(*n, *s),
{
    match find_one(&n.children, Rule::FnDecl) {
        None => Err(grammar_error("fn_decl_stmt", n)),
        Some(i) => {
            assert(shaped(n.children@[i as int]));
            match parse_fn_decl(&n.children[i]) {
                Ok(fn_decl) => Ok(Box::new(FnDeclStmt { fn_decl })),
                Err(e) => Err(e),
            }
        },
    }
}

/// The signature that a tree stands for.
fn parse_fn_decl(n: &Node) -> (r: Result<Box<FnDecl>, Error>)
    requires
        shaped(*n),
    ensures
        answers(r, fn_decl_error(n.children@, 0)),
        r matches Ok(d) ==> fn_decl_is(*n, *d),
{
    let c = &n.children;
    let mut param_decl: Option<Box<ParamDecl>> = None;
    let mut return_dtype: Option<TypeSpecifier> = None;
    let mut i: usize = 0;
    while i < c.len()
        invariant
            i <= c.len(),
            *c == n.children,
            shaped(*n),
            fn_decl_error(c@, 0) == fn_decl_error(c@, i as nat),
            last_param_is(c@, i as nat, param_decl),
            return_dtype == last_type(c@, i as nat),
        decreases c.len() - i,
    {
        match c[i].rule {
            Rule::ParamDecl => {
                assert(shaped(c@[i as int]));
                match parse_param_decl(&c[i]) {
                    Ok(p) => {
                        param_decl = Some(p);
                    },
                    Err(e) => {
                        return Err(e);
                    },
                }
            },
            Rule::TypeSpec => {
                assert(shaped(c@[i as int]));
                return_dtype = parse_type_spec(&c[i]);
            },
            _ => {},
        }
        i = i + 1;
    }
    Ok(Box::new(FnDecl { identifier: last_identifier(n), param_decl, return_dtype }))
}

/// The parameters that a tree stands for.
fn parse_param_decl(n: &Node) -> (r: Result<Box<ParamDecl>, Error>)
    requires
        shaped(*n),
    ensures
        answers(r, param_error(*n)),
        r matches Ok(p) ==> param_is(*n, *p),
{
    match find_one(&n.children, Rule::TypedVarDeclList) {
        None => Err(grammar_error("param_decl", n)),
        Some(i) => {
            assert(shaped(n.children@[i as int]));
            match parse_typed_var_decl_list(&n.children[i]) {
                Ok(decls) => Ok(Box::new(ParamDecl { decls })),
                Err(e) => Err(e),
            }
        },
    }
}

/// The definition of a function that a tree stands for.
pub fn parse_fn_def(n: &Node) -> (r: Result<Box<FnDef>, Error>)
    requires
        shaped(*n),
    ensures
        answers(r, fn_def_error(*n, 0)),
        r matches Ok(f) ==> fn_def_is(*n, *f),
{
    let c = &n.children;
    let mut fn_decl: Option<Box<FnDecl>> = None;
    let mut stmts: Vec<CodeBlockStmt> = Vec::new();
    let mut i: usize = 0;
    while i < c.len()
        invariant
            i <= c.len(),
            *c == n.children,
            shaped(*n),
            fn_def_error(*n, 0) == fn_def_error(*n, i as nat),
            match last_of(c@, Rule::FnDecl, i as nat) {
                None => fn_decl is None,
                Some(j) => fn_decl matches Some(d) && fn_decl_is(c@[j as int], *d),
            },
            block_are(*n, i as nat, stmts@),
        decreases c.len() - i,
    {
        match c[i].rule {
            Rule::FnDecl => {
                assert(shaped(c@[i as int]));
                match parse_fn_decl(&c[i]) {
                    Ok(d) => {
                        fn_decl = Some(d);
                    },
                    Err(e) => {
                        return Err(e);
                    },
                }
            },
            Rule::CodeBlockStmt => {
                assert(shaped(c@[i as int]));
                match parse_code_block_stmt(&c[i]) {
                    Ok(s) => {
                        let ghost before = stmts@;
                        stmts.push(*s);
                        assert(stmts@.drop_last() =~= before);
                    },
                    Err(e) => {
                        return Err(e);
                    },
                }
            },
            _ => {},
        }
        i = i + 1;
    }
    match fn_decl {
        Some(d) => Ok(Box::new(FnDef { fn_decl: d, stmts })),
        None => Err(grammar_error("fn_def.fn_decl", n)),
    }
}

} // verus!
