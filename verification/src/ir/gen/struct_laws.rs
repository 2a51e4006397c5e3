//! Each member of a struct is found under its name, in a place of its own.

use crate::ast::decl::{VarDecl, VarDeclInner};
use crate::ir::gen::module_gen::members;
use crate::ir::types::{find_member, DtypeModel, MemberModel};
use vstd::prelude::*;

verus! {

/// The members of a struct are those that are declared, in their order: each
/// is numbered by its position, and an array has as many elements as declared.
pub proof fn lemma_members_in_order(
    structs: Map<Seq<char>, Seq<MemberModel>>,
    name: Seq<char>,
    decls: Seq<VarDecl>,
    n: nat,
    i: int,
)
    requires
        n <= decls.len(),
        members(structs, name, decls, n) is Ok,
        0 <= i < n,
    ensures
        ({
            let m = members(structs, name, decls, n)->Ok_0;
            &&& m.len() == n
            &&& m[i].index == i
            &&& m[i].name == decls[i].identifier@
            &&& decls[i].inner matches VarDeclInner::Array(a) ==> (
            m[i].dtype matches DtypeModel::Array(_, len) && len == Some(a.len as nat))
        }),
    decreases n,
{
    lemma_members_counted(structs, name, decls, n);
    lemma_members_counted(structs, name, decls, (n - 1) as nat);
    if i < n - 1 {
        lemma_members_in_order(structs, name, decls, (n - 1) as nat, i);
    }
}

proof fn lemma_members_counted(
    structs: Map<Seq<char>, Seq<MemberModel>>,
    name: Seq<char>,
    decls: Seq<VarDecl>,
    n: nat,
)
    requires
        members(structs, name, decls, n) is Ok,
    ensures
        members(structs, name, decls, n)->Ok_0.len() == n,
    decreases n,
{
    if n > 0 {
        lemma_members_counted(structs, name, decls, (n - 1) as nat);
    }
}

proof fn lemma_found(ms: Seq<MemberModel>, name: Seq<char>, from: nat)
    ensures
        match find_member(ms, name, from) {
            Some(m) => m.name == name && exists|i: int|
                from <= i < ms.len() && #[trigger] ms[i] == m && forall|j: int|
                    from <= j < i ==> (#[trigger] ms[j]).name != name,
            None => forall|j: int| from <= j < ms.len() ==> (#[trigger] ms[j]).name != name,
        },
    decreases ms.len() - from,
{
    if from < ms.len() {
        if ms[from as int].name == name {
            assert(ms[from as int] == find_member(ms, name, from)->Some_0);
        } else {
            lemma_found(ms, name, from + 1);
            if find_member(ms, name, from + 1) is Some {
                let m = find_member(ms, name, from + 1)->Some_0;
                let i = choose|i: int|
                    from + 1 <= i < ms.len() && #[trigger] ms[i] == m && forall|j: int|
                        from + 1 <= j < i ==> (#[trigger] ms[j]).name != name;
                assert(ms[i] == m);
                assert forall|j: int| from <= j < i implies (#[trigger] ms[j]).name != name by {
                    if j == from {
                    }
                }
            }
        }
    }
}

/// Every member of a struct whose members have different names is found under
/// its name, and under no other.
pub proof fn lemma_member_found(ms: Seq<MemberModel>, name: Seq<char>, i: int)
    requires
        0 <= i < ms.len(),
        forall|a: int, b: int|
            0 <= a < b < ms.len() ==> (#[trigger] ms[a]).name != (#[trigger] ms[b]).name,
    ensures
        find_member(ms, ms[i].name, 0) == Some(ms[i]),
        find_member(ms, name, 0) == Some(ms[i]) ==> name == ms[i].name,
        (forall|j: int| 0 <= j < ms.len() ==> (#[trigger] ms[j]).name != name) ==> find_member(
            ms,
            name,
            0,
        ) is None,
{
    lemma_found(ms, ms[i].name, 0);
    lemma_found(ms, name, 0);
    let m = find_member(ms, ms[i].name, 0);
    assert(m is Some) by {
        if m is None {
            assert(ms[i].name != ms[i].name);
        }
    }
    let k = choose|k: int| 0 <= k < ms.len() && #[trigger] ms[k] == m->Some_0 && forall|j: int|
        0 <= j < k ==> (#[trigger] ms[j]).name != ms[i].name;
    assert(ms[k].name == ms[i].name);
    assert(k == i) by {
        if k < i {
            assert(ms[k].name != ms[i].name);
        } else if i < k {
            assert(ms[i].name != ms[k].name);
        }
    }
}

/// Two members of a struct that are found under different names have different
/// numbers.
pub proof fn lemma_members_apart(
    structs: Map<Seq<char>, Seq<MemberModel>>,
    name: Seq<char>,
    decls: Seq<VarDecl>,
    x: Seq<char>,
    y: Seq<char>,
)
    requires
        members(structs, name, decls, decls.len()) is Ok,
        x != y,
        find_member(members(structs, name, decls, decls.len())->Ok_0, x, 0) is Some,
        find_member(members(structs, name, decls, decls.len())->Ok_0, y, 0) is Some,
    ensures
        ({
            let ms = members(structs, name, decls, decls.len())->Ok_0;
            let a = find_member(ms, x, 0)->Some_0;
            let b = find_member(ms, y, 0)->Some_0;
            &&& a.index != b.index
            &&& 0 <= a.index < decls.len() && decls[a.index as int].identifier@ == x
            &&& 0 <= b.index < decls.len() && decls[b.index as int].identifier@ == y
        }),
{
    let ms = members(structs, name, decls, decls.len())->Ok_0;
    lemma_members_counted(structs, name, decls, decls.len());
    lemma_found(ms, x, 0);
    lemma_found(ms, y, 0);
    let a = find_member(ms, x, 0)->Some_0;
    let b = find_member(ms, y, 0)->Some_0;
    let i = choose|i: int| 0 <= i < ms.len() && #[trigger] ms[i] == a;
    let j = choose|j: int| 0 <= j < ms.len() && #[trigger] ms[j] == b;
    lemma_members_in_order(structs, name, decls, decls.len(), i);
    lemma_members_in_order(structs, name, decls, decls.len(), j);
}

} // verus!
