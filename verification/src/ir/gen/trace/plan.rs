//! Which functions are traced, and what the tracing runtime offers.

use super::calls::{collect_call_sites, stmts_calls, texts};
use crate::ast::program::{Program, ProgramElement, ProgramElementInner};
use crate::common::names::{with_name, NameMap};
use crate::common::text::owned;
use crate::ir::function::{Function, FunctionModel};
use crate::ir::module::{IrGenerator, Unit};
use crate::ir::types::{Dtype, DtypeModel, FunctionType, FunctionTypeModel};
use vstd::prelude::*;

verus! {

/// The functions that a trace follows.
pub struct TracePlan {
    pub functions: NameMap<bool>,
    pub needs_runtime: bool,
}

/// The defined functions, each with the names that its last definition calls.
pub open spec fn call_graph(elements: Seq<ProgramElement>) -> Map<Seq<char>, Seq<Seq<char>>>
    decreases elements.len(),
{
    if elements.len() == 0 {
        Map::empty()
    } else {
        let front = call_graph(elements.drop_last());
        match elements.last().inner {
            ProgramElementInner::FnDef(def) => front.insert(
                def.fn_decl.identifier@,
                stmts_calls(def.stmts@),
            ),
            _ => front,
        }
    }
}

/// Defined functions, each called by the one before it, from one of the roots
/// on.
pub open spec fn is_chain(
    graph: Map<Seq<char>, Seq<Seq<char>>>,
    roots: Seq<Seq<char>>,
    chain: Seq<Seq<char>>,
) -> bool {
    &&& chain.len() > 0
    &&& roots.contains(chain[0])
    &&& forall|i: int| 0 <= i < chain.len() ==> graph.contains_key(#[trigger] chain[i])
    &&& forall|i: int| #![trigger chain[i]]
        0 < i < chain.len() ==> graph[chain[i - 1]].contains(chain[i])
}

/// A chain of calls leads from one of the roots to the function.
pub open spec fn is_traced(
    graph: Map<Seq<char>, Seq<Seq<char>>>,
    roots: Seq<Seq<char>>,
    name: Seq<char>,
) -> bool {
    exists|chain: Seq<Seq<char>>| #[trigger] is_chain(graph, roots, chain) && chain.last() == name
}

/// What is called from a traced function is traced.
pub proof fn lemma_callee_traced(
    graph: Map<Seq<char>, Seq<Seq<char>>>,
    roots: Seq<Seq<char>>,
    caller: Seq<char>,
    callee: Seq<char>,
)
    requires
        is_traced(graph, roots, caller),
        graph[caller].contains(callee),
        graph.contains_key(callee),
    ensures
        is_traced(graph, roots, callee),
{
    let chain = choose|chain: Seq<Seq<char>>| #[trigger]
        is_chain(graph, roots, chain) && chain.last() == caller;
    let longer = chain.push(callee);
    assert forall|i: int| 0 <= i < longer.len() implies graph.contains_key(
        #[trigger] longer[i],
    ) by {
        if i < chain.len() {
            assert(longer[i] == chain[i]);
        }
    }
    assert forall|i: int| #![trigger longer[i]] 0 < i < longer.len() implies graph[longer[i
        - 1]].contains(longer[i]) by {
        assert(longer[i - 1] == chain[i - 1]);
        if i < chain.len() {
            assert(longer[i] == chain[i]);
        }
    }
    assert(is_chain(graph, roots, longer));
}

/// A set that holds the defined roots and, with a function, the defined ones
/// that it calls, holds all traced functions.
proof fn lemma_closed(
    graph: Map<Seq<char>, Seq<Seq<char>>>,
    roots: Seq<Seq<char>>,
    set: Set<Seq<char>>,
    chain: Seq<Seq<char>>,
    k: int,
)
    requires
        is_chain(graph, roots, chain),
        0 <= k < chain.len(),
        forall|i: int|
            0 <= i < roots.len() && graph.contains_key(#[trigger] roots[i]) ==> set.contains(
                roots[i],
            ),
        forall|f: Seq<char>, i: int|
            set.contains(f) && 0 <= i < graph[f].len() && graph.contains_key(
                #[trigger] graph[f][i],
            ) ==> set.contains(graph[f][i]),
    ensures
        set.contains(chain[k]),
    decreases k,
{
    assert(graph.contains_key(chain[k]));
    if k == 0 {
        let i = choose|i: int| 0 <= i < roots.len() && roots[i] == chain[0];
        assert(graph.contains_key(roots[i]));
    } else {
        lemma_closed(graph, roots, set, chain, k - 1);
        let f = chain[k - 1];
        assert(graph[chain[k - 1]].contains(chain[k]));
        let i = choose|i: int| 0 <= i < graph[f].len() && graph[f][i] == chain[k];
        assert(graph.contains_key(graph[f][i]));
    }
}

/// The names of `a` are names of `b`, so they are no more.
proof fn lemma_fewer(a: Seq<Seq<char>>, b: Seq<Seq<char>>)
    requires
        a.no_duplicates(),
        b.no_duplicates(),
        forall|n: Seq<char>| #[trigger] a.contains(n) ==> b.contains(n),
    ensures
        a.len() <= b.len(),
{
    a.unique_seq_to_set();
    b.unique_seq_to_set();
    assert(a.to_set().subset_of(b.to_set()));
    vstd::set_lib::lemma_len_subset(a.to_set(), b.to_set());
}

/// A table holds the graph.
spec fn holds(table: NameMap<Vec<String>>, graph: Map<Seq<char>, Seq<Seq<char>>>) -> bool {
    &&& table.wf()
    &&& forall|n: Seq<char>| #[trigger] table@.contains_key(n) <==> graph.contains_key(n)
    &&& forall|n: Seq<char>| #[trigger]
        table@.contains_key(n) ==> texts(table@[n]) == graph[n]
}

/// The call graph of a program.
fn collect_graph(program: &Program) -> (table: NameMap<Vec<String>>)
    ensures
        holds(table, call_graph(program.elements@)),
{
    let mut table: NameMap<Vec<String>> = NameMap::new();
    let ghost all = program.elements@;
    assert(all.take(0) =~= Seq::empty());
    let mut i: usize = 0;
    while i < program.elements.len()
        invariant
            i <= program.elements.len(),
            all == program.elements@,
            holds(table, call_graph(all.take(i as int))),
        decreases program.elements.len() - i,
    {
        proof {
            let longer = all.take(i + 1);
            assert(longer.drop_last() =~= all.take(i as int));
            assert(longer.last() == all[i as int]);
        }
        match &program.elements[i].inner {
            ProgramElementInner::FnDef(def) => {
                let sites = collect_call_sites(&def.stmts);
                table.insert(owned(def.fn_decl.identifier.as_str()), sites);
            },
            _ => {},
        }
        i = i + 1;
    }
    assert(all.take(i as int) =~= all);
    table
}

/// The functions to trace when calls of the roots are traced.
pub fn plan(program: &Program, roots: &Vec<String>) -> (p: TracePlan)
    ensures
        p.functions.wf(),
        forall|f: Seq<char>| #[trigger]
            p.functions@.contains_key(f) <==> is_traced(
                call_graph(program.elements@),
                texts(roots@),
                f,
            ),
        p.needs_runtime == (roots.len() > 0),
{
    let table = collect_graph(program);
    let ghost graph = call_graph(program.elements@);
    let ghost starts = texts(roots@);
    let mut traced: NameMap<bool> = NameMap::new();
    let mut work: Vec<String> = Vec::new();
    let mut i: usize = 0;
    while i < roots.len()
        invariant
            i <= roots.len(),
            starts == texts(roots@),
            work.len() == i,
            forall|j: int| 0 <= j < i ==> (#[trigger] work@[j])@ == starts[j],
        decreases roots.len() - i,
    {
        work.push(owned(roots[i].as_str()));
        i = i + 1;
    }
    proof {
        assert forall|j: int| 0 <= j < work.len() && graph.contains_key(
            (#[trigger] work@[j])@,
        ) implies is_traced(graph, starts, work@[j]@) by {
            let chain = seq![work@[j]@];
            assert(work@[j]@ == starts[j]);
            assert(starts.contains(chain[0]));
            assert(is_chain(graph, starts, chain));
            assert(chain.last() == work@[j]@);
        }
        assert forall|j: int| 0 <= j < starts.len() && graph.contains_key(
            #[trigger] starts[j],
        ) implies texts(work@).contains(starts[j]) by {
            assert(texts(work@)[j] == starts[j]);
        }
        assert(traced.names().no_duplicates());
    }
    while work.len() > 0
        invariant
            holds(table, graph),
            traced.wf(),
            starts == texts(roots@),
            forall|f: Seq<char>| #[trigger] traced@.contains_key(f) ==> graph.contains_key(f)
                && is_traced(graph, starts, f),
            forall|j: int|
                0 <= j < work.len() && graph.contains_key((#[trigger] work@[j])@) ==> is_traced(
                    graph,
                    starts,
                    work@[j]@,
                ),
            forall|j: int|
                0 <= j < starts.len() && graph.contains_key(#[trigger] starts[j])
                    ==> traced@.contains_key(starts[j]) || texts(work@).contains(starts[j]),
            forall|f: Seq<char>, j: int|
                traced@.contains_key(f) && 0 <= j < graph[f].len() && graph.contains_key(
                    #[trigger] graph[f][j],
                ) ==> traced@.contains_key(graph[f][j]) || texts(work@).contains(graph[f][j]),
            traced.names().len() <= table.names().len(),
        decreases table.names().len() - traced.names().len(), work.len(),
    {
        let ghost before = work@;
        let name = work.pop().unwrap();
        let ghost n = name@;
        assert(before.last() == name);
        assert(work@ =~= before.drop_last());
        proof {
            assert forall|t: Seq<char>| t != n && #[trigger] texts(before).contains(
                t,
            ) implies texts(work@).contains(t) by {
                let j = choose|j: int| 0 <= j < texts(before).len() && texts(before)[j] == t;
                assert(j < work@.len());
                assert(texts(work@)[j] == t);
            }
            assert forall|j: int| 0 <= j < work.len() implies work@[j] == #[trigger] before[j] by {}
        }
        match table.get(name.as_str()) {
            Some(callees) => {
                if !traced.contains_key(name.as_str()) {
                    let ghost known = traced@;
                    proof {
                        assert(before[before.len() - 1]@ == n);
                        assert(is_traced(graph, starts, n));
                        table.lemma_names();
                        traced.lemma_names();
                    }
                    let ghost old_names = traced.names();
                    let ghost rest = work@;
                    traced.insert(owned(name.as_str()), true);
                    proof {
                        assert(!old_names.contains(n));
                        assert(traced.names() == old_names.push(n));
                        traced.lemma_names();
                        lemma_fewer(traced.names(), table.names());
                    }
                    let mut j: usize = 0;
                    while j < callees.len()
                        invariant
                            j <= callees.len(),
                            texts(callees@) == graph[n],
                            is_traced(graph, starts, n),
                            forall|m: int| 0 <= m < work.len() && graph.contains_key(
                                (#[trigger] work@[m])@,
                            ) ==> is_traced(graph, starts, work@[m]@),
                            forall|t: Seq<char>| #[trigger] texts(rest).contains(t)
                                ==> texts(work@).contains(t),
                            forall|m: int| 0 <= m < j ==> texts(work@).contains(
                                #[trigger] graph[n][m],
                            ),
                        decreases callees.len() - j,
                    {
                        let ghost shorter = work@;
                        work.push(owned(callees[j].as_str()));
                        proof {
                            let c = graph[n][j as int];
                            assert(texts(callees@)[j as int] == callees@[j as int]@);
                            assert(work@.last()@ == c);
                            assert forall|t: Seq<char>| #[trigger] texts(shorter).contains(
                                t,
                            ) implies texts(work@).contains(t) by {
                                let m = choose|m: int| 0 <= m < shorter.len() && texts(shorter)[m]
                                    == t;
                                assert(texts(work@)[m] == t);
                            }
                            assert(texts(work@)[work@.len() - 1] == c);
                            if graph.contains_key(c) {
                                assert(graph[n].contains(c));
                                lemma_callee_traced(graph, starts, n, c);
                            }
                            assert forall|m: int| 0 <= m < work.len() && graph.contains_key(
                                (#[trigger] work@[m])@,
                            ) implies is_traced(graph, starts, work@[m]@) by {
                                if m < shorter.len() {
                                    assert(work@[m] == shorter[m]);
                                }
                            }
                        }
                        j = j + 1;
                    }
                    proof {
                        assert forall|f: Seq<char>, m: int|
                            traced@.contains_key(f) && 0 <= m < graph[f].len()
                                && graph.contains_key(
                                #[trigger] graph[f][m],
                            ) implies traced@.contains_key(graph[f][m]) || texts(work@).contains(
                            graph[f][m],
                        ) by {
                            if f != n {
                                assert(known.contains_key(f));
                            }
                        }
                    }
                }
            },
            None => {},
        }
    }
    proof {
        let set = traced@.dom();
        assert forall|f: Seq<char>| is_traced(graph, starts, f) implies traced@.contains_key(f) by {
            let chain = choose|chain: Seq<Seq<char>>| #[trigger]
                is_chain(graph, starts, chain) && chain.last() == f;
            lemma_closed(graph, starts, set, chain, chain.len() - 1);
        }
    }
    TracePlan { functions: traced, needs_runtime: roots.len() > 0 }
}

/// The type of a runtime function.
pub open spec fn runtime_type(takes_value: bool) -> FunctionTypeModel {
    FunctionTypeModel {
        return_dtype: DtypeModel::Void,
        arguments: if takes_value {
            seq![("arg0"@, DtypeModel::I32)]
        } else {
            Seq::empty()
        },
    }
}

/// One function of the runtime registered.
pub open spec fn with_runtime_fn(u: Unit, name: Seq<char>, takes_value: bool) -> Unit {
    Unit {
        function_names: with_name(u.function_names, name),
        functions: u.functions.insert(name, runtime_type(takes_value)),
        linked_names: with_name(u.linked_names, name),
        links: u.links.insert(name, name),
        entry_names: with_name(u.entry_names, name),
        entries: u.entries.insert(name, FunctionModel { identifier: name, body: None }),
        ..u
    }
}

/// All functions of the runtime registered.
pub open spec fn with_runtime(u: Unit) -> Unit {
    let u = with_runtime_fn(u, "__teac_trace_begin"@, false);
    let u = with_runtime_fn(u, "__teac_trace_finish"@, false);
    let u = with_runtime_fn(u, "__teac_trace_enter"@, false);
    let u = with_runtime_fn(u, "__teac_trace_leave"@, false);
    let u = with_runtime_fn(u, "__teac_trace_event"@, true);
    let u = with_runtime_fn(u, "__teac_trace_putch"@, true);
    let u = with_runtime_fn(u, "__teac_trace_putint"@, true);
    with_runtime_fn(u, "__teac_trace_putbool"@, true)
}

/// The runtime keeps a unit sound.
pub proof fn lemma_runtime_sound(u: Unit)
    requires
        u.sound(),
    ensures
        with_runtime(u).sound(),
{
}

/// Registers a function of the runtime.
fn register_runtime_fn<P>(gen: &mut IrGenerator<'_, P>, name: &str, takes_value: bool)
    requires
        old(gen).wf(),
    ensures
        final(gen).wf(),
        final(gen).unit() == with_runtime_fn(old(gen).unit(), name@, takes_value),
        final(gen).input == old(gen).input,
        final(gen).headers == old(gen).headers,
        final(gen).module_passes == old(gen).module_passes,
{
    let mut arguments: Vec<(String, Dtype)> = Vec::new();
    if takes_value {
        arguments.push((owned("arg0"), Dtype::I32));
    }
    let ghost before = gen.unit();
    let function_type = FunctionType { return_dtype: Dtype::Void, arguments };
    assert(function_type@.arguments =~= runtime_type(takes_value).arguments);
    gen.registry.function_types.insert(owned(name), function_type);
    gen.registry.link_names.insert(owned(name), owned(name));
    gen.module.function_list.insert(
        owned(name),
        Function { identifier: owned(name), body: None },
    );
    assert(gen.unit() =~= with_runtime_fn(before, name@, takes_value));
}

/// Registers the functions of the tracing runtime.
pub fn register_runtime<P>(gen: &mut IrGenerator<'_, P>)
    requires
        old(gen).wf(),
    ensures
        final(gen).wf(),
        final(gen).unit() == with_runtime(old(gen).unit()),
        final(gen).input == old(gen).input,
        final(gen).headers == old(gen).headers,
        final(gen).module_passes == old(gen).module_passes,
{
    register_runtime_fn(gen, "__teac_trace_begin", false);
    register_runtime_fn(gen, "__teac_trace_finish", false);
    register_runtime_fn(gen, "__teac_trace_enter", false);
    register_runtime_fn(gen, "__teac_trace_leave", false);
    register_runtime_fn(gen, "__teac_trace_event", true);
    register_runtime_fn(gen, "__teac_trace_putch", true);
    register_runtime_fn(gen, "__teac_trace_putint", true);
    register_runtime_fn(gen, "__teac_trace_putbool", true);
}

} // verus!
