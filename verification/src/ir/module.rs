//! Modules: the global variables and functions of a program, and the types
//! they refer to.

use super::function::{Function, FunctionModel};
use super::gen::conversions::returnable;
use super::link::linked;
use super::pass::ModulePassManager;
use super::printer::initializers_match;
use super::types::{FunctionType, FunctionTypeModel, MemberModel, StructType};
use super::value::{GlobalDef, GlobalDefModel};
use crate::ast::program::Program;
use crate::common::names::NameMap;
use crate::common::text::owned;
use vstd::prelude::*;

verus! {

/// The types that names stand for, and the names that the linker sees.
pub struct Registry {
    pub struct_types: NameMap<StructType>,
    pub function_types: NameMap<FunctionType>,
    pub link_names: NameMap<String>,
}

impl Registry {
    /// The tables are well formed.
    pub open spec fn wf(&self) -> bool {
        &&& self.struct_types.wf()
        &&& self.function_types.wf()
        &&& self.link_names.wf()
    }

    /// A registry without entries.
    pub fn new() -> (r: Self)
        ensures
            r.wf(),
            r.struct_types@ == Map::<Seq<char>, Seq<MemberModel>>::empty(),
            r.function_types@ == Map::<Seq<char>, FunctionTypeModel>::empty(),
            r.link_names@ == Map::<Seq<char>, Seq<char>>::empty(),
            r.struct_types.names() == Seq::<Seq<char>>::empty(),
            r.function_types.names() == Seq::<Seq<char>>::empty(),
            r.link_names.names() == Seq::<Seq<char>>::empty(),
    {
        Registry {
            struct_types: NameMap::new(),
            function_types: NameMap::new(),
            link_names: NameMap::new(),
        }
    }

    /// The name that the linker sees for `name`.
    pub fn link_name(&self, name: &str) -> (link: String)
        requires
            self.wf(),
        ensures
            link@ == linked(self.link_names@, name@),
    {
        match self.link_names.get(name) {
            Some(link) => link.clone(),
            None => owned(name),
        }
    }
}

/// The global variables and functions of a program.
pub struct Module {
    pub global_list: NameMap<GlobalDef>,
    pub function_list: NameMap<Function>,
}

impl Module {
    /// The tables are well formed.
    pub open spec fn wf(&self) -> bool {
        &&& self.global_list.wf()
        &&& self.function_list.wf()
    }

    /// A module without globals and functions.
    pub fn new() -> (m: Self)
        ensures
            m.wf(),
            m.global_list@ == Map::<Seq<char>, GlobalDefModel>::empty(),
            m.function_list@ == Map::<Seq<char>, FunctionModel>::empty(),
            m.global_list.names() == Seq::<Seq<char>>::empty(),
            m.function_list.names() == Seq::<Seq<char>>::empty(),
    {
        Module { global_list: NameMap::new(), function_list: NameMap::new() }
    }
}

/// The mathematical model of a module with its registry: what names stand
/// for, and the order in which they came.
#[verifier::ext_equal]
pub struct Unit {
    pub struct_names: Seq<Seq<char>>,
    pub structs: Map<Seq<char>, Seq<MemberModel>>,
    pub function_names: Seq<Seq<char>>,
    pub functions: Map<Seq<char>, FunctionTypeModel>,
    pub linked_names: Seq<Seq<char>>,
    pub links: Map<Seq<char>, Seq<char>>,
    pub global_names: Seq<Seq<char>>,
    pub globals: Map<Seq<char>, GlobalDefModel>,
    pub entry_names: Seq<Seq<char>>,
    pub entries: Map<Seq<char>, FunctionModel>,
}

impl Unit {
    /// A unit without entries.
    pub open spec fn empty() -> Unit {
        Unit {
            struct_names: Seq::empty(),
            structs: Map::empty(),
            function_names: Seq::empty(),
            functions: Map::empty(),
            linked_names: Seq::empty(),
            links: Map::empty(),
            global_names: Seq::empty(),
            globals: Map::empty(),
            entry_names: Seq::empty(),
            entries: Map::empty(),
        }
    }

    /// All functions return nothing or an integer, every function of the
    /// module has a type and is listed under its name, and the initializers
    /// of globals match their types.
    pub open spec fn sound(self) -> bool {
        &&& forall|n: Seq<char>| #[trigger]
            self.functions.contains_key(n) ==> returnable(self.functions[n].return_dtype)
        &&& forall|n: Seq<char>| #[trigger]
            self.entries.contains_key(n) ==> self.entries[n].identifier == n
                && self.functions.contains_key(n)
        &&& forall|n: Seq<char>| #[trigger]
            self.globals.contains_key(n) ==> initializers_match(self.globals[n])
    }
}

/// The model of a module with its registry.
pub open spec fn unit_of(module: Module, registry: Registry) -> Unit {
    Unit {
        struct_names: registry.struct_types.names(),
        structs: registry.struct_types@,
        function_names: registry.function_types.names(),
        functions: registry.function_types@,
        linked_names: registry.link_names.names(),
        links: registry.link_names@,
        global_names: module.global_list.names(),
        globals: module.global_list@,
        entry_names: module.function_list.names(),
        entries: module.function_list@,
    }
}

/// What was found where the header of an imported module should be.
#[derive(Debug)]
pub enum Header {
    /// There is no file at the path.
    Missing { path: String },
    /// The file cannot be read.
    Unreadable { cause: String },
    /// The file cannot be parsed.
    Malformed { message: String },
    /// The file holds these declarations.
    Parsed(Program),
}

/// Translates a program.
pub struct IrGenerator<'a, P> {
    pub input: &'a Program,
    /// The headers of the imported modules, in the order of the imports.
    pub headers: &'a Vec<Header>,
    pub module: Module,
    pub registry: Registry,
    /// What runs between the registration of all names and the translation
    /// of bodies.
    pub module_passes: ModulePassManager<P>,
}

impl<'a, P> IrGenerator<'a, P> {
    /// The tables are well formed.
    pub open spec fn wf(&self) -> bool {
        self.module.wf() && self.registry.wf()
    }

    /// What has been translated so far.
    pub open spec fn unit(&self) -> Unit {
        unit_of(self.module, self.registry)
    }

    /// A generator that has translated nothing and has no passes.
    pub fn new(input: &'a Program, headers: &'a Vec<Header>) -> (g: Self)
        ensures
            g.wf(),
            g.unit() == Unit::empty(),
            g.unit().sound(),
            *g.input == *input,
            g.headers@ == headers@,
            g.module_passes.list() == Seq::<P>::empty(),
    {
        let g = IrGenerator {
            input,
            headers,
            module: Module::new(),
            registry: Registry::new(),
            module_passes: ModulePassManager::new(),
        };
        assert(g.unit() =~= Unit::empty());
        g
    }

    /// Appends a pass.
    pub fn add_module_pass(&mut self, pass: P)
        ensures
            final(self).module_passes.list() == old(self).module_passes.list().push(pass),
            final(self).input == old(self).input,
            final(self).headers == old(self).headers,
            final(self).module == old(self).module,
            final(self).registry == old(self).registry,
    {
        self.module_passes.add_pass(pass);
    }
}

} // verus!
