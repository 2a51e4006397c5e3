//! The platform that code is generated for.

use super::text::{group_text, owned, same_text};
use vstd::prelude::*;
use vstd::string::*;

verus! {

broadcast use group_text;

/// The operating system that code is generated for.
#[derive(Copy, Clone, Debug, PartialEq, Eq, Structural)]
pub enum Target {
    Linux,
    Macos,
}

/// The symbol of a name: with a leading underscore where the platform wants
/// one.
pub open spec fn symbol_text(target: Target, name: Seq<char>) -> Seq<char> {
    match target {
        Target::Macos => "_"@ + name,
        Target::Linux => name,
    }
}

impl Target {
    /// The target for the operating system with the given name.
    pub fn host(os: &str) -> (t: Self)
        ensures
            t == if os@ == "macos"@ {
                Target::Macos
            } else {
                Target::Linux
            },
    {
        if same_text(os, "macos") {
            Target::Macos
        } else {
            Target::Linux
        }
    }

    /// The symbol of a name.
    pub fn mangle_symbol(&self, name: &str) -> (s: String)
        ensures
            s@ == symbol_text(*self, name@),
    {
        match self {
            Target::Macos => {
                let mut s = owned("_");
                s.append(name);
                s
            },
            Target::Linux => owned(name),
        }
    }
}

/// Distinct names have distinct symbols.
pub proof fn lemma_symbols_distinct(target: Target, a: Seq<char>, b: Seq<char>)
    ensures
        symbol_text(target, a) == symbol_text(target, b) <==> a == b,
{
    if target is Macos && symbol_text(target, a) == symbol_text(target, b) {
        let n = "_"@.len() as int;
        assert(("_"@ + a).skip(n) =~= a);
        assert(("_"@ + b).skip(n) =~= b);
    }
}

} // verus!
