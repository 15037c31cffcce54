//! Post-processing passes over WebAssembly modules: dead-code elimination,
//! gas metering, stack height limiting, constructor packing and smaller
//! rewrites, over a structural module model.
use vstd::prelude::*;

pub mod elements;
pub mod ref_list;
pub mod rules;
pub mod gas;
pub mod stack_height;
pub mod symbols;
pub mod optimizer;
pub mod pack;
pub mod ext;
pub mod coverage;
pub mod indeterminism;
pub mod pipeline;
pub mod graph;

verus! {

/// The names of the entry points that a host expects: the constructor's
/// export, the runtime's export and the import that hands back a result.
pub struct TargetSymbols {
    pub create: String,
    pub call: String,
    pub ret: String,
}

pub enum TargetRuntime {
    Substrate(TargetSymbols),
    PWasm(TargetSymbols),
}

impl TargetRuntime {
    pub open spec fn spec_symbols(&self) -> TargetSymbols {
        match self {
            TargetRuntime::Substrate(s) => *s,
            TargetRuntime::PWasm(s) => *s,
        }
    }

    pub fn substrate() -> (r: TargetRuntime)
        ensures
            r is Substrate,
            r.spec_symbols().create@ == "deploy"@,
            r.spec_symbols().call@ == "call"@,
            r.spec_symbols().ret@ == "ext_return"@,
    {
        TargetRuntime::Substrate(
            TargetSymbols {
                create: "deploy".to_owned(),
                call: "call".to_owned(),
                ret: "ext_return".to_owned(),
            },
        )
    }

    pub fn pwasm() -> (r: TargetRuntime)
        ensures
            r is PWasm,
            r.spec_symbols().create@ == "deploy"@,
            r.spec_symbols().call@ == "call"@,
            r.spec_symbols().ret@ == "ret"@,
    {
        TargetRuntime::PWasm(
            TargetSymbols { create: "deploy".to_owned(), call: "call".to_owned(), ret: "ret".to_owned() },
        )
    }

    pub fn symbols(&self) -> (r: &TargetSymbols)
        ensures
            *r == self.spec_symbols(),
    {
        match self {
            TargetRuntime::Substrate(s) => s,
            TargetRuntime::PWasm(s) => s,
        }
    }
}

} // verus!
