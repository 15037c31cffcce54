//! The first steps of building a contract: fitting the compiler's output to
//! the host's conventions before optimization and packing.
use vstd::prelude::*;

use crate::elements::{global_import_count, Module};
use crate::ext::{
    externalize_mem, func_names_nonempty, inject_runtime_type, mem_externalized, new_stack_top, renamed,
    runtime_typed, shrink_unknown_stack, stack_shrunk, stack_top_ok, ununderscore_funcs,
};
use crate::TargetRuntime;

verus! {

/// Which compiler target produced a module.
#[derive(Debug, Clone, Copy, PartialEq, Eq, Structural)]
pub enum SourceTarget {
    Emscripten,
    Unknown,
}

/// Number of 64 KiB pages that hold `bytes` bytes.
pub open spec fn pages_for(bytes: nat) -> nat {
    bytes / 65536 + if bytes % 65536 > 0 {
        1nat
    } else {
        0nat
    }
}

/// Whether some export of `module` is named as the target's constructor.
pub fn has_ctor(module: &Module, target_runtime: &TargetRuntime) -> (r: bool)
    ensures
        r == exists|i: int|
            0 <= i < module.exports@.len() && (#[trigger] module.exports@[i]).field@
                == target_runtime.spec_symbols().create@,
{
    let create = &target_runtime.symbols().create;
    let mut i: usize = 0;
    while i < module.exports.len()
        invariant
            i <= module.exports@.len(),
            *create == target_runtime.spec_symbols().create,
            forall|j: int| 0 <= j < i ==> (#[trigger] module.exports@[j]).field@ != create@,
        decreases module.exports@.len() - i,
    {
        if module.exports[i].field == *create {
            return true;
        }
        i = i + 1;
    }
    false
}

/// How much the stack shrinks to leave `stack_size` bytes below 1 MiB.
pub open spec fn shrink_amount(stack_size: u32) -> u32 {
    (1024 * 1024 - stack_size) as u32
}

/// The preconditions of `prepare` on `module`.
pub open spec fn prepare_ok(module: Module, source_target: SourceTarget, enforce_stack_adjustment: bool, stack_size: u32) -> bool {
    &&& source_target == SourceTarget::Emscripten ==> func_names_nonempty(module)
    &&& source_target == SourceTarget::Unknown ==> {
        &&& module.memories@.len() > 0 || enforce_stack_adjustment
        &&& enforce_stack_adjustment ==> {
            &&& stack_size <= 1024 * 1024
            &&& stack_top_ok(module, shrink_amount(stack_size))
            &&& pages_for(new_stack_top(module.data@, shrink_amount(stack_size), module.data@.len() as int)) <= 16
        }
    }
    &&& module.imports@.len() + 1 <= u32::MAX
    &&& global_import_count(module) + module.globals@.len() + 2 <= u32::MAX
}

/// `m1` is `m` after the step for the compiler target.
pub open spec fn target_fitted(m: Module, m1: Module, source_target: SourceTarget, enforce_stack_adjustment: bool, stack_size: u32) -> bool {
    match source_target {
        SourceTarget::Emscripten => renamed(m, m1, false),
        SourceTarget::Unknown => if enforce_stack_adjustment {
            exists|ms: Module|
                #[trigger] stack_shrunk(m, ms, shrink_amount(stack_size)) && mem_externalized(
                    ms,
                    m1,
                    Some(
                        pages_for(
                            new_stack_top(m.data@, shrink_amount(stack_size), m.data@.len() as int),
                        ) as u32,
                    ),
                    16,
                )
        } else {
            mem_externalized(m, m1, None, 16)
        },
    }
}

/// Fits a compiled module to the host: for the emscripten target, drops the
/// leading `_` of function imports and exports; for the unknown target,
/// optionally lowers the stack top to `stack_size` bytes below 1 MiB, and
/// imports the memory with at most 16 pages; then, if asked, tags the module
/// with its runtime type and version.
pub fn prepare(
    module: Module,
    source_target: SourceTarget,
    runtime_type_version: Option<([u8; 4], u32)>,
    enforce_stack_adjustment: bool,
    stack_size: u32,
) -> (r: Module)
    requires
        prepare_ok(module, source_target, enforce_stack_adjustment, stack_size),
    ensures
        exists|m1: Module|
            #[trigger] target_fitted(module, m1, source_target, enforce_stack_adjustment, stack_size)
                && match runtime_type_version {
                Some((t, v)) => runtime_typed(m1, r, t@, v),
                None => r == m1,
            },
{
    let ghost m0 = module;
    let mut module = module;
    if source_target == SourceTarget::Emscripten {
        module = ununderscore_funcs(module);
    } else if enforce_stack_adjustment {
        let (new_module, new_stack_top) = shrink_unknown_stack(module, 1024 * 1024 - stack_size);
        let ghost ms = new_module;
        let mut stack_top_page = new_stack_top / 65536;
        if new_stack_top % 65536 > 0 {
            stack_top_page = stack_top_page + 1;
        }
        module = externalize_mem(new_module, Some(stack_top_page), 16);
        proof {
            assert(stack_shrunk(m0, ms, shrink_amount(stack_size)));
        }
    } else {
        module = externalize_mem(module, None, 16);
    }
    let ghost m1 = module;
    proof {
        assert(target_fitted(m0, m1, source_target, enforce_stack_adjustment, stack_size));
        if source_target == SourceTarget::Emscripten {
            crate::elements::lemma_same_kinds(m0.imports@, m1.imports@, m0.imports@.len() as int);
        } else {
            crate::elements::lemma_imports_push(m0.imports@, m1.imports@.last());
            assert(m1.imports@ == m0.imports@.push(m1.imports@.last()));
        }
    }
    if let Some((runtime_type, runtime_version)) = runtime_type_version {
        module = inject_runtime_type(module, runtime_type, runtime_version);
    }
    module
}

} // verus!
