//! Detection of instructions whose results may differ between hosts: float
//! arithmetic, comparisons, conversions and reinterpretations.
use vstd::prelude::*;

use crate::elements::{Instruction, Module};

verus! {

/// Whether a numeric opcode computes on floats (other than a constant).
pub open spec fn is_float_op(op: u8) -> bool {
    (0x5b <= op <= 0x66) || (0x8b <= op <= 0xa6) || (0xa8 <= op <= 0xab) || (0xae <= op <= 0xbf)
}

pub open spec fn is_indeterministic(i: Instruction) -> bool {
    i matches Instruction::Numeric(op) && is_float_op(op)
}

pub open spec fn code_indeterministic(code: Seq<Instruction>) -> bool {
    exists|k: int| 0 <= k < code.len() && is_indeterministic(#[trigger] code[k])
}

/// Whether some body, global initializer or element offset of `m` holds a
/// float operation.
pub open spec fn module_indeterministic(m: Module) -> bool {
    ||| exists|i: int| 0 <= i < m.code@.len() && code_indeterministic(#[trigger] m.code@[i].code@)
    ||| exists|i: int| 0 <= i < m.globals@.len() && code_indeterministic(#[trigger] m.globals@[i].init_expr@)
    ||| exists|i: int| 0 <= i < m.elements@.len() && code_indeterministic(#[trigger] m.elements@[i].offset@)
}

fn check_opcodes(code: &Vec<Instruction>) -> (r: bool)
    ensures
        r == code_indeterministic(code@),
{
    let mut k: usize = 0;
    while k < code.len()
        invariant
            k <= code@.len(),
            forall|q: int| 0 <= q < k ==> !is_indeterministic(#[trigger] code@[q]),
        decreases code@.len() - k,
    {
        if let Instruction::Numeric(op) = code[k] {
            if (0x5b <= op && op <= 0x66) || (0x8b <= op && op <= 0xa6) || (0xa8 <= op && op <= 0xab)
                || (0xae <= op && op <= 0xbf) {
                proof {
                    assert(is_indeterministic(code@[k as int]));
                }
                return true;
            }
        }
        k = k + 1;
    }
    false
}

/// Whether `module` holds an instruction whose result may depend on the host.
pub fn have_indeterminism(module: &Module) -> (r: bool)
    ensures
        r == module_indeterministic(*module),
{
    let mut i: usize = 0;
    while i < module.code.len()
        invariant
            i <= module.code@.len(),
            forall|q: int| 0 <= q < i ==> !code_indeterministic(#[trigger] module.code@[q].code@),
        decreases module.code@.len() - i,
    {
        if check_opcodes(&module.code[i].code) {
            return true;
        }
        i = i + 1;
    }
    let mut i: usize = 0;
    while i < module.globals.len()
        invariant
            i <= module.globals@.len(),
            forall|q: int| 0 <= q < module.code@.len() ==> !code_indeterministic(#[trigger] module.code@[q].code@),
            forall|q: int| 0 <= q < i ==> !code_indeterministic(#[trigger] module.globals@[q].init_expr@),
        decreases module.globals@.len() - i,
    {
        if check_opcodes(&module.globals[i].init_expr) {
            return true;
        }
        i = i + 1;
    }
    let mut i: usize = 0;
    while i < module.elements.len()
        invariant
            i <= module.elements@.len(),
            forall|q: int| 0 <= q < module.code@.len() ==> !code_indeterministic(#[trigger] module.code@[q].code@),
            forall|q: int| 0 <= q < module.globals@.len() ==> !code_indeterministic(#[trigger] module.globals@[q].init_expr@),
            forall|q: int| 0 <= q < i ==> !code_indeterministic(#[trigger] module.elements@[q].offset@),
        decreases module.elements@.len() - i,
    {
        if check_opcodes(&module.elements[i].offset) {
            return true;
        }
        i = i + 1;
    }
    false
}

} // verus!
