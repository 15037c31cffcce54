//! Packing: wraps a finished runtime module into its constructor module, whose
//! new entry point runs the constructor and then hands the runtime's bytes
//! back to the host.
use vstd::prelude::*;

use crate::elements::{
    func_import_count, func_import_count_of, functions_space, is_func_import, DataSegment,
    ExportEntry, External, FuncBody, FunctionType, ImportEntry, Instruction, Internal, Module,
    ValueType,
};
use crate::gas::{func_refs_below, shift_function_indices, shifted_module};
use crate::stack_height::{func_type_indices, function_type_indices};
use crate::TargetRuntime;

verus! {

/// Why a constructor module cannot be packed.
#[derive(Debug, PartialEq, Eq, Structural)]
pub enum Error {
    MalformedModule,
    NoTypeSection,
    NoExportSection,
    NoCodeSection,
    InvalidCreateSignature,
    NoCreateSymbol,
    InvalidCreateMember,
    NoImportSection,
}

/// Position of the first export named `name`.
pub open spec fn find_export(exports: Seq<ExportEntry>, name: Seq<char>, i: int) -> Option<nat>
    decreases exports.len() - i,
{
    if i < 0 || i >= exports.len() {
        None
    } else if exports[i].field@ == name {
        Some(i as nat)
    } else {
        find_export(exports, name, i + 1)
    }
}

/// Index, among the function imports, of the first function import whose
/// field is `name`, scanning from position `i` with `count` passed.
pub open spec fn find_func_import(imports: Seq<ImportEntry>, name: Seq<char>, i: int, count: nat) -> Option<
    nat,
>
    decreases imports.len() - i,
{
    if i < 0 || i >= imports.len() {
        None
    } else if is_func_import(imports[i]) {
        if imports[i].field@ == name {
            Some(count)
        } else {
            find_func_import(imports, name, i + 1, count + 1)
        }
    } else {
        find_func_import(imports, name, i + 1, count)
    }
}

/// The defined index of the constructor, or why it cannot be used.
pub open spec fn create_index(m: Module, create: Seq<char>) -> Result<nat, Error> {
    match find_export(m.exports@, create, 0) {
        None => if m.exports@.len() == 0 {
            Err(Error::NoExportSection)
        } else {
            Err(Error::NoCreateSymbol)
        },
        Some(e) => match m.exports@[e as int].internal {
            Internal::Function(idx) => if idx >= func_import_count(m) && m.functions@.len() == 0 {
                Err(Error::NoCodeSection)
            } else if idx >= functions_space(m) {
                Err(Error::MalformedModule)
            } else {
                let t = func_type_indices(m)[idx as int];
                if m.types@.len() == 0 {
                    Err(Error::NoTypeSection)
                } else if t >= m.types@.len() {
                    Err(Error::MalformedModule)
                } else if m.types@[t as int].params@.len() != 0 || m.types@[t as int].return_type is Some {
                    Err(Error::InvalidCreateSignature)
                } else if idx < func_import_count(m) {
                    Err(Error::MalformedModule)
                } else {
                    Ok((idx - func_import_count(m)) as nat)
                }
            },
            _ => Err(Error::InvalidCreateMember),
        },
    }
}

pub open spec fn round_up_4(n: nat) -> nat {
    ((n + 3) / 4 * 4) as nat
}

/// Where the packed bytes go: after the last data segment, rounded up to a
/// multiple of 4, in that segment's memory; at 0 in memory 0 without one, or
/// where the last segment's offset is not a constant.
pub open spec fn code_location(data: Seq<DataSegment>) -> (u32, int) {
    if data.len() == 0 {
        (0, 0)
    } else {
        let last = data.last();
        if last.offset@.len() > 0 && last.offset@[0] is I32Const {
            (last.index, (last.offset@[0]->I32Const_0) + round_up_4(last.value@.len()))
        } else {
            (0, 0)
        }
    }
}

/// `m1` is `m` with the import `env.ret` added where no function import has
/// the field `ret`: a type `[i32, i32] -> []`, the import after the others,
/// and every function index from the new import on moved up by one.
pub open spec fn with_ret(m: Module, m1: Module, ret: Seq<char>) -> bool {
    if find_func_import(m.imports@, ret, 0, 0) is Some {
        m1 == m
    } else {
        exists|ms: Module|
            #[trigger] shifted_module(m, ms, func_import_count(m) as u32) && m1.types@.drop_last()
                == ms.types@ && m1.types@.len() == ms.types@.len() + 1 && m1.types@.last().params@
                == seq![ValueType::I32, ValueType::I32] && m1.types@.last().return_type is None
                && m1.imports@.drop_last() == ms.imports@ && m1.imports@.len() == ms.imports@.len()
                + 1 && m1.imports@.last().module@ == "env"@ && m1.imports@.last().field@ == ret
                && m1.imports@.last().external == External::Function(ms.types@.len() as u32)
                && m1.functions == ms.functions && m1.tables == ms.tables && m1.memories
                == ms.memories && m1.globals == ms.globals && m1.exports == ms.exports
                && m1.elements == ms.elements && m1.start == ms.start && m1.code == ms.code
                && m1.data == ms.data
    }
}

/// `m2` is `m1` with the raw module appended as a data segment and a new
/// function, exported under the runtime's name in place of the constructor,
/// that calls the constructor `deploy` and then `ret(offset, length)`.
pub open spec fn packed_from(m1: Module, m2: Module, raw: Seq<u8>, create: Seq<char>, call: Seq<char>, deploy: u32, ret: u32) -> bool {
    let (index, offset) = code_location(m1.data@);
    let f = functions_space(m1);
    &&& m2.types@.drop_last() == m1.types@
    &&& m2.types@.len() == m1.types@.len() + 1
    &&& m2.types@.last().params@.len() == 0
    &&& m2.types@.last().return_type is None
    &&& m2.imports == m1.imports
    &&& m2.functions@ == m1.functions@.push(m1.types@.len() as u32)
    &&& m2.tables == m1.tables
    &&& m2.memories == m1.memories
    &&& m2.globals == m1.globals
    &&& m2.elements == m1.elements
    &&& m2.start == m1.start
    &&& m2.code@.drop_last() == m1.code@
    &&& m2.code@.len() == m1.code@.len() + 1
    &&& m2.code@.last().locals@.len() == 0
    &&& m2.code@.last().code@ == seq![
        Instruction::Call(deploy),
        Instruction::I32Const(offset as i32),
        Instruction::I32Const(raw.len() as i32),
        Instruction::Call(ret),
        Instruction::End,
    ]
    &&& m2.data@.drop_last() == m1.data@
    &&& m2.data@.len() == m1.data@.len() + 1
    &&& m2.data@.last().index == index
    &&& m2.data@.last().offset@ == seq![Instruction::I32Const(offset as i32), Instruction::End]
    &&& m2.data@.last().value@ == raw
    &&& m2.exports@.len() == m1.exports@.len()
    &&& forall|i: int|
        0 <= i < m1.exports@.len() ==> if (#[trigger] m1.exports@[i]).field@ == create {
            m2.exports@[i].field@ == call && m2.exports@[i].internal == Internal::Function(f as u32)
        } else {
            m2.exports@[i] == m1.exports@[i]
        }
}

fn find_export_of(exports: &Vec<ExportEntry>, name: &String) -> (r: Option<usize>)
    ensures
        r matches Some(e) ==> find_export(exports@, name@, 0) == Some(e as nat) && e < exports@.len(),
        r is None ==> find_export(exports@, name@, 0) is None,
{
    let mut i: usize = 0;
    while i < exports.len()
        invariant
            i <= exports@.len(),
            find_export(exports@, name@, 0) == find_export(exports@, name@, i as int),
        decreases exports@.len() - i,
    {
        if exports[i].field == *name {
            return Some(i);
        }
        i = i + 1;
    }
    None
}

fn find_func_import_of(imports: &Vec<ImportEntry>, name: &String) -> (r: Option<u32>)
    requires
        imports@.len() <= u32::MAX,
    ensures
        r matches Some(k) ==> find_func_import(imports@, name@, 0, 0) == Some(k as nat),
        r is None ==> find_func_import(imports@, name@, 0, 0) is None,
{
    let mut i: usize = 0;
    let mut count: u32 = 0;
    while i < imports.len()
        invariant
            i <= imports@.len() <= u32::MAX,
            count <= i,
            find_func_import(imports@, name@, 0, 0) == find_func_import(
                imports@,
                name@,
                i as int,
                count as nat,
            ),
        decreases imports@.len() - i,
    {
        if let External::Function(_) = imports[i].external {
            if imports[i].field == *name {
                return Some(count);
            }
            count = count + 1;
        }
        i = i + 1;
    }
    None
}

fn create_index_of(m: &Module, create: &String) -> (r: Result<usize, Error>)
    requires
        m.imports@.len() <= u32::MAX,
    ensures
        match r {
            Ok(d) => create_index(*m, create@) == Ok::<nat, Error>(d as nat),
            Err(e) => create_index(*m, create@) == Err::<nat, Error>(e),
        },
{
    let e = match find_export_of(&m.exports, create) {
        Some(e) => e,
        None => {
            if m.exports.len() == 0 {
                return Err(Error::NoExportSection);
            }
            return Err(Error::NoCreateSymbol);
        },
    };
    let idx = match m.exports[e].internal {
        Internal::Function(idx) => idx,
        _ => return Err(Error::InvalidCreateMember),
    };
    let fic = func_import_count_of(m);
    if idx >= fic && m.functions.len() == 0 {
        return Err(Error::NoCodeSection);
    }
    let types_idx = function_type_indices(m);
    if idx as usize >= types_idx.len() {
        return Err(Error::MalformedModule);
    }
    let t = types_idx[idx as usize];
    if m.types.len() == 0 {
        return Err(Error::NoTypeSection);
    }
    if (t as usize) >= m.types.len() {
        return Err(Error::MalformedModule);
    }
    if m.types[t as usize].params.len() != 0 || m.types[t as usize].return_type.is_some() {
        return Err(Error::InvalidCreateSignature);
    }
    if idx < fic {
        return Err(Error::MalformedModule);
    }
    let d = (idx - fic) as usize;
    Ok(d)
}

/// Packs the runtime module `raw_module` into the constructor module
/// `ctor_module` for `target`.
///
/// Fails where the constructor is missing, is not a defined function of type
/// `() -> ()`, or where the bytes would not fit at a constant offset.
pub fn pack_instance(raw_module: Vec<u8>, ctor_module: Module, target: &TargetRuntime) -> (r: Result<
    Module,
    Error,
>)
    requires
        func_refs_below(ctor_module, functions_space(ctor_module)),
        functions_space(ctor_module) + 2 <= u32::MAX,
        ctor_module.types@.len() + 2 <= u32::MAX,
        ctor_module.imports@.len() < u32::MAX,
    ensures
        match create_index(ctor_module, target.spec_symbols().create@) {
            Err(e) => r == Err::<Module, Error>(e),
            Ok(d) => {
                let (_, offset) = code_location(ctor_module.data@);
                if offset > i32::MAX || raw_module@.len() > i32::MAX {
                    r == Err::<Module, Error>(Error::MalformedModule)
                } else {
                    let found = find_func_import(ctor_module.imports@, target.spec_symbols().ret@, 0, 0);
                    let fic = func_import_count(ctor_module);
                    let ret_id = match found {
                        Some(k) => k,
                        None => fic,
                    };
                    let deploy = d + fic + if found is Some { 0nat } else { 1nat };
                    r matches Ok(m2) && exists|m1: Module|
                        #[trigger] with_ret(ctor_module, m1, target.spec_symbols().ret@) && packed_from(
                            m1,
                            m2,
                            raw_module@,
                            target.spec_symbols().create@,
                            target.spec_symbols().call@,
                            deploy as u32,
                            ret_id as u32,
                        )
                }
            },
        },
{
    let symbols = target.symbols();
    let d = create_index_of(&ctor_module, &symbols.create)?;
    let fic = func_import_count_of(&ctor_module);
    proof {
        crate::elements::lemma_func_imports_bounded(ctor_module.imports@, ctor_module.imports@.len() as int);
    }
    let (index, offset): (u32, i128) = if ctor_module.data.len() == 0 {
        (0, 0)
    } else {
        let last = &ctor_module.data[ctor_module.data.len() - 1];
        if last.offset.len() > 0 {
            match last.offset[0] {
                Instruction::I32Const(off) => {
                    let len = last.value.len();
                    (last.index, off as i128 + ((len as i128 + 3) / 4 * 4))
                },
                _ => (0, 0),
            }
        } else {
            (0, 0)
        }
    };
    if offset > i32::MAX as i128 || raw_module.len() > (i32::MAX as usize) {
        return Err(Error::MalformedModule);
    }
    let ghost m0 = ctor_module;
    let (mut m, ret_id, deploy) = match find_func_import_of(&ctor_module.imports, &symbols.ret) {
        Some(k) => {
            let deploy = d as u32 + fic;
            (ctor_module, k, deploy)
        },
        None => {
            let mut m = shift_function_indices(ctor_module, fic);
            let ghost ms = m;
            let sig = m.types.len() as u32;
            m.types.push(FunctionType { params: vec![ValueType::I32, ValueType::I32], return_type: None });
            m.imports.push(
                ImportEntry {
                    module: "env".to_owned(),
                    field: symbols.ret.clone(),
                    external: External::Function(sig),
                },
            );
            proof {
                assert(m.types@.drop_last() =~= ms.types@);
                assert(m.imports@.drop_last() =~= ms.imports@);
                assert(m.types@.last().params@ =~= seq![ValueType::I32, ValueType::I32]);
                assert(shifted_module(m0, ms, func_import_count(m0) as u32));
                assert(with_ret(m0, m, target.spec_symbols().ret@));
                crate::elements::lemma_imports_push(ms.imports@, m.imports@.last());
                assert(m.imports@ == ms.imports@.push(m.imports@.last()));
            }
            let deploy = d as u32 + fic + 1;
            (m, fic, deploy)
        },
    };
    let ghost m1 = m;
    proof {
        assert(functions_space(m1) <= functions_space(m0) + 1);
    }
    let f = func_import_count_of(&m) + m.functions.len() as u32;
    m.data.push(
        DataSegment {
            index,
            offset: vec![Instruction::I32Const(offset as i32), Instruction::End],
            value: raw_module,
        },
    );
    let sig = m.types.len() as u32;
    m.types.push(FunctionType { params: Vec::new(), return_type: None });
    m.functions.push(sig);
    let len = m.data[m.data.len() - 1].value.len();
    m.code.push(
        FuncBody {
            locals: Vec::new(),
            code: vec![
                Instruction::Call(deploy),
                Instruction::I32Const(offset as i32),
                Instruction::I32Const(len as i32),
                Instruction::Call(ret_id),
                Instruction::End,
            ],
        },
    );
    let mut exports: Vec<ExportEntry> = Vec::new();
    std::mem::swap(&mut exports, &mut m.exports);
    let n = exports.len();
    let mut rev = crate::elements::reversed(exports);
    let mut out: Vec<ExportEntry> = Vec::new();
    let mut i: usize = 0;
    while i < n
        invariant
            n == m1.exports@.len(),
            i <= n,
            rev@.len() == n - i,
            forall|j: int| 0 <= j < rev@.len() ==> rev@[j] == m1.exports@[n - 1 - j],
            out@.len() == i,
            forall|j: int|
                0 <= j < i ==> if (#[trigger] m1.exports@[j]).field@ == symbols.create@ {
                    out@[j].field@ == symbols.call@ && out@[j].internal == Internal::Function(f)
                } else {
                    out@[j] == m1.exports@[j]
                },
        decreases n - i,
    {
        let e = rev.pop().unwrap();
        if e.field == symbols.create {
            out.push(ExportEntry { field: symbols.call.clone(), internal: Internal::Function(f) });
        } else {
            out.push(e);
        }
        i = i + 1;
    }
    m.exports = out;
    proof {
        assert(m.types@.drop_last() =~= m1.types@);
        assert(m.code@.drop_last() =~= m1.code@);
        assert(m.data@.drop_last() =~= m1.data@);
        assert(with_ret(m0, m1, target.spec_symbols().ret@));
        assert(packed_from(
            m1,
            m,
            m.data@.last().value@,
            target.spec_symbols().create@,
            target.spec_symbols().call@,
            deploy,
            ret_id,
        ));
    }
    Ok(m)
}

/// The result of packing: the constructor's export now has the runtime's
/// name and names a new last function; that function calls the constructor,
/// then `ret` with the offset and length of a new last data segment that
/// holds the raw module at the place after the last segment, rounded up to
/// a multiple of 4; no export keeps the constructor's name.
pub proof fn lemma_packed(ctor: Module, m2: Module, raw: Seq<u8>, create: Seq<char>, call: Seq<char>, ret: Seq<char>, deploy: u32, ret_id: u32)
    requires
        create != call,
        exists|m1: Module| #[trigger] with_ret(ctor, m1, ret) && packed_from(m1, m2, raw, create, call, deploy, ret_id),
    ensures
        ({
            let (index, offset) = code_location(ctor.data@);
            let added: nat = if find_func_import(ctor.imports@, ret, 0, 0) is Some { 0 } else { 1 };
            let f = functions_space(ctor) + added;
            &&& m2.code@.last().code@ == seq![
                Instruction::Call(deploy),
                Instruction::I32Const(offset as i32),
                Instruction::I32Const(raw.len() as i32),
                Instruction::Call(ret_id),
                Instruction::End,
            ]
            &&& m2.functions@.len() == ctor.functions@.len() + 1
            &&& m2.data@.last().value@ == raw
            &&& m2.data@.last().index == index
            &&& m2.data@.last().offset@ == seq![Instruction::I32Const(offset as i32), Instruction::End]
            &&& forall|i: int|
                0 <= i < m2.exports@.len() ==> ((#[trigger] m2.exports@[i]).field@ != create)
            &&& forall|i: int|
                0 <= i < ctor.exports@.len() && ctor.exports@[i].field@ == create ==> (#[trigger] m2.exports@[i]).field@ == call
                    && m2.exports@[i].internal == Internal::Function(f as u32)
        }),
{
    let m1 = choose|m1: Module| #[trigger] with_ret(ctor, m1, ret) && packed_from(m1, m2, raw, create, call, deploy, ret_id);
    if find_func_import(ctor.imports@, ret, 0, 0) is None {
        let ms = choose|ms: Module|
            #[trigger] shifted_module(ctor, ms, func_import_count(ctor) as u32) && m1.types@.drop_last()
                == ms.types@ && m1.types@.len() == ms.types@.len() + 1 && m1.types@.last().params@
                == seq![ValueType::I32, ValueType::I32] && m1.types@.last().return_type is None
                && m1.imports@.drop_last() == ms.imports@ && m1.imports@.len() == ms.imports@.len()
                + 1 && m1.imports@.last().module@ == "env"@ && m1.imports@.last().field@ == ret
                && m1.imports@.last().external == External::Function(ms.types@.len() as u32)
                && m1.functions == ms.functions && m1.tables == ms.tables && m1.memories
                == ms.memories && m1.globals == ms.globals && m1.exports == ms.exports
                && m1.elements == ms.elements && m1.start == ms.start && m1.code == ms.code
                && m1.data == ms.data;
        crate::elements::lemma_imports_push(ms.imports@, m1.imports@.last());
        assert(m1.imports@ == ms.imports@.push(m1.imports@.last()));
        assert forall|i: int| 0 <= i < ctor.exports@.len() implies m1.exports@[i].field == ctor.exports@[i].field by {
            assert(ms.exports@[i].field == ctor.exports@[i].field);
        }
    }
    assert forall|i: int| 0 <= i < m2.exports@.len() implies ((#[trigger] m2.exports@[i]).field@ != create) by {
        if m1.exports@[i].field@ == create {
            assert(m2.exports@[i].field@ == call);
        } else {
            assert(m2.exports@[i] == m1.exports@[i]);
        }
    }
}

} // verus!
