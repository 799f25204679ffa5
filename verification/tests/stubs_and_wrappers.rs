use wasm_devirt::calltypes::TypeScan;
use wasm_devirt::error::Error;
use wasm_devirt::idmap::IdMap;
use wasm_devirt::instrument::{generate_stubs, instrument_stubs, specialize_stubs};
use wasm_devirt::ir::{
    BinaryOp, Function, FunctionKind, Global, GlobalKind, InitExpr, Instr, LocalFunction, Module,
    Signature, Table, ValType,
};
use wasm_devirt::profilemap::{MapValue, Profile};
use wasm_devirt::wrap::{generate_slowcall_stubs, CallScanner};

fn local(ty: usize, args: Vec<usize>, seqs: Vec<Vec<Instr>>) -> Function {
    Function { name: None, kind: FunctionKind::Local(LocalFunction { ty, args, entry: 0, seqs }) }
}

fn as_local(func: &Function) -> &LocalFunction {
    match &func.kind {
        FunctionKind::Local(local) => local,
        FunctionKind::Import { .. } => panic!("not a local function"),
    }
}

fn indirect(ty: usize, table: usize) -> Instr {
    Instr::CallIndirect { ty, table }
}

fn call(func: usize) -> Instr {
    Instr::Call { func }
}

fn module() -> Module {
    Module {
        types: vec![
            Signature { params: vec![ValType::I64, ValType::F32], results: vec![ValType::F64] },
            Signature { params: vec![], results: vec![] },
        ],
        funcs: vec![
            local(0, vec![0, 1], vec![vec![indirect(1, 0), indirect(0, 1), indirect(1, 0)]]),
            Function { name: Some(String::from("host")), kind: FunctionKind::Import { ty: 1 } },
            local(1, vec![], vec![vec![call(0), call(2), call(1), Instr::Block { seq: 1 }], vec![call(0)]]),
        ],
        imports: vec![],
        exports: vec![],
        tables: vec![
            Table { funcref: true, segments: vec![] },
            Table { funcref: true, segments: vec![] },
        ],
        elements: vec![],
        globals: vec![Global { ty: ValType::I32, mutable: true, kind: GlobalKind::Local(InitExpr::I32(0)) }],
        locals: vec![ValType::I64, ValType::F32],
    }
}

#[test]
fn call_types_are_listed_once_in_the_order_they_are_met() {
    let m = module();
    assert_eq!(m.collect_call_types(), vec![(1, 0), (0, 1)]);
    let mut scan = TypeScan::new();
    scan.visit_instr(indirect(4, 2));
    scan.visit_instr(call(1));
    scan.visit_instr(indirect(4, 2));
    assert_eq!(scan.ty, vec![(4, 2), (4, 2)]);
}

#[test]
fn stubs_for_indirect_calls_take_two_more_integers() {
    let mut m = module();
    let mut stubs: IdMap<usize> = IdMap::new();
    assert_eq!(instrument_stubs(&mut m, &vec![(1, 0), (0, 1)], &mut stubs), Ok(()));
    assert!(m.is_well_formed());
    assert_eq!(stubs.get(1), Some(&3));
    assert_eq!(stubs.get(0), Some(&4));
    assert_eq!(m.funcs.len(), 5);
    assert_eq!(m.funcs[3].name, Some(String::from("indirect_stub_0")));
    assert_eq!(m.funcs[4].name, Some(String::from("indirect_stub_1")));
    let first = as_local(&m.funcs[3]);
    assert_eq!(m.types[first.ty], Signature { params: vec![ValType::I32, ValType::I32], results: vec![] });
    assert_eq!(first.args, vec![2, 3]);
    assert_eq!(first.seqs, vec![vec![Instr::LocalGet { local: 2 }, indirect(1, 0)]]);
    let second = as_local(&m.funcs[4]);
    assert_eq!(
        m.types[second.ty],
        Signature {
            params: vec![ValType::I64, ValType::F32, ValType::I32, ValType::I32],
            results: vec![ValType::F64]
        }
    );
    assert_eq!(second.args, vec![4, 5, 6, 7]);
    assert_eq!(
        second.seqs,
        vec![vec![
            Instr::LocalGet { local: 4 },
            Instr::LocalGet { local: 5 },
            Instr::LocalGet { local: 6 },
            indirect(0, 1),
        ]]
    );
    assert_eq!(
        m.locals,
        vec![
            ValType::I64,
            ValType::F32,
            ValType::I32,
            ValType::I32,
            ValType::I64,
            ValType::F32,
            ValType::I32,
            ValType::I32,
        ]
    );
}

#[test]
fn a_stub_reuses_a_signature_that_the_module_has() {
    let mut m = module();
    m.types.push(Signature { params: vec![ValType::I32, ValType::I32], results: vec![] });
    let mut stubs: IdMap<usize> = IdMap::new();
    assert_eq!(instrument_stubs(&mut m, &vec![(1, 0)], &mut stubs), Ok(()));
    assert_eq!(as_local(&m.funcs[3]).ty, 2);
    assert_eq!(m.types.len(), 3);
}

#[test]
fn a_later_pair_of_the_same_signature_takes_the_place_of_an_earlier_one() {
    let mut m = module();
    let mut stubs: IdMap<usize> = IdMap::new();
    stubs.insert(9, 0);
    assert_eq!(instrument_stubs(&mut m, &vec![(1, 0), (1, 1)], &mut stubs), Ok(()));
    assert_eq!(stubs.get(1), Some(&4));
    assert_eq!(stubs.get(9), Some(&0));
    assert_eq!(stubs.len(), 2);
    assert_eq!(as_local(&m.funcs[4]).seqs[0][1], indirect(1, 1));
}

#[test]
fn generate_stubs_makes_the_stubs_of_the_mode() {
    let mut m = module();
    let mut stubs: IdMap<usize> = IdMap::new();
    let mut decisions: IdMap<MapValue> = IdMap::new();
    let pairs = m.collect_call_types();
    assert_eq!(generate_stubs(&mut m, &pairs, &mut stubs, &mut decisions, &None, false), Ok(()));
    assert_eq!(m.funcs.len(), 5);
    assert_eq!(stubs.len(), 2);
    assert_eq!(decisions.len(), 0);

    let mut m = module();
    let mut stubs: IdMap<usize> = IdMap::new();
    let mut decisions: IdMap<MapValue> = IdMap::new();
    decisions.insert(4, MapValue::Direct(vec![2, 1]));
    decisions.insert(1, MapValue::Unreachable);
    decisions.insert(6, MapValue::Direct(vec![0]));
    decisions.insert(5, MapValue::Retain);
    let mut profile = Profile::new();
    profile.insert(4, vec![-1, 30, 20]);
    profile.insert(6, vec![11]);
    let profile = Some(profile);
    assert_eq!(generate_stubs(&mut m, &vec![], &mut stubs, &mut decisions, &profile, true), Ok(()));
    assert!(m.is_well_formed());
    assert_eq!(stubs.len(), 0);
    assert_eq!(m.funcs.len(), 5);
    assert_eq!(decisions.get(1), Some(&MapValue::Unreachable));
    assert_eq!(decisions.get(4), Some(&MapValue::Direct(vec![3])));
    assert_eq!(decisions.get(5), Some(&MapValue::Retain));
    assert_eq!(decisions.get(6), Some(&MapValue::Direct(vec![4])));
    assert_eq!(m.funcs[3].name, Some(String::from("indirect_call_stub_0")));
    assert_eq!(m.funcs[4].name, Some(String::from("indirect_call_stub_1")));
    let first = as_local(&m.funcs[3]);
    assert_eq!(m.types[first.ty], Signature { params: vec![ValType::I32], results: vec![] });
    assert_eq!(first.args, vec![2]);
    assert_eq!(
        first.seqs,
        vec![
            vec![Instr::Block { seq: 4 }, Instr::Block { seq: 1 }, Instr::Unreachable],
            vec![
                Instr::Const { value: 30 },
                Instr::LocalGet { local: 2 },
                Instr::Binop { op: BinaryOp::I32Eq },
                Instr::IfElse { consequent: 2, alternative: 3 },
            ],
            vec![call(2), Instr::Return],
            vec![],
            vec![
                Instr::Const { value: 20 },
                Instr::LocalGet { local: 2 },
                Instr::Binop { op: BinaryOp::I32Eq },
                Instr::IfElse { consequent: 5, alternative: 6 },
            ],
            vec![call(1), Instr::Return],
            vec![],
        ]
    );
    let second = as_local(&m.funcs[4]);
    assert_eq!(
        m.types[second.ty],
        Signature { params: vec![ValType::I64, ValType::F32, ValType::I32], results: vec![ValType::F64] }
    );
    assert_eq!(second.args, vec![3, 4, 5]);
    assert_eq!(
        second.seqs[2],
        vec![Instr::LocalGet { local: 3 }, Instr::LocalGet { local: 4 }, call(0), Instr::Return]
    );
}

#[test]
fn without_a_profile_there_is_no_stub_to_specialize() {
    let mut m = module();
    let before = m.clone();
    let mut stubs: IdMap<usize> = IdMap::new();
    let mut decisions: IdMap<MapValue> = IdMap::new();
    decisions.insert(0, MapValue::Retain);
    decisions.insert(1, MapValue::Unreachable);
    assert_eq!(generate_stubs(&mut m, &vec![], &mut stubs, &mut decisions, &None, true), Ok(()));
    assert_eq!(m, before);
    assert_eq!(stubs.len(), 0);
    assert_eq!(decisions.get(0), Some(&MapValue::Retain));
    assert_eq!(decisions.get(1), Some(&MapValue::Unreachable));
    assert_eq!(decisions.len(), 2);
}

#[test]
fn specialize_stubs_fails_before_it_changes_anything() {
    let mut m = module();
    let before = m.clone();
    let mut decisions: IdMap<MapValue> = IdMap::new();
    decisions.insert(0, MapValue::Direct(vec![1]));
    decisions.insert(1, MapValue::Direct(vec![2, 0]));
    let mut profile = Profile::new();
    profile.insert(0, vec![5]);
    profile.insert(1, vec![5, 6]);
    assert_eq!(specialize_stubs(&mut m, &mut decisions, &profile), Err(Error::TypeMismatch));
    assert_eq!(m, before);
    assert_eq!(decisions.get(0), Some(&MapValue::Direct(vec![1])));
}

#[test]
fn a_scanner_redirects_calls_of_wrapped_functions_outside_the_wrapper() {
    let mut mapping: IdMap<usize> = IdMap::new();
    mapping.insert(3, 8);
    mapping.insert(5, 9);
    let scanner = CallScanner { mapping, curr_func: 9 };
    let mut instr = call(3);
    scanner.visit_instr(&mut instr);
    assert_eq!(instr, call(8));
    let mut instr = call(5);
    scanner.visit_instr(&mut instr);
    assert_eq!(instr, call(5));
    let mut instr = call(4);
    scanner.visit_instr(&mut instr);
    assert_eq!(instr, call(4));
    let mut instr = indirect(3, 0);
    scanner.visit_instr(&mut instr);
    assert_eq!(instr, indirect(3, 0));
    let mut seq = vec![call(5), Instr::Return, call(3), call(8)];
    scanner.visit_seq(&mut seq);
    assert_eq!(seq, vec![call(5), Instr::Return, call(8), call(8)]);
}

#[test]
fn every_slowcall_gets_a_wrapper_and_its_callers_call_the_wrapper() {
    let mut m = module();
    generate_slowcall_stubs(&mut m, &vec![0, 2], 0);
    assert!(m.is_well_formed());
    assert_eq!(m.funcs.len(), 5);
    assert_eq!(m.funcs[3].name, Some(String::from("slowcall_stub_0")));
    assert_eq!(m.funcs[4].name, Some(String::from("slowcall_stub_1")));
    let count = vec![
        Instr::GlobalGet { global: 0 },
        Instr::Const { value: 1 },
        Instr::Binop { op: BinaryOp::I32Add },
        Instr::GlobalSet { global: 0 },
    ];
    let first = as_local(&m.funcs[3]);
    assert_eq!(first.ty, 0);
    assert_eq!(first.args, vec![2, 3]);
    let mut body = count.clone();
    body.extend(vec![Instr::LocalGet { local: 2 }, Instr::LocalGet { local: 3 }, call(0)]);
    assert_eq!(first.seqs, vec![body]);
    let second = as_local(&m.funcs[4]);
    assert_eq!(second.ty, 1);
    assert_eq!(second.args, Vec::<usize>::new());
    let mut body = count.clone();
    body.push(call(2));
    assert_eq!(second.seqs, vec![body]);
    assert_eq!(m.locals, vec![ValType::I64, ValType::F32, ValType::I64, ValType::F32]);
    // Function 2 called functions 0, 2 and 1, and function 0 again in a
    // nested sequence: the calls of 0 and of 2 itself now reach the
    // wrappers, that of the import stays.
    assert_eq!(
        as_local(&m.funcs[2]).seqs,
        vec![vec![call(3), call(4), call(1), Instr::Block { seq: 1 }], vec![call(3)]]
    );
    assert_eq!(
        as_local(&m.funcs[0]).seqs,
        vec![vec![indirect(1, 0), indirect(0, 1), indirect(1, 0)]]
    );
}

#[test]
fn wrapping_nothing_changes_nothing() {
    let mut m = module();
    let before = m.clone();
    generate_slowcall_stubs(&mut m, &vec![], 0);
    assert_eq!(m, before);
}
