use wasm_devirt::ir::{
    Element, ElementKind, Export, ExportItem, Function, FunctionKind, InitExpr, Instr, LocalFunction,
    Module, Signature, Table, ValType,
};
use wasm_devirt::pipeline::{instrument, optimize};
use wasm_devirt::profilemap::{MapValue, Profile};

fn function(ty: usize, args: Vec<usize>, body: Vec<Instr>) -> Function {
    Function {
        name: None,
        kind: FunctionKind::Local(LocalFunction { ty, args, entry: 0, seqs: vec![body] }),
    }
}

fn frame(func: &Function) -> (usize, Vec<usize>) {
    match &func.kind {
        FunctionKind::Local(local) => (local.ty, local.args.clone()),
        FunctionKind::Import { .. } => panic!("not a local function"),
    }
}

fn sig(params: Vec<ValType>, results: Vec<ValType>) -> Signature {
    Signature { params, results }
}

/// Signature 0 is `() -> ()`, signature 1 is `(i64) -> i32`, signature 2 is
/// `(i64, i32, i32) -> i32`, which is what a stub for signature 1 takes.
/// Function 0 is `_start` and calls through both signatures; function 1
/// takes an `i64`, which is local 0, and calls itself; function 2 does
/// nothing. The table holds functions 1 and 2 from slot 0 on.
fn module() -> Module {
    Module {
        types: vec![
            sig(vec![], vec![]),
            sig(vec![ValType::I64], vec![ValType::I32]),
            sig(vec![ValType::I64, ValType::I32, ValType::I32], vec![ValType::I32]),
        ],
        funcs: vec![
            function(
                0,
                vec![],
                vec![
                    Instr::CallIndirect { ty: 1, table: 0 },
                    Instr::CallIndirect { ty: 0, table: 0 },
                ],
            ),
            function(1, vec![0], vec![Instr::Call { func: 1 }]),
            function(0, vec![], vec![]),
        ],
        imports: vec![],
        exports: vec![Export { name: String::from("_start"), item: ExportItem::Function(0) }],
        tables: vec![Table { funcref: true, segments: vec![0] }],
        elements: vec![Element {
            kind: ElementKind::Active { table: 0, offset: InitExpr::I32(0) },
            members: vec![Some(1), Some(2)],
        }],
        globals: vec![],
        locals: vec![ValType::I64],
    }
}

#[test]
fn an_instrumented_module_holds_the_signatures_it_had_and_those_that_its_stubs_lacked() {
    let mut m = module();
    instrument(&mut m).unwrap();
    // The stub for signature 1 finds its signature; that for signature 0
    // brings one.
    assert_eq!(
        m.types,
        vec![
            sig(vec![], vec![]),
            sig(vec![ValType::I64], vec![ValType::I32]),
            sig(vec![ValType::I64, ValType::I32, ValType::I32], vec![ValType::I32]),
            sig(vec![ValType::I32, ValType::I32], vec![]),
        ]
    );
}

#[test]
fn the_locals_of_an_instrumented_module_are_laid_out_stubs_then_flags_then_wrappers() {
    let mut m = module();
    let made = instrument(&mut m).unwrap();
    assert_eq!((made.first_stub, made.stub_count), (3, 2));
    // The entry function, function 1, which calls itself, and the stub that
    // could reach it are wrapped.
    assert_eq!(made.slowcalls, vec![0, 1, 3]);
    assert_eq!(made.first_wrapper, 5);
    assert_eq!(
        m.locals,
        vec![
            // What the module had.
            ValType::I64,
            // The arguments of the stub for signature 1.
            ValType::I64,
            ValType::I32,
            ValType::I32,
            // The arguments of the stub for signature 0.
            ValType::I32,
            ValType::I32,
            // One flag for each stub.
            ValType::I32,
            ValType::I32,
            // The argument of the wrapper of function 1.
            ValType::I64,
            // The arguments of the wrapper of the first stub.
            ValType::I64,
            ValType::I32,
            ValType::I32,
        ]
    );
    assert_eq!(frame(&m.funcs[3]), (2, vec![1, 2, 3]));
    assert_eq!(frame(&m.funcs[4]), (3, vec![4, 5]));
    assert_eq!(frame(&m.funcs[5]), (0, vec![]));
    assert_eq!(frame(&m.funcs[6]), (1, vec![8]));
    assert_eq!(frame(&m.funcs[7]), (2, vec![9, 10, 11]));
    // The flags are set in the stubs.
    let sets = |f: usize, local: usize| match &m.funcs[f].kind {
        FunctionKind::Local(l) => l.seqs.iter().any(|s| s.contains(&Instr::LocalSet { local })),
        FunctionKind::Import { .. } => false,
    };
    assert!(sets(3, 6));
    assert!(sets(4, 7));
}

#[test]
fn the_functions_that_a_module_had_keep_their_signatures_and_arguments() {
    let before = module();
    let mut m = module();
    instrument(&mut m).unwrap();
    for f in 0..before.funcs.len() {
        assert_eq!(frame(&m.funcs[f]), frame(&before.funcs[f]));
    }
}

#[test]
fn an_optimized_module_holds_one_stub_for_each_site_with_callees_in_the_order_of_the_sites() {
    let mut m = module();
    let mut profile = Profile::new();
    // The second site was seen first in the file; the order of the sites
    // decides.
    profile.insert(1, vec![1, 1, -1, -1, -1]);
    profile.insert(0, vec![0, -1, -1, -1, -1]);
    let made = optimize(&mut m, &profile).unwrap();
    assert_eq!((made.first_stub, made.stub_count), (3, 2));
    assert_eq!(made.decisions.get(0), Some(&MapValue::Direct(vec![3])));
    assert_eq!(made.decisions.get(1), Some(&MapValue::Direct(vec![4])));
    // Site 0 calls function 1, of signature 1; site 1 calls function 2, of
    // signature 0.
    assert_eq!(
        m.types,
        vec![
            sig(vec![], vec![]),
            sig(vec![ValType::I64], vec![ValType::I32]),
            sig(vec![ValType::I64, ValType::I32, ValType::I32], vec![ValType::I32]),
            sig(vec![ValType::I64, ValType::I32], vec![ValType::I32]),
            sig(vec![ValType::I32], vec![]),
        ]
    );
    assert_eq!(m.locals, vec![ValType::I64, ValType::I64, ValType::I32, ValType::I32]);
    assert_eq!(frame(&m.funcs[3]), (3, vec![1, 2]));
    assert_eq!(frame(&m.funcs[4]), (4, vec![3]));
}

#[test]
fn a_stub_takes_the_first_signature_of_its_kind() {
    let mut m = module();
    // A second signature like signature 2, further on.
    m.types.push(sig(vec![ValType::I64, ValType::I32, ValType::I32], vec![ValType::I32]));
    instrument(&mut m).unwrap();
    assert_eq!(frame(&m.funcs[3]).0, 2);
}
