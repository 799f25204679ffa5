use wasm_devirt::ir::{
    Element, ElementKind, Export, ExportItem, Function, FunctionKind, Import, ImportKind, InitExpr,
    Instr, LocalFunction, Module, Signature, Table, ValType,
};
use wasm_devirt::pipeline::instrument;
use wasm_devirt::slowcalls::compute_slowcalls;

fn plain(body: Vec<Instr>) -> Function {
    Function {
        name: None,
        kind: FunctionKind::Local(LocalFunction { ty: 0, args: vec![], entry: 0, seqs: vec![body] }),
    }
}

fn through(ty: usize) -> Instr {
    Instr::CallIndirect { ty, table: 0 }
}

/// Functions: 0 the import `host`, 1 `_start`, then the given bodies from
/// id 2 on, all of signature 0. Signature 1 takes an integer.
fn program(bodies: Vec<Vec<Instr>>, members: Vec<Option<usize>>) -> Module {
    let mut funcs = vec![Function { name: None, kind: FunctionKind::Import { ty: 0 } }, plain(vec![])];
    for body in bodies {
        funcs.push(plain(body));
    }
    Module {
        types: vec![
            Signature { params: vec![], results: vec![] },
            Signature { params: vec![ValType::I32], results: vec![] },
        ],
        funcs,
        imports: vec![Import {
            module: String::from("env"),
            name: String::from("host"),
            kind: ImportKind::Function(0),
        }],
        exports: vec![Export { name: String::from("_start"), item: ExportItem::Function(1) }],
        tables: vec![Table { funcref: true, segments: vec![0] }],
        elements: vec![Element {
            kind: ElementKind::Active { table: 0, offset: InitExpr::I32(0) },
            members,
        }],
        globals: vec![],
        locals: vec![],
    }
}

/// The slowcalls of the instrumented module: those among the functions that
/// the module had, and the stubs among them.
fn slowcalls_when_instrumented(module: &Module) -> (Vec<usize>, Vec<usize>) {
    let mut m = module.clone();
    let first = m.funcs.len();
    let made = instrument(&mut m).unwrap();
    assert_eq!(made.first_stub, first);
    let had = made.slowcalls.iter().copied().filter(|&f| f < first).collect();
    let stubs = made.slowcalls.iter().copied().filter(|&f| f >= first).collect();
    (had, stubs)
}

#[test]
fn a_function_keeps_its_verdict_when_its_indirect_call_moves_into_a_stub() {
    // 2 calls through signature 0 and could reach 3, a fastcall; 4 calls 2.
    let m = program(vec![vec![through(0)], vec![], vec![Instr::Call { func: 2 }]], vec![Some(3)]);
    assert_eq!(compute_slowcalls(&m), Ok(vec![1]));
    assert_eq!(slowcalls_when_instrumented(&m), (vec![1], vec![]));
}

#[test]
fn a_function_that_its_own_indirect_call_could_reach_stays_a_slowcall() {
    // The table holds 2 itself, so the stub's call could come back to it.
    let m = program(
        vec![vec![through(0)], vec![], vec![Instr::Call { func: 2 }]],
        vec![Some(3), Some(2)],
    );
    assert_eq!(compute_slowcalls(&m), Ok(vec![1, 2, 4]));
    assert_eq!(slowcalls_when_instrumented(&m), (vec![1, 2, 4], vec![5]));
}

#[test]
fn a_stub_is_a_slowcall_if_its_call_could_reach_a_function_that_is_none_of_the_fastcalls() {
    // The table holds the import, which is no local function.
    let m = program(vec![vec![through(0)], vec![]], vec![Some(3), Some(0)]);
    assert_eq!(compute_slowcalls(&m), Ok(vec![1, 2]));
    assert_eq!(slowcalls_when_instrumented(&m), (vec![1, 2], vec![4]));
    // The entry function is in the table: the stub could reach it.
    let m = program(vec![vec![through(0)], vec![]], vec![Some(1)]);
    assert_eq!(compute_slowcalls(&m), Ok(vec![1, 2]));
    assert_eq!(slowcalls_when_instrumented(&m), (vec![1, 2], vec![4]));
}

#[test]
fn a_stub_whose_call_reaches_nothing_is_a_fastcall() {
    // No function in the table has signature 1.
    let m = program(vec![vec![through(1)], vec![Instr::Call { func: 2 }]], vec![Some(3), Some(0)]);
    assert_eq!(compute_slowcalls(&m), Ok(vec![1]));
    assert_eq!(slowcalls_when_instrumented(&m), (vec![1], vec![]));
}

#[test]
fn stubs_of_two_signatures_are_judged_each_by_what_it_could_reach() {
    // 2 calls through signature 1 and 4 through signature 0; the table
    // holds 3 of signature 0, which calls itself, and nothing of
    // signature 1.
    let m = program(
        vec![vec![through(1)], vec![Instr::Call { func: 3 }], vec![through(0)]],
        vec![Some(3)],
    );
    assert_eq!(compute_slowcalls(&m), Ok(vec![1, 3, 4]));
    // Stub 5 serves signature 1, stub 6 signature 0.
    assert_eq!(slowcalls_when_instrumented(&m), (vec![1, 3, 4], vec![6]));
}
