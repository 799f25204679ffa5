use wasm_devirt::error::Error;
use wasm_devirt::fastcalls::{
    check_fastcall_deps, contains_slowcall, find_scan, slow_functions, FastCallScan, Verdict,
};
use wasm_devirt::ir::{
    Element, ElementKind, Export, ExportItem, Function, FunctionKind, Import, ImportKind, InitExpr,
    Instr, LocalFunction, Module, Signature, Table, ValType,
};
use wasm_devirt::scan::ScanContext;
use wasm_devirt::slowcalls::{
    compute_slowcalls, compute_slowcalls_with, scan_function, scan_functions,
};

fn scan(func: usize, is_fastcall: bool, deps: Vec<usize>) -> FastCallScan {
    FastCallScan { func, is_fastcall, deps, imports: vec![] }
}

fn local(ty: usize, body: Vec<Instr>) -> Function {
    Function {
        name: None,
        kind: FunctionKind::Local(LocalFunction { ty, args: vec![], entry: 0, seqs: vec![body] }),
    }
}

fn call(func: usize) -> Instr {
    Instr::Call { func }
}

fn import_named(name: &str, func: usize) -> Import {
    Import { module: String::from("env"), name: String::from(name), kind: ImportKind::Function(func) }
}

/// Functions: 0 import `host`, 1 import `fd_write`, 2 `_start`, then the
/// given bodies from id 3 on, all of signature 0. Signature 1 differs.
fn module(bodies: Vec<Vec<Instr>>, members: Vec<Option<usize>>) -> Module {
    let mut funcs = vec![
        Function { name: None, kind: FunctionKind::Import { ty: 0 } },
        Function { name: None, kind: FunctionKind::Import { ty: 0 } },
        local(0, vec![]),
    ];
    for body in bodies {
        funcs.push(local(0, body));
    }
    Module {
        types: vec![
            Signature { params: vec![], results: vec![] },
            Signature { params: vec![ValType::I32], results: vec![] },
        ],
        funcs,
        imports: vec![import_named("host", 0), import_named("fd_write", 1)],
        exports: vec![Export { name: String::from("_start"), item: ExportItem::Function(2) }],
        tables: vec![Table { funcref: true, segments: vec![0] }],
        elements: vec![Element {
            kind: ElementKind::Active { table: 0, offset: InitExpr::I32(0) },
            members,
        }],
        globals: vec![],
        locals: vec![],
    }
}

#[test]
fn a_function_that_calls_itself_is_a_slowcall() {
    // 3 is `h`, which calls itself; 4 calls `h`.
    let m = module(vec![vec![call(3)], vec![call(3)]], vec![]);
    assert!(m.is_well_formed());
    assert_eq!(compute_slowcalls(&m), Ok(vec![2, 3, 4]));
}

#[test]
fn a_function_that_calls_fastcalls_only_is_a_fastcall() {
    // 3 is `p`, which calls 4 and 5; 4 calls 5; 5 calls nothing.
    let m = module(vec![vec![call(4), call(5)], vec![call(5)], vec![Instr::Return]], vec![]);
    assert_eq!(compute_slowcalls(&m), Ok(vec![2]));
}

#[test]
fn the_entry_function_is_a_slowcall_whatever_it_holds() {
    let m = module(vec![], vec![]);
    assert_eq!(compute_slowcalls(&m), Ok(vec![2]));
    let ctx = ScanContext::new(&m, &vec![]).unwrap();
    let found = scan_function(&m, &ctx, 2);
    assert_eq!(found, FastCallScan { func: 2, is_fastcall: false, deps: vec![], imports: vec![] });
}

#[test]
fn a_call_of_an_import_that_is_not_benign_rules_out() {
    let m = module(vec![vec![call(0)], vec![call(3)]], vec![]);
    assert_eq!(compute_slowcalls(&m), Ok(vec![2, 3, 4]));
    let benign = vec![String::from("proc_exit"), String::from("fd_write")];
    let ctx = ScanContext::new(&m, &benign).unwrap();
    assert_eq!(ctx.start, 2);
    assert_eq!(ctx.poison, vec![true, false, false, false, false]);
    let found = scan_function(&m, &ctx, 3);
    assert_eq!(found, FastCallScan { func: 3, is_fastcall: false, deps: vec![], imports: vec![0] });
}

#[test]
fn a_call_of_a_benign_import_is_a_dependency_that_never_resolves() {
    let m = module(vec![vec![call(1), call(1)]], vec![]);
    let benign = vec![String::from("proc_exit"), String::from("fd_write")];
    let ctx = ScanContext::new(&m, &benign).unwrap();
    let found = scan_function(&m, &ctx, 3);
    assert_eq!(found, FastCallScan { func: 3, is_fastcall: true, deps: vec![1], imports: vec![] });
    assert_eq!(compute_slowcalls(&m), Ok(vec![2, 3]));
}

#[test]
fn the_benign_imports_are_the_callers_to_name() {
    let m = module(vec![vec![call(0)], vec![call(1)]], vec![]);
    let host_only = vec![String::from("host")];
    let ctx = ScanContext::new(&m, &host_only).unwrap();
    assert_eq!(ctx.poison, vec![false, true, false, false, false]);
    assert!(scan_function(&m, &ctx, 3).is_fastcall);
    assert!(!scan_function(&m, &ctx, 4).is_fastcall);
    assert_eq!(compute_slowcalls_with(&m, &host_only), Ok(vec![2, 3, 4]));
    assert_eq!(compute_slowcalls_with(&m, &vec![]), Ok(vec![2, 3, 4]));
}

#[test]
fn functions_that_call_each_other_are_slowcalls() {
    let m = module(vec![vec![call(4)], vec![call(3)], vec![]], vec![]);
    assert_eq!(compute_slowcalls(&m), Ok(vec![2, 3, 4]));
}

#[test]
fn slowness_spreads_to_every_caller() {
    // 3 -> 4 -> 5 -> 5; 6 -> 7; 7 calls nothing.
    let m = module(
        vec![vec![call(4)], vec![call(5)], vec![call(5)], vec![call(7)], vec![]],
        vec![],
    );
    assert_eq!(compute_slowcalls(&m), Ok(vec![2, 3, 4, 5]));
}

#[test]
fn an_indirect_call_depends_on_every_function_of_its_signature_in_the_table() {
    // 3 calls indirectly through signature 0; the table holds 4, 5 and the
    // import 0, all of signature 0.
    let mut m = module(
        vec![vec![Instr::CallIndirect { ty: 0, table: 0 }], vec![], vec![]],
        vec![Some(4), None, Some(5), Some(0), Some(4)],
    );
    let ctx = ScanContext::new(&m, &vec![]).unwrap();
    let found = scan_function(&m, &ctx, 3);
    assert_eq!(found, FastCallScan { func: 3, is_fastcall: true, deps: vec![4, 5, 0], imports: vec![] });
    assert_eq!(compute_slowcalls(&m), Ok(vec![2, 3]));
    m.elements[0].members = vec![Some(4), Some(5)];
    assert_eq!(compute_slowcalls(&m), Ok(vec![2]));
}

#[test]
fn an_indirect_call_goes_by_signatures_not_by_their_ids() {
    let mut m = module(vec![vec![Instr::CallIndirect { ty: 1, table: 0 }], vec![call(4)]], vec![Some(4)]);
    // Function 4 has signature 0, the call goes through signature 1.
    assert_eq!(compute_slowcalls(&m), Ok(vec![2, 4]));
    // A third signature equal to signature 1, and function 4 of that one.
    m.types.push(Signature { params: vec![ValType::I32], results: vec![] });
    m.funcs[4] = local(2, vec![call(4)]);
    assert_eq!(compute_slowcalls(&m), Ok(vec![2, 3, 4]));
}

#[test]
fn an_indirect_call_that_could_reach_its_own_function_rules_out() {
    let m = module(
        vec![vec![Instr::CallIndirect { ty: 0, table: 0 }], vec![]],
        vec![Some(4), Some(3)],
    );
    let ctx = ScanContext::new(&m, &vec![]).unwrap();
    let found = scan_function(&m, &ctx, 3);
    assert_eq!(found, FastCallScan { func: 3, is_fastcall: false, deps: vec![], imports: vec![] });
    assert_eq!(compute_slowcalls(&m), Ok(vec![2, 3]));
}

#[test]
fn a_scan_reads_nested_sequences_and_nothing_else() {
    let mut m = module(vec![vec![]], vec![]);
    m.funcs.push(local(0, vec![]));
    m.funcs[3] = Function {
        name: None,
        kind: FunctionKind::Local(LocalFunction {
            ty: 0,
            args: vec![],
            entry: 0,
            seqs: vec![vec![Instr::Block { seq: 2 }], vec![call(0)], vec![call(4), call(4)]],
        }),
    };
    let ctx = ScanContext::new(&m, &vec![]).unwrap();
    let found = scan_function(&m, &ctx, 3);
    assert_eq!(found, FastCallScan { func: 3, is_fastcall: true, deps: vec![4], imports: vec![] });
}

#[test]
fn every_local_function_is_scanned_in_order() {
    let m = module(vec![vec![call(4)], vec![]], vec![]);
    let ctx = ScanContext::new(&m, &vec![]).unwrap();
    let scans = scan_functions(&m, &ctx);
    assert_eq!(
        scans,
        vec![scan(2, false, vec![]), scan(3, true, vec![4]), scan(4, true, vec![])]
    );
}

#[test]
fn a_module_without_an_entry_function_cannot_be_classified() {
    let mut m = module(vec![vec![]], vec![]);
    m.exports.clear();
    assert_eq!(compute_slowcalls(&m), Err(Error::MissingStart));
    m.exports.push(Export { name: String::from("start"), item: ExportItem::Function(2) });
    m.exports.push(Export { name: String::from("_start"), item: ExportItem::Other });
    assert_eq!(compute_slowcalls(&m), Err(Error::MissingStart));
    assert_eq!(m.start_function(), None);
    m.exports.push(Export { name: String::from("_start"), item: ExportItem::Function(3) });
    assert_eq!(m.start_function(), Some(3));
    assert_eq!(compute_slowcalls(&m), Ok(vec![3]));
}

#[test]
fn a_module_without_a_table_has_no_indirect_targets() {
    let mut m = module(vec![vec![Instr::CallIndirect { ty: 0, table: 0 }]], vec![Some(2)]);
    assert_eq!(compute_slowcalls(&m), Ok(vec![2, 3]));
    m.tables[0].funcref = false;
    assert_eq!(compute_slowcalls(&m), Ok(vec![2]));
}

#[test]
fn slow_functions_lists_what_is_not_shown_to_be_fast() {
    let scans = vec![
        scan(1, true, vec![]),
        scan(2, false, vec![]),
        scan(4, true, vec![1]),
        scan(5, true, vec![4, 2]),
        scan(7, true, vec![8]),
        scan(8, true, vec![7]),
        scan(9, true, vec![3]),
        scan(11, true, vec![4, 1]),
    ];
    assert_eq!(slow_functions(&scans), vec![2, 5, 7, 8, 9]);
}

#[test]
fn slow_functions_gives_the_same_list_each_time() {
    let scans = vec![scan(0, true, vec![3]), scan(3, true, vec![6]), scan(6, false, vec![])];
    let first = slow_functions(&scans);
    let second = slow_functions(&scans);
    assert_eq!(first, vec![0, 3, 6]);
    assert_eq!(first, second);
}

#[test]
fn slow_functions_of_nothing_is_nothing() {
    assert_eq!(slow_functions(&vec![]), Vec::<usize>::new());
}

#[test]
fn find_scan_finds_by_function() {
    let scans = vec![scan(1, true, vec![]), scan(4, true, vec![]), scan(6, true, vec![])];
    assert_eq!(find_scan(&scans, 1), Some(0));
    assert_eq!(find_scan(&scans, 4), Some(1));
    assert_eq!(find_scan(&scans, 6), Some(2));
    assert_eq!(find_scan(&scans, 0), None);
    assert_eq!(find_scan(&scans, 5), None);
    assert_eq!(find_scan(&scans, 7), None);
}

#[test]
fn dependencies_are_judged_by_the_verdicts_as_they_stand() {
    let scans = vec![scan(1, true, vec![]), scan(2, false, vec![]), scan(3, true, vec![])];
    let verdicts = vec![Verdict::Fast, Verdict::Slow, Verdict::Unknown];
    assert!(contains_slowcall(&scan(9, true, vec![1, 2]), &scans, &verdicts));
    assert!(!contains_slowcall(&scan(9, true, vec![1, 3, 8]), &scans, &verdicts));
    assert!(!contains_slowcall(&scan(9, true, vec![]), &scans, &verdicts));
    assert!(check_fastcall_deps(&scan(9, true, vec![1, 1]), &scans, &verdicts));
    assert!(check_fastcall_deps(&scan(9, true, vec![]), &scans, &verdicts));
    assert!(!check_fastcall_deps(&scan(9, true, vec![1, 3]), &scans, &verdicts));
    assert!(!check_fastcall_deps(&scan(9, true, vec![8]), &scans, &verdicts));
}
