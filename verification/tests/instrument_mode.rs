use wasm_devirt::error::Error;
use wasm_devirt::ir::{
    BinaryOp, Element, ElementKind, Export, ExportItem, Function, FunctionKind, Global, GlobalKind,
    InitExpr, Instr, LocalFunction, Module, Signature, Table, ValType,
};
use wasm_devirt::pipeline::{instrument, instrument_call_sites};
use wasm_devirt::wiring::Slot;

fn local(ty: usize, seqs: Vec<Vec<Instr>>) -> Function {
    Function { name: None, kind: FunctionKind::Local(LocalFunction { ty, args: vec![], entry: 0, seqs }) }
}

fn body(func: &Function) -> &Vec<Vec<Instr>> {
    match &func.kind {
        FunctionKind::Local(local) => &local.seqs,
        FunctionKind::Import { .. } => panic!("an import has no body"),
    }
}

fn as_local(func: &Function) -> &LocalFunction {
    match &func.kind {
        FunctionKind::Local(local) => local,
        FunctionKind::Import { .. } => panic!("not a local function"),
    }
}

fn indirect(ty: usize) -> Instr {
    Instr::CallIndirect { ty, table: 0 }
}

fn observation_global() -> Global {
    Global { ty: ValType::I32, mutable: true, kind: GlobalKind::Local(InitExpr::I32(-1)) }
}

fn export(name: &str, item: ExportItem) -> Export {
    Export { name: String::from(name), item }
}

/// One function `f` of signature `() -> i32` with a single indirect call
/// through that signature, exported as `_start`; the table is empty.
fn single_site() -> Module {
    Module {
        types: vec![Signature { params: vec![], results: vec![ValType::I32] }],
        funcs: vec![local(0, vec![vec![Instr::Const { value: 3 }, indirect(0)]])],
        imports: vec![],
        exports: vec![export("_start", ExportItem::Function(0))],
        tables: vec![Table { funcref: true, segments: vec![0] }],
        elements: vec![Element {
            kind: ElementKind::Active { table: 0, offset: InitExpr::I32(0) },
            members: vec![],
        }],
        globals: vec![],
        locals: vec![],
    }
}

#[test]
fn a_single_site_goes_through_one_stub() {
    let mut m = single_site();
    assert!(m.is_well_formed());
    let made = instrument(&mut m).unwrap();
    assert!(m.is_well_formed());
    assert_eq!(made.sites, 1);
    assert_eq!(made.first_stub, 1);
    assert_eq!(made.stub_count, 1);
    assert_eq!(made.stubs.get(0), Some(&1));
    assert_eq!(made.stubs.len(), 1);
    assert_eq!(
        body(&m.funcs[0]),
        &vec![vec![Instr::Const { value: 3 }, Instr::Const { value: 0 }, Instr::Call { func: 1 }]]
    );
    assert_eq!(m.funcs[1].name, Some(String::from("indirect_stub_0")));
}

#[test]
fn the_stub_takes_the_slot_and_the_site_and_returns_the_same() {
    let mut m = single_site();
    instrument(&mut m).unwrap();
    let stub = as_local(&m.funcs[1]);
    assert_eq!(
        m.types[stub.ty],
        Signature { params: vec![ValType::I32, ValType::I32], results: vec![ValType::I32] }
    );
    assert_eq!(stub.ty, 1);
    assert_eq!(stub.args, vec![0, 1]);
    assert_eq!(m.locals, vec![ValType::I32, ValType::I32, ValType::I32]);
}

#[test]
fn the_observation_state_is_exported() {
    let mut m = single_site();
    let made = instrument(&mut m).unwrap();
    assert_eq!(made.counter, 5);
    assert_eq!(
        made.slots,
        vec![
            Slot { site: 0, index: 0, global: 0 },
            Slot { site: 0, index: 1, global: 1 },
            Slot { site: 0, index: 2, global: 2 },
            Slot { site: 0, index: 3, global: 3 },
            Slot { site: 0, index: 4, global: 4 },
        ]
    );
    assert_eq!(m.globals, vec![observation_global(); 6]);
    assert_eq!(
        m.exports,
        vec![
            export("_start", ExportItem::Function(0)),
            export("slowcalls", ExportItem::Global(5)),
            export("profiling_global_0_0", ExportItem::Global(0)),
            export("profiling_global_0_1", ExportItem::Global(1)),
            export("profiling_global_0_2", ExportItem::Global(2)),
            export("profiling_global_0_3", ExportItem::Global(3)),
            export("profiling_global_0_4", ExportItem::Global(4)),
        ]
    );
}

#[test]
fn the_stub_counts_the_call_and_walks_the_window_before_it_calls_through() {
    let mut m = single_site();
    instrument(&mut m).unwrap();
    let stub = as_local(&m.funcs[1]);
    assert_eq!(stub.entry, 0);
    assert_eq!(stub.seqs.len(), 28);
    assert_eq!(
        stub.seqs[0],
        vec![
            Instr::Block { seq: 1 },
            Instr::Block { seq: 2 },
            Instr::LocalGet { local: 0 },
            indirect(0),
        ]
    );
    assert_eq!(
        stub.seqs[1],
        vec![
            Instr::GlobalGet { global: 5 },
            Instr::Const { value: 1 },
            Instr::Binop { op: BinaryOp::I32Add },
            Instr::GlobalSet { global: 5 },
        ]
    );
    assert_eq!(
        stub.seqs[2],
        vec![
            Instr::Block { seq: 3 },
            Instr::Block { seq: 8 },
            Instr::Block { seq: 13 },
            Instr::Block { seq: 18 },
            Instr::Block { seq: 23 },
        ]
    );
    for k in 0..5 {
        let at = 3 + 5 * k;
        assert_eq!(
            stub.seqs[at],
            vec![
                Instr::LocalGet { local: 1 },
                Instr::Const { value: 0 },
                Instr::Binop { op: BinaryOp::I32Eq },
                Instr::IfElse { consequent: at + 1, alternative: at + 4 },
            ]
        );
        assert_eq!(
            stub.seqs[at + 1],
            vec![
                Instr::GlobalGet { global: k },
                Instr::Const { value: -1 },
                Instr::Binop { op: BinaryOp::I32Eq },
                Instr::GlobalGet { global: k },
                Instr::LocalGet { local: 0 },
                Instr::Binop { op: BinaryOp::I32Eq },
                Instr::Binop { op: BinaryOp::I32Or },
                Instr::IfElse { consequent: at + 2, alternative: at + 3 },
            ]
        );
        assert_eq!(
            stub.seqs[at + 2],
            vec![
                Instr::LocalGet { local: 0 },
                Instr::GlobalSet { global: k },
                Instr::Const { value: 1 },
                Instr::LocalSet { local: 2 },
                Instr::Br { block: 2 },
            ]
        );
        assert_eq!(stub.seqs[at + 3], vec![]);
        assert_eq!(stub.seqs[at + 4], vec![]);
    }
}

#[test]
fn the_entry_function_is_wrapped() {
    let mut m = single_site();
    let made = instrument(&mut m).unwrap();
    assert_eq!(made.slowcalls, vec![0]);
    assert_eq!(made.first_wrapper, 2);
    assert_eq!(made.fastcalls, 1);
    assert_eq!(m.funcs.len(), 3);
    assert_eq!(m.funcs[2].name, Some(String::from("slowcall_stub_0")));
    let wrapper = as_local(&m.funcs[2]);
    assert_eq!(wrapper.ty, 0);
    assert_eq!(wrapper.args, Vec::<usize>::new());
    assert_eq!(
        wrapper.seqs,
        vec![vec![
            Instr::GlobalGet { global: 5 },
            Instr::Const { value: 1 },
            Instr::Binop { op: BinaryOp::I32Add },
            Instr::GlobalSet { global: 5 },
            Instr::Call { func: 0 },
        ]]
    );
}

/// Two functions with sites in nested sequences, one function without any,
/// and two signatures.
fn nested_sites() -> Module {
    let first = local(
        0,
        vec![
            vec![
                Instr::Block { seq: 1 },
                indirect(0),
                Instr::IfElse { consequent: 2, alternative: 3 },
                indirect(1),
            ],
            vec![indirect(1)],
            vec![indirect(0), Instr::Other { handle: 9 }, indirect(0)],
            vec![],
        ],
    );
    let none = local(0, vec![vec![Instr::Call { func: 0 }]]);
    let second = local(1, vec![vec![Instr::LocalGet { local: 0 }, indirect(1), Instr::Return]]);
    Module {
        types: vec![
            Signature { params: vec![], results: vec![] },
            Signature { params: vec![ValType::I64], results: vec![ValType::I64] },
        ],
        funcs: vec![first, none, second],
        imports: vec![],
        exports: vec![],
        tables: vec![Table { funcref: true, segments: vec![] }],
        elements: vec![],
        globals: vec![observation_global()],
        locals: vec![ValType::I64],
    }
}

#[test]
fn every_site_becomes_its_index_and_the_call_of_its_stub() {
    let mut m = nested_sites();
    assert!(m.is_well_formed());
    let made = instrument_call_sites(&mut m).unwrap();
    assert!(m.is_well_formed());
    assert_eq!(made.sites, 6);
    // Signature 0 was met first, so its stub is function 3, that of
    // signature 1 function 4.
    assert_eq!(made.first_stub, 3);
    assert_eq!(made.stub_count, 2);
    assert_eq!(made.stubs.get(0), Some(&3));
    assert_eq!(made.stubs.get(1), Some(&4));
    let to = |stub: usize| Instr::Call { func: stub };
    let index = |site: i32| Instr::Const { value: site };
    assert_eq!(
        body(&m.funcs[0]),
        &vec![
            vec![
                Instr::Block { seq: 1 },
                index(0),
                to(3),
                Instr::IfElse { consequent: 2, alternative: 3 },
                index(1),
                to(4),
            ],
            vec![index(4), to(4)],
            vec![index(2), to(3), Instr::Other { handle: 9 }, index(3), to(3)],
            vec![],
        ]
    );
    assert_eq!(body(&m.funcs[1]), &vec![vec![Instr::Call { func: 0 }]]);
    assert_eq!(
        body(&m.funcs[2]),
        &vec![vec![Instr::LocalGet { local: 0 }, index(5), to(4), Instr::Return]]
    );
}

#[test]
fn stubs_are_left_alone_by_the_rewrite() {
    let mut m = nested_sites();
    instrument_call_sites(&mut m).unwrap();
    assert_eq!(m.funcs[3].name, Some(String::from("indirect_stub_0")));
    assert_eq!(m.funcs[4].name, Some(String::from("indirect_stub_1")));
    // The locals of the stubs: two for the first, three for the second.
    assert_eq!(
        body(&m.funcs[3]),
        &vec![vec![Instr::LocalGet { local: 1 }, indirect(0)]]
    );
    assert_eq!(
        body(&m.funcs[4]),
        &vec![vec![Instr::LocalGet { local: 3 }, Instr::LocalGet { local: 4 }, indirect(1)]]
    );
    assert_eq!(as_local(&m.funcs[3]).args, vec![1, 2]);
    assert_eq!(as_local(&m.funcs[4]).args, vec![3, 4, 5]);
    assert_eq!(
        m.types[as_local(&m.funcs[4]).ty],
        Signature {
            params: vec![ValType::I64, ValType::I32, ValType::I32],
            results: vec![ValType::I64]
        }
    );
}

#[test]
fn the_index_of_a_site_is_the_same_in_every_run() {
    let mut first = nested_sites();
    let mut second = nested_sites();
    instrument_call_sites(&mut first).unwrap();
    instrument_call_sites(&mut second).unwrap();
    assert_eq!(first, second);
}

#[test]
fn without_a_table_nothing_is_wrapped() {
    let mut m = nested_sites();
    m.tables.clear();
    for func in m.funcs.iter_mut() {
        *func = local(0, vec![vec![Instr::Return]]);
    }
    let made = instrument(&mut m).unwrap();
    assert_eq!(made.slowcalls, Vec::<usize>::new());
    assert_eq!(m.funcs.len(), 3);
}

#[test]
fn a_module_without_indirect_calls_gets_the_counter_and_the_wrappers_only() {
    let mut m = nested_sites();
    m.funcs = vec![
        local(0, vec![vec![Instr::Call { func: 1 }]]),
        local(0, vec![vec![Instr::Call { func: 1 }, Instr::Call { func: 0 }]]),
        local(0, vec![vec![Instr::Const { value: 1 }]]),
    ];
    m.exports.push(export("_start", ExportItem::Function(2)));
    let before = m.clone();
    let made = instrument(&mut m).unwrap();
    assert_eq!(made.sites, 0);
    assert_eq!(made.stub_count, 0);
    assert_eq!(made.stubs.len(), 0);
    assert_eq!(made.slots, vec![]);
    assert_eq!(made.counter, 1);
    assert_eq!(m.globals, vec![observation_global(), observation_global()]);
    assert_eq!(m.types, before.types);
    assert_eq!(m.locals, before.locals);
    assert_eq!(
        m.exports,
        vec![export("_start", ExportItem::Function(2)), export("slowcalls", ExportItem::Global(1))]
    );
    // Function 1 calls itself, function 0 calls function 1, function 2 is
    // the entry: all three are wrapped, by functions 3, 4 and 5.
    assert_eq!(made.slowcalls, vec![0, 1, 2]);
    assert_eq!(made.fastcalls, 0);
    assert_eq!(m.funcs.len(), 6);
    assert_eq!(body(&m.funcs[0]), &vec![vec![Instr::Call { func: 4 }]]);
    assert_eq!(body(&m.funcs[1]), &vec![vec![Instr::Call { func: 4 }, Instr::Call { func: 3 }]]);
    assert_eq!(body(&m.funcs[2]), &vec![vec![Instr::Const { value: 1 }]]);
    assert_eq!(body(&m.funcs[4])[0][4], Instr::Call { func: 1 });
}

#[test]
fn a_module_with_a_table_and_no_entry_function_cannot_be_instrumented() {
    let mut m = single_site();
    m.exports.clear();
    let before = m.clone();
    assert_eq!(instrument(&mut m).unwrap_err(), Error::MissingStart);
    assert_eq!(m, before);
    // The entry function is missed before a mismatch of signatures is.
    m.types.push(Signature { params: vec![], results: vec![ValType::I32] });
    m.funcs[0] = local(0, vec![vec![Instr::Const { value: 3 }, indirect(1)]]);
    assert_eq!(instrument(&mut m).unwrap_err(), Error::MissingStart);
}

#[test]
fn a_signature_that_is_not_the_first_of_its_kind_is_a_mismatch() {
    let mut m = single_site();
    m.types.push(Signature { params: vec![], results: vec![ValType::I32] });
    m.funcs[0] = local(0, vec![vec![Instr::Const { value: 3 }, indirect(1)]]);
    let before = m.clone();
    assert_eq!(instrument(&mut m).unwrap_err(), Error::TypeMismatch);
    assert_eq!(m, before);
    assert_eq!(instrument_call_sites(&mut m).unwrap_err(), Error::TypeMismatch);
    assert_eq!(m, before);
}

fn calls_itself(m: &Module, f: usize) -> bool {
    body(&m.funcs[f]).iter().any(|seq| seq.contains(&Instr::Call { func: f }))
}

#[test]
fn no_stub_and_no_wrapper_calls_itself() {
    let mut m = nested_sites();
    m.funcs[1] = local(0, vec![vec![Instr::Call { func: 1 }, Instr::Call { func: 0 }]]);
    m.exports.push(export("_start", ExportItem::Function(2)));
    let made = instrument(&mut m).unwrap();
    assert!(made.stub_count > 0);
    assert!(made.slowcalls.len() > 0);
    for f in made.first_stub..m.funcs.len() {
        assert!(!calls_itself(&m, f));
    }
    // Function 1 called itself and still does, through its wrapper.
    let wrapper = made.first_wrapper + made.slowcalls.iter().position(|&f| f == 1).unwrap();
    assert_eq!(body(&m.funcs[1])[0][0], Instr::Call { func: wrapper });
    assert_eq!(body(&m.funcs[wrapper])[0].last(), Some(&Instr::Call { func: 1 }));
}

#[test]
fn a_fastcall_gets_no_wrapper() {
    // Function 0 is `p`, which calls functions 1 and 2; function 1 calls
    // function 2; function 3 is the entry and calls `p`.
    let mut m = nested_sites();
    m.funcs = vec![
        local(0, vec![vec![Instr::Call { func: 1 }, Instr::Call { func: 2 }]]),
        local(0, vec![vec![Instr::Call { func: 2 }]]),
        local(0, vec![vec![Instr::Return]]),
        local(0, vec![vec![Instr::Call { func: 0 }]]),
    ];
    m.exports.push(export("_start", ExportItem::Function(3)));
    let made = instrument(&mut m).unwrap();
    assert_eq!(made.slowcalls, vec![3]);
    assert_eq!(made.fastcalls, 3);
    assert_eq!(m.funcs.len(), 5);
    assert_eq!(body(&m.funcs[3]), &vec![vec![Instr::Call { func: 0 }]]);
    assert_eq!(body(&m.funcs[0]), &vec![vec![Instr::Call { func: 1 }, Instr::Call { func: 2 }]]);
    assert_eq!(body(&m.funcs[4])[0].last(), Some(&Instr::Call { func: 3 }));
}
