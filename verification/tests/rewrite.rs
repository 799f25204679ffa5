use wasm_devirt::error::Error;
use wasm_devirt::idmap::IdMap;
use wasm_devirt::ir::{
    Function, FunctionKind, Instr, LocalFunction, Module, Signature, Table, ValType,
};
use wasm_devirt::profilemap::MapValue;
use wasm_devirt::rewrite::Rewrite;

fn local(seqs: Vec<Vec<Instr>>) -> Function {
    Function { name: None, kind: FunctionKind::Local(LocalFunction { ty: 0, args: vec![], entry: 0, seqs }) }
}

fn body(func: &Function) -> &Vec<Vec<Instr>> {
    match &func.kind {
        FunctionKind::Local(local) => &local.seqs,
        FunctionKind::Import { .. } => panic!("an import has no body"),
    }
}

fn indirect(ty: usize) -> Instr {
    Instr::CallIndirect { ty, table: 0 }
}

fn module(funcs: Vec<Function>) -> Module {
    Module {
        types: vec![Signature { params: vec![], results: vec![ValType::I32] }; 3],
        funcs,
        imports: vec![],
        exports: vec![],
        tables: vec![Table { funcref: true, segments: vec![] }],
        elements: vec![],
        globals: vec![],
        locals: vec![],
    }
}

#[test]
fn a_function_rewrites_the_sites_of_its_inventory() {
    let mut f = LocalFunction {
        ty: 0,
        args: vec![],
        entry: 0,
        seqs: vec![
            vec![indirect(1), Instr::Block { seq: 1 }, indirect(2)],
            vec![Instr::Return, indirect(1)],
        ],
    };
    let found = f.inventory(0, true).unwrap();
    let mut stubs: IdMap<usize> = IdMap::new();
    stubs.insert(1, 10);
    stubs.insert(2, 20);
    f.rewrite_sites(0, &found.order, &found.sites, 40, &Rewrite::Instrument { stubs: &stubs, first_stub: 1 });
    assert_eq!(
        f.seqs,
        vec![
            vec![
                Instr::Const { value: 40 },
                Instr::Call { func: 10 },
                Instr::Block { seq: 1 },
                Instr::Const { value: 41 },
                Instr::Call { func: 20 },
            ],
            vec![Instr::Return, Instr::Const { value: 42 }, Instr::Call { func: 10 }],
        ]
    );
}

#[test]
fn sites_are_numbered_across_functions_and_stubs_are_skipped() {
    let mut m = module(vec![
        local(vec![vec![indirect(0)]]),
        Function { name: None, kind: FunctionKind::Import { ty: 0 } },
        local(vec![vec![indirect(0), indirect(0)]]),
        local(vec![vec![indirect(0)]]),
    ]);
    let mut stubs: IdMap<usize> = IdMap::new();
    stubs.insert(0, 3);
    let rewrite = Rewrite::Instrument { stubs: &stubs, first_stub: 3 };
    assert_eq!(m.rewrite_call_sites(&rewrite), Ok(3));
    let to_stub = Instr::Call { func: 3 };
    assert_eq!(body(&m.funcs[0]), &vec![vec![Instr::Const { value: 0 }, to_stub]]);
    assert_eq!(
        body(&m.funcs[2]),
        &vec![vec![Instr::Const { value: 1 }, to_stub, Instr::Const { value: 2 }, to_stub]]
    );
    assert_eq!(body(&m.funcs[3]), &vec![vec![indirect(0)]]);
}

#[test]
fn decisions_replace_sites_in_place() {
    let mut m = module(vec![
        local(vec![vec![indirect(0), Instr::Return, indirect(1)]]),
        local(vec![vec![indirect(2)]]),
    ]);
    let mut decisions: IdMap<MapValue> = IdMap::new();
    decisions.insert(0, MapValue::Unreachable);
    decisions.insert(1, MapValue::Retain);
    decisions.insert(2, MapValue::Direct(vec![0]));
    decisions.insert(3, MapValue::Direct(vec![1]));
    assert_eq!(m.rewrite_call_sites(&Rewrite::Optimize { decisions: &decisions }), Ok(3));
    assert_eq!(body(&m.funcs[0]), &vec![vec![Instr::Unreachable, Instr::Return, indirect(1)]]);
    assert_eq!(body(&m.funcs[1]), &vec![vec![Instr::Call { func: 0 }]]);
}

#[test]
fn a_site_without_a_decision_is_fatal_and_changes_nothing() {
    let mut m = module(vec![local(vec![vec![indirect(0), indirect(0), indirect(0)]])]);
    let before = m.clone();
    let mut decisions: IdMap<MapValue> = IdMap::new();
    decisions.insert(0, MapValue::Unreachable);
    decisions.insert(2, MapValue::Unreachable);
    assert_eq!(
        m.rewrite_call_sites(&Rewrite::Optimize { decisions: &decisions }),
        Err(Error::MissingSite)
    );
    assert_eq!(m, before);
}

#[test]
fn a_module_without_sites_is_left_as_it_is() {
    let mut m = module(vec![local(vec![vec![Instr::Call { func: 0 }, Instr::Return]])]);
    let before = m.clone();
    let stubs: IdMap<usize> = IdMap::new();
    assert_eq!(m.rewrite_call_sites(&Rewrite::Instrument { stubs: &stubs, first_stub: 1 }), Ok(0));
    assert_eq!(m, before);
    let decisions: IdMap<MapValue> = IdMap::new();
    assert_eq!(m.rewrite_call_sites(&Rewrite::Optimize { decisions: &decisions }), Ok(0));
    assert_eq!(m, before);
}
