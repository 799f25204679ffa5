use wasm_devirt::ir::{
    BinaryOp, Element, ElementKind, Export, ExportItem, Function, FunctionKind, Global, GlobalKind,
    Import, ImportKind, InitExpr, Instr, LocalFunction, Module, Signature, Table, ValType,
};
use wasm_devirt::wiring::{Slot, INDIRECT_WINDOW, UNOBSERVED};

fn local(ty: usize, args: Vec<usize>, seqs: Vec<Vec<Instr>>) -> Function {
    Function { name: None, kind: FunctionKind::Local(LocalFunction { ty, args, entry: 0, seqs }) }
}

fn module() -> Module {
    Module {
        types: vec![Signature { params: vec![ValType::I32, ValType::I32], results: vec![] }],
        funcs: vec![local(
            0,
            vec![0, 1],
            vec![vec![Instr::LocalGet { local: 0 }, Instr::CallIndirect { ty: 0, table: 0 }]],
        )],
        imports: vec![],
        exports: vec![],
        tables: vec![Table { funcref: true, segments: vec![0] }],
        elements: vec![Element { kind: ElementKind::Passive, members: vec![Some(0), None] }],
        globals: vec![Global { ty: ValType::F64, mutable: false, kind: GlobalKind::Import }],
        locals: vec![ValType::I32, ValType::I32],
    }
}

#[test]
fn the_window_holds_five_globals_that_start_free() {
    assert_eq!(INDIRECT_WINDOW, 5);
    assert_eq!(UNOBSERVED, -1);
}

#[test]
fn observation_globals_are_added_site_by_site() {
    let mut m = module();
    let slots = m.add_observation_globals(2, 3);
    assert_eq!(
        slots,
        vec![
            Slot { site: 0, index: 0, global: 1 },
            Slot { site: 0, index: 1, global: 2 },
            Slot { site: 0, index: 2, global: 3 },
            Slot { site: 1, index: 0, global: 4 },
            Slot { site: 1, index: 1, global: 5 },
            Slot { site: 1, index: 2, global: 6 },
        ]
    );
    assert_eq!(m.globals.len(), 7);
    for g in 1..7 {
        assert_eq!(
            m.globals[g],
            Global { ty: ValType::I32, mutable: true, kind: GlobalKind::Local(InitExpr::I32(-1)) }
        );
    }
    assert!(m.is_well_formed());
    assert_eq!(m.add_observation_globals(0, 5), vec![]);
    assert_eq!(m.add_observation_globals(4, 0), vec![]);
    assert_eq!(m.globals.len(), 7);
}

#[test]
fn observations_are_exported_under_the_names_of_site_and_index() {
    let mut m = module();
    let slots = m.add_observation_globals(12, 1);
    m.export_observations(0, &slots[10..].to_vec());
    assert_eq!(
        m.exports,
        vec![
            Export { name: String::from("slowcalls"), item: ExportItem::Global(0) },
            Export { name: String::from("profiling_global_10_0"), item: ExportItem::Global(11) },
            Export { name: String::from("profiling_global_11_0"), item: ExportItem::Global(12) },
        ]
    );
}

#[test]
fn weaving_puts_the_observation_code_in_front_of_the_body() {
    let mut m = module();
    let slots = vec![Slot { site: 4, index: 0, global: 0 }, Slot { site: 7, index: 1, global: 0 }];
    m.weave_stub(0, &slots, 0);
    assert!(m.is_well_formed());
    assert_eq!(m.locals, vec![ValType::I32, ValType::I32, ValType::I32]);
    let seqs = match &m.funcs[0].kind {
        FunctionKind::Local(local) => &local.seqs,
        FunctionKind::Import { .. } => panic!("not a local function"),
    };
    assert_eq!(seqs.len(), 13);
    assert_eq!(
        seqs[0],
        vec![
            Instr::Block { seq: 1 },
            Instr::Block { seq: 2 },
            Instr::LocalGet { local: 0 },
            Instr::CallIndirect { ty: 0, table: 0 },
        ]
    );
    assert_eq!(seqs[2], vec![Instr::Block { seq: 3 }, Instr::Block { seq: 8 }]);
    assert_eq!(
        seqs[8],
        vec![
            Instr::LocalGet { local: 1 },
            Instr::Const { value: 7 },
            Instr::Binop { op: BinaryOp::I32Eq },
            Instr::IfElse { consequent: 9, alternative: 12 },
        ]
    );
    assert_eq!(
        seqs[10],
        vec![
            Instr::LocalGet { local: 0 },
            Instr::GlobalSet { global: 0 },
            Instr::Const { value: 1 },
            Instr::LocalSet { local: 2 },
            Instr::Br { block: 2 },
        ]
    );
}

#[test]
fn a_module_whose_identifiers_all_exist_is_well_formed() {
    let mut m = module();
    m.imports.push(Import {
        module: String::from("env"),
        name: String::from("f"),
        kind: ImportKind::Function(0),
    });
    m.imports.push(Import { module: String::from("env"), name: String::from("m"), kind: ImportKind::Other });
    m.exports.push(Export { name: String::from("g"), item: ExportItem::Global(0) });
    m.exports.push(Export { name: String::from("f"), item: ExportItem::Function(0) });
    m.exports.push(Export { name: String::from("m"), item: ExportItem::Other });
    assert!(m.is_well_formed());
}

fn with_instr(instr: Instr) -> Module {
    let mut m = module();
    m.funcs[0] = local(0, vec![0, 1], vec![vec![Instr::Return, instr]]);
    m
}

#[test]
fn an_instruction_that_names_what_does_not_exist_is_ill_formed() {
    assert!(with_instr(Instr::Block { seq: 0 }).is_well_formed());
    assert!(!with_instr(Instr::Block { seq: 1 }).is_well_formed());
    assert!(!with_instr(Instr::Loop { seq: 1 }).is_well_formed());
    assert!(!with_instr(Instr::IfElse { consequent: 0, alternative: 1 }).is_well_formed());
    assert!(!with_instr(Instr::IfElse { consequent: 1, alternative: 0 }).is_well_formed());
    assert!(with_instr(Instr::Call { func: 0 }).is_well_formed());
    assert!(!with_instr(Instr::Call { func: 1 }).is_well_formed());
    assert!(!with_instr(Instr::CallIndirect { ty: 1, table: 0 }).is_well_formed());
    assert!(!with_instr(Instr::CallIndirect { ty: 0, table: 1 }).is_well_formed());
    assert!(with_instr(Instr::LocalGet { local: 1 }).is_well_formed());
    assert!(!with_instr(Instr::LocalGet { local: 2 }).is_well_formed());
    assert!(!with_instr(Instr::LocalSet { local: 2 }).is_well_formed());
    assert!(with_instr(Instr::GlobalGet { global: 0 }).is_well_formed());
    assert!(!with_instr(Instr::GlobalGet { global: 1 }).is_well_formed());
    assert!(!with_instr(Instr::GlobalSet { global: 1 }).is_well_formed());
    assert!(!with_instr(Instr::Br { block: 1 }).is_well_formed());
    assert!(with_instr(Instr::Other { handle: 99 }).is_well_formed());
    assert!(with_instr(Instr::Const { value: i32::MIN }).is_well_formed());
}

#[test]
fn a_module_that_names_what_does_not_exist_is_ill_formed() {
    let mut m = module();
    m.funcs[0] = local(1, vec![], vec![vec![]]);
    assert!(!m.is_well_formed());
    let mut m = module();
    m.funcs[0] = local(0, vec![2], vec![vec![]]);
    assert!(!m.is_well_formed());
    let mut m = module();
    m.funcs[0] = Function {
        name: None,
        kind: FunctionKind::Local(LocalFunction { ty: 0, args: vec![], entry: 1, seqs: vec![vec![]] }),
    };
    assert!(!m.is_well_formed());
    let mut m = module();
    m.funcs.push(Function { name: None, kind: FunctionKind::Import { ty: 1 } });
    assert!(!m.is_well_formed());
    let mut m = module();
    m.imports.push(Import {
        module: String::new(),
        name: String::new(),
        kind: ImportKind::Function(1),
    });
    assert!(!m.is_well_formed());
    let mut m = module();
    m.exports.push(Export { name: String::new(), item: ExportItem::Function(1) });
    assert!(!m.is_well_formed());
    let mut m = module();
    m.exports.push(Export { name: String::new(), item: ExportItem::Global(1) });
    assert!(!m.is_well_formed());
    let mut m = module();
    m.tables[0].segments.push(1);
    assert!(!m.is_well_formed());
    let mut m = module();
    m.elements[0].members.push(Some(1));
    assert!(!m.is_well_formed());
}
