use wasm_devirt::error::Error;
use wasm_devirt::ir::{
    BinaryOp, Element, ElementKind, Function, FunctionKind, InitExpr, Instr, LocalFunction, Module,
    Signature, Table, ValType,
};
use wasm_devirt::pipeline::optimize;
use wasm_devirt::profilemap::{MapValue, Profile};

fn local(ty: usize, seqs: Vec<Vec<Instr>>) -> Function {
    Function { name: None, kind: FunctionKind::Local(LocalFunction { ty, args: vec![], entry: 0, seqs }) }
}

fn body(func: &Function) -> &Vec<Vec<Instr>> {
    match &func.kind {
        FunctionKind::Local(local) => &local.seqs,
        FunctionKind::Import { .. } => panic!("an import has no body"),
    }
}

fn as_local(func: &Function) -> &LocalFunction {
    match &func.kind {
        FunctionKind::Local(local) => local,
        FunctionKind::Import { .. } => panic!("not a local function"),
    }
}

fn indirect(ty: usize) -> Instr {
    Instr::CallIndirect { ty, table: 0 }
}

/// Function 0 is `f` with one indirect call; function 1 is `g`, function 2
/// is `h`, both of signature `() -> i32`; function 3 is of signature
/// `(i64) -> i32`. The table holds `g` in slot 7, `h` in slot 8 and
/// function 3 in slot 9.
fn module() -> Module {
    Module {
        types: vec![
            Signature { params: vec![], results: vec![ValType::I32] },
            Signature { params: vec![ValType::I64], results: vec![ValType::I32] },
        ],
        funcs: vec![
            local(0, vec![vec![Instr::Const { value: 7 }, indirect(0)]]),
            local(0, vec![vec![Instr::Const { value: 1 }]]),
            local(0, vec![vec![Instr::Const { value: 2 }]]),
            local(1, vec![vec![Instr::Const { value: 3 }]]),
        ],
        imports: vec![],
        exports: vec![],
        tables: vec![Table { funcref: true, segments: vec![0] }],
        elements: vec![Element {
            kind: ElementKind::Active { table: 0, offset: InitExpr::I32(5) },
            members: vec![None, None, Some(1), Some(2), Some(3)],
        }],
        globals: vec![],
        locals: vec![],
    }
}

fn profile(sites: Vec<(usize, Vec<i32>)>) -> Profile {
    let mut profile = Profile::new();
    for (site, observations) in sites {
        profile.insert(site, observations);
    }
    profile
}

#[test]
fn a_site_with_one_callee_calls_a_stub_that_checks_the_slot() {
    let mut m = module();
    assert!(m.is_well_formed());
    let made = optimize(&mut m, &profile(vec![(0, vec![7, 7, 7, 7, 7])])).unwrap();
    assert!(m.is_well_formed());
    assert_eq!(made.sites, 1);
    assert_eq!(made.first_stub, 4);
    assert_eq!(made.stub_count, 1);
    assert_eq!(made.decisions.get(0), Some(&MapValue::Direct(vec![4])));
    assert_eq!(body(&m.funcs[0]), &vec![vec![Instr::Const { value: 7 }, Instr::Call { func: 4 }]]);
    assert_eq!(m.funcs[4].name, Some(String::from("indirect_call_stub_0")));
    let stub = as_local(&m.funcs[4]);
    assert_eq!(m.types[stub.ty], Signature { params: vec![ValType::I32], results: vec![ValType::I32] });
    assert_eq!(stub.args, vec![0]);
    assert_eq!(m.locals, vec![ValType::I32]);
    assert_eq!(stub.seqs.len(), 16);
    assert_eq!(
        stub.seqs[0],
        vec![
            Instr::Block { seq: 13 },
            Instr::Block { seq: 10 },
            Instr::Block { seq: 7 },
            Instr::Block { seq: 4 },
            Instr::Block { seq: 1 },
            Instr::Unreachable,
        ]
    );
    for j in 0..5 {
        assert_eq!(
            stub.seqs[1 + 3 * j],
            vec![
                Instr::Const { value: 7 },
                Instr::LocalGet { local: 0 },
                Instr::Binop { op: BinaryOp::I32Eq },
                Instr::IfElse { consequent: 2 + 3 * j, alternative: 3 + 3 * j },
            ]
        );
        assert_eq!(stub.seqs[2 + 3 * j], vec![Instr::Call { func: 1 }, Instr::Return]);
        assert_eq!(stub.seqs[3 + 3 * j], vec![]);
    }
}

#[test]
fn a_site_with_several_callees_checks_each_slot() {
    let mut m = module();
    m.funcs[0] = local(
        1,
        vec![vec![Instr::LocalGet { local: 0 }, Instr::Const { value: 9 }, indirect(1)]],
    );
    m.funcs[2] = local(1, vec![vec![]]);
    m.locals.push(ValType::I64);
    let made = optimize(&mut m, &profile(vec![(0, vec![9, -1, 8, -1, -1])])).unwrap();
    assert_eq!(made.decisions.get(0), Some(&MapValue::Direct(vec![4])));
    let stub = as_local(&m.funcs[4]);
    assert_eq!(
        m.types[stub.ty],
        Signature { params: vec![ValType::I64, ValType::I32], results: vec![ValType::I32] }
    );
    assert_eq!(stub.args, vec![1, 2]);
    assert_eq!(
        stub.seqs,
        vec![
            vec![Instr::Block { seq: 4 }, Instr::Block { seq: 1 }, Instr::Unreachable],
            vec![
                Instr::Const { value: 9 },
                Instr::LocalGet { local: 2 },
                Instr::Binop { op: BinaryOp::I32Eq },
                Instr::IfElse { consequent: 2, alternative: 3 },
            ],
            vec![Instr::LocalGet { local: 1 }, Instr::Call { func: 3 }, Instr::Return],
            vec![],
            vec![
                Instr::Const { value: 8 },
                Instr::LocalGet { local: 2 },
                Instr::Binop { op: BinaryOp::I32Eq },
                Instr::IfElse { consequent: 5, alternative: 6 },
            ],
            vec![Instr::LocalGet { local: 1 }, Instr::Call { func: 2 }, Instr::Return],
            vec![],
        ]
    );
}

#[test]
fn a_saturated_site_keeps_its_indirect_call() {
    let mut m = module();
    let before = m.clone();
    let made = optimize(&mut m, &profile(vec![(0, vec![-2, -2, -2, -2, -2])])).unwrap();
    assert_eq!(made.decisions.get(0), Some(&MapValue::Retain));
    assert_eq!(made.stub_count, 0);
    assert_eq!(made.sites, 1);
    assert_eq!(m, before);
}

#[test]
fn a_site_that_never_ran_traps() {
    let mut m = module();
    let made = optimize(&mut m, &profile(vec![(0, vec![-1, -1, -1, -1, -1])])).unwrap();
    assert_eq!(made.decisions.get(0), Some(&MapValue::Unreachable));
    assert_eq!(made.stub_count, 0);
    assert_eq!(body(&m.funcs[0]), &vec![vec![Instr::Const { value: 7 }, Instr::Unreachable]]);
    assert_eq!(m.funcs.len(), 4);
}

fn many_sites() -> Module {
    let mut m = module();
    m.funcs[0] = local(
        0,
        vec![
            vec![indirect(0), Instr::Loop { seq: 1 }, indirect(0), Instr::Block { seq: 2 }],
            vec![indirect(0), indirect(0)],
            vec![Instr::Other { handle: 1 }, indirect(0)],
        ],
    );
    m.funcs[1] = local(0, vec![vec![indirect(0)]]);
    m
}

#[test]
fn no_rewrite_changes_the_number_of_instructions() {
    let mut m = many_sites();
    let counts: Vec<Vec<usize>> =
        m.funcs.iter().map(|f| body(f).iter().map(|seq| seq.len()).collect()).collect();
    let observed = profile(vec![
        (0, vec![7]),
        (1, vec![-1]),
        (2, vec![-2]),
        (3, vec![8, 7]),
        (4, vec![-1, -2]),
        (5, vec![7, 8]),
    ]);
    let made = optimize(&mut m, &observed).unwrap();
    assert_eq!(made.sites, 6);
    assert_eq!(made.stub_count, 3);
    for f in 0..4 {
        let now: Vec<usize> = body(&m.funcs[f]).iter().map(|seq| seq.len()).collect();
        assert_eq!(now, counts[f]);
    }
    // The walk of function 0 is 0, 2, 1: sites 0 and 1 stand in the entry,
    // site 2 in sequence 2, sites 3 and 4 in sequence 1; site 5 is that of
    // function 1. The stubs are made for sites 0, 3 and 5, in this order.
    assert_eq!(
        body(&m.funcs[0]),
        &vec![
            vec![
                Instr::Call { func: 4 },
                Instr::Loop { seq: 1 },
                Instr::Unreachable,
                Instr::Block { seq: 2 },
            ],
            vec![Instr::Call { func: 5 }, Instr::Unreachable],
            vec![Instr::Other { handle: 1 }, indirect(0)],
        ]
    );
    assert_eq!(body(&m.funcs[1]), &vec![vec![Instr::Call { func: 6 }]]);
    assert_eq!(m.funcs[5].name, Some(String::from("indirect_call_stub_1")));
    assert_eq!(as_local(&m.funcs[5]).seqs[2], vec![Instr::Call { func: 2 }, Instr::Return]);
    assert_eq!(as_local(&m.funcs[5]).seqs[5], vec![Instr::Call { func: 1 }, Instr::Return]);
}

#[test]
fn a_second_run_with_the_same_profile_finds_no_site_to_rewrite() {
    let mut m = many_sites();
    let observed = profile(vec![
        (0, vec![7]),
        (1, vec![-1]),
        (2, vec![8]),
        (3, vec![8, 7]),
        (4, vec![-1]),
        (5, vec![7, 8]),
    ]);
    optimize(&mut m, &observed).unwrap();
    let once = m.clone();
    let again = optimize(&mut m, &observed).unwrap();
    assert_eq!(again.sites, 0);
    for f in 0..once.funcs.len() {
        assert_eq!(m.funcs[f], once.funcs[f]);
    }
}

#[test]
fn a_second_run_numbers_a_kept_site_anew() {
    let mut m = module();
    m.funcs[0] = local(
        0,
        vec![vec![Instr::Const { value: 7 }, indirect(0), Instr::Const { value: 8 }, indirect(0)]],
    );
    let observed = profile(vec![(0, vec![7]), (1, vec![-2, -2])]);
    let once = optimize(&mut m, &observed).unwrap();
    assert_eq!(once.sites, 2);
    assert_eq!(
        body(&m.funcs[0]),
        &vec![vec![
            Instr::Const { value: 7 },
            Instr::Call { func: 4 },
            Instr::Const { value: 8 },
            indirect(0),
        ]]
    );
    // The call that was kept is the only site now, so it is site 0, which
    // the profile saw call function 1.
    let again = optimize(&mut m, &observed).unwrap();
    assert_eq!(again.sites, 1);
    assert_eq!(
        body(&m.funcs[0]),
        &vec![vec![
            Instr::Const { value: 7 },
            Instr::Call { func: 4 },
            Instr::Const { value: 8 },
            Instr::Call { func: 5 },
        ]]
    );
}

#[test]
fn a_profile_that_covers_fewer_sites_than_there_are_is_fatal() {
    let mut m = many_sites();
    let before = m.clone();
    let observed = profile(vec![(0, vec![7]), (1, vec![7]), (2, vec![7]), (4, vec![7]), (5, vec![7])]);
    assert_eq!(optimize(&mut m, &observed).unwrap_err(), Error::MissingSite);
    assert_eq!(m, before);
    let mut m = module();
    assert_eq!(optimize(&mut m, &Profile::new()).unwrap_err(), Error::MissingSite);
    // A site that is not covered is missed before callees that cannot
    // share a stub are.
    let mut m = many_sites();
    let observed = profile(vec![(0, vec![7, 9]), (1, vec![7])]);
    assert_eq!(optimize(&mut m, &observed).unwrap_err(), Error::MissingSite);
    assert_eq!(m, before);
}

#[test]
fn a_profile_may_cover_more_sites_than_there_are() {
    let mut m = module();
    let made = optimize(&mut m, &profile(vec![(0, vec![-1]), (5, vec![8, 8]), (9, vec![-2])])).unwrap();
    assert_eq!(made.sites, 1);
    assert_eq!(made.stub_count, 1);
    assert_eq!(made.decisions.get(5), Some(&MapValue::Direct(vec![4])));
    assert_eq!(made.decisions.get(9), Some(&MapValue::Retain));
    assert_eq!(body(&m.funcs[0]), &vec![vec![Instr::Const { value: 7 }, Instr::Unreachable]]);
}

#[test]
fn a_slot_out_of_range_is_fatal_and_changes_nothing() {
    let mut m = module();
    let before = m.clone();
    assert_eq!(optimize(&mut m, &profile(vec![(0, vec![10])])).unwrap_err(), Error::TargetOutOfRange);
    assert_eq!(m, before);
    assert_eq!(optimize(&mut m, &profile(vec![(0, vec![4])])).unwrap_err(), Error::TargetOutOfRange);
    assert_eq!(optimize(&mut m, &profile(vec![(0, vec![5])])).unwrap_err(), Error::TargetOutOfRange);
    assert_eq!(m, before);
}

#[test]
fn callees_of_different_signatures_are_a_mismatch_and_change_nothing() {
    let mut m = module();
    let before = m.clone();
    assert_eq!(optimize(&mut m, &profile(vec![(0, vec![7, 9])])).unwrap_err(), Error::TypeMismatch);
    assert_eq!(m, before);
}

#[test]
fn a_callee_whose_signature_is_not_the_first_of_its_kind_is_a_mismatch() {
    let mut m = module();
    m.types.push(Signature { params: vec![], results: vec![ValType::I32] });
    m.funcs[1] = local(2, vec![vec![]]);
    assert_eq!(optimize(&mut m, &profile(vec![(0, vec![7])])).unwrap_err(), Error::TypeMismatch);
}

#[test]
fn without_a_main_function_table_nothing_is_resolved() {
    let mut m = module();
    m.tables[0].funcref = false;
    m.funcs[0] = local(0, vec![vec![Instr::Return]]);
    let before = m.clone();
    let made = optimize(&mut m, &profile(vec![(0, vec![7])])).unwrap();
    assert_eq!(made.decisions.len(), 0);
    assert_eq!(made.sites, 0);
    assert_eq!(m, before);
}

#[test]
fn no_specialized_stub_calls_itself() {
    let mut m = many_sites();
    let observed = profile(vec![
        (0, vec![7]),
        (1, vec![8, 7]),
        (2, vec![7, 7]),
        (3, vec![8]),
        (4, vec![-1]),
        (5, vec![-2]),
    ]);
    let made = optimize(&mut m, &observed).unwrap();
    assert_eq!(made.stub_count, 4);
    for f in made.first_stub..m.funcs.len() {
        for seq in body(&m.funcs[f]) {
            assert!(!seq.contains(&Instr::Call { func: f }));
            for instr in seq {
                if let Instr::Call { func } = instr {
                    assert!(*func < made.first_stub);
                }
            }
        }
    }
}
