use wasm_devirt::error::Error;
use wasm_devirt::ir::{Instr, LocalFunction};
use wasm_devirt::sites::CallSite;

fn local(seqs: Vec<Vec<Instr>>) -> LocalFunction {
    LocalFunction { ty: 0, args: vec![], entry: 0, seqs }
}

fn indirect(ty: usize) -> Instr {
    Instr::CallIndirect { ty, table: 0 }
}

fn nested() -> LocalFunction {
    local(vec![
        vec![
            Instr::Block { seq: 1 },
            indirect(0),
            Instr::IfElse { consequent: 2, alternative: 3 },
            indirect(1),
        ],
        vec![indirect(2)],
        vec![indirect(3), Instr::Other { handle: 9 }, indirect(4)],
        vec![],
    ])
}

#[test]
fn walk_visits_what_was_queued_last_first() {
    assert_eq!(nested().visit_order(), vec![0, 3, 2, 1]);
}

#[test]
fn walk_of_a_single_sequence_is_that_sequence() {
    assert_eq!(local(vec![vec![Instr::Return]]).visit_order(), vec![0]);
}

#[test]
fn walk_queues_loops_and_both_arms_of_a_branch() {
    let f = local(vec![
        vec![Instr::Loop { seq: 1 }],
        vec![Instr::IfElse { consequent: 3, alternative: 2 }],
        vec![],
        vec![Instr::Block { seq: 4 }],
        vec![],
    ]);
    assert_eq!(f.visit_order(), vec![0, 1, 2, 3, 4]);
}

#[test]
fn walk_starts_at_the_entry_and_leaves_out_what_is_not_nested() {
    let f = LocalFunction {
        ty: 0,
        args: vec![],
        entry: 1,
        seqs: vec![vec![indirect(0)], vec![Instr::Block { seq: 2 }], vec![]],
    };
    assert_eq!(f.visit_order(), vec![1, 2]);
    assert_eq!(f.walked_instrs(), vec![Instr::Block { seq: 2 }]);
}

#[test]
fn walk_visits_a_shared_sequence_once() {
    let f = local(vec![
        vec![Instr::Block { seq: 1 }, Instr::Block { seq: 1 }],
        vec![indirect(0)],
    ]);
    assert_eq!(f.visit_order(), vec![0, 1]);
    assert_eq!(f.call_sites(3, true).unwrap().len(), 1);
}

#[test]
fn walk_ends_on_a_sequence_that_nests_itself() {
    let f = local(vec![vec![Instr::Loop { seq: 0 }, Instr::Block { seq: 7 }]]);
    assert_eq!(f.visit_order(), vec![0]);
}

#[test]
fn walked_instructions_follow_the_walk() {
    assert_eq!(
        nested().walked_instrs(),
        vec![
            Instr::Block { seq: 1 },
            indirect(0),
            Instr::IfElse { consequent: 2, alternative: 3 },
            indirect(1),
            indirect(3),
            Instr::Other { handle: 9 },
            indirect(4),
            indirect(2),
        ]
    );
}

#[test]
fn sites_are_recorded_where_they_stand_when_nothing_is_inserted() {
    let sites = nested().call_sites(5, false).unwrap();
    assert_eq!(
        sites,
        vec![
            CallSite { func: 5, seq: 0, position: 1, ty: 0 },
            CallSite { func: 5, seq: 0, position: 3, ty: 1 },
            CallSite { func: 5, seq: 2, position: 0, ty: 3 },
            CallSite { func: 5, seq: 2, position: 2, ty: 4 },
            CallSite { func: 5, seq: 1, position: 0, ty: 2 },
        ]
    );
}

#[test]
fn sites_make_room_for_the_constants_of_earlier_sites() {
    let sites = nested().call_sites(5, true).unwrap();
    assert_eq!(
        sites,
        vec![
            CallSite { func: 5, seq: 0, position: 1, ty: 0 },
            CallSite { func: 5, seq: 0, position: 4, ty: 1 },
            CallSite { func: 5, seq: 2, position: 0, ty: 3 },
            CallSite { func: 5, seq: 2, position: 3, ty: 4 },
            CallSite { func: 5, seq: 1, position: 0, ty: 2 },
        ]
    );
}

#[test]
fn inventory_holds_the_walk_and_the_sites() {
    let found = nested().inventory(1, true).unwrap();
    assert_eq!(found.order, vec![0, 3, 2, 1]);
    assert_eq!(found.sites.len(), 5);
}

#[test]
fn a_function_without_indirect_calls_has_no_sites() {
    let f = local(vec![vec![Instr::Call { func: 1 }, Instr::Return]]);
    assert_eq!(f.call_sites(0, true), Ok::<Vec<CallSite>, Error>(vec![]));
    assert_eq!(f.call_sites(0, false), Ok::<Vec<CallSite>, Error>(vec![]));
}
