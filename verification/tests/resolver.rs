use wasm_devirt::error::Error;
use wasm_devirt::idmap::IdMap;
use wasm_devirt::ir::{
    Element, ElementKind, Function, FunctionKind, InitExpr, Module, Signature, Table, ValType,
};
use wasm_devirt::profilemap::{decide, process_map, MapValue, Profile};

fn import(ty: usize) -> Function {
    Function { name: None, kind: FunctionKind::Import { ty } }
}

fn module_with_table(kind: ElementKind, members: Vec<Option<usize>>) -> Module {
    Module {
        types: vec![Signature { params: vec![], results: vec![ValType::I32] }],
        funcs: vec![import(0), import(0), import(0), import(0)],
        imports: vec![],
        exports: vec![],
        tables: vec![Table { funcref: true, segments: vec![0] }],
        elements: vec![Element { kind, members }],
        globals: vec![],
        locals: vec![],
    }
}

fn active(offset: i32) -> ElementKind {
    ElementKind::Active { table: 0, offset: InitExpr::I32(offset) }
}

#[test]
fn observed_slots_decide_a_direct_call() {
    let members = vec![Some(3), Some(1), None, Some(2)];
    assert_eq!(decide(&members, 0, &vec![1, 1, 0, -1, 3]), Ok(MapValue::Direct(vec![1, 1, 3, 2])));
}

#[test]
fn slots_are_counted_from_the_base_of_the_segment() {
    let members = vec![Some(3), Some(1), None, Some(2)];
    assert_eq!(decide(&members, 5, &vec![8, 5]), Ok(MapValue::Direct(vec![2, 3])));
}

#[test]
fn saturated_windows_decide_to_keep_the_call() {
    let members = vec![Some(0)];
    assert_eq!(decide(&members, 0, &vec![-2, -2, -2, -2, -2]), Ok(MapValue::Retain));
}

#[test]
fn no_observation_at_all_decides_to_keep_the_call() {
    let members = vec![Some(0)];
    assert_eq!(decide(&members, 0, &vec![]), Ok(MapValue::Retain));
}

#[test]
fn free_windows_decide_a_trap() {
    let members = vec![Some(0)];
    assert_eq!(decide(&members, 0, &vec![-1, -1, -1, -1, -1]), Ok(MapValue::Unreachable));
    assert_eq!(decide(&members, 0, &vec![-2, -1]), Ok(MapValue::Unreachable));
    assert_eq!(decide(&members, 0, &vec![-5]), Ok(MapValue::Unreachable));
}

#[test]
fn a_slot_behind_the_segment_is_out_of_range() {
    let members = vec![Some(0), Some(1)];
    assert_eq!(decide(&members, 0, &vec![2]), Err(Error::TargetOutOfRange));
    assert_eq!(decide(&members, 3, &vec![5]), Err(Error::TargetOutOfRange));
}

#[test]
fn a_slot_before_the_segment_is_out_of_range() {
    let members = vec![Some(0), Some(1)];
    assert_eq!(decide(&members, 3, &vec![2]), Err(Error::TargetOutOfRange));
}

#[test]
fn a_slot_that_holds_no_function_is_out_of_range() {
    let members = vec![Some(0), None];
    assert_eq!(decide(&members, 0, &vec![0, 1]), Err(Error::TargetOutOfRange));
}

#[test]
fn a_negative_base_puts_every_slot_out_of_range() {
    let members = vec![Some(0), Some(1)];
    assert_eq!(decide(&members, -1, &vec![0]), Err(Error::TargetOutOfRange));
    assert_eq!(decide(&members, -1, &vec![-1]), Ok(MapValue::Unreachable));
}

#[test]
fn process_map_resolves_every_site_of_the_profile() {
    let module = module_with_table(active(4), vec![Some(2), Some(0), Some(3)]);
    let mut profile = Profile::new();
    profile.insert(0, vec![6, 6, -1, -1, -1]);
    profile.insert(1, vec![-2, -2, -2, -2, -2]);
    profile.insert(7, vec![-1, -1, -1, -1, -1]);
    profile.insert(3, vec![4, 5, 6, -1, -1]);
    let mut modified: IdMap<MapValue> = IdMap::new();
    assert_eq!(process_map(&module, &profile, &mut modified), Ok(()));
    assert_eq!(modified.len(), 4);
    assert_eq!(modified.get(0), Some(&MapValue::Direct(vec![3, 3])));
    assert_eq!(modified.get(1), Some(&MapValue::Retain));
    assert_eq!(modified.get(3), Some(&MapValue::Direct(vec![2, 0, 3])));
    assert_eq!(modified.get(7), Some(&MapValue::Unreachable));
}

#[test]
fn process_map_keeps_what_the_profile_does_not_cover() {
    let module = module_with_table(active(0), vec![Some(1)]);
    let mut profile = Profile::new();
    profile.insert(2, vec![0]);
    let mut modified: IdMap<MapValue> = IdMap::new();
    modified.insert(9, MapValue::Retain);
    modified.insert(2, MapValue::Unreachable);
    assert_eq!(process_map(&module, &profile, &mut modified), Ok(()));
    assert_eq!(modified.len(), 2);
    assert_eq!(modified.get(2), Some(&MapValue::Direct(vec![1])));
    assert_eq!(modified.get(9), Some(&MapValue::Retain));
}

#[test]
fn process_map_fails_on_a_slot_out_of_range_and_changes_nothing() {
    let module = module_with_table(active(0), vec![Some(1)]);
    let mut profile = Profile::new();
    profile.insert(0, vec![0]);
    profile.insert(1, vec![1]);
    let mut modified: IdMap<MapValue> = IdMap::new();
    assert_eq!(process_map(&module, &profile, &mut modified), Err(Error::TargetOutOfRange));
    assert_eq!(modified.len(), 0);
}

#[test]
fn process_map_reads_an_offset_that_is_no_constant_as_zero() {
    let kind = ElementKind::Active { table: 0, offset: InitExpr::Other };
    let module = module_with_table(kind, vec![Some(2), Some(3)]);
    let mut profile = Profile::new();
    profile.insert(0, vec![1]);
    let mut modified: IdMap<MapValue> = IdMap::new();
    assert_eq!(process_map(&module, &profile, &mut modified), Ok(()));
    assert_eq!(modified.get(0), Some(&MapValue::Direct(vec![3])));
}

#[test]
fn process_map_does_nothing_without_a_main_function_table() {
    let mut module = module_with_table(active(0), vec![Some(1)]);
    module.tables[0].funcref = false;
    let mut profile = Profile::new();
    profile.insert(0, vec![99]);
    let mut modified: IdMap<MapValue> = IdMap::new();
    assert_eq!(process_map(&module, &profile, &mut modified), Ok(()));
    assert_eq!(modified.len(), 0);
}

#[test]
fn process_map_does_nothing_without_an_active_segment() {
    let module = module_with_table(ElementKind::Passive, vec![Some(1)]);
    let mut profile = Profile::new();
    profile.insert(0, vec![0]);
    let mut modified: IdMap<MapValue> = IdMap::new();
    assert_eq!(process_map(&module, &profile, &mut modified), Ok(()));
    assert_eq!(modified.len(), 0);
}

#[test]
fn the_main_segment_is_the_first_active_one_of_the_first_function_table() {
    let mut module = module_with_table(ElementKind::Declared, vec![Some(0)]);
    module.elements.push(Element { kind: active(0), members: vec![Some(3)] });
    module.elements.push(Element { kind: active(0), members: vec![Some(2)] });
    module.tables = vec![
        Table { funcref: false, segments: vec![2] },
        Table { funcref: true, segments: vec![0, 1, 2] },
        Table { funcref: true, segments: vec![2] },
    ];
    assert_eq!(module.main_function_table(), Some(1));
    assert_eq!(module.main_element_segment(), Some(1));
    let mut profile = Profile::new();
    profile.insert(0, vec![0]);
    let mut modified: IdMap<MapValue> = IdMap::new();
    assert_eq!(process_map(&module, &profile, &mut modified), Ok(()));
    assert_eq!(modified.get(0), Some(&MapValue::Direct(vec![3])));
}
