use wasm_devirt::idmap::IdMap;
use wasm_devirt::names::{numbered, push_decimal};
use wasm_devirt::profilemap::Profile;

#[test]
fn numbered_names_count_in_decimal() {
    assert_eq!(numbered("indirect_stub_", 0), "indirect_stub_0");
    assert_eq!(numbered("slowcall_stub_", 10), "slowcall_stub_10");
    assert_eq!(numbered("indirect_call_stub_", 4096), "indirect_call_stub_4096");
    assert_eq!(numbered("", 907), "907");
}

#[test]
fn push_decimal_appends_without_leading_zeros() {
    let mut text = String::from("profiling_global_");
    push_decimal(&mut text, 12);
    text.push('_');
    push_decimal(&mut text, 0);
    assert_eq!(text, "profiling_global_12_0");
}

#[test]
fn push_decimal_takes_the_largest_number() {
    let mut text = String::new();
    push_decimal(&mut text, usize::MAX);
    assert_eq!(text, format!("{}", usize::MAX));
}

#[test]
fn idmap_starts_empty() {
    let map: IdMap<u8> = IdMap::new();
    assert_eq!(map.len(), 0);
    assert!(map.get(0).is_none());
    assert!(!map.contains_key(7));
}

#[test]
fn idmap_keeps_keys_in_increasing_order() {
    let mut map: IdMap<&str> = IdMap::new();
    map.insert(9, "nine");
    map.insert(2, "two");
    map.insert(5, "five");
    map.insert(0, "zero");
    assert_eq!(map.len(), 4);
    assert_eq!(map.key_at(0), 0);
    assert_eq!(map.key_at(1), 2);
    assert_eq!(map.key_at(2), 5);
    assert_eq!(map.key_at(3), 9);
    assert_eq!(*map.value_at(0), "zero");
    assert_eq!(*map.value_at(1), "two");
    assert_eq!(*map.value_at(2), "five");
    assert_eq!(*map.value_at(3), "nine");
}

#[test]
fn idmap_insert_replaces_the_value_of_a_key() {
    let mut map: IdMap<i32> = IdMap::new();
    map.insert(3, 30);
    map.insert(1, 10);
    map.insert(3, 33);
    assert_eq!(map.len(), 2);
    assert_eq!(map.get(3), Some(&33));
    assert_eq!(map.get(1), Some(&10));
    assert_eq!(map.get(2), None);
    assert!(map.contains_key(1));
    assert!(!map.contains_key(0));
}

#[test]
fn profile_holds_the_observations_of_each_site() {
    let mut profile = Profile::new();
    assert_eq!(profile.len(), 0);
    profile.insert(4, vec![7, -1, -1, -1, -1]);
    profile.insert(0, vec![-2, -2, -2, -2, -2]);
    assert_eq!(profile.len(), 2);
    assert_eq!(profile.site_at(0), 0);
    assert_eq!(profile.site_at(1), 4);
    assert_eq!(profile.observations_at(1), &vec![7, -1, -1, -1, -1]);
    assert_eq!(profile.get(0), Some(&vec![-2, -2, -2, -2, -2]));
    assert_eq!(profile.get(1), None);
    profile.insert(4, vec![1]);
    assert_eq!(profile.len(), 2);
    assert_eq!(profile.get(4), Some(&vec![1]));
}
