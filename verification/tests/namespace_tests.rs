use lme_core::namespace::{InsertResult, NtoN, UniqueValueMap};

#[test]
fn lib_uniq_val_map() {
    let mut map = UniqueValueMap::new();
    let x = map.insert("center".to_string(), 1);
    let y = map.insert("center".to_string(), 2);
    let z = map.insert("entry".to_string(), 2);
    assert_eq!(x, InsertResult::Created);
    assert_eq!(y, InsertResult::Updated(1));
    assert_eq!(z, InsertResult::Duplicated("center".to_string()));
    assert_eq!(
        map,
        UniqueValueMap { entries: vec![("center".to_string(), 2)] }
    )
}

#[test]
fn utils_uniq_val_map() {
    let mut map = UniqueValueMap::new();
    let x = map.insert("center".to_string(), 1);
    let y = map.insert("center".to_string(), 2);
    let z = map.insert("entry".to_string(), 2);
    assert_eq!(x, InsertResult::Created);
    assert_eq!(y, InsertResult::Updated(1));
    assert_eq!(z, InsertResult::Duplicated("center".to_string()));
    assert_eq!(
        map,
        UniqueValueMap { entries: vec![("center".to_string(), 2)] }
    )
}

#[test]
fn uniq_val_map_remove() {
    let mut map = UniqueValueMap::new();
    map.insert("center".to_string(), 1);
    assert_eq!(map.remove(&"center".to_string()), Some(1));
    assert_eq!(map.remove(&"center".to_string()), None);
    assert_eq!(map.get(&"center".to_string()), None);
}

#[test]
fn uniq_val_map_from_entries() {
    let ok = UniqueValueMap::from_map(vec![("a".to_string(), 1), ("b".to_string(), 2)]);
    assert!(ok.is_ok());
    let dup_value = UniqueValueMap::from_map(vec![("a".to_string(), 1), ("b".to_string(), 1)]);
    assert!(dup_value.is_err());
    let dup_key = UniqueValueMap::from_map(vec![("a".to_string(), 1), ("a".to_string(), 2)]);
    assert!(dup_key.is_err());
}

#[test]
fn nton_relation() {
    let mut rel = NtoN::new();
    assert!(rel.insert(1, "ring".to_string()));
    assert!(!rel.insert(1, "ring".to_string()));
    assert!(rel.insert(1, "core".to_string()));
    assert!(rel.insert(2, "ring".to_string()));
    let tags = rel.get_left(1);
    assert_eq!(tags, vec!["ring".to_string(), "core".to_string()]);
    let members = rel.get_right(&"ring".to_string());
    assert_eq!(members, vec![1, 2]);
    assert!(rel.remove(1, &"ring".to_string()));
    assert!(!rel.remove(1, &"ring".to_string()));
    rel.remove_left(1);
    assert_eq!(rel.get_left(1), Vec::<String>::new());
    rel.remove_right(&"ring".to_string());
    assert_eq!(rel.get_right(&"ring".to_string()), Vec::<usize>::new());
    let mut rel2 = NtoN::new();
    rel2.insert(3, "a".to_string());
    rel2.insert(3, "b".to_string());
    rel2.insert(4, "a".to_string());
    let mut names = rel2.get_rights();
    names.sort();
    assert_eq!(names, vec!["a".to_string(), "b".to_string()]);
}
