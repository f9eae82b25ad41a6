use use_env::{ConfigStore, Environment, VarMap};

fn key(s: &str) -> String {
    s.to_string()
}

fn tagged(tag: &str) -> Environment {
    let mut env = Environment::new();
    env.display = Some(tag.to_string());
    env
}

#[test]
fn new_mapping_is_empty() {
    let map = VarMap::new();
    assert_eq!(map.len(), 0);
    assert!(map.is_empty());
    assert_eq!(map.get(&key("A")), None);
    assert!(!map.contains_key(&key("A")));
    assert_eq!(map.pairs(), Vec::<(String, String)>::new());
}

#[test]
fn mapping_keeps_the_order_of_insertion() {
    let mut map = VarMap::new();
    map.insert(key("B"), key("2"));
    map.insert(key("A"), key("1"));
    map.insert(key("C"), key("3"));
    assert_eq!(map.len(), 3);
    assert!(!map.is_empty());
    assert_eq!(
        map.pairs(),
        vec![(key("B"), key("2")), (key("A"), key("1")), (key("C"), key("3"))]
    );
    assert_eq!(map.get(&key("A")), Some(&key("1")));
    assert!(map.contains_key(&key("C")));
    assert!(!map.contains_key(&key("D")));
}

#[test]
fn replaced_key_keeps_its_place() {
    let mut map = VarMap::new();
    map.insert(key("B"), key("2"));
    map.insert(key("A"), key("1"));
    map.insert(key("B"), key("two"));
    assert_eq!(map.len(), 2);
    assert_eq!(map.pairs(), vec![(key("B"), key("two")), (key("A"), key("1"))]);
    assert_eq!(map.get(&key("B")), Some(&key("two")));
}

#[test]
fn mapping_merged_with_another_prefers_the_other() {
    let mut base = VarMap::new();
    base.insert(key("A"), key("1"));
    base.insert(key("B"), key("2"));
    let mut later = VarMap::new();
    later.insert(key("C"), key("30"));
    later.insert(key("A"), key("10"));
    let merged = base.merged_with(&later);
    assert_eq!(
        merged.pairs(),
        vec![(key("A"), key("10")), (key("B"), key("2")), (key("C"), key("30"))]
    );
    assert_eq!(base.pairs(), vec![(key("A"), key("1")), (key("B"), key("2"))]);
    assert_eq!(base.merged_with(&VarMap::new()).pairs(), base.pairs());
    assert_eq!(VarMap::new().merged_with(&later).pairs(), later.pairs());
}

#[test]
fn copy_of_a_mapping_has_the_same_entries() {
    let mut map = VarMap::new();
    map.insert(key("A"), key("1"));
    let mut copy = map.clone();
    assert_eq!(copy.pairs(), map.pairs());
    copy.insert(key("B"), key("2"));
    assert_eq!(map.len(), 1);
    assert_eq!(copy.len(), 2);
}

#[test]
fn keys_differ_by_case_and_by_space() {
    let mut map = VarMap::new();
    map.insert(key("path"), key("lower"));
    map.insert(key("PATH"), key("upper"));
    map.insert(key("PATH "), key("spaced"));
    assert_eq!(map.len(), 3);
    assert_eq!(map.get(&key("PATH")), Some(&key("upper")));
}

#[test]
fn new_configuration_is_empty() {
    let store = ConfigStore::new();
    assert_eq!(store.len(), 0);
    assert!(store.is_empty());
    assert!(store.get(&key("a")).is_none());
    assert!(!store.contains_key(&key("a")));
    assert_eq!(store.names(), Vec::<String>::new());
}

#[test]
fn configuration_finds_environments_by_name() {
    let mut store = ConfigStore::new();
    store.insert(key("msvc2022"), tagged("Microsoft Visual Studio 2022 - x64"));
    store.insert(key("qt6.8"), tagged("Qt 6.8.2 - MSVC - x64"));
    assert_eq!(store.len(), 2);
    assert!(!store.is_empty());
    assert!(store.contains_key(&key("qt6.8")));
    assert!(!store.contains_key(&key("qt")));
    assert_eq!(
        store.get(&key("msvc2022")).unwrap().display,
        Some(key("Microsoft Visual Studio 2022 - x64"))
    );
    assert!(store.get(&key("MSVC2022")).is_none());
    assert_eq!(store.names(), vec![key("msvc2022"), key("qt6.8")]);
}

#[test]
fn name_inserted_again_replaces_its_environment() {
    let mut store = ConfigStore::new();
    store.insert(key("a"), tagged("first"));
    store.insert(key("b"), tagged("other"));
    store.insert(key("a"), tagged("second"));
    assert_eq!(store.len(), 2);
    assert_eq!(store.names(), vec![key("a"), key("b")]);
    assert_eq!(store.get(&key("a")).unwrap().display, Some(key("second")));
}

#[test]
fn blank_environment_has_no_field() {
    let env = Environment::new();
    assert!(env.display.is_none() && env.go.is_none());
    assert!(env.defer.is_none() && env.path.is_none() && env.reuse.is_none());
    assert!(env.set.is_none() && env.append.is_none() && env.prepend.is_none());
    let env = Environment::default();
    assert!(env.display.is_none() && env.set.is_none() && env.reuse.is_none());
}

#[test]
fn copy_of_an_environment_has_the_same_fields() {
    let mut vars = VarMap::new();
    vars.insert(key("K"), key("V"));
    let env = Environment {
        display: Some(key("d")),
        defer: Some(vec![key("s")]),
        set: Some(vars.clone()),
        append: None,
        prepend: Some(vars),
        path: Some(vec![key("p1"), key("p2")]),
        reuse: Some(vec![]),
        go: Some(key("g")),
    };
    let copy = env.clone();
    assert_eq!(copy.display, env.display);
    assert_eq!(copy.defer, env.defer);
    assert_eq!(copy.path, env.path);
    assert_eq!(copy.reuse, env.reuse);
    assert_eq!(copy.go, env.go);
    assert_eq!(copy.set.unwrap().pairs(), vec![(key("K"), key("V"))]);
    assert!(copy.append.is_none());
    assert_eq!(copy.prepend.unwrap().pairs(), vec![(key("K"), key("V"))]);
}
