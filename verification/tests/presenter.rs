use use_env::{
    list_environments, render_environment, render_environments, resolve, ConfigStore,
    Environment, VarMap,
};

fn line(s: &str) -> String {
    s.to_string()
}

fn lines(items: &[&str]) -> Vec<String> {
    items.iter().map(|s| s.to_string()).collect()
}

fn map_of(entries: &[(&str, &str)]) -> VarMap {
    let mut map = VarMap::new();
    for (k, v) in entries {
        map.insert(line(k), line(v));
    }
    map
}

fn named(names: &[&str]) -> ConfigStore {
    let mut store = ConfigStore::new();
    for name in names {
        store.insert(line(name), Environment::new());
    }
    store
}

#[test]
fn every_field_has_its_label() {
    let env = Environment {
        display: Some(line("Qt 6.8.2 - MSVC - x64")),
        defer: Some(lines(&["C:\\vc\\vcvars64.bat", "second.bat"])),
        set: Some(map_of(&[("QTDIR", "C:\\Qt\\6.8.2\\msvc2019_64\\")])),
        append: Some(map_of(&[("CMAKE_PREFIX_PATH", "C:\\Qt"), ("OTHER", "x")])),
        prepend: Some(map_of(&[("INCLUDE", "C:\\inc")])),
        path: Some(lines(&["C:\\Qt\\bin", "C:\\tools"])),
        reuse: Some(lines(&["msvc2022"])),
        go: Some(line("C:\\work")),
    };
    assert_eq!(
        render_environment(&env),
        lines(&[
            "DISPLAY: Qt 6.8.2 - MSVC - x64",
            "DEFER: C:\\vc\\vcvars64.bat",
            "DEFER: second.bat",
            "SET: QTDIR = C:\\Qt\\6.8.2\\msvc2019_64\\",
            "APPEND: CMAKE_PREFIX_PATH = C:\\Qt",
            "APPEND: OTHER = x",
            "PREPEND: INCLUDE = C:\\inc",
            "PATH: C:\\Qt\\bin",
            "PATH: C:\\tools",
            "GO: C:\\work",
        ])
    );
}

#[test]
fn absent_fields_give_no_line() {
    assert_eq!(render_environment(&Environment::new()), Vec::<String>::new());
    let mut env = Environment::new();
    env.go = Some(line("/srv"));
    assert_eq!(render_environment(&env), lines(&["GO: /srv"]));
    let mut env = Environment::new();
    env.path = Some(vec![]);
    env.set = Some(VarMap::new());
    env.reuse = Some(lines(&["a", "b"]));
    assert_eq!(render_environment(&env), Vec::<String>::new());
}

#[test]
fn empty_strings_still_give_their_line() {
    let mut env = Environment::new();
    env.display = Some(line(""));
    env.set = Some(map_of(&[("", "")]));
    env.path = Some(lines(&[""]));
    assert_eq!(render_environment(&env), lines(&["DISPLAY: ", "SET:  = ", "PATH: "]));
}

#[test]
fn several_environments_are_shown_one_after_the_other() {
    let mut base = Environment::new();
    base.display = Some(line("base"));
    base.path = Some(lines(&["/base/bin"]));
    let mut top = Environment::new();
    top.display = Some(line("top"));
    top.reuse = Some(lines(&["base"]));
    top.set = Some(map_of(&[("HOME", "/top")]));
    let mut store = ConfigStore::new();
    store.insert(line("top"), top);
    store.insert(line("base"), base);
    let records = resolve(line("top"), &store).unwrap();
    assert_eq!(
        render_environments(&records),
        lines(&["DISPLAY: base", "PATH: /base/bin", "DISPLAY: top", "SET: HOME = /top"])
    );
    assert_eq!(render_environments(&Vec::new()), Vec::<String>::new());
}

#[test]
fn names_are_listed_in_ascending_order() {
    let store = named(&["qt6.8", "example", "msvc2022"]);
    assert_eq!(list_environments(&store), lines(&["example", "msvc2022", "qt6.8"]));
    assert_eq!(list_environments(&ConfigStore::new()), Vec::<String>::new());
}

#[test]
fn names_are_ordered_as_strings_are() {
    let given = ["b", "ab", "a", "", "B", "a1", "aa", "Z", "é", "z", "10", "9", "日本", "~"];
    let store = named(&given);
    let mut want: Vec<String> = given.iter().map(|s| s.to_string()).collect();
    want.sort();
    assert_eq!(list_environments(&store), want);
    assert_eq!(
        list_environments(&store),
        lines(&["", "10", "9", "B", "Z", "a", "a1", "aa", "ab", "b", "z", "~", "é", "日本"])
    );
}

#[test]
fn listing_names_each_name_once() {
    let mut store = named(&["b", "a"]);
    store.insert(line("b"), Environment::new());
    store.insert(line("a"), Environment::new());
    assert_eq!(list_environments(&store), lines(&["a", "b"]));
}
