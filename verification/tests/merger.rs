use use_env::{effective_environment, merge, merge_all, ConfigStore, Environment, VarMap};

fn word(s: &str) -> String {
    s.to_string()
}

fn words(items: &[&str]) -> Vec<String> {
    items.iter().map(|s| s.to_string()).collect()
}

fn vars(entries: &[(&str, &str)]) -> VarMap {
    let mut map = VarMap::new();
    for (k, v) in entries {
        map.insert(word(k), word(v));
    }
    map
}

fn pairs(entries: &[(&str, &str)]) -> Vec<(String, String)> {
    entries.iter().map(|(k, v)| (k.to_string(), v.to_string())).collect()
}

fn shown(field: &Option<VarMap>) -> Option<Vec<(String, String)>> {
    field.as_ref().map(|m| m.pairs())
}

fn full(tag: &str) -> Environment {
    Environment {
        display: Some(format!("display-{tag}")),
        defer: Some(vec![format!("script-{tag}")]),
        set: Some(vars(&[("SHARED", tag), (tag, "set")])),
        append: Some(vars(&[("SHARED", tag), (tag, "append")])),
        prepend: Some(vars(&[("SHARED", tag), (tag, "prepend")])),
        path: Some(vec![format!("path-{tag}")]),
        reuse: Some(vec![format!("reuse-{tag}")]),
        go: Some(format!("go-{tag}")),
    }
}

#[test]
fn root_value_of_a_variable_wins_over_the_reused_one() {
    let mut a = Environment::new();
    a.reuse = Some(words(&["B"]));
    a.set = Some(vars(&[("X", "from A")]));
    let mut b = Environment::new();
    b.set = Some(vars(&[("X", "from B")]));
    let mut store = ConfigStore::new();
    store.insert(word("A"), a);
    store.insert(word("B"), b);
    let merged = effective_environment(word("A"), &store).unwrap();
    let set = merged.set.unwrap();
    assert_eq!(set.get(&word("X")), Some(&word("from A")));
    assert_eq!(set.len(), 1);
}

#[test]
fn path_entries_append_base_before_specific() {
    let mut a = Environment::new();
    a.reuse = Some(words(&["B"]));
    a.path = Some(words(&["p2"]));
    let mut b = Environment::new();
    b.path = Some(words(&["p1"]));
    let mut store = ConfigStore::new();
    store.insert(word("A"), a);
    store.insert(word("B"), b);
    let merged = effective_environment(word("A"), &store).unwrap();
    assert_eq!(merged.path, Some(words(&["p1", "p2"])));
}

#[test]
fn lists_keep_what_occurs_twice() {
    let mut base = Environment::new();
    base.path = Some(words(&["bin", "lib", "bin"]));
    base.defer = Some(words(&["setup.bat"]));
    let mut over = Environment::new();
    over.path = Some(words(&["bin"]));
    over.defer = Some(words(&["setup.bat", "more.bat"]));
    let merged = merge(&base, &over);
    assert_eq!(merged.path, Some(words(&["bin", "lib", "bin", "bin"])));
    assert_eq!(merged.defer, Some(words(&["setup.bat", "setup.bat", "more.bat"])));
}

#[test]
fn single_strings_take_the_last_that_is_there() {
    let mut base = Environment::new();
    base.display = Some(word("base"));
    base.go = Some(word("/base"));
    let mut over = Environment::new();
    over.display = Some(word("over"));
    let merged = merge(&base, &over);
    assert_eq!(merged.display, Some(word("over")));
    assert_eq!(merged.go, Some(word("/base")));
    let merged = merge(&over, &base);
    assert_eq!(merged.display, Some(word("base")));
    assert_eq!(merged.go, Some(word("/base")));
    let merged = merge(&Environment::new(), &Environment::new());
    assert_eq!(merged.display, None);
    assert_eq!(merged.go, None);
}

#[test]
fn mappings_unite_key_by_key() {
    let mut base = Environment::new();
    base.set = Some(vars(&[("A", "1"), ("B", "2"), ("C", "3")]));
    base.append = Some(vars(&[("P", "x")]));
    let mut over = Environment::new();
    over.set = Some(vars(&[("B", "20"), ("D", "40")]));
    over.prepend = Some(vars(&[("Q", "y")]));
    let merged = merge(&base, &over);
    assert_eq!(
        shown(&merged.set),
        Some(pairs(&[("A", "1"), ("B", "20"), ("C", "3"), ("D", "40")]))
    );
    assert_eq!(shown(&merged.append), Some(pairs(&[("P", "x")])));
    assert_eq!(shown(&merged.prepend), Some(pairs(&[("Q", "y")])));
}

#[test]
fn every_field_follows_its_rule() {
    let merged = merge(&full("b"), &full("a"));
    assert_eq!(merged.display, Some(word("display-a")));
    assert_eq!(merged.go, Some(word("go-a")));
    assert_eq!(merged.defer, Some(words(&["script-b", "script-a"])));
    assert_eq!(merged.path, Some(words(&["path-b", "path-a"])));
    assert_eq!(merged.reuse, Some(words(&["reuse-b", "reuse-a"])));
    let want = |kind: &str| Some(pairs(&[("SHARED", "a"), ("b", kind), ("a", kind)]));
    assert_eq!(shown(&merged.set), want("set"));
    assert_eq!(shown(&merged.append), want("append"));
    assert_eq!(shown(&merged.prepend), want("prepend"));
}

#[test]
fn environment_with_only_a_display_adds_to_no_collection() {
    let mut only = Environment::new();
    only.display = Some(word("just a label"));
    let base = full("b");
    let merged = merge(&base, &only);
    assert_eq!(merged.display, Some(word("just a label")));
    assert_eq!(merged.go, base.go);
    assert_eq!(merged.defer, base.defer);
    assert_eq!(merged.path, base.path);
    assert_eq!(merged.reuse, base.reuse);
    assert_eq!(shown(&merged.set), shown(&base.set));
    assert_eq!(shown(&merged.append), shown(&base.append));
    assert_eq!(shown(&merged.prepend), shown(&base.prepend));
    let merged = merge(&only, &base);
    assert_eq!(merged.display, base.display);
    assert_eq!(merged.defer, base.defer);
    assert_eq!(shown(&merged.set), shown(&base.set));
    let alone = merge_all(&vec![only.clone()]);
    assert_eq!(alone.display, Some(word("just a label")));
    assert_eq!(alone.defer, None);
    assert!(alone.set.is_none() && alone.append.is_none() && alone.prepend.is_none());
    assert_eq!(alone.path, None);
    assert_eq!(alone.reuse, None);
    assert_eq!(alone.go, None);
    let mut store = ConfigStore::new();
    store.insert(word("only"), only);
    let effective = effective_environment(word("only"), &store).unwrap();
    assert_eq!(effective.display, Some(word("just a label")));
    assert_eq!(effective.path, None);
    assert!(effective.set.is_none());
}

#[test]
fn absent_and_empty_collections_stay_apart() {
    let mut base = Environment::new();
    base.path = Some(vec![]);
    let merged = merge(&base, &Environment::new());
    assert_eq!(merged.path, Some(vec![]));
    assert_eq!(merged.defer, None);
    let merged = merge(&Environment::new(), &base);
    assert_eq!(merged.path, Some(vec![]));
}

#[test]
fn one_environment_merges_to_itself() {
    let merged = merge_all(&vec![full("x")]);
    let x = full("x");
    assert_eq!(merged.display, x.display);
    assert_eq!(merged.defer, x.defer);
    assert_eq!(merged.path, x.path);
    assert_eq!(merged.reuse, x.reuse);
    assert_eq!(merged.go, x.go);
    assert_eq!(shown(&merged.set), shown(&x.set));
    assert_eq!(shown(&merged.append), shown(&x.append));
    assert_eq!(shown(&merged.prepend), shown(&x.prepend));
}

#[test]
fn sequence_merges_left_to_right() {
    let merged = merge_all(&vec![full("c"), full("b"), full("a")]);
    assert_eq!(merged.display, Some(word("display-a")));
    assert_eq!(merged.path, Some(words(&["path-c", "path-b", "path-a"])));
    assert_eq!(
        shown(&merged.set),
        Some(pairs(&[("SHARED", "a"), ("c", "set"), ("b", "set"), ("a", "set")]))
    );
}

#[test]
fn diamond_merges_in_the_reverse_of_discovery() {
    let mut r = Environment::new();
    r.reuse = Some(words(&["B", "C"]));
    r.set = Some(vars(&[("ROOT", "R")]));
    let mut b = Environment::new();
    b.reuse = Some(words(&["D"]));
    b.set = Some(vars(&[("SHARED", "B"), ("B_AND_D", "B")]));
    b.path = Some(words(&["b"]));
    let mut c = Environment::new();
    c.reuse = Some(words(&["D"]));
    c.set = Some(vars(&[("SHARED", "C"), ("C_AND_D", "C")]));
    c.path = Some(words(&["c"]));
    let mut d = Environment::new();
    d.set = Some(vars(&[("B_AND_D", "D"), ("C_AND_D", "D"), ("ONLY_D", "D")]));
    d.path = Some(words(&["d"]));
    let mut store = ConfigStore::new();
    store.insert(word("R"), r);
    store.insert(word("B"), b);
    store.insert(word("C"), c);
    store.insert(word("D"), d);
    let merged = effective_environment(word("R"), &store).unwrap();
    assert_eq!(merged.path, Some(words(&["c", "d", "b"])));
    let set = merged.set.unwrap();
    assert_eq!(set.get(&word("ROOT")), Some(&word("R")));
    assert_eq!(set.get(&word("ONLY_D")), Some(&word("D")));
    assert_eq!(set.get(&word("B_AND_D")), Some(&word("B")));
    assert_eq!(set.get(&word("C_AND_D")), Some(&word("D")));
    assert_eq!(set.get(&word("SHARED")), Some(&word("B")));
    assert_eq!(set.len(), 5);
}

#[test]
fn merged_result_is_the_same_every_time() {
    let mut store = ConfigStore::new();
    let mut a = full("a");
    a.reuse = Some(words(&["b"]));
    let mut b = full("b");
    b.reuse = None;
    store.insert(word("a"), a);
    store.insert(word("b"), b);
    let first = effective_environment(word("a"), &store).unwrap();
    let second = effective_environment(word("a"), &store).unwrap();
    assert_eq!(first.display, second.display);
    assert_eq!(first.defer, second.defer);
    assert_eq!(first.path, second.path);
    assert_eq!(first.go, second.go);
    assert_eq!(shown(&first.set), shown(&second.set));
    assert_eq!(shown(&first.append), shown(&second.append));
    assert_eq!(shown(&first.prepend), shown(&second.prepend));
    assert_eq!(first.path, Some(words(&["path-b", "path-a"])));
}

#[test]
fn merging_reads_its_inputs_only() {
    let base = full("b");
    let over = full("a");
    let _ = merge(&base, &over);
    assert_eq!(base.path, Some(words(&["path-b"])));
    assert_eq!(shown(&base.set), Some(pairs(&[("SHARED", "b"), ("b", "set")])));
    assert_eq!(over.display, Some(word("display-a")));
}

#[test]
fn append_and_prepend_are_merged_apart_from_set() {
    let mut base = Environment::new();
    base.set = Some(vars(&[("VAR", "value")]));
    let mut over = Environment::new();
    over.append = Some(vars(&[("VAR", ";more")]));
    over.prepend = Some(vars(&[("VAR", "less;")]));
    let merged = merge(&base, &over);
    assert_eq!(shown(&merged.set), Some(pairs(&[("VAR", "value")])));
    assert_eq!(shown(&merged.append), Some(pairs(&[("VAR", ";more")])));
    assert_eq!(shown(&merged.prepend), Some(pairs(&[("VAR", "less;")])));
}

#[test]
fn sibling_listed_first_wins_over_the_one_listed_later() {
    let mut root = Environment::new();
    root.reuse = Some(words(&["first", "second"]));
    let mut first = Environment::new();
    first.display = Some(word("first"));
    first.set = Some(vars(&[("BOTH", "first")]));
    first.path = Some(words(&["/first"]));
    let mut second = Environment::new();
    second.display = Some(word("second"));
    second.set = Some(vars(&[("BOTH", "second"), ("SECOND", "2")]));
    second.path = Some(words(&["/second"]));
    let mut store = ConfigStore::new();
    store.insert(word("root"), root);
    store.insert(word("first"), first);
    store.insert(word("second"), second);
    let merged = effective_environment(word("root"), &store).unwrap();
    assert_eq!(merged.display, Some(word("first")));
    assert_eq!(merged.path, Some(words(&["/second", "/first"])));
    assert_eq!(shown(&merged.set), Some(pairs(&[("BOTH", "first"), ("SECOND", "2")])));
    assert_eq!(merged.reuse, Some(words(&["first", "second"])));
}
