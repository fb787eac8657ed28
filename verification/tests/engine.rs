use toml_sort::model::{Arr, Decor, Entry, Item, Table, Val};
use toml_sort::tables::{sort_array, sort_by_group};
use toml_sort::{sort_toml, Matcher};

fn s(x: &str) -> String {
    x.to_owned()
}

fn no_decor() -> Decor {
    Decor { prefix: None, suffix: None }
}

fn str_val(x: &str) -> Val {
    Val::Str { text: s(x), decor: no_decor() }
}

fn other_val(x: &str) -> Val {
    Val::Other { repr: s(x), decor: no_decor() }
}

fn entry(key: &str, item: Item) -> Entry {
    Entry { key: s(key), key_decor: no_decor(), item }
}

fn entry_decor(key: &str, prefix: &str, item: Item) -> Entry {
    Entry {
        key: s(key),
        key_decor: Decor { prefix: Some(s(prefix)), suffix: None },
        item,
    }
}

fn table(entries: Vec<Entry>) -> Table {
    Table { entries, implicit: false, dotted: false, position: None, decor: no_decor() }
}

fn scalar(x: &str) -> Item {
    Item::Val(Val::Other { repr: s(x), decor: no_decor() })
}

fn matcher() -> Matcher {
    Matcher {
        heading: vec![s("dependencies"), s("dev-dependencies"), s("build-dependencies")],
        heading_key: vec![
            (s("workspace"), s("members")),
            (s("workspace"), s("exclude")),
            (s("workspace"), s("dependencies")),
        ],
    }
}

fn keys_of(t: &Table) -> Vec<String> {
    t.entries.iter().map(|e| e.key.clone()).collect()
}

fn get_table<'a>(t: &'a Table, name: &str) -> &'a Table {
    for e in &t.entries {
        if e.key == name {
            if let Item::Tbl(inner) = &e.item {
                return inner;
            }
        }
    }
    panic!("no table {name}");
}

#[test]
fn string_array_sorts() {
    let arr = Arr {
        items: vec![str_val("b"), str_val("a"), str_val("c")],
        trailing: Some(s(" # done")),
        trailing_comma: true,
    };
    let sorted = sort_array(arr);
    let texts: Vec<String> = sorted
        .items
        .iter()
        .map(|v| match v {
            Val::Str { text, .. } => text.clone(),
            Val::Other { repr, .. } => repr.clone(),
        })
        .collect();
    assert_eq!(texts, vec![s("a"), s("b"), s("c")]);
    assert_eq!(sorted.trailing, Some(s(" # done")));
    assert!(sorted.trailing_comma);
}

#[test]
fn mixed_array_unchanged() {
    let arr = Arr {
        items: vec![other_val("1"), str_val("a")],
        trailing: None,
        trailing_comma: false,
    };
    let sorted = sort_array(arr);
    match &sorted.items[0] {
        Val::Other { repr, .. } => assert_eq!(repr, "1"),
        _ => panic!("first element changed"),
    }
    match &sorted.items[1] {
        Val::Str { text, .. } => assert_eq!(text, "a"),
        _ => panic!("second element changed"),
    }
}

#[test]
fn grouped_sort_respects_groups() {
    let entries = vec![
        entry("z", scalar("1")),
        entry("a", scalar("2")),
        entry_decor("y", "\n# second group\n", scalar("3")),
        entry("b", scalar("4")),
    ];
    let sorted = sort_by_group(entries);
    let keys: Vec<String> = sorted.iter().map(|e| e.key.clone()).collect();
    assert_eq!(keys, vec![s("a"), s("z"), s("b"), s("y")]);
    // the group's blank-line block moved to the group's new first key
    assert_eq!(sorted[2].key_decor.prefix, Some(s("\n# second group\n")));
    assert_eq!(sorted[3].key_decor.prefix, None);
}

#[test]
fn conditional_adjacency() {
    let deps = table(vec![entry("b", scalar("\"1\"")), entry("a", scalar("\"2\""))]);
    let cond_deps = Table {
        entries: vec![entry("windows-sys", scalar("\"0.5\""))],
        implicit: false,
        dotted: false,
        position: Some(2),
        decor: no_decor(),
    };
    let cfg = Table {
        entries: vec![entry("dependencies", Item::Tbl(cond_deps))],
        implicit: true,
        dotted: false,
        position: None,
        decor: no_decor(),
    };
    let target = Table {
        entries: vec![entry("cfg(unix)", Item::Tbl(cfg))],
        implicit: true,
        dotted: false,
        position: None,
        decor: no_decor(),
    };
    let doc = table(vec![
        entry("dependencies", Item::Tbl(deps)),
        entry("target", Item::Tbl(target)),
    ]);
    let ordering = vec![s("dependencies")];
    let out = sort_toml(doc, &matcher(), false, &ordering);
    let plain = get_table(&out, "dependencies");
    assert_eq!(plain.position, Some(0));
    assert_eq!(keys_of(plain), vec![s("a"), s("b")]);
    let cond = get_table(get_table(get_table(&out, "target"), "cfg(unix)"), "dependencies");
    // the conditional block lands immediately after the unconditioned one
    assert_eq!(cond.position, Some(1));
}

#[test]
fn ordering_coverage() {
    let doc = table(vec![
        entry("A", Item::Tbl(table(vec![entry("x", scalar("1"))]))),
        entry("B", Item::Tbl(table(vec![entry("x", scalar("1"))]))),
        entry("C", Item::Tbl(table(vec![entry("x", scalar("1"))]))),
    ]);
    let ordering = vec![s("B")];
    let out = sort_toml(doc, &matcher(), false, &ordering);
    // output order is B, A, C: the missing names are appended in input order
    assert_eq!(get_table(&out, "B").position, Some(0));
    assert_eq!(get_table(&out, "A").position, Some(1));
    assert_eq!(get_table(&out, "C").position, Some(2));
}

#[test]
fn sorting_twice_changes_nothing() {
    let deps = table(vec![
        entry("serde", scalar("\"1\"")),
        entry("anyhow", scalar("\"2\"")),
        entry("clap", scalar("\"3\"")),
    ]);
    let doc = table(vec![
        entry("package", Item::Tbl(table(vec![entry("name", scalar("\"x\""))]))),
        entry("dependencies", Item::Tbl(deps)),
    ]);
    let ordering: Vec<String> = vec![];
    let once = sort_toml(doc, &matcher(), false, &ordering);
    let keys1 = keys_of(get_table(&once, "dependencies"));
    let pos1 = get_table(&once, "dependencies").position;
    let twice = sort_toml(once, &matcher(), false, &ordering);
    let keys2 = keys_of(get_table(&twice, "dependencies"));
    let pos2 = get_table(&twice, "dependencies").position;
    assert_eq!(keys1, vec![s("anyhow"), s("clap"), s("serde")]);
    assert_eq!(keys1, keys2);
    assert_eq!(pos1, pos2);
}

#[test]
fn workspace_members_sorted() {
    let members = Arr {
        items: vec![str_val("zeta"), str_val("alpha")],
        trailing: None,
        trailing_comma: false,
    };
    let ws = table(vec![entry("members", Item::Arr(members))]);
    let doc = table(vec![entry("workspace", Item::Tbl(ws))]);
    let ordering: Vec<String> = vec![];
    let out = sort_toml(doc, &matcher(), false, &ordering);
    let ws2 = get_table(&out, "workspace");
    match &ws2.entries[0].item {
        Item::Arr(a) => match &a.items[0] {
            Val::Str { text, .. } => assert_eq!(text, "alpha"),
            _ => panic!("not a string"),
        },
        _ => panic!("members is not an array"),
    }
}
