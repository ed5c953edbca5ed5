use projector::path::DirPath;
use projector::projector::Projector;
use projector::store::{Scope, Store};

fn scope_of(pairs: &[(&str, &str)]) -> Scope {
    let mut sc = Scope::new();
    for (k, v) in pairs {
        sc.insert(k.to_string(), v.to_string());
    }
    sc
}

fn get_data() -> Store {
    let mut store = Store::new();
    store.put_scope(
        DirPath::parse("/"),
        scope_of(&[("foo", "bar1"), ("bar", "bazz")]),
    );
    store.put_scope(DirPath::parse("/foo"), scope_of(&[("foo", "bar2")]));
    store.put_scope(DirPath::parse("/foo/bar"), scope_of(&[("foo", "bar3")]));
    store.put_scope(DirPath::parse("/foo/bar/baz"), scope_of(&[("foo", "bar3")]));
    store
}

#[test]
fn get_value() {
    let proj = Projector {
        data: get_data(),
        config: String::from("/foo/bar"),
        pwd: DirPath::parse("/foo/bar"),
    };

    assert_eq!(proj.get_value("foo"), Some(String::from("bar3")));
    assert_eq!(proj.get_value("bar"), Some(String::from("bazz")));
    assert_eq!(proj.get_value("notehu"), None);
}

#[test]
fn set_value() {
    let mut proj = Projector {
        data: get_data(),
        config: String::from("/foo/bar"),
        pwd: DirPath::parse("/foo/bar"),
    };

    assert_eq!(proj.get_value("foo"), Some(String::from("bar3")));
    proj.set_value("foo", "hello, fem");
    assert_eq!(proj.get_value("foo"), Some(String::from("hello, fem")));
}

#[test]
fn delete_value() {
    let mut proj = Projector {
        data: get_data(),
        config: String::from("/foo/bar"),
        pwd: DirPath::parse("/foo/bar"),
    };

    assert_eq!(proj.get_value("foo"), Some(String::from("bar3")));
    proj.remove_value("foo");
    assert_eq!(proj.get_value("foo"), Some(String::from("bar2")));
}

#[test]
fn override_ordering() {
    let mut store = Store::new();
    store.put_scope(DirPath::parse("/"), scope_of(&[("k", "A")]));
    store.put_scope(DirPath::parse("/x"), scope_of(&[("k", "B")]));

    let under_x = Projector {
        data: store,
        config: String::from("/cfg"),
        pwd: DirPath::parse("/x/y"),
    };
    assert_eq!(under_x.get_value("k"), Some(String::from("B")));
    let all = under_x.get_value_all();
    assert_eq!(all.get("k"), Some(&String::from("B")));

    let elsewhere = Projector {
        data: under_x.data,
        config: String::from("/cfg"),
        pwd: DirPath::parse("/z"),
    };
    assert_eq!(elsewhere.get_value("k"), Some(String::from("A")));
}

#[test]
fn writes_do_not_leak_to_other_directories() {
    let mut store = Store::new();
    store.put_scope(DirPath::parse("/"), scope_of(&[("k", "root")]));
    let mut at_x = Projector {
        data: store,
        config: String::from("/cfg"),
        pwd: DirPath::parse("/x"),
    };
    at_x.set_value("k", "only-under-x");

    let at_y = Projector {
        data: at_x.data,
        config: String::from("/cfg"),
        pwd: DirPath::parse("/y"),
    };
    assert_eq!(at_y.get_value("k"), Some(String::from("root")));
}

#[test]
fn removal_is_idempotent() {
    let mut once = Projector {
        data: get_data(),
        config: String::from("/cfg"),
        pwd: DirPath::parse("/foo/bar"),
    };
    once.remove_value("foo");
    let json_once = once.to_json();
    once.remove_value("foo");
    assert_eq!(once.to_json(), json_once);
}

#[test]
fn removal_of_absent_key_is_a_no_op() {
    let mut proj = Projector {
        data: get_data(),
        config: String::from("/cfg"),
        pwd: DirPath::parse("/nowhere"),
    };
    let before = proj.to_json();
    proj.remove_value("missing");
    assert_eq!(proj.to_json(), before);
}

#[test]
fn get_value_all_merges_ancestors() {
    let proj = Projector {
        data: get_data(),
        config: String::from("/cfg"),
        pwd: DirPath::parse("/foo/bar"),
    };
    let all = proj.get_value_all();
    assert_eq!(all.entry_count(), 2);
    assert_eq!(all.get("foo"), Some(&String::from("bar3")));
    assert_eq!(all.get("bar"), Some(&String::from("bazz")));
    assert_eq!(all.get("missing"), None);
}

#[test]
fn unnormalized_directories_resolve_alike() {
    let proj = Projector {
        data: get_data(),
        config: String::from("/cfg"),
        pwd: DirPath::parse("/foo/./bar//baz/.."),
    };
    assert_eq!(proj.get_value("foo"), Some(String::from("bar3")));
    assert_eq!(DirPath::parse("/foo/./bar//baz/..").to_string(), "/foo/bar");
    assert_eq!(DirPath::parse("/").to_string(), "/");
    assert_eq!(DirPath::parse("/../x").to_string(), "/x");
}
