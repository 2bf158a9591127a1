use json_visitor::{visit_mut, Key, Parent, Value};

fn s(text: &str) -> Value {
    Value::String(text.to_string())
}

fn n(x: u64) -> Value {
    Value::Number(serde_json::Number::from(x))
}

fn obj(entries: Vec<(&str, Value)>) -> Value {
    Value::Object(entries.into_iter().map(|(k, v)| (k.to_string(), v)).collect())
}

fn step(key: &Key) -> String {
    match key {
        Key::Root => "$".to_string(),
        Key::Index(i) => i.to_string(),
        Key::Prop(p) => p.to_string(),
    }
}

/// The keys from the root down to `parent`, joined by '/'.
fn path_of(parent: &Parent) -> String {
    let mut steps = Vec::new();
    let mut here = Some(parent);
    while let Some(p) = here {
        steps.push(step(&p.key));
        here = p.parent;
    }
    steps.reverse();
    steps.join("/")
}

#[test]
fn rewrites_node_under_hello() {
    let mut value = Value::Array(vec![obj(vec![("hello", s("m"))]), obj(vec![("foo", s("bar"))])]);
    visit_mut(&mut value, |value, parent| {
        if parent.key == Key::Prop("hello") {
            *value = s("world");
        }
        true
    });
    let expected =
        Value::Array(vec![obj(vec![("hello", s("world"))]), obj(vec![("foo", s("bar"))])]);
    assert_eq!(value, expected);
}

#[test]
fn gated_descent_skips_children() {
    let mut value = obj(vec![("a", obj(vec![("x", n(1))])), ("b", n(2))]);
    let mut seen = Vec::new();
    visit_mut(&mut value, |_, parent| {
        seen.push(path_of(parent));
        parent.key != Key::Prop("a")
    });
    assert_eq!(seen, vec!["$", "$/a", "$/b"]);
    assert!(!seen.iter().any(|p| p.ends_with("x")));
}

#[test]
fn replaced_scalar_is_walked_as_array() {
    let mut value = obj(vec![("a", n(1))]);
    let mut seen = Vec::new();
    visit_mut(&mut value, |value, parent| {
        let above = parent.parent.map(|p| step(&p.key));
        seen.push((step(&parent.key), above));
        if parent.key == Key::Prop("a") {
            *value = Value::Array(vec![n(9), n(9)]);
        }
        true
    });
    assert_eq!(value, obj(vec![("a", Value::Array(vec![n(9), n(9)]))]));
    assert_eq!(seen.len(), 4);
    assert_eq!(seen[2], ("0".to_string(), Some("a".to_string())));
    assert_eq!(seen[3], ("1".to_string(), Some("a".to_string())));
}

#[test]
fn root_is_visited_first_with_no_parent() {
    let mut value = Value::Array(vec![n(1)]);
    let mut roots = 0;
    let mut first = None;
    visit_mut(&mut value, |_, parent| {
        if first.is_none() {
            first = Some((parent.key == Key::Root, parent.parent.is_none(), parent.is_root()));
        }
        if parent.is_root() {
            roots += 1;
        }
        true
    });
    assert_eq!(first, Some((true, true, true)));
    assert_eq!(roots, 1);
}

#[test]
fn children_below_root_point_to_the_root() {
    let mut value = Value::Array(vec![n(1)]);
    let mut above = Vec::new();
    visit_mut(&mut value, |_, parent| {
        if !parent.is_root() {
            above.push(parent.parent.map(|p| p.is_root()));
        }
        true
    });
    assert_eq!(above, vec![Some(true)]);
}

#[test]
fn visits_in_preorder_each_once() {
    let mut value = obj(vec![
        ("z", Value::Array(vec![n(1), obj(vec![("k", Value::Null)])])),
        ("a", Value::Bool(true)),
        ("m", Value::Array(vec![])),
    ]);
    let mut seen = Vec::new();
    visit_mut(&mut value, |_, parent| {
        seen.push(path_of(parent));
        true
    });
    assert_eq!(seen, vec!["$", "$/z", "$/z/0", "$/z/1", "$/z/1/k", "$/a", "$/m"]);
}

#[test]
fn object_entries_in_insertion_order() {
    let mut value = obj(vec![("b", n(1)), ("a", n(2)), ("c", n(3))]);
    let mut seen = Vec::new();
    visit_mut(&mut value, |_, parent| {
        seen.push(step(&parent.key));
        true
    });
    assert_eq!(seen, vec!["$", "b", "a", "c"]);
}

#[test]
fn false_at_root_visits_only_root() {
    let mut value = Value::Array(vec![n(1), n(2)]);
    let mut calls = 0;
    visit_mut(&mut value, |_, _| {
        calls += 1;
        false
    });
    assert_eq!(calls, 1);
    assert_eq!(value, Value::Array(vec![n(1), n(2)]));
}

#[test]
fn new_children_visited_with_fresh_indices() {
    let mut value = Value::Array(vec![Value::Null, n(5)]);
    let mut seen = Vec::new();
    visit_mut(&mut value, |value, parent| {
        seen.push(path_of(parent));
        if *value == Value::Null {
            *value = Value::Array(vec![s("a"), s("b")]);
        }
        true
    });
    assert_eq!(seen, vec!["$", "$/0", "$/0/0", "$/0/1", "$/1"]);
    assert_eq!(value, Value::Array(vec![Value::Array(vec![s("a"), s("b")]), n(5)]));
}

#[test]
fn container_swapped_for_object_walks_new_keys() {
    let mut value = Value::Array(vec![Value::Array(vec![n(1), n(2)])]);
    let mut seen = Vec::new();
    visit_mut(&mut value, |value, parent| {
        seen.push(path_of(parent));
        if parent.key == Key::Index(0) && parent.parent.map(|p| p.is_root()) == Some(true) {
            *value = obj(vec![("p", n(3)), ("q", n(4))]);
        }
        true
    });
    assert_eq!(seen, vec!["$", "$/0", "$/0/p", "$/0/q"]);
}

#[test]
fn replaced_node_not_walked_when_answer_is_false() {
    let mut value = obj(vec![("a", n(1))]);
    let mut seen = Vec::new();
    visit_mut(&mut value, |value, parent| {
        seen.push(path_of(parent));
        if parent.key == Key::Prop("a") {
            *value = Value::Array(vec![n(9), n(9)]);
            return false;
        }
        true
    });
    assert_eq!(seen, vec!["$", "$/a"]);
    assert_eq!(value, obj(vec![("a", Value::Array(vec![n(9), n(9)]))]));
}

#[test]
fn leaves_and_empty_containers_are_unchanged() {
    let mut value = Value::Array(vec![
        Value::Null,
        Value::Bool(false),
        n(7),
        s("t"),
        Value::Array(vec![]),
        Value::Object(vec![]),
    ]);
    let mut calls = 0;
    visit_mut(&mut value, |_, _| {
        calls += 1;
        true
    });
    assert_eq!(calls, 7);
    assert_eq!(
        value,
        Value::Array(vec![
            Value::Null,
            Value::Bool(false),
            n(7),
            s("t"),
            Value::Array(vec![]),
            Value::Object(vec![]),
        ])
    );
}

#[test]
fn scalar_root_is_visited_and_can_be_replaced() {
    let mut value = n(1);
    visit_mut(&mut value, |value, parent| {
        if parent.is_root() {
            *value = s("root");
        }
        true
    });
    assert_eq!(value, s("root"));
}

#[test]
fn keys_compare_by_step() {
    let owned = String::from("name");
    assert_eq!(Key::Prop(owned.as_str()), Key::Prop("name"));
    assert_ne!(Key::Prop("name"), Key::Prop("nam"));
    assert_ne!(Key::Prop("é"), Key::Prop("e"));
    assert_eq!(Key::Index(3), Key::Index(3));
    assert_ne!(Key::Index(3), Key::Index(4));
    assert_ne!(Key::Index(0), Key::Root);
    assert_eq!(Key::Root, Key::Root);
}

#[test]
fn positions_compare_by_their_own_step() {
    let root = Parent { key: Key::Root, parent: None };
    let other = Parent { key: Key::Prop("x"), parent: None };
    let a = Parent { key: Key::Index(1), parent: Some(&root) };
    let b = Parent { key: Key::Index(1), parent: Some(&other) };
    let c = Parent { key: Key::Index(2), parent: Some(&root) };
    assert_eq!(a, b);
    assert_ne!(a, c);
    assert!(root.is_root());
    assert!(!other.is_root());
    assert!(!a.is_root());
}
