//! Structured values, the template parser, the discriminator and the
//! node store's bookkeeping.

use view_manager::bean::{VNode, ViewProps, props_eq};
use view_manager::err::Error;
use view_manager::inner::{ChildMode, discriminator, resolve_script};
use view_manager::node::parse_child;
use view_manager::store::ViewManager;
use view_manager::value::{Value, value_eq, value_first, value_get, value_is_empty};

fn sv(x: &str) -> Value {
    Value::Str(x.to_string())
}

fn iv(x: i64) -> Value {
    Value::Int(x)
}

fn arr(items: Vec<Value>) -> Value {
    Value::Arr(items)
}

fn obj(pairs: Vec<(&str, Value)>) -> Value {
    Value::Obj(pairs.into_iter().map(|(k, v)| (k.to_string(), v)).collect())
}

#[test]
fn value_equality_is_structural() {
    let a = obj(vec![("x", iv(1)), ("y", arr(vec![sv("a"), Value::Null]))]);
    let b = obj(vec![("x", iv(1)), ("y", arr(vec![sv("a"), Value::Null]))]);
    let c = obj(vec![("x", iv(2)), ("y", arr(vec![sv("a"), Value::Null]))]);
    assert!(value_eq(&a, &b));
    assert!(!value_eq(&a, &c));
    assert!(!value_eq(&a, &sv("a")));
    assert!(value_eq(&a.clone(), &a));
}

#[test]
fn value_get_finds_first_member() {
    let v = obj(vec![("k", iv(1)), ("k", iv(2)), ("m", iv(3))]);
    assert!(value_eq(value_get(&v, "k").unwrap(), &iv(1)));
    assert!(value_eq(value_get(&v, "m").unwrap(), &iv(3)));
    assert!(value_get(&v, "absent").is_none());
    assert!(value_get(&iv(5), "k").is_none());
}

#[test]
fn value_first_and_emptiness() {
    assert!(value_eq(value_first(&arr(vec![iv(7), iv(8)])).unwrap(), &iv(7)));
    assert!(value_first(&arr(vec![])).is_none());
    assert!(value_first(&sv("x")).is_none());
    assert!(value_is_empty(&Value::Null));
    assert!(value_is_empty(&sv("")));
    assert!(value_is_empty(&arr(vec![])));
    assert!(value_is_empty(&iv(0)));
    assert!(value_is_empty(&Value::Bool(false)));
    assert!(!value_is_empty(&sv("x")));
    assert!(!value_is_empty(&iv(3)));
}

#[test]
fn props_equality_checks_class_and_props() {
    let a = ViewProps { class: "div".to_string(), props: obj(vec![("x", iv(1))]) };
    let b = ViewProps { class: "div".to_string(), props: obj(vec![("x", iv(1))]) };
    let c = ViewProps { class: "span".to_string(), props: obj(vec![("x", iv(1))]) };
    let d = ViewProps { class: "div".to_string(), props: obj(vec![("x", iv(2))]) };
    assert!(props_eq(&a, &b));
    assert!(!props_eq(&a, &c));
    assert!(!props_eq(&a, &d));
}

#[test]
fn parse_child_reads_class_props_children() {
    let v = obj(vec![
        ("$class", arr(vec![sv("div")])),
        ("$props", arr(vec![obj(vec![("x", iv(1))])])),
        (
            "$child",
            arr(vec![obj(vec![
                ("$class", arr(vec![sv("span")])),
                ("$props", arr(vec![Value::Null])),
                ("$child", arr(vec![])),
            ])]),
        ),
    ]);
    let t = parse_child(&v).unwrap();
    assert_eq!(t.data.class, "div");
    assert!(value_eq(&t.data.props, &obj(vec![("x", iv(1))])));
    assert_eq!(t.child_v.len(), 1);
    assert_eq!(t.child_v[0].data.class, "span");
    assert!(value_eq(&t.child_v[0].data.props, &Value::Null));
    assert_eq!(t.child_v[0].child_v.len(), 0);
}

#[test]
fn parse_child_sentinel_string() {
    let t = parse_child(&sv("$child")).unwrap();
    assert_eq!(t.data.class, "$child");
    assert!(value_eq(&t.data.props, &Value::Null));
    assert!(t.child_v.is_empty());
}

#[test]
fn parse_child_missing_class_is_runtime_error() {
    let v = obj(vec![("$props", arr(vec![Value::Null]))]);
    assert!(matches!(parse_child(&v), Err(Error::RuntimeError)));
    assert!(matches!(parse_child(&sv("not-the-sentinel")), Err(Error::RuntimeError)));
    let v2 = obj(vec![("$class", arr(vec![iv(3)]))]);
    assert!(matches!(parse_child(&v2), Err(Error::RuntimeError)));
}

#[test]
fn parse_child_defaults() {
    // Missing props default to null; a non-array child entry means no
    // children.
    let v = obj(vec![("$class", arr(vec![sv("div")]))]);
    let t = parse_child(&v).unwrap();
    assert!(value_eq(&t.data.props, &Value::Null));
    assert!(t.child_v.is_empty());
}

#[test]
fn discriminator_selects_strategy() {
    assert_eq!(discriminator(&obj(vec![])).unwrap(), ChildMode::Positional);
    assert_eq!(
        discriminator(&obj(vec![("$type", arr(vec![sv("list")]))])).unwrap(),
        ChildMode::Positional
    );
    assert_eq!(
        discriminator(&obj(vec![("$type", arr(vec![sv("set")]))])).unwrap(),
        ChildMode::Keyed
    );
    assert_eq!(
        discriminator(&obj(vec![("$type", sv("set"))])).unwrap(),
        ChildMode::Keyed
    );
    assert_eq!(
        discriminator(&obj(vec![("$type", arr(vec![sv("tree")]))])).unwrap_err(),
        Error::UnsupportedMode
    );
    assert_eq!(
        discriminator(&obj(vec![("$type", iv(4))])).unwrap_err(),
        Error::UnsupportedMode
    );
}

#[test]
fn resolve_script_joins_lines() {
    assert_eq!(resolve_script(&sv("a = 1;")).unwrap(), "a = 1;");
    assert_eq!(
        resolve_script(&arr(vec![sv("a = 1;"), sv("b = 2;")])).unwrap(),
        "a = 1;\nb = 2;"
    );
    assert_eq!(resolve_script(&arr(vec![])).unwrap(), "");
    assert_eq!(resolve_script(&iv(1)).unwrap_err(), Error::RuntimeError);
    assert_eq!(
        resolve_script(&arr(vec![sv("a"), iv(1)])).unwrap_err(),
        Error::RuntimeError
    );
}

#[test]
fn store_issues_fresh_identifiers() {
    let mut vm = ViewManager::new();
    let a = vm.new_vnode(VNode::new(0, None));
    let b = vm.new_vnode(VNode::new(0, None));
    assert!(a != 0 && b != 0 && a != b);
    assert!(b > a);
    assert!(vm.get_vnode(&a).is_some());
    let taken = vm.rm_vnode(a).unwrap();
    assert!(taken.is_dirty);
    assert!(vm.get_vnode(&a).is_none());
    // Removal is idempotent and identifiers are never reused.
    assert!(vm.rm_vnode(a).is_none());
    let c = vm.new_vnode(VNode::new(0, None));
    assert!(c > b);
}

#[test]
fn fresh_nodes_start_dirty_and_empty() {
    let mut vm = ViewManager::new();
    let a = vm.new_vnode(VNode::new(0, Some(7)));
    let n = vm.get_vnode(&a).unwrap();
    assert!(n.is_dirty);
    assert_eq!(n.inner_id, 0);
    assert!(n.embeded_child_v.is_empty());
    assert_eq!(n.context, 0);
    assert_eq!(n.parent_op, Some(7));
    assert_eq!(n.view_props.class, "");
    assert!(value_eq(&n.view_props.props, &Value::Null));
    assert!(value_eq(&n.state, &obj(vec![])));
}

#[test]
fn dirty_queue_coalesces_and_orders() {
    let mut vm = ViewManager::new();
    let a = vm.new_vnode(VNode::new(0, None));
    let b = vm.new_vnode(VNode::new(0, None));
    let p1 = ViewProps { class: "one".to_string(), props: Value::Null };
    let p2 = ViewProps { class: "two".to_string(), props: Value::Null };
    vm.insert_dirty(b, Some(p1));
    vm.insert_dirty(a, None);
    // Inserting the same identifier twice keeps only the latest entry.
    vm.insert_dirty(b, Some(p2));
    assert_eq!(vm.dirty_len(), 2);
    // Drain order is by identifier.
    let first = vm.pop_dirty().unwrap();
    assert_eq!(first.0, a);
    assert!(first.1.is_none());
    let second = vm.pop_dirty().unwrap();
    assert_eq!(second.0, b);
    assert_eq!(second.1.unwrap().class, "two");
    assert!(vm.pop_dirty().is_none());
}
