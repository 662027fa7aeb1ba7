//! Event dispatch: the round trip from a named event through the
//! handler script to a committed state change and a re-queued
//! reconciliation, and the failure and no-op paths around it.

use view_manager::bean::{VNode, ViewProps};
use view_manager::def::{AsLayoutEvaluator, RecordingProvider};
use view_manager::err::Error;
use view_manager::store::ViewManager;
use view_manager::value::{Value, value_eq};

fn sv(x: &str) -> Value {
    Value::Str(x.to_string())
}

fn iv(x: i64) -> Value {
    Value::Int(x)
}

fn arr(items: Vec<Value>) -> Value {
    Value::Arr(items)
}

fn obj(pairs: Vec<(&str, Value)>) -> Value {
    Value::Obj(pairs.into_iter().map(|(k, v)| (k.to_string(), v)).collect())
}

fn mk_props(class: &str, props: Value) -> ViewProps {
    ViewProps { class: class.to_string(), props }
}

/// An evaluator without layouts whose event scripts are tiny programs:
/// `"inc"` adds one to `state.count`, `"same"` echoes the state back,
/// `"fail"` fails.  It counts how often it is asked for a view.
struct EventEvaluator {
    asked: std::cell::Cell<usize>,
}

impl EventEvaluator {
    fn new() -> EventEvaluator {
        EventEvaluator { asked: std::cell::Cell::new(0) }
    }
}

impl AsLayoutEvaluator for EventEvaluator {
    fn get_class_view(&self, _class: &str) -> Option<String> {
        self.asked.set(self.asked.get() + 1);
        None
    }

    fn execute_layout_script(
        &mut self,
        _script: &str,
        _state: &Value,
        _props: &Value,
        _vnode_id: u64,
    ) -> Result<Value, Error> {
        Err(Error::RuntimeError)
    }

    fn execute_event_script(
        &mut self,
        script: &str,
        _data: &Value,
        state: &Value,
        _context: u64,
        _vnode_id: u64,
    ) -> Result<Value, Error> {
        match script {
            "inc" => {
                let mut count: i64 = 0;
                if let Value::Obj(pairs) = state {
                    for (k, v) in pairs {
                        if k == "count" {
                            if let Value::Int(i) = v {
                                count = *i;
                            }
                        }
                    }
                }
                Ok(obj(vec![("count", iv(count + 1))]))
            }
            "same" => Ok(state.clone()),
            "fail" => Err(Error::RuntimeError),
            _ => Err(Error::RuntimeError),
        }
    }
}

/// A context node holding `{count: 0}` and a child node whose
/// description carries the handler under `onclick`.
fn event_fixture(vm: &mut ViewManager, handler: Value) -> (u64, u64) {
    let mut ev = EventEvaluator::new();
    let mut pr = RecordingProvider::new();
    let ctx = vm.new_vnode(VNode::new(0, None));
    vm.apply_props(&mut ev, &mut pr, ctx, Some(mk_props("panel", obj(vec![]))))
        .expect("context apply failed");
    vm.update_state(ctx, obj(vec![("count", iv(0))]));
    while let Some((id, op)) = vm.pop_dirty() {
        vm.apply_props(&mut ev, &mut pr, id, op).expect("fixture drain failed");
    }
    let node = vm.new_vnode(VNode::new(ctx, None));
    vm.apply_props(
        &mut ev,
        &mut pr,
        node,
        Some(mk_props("button", obj(vec![("onclick", handler)]))),
    )
    .expect("node apply failed");
    while let Some((id, op)) = vm.pop_dirty() {
        vm.apply_props(&mut ev, &mut pr, id, op).expect("fixture drain failed");
    }
    (ctx, node)
}

fn count_of(vm: &ViewManager, id: u64) -> i64 {
    match &vm.get_vnode(&id).expect("node gone").state {
        Value::Obj(pairs) => {
            for (k, v) in pairs {
                if k == "count" {
                    if let Value::Int(i) = v {
                        return *i;
                    }
                }
            }
            panic!("count missing");
        }
        _ => panic!("state is not an object"),
    }
}

#[test]
fn event_round_trip_commits_and_requeues() {
    let mut vm = ViewManager::new();
    let (ctx, node) = event_fixture(&mut vm, sv("inc"));
    assert_eq!(count_of(&vm, ctx), 0);
    let mut ev = EventEvaluator::new();

    vm.event_entry(&mut ev, node, "onclick", &obj(vec![])).unwrap();

    // The owning context node's state changed and it is queued for
    // reconciliation.
    assert_eq!(count_of(&vm, ctx), 1);
    assert!(vm.get_vnode(&ctx).unwrap().is_dirty);
    assert_eq!(vm.dirty_len(), 1);
    let entry = vm.pop_dirty().unwrap();
    assert_eq!(entry.0, ctx);
    assert!(entry.1.is_none());

    // Draining re-invokes the evaluator for that context.
    vm.insert_dirty(ctx, None);
    let mut pr = RecordingProvider::new();
    let before = ev.asked.get();
    while let Some((id, op)) = vm.pop_dirty() {
        vm.apply_props(&mut ev, &mut pr, id, op).unwrap();
    }
    assert_eq!(ev.asked.get(), before + 1);
    assert_eq!(count_of(&vm, ctx), 1);
    assert!(!vm.get_vnode(&ctx).unwrap().is_dirty);
}

#[test]
fn event_script_array_joins_fragments() {
    let mut vm = ViewManager::new();
    let (ctx, node) = event_fixture(&mut vm, arr(vec![sv("inc")]));
    let mut ev = EventEvaluator::new();
    vm.event_entry(&mut ev, node, "onclick", &obj(vec![])).unwrap();
    assert_eq!(count_of(&vm, ctx), 1);
}

#[test]
fn event_same_state_commits_nothing() {
    let mut vm = ViewManager::new();
    let (ctx, node) = event_fixture(&mut vm, sv("same"));
    let mut ev = EventEvaluator::new();
    vm.event_entry(&mut ev, node, "onclick", &obj(vec![])).unwrap();
    assert_eq!(count_of(&vm, ctx), 0);
    assert!(!vm.get_vnode(&ctx).unwrap().is_dirty);
    assert_eq!(vm.dirty_len(), 0);
}

#[test]
fn event_failure_aborts_without_commit() {
    let mut vm = ViewManager::new();
    let (ctx, node) = event_fixture(&mut vm, sv("fail"));
    let mut ev = EventEvaluator::new();
    let r = vm.event_entry(&mut ev, node, "onclick", &obj(vec![]));
    assert_eq!(r, Err(Error::RuntimeError));
    assert_eq!(count_of(&vm, ctx), 0);
    assert!(!vm.get_vnode(&ctx).unwrap().is_dirty);
    assert_eq!(vm.dirty_len(), 0);
}

#[test]
fn event_absent_handler_is_silent_success() {
    let mut vm = ViewManager::new();
    let (ctx, node) = event_fixture(&mut vm, sv("inc"));
    let mut ev = EventEvaluator::new();
    vm.event_entry(&mut ev, node, "onfoo", &obj(vec![])).unwrap();
    assert_eq!(count_of(&vm, ctx), 0);
}

#[test]
fn event_empty_handler_is_silent_success() {
    let mut vm = ViewManager::new();
    let (ctx, node) = event_fixture(&mut vm, sv(""));
    let mut ev = EventEvaluator::new();
    vm.event_entry(&mut ev, node, "onclick", &obj(vec![])).unwrap();
    assert_eq!(count_of(&vm, ctx), 0);
}

#[test]
fn event_missing_node_is_silent_success() {
    let mut vm = ViewManager::new();
    let _ = event_fixture(&mut vm, sv("inc"));
    let mut ev = EventEvaluator::new();
    vm.event_entry(&mut ev, 9999, "onclick", &obj(vec![])).unwrap();
}

#[test]
fn event_malformed_handler_is_runtime_error() {
    let mut vm = ViewManager::new();
    let (_ctx, node) = event_fixture(&mut vm, iv(7));
    let mut ev = EventEvaluator::new();
    let r = vm.event_entry(&mut ev, node, "onclick", &obj(vec![]));
    assert_eq!(r, Err(Error::RuntimeError));
}

#[test]
fn update_state_marks_dirty_and_queues() {
    let mut vm = ViewManager::new();
    let node = vm.new_vnode(VNode::new(0, None));
    vm.update_state(node, obj(vec![("count", iv(5))]));
    let n = vm.get_vnode(&node).unwrap();
    assert!(n.is_dirty);
    assert!(value_eq(&n.state, &obj(vec![("count", iv(5))])));
    assert_eq!(vm.dirty_len(), 1);
    assert_eq!(vm.pop_dirty().unwrap().0, node);
}
