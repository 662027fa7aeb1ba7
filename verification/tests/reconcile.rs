//! Reconciliation scenarios: idempotence, list stability, set
//! matching, pass-through, teardown, convergence and the unsupported
//! discriminator.

use std::cell::Cell;

use view_manager::bean::{VNode, ViewProps};
use view_manager::def::{AsLayoutEvaluator, ElemRecord, RecordingProvider};
use view_manager::err::Error;
use view_manager::inner::remove_node;
use view_manager::store::ViewManager;
use view_manager::value::{Value, value_eq};

fn sv(x: &str) -> Value {
    Value::Str(x.to_string())
}

fn iv(x: i64) -> Value {
    Value::Int(x)
}

fn arr(items: Vec<Value>) -> Value {
    Value::Arr(items)
}

fn obj(pairs: Vec<(&str, Value)>) -> Value {
    Value::Obj(pairs.into_iter().map(|(k, v)| (k.to_string(), v)).collect())
}

fn tpl(class: &str, props: Value, children: Vec<Value>) -> Value {
    obj(vec![
        ("$class", arr(vec![sv(class)])),
        ("$props", arr(vec![props])),
        ("$child", arr(children)),
    ])
}

fn mk_props(class: &str, props: Value) -> ViewProps {
    ViewProps { class: class.to_string(), props }
}

struct TestEvaluator {
    templates: Vec<(String, Value)>,
    view_calls: Cell<usize>,
}

impl TestEvaluator {
    fn new(templates: Vec<(&str, Value)>) -> TestEvaluator {
        TestEvaluator {
            templates: templates.into_iter().map(|(c, v)| (c.to_string(), v)).collect(),
            view_calls: Cell::new(0),
        }
    }

    fn set_template(&mut self, class: &str, value: Value) {
        for entry in self.templates.iter_mut() {
            if entry.0 == class {
                entry.1 = value;
                return;
            }
        }
        self.templates.push((class.to_string(), value));
    }

    fn lookup(&self, class: &str) -> Option<&Value> {
        self.templates.iter().find(|e| e.0 == class).map(|e| &e.1)
    }
}

impl AsLayoutEvaluator for TestEvaluator {
    fn get_class_view(&self, class: &str) -> Option<String> {
        self.view_calls.set(self.view_calls.get() + 1);
        self.lookup(class).map(|_| class.to_string())
    }

    fn execute_layout_script(
        &mut self,
        script: &str,
        _state: &Value,
        _props: &Value,
        _vnode_id: u64,
    ) -> Result<Value, Error> {
        match self.lookup(script) {
            Some(v) => Ok(v.clone()),
            None => Err(Error::RuntimeError),
        }
    }

    fn execute_event_script(
        &mut self,
        _script: &str,
        _data: &Value,
        state: &Value,
        _context: u64,
        _vnode_id: u64,
    ) -> Result<Value, Error> {
        Ok(state.clone())
    }
}

fn drain(
    vm: &mut ViewManager,
    evaluator: &mut TestEvaluator,
    provider: &mut RecordingProvider,
) -> usize {
    let mut passes: usize = 0;
    loop {
        match vm.pop_dirty() {
            Some((id, op)) => {
                vm.apply_props(evaluator, provider, id, op).expect("apply_props failed");
                passes += 1;
            }
            None => {
                return passes;
            }
        }
    }
}

fn deleted_ids(provider: &RecordingProvider) -> Vec<u64> {
    provider
        .log
        .iter()
        .filter_map(|r| match r {
            ElemRecord::Deleted { id } => Some(*id),
            _ => None,
        })
        .collect()
}

fn inner_children(vm: &ViewManager, id: u64) -> Vec<u64> {
    let inner = vm.get_vnode(&id).expect("node missing").inner_id;
    assert_ne!(inner, 0, "node has no inner subtree");
    vm.get_vnode(&inner).expect("inner missing").embeded_child_v.clone()
}

fn item(x: i64) -> Value {
    tpl("item", obj(vec![("x", iv(x))]), vec![])
}

#[test]
fn idempotence_second_apply_emits_nothing() {
    let mut vm = ViewManager::new();
    let mut ev = TestEvaluator::new(vec![(
        "holder",
        tpl("row", obj(vec![]), vec![item(1), item(2)]),
    )]);
    let mut pr = RecordingProvider::new();
    let root = vm.new_vnode(VNode::new(0, None));
    vm.apply_props(&mut ev, &mut pr, root, Some(mk_props("holder", obj(vec![]))))
        .unwrap();
    drain(&mut vm, &mut ev, &mut pr);
    let log_len = pr.log.len();
    // The same unchanged description again: the node is clean, so the
    // second call is a no-op and the provider hears nothing.
    vm.apply_props(&mut ev, &mut pr, root, Some(mk_props("holder", obj(vec![]))))
        .unwrap();
    assert_eq!(pr.log.len(), log_len);
}

#[test]
fn list_growth_keeps_identities_and_creates_one() {
    let mut vm = ViewManager::new();
    let mut ev = TestEvaluator::new(vec![(
        "holder",
        tpl("row", obj(vec![]), vec![item(1), item(2), item(3)]),
    )]);
    let mut pr = RecordingProvider::new();
    let root = vm.new_vnode(VNode::new(0, None));
    vm.apply_props(&mut ev, &mut pr, root, Some(mk_props("holder", obj(vec![]))))
        .unwrap();
    drain(&mut vm, &mut ev, &mut pr);
    let before = inner_children(&vm, root);
    assert_eq!(before.len(), 3);

    ev.set_template(
        "holder",
        tpl("row", obj(vec![]), vec![item(1), item(2), item(3), item(4)]),
    );
    vm.update_state(root, obj(vec![("tick", iv(1))]));
    drain(&mut vm, &mut ev, &mut pr);
    let after = inner_children(&vm, root);
    assert_eq!(after.len(), 4);
    // The first three keep their identities; exactly one node is new.
    assert_eq!(&after[..3], &before[..]);
    assert!(!before.contains(&after[3]));
    assert!(value_eq(
        &vm.get_vnode(&after[3]).unwrap().view_props.props,
        &obj(vec![("x", iv(4))]),
    ));
}

#[test]
fn set_matching_reuses_removes_creates() {
    let mut vm = ViewManager::new();
    let set_props = obj(vec![("$type", arr(vec![sv("set")]))]);
    let mut ev = TestEvaluator::new(vec![(
        "holder",
        tpl("row", set_props.clone(), vec![item(1), item(2)]),
    )]);
    let mut pr = RecordingProvider::new();
    let root = vm.new_vnode(VNode::new(0, None));
    vm.apply_props(&mut ev, &mut pr, root, Some(mk_props("holder", obj(vec![]))))
        .unwrap();
    drain(&mut vm, &mut ev, &mut pr);
    let before = inner_children(&vm, root);
    assert_eq!(before.len(), 2);
    let id_x1 = before[0];
    let id_x2 = before[1];
    let log_len = pr.log.len();

    ev.set_template("holder", tpl("row", set_props, vec![item(2), item(3)]));
    vm.update_state(root, obj(vec![("tick", iv(1))]));
    drain(&mut vm, &mut ev, &mut pr);
    let after = inner_children(&vm, root);
    assert_eq!(after.len(), 2);
    // {x:2} is reused under its old identity, {x:1} is removed, {x:3}
    // is created.
    assert_eq!(after[0], id_x2);
    assert!(vm.get_vnode(&id_x1).is_none());
    let new_id = after[1];
    assert!(new_id != id_x1 && new_id != id_x2);
    assert!(value_eq(
        &vm.get_vnode(&new_id).unwrap().view_props.props,
        &obj(vec![("x", iv(3))]),
    ));
    let new_events = &pr.log[log_len..];
    // No create or delete notification concerns the reused {x:2} node.
    for r in new_events {
        match r {
            ElemRecord::Created { id, .. } => assert_ne!(*id, id_x2),
            ElemRecord::Deleted { id } => assert_ne!(*id, id_x2),
            ElemRecord::Reused { .. } => {}
        }
    }
    // {x:1} was removed from the arena and its element deleted.
    assert!(deleted_ids(&pr).contains(&id_x1));
}

#[test]
fn pass_through_mirrors_context_children() {
    let mut vm = ViewManager::new();
    let mut ev = TestEvaluator::new(vec![
        ("holder", tpl("row", obj(vec![]), vec![item(1), item(2)])),
        (
            "wrap",
            tpl("box", obj(vec![]), vec![sv("$child")]),
        ),
    ]);
    let mut pr = RecordingProvider::new();
    let root = vm.new_vnode(VNode::new(0, None));
    vm.apply_props(&mut ev, &mut pr, root, Some(mk_props("holder", obj(vec![]))))
        .unwrap();
    drain(&mut vm, &mut ev, &mut pr);
    let holder_inner = vm.get_vnode(&root).unwrap().inner_id;
    let slot_children = inner_children(&vm, root);
    assert_eq!(slot_children.len(), 2);

    // A component whose context is the holder's inner node: its
    // template delegates the children slot.
    let wrap = vm.new_vnode(VNode::new(holder_inner, None));
    vm.apply_props(&mut ev, &mut pr, wrap, Some(mk_props("wrap", obj(vec![]))))
        .unwrap();
    drain(&mut vm, &mut ev, &mut pr);
    let mirrored = inner_children(&vm, wrap);
    // The mirrored sequence is exactly the context node's children:
    // the same identifiers, not copies.
    assert_eq!(mirrored, slot_children);
    for c in &mirrored {
        assert!(vm.get_vnode(c).is_some());
    }

    // The context grows a child; after the next pass over the
    // component the alias reflects it.
    ev.set_template("holder", tpl("row", obj(vec![]), vec![item(1), item(2), item(3)]));
    vm.update_state(root, obj(vec![("tick", iv(1))]));
    drain(&mut vm, &mut ev, &mut pr);
    let grown = inner_children(&vm, root);
    assert_eq!(grown.len(), 3);
    vm.update_state(wrap, obj(vec![("tick", iv(1))]));
    drain(&mut vm, &mut ev, &mut pr);
    let mirrored2 = inner_children(&vm, wrap);
    assert_eq!(mirrored2, grown);
    // Ownership is not duplicated: the context still lists the same
    // children, alive and well.
    for c in &grown {
        assert!(vm.get_vnode(c).is_some());
    }
}

#[test]
fn teardown_removes_subtree_one_delete_each() {
    let mut vm = ViewManager::new();
    let mut ev = TestEvaluator::new(vec![(
        "holder",
        tpl("row", obj(vec![]), vec![item(1), item(2)]),
    )]);
    let mut pr = RecordingProvider::new();
    let root = vm.new_vnode(VNode::new(0, None));
    vm.apply_props(&mut ev, &mut pr, root, Some(mk_props("holder", obj(vec![]))))
        .unwrap();
    drain(&mut vm, &mut ev, &mut pr);
    let inner = vm.get_vnode(&root).unwrap().inner_id;
    let kids = inner_children(&vm, root);
    let log_len = pr.log.len();

    remove_node(&mut vm, &mut pr, root);

    // Zero remaining arena entries under the subtree.
    assert!(vm.get_vnode(&root).is_none());
    assert!(vm.get_vnode(&inner).is_none());
    for c in &kids {
        assert!(vm.get_vnode(c).is_none());
    }
    // One delete notification per previously existing node, children
    // before parents.
    let new_deletes: Vec<u64> = pr.log[log_len..]
        .iter()
        .map(|r| match r {
            ElemRecord::Deleted { id } => *id,
            _ => panic!("teardown emitted a non-delete notification"),
        })
        .collect();
    assert_eq!(new_deletes, vec![kids[0], kids[1], inner, root]);
    // Removing again is a no-op.
    remove_node(&mut vm, &mut pr, root);
    assert_eq!(pr.log.len(), log_len + 4);
}

#[test]
fn convergence_stable_template_one_pass() {
    let mut vm = ViewManager::new();
    let mut ev = TestEvaluator::new(vec![(
        "holder",
        tpl("row", obj(vec![]), vec![item(1), item(2)]),
    )]);
    let mut pr = RecordingProvider::new();
    let root = vm.new_vnode(VNode::new(0, None));
    vm.apply_props(&mut ev, &mut pr, root, Some(mk_props("holder", obj(vec![]))))
        .unwrap();
    drain(&mut vm, &mut ev, &mut pr);
    let log_len = pr.log.len();

    // The tree is at the template's fixed point.  One dirty node, one
    // pass: the evaluator returns the same template, nothing changes,
    // nothing new is queued.
    vm.update_state(root, obj(vec![("tick", iv(1))]));
    assert_eq!(vm.dirty_len(), 1);
    let passes = drain(&mut vm, &mut ev, &mut pr);
    assert_eq!(passes, 1);
    assert_eq!(vm.dirty_len(), 0);
    assert_eq!(pr.log.len(), log_len);
}

#[test]
fn unsupported_discriminator_is_an_error() {
    let mut vm = ViewManager::new();
    let mut ev = TestEvaluator::new(vec![(
        "holder",
        tpl(
            "row",
            obj(vec![("$type", arr(vec![sv("tree")]))]),
            vec![item(1)],
        ),
    )]);
    let mut pr = RecordingProvider::new();
    let root = vm.new_vnode(VNode::new(0, None));
    let r = vm.apply_props(&mut ev, &mut pr, root, Some(mk_props("holder", obj(vec![]))));
    assert_eq!(r, Err(Error::UnsupportedMode));
}

#[test]
fn unsupported_discriminator_bare_string_too() {
    let mut vm = ViewManager::new();
    let mut ev = TestEvaluator::new(vec![(
        "holder",
        tpl("row", obj(vec![("$type", sv("tree"))]), vec![item(1)]),
    )]);
    let mut pr = RecordingProvider::new();
    let root = vm.new_vnode(VNode::new(0, None));
    let r = vm.apply_props(&mut ev, &mut pr, root, Some(mk_props("holder", obj(vec![]))));
    assert_eq!(r, Err(Error::UnsupportedMode));
}

#[test]
fn leaf_again_tears_down_inner_subtree() {
    let mut vm = ViewManager::new();
    let mut ev = TestEvaluator::new(vec![(
        "holder",
        tpl("row", obj(vec![]), vec![item(1)]),
    )]);
    let mut pr = RecordingProvider::new();
    let root = vm.new_vnode(VNode::new(0, None));
    vm.apply_props(&mut ev, &mut pr, root, Some(mk_props("holder", obj(vec![]))))
        .unwrap();
    drain(&mut vm, &mut ev, &mut pr);
    let inner = vm.get_vnode(&root).unwrap().inner_id;
    assert_ne!(inner, 0);

    // The class loses its template: the node becomes a leaf again and
    // the whole inner subtree is torn down.
    ev.templates.clear();
    vm.update_state(root, obj(vec![("tick", iv(1))]));
    drain(&mut vm, &mut ev, &mut pr);
    assert_eq!(vm.get_vnode(&root).unwrap().inner_id, 0);
    assert!(vm.get_vnode(&inner).is_none());
}

#[test]
fn list_shrink_tears_down_surplus() {
    let mut vm = ViewManager::new();
    let mut ev = TestEvaluator::new(vec![(
        "holder",
        tpl("row", obj(vec![]), vec![item(1), item(2), item(3)]),
    )]);
    let mut pr = RecordingProvider::new();
    let root = vm.new_vnode(VNode::new(0, None));
    vm.apply_props(&mut ev, &mut pr, root, Some(mk_props("holder", obj(vec![]))))
        .unwrap();
    drain(&mut vm, &mut ev, &mut pr);
    let before = inner_children(&vm, root);
    assert_eq!(before.len(), 3);

    ev.set_template("holder", tpl("row", obj(vec![]), vec![item(1), item(2)]));
    vm.update_state(root, obj(vec![("tick", iv(1))]));
    drain(&mut vm, &mut ev, &mut pr);
    let after = inner_children(&vm, root);
    assert_eq!(after, before[..2].to_vec());
    assert!(vm.get_vnode(&before[2]).is_none());
    assert!(deleted_ids(&pr).contains(&before[2]));
}

#[test]
fn leaving_pass_through_releases_aliased_children() {
    let mut vm = ViewManager::new();
    let mut ev = TestEvaluator::new(vec![
        ("holder", tpl("row", obj(vec![]), vec![item(1), item(2)])),
        ("wrap", tpl("box", obj(vec![]), vec![sv("$child")])),
    ]);
    let mut pr = RecordingProvider::new();
    let root = vm.new_vnode(VNode::new(0, None));
    vm.apply_props(&mut ev, &mut pr, root, Some(mk_props("holder", obj(vec![]))))
        .unwrap();
    drain(&mut vm, &mut ev, &mut pr);
    let holder_inner = vm.get_vnode(&root).unwrap().inner_id;
    let slot_children = inner_children(&vm, root);

    let wrap = vm.new_vnode(VNode::new(holder_inner, None));
    vm.apply_props(&mut ev, &mut pr, wrap, Some(mk_props("wrap", obj(vec![]))))
        .unwrap();
    drain(&mut vm, &mut ev, &mut pr);
    assert_eq!(inner_children(&vm, wrap), slot_children);

    // The component stops delegating its children slot: the aliased
    // children are only released, never torn down — they still belong
    // to the context node.
    ev.set_template("wrap", tpl("box", obj(vec![]), vec![]));
    vm.update_state(wrap, obj(vec![("tick", iv(1))]));
    drain(&mut vm, &mut ev, &mut pr);
    assert!(inner_children(&vm, wrap).is_empty());
    assert_eq!(inner_children(&vm, root), slot_children);
    for c in &slot_children {
        assert!(vm.get_vnode(c).is_some());
    }
}

#[test]
fn equal_description_still_relayouts_without_notifying() {
    let mut vm = ViewManager::new();
    let mut ev = TestEvaluator::new(vec![(
        "holder",
        tpl("row", obj(vec![]), vec![item(1)]),
    )]);
    let mut pr = RecordingProvider::new();
    let root = vm.new_vnode(VNode::new(0, None));
    let description = mk_props("holder", obj(vec![]));
    vm.apply_props(&mut ev, &mut pr, root, Some(description.clone())).unwrap();
    drain(&mut vm, &mut ev, &mut pr);

    // Grow the template, mark the node dirty, and hand it the same
    // description it already carries: no provider notification for the
    // node itself, but layout still runs and the template change lands.
    ev.set_template("holder", tpl("row", obj(vec![]), vec![item(1), item(2)]));
    vm.insert_dirty(root, None);
    vm.update_state(root, obj(vec![("tick", iv(1))]));
    while let Some((id, _op)) = vm.pop_dirty() {
        if id == root {
            vm.apply_props(&mut ev, &mut pr, id, Some(description.clone())).unwrap();
        } else {
            vm.apply_props(&mut ev, &mut pr, id, None).unwrap();
        }
    }
    assert_eq!(inner_children(&vm, root).len(), 2);
    assert!(!vm.get_vnode(&root).unwrap().is_dirty);
    // The root's element saw nothing beyond its original creation.
    for r in &pr.log {
        match r {
            ElemRecord::Reused { id, .. } => assert_ne!(*id, root),
            _ => {}
        }
    }
}

#[test]
fn class_change_notifies_delete_then_create() {
    let mut vm = ViewManager::new();
    let mut ev = TestEvaluator::new(vec![]);
    let mut pr = RecordingProvider::new();
    let node = vm.new_vnode(VNode::new(0, None));
    vm.apply_props(&mut ev, &mut pr, node, Some(mk_props("label", obj(vec![]))))
        .unwrap();
    drain(&mut vm, &mut ev, &mut pr);
    let log_len = pr.log.len();

    vm.update_state(node, obj(vec![("tick", iv(1))]));
    while let Some((id, _op)) = vm.pop_dirty() {
        vm.apply_props(&mut ev, &mut pr, id, Some(mk_props("input", obj(vec![]))))
            .unwrap();
    }
    let tail: Vec<&ElemRecord> = pr.log[log_len..].iter().collect();
    assert_eq!(tail.len(), 2);
    assert!(matches!(tail[0], ElemRecord::Deleted { id } if *id == node));
    assert!(matches!(tail[1], ElemRecord::Created { id, .. } if *id == node));
}

#[test]
fn rejected_reuse_falls_back_to_delete_create() {
    let mut vm = ViewManager::new();
    let mut ev = TestEvaluator::new(vec![]);
    let mut pr = RecordingProvider::new();
    pr.accept_reuse = false;
    let node = vm.new_vnode(VNode::new(0, None));
    vm.apply_props(&mut ev, &mut pr, node, Some(mk_props("label", obj(vec![("a", iv(1))]))))
        .unwrap();
    drain(&mut vm, &mut ev, &mut pr);
    let log_len = pr.log.len();

    // Same class, new property data: the provider rejects the reuse,
    // so delete-then-create follows it.
    vm.update_state(node, obj(vec![("tick", iv(1))]));
    while let Some((id, _op)) = vm.pop_dirty() {
        vm.apply_props(&mut ev, &mut pr, id, Some(mk_props("label", obj(vec![("a", iv(2))]))))
            .unwrap();
    }
    let tail: Vec<&ElemRecord> = pr.log[log_len..].iter().collect();
    assert_eq!(tail.len(), 3);
    assert!(matches!(tail[0], ElemRecord::Reused { id, .. } if *id == node));
    assert!(matches!(tail[1], ElemRecord::Deleted { id } if *id == node));
    assert!(matches!(tail[2], ElemRecord::Created { id, .. } if *id == node));
}

#[test]
fn set_matching_with_equal_payloads_is_first_come() {
    let mut vm = ViewManager::new();
    let set_props = obj(vec![("$type", arr(vec![sv("set")]))]);
    let mut ev = TestEvaluator::new(vec![(
        "holder",
        tpl("row", set_props.clone(), vec![item(1)]),
    )]);
    let mut pr = RecordingProvider::new();
    let root = vm.new_vnode(VNode::new(0, None));
    vm.apply_props(&mut ev, &mut pr, root, Some(mk_props("holder", obj(vec![]))))
        .unwrap();
    drain(&mut vm, &mut ev, &mut pr);
    let one = inner_children(&vm, root);
    assert_eq!(one.len(), 1);

    // Two identical demands against one existing child: the existing
    // one is reused for the first position, the second is created.
    ev.set_template("holder", tpl("row", set_props.clone(), vec![item(1), item(1)]));
    vm.update_state(root, obj(vec![("tick", iv(1))]));
    drain(&mut vm, &mut ev, &mut pr);
    let two = inner_children(&vm, root);
    assert_eq!(two.len(), 2);
    assert_eq!(two[0], one[0]);
    assert!(two[1] != one[0]);

    // Back to one demand: one of the two indistinguishable children
    // stays, the leftover is removed.
    ev.set_template("holder", tpl("row", set_props, vec![item(1)]));
    vm.update_state(root, obj(vec![("tick", iv(1))]));
    drain(&mut vm, &mut ev, &mut pr);
    let back = inner_children(&vm, root);
    assert_eq!(back, vec![two[0]]);
    assert!(vm.get_vnode(&two[1]).is_none());
}

#[test]
fn teardown_spares_unrelated_trees() {
    let mut vm = ViewManager::new();
    let mut ev = TestEvaluator::new(vec![(
        "holder",
        tpl("row", obj(vec![]), vec![item(1), item(2)]),
    )]);
    let mut pr = RecordingProvider::new();
    let first = vm.new_vnode(VNode::new(0, None));
    vm.apply_props(&mut ev, &mut pr, first, Some(mk_props("holder", obj(vec![]))))
        .unwrap();
    drain(&mut vm, &mut ev, &mut pr);
    let second = vm.new_vnode(VNode::new(0, None));
    vm.apply_props(&mut ev, &mut pr, second, Some(mk_props("holder", obj(vec![]))))
        .unwrap();
    drain(&mut vm, &mut ev, &mut pr);
    let second_kids = inner_children(&vm, second);

    // Tearing down the first tree leaves the second tree whole.
    remove_node(&mut vm, &mut pr, first);
    assert!(vm.get_vnode(&first).is_none());
    assert!(vm.get_vnode(&second).is_some());
    assert_eq!(inner_children(&vm, second), second_kids);
    for c in &second_kids {
        assert!(vm.get_vnode(c).is_some());
    }
}

#[test]
fn set_mode_removes_leftovers_in_index_order() {
    let mut vm = ViewManager::new();
    let set_props = obj(vec![("$type", arr(vec![sv("set")]))]);
    let mut ev = TestEvaluator::new(vec![(
        "holder",
        tpl("row", set_props.clone(), vec![item(1), item(2), item(3)]),
    )]);
    let mut pr = RecordingProvider::new();
    let root = vm.new_vnode(VNode::new(0, None));
    vm.apply_props(&mut ev, &mut pr, root, Some(mk_props("holder", obj(vec![]))))
        .unwrap();
    drain(&mut vm, &mut ev, &mut pr);
    let before = inner_children(&vm, root);
    let log_len = pr.log.len();

    ev.set_template("holder", tpl("row", set_props, vec![item(9)]));
    vm.update_state(root, obj(vec![("tick", iv(1))]));
    drain(&mut vm, &mut ev, &mut pr);
    // All three leftovers are removed, their delete notifications in
    // index order.  (The node created for {x:9} gets its own
    // delete-then-create when its first description lands; it is not a
    // teardown.)
    let new_deletes: Vec<u64> = pr.log[log_len..]
        .iter()
        .filter_map(|r| match r {
            ElemRecord::Deleted { id } if before.contains(id) => Some(*id),
            _ => None,
        })
        .collect();
    assert_eq!(new_deletes, before);
    for c in &before {
        assert!(vm.get_vnode(c).is_none());
    }
}
