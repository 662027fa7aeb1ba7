//! A view manager: a renderer-agnostic view-tree reconciler.
//!
//! A node of the live tree carries a declarative description (a class name
//! plus structured property data).  A host-supplied layout evaluator turns
//! that description into a template tree, and the reconciler patches the
//! persistent node graph to match the template, notifying a host-supplied
//! element provider only of the deltas.
//!
//! A host drives the tree through a convergence loop: it creates a root
//! in the [`store::ViewManager`], applies its description with
//! [`store::ViewManager::apply_props`], and then pops dirty-queue entries
//! and applies each until the queue is empty.  Events flow in through
//! [`store::ViewManager::event_entry`], which may commit a state change
//! and re-queue the owning context node, re-entering the loop.  The
//! queue coalesces and each pass clears its node's dirty flag before
//! recursing, so the loop terminates once the evaluator's templates
//! reach a fixed point.

#![verifier::loop_isolation(false)]

use vstd::prelude::*;

use crate::bean::{PropsModel, VNode, VNodeModel, ViewProps, props_eq};
use crate::def::{AsElementProvider, AsLayoutEvaluator, ElemEvent};
use crate::err::Error;
use crate::inner::{apply_inner_props_node, event_handler, layout, lemma_confined_same_live,
    lemma_confined_step, lemma_pass_events_base_swap,
    lemma_pass_events_compose,
    lemma_quiet_pass, lemma_removal_log_pass, pass_events_ok, remove_node, resolve_script,
    removal_confined, resolve_script_spec, tpl_settled};
use crate::node::Node;
use crate::store::{ViewManager, dq_find, lemma_wf_basics, same_store};
use crate::value::{Val, Value, val_get, val_is_empty, value_eq, value_get, value_is_empty};

pub mod bean;
pub mod def;
pub mod err;
pub mod inner;
pub mod node;
pub mod store;
pub mod value;

verus! {

/// What committing a new state `ns` to the node `ctxid` does: the state
/// is written, the node is marked dirty, and it is queued with no
/// description override, so the next reconciliation pass re-evaluates
/// it without short-circuiting on description equality.
pub open spec fn state_committed(
    vm0: ViewManager,
    vm1: ViewManager,
    ctxid: u64,
    ns: Val,
) -> bool {
    &&& vm0.live(ctxid)
    &&& vm1.issued() == vm0.issued()
    &&& (forall|j: u64| vm1.live(j) == vm0.live(j))
    &&& vm1.node(ctxid) == (VNodeModel { state: ns, is_dirty: true, ..vm0.node(ctxid) })
    &&& (forall|j: u64| j != ctxid && vm0.live(j) ==> vm1.node(j) == vm0.node(j))
    &&& ({
        let q = vm0.dirty_q();
        let i = dq_find(q, ctxid);
        if i < q.len() && q[i].0 == ctxid {
            vm1.dirty_q() == q.update(i, (ctxid, None::<PropsModel>))
        } else {
            vm1.dirty_q() == q.subrange(0, i) + seq![(ctxid, None::<PropsModel>)] + q.subrange(
                i,
                q.len() as int,
            )
        }
    })
}

impl ViewManager {
    /// Writes a new state into `vnode_id`, marks it dirty and queues it
    /// for reconciliation with its current description.  Both an event
    /// handler's state change and an explicit description change
    /// converge on the dirty queue, so re-layout has one path, not two.
    /// A missing node is left alone.
    pub fn update_state(&mut self, vnode_id: u64, n_state: Value)
        requires
            old(self).wf(),
        ensures
            final(self).wf(),
            !old(self).live(vnode_id) ==> *final(self) == *old(self),
            old(self).live(vnode_id) ==> state_committed(
                *old(self),
                *final(self),
                vnode_id,
                n_state@,
            ),
    {
        let node: VNode = match self.get_vnode(&vnode_id) {
            Some(n) => n.clone(),
            None => {
                return ;
            },
        };
        let updated = VNode { state: n_state, is_dirty: true, ..node };
        proof {
            lemma_wf_basics(self);
        }
        self.set_vnode(vnode_id, updated);
        self.insert_dirty(vnode_id, None);
        proof {
            assert(self.node(vnode_id) =~= (VNodeModel {
                state: n_state@,
                is_dirty: true,
                ..old(self).node(vnode_id)
            }));
        }
    }

    /// Lets the element provider mirror a description change: a changed
    /// class is delete-then-create; an unchanged class is offered for
    /// reuse first, falling back to delete-then-create when the
    /// provider rejects it.  A missing node notifies nothing.
    pub fn on_update_vnode_props<P: AsElementProvider<H = u64>>(
        &self,
        provider: &mut P,
        id: u64,
        props: &ViewProps,
    )
        ensures
            !self.live(id) ==> final(provider).events() == old(provider).events(),
            self.live(id) ==> ({
                let ev = old(provider).events();
                if self.node(id).view_props.class != props@.class {
                    final(provider).events() == ev.push(ElemEvent::Delete { id }).push(
                        ElemEvent::Create { id, class: props@.class, props: props@.props },
                    )
                } else {
                    final(provider).events() == ev.push(
                        ElemEvent::Reuse { id, class: props@.class, props: props@.props },
                    ) || final(provider).events() == ev.push(
                        ElemEvent::Reuse { id, class: props@.class, props: props@.props },
                    ).push(ElemEvent::Delete { id }).push(
                        ElemEvent::Create { id, class: props@.class, props: props@.props },
                    )
                }
            }),
    {
        let node = match self.get_vnode(&id) {
            Some(n) => n,
            None => {
                return ;
            },
        };
        if !node.view_props.class.eq(&props.class) {
            provider.delete_element(id);
            provider.create_element(id, props.class.as_str(), &props.props);
        } else {
            if !provider.reuse_element(id, props.class.as_str(), &props.props) {
                provider.delete_element(id);
                provider.create_element(id, props.class.as_str(), &props.props);
            }
        }
    }

    /// Routes a named event to the script stored under `entry_name` in
    /// the node's description.  An absent or empty handler, like a
    /// missing node, is a silent success.  The script runs with the
    /// event payload, the owning context node's state, the context
    /// identifier and the node identifier bound; its result is the
    /// candidate new state, committed to the context node only when it
    /// differs by value from the prior state.  A failing script aborts
    /// the dispatch with `RuntimeError` and commits nothing.
    pub fn event_entry<E: AsLayoutEvaluator>(
        &mut self,
        evaluator: &mut E,
        vnode_id: u64,
        entry_name: &str,
        data: &Value,
    ) -> (r: Result<(), Error>)
        requires
            old(self).wf(),
        ensures
            final(self).wf(),
            (r matches Err(e) ==> e == Error::RuntimeError),
            r is Err ==> *final(self) == *old(self),
            !old(self).live(vnode_id) ==> *final(self) == *old(self) && r is Ok,
            old(self).live(vnode_id) && val_is_empty(
                val_get(old(self).node(vnode_id).view_props.props, entry_name@),
            ) ==> *final(self) == *old(self) && r is Ok,
            old(self).live(vnode_id) && !val_is_empty(
                val_get(old(self).node(vnode_id).view_props.props, entry_name@),
            ) && resolve_script_spec(
                val_get(old(self).node(vnode_id).view_props.props, entry_name@),
            ) is None ==> r == Err::<(), Error>(Error::RuntimeError),
            r is Ok ==> *final(self) == *old(self) || (exists|ns: Val|
                ns != old(self).node(old(self).node(vnode_id).context).state && state_committed(
                    *old(self),
                    *final(self),
                    old(self).node(vnode_id).context,
                    ns,
                )),
    {
        let node: VNode = match self.get_vnode(&vnode_id) {
            Some(n) => n.clone(),
            None => {
                return Ok(());
            },
        };
        let script_val: &Value = match value_get(&node.view_props.props, entry_name) {
            Some(v) => v,
            None => {
                return Ok(());
            },
        };
        if value_is_empty(script_val) {
            return Ok(());
        }
        let script: String = match resolve_script(script_val) {
            Ok(s) => s,
            Err(e) => {
                return Err(e);
            },
        };
        let context: u64 = node.context;
        let ctx_state: Value = match self.get_vnode(&context) {
            Some(cn) => cn.state.clone(),
            None => {
                return Ok(());
            },
        };
        let rs: Value = match event_handler(evaluator, data, context, vnode_id, &ctx_state, &script)
            {
            Ok(v) => v,
            Err(e) => {
                return Err(e);
            },
        };
        if !value_eq(&rs, &ctx_state) {
            let ghost ns = rs@;
            self.update_state(context, rs);
            proof {
                assert(state_committed(*old(self), *self, context, ns));
                assert(ns != old(self).node(old(self).node(vnode_id).context).state);
                assert(exists|ns2: Val|
                    ns2 != old(self).node(old(self).node(vnode_id).context).state
                        && state_committed(
                        *old(self),
                        *self,
                        old(self).node(vnode_id).context,
                        ns2,
                    )) by {
                    assert(ns != old(self).node(old(self).node(vnode_id).context).state
                        && state_committed(
                        *old(self),
                        *self,
                        old(self).node(vnode_id).context,
                        ns,
                    ));
                }
            }
        }
        Ok(())
    }

    /// Applies the outcome of one layout evaluation to `vnode_id`.  A
    /// template makes the node a composite: the synthesized
    /// template-root child is created lazily on the first one and stays
    /// stable afterwards, and the template is reconciled into its
    /// subtree.  No template makes the node a leaf again: a previously
    /// grown inner subtree is torn down and the inner reference reset.
    /// A layout outcome that matches the tree as it stands changes
    /// nothing.
    pub fn apply_layout_result<P: AsElementProvider<H = u64>>(
        &mut self,
        provider: &mut P,
        vnode_id: u64,
        parent_op: Option<u64>,
        tpl_op: Option<Node<ViewProps>>,
    ) -> (r: Result<(), Error>)
        requires
            old(self).wf(),
        ensures
            final(self).wf(),
            old(self).issued() <= final(self).issued(),
            old(provider).events().len() <= final(provider).events().len(),
            final(provider).events().subrange(0, old(provider).events().len() as int) == old(provider).events(),
            (r matches Err(e) ==> e == Error::UnsupportedMode),
            forall|j: u64|
                #[trigger] final(self).live(j) ==> old(self).live(j) || old(self).issued() <= j,
            forall|j: u64|
                old(self).live(j) && #[trigger] final(self).live(j) ==> final(self).node(
                    j,
                ).view_props == old(self).node(j).view_props && final(self).node(j).state == old(self).node(j).state && final(self).node(j).context == old(self).node(j).context,
            forall|j: u64|
                j != vnode_id && old(self).live(j) && #[trigger] final(self).live(j) ==> final(self).node(j).inner_id == old(self).node(j).inner_id,
            pass_events_ok(
                old(provider).events(),
                final(provider).events(),
                *old(self),
                *final(self),
            ),
            !old(self).live(vnode_id) ==> *final(self) == *old(self) && final(provider).events()
                == old(provider).events() && r is Ok,
            old(self).live(vnode_id) && final(self).live(vnode_id) ==> ({
                let nd = final(self).node(vnode_id);
                let od = old(self).node(vnode_id);
                &&& nd.view_props == od.view_props
                &&& nd.state == od.state
                &&& nd.context == od.context
                &&& nd.is_dirty == od.is_dirty
                &&& (od.inner_id != 0 && tpl_op is Some ==> nd.inner_id == od.inner_id)
                &&& (r is Ok && tpl_op is None ==> nd.inner_id == 0)
                &&& (tpl_op is Some ==> nd.inner_id != 0)
            }),
            r is Ok && old(self).live(vnode_id) && tpl_op is None && old(self).node(
                vnode_id,
            ).inner_id != 0 ==> !final(self).live(old(self).node(vnode_id).inner_id),
            old(self).live(vnode_id) ==> (match tpl_op {
                Some(_) => removal_confined(
                    *old(self),
                    *final(self),
                    vnode_id,
                    old(self).node(vnode_id).inner_id,
                ),
                None => removal_confined(
                    *old(self),
                    *final(self),
                    old(self).node(old(self).node(vnode_id).inner_id).context,
                    old(self).node(vnode_id).inner_id,
                ),
            }),
            tpl_op is None && (old(self).node(vnode_id).inner_id == 0 || !old(self).live(
                old(self).node(vnode_id).inner_id,
            )) ==> (forall|j: u64| old(self).live(j) ==> #[trigger] final(self).live(j)),
            r is Ok && old(self).live(vnode_id) && final(self).live(vnode_id) && tpl_op is Some
                && old(self).node(vnode_id).inner_id == 0 ==> ({
                let ni = final(self).node(vnode_id).inner_id;
                &&& old(self).issued() <= ni < final(self).issued()
                &&& (final(self).live(ni) ==> final(self).node(ni).context == vnode_id)
            }),
            old(self).live(vnode_id) && (match tpl_op {
                Some(t) => old(self).node(vnode_id).inner_id != 0 && tpl_settled(
                    *old(self),
                    vnode_id,
                    old(self).node(vnode_id).inner_id,
                    t@,
                    old(self).node(vnode_id).context,
                ),
                None => old(self).node(vnode_id).inner_id == 0,
            }) ==> same_store(*final(self), *old(self)) && final(provider).events() == old(provider).events() && r is Ok,
    {
        let ghost vm0 = *old(self);
        let ghost ev0 = old(provider).events();
        proof {
            lemma_wf_basics(self);
            assert(ev0.subrange(0, ev0.len() as int) =~= ev0);
        }
        let node: VNode = match self.get_vnode(&vnode_id) {
            Some(n) => n.clone(),
            None => {
                proof {
                    lemma_quiet_pass(ev0, vm0, vm0);
                }
                return Ok(());
            },
        };
        match tpl_op {
            Some(tpl) => {
                let inner_id: u64 = if node.inner_id == 0 {
                    let nid: u64 = self.new_vnode(VNode::new(vnode_id, parent_op));
                    let cur: VNode = match self.get_vnode(&vnode_id) {
                        Some(n) => n.clone(),
                        None => {
                            proof {
                                assert(false);
                            }
                            VNode::new(0, None)
                        },
                    };
                    proof {
                        lemma_wf_basics(self);
                        assert(cur@.embeded_child_v == self.node(vnode_id).embeded_child_v);
                        assert forall|k: int|
                            0 <= k < cur@.embeded_child_v.len() implies #[trigger] cur@
                            .embeded_child_v[k] < self.issued() by {
                            assert(self.node(vnode_id).embeded_child_v[k] < self.issued());
                        }
                    }
                    self.set_vnode(vnode_id, VNode { inner_id: nid, ..cur });
                    nid
                } else {
                    node.inner_id
                };
                let embeded_id: u64 = node.context;
                let ghost vm_p = *self;
                let rr = apply_inner_props_node(
                    self,
                    provider,
                    vnode_id,
                    inner_id,
                    &tpl,
                    embeded_id,
                );
                proof {
                    lemma_wf_basics(&vm0);
                    lemma_wf_basics(&vm_p);
                    lemma_quiet_pass(ev0, vm0, vm_p);
                    lemma_pass_events_compose(
                        ev0,
                        ev0,
                        final(provider).events(),
                        vm0,
                        vm_p,
                        *self,
                    );
                    if vm0.node(vnode_id).inner_id != 0 && tpl_settled(
                        vm0,
                        vnode_id,
                        vm0.node(vnode_id).inner_id,
                        tpl@,
                        vm0.node(vnode_id).context,
                    ) {
                        assert(vm_p == vm0);
                        assert(same_store(*self, vm0));
                        assert(rr is Ok);
                    }
                    if self.live(vnode_id) && vm0.live(vnode_id) {
                        assert(self.node(vnode_id).context == vm_p.node(vnode_id).context);
                    }
                    if vm0.node(vnode_id).inner_id == 0 && self.live(vnode_id) {
                        assert(self.node(vnode_id).inner_id == inner_id);
                        assert(vm0.issued() <= inner_id < self.issued());
                        if self.live(inner_id) {
                            assert(vm_p.live(inner_id));
                            assert(self.node(inner_id).context == vm_p.node(inner_id).context);
                            assert(self.node(inner_id).context == vnode_id);
                        }
                    }
                    if vm0.node(vnode_id).inner_id != 0 {
                        assert(vm_p == vm0);
                        assert(removal_confined(vm0, *self, vnode_id, vm0.node(vnode_id).inner_id));
                    } else {
                        lemma_confined_same_live(vm0, vm0, vm_p, vnode_id, 0);
                        lemma_confined_step(
                            vm0,
                            vm_p,
                            *self,
                            vnode_id,
                            0,
                            vnode_id,
                            inner_id,
                        );
                        assert(removal_confined(vm0, *self, vnode_id, 0)) by {}
                        assert(removal_confined(vm0, *self, vnode_id, vm0.node(vnode_id).inner_id));
                    }
                }
                rr
            },
            None => {
                if node.inner_id != 0 {
                    remove_node(self, provider, node.inner_id);
                    let ghost vm_r = *self;
                    match self.get_vnode(&vnode_id) {
                        Some(n2) => {
                            let cur2: VNode = n2.clone();
                            proof {
                                lemma_wf_basics(self);
                                assert(cur2@.embeded_child_v == self.node(
                                    vnode_id,
                                ).embeded_child_v);
                                assert forall|k: int|
                                    0 <= k < cur2@.embeded_child_v.len() implies #[trigger] cur2@
                                    .embeded_child_v[k] < self.issued() by {
                                    assert(self.node(vnode_id).embeded_child_v[k] < self.issued());
                                }
                            }
                            self.set_vnode(vnode_id, VNode { inner_id: 0, ..cur2 });
                        },
                        None => {},
                    }
                    proof {
                        lemma_wf_basics(&vm0);
                        lemma_wf_basics(&vm_r);
                        lemma_removal_log_pass(ev0, final(provider).events(), vm0, vm_r);
                        lemma_quiet_pass(final(provider).events(), vm_r, *self);
                        lemma_pass_events_compose(
                            ev0,
                            final(provider).events(),
                            final(provider).events(),
                            vm0,
                            vm_r,
                            *self,
                        );
                        lemma_confined_same_live(
                            vm0,
                            vm_r,
                            *self,
                            vm0.node(vm0.node(vnode_id).inner_id).context,
                            vm0.node(vnode_id).inner_id,
                        );
                    }
                } else {
                    proof {
                        lemma_quiet_pass(ev0, vm0, *self);
                    }
                }
                Ok(())
            },
        }
    }

    /// One reconciliation pass over `vnode_id`.  A node that is missing
    /// or not dirty is left untouched — the dirty flag is the single
    /// source of truth for "needs work" — and the flag is cleared
    /// before any recursion, so a pass re-enters a node only when
    /// something explicitly re-marks it.  An explicit new description
    /// that equals the current one has no visual effect (the provider
    /// is not notified), but layout still runs, because a state change
    /// leaves the description unchanged and still needs re-layout.
    /// Otherwise the provider is notified of the description change and
    /// the description is stored.  The evaluator is then asked for the
    /// node's template and the outcome is applied (see
    /// `apply_layout_result`).  A failing pass propagates its error and
    /// rolls nothing back: the caller re-runs reconciliation from a
    /// known-good dirty mark.
    pub fn apply_props<E: AsLayoutEvaluator, P: AsElementProvider<H = u64>>(
        &mut self,
        evaluator: &mut E,
        provider: &mut P,
        vnode_id: u64,
        view_props_op: Option<ViewProps>,
    ) -> (r: Result<(), Error>)
        requires
            old(self).wf(),
        ensures
            final(self).wf(),
            old(self).issued() <= final(self).issued(),
            old(provider).events().len() <= final(provider).events().len(),
            final(provider).events().subrange(0, old(provider).events().len() as int) == old(provider).events(),
            !old(self).live(vnode_id) ==> *final(self) == *old(self) && final(provider).events()
                == old(provider).events() && r is Ok,
            old(self).live(vnode_id) && !old(self).node(vnode_id).is_dirty ==> *final(self)
                == *old(self) && final(provider).events() == old(provider).events() && r is Ok,
            forall|j: u64|
                #[trigger] final(self).live(j) ==> old(self).live(j) || old(self).issued() <= j,
            forall|j: u64|
                j != vnode_id && old(self).live(j) && #[trigger] final(self).live(j)
                    ==> final(self).node(j).view_props == old(self).node(j).view_props
                    && final(self).node(j).state == old(self).node(j).state && final(self).node(
                    j,
                ).context == old(self).node(j).context && final(self).node(j).inner_id == old(
                    self,
                ).node(j).inner_id,
            (match view_props_op {
                Some(p) => p@ == old(self).node(vnode_id).view_props,
                None => true,
            }) ==> pass_events_ok(
                old(provider).events(),
                final(provider).events(),
                *old(self),
                *final(self),
            ),
            final(self).live(vnode_id) ==> !final(self).node(vnode_id).is_dirty,
            old(self).live(vnode_id) && final(self).live(vnode_id) ==> final(self).node(
                vnode_id,
            ).state == old(self).node(vnode_id).state && final(self).node(vnode_id).context == old(self).node(vnode_id).context,
            r is Ok && old(self).live(vnode_id) && old(self).node(vnode_id).is_dirty && final(self).live(vnode_id) ==> final(self).node(vnode_id).view_props == (match view_props_op {
                Some(p) => p@,
                None => old(self).node(vnode_id).view_props,
            }),
            (r matches Err(e) ==> e == Error::NotFound || e == Error::RuntimeError
                || e == Error::UnsupportedMode),
            old(self).live(vnode_id) && final(self).live(vnode_id) ==> final(self).node(
                vnode_id,
            ).view_props == old(self).node(vnode_id).view_props || (view_props_op matches Some(p)
                && final(self).node(vnode_id).view_props == p@),
            r is Ok && old(self).live(vnode_id) && old(self).node(vnode_id).is_dirty
                && final(self).live(vnode_id) && old(self).node(vnode_id).inner_id != 0
                && final(self).node(vnode_id).inner_id == 0 ==> !final(self).live(
                old(self).node(vnode_id).inner_id,
            ),
            r is Ok && old(self).live(vnode_id) && old(self).node(vnode_id).is_dirty
                && final(self).live(vnode_id) && final(self).node(vnode_id).inner_id != 0
                ==> final(self).node(vnode_id).inner_id == old(self).node(vnode_id).inner_id || (
            old(self).node(vnode_id).inner_id == 0 && old(self).issued() <= final(self).node(
                vnode_id,
            ).inner_id < final(self).issued() && (final(self).live(
                final(self).node(vnode_id).inner_id,
            ) ==> final(self).node(final(self).node(vnode_id).inner_id).context == vnode_id)),
            old(self).live(vnode_id) && old(self).node(vnode_id).is_dirty ==> removal_confined(
                *old(self),
                *final(self),
                vnode_id,
                old(self).node(vnode_id).inner_id,
            ) || removal_confined(
                *old(self),
                *final(self),
                old(self).node(old(self).node(vnode_id).inner_id).context,
                old(self).node(vnode_id).inner_id,
            ) || (forall|j: u64| old(self).live(j) ==> #[trigger] final(self).live(j)),
            old(self).live(vnode_id) && old(self).node(vnode_id).is_dirty && (view_props_op
                matches Some(p) && p@ != old(self).node(vnode_id).view_props) ==> ({
                let ev = old(provider).events();
                let pm = view_props_op.unwrap()@;
                let class_changed = old(self).node(vnode_id).view_props.class != pm.class;
                exists|mid: Seq<ElemEvent>|
                    {
                        &&& (class_changed ==> mid == ev.push(ElemEvent::Delete { id: vnode_id },
                        ).push(
                            ElemEvent::Create { id: vnode_id, class: pm.class, props: pm.props },
                        ))
                        &&& (!class_changed ==> mid == ev.push(
                            ElemEvent::Reuse { id: vnode_id, class: pm.class, props: pm.props },
                        ) || mid == ev.push(
                            ElemEvent::Reuse { id: vnode_id, class: pm.class, props: pm.props },
                        ).push(ElemEvent::Delete { id: vnode_id }).push(
                            ElemEvent::Create { id: vnode_id, class: pm.class, props: pm.props },
                        ))
                        &&& pass_events_ok(
                            mid,
                            final(provider).events(),
                            *old(self),
                            *final(self),
                        )
                    }
            }),
    {
        let ghost vm0 = *old(self);
        let ghost ev0 = old(provider).events();
        proof {
            lemma_wf_basics(self);
            assert(ev0.subrange(0, ev0.len() as int) =~= ev0);
        }
        let node: VNode = match self.get_vnode(&vnode_id) {
            Some(n) => n.clone(),
            None => {
                return Ok(());
            },
        };
        if !node.is_dirty {
            return Ok(());
        }
        let ghost vpo = view_props_op;
        let ghost mut ev_mid: Seq<ElemEvent> = ev0;
        let parent_op: Option<u64> = node.parent_op;
        let cleared = VNode { is_dirty: false, ..node.clone() };
        proof {
            lemma_wf_basics(self);
            assert(cleared@.embeded_child_v == self.node(vnode_id).embeded_child_v);
            assert(cleared@.inner_id == self.node(vnode_id).inner_id);
            assert forall|k: int|
                0 <= k < cleared@.embeded_child_v.len() implies #[trigger] cleared@
                .embeded_child_v[k] < self.issued() by {
                assert(self.node(vnode_id).embeded_child_v[k] < self.issued());
            }
        }
        self.set_vnode(vnode_id, cleared);
        proof {
            lemma_quiet_pass(ev0, vm0, *self);
        }
        let view_props: ViewProps = match view_props_op {
            Some(vp) => {
                if !props_eq(&node.view_props, &vp) {
                    self.on_update_vnode_props(provider, vnode_id, &vp);
                    let cur: VNode = match self.get_vnode(&vnode_id) {
                        Some(n) => n.clone(),
                        None => {
                            proof {
                                assert(false);
                            }
                            VNode::new(0, None)
                        },
                    };
                    proof {
                        lemma_wf_basics(self);
                        assert(cur@.embeded_child_v == self.node(vnode_id).embeded_child_v);
                        assert forall|k: int|
                            0 <= k < cur@.embeded_child_v.len() implies #[trigger] cur@
                            .embeded_child_v[k] < self.issued() by {
                            assert(self.node(vnode_id).embeded_child_v[k] < self.issued());
                        }
                    }
                    self.set_vnode(vnode_id, VNode { view_props: vp.clone(), ..cur });
                    proof {
                        ev_mid = provider.events();
                    }
                }
                vp
            },
            None => node.view_props.clone(),
        };
        let ghost vm_l = *self;
        let tpl_op: Option<Node<ViewProps>> = match layout(self, evaluator, vnode_id, &view_props)
            {
            Ok(t) => t,
            Err(e) => {
                proof {
                    assert(*self == vm_l);
                    lemma_quiet_pass(ev0, vm0, *self);
                    if (vpo matches Some(p) && p@ != vm0.node(vnode_id).view_props) {
                        lemma_quiet_pass(ev_mid, vm0, *self);
                        assert(exists|mid: Seq<ElemEvent>|
                            {
                                &&& ((vm0.node(vnode_id).view_props.class != vpo.unwrap()@.class)
                                    ==> mid == ev0.push(ElemEvent::Delete { id: vnode_id }).push(
                                    ElemEvent::Create {
                                        id: vnode_id,
                                        class: vpo.unwrap()@.class,
                                        props: vpo.unwrap()@.props,
                                    },
                                ))
                                &&& (!(vm0.node(vnode_id).view_props.class
                                    != vpo.unwrap()@.class) ==> mid == ev0.push(
                                    ElemEvent::Reuse {
                                        id: vnode_id,
                                        class: vpo.unwrap()@.class,
                                        props: vpo.unwrap()@.props,
                                    },
                                ) || mid == ev0.push(
                                    ElemEvent::Reuse {
                                        id: vnode_id,
                                        class: vpo.unwrap()@.class,
                                        props: vpo.unwrap()@.props,
                                    },
                                ).push(ElemEvent::Delete { id: vnode_id }).push(
                                    ElemEvent::Create {
                                        id: vnode_id,
                                        class: vpo.unwrap()@.class,
                                        props: vpo.unwrap()@.props,
                                    },
                                ))
                                &&& pass_events_ok(mid, provider.events(), vm0, *self)
                            }) by {
                            assert(pass_events_ok(ev_mid, provider.events(), vm0, *self));
                        }
                    }
                }
                return Err(e);
            },
        };
        let ghost had_tpl = tpl_op is Some;
        let rr = self.apply_layout_result(provider, vnode_id, parent_op, tpl_op);
        proof {
            lemma_wf_basics(&vm0);
            lemma_wf_basics(&vm_l);
            if (match vpo {
                Some(p) => p@ == vm0.node(vnode_id).view_props,
                None => true,
            }) {
                lemma_pass_events_compose(ev0, ev0, final(provider).events(), vm0, vm_l, *self);
            }
            if (vpo matches Some(p) && p@ != vm0.node(vnode_id).view_props) {
                lemma_pass_events_base_swap(
                    ev_mid,
                    final(provider).events(),
                    vm0,
                    vm_l,
                    *self,
                );
                assert(exists|mid: Seq<ElemEvent>|
                    {
                        &&& ((vm0.node(vnode_id).view_props.class != vpo.unwrap()@.class) ==> mid
                            == ev0.push(ElemEvent::Delete { id: vnode_id }).push(
                            ElemEvent::Create {
                                id: vnode_id,
                                class: vpo.unwrap()@.class,
                                props: vpo.unwrap()@.props,
                            },
                        ))
                        &&& (!(vm0.node(vnode_id).view_props.class != vpo.unwrap()@.class)
                            ==> mid == ev0.push(
                            ElemEvent::Reuse {
                                id: vnode_id,
                                class: vpo.unwrap()@.class,
                                props: vpo.unwrap()@.props,
                            },
                        ) || mid == ev0.push(
                            ElemEvent::Reuse {
                                id: vnode_id,
                                class: vpo.unwrap()@.class,
                                props: vpo.unwrap()@.props,
                            },
                        ).push(ElemEvent::Delete { id: vnode_id }).push(
                            ElemEvent::Create {
                                id: vnode_id,
                                class: vpo.unwrap()@.class,
                                props: vpo.unwrap()@.props,
                            },
                        ))
                        &&& pass_events_ok(mid, final(provider).events(), vm0, *self)
                    }) by {
                    assert(pass_events_ok(ev_mid, final(provider).events(), vm0, *self));
                }
            }
            if rr is Ok && self.live(vnode_id) {
                if vm0.node(vnode_id).inner_id != 0 && self.node(vnode_id).inner_id == 0 {
                    assert(!had_tpl);
                    assert(!self.live(vm0.node(vnode_id).inner_id));
                }
                if self.node(vnode_id).inner_id != 0 && self.node(vnode_id).inner_id != vm0.node(
                    vnode_id,
                ).inner_id {
                    assert(had_tpl);
                    assert(vm0.node(vnode_id).inner_id == 0);
                }
            }
            {
                let inner0 = vm0.node(vnode_id).inner_id;
                if had_tpl {
                    assert(removal_confined(vm0, *self, vnode_id, inner0)) by {
                        assert(removal_confined(vm_l, *self, vnode_id, inner0));
                        assert forall|j: u64|
                            vm0.live(j) && !(#[trigger] self.live(j)) implies j == inner0
                            || vm0.node(j).context == vnode_id || (vm0.live(vm0.node(j).context)
                            && !self.live(vm0.node(j).context)) by {
                            assert(vm_l.live(j));
                            assert(vm_l.node(j).context == vm0.node(j).context);
                        }
                    }
                } else {
                    if inner0 != 0 && vm0.live(inner0) {
                        assert(removal_confined(
                            vm0,
                            *self,
                            vm0.node(inner0).context,
                            inner0,
                        )) by {
                            assert(removal_confined(
                                vm_l,
                                *self,
                                vm_l.node(inner0).context,
                                inner0,
                            ));
                            assert(vm_l.node(inner0).context == vm0.node(inner0).context);
                            assert forall|j: u64|
                                vm0.live(j) && !(#[trigger] self.live(j)) implies j == inner0
                                || vm0.node(j).context == vm0.node(inner0).context || (vm0.live(
                                vm0.node(j).context,
                            ) && !self.live(vm0.node(j).context)) by {
                                assert(vm_l.live(j));
                                assert(vm_l.node(j).context == vm0.node(j).context);
                            }
                        }
                    } else {
                        assert(forall|j: u64| vm0.live(j) ==> #[trigger] self.live(j));
                    }
                }
            }
        }
        rr
    }
}

} // verus!

