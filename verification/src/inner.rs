//! The reconciliation internals: teardown of removed subtrees, the
//! pass-through rule, and the positional ("list") and content-keyed
//! ("set") child reconciliation strategies.

use vstd::prelude::*;

use crate::bean::{VNode, VNodeModel, copy_ids, fresh_vnode_model, props_eq};
use crate::err::Error;
use crate::node::{TplModel, lemma_tpls_model, tpls_model};
use crate::store::{dq_has, lemma_wf_basics, same_store};
use crate::value::{Val, Value, val_get, vals_model, value_first, value_get};
use crate::def::AsLayoutEvaluator;
use crate::node::{parse_child, parse_child_spec};
use vstd::string::StringExecFns;
use crate::node::Node;
use crate::bean::ViewProps;
use crate::def::{AsElementProvider, ElemEvent};
use crate::store::ViewManager;

verus! {

/// Whether `e` is a delete notification for a node that was live in
/// `vm0` and is gone in `vm1`.
pub open spec fn is_delete_of(e: ElemEvent, vm0: ViewManager, vm1: ViewManager) -> bool {
    match e {
        ElemEvent::Delete { id } => vm0.live(id) && !vm1.live(id),
        _ => false,
    }
}

/// The notifications appended between `pre` and `post` are distinct
/// deletes, each for a node removed between `vm0` and `vm1`.
pub open spec fn delete_events_shape(
    pre: Seq<ElemEvent>,
    post: Seq<ElemEvent>,
    vm0: ViewManager,
    vm1: ViewManager,
) -> bool {
    &&& pre.len() <= post.len()
    &&& post.subrange(0, pre.len() as int) == pre
    &&& (forall|k: int| pre.len() <= k < post.len() ==> is_delete_of(#[trigger] post[k], vm0, vm1))
    &&& (forall|k: int, l: int| pre.len() <= k < l < post.len() ==> post[k] != post[l])
}

/// Every node removed between `vm0` and `vm1` has its delete
/// notification between `pre` and `post`.
pub open spec fn delete_events_cover(
    pre: Seq<ElemEvent>,
    post: Seq<ElemEvent>,
    vm0: ViewManager,
    vm1: ViewManager,
) -> bool {
    forall|id: u64|
        vm0.live(id) && !(#[trigger] vm1.live(id)) ==> exists|k: int|
            pre.len() <= k < post.len() && post[k] == (ElemEvent::Delete { id })
}

/// The notifications appended between `pre` and `post` are exactly one
/// delete per node removed between `vm0` and `vm1`.
pub open spec fn removal_log(
    pre: Seq<ElemEvent>,
    post: Seq<ElemEvent>,
    vm0: ViewManager,
    vm1: ViewManager,
) -> bool {
    &&& delete_events_shape(pre, post, vm0, vm1)
    &&& delete_events_cover(pre, post, vm0, vm1)
}

/// Whether, going by the record `pj` of the parent `pid`, the child
/// `c` (with record `pc`) belongs to the parent's owned subtree: an
/// embedded child of the same context, or the synthesized template root
/// whose context names the parent.
pub open spec fn owned_rel(pid: u64, pj: VNodeModel, c: u64, pc: VNodeModel) -> bool {
    (pj.embeded_child_v.contains(c) && pc.context == pj.context) || (pj.inner_id == c && c != 0
        && pc.context == pid)
}

/// Teardown is closed for every removed node except `ex`: a removed
/// node's owned children (as recorded in `vm0`) are removed with it.
pub open spec fn removal_closed_except(vm0: ViewManager, vm1: ViewManager, ex: u64) -> bool {
    forall|j: u64, c: u64|
        #![trigger vm0.node(j), vm1.live(c)]
        j != ex && vm0.live(j) && !vm1.live(j) && vm0.live(c) && owned_rel(
            j,
            vm0.node(j),
            c,
            vm0.node(c),
        ) ==> !vm1.live(c)
}

/// Teardown is closed: every node removed between `vm0` and `vm1` has
/// its owned children (as recorded in `vm0`) removed too.
pub open spec fn removal_closed(vm0: ViewManager, vm1: ViewManager) -> bool {
    forall|j: u64, c: u64|
        #![trigger vm0.node(j), vm1.live(c)]
        vm0.live(j) && !vm1.live(j) && vm0.live(c) && owned_rel(j, vm0.node(j), c, vm0.node(c))
            ==> !vm1.live(c)
}


/// Teardown never reaches outside the component that owns its target:
/// every removed node is the target itself, belongs to the target's
/// component `ctx`, or is part of an inner subtree of another removed
/// node (its context names a removed node).  Contexts never change
/// after creation, so the clause reads them in the pre-state.
pub open spec fn removal_confined(
    vm0: ViewManager,
    vm1: ViewManager,
    ctx: u64,
    root: u64,
) -> bool {
    forall|j: u64|
        vm0.live(j) && !(#[trigger] vm1.live(j)) ==> j == root || vm0.node(j).context == ctx
            || (vm0.live(vm0.node(j).context) && !vm1.live(vm0.node(j).context))
}

/// Confinement carries over a stretch that does not change the
/// liveness of already-issued nodes.
pub proof fn lemma_confined_same_live(
    vm0: ViewManager,
    vm_a: ViewManager,
    vm_b: ViewManager,
    ctx: u64,
    root: u64,
)
    requires
        removal_confined(vm0, vm_a, ctx, root),
        forall|j: u64| vm0.live(j) ==> #[trigger] vm_b.live(j) == vm_a.live(j),
    ensures
        removal_confined(vm0, vm_b, ctx, root),
{
}

/// Confinement composes with one more teardown step, confined for its
/// own target under a context that either is ours or was itself
/// removed.
pub proof fn lemma_confined_step(
    vm0: ViewManager,
    vm_pre: ViewManager,
    vm_post: ViewManager,
    ctx: u64,
    root: u64,
    ctx2: u64,
    sub: u64,
)
    requires
        removal_confined(vm0, vm_pre, ctx, root),
        removal_confined(vm_pre, vm_post, ctx2, sub),
        ctx2 == ctx || (vm0.live(ctx2) && !vm_post.live(ctx2)),
        vm0.live(sub) ==> sub == root || vm0.node(sub).context == ctx || (vm0.live(
            vm0.node(sub).context,
        ) && !vm_post.live(vm0.node(sub).context)),
        forall|j: u64| #[trigger] vm_pre.live(j) ==> vm0.live(j) || vm0.issued() <= j,
        forall|j: u64|
            vm0.live(j) && #[trigger] vm_pre.live(j) ==> vm_pre.node(j).context == vm0.node(
                j,
            ).context,
        forall|j: u64| #[trigger] vm_post.live(j) ==> vm_pre.live(j) || vm_pre.issued() <= j,
        forall|j: u64| #[trigger] vm0.live(j) ==> j < vm0.issued(),
        forall|j: u64|
            #[trigger] vm0.live(j) ==> vm0.node(j).context < vm0.issued(),
        vm0.issued() <= vm_pre.issued(),
    ensures
        removal_confined(vm0, vm_post, ctx, root),
{
    assert forall|j: u64|
        vm0.live(j) && !(#[trigger] vm_post.live(j)) implies j == root || vm0.node(j).context
        == ctx || (vm0.live(vm0.node(j).context) && !vm_post.live(vm0.node(j).context)) by {
        let cx = vm0.node(j).context;
        if !vm_pre.live(j) {
            if !(j == root || cx == ctx) {
                assert(vm0.live(cx) && !vm_pre.live(cx));
                assert(cx < vm0.issued());
                assert(!vm_post.live(cx));
            }
        } else {
            if j != sub && !(j == root || cx == ctx) {
                assert(vm_pre.node(j).context == cx);
                if vm_pre.node(j).context == ctx2 {
                    assert(cx == ctx2);
                } else {
                    assert(vm_pre.live(cx) && !vm_post.live(cx));
                    assert(vm0.live(cx));
                }
            }
        }
    }
}

/// Removes the record under `id` and, bottom up, its whole owned
/// subtree: embedded children whose context matches the record's own
/// are torn down recursively, then the inner subtree (when its context
/// names this node, as a synthesized template root's does), and the
/// element provider hears one delete per removed node, children before
/// parents and the node's own delete last.  Nothing outside the owned
/// subtree is touched: children reached through pass-through stay with
/// the context node that provided them, and every removal is confined
/// to this node's component or to inner subtrees of removed nodes.
/// Removing a missing node changes nothing.
pub fn remove_node<P: AsElementProvider<H = u64>>(vm: &mut ViewManager, provider: &mut P, id: u64)
    requires
        old(vm).wf(),
    ensures
        final(vm).wf(),
        final(vm).issued() == old(vm).issued(),
        final(vm).live_count() <= old(vm).live_count(),
        final(vm).dirty_q() == old(vm).dirty_q(),
        !final(vm).live(id),
        forall|j: u64|
            #[trigger] final(vm).live(j) ==> old(vm).live(j) && final(vm).node(j) == old(vm).node(
                j,
            ),
        !old(vm).live(id) ==> *final(vm) == *old(vm) && final(provider).events() == old(provider).events(),
        old(vm).live(id) ==> final(provider).events().len() > old(provider).events().len()
            && final(provider).events().last() == (ElemEvent::Delete { id }),
        removal_log(old(provider).events(), final(provider).events(), *old(vm), *final(vm)),
        removal_closed(*old(vm), *final(vm)),
        removal_confined(*old(vm), *final(vm), old(vm).node(id).context, id),
    decreases vm.live_count(),
{
    let rec: VNode = match vm.rm_vnode(id) {
        Some(r) => r,
        None => {
            proof {
                assert(final(provider).events().subrange(0, old(provider).events().len() as int)
                    =~= old(provider).events());
            }
            return ;
        },
    };
    let ghost vm0 = *old(vm);
    let ghost ev0 = old(provider).events();
    proof {
        assert(provider.events().subrange(0, ev0.len() as int) =~= ev0);
    }
    let n: usize = rec.embeded_child_v.len();
    let mut i: usize = 0;
    while i < n
        invariant
            vm.wf(),
            n == rec.embeded_child_v@.len(),
            i <= n,
            rec@ == vm0.node(id),
            vm0.live(id),
            vm0.wf(),
            vm.issued() == vm0.issued(),
            vm.live_count() < vm0.live_count(),
            vm.dirty_q() == vm0.dirty_q(),
            !vm.live(id),
            forall|j: u64| #[trigger] vm.live(j) ==> vm0.live(j) && vm.node(j) == vm0.node(j),
            delete_events_shape(ev0, provider.events(), vm0, *vm),
            forall|k: int|
                ev0.len() <= k < provider.events().len() ==> #[trigger] provider.events()[k]
                    != (ElemEvent::Delete { id }),
            removal_closed_except(vm0, *vm, id),
            removal_confined(vm0, *vm, rec@.context, id),
            forall|jd: u64|
                vm0.live(jd) && !(#[trigger] vm.live(jd)) && jd != id ==> exists|k: int|
                    ev0.len() <= k < provider.events().len() && provider.events()[k]
                        == (ElemEvent::Delete { id: jd }),
            forall|k: int|
                0 <= k < i ==> ({
                    let c = #[trigger] rec.embeded_child_v@[k];
                    vm0.live(c) && vm0.node(c).context == rec@.context ==> !vm.live(c)
                }),
        decreases n - i,
    {
        let c: u64 = rec.embeded_child_v[i];
        let owned: bool = match vm.get_vnode(&c) {
            Some(cn) => cn.context == rec.context,
            None => false,
        };
        if owned {
            let ghost vm_pre = *vm;
            let ghost ev_pre = provider.events();
            remove_node(vm, provider, c);
            proof {
                lemma_removal_step(vm0, vm_pre, *vm, ev0, ev_pre, provider.events(), id);
                lemma_wf_basics(&vm0);
                lemma_confined_step(
                    vm0,
                    vm_pre,
                    *vm,
                    rec@.context,
                    id,
                    vm_pre.node(c).context,
                    c,
                );
            }
        }
        i = i + 1;
    }
    if rec.inner_id != 0 {
        let iid: u64 = rec.inner_id;
        let inner_owned: bool = match vm.get_vnode(&iid) {
            Some(n) => n.context == id,
            None => false,
        };
        if inner_owned {
            let ghost vm_pre = *vm;
            let ghost ev_pre = provider.events();
            remove_node(vm, provider, iid);
            proof {
                lemma_removal_step(vm0, vm_pre, *vm, ev0, ev_pre, provider.events(), id);
                lemma_wf_basics(&vm0);
                assert(!vm.live(id));
                lemma_confined_step(
                    vm0,
                    vm_pre,
                    *vm,
                    rec@.context,
                    id,
                    vm_pre.node(iid).context,
                    iid,
                );
            }
        }
    }
    let ghost ev_pre = provider.events();
    provider.delete_element(id);
    proof {
        lemma_removal_finish(vm0, *vm, ev0, ev_pre, provider.events(), id, rec@);
    }
}

/// Lifts one recursive teardown step: the step's guarantees, stated
/// against its immediate pre-state, continue the guarantees stated
/// against the whole removal's pre-state.
proof fn lemma_removal_step(
    vm0: ViewManager,
    vm_pre: ViewManager,
    vm_post: ViewManager,
    ev0: Seq<ElemEvent>,
    ev_pre: Seq<ElemEvent>,
    ev_post: Seq<ElemEvent>,
    id: u64,
)
    requires
        delete_events_shape(ev0, ev_pre, vm0, vm_pre),
        delete_events_shape(ev_pre, ev_post, vm_pre, vm_post),
        delete_events_cover(ev_pre, ev_post, vm_pre, vm_post),
        forall|k: int|
            ev0.len() <= k < ev_pre.len() ==> #[trigger] ev_pre[k] != (ElemEvent::Delete { id }),
        removal_closed_except(vm0, vm_pre, id),
        removal_closed(vm_pre, vm_post),
        forall|j: u64| #[trigger] vm_pre.live(j) ==> vm0.live(j) && vm_pre.node(j) == vm0.node(j),
        forall|j: u64|
            #[trigger] vm_post.live(j) ==> vm_pre.live(j) && vm_post.node(j) == vm_pre.node(j),
        !vm_pre.live(id),
        forall|jd: u64|
            vm0.live(jd) && !(#[trigger] vm_pre.live(jd)) && jd != id ==> exists|k: int|
                ev0.len() <= k < ev_pre.len() && ev_pre[k] == (ElemEvent::Delete { id: jd }),
    ensures
        delete_events_shape(ev0, ev_post, vm0, vm_post),
        forall|k: int|
            ev0.len() <= k < ev_post.len() ==> #[trigger] ev_post[k] != (ElemEvent::Delete { id }),
        removal_closed_except(vm0, vm_post, id),
        forall|jd: u64|
            vm0.live(jd) && !(#[trigger] vm_post.live(jd)) && jd != id ==> exists|k: int|
                ev0.len() <= k < ev_post.len() && ev_post[k] == (ElemEvent::Delete { id: jd }),
{
    assert(ev_post.subrange(0, ev0.len() as int) =~= ev0) by {
        assert(ev_post.subrange(0, ev_pre.len() as int) == ev_pre);
        assert(forall|k: int|
            0 <= k < ev_pre.len() ==> ev_post[k] == #[trigger] ev_post.subrange(
                0,
                ev_pre.len() as int,
            )[k]);
        assert(forall|k: int|
            0 <= k < ev0.len() ==> ev_pre[k] == #[trigger] ev_pre.subrange(
                0,
                ev0.len() as int,
            )[k]);
    }
    assert(forall|k: int| 0 <= k < ev_pre.len() ==> #[trigger] ev_post[k] == ev_pre[k]) by {
        assert(forall|k: int|
            0 <= k < ev_pre.len() ==> ev_post[k] == #[trigger] ev_post.subrange(
                0,
                ev_pre.len() as int,
            )[k]);
    }
    assert forall|k: int| ev0.len() <= k < ev_post.len() implies is_delete_of(
        #[trigger] ev_post[k],
        vm0,
        vm_post,
    ) by {
        if k < ev_pre.len() {
            assert(ev_post[k] == ev_pre[k]);
            assert(is_delete_of(ev_pre[k], vm0, vm_pre));
        } else {
            assert(is_delete_of(ev_post[k], vm_pre, vm_post));
        }
    }
    assert forall|k: int, l: int| ev0.len() <= k < l < ev_post.len() implies ev_post[k]
        != ev_post[l] by {
        if l >= ev_pre.len() && k < ev_pre.len() {
            assert(ev_post[k] == ev_pre[k]);
            assert(is_delete_of(ev_pre[k], vm0, vm_pre));
            assert(is_delete_of(ev_post[l], vm_pre, vm_post));
        }
    }
    assert forall|k: int|
        ev0.len() <= k < ev_post.len() implies #[trigger] ev_post[k] != (ElemEvent::Delete {
        id,
    }) by {
        if k < ev_pre.len() {
            assert(ev_post[k] == ev_pre[k]);
        } else {
            assert(is_delete_of(ev_post[k], vm_pre, vm_post));
        }
    }
    assert forall|j: u64, c: u64|
        #![trigger vm0.node(j), vm_post.live(c)]
        j != id && vm0.live(j) && !vm_post.live(j) && vm0.live(c) && owned_rel(
            j,
            vm0.node(j),
            c,
            vm0.node(c),
        ) implies !vm_post.live(c) by {
        if vm_pre.live(j) {
            assert(vm_pre.node(j) == vm0.node(j));
            if vm_post.live(c) {
                assert(vm_pre.live(c));
                assert(vm_pre.node(c) == vm0.node(c));
                assert(owned_rel(j, vm_pre.node(j), c, vm_pre.node(c)));
            }
        } else {
            if vm_post.live(c) {
                assert(vm_pre.live(c));
            }
        }
    }
    assert forall|jd: u64|
        vm0.live(jd) && !(#[trigger] vm_post.live(jd)) && jd != id implies exists|k: int|
        ev0.len() <= k < ev_post.len() && ev_post[k] == (ElemEvent::Delete { id: jd }) by {
        if !vm_pre.live(jd) {
            let k = choose|k: int|
                ev0.len() <= k < ev_pre.len() && ev_pre[k] == (ElemEvent::Delete { id: jd });
            assert(ev_post[k] == (ElemEvent::Delete { id: jd }));
        } else {
            let k = choose|k: int|
                ev_pre.len() <= k < ev_post.len() && ev_post[k] == (ElemEvent::Delete { id: jd });
            assert(ev_post[k] == (ElemEvent::Delete { id: jd }));
        }
    }
}

/// Finishes a teardown: after the node's own delete notification, the
/// appended notifications are exactly one delete per removed node, and
/// the removal is closed under owned children.
proof fn lemma_removal_finish(
    vm0: ViewManager,
    vm1: ViewManager,
    ev0: Seq<ElemEvent>,
    ev_pre: Seq<ElemEvent>,
    ev_post: Seq<ElemEvent>,
    id: u64,
    rec: VNodeModel,
)
    requires
        vm0.live(id),
        rec == vm0.node(id),
        !vm1.live(id),
        ev_post == ev_pre.push(ElemEvent::Delete { id }),
        delete_events_shape(ev0, ev_pre, vm0, vm1),
        forall|k: int|
            ev0.len() <= k < ev_pre.len() ==> #[trigger] ev_pre[k] != (ElemEvent::Delete { id }),
        removal_closed_except(vm0, vm1, id),
        forall|j: u64| #[trigger] vm1.live(j) ==> vm0.live(j) && vm1.node(j) == vm0.node(j),
        forall|jd: u64|
            vm0.live(jd) && !(#[trigger] vm1.live(jd)) && jd != id ==> exists|k: int|
                ev0.len() <= k < ev_pre.len() && ev_pre[k] == (ElemEvent::Delete { id: jd }),
        forall|k: int|
            0 <= k < rec.embeded_child_v.len() ==> ({
                let c = #[trigger] rec.embeded_child_v[k];
                vm0.live(c) && vm0.node(c).context == rec.context ==> !vm1.live(c)
            }),
        rec.inner_id != 0 && vm0.live(rec.inner_id) && vm0.node(rec.inner_id).context == id
            ==> !vm1.live(rec.inner_id),
    ensures
        removal_log(ev0, ev_post, vm0, vm1),
        removal_closed(vm0, vm1),
{
    assert(forall|k: int| 0 <= k < ev_pre.len() ==> #[trigger] ev_post[k] == ev_pre[k]);
    assert(ev_post.subrange(0, ev0.len() as int) =~= ev0) by {
        assert(forall|k: int|
            0 <= k < ev0.len() ==> ev_pre[k] == #[trigger] ev_pre.subrange(
                0,
                ev0.len() as int,
            )[k]);
    }
    assert forall|k: int| ev0.len() <= k < ev_post.len() implies is_delete_of(
        #[trigger] ev_post[k],
        vm0,
        vm1,
    ) by {
        if k < ev_pre.len() {
            assert(ev_post[k] == ev_pre[k]);
            assert(is_delete_of(ev_pre[k], vm0, vm1));
        } else {
            assert(ev_post[k] == (ElemEvent::Delete { id }));
        }
    }
    assert forall|k: int, l: int| ev0.len() <= k < l < ev_post.len() implies ev_post[k]
        != ev_post[l] by {
        if l == ev_pre.len() as int {
            assert(ev_post[k] == ev_pre[k]);
            assert(ev_post[l] == (ElemEvent::Delete { id }));
        }
    }
    assert forall|jd: u64|
        vm0.live(jd) && !(#[trigger] vm1.live(jd)) implies exists|k: int|
        ev0.len() <= k < ev_post.len() && ev_post[k] == (ElemEvent::Delete { id: jd }) by {
        if jd == id {
            let k = ev_pre.len() as int;
            assert(ev_post[k] == (ElemEvent::Delete { id: jd }));
        } else {
            let k = choose|k: int|
                ev0.len() <= k < ev_pre.len() && ev_pre[k] == (ElemEvent::Delete { id: jd });
            assert(ev_post[k] == (ElemEvent::Delete { id: jd }));
        }
    }
    assert forall|j: u64, c: u64|
        #![trigger vm0.node(j), vm1.live(c)]
        vm0.live(j) && !vm1.live(j) && vm0.live(c) && owned_rel(j, vm0.node(j), c, vm0.node(c))
            implies !vm1.live(c) by {
        if j == id {
            if rec.embeded_child_v.contains(c) && vm0.node(c).context == rec.context {
                let k = choose|k: int|
                    0 <= k < rec.embeded_child_v.len() && rec.embeded_child_v[k] == c;
                assert(!vm1.live(c));
            }
        }
    }
}

/// Lifts one teardown step of a truncation: the removed child subtree's
/// guarantees continue the guarantees stated against the truncation's
/// pre-state, in which only `vnode_id`'s record (its children list) may
/// differ, with its context kept.
proof fn lemma_trunc_step(
    vm0: ViewManager,
    vm_pre: ViewManager,
    vm_post: ViewManager,
    ev0: Seq<ElemEvent>,
    ev_pre: Seq<ElemEvent>,
    ev_post: Seq<ElemEvent>,
    vnode_id: u64,
)
    requires
        delete_events_shape(ev0, ev_pre, vm0, vm_pre),
        delete_events_cover(ev0, ev_pre, vm0, vm_pre),
        delete_events_shape(ev_pre, ev_post, vm_pre, vm_post),
        delete_events_cover(ev_pre, ev_post, vm_pre, vm_post),
        removal_closed_except(vm0, vm_pre, vnode_id),
        removal_closed(vm_pre, vm_post),
        forall|j: u64|
            #[trigger] vm_pre.live(j) ==> vm0.live(j) && (j != vnode_id ==> vm_pre.node(j)
                == vm0.node(j)),
        vm_pre.live(vnode_id) ==> vm0.live(vnode_id) && vm_pre.node(vnode_id).context == vm0.node(
            vnode_id,
        ).context,
        forall|j: u64|
            #[trigger] vm_post.live(j) ==> vm_pre.live(j) && vm_post.node(j) == vm_pre.node(j),
    ensures
        delete_events_shape(ev0, ev_post, vm0, vm_post),
        delete_events_cover(ev0, ev_post, vm0, vm_post),
        removal_closed_except(vm0, vm_post, vnode_id),
{
    assert(ev_post.subrange(0, ev0.len() as int) =~= ev0) by {
        assert(ev_post.subrange(0, ev_pre.len() as int) == ev_pre);
        assert(forall|k: int|
            0 <= k < ev_pre.len() ==> ev_post[k] == #[trigger] ev_post.subrange(
                0,
                ev_pre.len() as int,
            )[k]);
        assert(forall|k: int|
            0 <= k < ev0.len() ==> ev_pre[k] == #[trigger] ev_pre.subrange(
                0,
                ev0.len() as int,
            )[k]);
    }
    assert(forall|k: int| 0 <= k < ev_pre.len() ==> #[trigger] ev_post[k] == ev_pre[k]) by {
        assert(forall|k: int|
            0 <= k < ev_pre.len() ==> ev_post[k] == #[trigger] ev_post.subrange(
                0,
                ev_pre.len() as int,
            )[k]);
    }
    assert forall|k: int| ev0.len() <= k < ev_post.len() implies is_delete_of(
        #[trigger] ev_post[k],
        vm0,
        vm_post,
    ) by {
        if k < ev_pre.len() {
            assert(ev_post[k] == ev_pre[k]);
            assert(is_delete_of(ev_pre[k], vm0, vm_pre));
        } else {
            assert(is_delete_of(ev_post[k], vm_pre, vm_post));
        }
    }
    assert forall|k: int, l: int| ev0.len() <= k < l < ev_post.len() implies ev_post[k]
        != ev_post[l] by {
        if l >= ev_pre.len() && k < ev_pre.len() {
            assert(ev_post[k] == ev_pre[k]);
            assert(is_delete_of(ev_pre[k], vm0, vm_pre));
            assert(is_delete_of(ev_post[l], vm_pre, vm_post));
        }
    }
    assert forall|jd: u64|
        vm0.live(jd) && !(#[trigger] vm_post.live(jd)) implies exists|k: int|
        ev0.len() <= k < ev_post.len() && ev_post[k] == (ElemEvent::Delete { id: jd }) by {
        if !vm_pre.live(jd) {
            let k = choose|k: int|
                ev0.len() <= k < ev_pre.len() && ev_pre[k] == (ElemEvent::Delete { id: jd });
            assert(ev_post[k] == (ElemEvent::Delete { id: jd }));
        } else {
            let k = choose|k: int|
                ev_pre.len() <= k < ev_post.len() && ev_post[k] == (ElemEvent::Delete { id: jd });
            assert(ev_post[k] == (ElemEvent::Delete { id: jd }));
        }
    }
    assert forall|j: u64, c: u64|
        #![trigger vm0.node(j), vm_post.live(c)]
        j != vnode_id && vm0.live(j) && !vm_post.live(j) && vm0.live(c) && owned_rel(
            j,
            vm0.node(j),
            c,
            vm0.node(c),
        ) implies !vm_post.live(c) by {
        if vm_pre.live(j) {
            assert(vm_pre.node(j) == vm0.node(j));
            if vm_post.live(c) {
                assert(vm_pre.live(c));
                assert(vm_pre.node(c).context == vm0.node(c).context);
                assert(owned_rel(j, vm_pre.node(j), c, vm_pre.node(c)));
            }
        } else {
            if vm_post.live(c) {
                assert(vm_pre.live(c));
            }
        }
    }
}

/// Cuts a node's embedded children down to its first `n_sz` entries and
/// tears down every split-off child that the node owns (same context);
/// split-off children reached through pass-through are only released.
/// A missing node changes nothing.
pub fn trunc_embeded<P: AsElementProvider<H = u64>>(
    vnode_id: u64,
    vm: &mut ViewManager,
    provider: &mut P,
    n_sz: usize,
)
    requires
        old(vm).wf(),
    ensures
        final(vm).wf(),
        final(vm).issued() == old(vm).issued(),
        final(vm).live_count() <= old(vm).live_count(),
        final(vm).dirty_q() == old(vm).dirty_q(),
        !old(vm).live(vnode_id) ==> *final(vm) == *old(vm) && final(provider).events() == old(provider).events(),
        forall|j: u64| #[trigger] final(vm).live(j) ==> old(vm).live(j),
        forall|j: u64|
            j != vnode_id && #[trigger] final(vm).live(j) ==> final(vm).node(j) == old(vm).node(j),
        old(vm).live(vnode_id) && final(vm).live(vnode_id) ==> final(vm).node(vnode_id) == (
        VNodeModel {
            embeded_child_v: old(vm).node(vnode_id).embeded_child_v.take(
                if n_sz as int <= old(vm).node(vnode_id).embeded_child_v.len() {
                    n_sz as int
                } else {
                    old(vm).node(vnode_id).embeded_child_v.len() as int
                },
            ),
            ..old(vm).node(vnode_id)
        }),
        removal_log(old(provider).events(), final(provider).events(), *old(vm), *final(vm)),
        removal_closed_except(*old(vm), *final(vm), vnode_id),
        (forall|k: int|
            n_sz <= k < old(vm).node(vnode_id).embeded_child_v.len() ==> ({
                let c = #[trigger] old(vm).node(vnode_id).embeded_child_v[k];
                !(old(vm).live(c) && old(vm).node(c).context == old(vm).node(vnode_id).context)
            })) ==> (forall|j: u64| #[trigger] final(vm).live(j) == old(vm).live(j))
            && final(provider).events() == old(provider).events() && final(vm).live_count() == old(vm).live_count(),
        old(vm).live(vnode_id) ==> (forall|k: int|
            n_sz <= k < old(vm).node(vnode_id).embeded_child_v.len() ==> ({
                let c = #[trigger] old(vm).node(vnode_id).embeded_child_v[k];
                old(vm).live(c) && old(vm).node(c).context == old(vm).node(vnode_id).context
                    ==> !final(vm).live(c)
            })),
        removal_confined(*old(vm), *final(vm), old(vm).node(vnode_id).context, vnode_id),
{
    let rec: VNode = match vm.get_vnode(&vnode_id) {
        Some(r) => r.clone(),
        None => {
            proof {
                assert(final(provider).events().subrange(0, old(provider).events().len() as int)
                    =~= old(provider).events());
            }
            return ;
        },
    };
    let ghost vm0 = *old(vm);
    let ghost ev0 = old(provider).events();
    let ghost quiet = (forall|k: int|
        n_sz <= k < vm0.node(vnode_id).embeded_child_v.len() ==> ({
            let c = #[trigger] vm0.node(vnode_id).embeded_child_v[k];
            !(vm0.live(c) && vm0.node(c).context == vm0.node(vnode_id).context)
        }));
    let len: usize = rec.embeded_child_v.len();
    let keep: usize = if n_sz < len {
        n_sz
    } else {
        len
    };
    let ctx_val: u64 = rec.context;
    let old_children: Vec<u64> = copy_ids(&rec.embeded_child_v);
    let mut kept: Vec<u64> = copy_ids(&rec.embeded_child_v);
    kept.truncate(keep);
    let new_rec = VNode {
        view_props: rec.view_props,
        state: rec.state,
        inner_id: rec.inner_id,
        embeded_child_v: kept,
        context: rec.context,
        is_dirty: rec.is_dirty,
        parent_op: rec.parent_op,
    };
    proof {
        lemma_wf_basics(vm);
    }
    vm.set_vnode(vnode_id, new_rec);
    proof {
        assert(vm.node(vnode_id) =~= (VNodeModel {
            embeded_child_v: vm0.node(vnode_id).embeded_child_v.take(keep as int),
            ..vm0.node(vnode_id)
        }));
        assert(provider.events().subrange(0, ev0.len() as int) =~= ev0);
    }
    let mut i: usize = keep;
    while i < len
        invariant
            vm.wf(),
            keep <= len,
            len == old_children@.len(),
            old_children@ == vm0.node(vnode_id).embeded_child_v,
            ctx_val == vm0.node(vnode_id).context,
            vm0.live(vnode_id),
            vm0.wf(),
            keep <= i <= len,
            vm.issued() == vm0.issued(),
            vm.live_count() <= vm0.live_count(),
            vm.dirty_q() == vm0.dirty_q(),
            forall|j: u64|
                #[trigger] vm.live(j) ==> vm0.live(j) && (j != vnode_id ==> vm.node(j) == vm0.node(
                    j,
                )),
            vm.live(vnode_id) ==> vm.node(vnode_id) == (VNodeModel {
                embeded_child_v: vm0.node(vnode_id).embeded_child_v.take(keep as int),
                ..vm0.node(vnode_id)
            }),
            delete_events_shape(ev0, provider.events(), vm0, *vm),
            delete_events_cover(ev0, provider.events(), vm0, *vm),
            removal_closed_except(vm0, *vm, vnode_id),
            removal_confined(vm0, *vm, vm0.node(vnode_id).context, vnode_id),
            forall|k: int|
                keep <= k < i ==> ({
                    let c = #[trigger] old_children@[k];
                    vm0.live(c) && vm0.node(c).context == vm0.node(vnode_id).context ==> !vm.live(
                        c,
                    )
                }),
            quiet == (forall|k: int|
                n_sz <= k < vm0.node(vnode_id).embeded_child_v.len() ==> ({
                    let c = #[trigger] vm0.node(vnode_id).embeded_child_v[k];
                    !(vm0.live(c) && vm0.node(c).context == vm0.node(vnode_id).context)
                })),
            quiet ==> (forall|j: u64| #[trigger] vm.live(j) == vm0.live(j)) && provider.events()
                == ev0 && vm.live_count() == vm0.live_count(),
        decreases len - i,
    {
        let c: u64 = old_children[i];
        let owned: bool = match vm.get_vnode(&c) {
            Some(cn) => cn.context == ctx_val,
            None => false,
        };
        proof {
            if quiet {
                assert(vm0.node(vnode_id).embeded_child_v[i as int] == c);
                assert(!(vm0.live(c) && vm0.node(c).context == vm0.node(vnode_id).context));
                if vm.live(c) {
                    assert(vm0.live(c));
                    if c != vnode_id {
                        assert(vm.node(c) == vm0.node(c));
                    } else {
                        assert(vm.node(c).context == vm0.node(c).context);
                    }
                    assert(vm.node(c).context != ctx_val);
                }
                assert(!owned);
            }
        }
        if owned {
            let ghost vm_pre = *vm;
            let ghost ev_pre = provider.events();
            remove_node(vm, provider, c);
            proof {
                lemma_trunc_step(vm0, vm_pre, *vm, ev0, ev_pre, provider.events(), vnode_id);
                lemma_wf_basics(&vm0);
                lemma_confined_step(
                    vm0,
                    vm_pre,
                    *vm,
                    vm0.node(vnode_id).context,
                    vnode_id,
                    vm_pre.node(c).context,
                    c,
                );
            }
        } else {
            proof {
                if vm0.live(c) && vm0.node(c).context == vm0.node(vnode_id).context {
                    if vm.live(c) {
                        if c != vnode_id {
                            assert(vm.node(c) == vm0.node(c));
                        } else {
                            assert(vm.node(c).context == vm0.node(c).context);
                        }
                        assert(owned);
                    }
                }
            }
        }
        i = i + 1;
    }
}

/// The children a pass-through template aliases: the context node's
/// current embedded children, or none when the context is gone.
pub open spec fn captured_children(vm: ViewManager, embeded_id: u64) -> Seq<u64> {
    if vm.live(embeded_id) {
        vm.node(embeded_id).embeded_child_v
    } else {
        Seq::empty()
    }
}

/// Applies the pass-through rule: the node's embedded children are
/// replaced by the context node's current embedded children, as they
/// stand when the rule runs.  The aliased children are only referenced:
/// nothing is created (the issue counter is untouched), their records
/// change in the back reference alone, and ownership stays with the
/// context node.  Children the node itself owned are torn down first.
pub fn apply_pass_through<P: AsElementProvider<H = u64>>(
    vm: &mut ViewManager,
    provider: &mut P,
    vnode_id: u64,
    embeded_id: u64,
)
    requires
        old(vm).wf(),
        old(vm).live(vnode_id),
    ensures
        final(vm).wf(),
        final(vm).issued() == old(vm).issued(),
        final(vm).live_count() <= old(vm).live_count(),
        final(vm).dirty_q() == old(vm).dirty_q(),
        forall|j: u64| #[trigger] final(vm).live(j) ==> old(vm).live(j),
        ({
            let captured = captured_children(*old(vm), embeded_id);
            &&& (forall|j: u64|
                j != vnode_id && !captured.contains(j) && #[trigger] final(vm).live(j)
                    ==> final(vm).node(j) == old(vm).node(j))
            &&& (forall|j: u64|
                j != vnode_id && captured.contains(j) && #[trigger] final(vm).live(j)
                    ==> final(vm).node(j) == (VNodeModel {
                    parent_op: Some(vnode_id),
                    ..old(vm).node(j)
                }))
            &&& (final(vm).live(vnode_id) ==> ({
                let nd = final(vm).node(vnode_id);
                let od = old(vm).node(vnode_id);
                &&& nd.embeded_child_v == captured
                &&& nd.view_props == od.view_props
                &&& nd.state == od.state
                &&& nd.inner_id == od.inner_id
                &&& nd.context == od.context
                &&& nd.is_dirty == od.is_dirty
                &&& (captured.contains(vnode_id) ==> nd.parent_op == Some(vnode_id))
                &&& (!captured.contains(vnode_id) ==> nd.parent_op == od.parent_op)
            }))
        }),
        removal_log(old(provider).events(), final(provider).events(), *old(vm), *final(vm)),
        removal_closed_except(*old(vm), *final(vm), vnode_id),
        forall|k: int|
            0 <= k < old(vm).node(vnode_id).embeded_child_v.len() ==> ({
                let c = #[trigger] old(vm).node(vnode_id).embeded_child_v[k];
                old(vm).live(c) && old(vm).node(c).context == old(vm).node(vnode_id).context
                    ==> !final(vm).live(c)
            }),
        removal_confined(*old(vm), *final(vm), old(vm).node(vnode_id).context, vnode_id),
        (forall|k: int|
            0 <= k < old(vm).node(vnode_id).embeded_child_v.len() ==> ({
                let c = #[trigger] old(vm).node(vnode_id).embeded_child_v[k];
                !(old(vm).live(c) && old(vm).node(c).context == old(vm).node(vnode_id).context)
            })) ==> (forall|j: u64| #[trigger] final(vm).live(j) == old(vm).live(j))
            && final(provider).events() == old(provider).events(),
{
    let ghost vm0 = *old(vm);
    let ghost ev0 = old(provider).events();
    let captured: Vec<u64> = match vm.get_vnode(&embeded_id) {
        Some(cn) => copy_ids(&cn.embeded_child_v),
        None => Vec::new(),
    };
    proof {
        assert(captured@ == captured_children(vm0, embeded_id));
    }
    trunc_embeded(vnode_id, vm, provider, 0);
    let ghost vm_t = *vm;
    let n: usize = captured.len();
    let mut k: usize = 0;
    while k < n
        invariant
            vm.wf(),
            n == captured@.len(),
            k <= n,
            vm.issued() == vm_t.issued(),
            vm.live_count() == vm_t.live_count(),
            vm.dirty_q() == vm_t.dirty_q(),
            forall|j: u64| #[trigger] vm.live(j) == vm_t.live(j),
            forall|j: u64|
                #[trigger] vm.live(j) && !captured@.subrange(0, k as int).contains(j) ==> vm.node(
                    j,
                ) == vm_t.node(j),
            forall|j: u64|
                #[trigger] vm.live(j) && captured@.subrange(0, k as int).contains(j) ==> vm.node(
                    j,
                ) == (VNodeModel { parent_op: Some(vnode_id), ..vm_t.node(j) }),
        decreases n - k,
    {
        let c: u64 = captured[k];
        match vm.get_vnode(&c) {
            Some(cn) => {
                let updated = VNode { parent_op: Some(vnode_id), ..cn.clone() };
                proof {
                    lemma_wf_basics(vm);
                }
                vm.set_vnode(c, updated);
            },
            None => {},
        }
        proof {
            let pre = captured@.subrange(0, k as int);
            let post = captured@.subrange(0, k as int + 1);
            assert(post.drop_last() =~= pre);
            assert(post[k as int] == c);
            assert forall|j: u64| #[trigger] post.contains(j) implies j == c || pre.contains(
                j,
            ) by {
                let idx = choose|idx: int| 0 <= idx < post.len() && post[idx] == j;
                if idx < k as int {
                    assert(pre[idx] == j);
                }
            }
            assert forall|j: u64| #[trigger] pre.contains(j) implies post.contains(j) by {
                let idx = choose|idx: int| 0 <= idx < pre.len() && pre[idx] == j;
                assert(post[idx] == j);
            }
            assert(post.contains(c));
            assert forall|j: u64|
                #[trigger] vm.live(j) && post.contains(j) implies vm.node(j) == (VNodeModel {
                parent_op: Some(vnode_id),
                ..vm_t.node(j)
            }) by {
                if j != c {
                    assert(pre.contains(j));
                }
            }
        }
        k = k + 1;
    }
    proof {
        assert(captured@.subrange(0, n as int) =~= captured@);
    }
    match vm.get_vnode(&vnode_id) {
        Some(nd) => {
            let rec = nd.clone();
            let updated = VNode { embeded_child_v: captured, ..rec };
            proof {
                lemma_wf_basics(vm);
                lemma_wf_basics(&vm0);
            }
            vm.set_vnode(vnode_id, updated);
        },
        None => {},
    }
    proof {
        lemma_pass_through_frames(vm0, vm_t, *vm, ev0, provider.events(), vnode_id);
        lemma_confined_same_live(vm0, vm_t, *vm, vm0.node(vnode_id).context, vnode_id);
    }
}

/// After a pass-through's writes, the teardown bookkeeping done against
/// the truncation's post-state carries over: liveness did not change
/// again, so the delete log and closure still describe the removals.
proof fn lemma_pass_through_frames(
    vm0: ViewManager,
    vm_t: ViewManager,
    vm1: ViewManager,
    ev0: Seq<ElemEvent>,
    ev1: Seq<ElemEvent>,
    vnode_id: u64,
)
    requires
        delete_events_shape(ev0, ev1, vm0, vm_t),
        delete_events_cover(ev0, ev1, vm0, vm_t),
        removal_closed_except(vm0, vm_t, vnode_id),
        forall|j: u64| #[trigger] vm1.live(j) == vm_t.live(j),
    ensures
        delete_events_shape(ev0, ev1, vm0, vm1),
        delete_events_cover(ev0, ev1, vm0, vm1),
        removal_closed_except(vm0, vm1, vnode_id),
{
    assert forall|k: int| ev0.len() <= k < ev1.len() implies is_delete_of(
        #[trigger] ev1[k],
        vm0,
        vm1,
    ) by {
        assert(is_delete_of(ev1[k], vm0, vm_t));
    }
    assert forall|jd: u64|
        vm0.live(jd) && !(#[trigger] vm1.live(jd)) implies exists|k: int|
        ev0.len() <= k < ev1.len() && ev1[k] == (ElemEvent::Delete { id: jd }) by {
        assert(!vm_t.live(jd));
    }
    assert forall|j: u64, c: u64|
        #![trigger vm0.node(j), vm1.live(c)]
        j != vnode_id && vm0.live(j) && !vm1.live(j) && vm0.live(c) && owned_rel(
            j,
            vm0.node(j),
            c,
            vm0.node(c),
        ) implies !vm1.live(c) by {
        assert(!vm_t.live(j));
        assert(vm_t.live(c) == vm1.live(c));
    }
}

/// Grows or shrinks a node's embedded children to exactly `want`
/// positions, as positional ("list") reconciliation asks: existing
/// children keep their identities and positions, missing positions are
/// filled with exactly one fresh node each, and surplus positions are
/// torn down.  The returned list is the node's new children list.
pub fn reconcile_list_skeleton<P: AsElementProvider<H = u64>>(
    vm: &mut ViewManager,
    provider: &mut P,
    ctx: u64,
    vnode_id: u64,
    want: usize,
) -> (ids: Vec<u64>)
    requires
        old(vm).wf(),
        old(vm).live(vnode_id),
        ctx < old(vm).issued(),
    ensures
        final(vm).wf(),
        old(vm).issued() <= final(vm).issued(),
        final(vm).dirty_q() == old(vm).dirty_q(),
        ids@.len() == want,
        ({
            let old_list = old(vm).node(vnode_id).embeded_child_v;
            &&& (forall|i: int| 0 <= i < want && i < old_list.len() ==> ids@[i] == old_list[i])
            &&& (forall|i: int|
                old_list.len() <= i < want ==> !old(vm).live(ids@[i]) && final(vm).live(ids@[i])
                    && final(vm).node(ids@[i]) == fresh_vnode_model(ctx, Some(vnode_id)))
            &&& (forall|i: int|
                old_list.len() <= i < want ==> old(vm).issued() <= #[trigger] ids@[i]
                    < final(vm).issued())
            &&& (forall|i1: int, i2: int|
                old_list.len() <= i1 < i2 < want ==> #[trigger] ids@[i1] != #[trigger] ids@[i2])
            &&& final(vm).issued() == old(vm).issued() + (if want as int > old_list.len() {
                want as int - old_list.len()
            } else {
                0
            })
            &&& (want as int >= old_list.len() ==> final(provider).events() == old(provider).events() && (forall|j: u64| old(vm).live(j) ==> #[trigger] final(vm).live(j)))
        }),
        forall|j: u64|
            #[trigger] final(vm).live(j) ==> old(vm).live(j) || old(vm).issued() <= j,
        forall|j: u64|
            #[trigger] final(vm).live(j) && old(vm).issued() <= j ==> final(vm).node(j).context
                == ctx,
        forall|j: u64|
            j != vnode_id && old(vm).live(j) && #[trigger] final(vm).live(j) ==> final(vm).node(j)
                == old(vm).node(j),
        final(vm).live(vnode_id) ==> final(vm).node(vnode_id) == (VNodeModel {
            embeded_child_v: ids@,
            ..old(vm).node(vnode_id)
        }),
        forall|k: int|
            want <= k < old(vm).node(vnode_id).embeded_child_v.len() ==> ({
                let c = #[trigger] old(vm).node(vnode_id).embeded_child_v[k];
                old(vm).live(c) && old(vm).node(c).context == old(vm).node(vnode_id).context
                    ==> !final(vm).live(c)
            }),
        removal_log(old(provider).events(), final(provider).events(), *old(vm), *final(vm)),
        removal_closed_except(*old(vm), *final(vm), vnode_id),
        removal_confined(*old(vm), *final(vm), old(vm).node(vnode_id).context, vnode_id),
{
    let ghost vm0 = *old(vm);
    let ghost ev0 = old(provider).events();
    let rec: VNode = match vm.get_vnode(&vnode_id) {
        Some(r) => r.clone(),
        None => {
            proof {
                assert(false);
            }
            VNode::new(0, None)
        },
    };
    let old_len: usize = rec.embeded_child_v.len();
    if want >= old_len {
        let mut ids: Vec<u64> = copy_ids(&rec.embeded_child_v);
        proof {
            lemma_wf_basics(vm);
        }
        while ids.len() < want
            invariant
                vm.wf(),
                old_len <= ids@.len() <= want,
                vm0.wf(),
                vm0.live(vnode_id),
                ctx < vm0.issued(),
                old_len == vm0.node(vnode_id).embeded_child_v.len(),
                vm.issued() == vm0.issued() + (ids@.len() - old_len),
                vm.dirty_q() == vm0.dirty_q(),
                provider.events() == ev0,
                forall|i: int| 0 <= i < old_len ==> ids@[i] == vm0.node(vnode_id).embeded_child_v[i],
                forall|i: int|
                    old_len <= i < ids@.len() ==> !vm0.live(ids@[i]) && vm.live(ids@[i])
                        && vm.node(ids@[i]) == fresh_vnode_model(ctx, Some(vnode_id)),
                forall|i: int|
                    old_len <= i < ids@.len() ==> vm0.issued() <= #[trigger] ids@[i] < vm.issued(),
                forall|i1: int, i2: int|
                    old_len <= i1 < i2 < ids@.len() ==> #[trigger] ids@[i1] < #[trigger] ids@[i2],
                forall|j: u64| #[trigger] vm.live(j) ==> vm0.live(j) || vm0.issued() <= j,
                forall|j: u64|
                    #[trigger] vm.live(j) && vm0.issued() <= j ==> vm.node(j).context == ctx,
                forall|j: u64| vm0.live(j) ==> #[trigger] vm.live(j),
                forall|j: u64|
                    vm0.live(j) && #[trigger] vm.live(j) ==> vm.node(j) == vm0.node(j),
            decreases want - ids@.len(),
        {
            let nid: u64 = vm.new_vnode(VNode::new(ctx, Some(vnode_id)));
            ids.push(nid);
        }
        let rec2: VNode = match vm.get_vnode(&vnode_id) {
            Some(r) => r.clone(),
            None => {
                proof {
                    assert(false);
                }
                VNode::new(0, None)
            },
        };
        let updated = VNode { embeded_child_v: copy_ids(&ids), ..rec2 };
        vm.set_vnode(vnode_id, updated);
        proof {
            assert(provider.events().subrange(0, ev0.len() as int) =~= ev0);
            assert(vm.node(vnode_id) =~= (VNodeModel {
                embeded_child_v: ids@,
                ..vm0.node(vnode_id)
            }));
        }
        ids
    } else {
        let mut ids: Vec<u64> = copy_ids(&rec.embeded_child_v);
        ids.truncate(want);
        trunc_embeded(vnode_id, vm, provider, want);
        proof {
            assert(ids@ =~= vm0.node(vnode_id).embeded_child_v.take(want as int));
            lemma_wf_basics(&vm0);
            assert forall|j: u64|
                #[trigger] vm.live(j) && vm0.issued() <= j implies vm.node(j).context == ctx by {
                assert(vm0.live(j));
            }
        }
        ids
    }
}

/// Whether the node under `i` in `existing` can be reused for a
/// template child with payload `data`: it is live, owned by the
/// reconciling component, and carries the same description.
pub open spec fn set_candidate(
    vm: ViewManager,
    ctx: u64,
    existing: Seq<u64>,
    i: int,
    data: crate::bean::PropsModel,
) -> bool {
    &&& 0 <= i < existing.len()
    &&& vm.live(existing[i])
    &&& vm.node(existing[i]).context == ctx
    &&& vm.node(existing[i]).view_props == data
}

/// Whether some position before `upto` reuses the existing child at
/// index `i`.
pub open spec fn assigned_before(assigns: Seq<Option<usize>>, i: int, upto: int) -> bool {
    exists|j: int| 0 <= j < upto && j < assigns.len() && assigns[j] == Some(i as usize)
}

/// The pairing invariant of set matching, for the first `upto`
/// positions: a taken index is a candidate that no earlier position
/// took, a `None` position means every candidate was already taken, and
/// a taken index is the first candidate that was still free.
pub open spec fn set_assign_valid(
    vm: ViewManager,
    ctx: u64,
    existing: Seq<u64>,
    tpls: Seq<Node<ViewProps>>,
    assigns: Seq<Option<usize>>,
    upto: int,
) -> bool {
    &&& (forall|jj: int|
        #![trigger assigns[jj]]
        0 <= jj < upto && jj < assigns.len() && assigns[jj] is Some ==> set_candidate(
            vm,
            ctx,
            existing,
            assigns[jj].unwrap() as int,
            tpls[jj].data@,
        ) && !assigned_before(assigns, assigns[jj].unwrap() as int, jj))
    &&& (forall|jj: int, i: int|
        #![trigger set_candidate(vm, ctx, existing, i, tpls[jj].data@)]
        0 <= jj < upto && jj < assigns.len() && assigns[jj] is None && set_candidate(
            vm,
            ctx,
            existing,
            i,
            tpls[jj].data@,
        ) ==> assigned_before(assigns, i, jj))
    &&& (forall|jj: int, i: int|
        #![trigger set_candidate(vm, ctx, existing, i, tpls[jj].data@)]
        0 <= jj < upto && jj < assigns.len() && assigns[jj] is Some
            && 0 <= i < assigns[jj].unwrap() as int
            && set_candidate(vm, ctx, existing, i, tpls[jj].data@)
            ==> assigned_before(assigns, i, jj))
}

proof fn lemma_set_assign_extend(
    vm: ViewManager,
    ctx: u64,
    existing: Seq<u64>,
    tpls: Seq<Node<ViewProps>>,
    a_old: Seq<Option<usize>>,
    pick: Option<usize>,
)
    requires
        set_assign_valid(vm, ctx, existing, tpls, a_old, a_old.len() as int),
        a_old.len() < tpls.len(),
        match pick {
            Some(p) => !assigned_before(a_old, p as int, a_old.len() as int) && set_candidate(
                vm,
                ctx,
                existing,
                p as int,
                tpls[a_old.len() as int].data@,
            ) && (forall|i: int|
                0 <= i < p as int && set_candidate(
                    vm,
                    ctx,
                    existing,
                    i,
                    #[trigger] tpls[a_old.len() as int].data@,
                ) ==> assigned_before(a_old, i, a_old.len() as int)),
            None => forall|i: int|
                set_candidate(vm, ctx, existing, i, #[trigger] tpls[a_old.len() as int].data@)
                    ==> assigned_before(a_old, i, a_old.len() as int),
        },
    ensures
        set_assign_valid(vm, ctx, existing, tpls, a_old.push(pick), a_old.len() as int + 1),
{
    let a_new = a_old.push(pick);
    let jv = a_old.len() as int;
    assert(a_new[jv] == pick);
    assert(forall|jj: int| 0 <= jj < jv ==> a_new[jj] == #[trigger] a_old[jj]);
    assert forall|i2: int, up: int|
        0 <= up <= jv && #[trigger] assigned_before(a_old, i2, up) implies assigned_before(
        a_new,
        i2,
        up,
    ) by {
        let jj = choose|jj: int| 0 <= jj < up && jj < a_old.len() && a_old[jj] == Some(i2 as usize);
        assert(a_new[jj] == Some(i2 as usize));
    }
    assert forall|i2: int, up: int|
        0 <= up <= jv && #[trigger] assigned_before(a_new, i2, up) implies assigned_before(
        a_old,
        i2,
        up,
    ) by {
        let jj = choose|jj: int| 0 <= jj < up && jj < a_new.len() && a_new[jj] == Some(i2 as usize);
        assert(a_old[jj] == Some(i2 as usize));
    }
    assert forall|jj: int|
        #![trigger a_new[jj]]
        0 <= jj < jv + 1 && jj < a_new.len() && a_new[jj] is Some implies set_candidate(
        vm,
        ctx,
        existing,
        a_new[jj].unwrap() as int,
        tpls[jj].data@,
    ) && !assigned_before(a_new, a_new[jj].unwrap() as int, jj) by {
        if jj < jv {
            assert(a_new[jj] == a_old[jj]);
            assert(!assigned_before(a_old, a_old[jj].unwrap() as int, jj));
        } else {
            assert(a_new[jj] == pick);
        }
    }
    assert forall|jj: int, i: int|
        #![trigger set_candidate(vm, ctx, existing, i, tpls[jj].data@)]
        0 <= jj < jv + 1 && jj < a_new.len() && a_new[jj] is None && set_candidate(
            vm,
            ctx,
            existing,
            i,
            tpls[jj].data@,
        ) implies assigned_before(a_new, i, jj) by {
        if jj < jv {
            assert(a_new[jj] == a_old[jj]);
            assert(assigned_before(a_old, i, jj));
        } else {
            assert(assigned_before(a_old, i, jv));
        }
    }
    assert forall|jj: int, i: int|
        #![trigger set_candidate(vm, ctx, existing, i, tpls[jj].data@)]
        0 <= jj < jv + 1 && jj < a_new.len() && a_new[jj] is Some
            && 0 <= i < a_new[jj].unwrap() as int
            && set_candidate(vm, ctx, existing, i, tpls[jj].data@)
        implies assigned_before(a_new, i, jj) by {
        if jj < jv {
            assert(a_new[jj] == a_old[jj]);
            assert(assigned_before(a_old, i, jj));
        } else {
            assert(a_new[jj] == pick);
            assert(assigned_before(a_old, i, jv));
        }
    }
}

/// Content-keyed matching for "set" reconciliation: each template child
/// is paired with the first not-yet-taken existing child that is live,
/// owned and carries an equal description; children with equal
/// descriptions are indistinguishable, so first-come pairing decides
/// ties.  `None` means no candidate was left, so a node must be
/// created; existing children that no position takes are the leftovers
/// to remove.
pub fn match_set_children(
    vm: &ViewManager,
    ctx: u64,
    existing: &Vec<u64>,
    tpl_children: &Vec<Node<ViewProps>>,
) -> (r: (Vec<Option<usize>>, Vec<bool>))
    ensures
        r.0@.len() == tpl_children@.len(),
        set_assign_valid(*vm, ctx, existing@, tpl_children@, r.0@, r.0@.len() as int),
        r.1@.len() == existing@.len(),
        forall|i: int|
            0 <= i < existing@.len() ==> #[trigger] r.1@[i] == assigned_before(
                r.0@,
                i,
                r.0@.len() as int,
            ),
{
    let n_t: usize = tpl_children.len();
    let n_e: usize = existing.len();
    let mut matched: Vec<bool> = Vec::new();
    let mut i0: usize = 0;
    while i0 < n_e
        invariant
            i0 <= n_e,
            matched@.len() == i0,
            forall|i: int| 0 <= i < i0 ==> !matched@[i],
        decreases n_e - i0,
    {
        matched.push(false);
        i0 = i0 + 1;
    }
    let mut assigns: Vec<Option<usize>> = Vec::new();
    let mut j: usize = 0;
    while j < n_t
        invariant
            j <= n_t,
            n_t == tpl_children@.len(),
            n_e == existing@.len(),
            assigns@.len() == j,
            matched@.len() == n_e,
            forall|i: int|
                0 <= i < n_e ==> #[trigger] matched@[i] == assigned_before(assigns@, i, j as int),
            set_assign_valid(*vm, ctx, existing@, tpl_children@, assigns@, j as int),
        decreases n_t - j,
    {
        let mut pick: Option<usize> = None;
        let mut i: usize = 0;
        while i < n_e
            invariant
                i <= n_e,
                n_e == existing@.len(),
                matched@.len() == n_e,
                n_t == tpl_children@.len(),
                j < n_t,
                match pick {
                    Some(p) => p < i && p < n_e && !matched@[p as int] && set_candidate(
                        *vm,
                        ctx,
                        existing@,
                        p as int,
                        tpl_children@[j as int].data@,
                    ) && (forall|i2: int|
                        0 <= i2 < p && set_candidate(
                            *vm,
                            ctx,
                            existing@,
                            i2,
                            tpl_children@[j as int].data@,
                        ) ==> matched@[i2]),
                    None => forall|i2: int|
                        0 <= i2 < i && set_candidate(
                            *vm,
                            ctx,
                            existing@,
                            i2,
                            tpl_children@[j as int].data@,
                        ) ==> matched@[i2],
                },
            decreases n_e - i,
        {
            if pick.is_none() && !matched[i] {
                let cand: bool = match vm.get_vnode(&existing[i]) {
                    Some(cn) => cn.context == ctx && props_eq(
                        &cn.view_props,
                        &tpl_children[j].data,
                    ),
                    None => false,
                };
                if cand {
                    pick = Some(i);
                }
            }
            i = i + 1;
        }
        let ghost matched0 = matched@;
        let ghost a_old = assigns@;
        match pick {
            Some(p) => {
                matched[p] = true;
                assigns.push(Some(p));
            },
            None => {
                assigns.push(None);
            },
        }
        proof {
            let a_new = assigns@;
            let jv = j as int;
            assert(a_new =~= a_old.push(pick));
            assert(a_new[jv] == pick);
            match pick {
                Some(p) => {
                    assert(!matched0[p as int]);
                    assert(!assigned_before(a_old, p as int, jv));
                    assert forall|i2: int|
                        0 <= i2 < p as int && set_candidate(
                            *vm,
                            ctx,
                            existing@,
                            i2,
                            #[trigger] tpl_children@[jv].data@,
                        ) implies assigned_before(a_old, i2, jv) by {
                        assert(matched0[i2]);
                    }
                },
                None => {
                    assert forall|i2: int|
                        set_candidate(*vm, ctx, existing@, i2, #[trigger] tpl_children@[jv].data@)
                        implies assigned_before(a_old, i2, jv) by {
                        assert(matched0[i2]);
                    }
                },
            }
            lemma_set_assign_extend(*vm, ctx, existing@, tpl_children@, a_old, pick);
            assert forall|i2: int, up: int|
                0 <= up <= jv && #[trigger] assigned_before(a_old, i2, up) implies assigned_before(
                a_new,
                i2,
                up,
            ) by {
                let jj = choose|jj: int|
                    0 <= jj < up && jj < a_old.len() && a_old[jj] == Some(i2 as usize);
                assert(a_new[jj] == Some(i2 as usize));
            }
            assert forall|i2: int, up: int|
                0 <= up <= jv && #[trigger] assigned_before(a_new, i2, up) implies assigned_before(
                a_old,
                i2,
                up,
            ) by {
                let jj = choose|jj: int|
                    0 <= jj < up && jj < a_new.len() && a_new[jj] == Some(i2 as usize);
                assert(a_old[jj] == Some(i2 as usize));
            }
            assert forall|i2: int|
                0 <= i2 < n_e implies #[trigger] matched@[i2] == assigned_before(
                a_new,
                i2,
                jv + 1,
            ) by {
                match pick {
                    Some(p) => {
                        if i2 == p as int {
                            assert(a_new[jv] == Some(i2 as usize));
                            assert(assigned_before(a_new, i2, jv + 1));
                            assert(matched@[i2]);
                        } else {
                            assert(matched@[i2] == matched0[i2]);
                            if assigned_before(a_new, i2, jv + 1) {
                                let jj = choose|jj: int|
                                    0 <= jj < jv + 1 && jj < a_new.len() && a_new[jj] == Some(
                                        i2 as usize,
                                    );
                                if jj == jv {
                                    assert(a_new[jv] == Some(p));
                                    assert(i2 == p as int);
                                } else {
                                    assert(assigned_before(a_old, i2, jv));
                                }
                            }
                            if assigned_before(a_old, i2, jv) {
                                let jj = choose|jj: int|
                                    0 <= jj < jv && jj < a_old.len() && a_old[jj] == Some(
                                        i2 as usize,
                                    );
                                assert(a_new[jj] == Some(i2 as usize));
                                assert(assigned_before(a_new, i2, jv + 1));
                            }
                        }
                    },
                    None => {
                        if assigned_before(a_new, i2, jv + 1) {
                            let jj = choose|jj: int|
                                0 <= jj < jv + 1 && jj < a_new.len() && a_new[jj] == Some(
                                    i2 as usize,
                                );
                            assert(jj != jv);
                            assert(a_old[jj] == Some(i2 as usize));
                            assert(assigned_before(a_old, i2, jv));
                        }
                        if assigned_before(a_old, i2, jv) {
                            let jj = choose|jj: int|
                                0 <= jj < jv && jj < a_old.len() && a_old[jj] == Some(i2 as usize);
                            assert(a_new[jj] == Some(i2 as usize));
                            assert(assigned_before(a_new, i2, jv + 1));
                        }
                    },
                }
            }
        }
        j = j + 1;
    }
    (assigns, matched)
}

/// The two supported child-reconciliation strategies.
#[derive(Clone, Copy, Debug, PartialEq, Eq, Structural)]
pub enum ChildMode {
    /// Positional "list" reconciliation.
    Positional,
    /// Content-keyed "set" reconciliation.
    Keyed,
}

/// The strategy a template's property data selects: the first element
/// under `"$type"` (or the bare value, when it is a string) must be
/// `"list"` or `"set"`; absence defaults to positional "list"; anything
/// else is an unsupported discriminator.
pub open spec fn mode_spec(props: Val) -> Option<ChildMode> {
    let tv = val_get(props, "$type"@);
    let d = match tv {
        Val::Arr(items) => if items.len() > 0 {
            items[0]
        } else {
            Val::Null
        },
        _ => tv,
    };
    match d {
        Val::Null => Some(ChildMode::Positional),
        Val::Str(name) => if name == "list"@ {
            Some(ChildMode::Positional)
        } else if name == "set"@ {
            Some(ChildMode::Keyed)
        } else {
            None
        },
        _ => None,
    }
}

/// Reads the child-reconciliation strategy out of a template's property
/// data.  An unknown discriminator is a fatal configuration error, not a
/// silent fallback: it comes back as `UnsupportedMode`.
pub fn discriminator(props: &Value) -> (r: Result<ChildMode, Error>)
    ensures
        match r {
            Ok(m) => mode_spec(props@) == Some(m),
            Err(e) => mode_spec(props@) is None && e == Error::UnsupportedMode,
        },
{
    let tv: Option<&Value> = value_get(props, "$type");
    let d: Option<&Value> = match tv {
        Some(t) => match t {
            Value::Arr(_) => value_first(t),
            _ => Some(t),
        },
        None => None,
    };
    match d {
        None => Ok(ChildMode::Positional),
        Some(dv) => match dv {
            Value::Null => Ok(ChildMode::Positional),
            Value::Str(name) => {
                if name.eq(&"list".to_owned()) {
                    Ok(ChildMode::Positional)
                } else if name.eq(&"set".to_owned()) {
                    Ok(ChildMode::Keyed)
                } else {
                    Err(Error::UnsupportedMode)
                }
            },
            _ => Err(Error::UnsupportedMode),
        },
    }
}

/// Whether a template delegates its children slot: its first child is
/// the pass-through sentinel.
pub open spec fn is_pass_through(t: TplModel) -> bool {
    t.child_v.len() > 0 && t.child_v[0].data.class == "$child"@
}

/// Whether the live tree under `id` already matches the template `t`:
/// the node is live, owned by the reconciling component, carries the
/// template's payload, and its children line up with the template's
/// children position by position (for pass-through: with the context
/// node's children, already re-parented and not owned).  Applying a
/// matching template changes nothing.
pub open spec fn tpl_settled(
    vm: ViewManager,
    ctx: u64,
    id: u64,
    t: TplModel,
    embeded_id: u64,
) -> bool
    decreases t,
{
    &&& vm.live(id)
    &&& vm.node(id).context == ctx
    &&& vm.node(id).view_props == t.data
    &&& if is_pass_through(t) {
        let captured = captured_children(vm, embeded_id);
        &&& vm.node(id).embeded_child_v == captured
        &&& (forall|k: int|
            0 <= k < captured.len() ==> ({
                let c = #[trigger] captured[k];
                vm.live(c) && vm.node(c).parent_op == Some(id) && vm.node(c).context != ctx
            }))
    } else {
        match mode_spec(t.data.props) {
            Some(_) => {
                &&& vm.node(id).embeded_child_v.len() == t.child_v.len()
                &&& (forall|k: int|
                    0 <= k < t.child_v.len() ==> tpl_settled(
                        vm,
                        ctx,
                        #[trigger] vm.node(id).embeded_child_v[k],
                        t.child_v[k],
                        embeded_id,
                    ))
            },
            None => false,
        }
    }
}

/// A settled template stays settled across stores that hold the same
/// tree.
pub proof fn lemma_settled_same_store(
    vm1: ViewManager,
    vm2: ViewManager,
    ctx: u64,
    id: u64,
    t: TplModel,
    embeded_id: u64,
)
    requires
        same_store(vm1, vm2),
        tpl_settled(vm1, ctx, id, t, embeded_id),
    ensures
        tpl_settled(vm2, ctx, id, t, embeded_id),
    decreases t,
{
    if is_pass_through(t) {
        assert(captured_children(vm2, embeded_id) == captured_children(vm1, embeded_id));
    } else {
        assert forall|k: int| 0 <= k < t.child_v.len() implies tpl_settled(
            vm2,
            ctx,
            #[trigger] vm2.node(id).embeded_child_v[k],
            t.child_v[k],
            embeded_id,
        ) by {
            assert(tpl_settled(vm1, ctx, vm1.node(id).embeded_child_v[k], t.child_v[k], embeded_id));
            lemma_settled_same_store(
                vm1,
                vm2,
                ctx,
                vm1.node(id).embeded_child_v[k],
                t.child_v[k],
                embeded_id,
            );
        }
    }
}

/// When every existing child already matches its template position in
/// order, first-come matching pairs each position with its own index.
pub proof fn lemma_settled_assigns_identity(
    vm: ViewManager,
    ctx: u64,
    existing: Seq<u64>,
    tpls: Seq<Node<ViewProps>>,
    assigns: Seq<Option<usize>>,
    upto: int,
)
    requires
        set_assign_valid(vm, ctx, existing, tpls, assigns, assigns.len() as int),
        assigns.len() == tpls.len(),
        existing.len() == tpls.len(),
        forall|k: int|
            0 <= k < tpls.len() ==> set_candidate(vm, ctx, existing, k, #[trigger] tpls[k].data@),
        0 <= upto <= assigns.len(),
        assigns.len() <= usize::MAX,
    ensures
        forall|j: int| 0 <= j < upto ==> #[trigger] assigns[j] == Some(j as usize),
    decreases upto,
{
    if upto > 0 {
        lemma_settled_assigns_identity(vm, ctx, existing, tpls, assigns, upto - 1);
        let j = upto - 1;
        assert(set_candidate(vm, ctx, existing, j, tpls[j].data@));
        if assigns[j] is None {
            assert(assigned_before(assigns, j, j));
            let j2 = choose|j2: int| 0 <= j2 < j && j2 < assigns.len() && assigns[j2] == Some(
                j as usize,
            );
            assert(assigns[j2] == Some(j2 as usize));
            assert((j2 as usize) as int == j2);
            assert((j as usize) as int == j);
            assert(false);
        }
        let i = assigns[j].unwrap() as int;
        if i < j {
            assert(assigns[i] == Some(i as usize));
            assert((i as usize) as int == i);
            assert(assigned_before(assigns, i, j));
            assert(false);
        }
        if i > j {
            assert(assigned_before(assigns, j, j));
            let j2 = choose|j2: int| 0 <= j2 < j && j2 < assigns.len() && assigns[j2] == Some(
                j as usize,
            );
            assert(assigns[j2] == Some(j2 as usize));
            assert((j2 as usize) as int == j2);
            assert((j as usize) as int == j);
            assert(false);
        }
        assert(assigns[j] == Some(j as usize));
    }
}

/// Whether `e` is a delete of a node that is gone in `vm1` and was live
/// in `vm0` or created after it.
pub open spec fn pass_delete_of(e: ElemEvent, vm0: ViewManager, vm1: ViewManager) -> bool {
    match e {
        ElemEvent::Delete { id } => !vm1.live(id) && id < vm1.issued() && (vm0.live(id)
            || vm0.issued() <= id),
        _ => false,
    }
}

/// What a reconciliation pass tells the element provider: distinct
/// deletes, one for each node the pass removed (nodes it created and
/// removed again included), and nothing else.
pub open spec fn pass_events_ok(
    pre: Seq<ElemEvent>,
    post: Seq<ElemEvent>,
    vm0: ViewManager,
    vm1: ViewManager,
) -> bool {
    &&& pre.len() <= post.len()
    &&& post.subrange(0, pre.len() as int) == pre
    &&& (forall|k: int| pre.len() <= k < post.len() ==> pass_delete_of(#[trigger] post[k], vm0, vm1))
    &&& (forall|k: int, l: int| pre.len() <= k < l < post.len() ==> post[k] != post[l])
    &&& (forall|id: u64|
        vm0.live(id) && !(#[trigger] vm1.live(id)) ==> exists|k: int|
            pre.len() <= k < post.len() && post[k] == (ElemEvent::Delete { id }))
}

/// A removal's exact delete log is also a valid pass log.
pub proof fn lemma_removal_log_pass(
    pre: Seq<ElemEvent>,
    post: Seq<ElemEvent>,
    vm0: ViewManager,
    vm1: ViewManager,
)
    requires
        removal_log(pre, post, vm0, vm1),
        forall|j: u64| #[trigger] vm0.live(j) ==> j < vm0.issued(),
        vm0.issued() <= vm1.issued(),
    ensures
        pass_events_ok(pre, post, vm0, vm1),
{
    assert forall|k: int| pre.len() <= k < post.len() implies pass_delete_of(
        #[trigger] post[k],
        vm0,
        vm1,
    ) by {
        assert(is_delete_of(post[k], vm0, vm1));
    }
}

/// A stretch with no notifications and no removals is a valid pass log.
pub proof fn lemma_quiet_pass(
    pre: Seq<ElemEvent>,
    vm0: ViewManager,
    vm1: ViewManager,
)
    requires
        forall|j: u64| vm0.live(j) ==> #[trigger] vm1.live(j),
    ensures
        pass_events_ok(pre, pre, vm0, vm1),
{
    assert(pre.subrange(0, pre.len() as int) =~= pre);
}

/// Two consecutive pass logs compose, as long as neither stretch
/// resurrects a node: whatever is live afterwards was live before or
/// was created in that stretch.
pub proof fn lemma_pass_events_compose(
    ev0: Seq<ElemEvent>,
    ev1: Seq<ElemEvent>,
    ev2: Seq<ElemEvent>,
    vm_a: ViewManager,
    vm_b: ViewManager,
    vm_c: ViewManager,
)
    requires
        pass_events_ok(ev0, ev1, vm_a, vm_b),
        pass_events_ok(ev1, ev2, vm_b, vm_c),
        forall|j: u64| #[trigger] vm_b.live(j) ==> vm_a.live(j) || vm_a.issued() <= j,
        forall|j: u64| #[trigger] vm_c.live(j) ==> vm_b.live(j) || vm_b.issued() <= j,
        forall|j: u64| #[trigger] vm_a.live(j) ==> j < vm_a.issued(),
        forall|j: u64| #[trigger] vm_b.live(j) ==> j < vm_b.issued(),
        vm_a.issued() <= vm_b.issued(),
        vm_b.issued() <= vm_c.issued(),
    ensures
        pass_events_ok(ev0, ev2, vm_a, vm_c),
{
    assert(ev2.subrange(0, ev0.len() as int) =~= ev0) by {
        assert(ev2.subrange(0, ev1.len() as int) == ev1);
        assert(forall|k: int|
            0 <= k < ev1.len() ==> ev2[k] == #[trigger] ev2.subrange(0, ev1.len() as int)[k]);
        assert(forall|k: int|
            0 <= k < ev0.len() ==> ev1[k] == #[trigger] ev1.subrange(0, ev0.len() as int)[k]);
    }
    assert(forall|k: int| 0 <= k < ev1.len() ==> #[trigger] ev2[k] == ev1[k]) by {
        assert(forall|k: int|
            0 <= k < ev1.len() ==> ev2[k] == #[trigger] ev2.subrange(0, ev1.len() as int)[k]);
    }
    assert forall|k: int| ev0.len() <= k < ev2.len() implies pass_delete_of(
        #[trigger] ev2[k],
        vm_a,
        vm_c,
    ) by {
        if k < ev1.len() {
            assert(ev2[k] == ev1[k]);
            assert(pass_delete_of(ev1[k], vm_a, vm_b));
        } else {
            assert(pass_delete_of(ev2[k], vm_b, vm_c));
        }
    }
    assert forall|k: int, l: int| ev0.len() <= k < l < ev2.len() implies ev2[k] != ev2[l] by {
        if l >= ev1.len() && k < ev1.len() {
            assert(ev2[k] == ev1[k]);
            assert(pass_delete_of(ev1[k], vm_a, vm_b));
            assert(pass_delete_of(ev2[l], vm_b, vm_c));
        }
    }
    assert forall|id: u64|
        vm_a.live(id) && !(#[trigger] vm_c.live(id)) implies exists|k: int|
        ev0.len() <= k < ev2.len() && ev2[k] == (ElemEvent::Delete { id }) by {
        if !vm_b.live(id) {
            let k = choose|k: int|
                ev0.len() <= k < ev1.len() && ev1[k] == (ElemEvent::Delete { id });
            assert(ev2[k] == (ElemEvent::Delete { id }));
        } else {
            let k = choose|k: int|
                ev1.len() <= k < ev2.len() && ev2[k] == (ElemEvent::Delete { id });
            assert(ev2[k] == (ElemEvent::Delete { id }));
        }
    }
}

/// Whether two records agree on everything except, possibly, the
/// non-owning parent back reference.
pub open spec fn same_but_parent(a: VNodeModel, b: VNodeModel) -> bool {
    &&& a.view_props == b.view_props
    &&& a.state == b.state
    &&& a.inner_id == b.inner_id
    &&& a.embeded_child_v == b.embeded_child_v
    &&& a.context == b.context
    &&& a.is_dirty == b.is_dirty
}

/// What one reconciliation pass may do to the tree: it only removes
/// nodes or creates fresh ones (owned by the component `ctx`), it leaves
/// every node outside the component untouched but for the parent back
/// reference, and it never rewrites a surviving node's description,
/// state, inner child or context.
pub open spec fn pass_frame(vm0: ViewManager, vm1: ViewManager, ctx: u64) -> bool {
    &&& vm0.issued() <= vm1.issued()
    &&& (forall|j: u64| #[trigger] vm1.live(j) ==> vm0.live(j) || vm0.issued() <= j)
    &&& (forall|j: u64|
        vm0.live(j) && #[trigger] vm1.live(j) && vm0.node(j).context != ctx ==> same_but_parent(
            vm0.node(j),
            vm1.node(j),
        ))
    &&& (forall|j: u64|
        vm0.live(j) && #[trigger] vm1.live(j) ==> vm1.node(j).view_props == vm0.node(j).view_props
            && vm1.node(j).state == vm0.node(j).state && vm1.node(j).inner_id == vm0.node(
            j,
        ).inner_id && vm1.node(j).context == vm0.node(j).context)
    &&& (forall|j: u64|
        #[trigger] vm1.live(j) && vm0.issued() <= j ==> vm1.node(j).context == ctx)
}

/// The frames of two consecutive stretches of one pass compose.
pub proof fn lemma_pass_frame_compose(
    vm_a: ViewManager,
    vm_b: ViewManager,
    vm_c: ViewManager,
    ctx: u64,
)
    requires
        pass_frame(vm_a, vm_b, ctx),
        pass_frame(vm_b, vm_c, ctx),
        forall|j: u64| #[trigger] vm_a.live(j) ==> j < vm_a.issued(),
        forall|j: u64| #[trigger] vm_b.live(j) ==> j < vm_b.issued(),
    ensures
        pass_frame(vm_a, vm_c, ctx),
{
    assert forall|j: u64| #[trigger] vm_c.live(j) implies vm_a.live(j) || vm_a.issued() <= j by {
        if vm_b.live(j) {
        }
    }
    assert forall|j: u64|
        vm_a.live(j) && #[trigger] vm_c.live(j) && vm_a.node(j).context != ctx
        implies same_but_parent(vm_a.node(j), vm_c.node(j)) by {
        assert(vm_b.live(j));
        assert(same_but_parent(vm_a.node(j), vm_b.node(j)));
        assert(vm_b.node(j).context != ctx);
    }
    assert forall|j: u64|
        vm_a.live(j) && #[trigger] vm_c.live(j) implies vm_c.node(j).view_props == vm_a.node(
        j,
    ).view_props && vm_c.node(j).state == vm_a.node(j).state && vm_c.node(j).inner_id == vm_a.node(
        j,
    ).inner_id && vm_c.node(j).context == vm_a.node(j).context by {
        assert(vm_b.live(j));
    }
    assert forall|j: u64|
        #[trigger] vm_c.live(j) && vm_a.issued() <= j implies vm_c.node(j).context == ctx by {
        if vm_b.live(j) {
            if vm_b.issued() <= j {
            } else {
                assert(vm_b.node(j).context == ctx);
            }
        }
    }
}

/// A stretch that removes nodes and rewrites records without touching
/// the protected fields keeps the pass frame; stated for the helper
/// calls whose contracts are phrased record by record.
pub proof fn lemma_pass_frame_refl(vm0: ViewManager, ctx: u64)
    requires
        forall|j: u64| #[trigger] vm0.live(j) ==> j < vm0.issued(),
    ensures
        pass_frame(vm0, vm0, ctx),
{
}


/// What pass-through leaves on the node: its children are exactly the
/// context node's children as they stood when the pass began, each
/// surviving one re-parented to the node, and nothing was created.
pub open spec fn pass_through_outcome(
    vm0: ViewManager,
    vm1: ViewManager,
    vnode_id: u64,
    embeded_id: u64,
) -> bool {
    let captured = captured_children(vm0, embeded_id);
    &&& vm1.node(vnode_id).embeded_child_v == captured
    &&& (forall|k: int|
        0 <= k < captured.len() ==> (vm1.live(#[trigger] captured[k]) ==> vm1.node(
            captured[k],
        ).parent_op == Some(vnode_id)))
    &&& vm1.issued() == vm0.issued()
}

/// What positional ("list") reconciliation leaves on the node: one
/// position per template child, the common prefix keeping its
/// identities, each missing position filled with exactly one node this
/// pass created, and each surplus owned child torn down.
pub open spec fn list_outcome(
    vm0: ViewManager,
    vm1: ViewManager,
    ctx: u64,
    vnode_id: u64,
    want: int,
) -> bool {
    let old_kids = vm0.node(vnode_id).embeded_child_v;
    let fl = vm1.node(vnode_id).embeded_child_v;
    &&& fl.len() == want
    &&& (forall|i: int| 0 <= i < want && i < old_kids.len() ==> fl[i] == old_kids[i])
    &&& (forall|i: int|
        old_kids.len() <= i < want ==> vm0.issued() <= #[trigger] fl[i] < vm1.issued()
            && !vm0.live(fl[i]))
    &&& (forall|i1: int, i2: int|
        old_kids.len() <= i1 < i2 < want ==> #[trigger] fl[i1] != #[trigger] fl[i2])
    &&& (forall|k: int|
        want <= k < old_kids.len() ==> ({
            let c = #[trigger] old_kids[k];
            vm0.live(c) && vm0.node(c).context == ctx ==> !vm1.live(c)
        }))
}

/// What content-keyed ("set") reconciliation leaves on the node, for
/// the pairing `assigns`: matched template positions keep the paired
/// existing child's identity, unmatched positions are filled with nodes
/// this pass created, and leftover owned children that no position took
/// are torn down.
pub open spec fn set_outcome(
    vm0: ViewManager,
    vm1: ViewManager,
    ctx: u64,
    vnode_id: u64,
    tpls: Seq<Node<ViewProps>>,
    assigns: Seq<Option<usize>>,
) -> bool {
    let old_kids = vm0.node(vnode_id).embeded_child_v;
    let fl = vm1.node(vnode_id).embeded_child_v;
    &&& set_assign_valid(vm0, ctx, old_kids, tpls, assigns, assigns.len() as int)
    &&& assigns.len() == tpls.len()
    &&& fl.len() == assigns.len()
    &&& (forall|j: int|
        0 <= j < assigns.len() ==> (match #[trigger] assigns[j] {
            Some(i) => i < old_kids.len() && fl[j] == old_kids[i as int],
            None => vm0.issued() <= fl[j] && !vm0.live(fl[j]),
        }))
    &&& (forall|i: int|
        0 <= i < old_kids.len() && !assigned_before(assigns, i, assigns.len() as int) ==> ({
            let c = #[trigger] old_kids[i];
            vm0.live(c) && vm0.node(c).context == ctx ==> !vm1.live(c)
        }))
}

/// Whether two stores agree on everything but, possibly, the dirty flag
/// of one node (and the dirty queue): what the closing dirty-mark of a
/// reconciliation step may change.
pub open spec fn agrees_but_dirty(vm1: ViewManager, vm2: ViewManager, id: u64) -> bool {
    &&& vm2.issued() == vm1.issued()
    &&& (forall|j: u64| vm2.live(j) == vm1.live(j))
    &&& (forall|j: u64| j != id && vm1.live(j) ==> vm2.node(j) == vm1.node(j))
    &&& (vm1.live(id) ==> vm2.node(id) == (VNodeModel {
        is_dirty: vm2.node(id).is_dirty,
        ..vm1.node(id)
    }))
}

proof fn lemma_pt_outcome_preserved(
    vm0: ViewManager,
    vm1: ViewManager,
    vm2: ViewManager,
    vnode_id: u64,
    embeded_id: u64,
)
    requires
        pass_through_outcome(vm0, vm1, vnode_id, embeded_id),
        agrees_but_dirty(vm1, vm2, vnode_id),
        vm1.live(vnode_id),
    ensures
        pass_through_outcome(vm0, vm2, vnode_id, embeded_id),
{
    let captured = captured_children(vm0, embeded_id);
    assert forall|k: int|
        0 <= k < captured.len() implies (vm2.live(#[trigger] captured[k]) ==> vm2.node(
        captured[k],
    ).parent_op == Some(vnode_id)) by {
        let c = captured[k];
        if vm2.live(c) {
            if c == vnode_id {
            } else {
                assert(vm2.node(c) == vm1.node(c));
            }
        }
    }
}

proof fn lemma_list_outcome_preserved(
    vm0: ViewManager,
    vm1: ViewManager,
    vm2: ViewManager,
    ctx: u64,
    vnode_id: u64,
    want: int,
)
    requires
        list_outcome(vm0, vm1, ctx, vnode_id, want),
        agrees_but_dirty(vm1, vm2, vnode_id),
        vm1.live(vnode_id),
    ensures
        list_outcome(vm0, vm2, ctx, vnode_id, want),
{
}

proof fn lemma_set_outcome_preserved(
    vm0: ViewManager,
    vm1: ViewManager,
    vm2: ViewManager,
    ctx: u64,
    vnode_id: u64,
    tpls: Seq<Node<ViewProps>>,
    assigns: Seq<Option<usize>>,
)
    requires
        set_outcome(vm0, vm1, ctx, vnode_id, tpls, assigns),
        agrees_but_dirty(vm1, vm2, vnode_id),
        vm1.live(vnode_id),
    ensures
        set_outcome(vm0, vm2, ctx, vnode_id, tpls, assigns),
{
}

/// Reconciles the node `vnode_id` of component `context` against the
/// template `view_props_node`.  The template's first child being the
/// pass-through sentinel delegates the children slot to the context
/// node `embeded_id`; otherwise the template's discriminator selects
/// positional or content-keyed child reconciliation, and an unknown
/// discriminator is refused with `UnsupportedMode`.  Finally, if the
/// node's stored description differs from the template's payload, the
/// node is marked dirty and queued with the new payload — queued, not
/// applied inline, so the convergence loop re-enters for it.  A node
/// that is missing, or not owned by `context`, is left alone.  What the
/// children become is pinned per strategy: see `pass_through_outcome`,
/// `list_outcome` and `set_outcome` in the contract.
pub fn apply_inner_props_node<P: AsElementProvider<H = u64>>(
    vm: &mut ViewManager,
    provider: &mut P,
    context: u64,
    vnode_id: u64,
    view_props_node: &Node<ViewProps>,
    embeded_id: u64,
) -> (r: Result<(), Error>)
    requires
        old(vm).wf(),
        context < old(vm).issued(),
    ensures
        final(vm).wf(),
        context < final(vm).issued(),
        pass_frame(*old(vm), *final(vm), context),
        pass_events_ok(old(provider).events(), final(provider).events(), *old(vm), *final(vm)),
        (r matches Err(e) ==> e == Error::UnsupportedMode),
        !(old(vm).live(vnode_id) && old(vm).node(vnode_id).context == context) ==> same_store(
            *final(vm),
            *old(vm),
        ) && final(provider).events() == old(provider).events() && r is Ok,
        old(vm).live(vnode_id) && old(vm).node(vnode_id).context == context && !is_pass_through(
            view_props_node@,
        ) && mode_spec(view_props_node@.data.props) is None ==> r == Err::<(), Error>(
            Error::UnsupportedMode,
        ) && same_store(*final(vm), *old(vm)) && final(provider).events()
            == old(provider).events(),
        r is Ok && old(vm).live(vnode_id) && old(vm).node(vnode_id).context == context
            && final(vm).live(vnode_id) ==> final(vm).node(vnode_id).view_props
            == old(vm).node(vnode_id).view_props && (final(vm).node(vnode_id).view_props
            != view_props_node@.data ==> final(vm).node(vnode_id).is_dirty && dq_has(
            final(vm).dirty_q(),
            vnode_id,
            Some(view_props_node@.data),
        )),
        r is Ok && old(vm).live(vnode_id) && old(vm).node(vnode_id).context == context
            && final(vm).live(vnode_id) && is_pass_through(view_props_node@)
            ==> pass_through_outcome(*old(vm), *final(vm), vnode_id, embeded_id),
        r is Ok && old(vm).live(vnode_id) && old(vm).node(vnode_id).context == context
            && final(vm).live(vnode_id) && !is_pass_through(view_props_node@) && mode_spec(
            view_props_node@.data.props,
        ) == Some(ChildMode::Positional) ==> list_outcome(
            *old(vm),
            *final(vm),
            context,
            vnode_id,
            view_props_node@.child_v.len() as int,
        ),
        r is Ok && old(vm).live(vnode_id) && old(vm).node(vnode_id).context == context
            && final(vm).live(vnode_id) && !is_pass_through(view_props_node@) && mode_spec(
            view_props_node@.data.props,
        ) == Some(ChildMode::Keyed) ==> (exists|assigns: Seq<Option<usize>>|
            set_outcome(
                *old(vm),
                *final(vm),
                context,
                vnode_id,
                view_props_node.child_v@,
                assigns,
            )),
        removal_confined(*old(vm), *final(vm), context, vnode_id),
        tpl_settled(*old(vm), context, vnode_id, view_props_node@, embeded_id) ==> same_store(
            *final(vm),
            *old(vm),
        ) && final(provider).events() == old(provider).events() && r is Ok,
    decreases *view_props_node,
{
    broadcast use lemma_tpls_model;

    let ghost vm0 = *old(vm);
    let ghost ev0 = old(provider).events();
    let ghost tpl = view_props_node@;
    let ghost settled = tpl_settled(vm0, context, vnode_id, tpl, embeded_id);
    let ghost mode_g: Option<ChildMode> = mode_spec(tpl.data.props);
    let ghost mut set_assigns: Seq<Option<usize>> = Seq::empty();
    proof {
        lemma_wf_basics(vm);
        assert(ev0.subrange(0, ev0.len() as int) =~= ev0);
    }
    let guard_ok: bool = match vm.get_vnode(&vnode_id) {
        Some(n) => n.context == context,
        None => false,
    };
    if !guard_ok {
        proof {
            assert(!settled);
            lemma_pass_frame_refl(vm0, context);
        }
        return Ok(());
    }
    let pt: bool = view_props_node.child_v.len() > 0 && view_props_node.child_v[0].data.class.eq(
        &"$child".to_owned(),
    );
    proof {
        if view_props_node.child_v@.len() > 0 {
            assert(tpl.child_v[0] == view_props_node.child_v@[0].model());
        }
        assert(pt == is_pass_through(tpl));
    }
    if pt {
        let ghost old_kids = vm0.node(vnode_id).embeded_child_v;
        apply_pass_through(vm, provider, vnode_id, embeded_id);
        proof {
            lemma_wf_basics(&vm0);
            lemma_wf_basics(vm);
            assert(pass_frame(vm0, *vm, context)) by {
                assert forall|j: u64| #[trigger] vm.live(j) implies vm0.live(j) || vm0.issued()
                    <= j by {}
                let captured = captured_children(vm0, embeded_id);
                assert forall|j: u64|
                    vm0.live(j) && #[trigger] vm.live(j) && vm0.node(j).context != context
                    implies same_but_parent(vm0.node(j), vm.node(j)) by {
                    assert(j != vnode_id);
                }
                assert forall|j: u64|
                    vm0.live(j) && #[trigger] vm.live(j) implies vm.node(j).view_props == vm0.node(
                    j,
                ).view_props && vm.node(j).state == vm0.node(j).state && vm.node(j).inner_id
                    == vm0.node(j).inner_id && vm.node(j).context == vm0.node(j).context by {}
            }
            lemma_removal_log_pass(ev0, provider.events(), vm0, *vm);
            if settled {
                let captured = captured_children(vm0, embeded_id);
                assert forall|k: int|
                    0 <= k < old_kids.len() implies ({
                        let c = #[trigger] old_kids[k];
                        !(vm0.live(c) && vm0.node(c).context == vm0.node(vnode_id).context)
                    }) by {
                    assert(old_kids == captured);
                    assert(vm0.node(old_kids[k]).context != context);
                }
                assert(provider.events() == ev0);
                assert(same_store(*vm, vm0)) by {
                    assert(forall|j: u64| #[trigger] vm.live(j) == vm0.live(j));
                    assert forall|j: u64| #[trigger] vm.live(j) implies vm.node(j) == vm0.node(
                        j,
                    ) by {
                        if j == vnode_id {
                            assert(vm.node(j).embeded_child_v == captured);
                            assert(old_kids == captured);
                            if captured.contains(vnode_id) {
                                let k = choose|k: int|
                                    0 <= k < captured.len() && captured[k] == vnode_id;
                                assert(vm0.node(captured[k]).parent_op == Some(vnode_id));
                            }
                            assert(vm.node(j) =~= vm0.node(j));
                        } else if captured.contains(j) {
                            let k = choose|k: int| 0 <= k < captured.len() && captured[k] == j;
                            assert(vm0.node(captured[k]).parent_op == Some(vnode_id));
                            assert(vm.node(j) =~= vm0.node(j));
                        } else {
                        }
                    }
                }
            }
            if vm.live(vnode_id) {
                let captured = captured_children(vm0, embeded_id);
                assert(vm.node(vnode_id).embeded_child_v == captured);
                assert forall|k2: int|
                    0 <= k2 < captured.len() implies (vm.live(#[trigger] captured[k2]) ==> vm.node(
                    captured[k2],
                ).parent_op == Some(vnode_id)) by {
                    let c = captured[k2];
                    if vm.live(c) {
                        assert(captured.contains(c));
                    }
                }
                assert(pass_through_outcome(vm0, *vm, vnode_id, embeded_id));
            }
        }
    } else {
        let mode: ChildMode = match discriminator(&view_props_node.data.props) {
            Ok(m) => m,
            Err(e) => {
                proof {
                    assert(tpl.data == view_props_node.data@);
                    assert(!settled);
                    lemma_pass_frame_refl(vm0, context);
                }
                return Err(e);
            },
        };
        proof {
            assert(mode_spec(tpl.data.props) == Some(mode));
        }
        if mode == ChildMode::Positional {
            let want: usize = view_props_node.child_v.len();
            let ids: Vec<u64> = reconcile_list_skeleton(vm, provider, context, vnode_id, want);
            let ghost vm_s = *vm;
            let ghost ev_s = provider.events();
            proof {
                lemma_wf_basics(&vm0);
                lemma_wf_basics(vm);
                assert(pass_frame(vm0, vm_s, context));
                lemma_removal_log_pass(ev0, ev_s, vm0, vm_s);
                if settled {
                    lemma_tpls_model(view_props_node.child_v@);
                    assert(tpl.child_v =~= tpls_model(view_props_node.child_v@));
                    assert(want == vm0.node(vnode_id).embeded_child_v.len());
                    assert forall|i: int| 0 <= i < want implies ids@[i] == vm0.node(
                        vnode_id,
                    ).embeded_child_v[i] by {}
                    assert(ids@ =~= vm0.node(vnode_id).embeded_child_v);
                    assert(vm_s.issued() == vm0.issued());
                    assert(same_store(vm_s, vm0)) by {
                        assert forall|j: u64| #[trigger] vm_s.live(j) == vm0.live(j) by {
                            if vm_s.live(j) && !vm0.live(j) {
                                assert(vm0.issued() <= j);
                            }
                        }
                        assert forall|j: u64| #[trigger] vm_s.live(j) implies vm_s.node(j)
                            == vm0.node(j) by {
                            if j == vnode_id {
                                assert(vm_s.node(j) =~= vm0.node(j));
                            }
                        }
                    }
                    assert(ev_s == ev0);
                }
            }
            let mut k: usize = 0;
            while k < want
                invariant
                    vm.wf(),
                    k <= want,
                    want == view_props_node.child_v@.len(),
                    ids@.len() == want,
                    context < vm.issued(),
                    vm0.issued() <= vm_s.issued() <= vm.issued(),
                    vm0.wf(),
                    vm_s.wf(),
                    pass_frame(vm0, *vm, context),
                    pass_events_ok(ev0, provider.events(), vm0, *vm),
                    forall|j: u64| #[trigger] vm.live(j) ==> vm_s.live(j) || vm_s.issued() <= j,
                    removal_confined(vm0, *vm, context, vnode_id),
                    settled ==> same_store(*vm, vm0) && provider.events() == ev0,
                    settled ==> (forall|i: int|
                        0 <= i < want ==> ids@[i] == vm0.node(vnode_id).embeded_child_v[i]),
                decreases want - k,
            {
                proof {
                    assert(decreases_to!(*view_props_node => view_props_node.child_v));
                    assert(decreases_to!(view_props_node.child_v => view_props_node.child_v@));
                    assert(decreases_to!(view_props_node.child_v@ => view_props_node.child_v@[k as int]));
                }
                let ghost vm_pre = *vm;
                let ghost ev_pre = provider.events();
                let cid: u64 = ids[k];
                let rr = apply_inner_props_node(
                    vm,
                    provider,
                    context,
                    cid,
                    &view_props_node.child_v[k],
                    embeded_id,
                );
                proof {
                    lemma_wf_basics(&vm0);
                    lemma_wf_basics(&vm_pre);
                    lemma_pass_frame_compose(vm0, vm_pre, *vm, context);
                    lemma_pass_events_compose(
                        ev0,
                        ev_pre,
                        provider.events(),
                        vm0,
                        vm_pre,
                        *vm,
                    );
                    if vm_pre.live(cid) && vm_pre.node(cid).context == context {
                        lemma_confined_step(vm0, vm_pre, *vm, context, vnode_id, context, cid);
                    } else {
                        lemma_confined_same_live(vm0, vm_pre, *vm, context, vnode_id);
                    }
                    if settled {
                        lemma_tpls_model(view_props_node.child_v@);
                        assert(tpl_settled(
                            vm0,
                            context,
                            cid,
                            tpl.child_v[k as int],
                            embeded_id,
                        ));
                        lemma_settled_same_store(
                            vm0,
                            vm_pre,
                            context,
                            cid,
                            tpl.child_v[k as int],
                            embeded_id,
                        );
                        assert(tpl.child_v[k as int] == view_props_node.child_v@[k as int].model());
                        assert(same_store(*vm, vm0));
                        assert(rr is Ok);
                    }
                }
                if rr.is_err() {
                    proof {
                        assert(!settled);
                    }
                    return rr;
                }
                k = k + 1;
            }
            match vm.get_vnode(&vnode_id) {
                Some(n) => {
                    let cur: VNode = n.clone();
                    let ghost vm_w = *vm;
                    proof {
                        lemma_wf_basics(vm);
                        lemma_wf_basics(&vm0);
                        assert forall|k2: int| 0 <= k2 < ids@.len() implies #[trigger] ids@[k2]
                            < vm.issued() by {
                            if k2 < vm0.node(vnode_id).embeded_child_v.len() {
                                assert(ids@[k2] == vm0.node(vnode_id).embeded_child_v[k2]);
                                assert(vm0.node(vnode_id).embeded_child_v[k2] < vm0.issued());
                            } else {
                                assert(vm0.issued() <= ids@[k2] < vm_s.issued());
                            }
                        }
                    }
                    vm.set_vnode(vnode_id, VNode { embeded_child_v: copy_ids(&ids), ..cur });
                    proof {
                        lemma_wf_basics(&vm0);
                        lemma_wf_basics(&vm_w);
                        assert(pass_frame(vm_w, *vm, context)) by {
                            assert forall|jj: u64|
                                vm_w.live(jj) && #[trigger] vm.live(jj) && vm_w.node(jj).context
                                    != context implies same_but_parent(
                                vm_w.node(jj),
                                vm.node(jj),
                            ) by {
                                assert(jj != vnode_id);
                            }
                        }
                        lemma_pass_frame_compose(vm0, vm_w, *vm, context);
                        lemma_confined_same_live(vm0, vm_w, *vm, context, vnode_id);
                        lemma_quiet_pass(provider.events(), vm_w, *vm);
                        lemma_pass_events_compose(
                            ev0,
                            provider.events(),
                            provider.events(),
                            vm0,
                            vm_w,
                            *vm,
                        );
                        if settled {
                            assert(ids@ =~= vm0.node(vnode_id).embeded_child_v);
                            assert(vm.node(vnode_id) =~= vm0.node(vnode_id));
                            assert(same_store(*vm, vm0)) by {
                                assert forall|jj: u64| #[trigger] vm.live(jj) implies vm.node(jj)
                                    == vm0.node(jj) by {}
                            }
                        }
                        assert(vm.node(vnode_id).embeded_child_v == ids@);
                        assert(list_outcome(vm0, *vm, context, vnode_id, want as int)) by {
                            assert forall|kk: int|
                                want <= kk < vm0.node(vnode_id).embeded_child_v.len() implies ({
                                    let c = #[trigger] vm0.node(vnode_id).embeded_child_v[kk];
                                    vm0.live(c) && vm0.node(c).context == context ==> !vm.live(c)
                                }) by {
                                let c = vm0.node(vnode_id).embeded_child_v[kk];
                                if vm0.live(c) && vm0.node(c).context == context && vm.live(c) {
                                    assert(!vm_s.live(c));
                                    assert(c < vm0.issued());
                                }
                            }
                        }
                    }
                },
                None => {},
            }
        } else {
            let rec: VNode = match vm.get_vnode(&vnode_id) {
                Some(n) => n.clone(),
                None => {
                    proof {
                        assert(false);
                    }
                    VNode::new(0, None)
                },
            };
            let existing: Vec<u64> = copy_ids(&rec.embeded_child_v);
            let pair = match_set_children(vm, context, &existing, &view_props_node.child_v);
            let assigns: Vec<Option<usize>> = pair.0;
            let matched: Vec<bool> = pair.1;
            let ghost assigns_g = assigns@;
            let n_t: usize = view_props_node.child_v.len();
            proof {
                assert(*vm == vm0);
                set_assigns = assigns_g;
                assert(set_assign_valid(
                    vm0,
                    context,
                    existing@,
                    view_props_node.child_v@,
                    assigns_g,
                    assigns_g.len() as int,
                ));
                assert(existing@ == vm0.node(vnode_id).embeded_child_v);
                if settled {
                    lemma_tpls_model(view_props_node.child_v@);
                    assert(existing@ == vm0.node(vnode_id).embeded_child_v);
                    assert forall|kk: int|
                        0 <= kk < n_t implies set_candidate(
                        *vm,
                        context,
                        existing@,
                        kk,
                        #[trigger] view_props_node.child_v@[kk].data@,
                    ) by {
                        assert(tpl_settled(
                            vm0,
                            context,
                            existing@[kk],
                            tpl.child_v[kk],
                            embeded_id,
                        ));
                        assert(tpl.child_v[kk] == view_props_node.child_v@[kk].model());
                    }
                    lemma_settled_assigns_identity(
                        *vm,
                        context,
                        existing@,
                        view_props_node.child_v@,
                        assigns_g,
                        assigns_g.len() as int,
                    );
                }
            }
            let mut new_list: Vec<u64> = Vec::new();
            let mut j: usize = 0;
            while j < n_t
                invariant
                    vm.wf(),
                    j <= n_t,
                    n_t == view_props_node.child_v@.len(),
                    assigns@ == assigns_g,
                    assigns_g.len() == n_t,
                    existing@.len() == rec@.embeded_child_v.len(),
                    new_list@.len() == j,
                    context < vm.issued(),
                    vm0.issued() <= vm.issued(),
                    vm0.wf(),
                    pass_frame(vm0, *vm, context),
                    pass_events_ok(ev0, provider.events(), vm0, *vm),
                    removal_confined(vm0, *vm, context, vnode_id),
                    forall|jj: int|
                        0 <= jj < j ==> #[trigger] new_list@[jj] == (match assigns_g[jj] {
                            Some(i) => existing@[i as int],
                            None => new_list@[jj],
                        }),
                    forall|jj: int|
                        0 <= jj < j && assigns_g[jj] is None ==> vm.live(#[trigger] new_list@[jj])
                            && vm.node(new_list@[jj]) == fresh_vnode_model(
                            context,
                            Some(vnode_id),
                        ) && vm0.issued() <= new_list@[jj] && !vm0.live(new_list@[jj]),
                    settled ==> same_store(*vm, vm0) && provider.events() == ev0 && (forall|jj: int|
                        0 <= jj < j ==> #[trigger] new_list@[jj] == existing@[jj]),
                decreases n_t - j,
            {
                match assigns[j] {
                    Some(i) => {
                        new_list.push(existing[i]);
                        proof {
                            if settled {
                                assert(assigns_g[j as int] == Some(j as usize));
                            }
                        }
                    },
                    None => {
                        proof {
                            if settled {
                                assert(assigns_g[j as int] == Some(j as usize));
                                assert(false);
                            }
                        }
                        let ghost vm_pre = *vm;
                        let nid: u64 = vm.new_vnode(VNode::new(context, Some(vnode_id)));
                        new_list.push(nid);
                        proof {
                            lemma_wf_basics(&vm0);
                            lemma_wf_basics(&vm_pre);
                            assert(!vm0.live(nid));
                            lemma_confined_same_live(vm0, vm_pre, *vm, context, vnode_id);
                            lemma_pass_frame_compose(vm0, vm_pre, *vm, context);
                            lemma_quiet_pass(provider.events(), vm_pre, *vm);
                            lemma_pass_events_compose(
                                ev0,
                                provider.events(),
                                provider.events(),
                                vm0,
                                vm_pre,
                                *vm,
                            );
                        }
                    },
                }
                j = j + 1;
            }
            proof {
                lemma_wf_basics(vm);
                assert forall|jj: int|
                    0 <= jj < new_list@.len() implies #[trigger] new_list@[jj] < vm.issued() by {
                    match assigns_g[jj] {
                        Some(ii) => {
                            assert(new_list@[jj] == existing@[ii as int]);
                            assert(vm0.live(existing@[ii as int]));
                        },
                        None => {
                            assert(vm.live(new_list@[jj]));
                        },
                    }
                }
            }
            let rec2: VNode = match vm.get_vnode(&vnode_id) {
                Some(n) => n.clone(),
                None => {
                    proof {
                        assert(false);
                    }
                    VNode::new(0, None)
                },
            };
            let ghost vm_pre_w = *vm;
            let updated = VNode { embeded_child_v: copy_ids(&new_list), ..rec2 };
            proof {
                lemma_wf_basics(vm);
                lemma_wf_basics(&vm0);
            }
            vm.set_vnode(vnode_id, updated);
            proof {
                lemma_wf_basics(&vm0);
                lemma_wf_basics(&vm_pre_w);
                assert(pass_frame(vm_pre_w, *vm, context)) by {
                    assert forall|jj: u64|
                        vm_pre_w.live(jj) && #[trigger] vm.live(jj) && vm_pre_w.node(jj).context
                            != context implies same_but_parent(
                        vm_pre_w.node(jj),
                        vm.node(jj),
                    ) by {
                        assert(jj != vnode_id);
                    }
                }
                lemma_pass_frame_compose(vm0, vm_pre_w, *vm, context);
                lemma_confined_same_live(vm0, vm_pre_w, *vm, context, vnode_id);
                lemma_quiet_pass(provider.events(), vm_pre_w, *vm);
                lemma_pass_events_compose(
                    ev0,
                    provider.events(),
                    provider.events(),
                    vm0,
                    vm_pre_w,
                    *vm,
                );
                if settled {
                    assert(new_list@ =~= existing@);
                    assert(vm.node(vnode_id) =~= vm0.node(vnode_id));
                    assert(same_store(*vm, vm0)) by {
                        assert forall|jj: u64| #[trigger] vm.live(jj) implies vm.node(jj)
                            == vm0.node(jj) by {}
                    }
                }
            }
            let mut k: usize = 0;
            while k < n_t
                invariant
                    vm.wf(),
                    k <= n_t,
                    n_t == view_props_node.child_v@.len(),
                    new_list@.len() == n_t,
                    context < vm.issued(),
                    vm0.issued() <= vm.issued(),
                    vm0.wf(),
                    pass_frame(vm0, *vm, context),
                    pass_events_ok(ev0, provider.events(), vm0, *vm),
                    removal_confined(vm0, *vm, context, vnode_id),
                    forall|jj: int|
                        0 <= jj < new_list@.len() ==> #[trigger] new_list@[jj] < vm.issued(),
                    settled ==> same_store(*vm, vm0) && provider.events() == ev0 && (forall|jj: int|
                        0 <= jj < n_t ==> #[trigger] new_list@[jj] == existing@[jj]) && existing@
                        == vm0.node(vnode_id).embeded_child_v,
                decreases n_t - k,
            {
                proof {
                    assert(decreases_to!(*view_props_node => view_props_node.child_v));
                    assert(decreases_to!(view_props_node.child_v => view_props_node.child_v@));
                    assert(decreases_to!(view_props_node.child_v@ => view_props_node.child_v@[k as int]));
                }
                let ghost vm_pre = *vm;
                let ghost ev_pre = provider.events();
                let cid: u64 = new_list[k];
                let rr = apply_inner_props_node(
                    vm,
                    provider,
                    context,
                    cid,
                    &view_props_node.child_v[k],
                    embeded_id,
                );
                proof {
                    lemma_wf_basics(&vm0);
                    lemma_wf_basics(&vm_pre);
                    lemma_pass_frame_compose(vm0, vm_pre, *vm, context);
                    lemma_pass_events_compose(
                        ev0,
                        ev_pre,
                        provider.events(),
                        vm0,
                        vm_pre,
                        *vm,
                    );
                    if vm_pre.live(cid) && vm_pre.node(cid).context == context {
                        lemma_confined_step(vm0, vm_pre, *vm, context, vnode_id, context, cid);
                    } else {
                        lemma_confined_same_live(vm0, vm_pre, *vm, context, vnode_id);
                    }
                    if settled {
                        lemma_tpls_model(view_props_node.child_v@);
                        assert(tpl_settled(
                            vm0,
                            context,
                            cid,
                            tpl.child_v[k as int],
                            embeded_id,
                        ));
                        lemma_settled_same_store(
                            vm0,
                            vm_pre,
                            context,
                            cid,
                            tpl.child_v[k as int],
                            embeded_id,
                        );
                        assert(tpl.child_v[k as int] == view_props_node.child_v@[k as int].model());
                        assert(same_store(*vm, vm0));
                        assert(rr is Ok);
                    }
                }
                if rr.is_err() {
                    proof {
                        assert(!settled);
                    }
                    return rr;
                }
                k = k + 1;
            }
            let n_e: usize = existing.len();
            proof {
                if settled {
                    assert forall|i2: int| 0 <= i2 < n_e implies #[trigger] matched@[i2] by {
                        assert(assigns_g[i2] == Some(i2 as usize));
                        assert(assigned_before(assigns_g, i2, assigns_g.len() as int));
                    }
                }
            }
            let mut i: usize = 0;
            while i < n_e
                invariant
                    vm.wf(),
                    i <= n_e,
                    n_e == existing@.len(),
                    matched@.len() == n_e,
                    context < vm.issued(),
                    vm0.issued() <= vm.issued(),
                    vm0.wf(),
                    pass_frame(vm0, *vm, context),
                    pass_events_ok(ev0, provider.events(), vm0, *vm),
                    removal_confined(vm0, *vm, context, vnode_id),
                    forall|jj: int|
                        0 <= jj < new_list@.len() ==> #[trigger] new_list@[jj] < vm.issued(),
                    forall|i2: int|
                        0 <= i2 < i && !matched@[i2] ==> ({
                            let c = #[trigger] existing@[i2];
                            vm0.live(c) && vm0.node(c).context == context ==> !vm.live(c)
                        }),
                    settled ==> same_store(*vm, vm0) && provider.events() == ev0 && (forall|
                        i2: int,
                    |
                        0 <= i2 < n_e ==> #[trigger] matched@[i2]),
                decreases n_e - i,
            {
                if !matched[i] {
                    proof {
                        if settled {
                            assert(matched@[i as int]);
                            assert(false);
                        }
                    }
                    let c: u64 = existing[i];
                    let owned: bool = match vm.get_vnode(&c) {
                        Some(cn) => cn.context == context,
                        None => false,
                    };
                    if owned {
                        let ghost vm_pre = *vm;
                        let ghost ev_pre = provider.events();
                        remove_node(vm, provider, c);
                        proof {
                            lemma_wf_basics(&vm0);
                            lemma_wf_basics(&vm_pre);
                            assert(pass_frame(vm_pre, *vm, context)) by {
                                assert forall|jj: u64|
                                    vm_pre.live(jj) && #[trigger] vm.live(jj) && vm_pre.node(
                                        jj,
                                    ).context != context implies same_but_parent(
                                    vm_pre.node(jj),
                                    vm.node(jj),
                                ) by {}
                            }
                            lemma_pass_frame_compose(vm0, vm_pre, *vm, context);
                            lemma_confined_step(
                                vm0,
                                vm_pre,
                                *vm,
                                context,
                                vnode_id,
                                vm_pre.node(c).context,
                                c,
                            );
                            lemma_removal_log_pass(ev_pre, provider.events(), vm_pre, *vm);
                            lemma_pass_events_compose(
                                ev0,
                                ev_pre,
                                provider.events(),
                                vm0,
                                vm_pre,
                                *vm,
                            );
                        }
                    } else {
                        proof {
                            if vm0.live(c) && vm0.node(c).context == context && vm.live(c) {
                                assert(vm.node(c).context == vm0.node(c).context);
                                assert(owned);
                            }
                        }
                    }
                }
                i = i + 1;
            }
            match vm.get_vnode(&vnode_id) {
                Some(n) => {
                    let cur: VNode = n.clone();
                    let ghost vm_w = *vm;
                    proof {
                        lemma_wf_basics(vm);
                        lemma_wf_basics(&vm0);
                    }
                    vm.set_vnode(vnode_id, VNode { embeded_child_v: copy_ids(&new_list), ..cur });
                    proof {
                        lemma_wf_basics(&vm0);
                        lemma_wf_basics(&vm_w);
                        assert(pass_frame(vm_w, *vm, context)) by {
                            assert forall|jj: u64|
                                vm_w.live(jj) && #[trigger] vm.live(jj) && vm_w.node(jj).context
                                    != context implies same_but_parent(
                                vm_w.node(jj),
                                vm.node(jj),
                            ) by {
                                assert(jj != vnode_id);
                            }
                        }
                        lemma_pass_frame_compose(vm0, vm_w, *vm, context);
                        lemma_confined_same_live(vm0, vm_w, *vm, context, vnode_id);
                        lemma_quiet_pass(provider.events(), vm_w, *vm);
                        lemma_pass_events_compose(
                            ev0,
                            provider.events(),
                            provider.events(),
                            vm0,
                            vm_w,
                            *vm,
                        );
                        if settled {
                            assert(new_list@ =~= existing@);
                            assert(vm.node(vnode_id) =~= vm0.node(vnode_id));
                            assert(same_store(*vm, vm0)) by {
                                assert forall|jj: u64| #[trigger] vm.live(jj) implies vm.node(jj)
                                    == vm0.node(jj) by {}
                            }
                        }
                        assert(vm.node(vnode_id).embeded_child_v == new_list@);
                        assert(set_outcome(
                            vm0,
                            *vm,
                            context,
                            vnode_id,
                            view_props_node.child_v@,
                            assigns_g,
                        )) by {
                            assert forall|jj: int|
                                0 <= jj < assigns_g.len() implies (match #[trigger] assigns_g[jj] {
                                    Some(ii) => ii < vm0.node(vnode_id).embeded_child_v.len()
                                        && new_list@[jj] == vm0.node(
                                        vnode_id,
                                    ).embeded_child_v[ii as int],
                                    None => vm0.issued() <= new_list@[jj] && !vm0.live(
                                        new_list@[jj],
                                    ),
                                }) by {
                                match assigns_g[jj] {
                                    Some(ii) => {
                                        assert(set_candidate(
                                            vm0,
                                            context,
                                            existing@,
                                            ii as int,
                                            view_props_node.child_v@[jj].data@,
                                        ));
                                    },
                                    None => {},
                                }
                            }
                        }
                    }
                },
                None => {},
            }
        }
    }
    let ghost vm_m = *vm;
    let ghost ev_m = provider.events();
    match vm.get_vnode(&vnode_id) {
        Some(n) => {
            if !props_eq(&n.view_props, &view_props_node.data) {
                let upd = VNode { is_dirty: true, ..n.clone() };
                let ghost vm_pre = *vm;
                vm.set_vnode(vnode_id, upd);
                let ghost q_pre = vm.dirty_q();
                vm.insert_dirty(vnode_id, Some(view_props_node.data.clone()));
                proof {
                    lemma_wf_basics(&vm0);
                    lemma_wf_basics(&vm_pre);
                    crate::store::lemma_insert_dirty_has(
                        q_pre,
                        vm.dirty_q(),
                        vnode_id,
                        Some(tpl.data),
                    );
                    assert(pass_frame(vm_pre, *vm, context)) by {
                        assert forall|jj: u64|
                            vm_pre.live(jj) && #[trigger] vm.live(jj) && vm_pre.node(jj).context
                                != context implies same_but_parent(
                            vm_pre.node(jj),
                            vm.node(jj),
                        ) by {
                            assert(jj != vnode_id);
                        }
                    }
                    lemma_pass_frame_compose(vm0, vm_m, *vm, context);
                    lemma_quiet_pass(ev_m, vm_m, *vm);
                    lemma_pass_events_compose(ev0, ev_m, ev_m, vm0, vm_m, *vm);
                    assert(!settled) by {
                        if settled {
                            assert(vm_m.node(vnode_id).view_props == tpl.data);
                        }
                    }
                }
            } else {
                proof {
                    if settled {
                        assert(same_store(*vm, vm0));
                    }
                }
            }
        },
        None => {},
    }
    proof {
        lemma_confined_same_live(vm0, vm_m, *vm, context, vnode_id);
        assert(agrees_but_dirty(vm_m, *vm, vnode_id)) by {
            if vm_m.live(vnode_id) {
                assert(vm.node(vnode_id) =~= (VNodeModel {
                    is_dirty: vm.node(vnode_id).is_dirty,
                    ..vm_m.node(vnode_id)
                }));
            }
        }
        if vm.live(vnode_id) && vm0.live(vnode_id) && vm0.node(vnode_id).context == context {
            assert(vm_m.live(vnode_id));
            if is_pass_through(tpl) {
                lemma_pt_outcome_preserved(vm0, vm_m, *vm, vnode_id, embeded_id);
            } else if mode_g == Some(ChildMode::Positional) {
                lemma_tpls_model(view_props_node.child_v@);
                lemma_list_outcome_preserved(
                    vm0,
                    vm_m,
                    *vm,
                    context,
                    vnode_id,
                    tpl.child_v.len() as int,
                );
            } else if mode_g == Some(ChildMode::Keyed) {
                lemma_set_outcome_preserved(
                    vm0,
                    vm_m,
                    *vm,
                    context,
                    vnode_id,
                    view_props_node.child_v@,
                    set_assigns,
                );
                assert(exists|a: Seq<Option<usize>>|
                    set_outcome(vm0, *vm, context, vnode_id, view_props_node.child_v@, a)) by {
                    assert(set_outcome(
                        vm0,
                        *vm,
                        context,
                        vnode_id,
                        view_props_node.child_v@,
                        set_assigns,
                    ));
                }
            }
        }
    }
    Ok(())
}


/// A pass log keeps its meaning across a base state with the same
/// liveness and issue counter: what counts as removed is unchanged.
pub proof fn lemma_pass_events_base_swap(
    pre: Seq<ElemEvent>,
    post: Seq<ElemEvent>,
    vm_a: ViewManager,
    vm_b: ViewManager,
    vm_c: ViewManager,
)
    requires
        pass_events_ok(pre, post, vm_b, vm_c),
        forall|j: u64| vm_a.live(j) == vm_b.live(j),
        vm_a.issued() == vm_b.issued(),
    ensures
        pass_events_ok(pre, post, vm_a, vm_c),
{
    assert forall|k: int| pre.len() <= k < post.len() implies pass_delete_of(
        #[trigger] post[k],
        vm_a,
        vm_c,
    ) by {
        assert(pass_delete_of(post[k], vm_b, vm_c));
    }
    assert forall|id: u64|
        vm_a.live(id) && !(#[trigger] vm_c.live(id)) implies exists|k: int|
        pre.len() <= k < post.len() && post[k] == (ElemEvent::Delete { id }) by {
        assert(vm_b.live(id));
    }
}

/// The program a handler value denotes: a string is taken as it is; an
/// array of strings is joined into one program, one fragment per line;
/// anything else is malformed.
pub open spec fn resolve_script_spec(v: Val) -> Option<Seq<char>> {
    match v {
        Val::Str(s) => Some(s),
        Val::Arr(items) => join_scripts_spec(items),
        _ => None,
    }
}

/// Joins script fragments, one per line; `None` when a fragment is not
/// a string.
pub open spec fn join_scripts_spec(items: Seq<Val>) -> Option<Seq<char>>
    decreases items.len(),
{
    if items.len() == 0 {
        Some(Seq::empty())
    } else {
        match items[0] {
            Val::Str(s) => if items.len() == 1 {
                Some(s)
            } else {
                match join_scripts_spec(items.drop_first()) {
                    Some(rest) => Some(s + seq!['\n'] + rest),
                    None => None,
                }
            },
            _ => None,
        }
    }
}

/// Reads the program a handler value denotes (see
/// `resolve_script_spec`); a malformed handler is a `RuntimeError`.
pub fn resolve_script(v: &Value) -> (r: Result<String, Error>)
    ensures
        match r {
            Ok(s) => resolve_script_spec(v@) == Some(s@),
            Err(e) => resolve_script_spec(v@) is None && e == Error::RuntimeError,
        },
{
    match v {
        Value::Str(s) => Ok(s.clone()),
        Value::Arr(items) => {
            proof {
                assert(items@.subrange(0, items@.len() as int) =~= items@);
            }
            join_scripts(items, 0)
        },
        _ => Err(Error::RuntimeError),
    }
}

fn join_scripts(items: &Vec<Value>, from: usize) -> (r: Result<String, Error>)
    requires
        from <= items@.len(),
    ensures
        match r {
            Ok(s) => join_scripts_spec(
                vals_model(items@.subrange(from as int, items@.len() as int)),
            ) == Some(s@),
            Err(e) => join_scripts_spec(
                vals_model(items@.subrange(from as int, items@.len() as int)),
            ) is None && e == Error::RuntimeError,
        },
    decreases items@.len() - from,
{
    broadcast use crate::value::lemma_vals_model;

    let ghost suffix = vals_model(items@.subrange(from as int, items@.len() as int));
    if from == items.len() {
        proof {
            assert(items@.subrange(from as int, items@.len() as int) =~= Seq::<Value>::empty());
            assert(vals_model(Seq::<Value>::empty()) =~= Seq::<Val>::empty());
        }
        return Ok(String::new());
    }
    proof {
        assert(suffix.len() == items@.len() - from);
        assert(suffix[0] == items@[from as int].model());
        assert(suffix.drop_first() =~= vals_model(
            items@.subrange(from as int + 1, items@.len() as int),
        )) by {
            assert(items@.subrange(from as int, items@.len() as int).drop_first() =~= items@
                .subrange(from as int + 1, items@.len() as int));
            crate::value::lemma_vals_model(items@.subrange(from as int, items@.len() as int));
            crate::value::lemma_vals_model(
                items@.subrange(from as int + 1, items@.len() as int),
            );
            crate::value::lemma_vals_model(
                items@.subrange(from as int, items@.len() as int).drop_first(),
            );
        }
    }
    let head: String = match &items[from] {
        Value::Str(s) => s.clone(),
        _ => {
            return Err(Error::RuntimeError);
        },
    };
    if from + 1 == items.len() {
        proof {
            assert(suffix.len() == 1);
        }
        return Ok(head);
    }
    let rest: String = match join_scripts(items, from + 1) {
        Ok(s) => s,
        Err(e) => {
            return Err(e);
        },
    };
    let mut out: String = head;
    out.append("\n");
    out.append(rest.as_str());
    proof {
        reveal_strlit("\n");
        assert("\n"@ =~= seq!['\n']);
    }
    Ok(out)
}

/// Evaluates a node's layout: asks the evaluator for the class's layout
/// script, and when one exists, runs it with the node's state, the
/// description's property data and the node identifier bound, then
/// parses the returned value into a template.  `Ok(None)` means the
/// class is a leaf.  A missing node while a script exists is `NotFound`;
/// an execution failure or a malformed template is a `RuntimeError`.
pub fn layout<E: AsLayoutEvaluator>(
    vm: &ViewManager,
    evaluator: &mut E,
    vnode_id: u64,
    view_props: &ViewProps,
) -> (r: Result<Option<Node<ViewProps>>, Error>)
    ensures
        (r matches Err(e) ==> e == Error::NotFound || e == Error::RuntimeError),
        r == Err::<Option<Node<ViewProps>>, Error>(Error::NotFound) ==> !vm.live(vnode_id),
        (match r {
            Ok(Some(t)) => vm.live(vnode_id) && (exists|raw: Val|
                parse_child_spec(raw) == Some(t@)),
            _ => true,
        }),
{
    match evaluator.get_class_view(view_props.class.as_str()) {
        None => Ok(None),
        Some(script) => {
            let state: Value = match vm.get_vnode(&vnode_id) {
                Some(n) => n.state.clone(),
                None => {
                    return Err(Error::NotFound);
                },
            };
            let raw: Value = match evaluator.execute_layout_script(
                script.as_str(),
                &state,
                &view_props.props,
                vnode_id,
            ) {
                Ok(v) => v,
                Err(_) => {
                    return Err(Error::RuntimeError);
                },
            };
            match parse_child(&raw) {
                Ok(t) => {
                    proof {
                        assert(exists|rv: Val| parse_child_spec(rv) == Some(t@)) by {
                            assert(parse_child_spec(raw@) == Some(t@));
                        }
                    }
                    Ok(Some(t))
                },
                Err(e) => Err(e),
            }
        },
    }
}

/// Runs one event script with the event payload, the owning context
/// node's state, the context identifier and the node identifier bound;
/// the result is the candidate new state.  Execution failure is a
/// `RuntimeError`.
pub fn event_handler<E: AsLayoutEvaluator>(
    evaluator: &mut E,
    data: &Value,
    context: u64,
    vnode_id: u64,
    state: &Value,
    script: &String,
) -> (r: Result<Value, Error>)
    ensures
        (r matches Err(e) ==> e == Error::RuntimeError),
{
    match evaluator.execute_event_script(script.as_str(), data, state, context, vnode_id) {
        Ok(v) => Ok(v),
        Err(_) => Err(Error::RuntimeError),
    }
}

} // verus!
