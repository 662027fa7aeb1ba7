//! The node store: an arena of addressable node records keyed by a
//! strictly increasing identifier, and the coalescing dirty queue that
//! drives reconciliation.
//!
//! Identifier 0 is the sentinel "none" and never names a live record.
//! Identifiers are never reused: a removed slot stays empty.  The dirty
//! queue maps identifiers to an optional description override and keeps
//! one entry per identifier, ordered by identifier, so that draining it
//! is deterministic.

use vstd::prelude::*;

use crate::bean::{PropsModel, VNode, VNodeModel, ViewProps};

verus! {

/// The model of one dirty-queue entry: the node to recompute and the
/// description override to apply, or `None` for "recompute with current
/// props".
pub open spec fn props_op_model(op: Option<ViewProps>) -> Option<PropsModel> {
    match op {
        Some(p) => Some(p@),
        None => None,
    }
}

/// The models of a dirty-queue entry list, elementwise.
pub open spec fn dirties_model(s: Seq<(u64, Option<ViewProps>)>) -> Seq<(u64, Option<PropsModel>)> {
    Seq::new(s.len(), |i: int| (s[i].0, props_op_model(s[i].1)))
}

/// The number of live records in a slot list.
pub closed spec fn count_live_seq(s: Seq<Option<VNode>>) -> nat
    decreases s.len(),
{
    if s.len() == 0 {
        0
    } else {
        count_live_seq(s.drop_last()) + if s.last() is Some {
            1nat
        } else {
            0nat
        }
    }
}

proof fn lemma_count_live_update(s: Seq<Option<VNode>>, i: int, v: Option<VNode>)
    requires
        0 <= i < s.len(),
    ensures
        count_live_seq(s.update(i, v)) + (if s[i] is Some { 1nat } else { 0nat })
            == count_live_seq(s) + (if v is Some { 1nat } else { 0nat }),
    decreases s.len(),
{
    if i == s.len() - 1 {
        assert(s.update(i, v).drop_last() =~= s.drop_last());
    } else {
        lemma_count_live_update(s.drop_last(), i, v);
        assert(s.update(i, v).drop_last() =~= s.drop_last().update(i, v));
    }
}

proof fn lemma_count_live_push(s: Seq<Option<VNode>>, v: Option<VNode>)
    ensures
        count_live_seq(s.push(v)) == count_live_seq(s) + (if v is Some { 1nat } else { 0nat }),
{
    assert(s.push(v).drop_last() =~= s);
}

/// The index of the first queue entry whose identifier is not below
/// `id`; the length when every entry is below it.
pub open spec fn dq_find(q: Seq<(u64, Option<PropsModel>)>, id: u64) -> int
    decreases q.len(),
{
    if q.len() == 0 {
        0
    } else if q[0].0 >= id {
        0
    } else {
        1 + dq_find(q.drop_first(), id)
    }
}

/// `dq_find` is characterised by its neighbourhood: everything before it
/// is below `id` and it is not.
pub proof fn lemma_dq_find_characterisation(q: Seq<(u64, Option<PropsModel>)>, id: u64, i: int)
    requires
        0 <= i <= q.len(),
        forall|k: int| 0 <= k < i ==> q[k].0 < id,
        i < q.len() ==> q[i].0 >= id,
    ensures
        dq_find(q, id) == i,
    decreases q.len(),
{
    if q.len() > 0 && i > 0 {
        lemma_dq_find_characterisation(q.drop_first(), id, i - 1);
    }
}

/// Whether a queue is strictly ordered by identifier.
pub open spec fn dq_sorted(q: Seq<(u64, Option<PropsModel>)>) -> bool {
    forall|i: int, j: int| 0 <= i < j < q.len() ==> q[i].0 < q[j].0
}

/// Whether every live record's child and inner references name already
/// issued identifiers: a reference may dangle (the node it names may be
/// gone, which the algorithms tolerate), but — identifiers never being
/// reused — it can never come to denote a different node than it did.
pub open spec fn nodes_refs_ok(s: Seq<Option<VNode>>) -> bool {
    forall|i: int|
        0 <= i < s.len() && (#[trigger] s[i]) is Some ==> s[i].unwrap()@.inner_id < s.len() && (
        forall|k: int|
            0 <= k < s[i].unwrap()@.embeded_child_v.len()
                ==> #[trigger] s[i].unwrap()@.embeded_child_v[k] < s.len())
}

/// Whether every live record's context names an already issued
/// identifier other than the record's own.
pub open spec fn nodes_ctx_ok(s: Seq<Option<VNode>>) -> bool {
    forall|i: int| 0 <= i < s.len() && (#[trigger] s[i]) is Some
        ==> s[i].unwrap()@.context < s.len() && s[i].unwrap()@.context as int != i
}

/// The node store.  The arena owns every record; the dirty queue is the
/// single work list that reconciliation drains.
pub struct ViewManager {
    nodes: Vec<Option<VNode>>,
    dirty_v: Vec<(u64, Option<ViewProps>)>,
}

impl ViewManager {
    /// How many identifiers have been issued; also the next identifier.
    pub closed spec fn issued(&self) -> int {
        self.nodes@.len() as int
    }

    /// Whether `id` names a live record.
    pub closed spec fn live(&self, id: u64) -> bool {
        id < self.nodes@.len() && self.nodes@[id as int] is Some
    }

    /// The model of the record under `id`; meaningful only when live.
    pub closed spec fn node(&self, id: u64) -> VNodeModel {
        self.nodes@[id as int].unwrap()@
    }

    /// The number of live records.
    pub closed spec fn live_count(&self) -> nat {
        count_live_seq(self.nodes@)
    }

    /// The dirty queue, ordered by identifier.
    pub closed spec fn dirty_q(&self) -> Seq<(u64, Option<PropsModel>)> {
        dirties_model(self.dirty_v@)
    }

    /// Well-formedness: identifier 0 is never live, the dirty queue is
    /// strictly ordered, and every live record's context names an already
    /// issued identifier other than the record's own.
    pub closed spec fn wf(&self) -> bool {
        &&& self.nodes@.len() >= 1
        &&& self.nodes@[0] is None
        &&& dq_sorted(self.dirty_q())
        &&& nodes_ctx_ok(self.nodes@)
        &&& nodes_refs_ok(self.nodes@)
    }

    /// An empty store: nothing live, nothing dirty, identifier 0 burnt.
    pub fn new() -> (r: ViewManager)
        ensures
            r.wf(),
            r.issued() == 1,
            forall|id: u64| !r.live(id),
            r.live_count() == 0,
            r.dirty_q() == Seq::<(u64, Option<PropsModel>)>::empty(),
    {
        let mut nodes: Vec<Option<VNode>> = Vec::new();
        nodes.push(None);
        let r = ViewManager { nodes, dirty_v: Vec::new() };
        proof {
            assert(r.dirty_q() =~= Seq::<(u64, Option<PropsModel>)>::empty());
            lemma_count_live_push(Seq::empty(), None);
            assert(r.nodes@.drop_last() =~= Seq::<Option<VNode>>::empty());
        }
        r
    }

    /// Issues a fresh identifier for `vnode` and stores it.  Identifiers
    /// strictly increase, so none is ever reused.
    pub fn new_vnode(&mut self, vnode: VNode) -> (id: u64)
        requires
            old(self).wf(),
            vnode@.context < old(self).issued(),
            vnode@.inner_id < old(self).issued(),
            forall|k: int|
                0 <= k < vnode@.embeded_child_v.len() ==> #[trigger] vnode@.embeded_child_v[k]
                    < old(self).issued(),
        ensures
            final(self).wf(),
            id as int == old(self).issued(),
            id != 0,
            !old(self).live(id),
            final(self).live(id),
            final(self).node(id) == vnode@,
            final(self).issued() == old(self).issued() + 1,
            final(self).live_count() == old(self).live_count() + 1,
            forall|j: u64| j != id ==> final(self).live(j) == old(self).live(j),
            forall|j: u64| j != id && old(self).live(j) ==> final(self).node(j) == old(self).node(j),
            final(self).dirty_q() == old(self).dirty_q(),
    {
        let id: u64 = self.nodes.len() as u64;
        self.nodes.push(Some(vnode));
        proof {
            lemma_count_live_push(old(self).nodes@, Some(vnode));
            assert(self.dirty_q() =~= old(self).dirty_q());
            let s = self.nodes@;
            let pre = old(self).nodes@;
            assert forall|i: int|
                0 <= i < s.len() && (#[trigger] s[i]) is Some implies s[i].unwrap()@.context
                < s.len() && s[i].unwrap()@.context as int != i by {
                if i < pre.len() {
                    assert(pre[i] is Some ==> pre[i].unwrap()@.context < pre.len()
                        && pre[i].unwrap()@.context as int != i);
                }
            }
            assert forall|j: u64| j != id implies self.live(j) == old(self).live(j) by {}
            assert forall|i: int|
                0 <= i < s.len() && (#[trigger] s[i]) is Some implies s[i].unwrap()@.inner_id
                < s.len() && (forall|k: int|
                0 <= k < s[i].unwrap()@.embeded_child_v.len()
                    ==> #[trigger] s[i].unwrap()@.embeded_child_v[k] < s.len()) by {
                if i < pre.len() {
                    assert(s[i] == pre[i]);
                }
            }
        }
        id
    }

    /// The record under `id`, when it is live.
    pub fn get_vnode(&self, id: &u64) -> (r: Option<&VNode>)
        ensures
            match r {
                Some(n) => self.live(*id) && n@ == self.node(*id),
                None => !self.live(*id),
            },
    {
        if *id < self.nodes.len() as u64 {
            match &self.nodes[*id as usize] {
                Some(n) => Some(n),
                None => None,
            }
        } else {
            None
        }
    }

    /// Replaces the record under `id`.  The record's context is part of
    /// the tree's shape and stays as it is.
    pub(crate) fn set_vnode(&mut self, id: u64, vnode: VNode)
        requires
            old(self).wf(),
            old(self).live(id),
            vnode@.context == old(self).node(id).context,
            vnode@.inner_id < old(self).issued(),
            forall|k: int|
                0 <= k < vnode@.embeded_child_v.len() ==> #[trigger] vnode@.embeded_child_v[k]
                    < old(self).issued(),
        ensures
            final(self).wf(),
            final(self).issued() == old(self).issued(),
            final(self).live_count() == old(self).live_count(),
            forall|j: u64| final(self).live(j) == old(self).live(j),
            final(self).node(id) == vnode@,
            forall|j: u64| j != id && old(self).live(j) ==> final(self).node(j) == old(self).node(j),
            final(self).dirty_q() == old(self).dirty_q(),
    {
        let n_len: usize = self.nodes.len();
        proof {
            assert(id < n_len as u64);
        }
        let idx: usize = id as usize;
        self.nodes[idx] = Some(vnode);
        proof {
            lemma_count_live_update(old(self).nodes@, id as int, Some(vnode));
            assert(self.dirty_q() =~= old(self).dirty_q());
            let s = self.nodes@;
            let pre = old(self).nodes@;
            assert forall|i: int|
                0 <= i < s.len() && (#[trigger] s[i]) is Some implies s[i].unwrap()@.context
                < s.len() && s[i].unwrap()@.context as int != i by {
                if i != id as int {
                    assert(s[i] == pre[i]);
                    assert(pre[i] is Some ==> pre[i].unwrap()@.context < pre.len()
                        && pre[i].unwrap()@.context as int != i);
                } else {
                    assert(pre[i] is Some ==> pre[i].unwrap()@.context < pre.len()
                        && pre[i].unwrap()@.context as int != i);
                }
            }
            assert forall|i: int|
                0 <= i < s.len() && (#[trigger] s[i]) is Some implies s[i].unwrap()@.inner_id
                < s.len() && (forall|k: int|
                0 <= k < s[i].unwrap()@.embeded_child_v.len()
                    ==> #[trigger] s[i].unwrap()@.embeded_child_v[k] < s.len()) by {
                if i != id as int {
                    assert(s[i] == pre[i]);
                }
            }
        }
    }

    /// Takes the record under `id` out of the arena.  Asking for a
    /// missing record changes nothing and yields `None`, so removal is
    /// idempotent.
    pub fn rm_vnode(&mut self, id: u64) -> (r: Option<VNode>)
        requires
            old(self).wf(),
        ensures
            final(self).wf(),
            final(self).issued() == old(self).issued(),
            !final(self).live(id),
            forall|j: u64| j != id ==> final(self).live(j) == old(self).live(j),
            forall|j: u64| j != id && old(self).live(j) ==> final(self).node(j) == old(self).node(j),
            final(self).dirty_q() == old(self).dirty_q(),
            match r {
                Some(n) => old(self).live(id) && n@ == old(self).node(id) && final(self).live_count()
                    + 1 == old(self).live_count(),
                None => !old(self).live(id) && final(self).live_count() == old(self).live_count()
                    && *final(self) == *old(self),
            },
    {
        if id < self.nodes.len() as u64 {
            let idx: usize = id as usize;
            let out: Option<VNode> = match &self.nodes[idx] {
                Some(n) => Some(n.clone()),
                None => None,
            };
            if out.is_some() {
                self.nodes[idx] = None;
                proof {
                    lemma_count_live_update(old(self).nodes@, id as int, None);
                    assert(self.dirty_q() =~= old(self).dirty_q());
                    let s = self.nodes@;
                    let pre = old(self).nodes@;
                    assert forall|i: int|
                        0 <= i < s.len() && (#[trigger] s[i]) is Some implies s[i].unwrap()@.context
                        < s.len() && s[i].unwrap()@.context as int != i by {
                        assert(s[i] == pre[i]);
                        assert(pre[i] is Some ==> pre[i].unwrap()@.context < pre.len()
                            && pre[i].unwrap()@.context as int != i);
                    }
                    assert forall|i: int|
                        0 <= i < s.len() && (#[trigger] s[i]) is Some implies s[i].unwrap()@.inner_id
                        < s.len() && (forall|k: int|
                        0 <= k < s[i].unwrap()@.embeded_child_v.len()
                            ==> #[trigger] s[i].unwrap()@.embeded_child_v[k] < s.len()) by {
                        assert(s[i] == pre[i]);
                    }
                }
            }
            out
        } else {
            None
        }
    }

    /// Queues `id` for reconciliation with the given description
    /// override, replacing any entry it already has: the queue coalesces,
    /// keeping only the latest override per identifier.
    pub fn insert_dirty(&mut self, id: u64, props_op: Option<ViewProps>)
        requires
            old(self).wf(),
        ensures
            final(self).wf(),
            final(self).issued() == old(self).issued(),
            final(self).live_count() == old(self).live_count(),
            forall|j: u64| final(self).live(j) == old(self).live(j),
            forall|j: u64| old(self).live(j) ==> final(self).node(j) == old(self).node(j),
            ({
                let q = old(self).dirty_q();
                let i = dq_find(q, id);
                if i < q.len() && q[i].0 == id {
                    final(self).dirty_q() == q.update(i, (id, props_op_model(props_op)))
                } else {
                    final(self).dirty_q() == q.subrange(0, i) + seq![(id, props_op_model(props_op))]
                        + q.subrange(i, q.len() as int)
                }
            }),
    {
        let n: usize = self.dirty_v.len();
        let mut i: usize = 0;
        while i < n && self.dirty_v[i].0 < id
            invariant
                i <= n,
                forall|k: int| 0 <= k < i ==> self.dirty_q()[k].0 < id,
            decreases n - i,
        {
            i = i + 1;
        }
        proof {
            lemma_dq_find_characterisation(self.dirty_q(), id, i as int);
        }
        if i < n && self.dirty_v[i].0 == id {
            self.dirty_v[i] = (id, props_op);
            proof {
                let q = old(self).dirty_q();
                let qq = self.dirty_q();
                assert(qq =~= q.update(i as int, (id, props_op_model(props_op))));
                assert forall|k: int, l: int| 0 <= k < l < qq.len() implies qq[k].0 < qq[l].0 by {
                    assert(qq[k].0 == q[k].0);
                    assert(qq[l].0 == q[l].0);
                }
            }
        } else {
            self.dirty_v.insert(i, (id, props_op));
            proof {
                let q = old(self).dirty_q();
                let qq = self.dirty_q();
                assert(qq =~= q.subrange(0, i as int) + seq![
                    (id, props_op_model(props_op)),
                ] + q.subrange(i as int, q.len() as int));
                let iv = i as int;
                assert forall|k: int, l: int| 0 <= k < l < qq.len() implies qq[k].0 < qq[l].0 by {
                    if k < iv {
                        assert(qq[k] == q[k]);
                        assert(q[k].0 < id);
                    }
                    if k > iv {
                        assert(qq[k] == q[k - 1]);
                    }
                    if l < iv {
                        assert(qq[l] == q[l]);
                    }
                    if l > iv {
                        assert(qq[l] == q[l - 1]);
                        assert(iv < q.len());
                        assert(q[iv].0 >= id);
                        if l - 1 > iv {
                            assert(q[iv].0 < q[l - 1].0);
                        }
                        assert(q[l - 1].0 >= id);
                    }
                    if k == iv {
                        assert(qq[k].0 == id);
                    }
                    if l == iv {
                        assert(qq[l].0 == id);
                    }
                }
            }
        }
    }

    /// Takes the entry with the least identifier off the dirty queue.
    pub fn pop_dirty(&mut self) -> (r: Option<(u64, Option<ViewProps>)>)
        requires
            old(self).wf(),
        ensures
            final(self).wf(),
            final(self).issued() == old(self).issued(),
            final(self).live_count() == old(self).live_count(),
            forall|j: u64| final(self).live(j) == old(self).live(j),
            forall|j: u64| old(self).live(j) ==> final(self).node(j) == old(self).node(j),
            match r {
                Some(entry) => old(self).dirty_q().len() > 0 && (entry.0, props_op_model(entry.1))
                    == old(self).dirty_q()[0] && final(self).dirty_q() == old(self).dirty_q().drop_first(),
                None => old(self).dirty_q().len() == 0 && *final(self) == *old(self),
            },
    {
        if self.dirty_v.len() == 0 {
            None
        } else {
            let entry = self.dirty_v.remove(0);
            proof {
                assert(self.dirty_q() =~= old(self).dirty_q().drop_first());
            }
            Some(entry)
        }
    }

    /// How many entries the dirty queue holds.
    pub fn dirty_len(&self) -> (r: usize)
        ensures
            r == self.dirty_q().len(),
    {
        self.dirty_v.len()
    }
}

/// What well-formedness gives every caller: identifier 0 is never
/// live, and a live record's context is an already issued identifier
/// other than the record's own.
pub proof fn lemma_wf_basics(vm: &ViewManager)
    requires
        vm.wf(),
    ensures
        !vm.live(0),
        forall|id: u64|
            #[trigger] vm.live(id) ==> vm.node(id).context < vm.issued() && vm.node(id).context
                != id && id < vm.issued(),
        forall|id: u64|
            #[trigger] vm.live(id) ==> vm.node(id).inner_id < vm.issued() && (forall|k: int|
                0 <= k < vm.node(id).embeded_child_v.len()
                    ==> #[trigger] vm.node(id).embeded_child_v[k] < vm.issued()),
{
    assert forall|id: u64| #[trigger] vm.live(id) implies vm.node(id).context < vm.issued()
        && vm.node(id).context != id by {
        assert(vm.nodes@[id as int] is Some);
    }
    assert forall|id: u64| #[trigger] vm.live(id) implies vm.node(id).inner_id < vm.issued() && (
    forall|k: int|
        0 <= k < vm.node(id).embeded_child_v.len() ==> #[trigger] vm.node(
            id,
        ).embeded_child_v[k] < vm.issued()) by {
        assert(vm.nodes@[id as int] is Some);
    }
}

/// Whether the dirty queue holds an entry for `id` carrying `v`.
pub open spec fn dq_has(q: Seq<(u64, Option<PropsModel>)>, id: u64, v: Option<PropsModel>) -> bool {
    exists|k: int| 0 <= k < q.len() && q[k] == (id, v)
}

/// What `insert_dirty` leaves in the queue: the inserted entry is
/// there, and every other identifier's entry is as it was.
pub proof fn lemma_insert_dirty_has(
    q: Seq<(u64, Option<PropsModel>)>,
    qq: Seq<(u64, Option<PropsModel>)>,
    id: u64,
    v: Option<PropsModel>,
)
    requires
        ({
            let i = dq_find(q, id);
            if i < q.len() && q[i].0 == id {
                qq == q.update(i, (id, v))
            } else {
                qq == q.subrange(0, i) + seq![(id, v)] + q.subrange(i, q.len() as int)
            }
        }),
    ensures
        dq_has(qq, id, v),
        forall|id2: u64, v2: Option<PropsModel>|
            id2 != id && #[trigger] dq_has(q, id2, v2) ==> dq_has(qq, id2, v2),
        forall|id2: u64, v2: Option<PropsModel>|
            id2 != id && #[trigger] dq_has(qq, id2, v2) ==> dq_has(q, id2, v2),
{
    let i = dq_find(q, id);
    lemma_dq_find_in_range(q, id);
    if i < q.len() && q[i].0 == id {
        assert(qq[i] == (id, v));
        assert forall|id2: u64, v2: Option<PropsModel>|
            id2 != id && #[trigger] dq_has(q, id2, v2) implies dq_has(qq, id2, v2) by {
            let k = choose|k: int| 0 <= k < q.len() && q[k] == (id2, v2);
            assert(qq[k] == (id2, v2));
        }
        assert forall|id2: u64, v2: Option<PropsModel>|
            id2 != id && #[trigger] dq_has(qq, id2, v2) implies dq_has(q, id2, v2) by {
            let k = choose|k: int| 0 <= k < qq.len() && qq[k] == (id2, v2);
            assert(q[k] == (id2, v2));
        }
    } else {
        assert(qq[i] == (id, v));
        assert forall|id2: u64, v2: Option<PropsModel>|
            id2 != id && #[trigger] dq_has(q, id2, v2) implies dq_has(qq, id2, v2) by {
            let k = choose|k: int| 0 <= k < q.len() && q[k] == (id2, v2);
            if k < i {
                assert(qq[k] == (id2, v2));
            } else {
                assert(qq[k + 1] == (id2, v2));
            }
        }
        assert forall|id2: u64, v2: Option<PropsModel>|
            id2 != id && #[trigger] dq_has(qq, id2, v2) implies dq_has(q, id2, v2) by {
            let k = choose|k: int| 0 <= k < qq.len() && qq[k] == (id2, v2);
            if k < i {
                assert(q[k] == (id2, v2));
            } else {
                assert(q[k - 1] == (id2, v2));
            }
        }
    }
}

proof fn lemma_dq_find_in_range(q: Seq<(u64, Option<PropsModel>)>, id: u64)
    ensures
        0 <= dq_find(q, id) <= q.len(),
    decreases q.len(),
{
    if q.len() > 0 && q[0].0 < id {
        lemma_dq_find_in_range(q.drop_first(), id);
    }
}

/// Whether two stores hold the same tree: the same records under the same
/// identifiers, the same issue counter and the same dirty queue.
pub open spec fn same_store(a: ViewManager, b: ViewManager) -> bool {
    &&& a.issued() == b.issued()
    &&& (forall|id: u64| a.live(id) == b.live(id))
    &&& (forall|id: u64| a.live(id) ==> a.node(id) == b.node(id))
    &&& a.dirty_q() == b.dirty_q()
}

} // verus!
