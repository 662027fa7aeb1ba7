//! The records of the live view tree: a node's declarative description and
//! the arena record that carries it.

use vstd::prelude::*;

use crate::value::{Val, Value, value_eq};

verus! {

/// The model of a `ViewProps`: a class name and the model of its property
/// data.
#[verifier::ext_equal]
pub struct PropsModel {
    pub class: Seq<char>,
    pub props: Val,
}

/// A node's declarative description: a class name plus structured property
/// data.  Two descriptions are the same exactly when class and properties
/// are structurally equal.
pub struct ViewProps {
    pub class: String,
    pub props: Value,
}

impl View for ViewProps {
    type V = PropsModel;

    open spec fn view(&self) -> PropsModel {
        PropsModel { class: self.class@, props: self.props@ }
    }
}

impl Clone for ViewProps {
    /// An exact copy: the clone has the same model as the original.
    fn clone(&self) -> (r: Self)
        ensures
            r@ == self@,
    {
        ViewProps { class: self.class.clone(), props: self.props.clone() }
    }
}

/// Structural equality of two descriptions, exact for the model.
pub fn props_eq(a: &ViewProps, b: &ViewProps) -> (r: bool)
    ensures
        r == (a@ == b@),
{
    if !a.class.eq(&b.class) {
        return false;
    }
    value_eq(&a.props, &b.props)
}

/// The model of a live node record.
#[verifier::ext_equal]
pub struct VNodeModel {
    pub view_props: PropsModel,
    pub state: Val,
    pub inner_id: u64,
    pub embeded_child_v: Seq<u64>,
    pub context: u64,
    pub is_dirty: bool,
    pub parent_op: Option<u64>,
}

/// One record of the live tree.
pub struct VNode {
    /// The last-applied description.
    pub view_props: ViewProps,
    /// Mutable state owned by this node; the unit of update for event
    /// handlers.
    pub state: Value,
    /// 0, or the identifier of the synthesized template-root child that
    /// hosts the evaluator's output.
    pub inner_id: u64,
    /// The currently reconciled children, in order.
    pub embeded_child_v: Vec<u64>,
    /// The node whose state and children this node's evaluation may read.
    pub context: u64,
    /// Pending-recompute flag.
    pub is_dirty: bool,
    /// Non-owning back reference, used only to re-parent pass-through
    /// children.
    pub parent_op: Option<u64>,
}

impl View for VNode {
    type V = VNodeModel;

    open spec fn view(&self) -> VNodeModel {
        VNodeModel {
            view_props: self.view_props@,
            state: self.state@,
            inner_id: self.inner_id,
            embeded_child_v: self.embeded_child_v@,
            context: self.context,
            is_dirty: self.is_dirty,
            parent_op: self.parent_op,
        }
    }
}

/// The description every fresh node starts from: an empty class with null
/// properties.
pub open spec fn initial_props_model() -> PropsModel {
    PropsModel { class: Seq::empty(), props: Val::Null }
}

/// The model of a fresh node: initial description, empty-object state, no
/// inner child, no embedded children, dirty.
pub open spec fn fresh_vnode_model(context: u64, parent_op: Option<u64>) -> VNodeModel {
    VNodeModel {
        view_props: initial_props_model(),
        state: Val::Obj(Seq::empty()),
        inner_id: 0,
        embeded_child_v: Seq::empty(),
        context,
        is_dirty: true,
        parent_op,
    }
}

impl VNode {
    /// A fresh record: empty description, empty-object state, marked dirty
    /// so that its first reconciliation runs.
    pub fn new(context: u64, parent_op: Option<u64>) -> (r: Self)
        ensures
            r@ == fresh_vnode_model(context, parent_op),
    {
        let r = VNode {
            view_props: ViewProps { class: String::new(), props: Value::Null },
            state: Value::Obj(Vec::new()),
            inner_id: 0,
            embeded_child_v: Vec::new(),
            context,
            is_dirty: true,
            parent_op,
        };
        proof {
            assert(r@ =~= fresh_vnode_model(context, parent_op));
        }
        r
    }
}

/// An exact copy of a list of identifiers.
pub fn copy_ids(v: &Vec<u64>) -> (r: Vec<u64>)
    ensures
        r@ == v@,
{
    let mut out: Vec<u64> = Vec::new();
    let n: usize = v.len();
    let mut i: usize = 0;
    while i < n
        invariant
            n == v@.len(),
            i <= n,
            out@ == v@.subrange(0, i as int),
        decreases n - i,
    {
        out.push(v[i]);
        i = i + 1;
    }
    proof {
        assert(out@ =~= v@);
    }
    out
}

impl Clone for VNode {
    /// An exact copy: the clone has the same model as the original.
    fn clone(&self) -> (r: Self)
        ensures
            r@ == self@,
    {
        let r = VNode {
            view_props: self.view_props.clone(),
            state: self.state.clone(),
            inner_id: self.inner_id,
            embeded_child_v: copy_ids(&self.embeded_child_v),
            context: self.context,
            is_dirty: self.is_dirty,
            parent_op: self.parent_op,
        };
        proof {
            assert(r@ =~= self@);
        }
        r
    }
}

} // verus!
