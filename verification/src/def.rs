//! The two capability ports the reconciler is generic over: the element
//! provider that receives create / reuse / delete notifications, and the
//! layout evaluator that turns a description into a template and runs
//! event scripts.
//!
//! Both are supplied by the host.  The provider's abstract event log is
//! what the reconciler's contracts speak of; the evaluator promises
//! nothing, and every contract in the crate states what holds whatever an
//! evaluator hands back.

use vstd::prelude::*;

use crate::err::Error;
use crate::value::{Val, Value};

verus! {

/// One notification in the element provider's abstract event log.
pub enum ElemEvent {
    Create { id: u64, class: Seq<char>, props: Val },
    Delete { id: u64 },
    Reuse { id: u64, class: Seq<char>, props: Val },
}

/// The element provider port: the host backend that keeps one concrete
/// element per live view node, keyed by node identifier.
pub trait AsElementProvider {
    /// The opaque handle the backend keeps per element.
    type H;

    /// The notifications received so far, oldest first.
    spec fn events(&self) -> Seq<ElemEvent>;

    /// A new element for node `vnode_id`.
    fn create_element(&mut self, vnode_id: u64, class: &str, props: &Value) -> (h: Self::H)
        ensures
            final(self).events() == old(self).events().push(
                ElemEvent::Create { id: vnode_id, class: class@, props: props@ },
            ),
    ;

    /// The element of node `id` is gone.
    fn delete_element(&mut self, id: u64)
        ensures
            final(self).events() == old(self).events().push(ElemEvent::Delete { id }),
    ;

    /// Update the element of node `id` in place; `false` rejects the
    /// reuse and asks for delete-then-create instead.
    fn reuse_element(&mut self, id: u64, class: &str, props: &Value) -> (accepted: bool)
        ensures
            final(self).events() == old(self).events().push(
                ElemEvent::Reuse { id, class: class@, props: props@ },
            ),
    ;
}

/// The layout evaluator port: resolves a class to its layout script and
/// executes scripts.  Nothing is promised of its results; the reconciler
/// is verified for every outcome.
pub trait AsLayoutEvaluator {
    /// The layout script of a class, or `None` when the class is a leaf.
    fn get_class_view(&self, class: &str) -> Option<String>;

    /// Runs a layout script with the state, the property data and the
    /// node identifier bound, yielding the template value.
    fn execute_layout_script(
        &mut self,
        script: &str,
        state: &Value,
        props: &Value,
        vnode_id: u64,
    ) -> Result<Value, Error>;

    /// Runs an event script with the event payload, the context node's
    /// state, the context identifier and the node identifier bound,
    /// yielding the candidate new state.
    fn execute_event_script(
        &mut self,
        script: &str,
        data: &Value,
        state: &Value,
        context: u64,
        vnode_id: u64,
    ) -> Result<Value, Error>;
}

/// One recorded notification, as the recording provider stores it.
pub enum ElemRecord {
    Created { id: u64, class: String, props: Value },
    Deleted { id: u64 },
    Reused { id: u64, class: String, props: Value },
}

impl View for ElemRecord {
    type V = ElemEvent;

    open spec fn view(&self) -> ElemEvent {
        match self {
            ElemRecord::Created { id, class, props } => ElemEvent::Create {
                id: *id,
                class: class@,
                props: props@,
            },
            ElemRecord::Deleted { id } => ElemEvent::Delete { id: *id },
            ElemRecord::Reused { id, class, props } => ElemEvent::Reuse {
                id: *id,
                class: class@,
                props: props@,
            },
        }
    }
}

/// The events denoted by a record list, elementwise.
pub open spec fn records_model(records: Seq<ElemRecord>) -> Seq<ElemEvent> {
    Seq::new(records.len(), |i: int| records[i]@)
}

/// An element provider that performs nothing and remembers every
/// notification; hosts use it as a backend stub and tests read its log.
pub struct RecordingProvider {
    /// The notifications received, oldest first.
    pub log: Vec<ElemRecord>,
    /// When false, every reuse is rejected, forcing delete-then-create.
    pub accept_reuse: bool,
}

impl RecordingProvider {
    /// An empty log that accepts reuse.
    pub fn new() -> (r: Self)
        ensures
            r.events() == Seq::<ElemEvent>::empty(),
            r.accept_reuse,
    {
        let r = RecordingProvider { log: Vec::new(), accept_reuse: true };
        proof {
            assert(r.events() =~= Seq::<ElemEvent>::empty());
        }
        r
    }
}

impl AsElementProvider for RecordingProvider {
    type H = u64;

    open spec fn events(&self) -> Seq<ElemEvent> {
        records_model(self.log@)
    }

    fn create_element(&mut self, vnode_id: u64, class: &str, props: &Value) -> (h: u64)
        ensures
            final(self).events() == old(self).events().push(
                ElemEvent::Create { id: vnode_id, class: class@, props: props@ },
            ),
    {
        self.log.push(
            ElemRecord::Created { id: vnode_id, class: class.to_owned(), props: props.clone() },
        );
        proof {
            assert(self.events() =~= old(self).events().push(
                ElemEvent::Create { id: vnode_id, class: class@, props: props@ },
            ));
        }
        vnode_id
    }

    fn delete_element(&mut self, id: u64)
        ensures
            final(self).events() == old(self).events().push(ElemEvent::Delete { id }),
    {
        self.log.push(ElemRecord::Deleted { id });
        proof {
            assert(self.events() =~= old(self).events().push(ElemEvent::Delete { id }));
        }
    }

    fn reuse_element(&mut self, id: u64, class: &str, props: &Value) -> (accepted: bool)
        ensures
            final(self).events() == old(self).events().push(
                ElemEvent::Reuse { id, class: class@, props: props@ },
            ),
    {
        self.log.push(
            ElemRecord::Reused { id, class: class.to_owned(), props: props.clone() },
        );
        proof {
            assert(self.events() =~= old(self).events().push(
                ElemEvent::Reuse { id, class: class@, props: props@ },
            ));
        }
        self.accept_reuse
    }
}

} // verus!
