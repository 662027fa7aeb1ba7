//! The transient template tree returned by the layout evaluator, and the
//! parser that reads it out of a structured value.
//!
//! A template value names its class under `"$class"`, its property data
//! under `"$props"`, and its ordered children under `"$child"`; a bare
//! string `"$child"` in a child position is the pass-through sentinel.

use vstd::prelude::*;

use crate::bean::{PropsModel, ViewProps};
use crate::err::Error;
use crate::value::{
    Val, Value, pairs_lookup, pairs_model, val_at, val_get, vals_model, lemma_pairs_model,
    lemma_pairs_lookup_at, lemma_pairs_lookup_missing, lemma_vals_model, value_first, value_get,
};

verus! {

/// The model of a template node: a description plus the models of its
/// children, in order.
#[verifier::ext_equal]
pub struct TplModel {
    pub data: PropsModel,
    pub child_v: Seq<TplModel>,
}

/// A transient, purely owned tree with a payload on every node.  The
/// evaluator's output is a `Node<ViewProps>`; it is consumed by one
/// reconciliation pass and discarded.
pub struct Node<Data> {
    pub data: Data,
    pub child_v: Vec<Node<Data>>,
}

impl<Data> Node<Data> {
    /// A leaf carrying `data`.
    pub fn new(data: Data) -> (r: Self)
        ensures
            r.data == data,
            r.child_v@ =~= Seq::<Node<Data>>::empty(),
    {
        Node { data, child_v: Vec::new() }
    }

    /// A node carrying `data` with the given children.
    pub fn new_with_child_v(data: Data, child_v: Vec<Node<Data>>) -> (r: Self)
        ensures
            r.data == data,
            r.child_v == child_v,
    {
        Node { data, child_v }
    }
}

impl Node<ViewProps> {
    /// The model of this template node.
    pub open spec fn model(&self) -> TplModel
        decreases *self,
    {
        TplModel { data: self.data@, child_v: tpls_model(self.child_v@) }
    }
}

impl View for Node<ViewProps> {
    type V = TplModel;

    open spec fn view(&self) -> TplModel {
        self.model()
    }
}

/// The models of a sequence of template nodes, elementwise.
pub open spec fn tpls_model(items: Seq<Node<ViewProps>>) -> Seq<TplModel>
    decreases items,
{
    if items.len() == 0 {
        Seq::empty()
    } else {
        seq![items[0].model()] + tpls_model(items.drop_first())
    }
}

/// Elementwise description of `tpls_model`.
pub broadcast proof fn lemma_tpls_model(items: Seq<Node<ViewProps>>)
    ensures
        #![trigger tpls_model(items)]
        tpls_model(items).len() == items.len(),
        forall|i: int| 0 <= i < items.len() ==> tpls_model(items)[i] == items[i].model(),
    decreases items,
{
    if items.len() > 0 {
        lemma_tpls_model(items.drop_first());
    }
}

/// Whether a template value is the pass-through sentinel: the bare string
/// `"$child"`.
pub open spec fn is_child_sentinel(v: Val) -> bool {
    v matches Val::Str(s) && s == "$child"@
}

/// The template node that stands for the pass-through sentinel.
pub open spec fn sentinel_tpl() -> TplModel {
    TplModel {
        data: PropsModel { class: "$child"@, props: Val::Null },
        child_v: Seq::empty(),
    }
}

pub proof fn lemma_lookup_decreases(pairs: Seq<(Seq<char>, Val)>, key: Seq<char>)
    ensures
        pairs_lookup(pairs, key) == Val::Null || decreases_to!(pairs => pairs_lookup(pairs, key)),
    decreases pairs.len(),
{
    if pairs.len() == 0 {
    } else if pairs[0].0 == key {
        assert(decreases_to!(pairs => pairs[0]));
        assert(decreases_to!(pairs[0] => pairs[0].1));
    } else {
        lemma_lookup_decreases(pairs.drop_first(), key);
        assert(decreases_to!(pairs => pairs.drop_first()));
    }
}

/// The template denoted by a structured value: `None` when the shape is
/// malformed (a missing or non-string class).
pub open spec fn parse_child_spec(v: Val) -> Option<TplModel>
    decreases v,
{
    if is_child_sentinel(v) {
        Some(sentinel_tpl())
    } else {
        match val_at(val_get(v, "$class"@), 0) {
            Val::Str(class) => {
                let props = val_at(val_get(v, "$props"@), 0);
                match val_get(v, "$child"@) {
                    Val::Arr(kids) => {
                        proof {
                            if let Val::Obj(pairs) = v {
                                lemma_lookup_decreases(pairs, "$child"@);
                                assert(decreases_to!(v => pairs));
                                assert(decreases_to!(Val::Arr(kids) => kids));
                            }
                        }
                        match parse_children_spec(kids) {
                            Some(ts) => Some(
                                TplModel { data: PropsModel { class, props }, child_v: ts },
                            ),
                            None => None,
                        }
                    },
                    _ => Some(
                        TplModel { data: PropsModel { class, props }, child_v: Seq::empty() },
                    ),
                }
            },
            _ => None,
        }
    }
}

/// The templates denoted by a sequence of child values: `None` when any
/// of them is malformed.
pub open spec fn parse_children_spec(kids: Seq<Val>) -> Option<Seq<TplModel>>
    decreases kids,
{
    if kids.len() == 0 {
        Some(Seq::empty())
    } else {
        match parse_child_spec(kids[0]) {
            Some(t) => match parse_children_spec(kids.drop_first()) {
                Some(ts) => Some(seq![t] + ts),
                None => None,
            },
            None => None,
        }
    }
}

/// The first index carrying `key` in an object's pair list.
fn find_key(pairs: &Vec<(String, Value)>, key: &str) -> (r: Option<usize>)
    ensures
        match r {
            Some(i) => i < pairs@.len() && pairs@[i as int].0@ == key@ && (forall|k: int|
                0 <= k < i ==> pairs@[k].0@ != key@),
            None => forall|k: int| 0 <= k < pairs@.len() ==> pairs@[k].0@ != key@,
        },
{
    let owned_key: String = key.to_owned();
    let n: usize = pairs.len();
    let mut i: usize = 0;
    while i < n
        invariant
            i <= n,
            forall|k: int| 0 <= k < i ==> pairs@[k].0@ != key@,
        decreases n - i,
    {
        if pairs[i].0.eq(&owned_key) {
            return Some(i);
        }
        i = i + 1;
    }
    None
}

/// Reads the template denoted by `root`.  A bare `"$child"` string yields
/// the sentinel leaf; otherwise the class must be a string under
/// `"$class"`, else the shape is malformed and a `RuntimeError` comes
/// back.
pub fn parse_child(root: &Value) -> (r: Result<Node<ViewProps>, Error>)
    ensures
        match r {
            Ok(t) => parse_child_spec(root@) == Some(t@),
            Err(e) => parse_child_spec(root@) is None && e == Error::RuntimeError,
        },
    decreases *root, 0int,
{
    broadcast use lemma_tpls_model, lemma_vals_model, lemma_pairs_model;

    if let Value::Str(s) = root {
        if s.eq(&"$child".to_owned()) {
            let t = Node::new(ViewProps { class: "$child".to_owned(), props: Value::Null });
            proof {
                assert(t@ =~= sentinel_tpl());
            }
            return Ok(t);
        }
    }
    let class: String = {
        let found: Option<&Value> = match value_get(root, "$class") {
            Some(cv) => value_first(cv),
            None => None,
        };
        match found {
            Some(c) => match c {
                Value::Str(s) => s.clone(),
                _ => {
                    return Err(Error::RuntimeError);
                },
            },
            None => {
                return Err(Error::RuntimeError);
            },
        }
    };
    let props: Value = {
        let found: Option<&Value> = match value_get(root, "$props") {
            Some(pv) => value_first(pv),
            None => None,
        };
        match found {
            Some(p) => p.clone(),
            None => Value::Null,
        }
    };
    let mut child_v: Vec<Node<ViewProps>> = Vec::new();
    if let Value::Obj(pairs) = root {
        let found_child = find_key(pairs, "$child");
        proof {
            match found_child {
                Some(ki) => lemma_pairs_lookup_at(pairs_model(pairs@), "$child"@, ki as int),
                None => lemma_pairs_lookup_missing(pairs_model(pairs@), "$child"@),
            }
        }
        if let Some(ki) = found_child {
            if let Value::Arr(kids) = &pairs[ki].1 {
                proof {
                    assert(decreases_to!(*root => *pairs));
                    assert(decreases_to!(*pairs => pairs@));
                    assert(decreases_to!(pairs@ => pairs@[ki as int]));
                    assert(decreases_to!(pairs@[ki as int] => pairs@[ki as int].1));
                    assert(decreases_to!(pairs@[ki as int].1 => *kids));
                    assert(decreases_to!(*kids => kids@));
                }
                proof {
                    assert(kids@.subrange(0, kids@.len() as int) =~= kids@);
                }
                child_v = parse_children(kids, 0)?;
                let t = Node::new_with_child_v(ViewProps { class, props }, child_v);
                return Ok(t);
            }
        }
    }
    let t = Node::new_with_child_v(ViewProps { class, props }, child_v);
    proof {
        assert(t@.child_v =~= Seq::<TplModel>::empty());
    }
    Ok(t)
}

/// Reads the templates of the child values from position `from` on.
fn parse_children(kids: &Vec<Value>, from: usize) -> (r: Result<Vec<Node<ViewProps>>, Error>)
    requires
        from <= kids@.len(),
    ensures
        match r {
            Ok(ts) => parse_children_spec(vals_model(kids@.subrange(from as int, kids@.len() as int)))
                == Some(tpls_model(ts@)),
            Err(e) => parse_children_spec(
                vals_model(kids@.subrange(from as int, kids@.len() as int)),
            ) is None && e == Error::RuntimeError,
        },
    decreases kids@, (kids@.len() - from),
{
    broadcast use lemma_tpls_model, lemma_vals_model;

    if from == kids.len() {
        let out: Vec<Node<ViewProps>> = Vec::new();
        proof {
            assert(kids@.subrange(from as int, kids@.len() as int) =~= Seq::<Value>::empty());
            assert(vals_model(Seq::<Value>::empty()) =~= Seq::<Val>::empty());
            assert(tpls_model(out@) =~= Seq::<TplModel>::empty());
        }
        return Ok(out);
    }
    proof {
        assert(decreases_to!(kids@ => kids@[from as int]));
    }
    let head = match parse_child(&kids[from]) {
        Ok(t) => t,
        Err(e) => {
            proof {
                lemma_vals_model_subrange_first(kids@, from as int);
            }
            return Err(e);
        },
    };
    let rest = match parse_children(kids, from + 1) {
        Ok(ts) => ts,
        Err(e) => {
            proof {
                lemma_vals_model_subrange_first(kids@, from as int);
            }
            return Err(e);
        },
    };
    let ghost rest_snapshot = rest@;
    let mut out: Vec<Node<ViewProps>> = Vec::new();
    out.push(head);
    let mut rest = rest;
    out.append(&mut rest);
    proof {
        lemma_vals_model_subrange_first(kids@, from as int);
        assert(out@ =~= seq![head] + rest_snapshot);
        lemma_tpls_model_cons(head, rest_snapshot);
    }
    Ok(out)
}

proof fn lemma_tpls_model_cons(h: Node<ViewProps>, ts: Seq<Node<ViewProps>>)
    ensures
        tpls_model(seq![h] + ts) == seq![h.model()] + tpls_model(ts),
{
    let s = seq![h] + ts;
    assert(s[0] == h);
    assert(s.drop_first() =~= ts);
}

proof fn lemma_vals_model_subrange_first(s: Seq<Value>, from: int)
    requires
        0 <= from < s.len(),
    ensures
        vals_model(s.subrange(from, s.len() as int)).len() == s.len() - from,
        vals_model(s.subrange(from, s.len() as int))[0] == s[from].model(),
        vals_model(s.subrange(from, s.len() as int)).drop_first() =~= vals_model(
            s.subrange(from + 1, s.len() as int),
        ),
{
    lemma_vals_model(s.subrange(from, s.len() as int));
    lemma_vals_model(s.subrange(from + 1, s.len() as int));
    assert(vals_model(s.subrange(from, s.len() as int)).drop_first() =~= vals_model(
        s.subrange(from + 1, s.len() as int),
    ));
}

} // verus!
