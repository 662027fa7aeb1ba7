//! The structured property values that descriptions, states and templates
//! carry.
//!
//! `Value` is the executable representation; its mathematical model is
//! `Val`, reached through the view `@`.  Contracts throughout the crate
//! speak of `Val`, never of the executable representation.

use vstd::prelude::*;

verus! {

/// The mathematical model of a structured value.
#[verifier::ext_equal]
pub enum Val {
    Null,
    Bool(bool),
    Int(int),
    Str(Seq<char>),
    Arr(Seq<Val>),
    Obj(Seq<(Seq<char>, Val)>),
}

/// A structured value: the property data attached to a view node, its
/// state, and the shape in which the evaluator hands back templates.
///
/// An object is an ordered list of key-value pairs, and two values are
/// the same exactly when their structures are: the structure is its own
/// canonical serialization, and the keyed ("set") child matching builds
/// on this equality.
pub enum Value {
    Null,
    Bool(bool),
    Int(i64),
    Str(String),
    Arr(Vec<Value>),
    Obj(Vec<(String, Value)>),
}

impl Value {
    /// The model of this value.
    pub open spec fn model(&self) -> Val
        decreases *self,
    {
        match self {
            Value::Null => Val::Null,
            Value::Bool(b) => Val::Bool(*b),
            Value::Int(i) => Val::Int(*i as int),
            Value::Str(s) => Val::Str(s@),
            Value::Arr(items) => Val::Arr(vals_model(items@)),
            Value::Obj(pairs) => Val::Obj(pairs_model(pairs@)),
        }
    }
}

impl View for Value {
    type V = Val;

    open spec fn view(&self) -> Val {
        self.model()
    }
}

/// The models of a sequence of values, elementwise.
pub open spec fn vals_model(items: Seq<Value>) -> Seq<Val>
    decreases items,
{
    if items.len() == 0 {
        Seq::empty()
    } else {
        seq![items[0].model()] + vals_model(items.drop_first())
    }
}

/// The models of an object's pair list, elementwise.
pub open spec fn pairs_model(pairs: Seq<(String, Value)>) -> Seq<(Seq<char>, Val)>
    decreases pairs,
{
    if pairs.len() == 0 {
        Seq::empty()
    } else {
        seq![(pairs[0].0@, pairs[0].1.model())] + pairs_model(pairs.drop_first())
    }
}

/// Elementwise description of `vals_model`.
pub broadcast proof fn lemma_vals_model(items: Seq<Value>)
    ensures
        #![trigger vals_model(items)]
        vals_model(items).len() == items.len(),
        forall|i: int| 0 <= i < items.len() ==> vals_model(items)[i] == items[i].model(),
    decreases items,
{
    if items.len() > 0 {
        lemma_vals_model(items.drop_first());
    }
}

/// Elementwise description of `pairs_model`.
pub broadcast proof fn lemma_pairs_model(pairs: Seq<(String, Value)>)
    ensures
        #![trigger pairs_model(pairs)]
        pairs_model(pairs).len() == pairs.len(),
        forall|i: int| 0 <= i < pairs.len()
            ==> pairs_model(pairs)[i] == (pairs[i].0@, pairs[i].1.model()),
    decreases pairs,
{
    if pairs.len() > 0 {
        lemma_pairs_model(pairs.drop_first());
    }
}

/// The value stored under `key` in an object's pair list: the first pair
/// with that key, or `Null` when no pair carries it.
pub open spec fn pairs_lookup(pairs: Seq<(Seq<char>, Val)>, key: Seq<char>) -> Val
    decreases pairs.len(),
{
    if pairs.len() == 0 {
        Val::Null
    } else if pairs[0].0 == key {
        pairs[0].1
    } else {
        pairs_lookup(pairs.drop_first(), key)
    }
}

/// Indexing a value by key: a member of an object, `Null` anywhere else.
pub open spec fn val_get(v: Val, key: Seq<char>) -> Val {
    match v {
        Val::Obj(pairs) => pairs_lookup(pairs, key),
        _ => Val::Null,
    }
}

/// Indexing a value by position: an element of an array, `Null` anywhere
/// else.
pub open spec fn val_at(v: Val, i: int) -> Val {
    match v {
        Val::Arr(items) => if 0 <= i < items.len() {
            items[i]
        } else {
            Val::Null
        },
        _ => Val::Null,
    }
}

/// Whether a value counts as empty: `Null`, `false`, zero, and the empty
/// string, array and object all do.
pub open spec fn val_is_empty(v: Val) -> bool {
    match v {
        Val::Null => true,
        Val::Bool(b) => !b,
        Val::Int(i) => i == 0,
        Val::Str(s) => s.len() == 0,
        Val::Arr(items) => items.len() == 0,
        Val::Obj(pairs) => pairs.len() == 0,
    }
}

/// Structural equality of two values, decided on the executable
/// representation and exact for the model.
pub fn value_eq(a: &Value, b: &Value) -> (r: bool)
    ensures
        r == (a@ == b@),
    decreases *a,
{
    broadcast use lemma_vals_model, lemma_pairs_model, vstd::seq::group_seq_axioms, vstd::std_specs::vec::group_vec_axioms;

    match (a, b) {
        (Value::Null, Value::Null) => true,
        (Value::Bool(x), Value::Bool(y)) => x == y,
        (Value::Int(x), Value::Int(y)) => x == y,
        (Value::Str(x), Value::Str(y)) => x.eq(y),
        (Value::Arr(xs), Value::Arr(ys)) => {
            if xs.len() != ys.len() {
                proof {
                    lemma_vals_model(xs@);
                    lemma_vals_model(ys@);
                }
                return false;
            }
            let n: usize = xs.len();
            let mut i: usize = 0;
            while i < n
                invariant
                    n == xs@.len() == ys@.len(),
                    i <= n,
                    forall|k: int| 0 <= k < i ==> xs@[k].model() == ys@[k].model(),
                decreases n - i,
            {
                proof {
                    lemma_vals_model(xs@);
                    lemma_vals_model(ys@);
                    assert(decreases_to!(*a => *xs));
                    assert(decreases_to!(*xs => xs@));
                    assert(decreases_to!(xs@ => xs@[i as int]));
                }
                if !value_eq(&xs[i], &ys[i]) {
                    assert(vals_model(xs@)[i as int] != vals_model(ys@)[i as int]);
                    return false;
                }
                i = i + 1;
            }
            assert(vals_model(xs@) =~= vals_model(ys@));
            true
        },
        (Value::Obj(xs), Value::Obj(ys)) => {
            if xs.len() != ys.len() {
                proof {
                    lemma_pairs_model(xs@);
                    lemma_pairs_model(ys@);
                }
                return false;
            }
            let n: usize = xs.len();
            let mut i: usize = 0;
            while i < n
                invariant
                    n == xs@.len() == ys@.len(),
                    i <= n,
                    forall|k: int| 0 <= k < i
                        ==> xs@[k].0@ == ys@[k].0@ && xs@[k].1.model() == ys@[k].1.model(),
                decreases n - i,
            {
                proof {
                    lemma_pairs_model(xs@);
                    lemma_pairs_model(ys@);
                    assert(decreases_to!(*a => *xs));
                    assert(decreases_to!(*xs => xs@));
                    assert(decreases_to!(xs@ => xs@[i as int]));
                    assert(decreases_to!(xs@[i as int] => xs@[i as int].1));
                }
                if !xs[i].0.eq(&ys[i].0) {
                    assert(pairs_model(xs@)[i as int] != pairs_model(ys@)[i as int]);
                    return false;
                }
                if !value_eq(&xs[i].1, &ys[i].1) {
                    assert(pairs_model(xs@)[i as int] != pairs_model(ys@)[i as int]);
                    return false;
                }
                i = i + 1;
            }
            assert(pairs_model(xs@) =~= pairs_model(ys@));
            true
        },
        _ => {
            assert(a@ != b@);
            false
        },
    }
}

impl Clone for Value {
    /// An exact copy: the clone has the same model as the original.
    fn clone(&self) -> (r: Self)
        ensures
            r@ == self@,
        decreases *self,
    {
        broadcast use lemma_vals_model, lemma_pairs_model, vstd::seq::group_seq_axioms, vstd::std_specs::vec::group_vec_axioms;

        match self {
            Value::Null => Value::Null,
            Value::Bool(b) => Value::Bool(*b),
            Value::Int(i) => Value::Int(*i),
            Value::Str(s) => Value::Str(s.clone()),
            Value::Arr(items) => {
                let n: usize = items.len();
                let mut out: Vec<Value> = Vec::new();
                let mut i: usize = 0;
                while i < n
                    invariant
                        n == items@.len(),
                        i <= n,
                        out@.len() == i,
                        forall|k: int| 0 <= k < i ==> out@[k].model() == items@[k].model(),
                    decreases n - i,
                {
                    proof {
                        lemma_vals_model(items@);
                        lemma_vals_model(out@);
                        assert(decreases_to!(*self => *items));
                        assert(decreases_to!(*items => items@));
                        assert(decreases_to!(items@ => items@[i as int]));
                    }
                    out.push(items[i].clone());
                    i = i + 1;
                }
                assert(vals_model(out@) =~= vals_model(items@));
                Value::Arr(out)
            },
            Value::Obj(pairs) => {
                let n: usize = pairs.len();
                let mut out: Vec<(String, Value)> = Vec::new();
                let mut i: usize = 0;
                while i < n
                    invariant
                        n == pairs@.len(),
                        i <= n,
                        out@.len() == i,
                        forall|k: int| 0 <= k < i
                            ==> out@[k].0@ == pairs@[k].0@ && out@[k].1.model() == pairs@[k].1.model(),
                    decreases n - i,
                {
                    proof {
                        lemma_pairs_model(pairs@);
                        lemma_pairs_model(out@);
                        assert(decreases_to!(*self => *pairs));
                        assert(decreases_to!(*pairs => pairs@));
                        assert(decreases_to!(pairs@ => pairs@[i as int]));
                        assert(decreases_to!(pairs@[i as int] => pairs@[i as int].1));
                    }
                    let key: String = pairs[i].0.clone();
                    let member: Value = pairs[i].1.clone();
                    out.push((key, member));
                    i = i + 1;
                }
                assert(pairs_model(out@) =~= pairs_model(pairs@));
                Value::Obj(out)
            },
        }
    }
}

/// The member stored under `key`, when the value is an object that carries
/// it.
pub fn value_get<'a>(v: &'a Value, key: &str) -> (r: Option<&'a Value>)
    ensures
        match r {
            Some(m) => m@ == val_get(v@, key@),
            None => val_get(v@, key@) == Val::Null,
        },
{
    broadcast use lemma_vals_model, lemma_pairs_model, vstd::seq::group_seq_axioms, vstd::std_specs::vec::group_vec_axioms;

    let owned_key: String = key.to_owned();
    match v {
        Value::Obj(pairs) => {
            let n: usize = pairs.len();
            let mut i: usize = 0;
            while i < n
                invariant
                    n == pairs@.len(),
                    i <= n,
                    owned_key@ == key@,
                    forall|k: int| 0 <= k < i ==> pairs@[k].0@ != key@,
                decreases n - i,
            {
                if pairs[i].0.eq(&owned_key) {
                    proof {
                        lemma_pairs_lookup_at(pairs_model(pairs@), key@, i as int);
                    }
                    return Some(&pairs[i].1);
                }
                i = i + 1;
            }
            proof {
                lemma_pairs_lookup_missing(pairs_model(pairs@), key@);
            }
            None
        },
        _ => None,
    }
}

pub proof fn lemma_pairs_lookup_at(pairs: Seq<(Seq<char>, Val)>, key: Seq<char>, i: int)
    requires
        0 <= i < pairs.len(),
        pairs[i].0 == key,
        forall|k: int| 0 <= k < i ==> pairs[k].0 != key,
    ensures
        pairs_lookup(pairs, key) == pairs[i].1,
    decreases i,
{
    if i == 0 {
    } else {
        lemma_pairs_lookup_at(pairs.drop_first(), key, i - 1);
    }
}

pub proof fn lemma_pairs_lookup_missing(pairs: Seq<(Seq<char>, Val)>, key: Seq<char>)
    requires
        forall|k: int| 0 <= k < pairs.len() ==> pairs[k].0 != key,
    ensures
        pairs_lookup(pairs, key) == Val::Null,
    decreases pairs.len(),
{
    if pairs.len() == 0 {
    } else {
        lemma_pairs_lookup_missing(pairs.drop_first(), key);
    }
}

/// The first element, when the value is a non-empty array.
pub fn value_first(v: &Value) -> (r: Option<&Value>)
    ensures
        match r {
            Some(m) => m@ == val_at(v@, 0),
            None => val_at(v@, 0) == Val::Null,
        },
{
    broadcast use lemma_vals_model, lemma_pairs_model, vstd::seq::group_seq_axioms, vstd::std_specs::vec::group_vec_axioms;

    match v {
        Value::Arr(items) => {
            if items.len() > 0 {
                Some(&items[0])
            } else {
                None
            }
        },
        _ => None,
    }
}

/// Whether the value counts as empty (see `val_is_empty`).
pub fn value_is_empty(v: &Value) -> (r: bool)
    ensures
        r == val_is_empty(v@),
{
    broadcast use lemma_vals_model, lemma_pairs_model, vstd::seq::group_seq_axioms, vstd::std_specs::vec::group_vec_axioms;

    match v {
        Value::Null => true,
        Value::Bool(b) => !*b,
        Value::Int(i) => *i == 0,
        Value::Str(s) => s.as_str().is_empty(),
        Value::Arr(items) => items.len() == 0,
        Value::Obj(pairs) => pairs.len() == 0,
    }
}

} // verus!
