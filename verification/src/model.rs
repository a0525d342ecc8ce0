//! The recursive value model of the wire protocol and its structural
//! equivalence.
//!
//! Equality between values is structural: for lists it is order-sensitive,
//! while for mappings and sets the order in which members were decoded is
//! insignificant.

use vstd::prelude::*;

verus! {

broadcast use vstd::seq::group_seq_axioms, vstd::std_specs::vec::group_vec_axioms;

/// The kind of a wire value, one per grammar tag.
#[derive(Clone, Copy, PartialEq, Eq, Structural, Debug)]
pub enum Type {
    SimpleText,
    ErrorText,
    Integer,
    BinaryString,
    Boolean,
    List,
    Mapping,
    UniqueSet,
}

/// A decoded wire value.
///
/// Text payloads are held as raw bytes: the decoder never interprets payload
/// bytes as characters, so any byte value can appear inside a
/// `BinaryString`, including the delimiter sequence itself.  A `Mapping`
/// holds its pairs in decode (or construction) order with keys unique under
/// structural equivalence; a `UniqueSet` holds members unique under the same
/// equivalence.
#[derive(Debug, PartialEq, Eq)]
pub enum Value {
    SimpleText(Vec<u8>),
    ErrorText(Vec<u8>),
    Integer(i64),
    BinaryString(Vec<u8>),
    Boolean(bool),
    List(Vec<Value>),
    Mapping(Vec<(Value, Value)>),
    UniqueSet(Vec<Value>),
}

/// The mathematical model of a `Value`: the same tree with every vector
/// replaced by a `Seq`.  All contracts speak of this model.
pub enum ValueModel {
    SimpleText(Seq<u8>),
    ErrorText(Seq<u8>),
    Integer(i64),
    BinaryString(Seq<u8>),
    Boolean(bool),
    List(Seq<ValueModel>),
    Mapping(Seq<(ValueModel, ValueModel)>),
    UniqueSet(Seq<ValueModel>),
}

/// The model of a value.
pub open spec fn model(v: Value) -> ValueModel
    decreases v,
{
    match v {
        Value::SimpleText(s) => ValueModel::SimpleText(s@),
        Value::ErrorText(s) => ValueModel::ErrorText(s@),
        Value::Integer(n) => ValueModel::Integer(n),
        Value::BinaryString(b) => ValueModel::BinaryString(b@),
        Value::Boolean(b) => ValueModel::Boolean(b),
        Value::List(xs) => ValueModel::List(models(xs@)),
        Value::Mapping(ps) => ValueModel::Mapping(models_pairs(ps@)),
        Value::UniqueSet(xs) => ValueModel::UniqueSet(models(xs@)),
    }
}

/// The models of a sequence of values, element by element.  The guard on
/// the index keeps the recursion well founded; out-of-range indices are
/// never observed.
pub open spec fn models(xs: Seq<Value>) -> Seq<ValueModel>
    decreases xs,
{
    Seq::new(
        xs.len(),
        |i: int|
            if 0 <= i < xs.len() {
                model(xs[i])
            } else {
                ValueModel::Boolean(false)
            },
    )
}

/// The models of a sequence of key/value pairs, pair by pair.
pub open spec fn models_pairs(ps: Seq<(Value, Value)>) -> Seq<(ValueModel, ValueModel)>
    decreases ps,
{
    Seq::new(
        ps.len(),
        |i: int|
            if 0 <= i < ps.len() {
                (model(ps[i].0), model(ps[i].1))
            } else {
                (ValueModel::Boolean(false), ValueModel::Boolean(false))
            },
    )
}

impl View for Value {
    type V = ValueModel;

    open spec fn view(&self) -> ValueModel {
        model(*self)
    }
}

/// An element of `models(xs)` is the model of the same element of `xs`.
pub broadcast proof fn lemma_models_index(xs: Seq<Value>, i: int)
    requires
        0 <= i < xs.len(),
    ensures
        (#[trigger] models(xs)[i]) == model(xs[i]),
{
}

/// An element of `models_pairs(ps)` is the pair of models of the same pair
/// of `ps`.
pub broadcast proof fn lemma_models_pairs_index(ps: Seq<(Value, Value)>, i: int)
    requires
        0 <= i < ps.len(),
    ensures
        (#[trigger] models_pairs(ps)[i]) == (model(ps[i].0), model(ps[i].1)),
{
}

/// Structural equivalence of two values.  Scalars and binary strings are
/// equivalent when their payloads are equal; lists when they are equal
/// position by position; mappings and sets when each member of one side has
/// an equivalent member on the other side, regardless of order.
pub open spec fn vequiv(a: ValueModel, b: ValueModel) -> bool
    decreases a, 0int,
{
    match (a, b) {
        (ValueModel::SimpleText(x), ValueModel::SimpleText(y)) => x == y,
        (ValueModel::ErrorText(x), ValueModel::ErrorText(y)) => x == y,
        (ValueModel::Integer(x), ValueModel::Integer(y)) => x == y,
        (ValueModel::BinaryString(x), ValueModel::BinaryString(y)) => x == y,
        (ValueModel::Boolean(x), ValueModel::Boolean(y)) => x == y,
        (ValueModel::List(x), ValueModel::List(y)) => x.len() == y.len()
            && (forall|i: int| 0 <= i < x.len() ==> vequiv(#[trigger] x[i], y[i])),
        (ValueModel::Mapping(x), ValueModel::Mapping(y)) => x.len() == y.len()
            && (forall|i: int| 0 <= i < x.len() ==> pair_matched(#[trigger] x[i], y))
            && (forall|j: int| 0 <= j < y.len() ==> pair_covers(x, #[trigger] y[j])),
        (ValueModel::UniqueSet(x), ValueModel::UniqueSet(y)) => x.len() == y.len()
            && (forall|i: int| 0 <= i < x.len() ==> member_matched(#[trigger] x[i], y))
            && (forall|j: int| 0 <= j < y.len() ==> member_covers(x, #[trigger] y[j])),
        _ => false,
    }
}

/// Some pair of `ys` has a key and a value equivalent to those of `p`.
pub open spec fn pair_matched(p: (ValueModel, ValueModel), ys: Seq<(ValueModel, ValueModel)>) -> bool
    decreases p, 1int,
{
    exists|j: int| 0 <= j < ys.len() && vequiv(p.0, (#[trigger] ys[j]).0) && vequiv(p.1, ys[j].1)
}

/// Some pair of `xs` has a key and a value equivalent to those of `q`.
pub open spec fn pair_covers(xs: Seq<(ValueModel, ValueModel)>, q: (ValueModel, ValueModel)) -> bool
    decreases xs, 1int,
{
    exists|i: int| 0 <= i < xs.len() && vequiv((#[trigger] xs[i]).0, q.0) && vequiv(xs[i].1, q.1)
}

/// Some member of `ys` is equivalent to `x`.
pub open spec fn member_matched(x: ValueModel, ys: Seq<ValueModel>) -> bool
    decreases x, 1int,
{
    exists|j: int| 0 <= j < ys.len() && vequiv(x, #[trigger] ys[j])
}

/// Some member of `xs` is equivalent to `y`.
pub open spec fn member_covers(xs: Seq<ValueModel>, y: ValueModel) -> bool
    decreases xs, 1int,
{
    exists|i: int| 0 <= i < xs.len() && vequiv(#[trigger] xs[i], y)
}

/// The kind of a value, in the model.
pub open spec fn kind_of(v: ValueModel) -> Type {
    match v {
        ValueModel::SimpleText(_) => Type::SimpleText,
        ValueModel::ErrorText(_) => Type::ErrorText,
        ValueModel::Integer(_) => Type::Integer,
        ValueModel::BinaryString(_) => Type::BinaryString,
        ValueModel::Boolean(_) => Type::Boolean,
        ValueModel::List(_) => Type::List,
        ValueModel::Mapping(_) => Type::Mapping,
        ValueModel::UniqueSet(_) => Type::UniqueSet,
    }
}

impl Value {
    /// The kind of this value.
    pub fn kind(&self) -> (t: Type)
        ensures
            t == kind_of(self@),
    {
        match self {
            Value::SimpleText(_) => Type::SimpleText,
            Value::ErrorText(_) => Type::ErrorText,
            Value::Integer(_) => Type::Integer,
            Value::BinaryString(_) => Type::BinaryString,
            Value::Boolean(_) => Type::Boolean,
            Value::List(_) => Type::List,
            Value::Mapping(_) => Type::Mapping,
            Value::UniqueSet(_) => Type::UniqueSet,
        }
    }
}

/// Equality of two byte vectors.
fn eq_bytes(x: &Vec<u8>, y: &Vec<u8>) -> (r: bool)
    ensures
        r == (x@ == y@),
{
    if x.len() != y.len() {
        return false;
    }
    let mut i: usize = 0;
    while i < x.len()
        invariant
            x@.len() == y@.len(),
            i <= x@.len(),
            forall|k: int| 0 <= k < i ==> x@[k] == y@[k],
        decreases x@.len() - i,
    {
        if x[i] != y[i] {
            return false;
        }
        i = i + 1;
    }
    proof {
        assert(x@ =~= y@);
    }
    true
}

/// Structural equivalence, executable: order-sensitive for lists,
/// order-insensitive for mappings and sets.
pub fn equiv(a: &Value, b: &Value) -> (r: bool)
    ensures
        r == vequiv(a@, b@),
    decreases *a,
{
    match (a, b) {
        (Value::SimpleText(x), Value::SimpleText(y)) => eq_bytes(x, y),
        (Value::ErrorText(x), Value::ErrorText(y)) => eq_bytes(x, y),
        (Value::Integer(x), Value::Integer(y)) => *x == *y,
        (Value::BinaryString(x), Value::BinaryString(y)) => eq_bytes(x, y),
        (Value::Boolean(x), Value::Boolean(y)) => *x == *y,
        (Value::List(x), Value::List(y)) => equiv_lists(x, y),
        (Value::Mapping(x), Value::Mapping(y)) => equiv_mappings(x, y),
        (Value::UniqueSet(x), Value::UniqueSet(y)) => equiv_members(x, y),
        _ => false,
    }
}

/// Position-by-position equivalence of two lists.
#[verifier::loop_isolation(false)]
fn equiv_lists(x: &Vec<Value>, y: &Vec<Value>) -> (r: bool)
    ensures
        r == vequiv(ValueModel::List(models(x@)), ValueModel::List(models(y@))),
    decreases *x,
{
    broadcast use lemma_models_index, lemma_models_pairs_index;

    if x.len() != y.len() {
        return false;
    }
    let mut i: usize = 0;
    while i < x.len()
        invariant
            i <= x@.len(),
            forall|k: int| 0 <= k < i ==> vequiv(#[trigger] models(x@)[k], models(y@)[k]),
        decreases x@.len() - i,
    {
        if !equiv(&x[i], &y[i]) {
            proof {
                assert(models(x@)[i as int] == model(x@[i as int]));
            }
            return false;
        }
        i = i + 1;
    }
    true
}

/// Order-insensitive equivalence of two mappings: each side's pairs must be
/// matched on the other side.
#[verifier::loop_isolation(false)]
fn equiv_mappings(x: &Vec<(Value, Value)>, y: &Vec<(Value, Value)>) -> (r: bool)
    ensures
        r == vequiv(ValueModel::Mapping(models_pairs(x@)), ValueModel::Mapping(models_pairs(y@))),
    decreases *x,
{
    broadcast use lemma_models_index, lemma_models_pairs_index;

    if x.len() != y.len() {
        return false;
    }
    let mut i: usize = 0;
    while i < x.len()
        invariant
            i <= x@.len(),
            forall|k: int| 0 <= k < i ==> pair_matched(
                #[trigger] models_pairs(x@)[k],
                models_pairs(y@),
            ),
        decreases x@.len() - i,
    {
        let mut j: usize = 0;
        let mut found = false;
        while j < y.len() && !found
            invariant
                j <= y@.len(),
                i < x@.len(),
                found ==> pair_matched(models_pairs(x@)[i as int], models_pairs(y@)),
                !found ==> forall|k: int| 0 <= k < j ==> !(vequiv(
                    models_pairs(x@)[i as int].0,
                    (#[trigger] models_pairs(y@)[k]).0,
                ) && vequiv(models_pairs(x@)[i as int].1, models_pairs(y@)[k].1)),
            decreases y@.len() - j + (if found { 0int } else { 1int }),
        {
            if equiv(&x[i].0, &y[j].0) && equiv(&x[i].1, &y[j].1) {
                proof {
                    assert(models_pairs(y@)[j as int] == (
                        model(y@[j as int].0),
                        model(y@[j as int].1),
                    ));
                }
                found = true;
            } else {
                j = j + 1;
            }
        }
        if !found {
            proof {
                assert(!pair_matched(models_pairs(x@)[i as int], models_pairs(y@)));
            }
            return false;
        }
        i = i + 1;
    }
    let mut j: usize = 0;
    while j < y.len()
        invariant
            j <= y@.len(),
            forall|k: int| 0 <= k < j ==> pair_covers(
                models_pairs(x@),
                #[trigger] models_pairs(y@)[k],
            ),
        decreases y@.len() - j,
    {
        let mut i2: usize = 0;
        let mut found = false;
        while i2 < x.len() && !found
            invariant
                i2 <= x@.len(),
                j < y@.len(),
                found ==> pair_covers(models_pairs(x@), models_pairs(y@)[j as int]),
                !found ==> forall|k: int| 0 <= k < i2 ==> !(vequiv(
                    (#[trigger] models_pairs(x@)[k]).0,
                    models_pairs(y@)[j as int].0,
                ) && vequiv(models_pairs(x@)[k].1, models_pairs(y@)[j as int].1)),
            decreases x@.len() - i2 + (if found { 0int } else { 1int }),
        {
            if equiv(&x[i2].0, &y[j].0) && equiv(&x[i2].1, &y[j].1) {
                proof {
                    assert(models_pairs(x@)[i2 as int] == (
                        model(x@[i2 as int].0),
                        model(x@[i2 as int].1),
                    ));
                }
                found = true;
            } else {
                i2 = i2 + 1;
            }
        }
        if !found {
            proof {
                assert(!pair_covers(models_pairs(x@), models_pairs(y@)[j as int]));
            }
            return false;
        }
        j = j + 1;
    }
    true
}

/// Order-insensitive equivalence of two sets: each side's members must be
/// matched on the other side.
#[verifier::loop_isolation(false)]
fn equiv_members(x: &Vec<Value>, y: &Vec<Value>) -> (r: bool)
    ensures
        r == vequiv(ValueModel::UniqueSet(models(x@)), ValueModel::UniqueSet(models(y@))),
    decreases *x,
{
    broadcast use lemma_models_index, lemma_models_pairs_index;

    if x.len() != y.len() {
        return false;
    }
    let mut i: usize = 0;
    while i < x.len()
        invariant
            i <= x@.len(),
            forall|k: int| 0 <= k < i ==> member_matched(#[trigger] models(x@)[k], models(y@)),
        decreases x@.len() - i,
    {
        let mut j: usize = 0;
        let mut found = false;
        while j < y.len() && !found
            invariant
                j <= y@.len(),
                i < x@.len(),
                found ==> member_matched(models(x@)[i as int], models(y@)),
                !found ==> forall|k: int| 0 <= k < j ==> !vequiv(
                    models(x@)[i as int],
                    #[trigger] models(y@)[k],
                ),
            decreases y@.len() - j + (if found { 0int } else { 1int }),
        {
            if equiv(&x[i], &y[j]) {
                proof {
                    assert(models(y@)[j as int] == model(y@[j as int]));
                }
                found = true;
            } else {
                j = j + 1;
            }
        }
        if !found {
            proof {
                assert(!member_matched(models(x@)[i as int], models(y@)));
            }
            return false;
        }
        i = i + 1;
    }
    let mut j: usize = 0;
    while j < y.len()
        invariant
            j <= y@.len(),
            forall|k: int| 0 <= k < j ==> member_covers(models(x@), #[trigger] models(y@)[k]),
        decreases y@.len() - j,
    {
        let mut i2: usize = 0;
        let mut found = false;
        while i2 < x.len() && !found
            invariant
                i2 <= x@.len(),
                j < y@.len(),
                found ==> member_covers(models(x@), models(y@)[j as int]),
                !found ==> forall|k: int| 0 <= k < i2 ==> !vequiv(
                    #[trigger] models(x@)[k],
                    models(y@)[j as int],
                ),
            decreases x@.len() - i2 + (if found { 0int } else { 1int }),
        {
            if equiv(&x[i2], &y[j]) {
                proof {
                    assert(models(x@)[i2 as int] == model(x@[i2 as int]));
                }
                found = true;
            } else {
                i2 = i2 + 1;
            }
        }
        if !found {
            proof {
                assert(!member_covers(models(x@), models(y@)[j as int]));
            }
            return false;
        }
        j = j + 1;
    }
    true
}

} // verus!
