//! Runtime values: a closed tagged union shared by the compiler and the
//! virtual machine.

use crate::bigint::BigInt;
use vstd::prelude::*;

verus! {

/// A runtime value.  Floating-point values are carried as their raw
/// IEEE-754 bit patterns; all floating-point arithmetic is delegated to the
/// host driving the virtual machine.
#[derive(Debug, PartialEq)]
pub enum Value {
    Integer(i64),
    BigInteger(BigInt),
    Float(u64),
    String(String),
    Boolean(bool),
    Null,
    Array(FlowArray),
    Object(FlowObject),
    BytecodeFunction { address: usize, arity: usize, locals_count: usize },
}

/// An ordered, growable sequence of values.
#[derive(Debug, PartialEq)]
pub struct FlowArray {
    pub elements: Vec<Value>,
}

/// A string-keyed mapping of values, kept as an association list in
/// insertion order with unique keys.
#[derive(Debug, PartialEq)]
pub struct FlowObject {
    pub properties: Vec<(String, Value)>,
}

pub enum ValueModel {
    Int(int),
    Big(int),
    Float(u64),
    Str(Seq<char>),
    Bool(bool),
    Null,
    Arr(Seq<ValueModel>),
    Obj(Seq<(Seq<char>, ValueModel)>),
    Func { address: int, arity: int, locals_count: int },
}

pub open spec fn vabs(v: Value) -> ValueModel
    decreases v,
    via vabs_decreases
{
    match v {
        Value::Integer(i) => ValueModel::Int(i as int),
        Value::BigInteger(b) => ValueModel::Big(b@),
        Value::Float(bits) => ValueModel::Float(bits),
        Value::String(s) => ValueModel::Str(s@),
        Value::Boolean(b) => ValueModel::Bool(b),
        Value::Null => ValueModel::Null,
        Value::Array(a) => ValueModel::Arr(vabs_seq(a.elements@)),
        Value::Object(o) => ValueModel::Obj(vabs_props(o.properties@)),
        Value::BytecodeFunction { address, arity, locals_count } => ValueModel::Func {
            address: address as int,
            arity: arity as int,
            locals_count: locals_count as int,
        },
    }
}

pub open spec fn vabs_seq(s: Seq<Value>) -> Seq<ValueModel>
    decreases s,
    via vabs_seq_decreases
{
    if s.len() == 0 {
        Seq::empty()
    } else {
        seq![vabs(s[0])] + vabs_seq(s.subrange(1, s.len() as int))
    }
}

pub open spec fn vabs_props(s: Seq<(String, Value)>) -> Seq<(Seq<char>, ValueModel)>
    decreases s,
    via vabs_props_decreases
{
    if s.len() == 0 {
        Seq::empty()
    } else {
        seq![(s[0].0@, vabs(s[0].1))] + vabs_props(s.subrange(1, s.len() as int))
    }
}

#[via_fn]
proof fn vabs_decreases(v: Value) {
    match v {
        Value::Array(a) => {
            assert(decreases_to!(v => a.elements@)) by {
                assert(decreases_to!(v => a));
                assert(decreases_to!(a => a.elements));
                assert(decreases_to!(a.elements => a.elements@));
            }
        },
        Value::Object(o) => {
            assert(decreases_to!(v => o.properties@)) by {
                assert(decreases_to!(v => o));
                assert(decreases_to!(o => o.properties));
                assert(decreases_to!(o.properties => o.properties@));
            }
        },
        _ => {},
    }
}

#[via_fn]
proof fn vabs_seq_decreases(s: Seq<Value>) {
    if s.len() > 0 {
        assert(decreases_to!(s => s[0]));
        assert(decreases_to!(s => s.subrange(1, s.len() as int)));
    }
}

#[via_fn]
proof fn vabs_props_decreases(s: Seq<(String, Value)>) {
    if s.len() > 0 {
        assert(decreases_to!(s => s[0].1)) by {
            assert(decreases_to!(s => s[0]));
            assert(decreases_to!(s[0] => s[0].1));
        }
        assert(decreases_to!(s => s.subrange(1, s.len() as int)));
    }
}

/// Facts relating the element-wise views to indexing.
pub proof fn lemma_vabs_seq_index(s: Seq<Value>)
    ensures
        vabs_seq(s).len() == s.len(),
        forall|i: int| 0 <= i < s.len() ==> vabs_seq(s)[i] == vabs(#[trigger] s[i]),
    decreases s,
{
    if s.len() > 0 {
        lemma_vabs_seq_index(s.subrange(1, s.len() as int));
        assert(forall|i: int|
            1 <= i < s.len() ==> s.subrange(1, s.len() as int)[i - 1] == #[trigger] s[i]);
    }
}

pub proof fn lemma_vabs_props_index(s: Seq<(String, Value)>)
    ensures
        vabs_props(s).len() == s.len(),
        forall|i: int|
            0 <= i < s.len() ==> vabs_props(s)[i] == ((#[trigger] s[i]).0@, vabs(s[i].1)),
    decreases s,
{
    if s.len() > 0 {
        lemma_vabs_props_index(s.subrange(1, s.len() as int));
        assert(forall|i: int|
            1 <= i < s.len() ==> s.subrange(1, s.len() as int)[i - 1] == #[trigger] s[i]);
    }
}

/// Appending an element appends its view.
pub proof fn lemma_vabs_seq_push(s: Seq<Value>, v: Value)
    ensures
        vabs_seq(s.push(v)) == vabs_seq(s).push(vabs(v)),
{
    lemma_vabs_seq_index(s);
    lemma_vabs_seq_index(s.push(v));
    assert forall|k: int| 0 <= k < s.len() + 1 implies vabs_seq(s.push(v))[k] == vabs_seq(
        s,
    ).push(vabs(v))[k] by {
        if k < s.len() {
            assert(s.push(v)[k] == s[k]);
        } else {
            assert(s.push(v)[k] == v);
        }
    }
    assert(vabs_seq(s.push(v)) =~= vabs_seq(s).push(vabs(v)));
}

/// Updating an element updates its view.
pub proof fn lemma_vabs_seq_update(s: Seq<Value>, k: int, v: Value)
    requires
        0 <= k < s.len(),
    ensures
        vabs_seq(s.update(k, v)) == vabs_seq(s).update(k, vabs(v)),
{
    lemma_vabs_seq_index(s);
    lemma_vabs_seq_index(s.update(k, v));
    assert forall|i: int| 0 <= i < s.len() implies vabs_seq(s.update(k, v))[i] == vabs_seq(
        s,
    ).update(k, vabs(v))[i] by {
        if i == k {
            assert(s.update(k, v)[i] == v);
        } else {
            assert(s.update(k, v)[i] == s[i]);
        }
    }
    assert(vabs_seq(s.update(k, v)) =~= vabs_seq(s).update(k, vabs(v)));
}

/// Taking a subrange commutes with the element-wise view.
pub proof fn lemma_vabs_seq_subrange(s: Seq<Value>, i: int, j: int)
    requires
        0 <= i <= j <= s.len(),
    ensures
        vabs_seq(s.subrange(i, j)) == vabs_seq(s).subrange(i, j),
{
    lemma_vabs_seq_index(s);
    lemma_vabs_seq_index(s.subrange(i, j));
    assert forall|k: int| 0 <= k < j - i implies vabs_seq(s.subrange(i, j))[k] == vabs_seq(
        s,
    ).subrange(i, j)[k] by {
        assert(s.subrange(i, j)[k] == s[i + k]);
    }
    assert(vabs_seq(s.subrange(i, j)) =~= vabs_seq(s).subrange(i, j));
}

pub proof fn lemma_vabs_props_push(s: Seq<(String, Value)>, key: String, v: Value)
    ensures
        vabs_props(s.push((key, v))) == vabs_props(s).push((key@, vabs(v))),
{
    lemma_vabs_props_index(s);
    lemma_vabs_props_index(s.push((key, v)));
    assert forall|i: int| 0 <= i < s.len() + 1 implies vabs_props(s.push((key, v)))[i]
        == vabs_props(s).push((key@, vabs(v)))[i] by {
        if i < s.len() {
            assert(s.push((key, v))[i] == s[i]);
        } else {
            assert(s.push((key, v))[i] == (key, v));
        }
    }
    assert(vabs_props(s.push((key, v))) =~= vabs_props(s).push((key@, vabs(v))));
}

pub proof fn lemma_vabs_props_update(s: Seq<(String, Value)>, k: int, key: String, v: Value)
    requires
        0 <= k < s.len(),
    ensures
        vabs_props(s.update(k, (key, v))) == vabs_props(s).update(k, (key@, vabs(v))),
{
    lemma_vabs_props_index(s);
    lemma_vabs_props_index(s.update(k, (key, v)));
    assert forall|i: int| 0 <= i < s.len() implies vabs_props(s.update(k, (key, v)))[i]
        == vabs_props(s).update(k, (key@, vabs(v)))[i] by {
        if i == k {
            assert(s.update(k, (key, v))[i] == (key, v));
        } else {
            assert(s.update(k, (key, v))[i] == s[i]);
        }
    }
    assert(vabs_props(s.update(k, (key, v))) =~= vabs_props(s).update(k, (key@, vabs(v))));
}

/// Well-formedness of a value: embedded big integers are canonical and
/// object keys are unique, recursively.
pub open spec fn value_wf(v: Value) -> bool
    decreases v,
    via value_wf_decreases
{
    match v {
        Value::BigInteger(b) => b.wf(),
        Value::Array(a) => seq_value_wf(a.elements@),
        Value::Object(o) => props_value_wf(o.properties@) && unique_keys(o.properties@),
        _ => true,
    }
}

pub open spec fn seq_value_wf(s: Seq<Value>) -> bool
    decreases s,
    via seq_value_wf_decreases
{
    if s.len() == 0 {
        true
    } else {
        value_wf(s[0]) && seq_value_wf(s.subrange(1, s.len() as int))
    }
}

pub open spec fn props_value_wf(s: Seq<(String, Value)>) -> bool
    decreases s,
    via props_value_wf_decreases
{
    if s.len() == 0 {
        true
    } else {
        value_wf(s[0].1) && props_value_wf(s.subrange(1, s.len() as int))
    }
}

/// No two properties share a key.
pub open spec fn unique_keys(s: Seq<(String, Value)>) -> bool {
    forall|i: int, j: int| 0 <= i < j < s.len() ==> (#[trigger] s[i]).0@ != (#[trigger] s[j]).0@
}

#[via_fn]
proof fn value_wf_decreases(v: Value) {
    match v {
        Value::Array(a) => {
            assert(decreases_to!(v => a.elements@)) by {
                assert(decreases_to!(v => a));
                assert(decreases_to!(a => a.elements));
                assert(decreases_to!(a.elements => a.elements@));
            }
        },
        Value::Object(o) => {
            assert(decreases_to!(v => o.properties@)) by {
                assert(decreases_to!(v => o));
                assert(decreases_to!(o => o.properties));
                assert(decreases_to!(o.properties => o.properties@));
            }
        },
        _ => {},
    }
}

#[via_fn]
proof fn seq_value_wf_decreases(s: Seq<Value>) {
    if s.len() > 0 {
        assert(decreases_to!(s => s[0]));
        assert(decreases_to!(s => s.subrange(1, s.len() as int)));
    }
}

#[via_fn]
proof fn props_value_wf_decreases(s: Seq<(String, Value)>) {
    if s.len() > 0 {
        assert(decreases_to!(s => s[0].1)) by {
            assert(decreases_to!(s => s[0]));
            assert(decreases_to!(s[0] => s[0].1));
        }
        assert(decreases_to!(s => s.subrange(1, s.len() as int)));
    }
}

/// Element-wise well-formedness is just well-formedness of every element.
pub proof fn lemma_seq_value_wf_index(s: Seq<Value>)
    ensures
        seq_value_wf(s) <==> forall|i: int| 0 <= i < s.len() ==> value_wf(#[trigger] s[i]),
    decreases s,
{
    if s.len() > 0 {
        lemma_seq_value_wf_index(s.subrange(1, s.len() as int));
        assert(forall|i: int|
            1 <= i < s.len() ==> s.subrange(1, s.len() as int)[i - 1] == #[trigger] s[i]);
    }
}

pub proof fn lemma_props_value_wf_index(s: Seq<(String, Value)>)
    ensures
        props_value_wf(s) <==> forall|i: int|
            0 <= i < s.len() ==> value_wf((#[trigger] s[i]).1),
    decreases s,
{
    if s.len() > 0 {
        lemma_props_value_wf_index(s.subrange(1, s.len() as int));
        assert(forall|i: int|
            1 <= i < s.len() ==> s.subrange(1, s.len() as int)[i - 1] == #[trigger] s[i]);
    }
}

/// The runtime type name of a value at the model level.
pub open spec fn model_kind_name(v: ValueModel) -> Seq<char> {
    match v {
        ValueModel::Int(_) => seq!['i', 'n', 't', 'e', 'g', 'e', 'r'],
        ValueModel::Big(_) => seq!['b', 'i', 'g', 'i', 'n', 't', 'e', 'g', 'e', 'r'],
        ValueModel::Float(_) => seq!['f', 'l', 'o', 'a', 't'],
        ValueModel::Str(_) => seq!['s', 't', 'r', 'i', 'n', 'g'],
        ValueModel::Bool(_) => seq!['b', 'o', 'o', 'l', 'e', 'a', 'n'],
        ValueModel::Null => seq!['n', 'u', 'l', 'l'],
        ValueModel::Arr(_) => seq!['a', 'r', 'r', 'a', 'y'],
        ValueModel::Obj(_) => seq!['o', 'b', 'j', 'e', 'c', 't'],
        ValueModel::Func { .. } => seq!['f', 'u', 'n', 'c', 't', 'i', 'o', 'n'],
    }
}

/// Truthiness: `false`, `null`, zero in any numeric form, the empty
/// string, the empty array and the empty object are falsy; everything
/// else, functions included, is truthy.  A float is falsy exactly when its
/// bit pattern is positive or negative IEEE-754 zero, the only patterns
/// that compare equal to 0.0.
pub open spec fn spec_truthy(v: Value) -> bool {
    match v {
        Value::Boolean(b) => b,
        Value::Null => false,
        Value::Integer(i) => i != 0,
        Value::BigInteger(b) => b@ != 0,
        Value::Float(bits) => bits != 0 && bits != 0x8000_0000_0000_0000,
        Value::String(s) => s@.len() != 0,
        Value::Array(a) => a.elements@.len() != 0,
        Value::Object(o) => o.properties@.len() != 0,
        Value::BytecodeFunction { .. } => true,
    }
}

impl Value {
    /// Whether this value counts as true in a condition.
    pub fn is_truthy(&self) -> (r: bool)
        requires
            value_wf(*self),
        ensures
            r == spec_truthy(*self),
    {
        match self {
            Value::Boolean(b) => *b,
            Value::Null => false,
            Value::Integer(i) => *i != 0,
            Value::BigInteger(b) => !b.is_zero(),
            Value::Float(bits) => *bits != 0 && *bits != 0x8000_0000_0000_0000,
            Value::String(s) => s.unicode_len() != 0,
            Value::Array(a) => a.elements.len() != 0,
            Value::Object(o) => o.properties.len() != 0,
            Value::BytecodeFunction { .. } => true,
        }
    }

    /// The name of this value's runtime type.
    pub fn kind_name(&self) -> (r: &'static str)
        ensures
            r@ == model_kind_name(vabs(*self)),
    {
        proof {
            reveal_strlit("integer");
            reveal_strlit("biginteger");
            reveal_strlit("float");
            reveal_strlit("string");
            reveal_strlit("boolean");
            reveal_strlit("null");
            reveal_strlit("array");
            reveal_strlit("object");
            reveal_strlit("function");
            assert(("integer")@ =~= seq!['i', 'n', 't', 'e', 'g', 'e', 'r']);
            assert(("biginteger")@ =~= seq!['b', 'i', 'g', 'i', 'n', 't', 'e', 'g', 'e', 'r']);
            assert(("float")@ =~= seq!['f', 'l', 'o', 'a', 't']);
            assert(("string")@ =~= seq!['s', 't', 'r', 'i', 'n', 'g']);
            assert(("boolean")@ =~= seq!['b', 'o', 'o', 'l', 'e', 'a', 'n']);
            assert(("null")@ =~= seq!['n', 'u', 'l', 'l']);
            assert(("array")@ =~= seq!['a', 'r', 'r', 'a', 'y']);
            assert(("object")@ =~= seq!['o', 'b', 'j', 'e', 'c', 't']);
            assert(("function")@ =~= seq!['f', 'u', 'n', 'c', 't', 'i', 'o', 'n']);
        }
        match self {
            Value::Integer(_) => "integer",
            Value::BigInteger(_) => "biginteger",
            Value::Float(_) => "float",
            Value::String(_) => "string",
            Value::Boolean(_) => "boolean",
            Value::Null => "null",
            Value::Array(_) => "array",
            Value::Object(_) => "object",
            Value::BytecodeFunction { .. } => "function",
        }
    }
}

/// Deep copy of a value, preserving its abstract view and its
/// well-formedness.
pub fn clone_value(v: &Value) -> (r: Value)
    ensures
        vabs(r) == vabs(*v),
        value_wf(*v) ==> value_wf(r),
    decreases *v,
{
    match v {
        Value::Integer(i) => Value::Integer(*i),
        Value::BigInteger(b) => Value::BigInteger(b.clone()),
        Value::Float(bits) => Value::Float(*bits),
        Value::String(s) => Value::String(s.clone()),
        Value::Boolean(b) => Value::Boolean(*b),
        Value::Null => Value::Null,
        Value::Array(a) => {
            let mut elements: Vec<Value> = Vec::new();
            let n = a.elements.len();
            let mut i: usize = 0;
            proof {
                lemma_vabs_seq_index(a.elements@);
                lemma_seq_value_wf_index(a.elements@);
            }
            while i < n
                invariant
                    (*v) is Array,
                    *a == (*v)->Array_0,
                    i <= n,
                    n == a.elements@.len(),
                    elements@.len() == i,
                    vabs_seq(elements@) == vabs_seq(a.elements@).subrange(0, i as int),
                    seq_value_wf(a.elements@) ==> seq_value_wf(elements@),
                    vabs_seq(a.elements@).len() == n,
                    forall|k: int|
                        0 <= k < n ==> vabs_seq(a.elements@)[k] == vabs(
                            #[trigger] a.elements@[k],
                        ),
                    seq_value_wf(a.elements@) ==> forall|k: int|
                        0 <= k < n ==> value_wf(#[trigger] a.elements@[k]),
                decreases n - i,
            {
                proof {
                    assert((*v) is Array);
                    assert(*a == (*v)->Array_0);
                    assert(decreases_to!((*v) => (*v)->Array_0));
                    assert(decreases_to!(*a => a.elements));
                    assert(decreases_to!(a.elements => a.elements@));
                    assert(decreases_to!(a.elements@ => a.elements@[i as int]));
                    assert(decreases_to!(*v => a.elements@[i as int]));
                }
                let e = clone_value(&a.elements[i]);
                let ghost old_elements = elements@;
                elements.push(e);
                proof {
                    lemma_vabs_seq_push(old_elements, e);
                    assert(vabs_seq(elements@) =~= vabs_seq(a.elements@).subrange(
                        0,
                        i + 1,
                    ));
                    if seq_value_wf(a.elements@) {
                        lemma_seq_value_wf_index(old_elements);
                        lemma_seq_value_wf_index(elements@);
                        assert(forall|k: int|
                            0 <= k < old_elements.len() ==> elements@[k] == #[trigger] old_elements[k]);
                    }
                }
                i = i + 1;
            }
            proof {
                assert(vabs_seq(a.elements@).subrange(0, n as int) =~= vabs_seq(
                    a.elements@,
                ));
            }
            Value::Array(FlowArray { elements })
        },
        Value::Object(o) => {
            let mut properties: Vec<(String, Value)> = Vec::new();
            let n = o.properties.len();
            let mut i: usize = 0;
            proof {
                lemma_vabs_props_index(o.properties@);
                lemma_props_value_wf_index(o.properties@);
            }
            while i < n
                invariant
                    (*v) is Object,
                    *o == (*v)->Object_0,
                    i <= n,
                    n == o.properties@.len(),
                    properties@.len() == i,
                    forall|k: int|
                        0 <= k < i ==> (#[trigger] properties@[k]).0@ == o.properties@[k].0@
                            && vabs(properties@[k].1) == vabs(o.properties@[k].1),
                    props_value_wf(o.properties@) ==> forall|k: int|
                        0 <= k < i ==> value_wf((#[trigger] properties@[k]).1),
                    props_value_wf(o.properties@) ==> forall|k: int|
                        0 <= k < n ==> value_wf((#[trigger] o.properties@[k]).1),
                decreases n - i,
            {
                proof {
                    assert((*v) is Object);
                    assert(*o == (*v)->Object_0);
                    assert(decreases_to!((*v) => (*v)->Object_0));
                    assert(decreases_to!(*o => o.properties));
                    assert(decreases_to!(o.properties => o.properties@));
                    assert(decreases_to!(o.properties@ => o.properties@[i as int]));
                    assert(decreases_to!(o.properties@[i as int] => o.properties@[i as int].1));
                    assert(decreases_to!(*v => o.properties@[i as int].1));
                }
                let pair = &o.properties[i];
                let key = pair.0.clone();
                let val = clone_value(&pair.1);
                properties.push((key, val));
                i = i + 1;
            }
            proof {
                lemma_vabs_props_index(properties@);
                lemma_vabs_props_index(o.properties@);
                assert forall|k: int| 0 <= k < n implies vabs_props(properties@)[k]
                    == vabs_props(o.properties@)[k] by {
                    assert(properties@[k].0@ == o.properties@[k].0@);
                    assert(vabs(properties@[k].1) == vabs(o.properties@[k].1));
                }
                assert(vabs_props(properties@) =~= vabs_props(o.properties@));
                lemma_props_value_wf_index(properties@);
                if value_wf(*v) {
                    assert(unique_keys(properties@));
                }
            }
            Value::Object(FlowObject { properties })
        },
        Value::BytecodeFunction { address, arity, locals_count } => Value::BytecodeFunction {
            address: *address,
            arity: *arity,
            locals_count: *locals_count,
        },
    }
}

impl Clone for Value {
    /// Deep copy; see `clone_value`.
    fn clone(&self) -> (r: Self)
        ensures
            vabs(r) == vabs(*self),
            value_wf(*self) ==> value_wf(r),
    {
        clone_value(self)
    }
}

impl FlowArray {
    /// The empty array.
    pub fn new() -> (r: FlowArray)
        ensures
            r.elements@.len() == 0,
    {
        FlowArray { elements: Vec::new() }
    }

    /// Number of elements.
    pub fn len(&self) -> (r: usize)
        ensures
            r == self.elements@.len(),
    {
        self.elements.len()
    }
}

impl FlowObject {
    /// The empty object.
    pub fn new() -> (r: FlowObject)
        ensures
            r.properties@.len() == 0,
    {
        FlowObject { properties: Vec::new() }
    }

    /// Number of properties.
    pub fn len(&self) -> (r: usize)
        ensures
            r == self.properties@.len(),
    {
        self.properties.len()
    }
}

} // verus!
