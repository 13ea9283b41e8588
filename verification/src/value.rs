//! The generic value tree that the flattener consumes, and its mathematical model.

use vstd::prelude::*;

verus! {

/// A recursive tagged value: scalars, ordered sequences and keyed maps.
///
/// Floating-point payloads are carried as their IEEE-754 bit patterns, so a
/// value can be copied and compared without any floating-point arithmetic.
/// A map holds its pairs in iteration order.
#[derive(Debug, PartialEq)]
pub enum Value {
    Bool(bool),
    U8(u8),
    U16(u16),
    U32(u32),
    U64(u64),
    I8(i8),
    I16(i16),
    I32(i32),
    I64(i64),
    /// Bit pattern of a 32-bit float.
    F32(u32),
    /// Bit pattern of a 64-bit float.
    F64(u64),
    Char(char),
    String(String),
    Unit,
    Sequence(Vec<Value>),
    Mapping(Vec<(Value, Value)>),
    Bytes(Vec<u8>),
}

/// The mathematical model of a [`Value`].
pub enum ValueView {
    Bool(bool),
    U8(u8),
    U16(u16),
    U32(u32),
    U64(u64),
    I8(i8),
    I16(i16),
    I32(i32),
    I64(i64),
    F32(u32),
    F64(u64),
    Char(char),
    String(Seq<char>),
    Unit,
    Sequence(Seq<ValueView>),
    Mapping(Seq<(ValueView, ValueView)>),
    Bytes(Seq<u8>),
}

impl ValueView {
    /// A leaf is any value that is neither a sequence nor a map.
    pub open spec fn is_leaf(self) -> bool {
        !(self is Sequence) && !(self is Mapping)
    }
}

/// The model of a value.
pub open spec fn model_of(v: Value) -> ValueView
    decreases v, 0nat,
{
    match v {
        Value::Bool(b) => ValueView::Bool(b),
        Value::U8(n) => ValueView::U8(n),
        Value::U16(n) => ValueView::U16(n),
        Value::U32(n) => ValueView::U32(n),
        Value::U64(n) => ValueView::U64(n),
        Value::I8(n) => ValueView::I8(n),
        Value::I16(n) => ValueView::I16(n),
        Value::I32(n) => ValueView::I32(n),
        Value::I64(n) => ValueView::I64(n),
        Value::F32(bits) => ValueView::F32(bits),
        Value::F64(bits) => ValueView::F64(bits),
        Value::Char(c) => ValueView::Char(c),
        Value::String(s) => ValueView::String(s@),
        Value::Unit => ValueView::Unit,
        Value::Sequence(items) => ValueView::Sequence(models_of(items@, items@.len())),
        Value::Mapping(pairs) => ValueView::Mapping(pair_models_of(pairs@, pairs@.len())),
        Value::Bytes(b) => ValueView::Bytes(b@),
    }
}

/// The models of the first `n` values of `items`.
pub open spec fn models_of(items: Seq<Value>, n: nat) -> Seq<ValueView>
    decreases items, n,
{
    if n == 0 || n > items.len() {
        Seq::empty()
    } else {
        models_of(items, (n - 1) as nat).push(model_of(items[n - 1]))
    }
}

/// The models of the first `n` pairs of `pairs`.
pub open spec fn pair_models_of(pairs: Seq<(Value, Value)>, n: nat) -> Seq<(ValueView, ValueView)>
    decreases pairs, n,
{
    if n == 0 || n > pairs.len() {
        Seq::empty()
    } else {
        pair_models_of(pairs, (n - 1) as nat).push(
            (model_of(pairs[n - 1].0), model_of(pairs[n - 1].1)),
        )
    }
}

/// The number of leaves in a tree; an empty sequence or map has none.
pub open spec fn leaf_count(v: ValueView) -> nat
    decreases v, 0nat,
{
    match v {
        ValueView::Sequence(items) => items_leaf_count(items, items.len()),
        ValueView::Mapping(pairs) => pairs_leaf_count(pairs, pairs.len()),
        _ => 1,
    }
}

/// The number of leaves below the first `n` items of a sequence.
pub open spec fn items_leaf_count(items: Seq<ValueView>, n: nat) -> nat
    decreases items, n,
{
    if n == 0 || n > items.len() {
        0
    } else {
        items_leaf_count(items, (n - 1) as nat) + leaf_count(items[n - 1])
    }
}

/// The number of leaves below the values of the first `n` pairs of a map.
pub open spec fn pairs_leaf_count(pairs: Seq<(ValueView, ValueView)>, n: nat) -> nat
    decreases pairs, n,
{
    if n == 0 || n > pairs.len() {
        0
    } else {
        pairs_leaf_count(pairs, (n - 1) as nat) + leaf_count(pairs[n - 1].1)
    }
}

impl View for Value {
    type V = ValueView;

    open spec fn view(&self) -> ValueView {
        model_of(*self)
    }
}

/// The model of a sequence holds the model of each item, position by position.
pub proof fn lemma_models_of(items: Seq<Value>, n: nat)
    requires
        n <= items.len(),
    ensures
        models_of(items, n).len() == n,
        forall|j: int| 0 <= j < n ==> (#[trigger] models_of(items, n)[j]) == items[j]@,
    decreases n,
{
    if n > 0 {
        lemma_models_of(items, (n - 1) as nat);
    }
}

/// The model of a map holds the models of each pair, position by position.
pub proof fn lemma_pair_models_of(pairs: Seq<(Value, Value)>, n: nat)
    requires
        n <= pairs.len(),
    ensures
        pair_models_of(pairs, n).len() == n,
        forall|j: int|
            0 <= j < n ==> (#[trigger] pair_models_of(pairs, n)[j]) == (pairs[j].0@, pairs[j].1@),
    decreases n,
{
    if n > 0 {
        lemma_pair_models_of(pairs, (n - 1) as nat);
    }
}

impl Value {
    /// True when the value is a scalar: neither a sequence nor a map.
    pub fn is_leaf(&self) -> (r: bool)
        ensures
            r == self@.is_leaf(),
    {
        match self {
            Value::Sequence(_) => false,
            Value::Mapping(_) => false,
            _ => true,
        }
    }

    /// An independent copy of the whole tree.
    pub fn duplicate(&self) -> (r: Value)
        ensures
            r@ == self@,
        decreases self,
    {
        match self {
            Value::Bool(b) => Value::Bool(*b),
            Value::U8(n) => Value::U8(*n),
            Value::U16(n) => Value::U16(*n),
            Value::U32(n) => Value::U32(*n),
            Value::U64(n) => Value::U64(*n),
            Value::I8(n) => Value::I8(*n),
            Value::I16(n) => Value::I16(*n),
            Value::I32(n) => Value::I32(*n),
            Value::I64(n) => Value::I64(*n),
            Value::F32(bits) => Value::F32(*bits),
            Value::F64(bits) => Value::F64(*bits),
            Value::Char(c) => Value::Char(*c),
            Value::String(s) => Value::String(s.clone()),
            Value::Unit => Value::Unit,
            Value::Sequence(items) => {
                let mut out: Vec<Value> = Vec::new();
                let mut i: usize = 0;
                while i < items.len()
                    invariant
                        *self == Value::Sequence(*items),
                        i <= items.len(),
                        out.len() == i,
                        forall|j: int| 0 <= j < i ==> out[j]@ == items[j]@,
                    decreases items.len() - i,
                {
                    assert(decreases_to!(self => self->Sequence_0));
                    assert(decreases_to!(*items => items[i as int]));
                    out.push(items[i].duplicate());
                    i += 1;
                }
                let r = Value::Sequence(out);
                proof {
                    lemma_models_of(out@, out@.len());
                    lemma_models_of(items@, items@.len());
                }
                assert(r@->Sequence_0 =~= self@->Sequence_0);
                r
            },
            Value::Mapping(pairs) => {
                let mut out: Vec<(Value, Value)> = Vec::new();
                let mut i: usize = 0;
                while i < pairs.len()
                    invariant
                        *self == Value::Mapping(*pairs),
                        i <= pairs.len(),
                        out.len() == i,
                        forall|j: int|
                            0 <= j < i ==> out[j].0@ == pairs[j].0@ && out[j].1@ == pairs[j].1@,
                    decreases pairs.len() - i,
                {
                    assert(decreases_to!(self => self->Mapping_0));
                    assert(decreases_to!(*pairs => pairs[i as int]));
                    assert(decreases_to!(pairs[i as int] => pairs[i as int].0));
                    assert(decreases_to!(pairs[i as int] => pairs[i as int].1));
                    let k = pairs[i].0.duplicate();
                    let v = pairs[i].1.duplicate();
                    out.push((k, v));
                    i += 1;
                }
                let r = Value::Mapping(out);
                proof {
                    lemma_pair_models_of(out@, out@.len());
                    lemma_pair_models_of(pairs@, pairs@.len());
                }
                assert(r@->Mapping_0 =~= self@->Mapping_0);
                r
            },
            Value::Bytes(b) => {
                let mut out: Vec<u8> = Vec::new();
                let mut i: usize = 0;
                while i < b.len()
                    invariant
                        i <= b.len(),
                        out@ == b@.take(i as int),
                    decreases b.len() - i,
                {
                    out.push(b[i]);
                    assert(b@.take(i + 1) =~= b@.take(i as int).push(b@[i as int]));
                    i += 1;
                }
                assert(b@.take(b.len() as int) =~= b@);
                Value::Bytes(out)
            },
        }
    }
}

} // verus!
