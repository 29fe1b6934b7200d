//! The in-memory instance value the codec reads and reconstructs.
//!
//! Integer fields hold the unsigned wire value of their width (a signed
//! field's two's-complement bit pattern); float fields hold the IEEE-754 bit
//! pattern; text holds the raw UTF-8 bytes without the terminator.
use vstd::prelude::*;

verus! {

/// One in-memory value: a record holds one entry per non-reserved,
/// non-length attribute, in resolved wire order.
#[derive(Debug, PartialEq)]
pub enum Value {
    Integer(u128),
    Float(u64),
    Text(Vec<u8>),
    List(Vec<Value>),
    Record(Vec<Value>),
}

/// Mathematical model of [`Value`].
#[verifier::ext_equal]
pub enum ValueV {
    Integer(u128),
    Float(u64),
    Text(Seq<u8>),
    List(Seq<ValueV>),
    Record(Seq<ValueV>),
}

/// The model of a value.
pub open spec fn view_value(v: Value) -> ValueV
    decreases v, 0int,
{
    match v {
        Value::Integer(n) => ValueV::Integer(n),
        Value::Float(b) => ValueV::Float(b),
        Value::Text(bs) => ValueV::Text(bs@),
        Value::List(items) => ValueV::List(view_values(items@)),
        Value::Record(fields) => ValueV::Record(view_values(fields@)),
    }
}

/// The models of a sequence of values, elementwise.
pub open spec fn view_values(s: Seq<Value>) -> Seq<ValueV>
    decreases s, s.len(),
{
    if s.len() == 0 {
        Seq::empty()
    } else {
        seq![view_value(s[0])] + view_values(s.drop_first())
    }
}

impl DeepView for Value {
    type V = ValueV;

    open spec fn deep_view(&self) -> ValueV {
        view_value(*self)
    }
}

/// The value models line up with the values, index by index.
pub proof fn lemma_view_values(s: Seq<Value>)
    ensures
        view_values(s).len() == s.len(),
        forall|i: int| 0 <= i < s.len() ==> #[trigger] view_values(s)[i] == view_value(s[i]),
    decreases s.len(),
{
    if s.len() > 0 {
        lemma_view_values(s.drop_first());
        assert forall|i: int|
            0 <= i < s.len() implies #[trigger] view_values(s)[i] == view_value(s[i]) by {
            if i > 0 {
                assert(view_values(s)[i] == view_values(s.drop_first())[i - 1]);
                assert(s.drop_first()[i - 1] == s[i]);
            }
        }
    }
}

} // verus!
