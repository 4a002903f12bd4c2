use vstd::prelude::*;

verus! {

/// A JSON-like value tree.
///
/// A number is held as the bit pattern of its IEEE-754 double
/// (`f64::to_bits` / `f64::from_bits`), so that two numbers are equal exactly
/// when their encodings are.
#[derive(Debug, PartialEq)]
pub enum JValue {
    Object(Vec<(String, JValue)>),
    Array(Vec<JValue>),
    String(String),
    Number(u64),
    True,
    False,
    Null,
}

/// The mathematical model of a `JValue`: texts are sequences of characters and
/// collections are sequences, in their order.
pub enum SpecValue {
    Object(Seq<(Seq<char>, SpecValue)>),
    Array(Seq<SpecValue>),
    Text(Seq<char>),
    Number(u64),
    True,
    False,
    Null,
}

pub open spec fn view_value(v: JValue) -> SpecValue
    decreases v,
{
    match v {
        JValue::Object(pairs) => SpecValue::Object(view_pairs(pairs@)),
        JValue::Array(items) => SpecValue::Array(view_items(items@)),
        JValue::String(s) => SpecValue::Text(s@),
        JValue::Number(bits) => SpecValue::Number(bits),
        JValue::True => SpecValue::True,
        JValue::False => SpecValue::False,
        JValue::Null => SpecValue::Null,
    }
}

pub open spec fn view_items(s: Seq<JValue>) -> Seq<SpecValue>
    decreases s,
{
    if s.len() == 0 {
        Seq::empty()
    } else {
        view_items(s.subrange(0, s.len() - 1)).push(view_value(s[s.len() - 1]))
    }
}

pub open spec fn view_pairs(s: Seq<(String, JValue)>) -> Seq<(Seq<char>, SpecValue)>
    decreases s,
{
    if s.len() == 0 {
        Seq::empty()
    } else {
        view_pairs(s.subrange(0, s.len() - 1)).push(
            (s[s.len() - 1].0@, view_value(s[s.len() - 1].1)),
        )
    }
}

/// How deeply arrays and objects nest in `v`: zero for a scalar, one for an
/// array or object of scalars.
pub open spec fn nesting(v: SpecValue) -> nat
    decreases v,
{
    match v {
        SpecValue::Array(items) => 1 + items_nesting(items),
        SpecValue::Object(pairs) => 1 + pairs_nesting(pairs),
        _ => 0,
    }
}

pub open spec fn items_nesting(s: Seq<SpecValue>) -> nat
    decreases s,
{
    if s.len() == 0 {
        0
    } else {
        let a = items_nesting(s.subrange(0, s.len() - 1));
        let b = nesting(s[s.len() - 1]);
        if a >= b {
            a
        } else {
            b
        }
    }
}

pub open spec fn pairs_nesting(s: Seq<(Seq<char>, SpecValue)>) -> nat
    decreases s,
{
    if s.len() == 0 {
        0
    } else {
        let a = pairs_nesting(s.subrange(0, s.len() - 1));
        let b = nesting(s[s.len() - 1].1);
        if a >= b {
            a
        } else {
            b
        }
    }
}

impl View for JValue {
    type V = SpecValue;

    open spec fn view(&self) -> SpecValue {
        view_value(*self)
    }
}

pub proof fn lemma_view_items(s: Seq<JValue>)
    ensures
        view_items(s).len() == s.len(),
        forall|i: int| 0 <= i < s.len() ==> #[trigger] view_items(s)[i] == view_value(s[i]),
    decreases s.len(),
{
    if s.len() > 0 {
        let init = s.subrange(0, s.len() - 1);
        lemma_view_items(init);
        assert forall|i: int| 0 <= i < s.len() implies #[trigger] view_items(s)[i] == view_value(
            s[i],
        ) by {
            if i < s.len() - 1 {
                assert(init[i] == s[i]);
            }
        }
    }
}

pub proof fn lemma_view_pairs(s: Seq<(String, JValue)>)
    ensures
        view_pairs(s).len() == s.len(),
        forall|i: int|
            0 <= i < s.len() ==> #[trigger] view_pairs(s)[i] == (s[i].0@, view_value(s[i].1)),
    decreases s.len(),
{
    if s.len() > 0 {
        let init = s.subrange(0, s.len() - 1);
        lemma_view_pairs(init);
        assert forall|i: int| 0 <= i < s.len() implies #[trigger] view_pairs(s)[i] == (
            s[i].0@,
            view_value(s[i].1),
        ) by {
            if i < s.len() - 1 {
                assert(init[i] == s[i]);
            }
        }
    }
}

} // verus!
