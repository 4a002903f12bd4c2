use vstd::prelude::*;
use vstd::utf8::encode_utf8;

use crate::value::{view_items, view_pairs, lemma_view_items, lemma_view_pairs, JValue, SpecValue};
use crate::varint::{varint_bytes, write_length};

verus! {

pub const NULL_MARKER: u8 = 0;

pub const TRUE_MARKER: u8 = 1;

pub const FALSE_MARKER: u8 = 2;

pub const NUMBER_MARKER: u8 = 3;

pub const STRING_MARKER: u8 = 4;

pub const ARRAY_MARKER: u8 = 5;

pub const OBJECT_MARKER: u8 = 6;

/// The eight bytes of `n`, most significant first.
pub open spec fn be_bytes(n: u64) -> Seq<u8> {
    seq![
        (n >> 56) as u8,
        (n >> 48) as u8,
        (n >> 40) as u8,
        (n >> 32) as u8,
        (n >> 24) as u8,
        (n >> 16) as u8,
        (n >> 8) as u8,
        n as u8,
    ]
}

/// A text on the wire: the varint of its UTF-8 length, then its UTF-8 bytes.
pub open spec fn encode_text(s: Seq<char>) -> Seq<u8> {
    varint_bytes(encode_utf8(s).len()) + encode_utf8(s)
}

/// The encoding of a value: its tag byte, then its payload.
pub open spec fn encode_value(v: SpecValue) -> Seq<u8>
    decreases v,
{
    match v {
        SpecValue::Null => seq![NULL_MARKER],
        SpecValue::True => seq![TRUE_MARKER],
        SpecValue::False => seq![FALSE_MARKER],
        SpecValue::Number(bits) => seq![NUMBER_MARKER] + be_bytes(bits),
        SpecValue::Text(s) => seq![STRING_MARKER] + encode_text(s),
        SpecValue::Array(items) => seq![ARRAY_MARKER] + varint_bytes(items.len()) + encode_items(
            items,
        ),
        SpecValue::Object(pairs) => seq![OBJECT_MARKER] + varint_bytes(pairs.len())
            + encode_pairs(pairs),
    }
}

/// The elements of an array, encoded one after the other.
pub open spec fn encode_items(s: Seq<SpecValue>) -> Seq<u8>
    decreases s,
{
    if s.len() == 0 {
        Seq::empty()
    } else {
        encode_items(s.subrange(0, s.len() - 1)) + encode_value(s[s.len() - 1])
    }
}

/// The pairs of an object, each as its key's text and then its value.
pub open spec fn encode_pairs(s: Seq<(Seq<char>, SpecValue)>) -> Seq<u8>
    decreases s,
{
    if s.len() == 0 {
        Seq::empty()
    } else {
        encode_pairs(s.subrange(0, s.len() - 1)) + encode_text(s[s.len() - 1].0) + encode_value(
            s[s.len() - 1].1,
        )
    }
}

/// Every count and every text length in the tree fits the wire's 64-bit varints.
/// Each tree built in memory has this property (see `serialize_to`).
pub open spec fn well_formed(v: SpecValue) -> bool
    decreases v,
{
    match v {
        SpecValue::Text(s) => encode_utf8(s).len() <= u64::MAX,
        SpecValue::Array(items) => items.len() <= u64::MAX && items_well_formed(items),
        SpecValue::Object(pairs) => pairs.len() <= u64::MAX && pairs_well_formed(pairs),
        _ => true,
    }
}

pub open spec fn items_well_formed(s: Seq<SpecValue>) -> bool
    decreases s,
{
    s.len() > 0 ==> items_well_formed(s.subrange(0, s.len() - 1)) && well_formed(s[s.len() - 1])
}

pub open spec fn pairs_well_formed(s: Seq<(Seq<char>, SpecValue)>) -> bool
    decreases s,
{
    s.len() > 0 ==> pairs_well_formed(s.subrange(0, s.len() - 1)) && encode_utf8(
        s[s.len() - 1].0,
    ).len() <= u64::MAX && well_formed(s[s.len() - 1].1)
}

fn append_bytes(out: &mut Vec<u8>, bytes: &[u8])
    ensures
        final(out)@ == old(out)@ + bytes@,
{
    let mut i: usize = 0;
    while i < bytes.len()
        invariant
            i <= bytes@.len(),
            out@ == old(out)@ + bytes@.subrange(0, i as int),
        decreases bytes@.len() - i,
    {
        out.push(bytes[i]);
        i = i + 1;
        proof {
            assert(out@ =~= old(out)@ + bytes@.subrange(0, i as int));
        }
    }
    proof {
        assert(bytes@.subrange(0, i as int) =~= bytes@);
    }
}

fn write_u64_be(out: &mut Vec<u8>, n: u64)
    ensures
        final(out)@ == old(out)@ + be_bytes(n),
{
    out.push((n >> 56) as u8);
    out.push((n >> 48) as u8);
    out.push((n >> 40) as u8);
    out.push((n >> 32) as u8);
    out.push((n >> 24) as u8);
    out.push((n >> 16) as u8);
    out.push((n >> 8) as u8);
    out.push(n as u8);
    proof {
        assert(out@ =~= old(out)@ + be_bytes(n));
    }
}

/// Appends the varint of the UTF-8 length of `s` and then its UTF-8 bytes;
/// returns the number of bytes written.
pub fn write_str(out: &mut Vec<u8>, s: &str) -> (r: usize)
    ensures
        final(out)@ == old(out)@ + encode_text(s@),
        r == encode_text(s@).len(),
        encode_utf8(s@).len() <= u64::MAX,
{
    let start = out.len();
    let bytes = s.as_bytes();
    write_length(out, bytes.len() as u64);
    append_bytes(out, bytes);
    proof {
        assert(out@ =~= old(out)@ + encode_text(s@));
    }
    out.len() - start
}

/// Appends the encoding of `value` to `out`; returns the number of bytes written.
pub fn serialize_to(out: &mut Vec<u8>, value: &JValue) -> (r: usize)
    ensures
        final(out)@ == old(out)@ + encode_value(value@),
        r == encode_value(value@).len(),
        well_formed(value@),
    decreases value,
{
    let start = out.len();
    match value {
        JValue::Null => out.push(NULL_MARKER),
        JValue::True => out.push(TRUE_MARKER),
        JValue::False => out.push(FALSE_MARKER),
        JValue::Number(bits) => {
            out.push(NUMBER_MARKER);
            write_u64_be(out, *bits);
        },
        JValue::String(s) => {
            out.push(STRING_MARKER);
            write_str(out, s.as_str());
        },
        JValue::Array(values) => {
            out.push(ARRAY_MARKER);
            write_length(out, values.len() as u64);
            let ghost mid = out@;
            let ghost vs = view_items(values@);
            proof {
                lemma_view_items(values@);
                assert(vs.subrange(0, 0) =~= Seq::<SpecValue>::empty());
            }
            let mut i: usize = 0;
            while i < values.len()
                invariant
                    i <= values@.len(),
                    *value == JValue::Array(*values),
                    vs == view_items(values@),
                    vs.len() == values@.len(),
                    forall|j: int| 0 <= j < values@.len() ==> #[trigger] vs[j] == crate::value::view_value(values@[j]),
                    out@ == mid + encode_items(vs.subrange(0, i as int)),
                    items_well_formed(vs.subrange(0, i as int)),
                decreases values@.len() - i,
            {
                proof {
                    assert(decreases_to!(*value => (*value)->Array_0));
                    assert(decreases_to!(*values => values@));
                    assert(decreases_to!(values@ => values@[i as int]));
                }
                serialize_to(out, &values[i]);
                proof {
                    let next = vs.subrange(0, i + 1);
                    assert(next.subrange(0, i as int) =~= vs.subrange(0, i as int));
                    assert(next[i as int] == vs[i as int]);
                }
                i = i + 1;
            }
            proof {
                assert(vs.subrange(0, i as int) =~= vs);
            }
        },
        JValue::Object(pairs) => {
            out.push(OBJECT_MARKER);
            write_length(out, pairs.len() as u64);
            let ghost mid = out@;
            let ghost ps = view_pairs(pairs@);
            proof {
                lemma_view_pairs(pairs@);
                assert(ps.subrange(0, 0) =~= Seq::<(Seq<char>, SpecValue)>::empty());
            }
            let mut i: usize = 0;
            while i < pairs.len()
                invariant
                    i <= pairs@.len(),
                    *value == JValue::Object(*pairs),
                    ps == view_pairs(pairs@),
                    ps.len() == pairs@.len(),
                    forall|j: int|
                        0 <= j < pairs@.len() ==> #[trigger] ps[j] == (
                            pairs@[j].0@,
                            crate::value::view_value(pairs@[j].1),
                        ),
                    out@ == mid + encode_pairs(ps.subrange(0, i as int)),
                    pairs_well_formed(ps.subrange(0, i as int)),
                decreases pairs@.len() - i,
            {
                let pair = &pairs[i];
                write_str(out, pair.0.as_str());
                proof {
                    assert(decreases_to!(*value => (*value)->Object_0));
                    assert(decreases_to!(*pairs => pairs@));
                    assert(decreases_to!(pairs@ => pairs@[i as int]));
                    assert(decreases_to!(pairs@[i as int] => pairs@[i as int].1));
                }
                serialize_to(out, &pair.1);
                proof {
                    let next = ps.subrange(0, i + 1);
                    assert(next.subrange(0, i as int) =~= ps.subrange(0, i as int));
                    assert(next[i as int] == ps[i as int]);
                }
                i = i + 1;
            }
            proof {
                assert(ps.subrange(0, i as int) =~= ps);
            }
        },
    }
    proof {
        assert(out@ =~= old(out)@ + encode_value(value@));
    }
    out.len() - start
}

/// The encoding of `value` as a fresh byte vector.
pub fn encode(value: &JValue) -> (r: Vec<u8>)
    ensures
        r@ == encode_value(value@),
        well_formed(value@),
{
    let mut out: Vec<u8> = Vec::new();
    serialize_to(&mut out, value);
    proof {
        assert(out@ =~= encode_value(value@));
    }
    out
}

} // verus!
