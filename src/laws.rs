use vstd::prelude::*;
use vstd::utf8::{encode_utf8, encode_utf8_decode_utf8, encode_utf8_valid_utf8, valid_utf8};

use crate::decode::{
    be_u64, decode_spec, parse_items, parse_pairs, parse_text, parse_value, MAX_DEPTH,
};
use crate::encode::{
    be_bytes, encode_items, encode_pairs, encode_text, encode_value, items_well_formed,
    pairs_well_formed, well_formed, STRING_MARKER,
};
use crate::error::DecodeError;
use crate::value::{items_nesting, nesting, pairs_nesting, SpecValue};
use crate::varint::{lemma_parse_varint_bytes, parse_varint, varint_bytes, varint_from, MAX_VARINT_LEN};

verus! {

/// `x` stands in `b` from `pos` on.
pub open spec fn placed(b: Seq<u8>, pos: int, x: Seq<u8>) -> bool {
    0 <= pos && pos + x.len() <= b.len() && b.subrange(pos, pos + x.len()) == x
}

proof fn lemma_placed_split(b: Seq<u8>, pos: int, x: Seq<u8>, y: Seq<u8>)
    requires
        placed(b, pos, x + y),
    ensures
        placed(b, pos, x),
        placed(b, pos + x.len(), y),
{
    let xy = x + y;
    assert(b.subrange(pos, pos + x.len()) =~= x) by {
        assert forall|j: int| 0 <= j < x.len() implies b.subrange(pos, pos + x.len())[j] == x[j] by {
            assert(b.subrange(pos, pos + xy.len())[j] == xy[j]);
        }
    }
    assert(b.subrange(pos + x.len(), pos + x.len() + y.len()) =~= y) by {
        assert forall|j: int| 0 <= j < y.len() implies b.subrange(
            pos + x.len(),
            pos + x.len() + y.len(),
        )[j] == y[j] by {
            assert(b.subrange(pos, pos + xy.len())[x.len() + j] == xy[x.len() + j]);
        }
    }
}

proof fn lemma_placed_index(b: Seq<u8>, pos: int, x: Seq<u8>, j: int)
    requires
        placed(b, pos, x),
        0 <= j < x.len(),
    ensures
        b[pos + j] == x[j],
{
    assert(b.subrange(pos, pos + x.len())[j] == b[pos + j]);
}

proof fn lemma_be_bytes_round_trip(n: u64)
    ensures
        ((((n >> 56u64) as u8) as u64) << 56u64 | (((n >> 48u64) as u8) as u64) << 48u64 | (((n
            >> 40u64) as u8) as u64) << 40u64 | (((n >> 32u64) as u8) as u64) << 32u64 | (((n
            >> 24u64) as u8) as u64) << 24u64 | (((n >> 16u64) as u8) as u64) << 16u64 | (((n
            >> 8u64) as u8) as u64) << 8u64 | ((n as u8) as u64)) == n,
{
    assert(((((n >> 56u64) as u8) as u64) << 56u64 | (((n >> 48u64) as u8) as u64) << 48u64 | (((n
        >> 40u64) as u8) as u64) << 40u64 | (((n >> 32u64) as u8) as u64) << 32u64 | (((n
        >> 24u64) as u8) as u64) << 24u64 | (((n >> 16u64) as u8) as u64) << 16u64 | (((n
        >> 8u64) as u8) as u64) << 8u64 | ((n as u8) as u64)) == n) by (bit_vector);
}

proof fn lemma_parse_encoded_text(b: Seq<u8>, pos: int, s: Seq<char>)
    requires
        encode_utf8(s).len() <= u64::MAX,
        placed(b, pos, encode_text(s)),
    ensures
        parse_text(b, pos) == Ok::<(Seq<char>, int), DecodeError>(
            (s, pos + encode_text(s).len()),
        ),
{
    let u = encode_utf8(s);
    let n = u.len() as u64;
    lemma_placed_split(b, pos, varint_bytes(u.len()), u);
    lemma_parse_varint_bytes(b, pos, n);
    encode_utf8_valid_utf8(s);
    encode_utf8_decode_utf8(s);
}

proof fn lemma_parse_encoded_value(b: Seq<u8>, pos: int, v: SpecValue, depth: nat)
    requires
        well_formed(v),
        nesting(v) <= depth,
        placed(b, pos, encode_value(v)),
    ensures
        parse_value(b, pos, depth) == Ok::<(SpecValue, int), DecodeError>(
            (v, pos + encode_value(v).len()),
        ),
    decreases v,
{
    let e = encode_value(v);
    lemma_placed_index(b, pos, e, 0);
    match v {
        SpecValue::Number(bits) => {
            lemma_placed_split(b, pos, seq![e[0]], be_bytes(bits));
            assert forall|j: int| 0 <= j < 8 implies b[pos + 1 + j] == be_bytes(bits)[j] by {
                lemma_placed_index(b, pos + 1, be_bytes(bits), j);
            }
            lemma_be_bytes_round_trip(bits);
            assert(be_u64(b, pos + 1) == bits);
        },
        SpecValue::Text(s) => {
            lemma_placed_split(b, pos, seq![e[0]], encode_text(s));
            lemma_parse_encoded_text(b, pos + 1, s);
        },
        SpecValue::Array(items) => {
            let vb = varint_bytes(items.len());
            lemma_placed_split(b, pos, seq![e[0]] + vb, encode_items(items));
            lemma_placed_split(b, pos, seq![e[0]], vb);
            lemma_parse_varint_bytes(b, pos + 1, items.len() as u64);
            lemma_parse_encoded_items(b, pos + 1 + vb.len(), items, (depth - 1) as nat);
        },
        SpecValue::Object(pairs) => {
            let vb = varint_bytes(pairs.len());
            lemma_placed_split(b, pos, seq![e[0]] + vb, encode_pairs(pairs));
            lemma_placed_split(b, pos, seq![e[0]], vb);
            lemma_parse_varint_bytes(b, pos + 1, pairs.len() as u64);
            lemma_parse_encoded_pairs(b, pos + 1 + vb.len(), pairs, (depth - 1) as nat);
        },
        _ => {},
    }
}

proof fn lemma_parse_encoded_items(b: Seq<u8>, pos: int, vs: Seq<SpecValue>, depth: nat)
    requires
        items_well_formed(vs),
        items_nesting(vs) <= depth,
        placed(b, pos, encode_items(vs)),
    ensures
        parse_items(b, pos, vs.len(), depth) == Ok::<(Seq<SpecValue>, int), DecodeError>(
            (vs, pos + encode_items(vs).len()),
        ),
    decreases vs,
{
    if vs.len() == 0 {
        assert(vs =~= Seq::<SpecValue>::empty());
    } else {
        let init = vs.subrange(0, vs.len() - 1);
        let last = vs[vs.len() - 1];
        lemma_placed_split(b, pos, encode_items(init), encode_value(last));
        lemma_parse_encoded_items(b, pos, init, depth);
        lemma_parse_encoded_value(b, pos + encode_items(init).len(), last, depth);
        assert(init.push(last) =~= vs);
    }
}

proof fn lemma_parse_encoded_pairs(
    b: Seq<u8>,
    pos: int,
    ps: Seq<(Seq<char>, SpecValue)>,
    depth: nat,
)
    requires
        pairs_well_formed(ps),
        pairs_nesting(ps) <= depth,
        placed(b, pos, encode_pairs(ps)),
    ensures
        parse_pairs(b, pos, ps.len(), depth) == Ok::<
            (Seq<(Seq<char>, SpecValue)>, int),
            DecodeError,
        >((ps, pos + encode_pairs(ps).len())),
    decreases ps,
{
    if ps.len() == 0 {
        assert(ps =~= Seq::<(Seq<char>, SpecValue)>::empty());
    } else {
        let init = ps.subrange(0, ps.len() - 1);
        let last = ps[ps.len() - 1];
        let ei = encode_pairs(init);
        let et = encode_text(last.0);
        lemma_placed_split(b, pos, ei + et, encode_value(last.1));
        lemma_placed_split(b, pos, ei, et);
        lemma_parse_encoded_pairs(b, pos, init, depth);
        lemma_parse_encoded_text(b, pos + ei.len(), last.0);
        lemma_parse_encoded_value(b, pos + ei.len() + et.len(), last.1, depth);
        assert(init.push(last) =~= ps);
    }
}

/// Decoding the encoding of a tree gives the tree back: the same variants, the
/// same numbers and texts, arrays and objects in the same order, repeated keys
/// kept. A tree built in memory is always well formed (`serialize_to` ensures
/// it); only trees nested deeper than `MAX_DEPTH` are refused by the decoder.
pub proof fn lemma_round_trip(v: SpecValue)
    requires
        well_formed(v),
        nesting(v) <= MAX_DEPTH,
    ensures
        decode_spec(encode_value(v)) == Ok::<SpecValue, DecodeError>(v),
{
    let b = encode_value(v);
    assert(b.subrange(0, b.len() as int) =~= b);
    lemma_parse_encoded_value(b, 0, v, MAX_DEPTH as nat);
}

/// Encoding depends on the tree alone: two trees with the same model encode to
/// the same bytes.
pub proof fn lemma_encoding_deterministic(v: SpecValue, w: SpecValue)
    requires
        v == w,
    ensures
        encode_value(v) == encode_value(w),
{
}

/// A stream whose first byte is not one of the seven tags is refused as such.
pub proof fn lemma_unknown_tag_rejected(b: Seq<u8>)
    requires
        b.len() > 0,
        b[0] > 6,
    ensures
        decode_spec(b) == Err::<SpecValue, DecodeError>(DecodeError::InvalidTag),
{
}

/// A text whose declared length covers bytes that are not UTF-8 is refused as such.
pub proof fn lemma_invalid_utf8_rejected(b: Seq<u8>, n: u64, p: int)
    requires
        b.len() > 0,
        b[0] == STRING_MARKER,
        parse_varint(b, 1) == Ok::<(u64, int), DecodeError>((n, p)),
        p + n <= b.len(),
        !valid_utf8(b.subrange(p, p + n)),
    ensures
        decode_spec(b) == Err::<SpecValue, DecodeError>(DecodeError::InvalidUtf8),
{
}

/// What a parse of a prefix of length `k` gives against a parse of the whole:
/// the same result, or a report that the input ran out; never a value that
/// reaches past the prefix.
pub open spec fn agrees_on_prefix<T>(
    rp: Result<(T, int), DecodeError>,
    rb: Result<(T, int), DecodeError>,
    k: int,
) -> bool {
    &&& (rp == rb || rp == Err::<(T, int), DecodeError>(DecodeError::Truncated))
    &&& (rp is Ok ==> rp->Ok_0.1 <= k)
}

proof fn lemma_prefix_varint_from(b: Seq<u8>, k: int, pos: int, i: nat, acc: nat)
    requires
        0 <= k <= b.len(),
    ensures
        agrees_on_prefix(varint_from(b.subrange(0, k), pos, i, acc), varint_from(b, pos, i, acc), k),
        varint_from(b.subrange(0, k), pos, i, acc) is Ok ==> varint_from(b.subrange(0, k), pos, i, acc)->Ok_0.1
            > 0,
    decreases MAX_VARINT_LEN - i,
{
    let p = b.subrange(0, k);
    if 0 <= pos + i < p.len() {
        assert(p[pos + i] == b[pos + i]);
        if p[pos + i] >= 128 && i + 1 < MAX_VARINT_LEN {
            let acc2 = acc + (p[pos + i] % 128) as nat * crate::varint::pow128(i);
            lemma_prefix_varint_from(b, k, pos, i + 1, acc2);
        }
    }
}

proof fn lemma_prefix_text(b: Seq<u8>, k: int, pos: int)
    requires
        0 <= k <= b.len(),
    ensures
        agrees_on_prefix(parse_text(b.subrange(0, k), pos), parse_text(b, pos), k),
{
    let p = b.subrange(0, k);
    lemma_prefix_varint_from(b, k, pos, 0, 0);
    if let Ok((n, q)) = parse_varint(p, pos) {
        if q + n <= p.len() {
            assert(p.subrange(q, q + n) =~= b.subrange(q, q + n));
        }
    }
}

proof fn lemma_prefix_value(b: Seq<u8>, k: int, pos: int, depth: nat)
    requires
        0 <= k <= b.len(),
    ensures
        agrees_on_prefix(parse_value(b.subrange(0, k), pos, depth), parse_value(b, pos, depth), k),
    decreases depth, 0nat,
{
    let p = b.subrange(0, k);
    if 0 <= pos < p.len() {
        assert(p[pos] == b[pos]);
        let tag = b[pos];
        if tag == 3 && pos + 9 <= p.len() {
            assert forall|j: int| pos + 1 <= j < pos + 9 implies p[j] == b[j] by {}
            assert(be_u64(p, pos + 1) == be_u64(b, pos + 1));
        } else if tag == STRING_MARKER {
            lemma_prefix_text(b, k, pos + 1);
        } else if (tag == 5 || tag == 6) && depth > 0 {
            lemma_prefix_varint_from(b, k, pos + 1, 0, 0);
            if let Ok((n, q)) = parse_varint(p, pos + 1) {
                if tag == 5 {
                    lemma_prefix_items(b, k, q, n as nat, (depth - 1) as nat);
                } else {
                    lemma_prefix_pairs(b, k, q, n as nat, (depth - 1) as nat);
                }
            }
        }
    }
}

proof fn lemma_prefix_items(b: Seq<u8>, k: int, pos: int, n: nat, depth: nat)
    requires
        0 <= k <= b.len(),
        pos <= k,
    ensures
        agrees_on_prefix(parse_items(b.subrange(0, k), pos, n, depth), parse_items(b, pos, n, depth), k),
    decreases depth, n + 1,
{
    if n > 0 {
        let p = b.subrange(0, k);
        lemma_prefix_items(b, k, pos, (n - 1) as nat, depth);
        if let Ok((vs, q)) = parse_items(p, pos, (n - 1) as nat, depth) {
            lemma_prefix_value(b, k, q, depth);
        }
    }
}

proof fn lemma_prefix_pairs(b: Seq<u8>, k: int, pos: int, n: nat, depth: nat)
    requires
        0 <= k <= b.len(),
        pos <= k,
    ensures
        agrees_on_prefix(parse_pairs(b.subrange(0, k), pos, n, depth), parse_pairs(b, pos, n, depth), k),
    decreases depth, n + 1,
{
    if n > 0 {
        let p = b.subrange(0, k);
        lemma_prefix_pairs(b, k, pos, (n - 1) as nat, depth);
        if let Ok((ps, q)) = parse_pairs(p, pos, (n - 1) as nat, depth) {
            lemma_prefix_text(b, k, q);
            if let Ok((key, q2)) = parse_text(p, q) {
                lemma_prefix_value(b, k, q2, depth);
            }
        }
    }
}

/// Cutting at least one byte off the end of a stream that decodes gives a
/// stream that fails to decode, as truncated.
pub proof fn lemma_truncated_stream_fails(b: Seq<u8>, k: int)
    requires
        decode_spec(b) is Ok,
        0 <= k < b.len(),
    ensures
        decode_spec(b.subrange(0, k)) == Err::<SpecValue, DecodeError>(DecodeError::Truncated),
{
    lemma_prefix_value(b, k, 0, MAX_DEPTH as nat);
}

/// The varint of every `u64` decodes back to it, and takes all its bytes.
pub proof fn lemma_varint_round_trip(n: u64)
    ensures
        parse_varint(varint_bytes(n as nat), 0) == Ok::<(u64, int), DecodeError>(
            (n, varint_bytes(n as nat).len() as int),
        ),
{
    let b = varint_bytes(n as nat);
    assert(b.subrange(0, b.len() as int) =~= b);
    lemma_parse_varint_bytes(b, 0, n);
}

} // verus!
