use vstd::prelude::*;
use vstd::slice::slice_subrange;
use vstd::utf8::{decode_utf8, encode_utf8, encode_utf8_decode_utf8, valid_utf8};

use crate::encode::{
    ARRAY_MARKER, FALSE_MARKER, NULL_MARKER, NUMBER_MARKER, OBJECT_MARKER, STRING_MARKER,
    TRUE_MARKER,
};
use crate::error::DecodeError;
use crate::value::{view_items, view_pairs, JValue, SpecValue};
use crate::varint::{parse_varint, read_length};

verus! {

/// How deeply arrays and objects may nest in a decoded value.
pub const MAX_DEPTH: usize = 128;

/// The `u64` whose big-endian bytes are `b[pos..pos + 8]`.
pub open spec fn be_u64(b: Seq<u8>, pos: int) -> u64 {
    (b[pos] as u64) << 56u64 | (b[pos + 1] as u64) << 48u64 | (b[pos + 2] as u64) << 40u64 | (b[pos
        + 3] as u64) << 32u64 | (b[pos + 4] as u64) << 24u64 | (b[pos + 5] as u64) << 16u64 | (b[pos
        + 6] as u64) << 8u64 | (b[pos + 7] as u64)
}

/// The text that starts at `b[pos]` (its varint length, then its UTF-8 bytes):
/// its characters and the position after it.
pub open spec fn parse_text(b: Seq<u8>, pos: int) -> Result<(Seq<char>, int), DecodeError> {
    match parse_varint(b, pos) {
        Ok((n, p)) => if p + n > b.len() {
            Err(DecodeError::Truncated)
        } else if valid_utf8(b.subrange(p, p + n)) {
            Ok((decode_utf8(b.subrange(p, p + n)), p + n))
        } else {
            Err(DecodeError::InvalidUtf8)
        },
        Err(e) => Err(e),
    }
}

/// The value that starts at `b[pos]`, with at most `depth` levels of arrays and
/// objects: the value and the position after it.
pub open spec fn parse_value(b: Seq<u8>, pos: int, depth: nat) -> Result<
    (SpecValue, int),
    DecodeError,
>
    decreases depth, 0nat,
{
    if pos < 0 || pos >= b.len() {
        Err(DecodeError::Truncated)
    } else {
        let tag = b[pos];
        if tag == NULL_MARKER {
            Ok((SpecValue::Null, pos + 1))
        } else if tag == TRUE_MARKER {
            Ok((SpecValue::True, pos + 1))
        } else if tag == FALSE_MARKER {
            Ok((SpecValue::False, pos + 1))
        } else if tag == NUMBER_MARKER {
            if pos + 9 > b.len() {
                Err(DecodeError::Truncated)
            } else {
                Ok((SpecValue::Number(be_u64(b, pos + 1)), pos + 9))
            }
        } else if tag == STRING_MARKER {
            match parse_text(b, pos + 1) {
                Ok((s, end)) => Ok((SpecValue::Text(s), end)),
                Err(e) => Err(e),
            }
        } else if tag == ARRAY_MARKER || tag == OBJECT_MARKER {
            if depth == 0 {
                Err(DecodeError::TooDeep)
            } else {
                match parse_varint(b, pos + 1) {
                    Ok((n, p)) => if tag == ARRAY_MARKER {
                        match parse_items(b, p, n as nat, (depth - 1) as nat) {
                            Ok((vs, end)) => Ok((SpecValue::Array(vs), end)),
                            Err(e) => Err(e),
                        }
                    } else {
                        match parse_pairs(b, p, n as nat, (depth - 1) as nat) {
                            Ok((ps, end)) => Ok((SpecValue::Object(ps), end)),
                            Err(e) => Err(e),
                        }
                    },
                    Err(e) => Err(e),
                }
            }
        } else {
            Err(DecodeError::InvalidTag)
        }
    }
}

/// `n` values one after the other from `b[pos]` on.
pub open spec fn parse_items(b: Seq<u8>, pos: int, n: nat, depth: nat) -> Result<
    (Seq<SpecValue>, int),
    DecodeError,
>
    decreases depth, n + 1,
{
    if n == 0 {
        Ok((Seq::empty(), pos))
    } else {
        match parse_items(b, pos, (n - 1) as nat, depth) {
            Ok((vs, p)) => match parse_value(b, p, depth) {
                Ok((v, end)) => Ok((vs.push(v), end)),
                Err(e) => Err(e),
            },
            Err(e) => Err(e),
        }
    }
}

/// `n` pairs of a key's text and a value, one after the other from `b[pos]` on.
pub open spec fn parse_pairs(b: Seq<u8>, pos: int, n: nat, depth: nat) -> Result<
    (Seq<(Seq<char>, SpecValue)>, int),
    DecodeError,
>
    decreases depth, n + 1,
{
    if n == 0 {
        Ok((Seq::empty(), pos))
    } else {
        match parse_pairs(b, pos, (n - 1) as nat, depth) {
            Ok((ps, p)) => match parse_text(b, p) {
                Ok((k, p2)) => match parse_value(b, p2, depth) {
                    Ok((v, end)) => Ok((ps.push((k, v)), end)),
                    Err(e) => Err(e),
                },
                Err(e) => Err(e),
            },
            Err(e) => Err(e),
        }
    }
}

/// What `decode` gives for the bytes `b`: the one value they hold.
pub open spec fn decode_spec(b: Seq<u8>) -> Result<SpecValue, DecodeError> {
    match parse_value(b, 0, MAX_DEPTH as nat) {
        Ok((v, end)) => if end == b.len() {
            Ok(v)
        } else {
            Err(DecodeError::TrailingBytes)
        },
        Err(e) => Err(e),
    }
}

/// Relies on `std::str::from_utf8`: it accepts exactly the well-formed UTF-8
/// byte strings, and the text it returns is made of the given bytes.
#[verifier::external_body]
fn str_from_utf8(bytes: &[u8]) -> (r: Option<&str>)
    ensures
        r is Some <==> valid_utf8(bytes@),
        r is Some ==> encode_utf8(r->0@) == bytes@,
{
    std::str::from_utf8(bytes).ok()
}

proof fn lemma_items_error_stays(b: Seq<u8>, pos: int, k: nat, n: nat, depth: nat, e: DecodeError)
    requires
        k <= n,
        parse_items(b, pos, k, depth) == Err::<(Seq<SpecValue>, int), DecodeError>(e),
    ensures
        parse_items(b, pos, n, depth) == Err::<(Seq<SpecValue>, int), DecodeError>(e),
    decreases n - k,
{
    if k < n {
        lemma_items_error_stays(b, pos, k, (n - 1) as nat, depth, e);
    }
}

proof fn lemma_pairs_error_stays(b: Seq<u8>, pos: int, k: nat, n: nat, depth: nat, e: DecodeError)
    requires
        k <= n,
        parse_pairs(b, pos, k, depth) == Err::<(Seq<(Seq<char>, SpecValue)>, int), DecodeError>(e),
    ensures
        parse_pairs(b, pos, n, depth) == Err::<(Seq<(Seq<char>, SpecValue)>, int), DecodeError>(e),
    decreases n - k,
{
    if k < n {
        lemma_pairs_error_stays(b, pos, k, (n - 1) as nat, depth, e);
    }
}

fn read_u64_be(bytes: &[u8], at: usize) -> (r: u64)
    requires
        at + 8 <= bytes@.len(),
    ensures
        r == be_u64(bytes@, at as int),
{
    (bytes[at] as u64) << 56u64 | (bytes[at + 1] as u64) << 48u64 | (bytes[at + 2] as u64) << 40u64
        | (bytes[at + 3] as u64) << 32u64 | (bytes[at + 4] as u64) << 24u64 | (bytes[at + 5] as u64)
        << 16u64 | (bytes[at + 6] as u64) << 8u64 | (bytes[at + 7] as u64)
}

/// Reads the text that starts at `bytes[pos]`; returns it and the position after it.
fn read_text(bytes: &[u8], pos: usize) -> (r: Result<(String, usize), DecodeError>)
    ensures
        parse_text(bytes@, pos as int) == match r {
            Ok((s, end)) => Ok::<(Seq<char>, int), DecodeError>((s@, end as int)),
            Err(e) => Err::<(Seq<char>, int), DecodeError>(e),
        },
{
    match read_length(bytes, pos) {
        Ok((n, p)) => {
            if p > bytes.len() || n > (bytes.len() - p) as u64 {
                return Err(DecodeError::Truncated);
            }
            let end: usize = p + n as usize;
            let raw = slice_subrange(bytes, p, end);
            match str_from_utf8(raw) {
                Some(s) => {
                    proof {
                        encode_utf8_decode_utf8(s@);
                    }
                    Ok((s.to_owned(), end))
                },
                None => Err(DecodeError::InvalidUtf8),
            }
        },
        Err(e) => Err(e),
    }
}

fn read_items(bytes: &[u8], pos: usize, count: u64, depth: usize) -> (r: Result<
    (Vec<JValue>, usize),
    DecodeError,
>)
    ensures
        parse_items(bytes@, pos as int, count as nat, depth as nat) == match r {
            Ok((vs, end)) => Ok::<(Seq<SpecValue>, int), DecodeError>(
                (view_items(vs@), end as int),
            ),
            Err(e) => Err::<(Seq<SpecValue>, int), DecodeError>(e),
        },
    decreases depth, 1nat,
{
    let mut items: Vec<JValue> = Vec::new();
    let mut p: usize = pos;
    let mut i: u64 = 0;
    proof {
        assert(view_items(items@) =~= Seq::<SpecValue>::empty());
    }
    while i < count
        invariant
            i <= count,
            parse_items(bytes@, pos as int, i as nat, depth as nat) == Ok::<
                (Seq<SpecValue>, int),
                DecodeError,
            >((view_items(items@), p as int)),
        decreases count - i,
    {
        match read_value(bytes, p, depth) {
            Ok((v, end)) => {
                proof {
                    assert(items@.push(v).subrange(0, items@.len() as int) =~= items@);
                }
                items.push(v);
                p = end;
                i = i + 1;
            },
            Err(e) => {
                proof {
                    lemma_items_error_stays(bytes@, pos as int, (i + 1) as nat, count as nat, depth as nat, e);
                }
                return Err(e);
            },
        }
    }
    Ok((items, p))
}

fn read_pairs(bytes: &[u8], pos: usize, count: u64, depth: usize) -> (r: Result<
    (Vec<(String, JValue)>, usize),
    DecodeError,
>)
    ensures
        parse_pairs(bytes@, pos as int, count as nat, depth as nat) == match r {
            Ok((ps, end)) => Ok::<(Seq<(Seq<char>, SpecValue)>, int), DecodeError>(
                (view_pairs(ps@), end as int),
            ),
            Err(e) => Err::<(Seq<(Seq<char>, SpecValue)>, int), DecodeError>(e),
        },
    decreases depth, 1nat,
{
    let mut pairs: Vec<(String, JValue)> = Vec::new();
    let mut p: usize = pos;
    let mut i: u64 = 0;
    proof {
        assert(view_pairs(pairs@) =~= Seq::<(Seq<char>, SpecValue)>::empty());
    }
    while i < count
        invariant
            i <= count,
            parse_pairs(bytes@, pos as int, i as nat, depth as nat) == Ok::<
                (Seq<(Seq<char>, SpecValue)>, int),
                DecodeError,
            >((view_pairs(pairs@), p as int)),
        decreases count - i,
    {
        let key = match read_text(bytes, p) {
            Ok((k, after_key)) => {
                p = after_key;
                k
            },
            Err(e) => {
                proof {
                    lemma_pairs_error_stays(bytes@, pos as int, (i + 1) as nat, count as nat, depth as nat, e);
                }
                return Err(e);
            },
        };
        match read_value(bytes, p, depth) {
            Ok((v, end)) => {
                proof {
                    assert(pairs@.push((key, v)).subrange(0, pairs@.len() as int) =~= pairs@);
                }
                pairs.push((key, v));
                p = end;
                i = i + 1;
            },
            Err(e) => {
                proof {
                    lemma_pairs_error_stays(bytes@, pos as int, (i + 1) as nat, count as nat, depth as nat, e);
                }
                return Err(e);
            },
        }
    }
    Ok((pairs, p))
}

fn read_value(bytes: &[u8], pos: usize, depth: usize) -> (r: Result<(JValue, usize), DecodeError>)
    ensures
        parse_value(bytes@, pos as int, depth as nat) == match r {
            Ok((v, end)) => Ok::<(SpecValue, int), DecodeError>((v@, end as int)),
            Err(e) => Err::<(SpecValue, int), DecodeError>(e),
        },
    decreases depth, 0nat,
{
    if pos >= bytes.len() {
        return Err(DecodeError::Truncated);
    }
    let tag = bytes[pos];
    if tag == NULL_MARKER {
        Ok((JValue::Null, pos + 1))
    } else if tag == TRUE_MARKER {
        Ok((JValue::True, pos + 1))
    } else if tag == FALSE_MARKER {
        Ok((JValue::False, pos + 1))
    } else if tag == NUMBER_MARKER {
        if bytes.len() - pos < 9 {
            Err(DecodeError::Truncated)
        } else {
            Ok((JValue::Number(read_u64_be(bytes, pos + 1)), pos + 9))
        }
    } else if tag == STRING_MARKER {
        match read_text(bytes, pos + 1) {
            Ok((s, end)) => Ok((JValue::String(s), end)),
            Err(e) => Err(e),
        }
    } else if tag == ARRAY_MARKER || tag == OBJECT_MARKER {
        if depth == 0 {
            return Err(DecodeError::TooDeep);
        }
        match read_length(bytes, pos + 1) {
            Ok((n, p)) => if tag == ARRAY_MARKER {
                match read_items(bytes, p, n, depth - 1) {
                    Ok((vs, end)) => Ok((JValue::Array(vs), end)),
                    Err(e) => Err(e),
                }
            } else {
                match read_pairs(bytes, p, n, depth - 1) {
                    Ok((ps, end)) => Ok((JValue::Object(ps), end)),
                    Err(e) => Err(e),
                }
            },
            Err(e) => Err(e),
        }
    } else {
        Err(DecodeError::InvalidTag)
    }
}

/// Reads one value from `bytes[pos..]`; returns it and the position after it.
/// Bytes after the value are left unread.
pub fn read_from(bytes: &[u8], pos: usize) -> (r: Result<(JValue, usize), DecodeError>)
    ensures
        parse_value(bytes@, pos as int, MAX_DEPTH as nat) == match r {
            Ok((v, end)) => Ok::<(SpecValue, int), DecodeError>((v@, end as int)),
            Err(e) => Err::<(SpecValue, int), DecodeError>(e),
        },
{
    read_value(bytes, pos, MAX_DEPTH)
}

/// Decodes a buffer that holds exactly one value.
pub fn decode(bytes: &[u8]) -> (r: Result<JValue, DecodeError>)
    ensures
        decode_spec(bytes@) == match r {
            Ok(v) => Ok::<SpecValue, DecodeError>(v@),
            Err(e) => Err::<SpecValue, DecodeError>(e),
        },
{
    match read_from(bytes, 0) {
        Ok((v, end)) => if end == bytes.len() {
            Ok(v)
        } else {
            Err(DecodeError::TrailingBytes)
        },
        Err(e) => Err(e),
    }
}

} // verus!
