use vstd::prelude::*;

use crate::error::DecodeError;

verus! {

/// A varint never takes more bytes than this: ten groups of seven bits hold 64 bits.
pub const MAX_VARINT_LEN: usize = 10;

/// `128` to the power `i`: the weight of the `i`-th seven-bit group.
pub open spec fn pow128(i: nat) -> nat
    decreases i,
{
    if i == 0 {
        1
    } else {
        128 * pow128((i - 1) as nat)
    }
}

/// The varint of `n`: seven bits per byte, least significant group first, the
/// high bit set on every byte but the last.
pub open spec fn varint_bytes(n: nat) -> Seq<u8>
    decreases n,
{
    if n < 128 {
        seq![n as u8]
    } else {
        seq![(n % 128 + 128) as u8] + varint_bytes(n / 128)
    }
}

/// Reads the groups of a varint from `b[pos + i]` on, `acc` holding the value
/// of the groups before; gives the value and the position after the last byte.
pub open spec fn varint_from(b: Seq<u8>, pos: int, i: nat, acc: nat) -> Result<
    (nat, int),
    DecodeError,
>
    decreases MAX_VARINT_LEN - i,
{
    if pos + i < 0 || pos + i >= b.len() {
        Err(DecodeError::Truncated)
    } else {
        let byte = b[pos + i];
        let acc2 = acc + (byte % 128) as nat * pow128(i);
        if byte < 128 {
            Ok((acc2, pos + i + 1))
        } else if i + 1 >= MAX_VARINT_LEN {
            Err(DecodeError::VarintOverflow)
        } else {
            varint_from(b, pos, i + 1, acc2)
        }
    }
}

/// The varint that starts at `b[pos]`: its value and the position after it.
pub open spec fn parse_varint(b: Seq<u8>, pos: int) -> Result<(u64, int), DecodeError> {
    match varint_from(b, pos, 0, 0) {
        Ok((v, end)) => if v <= u64::MAX {
            Ok((v as u64, end))
        } else {
            Err(DecodeError::VarintOverflow)
        },
        Err(e) => Err(e),
    }
}

pub proof fn lemma_pow128_mono(i: nat, j: nat)
    requires
        i <= j,
    ensures
        pow128(i) <= pow128(j),
    decreases j - i,
{
    if i < j {
        lemma_pow128_mono(i, (j - 1) as nat);
    }
}

pub proof fn lemma_pow128_values()
    ensures
        pow128(1) == 128,
        pow128(9) == 0x8000_0000_0000_0000,
        pow128(10) == 0x40_0000_0000_0000_0000,
{
    reveal_with_fuel(pow128, 11);
}

proof fn lemma_varint_from(b: Seq<u8>, pos: int, i: nat, acc: nat, m: nat)
    requires
        0 <= pos,
        i < MAX_VARINT_LEN,
        m < pow128((MAX_VARINT_LEN - i) as nat),
        pos + i + varint_bytes(m).len() <= b.len(),
        b.subrange(pos + i, pos + i + varint_bytes(m).len()) == varint_bytes(m),
    ensures
        varint_from(b, pos, i, acc) == Ok::<(nat, int), DecodeError>(
            (acc + m * pow128(i), pos + i + varint_bytes(m).len()),
        ),
    decreases m,
{
    let vb = varint_bytes(m);
    assert(b[pos + i] == vb[0]) by {
        assert(b.subrange(pos + i, pos + i + vb.len())[0] == b[pos + i]);
    }
    if m >= 128 {
        let rest = varint_bytes(m / 128);
        if i + 1 >= MAX_VARINT_LEN {
            lemma_pow128_values();
        }
        let p = pow128((MAX_VARINT_LEN - i - 1) as nat);
        assert(pow128((MAX_VARINT_LEN - i) as nat) == 128 * p);
        assert(m / 128 < p) by (nonlinear_arith)
            requires
                m < 128 * p,
        ;
        assert(b.subrange(pos + i + 1, pos + i + 1 + rest.len()) =~= rest) by {
            assert(vb =~= seq![(m % 128 + 128) as u8] + rest);
            assert forall|j: int| 0 <= j < rest.len() implies b.subrange(
                pos + i + 1,
                pos + i + 1 + rest.len(),
            )[j] == rest[j] by {
                assert(b.subrange(pos + i, pos + i + vb.len())[j + 1] == vb[j + 1]);
            }
        }
        lemma_varint_from(b, pos, i + 1, acc + (m % 128) * pow128(i), m / 128);
        let q = pow128(i);
        assert(pow128(i + 1) == 128 * q);
        assert(acc + (m % 128) * q + (m / 128) * (128 * q) == acc + m * q) by (nonlinear_arith);
    }
}

/// The varint of any `u64` reads back as that value, and ends where it ends.
pub proof fn lemma_parse_varint_bytes(b: Seq<u8>, pos: int, n: u64)
    requires
        0 <= pos,
        pos + varint_bytes(n as nat).len() <= b.len(),
        b.subrange(pos, pos + varint_bytes(n as nat).len()) == varint_bytes(n as nat),
    ensures
        parse_varint(b, pos) == Ok::<(u64, int), DecodeError>(
            (n, pos + varint_bytes(n as nat).len()),
        ),
{
    lemma_pow128_values();
    lemma_varint_from(b, pos, 0, 0, n as nat);
    assert(pow128(0) == 1);
    assert(0 + (n as nat) * pow128(0) == n as nat);
}

/// Appends the varint of `length` to `out`; returns the number of bytes written.
pub fn write_length(out: &mut Vec<u8>, length: u64) -> (r: usize)
    ensures
        final(out)@ == old(out)@ + varint_bytes(length as nat),
        r == varint_bytes(length as nat).len(),
{
    let start = out.len();
    let mut n: u64 = length;
    while n >= 128
        invariant
            start == old(out)@.len(),
            out@ + varint_bytes(n as nat) == old(out)@ + varint_bytes(length as nat),
        decreases n,
    {
        let byte: u8 = (n % 128 + 128) as u8;
        proof {
            assert(varint_bytes(n as nat) =~= seq![byte] + varint_bytes((n / 128) as nat));
            assert(out@.push(byte) + varint_bytes((n / 128) as nat) =~= out@ + varint_bytes(
                n as nat,
            ));
        }
        out.push(byte);
        n = n / 128;
    }
    out.push(n as u8);
    proof {
        assert(out@ =~= old(out)@ + varint_bytes(length as nat));
    }
    out.len() - start
}

/// The varint of `n` on its own.
pub fn encode_varint(n: u64) -> (r: Vec<u8>)
    ensures
        r@ == varint_bytes(n as nat),
{
    let mut out: Vec<u8> = Vec::new();
    write_length(&mut out, n);
    proof {
        assert(out@ =~= varint_bytes(n as nat));
    }
    out
}

/// Reads the varint that starts at `bytes[pos]`; returns its value and the
/// position after it.
pub fn read_length(bytes: &[u8], pos: usize) -> (r: Result<(u64, usize), DecodeError>)
    ensures
        parse_varint(bytes@, pos as int) == match r {
            Ok((v, end)) => Ok::<(u64, int), DecodeError>((v, end as int)),
            Err(e) => Err::<(u64, int), DecodeError>(e),
        },
{
    let mut acc: u128 = 0;
    let mut scale: u128 = 1;
    let mut i: usize = 0;
    loop
        invariant
            i < MAX_VARINT_LEN,
            scale == pow128(i as nat),
            acc < scale,
            varint_from(bytes@, pos as int, 0, 0) == varint_from(
                bytes@,
                pos as int,
                i as nat,
                acc as nat,
            ),
        decreases MAX_VARINT_LEN - i,
    {
        proof {
            lemma_pow128_mono(i as nat, 9);
            lemma_pow128_values();
        }
        if pos >= bytes.len() || i >= bytes.len() - pos {
            return Err(DecodeError::Truncated);
        }
        let byte: u8 = bytes[pos + i];
        let group: u128 = (byte % 128) as u128;
        proof {
            assert(acc + group * scale < 128 * scale) by (nonlinear_arith)
                requires
                    acc < scale,
                    group < 128,
            ;
        }
        acc = acc + group * scale;
        if byte < 128 {
            if acc > u64::MAX as u128 {
                return Err(DecodeError::VarintOverflow);
            }
            return Ok((acc as u64, pos + i + 1));
        }
        if i + 1 >= MAX_VARINT_LEN {
            return Err(DecodeError::VarintOverflow);
        }
        i = i + 1;
        scale = scale * 128;
    }
}

/// Decodes a buffer that holds exactly one varint.
pub fn decode_varint(bytes: &[u8]) -> (r: Result<u64, DecodeError>)
    ensures
        r == match parse_varint(bytes@, 0) {
            Ok((v, end)) => if end == bytes@.len() {
                Ok::<u64, DecodeError>(v)
            } else {
                Err(DecodeError::TrailingBytes)
            },
            Err(e) => Err(e),
        },
{
    match read_length(bytes, 0) {
        Ok((v, end)) => if end == bytes.len() {
            Ok(v)
        } else {
            Err(DecodeError::TrailingBytes)
        },
        Err(e) => Err(e),
    }
}

} // verus!
