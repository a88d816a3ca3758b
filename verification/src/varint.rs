//! Variable-length unsigned integers.
//!
//! A value is cut into groups of seven bits, least significant group first. Every byte but the
//! last holds one group; the last byte additionally has its top bit set (the stop bit).

use vstd::prelude::*;

use crate::error::StoreError;

verus! {

/// Added to the last byte of an encoded integer.
pub const STOP_BIT: u8 = 128;

/// The encoding of `value`.
pub open spec fn vint_bytes(value: nat) -> Seq<u8>
    decreases value,
{
    if value < 128 {
        seq![(value + 128) as u8]
    } else {
        seq![(value % 128) as u8] + vint_bytes(value / 128)
    }
}

/// The integer at the front of `bytes` and the number of bytes it takes, or `None` when no byte
/// carries the stop bit.
pub open spec fn vint_prefix(bytes: Seq<u8>) -> Option<(nat, nat)>
    decreases bytes.len(),
{
    if bytes.len() == 0 {
        None
    } else if bytes[0] >= 128 {
        Some(((bytes[0] - 128) as nat, 1))
    } else {
        match vint_prefix(bytes.skip(1)) {
            Some((rest, len)) => Some((bytes[0] as nat + 128 * rest, len + 1)),
            None => None,
        }
    }
}

/// What reading one integer off the front of `bytes` yields: its value in 64 bits and the number
/// of bytes it takes. An integer takes at most ten bytes.
pub open spec fn vint_read(bytes: Seq<u8>) -> Result<(u64, nat), StoreError> {
    match vint_prefix(bytes) {
        Some((value, len)) => if len <= 10 {
            Ok(((value % 0x1_0000_0000_0000_0000) as u64, len))
        } else {
            Err(StoreError::OverlongVInt)
        },
        None => if bytes.len() <= 10 {
            Err(StoreError::TruncatedVInt)
        } else {
            Err(StoreError::OverlongVInt)
        },
    }
}

/// An encoded integer is read back whatever follows it.
pub proof fn lemma_vint_prefix_of_encoding(value: nat, rest: Seq<u8>)
    ensures
        vint_prefix(vint_bytes(value) + rest) == Some((value, vint_bytes(value).len())),
        vint_bytes(value).len() >= 1,
    decreases value,
{
    let bytes = vint_bytes(value) + rest;
    if value >= 128 {
        lemma_vint_prefix_of_encoding(value / 128, rest);
        assert(bytes.skip(1) =~= vint_bytes(value / 128) + rest);
    }
}

/// An encoded integer is made of groups of seven bits, the lowest first: only the last byte has the
/// stop bit, and no encoding is longer than needed.
pub proof fn lemma_vint_groups(value: nat)
    ensures
        ({
            let bytes = vint_bytes(value);
            &&& bytes.len() >= 1
            &&& forall|i: int| 0 <= i < bytes.len() - 1 ==> #[trigger] bytes[i] < 128
            &&& bytes.last() >= 128
            &&& bytes.len() > 1 ==> bytes.last() > 128
            &&& value < 128 ==> bytes.len() == 1 && bytes[0] == 128 + value
            &&& value >= 128 ==> {
                &&& bytes[0] == value % 128
                &&& bytes.skip(1) == vint_bytes(value / 128)
                &&& bytes.len() == vint_bytes(value / 128).len() + 1
            }
        }),
    decreases value,
{
    let bytes = vint_bytes(value);
    if value >= 128 {
        let rest = vint_bytes(value / 128);
        lemma_vint_groups(value / 128);
        assert(bytes.skip(1) =~= rest);
        assert(bytes.last() == rest.last());
        assert forall|i: int| 0 <= i < bytes.len() - 1 implies #[trigger] bytes[i] < 128 by {
            if i > 0 {
                assert(rest[i - 1] < 128);
            }
        }
    }
}

/// The encoding of a value below `128^groups` takes at most `groups` bytes.
pub proof fn lemma_vint_len(value: nat, groups: nat)
    requires
        groups >= 1,
        value < vstd::arithmetic::power::pow(128, groups),
    ensures
        1 <= vint_bytes(value).len() <= groups,
    decreases groups,
{
    reveal(vstd::arithmetic::power::pow);
    if value >= 128 {
        let smaller = (groups - 1) as nat;
        assert(vstd::arithmetic::power::pow(128, groups) == 128 * vstd::arithmetic::power::pow(
            128,
            smaller,
        ));
        if smaller == 0 {
            assert(vstd::arithmetic::power::pow(128, 0) == 1);
        } else {
            lemma_vint_len(value / 128, smaller);
        }
    }
}

/// Reading returns every encoded 64-bit integer.
pub proof fn lemma_vint_roundtrip(value: u64, rest: Seq<u8>)
    ensures
        vint_read(vint_bytes(value as nat) + rest) == Ok::<(u64, nat), StoreError>(
            (value, vint_bytes(value as nat).len()),
        ),
        1 <= vint_bytes(value as nat).len() <= 10,
{
    lemma_vint_prefix_of_encoding(value as nat, rest);
    assert(vstd::arithmetic::power::pow(128, 10) == 0x40_0000_0000_0000_0000) by {
        reveal_with_fuel(vstd::arithmetic::power::pow, 11);
    }
    lemma_vint_len(value as nat, 10);
}

/// An integer takes at least one byte and no more than there are.
pub proof fn lemma_vint_prefix_len(bytes: Seq<u8>)
    ensures
        vint_prefix(bytes) matches Some((_, len)) ==> 1 <= len <= bytes.len(),
    decreases bytes.len(),
{
    if bytes.len() > 0 && bytes[0] < 128 {
        lemma_vint_prefix_len(bytes.skip(1));
    }
}

/// A parsed integer `rest` with `count` groups worth `low` in front of it, where `scale` is the
/// weight of the group behind them.
spec fn shifted(parsed: Option<(nat, nat)>, low: nat, scale: nat, count: nat) -> Option<
    (nat, nat),
> {
    match parsed {
        Some((rest, len)) => Some((low + scale * rest, len + count)),
        None => None,
    }
}

proof fn lemma_scale(count: nat)
    requires
        count <= 9,
    ensures
        vstd::arithmetic::power::pow(128, count + 1) == 128 * vstd::arithmetic::power::pow(
            128,
            count,
        ),
        1 <= vstd::arithmetic::power::pow(128, count) <= 0x8000_0000_0000_0000,
        count == 9 ==> vstd::arithmetic::power::pow(128, count) == 0x8000_0000_0000_0000,
        count < 9 ==> vstd::arithmetic::power::pow(128, count) <= 0x100_0000_0000_0000,
    decreases 9 - count,
{
    reveal(vstd::arithmetic::power::pow);
    assert(vstd::arithmetic::power::pow(128, 9) == 0x8000_0000_0000_0000) by {
        reveal_with_fuel(vstd::arithmetic::power::pow, 10);
    }
    assert(vstd::arithmetic::power::pow(128, 8) == 0x100_0000_0000_0000) by {
        reveal_with_fuel(vstd::arithmetic::power::pow, 9);
    }
    if count < 8 {
        lemma_scale(count + 1);
        assert(vstd::arithmetic::power::pow(128, count) >= 1) by {
            vstd::arithmetic::power::lemma_pow_positive(128, count);
        }
    }
}

/// Appends the encoding of `value` to `out`.
pub fn write_vint(value: u64, out: &mut Vec<u8>)
    ensures
        final(out)@ == old(out)@ + vint_bytes(value as nat),
{
    let mut remaining: u64 = value;
    assert(out@ + vint_bytes(value as nat) =~= old(out)@ + vint_bytes(value as nat));
    while remaining >= 128
        invariant
            out@ + vint_bytes(remaining as nat) == old(out)@ + vint_bytes(value as nat),
        decreases remaining,
    {
        let group: u8 = (remaining % 128) as u8;
        let ghost before = out@;
        out.push(group);
        assert(before + vint_bytes(remaining as nat) =~= out@ + vint_bytes(
            (remaining / 128) as nat,
        ));
        remaining = remaining / 128;
    }
    let ghost before = out@;
    out.push(remaining as u8 + STOP_BIT);
    assert(before + vint_bytes(remaining as nat) =~= out@);
}

/// Reads one integer from `bytes`, starting at `start`; returns its value and the position
/// behind it.
pub fn read_vint(bytes: &[u8], start: usize) -> (result: Result<(u64, usize), StoreError>)
    requires
        start <= bytes@.len(),
    ensures
        match (result, vint_read(bytes@.skip(start as int))) {
            (Ok((value, end)), Ok((expected, len))) => {
                &&& value == expected
                &&& end == start + len
                &&& end <= bytes@.len()
                &&& len >= 1
            },
            (Err(error), Err(expected)) => error == expected,
            _ => false,
        },
{
    let ghost suffix = bytes@.skip(start as int);
    let mut value: u64 = 0;
    let mut scale: u64 = 1;
    let mut count: usize = 0;
    let available: usize = bytes.len() - start;
    assert(vstd::arithmetic::power::pow(128, 0) == 1) by {
        reveal(vstd::arithmetic::power::pow);
    }
    assert(suffix.skip(0) =~= suffix);
    while count < 9
        invariant
            suffix == bytes@.skip(start as int),
            start <= bytes@.len(),
            available == suffix.len(),
            start + available == bytes.len(),
            count <= 9,
            count <= available,
            scale as int == vstd::arithmetic::power::pow(128, count as nat),
            value < scale,
            vint_prefix(suffix) == shifted(
                vint_prefix(suffix.skip(count as int)),
                value as nat,
                scale as nat,
                count as nat,
            ),
        decreases 9 - count,
    {
        if count == available {
            assert(suffix.skip(count as int).len() == 0);
            return Err(StoreError::TruncatedVInt);
        }
        let byte: u8 = bytes[start + count];
        proof {
            lemma_scale(count as nat);
            assert(suffix.skip(count as int)[0] == byte);
            assert(suffix.skip(count as int).skip(1) =~= suffix.skip(count + 1));
        }
        if byte >= STOP_BIT {
            assert((byte - 128) * scale + value < 128 * scale) by (nonlinear_arith)
                requires
                    value < scale,
                    128 <= byte,
            ;
            assert((byte - 128) * scale == scale * (byte - 128)) by (nonlinear_arith);
            value = value + (byte - STOP_BIT) as u64 * scale;
            count = count + 1;
            return Ok((value, start + count));
        }
        assert(byte * scale + value < 128 * scale) by (nonlinear_arith)
            requires
                value < scale,
                byte < 128,
        ;
        proof {
            if let Some((rest, len)) = vint_prefix(suffix.skip(count + 1)) {
                assert(value + scale * (byte + 128 * rest) == (value + byte * scale) + (scale * 128)
                    * rest) by (nonlinear_arith);
            }
        }
        value = value + byte as u64 * scale;
        scale = scale * 128;
        count = count + 1;
    }
    if available == 9 {
        assert(suffix.skip(9).len() == 0);
        return Err(StoreError::TruncatedVInt);
    }
    let byte: u8 = bytes[start + 9];
    proof {
        lemma_scale(9);
        assert(suffix.skip(9)[0] == byte);
        lemma_vint_prefix_len(suffix.skip(9).skip(1));
    }
    if byte < STOP_BIT {
        assert(suffix.len() >= 10);
        if available == 10 {
            return Err(StoreError::TruncatedVInt);
        }
        return Err(StoreError::OverlongVInt);
    }
    // Only the lowest bit of the tenth group fits 64 bits.
    let top: u64 = (byte % 2) as u64 * 0x8000_0000_0000_0000;
    value = value + top;
    Ok((value, start + 10))
}

/// Bytes without a stop bit hold no integer; within ten bytes they are cut off too early, and beyond
/// that too long.
pub proof fn lemma_vint_needs_a_stop_bit(bytes: Seq<u8>)
    requires
        forall|i: int| 0 <= i < bytes.len() ==> #[trigger] bytes[i] < 128,
    ensures
        vint_prefix(bytes) is None,
        bytes.len() <= 10 ==> vint_read(bytes) == Err::<(u64, nat), StoreError>(
            StoreError::TruncatedVInt,
        ),
        bytes.len() > 10 ==> vint_read(bytes) == Err::<(u64, nat), StoreError>(
            StoreError::OverlongVInt,
        ),
    decreases bytes.len(),
{
    if bytes.len() > 0 {
        let rest = bytes.skip(1);
        assert forall|i: int| 0 <= i < rest.len() implies #[trigger] rest[i] < 128 by {
            assert(bytes[i + 1] < 128);
        }
        lemma_vint_needs_a_stop_bit(rest);
    }
}

} // verus!
