//! Big-endian encoding of unsigned integers, as used by every frame on the wire.
use vstd::prelude::*;

verus! {

/// The `width` low base-256 digits of `value`, most significant first.
pub open spec fn be_bytes(value: nat, width: nat) -> Seq<u8>
    decreases width,
{
    if width == 0 {
        Seq::empty()
    } else {
        be_bytes(value / 256, (width - 1) as nat).push((value % 256) as u8)
    }
}

/// The number whose base-256 digits, most significant first, are `bytes`.
pub open spec fn be_value(bytes: Seq<u8>) -> nat
    decreases bytes.len(),
{
    if bytes.len() == 0 {
        0
    } else {
        be_value(bytes.drop_last()) * 256 + bytes.last() as nat
    }
}

/// How many values `width` bytes can tell apart: 256 to the power of `width`.
pub open spec fn be_limit(width: nat) -> nat
    decreases width,
{
    if width == 0 {
        1
    } else {
        256 * be_limit((width - 1) as nat)
    }
}

/// An encoding has exactly the width that was asked for.
pub broadcast proof fn be_bytes_len(value: nat, width: nat)
    ensures
        #[trigger] be_bytes(value, width).len() == width,
    decreases width,
{
    if width > 0 {
        be_bytes_len(value / 256, (width - 1) as nat);
    }
}

/// Reading back what was written gives the value, whenever it fits the width.
pub proof fn be_value_of_be_bytes(value: nat, width: nat)
    requires
        value < be_limit(width),
    ensures
        be_value(be_bytes(value, width)) == value,
    decreases width,
{
    if width > 0 {
        be_value_of_be_bytes(value / 256, (width - 1) as nat);
        assert(be_bytes(value, width).drop_last() =~= be_bytes(value / 256, (width - 1) as nat));
    }
}

/// Writing what was read gives the bytes back.
pub proof fn be_bytes_of_be_value(bytes: Seq<u8>)
    ensures
        be_bytes(be_value(bytes), bytes.len()) == bytes,
    decreases bytes.len(),
{
    if bytes.len() > 0 {
        let front = bytes.drop_last();
        be_bytes_of_be_value(front);
        assert(be_value(bytes) / 256 == be_value(front));
        assert(be_value(bytes) % 256 == bytes.last());
        assert(front.push(bytes.last()) =~= bytes);
    } else {
        assert(bytes =~= Seq::empty());
    }
}

/// The value of `bytes` is below the limit of their number.
pub proof fn be_value_bound(bytes: Seq<u8>)
    ensures
        be_value(bytes) < be_limit(bytes.len()),
    decreases bytes.len(),
{
    if bytes.len() > 0 {
        be_value_bound(bytes.drop_last());
    }
}

/// Each byte of an encoding is the base-256 digit of its place, counted from the end,
/// and the limit of a width is 256 to its power.
pub proof fn be_bytes_are_digits(value: nat, width: nat, i: int)
    requires
        0 <= i < width,
    ensures
        be_bytes(value, width)[i] == value as int / vstd::arithmetic::power::pow(
            256,
            (width - 1 - i) as nat,
        ) % 256,
        be_limit(width) == vstd::arithmetic::power::pow(256, width),
    decreases width,
{
    reveal(vstd::arithmetic::power::pow);
    be_bytes_len(value / 256, (width - 1) as nat);
    be_limit_is_power(width);
    if i < width - 1 {
        let rest = (width - 2 - i) as nat;
        be_bytes_are_digits(value / 256, (width - 1) as nat, i);
        vstd::arithmetic::power::lemma_pow_positive(256, rest);
        vstd::arithmetic::div_mod::lemma_div_denominator(
            value as int,
            256,
            vstd::arithmetic::power::pow(256, rest),
        );
    }
}

/// The limit of a width is 256 to its power.
proof fn be_limit_is_power(width: nat)
    ensures
        be_limit(width) == vstd::arithmetic::power::pow(256, width),
    decreases width,
{
    reveal(vstd::arithmetic::power::pow);
    if width > 0 {
        be_limit_is_power((width - 1) as nat);
    }
}

/// The limits of the integer types that appear in frames.
pub proof fn be_limit_values()
    ensures
        be_limit(2) == 0x1_0000,
        be_limit(4) == 0x1_0000_0000,
        be_limit(8) == 0x1_0000_0000_0000_0000,
        be_limit(16) == 0x1_0000_0000_0000_0000_0000_0000_0000_0000,
{
    reveal_with_fuel(be_limit, 17);
}

/// The limits grow with the width.
pub proof fn be_limit_monotonic(a: nat, b: nat)
    requires
        a <= b,
    ensures
        1 <= be_limit(a) <= be_limit(b),
    decreases b,
{
    if a < b {
        be_limit_monotonic(a, (b - 1) as nat);
    } else if b > 0 {
        be_limit_monotonic((a - 1) as nat, (b - 1) as nat);
    }
}

/// Appends the `width` low bytes of `value`, most significant first.
pub fn push_be(out: &mut Vec<u8>, value: u128, width: usize)
    ensures
        final(out)@ == old(out)@ + be_bytes(value as nat, width as nat),
    decreases width,
{
    if width == 0 {
        assert(out@ + be_bytes(value as nat, 0) =~= out@);
    } else {
        push_be(out, value / 256, width - 1);
        out.push((value % 256) as u8);
        assert(out@ =~= old(out)@ + be_bytes(value as nat, width as nat));
    }
}

/// Appends all of `bytes`.
pub fn push_all(out: &mut Vec<u8>, bytes: &[u8])
    ensures
        final(out)@ == old(out)@ + bytes@,
{
    out.extend_from_slice(bytes);
    assert(out@ =~= old(out)@ + bytes@);
}

/// The number that `bytes` spell, most significant first.
pub fn read_be(bytes: &[u8]) -> (value: u128)
    requires
        bytes@.len() <= 16,
    ensures
        value == be_value(bytes@),
{
    let mut value: u128 = 0;
    let mut i: usize = 0;
    while i < bytes.len()
        invariant
            i <= bytes@.len() <= 16,
            value == be_value(bytes@.take(i as int)),
        decreases bytes@.len() - i,
    {
        proof {
            let next = bytes@.take(i + 1);
            assert(next.drop_last() =~= bytes@.take(i as int));
            be_value_bound(next);
            be_limit_monotonic(next.len(), 16);
            be_limit_values();
        }
        value = value * 256 + bytes[i] as u128;
        i = i + 1;
    }
    assert(bytes@.take(i as int) =~= bytes@);
    value
}

} // verus!
