//! Little-endian numbers.
use vstd::prelude::*;

verus! {

/// The number in the four bytes from `at` on, the lowest byte first.
pub open spec fn le_u32(bytes: Seq<u8>, at: int) -> int {
    bytes[at] + 256 * bytes[at + 1] + 65536 * bytes[at + 2] + 16777216 * bytes[at + 3]
}

/// The four bytes of a number, the lowest first.
pub open spec fn le_bytes(value: int) -> Seq<u8> {
    seq![
        (value % 256) as u8,
        (value / 256 % 256) as u8,
        (value / 65536 % 256) as u8,
        (value / 16777216 % 256) as u8,
    ]
}

/// The lowest 32 bits of a number.
pub open spec fn low_u32(value: int) -> int {
    value % 0x1_0000_0000
}

/// Reads the number in the four bytes from `at` on.
pub fn read_u32(bytes: &[u8], at: usize) -> (value: u32)
    requires
        at + 4 <= bytes@.len(),
    ensures
        value == le_u32(bytes@, at as int),
{
    bytes[at] as u32 + 256 * bytes[at + 1] as u32 + 65536 * bytes[at + 2] as u32 + 16777216
        * bytes[at + 3] as u32
}

/// Appends the four bytes of a number.
pub fn push_u32(bytes: &mut Vec<u8>, value: u32)
    ensures
        final(bytes)@ == old(bytes)@ + le_bytes(value as int),
{
    bytes.push((value % 256) as u8);
    bytes.push((value / 256 % 256) as u8);
    bytes.push((value / 65536 % 256) as u8);
    bytes.push((value / 16777216 % 256) as u8);
    assert(bytes@ =~= old(bytes)@ + le_bytes(value as int));
}

/// The lowest 32 bits of a number.
pub fn truncate_u32(value: usize) -> (low: u32)
    ensures
        low == low_u32(value as int),
{
    (value as u64 % 0x1_0000_0000) as u32
}

/// What was written is read back.
#[verifier::spinoff_prover]
pub proof fn law_u32_round_trip(value: int)
    requires
        0 <= value < 0x1_0000_0000,
    ensures
        le_u32(le_bytes(value), 0) == value,
        le_bytes(value).len() == 4,
{
}

/// What was read is what would be written.
#[verifier::spinoff_prover]
pub proof fn law_bytes_round_trip(bytes: Seq<u8>)
    requires
        bytes.len() == 4,
    ensures
        0 <= le_u32(bytes, 0) < 0x1_0000_0000,
        le_bytes(le_u32(bytes, 0)) == bytes,
{
    let value = le_u32(bytes, 0);
    let upper = bytes[1] + 256 * (bytes[2] + 256 * bytes[3]);
    let top = bytes[2] + 256 * bytes[3];
    assert(value == bytes[0] + 256 * upper);
    assert(value % 256 == bytes[0] && value / 256 == upper);
    assert(upper == bytes[1] + 256 * top);
    assert(upper % 256 == bytes[1] && upper / 256 == top);
    assert(top % 256 == bytes[2] && top / 256 == bytes[3]);
    assert(value / 65536 == top);
    assert(value / 16777216 == bytes[3]);
    assert(le_bytes(value) =~= bytes);
}

/// The first byte is the lowest: it counts single units, and each byte counts 256
/// times as much as the one before.
pub proof fn law_lowest_byte_first(bytes: Seq<u8>, at: int)
    requires
        0 <= at,
        at + 4 <= bytes.len(),
    ensures
        le_u32(bytes, at) - bytes[at] - 256 * bytes[at + 1] - 65536 * bytes[at + 2] - 16777216
            * bytes[at + 3] == 0,
        0 <= le_u32(bytes, at) < 0x1_0000_0000,
{
}

/// The lowest 32 bits of a number differ from it by a multiple of what the next
/// bit counts.
pub proof fn law_low_bits(value: int)
    ensures
        0 <= low_u32(value) < 0x1_0000_0000,
        (value - low_u32(value)) % 0x1_0000_0000 == 0,
        0 <= value < 0x1_0000_0000 ==> low_u32(value) == value,
{
}

} // verus!
