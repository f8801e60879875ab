//! Little-endian numbers in sequences of bytes.
use vstd::prelude::*;

verus! {

/// The number that two bytes stand for, least significant first.
pub open spec fn le16(b: Seq<u8>) -> u16 {
    (b[0] + 0x100 * b[1]) as u16
}

/// The number that four bytes stand for, least significant first.
pub open spec fn le32(b: Seq<u8>) -> u32 {
    (b[0] + 0x100 * b[1] + 0x1_0000 * b[2] + 0x100_0000 * b[3]) as u32
}

/// The number of 32 bits in two's complement that `n` stands for.
pub open spec fn signed32(n: u32) -> i32 {
    if n < 0x8000_0000 {
        n as i32
    } else {
        (n - 0x1_0000_0000) as i32
    }
}

/// The two low bytes of `n`, least significant first.
pub open spec fn bytes16(n: int) -> Seq<u8> {
    seq![(n % 0x100) as u8, (n / 0x100 % 0x100) as u8]
}

/// The four low bytes of `n`, least significant first.
pub open spec fn bytes32(n: int) -> Seq<u8> {
    seq![
        (n % 0x100) as u8,
        (n / 0x100 % 0x100) as u8,
        (n / 0x1_0000 % 0x100) as u8,
        (n / 0x100_0000 % 0x100) as u8,
    ]
}

/// Two bytes read back the number that was written into them.
pub proof fn bytes16_read_back(n: u16)
    ensures
        bytes16(n as int).len() == 2,
        le16(bytes16(n as int)) == n,
{
}

/// Four bytes read back the number that was written into them.
pub proof fn bytes32_read_back(n: u32)
    ensures
        bytes32(n as int).len() == 4,
        le32(bytes32(n as int)) == n,
{
    let m = n as int;
    assert(m == m % 0x100 + 0x100 * (m / 0x100 % 0x100) + 0x1_0000 * (m / 0x1_0000 % 0x100)
        + 0x100_0000 * (m / 0x100_0000 % 0x100));
}

/// The four bytes depend on the low 32 bits of a number only.
pub proof fn bytes32_of_low_bits(n: int)
    requires
        0 <= n,
    ensures
        bytes32(n) == bytes32(n % 0x1_0000_0000),
{
    let q = n / 0x1_0000_0000;
    let r = n % 0x1_0000_0000;
    assert(n == 0x1_0000_0000 * q + r);
    assert(n / 0x100 == 0x100_0000 * q + r / 0x100);
    assert(n / 0x1_0000 == 0x1_0000 * q + r / 0x1_0000);
    assert(n / 0x100_0000 == 0x100 * q + r / 0x100_0000);
}

/// The number in the first two bytes.
pub fn read16(b: &[u8]) -> (n: u16)
    requires
        b@.len() >= 2,
    ensures
        n == le16(b@),
{
    b[0] as u16 + 0x100 * b[1] as u16
}

/// The number in the first four bytes.
pub fn read32(b: &[u8]) -> (n: u32)
    requires
        b@.len() >= 4,
    ensures
        n == le32(b@),
{
    b[0] as u32 + 0x100 * b[1] as u32 + 0x1_0000 * b[2] as u32 + 0x100_0000 * b[3] as u32
}

/// The number of 32 bits in two's complement that `n` stands for.
pub fn as_signed(n: u32) -> (r: i32)
    ensures
        r == signed32(n),
{
    if n < 0x8000_0000 {
        n as i32
    } else {
        -((0xffff_ffff - n) as i32) - 1
    }
}

/// Appends a number in two bytes.
pub fn push16(v: &mut Vec<u8>, n: u16)
    ensures
        final(v)@ == old(v)@ + bytes16(n as int),
{
    v.push((n % 0x100) as u8);
    v.push((n / 0x100) as u8);
    assert(v@ =~= old(v)@ + bytes16(n as int));
}

/// Appends a number in four bytes.
pub fn push32(v: &mut Vec<u8>, n: u32)
    ensures
        final(v)@ == old(v)@ + bytes32(n as int),
{
    v.push((n % 0x100) as u8);
    v.push((n / 0x100 % 0x100) as u8);
    v.push((n / 0x1_0000 % 0x100) as u8);
    v.push((n / 0x100_0000) as u8);
    assert(v@ =~= old(v)@ + bytes32(n as int));
}

/// The low 32 bits of `n`.
pub fn low32(n: usize) -> (r: u32)
    ensures
        r == n as int % 0x1_0000_0000,
{
    (n as u64 % 0x1_0000_0000) as u32
}

/// Appends the given bytes.
pub fn push_all(v: &mut Vec<u8>, bytes: &[u8])
    ensures
        final(v)@ == old(v)@ + bytes@,
{
    v.extend_from_slice(bytes);
    assert(v@ =~= old(v)@ + bytes@);
}

/// The weight of each byte is 256 times that of the byte before it.
pub proof fn bytes_have_weights(b: Seq<u8>)
    ensures
        b.len() >= 2 ==> le16(b) == b[0] + 256 * b[1],
        b.len() >= 4 ==> le32(b) == b[0] + 256 * b[1] + 65_536 * b[2] + 16_777_216 * b[3],
{
}

/// Numbers are written with the lowest byte first.
pub proof fn numbers_are_written_low_byte_first(n: u16, m: u32)
    ensures
        bytes16(n as int).len() == 2,
        n == bytes16(n as int)[0] + 256 * bytes16(n as int)[1],
        bytes32(m as int).len() == 4,
        m == bytes32(m as int)[0] + 256 * bytes32(m as int)[1] + 65_536 * bytes32(m as int)[2]
            + 16_777_216 * bytes32(m as int)[3],
{
    bytes32_read_back(m);
}

/// The sign of a number stands in its highest bit: a number and the signed number that it stands
/// for differ by nothing or by 2^32.
pub proof fn signs_are_in_the_highest_bit(n: u32)
    ensures
        signed32(n) == n || signed32(n) == n - 4_294_967_296,
        signed32(n) < 0 <==> n >= 2_147_483_648,
{
}

} // verus!
