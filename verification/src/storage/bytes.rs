use vstd::prelude::*;

verus! {

/// The four bytes of `x`, the most significant first.
#[verifier::opaque]
pub open spec fn be_bytes(x: u32) -> Seq<u8> {
    seq![
        (x / 0x100_0000) as u8,
        (x / 0x1_0000 % 0x100) as u8,
        (x / 0x100 % 0x100) as u8,
        (x % 0x100) as u8,
    ]
}

/// The number whose four bytes, the most significant first, start `bytes`.
pub open spec fn be_value(bytes: Seq<u8>) -> u32 {
    (bytes[0] * 0x100_0000 + bytes[1] * 0x1_0000 + bytes[2] * 0x100 + bytes[3]) as u32
}

/// Four bytes give back the number that they were made from.
pub proof fn lemma_be_value_of_bytes(x: u32)
    ensures
        be_bytes(x).len() == 4,
        be_value(be_bytes(x)) == x,
{
    reveal(be_bytes);
}

/// A number gives back the four bytes that it was read from.
pub proof fn lemma_be_bytes_of_value(bytes: Seq<u8>)
    requires
        bytes.len() == 4,
    ensures
        be_bytes(be_value(bytes)) == bytes,
{
    reveal(be_bytes);
    assert(be_bytes(be_value(bytes)) =~= bytes);
}

/// Writes the four bytes of `x`, the most significant first, over the bytes
/// of `buffer` from position `at` on.
pub fn write_u32_be(buffer: &mut Vec<u8>, at: usize, x: u32)
    requires
        at + 4 <= old(buffer).len(),
    ensures
        final(buffer).len() == old(buffer).len(),
        final(buffer)@ == old(buffer)@.subrange(0, at as int) + be_bytes(x) + old(buffer)@.subrange(
            at + 4,
            old(buffer).len() as int,
        ),
{
    proof {
        reveal(be_bytes);
    }
    buffer.set(at, (x / 0x100_0000) as u8);
    buffer.set(at + 1, (x / 0x1_0000 % 0x100) as u8);
    buffer.set(at + 2, (x / 0x100 % 0x100) as u8);
    buffer.set(at + 3, (x % 0x100) as u8);
    assert(buffer@ =~= old(buffer)@.subrange(0, at as int) + be_bytes(x) + old(buffer)@.subrange(
        at + 4,
        old(buffer).len() as int,
    ));
}

/// Reads the number whose four bytes, the most significant first, stand in
/// `buffer` from position `at` on.
pub fn read_u32_be(buffer: &Vec<u8>, at: usize) -> (x: u32)
    requires
        at + 4 <= buffer.len(),
    ensures
        x == be_value(buffer@.subrange(at as int, at + 4)),
{
    buffer[at] as u32 * 0x100_0000 + buffer[at + 1] as u32 * 0x1_0000 + buffer[at + 2] as u32 * 0x100
        + buffer[at + 3] as u32
}

} // verus!
