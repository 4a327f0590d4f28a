//! Bit-expansion helpers: bytes to most-significant-bit-first 0/1 lists.

use vstd::prelude::*;

verus! {

/// The eight bits of `byte`, most significant first, each as 0 or 1.
pub fn byte_to_bitstring(byte: u8) -> (r: Vec<u8>)
    ensures
        r@.len() == 8,
        forall|i: int| 0 <= i < 8 ==> r@[i] == (byte >> ((7 - i) as u8)) & 1,
{
    let mut bits: Vec<u8> = Vec::new();
    let mut i: usize = 0;
    while i < 8
        invariant
            i <= 8,
            bits@.len() == i,
            forall|j: int| 0 <= j < i ==> bits@[j] == (byte >> ((7 - j) as u8)) & 1,
        decreases 8 - i,
    {
        let sh: u8 = (7 - i) as u8;
        bits.push((byte >> sh) & 1);
        i = i + 1;
    }
    bits
}

/// A copy of the byte list, unchanged.
pub fn data_to_byte_list(data: &Vec<u8>) -> (r: Vec<u8>)
    ensures
        r@ == data@,
{
    vstd::slice::slice_to_vec(data.as_slice())
}

/// The bits of every byte of `data` in order, most significant first within each byte.
pub fn str_to_bitstring(data: Vec<u8>) -> (r: Vec<u8>)
    ensures
        r@.len() == 8 * data@.len(),
        forall|i: int| 0 <= i < r@.len() ==> r@[i] == (data@[i / 8] >> ((7 - (i % 8)) as u8)) & 1,
{
    let bytes = data_to_byte_list(&data);
    let mut bit_list: Vec<u8> = Vec::new();
    let mut b: usize = 0;
    while b < bytes.len()
        invariant
            b <= bytes@.len(),
            bytes@ == data@,
            bit_list@.len() == 8 * b,
            forall|i: int| 0 <= i < bit_list@.len() ==> bit_list@[i] == (data@[i / 8] >> ((7 - (i
                % 8)) as u8)) & 1,
        decreases bytes@.len() - b,
    {
        let mut bits = byte_to_bitstring(bytes[b]);
        proof {
            assert forall|j: int| 0 <= j < 8 implies #[trigger] bits@[j] == (data@[(8 * b + j) / 8]
                >> ((7 - ((8 * b + j) % 8)) as u8)) & 1 by {
                assert((8 * b + j) / 8 == b) by (nonlinear_arith)
                    requires
                        0 <= j < 8,
                        0 <= b,
                ;
                assert((8 * b + j) % 8 == j) by (nonlinear_arith)
                    requires
                        0 <= j < 8,
                        0 <= b,
                ;
            }
        }
        bit_list.append(&mut bits);
        b = b + 1;
    }
    bit_list
}

} // verus!
