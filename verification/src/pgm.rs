//! Gray images as files, in the binary PGM format.

use vstd::prelude::*;

verus! {

/// A number in decimal notation, as bytes.
pub open spec fn decimal_bytes(n: nat) -> Seq<u8>
    decreases n,
{
    if n < 10 {
        seq![(48 + n) as u8]
    } else {
        decimal_bytes(n / 10).push((48 + n % 10) as u8)
    }
}

/// The file of an image: the lines `P5`, width and height, and `255`, then the
/// pixels.
pub open spec fn pgm_of(width: nat, height: nat, pixels: Seq<u8>) -> Seq<u8> {
    seq![0x50u8, 0x35u8, 0x0au8] + decimal_bytes(width) + seq![0x20u8] + decimal_bytes(height)
        + seq![0x0au8, 0x32u8, 0x35u8, 0x35u8, 0x0au8] + pixels
}

/// Appends a number in decimal notation.
fn push_decimal(bytes: &mut Vec<u8>, n: usize)
    ensures
        final(bytes)@ == old(bytes)@ + decimal_bytes(n as nat),
    decreases n,
{
    if n < 10 {
        bytes.push(48 + n as u8);
        assert(bytes@ =~= old(bytes)@ + decimal_bytes(n as nat));
    } else {
        push_decimal(bytes, n / 10);
        bytes.push(48 + (n % 10) as u8);
        assert(bytes@ =~= old(bytes)@ + decimal_bytes(n as nat));
    }
}

/// The file of an image.
pub fn pgm(width: usize, height: usize, pixels: &Vec<u8>) -> (bytes: Vec<u8>)
    ensures
        bytes@ == pgm_of(width as nat, height as nat, pixels@),
{
    let mut bytes: Vec<u8> = Vec::new();
    bytes.push(0x50);
    bytes.push(0x35);
    bytes.push(0x0a);
    assert(bytes@ =~= seq![0x50u8, 0x35u8, 0x0au8]);
    push_decimal(&mut bytes, width);
    bytes.push(0x20);
    push_decimal(&mut bytes, height);
    let ghost size = bytes@;
    bytes.push(0x0a);
    bytes.push(0x32);
    bytes.push(0x35);
    bytes.push(0x35);
    bytes.push(0x0a);
    assert(bytes@ =~= size + seq![0x0au8, 0x32u8, 0x35u8, 0x35u8, 0x0au8]);
    let ghost header = bytes@;
    let mut k: usize = 0;
    while k < pixels.len()
        invariant
            k <= pixels@.len(),
            bytes@ == header + pixels@.take(k as int),
        decreases pixels.len() - k,
    {
        bytes.push(pixels[k]);
        k += 1;
        assert(bytes@ =~= header + pixels@.take(k as int));
    }
    proof {
        assert(pixels@.take(k as int) =~= pixels@);
        assert(bytes@ =~= pgm_of(width as nat, height as nat, pixels@));
    }
    bytes
}

} // verus!
