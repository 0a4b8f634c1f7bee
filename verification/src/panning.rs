//! How a panning is stored in a byte.
//!
//! In memory a panning is a signed number, 0 for the centre. In a file it is
//! that number as one byte in two's complement, without a bias. Notes and
//! layers go through the two functions of this module, so that this is the
//! one place that knows.

use crate::endian::{i8_from_byte, i8_to_byte, lemma_i8_from_its_byte};
use vstd::prelude::*;

verus! {

/// The byte that stands for `panning` in a file.
pub open spec fn panning_byte(panning: i8) -> u8 {
    i8_to_byte(panning)
}

/// The panning that `byte` stands for in a file.
pub open spec fn panning_of(byte: u8) -> i8 {
    i8_from_byte(byte)
}

/// The panning that is read from the byte of `panning` is `panning`.
pub proof fn lemma_panning_read_back(panning: i8)
    ensures
        panning_of(panning_byte(panning)) == panning,
{
    lemma_i8_from_its_byte(panning);
}

/// The byte to write for `panning`.
pub fn panning_to_byte(panning: i8) -> (byte: u8)
    ensures
        byte == panning_byte(panning),
{
    if panning < 0 {
        (panning as i16 + 256) as u8
    } else {
        panning as u8
    }
}

/// The panning that was read as `byte`.
pub fn panning_from_byte(byte: u8) -> (panning: i8)
    ensures
        panning == panning_of(byte),
{
    if byte < 128 {
        byte as i8
    } else {
        (byte as i16 - 256) as i8
    }
}

} // verus!
