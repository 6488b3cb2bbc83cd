//! What the leading byte of a sequence announces, and the two ways in which a
//! call can fail.

use vstd::prelude::*;
use vstd::utf8::{is_leading_byte_width_2, is_leading_byte_width_3, is_leading_byte_width_4};
use crate::state::{MbState, filled};

verus! {

/// Why a call did not decode a code point.
#[derive(Clone, Copy, Debug, PartialEq, Eq, Structural)]
pub enum MultiByteError {
    /// The bytes are not the encoding of a Unicode scalar value.
    IllegalSequence,
    /// The bytes are a proper prefix of an encoding; more are needed.
    IncompleteSequence,
}

/// The error status that accompanies an illegal sequence.
#[derive(Clone, Copy, Debug, PartialEq, Eq, Structural)]
pub enum ErrorStatus {
    /// The state handed in had all four positions set.
    InvalidArgument,
    /// The input is malformed, overlong or outside the Unicode range.
    InvalidMultibyteSequence,
}

impl MultiByteError {
    /// The reserved return value that stands for the error: the largest
    /// `usize` for an illegal sequence, the one below it for an incomplete one.
    pub open spec fn sentinel(self) -> usize {
        match self {
            MultiByteError::IllegalSequence => usize::MAX,
            MultiByteError::IncompleteSequence => (usize::MAX - 1) as usize,
        }
    }

    pub fn to_c(self) -> (r: usize)
        ensures
            r == self.sentinel(),
            r > 4,
    {
        match self {
            MultiByteError::IllegalSequence => usize::MAX,
            MultiByteError::IncompleteSequence => usize::MAX - 1,
        }
    }
}

/// What a sequence that starts with a given leading byte must look like.
#[derive(Clone, Copy, Debug, PartialEq, Eq, Structural)]
pub struct MultiByteExpectations {
    /// The bits of the leading byte that carry payload.
    pub mask: u8,
    /// The number of bytes of the whole sequence.
    pub length: usize,
    /// The smallest code point that may be encoded in that many bytes.
    pub lower_bound: u32,
}

/// The expectations that a leading byte sets, if it is one of the three
/// multi-byte length prefixes.
pub open spec fn expectations_of(lead: u8) -> Option<MultiByteExpectations> {
    if is_leading_byte_width_2(lead) {
        Some(MultiByteExpectations { mask: 0x1f, length: 2, lower_bound: 0x80 })
    } else if is_leading_byte_width_3(lead) {
        Some(MultiByteExpectations { mask: 0x0f, length: 3, lower_bound: 0x800 })
    } else if is_leading_byte_width_4(lead) {
        Some(MultiByteExpectations { mask: 0x07, length: 4, lower_bound: 0x10000 })
    } else {
        None
    }
}

/// The byte that begins the sequence in progress: the first byte of the state
/// if it holds any, else the next byte of the input.
pub open spec fn leading_byte(s: Seq<u8>, next_byte: u8) -> u8 {
    if filled(s) == 0 {
        next_byte
    } else {
        s[0]
    }
}

impl MultiByteExpectations {
    /// Classifies the leading byte of the sequence in progress.
    pub fn create(next_byte: u8, state: &MbState) -> (r: Result<Self, MultiByteError>)
        requires
            state@[3] == 0,
        ensures
            match expectations_of(leading_byte(state@, next_byte)) {
                Some(e) => r == Ok::<Self, MultiByteError>(e),
                None => r == Err::<Self, MultiByteError>(MultiByteError::IllegalSequence),
            },
    {
        let first_byte = if state.bytes_so_far() == 0 {
            next_byte
        } else {
            state.get_byte(0)
        };
        assert((first_byte & 0xe0) == 0xc0 <==> 0xc0 <= first_byte <= 0xdf) by (bit_vector);
        assert((first_byte & 0xf0) == 0xe0 <==> 0xe0 <= first_byte <= 0xef) by (bit_vector);
        assert((first_byte & 0xf8) == 0xf0 <==> 0xf0 <= first_byte <= 0xf7) by (bit_vector);
        if (first_byte & 0xe0) == 0xc0 {
            Ok(MultiByteExpectations { mask: 0x1f, length: 2, lower_bound: 0x80 })
        } else if (first_byte & 0xf0) == 0xe0 {
            Ok(MultiByteExpectations { mask: 0x0f, length: 3, lower_bound: 0x800 })
        } else if (first_byte & 0xf8) == 0xf0 {
            Ok(MultiByteExpectations { mask: 0x07, length: 4, lower_bound: 0x10000 })
        } else {
            Err(MultiByteError::IllegalSequence)
        }
    }
}

} // verus!
