//! The conversion state: four bytes that hold the part of a multi-byte
//! sequence that has been seen so far.

use vstd::prelude::*;

verus! {

/// The state in which no sequence is in progress: four zero bytes.
pub open spec fn cleared() -> Seq<u8> {
    seq![0u8, 0u8, 0u8, 0u8]
}

/// Whether the four bytes hold no partial sequence.
pub open spec fn is_clear(s: Seq<u8>) -> bool {
    s[0] == 0 && s[1] == 0 && s[2] == 0 && s[3] == 0
}

/// How many bytes of a sequence the state holds: the position just after the
/// last nonzero byte among the first three.
pub open spec fn filled(s: Seq<u8>) -> nat {
    if s[2] != 0 {
        3
    } else if s[1] != 0 {
        2
    } else if s[0] != 0 {
        1
    } else {
        0
    }
}

/// The state `s` with the first `n` bytes of `src` stored after the bytes it
/// already holds.
pub open spec fn extended(s: Seq<u8>, src: Seq<u8>, n: nat) -> Seq<u8> {
    Seq::new(
        4,
        |j: int|
            if filled(s) <= j < filled(s) + n {
                src[j - filled(s)]
            } else {
                s[j]
            },
    )
}

/// Conversion state of a decoder. The layout is four contiguous bytes, and the
/// all-zero value is the initial state.
#[derive(Clone, Copy, Debug)]
pub struct MbState {
    pub seq: [u8; 4],
}

impl View for MbState {
    type V = Seq<u8>;

    open spec fn view(&self) -> Seq<u8> {
        self.seq@
    }
}

impl Default for MbState {
    fn default() -> (s: Self)
        ensures
            s@ == cleared(),
            is_clear(s@),
    {
        let s = MbState { seq: [0u8; 4] };
        assert(s@ =~= cleared());
        s
    }
}

impl MbState {
    /// True iff no partial sequence is in progress.
    pub fn is_initial(&self) -> (r: bool)
        ensures
            r == is_clear(self@),
    {
        self.seq[0] == 0 && self.seq[1] == 0 && self.seq[2] == 0 && self.seq[3] == 0
    }

    /// The byte stored at position `idx`.
    pub fn get_byte(&self, idx: usize) -> (b: u8)
        requires
            idx < 4,
        ensures
            b == self@[idx as int],
    {
        self.seq[idx]
    }

    /// Stores `b` after the bytes already held.
    pub fn set_next_byte(&mut self, b: u8)
        requires
            old(self)@[3] == 0,
        ensures
            final(self)@ == old(self)@.update(filled(old(self)@) as int, b),
    {
        let at = self.bytes_so_far();
        self.seq[at] = b;
    }

    /// Returns to the initial state.
    pub fn reset(&mut self)
        ensures
            final(self)@ == cleared(),
            is_clear(final(self)@),
    {
        self.seq = [0u8; 4];
        assert(self@ =~= cleared());
    }

    /// The number of bytes held, from 0 to 3. The last position must be free.
    pub fn bytes_so_far(&self) -> (n: usize)
        requires
            self@[3] == 0,
        ensures
            n == filled(self@),
            n <= 3,
    {
        if self.seq[2] != 0 {
            3
        } else if self.seq[1] != 0 {
            2
        } else if self.seq[0] != 0 {
            1
        } else {
            0
        }
    }

    /// The four bytes as they are stored.
    pub fn bytes(&self) -> (b: &[u8; 4])
        ensures
            b@ == self@,
    {
        &self.seq
    }
}

} // verus!
