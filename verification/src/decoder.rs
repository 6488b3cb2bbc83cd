//! The decoder: one call consumes the bytes of at most one code point and
//! either completes it, asks for more input, or rejects what it was given.

use vstd::prelude::*;
use vstd::utf8::{is_continuation_byte, is_scalar};
use crate::expectations::{
    ErrorStatus, MultiByteError, MultiByteExpectations, expectations_of, leading_byte,
};
use crate::state::{MbState, cleared, extended, filled, is_clear};

verus! {

/// What one call does, as a function of the state and the input it is given.
pub enum Step {
    /// The state had all four positions set.
    Violation,
    /// There was no input.
    Nothing,
    /// A single seven-bit byte, decoded without consulting the state.
    Ascii { byte: u8 },
    /// The bytes cannot be, or cannot begin, the encoding of a scalar value.
    Malformed,
    /// All of the input was stored and the sequence is still unfinished.
    Partial { taken: nat },
    /// The sequence was finished with `taken` bytes of the input.
    Complete { code_point: u32, taken: nat },
}

/// The payload of the first `n` bytes of a sequence: the masked bits of the
/// leading byte, followed by the low six bits of each byte after it.
pub open spec fn assemble(bytes: Seq<u8>, mask: u8, n: nat) -> u32
    decreases n,
{
    if n <= 1 {
        (bytes[0] & mask) as u32
    } else {
        (assemble(bytes, mask, (n - 1) as nat) << 6) | ((bytes[n - 1] & 0x3f) as u32)
    }
}

/// Every byte of `src` from position `from` up to `to` is a continuation byte.
pub open spec fn all_continuation(src: Seq<u8>, from: int, to: int) -> bool {
    forall|i: int| from <= i < to ==> is_continuation_byte(#[trigger] src[i])
}

/// The state holds more bytes than its leading byte announces. No sequence of
/// calls that starts from the initial state leads here.
pub open spec fn overfull(state: Seq<u8>) -> bool {
    state[3] == 0 && match expectations_of(state[0]) {
        Some(e) => e.length < filled(state),
        None => false,
    }
}

impl MbState {
    /// Whether the state holds more bytes than its leading byte announces.
    pub fn is_overfull(&self) -> (r: bool)
        ensures
            r == overfull(self@),
    {
        let lead: u8 = self.seq[0];
        assert((lead & 0xe0) == 0xc0 <==> 0xc0 <= lead <= 0xdf) by (bit_vector);
        self.seq[3] == 0 && self.seq[2] != 0 && (lead & 0xe0) == 0xc0
    }
}

/// The state machine. `state` is the four bytes of the conversion state on
/// entry and `src` the input.
pub open spec fn step(state: Seq<u8>, src: Seq<u8>) -> Step {
    if state[3] != 0 {
        Step::Violation
    } else if src.len() == 0 {
        Step::Nothing
    } else if is_clear(state) && src[0] < 0x80 {
        Step::Ascii { byte: src[0] }
    } else {
        match expectations_of(leading_byte(state, src[0])) {
            None => Step::Malformed,
            Some(e) => {
                let wanted = e.length - filled(state);
                let taken = if src.len() < wanted {
                    src.len() as int
                } else {
                    wanted
                };
                let from = if filled(state) == 0 {
                    1int
                } else {
                    0int
                };
                if !all_continuation(src, from, taken) {
                    Step::Malformed
                } else if src.len() < wanted {
                    Step::Partial { taken: src.len() }
                } else {
                    let c = assemble(extended(state, src, wanted as nat), e.mask, e.length as nat);
                    if c < e.lower_bound || !is_scalar(c) {
                        Step::Malformed
                    } else {
                        Step::Complete { code_point: c, taken: wanted as nat }
                    }
                }
            },
        }
    }
}

/// What the call reports: the number of bytes consumed, zero for the null
/// code point and for empty input, or the error.
pub open spec fn reported(s: Step) -> Result<usize, MultiByteError> {
    match s {
        Step::Violation => Err(MultiByteError::IllegalSequence),
        Step::Nothing => Ok(0),
        Step::Ascii { byte } => Ok(
            if byte != 0 {
                1
            } else {
                0
            },
        ),
        Step::Malformed => Err(MultiByteError::IllegalSequence),
        Step::Partial { taken } => Err(MultiByteError::IncompleteSequence),
        Step::Complete { code_point, taken } => Ok(
            if code_point != 0 {
                taken as usize
            } else {
                0
            },
        ),
    }
}

/// The code point that the call decodes, if it decodes one.
pub open spec fn decoded(s: Step) -> Option<u32> {
    match s {
        Step::Ascii { byte } => Some(byte as u32),
        Step::Complete { code_point, taken } => Some(code_point),
        _ => None,
    }
}

/// The error status that the call sets, if it sets one.
pub open spec fn raised(s: Step) -> Option<ErrorStatus> {
    match s {
        Step::Violation => Some(ErrorStatus::InvalidArgument),
        Step::Malformed => Some(ErrorStatus::InvalidMultibyteSequence),
        _ => None,
    }
}

/// The state that the call leaves behind.
pub open spec fn state_after(state: Seq<u8>, src: Seq<u8>) -> Seq<u8> {
    match step(state, src) {
        Step::Nothing => state,
        Step::Ascii { byte } => state,
        Step::Partial { taken } => extended(state, src, taken),
        _ => cleared(),
    }
}

/// The bytes of an optional state on entry: an absent state counts as the
/// initial one.
pub open spec fn entry_state(state: Option<&mut MbState>) -> Seq<u8> {
    match state {
        Some(s) => s@,
        None => cleared(),
    }
}

/// The return value of the entry point for a reported result.
pub open spec fn encoded(r: Result<usize, MultiByteError>) -> usize {
    match r {
        Ok(n) => n,
        Err(e) => e.sentinel(),
    }
}

/// True iff the state, if one is given, holds no partial sequence.
pub fn mbstate_is_initial(state: Option<&MbState>) -> (r: bool)
    ensures
        r == match state {
            Some(s) => is_clear(s@),
            None => true,
        },
{
    match state {
        Some(s) => s.is_initial(),
        None => true,
    }
}

/// The state query with its result as an integer, nonzero for true.
pub fn mbsinit(mbstate: Option<&MbState>) -> (r: i32)
    ensures
        r == match mbstate {
            Some(s) => if is_clear(s@) { 1i32 } else { 0i32 },
            None => 1i32,
        },
{
    if mbstate_is_initial(mbstate) {
        1
    } else {
        0
    }
}

/// Decodes at most one code point from the front of `src`, continuing the
/// sequence that `state` holds. The code point goes to `dest`, the error
/// status of an illegal sequence to `status`; both are left alone otherwise.
#[verifier::loop_isolation(false)]
pub fn mbrtoc32_impl(
    dest: Option<&mut u32>,
    src: &[u8],
    state: Option<&mut MbState>,
    status: &mut Option<ErrorStatus>,
) -> (r: Result<usize, MultiByteError>)
    requires
        !overfull(entry_state(state)),
    ensures
        r == reported(step(entry_state(state), src@)),
        match state {
            Some(s) => final(s)@ == state_after(s@, src@),
            None => true,
        },
        match dest {
            Some(d) => *final(d) == match decoded(step(entry_state(state), src@)) {
                Some(c) => c,
                None => *d,
            },
            None => true,
        },
        *final(status) == match raised(step(entry_state(state), src@)) {
            Some(e) => Some(e),
            None => *old(status),
        },
{
    let ghost before = entry_state(state);
    let mut fallback_state = MbState::default();
    let state: &mut MbState = match state {
        Some(s) => s,
        None => &mut fallback_state,
    };

    // No run of calls fills the last position: a sequence of four bytes is
    // decoded, and the state reset, by the call that stores its last byte.
    if state.get_byte(3) != 0 {
        state.reset();
        *status = Some(ErrorStatus::InvalidArgument);
        return Err(MultiByteError::IllegalSequence);
    }
    if src.len() == 0 {
        return Ok(0);
    }
    let next_byte: u8 = src[0];
    assert((next_byte & !0x7f) == 0 <==> next_byte < 0x80) by (bit_vector);
    if state.is_initial() && (next_byte & !0x7f) == 0 {
        // Plain seven-bit characters need neither the state nor a
        // classification.
        match dest {
            Some(d) => {
                *d = next_byte as u32;
            },
            None => {},
        }
        return Ok(
            if next_byte != 0 {
                1
            } else {
                0
            },
        );
    }
    let expectations = match MultiByteExpectations::create(next_byte, state) {
        Ok(e) => e,
        Err(e) => {
            state.reset();
            *status = Some(ErrorStatus::InvalidMultibyteSequence);
            return Err(e);
        },
    };
    let have: usize = state.bytes_so_far();
    let bytes_wanted: usize = expectations.length - have;
    let taken: usize = if src.len() < bytes_wanted {
        src.len()
    } else {
        bytes_wanted
    };
    let ghost from: int = if have == 0 { 1 } else { 0 };
    let mut i: usize = 0;
    while i < taken
        invariant
            i <= taken,
            taken <= src.len(),
            taken <= bytes_wanted,
            all_continuation(src@, from, i as int),
            state@ =~= extended(before, src@, i as nat),
            *status == *old(status),
        decreases taken - i,
    {
        let byte: u8 = src[i];
        assert((byte & 0xc0) != 0x80 <==> !(0x80 <= byte <= 0xbf)) by (bit_vector);
        if !state.is_initial() && (byte & 0xc0) != 0x80 {
            // Malformed input: every byte after the leading one must be a
            // continuation byte.
            state.reset();
            *status = Some(ErrorStatus::InvalidMultibyteSequence);
            return Err(MultiByteError::IllegalSequence);
        }
        state.set_next_byte(byte);
        i += 1;
    }
    if src.len() < bytes_wanted {
        // The state keeps what was stored, for the next call to go on from.
        return Err(MultiByteError::IncompleteSequence);
    }
    let mut c32: u32 = (state.get_byte(0) & expectations.mask) as u32;
    let mut k: usize = 1;
    while k < expectations.length
        invariant
            1 <= k <= expectations.length,
            c32 == assemble(state@, expectations.mask, k as nat),
        decreases expectations.length - k,
    {
        c32 = (c32 << 6) | ((state.get_byte(k) & 0x3f) as u32);
        k += 1;
    }
    if c32 < expectations.lower_bound {
        // Malformed input: a shorter sequence encodes the same value.
        state.reset();
        *status = Some(ErrorStatus::InvalidMultibyteSequence);
        return Err(MultiByteError::IllegalSequence);
    }
    if (0xd800 <= c32 && c32 <= 0xdfff) || c32 > 0x10ffff {
        // Malformed input: not a Unicode scalar value.
        state.reset();
        *status = Some(ErrorStatus::InvalidMultibyteSequence);
        return Err(MultiByteError::IllegalSequence);
    }
    match dest {
        Some(d) => {
            *d = c32;
        },
        None => {},
    }
    state.reset();
    if c32 == 0 {
        Ok(0)
    } else {
        Ok(bytes_wanted)
    }
}

/// The input of the entry point: an absent input counts as a single null
/// byte.
pub open spec fn input_bytes(src: Option<&[u8]>) -> Seq<u8> {
    match src {
        Some(bytes) => bytes@,
        None => seq![0u8],
    }
}

/// The entry point. The result is the number of bytes consumed or the
/// reserved value of the error. An absent input is decoded as a single null
/// byte, and nothing is then written to `dest`.
pub fn mbrtoc32(
    dest: Option<&mut u32>,
    src: Option<&[u8]>,
    state: Option<&mut MbState>,
    status: &mut Option<ErrorStatus>,
) -> (r: usize)
    requires
        !overfull(entry_state(state)),
    ensures
        r == encoded(reported(step(entry_state(state), input_bytes(src)))),
        match state {
            Some(s) => final(s)@ == state_after(s@, input_bytes(src)),
            None => true,
        },
        match dest {
            Some(d) => *final(d) == match (src, decoded(step(entry_state(state), input_bytes(src)))) {
                (Some(_), Some(c)) => c,
                _ => *d,
            },
            None => true,
        },
        *final(status) == match raised(step(entry_state(state), input_bytes(src))) {
            Some(e) => Some(e),
            None => *old(status),
        },
{
    let result = match src {
        Some(bytes) => mbrtoc32_impl(dest, bytes, state, status),
        None => {
            let terminator = [0u8; 1];
            assert(terminator@ =~= seq![0u8]);
            mbrtoc32_impl(None, &terminator, state, status)
        },
    };
    match result {
        Ok(n) => n,
        Err(e) => e.to_c(),
    }
}

} // verus!
