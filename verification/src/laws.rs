//! What holds of the decoder on whole classes of inputs, proved from the
//! state machine of the decoder.

use vstd::prelude::*;
use vstd::utf8::{
    codepoint_width_2, codepoint_width_3, codepoint_width_4, decode_first_scalar, encode_scalar,
    is_continuation_byte, is_scalar, last_continuation_byte, leading_byte_width_2,
    leading_byte_width_3, leading_byte_width_4, length_of_first_scalar,
    second_last_continuation_byte, third_last_continuation_byte, valid_first_scalar,
};
use crate::decoder::{
    Step, all_continuation, assemble, decoded, overfull, raised, reported, state_after, step,
};
use crate::expectations::{ErrorStatus, MultiByteError, expectations_of, leading_byte};
use crate::state::{cleared, extended, filled, is_clear};

verus! {

/// The code point `c` written in `width` bytes, whether or not that is the
/// shortest form: the leading byte of that width, then six bits per byte.
pub open spec fn encode_in(c: u32, width: nat) -> Seq<u8> {
    if width == 2 {
        seq![leading_byte_width_2(c), last_continuation_byte(c)]
    } else if width == 3 {
        seq![
            leading_byte_width_3(c),
            second_last_continuation_byte(c),
            last_continuation_byte(c),
        ]
    } else {
        seq![
            leading_byte_width_4(c),
            third_last_continuation_byte(c),
            second_last_continuation_byte(c),
            last_continuation_byte(c),
        ]
    }
}

/// The largest value that fits in the payload bits of `width` bytes.
pub open spec fn capacity(width: nat) -> u32 {
    if width == 2 {
        0x7ff
    } else if width == 3 {
        0xffff
    } else {
        0x1f_ffff
    }
}

/// The smallest value whose shortest form has `width` bytes.
pub open spec fn shortest_from(width: nat) -> u32 {
    if width == 2 {
        0x80
    } else if width == 3 {
        0x800
    } else {
        0x1_0000
    }
}

proof fn lemma_bits_in_two(c: u32)
    by (bit_vector)
    requires
        c <= 0x7ff,
    ensures
        0xc0 <= leading_byte_width_2(c) <= 0xdf,
        0x80 <= last_continuation_byte(c) <= 0xbf,
        (((leading_byte_width_2(c) & 0x1f) as u32) << 6) | ((last_continuation_byte(c) & 0x3f) as u32)
            == c,
{
}

proof fn lemma_bits_in_three(c: u32)
    by (bit_vector)
    requires
        c <= 0xffff,
    ensures
        0xe0 <= leading_byte_width_3(c) <= 0xef,
        0x80 <= second_last_continuation_byte(c) <= 0xbf,
        0x80 <= last_continuation_byte(c) <= 0xbf,
        (((((leading_byte_width_3(c) & 0x0f) as u32) << 6) | ((second_last_continuation_byte(c)
            & 0x3f) as u32)) << 6) | ((last_continuation_byte(c) & 0x3f) as u32) == c,
{
}

proof fn lemma_bits_in_four(c: u32)
    by (bit_vector)
    requires
        c <= 0x1f_ffff,
    ensures
        0xf0 <= leading_byte_width_4(c) <= 0xf7,
        0x80 <= third_last_continuation_byte(c) <= 0xbf,
        0x80 <= second_last_continuation_byte(c) <= 0xbf,
        0x80 <= last_continuation_byte(c) <= 0xbf,
        (((((((leading_byte_width_4(c) & 0x07) as u32) << 6) | ((third_last_continuation_byte(c)
            & 0x3f) as u32)) << 6) | ((second_last_continuation_byte(c) & 0x3f) as u32)) << 6) | ((
        last_continuation_byte(c) & 0x3f) as u32) == c,
{
}

/// The bytes of `encode_in(c, width)`: a leading byte of that width, then
/// continuation bytes, whose payload is `c`.
proof fn lemma_encode_in(c: u32, width: nat)
    requires
        2 <= width <= 4,
        c <= capacity(width),
    ensures
        encode_in(c, width).len() == width,
        expectations_of(encode_in(c, width)[0]) is Some,
        expectations_of(encode_in(c, width)[0])->0.length == width,
        expectations_of(encode_in(c, width)[0])->0.lower_bound == shortest_from(width),
        all_continuation(encode_in(c, width), 1, width as int),
        assemble(encode_in(c, width), expectations_of(encode_in(c, width)[0])->0.mask, width) == c,
{
    reveal_with_fuel(assemble, 5);
    if width == 2 {
        lemma_bits_in_two(c);
    } else if width == 3 {
        lemma_bits_in_three(c);
    } else {
        lemma_bits_in_four(c);
    }
}

/// From the initial state, `c` written in `width` bytes and followed by
/// anything is decoded to `c` with `width` bytes consumed if that is the
/// shortest form of a scalar value, and is rejected otherwise.
pub proof fn lemma_decode_encode_in(c: u32, width: nat, rest: Seq<u8>)
    requires
        2 <= width <= 4,
        c <= capacity(width),
    ensures
        step(cleared(), encode_in(c, width) + rest) == if shortest_from(width) <= c && is_scalar(c) {
            Step::Complete { code_point: c, taken: width }
        } else {
            Step::Malformed
        },
{
    let enc = encode_in(c, width);
    let src = enc + rest;
    lemma_encode_in(c, width);
    let e = expectations_of(enc[0])->0;
    assert(src[0] == enc[0]);
    assert(all_continuation(src, 1, width as int)) by {
        assert forall|i: int| 1 <= i < width implies is_continuation_byte(#[trigger] src[i]) by {
            assert(src[i] == enc[i]);
        }
    }
    lemma_assemble_prefix(extended(cleared(), src, width), enc, e.mask, width);
}

/// `assemble` reads only the first `n` bytes.
proof fn lemma_assemble_prefix(a: Seq<u8>, b: Seq<u8>, mask: u8, n: nat)
    requires
        n >= 1,
        a.len() >= n,
        b.len() >= n,
        forall|i: int| 0 <= i < n ==> a[i] == b[i],
    ensures
        assemble(a, mask, n) == assemble(b, mask, n),
    decreases n,
{
    if n > 1 {
        lemma_assemble_prefix(a, b, mask, (n - 1) as nat);
    }
}

/// The number of bytes of the shortest form of a scalar value.
pub open spec fn width_of(c: u32) -> nat {
    if c < 0x80 {
        1
    } else if c < 0x800 {
        2
    } else if c < 0x1_0000 {
        3
    } else {
        4
    }
}

proof fn lemma_encode_scalar(c: u32)
    requires
        is_scalar(c),
    ensures
        encode_scalar(c).len() == width_of(c),
        c < 0x80 ==> encode_scalar(c)[0] == c,
        c >= 0x80 ==> encode_scalar(c) == encode_in(c, width_of(c)),
{
    assert(c <= 0x7f ==> (c & 0x7f) as u8 == c) by (bit_vector);
}

/// Every scalar value is decoded from its encoding. From the initial state,
/// the encoding of `c`, followed by anything, gives `c`, leaves the state
/// initial and sets no error status; the count of bytes consumed is the
/// length of the encoding, but 0 where `c` is the null code point.
pub proof fn lemma_decodes_every_scalar(c: u32, rest: Seq<u8>)
    requires
        is_scalar(c),
    ensures
        reported(step(cleared(), encode_scalar(c) + rest)) == Ok::<usize, MultiByteError>(
            if c == 0 {
                0usize
            } else {
                encode_scalar(c).len() as usize
            },
        ),
        decoded(step(cleared(), encode_scalar(c) + rest)) == Some(c),
        raised(step(cleared(), encode_scalar(c) + rest)) is None,
        state_after(cleared(), encode_scalar(c) + rest) == cleared(),
{
    lemma_encode_scalar(c);
    let src = encode_scalar(c) + rest;
    assert(src[0] == encode_scalar(c)[0]);
    if c >= 0x80 {
        lemma_decode_encode_in(c, width_of(c), rest);
    }
}

/// An overlong encoding is rejected. A code point written in more bytes than
/// its shortest form needs is an illegal sequence with the status of an
/// invalid multi-byte sequence, and the state is initial afterwards.
pub proof fn lemma_overlong_rejected(c: u32, width: nat, rest: Seq<u8>)
    requires
        2 <= width <= 4,
        c < shortest_from(width),
    ensures
        step(cleared(), encode_in(c, width) + rest) == Step::Malformed,
        reported(Step::Malformed) == Err::<usize, MultiByteError>(MultiByteError::IllegalSequence),
        raised(Step::Malformed) == Some(ErrorStatus::InvalidMultibyteSequence),
        state_after(cleared(), encode_in(c, width) + rest) == cleared(),
{
    lemma_decode_encode_in(c, width, rest);
}

/// The three-byte encoding of a surrogate code point is an illegal sequence,
/// and the state is initial afterwards.
pub proof fn lemma_surrogate_rejected(c: u32, rest: Seq<u8>)
    requires
        0xd800 <= c <= 0xdfff,
    ensures
        step(cleared(), encode_in(c, 3) + rest) == Step::Malformed,
        reported(Step::Malformed) == Err::<usize, MultiByteError>(MultiByteError::IllegalSequence),
        state_after(cleared(), encode_in(c, 3) + rest) == cleared(),
{
    lemma_decode_encode_in(c, 3, rest);
}

/// The four-byte encoding of a value above the last code point is an illegal
/// sequence, and the state is initial afterwards.
pub proof fn lemma_beyond_last_code_point_rejected(c: u32, rest: Seq<u8>)
    requires
        0x10_ffff < c <= 0x1f_ffff,
    ensures
        step(cleared(), encode_in(c, 4) + rest) == Step::Malformed,
        state_after(cleared(), encode_in(c, 4) + rest) == cleared(),
{
    lemma_decode_encode_in(c, 4, rest);
}

/// With no sequence in progress, input that begins with a continuation byte,
/// or with any other byte above 0x7f that no sequence can begin with, is an
/// illegal sequence.
pub proof fn lemma_stray_byte_rejected(state: Seq<u8>, src: Seq<u8>)
    requires
        is_clear(state),
        src.len() > 0,
        is_continuation_byte(src[0]) || src[0] >= 0xf8,
    ensures
        step(state, src) == Step::Malformed,
        reported(step(state, src)) == Err::<usize, MultiByteError>(MultiByteError::IllegalSequence),
        state_after(state, src) == cleared(),
{
}

/// A byte that is not a continuation byte, in a place where the sequence in
/// progress needs one, makes the call an illegal sequence and resets the
/// state. `at` is the place in the input: any byte that the call takes, but
/// the first where that one begins the sequence.
pub proof fn lemma_bad_continuation_rejected(state: Seq<u8>, src: Seq<u8>, at: int)
    requires
        state.len() == 4,
        state[3] == 0,
        !overfull(state),
        0 <= at < src.len(),
        !is_clear(state) || (src[0] >= 0x80 && at >= 1),
        expectations_of(leading_byte(state, src[0])) is Some,
        filled(state) + at < expectations_of(leading_byte(state, src[0]))->0.length,
        !is_continuation_byte(src[at]),
    ensures
        step(state, src) == Step::Malformed,
        reported(step(state, src)) == Err::<usize, MultiByteError>(MultiByteError::IllegalSequence),
        raised(step(state, src)) == Some(ErrorStatus::InvalidMultibyteSequence),
        state_after(state, src) == cleared(),
{
}

/// Which state a call leaves. After an illegal sequence the state is initial.
/// After an incomplete sequence it is not. After a success it is initial,
/// unless the call was made with empty input on a sequence in progress, which
/// it leaves as it was.
pub proof fn lemma_state_after_call(state: Seq<u8>, src: Seq<u8>)
    requires
        state.len() == 4,
        !overfull(state),
    ensures
        reported(step(state, src)) == Err::<usize, MultiByteError>(MultiByteError::IllegalSequence)
            ==> is_clear(state_after(state, src)),
        reported(step(state, src)) == Err::<usize, MultiByteError>(
            MultiByteError::IncompleteSequence,
        ) ==> !is_clear(state_after(state, src)),
        reported(step(state, src)) is Ok && (src.len() > 0 || is_clear(state)) ==> is_clear(
            state_after(state, src),
        ),
        reported(step(state, src)) is Ok && src.len() == 0 ==> state_after(state, src) == state,
{
    if step(state, src) is Partial {
        lemma_partial_state(state, src);
    }
}

/// After an incomplete sequence the state holds what it held and all of the
/// input, none of it zero.
proof fn lemma_partial_state(state: Seq<u8>, src: Seq<u8>)
    requires
        state.len() == 4,
        !overfull(state),
        step(state, src) is Partial,
    ensures
        step(state, src) == (Step::Partial { taken: src.len() }),
        state_after(state, src) == extended(state, src, src.len()),
        expectations_of(leading_byte(state, src[0])) is Some,
        filled(state) + src.len() < expectations_of(leading_byte(state, src[0]))->0.length,
        filled(state_after(state, src)) == filled(state) + src.len(),
        state_after(state, src)[3] == 0,
        state_after(state, src)[0] == leading_byte(state, src[0]),
        !is_clear(state_after(state, src)),
{
    let from = if filled(state) == 0 { 1int } else { 0int };
    assert(all_continuation(src, from, src.len() as int));
    assert forall|i: int| 0 <= i < src.len() implies src[i] != 0 by {
        if i >= from {
            assert(is_continuation_byte(src[i]));
        }
    }
    let after = extended(state, src, src.len());
    assert(after[filled(state) + src.len() - 1] == src[src.len() - 1]);
}

/// The null input. With no sequence in progress a single null byte, which is
/// what an absent input stands for, reports 0 bytes, leaves the state as it
/// was and sets no error status.
pub proof fn lemma_null_input(state: Seq<u8>)
    requires
        is_clear(state),
    ensures
        step(state, seq![0u8]) == (Step::Ascii { byte: 0 }),
        reported(step(state, seq![0u8])) == Ok::<usize, MultiByteError>(0),
        raised(step(state, seq![0u8])) is None,
        state_after(state, seq![0u8]) == state,
{
}

/// The seven-bit path. With no sequence in progress a first byte from 0x01 to
/// 0x7f decodes to itself with one byte consumed, whatever follows it; the
/// state is left as it was and no error status is set.
pub proof fn lemma_ascii_decodes_to_itself(state: Seq<u8>, src: Seq<u8>)
    requires
        is_clear(state),
        src.len() > 0,
        0x01 <= src[0] <= 0x7f,
    ensures
        step(state, src) == (Step::Ascii { byte: src[0] }),
        reported(step(state, src)) == Ok::<usize, MultiByteError>(1),
        decoded(step(state, src)) == Some(src[0] as u32),
        raised(step(state, src)) is None,
        state_after(state, src) == state,
{
}

/// What a call reports when the first `n` bytes of the sequence were handed
/// over by an earlier call: the same, with `n` bytes fewer taken.
pub open spec fn resumed(s: Step, n: nat) -> Step {
    match s {
        Step::Partial { taken } => Step::Partial { taken: (taken - n) as nat },
        Step::Complete { code_point, taken } => Step::Complete {
            code_point,
            taken: (taken - n) as nat,
        },
        other => other,
    }
}

/// A sequence may arrive in two calls. Where a call on `first` alone reports
/// an incomplete sequence, a second call on `second`, with the state that the
/// first one left, decodes the same code point, or fails in the same way, and
/// leaves the same state as one call on both parts together; its count is
/// that of the single call less the bytes that the first call took.
pub proof fn lemma_split_resumes(state: Seq<u8>, first: Seq<u8>, second: Seq<u8>)
    requires
        state.len() == 4,
        !overfull(state),
        step(state, first) is Partial,
        second.len() > 0,
    ensures
        !overfull(state_after(state, first)),
        step(state_after(state, first), second) == resumed(
            step(state, first + second),
            first.len(),
        ),
        state_after(state_after(state, first), second) == state_after(state, first + second),
{
    lemma_partial_state(state, first);
    let mid = state_after(state, first);
    let whole = first + second;
    let have = filled(state);
    let n = first.len();
    let e = expectations_of(leading_byte(state, first[0]))->0;
    let from = if have == 0 { 1int } else { 0int };
    assert(whole[0] == first[0]);
    assert(leading_byte(mid, second[0]) == leading_byte(state, whole[0]));
    let wanted = e.length - have;
    let taken_whole = if whole.len() < wanted { whole.len() as int } else { wanted };
    let taken_second = taken_whole - n;
    assert(all_continuation(first, from, n as int));
    if all_continuation(whole, from, taken_whole) {
        assert forall|i: int| 0 <= i < taken_second implies is_continuation_byte(
            #[trigger] second[i],
        ) by {
            assert(whole[i + n] == second[i]);
        }
    }
    if all_continuation(second, 0, taken_second) {
        assert forall|i: int| from <= i < taken_whole implies is_continuation_byte(
            #[trigger] whole[i],
        ) by {
            if i < n {
                assert(whole[i] == first[i]);
            } else {
                assert(whole[i] == second[i - n]);
            }
        }
    }
    assert(extended(mid, second, taken_second as nat) =~= extended(
        state,
        whole,
        taken_whole as nat,
    )) by {
        let resumed_state = extended(mid, second, taken_second as nat);
        let single_state = extended(state, whole, taken_whole as nat);
        assert forall|j: int| 0 <= j < 4 implies #[trigger] resumed_state[j] == single_state[j] by {
            if have <= j < have + n {
                assert(whole[j - have] == first[j - have]);
            } else if have + n <= j < have + taken_whole {
                assert(whole[j - have] == second[j - have - n]);
            }
        }
    }
}

/// A multi-byte encoding split at any byte boundary. The call on the first
/// `at` bytes of the encoding of `c` reports an incomplete sequence and keeps
/// those bytes in the state; the call on the remaining bytes, with that
/// state, decodes `c`, consumes the remaining bytes and leaves the state
/// initial.
pub proof fn lemma_split_encoding(c: u32, at: int)
    requires
        is_scalar(c),
        0 < at < encode_scalar(c).len(),
    ensures
        step(cleared(), encode_scalar(c).subrange(0, at)) == (Step::Partial { taken: at as nat }),
        state_after(cleared(), encode_scalar(c).subrange(0, at)) == extended(
            cleared(),
            encode_scalar(c),
            at as nat,
        ),
        !is_clear(state_after(cleared(), encode_scalar(c).subrange(0, at))),
        step(
            state_after(cleared(), encode_scalar(c).subrange(0, at)),
            encode_scalar(c).subrange(at, encode_scalar(c).len() as int),
        ) == (Step::Complete { code_point: c, taken: (encode_scalar(c).len() - at) as nat }),
        state_after(
            state_after(cleared(), encode_scalar(c).subrange(0, at)),
            encode_scalar(c).subrange(at, encode_scalar(c).len() as int),
        ) == cleared(),
{
    lemma_encode_scalar(c);
    let enc = encode_scalar(c);
    let width = width_of(c);
    let first = enc.subrange(0, at);
    let second = enc.subrange(at, enc.len() as int);
    lemma_encode_in(c, width);
    lemma_decode_encode_in(c, width, Seq::<u8>::empty());
    assert(enc + Seq::<u8>::empty() =~= enc);
    assert(first + second =~= enc);
    assert(first[0] == enc[0]);
    assert(all_continuation(first, 1, at)) by {
        assert forall|i: int| 1 <= i < at implies is_continuation_byte(#[trigger] first[i]) by {
            assert(first[i] == enc[i]);
        }
    }
    assert(step(cleared(), first) is Partial);
    lemma_partial_state(cleared(), first);
    assert(extended(cleared(), first, at as nat) =~= extended(cleared(), enc, at as nat));
    lemma_split_resumes(cleared(), first, second);
}

/// A state that a run of calls can reach from the initial state: no bytes,
/// or a leading byte followed by continuation bytes, fewer in all than the
/// leading byte announces, and zero after them.
pub open spec fn reachable(state: Seq<u8>) -> bool {
    &&& state.len() == 4
    &&& state[3] == 0
    &&& (state[0] == 0 ==> state[1] == 0)
    &&& (state[1] == 0 ==> state[2] == 0)
    &&& (!is_clear(state) ==> {
        &&& expectations_of(state[0]) is Some
        &&& filled(state) < expectations_of(state[0])->0.length
        &&& all_continuation(state, 1, filled(state) as int)
    })
}

/// Calls keep the state reachable: such a state is never overfull, so the
/// decoder accepts it, and whatever the input, the state after the call is
/// reachable again.
pub proof fn lemma_reachable_preserved(state: Seq<u8>, src: Seq<u8>)
    requires
        reachable(state),
    ensures
        !overfull(state),
        reachable(state_after(state, src)),
{
    if step(state, src) is Partial {
        lemma_partial_state(state, src);
        let after = state_after(state, src);
        let have = filled(state);
        let from = if have == 0 { 1int } else { 0int };
        assert(all_continuation(src, from, src.len() as int));
        assert forall|j: int| 1 <= j < filled(after) implies is_continuation_byte(
            #[trigger] after[j],
        ) by {
            if j >= have {
                assert(after[j] == src[j - have]);
            } else {
                assert(after[j] == state[j]);
            }
        }
        assert forall|j: int| 0 <= j < have + src.len() implies after[j] != 0 by {
            if j >= have {
                assert(after[j] == src[j - have]);
                if j - have >= from {
                    assert(is_continuation_byte(src[j - have]));
                }
            } else {
                assert(after[j] == state[j]);
            }
        }
        assert(after[0] != 0);
        if have + src.len() >= 2 {
            assert(after[1] != 0);
        }
    } else {
        assert(is_clear(cleared()));
    }
}

proof fn lemma_payload_of_two(a: u8, b: u8)
    by (bit_vector)
    ensures
        (((a & 0x1f) as u32) << 6) | ((b & 0x3f) as u32) == codepoint_width_2(a, b),
        codepoint_width_2(a, b) <= 0x7ff,
{
}

proof fn lemma_payload_of_three(a: u8, b: u8, c: u8)
    by (bit_vector)
    ensures
        (((((a & 0x0f) as u32) << 6) | ((b & 0x3f) as u32)) << 6) | ((c & 0x3f) as u32)
            == codepoint_width_3(a, b, c),
        codepoint_width_3(a, b, c) <= 0xffff,
{
}

proof fn lemma_payload_of_four(a: u8, b: u8, c: u8, d: u8)
    by (bit_vector)
    ensures
        (((((((a & 0x07) as u32) << 6) | ((b & 0x3f) as u32)) << 6) | ((c & 0x3f) as u32)) << 6) | ((d
            & 0x3f) as u32) == codepoint_width_4(a, b, c, d),
{
}

/// The decoder accepts UTF-8 and nothing else. From the initial state, on
/// input that holds at least four bytes, or at least as many as its first
/// byte announces, a code point is decoded exactly when the input begins with
/// the well-formed encoding of a scalar value; the code point is then that
/// scalar value, and the bytes taken are those of its encoding.
pub proof fn lemma_accepts_exactly_utf8(src: Seq<u8>)
    requires
        src.len() > 0,
        src.len() >= 4 || (match expectations_of(src[0]) {
            Some(e) => src.len() >= e.length,
            None => true,
        }),
    ensures
        decoded(step(cleared(), src)) is Some <==> valid_first_scalar(src),
        valid_first_scalar(src) ==> step(cleared(), src) == if src[0] < 0x80 {
            Step::Ascii { byte: src[0] }
        } else {
            Step::Complete {
                code_point: decode_first_scalar(src),
                taken: length_of_first_scalar(src) as nat,
            }
        },
        valid_first_scalar(src) ==> decoded(step(cleared(), src)) == Some(decode_first_scalar(src)),
        !valid_first_scalar(src) ==> step(cleared(), src) == Step::Malformed,
{
    reveal_with_fuel(assemble, 5);
    let first = src[0];
    assert(first < 0x80 ==> (first & 0x7f) as u32 == first) by (bit_vector);
    match expectations_of(first) {
        Some(e) => {
            let held = extended(cleared(), src, e.length as nat);
            assert(held[0] == src[0]);
            assert(held[1] == src[1]);
            if e.length >= 3 {
                assert(held[2] == src[2]);
            }
            if e.length >= 4 {
                assert(held[3] == src[3]);
            }
            if e.length == 2 {
                lemma_payload_of_two(src[0], src[1]);
            } else if e.length == 3 {
                lemma_payload_of_three(src[0], src[1], src[2]);
            } else {
                lemma_payload_of_four(src[0], src[1], src[2], src[3]);
            }
            if all_continuation(src, 1, e.length as int) {
                assert(is_continuation_byte(src[1]));
                if e.length >= 3 {
                    assert(is_continuation_byte(src[2]));
                }
                if e.length >= 4 {
                    assert(is_continuation_byte(src[3]));
                }
            }
        },
        None => {},
    }
}

} // verus!
