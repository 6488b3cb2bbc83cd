use mbdecode::{mbrtoc32, mbrtoc32_impl, mbsinit, mbstate_is_initial};
use mbdecode::{ErrorStatus, MbState, MultiByteError, MultiByteExpectations};

const ILLEGAL: Result<usize, MultiByteError> = Err(MultiByteError::IllegalSequence);
const INCOMPLETE: Result<usize, MultiByteError> = Err(MultiByteError::IncompleteSequence);

struct Call {
    result: Result<usize, MultiByteError>,
    dest: u32,
    state: [u8; 4],
    status: Option<ErrorStatus>,
}

const UNTOUCHED: u32 = 0xAAAA_AAAA;

fn call(state: [u8; 4], src: &[u8]) -> Call {
    let mut dest = UNTOUCHED;
    let mut st = MbState { seq: state };
    let mut status = None;
    let result = mbrtoc32_impl(Some(&mut dest), src, Some(&mut st), &mut status);
    Call { result, dest, state: st.seq, status }
}

fn fresh(src: &[u8]) -> Call {
    call([0; 4], src)
}

fn assert_decodes(src: &[u8], code_point: u32) {
    let c = fresh(src);
    assert_eq!(c.result, Ok(src.len()));
    assert_eq!(c.dest, code_point);
    assert_eq!(c.state, [0; 4]);
    assert_eq!(c.status, None);
}

fn assert_rejected(src: &[u8]) {
    let c = fresh(src);
    assert_eq!(c.result, ILLEGAL);
    assert_eq!(c.dest, UNTOUCHED);
    assert_eq!(c.state, [0; 4]);
    assert_eq!(c.status, Some(ErrorStatus::InvalidMultibyteSequence));
}

#[test]
fn ascii_bytes_decode_to_themselves() {
    for b in 0x01u8..=0x7f {
        let c = fresh(&[b]);
        assert_eq!(c.result, Ok(1));
        assert_eq!(c.dest, b as u32);
        assert_eq!(c.state, [0; 4]);
        assert_eq!(c.status, None);
    }
}

#[test]
fn ascii_ignores_what_follows() {
    let c = fresh(&[0x41, 0xff, 0x80]);
    assert_eq!(c.result, Ok(1));
    assert_eq!(c.dest, 0x41);
}

#[test]
fn null_byte_reports_zero_bytes() {
    let c = fresh(&[0x00]);
    assert_eq!(c.result, Ok(0));
    assert_eq!(c.dest, 0);
    assert_eq!(c.state, [0; 4]);
    assert_eq!(c.status, None);
}

#[test]
fn empty_input_reports_zero_and_touches_nothing() {
    let c = fresh(&[]);
    assert_eq!(c.result, Ok(0));
    assert_eq!(c.dest, UNTOUCHED);
    assert_eq!(c.state, [0; 4]);
    assert_eq!(c.status, None);

    let c = call([0xe2, 0x82, 0, 0], &[]);
    assert_eq!(c.result, Ok(0));
    assert_eq!(c.dest, UNTOUCHED);
    assert_eq!(c.state, [0xe2, 0x82, 0, 0]);
    assert_eq!(c.status, None);
}

#[test]
fn two_byte_sequence() {
    assert_decodes(&[0xc3, 0xa9], 0xe9);
}

#[test]
fn three_byte_sequence() {
    assert_decodes(&[0xe2, 0x82, 0xac], 0x20ac);
}

#[test]
fn four_byte_sequence() {
    assert_decodes(&[0xf0, 0x9f, 0x98, 0x80], 0x1f600);
}

#[test]
fn smallest_and_largest_of_each_length() {
    assert_decodes(&[0xc2, 0x80], 0x80);
    assert_decodes(&[0xdf, 0xbf], 0x7ff);
    assert_decodes(&[0xe0, 0xa0, 0x80], 0x800);
    assert_decodes(&[0xef, 0xbf, 0xbf], 0xffff);
    assert_decodes(&[0xf0, 0x90, 0x80, 0x80], 0x10000);
    assert_decodes(&[0xf4, 0x8f, 0xbf, 0xbf], 0x10ffff);
}

#[test]
fn neighbours_of_the_surrogate_range() {
    assert_decodes(&[0xed, 0x9f, 0xbf], 0xd7ff);
    assert_decodes(&[0xee, 0x80, 0x80], 0xe000);
}

#[test]
fn bytes_after_the_sequence_are_left_alone() {
    let c = fresh(&[0xc3, 0xa9, 0x41, 0x42]);
    assert_eq!(c.result, Ok(2));
    assert_eq!(c.dest, 0xe9);
    assert_eq!(c.state, [0; 4]);
}

#[test]
fn every_scalar_value_is_decoded_from_its_encoding() {
    for v in 0u32..=0x10ffff {
        let ch = match char::from_u32(v) {
            Some(ch) => ch,
            None => {
                assert!((0xd800..=0xdfff).contains(&v));
                continue;
            }
        };
        let mut buf = [0u8; 4];
        let enc = ch.encode_utf8(&mut buf).as_bytes();
        let mut dest = UNTOUCHED;
        let mut st = MbState::default();
        let mut status = None;
        let r = mbrtoc32_impl(Some(&mut dest), enc, Some(&mut st), &mut status);
        let expected = if v == 0 { 0 } else { enc.len() };
        assert_eq!(r, Ok(expected));
        assert_eq!(dest, v);
        assert_eq!(st.seq, [0; 4]);
        assert_eq!(status, None);
    }
}

#[test]
fn every_split_of_an_encoding_resumes() {
    let samples = [
        0x80u32, 0xe9, 0x7ff, 0x800, 0x20ac, 0xd7ff, 0xe000, 0xffff, 0x10000, 0x1f600, 0x10ffff,
    ];
    for v in samples {
        let ch = char::from_u32(v).unwrap();
        let mut buf = [0u8; 4];
        let enc = ch.encode_utf8(&mut buf).as_bytes();
        for at in 1..enc.len() {
            let mut dest = UNTOUCHED;
            let mut st = MbState::default();
            let mut status = None;
            let r = mbrtoc32_impl(Some(&mut dest), &enc[..at], Some(&mut st), &mut status);
            assert_eq!(r, INCOMPLETE);
            assert_eq!(dest, UNTOUCHED);
            assert_eq!(status, None);
            let mut held = [0u8; 4];
            held[..at].copy_from_slice(&enc[..at]);
            assert_eq!(st.seq, held);
            assert!(!mbstate_is_initial(Some(&st)));

            let r = mbrtoc32_impl(Some(&mut dest), &enc[at..], Some(&mut st), &mut status);
            assert_eq!(r, Ok(enc.len() - at));
            assert_eq!(dest, v);
            assert_eq!(status, None);
            assert_eq!(st.seq, [0; 4]);
            assert!(mbstate_is_initial(Some(&st)));
        }
    }
}

#[test]
fn one_byte_per_call() {
    let mut dest = UNTOUCHED;
    let mut st = MbState::default();
    let mut status = None;
    assert_eq!(mbrtoc32_impl(Some(&mut dest), &[0xf0], Some(&mut st), &mut status), INCOMPLETE);
    assert_eq!(st.seq, [0xf0, 0, 0, 0]);
    assert_eq!(mbrtoc32_impl(Some(&mut dest), &[0x9f], Some(&mut st), &mut status), INCOMPLETE);
    assert_eq!(st.seq, [0xf0, 0x9f, 0, 0]);
    assert_eq!(mbrtoc32_impl(Some(&mut dest), &[0x98], Some(&mut st), &mut status), INCOMPLETE);
    assert_eq!(st.seq, [0xf0, 0x9f, 0x98, 0]);
    assert_eq!(dest, UNTOUCHED);
    assert_eq!(mbrtoc32_impl(Some(&mut dest), &[0x80], Some(&mut st), &mut status), Ok(1));
    assert_eq!(st.seq, [0; 4]);
    assert_eq!(dest, 0x1f600);
    assert_eq!(status, None);
}

#[test]
fn resumed_call_takes_only_what_the_sequence_needs() {
    let c = call([0xe2, 0, 0, 0], &[0x82, 0xac, 0x41]);
    assert_eq!(c.result, Ok(2));
    assert_eq!(c.dest, 0x20ac);
    assert_eq!(c.state, [0; 4]);
}

#[test]
fn overlong_encodings_are_rejected() {
    assert_rejected(&[0xc0, 0x80]);
    assert_rejected(&[0xc1, 0xbf]);
    assert_rejected(&[0xe0, 0x80, 0x80]);
    assert_rejected(&[0xe0, 0x9f, 0xbf]);
    assert_rejected(&[0xf0, 0x80, 0x80, 0x80]);
    assert_rejected(&[0xf0, 0x8f, 0xbf, 0xbf]);
}

#[test]
fn overlong_encoding_split_over_two_calls_resets_the_state() {
    let mut st = MbState::default();
    let mut status = None;
    assert_eq!(mbrtoc32_impl(None, &[0xe0], Some(&mut st), &mut status), INCOMPLETE);
    assert_eq!(mbrtoc32_impl(None, &[0x80, 0x80], Some(&mut st), &mut status), ILLEGAL);
    assert_eq!(st.seq, [0; 4]);
    assert_eq!(status, Some(ErrorStatus::InvalidMultibyteSequence));
}

#[test]
fn surrogates_are_rejected() {
    assert_rejected(&[0xed, 0xa0, 0x80]);
    assert_rejected(&[0xed, 0xbf, 0xbf]);
}

#[test]
fn values_above_the_last_code_point_are_rejected() {
    assert_rejected(&[0xf4, 0x90, 0x80, 0x80]);
    assert_rejected(&[0xf5, 0x80, 0x80, 0x80]);
    assert_rejected(&[0xf7, 0xbf, 0xbf, 0xbf]);
}

#[test]
fn stray_continuation_byte_is_rejected() {
    assert_rejected(&[0x80]);
    assert_rejected(&[0xbf, 0x80]);
}

#[test]
fn bytes_that_begin_no_sequence_are_rejected() {
    assert_rejected(&[0xf8, 0x80, 0x80, 0x80]);
    assert_rejected(&[0xff]);
}

#[test]
fn missing_continuation_byte_is_rejected() {
    assert_rejected(&[0xc2, 0x41]);
    assert_rejected(&[0xe2, 0x82, 0x41]);
    assert_rejected(&[0xf0, 0x9f, 0xc0, 0x80]);
    assert_rejected(&[0xe2, 0x00]);
}

#[test]
fn missing_continuation_byte_after_a_split_is_rejected() {
    let c = call([0xc2, 0, 0, 0], &[0x41]);
    assert_eq!(c.result, ILLEGAL);
    assert_eq!(c.dest, UNTOUCHED);
    assert_eq!(c.state, [0; 4]);
    assert_eq!(c.status, Some(ErrorStatus::InvalidMultibyteSequence));
}

#[test]
fn bad_byte_wins_over_missing_input() {
    let c = fresh(&[0xf0, 0x41]);
    assert_eq!(c.result, ILLEGAL);
    assert_eq!(c.state, [0; 4]);
}

#[test]
fn state_with_an_unusable_leading_byte_is_rejected() {
    let c = call([0x41, 0, 0, 0], &[0x80]);
    assert_eq!(c.result, ILLEGAL);
    assert_eq!(c.state, [0; 4]);
    assert_eq!(c.status, Some(ErrorStatus::InvalidMultibyteSequence));
}

#[test]
fn state_with_four_bytes_is_an_invalid_argument() {
    let c = call([0xf0, 0x9f, 0x98, 0x80], &[0x41]);
    assert_eq!(c.result, ILLEGAL);
    assert_eq!(c.dest, UNTOUCHED);
    assert_eq!(c.state, [0; 4]);
    assert_eq!(c.status, Some(ErrorStatus::InvalidArgument));

    let c = call([0, 0, 0, 1], &[]);
    assert_eq!(c.result, ILLEGAL);
    assert_eq!(c.state, [0; 4]);
    assert_eq!(c.status, Some(ErrorStatus::InvalidArgument));
}

#[test]
fn status_is_left_alone_unless_the_sequence_is_illegal() {
    let mut st = MbState::default();
    let mut status = Some(ErrorStatus::InvalidArgument);
    assert_eq!(mbrtoc32_impl(None, &[0x41], Some(&mut st), &mut status), Ok(1));
    assert_eq!(status, Some(ErrorStatus::InvalidArgument));
    assert_eq!(mbrtoc32_impl(None, &[0xc3], Some(&mut st), &mut status), INCOMPLETE);
    assert_eq!(status, Some(ErrorStatus::InvalidArgument));
    assert_eq!(mbrtoc32_impl(None, &[0xa9], Some(&mut st), &mut status), Ok(1));
    assert_eq!(status, Some(ErrorStatus::InvalidArgument));
    assert_eq!(mbrtoc32_impl(None, &[0x80], Some(&mut st), &mut status), ILLEGAL);
    assert_eq!(status, Some(ErrorStatus::InvalidMultibyteSequence));
}

#[test]
fn without_a_destination_the_state_still_advances() {
    let mut st = MbState::default();
    let mut status = None;
    assert_eq!(mbrtoc32_impl(None, &[0xe2, 0x82], Some(&mut st), &mut status), INCOMPLETE);
    assert_eq!(st.seq, [0xe2, 0x82, 0, 0]);
    assert_eq!(mbrtoc32_impl(None, &[0xac], Some(&mut st), &mut status), Ok(1));
    assert_eq!(st.seq, [0; 4]);
}

#[test]
fn without_a_state_nothing_is_carried_between_calls() {
    let mut dest = UNTOUCHED;
    let mut status = None;
    assert_eq!(mbrtoc32_impl(Some(&mut dest), &[0xc3], None, &mut status), INCOMPLETE);
    assert_eq!(status, None);
    assert_eq!(mbrtoc32_impl(Some(&mut dest), &[0xa9], None, &mut status), ILLEGAL);
    assert_eq!(status, Some(ErrorStatus::InvalidMultibyteSequence));
    assert_eq!(dest, UNTOUCHED);
    assert_eq!(mbrtoc32_impl(Some(&mut dest), &[0xc3, 0xa9], None, &mut status), Ok(2));
    assert_eq!(dest, 0xe9);
}

#[test]
fn state_query() {
    assert!(mbstate_is_initial(None));
    assert_eq!(mbsinit(None), 1);
    let mut st = MbState::default();
    assert!(mbstate_is_initial(Some(&st)));
    assert_eq!(mbsinit(Some(&st)), 1);

    let mut status = None;
    assert_eq!(mbrtoc32_impl(None, &[0xe2], Some(&mut st), &mut status), INCOMPLETE);
    assert!(!mbstate_is_initial(Some(&st)));
    assert_eq!(mbsinit(Some(&st)), 0);

    assert_eq!(mbrtoc32_impl(None, &[0x82, 0xac], Some(&mut st), &mut status), Ok(2));
    assert!(mbstate_is_initial(Some(&st)));
    assert_eq!(mbsinit(Some(&st)), 1);

    assert_eq!(mbsinit(Some(&MbState { seq: [0, 0, 0, 1] })), 0);
    assert_eq!(mbsinit(Some(&MbState { seq: [0, 1, 0, 0] })), 0);
}

#[test]
fn entry_point_returns_counts_and_reserved_values() {
    let mut dest = UNTOUCHED;
    let mut st = MbState::default();
    let mut status = None;
    assert_eq!(mbrtoc32(Some(&mut dest), Some(&[0x41]), Some(&mut st), &mut status), 1);
    assert_eq!(dest, 0x41);
    assert_eq!(mbrtoc32(Some(&mut dest), Some(&[0x00]), Some(&mut st), &mut status), 0);
    assert_eq!(dest, 0);
    assert_eq!(mbrtoc32(Some(&mut dest), Some(&[]), Some(&mut st), &mut status), 0);
    assert_eq!(
        mbrtoc32(Some(&mut dest), Some(&[0xf0, 0x9f, 0x98, 0x80]), Some(&mut st), &mut status),
        4
    );
    assert_eq!(dest, 0x1f600);
    assert_eq!(
        mbrtoc32(Some(&mut dest), Some(&[0xf0, 0x9f]), Some(&mut st), &mut status),
        usize::MAX - 1
    );
    assert_eq!(status, None);
    assert_eq!(st.seq, [0xf0, 0x9f, 0, 0]);
    assert_eq!(mbrtoc32(Some(&mut dest), Some(&[0x41]), Some(&mut st), &mut status), usize::MAX);
    assert_eq!(status, Some(ErrorStatus::InvalidMultibyteSequence));
    assert_eq!(st.seq, [0; 4]);
    assert_eq!(dest, 0x1f600);
}

#[test]
fn absent_input_is_a_single_null_byte() {
    let mut dest = UNTOUCHED;
    let mut st = MbState::default();
    let mut status = None;
    assert_eq!(mbrtoc32(Some(&mut dest), None, Some(&mut st), &mut status), 0);
    assert_eq!(dest, UNTOUCHED);
    assert_eq!(st.seq, [0; 4]);
    assert_eq!(status, None);
    assert_eq!(mbrtoc32(Some(&mut dest), None, None, &mut status), 0);
    assert_eq!(dest, UNTOUCHED);
    assert_eq!(status, None);
}

#[test]
fn absent_input_ends_a_sequence_in_progress() {
    let mut dest = UNTOUCHED;
    let mut st = MbState { seq: [0xc2, 0, 0, 0] };
    let mut status = None;
    assert_eq!(mbrtoc32(Some(&mut dest), None, Some(&mut st), &mut status), usize::MAX);
    assert_eq!(dest, UNTOUCHED);
    assert_eq!(st.seq, [0; 4]);
    assert_eq!(status, Some(ErrorStatus::InvalidMultibyteSequence));

    let mut same = [UNTOUCHED, UNTOUCHED];
    let mut a = MbState { seq: [0xc2, 0, 0, 0] };
    let mut b = MbState { seq: [0xc2, 0, 0, 0] };
    let mut sa = None;
    let mut sb = None;
    let (x, y) = same.split_at_mut(1);
    let ra = mbrtoc32(Some(&mut x[0]), None, Some(&mut a), &mut sa);
    let rb = mbrtoc32(None, Some(&[0x00]), Some(&mut b), &mut sb);
    assert_eq!(ra, rb);
    assert_eq!(a.seq, b.seq);
    assert_eq!(sa, sb);
    assert_eq!(y[0], UNTOUCHED);
}

#[test]
fn reserved_values_are_minus_one_and_minus_two() {
    assert_eq!(MultiByteError::IllegalSequence.to_c(), usize::MAX);
    assert_eq!(MultiByteError::IncompleteSequence.to_c(), usize::MAX - 1);
    assert_eq!(MultiByteError::IllegalSequence.to_c(), (-1isize) as usize);
    assert_eq!(MultiByteError::IncompleteSequence.to_c(), (-2isize) as usize);
}

#[test]
fn expectations_by_leading_byte() {
    let st = MbState::default();
    for lead in 0u8..=0xff {
        let expected = match lead {
            0xc0..=0xdf => Ok(MultiByteExpectations { mask: 0x1f, length: 2, lower_bound: 0x80 }),
            0xe0..=0xef => Ok(MultiByteExpectations { mask: 0x0f, length: 3, lower_bound: 0x800 }),
            0xf0..=0xf7 => {
                Ok(MultiByteExpectations { mask: 0x07, length: 4, lower_bound: 0x10000 })
            }
            _ => Err(MultiByteError::IllegalSequence),
        };
        assert_eq!(MultiByteExpectations::create(lead, &st), expected);
    }
}

#[test]
fn expectations_come_from_the_state_once_it_holds_a_byte() {
    let st = MbState { seq: [0xe2, 0x82, 0, 0] };
    assert_eq!(
        MultiByteExpectations::create(0xc3, &st),
        Ok(MultiByteExpectations { mask: 0x0f, length: 3, lower_bound: 0x800 })
    );
    let st = MbState { seq: [0x41, 0, 0, 0] };
    assert_eq!(MultiByteExpectations::create(0xc3, &st), Err(MultiByteError::IllegalSequence));
}

#[test]
fn state_operations() {
    let mut st = MbState::default();
    assert_eq!(st.seq, [0; 4]);
    assert!(st.is_initial());
    assert_eq!(st.bytes_so_far(), 0);
    st.set_next_byte(0xf0);
    assert!(!st.is_initial());
    assert_eq!(st.bytes_so_far(), 1);
    st.set_next_byte(0x9f);
    assert_eq!(st.bytes_so_far(), 2);
    st.set_next_byte(0x98);
    assert_eq!(st.bytes_so_far(), 3);
    assert_eq!(st.bytes(), &[0xf0, 0x9f, 0x98, 0]);
    assert_eq!(st.get_byte(0), 0xf0);
    assert_eq!(st.get_byte(1), 0x9f);
    assert_eq!(st.get_byte(2), 0x98);
    assert_eq!(st.get_byte(3), 0);
    st.set_next_byte(0x80);
    assert_eq!(st.seq, [0xf0, 0x9f, 0x98, 0x80]);
    st.reset();
    assert!(st.is_initial());
    assert_eq!(st.seq, [0; 4]);
}

#[test]
fn bytes_so_far_goes_by_the_last_nonzero_byte() {
    assert_eq!(MbState { seq: [0, 5, 0, 0] }.bytes_so_far(), 2);
    assert_eq!(MbState { seq: [5, 0, 7, 0] }.bytes_so_far(), 3);
    assert_eq!(MbState { seq: [5, 0, 0, 0] }.bytes_so_far(), 1);
}

#[test]
fn overfull_states() {
    assert!(MbState { seq: [0xc2, 0x80, 0x80, 0] }.is_overfull());
    assert!(MbState { seq: [0xdf, 0, 0x80, 0] }.is_overfull());
    assert!(!MbState { seq: [0xc2, 0x80, 0, 0] }.is_overfull());
    assert!(!MbState { seq: [0xe2, 0x80, 0x80, 0] }.is_overfull());
    assert!(!MbState { seq: [0xc2, 0x80, 0x80, 0x80] }.is_overfull());
    assert!(!MbState::default().is_overfull());
}
