use script_stack::read_scriptint;
use script_stack::ExecError;
use script_stack::Stack;

// Reads the canonical encoding of `n` through the stack's byte view.
fn encode(n: i64) -> Vec<u8> {
    let mut s = Stack::new();
    s.pushnum(n);
    s.popstr().unwrap()
}

#[test]
fn zero_encodes_as_the_empty_string() {
    assert_eq!(encode(0), Vec::<u8>::new());
}

#[test]
fn small_values_encode_to_one_byte() {
    assert_eq!(encode(1), vec![0x01]);
    assert_eq!(encode(-1), vec![0x81]);
    assert_eq!(encode(127), vec![0x7f]);
    assert_eq!(encode(-127), vec![0xff]);
}

#[test]
fn a_set_high_bit_takes_an_extra_sign_byte() {
    assert_eq!(encode(128), vec![0x80, 0x00]);
    assert_eq!(encode(-128), vec![0x80, 0x80]);
    assert_eq!(encode(255), vec![0xff, 0x00]);
    assert_eq!(encode(-255), vec![0xff, 0x80]);
}

#[test]
fn window_extremes_encode_to_four_bytes() {
    assert_eq!(encode(0x7fffffff), vec![0xff, 0xff, 0xff, 0x7f]);
    assert_eq!(encode(-0x7fffffff), vec![0xff, 0xff, 0xff, 0xff]);
}

#[test]
fn canonical_zero_is_empty_not_a_zero_byte() {
    assert_eq!(read_scriptint(&[0x00], 4, true), Err(ExecError::MinimalData));
    assert_eq!(read_scriptint(&[0x00], 4, false), Ok(0));
}

#[test]
fn empty_decodes_to_zero() {
    assert_eq!(read_scriptint(&[], 4, true), Ok(0));
    assert_eq!(read_scriptint(&[], 4, false), Ok(0));
}

#[test]
fn decoding_reads_sign_from_the_final_byte() {
    assert_eq!(read_scriptint(&[0x01], 4, true), Ok(1));
    assert_eq!(read_scriptint(&[0x81], 4, true), Ok(-1));
    assert_eq!(read_scriptint(&[0x80, 0x00], 4, true), Ok(128));
    assert_eq!(read_scriptint(&[0x80, 0x80], 4, true), Ok(-128));
    assert_eq!(read_scriptint(&[0xff, 0xff, 0xff, 0xff], 4, true), Ok(-0x7fffffff));
}

#[test]
fn redundant_leading_zero_is_rejected_when_minimal() {
    assert_eq!(read_scriptint(&[0x7f, 0x00], 4, true), Err(ExecError::MinimalData));
    assert_eq!(read_scriptint(&[0x7f, 0x00], 4, false), Ok(127));
    assert_eq!(read_scriptint(&[0x8f, 0x00, 0x00], 4, true), Err(ExecError::MinimalData));
    assert_eq!(read_scriptint(&[0x8f, 0x00, 0x00], 4, false), Ok(0x8f));
}

#[test]
fn a_needed_sign_byte_is_still_minimal() {
    // 0xff00 little-endian is 255: the zero final byte is not redundant,
    // because dropping it would flip the sign read from 0xff.
    assert_eq!(read_scriptint(&[0xff, 0x00], 4, true), Ok(255));
    assert_eq!(read_scriptint(&[0xff, 0x80], 4, true), Ok(-255));
}

#[test]
fn encodings_over_the_cap_overflow() {
    assert_eq!(
        read_scriptint(&[1, 0, 0, 0, 0], 4, true),
        Err(ExecError::ScriptIntNumericOverflow)
    );
    assert_eq!(
        read_scriptint(&[1, 0, 0, 0, 0], 4, false),
        Err(ExecError::ScriptIntNumericOverflow)
    );
    // A wider cap accepts the same bytes.
    assert_eq!(read_scriptint(&[1, 0, 0, 0, 0], 5, false), Ok(1));
}

#[test]
fn encode_then_decode_is_identity() {
    let samples: [i64; 13] =
        [0, 1, -1, 2, 127, -127, 128, -128, 255, 256, 0x1234, -0x7fffffff, 0x7fffffff];
    for &n in samples.iter() {
        let bytes = encode(n);
        assert_eq!(read_scriptint(&bytes, 4, true), Ok(n), "round trip of {}", n);
    }
}

#[test]
fn byte_and_numeric_views_agree() {
    // Pushing the encoding of a value and reading it numerically gives the
    // value a numeric push would give.
    let mut s = Stack::new();
    s.pushnum(300);
    let bytes = s.popstr().unwrap();
    s.pushstr(&bytes);
    assert_eq!(s.popnum(true), Ok(300));
}
