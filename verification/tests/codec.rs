use straycat::pitchbend::{
    decode_pitchbend, encode_int12_stream, to_int12, to_int12_stream, to_uint6,
    PitchCurveDecodeError,
};

#[test]
fn test_pitch_string() {
    let test = "B7CPCVCVCTCQCNCICDB+B5B0BvBrBnBlBk#14#BjBF/++Y8k615d4p4f4l4y5G5f596e7B7l8H8n9D9Z9q9092919y9t9n9f9Y9Q9I9C898584858/9L9b9v+G+f+4/Q/m/5AIATAY#2#AWAUARAOALAHAFACABAA";
    let pitchbend = decode_pitchbend(test.as_bytes()).expect("Failed to parse");
    assert!(pitchbend.len() > 0);
    for p in &pitchbend {
        println!("{}", p);
    }
}

#[test]
fn uint6_maps_the_base64_alphabet() {
    assert_eq!(to_uint6(b'A').unwrap(), 0);
    assert_eq!(to_uint6(b'Z').unwrap(), 25);
    assert_eq!(to_uint6(b'a').unwrap(), 26);
    assert_eq!(to_uint6(b'z').unwrap(), 51);
    assert_eq!(to_uint6(b'0').unwrap(), 52);
    assert_eq!(to_uint6(b'9').unwrap(), 61);
    assert_eq!(to_uint6(b'+').unwrap(), 62);
    assert_eq!(to_uint6(b'/').unwrap(), 63);
    assert_eq!(
        to_uint6(b'-').unwrap_err(),
        PitchCurveDecodeError::InvalidCharacter
    );
    assert_eq!(
        to_uint6(b'#').unwrap_err(),
        PitchCurveDecodeError::InvalidCharacter
    );
}

#[test]
fn int12_reads_twos_complement() {
    assert_eq!(to_int12(b'B', b'7').unwrap(), 123);
    assert_eq!(to_int12(b'A', b'A').unwrap(), 0);
    // 'g' is 32: 32 * 64 = 2048, the most negative 12-bit value.
    assert_eq!(to_int12(b'g', b'A').unwrap(), -2048);
    assert_eq!(to_int12(b'/', b'/').unwrap(), -1);
    // 'f' '/' is 31 * 64 + 63 = 2047, the most positive value.
    assert_eq!(to_int12(b'f', b'/').unwrap(), 2047);
}

#[test]
fn int12_stream_decodes_pairs() {
    assert_eq!(to_int12_stream(b"B7CP").unwrap(), vec![123, 143]);
    assert_eq!(to_int12_stream(b"").unwrap(), Vec::<i16>::new());
    assert_eq!(
        to_int12_stream(b"B7C").unwrap_err(),
        PitchCurveDecodeError::OddBlockLength
    );
    assert_eq!(
        to_int12_stream(b"B7C!").unwrap_err(),
        PitchCurveDecodeError::InvalidCharacter
    );
}

#[test]
fn repeat_count_expands_the_last_value() {
    // One value repeated three times, then one more value.
    let curve = decode_pitchbend(b"AA#3#BB").unwrap();
    assert_eq!(curve.len(), 4);
    assert_eq!(curve[0], curve[1]);
    assert_eq!(curve[1], curve[2]);
    assert_ne!(curve[2], curve[3]);
    assert_eq!(curve, vec![0, 0, 0, 65]);
}

#[test]
fn repeat_count_zero_adds_nothing() {
    assert_eq!(decode_pitchbend(b"AA#0#BB").unwrap(), vec![0, 65]);
    assert_eq!(decode_pitchbend(b"AA#1#BB").unwrap(), vec![0, 65]);
    assert_eq!(decode_pitchbend(b"AA#+2#BB").unwrap(), vec![0, 0, 65]);
}

#[test]
fn flat_streams_decode_to_zero() {
    // All-identical values mean "no bend", whatever the shared value is.
    assert_eq!(decode_pitchbend(b"BBBB").unwrap(), vec![0, 0]);
    assert_eq!(decode_pitchbend(b"AB#4#").unwrap(), vec![0, 0, 0, 0]);
    // A non-flat stream keeps its raw values.
    assert_eq!(decode_pitchbend(b"BBBA").unwrap(), vec![65, 64]);
}

#[test]
fn each_decode_error_has_an_input() {
    assert_eq!(
        decode_pitchbend(b"").unwrap_err(),
        PitchCurveDecodeError::EmptyCurve
    );
    assert_eq!(
        decode_pitchbend(b"ABC").unwrap_err(),
        PitchCurveDecodeError::OddBlockLength
    );
    assert_eq!(
        decode_pitchbend(b"A!").unwrap_err(),
        PitchCurveDecodeError::InvalidCharacter
    );
    assert_eq!(
        decode_pitchbend(b"AA#x#BB").unwrap_err(),
        PitchCurveDecodeError::InvalidRepeatCount
    );
    assert_eq!(
        decode_pitchbend(b"AA#-1#BB").unwrap_err(),
        PitchCurveDecodeError::InvalidRepeatCount
    );
    assert_eq!(
        decode_pitchbend(b"#3#AA").unwrap_err(),
        PitchCurveDecodeError::EmptyBlock
    );
}

#[test]
fn encode_then_decode_is_identity() {
    let values: Vec<i16> = vec![-2048, -1, 0, 1, 2047, 123, -64, 600];
    let encoded = encode_int12_stream(&values);
    let decoded = to_int12_stream(&encoded).unwrap();
    assert_eq!(decoded, values);
}

#[test]
fn encoder_writes_base64_pairs() {
    let encoded = encode_int12_stream(&[123, 143]);
    assert_eq!(encoded.as_slice(), b"B7CP");
}
