use straycat::util::{pitch_parser, transpose, PitchParseError};

#[test]
fn test_pitch() {
    let pitch = pitch_parser(b"C4").unwrap();
    assert_eq!(pitch, 60);
    let pitch = pitch_parser(b"C5").unwrap();
    assert_eq!(pitch, 72);
    let pitch = pitch_parser(b"A4").unwrap();
    assert_eq!(pitch, 69);
}

#[test]
fn plain_integers_pass_through() {
    assert_eq!(pitch_parser(b"60").unwrap(), 60);
    assert_eq!(pitch_parser(b"+61").unwrap(), 61);
    assert_eq!(pitch_parser(b"-5").unwrap(), -5);
    assert_eq!(pitch_parser(b"2147483647").unwrap(), 2147483647);
    assert_eq!(pitch_parser(b"-2147483648").unwrap(), -2147483648);
}

#[test]
fn sharps_and_octaves_are_read() {
    assert_eq!(pitch_parser(b"C#4").unwrap(), 61);
    assert_eq!(pitch_parser(b"G#3").unwrap(), 56);
    assert_eq!(pitch_parser(b"B7").unwrap(), 107);
    // A negative octave.
    assert_eq!(pitch_parser(b"A-1").unwrap(), 9);
    // An unknown sharp name reads as semitone zero.
    assert_eq!(pitch_parser(b"E#2").unwrap(), 36);
}

#[test]
fn the_first_note_name_wins() {
    assert_eq!(pitch_parser(b"xxA4yy").unwrap(), 69);
    assert_eq!(pitch_parser(b"12B3").unwrap(), 59);
}

#[test]
fn pitch_errors_name_their_cause() {
    assert_eq!(pitch_parser(b"xyz").unwrap_err(), PitchParseError::NoteNotFound);
    assert_eq!(pitch_parser(b"").unwrap_err(), PitchParseError::NoteNotFound);
    assert_eq!(
        pitch_parser(b"C99999999999").unwrap_err(),
        PitchParseError::OctaveOutOfRange
    );
    assert_eq!(
        pitch_parser(b"C2147483647").unwrap_err(),
        PitchParseError::MidiOutOfRange
    );
}

#[test]
fn transpose_swaps_the_axes() {
    let m = vec![vec![1, 2], vec![3, 4], vec![5, 6]];
    let t = transpose(m);
    assert_eq!(t, vec![vec![1, 3, 5], vec![2, 4, 6]]);
}

#[test]
fn transpose_drops_tails_beyond_the_first_row() {
    let m = vec![vec![1, 2, 3], vec![4, 5, 6, 7]];
    let t = transpose(m);
    assert_eq!(t, vec![vec![1, 4], vec![2, 5], vec![3, 6]]);
}
