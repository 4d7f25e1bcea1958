use straycat::features::to_feature_path;

#[test]
fn feature_path_marks_stem_and_extension() {
    let r = to_feature_path(b"test/01.wav");
    assert_eq!(r.as_slice(), b"test/01_wav.wav.sc");
}

#[test]
fn feature_path_keeps_nested_directories() {
    let r = to_feature_path(b"voice/bank/a.wav");
    assert_eq!(r.as_slice(), b"voice/bank/a_wav.wav.sc");
}

#[test]
fn feature_path_of_a_dotted_stem() {
    // The marked name "b.c_wav" loses what follows its last dot when the
    // extension is set, as the platform's path library does.
    let r = to_feature_path(b"a/b.c.wav");
    assert_eq!(r.as_slice(), b"a/b.wav.sc");
}

#[test]
fn feature_path_without_an_extension() {
    let r = to_feature_path(b"noext");
    assert_eq!(r.as_slice(), b"noext_wav.wav.sc");
}

#[test]
fn feature_path_of_a_hidden_file() {
    let r = to_feature_path(b".cfg");
    assert_eq!(r.as_slice(), b".cfg_wav.wav.sc");
}
