use mpc_keygroup_creator::{
    guess_roots, parse_letter_notation, parse_number_notation, parse_pitch, NotANote,
    PartialFromStr, SampleFile,
};

#[test]
fn parse_not_a_note() {
    <u8 as PartialFromStr>::partial_from_str("nope.wav").unwrap_err();
    assert_eq!(parse_pitch("nope.wav"), None);
}

#[test]
fn parse_letter_notation_cases() {
    assert_eq!(parse_letter_notation("A2.wav"), Some(45));
    assert_eq!(parse_letter_notation("MELCEL-A2.WAV"), Some(45));
    assert_eq!(parse_letter_notation("MELCEL-A-1.WAV"), Some(9));
    assert_eq!(parse_letter_notation("MELCEL-D0.WAV"), Some(14));
    assert_eq!(parse_letter_notation("MELCEL-Db0.WAV"), Some(13));
    assert_eq!(parse_letter_notation("MELCEL-F4.WAV"), Some(65));
    assert_eq!(parse_letter_notation("de_1_d#5.wav"), Some(75));
    assert_eq!(parse_letter_notation("THMB40.wav"), None);
}

#[test]
fn parse_number_notation_cases() {
    assert_eq!(parse_number_notation("THMB40.wav"), Some(40));
    assert_eq!(parse_number_notation("THMB43.wav"), Some(43));
    assert_eq!(parse_number_notation("THMB48.wav"), Some(48));
    assert_eq!(parse_number_notation("THMB048.wav"), Some(48));
    assert_eq!(parse_number_notation("take-000.wav"), Some(0));
    assert_eq!(parse_number_notation("x128.wav"), Some(12));
    assert_eq!(parse_number_notation("x127.wav"), Some(127));
    assert_eq!(parse_number_notation("nope.wav"), None);
}

#[test]
fn parse_note_cases() {
    let cases: [(&str, u8); 12] = [
        ("A2.wav", 45),
        ("MELCEL-A2.WAV", 45),
        ("MELCEL-A-1.WAV", 9),
        ("MELCEL-D0.WAV", 14),
        ("MELCEL-F4.WAV", 65),
        ("THMB-40.wav", 40),
        ("THMB-43.wav", 43),
        ("THMB-48.wav", 48),
        ("THMB40.wav", 40),
        ("THMB43.wav", 43),
        ("THMB48.wav", 48),
        ("THMB048.wav", 48),
    ];
    for (name, pitch) in cases {
        assert_eq!(SampleFile::from_file(name.to_string()).root, Some(pitch), "{}", name);
    }
}

#[test]
fn guess_root_keeps_root_when_unreadable() {
    let mut sample = SampleFile { file: "nope.wav".to_string(), root: Some(60) };
    sample.guess_root();
    assert_eq!(sample.root, Some(60));
    let mut sample = SampleFile { file: "Pad-C4.wav".to_string(), root: Some(1) };
    sample.guess_root();
    assert_eq!(sample.root, Some(60));
}

fn names(list: &[&str]) -> Vec<String> {
    list.iter().map(|s| s.to_string()).collect()
}

#[test]
fn batch_prefers_letter_notation() {
    assert_eq!(guess_roots(&names(&["Lead-C3-1.wav", "Lead-D3-1.wav"])), vec![Some(48), Some(50)]);
}

#[test]
fn batch_falls_back_to_numbers_when_letters_repeat() {
    assert_eq!(guess_roots(&names(&["x36 C2.wav", "x38 C2.wav"])), vec![Some(36), Some(38)]);
}

#[test]
fn batch_falls_back_to_numbers_when_letters_are_missing() {
    assert_eq!(guess_roots(&names(&["Bass 36.wav", "Bass 38.wav"])), vec![Some(36), Some(38)]);
}

#[test]
fn batch_falls_back_to_each_file() {
    assert_eq!(
        guess_roots(&names(&["C1 x.wav", "C1 y.wav", "nope.wav"])),
        vec![Some(24), Some(24), None]
    );
}

#[test]
fn batch_of_nothing() {
    assert_eq!(guess_roots(&Vec::new()), Vec::<Option<u8>>::new());
}

#[test]
fn partial_from_str_keeps_prefix_and_suffix() {
    let parsed = <u8 as PartialFromStr>::partial_from_str("MELCEL-Db0.WAV").unwrap();
    assert_eq!(parsed.value, 13);
    assert_eq!(parsed.prefix, "MELCEL-");
    assert_eq!(parsed.suffix, ".WAV");
    let parsed = <u8 as PartialFromStr>::partial_from_str("MELCEL-A-1.WAV").unwrap();
    assert_eq!((parsed.value, parsed.prefix.as_str(), parsed.suffix.as_str()), (9, "MELCEL-", ".WAV"));
    let parsed = <u8 as PartialFromStr>::partial_from_str("THMB048.wav").unwrap();
    assert_eq!((parsed.value, parsed.prefix.as_str(), parsed.suffix.as_str()), (48, "THMB", ".wav"));
    let parsed = <u8 as PartialFromStr>::partial_from_str("x128.wav").unwrap();
    assert_eq!((parsed.value, parsed.prefix.as_str(), parsed.suffix.as_str()), (12, "x", "8.wav"));
}

#[test]
fn partial_from_str_not_a_note() {
    assert_eq!(<u8 as PartialFromStr>::partial_from_str("nope.wav"), Err(NotANote));
}
