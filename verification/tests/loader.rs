use hashcarve::config::ConfigError;
use hashcarve::loader::{parse_signatures, parse_targets};
use hashcarve::targets::verify;

fn patterns(text: &str) -> Vec<Vec<u8>> {
    let set = parse_signatures(text).unwrap();
    (0..set.len()).map(|i| set.pattern(i).to_vec()).collect()
}

fn error(text: &str) -> ConfigError {
    match parse_signatures(text) {
        Ok(_) => panic!("the list was accepted"),
        Err(error) => error,
    }
}

#[test]
fn targets_are_read_one_per_line() {
    let targets =
        parse_targets("d41d8cd98f00b204e9800998ecf8427e\n900150983cd24fb0d6963f7d28e17f72\n");
    assert_eq!(targets.len(), 2);
    assert!(targets.contains(&"d41d8cd98f00b204e9800998ecf8427e".to_string()));
    assert!(targets.contains(&"900150983cd24fb0d6963f7d28e17f72".to_string()));
}

#[test]
fn targets_are_trimmed_and_blank_lines_are_skipped() {
    let targets = parse_targets("\n  900150983cd24fb0d6963f7d28e17f72 \r\n\r\n   \n");
    assert_eq!(targets.len(), 1);
    assert!(targets.contains(&"900150983cd24fb0d6963f7d28e17f72".to_string()));
}

#[test]
fn targets_are_brought_to_lower_case() {
    let targets = parse_targets("900150983CD24FB0D6963F7D28E17F72");
    assert!(targets.contains(&"900150983cd24fb0d6963f7d28e17f72".to_string()));
    assert_eq!(verify(b"abc", &targets), Some("900150983cd24fb0d6963f7d28e17f72".to_string()));
}

#[test]
fn an_empty_target_list_holds_nothing() {
    assert_eq!(parse_targets("").len(), 0);
    assert_eq!(parse_targets("\n\n").len(), 0);
}

#[test]
fn a_target_that_is_no_digest_is_kept_and_never_matches() {
    let targets = parse_targets("not a digest\n");
    assert_eq!(targets.len(), 1);
    assert!(targets.contains(&"not a digest".to_string()));
    assert_eq!(verify(b"abc", &targets), None);
}

#[test]
fn signatures_are_decoded_from_hex() {
    assert_eq!(
        patterns("89504e47\nffd8ff\n25504446\n"),
        vec![vec![0x89, 0x50, 0x4e, 0x47], vec![0xff, 0xd8, 0xff], vec![0x25, 0x50, 0x44, 0x46]]
    );
}

#[test]
fn signatures_may_be_written_in_either_case() {
    assert_eq!(patterns("AABBCCDDEE\naAbB\n"), vec![
        vec![0xaa, 0xbb, 0xcc, 0xdd, 0xee],
        vec![0xaa, 0xbb]
    ]);
}

#[test]
fn signatures_are_trimmed_and_blank_lines_are_skipped() {
    assert_eq!(patterns("\n  0001 \r\n\n\t7f\t\n"), vec![vec![0x00, 0x01], vec![0x7f]]);
}

#[test]
fn an_empty_signature_list_holds_nothing() {
    assert_eq!(patterns(""), Vec::<Vec<u8>>::new());
    assert_eq!(patterns("  \n\n"), Vec::<Vec<u8>>::new());
}

#[test]
fn all_byte_values_are_decoded() {
    let mut text = String::new();
    let mut expected = Vec::new();
    for value in 0..=255u8 {
        text.push_str(&format!("{:02x}{:02X}\n", value, value));
        expected.push(vec![value, value]);
    }
    assert_eq!(patterns(&text), expected);
}

#[test]
fn an_odd_number_of_digits_is_malformed() {
    assert_eq!(error("abc"), ConfigError::MalformedSignature { entry: 0 });
    assert_eq!(error("ab\ncd\ne\n"), ConfigError::MalformedSignature { entry: 2 });
}

#[test]
fn a_character_that_is_no_digit_is_malformed() {
    assert_eq!(error("zz"), ConfigError::MalformedSignature { entry: 0 });
    assert_eq!(error("0g"), ConfigError::MalformedSignature { entry: 0 });
    assert_eq!(error("ab cd"), ConfigError::MalformedSignature { entry: 0 });
    assert_eq!(error("0x41"), ConfigError::MalformedSignature { entry: 0 });
}

#[test]
fn a_character_outside_ascii_is_malformed() {
    assert_eq!(error("ab\n\u{e9}\u{e9}\n"), ConfigError::MalformedSignature { entry: 1 });
    assert_eq!(error("a\u{ff11}"), ConfigError::MalformedSignature { entry: 0 });
}

#[test]
fn the_first_malformed_entry_is_named_counting_entries_not_lines() {
    assert_eq!(error("\n\nab\n\n\nxy\nzz\n"), ConfigError::MalformedSignature { entry: 1 });
}

#[test]
fn signatures_agree_with_the_hex_crate() {
    let lines = ["00", "ff", "0A1b2C", "deadBEEF", "g0", "123", "", "  ", "4142", "\u{e9}"];
    for line in lines {
        let trimmed = line.trim();
        let outcome = parse_signatures(line);
        if trimmed.is_empty() {
            assert_eq!(outcome.unwrap().len(), 0);
        } else {
            match hex::decode(trimmed) {
                Ok(bytes) => {
                    let set = outcome.unwrap();
                    assert_eq!(set.len(), 1);
                    assert_eq!(set.pattern(0), &bytes[..]);
                }
                Err(_) => assert!(outcome.is_err()),
            }
        }
    }
}
