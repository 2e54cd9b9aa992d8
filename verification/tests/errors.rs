use emojis::builder::{build_table, table_from_parsed, BuildError};
use emojis::unicode::{parse_code_point, parse_emoji_data, ParseError};

fn gemoji_empty() -> Vec<emojis::github::Emoji> {
    Vec::new()
}

fn parse_and_build(text: &str) -> Result<emojis::EmojiTable, BuildError> {
    let parsed = parse_emoji_data(text).expect("parses");
    table_from_parsed(&parsed, &gemoji_empty())
}

#[test]
fn code_point_parses() {
    assert_eq!(parse_code_point("1F680"), Ok('\u{1F680}'));
    assert_eq!(parse_code_point("2b50"), Ok('\u{2B50}'));
    assert_eq!(parse_code_point("0041"), Ok('A'));
}

#[test]
fn code_point_rejects_bad_hex() {
    assert_eq!(parse_code_point(""), Err(ParseError::NotHex));
    assert_eq!(parse_code_point("XYZ"), Err(ParseError::NotHex));
    assert_eq!(parse_code_point("123456789"), Err(ParseError::NotHex));
}

#[test]
fn code_point_rejects_surrogates() {
    assert_eq!(parse_code_point("D800"), Err(ParseError::NotScalarValue));
    assert_eq!(parse_code_point("110000"), Err(ParseError::NotScalarValue));
}

#[test]
fn line_without_semicolon_is_rejected() {
    let text = "# group: Flags\n\n# subgroup: flag\n1F3C1 fully-qualified # \u{1F3C1} E0.6 chequered flag\n";
    assert_eq!(
        parse_emoji_data(text).err(),
        Some(ParseError::ExpectedCodePoints)
    );
}

#[test]
fn line_without_hash_is_rejected() {
    let text = "# group: Flags\n\n# subgroup: flag\n1F3C1 ; fully-qualified \u{1F3C1} E0.6 chequered flag\n";
    assert_eq!(parse_emoji_data(text).err(), Some(ParseError::ExpectedStatus));
}

#[test]
fn mismatched_emoji_is_rejected() {
    let text =
        "# group: Flags\n\n# subgroup: flag\n1F3C1 ; fully-qualified # \u{1F6A9} E0.6 flag\n";
    assert_eq!(parse_emoji_data(text).err(), Some(ParseError::EmojiMismatch));
}

#[test]
fn unknown_status_is_rejected() {
    let text = "# group: Flags\n\n# subgroup: flag\n1F3C1 ; half-qualified # \u{1F3C1} E0.6 flag\n";
    assert_eq!(
        parse_emoji_data(text).err(),
        Some(ParseError::UnrecognizedStatus)
    );
}

#[test]
fn bad_version_is_rejected() {
    let text = "# group: Flags\n\n# subgroup: flag\n1F3C1 ; fully-qualified # \u{1F3C1} X0.6 flag\n";
    assert_eq!(parse_emoji_data(text).err(), Some(ParseError::BadVersion));
}

#[test]
fn missing_version_is_rejected() {
    let text = "# group: Flags\n\n# subgroup: flag\n1F3C1 ; fully-qualified # \u{1F3C1}\n";
    assert_eq!(parse_emoji_data(text).err(), Some(ParseError::ExpectedVersion));
}

#[test]
fn missing_name_is_rejected() {
    let text = "# group: Flags\n\n# subgroup: flag\n1F3C1 ; fully-qualified # \u{1F3C1} E0.6\n";
    assert_eq!(parse_emoji_data(text).err(), Some(ParseError::ExpectedName));
}

#[test]
fn unknown_group_is_rejected() {
    let text = "# group: Things\n\n# subgroup: stuff\n1F3C1 ; fully-qualified # \u{1F3C1} E0.6 flag\n";
    assert_eq!(parse_emoji_data(text).err(), Some(ParseError::UnknownGroup));
}

#[test]
fn variant_before_record_is_rejected() {
    let text = "# group: Flags\n\n# subgroup: flag\n2639 ; unqualified # \u{2639} E0.7 frowning face\n";
    assert_eq!(
        parse_emoji_data(text).err(),
        Some(ParseError::MissingFullyQualified)
    );
}

#[test]
fn component_group_is_dropped() {
    let text = "# group: Component\n\n# subgroup: skin-tone\n1F3FB ; component # \u{1F3FB} E1.0 light skin tone\n\n# group: Flags\n\n# subgroup: flag\n1F3C1 ; fully-qualified # \u{1F3C1} E0.6 chequered flag\n";
    let t = parse_and_build(text).expect("builds");
    assert_eq!(t.len(), 1);
    assert!(emojis::get(&t, "\u{1F3FB}").is_none());
    assert!(emojis::get(&t, "\u{1F3C1}").is_some());
}

#[test]
fn duplicate_sequence_fails_the_build() {
    let text = "# group: Flags\n\n# subgroup: flag\n1F3C1 ; fully-qualified # \u{1F3C1} E0.6 chequered flag\n1F3C1 ; fully-qualified # \u{1F3C1} E0.6 chequered flag\n";
    assert_eq!(
        parse_and_build(text).err(),
        Some(BuildError::DuplicateUnicodeKey)
    );
}

#[test]
fn duplicate_shortcode_fails_the_build() {
    let text = "# group: Flags\n\n# subgroup: flag\n1F3C1 ; fully-qualified # \u{1F3C1} E0.6 chequered flag\n1F6A9 ; fully-qualified # \u{1F6A9} E0.6 triangular flag\n";
    let parsed = parse_emoji_data(text).expect("parses");
    let gemoji = vec![
        emojis::github::Emoji::new("\u{1F3C1}".to_owned(), vec!["flag".to_owned()]),
        emojis::github::Emoji::new("\u{1F6A9}".to_owned(), vec!["flag".to_owned()]),
    ];
    assert_eq!(
        table_from_parsed(&parsed, &gemoji).err(),
        Some(BuildError::DuplicateShortcode)
    );
}

#[test]
fn short_family_fails_the_build() {
    let text = "# group: People & Body\n\n# subgroup: hands-open\n1F64C ; fully-qualified # \u{1F64C} E0.6 raising hands\n1F64C 1F3FB ; fully-qualified # \u{1F64C}\u{1F3FB} E1.0 raising hands: light skin tone\n";
    assert_eq!(parse_and_build(text).err(), Some(BuildError::BadFamily));
}

#[test]
fn disordered_groups_fail_the_build() {
    let text = "# group: Flags\n\n# subgroup: flag\n1F3C1 ; fully-qualified # \u{1F3C1} E0.6 chequered flag\n\n# group: Smileys & Emotion\n\n# subgroup: face-smiling\n1F600 ; fully-qualified # \u{1F600} E1.0 grinning face\n";
    assert_eq!(parse_and_build(text).err(), Some(BuildError::GroupDisorder));
}

#[test]
fn parsed_records_expose_their_fields() {
    let text = "# group: Smileys & Emotion\n\n# subgroup: face-affection\n2639 FE0F ; fully-qualified # \u{2639}\u{FE0F} E0.7 frowning face\n2639 ; unqualified # \u{2639} E0.7 frowning face\n1F64C 1F3FD ; fully-qualified # \u{1F64C}\u{1F3FD} E1.0 raising hands: medium skin tone\n";
    // a stray skin-tone variant anchors to the nearest earlier record
    // that could open a family, and the malformed two-member family is
    // then rejected at build time
    assert_eq!(parse_and_build(text).err(), Some(BuildError::BadFamily));

    let text_ok = "# group: Smileys & Emotion\n\n# subgroup: face-affection\n2639 FE0F ; fully-qualified # \u{2639}\u{FE0F} E0.7 frowning face\n2639 ; unqualified # \u{2639} E0.7 frowning face\n";
    let parsed = parse_emoji_data(text_ok).expect("parses");
    assert_eq!(parsed.len(), 1);
    assert_eq!(parsed[0].group, emojis::Group::SmileysAndEmotion);
    assert_eq!(parsed[0].subgroups.len(), 1);
    assert_eq!(parsed[0].subgroups[0].name, "face-affection");
    let rec = &parsed[0].subgroups[0].emojis[0];
    assert_eq!(rec.as_str(), "\u{2639}\u{FE0F}");
    assert_eq!(rec.name(), "frowning face");
    assert_eq!(*rec.unicode_version(), emojis::UnicodeVersion::new(0, 7));
    assert_eq!(rec.skin_tone(), None);
    assert_eq!(rec.skin_tones(), 1);
    assert_eq!(rec.variations(), &vec!["\u{2639}".to_owned()]);
}

#[test]
fn flattened_build_matches_parsed_build() {
    let text = "# group: Flags\n\n# subgroup: flag\n1F3C1 ; fully-qualified # \u{1F3C1} E0.6 chequered flag\n";
    let parsed = parse_emoji_data(text).expect("parses");
    let flat = emojis::builder::flatten_parsed(&parsed);
    assert_eq!(flat.len(), 1);
    assert_eq!(flat[0].0, emojis::Group::Flags);
    let t = build_table(&flat, &gemoji_empty()).expect("builds");
    assert_eq!(t.len(), 1);
}
