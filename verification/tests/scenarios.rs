use emojis::{get, get_by_shortcode, search, EmojiTable, Group, SkinTone, UnicodeVersion};

/// The five skin-tone modifier characters, in enumeration order.
const MODS: [char; 5] = ['\u{1f3fb}', '\u{1f3fc}', '\u{1f3fd}', '\u{1f3fe}', '\u{1f3ff}'];

fn fixture_text() -> String {
    let mut t = String::new();
    t.push_str("# group: Smileys & Emotion\n\n");
    t.push_str("# subgroup: face-smiling\n");
    t.push_str("1F600 ; fully-qualified # \u{1F600} E1.0 grinning face\n");
    t.push_str("1F914 ; fully-qualified # \u{1F914} E1.0 thinking face\n");
    t.push_str("2639 FE0F ; fully-qualified # \u{2639}\u{FE0F} E0.7 frowning face\n");
    t.push_str("2639 ; unqualified # \u{2639} E0.7 frowning face\n");
    t.push_str("\n# group: People & Body\n\n");
    t.push_str("# subgroup: hands-open\n");
    t.push_str("1F64C ; fully-qualified # \u{1F64C} E0.6 raising hands\n");
    let names = [
        "light skin tone",
        "medium-light skin tone",
        "medium skin tone",
        "medium-dark skin tone",
        "dark skin tone",
    ];
    for (k, m) in MODS.iter().enumerate() {
        t.push_str(&format!(
            "1F64C {:04X} ; fully-qualified # \u{1F64C}{} E1.0 raising hands: {}\n",
            *m as u32, m, names[k]
        ));
    }
    t.push_str("\n# group: Travel & Places\n\n");
    t.push_str("# subgroup: sky-weather\n");
    t.push_str("2B50 ; fully-qualified # \u{2B50} E0.6 star\n");
    t.push_str("1F31F ; fully-qualified # \u{1F31F} E0.6 glowing star\n");
    t.push_str("1F320 ; fully-qualified # \u{1F320} E0.6 shooting star\n");
    t.push_str("\n# subgroup: transport-air\n");
    t.push_str("1F680 ; fully-qualified # \u{1F680} E0.6 rocket\n");
    t.push_str("\n# group: Flags\n\n");
    t.push_str("# subgroup: flag\n");
    t.push_str("1F3C1 ; fully-qualified # \u{1F3C1} E0.6 chequered flag\n");
    t.push_str("1F6A9 ; fully-qualified # \u{1F6A9} E0.6 triangular flag\n");
    t
}

fn fixture_gemoji() -> Vec<emojis::github::Emoji> {
    let entries: Vec<(&str, Vec<&str>)> = vec![
        ("\u{1F600}", vec!["grinning"]),
        ("\u{1F914}", vec!["thinking"]),
        ("\u{1F64C}", vec!["raised_hands"]),
        ("\u{2B50}", vec!["star"]),
        ("\u{1F31F}", vec!["star2"]),
        ("\u{1F320}", vec!["stars"]),
        ("\u{1F680}", vec!["rocket"]),
        ("\u{1F3C1}", vec!["checkered_flag"]),
    ];
    entries
        .into_iter()
        .map(|(e, a)| {
            emojis::github::Emoji::new(e.to_owned(), a.into_iter().map(str::to_owned).collect())
        })
        .collect()
}

fn table() -> EmojiTable {
    let parsed = emojis::unicode::parse_emoji_data(&fixture_text()).expect("fixture parses");
    emojis::builder::table_from_parsed(&parsed, &fixture_gemoji()).expect("fixture builds")
}

#[test]
fn lookup_rocket() {
    let t = table();
    let rocket = get(&t, "\u{1F680}").unwrap();
    assert_eq!(rocket.name(), "rocket");
    assert_eq!(rocket.shortcode(), Some("rocket"));
    assert!(rocket.skin_tone().is_none());
    assert!(rocket.skin_tones(&t).is_none());
    assert_eq!(rocket.unicode_version(), UnicodeVersion::new(0, 6));
    assert_eq!(rocket.group(), Group::TravelAndPlaces);
    assert_eq!(rocket.as_bytes(), &[0xf0, 0x9f, 0x9a, 0x80]);
    assert_eq!(get_by_shortcode(&t, "rocket").unwrap(), rocket);
}

#[test]
fn raised_hands_family_order() {
    let t = table();
    let raised = get(&t, "\u{1F64C}\u{1F3FC}").unwrap();
    let seqs: Vec<&str> = raised
        .skin_tones(&t)
        .unwrap()
        .iter()
        .map(|e| e.as_str())
        .collect();
    assert_eq!(
        seqs,
        [
            "\u{1F64C}",
            "\u{1F64C}\u{1F3FB}",
            "\u{1F64C}\u{1F3FC}",
            "\u{1F64C}\u{1F3FD}",
            "\u{1F64C}\u{1F3FE}",
            "\u{1F64C}\u{1F3FF}",
        ]
    );
    let medium_dark = raised.with_skin_tone(&t, SkinTone::MediumDark).unwrap();
    assert_eq!(medium_dark.as_str(), "\u{1F64C}\u{1F3FE}");
}

#[test]
fn search_star_ranking() {
    let t = table();
    let hits: Vec<&str> = search(&t, "star").iter().map(|e| e.as_str()).collect();
    assert_eq!(hits, ["\u{2B50}", "\u{1F31F}", "\u{1F320}"]);
}

#[test]
fn search_is_deterministic() {
    let t = table();
    let first: Vec<String> = search(&t, "star")
        .iter()
        .map(|e| e.as_str().to_owned())
        .collect();
    let second: Vec<String> = search(&t, "star")
        .iter()
        .map(|e| e.as_str().to_owned())
        .collect();
    assert_eq!(first, second);
}

#[test]
fn search_empty_query_finds_nothing() {
    let t = table();
    assert!(search(&t, "").is_empty());
}

#[test]
fn search_no_match_is_empty() {
    let t = table();
    assert!(search(&t, "zzzzzz").is_empty());
}

#[test]
fn first_flag_in_cldr_order() {
    let t = table();
    let flags = Group::Flags.emojis(&t);
    assert_eq!(flags[0].as_str(), "\u{1F3C1}");
}

#[test]
fn variation_resolves_to_fully_qualified() {
    let t = table();
    let frowning = get(&t, "\u{2639}").unwrap();
    assert_eq!(frowning.as_str(), "\u{2639}\u{FE0F}");
}

#[test]
fn shortcodes_lists_all_aliases() {
    let t = table();
    let grinning = get(&t, "\u{1F600}").unwrap();
    assert_eq!(grinning.shortcodes(), ["grinning"]);
    assert_eq!(grinning.shortcode(), Some("grinning"));
    let flagless = get(&t, "\u{1F6A9}").unwrap();
    assert!(flagless.shortcode().is_none());
    assert!(flagless.shortcodes().is_empty());
}

#[test]
fn modifier_tones_and_code_points() {
    let tones = emojis::tone::skin_tones();
    assert_eq!(tones.len(), 5);
    let cps: Vec<char> = tones.iter().map(|t| t.code_point()).collect();
    assert_eq!(cps, MODS);
    for (k, t) in tones.iter().enumerate() {
        assert_eq!(t.rank() as usize, k + 1);
        assert_eq!(emojis::tone::modifier_of(cps[k]), Some(*t));
    }
    assert_eq!(emojis::tone::modifier_of('x'), None);
    assert_eq!(
        emojis::tone::pair(SkinTone::Light, SkinTone::Light),
        SkinTone::Light
    );
    assert_eq!(
        emojis::tone::pair(SkinTone::Dark, SkinTone::Medium),
        SkinTone::DarkAndMedium
    );
}

#[test]
fn table_positions_and_length() {
    let t = table();
    assert_eq!(t.len(), 15);
    assert_eq!(t.records().len(), t.len());
    assert_eq!(t.get_by_position(0).as_str(), "\u{1F600}");
}
