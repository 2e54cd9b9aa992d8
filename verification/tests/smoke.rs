use emojis::{get, get_by_shortcode, iter, EmojiTable, Group, SkinTone, UnicodeVersion};

/// The five skin-tone modifier characters, in enumeration order.
const MODS: [char; 5] = ['\u{1f3fb}', '\u{1f3fc}', '\u{1f3fd}', '\u{1f3fe}', '\u{1f3ff}'];

/// A small table in the Unicode emoji test data format, covering plain
/// emojis, qualification variants, a six-member and a twenty-six-member
/// skin-tone family, and several groups.
fn fixture_text() -> String {
    let mut t = String::new();
    t.push_str("# group: Smileys & Emotion\n\n");
    t.push_str("# subgroup: face-smiling\n");
    t.push_str("1F600 ; fully-qualified # \u{1F600} E1.0 grinning face\n");
    t.push_str("1F603 ; fully-qualified # \u{1F603} E0.6 grinning face with big eyes\n");
    t.push_str("1F606 ; fully-qualified # \u{1F606} E0.6 grinning squinting face\n");
    t.push_str("\n# subgroup: face-affection\n");
    t.push_str("1F60E ; fully-qualified # \u{1F60E} E1.0 smiling face with sunglasses\n");
    t.push_str("1F914 ; fully-qualified # \u{1F914} E1.0 thinking face\n");
    t.push_str("2639 FE0F ; fully-qualified # \u{2639}\u{FE0F} E0.7 frowning face\n");
    t.push_str("2639 ; unqualified # \u{2639} E0.7 frowning face\n");
    t.push_str("\n# group: People & Body\n\n");
    t.push_str("# subgroup: hands-open\n");
    t.push_str("1F64C ; fully-qualified # \u{1F64C} E0.6 raising hands\n");
    let names = [
        "light skin tone",
        "medium-light skin tone",
        "medium skin tone",
        "medium-dark skin tone",
        "dark skin tone",
    ];
    for (k, m) in MODS.iter().enumerate() {
        t.push_str(&format!(
            "1F64C {:04X} ; fully-qualified # \u{1F64C}{} E1.0 raising hands: {}\n",
            *m as u32, m, names[k]
        ));
    }
    t.push_str("\n# subgroup: family\n");
    t.push_str("1F491 ; fully-qualified # \u{1F491} E0.6 couple with heart\n");
    for (k, m) in MODS.iter().enumerate() {
        t.push_str(&format!(
            "1F491 {:04X} ; fully-qualified # \u{1F491}{} E13.1 couple with heart: {}\n",
            *m as u32, m, names[k]
        ));
    }
    for (ka, a) in MODS.iter().enumerate() {
        for (kb, b) in MODS.iter().enumerate() {
            if ka == kb {
                continue;
            }
            t.push_str(&format!(
                "1F9D1 {:04X} 200D 2764 FE0F 200D 1F9D1 {:04X} ; fully-qualified # \u{1F9D1}{}\u{200D}\u{2764}\u{FE0F}\u{200D}\u{1F9D1}{} E13.1 couple with heart: person, person, {}, {}\n",
                *a as u32, *b as u32, a, b, names[ka], names[kb]
            ));
        }
    }
    t.push_str("\n# group: Travel & Places\n\n");
    t.push_str("# subgroup: sky-weather\n");
    t.push_str("2B50 ; fully-qualified # \u{2B50} E0.6 star\n");
    t.push_str("1F31F ; fully-qualified # \u{1F31F} E0.6 glowing star\n");
    t.push_str("1F320 ; fully-qualified # \u{1F320} E0.6 shooting star\n");
    t.push_str("\n# subgroup: transport-air\n");
    t.push_str("1F680 ; fully-qualified # \u{1F680} E0.6 rocket\n");
    t.push_str("\n# group: Flags\n\n");
    t.push_str("# subgroup: flag\n");
    t.push_str("1F3C1 ; fully-qualified # \u{1F3C1} E0.6 chequered flag\n");
    t.push_str("1F6A9 ; fully-qualified # \u{1F6A9} E0.6 triangular flag\n");
    t
}

fn fixture_gemoji() -> Vec<emojis::github::Emoji> {
    let entries: Vec<(&str, Vec<&str>)> = vec![
        ("\u{1F600}", vec!["grinning"]),
        ("\u{1F606}", vec!["laughing", "satisfied"]),
        ("\u{1F60E}", vec!["sunglasses"]),
        ("\u{1F914}", vec!["thinking"]),
        ("\u{1F64C}", vec!["raised_hands"]),
        ("\u{1F491}", vec!["couple_with_heart"]),
        ("\u{2B50}", vec!["star"]),
        ("\u{1F31F}", vec!["star2"]),
        ("\u{1F320}", vec!["stars"]),
        ("\u{1F680}", vec!["rocket"]),
        ("\u{1F3C1}", vec!["checkered_flag"]),
    ];
    entries
        .into_iter()
        .map(|(e, a)| {
            emojis::github::Emoji::new(e.to_owned(), a.into_iter().map(str::to_owned).collect())
        })
        .collect()
}

fn table() -> EmojiTable {
    let parsed = emojis::unicode::parse_emoji_data(&fixture_text()).expect("fixture parses");
    emojis::builder::table_from_parsed(&parsed, &fixture_gemoji()).expect("fixture builds")
}

#[test]
fn get_variation() {
    let t = table();
    assert_eq!(get(&t, "\u{2639}"), get(&t, "\u{2639}\u{FE0F}"));
}

#[test]
fn iter_only_default_skin_tones() {
    let t = table();
    assert!(iter(&t)
        .iter()
        .all(|emoji| matches!(emoji.skin_tone(), Some(SkinTone::Default) | None)));
    assert_ne!(
        iter(&t)
            .iter()
            .filter(|emoji| matches!(emoji.skin_tone(), Some(SkinTone::Default)))
            .count(),
        0
    );
}

#[test]
fn unicode_version_partial_ord() {
    assert!(UnicodeVersion::new(13, 0) >= UnicodeVersion::new(12, 0));
    assert!(UnicodeVersion::new(12, 1) >= UnicodeVersion::new(12, 0));
    assert!(UnicodeVersion::new(12, 0) >= UnicodeVersion::new(12, 0));
    assert!(UnicodeVersion::new(12, 0) < UnicodeVersion::new(12, 1));
    assert!(UnicodeVersion::new(11, 0) < UnicodeVersion::new(12, 1));
    assert!(UnicodeVersion::new(11, 0) < UnicodeVersion::new(12, 1));
}

#[test]
fn emoji_partial_eq_str() {
    let t = table();
    assert_eq!(get(&t, "\u{1F600}").unwrap(), "\u{1F600}");
}

#[test]
fn emoji_display() {
    let t = table();
    let s = get(&t, "\u{1F600}").unwrap().to_string();
    assert_eq!(s, "\u{1F600}");
}

#[test]
fn emoji_skin_tones() {
    let t = table();
    let skin_tones = [
        SkinTone::Default,
        SkinTone::Light,
        SkinTone::MediumLight,
        SkinTone::Medium,
        SkinTone::MediumDark,
        SkinTone::Dark,
        SkinTone::LightAndMediumLight,
        SkinTone::LightAndMedium,
        SkinTone::LightAndMediumDark,
        SkinTone::LightAndDark,
        SkinTone::MediumLightAndLight,
        SkinTone::MediumLightAndMedium,
        SkinTone::MediumLightAndMediumDark,
        SkinTone::MediumLightAndDark,
        SkinTone::MediumAndLight,
        SkinTone::MediumAndMediumLight,
        SkinTone::MediumAndMediumDark,
        SkinTone::MediumAndDark,
        SkinTone::MediumDarkAndLight,
        SkinTone::MediumDarkAndMediumLight,
        SkinTone::MediumDarkAndMedium,
        SkinTone::MediumDarkAndDark,
        SkinTone::DarkAndLight,
        SkinTone::DarkAndMediumLight,
        SkinTone::DarkAndMedium,
        SkinTone::DarkAndMediumDark,
    ];

    for emoji in iter(&t) {
        match emoji.skin_tone() {
            Some(_) => {
                let emojis = emoji.skin_tones(&t).unwrap();
                assert!(emojis.len() == 6 || emojis.len() == 26);
                let default = emojis[0];
                for (emoji, skin_tone) in emojis
                    .iter()
                    .zip(skin_tones.iter().copied().take(emojis.len()))
                {
                    assert_eq!(emoji.skin_tone().unwrap(), skin_tone, "{emojis:#?}");
                    assert_eq!(default.with_skin_tone(&t, skin_tone).unwrap(), *emoji);
                    assert_eq!(
                        emoji.with_skin_tone(&t, SkinTone::Default).unwrap(),
                        default
                    );
                }
            }
            None => {
                assert!(emoji.skin_tones(&t).is_none());
            }
        }
    }
}

#[test]
fn emoji_shortcodes() {
    let t = table();
    for emoji in iter(&t) {
        assert_eq!(emoji.shortcodes().first().copied(), emoji.shortcode());
    }
}

#[test]
fn group_iter_and_emojis() {
    let t = table();
    let left: Vec<_> = Group::iter()
        .into_iter()
        .flat_map(|g| g.emojis(&t))
        .collect();
    let right: Vec<_> = iter(&t);
    assert_eq!(left, right);
}

#[test]
fn shortcode_round_trip() {
    let t = table();
    for emoji in iter(&t) {
        if let Some(code) = emoji.shortcode() {
            assert_eq!(get_by_shortcode(&t, code).unwrap(), emoji);
        }
    }
}

#[test]
fn sequence_round_trip() {
    let t = table();
    for i in 0..t.len() {
        let e = t.get_by_position(i);
        assert_eq!(get(&t, e.as_str()).unwrap(), e);
    }
}
