use tiny_poe2smoother::text::is_blank;
use tiny_poe2smoother::search::SearchQuery;

fn matches(query: &str, text: &str) -> bool {
    SearchQuery::parse(query).matches("", &text.to_lowercase())
}

#[test]
fn plain_words_match_as_substrings_in_any_order() {
    let text = "{0}% increased chance to be [Omen|Omens]";
    assert!(matches("increase chance to be omen", text));
    assert!(matches("omen chance", text));
    assert!(!matches("omen damage", text));
    assert!(matches("", text));
    assert!(matches("   ", text));
}

#[test]
fn regex_terms_match_case_insensitively() {
    assert!(matches("fire|cold", "Adds {0} Cold Damage"));
    assert!(matches("fire|cold", "Adds {0} FIRE Damage"));
    assert!(!matches("fire|cold", "Adds {0} Lightning Damage"));
    assert!(matches(
        r"\{0\}% (more|increased)",
        "{0}% more Monster Life"
    ));
    assert!(matches("^adds", "Adds {0} Cold Damage"));
    assert!(!matches("^cold", "Adds {0} Cold Damage"));
    assert!(matches("^ADDS", "Adds {0} Cold Damage"));
}

#[test]
fn quoted_blocks_keep_phrases_together() {
    let text = "{0}% more Monster Life";
    assert!(matches("\"more monster\"", text));
    assert!(!matches("\"monster more\"", text));
    assert!(matches("monster more", text));
    assert!(matches("\"more monster", text));
}

#[test]
fn bang_negates_inside_or_outside_quotes() {
    let text = "{0}% more Monster Damage";
    assert!(matches("damage !life", text));
    assert!(!matches("damage !monster", text));
    assert!(!matches("\"!more monster\"", text));
    assert!(!matches("!\"more monster\"", text));
    assert!(matches("! damage", text));
}

#[test]
fn literal_fallback_covers_invalid_regex_and_stat_id_pastes() {
    assert!(matches("+5", "+5 to Level of all Skills"));
    let query = SearchQuery::parse("map_monsters_damage_+%");
    assert!(query.matches("map_monsters_damage_+%", ""));
    assert!(!query.matches("map_monsters_life_+%", ""));
}

#[test]
fn terms_match_either_stat_id_or_display_text() {
    let query = SearchQuery::parse("ritual omen");
    assert!(query.matches(
        "map_ritual_omen_chance_+%",
        "favours in map have {0}% increased chance to be omens",
    ));
    let query = SearchQuery::parse("ritual_omen increased");
    assert!(query.matches(
        "map_ritual_omen_chance_+%",
        "favours in map have {0}% increased chance to be omens",
    ));
}

#[test]
fn queries_have_their_terms() {
    let query = SearchQuery::parse(" a \"b c\" !D !\"!\"  \"\" e\u{a0}F");
    let terms: Vec<(bool, &str, &str)> = query
        .terms
        .iter()
        .map(|t| (t.negated, t.text.as_str(), t.literal.as_str()))
        .collect();
    assert_eq!(
        terms,
        [
            (false, "a", "a"),
            (false, "b c", "b c"),
            (true, "D", "d"),
            (false, "e", "e"),
            (false, "F", "f"),
        ]
    );
}

#[test]
fn regex_results_and_literals_decide_together() {
    let query = SearchQuery::parse("x !y");
    assert!(query.matches_given(&vec![true, false], "", ""));
    assert!(!query.matches_given(&vec![true, true], "", ""));
    assert!(!query.matches_given(&vec![false, false], "", ""));
    assert!(query.matches_given(&vec![false, false], "ax", ""));
    assert!(!query.matches_given(&vec![false, false], "ax", "y"));
    // A longer query matches less.
    assert!(SearchQuery::parse("x").matches_given(&vec![false], "ax", "y"));
}

#[test]
fn white_space_is_that_of_unicode() {
    for c in '\0'..=char::MAX {
        let listed = matches!(
            c,
            '\u{9}'..='\u{d}' | '\u{20}' | '\u{85}' | '\u{a0}' | '\u{1680}' | '\u{2000}'
                ..='\u{200a}' | '\u{2028}' | '\u{2029}' | '\u{202f}' | '\u{205f}' | '\u{3000}'
        );
        assert_eq!(is_blank(&[c]), listed, "{c:?}");
    }
}

/// A pattern that finds `zq` only if it compiles: the text as a whole is not in
/// the field.
fn compiles(front: &str) -> bool {
    SearchQuery::parse(&format!("\"{front}|zq\"")).matches("", "a zq b")
}

#[test]
fn plain_patterns_compile() {
    for letter in ["k", "s", "a", "_", " ", "^", "$", "|"] {
        assert!(compiles(&letter.repeat(253)), "{letter}");
    }
    assert!(compiles(&"s|k".repeat(84)));
    for c in ' '..='~' {
        if !r#"\.+*?()[]{}"!"#.contains(c) {
            assert!(compiles(&c.to_string()), "{c}");
            assert!(compiles(&format!("x{c}y")), "{c}");
        }
    }
    assert!(SearchQuery::parse("x\"y!|zq").matches("", "a zq b"));
    // One that is none still finds its own text.
    assert!(!compiles("("));
    assert!(SearchQuery::parse("(|zq").matches("", "a (|zq b"));
}

#[test]
fn simple_patterns_compile() {
    // The parts that take most, as often as 253 characters can hold them.
    for (part, n) in [
        (".", 253),
        (".*", 126),
        (".+", 126),
        (".?", 126),
        ("(.)", 84),
        ("(.*)+", 50),
        ("(.|.)", 50),
        ("(.|k)*", 42),
        ("(s|k|$)?", 31),
        ("\\.", 126),
        ("\\{0\\}%", 36),
        ("()", 126),
        ("(|)*", 63),
    ] {
        assert!(compiles(&part.repeat(n)), "{part}");
    }
    for (open, close, n) in [
        ("(", ")", 126),
        ("(", ")*", 84),
        ("(.", ")+", 63),
        ("(|", ")?", 63),
        ("(|.", ")*", 50),
        ("(.|.", ")*", 42),
        ("(k|s", ")?", 42),
    ] {
        let pattern = open.repeat(n) + &close.repeat(n);
        assert!(compiles(&pattern), "{open}{close}");
    }
    for pattern in ["(more|increased)", "fire.*damage", "^ab?c+$", "a|(b|c)d"] {
        assert!(compiles(pattern), "{pattern}");
    }
    assert!(SearchQuery::parse("\"(more|increased) .*life\"").matches("", "5% increased life"));
    assert!(!SearchQuery::parse("\"(more|increased) .*life\"").matches("", "5% less life"));
}

#[test]
fn joined_queries_match_what_both_match() {
    let rows = [
        ("map_monsters_damage_+%", "{0}% more monster damage"),
        ("map_monsters_life_+%", "{0}% more monster life"),
        ("map_fire", "adds {0} fire damage"),
    ];
    for (a, b) in [
        ("fire|life", "!monster"),
        ("more", "\"monster life\""),
        ("!", "damage"),
        ("  ", "life  "),
        ("x !", "\"unclosed more"),
        ("da.age", "^adds"),
        ("[mf]", "!{0}%"),
        ("(", "fire|li[f"),
        ("!m.{3,4}", "(life|damage)$"),
    ] {
        let both = SearchQuery::parse(&format!("{a} {b}"));
        let parts = (SearchQuery::parse(a), SearchQuery::parse(b));
        assert_eq!(both.terms.len(), parts.0.terms.len() + parts.1.terms.len());
        for (id, text) in rows {
            assert_eq!(
                both.matches(id, text),
                parts.0.matches(id, text) && parts.1.matches(id, text),
                "{a} {b}: {id}"
            );
        }
    }
}
