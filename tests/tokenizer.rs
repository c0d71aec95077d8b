use ichiran_grammar::ichiran_extraction::{
    process_lines, push_conjugation, CompoundWord, Conjugation, Token, Word,
};

fn word(surface: &str, pos: &str) -> Token {
    Token::Word(Word {
        surface: surface.to_string(),
        reading: None,
        pos: pos.to_string(),
        meanings: vec![],
    })
}

fn conjugation(base_form: &str, conjugation_type: &str) -> Conjugation {
    Conjugation {
        pos: "v1".to_string(),
        base_form: base_form.to_string(),
        conjugation_type: conjugation_type.to_string(),
        meanings: vec![],
    }
}

#[test]
fn word_entry_with_sense_line() {
    let tokens = process_lines(vec!["* 食べる 【たべる】", "1. [v1] to eat"]);
    assert_eq!(
        tokens,
        vec![Token::Word(Word {
            surface: "食べる".to_string(),
            reading: Some("たべる".to_string()),
            pos: "v1".to_string(),
            meanings: vec!["1. [v1] to eat".to_string()],
        })]
    );
}

#[test]
fn empty_input_gives_no_tokens() {
    assert_eq!(process_lines(vec![]), vec![]);
}

#[test]
fn sense_line_after_blank_line() {
    let tokens = process_lines(vec!["* 猫 【ねこ】", "", "1. [n] cat", "2. [n] kitty"]);
    assert_eq!(
        tokens,
        vec![Token::Word(Word {
            surface: "猫".to_string(),
            reading: Some("ねこ".to_string()),
            pos: "n".to_string(),
            meanings: vec!["1. [n] cat".to_string(), "2. [n] kitty".to_string()],
        })]
    );
}

#[test]
fn inflection_class_word_is_skipped() {
    let tokens = process_lines(vec!["* <suf> 様 【さま】"]);
    assert_eq!(
        tokens,
        vec![Token::Word(Word {
            surface: "様".to_string(),
            reading: Some("さま".to_string()),
            pos: "".to_string(),
            meanings: vec![],
        })]
    );
}

#[test]
fn surface_is_the_first_word_without_brackets() {
    let tokens = process_lines(vec!["* neko 猫 【ねこ】"]);
    match &tokens[0] {
        Token::Word(w) => assert_eq!(w.surface, "neko"),
        _ => panic!("expected a word"),
    }
}

#[test]
fn header_without_entry_text_gives_no_word() {
    assert_eq!(process_lines(vec!["*", "* 【ねこ】"]), vec![]);
}

#[test]
fn comma_separated_tags_are_kept_whole() {
    let tokens = process_lines(vec!["* 勉強 【べんきょう】", "1. [n,vs] study"]);
    match &tokens[0] {
        Token::Word(w) => assert_eq!(w.pos, "n,vs"),
        _ => panic!("expected a word"),
    }
}

#[test]
fn sense_line_without_tags_gives_empty_pos() {
    let tokens = process_lines(vec!["* 猫 【ねこ】", "1. [N] cat"]);
    match &tokens[0] {
        Token::Word(w) => assert_eq!(w.pos, ""),
        _ => panic!("expected a word"),
    }
}

#[test]
fn te_form_conjugation_keeps_the_word() {
    let tokens = process_lines(vec![
        "* 食べる 【たべる】",
        "1. [v1] to eat",
        "[ Conjugation: [v1] Conjunctive (~te) Affirmative Plain",
        "  食べる 【たべる】",
    ]);
    assert_eq!(tokens.len(), 2);
    assert!(matches!(tokens[0], Token::Word(_)));
    assert_eq!(
        tokens[1],
        Token::Conjugation(Conjugation {
            pos: "v1".to_string(),
            base_form: "食べる".to_string(),
            conjugation_type: "Conjunctive (~te) Affirmative Plain".to_string(),
            meanings: vec!["  食べる 【たべる】".to_string()],
        })
    );
}

#[test]
fn other_conjugation_replaces_the_word() {
    let tokens = process_lines(vec![
        "* 食べた 【たべた】",
        "1. [v1] to eat",
        "[ Conjugation: [v1] Past (~ta) Affirmative Plain",
        "  食べる 【たべる】",
    ]);
    assert_eq!(
        tokens,
        vec![Token::Conjugation(Conjugation {
            pos: "v1".to_string(),
            base_form: "食べる".to_string(),
            conjugation_type: "Past (~ta) Affirmative Plain".to_string(),
            meanings: vec!["  食べる 【たべる】".to_string()],
        })]
    );
}

#[test]
fn base_form_falls_back_to_the_word() {
    let tokens = process_lines(vec![
        "* 食べた 【たべた】",
        "[ Conjugation: [v1] Past (~ta)",
        "to eat",
    ]);
    match &tokens[..] {
        [Token::Conjugation(c)] => {
            assert_eq!(c.base_form, "食べた");
            assert_eq!(c.conjugation_type, "Past (~ta)");
        }
        _ => panic!("expected one conjugation"),
    }
}

#[test]
fn base_form_without_word_is_empty() {
    let tokens = process_lines(vec!["[ Conjugation: [v5r] Non-past", "no base here"]);
    match &tokens[..] {
        [Token::Conjugation(c)] => {
            assert_eq!(c.base_form, "");
            assert_eq!(c.pos, "v5r");
        }
        _ => panic!("expected one conjugation"),
    }
}

#[test]
fn conjugation_on_last_line_is_skipped() {
    let tokens = process_lines(vec!["* 猫 【ねこ】", "[ Conjugation: [v1] Past (~ta)"]);
    assert_eq!(tokens.len(), 1);
    assert!(matches!(tokens[0], Token::Word(_)));
}

#[test]
fn malformed_conjugation_header_is_skipped() {
    let tokens = process_lines(vec!["Conjugation without tags", "  食べる 【たべる】"]);
    assert_eq!(tokens, vec![]);
}

fn compound_lines() -> Vec<&'static str> {
    vec![
        "* 食べました 【たべました】 Compound word: 食べる + ました",
        "  食べる + ました",
        "",
        "[ Conjugation: [v1] Non-past",
        "  食べる 【たべる】",
        "",
        "[ Conjugation: [aux-v] Past (~ta)",
        "  ます 【ます】",
    ]
}

#[test]
fn compound_word_block() {
    let tokens = process_lines(compound_lines());
    assert_eq!(
        tokens,
        vec![Token::CompoundWord(CompoundWord {
            first: Conjugation {
                pos: "v1".to_string(),
                base_form: "食べる".to_string(),
                conjugation_type: "Non-past".to_string(),
                meanings: vec!["  食べる 【たべる】".to_string()],
            },
            second: Conjugation {
                pos: "aux-v".to_string(),
                base_form: "ます".to_string(),
                conjugation_type: "Past (~ta)".to_string(),
                meanings: vec!["  ます 【ます】".to_string()],
            },
        })]
    );
}

#[test]
fn compound_word_cut_short_is_skipped() {
    let mut lines = compound_lines();
    lines.truncate(7);
    let tokens = process_lines(lines);
    // The header is skipped; the conjugation lines are then read on their own.
    assert!(tokens.iter().all(|t| !matches!(t, Token::CompoundWord(_))));
    assert_eq!(tokens.len(), 1);
}

#[test]
fn compound_word_without_conjugations_is_skipped() {
    let tokens = process_lines(vec![
        "* 来た Compound word",
        "a",
        "b",
        "c",
        "d",
        "e",
        "f",
        "g",
        "* 猫 【ねこ】",
    ]);
    assert_eq!(tokens.len(), 1);
    match &tokens[0] {
        Token::Word(w) => assert_eq!(w.surface, "猫"),
        _ => panic!("expected a word"),
    }
}

#[test]
fn push_conjugation_after_word() {
    let mut kept = vec![word("食べる", "v1")];
    push_conjugation(&mut kept, conjugation("食べる", "Conjunctive (~te)"));
    assert_eq!(kept.len(), 2);
    let mut replaced = vec![word("猫", "n"), word("食べる", "v1")];
    push_conjugation(&mut replaced, conjugation("食べる", "Past (~ta)"));
    assert_eq!(
        replaced,
        vec![word("猫", "n"), Token::Conjugation(conjugation("食べる", "Past (~ta)"))]
    );
}

#[test]
fn push_conjugation_after_conjugation_keeps_both() {
    let mut tokens = vec![Token::Conjugation(conjugation("食べる", "Past (~ta)"))];
    push_conjugation(&mut tokens, conjugation("いる", "Non-past"));
    assert_eq!(tokens.len(), 2);
    let mut empty = vec![];
    push_conjugation(&mut empty, conjugation("いる", "Non-past"));
    assert_eq!(empty, vec![Token::Conjugation(conjugation("いる", "Non-past"))]);
}
