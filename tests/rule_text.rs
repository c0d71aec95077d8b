use ichiran_grammar::rule_text::{parse_rule_set, RuleFormatError};
use ichiran_grammar::sentence_processing::{
    load_rules, PosRule, PosWordPosRule, PosWordRule, RuleSet, WordRule,
};

fn tags(items: &[&str]) -> Vec<String> {
    items.iter().map(|s| s.to_string()).collect()
}

fn one_of_each() -> RuleSet {
    RuleSet {
        pos_word_rules: vec![PosWordRule { pos_set: tags(&["n", "pn"]), surface: "です".to_string() }],
        pos_rules: vec![PosRule { pos_set: tags(&["v1"]) }],
        word_rules: vec![WordRule { surface: "は".to_string() }],
        pos_word_pos_rules: vec![PosWordPosRule {
            pos_set_left: tags(&["n", "pn"]),
            surface: "の".to_string(),
            pos_set_right: tags(&["n"]),
        }],
    }
}

#[test]
fn rule_set_text_lists_kinds_in_order() {
    assert_eq!(
        one_of_each().to_text(),
        "word は\npos-word n,pn です\npos v1\npos-word-pos n,pn の n"
    );
}

#[test]
fn rule_set_text_reads_back() {
    let text = one_of_each().to_text();
    assert_eq!(parse_rule_set(&text), Ok(one_of_each()));
}

#[test]
fn built_in_table_reads_back_from_text() {
    let rules = load_rules();
    assert_eq!(parse_rule_set(&rules.to_text()), Ok(rules));
}

#[test]
fn rule_text_in_any_order_with_blank_lines() {
    let text = "pos v1\n\nword は\npos-word-pos n,pn の n\npos-word n,pn です\n";
    assert_eq!(parse_rule_set(text), Ok(one_of_each()));
}

#[test]
fn empty_rule_text_gives_empty_set() {
    let empty = RuleSet {
        pos_word_rules: vec![],
        pos_rules: vec![],
        word_rules: vec![],
        pos_word_pos_rules: vec![],
    };
    assert_eq!(parse_rule_set(""), Ok(empty.clone()));
    assert_eq!(empty.to_text(), "");
}

#[test]
fn first_bad_line_is_reported() {
    assert_eq!(
        parse_rule_set("word は\nwords は\nnothing"),
        Err(RuleFormatError { line: 1 })
    );
    assert_eq!(parse_rule_set("pos"), Err(RuleFormatError { line: 0 }));
    assert_eq!(parse_rule_set("word は が"), Err(RuleFormatError { line: 0 }));
}
