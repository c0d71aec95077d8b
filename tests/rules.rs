use ichiran_grammar::ichiran_extraction::{CompoundWord, Conjugation, Token, Word};
use ichiran_grammar::sentence_processing::{
    load_rules, match_pos_rules, match_pos_word_pos_rules, match_pos_word_rules, match_rules,
    match_word_rules, pos_meets, PosRule, PosWordPosRule, PosWordRule, Rule, RuleSet, WordRule,
};

fn word(surface: &str, pos: &str) -> Token {
    Token::Word(Word {
        surface: surface.to_string(),
        reading: None,
        pos: pos.to_string(),
        meanings: vec![],
    })
}

fn conjugation(base_form: &str, pos: &str) -> Conjugation {
    Conjugation {
        pos: pos.to_string(),
        base_form: base_form.to_string(),
        conjugation_type: "Past (~ta)".to_string(),
        meanings: vec![],
    }
}

fn tags(items: &[&str]) -> Vec<String> {
    items.iter().map(|s| s.to_string()).collect()
}

#[test]
fn built_in_table() {
    let rules = load_rules();
    assert_eq!(rules.word_rules.len(), 23);
    assert_eq!(rules.word_rules[0].surface, "は");
    assert_eq!(rules.word_rules[22].surface, "だろ");
    assert_eq!(rules.pos_word_rules.len(), 4);
    assert_eq!(rules.pos_word_rules[0].pos_set, tags(&["n", "pn", "adj-i", "adj-na"]));
    assert_eq!(rules.pos_word_rules[3].surface, "な");
    assert_eq!(rules.pos_rules.len(), 4);
    assert_eq!(rules.pos_rules[3].pos_set, tags(&["adj-i"]));
    assert_eq!(rules.pos_word_pos_rules.len(), 1);
    assert_eq!(rules.pos_word_pos_rules[0].surface, "の");
}

#[test]
fn na_adjective_followed_by_na() {
    let tokens = vec![word("静か", "adj-na"), word("な", "prt")];
    let rule = PosWordRule { pos_set: tags(&["adj-na"]), surface: "な".to_string() };
    assert_eq!(match_pos_word_rules(&tokens, &vec![rule.clone()]), vec![rule.clone()]);
    let matched = match_rules(tokens, load_rules());
    assert_eq!(matched.pos_word_rules, vec![rule]);
}

#[test]
fn pos_word_rule_reads_conjugation_base_form() {
    let tokens = vec![word("学生", "n"), Token::Conjugation(conjugation("だ", "cop"))];
    let rules = load_rules();
    let matched = match_pos_word_rules(&tokens, &rules.pos_word_rules);
    assert_eq!(matched, vec![rules.pos_word_rules[1].clone()]);
}

#[test]
fn pos_rule_matches_word_and_conjugation() {
    let rule = PosRule { pos_set: tags(&["v1"]) };
    let tokens = vec![word("食べる", "v1"), Token::Conjugation(conjugation("食べる", "v1"))];
    assert_eq!(
        match_pos_rules(&tokens, &vec![rule.clone()]),
        vec![rule.clone(), rule]
    );
}

#[test]
fn pos_rule_meets_one_of_several_tags() {
    assert!(pos_meets(&"n,vs".to_string(), &tags(&["vs"])));
    assert!(!pos_meets(&"n,vs".to_string(), &tags(&["v"])));
    assert!(!pos_meets(&"n".to_string(), &tags(&[])));
}

#[test]
fn word_rules_keep_repeats() {
    let tokens = vec![word("は", "prt"), word("猫", "n"), word("は", "prt")];
    let rule = WordRule { surface: "は".to_string() };
    assert_eq!(
        match_word_rules(&tokens, &vec![rule.clone()]),
        vec![rule.clone(), rule]
    );
}

#[test]
fn word_rules_skip_conjugations() {
    let tokens = vec![Token::Conjugation(conjugation("は", "prt"))];
    let rule = WordRule { surface: "は".to_string() };
    assert_eq!(match_word_rules(&tokens, &vec![rule]), vec![]);
}

#[test]
fn noun_no_noun() {
    let tokens = vec![word("猫", "n"), word("の", "prt"), word("本", "n")];
    let rules = load_rules();
    let matched = match_pos_word_pos_rules(&tokens, &rules.pos_word_pos_rules);
    assert_eq!(matched, rules.pos_word_pos_rules);
    let short = vec![word("猫", "n"), word("の", "prt")];
    assert_eq!(match_pos_word_pos_rules(&short, &rules.pos_word_pos_rules), vec![]);
}

#[test]
fn compound_word_meets_no_rule() {
    let compound = Token::CompoundWord(CompoundWord {
        first: conjugation("静か", "adj-na"),
        second: conjugation("な", "adj-na"),
    });
    let tokens = vec![compound, word("な", "prt")];
    let rules = load_rules();
    let matched = match_rules(tokens, rules);
    assert_eq!(matched.pos_word_rules, vec![]);
    assert_eq!(matched.pos_rules, vec![]);
}

#[test]
fn rules_by_kind_in_order() {
    let tokens = vec![word("猫", "n"), word("は", "prt"), word("食べる", "v1")];
    let matched = match_rules(tokens, load_rules());
    assert_eq!(matched.word_rules, vec![WordRule { surface: "は".to_string() }]);
    assert_eq!(matched.pos_rules, vec![PosRule { pos_set: tags(&["v1"]) }]);
    assert_eq!(matched.pos_word_rules, vec![]);
    assert_eq!(matched.pos_word_pos_rules, vec![]);
}

#[test]
fn rule_list_kind_by_kind() {
    let set = RuleSet {
        pos_word_rules: vec![PosWordRule { pos_set: tags(&["n"]), surface: "も".to_string() }],
        pos_rules: vec![PosRule { pos_set: tags(&["v1"]) }],
        word_rules: vec![WordRule { surface: "は".to_string() }],
        pos_word_pos_rules: vec![PosWordPosRule {
            pos_set_left: tags(&["n"]),
            surface: "の".to_string(),
            pos_set_right: tags(&["n"]),
        }],
    };
    let list = set.to_rules();
    assert_eq!(
        list,
        vec![
            Rule::Word(set.word_rules[0].clone()),
            Rule::PosWord(set.pos_word_rules[0].clone()),
            Rule::Pos(set.pos_rules[0].clone()),
            Rule::PosWordPos(set.pos_word_pos_rules[0].clone()),
        ]
    );
}
