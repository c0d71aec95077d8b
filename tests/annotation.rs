use ichiran_grammar::ichiran::{
    add_furigana, annotate_reading, ichiran_output_to_bracket_furigana, ichiran_output_to_kanji_hirigana_array,
    process_kanji_hirigana_into_kanji_with_furigana, remove_compound_words,
};

#[test]
fn text_without_brackets_is_unchanged() {
    assert_eq!(add_furigana("は"), "は");
    assert_eq!(add_furigana("食べる"), "食べる");
    assert_eq!(add_furigana("only [open"), "only [open");
    assert_eq!(add_furigana(""), "");
}

#[test]
fn reading_equal_to_surface_gives_empty_brackets() {
    assert_eq!(add_furigana("みた [みた]"), " みた[]");
    assert_eq!(add_furigana("[]"), " []");
}

#[test]
fn shared_suffix_stays_outside_the_brackets() {
    // 見 and み differ, but both end in た, so the shared end is moved out.
    assert_eq!(add_furigana("見た [みた]"), " 見[み]た");
    assert_eq!(add_furigana("食べる [たべる]"), " 食[た]べる");
}

#[test]
fn nothing_shared_keeps_the_whole_reading() {
    assert_eq!(add_furigana("猫 [ねこ]"), " 猫[ねこ]");
    assert_eq!(add_furigana("  猫   [ ねこ ]  "), " 猫[ねこ]");
}

#[test]
fn shared_prefix_is_dropped_from_the_reading() {
    assert_eq!(add_furigana("お茶 [おちゃ]"), " お茶[ちゃ]");
}

#[test]
fn japanese_comma_becomes_trailing_comma() {
    assert_eq!(add_furigana("猫 [ねこ、]"), " 猫[ねこ],");
}

#[test]
fn reannotating_a_full_reading_is_a_no_op() {
    let once = add_furigana("猫 [ねこ]");
    assert_eq!(add_furigana(&once), once);
    let once = add_furigana("見る [みる]");
    assert_eq!(once, " 見[み]る");
}

#[test]
fn compound_word_notes_are_removed() {
    let lines = vec!["* kita 来た 【きた】   Compound word: 来る + た", "* wa は"];
    assert_eq!(
        remove_compound_words(lines),
        vec!["* kita 来た 【きた】", "* wa は"]
    );
}

#[test]
fn entries_become_surface_reading_texts() {
    let lines = vec![
        "* neko 猫 【ねこ】",
        "1. [n] cat",
        "",
        "* watashi wa 私は 【わたし は】",
        "* wa は",
    ];
    assert_eq!(
        ichiran_output_to_kanji_hirigana_array(lines),
        vec!["猫 [ねこ]", "私は [わたしは]", "は"]
    );
}

#[test]
fn annotations_of_a_list() {
    let list = vec!["猫 [ねこ]".to_string(), "は".to_string()];
    assert_eq!(
        process_kanji_hirigana_into_kanji_with_furigana(list),
        vec![" 猫[ねこ]", "は"]
    );
}

#[test]
fn analyzer_output_to_annotations() {
    let lines = vec![
        "* neko 猫 【ねこ】",
        "1. [n] cat",
        "* watashi wa 私は 【わたし は】",
        "* wa は",
        "* kita 来た 【きた】 Compound word: 来る + た",
    ];
    assert_eq!(
        ichiran_output_to_bracket_furigana(lines),
        vec![" 猫[ねこ]", " 私[わたし]は", "は", " 来[き]た"]
    );
}

#[test]
fn entry_opening_with_reading_keeps_that_piece() {
    assert_eq!(
        ichiran_output_to_kanji_hirigana_array(vec!["*【ねこ】"]),
        vec!["*[ねこ]"]
    );
}

#[test]
fn combining_mark_makes_one_cluster() {
    // が written as か followed by a combining voiced sound mark.
    assert_eq!(add_furigana("か\u{3099} [か]"), " か\u{3099}[か]");
}

#[test]
fn shared_prefix_counts_whole_clusters() {
    assert_eq!(add_furigana("かか\u{3099} [かか]"), " かか\u{3099}[か]");
}

#[test]
fn shared_suffix_counts_whole_clusters() {
    assert_eq!(add_furigana("か\u{3099}た [かた]"), " か\u{3099}[か]た");
}

fn clusters(items: &[&str]) -> Vec<String> {
    items.iter().map(|s| s.to_string()).collect()
}

#[test]
fn annotation_from_given_clusters() {
    assert_eq!(
        annotate_reading("食べる", "たべる", &clusters(&["食", "べ", "る"]), &clusters(&["た", "べ", "る"])),
        " 食[た]べる"
    );
    assert_eq!(
        annotate_reading("お茶", "おちゃ", &clusters(&["お", "茶"]), &clusters(&["お", "ち", "ゃ"])),
        " お茶[ちゃ]"
    );
    assert_eq!(
        annotate_reading("猫", "ねこ", &clusters(&["猫"]), &clusters(&["ね", "こ"])),
        " 猫[ねこ]"
    );
}
