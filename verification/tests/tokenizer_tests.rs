use wikitext_table_parser::tokenizer::{
    get_all_cell_text_special_tokens, get_all_table_special_tokens, CellTextSpecialTokens,
    TableSpecialTokens, Tokenizer,
};

#[test]
fn tokenize() {
    let raw_string = String::from("\n{|123||\n|}<><nowiki>");
    let expect_result = Vec::from(["\n{|", "1", "2", "3", "||", "\n|}", "<", ">", "<nowiki>"]);
    let tokenizer = Tokenizer::build(get_all_table_special_tokens());
    let out = tokenizer.tokenize(&raw_string);
    assert_eq!(out.join(" / "), expect_result.join(" / "));
}

#[test]
fn tokenize_structural_markers_only() {
    let tokenizer = Tokenizer::build(get_all_table_special_tokens());
    let out = tokenizer.tokenize("\n{|123||\n|}");
    assert_eq!(out, vec!["\n{|", "1", "2", "3", "||", "\n|}"]);
}

#[test]
fn tokenize_is_lossless() {
    let tokenizer = Tokenizer::build(get_all_table_special_tokens());
    let inputs = [
        "",
        "plain text without markers",
        "\n{|\n|-\n|a||b\n|}",
        "<now<nowiki>x</nowiki",
        "\n\n\n!!!|||",
        "style=[[a|b]]{{c}}",
    ];
    for input in inputs {
        let out = tokenizer.tokenize(input);
        assert_eq!(out.concat(), input);
    }
}

#[test]
fn tokenize_commits_partial_marker() {
    // a greedy scan commits the pending partial match as one token when
    // it fails to extend, without backtracking
    let tokenizer = Tokenizer::build(get_all_table_special_tokens());
    assert_eq!(tokenizer.tokenize("<now"), vec!["<now"]);
    assert_eq!(tokenizer.tokenize("<nowhere"), vec!["<now", "h", "e", "r", "e"]);
}

#[test]
fn tokenize_empty_input() {
    let tokenizer = Tokenizer::build(get_all_table_special_tokens());
    assert_eq!(tokenizer.tokenize(""), Vec::<String>::new());
}

#[test]
fn build_ignores_duplicate_vocabulary_entries() {
    let with_dup = Tokenizer::build(vec![
        String::from("ab"),
        String::from("ab"),
        String::from("a"),
    ]);
    let without = Tokenizer::build(vec![String::from("ab"), String::from("a")]);
    assert_eq!(with_dup.tokenize("abaab"), without.tokenize("abaab"));
    assert_eq!(with_dup.tokenize("abaab"), vec!["ab", "a", "ab"]);
}

#[test]
fn table_vocabulary_is_complete_and_ordered() {
    let vocab = get_all_table_special_tokens();
    assert_eq!(
        vocab,
        vec!["\n{|", "\n|+", "\n|-", "\n!", "!!", "\n|", "||", "\n|}", "<nowiki>", "</nowiki>"]
    );
}

#[test]
fn cell_vocabulary_is_complete_and_ordered() {
    let vocab = get_all_cell_text_special_tokens();
    assert_eq!(vocab, vec!["[[", "]]", "{{", "}}", "style", "|"]);
}

#[test]
fn marker_texts() {
    assert_eq!(TableSpecialTokens::TableStart.marker(), "\n{|");
    assert_eq!(TableSpecialTokens::TableEnd.marker(), "\n|}");
    assert_eq!(TableSpecialTokens::NoWikiEnd.marker(), "</nowiki>");
    assert_eq!(CellTextSpecialTokens::Sep.marker(), "|");
    assert_eq!(CellTextSpecialTokens::Style.marker(), "style");
}
