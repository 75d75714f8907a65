use wikitext_table_parser::parser::{Event, WikitextTableParser};
use wikitext_table_parser::tokenizer::{
    get_all_cell_text_special_tokens, get_all_table_special_tokens, Tokenizer,
};

fn make_parser(text: &str) -> WikitextTableParser {
    WikitextTableParser::new(
        Tokenizer::build(get_all_table_special_tokens()),
        Tokenizer::build(get_all_cell_text_special_tokens()),
        text,
        true,
    )
}

fn drain(mut parser: WikitextTableParser) -> Vec<Event> {
    let mut events = Vec::new();
    while let Some(event) = parser.next_event() {
        events.push(event);
    }
    events
}

fn debug_strings(events: &[Event]) -> Vec<String> {
    events.iter().map(|e| format!("{:?}", e)).collect()
}

#[test]
fn parse_two_rows_of_single_cells() {
    // the text before the first row marker belongs to the table segment;
    // each `\n|` after a row marker opens or closes a cell
    let events = drain(make_parser("{|\n|-\n|Cell A\n|-\n|Cell B\n|}"));
    assert_eq!(
        debug_strings(&events),
        vec![
            "TableStart",
            "TableStyle(\"\")",
            "RowStart",
            "RowStyle(\"\")",
            "ColStart(DataCell)",
            "ColStyle(\"\")",
            "ColEnd(\"Cell A\")",
            "RowEnd",
            "RowStart",
            "RowStyle(\"\")",
            "ColStart(DataCell)",
            "ColStyle(\"\")",
            "ColEnd(\"Cell B\")",
            "RowEnd",
            "TableEnd",
        ]
    );
}

#[test]
fn parse_text_before_first_row_marker_is_table_style() {
    // the table segment runs until the first `|+` or `|-` marker: a bare
    // `|Header` line before any row marker contributes its text to the
    // table segment (its `\n|` marker has no transition in that state),
    // so "Header" is emitted as the table style, not as a cell
    let events = drain(make_parser("\n{|\n|Header\n|-\n|Cell A\n|Cell B\n|}"));
    assert_eq!(
        debug_strings(&events),
        vec![
            "TableStart",
            "TableStyle(\"Header\")",
            "RowStart",
            "RowStyle(\"\")",
            "ColStart(DataCell)",
            "ColStyle(\"\")",
            "ColEnd(\"Cell A\")",
            "ColStyle(\"\")",
            "ColEnd(\"Cell B\")",
            "RowEnd",
            "TableEnd",
        ]
    );
}

#[test]
fn parse_inline_separator_continues_the_row() {
    // `||` closes one cell and starts the next within the same row,
    // without an intervening RowStart
    let events = drain(make_parser("{|\n|-\n|cell1||cell2\n|}"));
    assert_eq!(
        debug_strings(&events),
        vec![
            "TableStart",
            "TableStyle(\"\")",
            "RowStart",
            "RowStyle(\"\")",
            "ColStart(DataCell)",
            "ColStyle(\"\")",
            "ColEnd(\"cell1\")",
            "ColStyle(\"\")",
            "ColEnd(\"cell2\")",
            "RowEnd",
            "TableEnd",
        ]
    );
}

#[test]
fn parse_caption_then_header_synthesizes_a_row() {
    // a header cell may follow the caption with no `|-` marker: a
    // RowStart and an empty RowStyle are synthesized before the cell
    let events = drain(make_parser("{|\n|+Caption\n!H1!!H2\n|}"));
    assert_eq!(
        debug_strings(&events),
        vec![
            "TableStart",
            "TableStyle(\"\")",
            "TableCaptionStart",
            "TableCaption(\"Caption\")",
            "RowStart",
            "RowStyle(\"\")",
            "ColStart(HeaderCell)",
            "ColStyle(\"\")",
            "ColEnd(\"H1\")",
            "ColStyle(\"\")",
            "ColEnd(\"H2\")",
            "RowEnd",
            "TableEnd",
        ]
    );
}

#[test]
fn parse_header_row_then_data_rows() {
    let events = drain(make_parser(
        "{|\n|-\n!Name!!Age\n|-\n|Ann||39\n|-\n|Bo||7\n|}",
    ));
    assert_eq!(
        debug_strings(&events),
        vec![
            "TableStart",
            "TableStyle(\"\")",
            "RowStart",
            "RowStyle(\"\")",
            "ColStart(HeaderCell)",
            "ColStyle(\"\")",
            "ColEnd(\"Name\")",
            "ColStyle(\"\")",
            "ColEnd(\"Age\")",
            "RowEnd",
            "RowStart",
            "RowStyle(\"\")",
            "ColStart(DataCell)",
            "ColStyle(\"\")",
            "ColEnd(\"Ann\")",
            "ColStyle(\"\")",
            "ColEnd(\"39\")",
            "RowEnd",
            "RowStart",
            "RowStyle(\"\")",
            "ColStart(DataCell)",
            "ColStyle(\"\")",
            "ColEnd(\"Bo\")",
            "ColStyle(\"\")",
            "ColEnd(\"7\")",
            "RowEnd",
            "TableEnd",
        ]
    );
}

#[test]
fn parse_marker_pairing_counts() {
    // one TableStart paired with one TableEnd, RowStart count equal to
    // RowEnd count
    let events = drain(make_parser(
        "before\n{|\n|-\n|a||b\n|-\n!c\n|-\n|d\n|}\nafter",
    ));
    let starts = events.iter().filter(|e| matches!(e, Event::TableStart)).count();
    let ends = events.iter().filter(|e| matches!(e, Event::TableEnd)).count();
    let row_starts = events.iter().filter(|e| matches!(e, Event::RowStart)).count();
    let row_ends = events.iter().filter(|e| matches!(e, Event::RowEnd)).count();
    assert_eq!(starts, 1);
    assert_eq!(ends, 1);
    assert_eq!(row_starts, row_ends);
    assert_eq!(row_starts, 3);
}

#[test]
fn parse_regular_table_has_equal_cells_per_row() {
    // every data row carries the same number of cell markers, so every
    // row produces the same number of ColEnd events
    let events = drain(make_parser("{|\n|-\n|a||b||c\n|-\n|d||e||f\n|}"));
    let mut cells_per_row: Vec<usize> = Vec::new();
    let mut current: usize = 0;
    let mut in_row = false;
    for event in &events {
        match event {
            Event::RowStart => {
                in_row = true;
                current = 0;
            }
            Event::RowEnd => {
                assert!(in_row);
                in_row = false;
                cells_per_row.push(current);
            }
            Event::ColEnd(_) => {
                current += 1;
            }
            _ => {}
        }
    }
    assert_eq!(cells_per_row, vec![3, 3]);
}

#[test]
fn parse_table_and_row_styles() {
    let events = drain(make_parser(
        "{| class=\"wikitable\"\n|- align=\"center\"\n|a\n|}",
    ));
    let strings = debug_strings(&events);
    assert!(strings.contains(&String::from("TableStyle(\"class=\\\"wikitable\\\"\")")));
    assert!(strings.contains(&String::from("RowStyle(\"align=\\\"center\\\"\")")));
}

#[test]
fn parse_no_table_start_yields_no_events() {
    let mut parser = make_parser("no table markup at all");
    assert!(parser.next_event().is_none());
    assert!(parser.next_event().is_none());
}

#[test]
fn parse_missing_table_end_drops_the_open_cell() {
    // without `\n|}` the final cell never closes: no ColEnd, no RowEnd,
    // no TableEnd is emitted
    let events = drain(make_parser("{|\n|-\n|dangling"));
    assert_eq!(
        debug_strings(&events),
        vec![
            "TableStart",
            "TableStyle(\"\")",
            "RowStart",
            "RowStyle(\"\")",
            "ColStart(DataCell)",
        ]
    );
}

#[test]
fn parse_text_outside_the_table_is_ignored() {
    let with_noise = drain(make_parser("x|y{{z\n{|\n|-\n|a\n|}\ntrailing|junk"));
    let bare = drain(make_parser("{|\n|-\n|a\n|}"));
    assert_eq!(debug_strings(&with_noise), debug_strings(&bare));
}

#[test]
fn parse_cell_style_before_separator() {
    // the text before the first free `|` of a cell is its style
    let events = drain(make_parser("{|\n|-\n|style=\"a\"|text\n|}"));
    assert_eq!(
        debug_strings(&events),
        vec![
            "TableStart",
            "TableStyle(\"\")",
            "RowStart",
            "RowStyle(\"\")",
            "ColStart(DataCell)",
            "ColStyle(\"style=\\\"a\\\"\")",
            "ColEnd(\"text\")",
            "RowEnd",
            "TableEnd",
        ]
    );
}

#[test]
fn parse_nowiki_markers_are_stripped_from_text() {
    let events = drain(make_parser("{|\n|-\n|a<nowiki>b</nowiki>c\n|}"));
    assert!(debug_strings(&events).contains(&String::from("ColEnd(\"abc\")")));
}

#[test]
fn split_keeps_separator_inside_link() {
    // a `|` inside `[[...]]` does not separate style from content
    let parser = make_parser("");
    let parts = parser.split_cell_style_and_text(String::from("[[a|b]] more"));
    assert_eq!(parts, vec!["", "[[a|b]] more"]);
}

#[test]
fn split_keeps_separator_inside_template() {
    let parser = make_parser("");
    let parts = parser.split_cell_style_and_text(String::from("{{a|b}}x|y"));
    assert_eq!(parts, vec!["{{a|b}}x", "y"]);
}

#[test]
fn split_round_trip_recovers_style_and_content() {
    // split(style + "|" + content) == (trim(style), trim(content)) when
    // the style holds no free separator and no unbalanced brackets
    let parser = make_parser("");
    let cases = [
        ("style=\"width: 40%\"", "content text"),
        (" padded ", " also padded "),
        ("[[x|y]] styled", "z"),
        ("", "only content"),
    ];
    for (style, content) in cases {
        let joined = format!("{}|{}", style, content);
        let parts = parser.split_cell_style_and_text(joined);
        assert_eq!(parts[0], style.trim());
        assert_eq!(parts[1], content.trim());
    }
}

#[test]
fn split_without_separator_is_all_content() {
    let parser = make_parser("");
    let parts = parser.split_cell_style_and_text(String::from("  plain cell  "));
    assert_eq!(parts, vec!["", "plain cell"]);
}

#[test]
fn split_unbalanced_bracket_never_separates() {
    // an unclosed `[[` keeps the closure depth positive: every later `|`
    // is non-separating and the whole text becomes content
    let parser = make_parser("");
    let parts = parser.split_cell_style_and_text(String::from("[[a|b more"));
    assert_eq!(parts, vec!["", "[[a|b more"]);
}

#[test]
fn parse_inline_header_separator_closes_header_cells() {
    // `!!` between header cells behaves like `||` between data cells:
    // it closes the open cell and continues the row
    let events = drain(make_parser("{|\n|-\n!a!!b\n|}"));
    let cols: Vec<String> = debug_strings(&events)
        .into_iter()
        .filter(|s| s.starts_with("ColEnd"))
        .collect();
    assert_eq!(cols, vec!["ColEnd(\"a\")", "ColEnd(\"b\")"]);
}
