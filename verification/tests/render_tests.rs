use wikiscraper::ranking::top_n_entries;
use wikiscraper::render::render_table;
use wikiscraper::words::word_count;

#[test]
fn table_layout_for_one_entry() {
    let stats = word_count("The the THE".to_string());
    let top = top_n_entries(&stats, 1);
    let lines = render_table(&top);
    assert_eq!(lines.len(), 2);
    // entry text "The/the/THE" is 11 graphemes wide, the count "3" one.
    let sep: String = format!("{}\u{252C}{}", "\u{2500}".repeat(13), "\u{2500}".repeat(4));
    assert_eq!(lines[0], sep);
    assert_eq!(lines[1], " The/the/THE \u{2502} 3");
}

#[test]
fn narrow_entries_are_right_aligned() {
    let stats = word_count("bbbb aa aa".to_string());
    let top = top_n_entries(&stats, 2);
    let lines = render_table(&top);
    assert_eq!(lines.len(), 3);
    assert_eq!(lines[1], "   aa \u{2502} 2");
    assert_eq!(lines[2], " bbbb \u{2502} 1");
}

#[test]
fn widths_count_graphemes_not_bytes() {
    // "\u{e9}\u{e9}\u{e9}" is six bytes but only three graphemes wide.
    let stats = word_count("\u{e9}\u{e9}\u{e9} zz zz".to_string());
    let top = top_n_entries(&stats, 2);
    let lines = render_table(&top);
    assert_eq!(lines[1], "  zz \u{2502} 2");
    assert_eq!(lines[2], " \u{e9}\u{e9}\u{e9} \u{2502} 1");
}

#[test]
fn empty_table_has_only_the_rule() {
    let lines = render_table(&Vec::new());
    assert_eq!(lines.len(), 1);
    let sep: String = format!("{}\u{252C}{}", "\u{2500}".repeat(2), "\u{2500}".repeat(3));
    assert_eq!(lines[0], sep);
}
