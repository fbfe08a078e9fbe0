use conllu_layout::text::chars_of;
use conllu_layout::{layout_text, Scanner, Sentence};

fn only(sentences: Vec<Sentence>) -> Sentence {
    assert_eq!(sentences.len(), 1);
    sentences.into_iter().next().unwrap()
}

#[test]
fn final_block_needs_no_blank_line() {
    let s = only(layout_text("1\ta\t_\t_\t_\t_\t0\troot\t_\t_"));
    assert_eq!(s.tokens.len(), 1);
    assert_eq!(s.tokens[0].misc, "_");
}

#[test]
fn repeated_blank_lines_separate_once() {
    let text = "\n\n1\ta\t_\t_\t_\t_\t0\troot\t_\t_\n\n\n\n1\tb\t_\t_\t_\t_\t0\troot\t_\t_\n\n\n";
    let sentences = layout_text(text);
    assert_eq!(sentences.len(), 2);
    assert_eq!(sentences[0].tokens[0].form, "a");
    assert_eq!(sentences[1].tokens[0].form, "b");
}

#[test]
fn line_of_whitespace_is_a_blank_line() {
    let text = "1\ta\t_\t_\t_\t_\t0\troot\t_\t_\n \t \n1\tb\t_\t_\t_\t_\t0\troot\t_\t_\n";
    assert_eq!(layout_text(text).len(), 2);
    let wide = "1\ta\t_\t_\t_\t_\t0\troot\t_\t_\n\u{3000}\u{a0}\u{2003}\n1\tb\t_\t_\t_\t_\t0\troot\t_\t_\n";
    assert_eq!(layout_text(wide).len(), 2);
}

#[test]
fn carriage_returns_are_stripped() {
    let text = "# sent_id = s\r\n1\ta\t_\t_\t_\t_\t0\troot\t_\tm\r\n\r\n1\tb\t_\t_\t_\t_\t0\troot\t_\tn\r\n";
    let sentences = layout_text(text);
    assert_eq!(sentences.len(), 2);
    assert_eq!(sentences[0].sent_id, "s");
    assert_eq!(sentences[0].tokens[0].misc, "m");
    assert_eq!(sentences[1].tokens[0].misc, "n");
}

#[test]
fn short_rows_are_dropped() {
    let text = "1\ta\t_\t_\t_\t_\t0\troot\t_\n2\tb\t_\t_\t_\t_\t0\troot\t_\t_\nnot a row\n";
    let s = only(layout_text(text));
    assert_eq!(s.tokens.len(), 1);
    assert_eq!(s.tokens[0].id, "2");
    assert_eq!(layout_text("1\ta\t_\t_\t_\t_\t0\troot\t_\n"), vec![]);
}

#[test]
fn trailing_tabs_do_not_count_as_fields() {
    assert_eq!(layout_text("1\ta\t_\t_\t_\t_\t0\troot\t_\t\n"), vec![]);
    let s = only(layout_text("1\ta\t\t\t\t\t0\troot\t\tx\t\t\n"));
    assert_eq!(s.tokens[0].lemma, "");
    assert_eq!(s.tokens[0].deps, "");
    assert_eq!(s.tokens[0].misc, "x");
}

#[test]
fn fields_after_the_tenth_are_ignored() {
    let s = only(layout_text("1\ta\tb\tc\td\te\t0\troot\t_\tj\tk\tl\n"));
    assert_eq!(s.tokens[0].misc, "j");
    assert_eq!(s.tokens[0].feats, "e");
}

#[test]
fn inner_whitespace_of_fields_is_kept() {
    let s = only(layout_text("  1\tNew York \t_\t_\t_\t_\t0\troot\t_\t_  \n"));
    assert_eq!(s.tokens[0].id, "  1");
    assert_eq!(s.tokens[0].form, "New York ");
    assert_eq!(s.tokens[0].misc, "_");
}

#[test]
fn flags_follow_the_id() {
    let text = "1\ta\t_\t_\t_\t_\t0\troot\t_\t_\n1.1\tb\t_\t_\t_\t_\t_\t_\t_\t_\n2-3\tc\t_\t_\t_\t_\t_\t_\t_\t_\n";
    let s = only(layout_text(text));
    assert_eq!(s.tokens.len(), 2);
    assert!(!s.tokens[0].is_empty_node);
    assert_eq!(s.tokens[1].id, "1.1");
    assert!(s.tokens[1].is_empty_node);
    assert!(!s.tokens[1].is_multiword);
}

#[test]
fn block_of_multiword_markers_is_a_sentence_without_tokens() {
    let s = only(layout_text("# sent_id = m\n1-2\tc\t_\t_\t_\t_\t_\t_\t_\t_\n"));
    assert_eq!(s.sent_id, "m");
    assert_eq!(s.tokens, vec![]);
    assert_eq!(s.arcs, vec![]);
    assert_eq!(s.roots, vec![]);
}

#[test]
fn metadata_is_split_at_the_first_equals_sign() {
    let text = "#text=a = b=c\n#   sent_id   =   s 1  \n1\ta\t_\t_\t_\t_\t0\troot\t_\t_\n";
    let s = only(layout_text(text));
    assert_eq!(s.text, "a = b=c");
    assert_eq!(s.sent_id, "s 1");
}

#[test]
fn comments_without_equals_sign_are_ignored() {
    let text = "# just a note\n#\n# sent_id\n1\ta\t_\t_\t_\t_\t0\troot\t_\t_\n";
    let s = only(layout_text(text));
    assert_eq!(s.sent_id, "");
    assert_eq!(s.text, "");
}

#[test]
fn later_metadata_overwrites_earlier() {
    let text = "# sent_id = one\n# sent_id = two\n# other = x\n1\ta\t_\t_\t_\t_\t0\troot\t_\t_\n";
    assert_eq!(only(layout_text(text)).sent_id, "two");
}

#[test]
fn metadata_keys_are_exact() {
    let text = "# Sent_id = one\n# sent_id2 = two\n# = three\n1\ta\t_\t_\t_\t_\t0\troot\t_\t_\n";
    assert_eq!(only(layout_text(text)).sent_id, "");
}

#[test]
fn metadata_is_cleared_after_a_sentence() {
    let text = "# sent_id = one\n# text = T\n1\ta\t_\t_\t_\t_\t0\troot\t_\t_\n\n1\tb\t_\t_\t_\t_\t0\troot\t_\t_\n";
    let sentences = layout_text(text);
    assert_eq!(sentences[0].sent_id, "one");
    assert_eq!(sentences[0].text, "T");
    assert_eq!(sentences[1].sent_id, "");
    assert_eq!(sentences[1].text, "");
}

#[test]
fn metadata_may_follow_the_rows() {
    let text = "1\ta\t_\t_\t_\t_\t0\troot\t_\t_\n# sent_id = late\n";
    assert_eq!(only(layout_text(text)).sent_id, "late");
}

#[test]
fn hash_after_leading_space_is_not_a_comment() {
    let text = " # sent_id = s\n1\ta\t_\t_\t_\t_\t0\troot\t_\t_\n";
    assert_eq!(only(layout_text(text)).sent_id, "");
}

#[test]
fn row_starting_with_hash_is_a_comment() {
    let text = "#\ta\t_\t_\t_\t_\t0\troot\t_\t_\n1\ta\t_\t_\t_\t_\t0\troot\t_\t_\n";
    assert_eq!(only(layout_text(text)).tokens.len(), 1);
}

#[test]
fn scanner_takes_lines_one_by_one() {
    let mut scanner = Scanner::new();
    for line in ["# sent_id = s", "1\ta\t_\t_\t_\t_\t0\troot\t_\t_", "", "", "1\tb\t_\t_\t_\t_\t0\troot\t_\t_"] {
        scanner.feed_line(&chars_of(line));
    }
    let sentences = scanner.finish();
    assert_eq!(sentences.len(), 2);
    assert_eq!(sentences[0].sent_id, "s");
    assert_eq!(sentences[1].tokens[0].form, "b");
    assert_eq!(Scanner::new().finish(), vec![]);
}

#[test]
fn scanner_block_can_be_ended_by_hand() {
    let mut scanner = Scanner::new();
    scanner.end_block();
    scanner.feed_line(&chars_of("1\ta\t_\t_\t_\t_\t0\troot\t_\t_"));
    scanner.end_block();
    scanner.end_block();
    assert_eq!(scanner.finish().len(), 1);
}
