use conllu_layout::{layout_conllu, layout_text, Arc, LayoutError, Root, Sentence};

fn row(id: &str, form: &str, head: &str, deprel: &str, deps: &str) -> String {
    format!("{id}\t{form}\t_\t_\t_\t_\t{head}\t{deprel}\t{deps}\t_\n")
}

fn arc(start: usize, end: usize, dep_id: &str, label: &str, level: usize, left: bool, enhanced: bool) -> Arc {
    Arc {
        start_idx: start,
        end_idx: end,
        dep_id: dep_id.to_string(),
        label: label.to_string(),
        level,
        is_head_left: left,
        is_enhanced: enhanced,
    }
}

fn root(idx: usize, dep_id: &str, label: &str) -> Root {
    Root { idx, dep_id: dep_id.to_string(), label: label.to_string() }
}

fn only(sentences: Vec<Sentence>) -> Sentence {
    assert_eq!(sentences.len(), 1);
    sentences.into_iter().next().unwrap()
}

#[test]
fn two_token_sentence() {
    let input = "1\tDog\tdog\tNOUN\t_\t_\t2\tnsubj\t_\t_\n2\tbarks\tbark\tVERB\t_\t_\t0\troot\t_\t_\n";
    let s = only(layout_conllu(input.as_bytes()).unwrap());
    assert_eq!(s.sent_id, "");
    assert_eq!(s.text, "");
    assert_eq!(s.tokens.len(), 2);
    assert_eq!(s.tokens[0].id, "1");
    assert_eq!(s.tokens[0].form, "Dog");
    assert_eq!(s.tokens[0].lemma, "dog");
    assert_eq!(s.tokens[0].upos, "NOUN");
    assert_eq!(s.tokens[0].xpos, "_");
    assert_eq!(s.tokens[0].feats, "_");
    assert_eq!(s.tokens[0].head, "2");
    assert_eq!(s.tokens[0].deprel, "nsubj");
    assert_eq!(s.tokens[0].deps, "_");
    assert_eq!(s.tokens[0].misc, "_");
    assert!(!s.tokens[0].is_multiword);
    assert!(!s.tokens[0].is_empty_node);
    assert_eq!(s.tokens[1].form, "barks");
    assert_eq!(s.arcs.len(), 1);
    assert_eq!(s.arcs[0].start_idx, 0);
    assert_eq!(s.arcs[0].end_idx, 1);
    assert_eq!(s.arcs[0].dep_id, "1");
    assert_eq!(s.arcs[0].label, "nsubj");
    assert_eq!(s.arcs[0].level, 1);
    assert!(!s.arcs[0].is_enhanced);
    // The governor `barks` stands to the right of its dependent `Dog`.
    assert!(!s.arcs[0].is_head_left);
    assert_eq!(s.roots, vec![root(1, "2", "root")]);
}

#[test]
fn governor_on_the_left_points_rightward() {
    let input = row("1", "Eat", "0", "root", "_") + &row("2", "cake", "1", "obj", "_");
    let s = only(layout_text(&input));
    assert_eq!(s.arcs, vec![arc(0, 1, "2", "obj", 1, true, false)]);
    assert_eq!(s.roots, vec![root(0, "1", "root")]);
}

#[test]
fn metadata_only_block_is_not_a_sentence() {
    assert_eq!(layout_conllu(b"# sent_id = s1\n\n").unwrap(), vec![]);
    assert_eq!(layout_conllu(b"# sent_id = s1\n").unwrap(), vec![]);
    assert_eq!(layout_conllu(b"# sent_id = s1").unwrap(), vec![]);
}

#[test]
fn metadata_before_a_blank_line_stays_with_the_open_block() {
    let input = String::from("# sent_id = s1\n\n") + &row("1", "Go", "0", "root", "_");
    let s = only(layout_text(&input));
    assert_eq!(s.sent_id, "s1");
}

#[test]
fn enhanced_entry_that_restates_the_basic_relation_is_skipped() {
    let input = row("1", "it", "3", "obj", "3:obj|0:root")
        + &row("2", "she", "3", "nsubj", "_")
        + &row("3", "saw", "0", "root", "_");
    let s = only(layout_text(&input));
    assert_eq!(s.roots, vec![root(0, "1", "root"), root(2, "3", "root")]);
    assert_eq!(
        s.arcs,
        vec![arc(1, 2, "2", "nsubj", 1, false, false), arc(0, 2, "1", "obj", 2, false, false)]
    );
    assert_eq!(s.arcs.iter().filter(|a| a.is_enhanced).count(), 0);
}

#[test]
fn identical_spans_get_different_levels() {
    let input = row("1", "a", "4", "x", "4:y")
        + &row("2", "b", "_", "_", "_")
        + &row("3", "c", "_", "_", "_")
        + &row("4", "d", "_", "_", "_");
    let s = only(layout_text(&input));
    assert_eq!(
        s.arcs,
        vec![arc(0, 3, "1", "y", 1, false, true), arc(0, 3, "1", "x", 2, false, false)]
    );
}

#[test]
fn multiword_marker_is_not_rendered_and_cannot_be_a_governor() {
    let input = row("1", "I", "2", "nsubj", "3:x|2-3:y")
        + "2-3\tcannot\t_\t_\t_\t_\t_\t_\t_\t_\n"
        + &row("4", "go", "2-3", "dep", "_");
    let s = only(layout_text(&input));
    assert_eq!(s.tokens.len(), 2);
    assert_eq!(s.tokens[0].id, "1");
    assert_eq!(s.tokens[1].id, "4");
    assert!(s.tokens.iter().all(|t| !t.is_multiword));
    assert_eq!(s.arcs, vec![]);
    assert_eq!(s.roots, vec![]);
}

#[test]
fn multiword_marker_leaves_its_parts_addressable() {
    let input = row("1", "I", "2", "nsubj", "_")
        + "2-3\tcannot\t_\t_\t_\t_\t_\t_\t_\t_\n"
        + &row("2", "can", "0", "root", "_")
        + &row("3", "not", "2", "advmod", "_");
    let s = only(layout_text(&input));
    assert_eq!(s.tokens.len(), 3);
    assert_eq!(
        s.arcs,
        vec![arc(0, 1, "1", "nsubj", 1, false, false), arc(1, 2, "3", "advmod", 1, true, false)]
    );
    assert_eq!(s.roots, vec![root(1, "2", "root")]);
}

#[test]
fn invalid_utf8_is_an_error() {
    assert_eq!(layout_conllu(&[0x31, 0x09, 0xff, 0x0a]), Err(LayoutError::InvalidUtf8));
    assert_eq!(layout_conllu(&[0xc3]), Err(LayoutError::InvalidUtf8));
    assert_eq!(layout_conllu(&[0xed, 0xa0, 0x80]), Err(LayoutError::InvalidUtf8));
    assert_eq!(layout_conllu(&[0xc0, 0x80]), Err(LayoutError::InvalidUtf8));
}

#[test]
fn bytes_are_decoded_as_utf8() {
    let input = row("1", "Zürich", "0", "root", "_") + &row("2", "東京", "1", "conj", "_");
    let s = only(layout_conllu(input.as_bytes()).unwrap());
    assert_eq!(s.tokens[0].form, "Zürich");
    assert_eq!(s.tokens[1].form, "東京");
    assert_eq!(s.tokens[1].form.chars().count(), 2);
}

#[test]
fn empty_input_has_no_sentences() {
    assert_eq!(layout_conllu(b"").unwrap(), vec![]);
    assert_eq!(layout_text("\n\n\n"), vec![]);
}

#[test]
fn same_input_gives_same_sentences() {
    let input = String::from("# sent_id = a\n")
        + &row("1", "x", "2", "l", "3:m|0:root")
        + &row("2", "y", "0", "root", "_")
        + &row("3", "z", "1", "n", "1:n|2:o")
        + "\n# sent_id = b\n"
        + &row("1", "w", "0", "root", "_");
    let first = layout_conllu(input.as_bytes()).unwrap();
    let second = layout_conllu(input.as_bytes()).unwrap();
    assert_eq!(first.len(), 2);
    assert_eq!(first, second);
    assert_eq!(layout_text(&input), first);
}

#[test]
fn blocks_do_not_share_state() {
    let block_a = String::from("# sent_id = a\n# text = A\n") + &row("1", "x", "0", "root", "_");
    let block_b = row("1", "y", "2", "l", "_") + &row("2", "z", "0", "root", "_");
    let both = layout_text(&(block_a.clone() + "\n" + &block_b));
    assert_eq!(both.len(), 2);
    assert_eq!(vec![only(layout_text(&block_a)), only(layout_text(&block_b))], both);
    assert_eq!(both[1].sent_id, "");
    assert_eq!(both[1].text, "");
}
