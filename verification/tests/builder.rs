use conllu_layout::builder::{extract_relations, parse_enhanced_deps, render_tokens, EnhancedDep};
use conllu_layout::{build_sentence, layout_text, Arc, ArcCandidate, Metadata, Root, Sentence, Token};

fn token(id: &str, head: &str, deprel: &str, deps: &str) -> Token {
    Token::new(id, "w", "_", "_", "_", "_", head, deprel, deps, "_")
}

fn dep(head: &str, rel: &str) -> EnhancedDep {
    EnhancedDep { head: head.to_string(), rel: rel.to_string() }
}

fn cand(head_idx: usize, dep_idx: usize, dep_id: &str, label: &str, is_enhanced: bool) -> ArcCandidate {
    ArcCandidate { head_idx, dep_idx, dep_id: dep_id.to_string(), label: label.to_string(), is_enhanced }
}

fn root(idx: usize, dep_id: &str, label: &str) -> Root {
    Root { idx, dep_id: dep_id.to_string(), label: label.to_string() }
}

fn check_invariants(s: &Sentence) {
    for t in &s.tokens {
        assert!(!t.is_multiword);
        assert_eq!(t.is_empty_node, t.id.contains('.'));
    }
    for r in &s.roots {
        let t = &s.tokens[r.idx];
        assert_eq!(t.id, r.dep_id);
        let basic = t.head == "0" && t.deprel == r.label;
        let enhanced = parse_enhanced_deps(&t.deps).iter().any(|d| d.head == "0" && d.rel == r.label);
        assert!(basic || enhanced);
    }
    for (j, a) in s.arcs.iter().enumerate() {
        assert!(a.start_idx <= a.end_idx);
        assert!(a.end_idx < s.tokens.len());
        assert!(a.level >= 1);
        let mut top = 0;
        for b in &s.arcs[..j] {
            assert!(b.end_idx - b.start_idx <= a.end_idx - a.start_idx);
            let overlap = a.start_idx.max(b.start_idx) < a.end_idx.min(b.end_idx);
            let same = a.start_idx == b.start_idx && a.end_idx == b.end_idx;
            if overlap || same {
                assert_ne!(a.level, b.level);
                top = top.max(b.level);
            }
        }
        assert_eq!(a.level, top + 1);
    }
}

#[test]
fn token_new_sets_fields_and_flags() {
    let t = Token::new("3.1", "f", "l", "u", "x", "e", "h", "d", "p", "m");
    assert_eq!(
        (t.id.as_str(), t.form.as_str(), t.lemma.as_str(), t.upos.as_str(), t.xpos.as_str()),
        ("3.1", "f", "l", "u", "x")
    );
    assert_eq!(
        (t.feats.as_str(), t.head.as_str(), t.deprel.as_str(), t.deps.as_str(), t.misc.as_str()),
        ("e", "h", "d", "p", "m")
    );
    assert!(t.is_empty_node && !t.is_multiword);
    let m = Token::new("3-4", "f", "l", "u", "x", "e", "h", "d", "p", "m");
    assert!(m.is_multiword && !m.is_empty_node);
    assert_eq!(m.clone(), m);
    let plain = Token::new("12", "-", ".", "_", "_", "_", "_", "_", "_", "_");
    assert!(!plain.is_multiword && !plain.is_empty_node);
}

#[test]
fn token_from_fields_needs_ten() {
    let fields: Vec<Vec<char>> = "1-2 b c d e f g h i j k".split(' ').map(|f| f.chars().collect()).collect();
    let t = Token::from_fields(&fields).unwrap();
    assert_eq!(t.id, "1-2");
    assert_eq!(t.misc, "j");
    assert_eq!(t.head, "g");
    assert!(t.is_multiword);
    assert_eq!(Token::from_fields(&fields[..10]).unwrap(), t);
    assert_eq!(Token::from_fields(&fields[..9]), None);
    assert_eq!(Token::from_fields(&[]), None);
}

#[test]
fn enhanced_deps_are_split_at_bars_and_first_colon() {
    assert_eq!(parse_enhanced_deps("_"), vec![]);
    assert_eq!(parse_enhanced_deps("2:nsubj"), vec![dep("2", "nsubj")]);
    assert_eq!(
        parse_enhanced_deps("5:nmod:poss|0:root|8.1:conj:and"),
        vec![dep("5", "nmod:poss"), dep("0", "root"), dep("8.1", "conj:and")]
    );
    assert_eq!(parse_enhanced_deps("nothing|3:obj||:x|4:"), vec![dep("3", "obj"), dep("", "x"), dep("4", "")]);
    assert_eq!(parse_enhanced_deps(""), vec![]);
    assert_eq!(parse_enhanced_deps("__"), vec![]);
    assert_eq!(parse_enhanced_deps("_:a"), vec![dep("_", "a")]);
}

#[test]
fn render_drops_flagged_tokens_only() {
    let tokens = vec![token("1", "_", "_", "_"), token("1-2", "_", "_", "_"), token("1.5", "_", "_", "_")];
    let shown = render_tokens(&tokens);
    assert_eq!(shown, vec![tokens[0].clone(), tokens[2].clone()]);
    assert_eq!(render_tokens(&[]), vec![]);
}

#[test]
fn relations_come_in_token_order_enhanced_arcs_first() {
    let tokens = vec![
        token("1", "2", "a", "3:b|2:c"),
        token("2", "0", "root", "0:top|1:d|0:root"),
        token("3", "_", "_", "1:e"),
    ];
    let (roots, cands) = extract_relations(&tokens);
    assert_eq!(roots, vec![root(1, "2", "root"), root(1, "2", "top")]);
    assert_eq!(
        cands,
        vec![
            cand(2, 0, "1", "b", true),
            cand(1, 0, "1", "c", true),
            cand(1, 0, "1", "a", false),
            cand(0, 1, "2", "d", true),
            cand(0, 2, "3", "e", true),
        ]
    );
}

#[test]
fn blank_head_makes_no_basic_arc() {
    let tokens = vec![token("_", "_", "x", "_"), token("2", "_", "y", "_:z")];
    let (roots, cands) = extract_relations(&tokens);
    assert_eq!(roots, vec![]);
    assert_eq!(cands, vec![cand(0, 1, "2", "z", true)]);
}

#[test]
fn unknown_governors_are_dropped() {
    let tokens = vec![token("1", "9", "a", "7:b|x:c"), token("2", "1", "d", "_")];
    let (roots, cands) = extract_relations(&tokens);
    assert_eq!(roots, vec![]);
    assert_eq!(cands, vec![cand(0, 1, "2", "d", false)]);
}

#[test]
fn repeated_id_names_its_last_token() {
    let tokens = vec![token("1", "_", "_", "_"), token("1", "_", "_", "_"), token("2", "1", "a", "_")];
    let (_, cands) = extract_relations(&tokens);
    assert_eq!(cands, vec![cand(1, 2, "2", "a", false)]);
}

#[test]
fn token_may_govern_itself() {
    let tokens = vec![token("1", "1", "a", "1:b")];
    let s = build_sentence(&Metadata::new(), &tokens);
    assert_eq!(s.arcs.len(), 2);
    assert_eq!((s.arcs[0].start_idx, s.arcs[0].end_idx, s.arcs[0].level), (0, 0, 1));
    assert_eq!((s.arcs[1].start_idx, s.arcs[1].end_idx, s.arcs[1].level), (0, 0, 2));
    assert!(s.arcs[0].is_enhanced && !s.arcs[1].is_enhanced);
    assert!(!s.arcs[0].is_head_left);
    check_invariants(&s);
}

#[test]
fn root_in_both_layers_is_marked_twice() {
    let tokens = vec![token("1", "0", "root", "0:root|0:parataxis|0:root")];
    let s = build_sentence(&Metadata::new(), &tokens);
    assert_eq!(s.roots, vec![root(0, "1", "root"), root(0, "1", "parataxis")]);
    let other = build_sentence(&Metadata::new(), &vec![token("1", "2", "x", "0:root|0:root")]);
    assert_eq!(other.roots, vec![root(0, "1", "root"), root(0, "1", "root")]);
    check_invariants(&s);
    check_invariants(&other);
}

#[test]
fn near_duplicate_enhanced_relation_is_kept() {
    let tokens = vec![token("1", "2", "obj", "2:obj:agent|2:obj"), token("2", "0", "root", "_")];
    let s = build_sentence(&Metadata::new(), &tokens);
    let labels: Vec<(&str, bool, usize)> =
        s.arcs.iter().map(|a| (a.label.as_str(), a.is_enhanced, a.level)).collect();
    assert_eq!(labels, vec![("obj:agent", true, 1), ("obj", false, 2)]);
}

#[test]
fn sentence_takes_id_and_text_from_metadata() {
    let mut metadata = Metadata::new();
    assert_eq!(metadata.value_or_empty("sent_id"), "");
    metadata.set("sent_id", "first");
    metadata.set("text", "A b.");
    metadata.set("sent_id", "s-1");
    metadata.insert(String::from("newdoc"), String::from("d"));
    assert_eq!(metadata.get("sent_id"), Some(&String::from("s-1")));
    assert_eq!(metadata.get("absent"), None);
    let tokens = vec![token("1", "0", "root", "_"), token("2-3", "_", "_", "_")];
    let s = build_sentence(&metadata, &tokens);
    assert_eq!(s.sent_id, "s-1");
    assert_eq!(s.text, "A b.");
    assert_eq!(s.tokens, vec![tokens[0].clone()]);
    assert_eq!(metadata.value_or_empty("newdoc"), "d");
    metadata.clear();
    assert_eq!(metadata.get("sent_id"), None);
    let bare = build_sentence(&metadata, &tokens);
    assert_eq!((bare.sent_id.as_str(), bare.text.as_str()), ("", ""));
}

#[test]
fn empty_block_builds_an_empty_sentence() {
    let s = build_sentence(&Metadata::new(), &[]);
    assert_eq!(
        s,
        Sentence { sent_id: String::new(), text: String::new(), tokens: vec![], arcs: vec![], roots: vec![] }
    );
}

#[test]
fn invariants_hold_on_a_tangled_sentence() {
    let mut text = String::from("# sent_id = t\n# text = tangled\n");
    let heads = ["4", "1", "0", "7", "3", "5.1", "2", "5", "0"];
    let ids = ["1", "2", "3", "4", "5", "5.1", "6", "7", "8"];
    let deps = ["3:a|0:root|9:z", "_", "0:root|1:b", "1:c|2:d|8:e", "5:self", "_", "6-7:m|1:f", "3:g:h", "8:i|1:j"];
    for k in 0..ids.len() {
        text += &format!("{}\tw{k}\t_\t_\t_\t_\t{}\trel{k}\t{}\t_\n", ids[k], heads[k], deps[k]);
        if k == 6 {
            text += "6-7\tmw\t_\t_\t_\t_\t_\t_\t_\t_\n";
        }
    }
    let sentences = layout_text(&text);
    assert_eq!(sentences.len(), 1);
    let s = &sentences[0];
    assert_eq!(s.tokens.len(), 9);
    assert_eq!(s.roots.len(), 4);
    assert_eq!(s.arcs.len(), 17);
    check_invariants(s);
    let widths: Vec<usize> = s.arcs.iter().map(|a| a.end_idx - a.start_idx).collect();
    let mut sorted = widths.clone();
    sorted.sort();
    assert_eq!(widths, sorted);
    assert!(s.arcs.iter().any(|a| a.level >= 3));
}

#[test]
fn arc_fields_follow_the_candidate() {
    let tokens = vec![token("a", "c", "x", "_"), token("b", "a", "y", "_"), token("c", "0", "root", "_")];
    let s = build_sentence(&Metadata::new(), &tokens);
    assert_eq!(
        s.arcs,
        vec![
            Arc {
                start_idx: 0,
                end_idx: 1,
                dep_id: String::from("b"),
                label: String::from("y"),
                level: 1,
                is_head_left: true,
                is_enhanced: false
            },
            Arc {
                start_idx: 0,
                end_idx: 2,
                dep_id: String::from("a"),
                label: String::from("x"),
                level: 2,
                is_head_left: false,
                is_enhanced: false
            },
        ]
    );
}
