//! The document scanner: splits a document into lines, gathers the comment
//! metadata and the token rows of each block, and has every block with rows
//! built into a sentence.

use crate::builder::{
    build_sentence, lemma_rendered_push, lemma_sentence_well_formed, rendered, sentence_of, well_formed,
};
use crate::metadata::Metadata;
use crate::model::{lemma_deep_view_push, token_of_fields, Sentence, SentenceView, Token, TokenView};
use crate::text::{
    find_char, lemma_split_concat, split, split_chars, split_once, string_of, trim, trim_chars,
    trim_end, trim_end_len,
};
use vstd::prelude::*;
use vstd::slice::slice_subrange;
use vstd::utf8::{decode_utf8, valid_utf8};

verus! {

/// Why a document could not be laid out.
#[derive(Debug, Clone, Copy, PartialEq, Eq)]
pub enum LayoutError {
    /// The input is not UTF-8 text.
    InvalidUtf8,
}

/// What the scanner has gathered after some lines of a document.
pub struct ScanState {
    /// The sentences of the blocks that have ended.
    pub sentences: Seq<SentenceView>,
    /// The token rows of the block that is open.
    pub tokens: Seq<TokenView>,
    /// The metadata of the block that is open.
    pub metadata: Map<Seq<char>, Seq<char>>,
}

/// The state before the first line.
pub open spec fn initial_state() -> ScanState {
    ScanState {
        sentences: Seq::<SentenceView>::empty(),
        tokens: Seq::<TokenView>::empty(),
        metadata: Map::<Seq<char>, Seq<char>>::empty(),
    }
}

/// The token that a row describes: its first ten fields between tabs. A row
/// with fewer fields describes none.
pub open spec fn token_of_line(line: Seq<char>) -> Option<TokenView> {
    let fields = split(line, '\t');
    if fields.len() >= 10 {
        Some(token_of_fields(fields))
    } else {
        None
    }
}

/// The key and the value of a comment line `# key = value`, both trimmed;
/// none for a comment without `=`.
pub open spec fn entry_of_comment(line: Seq<char>) -> Option<(Seq<char>, Seq<char>)> {
    match split_once(trim(line.skip(1)), '=') {
        Some(halves) => Some((trim(halves.0), trim(halves.1))),
        None => None,
    }
}

/// The state after a block has ended: a block with token rows has become a
/// sentence and the next block starts empty; a block without rows goes on.
pub open spec fn end_block(state: ScanState) -> ScanState {
    if state.tokens.len() > 0 {
        ScanState {
            sentences: state.sentences.push(sentence_of(state.metadata, state.tokens)),
            tokens: Seq::<TokenView>::empty(),
            metadata: Map::<Seq<char>, Seq<char>>::empty(),
        }
    } else {
        state
    }
}

/// The state after one more line.
pub open spec fn step(state: ScanState, raw_line: Seq<char>) -> ScanState {
    let line = trim_end(raw_line);
    if line.len() == 0 {
        end_block(state)
    } else if line[0] == '#' {
        match entry_of_comment(line) {
            Some(entry) => ScanState { metadata: state.metadata.insert(entry.0, entry.1), ..state },
            None => state,
        }
    } else {
        match token_of_line(line) {
            Some(token) => ScanState { tokens: state.tokens.push(token), ..state },
            None => state,
        }
    }
}

/// The state after the given lines, starting from `state`.
pub open spec fn scan_from(state: ScanState, lines: Seq<Seq<char>>) -> ScanState
    decreases lines.len(),
{
    if lines.len() == 0 {
        state
    } else {
        step(scan_from(state, lines.drop_last()), lines.last())
    }
}

/// The state after the given lines of a document.
pub open spec fn scan(lines: Seq<Seq<char>>) -> ScanState {
    scan_from(initial_state(), lines)
}

/// The sentences of a document: those of its blocks that hold token rows,
/// in order. The lines of the document are what stands between its line
/// feeds.
pub open spec fn document_layout(text: Seq<char>) -> Seq<SentenceView> {
    end_block(scan(split(text, '\n'))).sentences
}

/// Whether nothing of the document is left open at its end: its last block
/// holds token rows, or no metadata has come since the last sentence.
pub open spec fn ends_closed(text: Seq<char>) -> bool {
    end_block(scan(split(text, '\n'))).metadata == Map::<Seq<char>, Seq<char>>::empty()
}

/// The state with `sentences` put before its own.
pub open spec fn after_sentences(sentences: Seq<SentenceView>, state: ScanState) -> ScanState {
    ScanState { sentences: sentences + state.sentences, ..state }
}

/// Whether every sentence is well formed.
pub open spec fn all_well_formed(sentences: Seq<SentenceView>) -> bool {
    forall|i: int| 0 <= i < sentences.len() ==> well_formed(#[trigger] sentences[i])
}

/// Scanning lines in two runs is scanning them in one.
pub proof fn lemma_scan_from_concat(state: ScanState, first: Seq<Seq<char>>, second: Seq<Seq<char>>)
    ensures
        scan_from(state, first + second) == scan_from(scan_from(state, first), second),
    decreases second.len(),
{
    if second.len() > 0 {
        lemma_scan_from_concat(state, first, second.drop_last());
        assert((first + second).drop_last() =~= first + second.drop_last());
    }
}

/// What was gathered before a block that starts empty does not change what
/// the lines after it give: the sentences of earlier blocks stay in front,
/// and nothing else is carried over.
pub proof fn lemma_scan_keeps_earlier_sentences(sentences: Seq<SentenceView>, lines: Seq<Seq<char>>)
    ensures
        scan_from(after_sentences(sentences, initial_state()), lines) == after_sentences(
            sentences,
            scan(lines),
        ),
    decreases lines.len(),
{
    if lines.len() > 0 {
        lemma_scan_keeps_earlier_sentences(sentences, lines.drop_last());
    }
}

/// Blocks share no state. Where a document ends closed, the sentences of
/// that document, a blank line and a second document are the sentences of
/// the first followed by the sentences of the second.
pub proof fn lemma_blocks_are_independent(first: Seq<char>, second: Seq<char>)
    requires
        ends_closed(first),
    ensures
        document_layout(first.push('\n').push('\n') + second) == document_layout(first)
            + document_layout(second),
{
    let lines1 = split(first, '\n');
    let lines2 = split(second, '\n');
    let blank = Seq::<char>::empty();
    lemma_split_concat(first.push('\n'), second, '\n');
    assert(first.push('\n').drop_last() =~= first);
    lemma_scan_from_concat(initial_state(), lines1.push(blank), lines2);
    assert(lines1.push(blank).drop_last() =~= lines1);
    let closed = scan(lines1.push(blank));
    assert(closed == after_sentences(document_layout(first), initial_state())) by {
        assert(closed.tokens =~= initial_state().tokens);
    }
    lemma_scan_keeps_earlier_sentences(document_layout(first), lines2);
}

/// The same document gives the same sentences, however often it is laid out.
pub proof fn lemma_layout_repeatable(
    text: Seq<char>,
    first: Seq<SentenceView>,
    second: Seq<SentenceView>,
)
    requires
        first == document_layout(text),
        second == document_layout(text),
    ensures
        first == second,
{
}

/// Every sentence gathered from the lines of a document is well formed.
pub proof fn lemma_scan_well_formed(lines: Seq<Seq<char>>)
    ensures
        all_well_formed(scan(lines).sentences),
        all_well_formed(end_block(scan(lines)).sentences),
    decreases lines.len(),
{
    if lines.len() > 0 {
        lemma_scan_well_formed(lines.drop_last());
    }
    let now = scan(lines);
    lemma_sentence_well_formed(now.metadata, now.tokens);
}

/// Whether the flags of every token say what its id holds.
pub open spec fn flags_follow_ids(tokens: Seq<TokenView>) -> bool {
    forall|i: int| 0 <= i < tokens.len() ==> (#[trigger] tokens[i]).well_formed()
}

/// In every sentence gathered from the lines of a document, and in the open
/// block, the flags of every token say what its id holds.
pub proof fn lemma_scan_flags(lines: Seq<Seq<char>>)
    ensures
        flags_follow_ids(scan(lines).tokens),
        forall|i: int|
            0 <= i < end_block(scan(lines)).sentences.len() ==> flags_follow_ids(
                (#[trigger] end_block(scan(lines)).sentences[i]).tokens,
            ),
        forall|i: int|
            0 <= i < scan(lines).sentences.len() ==> flags_follow_ids(
                (#[trigger] scan(lines).sentences[i]).tokens,
            ),
    decreases lines.len(),
{
    let now = scan(lines);
    if lines.len() > 0 {
        lemma_scan_flags(lines.drop_last());
    }
    lemma_rendered_flags(now.tokens);
}

/// Rendering keeps the flags of the tokens as they are.
proof fn lemma_rendered_flags(tokens: Seq<TokenView>)
    requires
        flags_follow_ids(tokens),
    ensures
        flags_follow_ids(rendered(tokens)),
    decreases tokens.len(),
{
    if tokens.len() > 0 {
        let before = tokens.drop_last();
        lemma_rendered_flags(before);
        assert(before.push(tokens.last()) =~= tokens);
        lemma_rendered_push(before, tokens.last());
    }
}

/// Every sentence of every document is well formed, and the flags of its
/// tokens say what their ids hold.
pub proof fn lemma_document_layout_well_formed(text: Seq<char>)
    ensures
        all_well_formed(document_layout(text)),
        forall|i: int|
            0 <= i < document_layout(text).len() ==> flags_follow_ids(
                (#[trigger] document_layout(text)[i]).tokens,
            ),
{
    lemma_scan_well_formed(split(text, '\n'));
    lemma_scan_flags(split(text, '\n'));
}

/// Takes the lines of a document one by one.
pub struct Scanner {
    sentences: Vec<Sentence>,
    tokens: Vec<Token>,
    metadata: Metadata,
}

impl View for Scanner {
    type V = ScanState;

    closed spec fn view(&self) -> ScanState {
        ScanState {
            sentences: self.sentences.deep_view(),
            tokens: self.tokens.deep_view(),
            metadata: self.metadata@,
        }
    }
}

impl Scanner {
    /// A scanner that has seen no line.
    pub fn new() -> (scanner: Scanner)
        ensures
            scanner@ == initial_state(),
    {
        let scanner = Scanner { sentences: Vec::new(), tokens: Vec::new(), metadata: Metadata::new() };
        assert(scanner.sentences.deep_view() =~= Seq::<SentenceView>::empty());
        assert(scanner.tokens.deep_view() =~= Seq::<TokenView>::empty());
        scanner
    }

    /// Ends the open block.
    pub fn end_block(&mut self)
        ensures
            final(self)@ == end_block(old(self)@),
    {
        if self.tokens.len() > 0 {
            let rows = self.tokens.as_slice();
            let sentence = build_sentence(&self.metadata, rows);
            let ghost before = self.sentences;
            self.sentences.push(sentence);
            self.tokens = Vec::new();
            self.metadata.clear();
            proof {
                lemma_deep_view_push(before, self.sentences, sentence);
                assert(self.tokens.deep_view() =~= Seq::<TokenView>::empty());
            }
        }
    }

    /// Takes the next line of the document, given without its line feed.
    pub fn feed_line(&mut self, raw_line: &[char])
        ensures
            final(self)@ == step(old(self)@, raw_line@),
    {
        let end = trim_end_len(raw_line);
        let line = slice_subrange(raw_line, 0, end);
        if end == 0 {
            self.end_block();
        } else if line[0] == '#' {
            let comment = trim_chars(slice_subrange(line, 1, end));
            let comment_end = comment.len();
            match find_char(comment, '=') {
                Some(at) => {
                    let key = trim_chars(slice_subrange(comment, 0, at));
                    let value = trim_chars(slice_subrange(comment, at + 1, comment_end));
                    self.metadata.insert(string_of(key), string_of(value));
                },
                None => {},
            }
        } else {
            let fields = split_chars(line, '\t');
            match Token::from_fields(fields.as_slice()) {
                Some(token) => {
                    let ghost before = self.tokens;
                    self.tokens.push(token);
                    proof {
                        lemma_deep_view_push(before, self.tokens, token);
                    }
                },
                None => {},
            }
        }
    }

    /// The sentences of the document whose lines were taken.
    pub fn finish(self) -> (sentences: Vec<Sentence>)
        ensures
            sentences.deep_view() == end_block(self@).sentences,
    {
        let mut scanner = self;
        scanner.end_block();
        scanner.sentences
    }
}

/// The sentences of a document.
pub fn layout_text(text: &str) -> (sentences: Vec<Sentence>)
    ensures
        sentences.deep_view() == document_layout(text@),
        all_well_formed(sentences.deep_view()),
{
    proof {
        lemma_document_layout_well_formed(text@);
    }
    let mut scanner = Scanner::new();
    let mut line: Vec<char> = Vec::new();
    let ghost mut done: Seq<Seq<char>> = Seq::empty();
    for c in it: text.chars()
        invariant
            it.seq() == text@,
            split(text@.take(it.index()), '\n') == done.push(line@),
            scanner@ == scan(done),
    {
        proof {
            let grown = text@.take(it.index() + 1);
            assert(grown.drop_last() =~= text@.take(it.index()));
            assert(done.push(line@).drop_last() =~= done);
        }
        if c == '\n' {
            scanner.feed_line(line.as_slice());
            proof {
                done = done.push(line@);
            }
            line.clear();
        } else {
            line.push(c);
        }
    }
    scanner.feed_line(line.as_slice());
    proof {
        assert(text@.take(text@.len() as int) =~= text@);
        assert(done.push(line@).drop_last() =~= done);
    }
    scanner.finish()
}

/// `std::str::from_utf8` of the standard library: the text that the bytes
/// encode, if they are well-formed UTF-8, and nothing otherwise.
#[verifier::external_body]
fn decode_text(input: &[u8]) -> (r: Option<&str>)
    ensures
        r is Some <==> valid_utf8(input@),
        r matches Some(text) ==> text@ == decode_utf8(input@),
{
    match std::str::from_utf8(input) {
        Ok(text) => Some(text),
        Err(_) => None,
    }
}

/// The sentences of a document given as bytes: an error if the bytes are not
/// UTF-8, else the sentences of the text that they encode.
pub fn layout_conllu(input: &[u8]) -> (r: Result<Vec<Sentence>, LayoutError>)
    ensures
        match r {
            Ok(sentences) => {
                &&& valid_utf8(input@)
                &&& sentences.deep_view() == document_layout(decode_utf8(input@))
                &&& all_well_formed(sentences.deep_view())
            },
            Err(e) => !valid_utf8(input@) && e == LayoutError::InvalidUtf8,
        },
{
    match decode_text(input) {
        Some(text) => Ok(layout_text(text)),
        None => Err(LayoutError::InvalidUtf8),
    }
}

} // verus!
