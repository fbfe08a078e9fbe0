//! The records of a laid-out sentence: tokens, arcs, root markers, and the
//! mathematical value that each of them stands for.

use crate::text::{chars_of, contents, has_char, string_of};
use vstd::prelude::*;

verus! {

/// The column value that names the virtual root as governor: `"0"`.
pub open spec fn root_id() -> Seq<char> {
    seq!['0']
}

/// The column value that stands for "nothing here": `"_"`.
pub open spec fn blank() -> Seq<char> {
    seq!['_']
}

/// One row of the annotation table.
#[derive(Debug, PartialEq, Eq)]
pub struct Token {
    pub id: String,
    pub form: String,
    pub lemma: String,
    pub upos: String,
    pub xpos: String,
    pub feats: String,
    pub head: String,
    pub deprel: String,
    pub deps: String,
    pub misc: String,
    pub is_multiword: bool,
    pub is_empty_node: bool,
}

/// What a `Token` holds.
pub struct TokenView {
    pub id: Seq<char>,
    pub form: Seq<char>,
    pub lemma: Seq<char>,
    pub upos: Seq<char>,
    pub xpos: Seq<char>,
    pub feats: Seq<char>,
    pub head: Seq<char>,
    pub deprel: Seq<char>,
    pub deps: Seq<char>,
    pub misc: Seq<char>,
    pub is_multiword: bool,
    pub is_empty_node: bool,
}

impl TokenView {
    /// The two flags say what the id holds: a `-` marks a multiword span, a
    /// `.` an empty node.
    pub open spec fn well_formed(self) -> bool {
        &&& self.is_multiword == self.id.contains('-')
        &&& self.is_empty_node == self.id.contains('.')
    }
}

impl View for Token {
    type V = TokenView;

    open spec fn view(&self) -> TokenView {
        TokenView {
            id: self.id@,
            form: self.form@,
            lemma: self.lemma@,
            upos: self.upos@,
            xpos: self.xpos@,
            feats: self.feats@,
            head: self.head@,
            deprel: self.deprel@,
            deps: self.deps@,
            misc: self.misc@,
            is_multiword: self.is_multiword,
            is_empty_node: self.is_empty_node,
        }
    }
}

impl DeepView for Token {
    type V = TokenView;

    open spec fn deep_view(&self) -> TokenView {
        self@
    }
}

/// The token that ten or more column values describe: the first ten values,
/// in the order of the columns, and the two flags read off the id.
pub open spec fn token_of_fields(fields: Seq<Seq<char>>) -> TokenView {
    TokenView {
        id: fields[0],
        form: fields[1],
        lemma: fields[2],
        upos: fields[3],
        xpos: fields[4],
        feats: fields[5],
        head: fields[6],
        deprel: fields[7],
        deps: fields[8],
        misc: fields[9],
        is_multiword: fields[0].contains('-'),
        is_empty_node: fields[0].contains('.'),
    }
}

impl Token {
    /// The token with the given ten column values.
    pub fn new(
        id: &str,
        form: &str,
        lemma: &str,
        upos: &str,
        xpos: &str,
        feats: &str,
        head: &str,
        deprel: &str,
        deps: &str,
        misc: &str,
    ) -> (t: Token)
        ensures
            t@ == token_of_fields(
                seq![id@, form@, lemma@, upos@, xpos@, feats@, head@, deprel@, deps@, misc@],
            ),
            t@.well_formed(),
    {
        let id_chars = chars_of(id);
        Token {
            id: id.to_owned(),
            form: form.to_owned(),
            lemma: lemma.to_owned(),
            upos: upos.to_owned(),
            xpos: xpos.to_owned(),
            feats: feats.to_owned(),
            head: head.to_owned(),
            deprel: deprel.to_owned(),
            deps: deps.to_owned(),
            misc: misc.to_owned(),
            is_multiword: has_char(id_chars.as_slice(), '-'),
            is_empty_node: has_char(id_chars.as_slice(), '.'),
        }
    }

    /// The token that a row's column values describe, if there are at least
    /// ten of them; values after the tenth are ignored.
    pub fn from_fields(fields: &[Vec<char>]) -> (r: Option<Token>)
        ensures
            r is Some <==> fields@.len() >= 10,
            r matches Some(t) ==> t@ == token_of_fields(contents(fields@)) && t@.well_formed(),
    {
        if fields.len() < 10 {
            return None;
        }
        let id = fields[0].as_slice();
        Some(
            Token {
                id: string_of(id),
                form: string_of(fields[1].as_slice()),
                lemma: string_of(fields[2].as_slice()),
                upos: string_of(fields[3].as_slice()),
                xpos: string_of(fields[4].as_slice()),
                feats: string_of(fields[5].as_slice()),
                head: string_of(fields[6].as_slice()),
                deprel: string_of(fields[7].as_slice()),
                deps: string_of(fields[8].as_slice()),
                misc: string_of(fields[9].as_slice()),
                is_multiword: has_char(id, '-'),
                is_empty_node: has_char(id, '.'),
            },
        )
    }
}

impl Clone for Token {
    fn clone(&self) -> (t: Token)
        ensures
            t == *self,
    {
        Token {
            id: self.id.clone(),
            form: self.form.clone(),
            lemma: self.lemma.clone(),
            upos: self.upos.clone(),
            xpos: self.xpos.clone(),
            feats: self.feats.clone(),
            head: self.head.clone(),
            deprel: self.deprel.clone(),
            deps: self.deps.clone(),
            misc: self.misc.clone(),
            is_multiword: self.is_multiword,
            is_empty_node: self.is_empty_node,
        }
    }
}

/// One dependency relation, drawn as a curve between two token positions.
#[derive(Debug, PartialEq, Eq)]
pub struct Arc {
    pub start_idx: usize,
    pub end_idx: usize,
    pub dep_id: String,
    pub label: String,
    pub level: usize,
    pub is_head_left: bool,
    pub is_enhanced: bool,
}

/// What an `Arc` holds.
pub struct ArcView {
    pub start_idx: int,
    pub end_idx: int,
    pub dep_id: Seq<char>,
    pub label: Seq<char>,
    pub level: int,
    pub is_head_left: bool,
    pub is_enhanced: bool,
}

impl View for Arc {
    type V = ArcView;

    open spec fn view(&self) -> ArcView {
        ArcView {
            start_idx: self.start_idx as int,
            end_idx: self.end_idx as int,
            dep_id: self.dep_id@,
            label: self.label@,
            level: self.level as int,
            is_head_left: self.is_head_left,
            is_enhanced: self.is_enhanced,
        }
    }
}

impl DeepView for Arc {
    type V = ArcView;

    open spec fn deep_view(&self) -> ArcView {
        self@
    }
}

/// Marks a token whose governor is the virtual root of the sentence.
#[derive(Debug, PartialEq, Eq)]
pub struct Root {
    pub idx: usize,
    pub dep_id: String,
    pub label: String,
}

/// What a `Root` holds.
pub struct RootView {
    pub idx: int,
    pub dep_id: Seq<char>,
    pub label: Seq<char>,
}

impl View for Root {
    type V = RootView;

    open spec fn view(&self) -> RootView {
        RootView { idx: self.idx as int, dep_id: self.dep_id@, label: self.label@ }
    }
}

impl DeepView for Root {
    type V = RootView;

    open spec fn deep_view(&self) -> RootView {
        self@
    }
}

/// One sentence of a treebank, laid out.
#[derive(Debug, PartialEq, Eq)]
pub struct Sentence {
    pub sent_id: String,
    pub text: String,
    pub tokens: Vec<Token>,
    pub arcs: Vec<Arc>,
    pub roots: Vec<Root>,
}

/// What a `Sentence` holds.
pub struct SentenceView {
    pub sent_id: Seq<char>,
    pub text: Seq<char>,
    pub tokens: Seq<TokenView>,
    pub arcs: Seq<ArcView>,
    pub roots: Seq<RootView>,
}

impl View for Sentence {
    type V = SentenceView;

    open spec fn view(&self) -> SentenceView {
        SentenceView {
            sent_id: self.sent_id@,
            text: self.text@,
            tokens: self.tokens.deep_view(),
            arcs: self.arcs.deep_view(),
            roots: self.roots.deep_view(),
        }
    }
}

impl DeepView for Sentence {
    type V = SentenceView;

    open spec fn deep_view(&self) -> SentenceView {
        self@
    }
}

/// Pushing onto a vector pushes the element's value onto the vector's value.
pub proof fn lemma_deep_view_push<T: DeepView>(before: Vec<T>, after: Vec<T>, last: T)
    requires
        after@ == before@.push(last),
    ensures
        after.deep_view() == before.deep_view().push(last.deep_view()),
{
}

} // verus!
