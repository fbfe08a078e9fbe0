//! The sentence builder: from the rows of one block to the rendered tokens,
//! the root markers and the arcs with their levels.

use crate::levels::{
    arcs_well_formed, assign_levels, by_width, lemma_leveled_arcs_well_formed,
    lemma_place_all_shape, leveled_arcs, ArcCandidate, ArcCandidateView,
};
use crate::metadata::{value_or_empty, Metadata};
use crate::model::{
    blank, lemma_deep_view_push, root_id, ArcView, Root, RootView, Sentence, SentenceView, Token,
    TokenView,
};
use crate::text::{
    chars_of, contents, find_char, is_char, split, split_chars, split_once, string_of,
};
use vstd::hash_map::StringHashMap;
use vstd::prelude::*;
use vstd::slice::slice_subrange;

verus! {

/// One entry of the enhanced-dependency column: a governor and a relation.
#[derive(Debug, PartialEq, Eq)]
pub struct EnhancedDep {
    pub head: String,
    pub rel: String,
}

/// What an `EnhancedDep` holds.
pub struct EnhancedDepView {
    pub head: Seq<char>,
    pub rel: Seq<char>,
}

impl View for EnhancedDep {
    type V = EnhancedDepView;

    open spec fn view(&self) -> EnhancedDepView {
        EnhancedDepView { head: self.head@, rel: self.rel@ }
    }
}

impl DeepView for EnhancedDep {
    type V = EnhancedDepView;

    open spec fn deep_view(&self) -> EnhancedDepView {
        self@
    }
}

/// The entry that one piece of the column holds: the governor before the
/// first `:` and the relation after it. A piece without `:` holds none.
pub open spec fn enhanced_dep_of(piece: Seq<char>) -> Option<EnhancedDepView> {
    match split_once(piece, ':') {
        Some(halves) => Some(EnhancedDepView { head: halves.0, rel: halves.1 }),
        None => None,
    }
}

/// The entries that the pieces hold, in order.
pub open spec fn deps_in(pieces: Seq<Seq<char>>) -> Seq<EnhancedDepView> {
    pieces.filter_map(|piece: Seq<char>| enhanced_dep_of(piece))
}

/// The entries of an enhanced-dependency column: none for `_`, else those of
/// its pieces between `|`.
pub open spec fn enhanced_deps(deps: Seq<char>) -> Seq<EnhancedDepView> {
    if deps == blank() {
        Seq::<EnhancedDepView>::empty()
    } else {
        deps_in(split(deps, '|'))
    }
}

/// The tokens that are drawn: all but the multiword markers, in order.
pub open spec fn rendered(tokens: Seq<TokenView>) -> Seq<TokenView> {
    tokens.filter(|t: TokenView| !t.is_multiword)
}

/// The position that an id names among the tokens: that of the last token
/// with this id.
pub open spec fn resolve(tokens: Seq<TokenView>, id: Seq<char>) -> Option<int>
    decreases tokens.len(),
{
    if tokens.len() == 0 {
        None
    } else if tokens.last().id == id {
        Some(tokens.len() - 1)
    } else {
        resolve(tokens.drop_last(), id)
    }
}

/// Whether an enhanced entry says again what the basic columns of the token
/// say.
pub open spec fn restates_basic(t: TokenView, d: EnhancedDepView) -> bool {
    d.head == t.head && d.rel == t.deprel
}

/// The root marker from the basic columns of the token at position `i`.
pub open spec fn basic_root(t: TokenView, i: int) -> Seq<RootView> {
    if t.head == root_id() {
        seq![RootView { idx: i, dep_id: t.id, label: t.deprel }]
    } else {
        Seq::<RootView>::empty()
    }
}

/// The root marker from one enhanced entry of the token at position `i`.
pub open spec fn enhanced_root(t: TokenView, i: int, d: EnhancedDepView) -> Option<RootView> {
    if !restates_basic(t, d) && d.head == root_id() {
        Some(RootView { idx: i, dep_id: t.id, label: d.rel })
    } else {
        None
    }
}

/// The root markers from the given enhanced entries of the token at
/// position `i`.
pub open spec fn enhanced_roots(t: TokenView, i: int, deps: Seq<EnhancedDepView>) -> Seq<RootView> {
    deps.filter_map(|d: EnhancedDepView| enhanced_root(t, i, d))
}

/// The root markers of the token at position `i`: the basic one first.
pub open spec fn token_roots(tokens: Seq<TokenView>, i: int) -> Seq<RootView> {
    basic_root(tokens[i], i) + enhanced_roots(tokens[i], i, enhanced_deps(tokens[i].deps))
}

/// The arc candidate from the basic columns of the token at position `i`.
pub open spec fn basic_arc(tokens: Seq<TokenView>, i: int) -> Seq<ArcCandidateView> {
    let t = tokens[i];
    if t.head != root_id() && t.head != blank() && resolve(tokens, t.head) is Some {
        seq![
            ArcCandidateView {
                head_idx: resolve(tokens, t.head).unwrap(),
                dep_idx: i,
                dep_id: t.id,
                label: t.deprel,
                is_enhanced: false,
            },
        ]
    } else {
        Seq::<ArcCandidateView>::empty()
    }
}

/// The arc candidate from one enhanced entry of the token at position `i`.
pub open spec fn enhanced_arc(tokens: Seq<TokenView>, i: int, d: EnhancedDepView) -> Option<
    ArcCandidateView,
> {
    if !restates_basic(tokens[i], d) && d.head != root_id() && resolve(tokens, d.head) is Some {
        Some(
            ArcCandidateView {
                head_idx: resolve(tokens, d.head).unwrap(),
                dep_idx: i,
                dep_id: tokens[i].id,
                label: d.rel,
                is_enhanced: true,
            },
        )
    } else {
        None
    }
}

/// The arc candidates from the given enhanced entries of the token at
/// position `i`.
pub open spec fn enhanced_arcs(tokens: Seq<TokenView>, i: int, deps: Seq<EnhancedDepView>) -> Seq<
    ArcCandidateView,
> {
    deps.filter_map(|d: EnhancedDepView| enhanced_arc(tokens, i, d))
}

/// The arc candidates of the token at position `i`: the enhanced ones first.
pub open spec fn token_arcs(tokens: Seq<TokenView>, i: int) -> Seq<ArcCandidateView> {
    enhanced_arcs(tokens, i, enhanced_deps(tokens[i].deps)) + basic_arc(tokens, i)
}

/// The root markers of the first `n` tokens.
pub open spec fn roots_upto(tokens: Seq<TokenView>, n: int) -> Seq<RootView>
    decreases n,
{
    if n <= 0 {
        Seq::<RootView>::empty()
    } else {
        roots_upto(tokens, n - 1) + token_roots(tokens, n - 1)
    }
}

/// The arc candidates of the first `n` tokens.
pub open spec fn arcs_upto(tokens: Seq<TokenView>, n: int) -> Seq<ArcCandidateView>
    decreases n,
{
    if n <= 0 {
        Seq::<ArcCandidateView>::empty()
    } else {
        arcs_upto(tokens, n - 1) + token_arcs(tokens, n - 1)
    }
}

/// The root markers of a sentence with the given rendered tokens.
pub open spec fn sentence_roots(tokens: Seq<TokenView>) -> Seq<RootView> {
    roots_upto(tokens, tokens.len() as int)
}

/// The arc candidates of a sentence with the given rendered tokens.
pub open spec fn sentence_candidates(tokens: Seq<TokenView>) -> Seq<ArcCandidateView> {
    arcs_upto(tokens, tokens.len() as int)
}

/// The sentence that a block with the given metadata and rows describes.
pub open spec fn sentence_of(metadata: Map<Seq<char>, Seq<char>>, tokens: Seq<TokenView>) -> SentenceView {
    let shown = rendered(tokens);
    SentenceView {
        sent_id: value_or_empty(metadata, "sent_id"@),
        text: value_or_empty(metadata, "text"@),
        tokens: shown,
        arcs: leveled_arcs(sentence_candidates(shown)),
        roots: sentence_roots(shown),
    }
}

/// Whether `index` maps each id to the position that it names among
/// `tokens`, and no other id.
pub open spec fn indexes(index: Map<Seq<char>, usize>, tokens: Seq<TokenView>) -> bool {
    forall|id: Seq<char>|
        #![trigger index.contains_key(id)]
        #![trigger resolve(tokens, id)]
        {
            &&& index.contains_key(id) <==> resolve(tokens, id) is Some
            &&& index.contains_key(id) ==> resolve(tokens, id) == Some(index[id] as int)
        }
}

/// One more piece adds its entry, if it holds one.
pub proof fn lemma_deps_in_push(pieces: Seq<Seq<char>>, piece: Seq<char>)
    ensures
        deps_in(pieces.push(piece)) == match enhanced_dep_of(piece) {
            Some(d) => deps_in(pieces).push(d),
            None => deps_in(pieces),
        },
{
    assert(pieces.push(piece).drop_last() =~= pieces);
}

/// One more enhanced entry adds its root marker, if it makes one.
pub proof fn lemma_enhanced_roots_push(t: TokenView, i: int, deps: Seq<EnhancedDepView>, d: EnhancedDepView)
    ensures
        enhanced_roots(t, i, deps.push(d)) == match enhanced_root(t, i, d) {
            Some(r) => enhanced_roots(t, i, deps).push(r),
            None => enhanced_roots(t, i, deps),
        },
{
    assert(deps.push(d).drop_last() =~= deps);
}

/// One more enhanced entry adds its arc candidate, if it makes one.
pub proof fn lemma_enhanced_arcs_push(
    tokens: Seq<TokenView>,
    i: int,
    deps: Seq<EnhancedDepView>,
    d: EnhancedDepView,
)
    ensures
        enhanced_arcs(tokens, i, deps.push(d)) == match enhanced_arc(tokens, i, d) {
            Some(c) => enhanced_arcs(tokens, i, deps).push(c),
            None => enhanced_arcs(tokens, i, deps),
        },
{
    assert(deps.push(d).drop_last() =~= deps);
}

/// One more row is rendered unless it is a multiword marker.
pub proof fn lemma_rendered_push(tokens: Seq<TokenView>, t: TokenView)
    ensures
        rendered(tokens.push(t)) == if t.is_multiword {
            rendered(tokens)
        } else {
            rendered(tokens).push(t)
        },
{
    tokens.lemma_filter_push(t, |t: TokenView| !t.is_multiword);
}

/// An id resolves to a position among the tokens, and the token there has
/// that id; no later token has it.
pub proof fn lemma_resolve_finds_last(tokens: Seq<TokenView>, id: Seq<char>)
    ensures
        match resolve(tokens, id) {
            Some(i) => {
                &&& 0 <= i < tokens.len()
                &&& tokens[i].id == id
                &&& forall|j: int| i < j < tokens.len() ==> (#[trigger] tokens[j]).id != id
            },
            None => forall|j: int| 0 <= j < tokens.len() ==> (#[trigger] tokens[j]).id != id,
        },
    decreases tokens.len(),
{
    if tokens.len() > 0 && tokens.last().id != id {
        lemma_resolve_finds_last(tokens.drop_last(), id);
        match resolve(tokens, id) {
            Some(i) => {
                assert forall|j: int| i < j < tokens.len() implies (#[trigger] tokens[j]).id != id by {
                    if j < tokens.len() - 1 {
                        assert(tokens.drop_last()[j] == tokens[j]);
                    }
                }
            },
            None => {
                assert forall|j: int| 0 <= j < tokens.len() implies (#[trigger] tokens[j]).id != id by {
                    if j < tokens.len() - 1 {
                        assert(tokens.drop_last()[j] == tokens[j]);
                    }
                }
            },
        }
    }
}

/// Whether some enhanced entry of the token names the virtual root as
/// governor under the given relation.
pub open spec fn has_enhanced_root(t: TokenView, label: Seq<char>) -> bool {
    exists|k: int|
        0 <= k < enhanced_deps(t.deps).len() && (#[trigger] enhanced_deps(t.deps)[k]).head
            == root_id() && enhanced_deps(t.deps)[k].rel == label
}

/// Whether the root marker points at a token that says so: a rendered token
/// with the marker's id whose basic governor is the virtual root under the
/// marker's label, or that has an enhanced entry for the virtual root with
/// that label.
pub open spec fn root_is_justified(tokens: Seq<TokenView>, r: RootView) -> bool {
    &&& 0 <= r.idx < tokens.len()
    &&& r.dep_id == tokens[r.idx].id
    &&& (tokens[r.idx].head == root_id() && r.label == tokens[r.idx].deprel) || has_enhanced_root(
        tokens[r.idx],
        r.label,
    )
}

/// Whether both positions of the candidate are positions of rendered tokens
/// and the candidate carries the id of its dependent.
pub open spec fn candidate_in_range(tokens: Seq<TokenView>, c: ArcCandidateView) -> bool {
    &&& 0 <= c.head_idx < tokens.len()
    &&& 0 <= c.dep_idx < tokens.len()
    &&& c.dep_id == tokens[c.dep_idx].id
}

/// Whether both ends of the arc are positions of rendered tokens, the start
/// not behind the end, and the arc carries the id of its dependent: the
/// token at its end if the governor is on the left, else the token at its
/// start.
pub open spec fn arc_in_range(tokens: Seq<TokenView>, a: ArcView) -> bool {
    &&& 0 <= a.start_idx <= a.end_idx < tokens.len()
    &&& a.dep_id == tokens[if a.is_head_left {
        a.end_idx
    } else {
        a.start_idx
    }].id
}

/// What holds of every sentence that is built: no multiword marker among
/// its tokens, every root marker justified by its token, every arc between
/// two of its tokens, and the arcs well formed among themselves.
pub open spec fn well_formed(s: SentenceView) -> bool {
    &&& forall|i: int| 0 <= i < s.tokens.len() ==> !(#[trigger] s.tokens[i]).is_multiword
    &&& forall|k: int| 0 <= k < s.roots.len() ==> root_is_justified(s.tokens, #[trigger] s.roots[k])
    &&& forall|k: int| 0 <= k < s.arcs.len() ==> arc_in_range(s.tokens, #[trigger] s.arcs[k])
    &&& arcs_well_formed(s.arcs)
}

/// No rendered token is a multiword marker.
pub proof fn lemma_rendered_has_no_multiword(tokens: Seq<TokenView>)
    ensures
        forall|i: int| 0 <= i < rendered(tokens).len() ==> !(#[trigger] rendered(tokens)[i]).is_multiword,
{
}

/// Every root marker from enhanced entries of a token comes from an entry
/// that names the virtual root under the marker's label.
pub proof fn lemma_enhanced_roots_justified(t: TokenView, i: int, deps: Seq<EnhancedDepView>)
    ensures
        forall|k: int|
            0 <= k < enhanced_roots(t, i, deps).len() ==> {
                let r = #[trigger] enhanced_roots(t, i, deps)[k];
                &&& r.idx == i
                &&& r.dep_id == t.id
                &&& exists|j: int|
                    0 <= j < deps.len() && (#[trigger] deps[j]).head == root_id() && deps[j].rel
                        == r.label
            },
    decreases deps.len(),
{
    if deps.len() > 0 {
        let before = deps.drop_last();
        lemma_enhanced_roots_justified(t, i, before);
        assert forall|k: int| 0 <= k < enhanced_roots(t, i, deps).len() implies {
            let r = #[trigger] enhanced_roots(t, i, deps)[k];
            &&& r.idx == i
            &&& r.dep_id == t.id
            &&& exists|j: int|
                0 <= j < deps.len() && (#[trigger] deps[j]).head == root_id() && deps[j].rel
                    == r.label
        } by {
            let r = enhanced_roots(t, i, deps)[k];
            if k < enhanced_roots(t, i, before).len() {
                let j = choose|j: int|
                    0 <= j < before.len() && (#[trigger] before[j]).head == root_id()
                        && before[j].rel == r.label;
                assert(deps[j] == before[j]);
            }
        }
    }
}

/// Every arc candidate from enhanced entries of a token lies between rendered
/// tokens and carries the token's id.
pub proof fn lemma_enhanced_arcs_in_range(tokens: Seq<TokenView>, i: int, deps: Seq<EnhancedDepView>)
    requires
        0 <= i < tokens.len(),
    ensures
        forall|k: int|
            0 <= k < enhanced_arcs(tokens, i, deps).len() ==> candidate_in_range(
                tokens,
                #[trigger] enhanced_arcs(tokens, i, deps)[k],
            ),
    decreases deps.len(),
{
    if deps.len() > 0 {
        let before = deps.drop_last();
        lemma_enhanced_arcs_in_range(tokens, i, before);
        lemma_enhanced_arcs_push(tokens, i, before, deps.last());
        lemma_resolve_finds_last(tokens, deps.last().head);
    }
}

/// Every root marker of the first `n` tokens is justified by its token.
pub proof fn lemma_roots_justified(tokens: Seq<TokenView>, n: int)
    requires
        0 <= n <= tokens.len(),
    ensures
        forall|k: int|
            0 <= k < roots_upto(tokens, n).len() ==> root_is_justified(
                tokens,
                #[trigger] roots_upto(tokens, n)[k],
            ),
    decreases n,
{
    if n > 0 {
        let i = n - 1;
        let t = tokens[i];
        lemma_roots_justified(tokens, i);
        lemma_enhanced_roots_justified(t, i, enhanced_deps(t.deps));
        assert(roots_upto(tokens, n) == roots_upto(tokens, i) + token_roots(tokens, i));
    }
}

/// Every token among the first `n` whose basic governor is the virtual root
/// has a root marker with its position, its id and its basic relation.
pub proof fn lemma_basic_roots_are_marked(tokens: Seq<TokenView>, n: int, i: int)
    requires
        0 <= i < n <= tokens.len(),
        tokens[i].head == root_id(),
    ensures
        roots_upto(tokens, n).contains(
            RootView { idx: i, dep_id: tokens[i].id, label: tokens[i].deprel },
        ),
    decreases n,
{
    let marker = RootView { idx: i, dep_id: tokens[i].id, label: tokens[i].deprel };
    let before = roots_upto(tokens, n - 1);
    if i < n - 1 {
        lemma_basic_roots_are_marked(tokens, n - 1, i);
        let k = choose|k: int| 0 <= k < before.len() && before[k] == marker;
        assert(roots_upto(tokens, n)[k] == marker);
    } else {
        assert(roots_upto(tokens, n)[before.len() as int] == marker);
    }
}

/// Every arc candidate of the first `n` tokens lies between rendered tokens
/// and carries the id of its dependent.
pub proof fn lemma_candidates_in_range(tokens: Seq<TokenView>, n: int)
    requires
        0 <= n <= tokens.len(),
    ensures
        forall|k: int|
            0 <= k < arcs_upto(tokens, n).len() ==> candidate_in_range(
                tokens,
                #[trigger] arcs_upto(tokens, n)[k],
            ),
    decreases n,
{
    if n > 0 {
        let i = n - 1;
        lemma_candidates_in_range(tokens, i);
        lemma_enhanced_arcs_in_range(tokens, i, enhanced_deps(tokens[i].deps));
        lemma_resolve_finds_last(tokens, tokens[i].head);
        assert(arcs_upto(tokens, n) == arcs_upto(tokens, i) + token_arcs(tokens, i));
    }
}

/// Every sentence that is built is well formed.
pub proof fn lemma_sentence_well_formed(metadata: Map<Seq<char>, Seq<char>>, tokens: Seq<TokenView>)
    ensures
        well_formed(sentence_of(metadata, tokens)),
{
    let s = sentence_of(metadata, tokens);
    let shown = rendered(tokens);
    let cands = sentence_candidates(shown);
    let sorted = by_width(cands);
    lemma_rendered_has_no_multiword(tokens);
    lemma_roots_justified(shown, shown.len() as int);
    lemma_candidates_in_range(shown, shown.len() as int);
    lemma_leveled_arcs_well_formed(cands);
    lemma_place_all_shape(sorted);
    assert forall|k: int| 0 <= k < s.arcs.len() implies arc_in_range(shown, #[trigger] s.arcs[k]) by {
        lemma_by_width_in_range(shown, cands, k);
    }
}

/// Ordering by width keeps every candidate between rendered tokens.
proof fn lemma_by_width_in_range(tokens: Seq<TokenView>, cands: Seq<ArcCandidateView>, k: int)
    requires
        forall|j: int| 0 <= j < cands.len() ==> candidate_in_range(tokens, #[trigger] cands[j]),
        0 <= k < cands.len(),
    ensures
        by_width(cands).len() == cands.len(),
        candidate_in_range(tokens, by_width(cands)[k]),
{
    let widths = crate::levels::widths_of(cands);
    crate::levels::lemma_width_order_stable(widths);
}

/// The entries of an enhanced-dependency column.
pub fn parse_enhanced_deps(deps: &str) -> (entries: Vec<EnhancedDep>)
    ensures
        entries.deep_view() == enhanced_deps(deps@),
{
    let chars = chars_of(deps);
    let mut entries: Vec<EnhancedDep> = Vec::new();
    if is_char(chars.as_slice(), '_') {
        return entries;
    }
    let pieces = split_chars(chars.as_slice(), '|');
    let ghost all = contents(pieces@);
    let mut j: usize = 0;
    while j < pieces.len()
        invariant
            j <= pieces@.len(),
            all == contents(pieces@),
            entries.deep_view() == deps_in(all.take(j as int)),
        decreases pieces@.len() - j,
    {
        let piece = pieces[j].as_slice();
        proof {
            assert(all.take(j + 1) =~= all.take(j as int).push(piece@));
            lemma_deps_in_push(all.take(j as int), piece@);
        }
        let end = piece.len();
        match find_char(piece, ':') {
            Some(at) => {
                let entry = EnhancedDep {
                    head: string_of(slice_subrange(piece, 0, at)),
                    rel: string_of(slice_subrange(piece, at + 1, end)),
                };
                entries.push(entry);
            },
            None => {},
        }
        j += 1;
    }
    assert(all.take(j as int) =~= all);
    entries
}

/// The tokens that are drawn: all but the multiword markers, in order.
pub fn render_tokens(tokens: &[Token]) -> (shown: Vec<Token>)
    ensures
        shown.deep_view() == rendered(tokens.deep_view()),
{
    let ghost all = tokens.deep_view();
    let mut shown: Vec<Token> = Vec::new();
    let mut k: usize = 0;
    while k < tokens.len()
        invariant
            k <= tokens@.len(),
            all == tokens.deep_view(),
            shown.deep_view() == rendered(all.take(k as int)),
        decreases tokens@.len() - k,
    {
        let token = &tokens[k];
        proof {
            assert(all.take(k + 1) =~= all.take(k as int).push(token@));
            lemma_rendered_push(all.take(k as int), token@);
        }
        if !token.is_multiword {
            shown.push(token.clone());
        }
        k += 1;
    }
    assert(all.take(k as int) =~= all);
    shown
}

/// The mapping from ids to the positions that they name among the tokens.
fn index_ids(tokens: &[Token]) -> (index: StringHashMap<usize>)
    ensures
        indexes(index@, tokens.deep_view()),
{
    let ghost all = tokens.deep_view();
    let mut index: StringHashMap<usize> = StringHashMap::new();
    let mut k: usize = 0;
    while k < tokens.len()
        invariant
            k <= tokens@.len(),
            all == tokens.deep_view(),
            indexes(index@, all.take(k as int)),
        decreases tokens@.len() - k,
    {
        index.insert(tokens[k].id.clone(), k);
        assert(all.take(k + 1).drop_last() =~= all.take(k as int));
        k += 1;
    }
    assert(all.take(k as int) =~= all);
    index
}

/// Adds the root markers and the arc candidates of the token at position
/// `i` to those of the tokens before it.
fn extract_token(
    tokens: &[Token],
    index: &StringHashMap<usize>,
    i: usize,
    roots: &mut Vec<Root>,
    cands: &mut Vec<ArcCandidate>,
)
    requires
        i < tokens@.len(),
        indexes(index@, tokens.deep_view()),
    ensures
        final(roots).deep_view() == old(roots).deep_view() + token_roots(tokens.deep_view(), i as int),
        final(cands).deep_view() == old(cands).deep_view() + token_arcs(tokens.deep_view(), i as int),
{
    let ghost all = tokens.deep_view();
    let ghost roots_before = roots.deep_view();
    let ghost cands_before = cands.deep_view();
    let token = &tokens[i];
    let ghost t = token@;
    let head = chars_of(token.head.as_str());
    let head_is_root = is_char(head.as_slice(), '0');
    if head_is_root {
        let root = Root { idx: i, dep_id: token.id.clone(), label: token.deprel.clone() };
        roots.push(root);
    }
    let deps = parse_enhanced_deps(token.deps.as_str());
    let ghost entries = deps.deep_view();
    let mut j: usize = 0;
    while j < deps.len()
        invariant
            j <= deps@.len(),
            i < tokens@.len(),
            all == tokens.deep_view(),
            t == tokens@[i as int]@,
            all[i as int] == t,
            token == &tokens@[i as int],
            entries == deps.deep_view(),
            indexes(index@, all),
            roots.deep_view() == roots_before + basic_root(t, i as int) + enhanced_roots(
                t,
                i as int,
                entries.take(j as int),
            ),
            cands.deep_view() == cands_before + enhanced_arcs(all, i as int, entries.take(j as int)),
        decreases deps@.len() - j,
    {
        let dep = &deps[j];
        let ghost d = dep@;
        proof {
            assert(entries.take(j + 1) =~= entries.take(j as int).push(d));
            lemma_enhanced_roots_push(t, i as int, entries.take(j as int), d);
            lemma_enhanced_arcs_push(all, i as int, entries.take(j as int), d);
        }
        if !(dep.head == token.head && dep.rel == token.deprel) {
            let governor = chars_of(dep.head.as_str());
            if is_char(governor.as_slice(), '0') {
                let root = Root { idx: i, dep_id: token.id.clone(), label: dep.rel.clone() };
                let ghost before = *roots;
                roots.push(root);
                proof {
                    lemma_deep_view_push(before, *roots, root);
                }
            } else {
                match index.get(dep.head.as_str()) {
                    Some(at) => {
                        let cand = ArcCandidate {
                            head_idx: *at,
                            dep_idx: i,
                            dep_id: token.id.clone(),
                            label: dep.rel.clone(),
                            is_enhanced: true,
                        };
                        let ghost before = *cands;
                        cands.push(cand);
                        proof {
                            lemma_deep_view_push(before, *cands, cand);
                        }
                    },
                    None => {},
                }
            }
        }
        j += 1;
    }
    assert(entries.take(j as int) =~= entries);
    if !head_is_root && !is_char(head.as_slice(), '_') {
        match index.get(token.head.as_str()) {
            Some(at) => {
                let cand = ArcCandidate {
                    head_idx: *at,
                    dep_idx: i,
                    dep_id: token.id.clone(),
                    label: token.deprel.clone(),
                    is_enhanced: false,
                };
                let ghost before = *cands;
                cands.push(cand);
                proof {
                    lemma_deep_view_push(before, *cands, cand);
                }
            },
            None => {},
        }
    }
}

/// The root markers and the arc candidates of a sentence with the given
/// rendered tokens.
pub fn extract_relations(tokens: &[Token]) -> (r: (Vec<Root>, Vec<ArcCandidate>))
    ensures
        r.0.deep_view() == sentence_roots(tokens.deep_view()),
        r.1.deep_view() == sentence_candidates(tokens.deep_view()),
{
    let index = index_ids(tokens);
    let mut roots: Vec<Root> = Vec::new();
    let mut cands: Vec<ArcCandidate> = Vec::new();
    let mut i: usize = 0;
    while i < tokens.len()
        invariant
            i <= tokens@.len(),
            indexes(index@, tokens.deep_view()),
            roots.deep_view() == roots_upto(tokens.deep_view(), i as int),
            cands.deep_view() == arcs_upto(tokens.deep_view(), i as int),
        decreases tokens@.len() - i,
    {
        extract_token(tokens, &index, i, &mut roots, &mut cands);
        i += 1;
    }
    (roots, cands)
}

/// The sentence that a block with the given metadata and rows describes.
pub fn build_sentence(metadata: &Metadata, tokens: &[Token]) -> (sentence: Sentence)
    ensures
        sentence@ == sentence_of(metadata@, tokens.deep_view()),
        well_formed(sentence@),
{
    proof {
        lemma_sentence_well_formed(metadata@, tokens.deep_view());
    }
    let shown = render_tokens(tokens);
    let rows = shown.as_slice();
    let (roots, cands) = extract_relations(rows);
    let spans = cands.as_slice();
    let arcs = assign_levels(spans);
    Sentence {
        sent_id: metadata.value_or_empty("sent_id"),
        text: metadata.value_or_empty("text"),
        tokens: shown,
        arcs,
        roots,
    }
}

} // verus!
