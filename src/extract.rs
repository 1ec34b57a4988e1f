//! The worker's job: analyze each document of a chunk and keep the surfaces of the
//! tokens whose feature string carries a category marker.

use vstd::prelude::*;
use vibrato::{Dictionary, Tokenizer};
use crate::analyzer::{
    Token, analysis_of, analyze, grouping_tokenizer, new_session, space_category,
    space_option_tokenizer, token_pairs,
    tokenizer_max_grouping_len, tokenizer_with_space_option,
};
use crate::error::PipelineError;
use crate::frequency::texts;
use crate::merge::lemma_merge_order_irrelevant;
use crate::text::{chars_of, contains_chars, contains_seq};

verus! {

/// The feature-string marker of a proper noun in IPADIC-style dictionaries.
pub const PROPER_NOUN_MARKER: &'static str = ",固有名詞";

/// The longest run of unknown characters grouped into one token.
pub const MAX_GROUPING_LEN: usize = 24;

/// Whether a token is kept: its feature string contains the marker.
pub open spec fn is_selected(t: Token, marker: Seq<char>) -> bool {
    contains_seq(t.feature@, marker)
}

/// The surfaces of the kept tokens, in token order.
pub open spec fn selected_surfaces(tokens: Seq<Token>, marker: Seq<char>) -> Seq<String>
    decreases tokens.len(),
{
    if tokens.len() == 0 {
        Seq::empty()
    } else {
        let rest = selected_surfaces(tokens.drop_last(), marker);
        if is_selected(tokens.last(), marker) {
            rest.push(tokens.last().surface)
        } else {
            rest
        }
    }
}

/// What a worker emits for the token lists of its documents, document after document.
pub open spec fn chunk_output(docs: Seq<Seq<Token>>, marker: Seq<char>) -> Seq<String>
    decreases docs.len(),
{
    if docs.len() == 0 {
        Seq::empty()
    } else {
        chunk_output(docs.drop_last(), marker) + selected_surfaces(docs.last(), marker)
    }
}

/// The token lists held by a vector of token vectors.
pub open spec fn token_lists(docs: Seq<Vec<Token>>) -> Seq<Seq<Token>> {
    docs.map_values(|d: Vec<Token>| d@)
}

/// The surfaces of the tokens whose feature string contains `marker`, in order,
/// duplicates kept.
pub fn filter_tokens(tokens: &Vec<Token>, marker: &str) -> (r: Vec<String>)
    ensures
        r@ == selected_surfaces(tokens@, marker@),
{
    let m = chars_of(marker);
    let mut out: Vec<String> = Vec::new();
    for i in 0..tokens.len()
        invariant
            m@ == marker@,
            out@ == selected_surfaces(tokens@.take(i as int), marker@),
    {
        let f = chars_of(tokens[i].feature.as_str());
        if contains_chars(&f, &m) {
            out.push(tokens[i].surface.clone());
        }
        assert(tokens@.take(i + 1).drop_last() =~= tokens@.take(i as int));
    }
    assert(tokens@.take(tokens@.len() as int) =~= tokens@);
    out
}

/// The kept surfaces of a chunk whose documents have already been analyzed.
pub fn extract_chunk(tokenized: &Vec<Vec<Token>>, marker: &str) -> (r: Vec<String>)
    ensures
        r@ == chunk_output(token_lists(tokenized@), marker@),
{
    let mut out: Vec<String> = Vec::new();
    for i in 0..tokenized.len()
        invariant
            out@ == chunk_output(token_lists(tokenized@).take(i as int), marker@),
    {
        let mut found = filter_tokens(&tokenized[i], marker);
        out.append(&mut found);
        assert(token_lists(tokenized@).take(i + 1).drop_last()
            =~= token_lists(tokenized@).take(i as int));
    }
    assert(token_lists(tokenized@).take(tokenized@.len() as int) =~= token_lists(tokenized@));
    out
}

/// The surface texts of the pairs whose feature text contains `marker`, in order.
pub open spec fn kept_texts(pairs: Seq<(Seq<char>, Seq<char>)>, marker: Seq<char>) -> Seq<Seq<char>>
    decreases pairs.len(),
{
    if pairs.len() == 0 {
        Seq::empty()
    } else {
        let rest = kept_texts(pairs.drop_last(), marker);
        if contains_seq(pairs.last().1, marker) {
            rest.push(pairs.last().0)
        } else {
            rest
        }
    }
}

/// What tokenizer `t` extracts from `docs`: the kept surfaces of each document's analysis,
/// document after document.
pub open spec fn extracted(t: Tokenizer, docs: Seq<Seq<char>>, marker: Seq<char>) -> Seq<Seq<char>>
    decreases docs.len(),
{
    if docs.len() == 0 {
        Seq::empty()
    } else {
        extracted(t, docs.drop_last(), marker) + kept_texts(analysis_of(t, docs.last())->0, marker)
    }
}

proof fn lemma_selected_texts(tokens: Seq<Token>, marker: Seq<char>)
    ensures
        texts(selected_surfaces(tokens, marker)) == kept_texts(token_pairs(tokens), marker),
    decreases tokens.len(),
{
    if tokens.len() == 0 {
        assert(texts(selected_surfaces(tokens, marker)) =~= Seq::<Seq<char>>::empty());
    } else {
        lemma_selected_texts(tokens.drop_last(), marker);
        assert(token_pairs(tokens).drop_last() =~= token_pairs(tokens.drop_last()));
        let rest = selected_surfaces(tokens.drop_last(), marker);
        assert(texts(rest.push(tokens.last().surface)) =~= texts(rest).push(tokens.last().surface@));
    }
}

proof fn lemma_extracted_concat(t: Tokenizer, a: Seq<Seq<char>>, b: Seq<Seq<char>>, marker: Seq<char>)
    ensures
        extracted(t, a + b, marker) == extracted(t, a, marker) + extracted(t, b, marker),
    decreases b.len(),
{
    if b.len() == 0 {
        assert(a + b =~= a);
        assert(extracted(t, a, marker) + extracted(t, b, marker) =~= extracted(t, a, marker));
    } else {
        lemma_extracted_concat(t, a, b.drop_last(), marker);
        assert((a + b).drop_last() =~= a + b.drop_last());
        assert((a + b).last() == b.last());
        assert(extracted(t, a + b, marker) =~= extracted(t, a, marker) + extracted(t, b, marker));
    }
}

/// What tokenizer `t` extracts from each chunk.
pub open spec fn chunk_extractions(t: Tokenizer, chunks: Seq<Seq<Seq<char>>>, marker: Seq<char>) -> Seq<Seq<Seq<char>>> {
    chunks.map_values(|c: Seq<Seq<char>>| extracted(t, c, marker))
}

proof fn lemma_extracted_flatten(t: Tokenizer, chunks: Seq<Seq<Seq<char>>>, marker: Seq<char>)
    ensures
        extracted(t, chunks.flatten(), marker) == chunk_extractions(t, chunks, marker).flatten(),
    decreases chunks.len(),
{
    if chunks.len() == 0 {
        assert(chunk_extractions(t, chunks, marker).flatten() =~= Seq::<Seq<char>>::empty());
    } else {
        lemma_extracted_flatten(t, chunks.drop_first(), marker);
        lemma_extracted_concat(t, chunks.first(), chunks.drop_first().flatten(), marker);
        assert(chunk_extractions(t, chunks, marker).drop_first()
            =~= chunk_extractions(t, chunks.drop_first(), marker));
    }
}

/// A run is reproducible: however the documents are split into chunks, and in whatever
/// order the chunks' outputs arrive, the merged output holds the same tokens with the same
/// multiplicities, namely those that the tokenizer extracts from the whole document list.
pub proof fn lemma_run_output_determined(
    t: Tokenizer,
    marker: Seq<char>,
    docs: Seq<Seq<char>>,
    chunks: Seq<Seq<Seq<char>>>,
    arrived: Seq<Seq<Seq<char>>>,
)
    requires
        chunks.flatten() == docs,
        arrived.to_multiset() == chunk_extractions(t, chunks, marker).to_multiset(),
    ensures
        arrived.flatten().to_multiset() == extracted(t, docs, marker).to_multiset(),
{
    lemma_merge_order_irrelevant(arrived, chunk_extractions(t, chunks, marker));
    lemma_extracted_flatten(t, chunks, marker);
}

/// Every document of `docs` can be analyzed by `t`.
pub open spec fn all_analyzable(t: Tokenizer, docs: Seq<Seq<char>>) -> bool {
    forall|i: int| 0 <= i < docs.len() ==> (#[trigger] analysis_of(t, docs[i])) is Some
}

/// The tokenizer that a run uses for dictionary `d`.
pub open spec fn configured_tokenizer(d: Dictionary) -> Tokenizer {
    grouping_tokenizer(space_option_tokenizer(d, true), MAX_GROUPING_LEN)
}

/// Two runs over the same documents with the same dictionary extract the same tokens with
/// the same multiplicities, whatever their worker counts (and so their chunks) and however
/// their workers' outputs arrive; so they give the same frequency table.
pub proof fn lemma_runs_agree(
    d: Dictionary,
    marker: Seq<char>,
    docs: Seq<Seq<char>>,
    chunks1: Seq<Seq<Seq<char>>>,
    arrived1: Seq<Seq<Seq<char>>>,
    chunks2: Seq<Seq<Seq<char>>>,
    arrived2: Seq<Seq<Seq<char>>>,
)
    requires
        chunks1.flatten() == docs,
        chunks2.flatten() == docs,
        arrived1.to_multiset() == chunk_extractions(configured_tokenizer(d), chunks1, marker).to_multiset(),
        arrived2.to_multiset() == chunk_extractions(configured_tokenizer(d), chunks2, marker).to_multiset(),
    ensures
        arrived1.flatten().to_multiset() == arrived2.flatten().to_multiset(),
{
    lemma_run_output_determined(configured_tokenizer(d), marker, docs, chunks1, arrived1);
    lemma_run_output_determined(configured_tokenizer(d), marker, docs, chunks2, arrived2);
}

proof fn lemma_chunk_output_texts(t: Tokenizer, docs: Seq<Seq<Token>>, strs: Seq<Seq<char>>, marker: Seq<char>)
    requires
        docs.len() == strs.len(),
        forall|i: int| 0 <= i < docs.len() ==> token_pairs(#[trigger] docs[i]) == analysis_of(t, strs[i])->0,
    ensures
        texts(chunk_output(docs, marker)) == extracted(t, strs, marker),
    decreases docs.len(),
{
    if docs.len() == 0 {
        assert(texts(chunk_output(docs, marker)) =~= Seq::<Seq<char>>::empty());
    } else {
        lemma_chunk_output_texts(t, docs.drop_last(), strs.drop_last(), marker);
        lemma_selected_texts(docs.last(), marker);
        assert(token_pairs(docs[docs.len() - 1]) == analysis_of(t, strs[docs.len() - 1])->0);
        let a = chunk_output(docs.drop_last(), marker);
        let b = selected_surfaces(docs.last(), marker);
        assert(texts(a + b) =~= texts(a) + texts(b));
    }
}

/// Analyzes the documents of a chunk in order with one session of its own, and emits the
/// surfaces of the tokens whose feature contains `marker`, document after document.
pub fn run_chunk(tokenizer: &Tokenizer, chunk: &Vec<String>, marker: &str) -> (r: Vec<String>)
    requires
        all_analyzable(*tokenizer, texts(chunk@)),
    ensures
        texts(r@) == extracted(*tokenizer, texts(chunk@), marker@),
{
    let mut session = new_session(tokenizer);
    let mut tokenized: Vec<Vec<Token>> = Vec::new();
    let ghost docs = texts(chunk@);
    for i in 0..chunk.len()
        invariant
            docs == texts(chunk@),
            all_analyzable(*tokenizer, docs),
            session.analyzer() == *tokenizer,
            tokenized@.len() == i,
            forall|j: int| 0 <= j < i
                ==> token_pairs(#[trigger] token_lists(tokenized@)[j]) == analysis_of(*tokenizer, docs[j])->0,
    {
        assert(docs[i as int] == chunk@[i as int]@);
        let tokens = analyze(&mut session, chunk[i].as_str());
        let ghost before = tokenized@;
        tokenized.push(tokens);
        assert forall|j: int| 0 <= j < i + 1 implies token_pairs(#[trigger] token_lists(tokenized@)[j])
            == analysis_of(*tokenizer, docs[j])->0 by {
            if j < i {
                assert(token_lists(tokenized@)[j] == token_lists(before)[j]);
            } else {
                assert(token_lists(tokenized@)[j] == tokens@);
            }
        }
    }
    proof {
        lemma_chunk_output_texts(*tokenizer, token_lists(tokenized@), docs, marker@);
    }
    extract_chunk(&tokenized, marker)
}

/// Builds the shared tokenizer: spaces are skipped and unknown words are grouped up to
/// `MAX_GROUPING_LEN` characters. A dictionary without a space category is refused.
pub fn make_tokenizer(dict: Dictionary) -> (r: Result<Tokenizer, PipelineError>)
    requires
        space_category(dict) is None || space_category(dict)->0 < 32,
    ensures
        r is Ok <==> space_category(dict) is Some,
        r is Err ==> r == Err::<Tokenizer, PipelineError>(PipelineError::Resource),
        r is Ok ==> r->Ok_0 == configured_tokenizer(dict),
{
    match tokenizer_with_space_option(dict, true) {
        Ok(t) => Ok(tokenizer_max_grouping_len(t, MAX_GROUPING_LEN)),
        Err(_) => Err(PipelineError::Resource),
    }
}

} // verus!
