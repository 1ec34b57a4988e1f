//! The morphological analyzer, reached through the vibrato crate.
//!
//! Tokenization itself depends on the dictionary's contents, which this library
//! does not model: the items here promise nothing about which tokens come back.

use vstd::prelude::*;
use vibrato::{Dictionary, Tokenizer};
use vibrato::errors::VibratoError;
use vibrato::tokenizer::worker::Worker;

verus! {

#[verifier::external_type_specification]
#[verifier::external_body]
pub struct ExDictionary(Dictionary);

#[verifier::external_type_specification]
#[verifier::external_body]
pub struct ExTokenizer(Tokenizer);

#[verifier::external_type_specification]
#[verifier::external_body]
pub struct ExVibratoError(VibratoError);

#[verifier::external_type_specification]
#[verifier::external_body]
pub struct ExWorker<'t>(Worker<'t>);

/// One token of an analyzed text: its literal text and its feature string.
#[derive(Debug, Clone, PartialEq, Eq)]
pub struct Token {
    pub surface: String,
    pub feature: String,
}

/// The surface and feature texts of each token.
pub open spec fn token_pairs(tokens: Seq<Token>) -> Seq<(Seq<char>, Seq<char>)> {
    tokens.map_values(|k: Token| (k.surface@, k.feature@))
}

/// The tokens, as surface and feature texts in text order, that tokenizer `t` gives for
/// `text`; `None` where the analysis does not complete (no path through the lattice, or a
/// path cost out of range).
pub uninterp spec fn analysis_of(t: Tokenizer, text: Seq<char>) -> Option<Seq<(Seq<char>, Seq<char>)>>;

/// The id of the SPACE character category of dictionary `d`, if it defines one.
pub uninterp spec fn space_category(d: Dictionary) -> Option<nat>;

/// The tokenizer built over dictionary `d`, skipping spaces or not.
pub uninterp spec fn space_option_tokenizer(d: Dictionary, yes: bool) -> Tokenizer;

/// Tokenizer `t` with unknown words grouped up to `len` characters.
pub uninterp spec fn grouping_tokenizer(t: Tokenizer, len: usize) -> Tokenizer;

/// One worker's tokenization state, bound to the tokenizer it was made from.
pub struct Session<'t> {
    tokenizer: &'t Tokenizer,
    worker: Worker<'t>,
}

impl<'t> Session<'t> {
    /// The tokenizer this session analyzes with.
    pub closed spec fn analyzer(&self) -> Tokenizer {
        *self.tokenizer
    }
}

/// Relies on vibrato::Tokenizer::new and vibrato::Tokenizer::ignore_space: skipping spaces
/// fails exactly when the dictionary defines no SPACE category; not skipping never fails.
/// The category id is shifted into a `u32` set, so it must be below 32.
#[verifier::external_body]
pub(crate) fn tokenizer_with_space_option(dict: Dictionary, yes: bool) -> (r: Result<Tokenizer, VibratoError>)
    requires
        yes ==> (space_category(dict) is None || space_category(dict)->0 < 32),
    ensures
        r is Ok <==> (!yes || space_category(dict) is Some),
        r is Ok ==> r->Ok_0 == space_option_tokenizer(dict, yes),
{
    Tokenizer::new(dict).ignore_space(yes)
}

/// Relies on vibrato::Tokenizer::max_grouping_len: bounds the grouping of unknown words.
#[verifier::external_body]
pub(crate) fn tokenizer_max_grouping_len(t: Tokenizer, len: usize) -> (r: Tokenizer)
    ensures
        r == grouping_tokenizer(t, len),
{
    t.max_grouping_len(len)
}

/// Relies on vibrato::Tokenizer::new_worker: a fresh session of `t` with its own scratch
/// state.
#[verifier::external_body]
pub(crate) fn new_session(t: &Tokenizer) -> (r: Session<'_>)
    ensures
        r.analyzer() == *t,
{
    Session { tokenizer: t, worker: t.new_worker() }
}

/// Relies on vibrato::tokenizer::worker::Worker's reset_sentence, tokenize and token_iter,
/// with vibrato::token::Token's surface and feature: the tokens of `text`, which depend on
/// the tokenizer and the text alone. It panics where the analysis does not complete.
#[verifier::external_body]
pub(crate) fn analyze(s: &mut Session<'_>, text: &str) -> (r: Vec<Token>)
    requires
        analysis_of(old(s).analyzer(), text@) is Some,
    ensures
        final(s).analyzer() == old(s).analyzer(),
        token_pairs(r@) == analysis_of(old(s).analyzer(), text@)->0,
{
    s.worker.reset_sentence(text);
    s.worker.tokenize();
    s.worker.token_iter()
        .map(|t| Token { surface: t.surface().to_string(), feature: t.feature().to_string() })
        .collect()
}

} // verus!
