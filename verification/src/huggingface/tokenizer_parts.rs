//! What a tokenizer is made of, as far as it decides which texts and tokens it can take.

use tokenizers::decoders::DecoderWrapper;
use tokenizers::models::ModelWrapper;
use tokenizers::normalizers::replace::{Replace, ReplacePattern};
use tokenizers::normalizers::NormalizerWrapper;
use tokenizers::pre_tokenizers::split::SplitPattern;
use tokenizers::pre_tokenizers::PreTokenizerWrapper;
use tokenizers::processors::template::{Piece, Sequence, TemplateProcessing};
use tokenizers::processors::PostProcessorWrapper;
use tokenizers::{Decoder, PaddingStrategy, PostProcessor, Tokenizer};
use vstd::prelude::*;

verus! {

/// A tokenizer of the `tokenizers` crate.
#[verifier::external_type_specification]
#[verifier::external_body]
pub struct ExTokenizer(Tokenizer);

/// A normalizer of the `tokenizers` crate.
#[verifier::external_type_specification]
#[verifier::external_body]
pub struct ExNormalizerWrapper(NormalizerWrapper);

/// A replacement of the `tokenizers` crate, which is a normalizer or a decoder.
#[verifier::external_type_specification]
#[verifier::external_body]
pub struct ExReplace(Replace);

/// A pre-tokenizer of the `tokenizers` crate.
#[verifier::external_type_specification]
#[verifier::external_body]
pub struct ExPreTokenizerWrapper(PreTokenizerWrapper);

/// A post-processor of the `tokenizers` crate.
#[verifier::external_type_specification]
#[verifier::external_body]
pub struct ExPostProcessorWrapper(PostProcessorWrapper);

/// A template of the `tokenizers` crate, which is a post-processor.
#[verifier::external_type_specification]
#[verifier::external_body]
pub struct ExTemplateProcessing(TemplateProcessing);

/// A decoder of the `tokenizers` crate.
#[verifier::external_type_specification]
#[verifier::external_body]
pub struct ExDecoderWrapper(DecoderWrapper);

/// The greatest length and the stride that `Tokenizer::get_truncation` returns, where the tokenizer
/// truncates.
pub uninterp spec fn tokenizer_truncation(tokenizer: Tokenizer) -> Option<(usize, usize)>;

/// The fixed length, where there is one, and the number to round up to a multiple of, where there
/// is one, that `Tokenizer::get_padding` returns, where the tokenizer pads.
pub uninterp spec fn tokenizer_padding(tokenizer: Tokenizer) -> Option<
    (Option<usize>, Option<usize>),
>;

/// What `PostProcessor::added_tokens` returns for one text, where the tokenizer has a
/// post-processor.
pub uninterp spec fn tokenizer_added_tokens(tokenizer: Tokenizer) -> Option<usize>;

/// The tokens that `AddedVocabulary::get_added_tokens_decoder` returns, by identifier.
pub uninterp spec fn tokenizer_added(tokenizer: Tokenizer) -> Map<u32, AddedModel>;

/// Whether `Tokenizer::get_model` returns a model that draws its segmentation at random from a
/// lattice.
pub uninterp spec fn tokenizer_samples(tokenizer: Tokenizer) -> bool;

/// What `Tokenizer::get_normalizer` returns.
pub uninterp spec fn tokenizer_normalizer(tokenizer: Tokenizer) -> Option<NormalizerWrapper>;

/// What `Tokenizer::get_pre_tokenizer` returns.
pub uninterp spec fn tokenizer_pre_tokenizer(tokenizer: Tokenizer) -> Option<PreTokenizerWrapper>;

/// What `Tokenizer::get_post_processor` returns.
pub uninterp spec fn tokenizer_processor(tokenizer: Tokenizer) -> Option<PostProcessorWrapper>;

/// What `Tokenizer::get_decoder` returns.
pub uninterp spec fn tokenizer_decoder(tokenizer: Tokenizer) -> Option<DecoderWrapper>;

/// What a normalizer is.
pub uninterp spec fn normalizer_model(normalizer: NormalizerWrapper) -> NormalizerModel;

/// The pattern of a replacement, where it can be read, and what it puts in its place.
pub uninterp spec fn replace_model(replace: Replace) -> (Option<PatternModel>, Seq<char>);

/// What a pre-tokenizer is.
pub uninterp spec fn pre_tokenizer_model(pre_tokenizer: PreTokenizerWrapper) -> PreTokenizerModel;

/// What a post-processor is.
pub uninterp spec fn processor_model(processor: PostProcessorWrapper) -> ProcessorModel;

/// The pieces of a template for one text, or for two, where they can be read.
pub uninterp spec fn template_model(template: TemplateProcessing, two: bool) -> Option<
    Seq<PieceModel>,
>;

/// Whether a special token is among those that `TemplateProcessing::get_special_tokens` returns.
pub uninterp spec fn template_knows(template: TemplateProcessing, id: Seq<char>) -> bool;

/// What a decoder is.
pub uninterp spec fn decoder_model(decoder: DecoderWrapper) -> DecoderModel;

/// What `Decoder::decode_chain` returns for some tokens: tokens, or the message of its error.
pub uninterp spec fn decoder_step(decoder: DecoderWrapper, tokens: Seq<Seq<char>>) -> Result<
    Seq<Seq<char>>,
    Seq<char>,
>;

/// What `Tokenizer::id_to_token` returns for an identifier.
pub uninterp spec fn tokenizer_token(tokenizer: Tokenizer, id: u32) -> Option<Seq<char>>;

/// What `AddedVocabulary::is_special_token` returns for a token of the tokenizer.
pub uninterp spec fn tokenizer_special(tokenizer: Tokenizer, token: Seq<char>) -> bool;

/// Whether `str::trim` leaves nothing of a text.
pub uninterp spec fn blank(text: Seq<char>) -> bool;

/// A token that was added to the vocabulary of a model.
#[derive(Debug)]
pub struct AddedPart {
    pub content: String,
    /// It takes the white space before it along.
    pub lstrip: bool,
    /// It takes the white space behind it along.
    pub rstrip: bool,
    /// It is looked for in normalized text, as it is when normalized.
    pub normalized: bool,
}

/// A token that was added to the vocabulary of a model, over mathematical sequences.
#[verifier::ext_equal]
pub struct AddedModel {
    pub content: Seq<char>,
    pub lstrip: bool,
    pub rstrip: bool,
    pub normalized: bool,
}

impl View for AddedPart {
    type V = AddedModel;

    open spec fn view(&self) -> AddedModel {
        AddedModel {
            content: self.content@,
            lstrip: self.lstrip,
            rstrip: self.rstrip,
            normalized: self.normalized,
        }
    }
}

/// What is looked for in a text: the text itself, or what a regular expression matches.
#[derive(Debug)]
pub struct Pattern {
    pub regex: bool,
    pub text: String,
}

/// A pattern, over mathematical sequences.
#[verifier::ext_equal]
pub struct PatternModel {
    pub regex: bool,
    pub text: Seq<char>,
}

impl View for Pattern {
    type V = PatternModel;

    open spec fn view(&self) -> PatternModel {
        PatternModel { regex: self.regex, text: self.text@ }
    }
}

/// A normalizer.
pub enum NormalizerPart<'a> {
    /// One that rewrites a text character by character.
    Rewriting,
    /// One that puts a text in front.
    Prepending(&'a str),
    /// One that replaces what a pattern matches.
    Replacing(&'a Replace),
    /// One that rewrites by a table of its own.
    Precompiled,
    /// A sequence of normalizers.
    Nested(&'a [NormalizerWrapper]),
}

/// A normalizer, over mathematical sequences.
#[verifier::ext_equal]
pub enum NormalizerModel {
    Rewriting,
    Prepending(Seq<char>),
    Replacing(Replace),
    Precompiled,
    Nested(Seq<NormalizerWrapper>),
}

impl<'a> View for NormalizerPart<'a> {
    type V = NormalizerModel;

    open spec fn view(&self) -> NormalizerModel {
        match self {
            NormalizerPart::Rewriting => NormalizerModel::Rewriting,
            NormalizerPart::Prepending(text) => NormalizerModel::Prepending(text@),
            NormalizerPart::Replacing(replace) => NormalizerModel::Replacing(**replace),
            NormalizerPart::Precompiled => NormalizerModel::Precompiled,
            NormalizerPart::Nested(members) => NormalizerModel::Nested(members@),
        }
    }
}

/// A pre-tokenizer.
pub enum PreTokenizerPart<'a> {
    /// One that rewrites each part byte by byte.
    ByteLevel,
    /// One that cuts parts of a fixed length.
    FixedLength(usize),
    /// One that splits where a pattern matches.
    Splitting(Pattern),
    /// A sequence of pre-tokenizers.
    Nested(&'a [PreTokenizerWrapper]),
    /// One that splits at characters of its own choice.
    Other,
}

/// A pre-tokenizer, over mathematical sequences.
#[verifier::ext_equal]
pub enum PreTokenizerModel {
    ByteLevel,
    FixedLength(usize),
    Splitting(PatternModel),
    Nested(Seq<PreTokenizerWrapper>),
    Other,
}

impl<'a> View for PreTokenizerPart<'a> {
    type V = PreTokenizerModel;

    open spec fn view(&self) -> PreTokenizerModel {
        match self {
            PreTokenizerPart::ByteLevel => PreTokenizerModel::ByteLevel,
            PreTokenizerPart::FixedLength(length) => PreTokenizerModel::FixedLength(*length),
            PreTokenizerPart::Splitting(pattern) => PreTokenizerModel::Splitting(pattern@),
            PreTokenizerPart::Nested(members) => PreTokenizerModel::Nested(members@),
            PreTokenizerPart::Other => PreTokenizerModel::Other,
        }
    }
}

/// A post-processor.
pub enum ProcessorPart<'a> {
    /// One that arranges texts and special tokens.
    Template(&'a TemplateProcessing),
    /// A sequence of post-processors.
    Nested(&'a [PostProcessorWrapper]),
    /// One that leaves as many encodings as it is given.
    Other,
}

/// A post-processor, over mathematical sequences.
#[verifier::ext_equal]
pub enum ProcessorModel {
    Template(TemplateProcessing),
    Nested(Seq<PostProcessorWrapper>),
    Other,
}

impl<'a> View for ProcessorPart<'a> {
    type V = ProcessorModel;

    open spec fn view(&self) -> ProcessorModel {
        match self {
            ProcessorPart::Template(template) => ProcessorModel::Template(**template),
            ProcessorPart::Nested(members) => ProcessorModel::Nested(members@),
            ProcessorPart::Other => ProcessorModel::Other,
        }
    }
}

/// A piece of a template.
#[derive(Debug)]
pub enum PiecePart {
    /// The first text.
    First,
    /// The second text.
    Second,
    /// A special token.
    Special(String),
}

/// A piece of a template, over mathematical sequences.
#[verifier::ext_equal]
pub enum PieceModel {
    First,
    Second,
    Special(Seq<char>),
}

impl View for PiecePart {
    type V = PieceModel;

    open spec fn view(&self) -> PieceModel {
        match self {
            PiecePart::First => PieceModel::First,
            PiecePart::Second => PieceModel::Second,
            PiecePart::Special(id) => PieceModel::Special(id@),
        }
    }
}

/// Pieces, over mathematical sequences.
pub open spec fn piece_models(pieces: Seq<PiecePart>) -> Seq<PieceModel> {
    Seq::new(pieces.len(), |i: int| pieces[i]@)
}

/// A decoder.
pub enum DecoderPart<'a> {
    /// One that treats the last token in its own way.
    Bpe,
    /// One that strips up to `start` and `stop` of a character from the ends of each token.
    Stripping { content: char, start: usize, stop: usize },
    /// One that replaces what a pattern matches.
    Replacing(&'a Replace),
    /// A sequence of decoders.
    Nested(&'a [DecoderWrapper]),
    /// One that takes any tokens.
    Other,
}

/// A decoder, over mathematical sequences.
#[verifier::ext_equal]
pub enum DecoderModel {
    Bpe,
    Stripping { content: char, start: usize, stop: usize },
    Replacing(Replace),
    Nested(Seq<DecoderWrapper>),
    Other,
}

impl<'a> View for DecoderPart<'a> {
    type V = DecoderModel;

    open spec fn view(&self) -> DecoderModel {
        match self {
            DecoderPart::Bpe => DecoderModel::Bpe,
            DecoderPart::Stripping { content, start, stop } => DecoderModel::Stripping {
                content: *content,
                start: *start,
                stop: *stop,
            },
            DecoderPart::Replacing(replace) => DecoderModel::Replacing(**replace),
            DecoderPart::Nested(members) => DecoderModel::Nested(members@),
            DecoderPart::Other => DecoderModel::Other,
        }
    }
}

/// Texts, over mathematical sequences.
pub open spec fn texts(list: Seq<String>) -> Seq<Seq<char>> {
    Seq::new(list.len(), |i: int| list[i]@)
}

/// Tokens or a message, over mathematical sequences.
pub open spec fn outcome_texts(outcome: Result<Vec<String>, String>) -> Result<
    Seq<Seq<char>>,
    Seq<char>,
> {
    match outcome {
        Ok(list) => Ok(texts(list@)),
        Err(message) => Err(message@),
    }
}

/// Calls `Tokenizer::get_truncation` and takes the greatest length and the stride out of what it
/// returns.
#[verifier::external_body]
pub(crate) fn truncation(tokenizer: &Tokenizer) -> (limits: Option<(usize, usize)>)
    ensures
        limits == tokenizer_truncation(*tokenizer),
{
    match tokenizer.get_truncation() {
        Some(limits) => Some((limits.max_length, limits.stride)),
        None => None,
    }
}

/// Calls `Tokenizer::get_padding` and takes the lengths out of what it returns.
#[verifier::external_body]
pub(crate) fn padding(tokenizer: &Tokenizer) -> (lengths: Option<(Option<usize>, Option<usize>)>)
    ensures
        lengths == tokenizer_padding(*tokenizer),
{
    let params = tokenizer.get_padding()?;
    let fixed = match params.strategy {
        PaddingStrategy::Fixed(length) => Some(length),
        PaddingStrategy::BatchLongest => None,
    };
    Some((fixed, params.pad_to_multiple_of))
}

/// Calls `PostProcessor::added_tokens` for one text on what `Tokenizer::get_post_processor`
/// returns.
#[verifier::external_body]
pub(crate) fn added_tokens(tokenizer: &Tokenizer) -> (added: Option<usize>)
    ensures
        added == tokenizer_added_tokens(*tokenizer),
{
    match tokenizer.get_post_processor() {
        Some(processor) => Some(processor.added_tokens(false)),
        None => None,
    }
}

/// Entries that make up a map: each of its keys, with its value.
pub open spec fn added_entries(map: Map<u32, AddedModel>, entries: Seq<(u32, AddedPart)>) -> bool {
    &&& forall|i: int|
        0 <= i < entries.len() ==> map.contains_key((#[trigger] entries[i]).0)
            && map[entries[i].0] == entries[i].1@
    &&& forall|id: u32| #[trigger]
        map.contains_key(id) ==> exists|i: int|
            0 <= i < entries.len() && (#[trigger] entries[i]).0 == id
}

/// Calls `AddedVocabulary::get_added_tokens_decoder`. The map that it returns is walked in no
/// particular order.
#[verifier::external_body]
pub(crate) fn added_parts(tokenizer: &Tokenizer) -> (entries: Vec<(u32, AddedPart)>)
    ensures
        added_entries(tokenizer_added(*tokenizer), entries@),
{
    let part = |(id, token): (&u32, &tokenizers::AddedToken)| (*id, AddedPart {
        content: token.content.clone(),
        lstrip: token.lstrip,
        rstrip: token.rstrip,
        normalized: token.normalized,
    });
    tokenizer.get_added_vocabulary().get_added_tokens_decoder().iter().map(part).collect()
}

/// Calls `str::trim` and tells whether it leaves nothing.
#[verifier::external_body]
pub(crate) fn is_blank(text: &str) -> (nothing: bool)
    ensures
        nothing == blank(text@),
{
    text.trim().is_empty()
}

/// Calls `Tokenizer::get_model` and tells whether it is a `Unigram` model with a parameter for
/// sampling.
#[verifier::external_body]
pub(crate) fn samples(tokenizer: &Tokenizer) -> (random: bool)
    ensures
        random == tokenizer_samples(*tokenizer),
{
    match tokenizer.get_model() {
        ModelWrapper::Unigram(model) => model.alpha.is_some(),
        ModelWrapper::BPE(_) => false,
        ModelWrapper::WordPiece(_) => false,
        ModelWrapper::WordLevel(_) => false,
    }
}

/// Calls `Tokenizer::get_normalizer`.
#[verifier::external_body]
pub(crate) fn normalizer(tokenizer: &Tokenizer) -> (normalizer: Option<&NormalizerWrapper>)
    ensures
        match (normalizer, tokenizer_normalizer(*tokenizer)) {
            (Some(normalizer), Some(expected)) => *normalizer == expected,
            (None, None) => true,
            _ => false,
        },
{
    tokenizer.get_normalizer()
}

/// Tells the kinds of normalizers apart, and calls `Sequence::as_ref` of normalizers for the
/// members of a sequence.
#[verifier::external_body]
pub(crate) fn normalizer_part<'a>(normalizer: &'a NormalizerWrapper) -> (part: NormalizerPart<'a>)
    ensures
        part@ == normalizer_model(*normalizer),
{
    match normalizer {
        NormalizerWrapper::Prepend(prepend) => NormalizerPart::Prepending(&prepend.prepend),
        NormalizerWrapper::Replace(replace) => NormalizerPart::Replacing(replace),
        NormalizerWrapper::Precompiled(_) => NormalizerPart::Precompiled,
        NormalizerWrapper::Sequence(members) => NormalizerPart::Nested(members.as_ref()),
        _ => NormalizerPart::Rewriting,
    }
}

/// Reads the pattern of a replacement off what `serde_json::to_value` writes of it, by
/// `serde_json::from_value`, and takes its content.
#[verifier::external_body]
pub(crate) fn replacement(replace: &Replace) -> (parts: (Option<Pattern>, String))
    ensures
        replace_model(*replace) == (
            match parts.0 {
                Some(pattern) => Some(pattern@),
                None => None,
            },
            parts.1@,
        ),
{
    let mut shown = serde_json::to_value(replace).unwrap_or_default();
    let pattern = match serde_json::from_value(shown["pattern"].take()) {
        Ok(ReplacePattern::String(text)) => Some(Pattern { regex: false, text }),
        Ok(ReplacePattern::Regex(text)) => Some(Pattern { regex: true, text }),
        Err(_) => None,
    };
    (pattern, replace.content.clone())
}

/// Calls `Tokenizer::get_pre_tokenizer`.
#[verifier::external_body]
pub(crate) fn pre_tokenizer(tokenizer: &Tokenizer) -> (pre_tokenizer: Option<&PreTokenizerWrapper>)
    ensures
        match (pre_tokenizer, tokenizer_pre_tokenizer(*tokenizer)) {
            (Some(pre_tokenizer), Some(expected)) => *pre_tokenizer == expected,
            (None, None) => true,
            _ => false,
        },
{
    tokenizer.get_pre_tokenizer()
}

/// Tells the kinds of pre-tokenizers apart, and calls `Sequence::as_ref` of pre-tokenizers for the
/// members of a sequence.
#[verifier::external_body]
pub(crate) fn pre_tokenizer_part<'a>(pre_tokenizer: &'a PreTokenizerWrapper) -> (part:
    PreTokenizerPart<'a>)
    ensures
        part@ == pre_tokenizer_model(*pre_tokenizer),
{
    match pre_tokenizer {
        PreTokenizerWrapper::ByteLevel(_) => PreTokenizerPart::ByteLevel,
        PreTokenizerWrapper::FixedLength(fixed) => PreTokenizerPart::FixedLength(fixed.length),
        PreTokenizerWrapper::Split(split) => PreTokenizerPart::Splitting(match &split.pattern {
            SplitPattern::String(text) => Pattern { regex: false, text: text.clone() },
            SplitPattern::Regex(text) => Pattern { regex: true, text: text.clone() },
        }),
        PreTokenizerWrapper::Sequence(members) => PreTokenizerPart::Nested(members.as_ref()),
        _ => PreTokenizerPart::Other,
    }
}

/// Calls `Tokenizer::get_post_processor`.
#[verifier::external_body]
pub(crate) fn processor(tokenizer: &Tokenizer) -> (processor: Option<&PostProcessorWrapper>)
    ensures
        match (processor, tokenizer_processor(*tokenizer)) {
            (Some(processor), Some(expected)) => *processor == expected,
            (None, None) => true,
            _ => false,
        },
{
    tokenizer.get_post_processor()
}

/// Tells the kinds of post-processors apart, and calls `Sequence::as_ref` of post-processors for the
/// members of a sequence.
#[verifier::external_body]
pub(crate) fn processor_part<'a>(processor: &'a PostProcessorWrapper) -> (part: ProcessorPart<'a>)
    ensures
        part@ == processor_model(*processor),
{
    match processor {
        PostProcessorWrapper::Template(template) => ProcessorPart::Template(template),
        PostProcessorWrapper::Sequence(members) => ProcessorPart::Nested(members.as_ref()),
        PostProcessorWrapper::Bert(_) => ProcessorPart::Other,
        PostProcessorWrapper::Roberta(_) => ProcessorPart::Other,
        PostProcessorWrapper::ByteLevel(_) => ProcessorPart::Other,
    }
}

/// Reads the pieces of a template off what `serde_json::to_value` writes of its `single`, or of what
/// `TemplateProcessing::get_pair` returns, by `serde_json::from_value`.
#[verifier::external_body]
pub(crate) fn template_pieces(template: &TemplateProcessing, two: bool) -> (pieces: Option<
    Vec<PiecePart>,
>)
    ensures
        template_model(*template, two) == match pieces {
            Some(pieces) => Some(piece_models(pieces@)),
            None => None,
        },
{
    let arranged = if two { template.get_pair() } else { &template.single };
    let shown = serde_json::to_value(arranged).ok()?;
    let pieces: Vec<Piece> = serde_json::from_value(shown).ok()?;
    let part = |piece: Piece| match piece {
        Piece::Sequence { id: Sequence::A, .. } => PiecePart::First,
        Piece::Sequence { id: Sequence::B, .. } => PiecePart::Second,
        Piece::SpecialToken { id, .. } => PiecePart::Special(id),
    };
    Some(pieces.into_iter().map(part).collect())
}

/// Looks a special token up in what `TemplateProcessing::get_special_tokens` returns.
#[verifier::external_body]
pub(crate) fn knows_token(template: &TemplateProcessing, id: &str) -> (known: bool)
    ensures
        known == template_knows(*template, id@),
{
    template.get_special_tokens().0.contains_key(id)
}

/// Calls `Tokenizer::get_decoder`.
#[verifier::external_body]
pub(crate) fn decoder(tokenizer: &Tokenizer) -> (decoder: Option<&DecoderWrapper>)
    ensures
        match (decoder, tokenizer_decoder(*tokenizer)) {
            (Some(decoder), Some(expected)) => *decoder == expected,
            (None, None) => true,
            _ => false,
        },
{
    tokenizer.get_decoder()
}

/// Tells the kinds of decoders apart, and calls `Sequence::get_decoders` for the members of a
/// sequence.
#[verifier::external_body]
pub(crate) fn decoder_part<'a>(decoder: &'a DecoderWrapper) -> (part: DecoderPart<'a>)
    ensures
        part@ == decoder_model(*decoder),
{
    match decoder {
        DecoderWrapper::BPE(_) => DecoderPart::Bpe,
        DecoderWrapper::Strip(strip) => DecoderPart::Stripping {
            content: strip.content,
            start: strip.start,
            stop: strip.stop,
        },
        DecoderWrapper::Replace(replace) => DecoderPart::Replacing(replace),
        DecoderWrapper::Sequence(members) => DecoderPart::Nested(members.get_decoders()),
        _ => DecoderPart::Other,
    }
}

/// The number of times that `content` stands at the beginning of a token.
pub open spec fn leading_run(token: Seq<char>, content: char) -> nat
    decreases token.len(),
{
    if token.len() > 0 && token.first() == content {
        1 + leading_run(token.drop_first(), content)
    } else {
        0
    }
}

/// The number of times that `content` stands at the end of a token.
pub open spec fn trailing_run(token: Seq<char>, content: char) -> nat
    decreases token.len(),
{
    if token.len() > 0 && token.last() == content {
        1 + trailing_run(token.drop_last(), content)
    } else {
        0
    }
}

/// The lesser of two numbers.
pub open spec fn lesser(a: int, b: int) -> int {
    if a <= b {
        a
    } else {
        b
    }
}

/// Stripping a token stays within it: it does not look for more than there is, and what is taken
/// from one end does not overlap with what is taken from the other.
pub open spec fn strips_within(token: Seq<char>, content: char, start: usize, stop: usize) -> bool {
    let leading = leading_run(token, content) as int;
    let trailing = trailing_run(token, content) as int;
    &&& trailing < token.len() || stop <= token.len()
    &&& lesser(leading, start as int) + lesser(trailing, stop as int) <= token.len()
}

/// What sets where a match begins, in a regular expression: inside of what looks around, that may
/// be behind its end or before the last match.
pub const KEEP_OUT: &'static str = "\\K";

/// A pattern matches one place after the other.
pub open spec fn matches_forward(pattern: Option<PatternModel>) -> bool {
    pattern matches Some(pattern) && (pattern.regex ==> !crate::huggingface::chat::occurs(
        pattern.text,
        KEEP_OUT@,
    ))
}

/// A decoder that is no sequence takes tokens.
pub open spec fn takes_tokens(model: DecoderModel, tokens: Seq<Seq<char>>) -> bool {
    match model {
        DecoderModel::Bpe => tokens.len() > 0,
        DecoderModel::Stripping { content, start, stop } => forall|i: int|
            0 <= i < tokens.len() ==> strips_within(#[trigger] tokens[i], content, start, stop),
        DecoderModel::Replacing(replace) => matches_forward(replace_model(replace).0),
        DecoderModel::Nested(_) => false,
        DecoderModel::Other => true,
    }
}

/// Calls `Decoder::decode_chain`. What would run past the ends of tokens, or of an empty list of
/// them, would panic, and so would a pattern whose matches overlap; they are left out.
#[verifier::external_body]
pub(crate) fn decode_step(decoder: &DecoderWrapper, tokens: Vec<String>) -> (outcome: Result<
    Vec<String>,
    String,
>)
    requires
        takes_tokens(decoder_model(*decoder), texts(tokens@)),
    ensures
        outcome_texts(outcome) == decoder_step(*decoder, texts(tokens@)),
{
    match decoder.decode_chain(tokens) {
        Ok(tokens) => Ok(tokens),
        Err(error) => Err(error.to_string()),
    }
}

/// Calls `Tokenizer::id_to_token`.
#[verifier::external_body]
pub(crate) fn token_of(tokenizer: &Tokenizer, id: u32) -> (token: Option<String>)
    ensures
        match (token, tokenizer_token(*tokenizer, id)) {
            (Some(token), Some(expected)) => token@ == expected,
            (None, None) => true,
            _ => false,
        },
{
    tokenizer.id_to_token(id)
}

/// Calls `AddedVocabulary::is_special_token`.
#[verifier::external_body]
pub(crate) fn is_special(tokenizer: &Tokenizer, token: &str) -> (special: bool)
    ensures
        special == tokenizer_special(*tokenizer, token@),
{
    tokenizer.get_added_vocabulary().is_special_token(token)
}

} // verus!
