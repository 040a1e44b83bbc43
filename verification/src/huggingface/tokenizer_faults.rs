//! Which texts and tokens a tokenizer can take.
//!
//! A tokenizer comes from a file, and some that a file can hold would run past the end of a text or
//! a token. They are told apart here, before the tokenizer is asked.

use crate::huggingface::chat::contains_text;
use crate::huggingface::tokenizer_parts::{
    added_entries, added_parts, added_tokens, blank, decode_step, decoder, decoder_model,
    decoder_part, decoder_step, is_blank, is_special, knows_token, leading_run, matches_forward,
    normalizer, normalizer_model, normalizer_part, outcome_texts, padding, piece_models,
    pre_tokenizer, pre_tokenizer_model, pre_tokenizer_part, processor, processor_model,
    processor_part, replace_model, replacement, samples, strips_within, takes_tokens,
    template_knows, template_model, template_pieces, texts, token_of, tokenizer_added,
    tokenizer_added_tokens, tokenizer_decoder, tokenizer_normalizer, tokenizer_padding,
    tokenizer_pre_tokenizer, tokenizer_processor, tokenizer_samples, tokenizer_special,
    tokenizer_token, tokenizer_truncation, trailing_run, truncation, AddedModel, AddedPart,
    DecoderModel, DecoderPart, NormalizerModel, NormalizerPart, PatternModel, PieceModel,
    PiecePart, PreTokenizerModel, PreTokenizerPart, ProcessorModel, ProcessorPart, KEEP_OUT,
};
use tokenizers::decoders::DecoderWrapper;
use tokenizers::normalizers::NormalizerWrapper;
use tokenizers::pre_tokenizers::PreTokenizerWrapper;
use tokenizers::processors::template::TemplateProcessing;
use tokenizers::processors::PostProcessorWrapper;
use tokenizers::Tokenizer;
use vstd::prelude::*;

verus! {

/// How deep sequences may stand in sequences.
pub const NESTING: usize = 64;

/// The longest padding.
pub const LONGEST_PADDING: usize = 0x100_0000;

/// A part of a tokenizer that stands alone or is a sequence of such parts, and what it does to a
/// state that goes through the parts one after the other.
pub trait Stage: Sized {
    type State;

    type Model;

    /// A state, over mathematical values.
    spec fn model(state: Self::State) -> Self::Model;

    /// The members of a sequence; nothing for a part that stands alone.
    spec fn parts(self) -> Option<Seq<Self>>;

    /// The state after a part that stands alone; nothing where the part cannot take the state.
    spec fn step(self, before: Self::Model) -> Option<Self::Model>;

    fn members(&self) -> (members: Option<&[Self]>)
        ensures
            match (members, self.parts()) {
                (Some(members), Some(expected)) => members@ == expected,
                (None, None) => true,
                _ => false,
            },
    ;

    fn advance(&self, state: Self::State) -> (after: Option<Self::State>)
        requires
            self.parts() is None,
        ensures
            match (after, self.step(Self::model(state))) {
                (Some(after), Some(expected)) => Self::model(after) == expected,
                (None, None) => true,
                _ => false,
            },
    ;
}

/// The state after a part, its members one after the other; nothing where one of them cannot take
/// it, or where sequences stand too deep.
pub open spec fn walked<S: Stage>(part: S, before: S::Model, depth: nat) -> Option<S::Model>
    decreases depth, 0nat,
{
    match part.parts() {
        None => part.step(before),
        Some(members) => if depth == 0 {
            None
        } else {
            walked_all(members, members.len(), before, (depth - 1) as nat)
        },
    }
}

/// The state after the first `n` of some parts.
pub open spec fn walked_all<S: Stage>(
    parts: Seq<S>,
    n: nat,
    before: S::Model,
    depth: nat,
) -> Option<S::Model>
    decreases depth, n + 1,
{
    if n == 0 {
        Some(before)
    } else {
        match walked_all(parts, (n - 1) as nat, before, depth) {
            Some(between) => walked(parts[n - 1], between, depth),
            None => None,
        }
    }
}

proof fn lemma_stuck<S: Stage>(parts: Seq<S>, n: nat, all: nat, before: S::Model, depth: nat)
    requires
        n <= all,
        walked_all(parts, n, before, depth) is None,
    ensures
        walked_all(parts, all, before, depth) is None,
    decreases all,
{
    if n < all {
        lemma_stuck(parts, n, (all - 1) as nat, before, depth);
    }
}

/// Compute `walked`.
pub fn walk<S: Stage>(part: &S, state: S::State, depth: usize) -> (after: Option<S::State>)
    ensures
        match (after, walked(*part, S::model(state), depth as nat)) {
            (Some(after), Some(expected)) => S::model(after) == expected,
            (None, None) => true,
            _ => false,
        },
    decreases depth,
{
    let members = match part.members() {
        Some(members) => members,
        None => {
            return part.advance(state);
        },
    };
    if depth == 0 {
        return None;
    }
    let ghost before = S::model(state);
    let ghost inner = (depth - 1) as nat;
    let mut current = state;
    let mut i: usize = 0;
    while i < members.len()
        invariant
            i <= members@.len(),
            0 < depth,
            inner == depth - 1,
            part.parts() == Some(members@),
            before == S::model(state),
            walked_all(members@, i as nat, before, inner) == Some(S::model(current)),
        decreases members@.len() - i,
    {
        match walk(&members[i], current, depth - 1) {
            Some(after) => {
                current = after;
            },
            None => {
                proof {
                    lemma_stuck(members@, (i + 1) as nat, members@.len(), before, inner);
                }
                return None;
            },
        }
        i += 1;
    }
    Some(current)
}

/// A character that stands for itself in a regular expression.
pub open spec fn stands_for_itself(c: char) -> bool {
    c == ' ' || '0' <= c <= '9' || 'A' <= c <= 'Z' || 'a' <= c <= 'z' || '\u{7f}' < c
}

/// A letter that stands for a class of characters after a backslash.
pub open spec fn names_class(c: char) -> bool {
    c == 's' || c == 'S' || c == 'd' || c == 'D' || c == 'w' || c == 'W'
}

/// What stands at `i` of a regular expression leaves every part of it to be matched: it separates
/// no alternatives, looks around for nothing, and lets no part be absent.
pub open spec fn leaves_no_choice(pattern: Seq<char>, i: int) -> bool {
    &&& pattern[i] != '|' && pattern[i] != '?' && pattern[i] != '*'
    &&& pattern[i] == '{' ==> i + 1 < pattern.len() && '1' <= pattern[i + 1] <= '9'
}

/// A regular expression matches at least one character: it begins with one or a class of them, and
/// every part of it has to be matched.
pub open spec fn takes_characters(pattern: Seq<char>) -> bool {
    &&& pattern.len() > 0 && (stands_for_itself(pattern[0]) || (pattern[0] == '\\' && pattern.len()
        > 1 && names_class(pattern[1])))
    &&& forall|i: int| 0 <= i < pattern.len() ==> #[trigger] leaves_no_choice(pattern, i)
}

/// Compute `takes_characters`.
pub fn check_takes_characters(pattern: &str) -> (takes: bool)
    ensures
        takes == takes_characters(pattern@),
{
    let length: usize = pattern.unicode_len();
    if length == 0 {
        return false;
    }
    let first: char = pattern.get_char(0);
    let plain = first == ' ' || ('0' <= first && first <= '9') || ('A' <= first && first <= 'Z')
        || ('a' <= first && first <= 'z') || '\u{7f}' < first;
    let class = first == '\\' && length > 1 && {
        let name: char = pattern.get_char(1);
        name == 's' || name == 'S' || name == 'd' || name == 'D' || name == 'w' || name == 'W'
    };
    if !plain && !class {
        return false;
    }
    let mut i: usize = 0;
    while i < length
        invariant
            i <= length,
            length == pattern@.len(),
            forall|j: int| 0 <= j < i ==> #[trigger] leaves_no_choice(pattern@, j),
        decreases length - i,
    {
        let c: char = pattern.get_char(i);
        let repeated = c == '{' && !(i + 1 < length && {
            let times: char = pattern.get_char(i + 1);
            '1' <= times && times <= '9'
        });
        if c == '|' || c == '?' || c == '*' || repeated {
            assert(!leaves_no_choice(pattern@, i as int));
            return false;
        }
        i += 1;
    }
    true
}

/// A pattern may match where there is nothing.
pub open spec fn matches_nothing(pattern: PatternModel) -> bool {
    if pattern.regex {
        !takes_characters(pattern.text)
    } else {
        pattern.text.len() == 0
    }
}

impl Stage for NormalizerWrapper {
    /// Whether characters may stand at the beginning of a text that come from nowhere in it.
    type State = bool;

    type Model = bool;

    open spec fn model(state: bool) -> bool {
        state
    }

    open spec fn parts(self) -> Option<Seq<Self>> {
        match normalizer_model(self) {
            NormalizerModel::Nested(members) => Some(members),
            _ => None,
        }
    }

    open spec fn step(self, before: bool) -> Option<bool> {
        match normalizer_model(self) {
            NormalizerModel::Rewriting => if before {
                None
            } else {
                Some(false)
            },
            NormalizerModel::Prepending(text) => Some(before || text.len() == 0),
            NormalizerModel::Replacing(replace) => {
                let (pattern, content) = replace_model(replace);
                if matches_forward(pattern) {
                    Some(before || (content.len() > 0 && matches_nothing(pattern->0)))
                } else {
                    None
                }
            },
            NormalizerModel::Precompiled => None,
            NormalizerModel::Nested(_) => None,
        }
    }

    fn members(&self) -> (members: Option<&[Self]>) {
        match normalizer_part(self) {
            NormalizerPart::Nested(members) => Some(members),
            _ => None,
        }
    }

    fn advance(&self, state: bool) -> (after: Option<bool>) {
        match normalizer_part(self) {
            NormalizerPart::Rewriting => if state {
                None
            } else {
                Some(false)
            },
            NormalizerPart::Prepending(text) => Some(state || text.unicode_len() == 0),
            NormalizerPart::Replacing(replace) => {
                let (pattern, content) = replacement(replace);
                match pattern {
                    Some(pattern) => if pattern.regex && contains_text(
                        pattern.text.as_str(),
                        KEEP_OUT,
                    ) {
                        None
                    } else {
                        let anywhere = if pattern.regex {
                            !check_takes_characters(pattern.text.as_str())
                        } else {
                            pattern.text.as_str().unicode_len() == 0
                        };
                        Some(state || (content.as_str().unicode_len() > 0 && anywhere))
                    },
                    None => None,
                }
            },
            NormalizerPart::Precompiled => None,
            NormalizerPart::Nested(_) => None,
        }
    }
}

impl Stage for PreTokenizerWrapper {
    /// As for normalizers.
    type State = bool;

    type Model = bool;

    open spec fn model(state: bool) -> bool {
        state
    }

    open spec fn parts(self) -> Option<Seq<Self>> {
        match pre_tokenizer_model(self) {
            PreTokenizerModel::Nested(members) => Some(members),
            _ => None,
        }
    }

    open spec fn step(self, before: bool) -> Option<bool> {
        let fits = match pre_tokenizer_model(self) {
            PreTokenizerModel::ByteLevel => !before,
            PreTokenizerModel::FixedLength(length) => length > 0,
            PreTokenizerModel::Splitting(pattern) => matches_forward(Some(pattern)),
            PreTokenizerModel::Nested(_) => false,
            PreTokenizerModel::Other => true,
        };
        if fits {
            Some(before)
        } else {
            None
        }
    }

    fn members(&self) -> (members: Option<&[Self]>) {
        match pre_tokenizer_part(self) {
            PreTokenizerPart::Nested(members) => Some(members),
            _ => None,
        }
    }

    fn advance(&self, state: bool) -> (after: Option<bool>) {
        let fits = match pre_tokenizer_part(self) {
            PreTokenizerPart::ByteLevel => !state,
            PreTokenizerPart::FixedLength(length) => length > 0,
            PreTokenizerPart::Splitting(pattern) => !pattern.regex || !contains_text(
                pattern.text.as_str(),
                KEEP_OUT,
            ),
            PreTokenizerPart::Nested(_) => false,
            PreTokenizerPart::Other => true,
        };
        if fits {
            Some(state)
        } else {
            None
        }
    }
}

/// How many encodings post-processors pass on, and whether they add special tokens.
#[derive(Debug, Clone, Copy, PartialEq, Eq, Structural)]
pub struct Encodings {
    pub count: usize,
    pub add_special_tokens: bool,
}

/// A template takes a piece.
pub open spec fn takes_piece(
    template: TemplateProcessing,
    before: Encodings,
    piece: PieceModel,
) -> bool {
    match piece {
        PieceModel::First => before.count >= 1,
        PieceModel::Second => before.count >= 2,
        PieceModel::Special(id) => before.add_special_tokens ==> template_knows(template, id),
    }
}

/// The number of encodings that pieces make.
pub open spec fn made_of(pieces: Seq<PieceModel>, add_special_tokens: bool) -> nat
    decreases pieces.len(),
{
    if pieces.len() == 0 {
        0
    } else {
        made_of(pieces.drop_last(), add_special_tokens) + if pieces.last() is Special
            && !add_special_tokens {
            0nat
        } else {
            1nat
        }
    }
}

/// What a template makes of encodings: it takes one or two, and each of its pieces has to be there.
pub open spec fn arranged(template: TemplateProcessing, before: Encodings) -> Option<Encodings> {
    match template_model(template, before.count == 2) {
        Some(pieces) => if 1 <= before.count <= 2 && forall|i: int|
            0 <= i < pieces.len() ==> takes_piece(template, before, #[trigger] pieces[i]) {
            Some(
                Encodings {
                    count: made_of(pieces, before.add_special_tokens) as usize,
                    add_special_tokens: before.add_special_tokens,
                },
            )
        } else {
            None
        },
        None => None,
    }
}

/// Compute `arranged`.
fn arrange(template: &TemplateProcessing, state: Encodings) -> (after: Option<Encodings>)
    ensures
        after == arranged(*template, state),
{
    let pieces = match template_pieces(template, state.count == 2) {
        Some(pieces) => pieces,
        None => {
            return None;
        },
    };
    let ghost models = piece_models(pieces@);
    if state.count < 1 || state.count > 2 {
        return None;
    }
    let add: bool = state.add_special_tokens;
    let mut count: usize = 0;
    let mut i: usize = 0;
    while i < pieces.len()
        invariant
            i <= pieces@.len(),
            count <= i,
            models == piece_models(pieces@),
            template_model(*template, state.count == 2) == Some(models),
            1 <= state.count <= 2,
            add == state.add_special_tokens,
            count == made_of(models.take(i as int), add),
            forall|j: int| 0 <= j < i ==> takes_piece(*template, state, #[trigger] models[j]),
        decreases pieces@.len() - i,
    {
        assert(models[i as int] == pieces@[i as int]@);
        let (fits, made) = match &pieces[i] {
            PiecePart::First => (true, true),
            PiecePart::Second => (state.count == 2, true),
            PiecePart::Special(id) => (!add || knows_token(template, id.as_str()), add),
        };
        if !fits {
            assert(!takes_piece(*template, state, models[i as int]));
            return None;
        }
        proof {
            let longer = models.take(i + 1);
            assert(longer.drop_last() =~= models.take(i as int));
            assert(longer.last() == models[i as int]);
        }
        if made {
            count += 1;
        }
        i += 1;
    }
    assert(models.take(i as int) =~= models);
    Some(Encodings { count, add_special_tokens: add })
}

impl Stage for PostProcessorWrapper {
    type State = Encodings;

    type Model = Encodings;

    open spec fn model(state: Encodings) -> Encodings {
        state
    }

    open spec fn parts(self) -> Option<Seq<Self>> {
        match processor_model(self) {
            ProcessorModel::Nested(members) => Some(members),
            _ => None,
        }
    }

    open spec fn step(self, before: Encodings) -> Option<Encodings> {
        match processor_model(self) {
            ProcessorModel::Template(template) => arranged(template, before),
            ProcessorModel::Nested(_) => None,
            ProcessorModel::Other => Some(before),
        }
    }

    fn members(&self) -> (members: Option<&[Self]>) {
        match processor_part(self) {
            ProcessorPart::Nested(members) => Some(members),
            _ => None,
        }
    }

    fn advance(&self, state: Encodings) -> (after: Option<Encodings>) {
        match processor_part(self) {
            ProcessorPart::Template(template) => arrange(template, state),
            ProcessorPart::Nested(_) => None,
            ProcessorPart::Other => Some(state),
        }
    }
}

/// Truncating to `limits` leaves room: the tokens that are added fit, and where others are left,
/// parts overlap by less than their length.
pub open spec fn leaves_room(
    limits: Option<(usize, usize)>,
    added: Option<usize>,
    add_special_tokens: bool,
) -> bool {
    let special = if add_special_tokens && added is Some {
        added->0 as int
    } else {
        0
    };
    limits matches Some((length, stride)) ==> special <= length && (special == length || stride
        < length - special)
}

/// Check that truncating leaves room.
pub fn check_room(
    limits: Option<(usize, usize)>,
    added: Option<usize>,
    add_special_tokens: bool,
) -> (room: bool)
    ensures
        room == leaves_room(limits, added, add_special_tokens),
{
    let special: usize = match added {
        Some(added) => if add_special_tokens {
            added
        } else {
            0
        },
        None => 0,
    };
    match limits {
        Some((length, stride)) => special <= length && (special == length || stride < length
            - special),
        None => true,
    }
}

/// No padding is longer than the longest.
pub open spec fn pads_within(lengths: Option<(Option<usize>, Option<usize>)>) -> bool {
    lengths matches Some((fixed, multiple)) ==> (fixed matches Some(length) ==> length
        <= LONGEST_PADDING) && (multiple matches Some(multiple) ==> multiple <= LONGEST_PADDING)
}

/// Check that no padding is longer than the longest.
pub fn check_padding(lengths: Option<(Option<usize>, Option<usize>)>) -> (within: bool)
    ensures
        within == pads_within(lengths),
{
    match lengths {
        Some((fixed, multiple)) => {
            let short = match fixed {
                Some(length) => length <= LONGEST_PADDING,
                None => true,
            };
            let small = match multiple {
                Some(multiple) => multiple <= LONGEST_PADDING,
                None => true,
            };
            short && small
        },
        None => true,
    }
}

/// An added token takes the white space before it along and may be white space itself.
pub open spec fn strips_blank(token: AddedModel, normalizes: bool) -> bool {
    token.lstrip && (blank(token.content) || (normalizes && token.normalized))
}

/// No added token takes white space along that holds another one which does: where there is one
/// that takes what is behind it, there is none of white space that takes what is before it.
pub open spec fn stand_apart(added: Map<u32, AddedModel>, normalizes: bool) -> bool {
    !((exists|id: u32| #[trigger] added.contains_key(id) && added[id].rstrip) && (exists|id: u32|
        #[trigger]
        added.contains_key(id) && strips_blank(added[id], normalizes)))
}

/// Check that no added token takes white space along that holds another one.
fn check_added(
    entries: &Vec<(u32, AddedPart)>,
    normalizes: bool,
    Ghost(added): Ghost<Map<u32, AddedModel>>,
) -> (apart: bool)
    requires
        added_entries(added, entries@),
    ensures
        apart == stand_apart(added, normalizes),
{
    let mut right = false;
    let mut left = false;
    let mut i: usize = 0;
    while i < entries.len()
        invariant
            i <= entries@.len(),
            right == exists|j: int| 0 <= j < i && (#[trigger] entries@[j]).1.rstrip,
            left == exists|j: int|
                0 <= j < i && strips_blank((#[trigger] entries@[j]).1@, normalizes),
        decreases entries@.len() - i,
    {
        let token = &entries[i].1;
        if token.rstrip {
            right = true;
            assert(entries@[i as int].1.rstrip);
        }
        if token.lstrip && (is_blank(token.content.as_str()) || (normalizes
            && token.normalized)) {
            left = true;
            assert(strips_blank(entries@[i as int].1@, normalizes));
        }
        i += 1;
    }
    proof {
        assert(right == exists|id: u32| #[trigger] added.contains_key(id) && added[id].rstrip) by {
            if right {
                let j = choose|j: int|
                    0 <= j < entries@.len() && (#[trigger] entries@[j]).1.rstrip;
                assert(added.contains_key(entries@[j].0));
            }
            if exists|id: u32| #[trigger] added.contains_key(id) && added[id].rstrip {
                let id = choose|id: u32| #[trigger] added.contains_key(id) && added[id].rstrip;
                let j = choose|j: int| 0 <= j < entries@.len() && (#[trigger] entries@[j]).0 == id;
                assert(entries@[j].1.rstrip);
            }
        }
        assert(left == exists|id: u32| #[trigger]
            added.contains_key(id) && strips_blank(added[id], normalizes)) by {
            if left {
                let j = choose|j: int|
                    0 <= j < entries@.len() && strips_blank((#[trigger] entries@[j]).1@, normalizes);
                assert(added.contains_key(entries@[j].0));
            }
            if exists|id: u32| #[trigger]
                added.contains_key(id) && strips_blank(added[id], normalizes) {
                let id = choose|id: u32| #[trigger]
                    added.contains_key(id) && strips_blank(added[id], normalizes);
                let j = choose|j: int| 0 <= j < entries@.len() && (#[trigger] entries@[j]).0 == id;
                assert(strips_blank(entries@[j].1@, normalizes));
            }
        }
    }
    !(right && left)
}

/// What normalizing leaves for splitting; nothing where a normalizer cannot take every text.
pub open spec fn normalized_state(tokenizer: Tokenizer) -> Option<bool> {
    match tokenizer_normalizer(tokenizer) {
        Some(normalizer) => walked(normalizer, false, NESTING as nat),
        None => Some(false),
    }
}

/// Why a tokenizer cannot be asked to encode.
pub open spec fn encode_fault(tokenizer: Tokenizer, add_special_tokens: bool) -> Option<Seq<char>> {
    let start = Encodings { count: 1, add_special_tokens };
    if !leaves_room(
        tokenizer_truncation(tokenizer),
        tokenizer_added_tokens(tokenizer),
        add_special_tokens,
    ) {
        Some("tokenizer encode failed: truncation leaves no room for its stride"@)
    } else if !pads_within(tokenizer_padding(tokenizer)) {
        Some("tokenizer encode failed: padding is too long"@)
    } else if !stand_apart(
        tokenizer_added(tokenizer),
        tokenizer_normalizer(tokenizer) is Some,
    ) {
        Some("tokenizer encode failed: added tokens strip one another"@)
    } else if normalized_state(tokenizer) is None {
        Some("tokenizer encode failed: unsupported normalizer"@)
    } else if tokenizer_pre_tokenizer(tokenizer) is Some && walked(
        tokenizer_pre_tokenizer(tokenizer)->0,
        normalized_state(tokenizer)->0,
        NESTING as nat,
    ) is None {
        Some("tokenizer encode failed: unsupported pre-tokenizer"@)
    } else if tokenizer_samples(tokenizer) {
        Some("tokenizer encode failed: unsupported model"@)
    } else if tokenizer_processor(tokenizer) is Some && walked(
        tokenizer_processor(tokenizer)->0,
        start,
        NESTING as nat,
    ) is None {
        Some("tokenizer encode failed: unsupported post-processor"@)
    } else {
        None
    }
}

/// Find why a tokenizer cannot be asked to encode.
pub fn find_encode_fault(tokenizer: &Tokenizer, add_special_tokens: bool) -> (fault: Option<
    &'static str,
>)
    ensures
        match (fault, encode_fault(*tokenizer, add_special_tokens)) {
            (Some(message), Some(expected)) => message@ == expected,
            (None, None) => true,
            _ => false,
        },
{
    if !check_room(truncation(tokenizer), added_tokens(tokenizer), add_special_tokens) {
        return Some("tokenizer encode failed: truncation leaves no room for its stride");
    }
    if !check_padding(padding(tokenizer)) {
        return Some("tokenizer encode failed: padding is too long");
    }
    let first = normalizer(tokenizer);
    let ghost added = tokenizer_added(*tokenizer);
    if !check_added(&added_parts(tokenizer), first.is_some(), Ghost(added)) {
        return Some("tokenizer encode failed: added tokens strip one another");
    }
    let state = match first {
        Some(normalizer) => match walk(normalizer, false, NESTING) {
            Some(state) => state,
            None => {
                return Some("tokenizer encode failed: unsupported normalizer");
            },
        },
        None => false,
    };
    if let Some(pre_tokenizer) = pre_tokenizer(tokenizer) {
        if walk(pre_tokenizer, state, NESTING).is_none() {
            return Some("tokenizer encode failed: unsupported pre-tokenizer");
        }
    }
    if samples(tokenizer) {
        return Some("tokenizer encode failed: unsupported model");
    }
    if let Some(processor) = processor(tokenizer) {
        if walk(processor, Encodings { count: 1, add_special_tokens }, NESTING).is_none() {
            return Some("tokenizer encode failed: unsupported post-processor");
        }
    }
    None
}

/// Count how often `content` stands at the beginning of a token.
fn count_leading(token: &str, content: char) -> (run: usize)
    ensures
        run == leading_run(token@, content),
{
    let length: usize = token.unicode_len();
    let mut run: usize = 0;
    assert(token@.skip(0) =~= token@);
    while run < length && token.get_char(run) == content
        invariant
            length == token@.len(),
            run <= length,
            leading_run(token@, content) == run + leading_run(token@.skip(run as int), content),
        decreases length - run,
    {
        assert(token@.skip(run as int).first() == token@[run as int]);
        assert(token@.skip(run as int).drop_first() =~= token@.skip(run + 1));
        run += 1;
    }
    assert(run < length ==> token@.skip(run as int).first() == token@[run as int]);
    run
}

/// Count how often `content` stands at the end of a token.
fn count_trailing(token: &str, content: char) -> (run: usize)
    ensures
        run == trailing_run(token@, content),
{
    let length: usize = token.unicode_len();
    let mut run: usize = 0;
    assert(token@.take(length as int) =~= token@);
    while run < length && token.get_char(length - run - 1) == content
        invariant
            length == token@.len(),
            run <= length,
            trailing_run(token@, content) == run + trailing_run(
                token@.take(length - run),
                content,
            ),
        decreases length - run,
    {
        assert(token@.take(length - run).last() == token@[length - run - 1]);
        assert(token@.take(length - run).drop_last() =~= token@.take(length - run - 1));
        run += 1;
    }
    assert(run < length ==> token@.take(length - run).last() == token@[length - run - 1]);
    run
}

proof fn lemma_runs_fit(token: Seq<char>, content: char)
    ensures
        leading_run(token, content) <= token.len(),
        trailing_run(token, content) <= token.len(),
    decreases token.len(),
{
    if token.len() > 0 {
        lemma_runs_fit(token.drop_first(), content);
        lemma_runs_fit(token.drop_last(), content);
    }
}

/// Check that stripping a token stays within it.
pub fn check_strip(token: &str, content: char, start: usize, stop: usize) -> (within: bool)
    ensures
        within == strips_within(token@, content, start, stop),
{
    let length: usize = token.unicode_len();
    let leading: usize = count_leading(token, content);
    let trailing: usize = count_trailing(token, content);
    proof {
        lemma_runs_fit(token@, content);
    }
    let front: usize = if leading <= start {
        leading
    } else {
        start
    };
    let back: usize = if trailing <= stop {
        trailing
    } else {
        stop
    };
    (trailing < length || stop <= length) && front <= length - back
}

impl Stage for DecoderWrapper {
    /// Tokens, or the message of an error.
    type State = Result<Vec<String>, String>;

    type Model = Result<Seq<Seq<char>>, Seq<char>>;

    open spec fn model(state: Result<Vec<String>, String>) -> Result<Seq<Seq<char>>, Seq<char>> {
        outcome_texts(state)
    }

    open spec fn parts(self) -> Option<Seq<Self>> {
        match decoder_model(self) {
            DecoderModel::Nested(members) => Some(members),
            _ => None,
        }
    }

    open spec fn step(self, before: Result<Seq<Seq<char>>, Seq<char>>) -> Option<
        Result<Seq<Seq<char>>, Seq<char>>,
    > {
        match before {
            Ok(tokens) => if takes_tokens(decoder_model(self), tokens) {
                Some(decoder_step(self, tokens))
            } else {
                None
            },
            Err(message) => Some(Err(message)),
        }
    }

    fn members(&self) -> (members: Option<&[Self]>) {
        match decoder_part(self) {
            DecoderPart::Nested(members) => Some(members),
            _ => None,
        }
    }

    fn advance(&self, state: Result<Vec<String>, String>) -> (after: Option<
        Result<Vec<String>, String>,
    >) {
        let tokens = match state {
            Ok(tokens) => tokens,
            Err(message) => {
                return Some(Err(message));
            },
        };
        let fits = match decoder_part(self) {
            DecoderPart::Bpe => tokens.len() > 0,
            DecoderPart::Stripping { content, start, stop } => check_strips(
                &tokens,
                content,
                start,
                stop,
            ),
            DecoderPart::Replacing(replace) => match replacement(replace).0 {
                Some(pattern) => !pattern.regex || !contains_text(pattern.text.as_str(), KEEP_OUT),
                None => false,
            },
            DecoderPart::Nested(_) => false,
            DecoderPart::Other => true,
        };
        if fits {
            Some(decode_step(self, tokens))
        } else {
            None
        }
    }
}

/// Check that stripping tokens stays within them.
fn check_strips(tokens: &Vec<String>, content: char, start: usize, stop: usize) -> (within: bool)
    ensures
        within == forall|i: int|
            0 <= i < texts(tokens@).len() ==> strips_within(
                #[trigger] texts(tokens@)[i],
                content,
                start,
                stop,
            ),
{
    let ghost all = texts(tokens@);
    let mut i: usize = 0;
    while i < tokens.len()
        invariant
            i <= tokens@.len(),
            all == texts(tokens@),
            forall|j: int| 0 <= j < i ==> strips_within(#[trigger] all[j], content, start, stop),
        decreases tokens@.len() - i,
    {
        assert(all[i as int] == tokens@[i as int]@);
        if !check_strip(tokens[i].as_str(), content, start, stop) {
            return false;
        }
        i += 1;
    }
    true
}

/// The tokens of the first `n` identifiers that decoding does not skip.
pub open spec fn shown_tokens(
    tokenizer: Tokenizer,
    ids: Seq<u32>,
    skip_special_tokens: bool,
    n: nat,
) -> Seq<Seq<char>>
    decreases n,
{
    if n == 0 {
        Seq::empty()
    } else {
        let before = shown_tokens(tokenizer, ids, skip_special_tokens, (n - 1) as nat);
        match tokenizer_token(tokenizer, ids[n - 1]) {
            Some(token) => if skip_special_tokens && tokenizer_special(tokenizer, token) {
                before
            } else {
                before.push(token)
            },
            None => before,
        }
    }
}

/// Why a tokenizer cannot be asked to decode identifiers: one of its decoders cannot take the tokens
/// that the decoders before it leave.
pub open spec fn decode_fault(
    tokenizer: Tokenizer,
    ids: Seq<u32>,
    skip_special_tokens: bool,
) -> Option<Seq<char>> {
    let tokens = shown_tokens(tokenizer, ids, skip_special_tokens, ids.len());
    if tokenizer_decoder(tokenizer) is Some && walked(
        tokenizer_decoder(tokenizer)->0,
        Ok(tokens),
        NESTING as nat,
    ) is None {
        Some("tokenizer decode failed: unsupported decoder for these tokens"@)
    } else {
        None
    }
}

/// Find why a tokenizer cannot be asked to decode identifiers.
pub fn find_decode_fault(tokenizer: &Tokenizer, ids: &[u32], skip_special_tokens: bool) -> (fault:
    Option<&'static str>)
    ensures
        match (fault, decode_fault(*tokenizer, ids@, skip_special_tokens)) {
            (Some(message), Some(expected)) => message@ == expected,
            (None, None) => true,
            _ => false,
        },
{
    let decoder = match decoder(tokenizer) {
        Some(decoder) => decoder,
        None => {
            return None;
        },
    };
    let mut tokens: Vec<String> = Vec::new();
    let mut i: usize = 0;
    assert(texts(tokens@) =~= Seq::empty());
    while i < ids.len()
        invariant
            i <= ids@.len(),
            texts(tokens@) == shown_tokens(*tokenizer, ids@, skip_special_tokens, i as nat),
        decreases ids@.len() - i,
    {
        let ghost before = tokens@;
        match token_of(tokenizer, ids[i]) {
            Some(token) => {
                if !(skip_special_tokens && is_special(tokenizer, token.as_str())) {
                    tokens.push(token);
                    assert(texts(tokens@) =~= texts(before).push(token@));
                }
            },
            None => {},
        }
        i += 1;
    }
    match walk(decoder, Ok(tokens), NESTING) {
        Some(_) => None,
        None => Some("tokenizer decode failed: unsupported decoder for these tokens"),
    }
}

} // verus!
