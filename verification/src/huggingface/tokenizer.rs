//! Turning text into token identifiers and back with a model's own tokenizer.

use crate::huggingface::config::{debug, debug_text};
use crate::huggingface::tokenizer_faults::{
    decode_fault, encode_fault, find_decode_fault, find_encode_fault,
};
use crate::huggingface::{refuse, HuggingFaceLoadError};
use crate::text::{decimal, push_number, push_signed, signed_decimal, text, with_numbers};
use tokenizers::Tokenizer;
use vstd::prelude::*;

verus! {

/// What `Tokenizer::decode` returns for identifiers, special tokens skipped or not: the text, or
/// the message of its error. Decoding looks up the token of each identifier and runs the
/// tokenizer's decoder over them; nothing else goes into it.
pub uninterp spec fn tokenizer_decode(
    tokenizer: Tokenizer,
    ids: Seq<u32>,
    skip_special_tokens: bool,
) -> Result<Seq<char>, Seq<char>>;

/// What `Tokenizer::get_vocab_size` returns with added tokens counted.
pub uninterp spec fn tokenizer_vocab_size(tokenizer: Tokenizer) -> usize;

/// The tokens that `Tokenizer::get_vocab` returns with added tokens counted, each with its
/// identifier.
pub uninterp spec fn tokenizer_vocab(tokenizer: Tokenizer) -> Map<Seq<char>, u32>;

/// `Tokenizer::encode` may answer a text with these identifiers, or with an error of this message,
/// special tokens added or not.
pub uninterp spec fn tokenizer_may_encode(
    tokenizer: Tokenizer,
    text: Seq<char>,
    add_special_tokens: bool,
    answer: Result<Seq<u32>, Seq<char>>,
) -> bool;

/// Identifiers or a message, over mathematical sequences.
pub open spec fn answer_of(answer: Result<Vec<u32>, String>) -> Result<Seq<u32>, Seq<char>> {
    match answer {
        Ok(ids) => Ok(ids@),
        Err(message) => Err(message@),
    }
}

/// Calls `Tokenizer::encode` and takes the identifiers out of the encoding, or the message of the
/// error. A tokenizer may drop merges at random, so nothing is claimed but that the answer is one
/// that the tokenizer may give. These would panic on some texts, and are left out: truncation without
/// room for its stride; padding beyond any vector; added tokens that strip white space holding one
/// another; normalizers that work by a table of their own, or that rewrite a text after another one
/// put characters in front of it that come from nowhere in it, as a replacement may where its
/// pattern matches nothing; parts of length zero; regular expressions whose matches may overlap;
/// models that sample from a lattice; and templates that ask for a text or a special token that is
/// not there.
#[verifier::external_body]
fn encode_text(tokenizer: &Tokenizer, text: &str, add_special_tokens: bool) -> (answer: Result<
    Vec<u32>,
    String,
>)
    requires
        encode_fault(*tokenizer, add_special_tokens) is None,
    ensures
        tokenizer_may_encode(*tokenizer, text@, add_special_tokens, answer_of(answer)),
{
    match tokenizer.encode(text, add_special_tokens) {
        Ok(encoding) => Ok(encoding.get_ids().to_vec()),
        Err(error) => Err(error.to_string()),
    }
}

/// Calls `Tokenizer::decode`, which runs the decoders one after the other. One that would run past
/// the ends of the tokens it is given, or of an empty list of them, would panic, and so would a
/// regular expression whose matches overlap; they are left out.
#[verifier::external_body]
fn decode_ids(tokenizer: &Tokenizer, ids: &[u32], skip_special_tokens: bool) -> (result: Result<
    String,
    String,
>)
    requires
        decode_fault(*tokenizer, ids@, skip_special_tokens) is None,
    ensures
        match (result, tokenizer_decode(*tokenizer, ids@, skip_special_tokens)) {
            (Ok(text), Ok(expected)) => text@ == expected,
            (Err(message), Err(expected)) => message@ == expected,
            _ => false,
        },
{
    match tokenizer.decode(ids, skip_special_tokens) {
        Ok(text) => Ok(text),
        Err(error) => Err(error.to_string()),
    }
}

/// Calls `Tokenizer::get_vocab_size` with added tokens counted.
#[verifier::external_body]
fn vocab_size(tokenizer: &Tokenizer) -> (size: usize)
    ensures
        size == tokenizer_vocab_size(*tokenizer),
{
    tokenizer.get_vocab_size(true)
}

/// Entries that make up a map: each of its keys, with its value.
pub open spec fn entries_of(map: Map<Seq<char>, u32>, entries: Seq<(String, u32)>) -> bool {
    &&& forall|i: int|
        0 <= i < entries.len() ==> map.contains_key((#[trigger] entries[i]).0@)
            && map[entries[i].0@] == entries[i].1
    &&& forall|token: Seq<char>| #[trigger]
        map.contains_key(token) ==> exists|i: int|
            0 <= i < entries.len() && (#[trigger] entries[i]).0@ == token
}

/// Calls `Tokenizer::get_vocab` with added tokens counted. The map that it returns is walked in no
/// particular order.
#[verifier::external_body]
fn vocab_entries(tokenizer: &Tokenizer) -> (entries: Vec<(String, u32)>)
    ensures
        entries_of(tokenizer_vocab(*tokenizer), entries@),
{
    tokenizer.get_vocab(true).into_iter().collect()
}

/// The first identifier that does not fit a token.
pub open spec fn first_too_large(ids: Seq<u32>) -> Option<u32>
    decreases ids.len(),
{
    if ids.len() == 0 {
        None
    } else if first_too_large(ids.drop_last()) is Some {
        first_too_large(ids.drop_last())
    } else if ids.last() > i32::MAX {
        Some(ids.last())
    } else {
        None
    }
}

/// What a tokenizer's identifiers come to: the same numbers as tokens, or refused where one does not
/// fit.
pub open spec fn tokens_of(ids: Seq<u32>, result: Result<Vec<i32>, HuggingFaceLoadError>) -> bool {
    match (result, first_too_large(ids)) {
        (Ok(tokens), None) => tokens@.len() == ids.len() && forall|i: int|
            0 <= i < ids.len() ==> #[trigger] tokens@[i] == ids[i],
        (Err(error), Some(id)) => error.0@ == "tokenizer produced token "@ + decimal(id as nat)
            + " above i32::MAX"@,
        _ => false,
    }
}

proof fn lemma_too_large_prefix(ids: Seq<u32>, n: int)
    requires
        0 <= n <= ids.len(),
        first_too_large(ids.take(n)) is Some,
    ensures
        first_too_large(ids) == first_too_large(ids.take(n)),
    decreases ids.len() - n,
{
    if n == ids.len() {
        assert(ids.take(n) =~= ids);
    } else {
        assert(ids.take(n + 1).drop_last() =~= ids.take(n));
        lemma_too_large_prefix(ids, n + 1);
    }
}

/// Take a tokenizer's identifiers as tokens.
pub fn tokens_from_ids(ids: &[u32]) -> (result: Result<Vec<i32>, HuggingFaceLoadError>)
    ensures
        tokens_of(ids@, result),
{
    let mut tokens: Vec<i32> = Vec::with_capacity(ids.len());
    let mut i: usize = 0;
    assert(ids@.take(0) =~= Seq::<u32>::empty());
    while i < ids.len()
        invariant
            i <= ids@.len(),
            first_too_large(ids@.take(i as int)) is None,
            tokens@.len() == i,
            forall|j: int| 0 <= j < i ==> #[trigger] tokens@[j] == ids@[j],
        decreases ids@.len() - i,
    {
        let id: u32 = ids[i];
        proof {
            assert(ids@.take(i + 1).drop_last() =~= ids@.take(i as int));
            assert(ids@.take(i + 1).last() == id);
        }
        if id > i32::MAX as u32 {
            proof {
                lemma_too_large_prefix(ids@, i + 1);
            }
            let mut message = text("tokenizer produced token ");
            push_number(&mut message, id as u64);
            message.append(" above i32::MAX");
            return Err(HuggingFaceLoadError(message));
        }
        tokens.push(id as i32);
        i += 1;
    }
    assert(ids@.take(i as int) =~= ids@);
    Ok(tokens)
}

/// What encoding comes to, whatever the tokenizer answers.
pub open spec fn encoded(
    answer: Result<Vec<u32>, String>,
    result: Result<Vec<i32>, HuggingFaceLoadError>,
) -> bool {
    match answer {
        Ok(ids) => tokens_of(ids@, result),
        Err(message) => result matches Err(error) && error.0@ == "tokenizer encode failed: "@
            + message@,
    }
}

/// Take what a tokenizer answered as tokens.
pub fn encode_answer(answer: Result<Vec<u32>, String>) -> (result: Result<
    Vec<i32>,
    HuggingFaceLoadError,
>)
    ensures
        encoded(answer, result),
{
    match answer {
        Ok(ids) => tokens_from_ids(&ids),
        Err(reason) => {
            let mut message = text("tokenizer encode failed: ");
            message.append(reason.as_str());
            Err(HuggingFaceLoadError(message))
        },
    }
}

/// `result` is what some answer of the tokenizer to a text comes to, or why it cannot be asked.
pub open spec fn encodes(
    tokenizer: Tokenizer,
    text: Seq<char>,
    add_special_tokens: bool,
    result: Result<Vec<i32>, HuggingFaceLoadError>,
) -> bool {
    match encode_fault(tokenizer, add_special_tokens) {
        Some(message) => result matches Err(error) && error.0@ == message,
        None => exists|answer: Result<Vec<u32>, String>| #[trigger]
            encoded(answer, result) && tokenizer_may_encode(
                tokenizer,
                text,
                add_special_tokens,
                answer_of(answer),
            ),
    }
}

/// Tokenize a text.
pub fn encode(tokenizer: &Tokenizer, text: &str, add_special_tokens: bool) -> (result: Result<
    Vec<i32>,
    HuggingFaceLoadError,
>)
    ensures
        encodes(*tokenizer, text@, add_special_tokens, result),
{
    if let Some(message) = find_encode_fault(tokenizer, add_special_tokens) {
        return Err(refuse(message));
    }
    let answer = encode_text(tokenizer, text, add_special_tokens);
    encode_answer(answer)
}

/// The first token that is negative.
pub open spec fn first_negative(tokens: Seq<i32>) -> Option<i32>
    decreases tokens.len(),
{
    if tokens.len() == 0 {
        None
    } else if first_negative(tokens.drop_last()) is Some {
        first_negative(tokens.drop_last())
    } else if tokens.last() < 0 {
        Some(tokens.last())
    } else {
        None
    }
}

/// Tokens as a tokenizer's identifiers.
pub open spec fn ids_of(tokens: Seq<i32>) -> Seq<u32> {
    Seq::new(tokens.len(), |i: int| tokens[i] as u32)
}

/// What decoding tokens comes to: refused where one is negative or the tokenizer cannot be asked,
/// and what the tokenizer makes of them otherwise.
pub open spec fn decoded(
    tokenizer: Tokenizer,
    tokens: Seq<i32>,
    skip_special_tokens: bool,
    result: Result<String, HuggingFaceLoadError>,
) -> bool {
    match first_negative(tokens) {
        Some(token) => result matches Err(error) && error.0@ == "cannot decode negative token id "@
            + signed_decimal(token as int),
        None => match decode_fault(tokenizer, ids_of(tokens), skip_special_tokens) {
            Some(message) => result matches Err(error) && error.0@ == message,
            None => match (
                result,
                tokenizer_decode(tokenizer, ids_of(tokens), skip_special_tokens),
            ) {
                (Ok(text), Ok(expected)) => text@ == expected,
                (Err(error), Err(reason)) => error.0@ == "tokenizer decode failed: "@ + reason,
                _ => false,
            },
        },
    }
}

proof fn lemma_negative_prefix(tokens: Seq<i32>, n: int)
    requires
        0 <= n <= tokens.len(),
        first_negative(tokens.take(n)) is Some,
    ensures
        first_negative(tokens) == first_negative(tokens.take(n)),
    decreases tokens.len() - n,
{
    if n == tokens.len() {
        assert(tokens.take(n) =~= tokens);
    } else {
        assert(tokens.take(n + 1).drop_last() =~= tokens.take(n));
        lemma_negative_prefix(tokens, n + 1);
    }
}

/// Take tokens as a tokenizer's identifiers.
pub fn ids_from_tokens(tokens: &[i32]) -> (result: Result<Vec<u32>, HuggingFaceLoadError>)
    ensures
        match (result, first_negative(tokens@)) {
            (Ok(ids), None) => ids@ == ids_of(tokens@),
            (Err(error), Some(token)) => error.0@ == "cannot decode negative token id "@
                + signed_decimal(token as int),
            _ => false,
        },
{
    let mut ids: Vec<u32> = Vec::with_capacity(tokens.len());
    let mut i: usize = 0;
    assert(tokens@.take(0) =~= Seq::<i32>::empty());
    while i < tokens.len()
        invariant
            i <= tokens@.len(),
            first_negative(tokens@.take(i as int)) is None,
            ids@ == ids_of(tokens@).take(i as int),
        decreases tokens@.len() - i,
    {
        let token: i32 = tokens[i];
        proof {
            assert(tokens@.take(i + 1).drop_last() =~= tokens@.take(i as int));
            assert(tokens@.take(i + 1).last() == token);
        }
        if token < 0 {
            proof {
                lemma_negative_prefix(tokens@, i + 1);
            }
            let mut message = text("cannot decode negative token id ");
            push_signed(&mut message, token as i64);
            return Err(HuggingFaceLoadError(message));
        }
        ids.push(token as u32);
        i += 1;
        assert(ids@ =~= ids_of(tokens@).take(i as int));
    }
    assert(tokens@.take(i as int) =~= tokens@);
    assert(ids@ =~= ids_of(tokens@));
    Ok(ids)
}

/// Decode tokens into text.
pub fn decode(tokenizer: &Tokenizer, token_ids: &[i32], skip_special_tokens: bool) -> (result: Result<
    String,
    HuggingFaceLoadError,
>)
    ensures
        decoded(*tokenizer, token_ids@, skip_special_tokens, result),
{
    let ids = match ids_from_tokens(token_ids) {
        Ok(ids) => ids,
        Err(error) => {
            return Err(error);
        },
    };
    if let Some(message) = find_decode_fault(tokenizer, &ids, skip_special_tokens) {
        return Err(refuse(message));
    }
    match decode_ids(tokenizer, &ids, skip_special_tokens) {
        Ok(text) => Ok(text),
        Err(reason) => {
            let mut message = text("tokenizer decode failed: ");
            message.append(reason.as_str());
            Err(HuggingFaceLoadError(message))
        },
    }
}

/// Check that a Llama tokenizer has exactly the vocabulary of its model.
pub fn validate_llama_vocabulary(tokenizer: &Tokenizer, vocabulary: usize) -> (result: Result<
    (),
    HuggingFaceLoadError,
>)
    ensures
        match result {
            Ok(_) => tokenizer_vocab_size(*tokenizer) == vocabulary,
            Err(error) => tokenizer_vocab_size(*tokenizer) != vocabulary && error.0@
                == "tokenizer vocabulary "@ + decimal(tokenizer_vocab_size(*tokenizer) as nat)
                + " does not equal model vocabulary "@ + decimal(vocabulary as nat) + ""@,
        },
{
    let size: usize = vocab_size(tokenizer);
    if size != vocabulary {
        return Err(
            HuggingFaceLoadError(
                with_numbers(
                    "tokenizer vocabulary ",
                    size as u64,
                    " does not equal model vocabulary ",
                    vocabulary as u64,
                    "",
                ),
            ),
        );
    }
    Ok(())
}

/// The message for a token whose identifier the model does not have.
pub open spec fn outside_vocabulary(token: Seq<char>, id: u32, vocabulary: usize) -> Seq<char> {
    "tokenizer token "@ + debug_text(token) + " has id "@ + decimal(id as nat)
        + ", outside model vocabulary [0, "@ + decimal(vocabulary as nat) + ")"@
}

/// Check that no entry has an identifier that the model does not have.
pub fn check_vocabulary(entries: &Vec<(String, u32)>, vocabulary: usize) -> (result: Result<
    (),
    HuggingFaceLoadError,
>)
    ensures
        match result {
            Ok(_) => forall|i: int|
                0 <= i < entries@.len() ==> (#[trigger] entries@[i]).1 < vocabulary,
            Err(error) => exists|i: int|
                0 <= i < entries@.len() && (#[trigger] entries@[i]).1 >= vocabulary && (forall|
                    j: int,
                |
                    0 <= j < i ==> (#[trigger] entries@[j]).1 < vocabulary) && error.0@
                    == outside_vocabulary(entries@[i].0@, entries@[i].1, vocabulary),
        },
{
    let mut i: usize = 0;
    while i < entries.len()
        invariant
            i <= entries@.len(),
            forall|j: int| 0 <= j < i ==> (#[trigger] entries@[j]).1 < vocabulary,
        decreases entries@.len() - i,
    {
        let id: u32 = entries[i].1;
        if id as usize >= vocabulary {
            let mut message = text("tokenizer token ");
            message.append(debug(entries[i].0.as_str()).as_str());
            message.append(" has id ");
            push_number(&mut message, id as u64);
            message.append(", outside model vocabulary [0, ");
            push_number(&mut message, vocabulary as u64);
            message.append(")");
            assert(entries@[i as int].1 >= vocabulary);
            return Err(HuggingFaceLoadError(message));
        }
        i += 1;
    }
    Ok(())
}

/// Check that every token of a Qwen tokenizer is in the vocabulary of its model. Where several are
/// not, the message names any one of them.
pub fn validate_qwen_vocabulary(tokenizer: &Tokenizer, vocabulary: usize) -> (result: Result<
    (),
    HuggingFaceLoadError,
>)
    ensures
        match result {
            Ok(_) => forall|token: Seq<char>| #[trigger]
                tokenizer_vocab(*tokenizer).contains_key(token) ==> tokenizer_vocab(
                    *tokenizer,
                )[token] < vocabulary,
            Err(error) => exists|token: Seq<char>| #[trigger]
                tokenizer_vocab(*tokenizer).contains_key(token) && tokenizer_vocab(
                    *tokenizer,
                )[token] >= vocabulary && error.0@ == outside_vocabulary(
                    token,
                    tokenizer_vocab(*tokenizer)[token],
                    vocabulary,
                ),
        },
{
    let entries = vocab_entries(tokenizer);
    let result = check_vocabulary(&entries, vocabulary);
    proof {
        let map = tokenizer_vocab(*tokenizer);
        match result {
            Ok(_) => {
                assert forall|token: Seq<char>| #[trigger] map.contains_key(token) implies map[token]
                    < vocabulary by {
                    let i = choose|i: int|
                        0 <= i < entries@.len() && (#[trigger] entries@[i]).0@ == token;
                    assert(map[entries@[i].0@] == entries@[i].1);
                }
            },
            Err(_) => {
                let i = choose|i: int|
                    0 <= i < entries@.len() && (#[trigger] entries@[i]).1 >= vocabulary && (forall|
                        j: int,
                    |
                        0 <= j < i ==> (#[trigger] entries@[j]).1 < vocabulary)
                        && (result->Err_0).0@ == outside_vocabulary(
                        entries@[i].0@,
                        entries@[i].1,
                        vocabulary,
                    );
                assert(map.contains_key(entries@[i].0@));
            },
        }
    }
    result
}

/// Tokens from identifiers, taken as identifiers again, are the identifiers.
pub proof fn law_tokens_keep_their_identifiers(ids: Seq<u32>, tokens: Vec<i32>)
    requires
        tokens_of(ids, Ok(tokens)),
    ensures
        first_negative(tokens@) is None,
        ids_of(tokens@) == ids,
{
    lemma_no_negative(tokens@);
    assert(ids_of(tokens@) =~= ids);
}

proof fn lemma_no_negative(tokens: Seq<i32>)
    requires
        forall|i: int| 0 <= i < tokens.len() ==> #[trigger] tokens[i] >= 0,
    ensures
        first_negative(tokens) is None,
    decreases tokens.len(),
{
    if tokens.len() > 0 {
        assert forall|i: int| 0 <= i < tokens.drop_last().len() implies #[trigger] tokens.drop_last()[i]
            >= 0 by {
            assert(tokens.drop_last()[i] == tokens[i]);
        }
        lemma_no_negative(tokens.drop_last());
    }
}

} // verus!
