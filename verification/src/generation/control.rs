//! Stop sequences, cancellation and streaming events of one generation.

use crate::generation::{GenerationError, TokenGenerationOutput};
use crate::text::{decimal, push_number, push_signed, signed_decimal, with_number};
use std::sync::atomic::AtomicBool;
use std::sync::Arc;
use vstd::prelude::*;

verus! {

/// A one-shot, shareable request cancellation flag. Cancellation is observed
/// between token steps; it does not interrupt an already-running device kernel.
///
/// Clones share the flag, and any thread may set it at any time. So contracts say which flag is
/// made, set or read, and leave open what a read of it returns.
#[derive(Debug)]
pub struct GenerationCancellation {
    cancelled: Arc<AtomicBool>,
}

impl Clone for GenerationCancellation {
    /// Another handle of the same flag.
    fn clone(&self) -> (copy: Self)
        ensures
            copy == *self,
    {
        GenerationCancellation { cancelled: Arc::clone(&self.cancelled) }
    }
}

/// What reading the cancellation flag of a request can return: that it is set, and that it is not.
#[verifier::ext_equal]
pub struct FlagReads {
    pub set: bool,
    pub unset: bool,
}

impl Default for GenerationCancellation {
    fn default() -> (flag: Self)
        ensures
            flag.starts_unset(),
    {
        GenerationCancellation { cancelled: Arc::new(AtomicBool::new(false)) }
    }
}

impl GenerationCancellation {
    /// The flag is what `AtomicBool::new` makes of `false`.
    pub closed spec fn starts_unset(&self) -> bool {
        call_ensures(AtomicBool::new, (false,), *self.cancelled)
    }

    /// `cancelled` is what loading this flag, with acquire ordering, returns.
    pub closed spec fn reads(&self, cancelled: bool) -> bool {
        call_ensures(
            AtomicBool::load,
            (&*self.cancelled, std::sync::atomic::Ordering::Acquire),
            cancelled,
        )
    }

    /// `true` was stored in this flag, with release ordering.
    pub closed spec fn was_set(&self) -> bool {
        call_ensures(
            AtomicBool::store,
            (&*self.cancelled, true, std::sync::atomic::Ordering::Release),
            (),
        )
    }

    pub fn new() -> (flag: Self)
        ensures
            flag.starts_unset(),
    {
        GenerationCancellation { cancelled: Arc::new(AtomicBool::new(false)) }
    }

    pub fn cancel(&self)
        ensures
            self.was_set(),
    {
        self.cancelled.store(true, std::sync::atomic::Ordering::Release);
    }

    pub fn is_cancelled(&self) -> (cancelled: bool)
        ensures
            self.reads(cancelled),
    {
        self.cancelled.load(std::sync::atomic::Ordering::Acquire)
    }
}

/// Additive controls: existing generation configuration structs remain valid.
#[derive(Debug, Clone)]
pub struct GenerationControl {
    /// Match only the generated suffix, never across the prompt boundary.
    /// Matching tokens are retained in the callback and final output. Empty
    /// patterns are rejected. Simultaneous matches choose the first pattern.
    pub stop_token_sequences: Vec<Vec<i32>>,
    pub cancellation: Option<GenerationCancellation>,
}

impl Default for GenerationControl {
    fn default() -> (control: Self)
        ensures
            control.stop_token_sequences@.len() == 0,
            control.cancellation is None,
    {
        GenerationControl { stop_token_sequences: Vec::new(), cancellation: None }
    }
}

/// A token identifier names an entry of a vocabulary of `vocab_size` entries.
pub open spec fn in_vocabulary(token: i32, vocab_size: usize) -> bool {
    0 <= token && token < vocab_size
}

/// The first token that is outside the vocabulary.
pub open spec fn first_outside(tokens: Seq<i32>, vocab_size: usize) -> Option<i32>
    decreases tokens.len(),
{
    if tokens.len() == 0 {
        None
    } else {
        match first_outside(tokens.drop_last(), vocab_size) {
            Some(token) => Some(token),
            None => if in_vocabulary(tokens.last(), vocab_size) {
                None
            } else {
                Some(tokens.last())
            },
        }
    }
}

/// Find the first token outside the vocabulary.
pub fn find_outside(tokens: &[i32], vocab_size: usize) -> (found: Option<i32>)
    ensures
        found == first_outside(tokens@, vocab_size),
{
    let mut i: usize = 0;
    assert(tokens@.take(0) =~= Seq::empty());
    while i < tokens.len()
        invariant
            i <= tokens@.len(),
            first_outside(tokens@.take(i as int), vocab_size) is None,
        decreases tokens@.len() - i,
    {
        let token: i32 = tokens[i];
        proof {
            assert(tokens@.take(i + 1).drop_last() =~= tokens@.take(i as int));
        }
        if token < 0 || token as usize >= vocab_size {
            proof {
                lemma_first_outside_prefix(tokens@, vocab_size, i + 1);
            }
            return Some(token);
        }
        i += 1;
    }
    assert(tokens@.take(i as int) =~= tokens@);
    None
}

/// A vocabulary that all of some tokens are in has an entry.
pub(crate) proof fn lemma_first_inside(tokens: Seq<i32>, vocab_size: usize)
    requires
        tokens.len() > 0,
        first_outside(tokens, vocab_size) is None,
    ensures
        vocab_size > 0,
{
    assert(in_vocabulary(tokens.last(), vocab_size));
}

proof fn lemma_first_outside_prefix(tokens: Seq<i32>, vocab_size: usize, n: int)
    requires
        0 <= n <= tokens.len(),
        first_outside(tokens.take(n), vocab_size) is Some,
    ensures
        first_outside(tokens, vocab_size) == first_outside(tokens.take(n), vocab_size),
    decreases tokens.len(),
{
    if n < tokens.len() {
        assert(tokens.drop_last().take(n) =~= tokens.take(n));
        lemma_first_outside_prefix(tokens.drop_last(), vocab_size, n);
    } else {
        assert(tokens.take(n) =~= tokens);
    }
}

/// No token is outside exactly where each one is inside.
pub proof fn lemma_all_inside(tokens: Seq<i32>, vocab_size: usize)
    ensures
        first_outside(tokens, vocab_size) is None <==> forall|i: int|
            0 <= i < tokens.len() ==> in_vocabulary(#[trigger] tokens[i], vocab_size),
    decreases tokens.len(),
{
    if tokens.len() > 0 {
        lemma_all_inside(tokens.drop_last(), vocab_size);
        assert forall|i: int| 0 <= i < tokens.len() - 1 implies tokens.drop_last()[i]
            == #[trigger] tokens[i] by {}
        if first_outside(tokens, vocab_size) is None {
            assert forall|i: int| 0 <= i < tokens.len() implies in_vocabulary(
                #[trigger] tokens[i],
                vocab_size,
            ) by {
                if i < tokens.len() - 1 {
                    assert(in_vocabulary(tokens.drop_last()[i], vocab_size));
                }
            }
        }
    }
}

/// Why stop sequence `index` is refused.
pub open spec fn pattern_error(pattern: Seq<i32>, index: nat, vocab_size: usize) -> Option<
    Seq<char>,
> {
    if pattern.len() == 0 {
        Some("stop sequence "@ + decimal(index) + " must not be empty"@)
    } else {
        match first_outside(pattern, vocab_size) {
            Some(token) => Some(
                "stop sequence "@ + decimal(index) + " token "@ + signed_decimal(token as int)
                    + " is outside vocabulary [0, "@ + decimal(vocab_size as nat) + ")"@,
            ),
            None => None,
        }
    }
}

/// Why the first refused stop sequence is refused.
pub open spec fn patterns_error(patterns: Seq<Vec<i32>>, vocab_size: usize) -> Option<Seq<char>>
    decreases patterns.len(),
{
    if patterns.len() == 0 {
        None
    } else {
        match patterns_error(patterns.drop_last(), vocab_size) {
            Some(message) => Some(message),
            None => pattern_error(patterns.last()@, (patterns.len() - 1) as nat, vocab_size),
        }
    }
}

proof fn lemma_patterns_prefix(patterns: Seq<Vec<i32>>, vocab_size: usize, n: int)
    requires
        0 <= n <= patterns.len(),
        patterns_error(patterns.take(n), vocab_size) is Some,
    ensures
        patterns_error(patterns, vocab_size) == patterns_error(patterns.take(n), vocab_size),
    decreases patterns.len(),
{
    if n < patterns.len() {
        assert(patterns.drop_last().take(n) =~= patterns.take(n));
        lemma_patterns_prefix(patterns.drop_last(), vocab_size, n);
    } else {
        assert(patterns.take(n) =~= patterns);
    }
}

/// Accepted stop sequences are not empty.
pub proof fn lemma_patterns_not_empty(patterns: Seq<Vec<i32>>, vocab_size: usize)
    requires
        patterns_error(patterns, vocab_size) is None,
    ensures
        forall|i: int| 0 <= i < patterns.len() ==> (#[trigger] patterns[i])@.len() > 0,
    decreases patterns.len(),
{
    if patterns.len() > 0 {
        lemma_patterns_not_empty(patterns.drop_last(), vocab_size);
        assert forall|i: int| 0 <= i < patterns.len() implies (#[trigger] patterns[i])@.len()
            > 0 by {
            if i < patterns.len() - 1 {
                assert(patterns.drop_last()[i] == patterns[i]);
            }
        }
    }
}

impl GenerationControl {
    pub fn validate(&self, vocab_size: usize) -> (result: Result<(), GenerationError>)
        ensures
            match (result, patterns_error(self.stop_token_sequences@, vocab_size)) {
                (Ok(_), None) => true,
                (Err(error), Some(message)) => error.0@ == message,
                _ => false,
            },
    {
        let patterns = &self.stop_token_sequences;
        let mut index: usize = 0;
        assert(patterns@.take(0) =~= Seq::empty());
        while index < patterns.len()
            invariant
                index <= patterns@.len(),
                patterns == &self.stop_token_sequences,
                patterns_error(patterns@.take(index as int), vocab_size) is None,
            decreases patterns@.len() - index,
        {
            let pattern = &patterns[index];
            proof {
                assert(patterns@.take(index + 1).drop_last() =~= patterns@.take(index as int));
                if pattern_error(pattern@, index as nat, vocab_size) is Some {
                    lemma_patterns_prefix(patterns@, vocab_size, index + 1);
                }
            }
            if pattern.len() == 0 {
                return Err(
                    GenerationError(
                        with_number("stop sequence ", index as u64, " must not be empty"),
                    ),
                );
            }
            if let Some(token) = find_outside(pattern, vocab_size) {
                let mut message = with_number("stop sequence ", index as u64, " token ");
                push_signed(&mut message, token as i64);
                message.append(" is outside vocabulary [0, ");
                push_number(&mut message, vocab_size as u64);
                message.append(")");
                return Err(GenerationError(message));
            }
            index += 1;
        }
        assert(patterns@.take(index as int) =~= patterns@);
        Ok(())
    }

    /// `cancelled` is what a read of the attached flag returns, and false where there is none.
    pub open spec fn reads(&self, cancelled: bool) -> bool {
        match self.cancellation {
            Some(flag) => flag.reads(cancelled),
            None => !cancelled,
        }
    }

    /// What reads of the attached flag can return; without one, only that nothing is cancelled.
    pub open spec fn flag(&self) -> FlagReads {
        FlagReads { set: self.reads(true), unset: self.reads(false) }
    }

    /// Whether the attached flag, if any, reads as set.
    pub fn is_cancelled(&self) -> (cancelled: bool)
        ensures
            self.reads(cancelled),
    {
        match &self.cancellation {
            Some(flag) => flag.is_cancelled(),
            None => false,
        }
    }
}

#[derive(Debug, Clone, Copy, PartialEq, Eq, Structural)]
pub enum GenerationFinishReason {
    MaxNewTokens,
    EosToken(i32),
    /// Zero-based index in GenerationControl::stop_token_sequences.
    StopSequence(usize),
    Cancelled,
}

/// A borrowed view, valid only for the duration of a token callback. Receiving
/// it does not copy the generated history. Token IDs are not UTF-8 fragments.
#[derive(Debug, Clone, Copy)]
pub struct GenerationEvent<'a> {
    pub token_id: i32,
    pub generated_token_ids: &'a [i32],
    /// EOS / stop sequence / length termination known before invoking callback.
    pub finish_reason: Option<GenerationFinishReason>,
}

#[derive(Debug, Clone, PartialEq, Eq)]
pub struct ControlledGenerationOutput {
    pub output: TokenGenerationOutput,
    pub finish_reason: GenerationFinishReason,
}

/// The first `n` tokens of `pattern` are the last `n` tokens of `history`.
pub open spec fn overlaps(pattern: Seq<i32>, n: int, history: Seq<i32>) -> bool {
    &&& 0 <= n <= pattern.len()
    &&& n <= history.len()
    &&& forall|x: int| 0 <= x < n ==> #[trigger] pattern[x] == history[history.len() - n + x]
}

/// `history` ends with `pattern`.
pub open spec fn ends_with(history: Seq<i32>, pattern: Seq<i32>) -> bool {
    overlaps(pattern, pattern.len() as int, history)
}

/// The pattern that stops a history: the first one that it ends with.
pub open spec fn stops_at(patterns: Seq<Vec<i32>>, history: Seq<i32>, found: Option<usize>) -> bool {
    match found {
        Some(index) => index < patterns.len() && ends_with(history, patterns[index as int]@)
            && forall|j: int|
            0 <= j < index ==> !ends_with(history, (#[trigger] patterns[j])@),
        None => forall|j: int|
            0 <= j < patterns.len() ==> !ends_with(history, (#[trigger] patterns[j])@),
    }
}

/// `n` is the length of the longest proper prefix of `pattern` that `history` ends with.
pub open spec fn longest_overlap(pattern: Seq<i32>, n: int, history: Seq<i32>) -> bool {
    &&& n < pattern.len()
    &&& overlaps(pattern, n, history)
    &&& forall|k: int| n < k < pattern.len() ==> !#[trigger] overlaps(pattern, k, history)
}

/// The first `k` tokens of `pattern` are also the last ones of its first `n` tokens.
pub open spec fn border(pattern: Seq<i32>, n: int, k: int) -> bool {
    k < n && overlaps(pattern, k, pattern.take(n))
}

/// The longest border of each non-empty prefix.
pub open spec fn border_table(pattern: Seq<i32>, table: Seq<usize>) -> bool {
    &&& table.len() == pattern.len()
    &&& forall|n: int| 1 <= n <= pattern.len() ==> longest_border(pattern, n, #[trigger] table[n - 1])
}

/// `k` is the length of the longest border of the first `n` tokens.
pub open spec fn longest_border(pattern: Seq<i32>, n: int, k: usize) -> bool {
    border(pattern, n, k as int) && forall|j: int| #[trigger] border(pattern, n, j) ==> j <= k
}

/// A border of a prefix that the history ends with is an overlap too.
proof fn lemma_border_overlaps(pattern: Seq<i32>, history: Seq<i32>, n: int, k: int)
    requires
        overlaps(pattern, n, history),
        border(pattern, n, k),
    ensures
        overlaps(pattern, k, history),
{
    let shorter = pattern.take(n);
    assert forall|x: int| 0 <= x < k implies #[trigger] pattern[x] == history[history.len() - k
        + x] by {
        assert(shorter[n - k + x] == pattern[x]);
        assert(pattern[n - k + x] == history[history.len() - n + (n - k + x)]);
    }
}

/// Of two overlaps the shorter is a border of the longer.
proof fn lemma_overlap_is_border(pattern: Seq<i32>, history: Seq<i32>, n: int, k: int)
    requires
        overlaps(pattern, n, history),
        overlaps(pattern, k, history),
        k < n,
    ensures
        border(pattern, n, k),
{
    let shorter = pattern.take(n);
    assert forall|x: int| 0 <= x < k implies #[trigger] pattern[x] == shorter[shorter.len() - k
        + x] by {
        assert(pattern[n - k + x] == history[history.len() - n + (n - k + x)]);
        assert(pattern[x] == history[history.len() - k + x]);
    }
}

/// Overlaps with a history that grew by one token.
proof fn lemma_overlap_push(pattern: Seq<i32>, history: Seq<i32>, token: i32, k: int)
    requires
        1 <= k <= pattern.len(),
    ensures
        overlaps(pattern, k, history.push(token)) <==> overlaps(pattern, k - 1, history)
            && pattern[k - 1] == token,
{
    let longer = history.push(token);
    if overlaps(pattern, k, longer) {
        assert forall|x: int| 0 <= x < k - 1 implies #[trigger] pattern[x] == history[history.len()
            - (k - 1) + x] by {
            assert(pattern[x] == longer[longer.len() - k + x]);
        }
        assert(pattern[k - 1] == longer[longer.len() - k + (k - 1)]);
    }
    if overlaps(pattern, k - 1, history) && pattern[k - 1] == token {
        assert forall|x: int| 0 <= x < k implies #[trigger] pattern[x] == longer[longer.len() - k
            + x] by {
            if x < k - 1 {
                assert(pattern[x] == history[history.len() - (k - 1) + x]);
            }
        }
    }
}

/// Borders of a prefix that is one token longer.
proof fn lemma_border_step(pattern: Seq<i32>, n: int, k: int)
    requires
        1 <= n < pattern.len(),
        1 <= k,
    ensures
        border(pattern, n + 1, k) <==> border(pattern, n, k - 1) && pattern[k - 1] == pattern[n],
{
    assert(pattern.take(n + 1) =~= pattern.take(n).push(pattern[n]));
    if k <= pattern.len() {
        lemma_overlap_push(pattern, pattern.take(n), pattern[n], k);
    }
}

/// Compute the longest border of each non-empty prefix of a pattern.
fn prefix_function(pattern: &Vec<i32>) -> (table: Vec<usize>)
    requires
        pattern@.len() > 0,
    ensures
        border_table(pattern@, table@),
{
    let ghost p = pattern@;
    let mut table: Vec<usize> = Vec::with_capacity(pattern.len());
    table.push(0);
    assert(longest_border(p, 1, 0));
    let mut index: usize = 1;
    while index < pattern.len()
        invariant
            p == pattern@,
            1 <= index <= p.len(),
            table@.len() == index,
            forall|n: int| 1 <= n <= index ==> longest_border(p, n, #[trigger] table@[n - 1]),
        decreases p.len() - index,
    {
        let ghost n = index as int;
        let mut length: usize = table[index - 1];
        assert(longest_border(p, n, table@[n - 1]));
        while length > 0 && pattern[index] != pattern[length]
            invariant
                p == pattern@,
                n == index,
                1 <= index < p.len(),
                table@.len() == index,
                forall|m: int| 1 <= m <= index ==> longest_border(p, m, #[trigger] table@[m - 1]),
                border(p, n, length as int),
                forall|k: int|
                    length < k && #[trigger] border(p, n, k) ==> p[k] != p[n],
            decreases length,
        {
            let shorter: usize = table[length - 1];
            proof {
                assert(longest_border(p, length as int, table@[length - 1]));
                lemma_border_overlaps(p, p.take(n), length as int, shorter as int);
                assert forall|k: int| shorter < k && #[trigger] border(p, n, k) implies p[k]
                    != p[n] by {
                    if k < length {
                        lemma_overlap_is_border(p, p.take(n), length as int, k);
                    }
                }
            }
            length = shorter;
        }
        let ghost stem = length as int;
        if pattern[index] == pattern[length] {
            length += 1;
        }
        proof {
            if length > stem {
                lemma_border_step(p, n, length as int);
            } else {
                assert(border(p, n + 1, 0));
            }
            assert forall|j: int| #[trigger] border(p, n + 1, j) implies j <= length by {
                if j >= 1 {
                    lemma_border_step(p, n, j);
                    assert(border(p, n, j - 1));
                }
            }
            assert(longest_border(p, n + 1, length));
        }
        table.push(length);
        index += 1;
        assert forall|m: int| 1 <= m <= index implies longest_border(p, m, #[trigger] table@[m
            - 1]) by {
            if m < index {
                assert(longest_border(p, m, table@[m - 1]));
            }
        }
    }
    table
}

/// One prefix-function matcher per stop pattern. Incremental state handles
/// overlapping patterns without rescanning the entire generated history.
pub struct StopSequenceMatcher<'a> {
    pub patterns: &'a [Vec<i32>],
    pub prefixes: Vec<Vec<usize>>,
    pub matched: Vec<usize>,
    pub history: Ghost<Seq<i32>>,
}

impl<'a> StopSequenceMatcher<'a> {
    /// The tables are those of the patterns and each count is the longest overlap with the tokens
    /// seen.
    pub open spec fn wf(&self) -> bool {
        &&& self.prefixes@.len() == self.patterns@.len()
        &&& self.matched@.len() == self.patterns@.len()
        &&& forall|i: int|
            0 <= i < self.patterns@.len() ==> border_table(
                (#[trigger] self.patterns@[i])@,
                self.prefixes@[i]@,
            ) && longest_overlap(self.patterns@[i]@, self.matched@[i] as int, self.history@)
    }

    /// A matcher that has seen nothing. Patterns must not be empty, which
    /// `GenerationControl::validate` checks.
    pub fn new(patterns: &'a [Vec<i32>]) -> (matcher: Self)
        requires
            forall|i: int| 0 <= i < patterns@.len() ==> (#[trigger] patterns@[i])@.len() > 0,
        ensures
            matcher.wf(),
            matcher.patterns@ == patterns@,
            matcher.history@ == Seq::<i32>::empty(),
    {
        let mut prefixes: Vec<Vec<usize>> = Vec::with_capacity(patterns.len());
        let mut matched: Vec<usize> = Vec::with_capacity(patterns.len());
        let mut i: usize = 0;
        while i < patterns.len()
            invariant
                i <= patterns@.len(),
                forall|j: int| 0 <= j < patterns@.len() ==> (#[trigger] patterns@[j])@.len() > 0,
                prefixes@.len() == i,
                matched@.len() == i,
                forall|j: int|
                    0 <= j < i ==> border_table((#[trigger] patterns@[j])@, prefixes@[j]@)
                        && longest_overlap(
                        patterns@[j]@,
                        matched@[j] as int,
                        Seq::<i32>::empty(),
                    ),
            decreases patterns@.len() - i,
        {
            let ghost before = prefixes@;
            prefixes.push(prefix_function(&patterns[i]));
            matched.push(0);
            proof {
                assert(longest_overlap(patterns@[i as int]@, 0, Seq::<i32>::empty()));
                assert forall|j: int| 0 <= j < i + 1 implies border_table(
                    (#[trigger] patterns@[j])@,
                    prefixes@[j]@,
                ) && longest_overlap(patterns@[j]@, matched@[j] as int, Seq::<i32>::empty()) by {
                    if j < i {
                        assert(prefixes@[j] == before[j]);
                    }
                }
            }
            i += 1;
        }
        StopSequenceMatcher { patterns, prefixes, matched, history: Ghost(Seq::empty()) }
    }

    /// Take one more token and say which pattern the tokens seen now end with, if any; the first
    /// one where several do.
    pub fn push(&mut self, token: i32) -> (found: Option<usize>)
        requires
            old(self).wf(),
        ensures
            final(self).wf(),
            final(self).patterns@ == old(self).patterns@,
            final(self).history@ == old(self).history@.push(token),
            stops_at(old(self).patterns@, old(self).history@.push(token), found),
    {
        let ghost history = self.history@;
        let ghost longer = history.push(token);
        let ghost patterns = self.patterns@;
        let ghost prefixes = self.prefixes@;
        let mut first_match: Option<usize> = None;
        let mut index: usize = 0;
        while index < self.patterns.len()
            invariant
                index <= patterns.len(),
                patterns == self.patterns@,
                prefixes == self.prefixes@,
                longer == history.push(token),
                prefixes.len() == patterns.len(),
                self.matched@.len() == patterns.len(),
                forall|i: int|
                    0 <= i < patterns.len() ==> border_table(
                        (#[trigger] patterns[i])@,
                        prefixes[i]@,
                    ),
                forall|i: int|
                    0 <= i < index ==> longest_overlap(
                        (#[trigger] patterns[i])@,
                        self.matched@[i] as int,
                        longer,
                    ),
                forall|i: int|
                    index <= i < patterns.len() ==> longest_overlap(
                        (#[trigger] patterns[i])@,
                        self.matched@[i] as int,
                        history,
                    ),
                match first_match {
                    Some(found) => found < index && ends_with(longer, patterns[found as int]@)
                        && forall|j: int|
                        0 <= j < found ==> !ends_with(longer, (#[trigger] patterns[j])@),
                    None => forall|j: int|
                        0 <= j < index ==> !ends_with(longer, (#[trigger] patterns[j])@),
                },
            decreases patterns.len() - index,
        {
            let ghost p = patterns[index as int]@;
            let ghost table = prefixes[index as int]@;
            let ghost matched_before = self.matched@;
            assert(border_table(patterns[index as int]@, prefixes[index as int]@));
            assert(longest_overlap(
                patterns[index as int]@,
                self.matched@[index as int] as int,
                history,
            ));
            let length: usize = advance(
                &self.patterns[index],
                &self.prefixes[index],
                self.matched[index],
                token,
                Ghost(history),
            );
            if length == self.patterns[index].len() {
                if first_match.is_none() {
                    first_match = Some(index);
                }
                let reset: usize = self.prefixes[index][length - 1];
                proof {
                    assert(longest_border(p, p.len() as int, table[p.len() - 1]));
                    lemma_border_overlaps(p, longer, p.len() as int, reset as int);
                    assert forall|k: int| reset < k < p.len() implies !#[trigger] overlaps(
                        p,
                        k,
                        longer,
                    ) by {
                        if overlaps(p, k, longer) {
                            lemma_overlap_is_border(p, longer, p.len() as int, k);
                        }
                    }
                }
                self.matched.set(index, reset);
            } else {
                self.matched.set(index, length);
            }
            proof {
                assert forall|i: int| 0 <= i < index + 1 implies longest_overlap(
                    (#[trigger] patterns[i])@,
                    self.matched@[i] as int,
                    longer,
                ) by {
                    if i < index {
                        assert(self.matched@[i] == matched_before[i]);
                    }
                }
                assert forall|i: int| index + 1 <= i < patterns.len() implies longest_overlap(
                    (#[trigger] patterns[i])@,
                    self.matched@[i] as int,
                    history,
                ) by {
                    assert(self.matched@[i] == matched_before[i]);
                }
            }
            index += 1;
        }
        self.history = Ghost(longer);
        first_match
    }
}

/// The longest prefix of a pattern, the whole of it allowed, that a history ends with after one
/// more token.
fn advance(
    pattern: &Vec<i32>,
    table: &Vec<usize>,
    matched: usize,
    token: i32,
    Ghost(history): Ghost<Seq<i32>>,
) -> (length: usize)
    requires
        border_table(pattern@, table@),
        longest_overlap(pattern@, matched as int, history),
    ensures
        length <= pattern@.len(),
        overlaps(pattern@, length as int, history.push(token)),
        forall|k: int|
            length < k <= pattern@.len() ==> !#[trigger] overlaps(pattern@, k, history.push(token)),
{
    let ghost p = pattern@;
    let ghost longer = history.push(token);
    let mut length: usize = matched;
    while length > 0 && pattern[length] != token
        invariant
            p == pattern@,
            border_table(p, table@),
            length < p.len(),
            overlaps(p, length as int, history),
            forall|k: int|
                length < k < p.len() && #[trigger] overlaps(p, k, history) ==> p[k] != token,
        decreases length,
    {
        let shorter: usize = table[length - 1];
        proof {
            assert(longest_border(p, length as int, table@[length - 1]));
            lemma_border_overlaps(p, history, length as int, shorter as int);
            assert forall|k: int|
                shorter < k < p.len() && #[trigger] overlaps(p, k, history) implies p[k]
                != token by {
                if k < length {
                    lemma_overlap_is_border(p, history, length as int, k);
                }
            }
        }
        length = shorter;
    }
    let ghost stem = length as int;
    if length < pattern.len() && pattern[length] == token {
        length += 1;
    }
    proof {
        if length > stem {
            lemma_overlap_push(p, history, token, length as int);
        }
        assert forall|k: int| length < k <= p.len() implies !#[trigger] overlaps(p, k, longer) by {
            if overlaps(p, k, longer) {
                lemma_overlap_push(p, history, token, k);
                assert(overlaps(p, k - 1, history));
            }
        }
    }
    length
}

} // verus!
