//! A model's cache together with the tokens that it has read.

use crate::generation::{CausalModel, GenerationError};
use crate::logits::{LogitBlock, LogitBlockModel};
use crate::text::{decimal, push_number, text, with_number};
use vstd::prelude::*;

verus! {

/// An opt-in extension: ordinary cached generation implementations are unchanged.
pub trait SpeculativeModel: CausalModel {
    /// A pass over a block of tokens may take the cache from `before` to `after` and end with
    /// `result`. A model that says nothing of its passes may do anything.
    open spec fn block_advances(
        &self,
        tokens: Seq<i32>,
        before: Self::Cache,
        after: Self::Cache,
        result: Result<LogitBlock, GenerationError>,
    ) -> bool {
        true
    }

    /// Fork ALL semantic state, including position, recurrent and convolution state.
    /// Future writes to either branch must not change the other branch.
    fn fork_cache(&self, cache: &Self::Cache) -> Self::Cache;

    /// Append the whole candidate block in one model forward, returning one logit
    /// row per input token. Row i predicts the token AFTER input i.
    fn try_forward_cached_block(&self, tokens: &[i32], cache: &mut Self::Cache) -> (result: Result<
        LogitBlock,
        GenerationError,
    >)
        ensures
            self.block_advances(tokens@, *old(cache), *final(cache), result),
    ;
}

/// What was done to a cache.
#[verifier::ext_equal]
pub enum Feed {
    /// Tokens were read, for the logits after the last one.
    Last(Seq<i32>),
    /// Tokens were read, for the logits after each one.
    Block(Seq<i32>),
    /// A copy was taken.
    Fork,
}

/// One step in the life of a cache.
#[verifier::reject_recursive_types(C)]
pub struct Step<C> {
    pub feed: Feed,
    /// What a pass returned; without meaning where a copy was taken.
    pub block: LogitBlock,
    /// The cache afterwards.
    pub cache: C,
}

/// The life of a cache: where it started and each step since.
#[verifier::reject_recursive_types(C)]
pub struct Path<C> {
    pub start: C,
    pub steps: Seq<Step<C>>,
}

impl Feed {
    /// The tokens that were read.
    pub open spec fn tokens(self) -> Seq<i32> {
        match self {
            Feed::Last(tokens) => tokens,
            Feed::Block(tokens) => tokens,
            Feed::Fork => Seq::empty(),
        }
    }
}

impl<C> Path<C> {
    /// The cache after `i` steps.
    pub open spec fn cache(self, i: int) -> C {
        if i == 0 {
            self.start
        } else {
            self.steps[i - 1].cache
        }
    }

    /// The cache at the end.
    pub open spec fn end(self) -> C {
        self.cache(self.steps.len() as int)
    }

    /// The path without its last step.
    pub open spec fn prefix(self) -> Path<C> {
        Path { start: self.start, steps: self.steps.drop_last() }
    }

    /// The tokens read along the way.
    pub open spec fn fed(self) -> Seq<i32>
        decreases self.steps.len(),
    {
        if self.steps.len() == 0 {
            Seq::empty()
        } else {
            self.prefix().fed() + self.steps.last().feed.tokens()
        }
    }

    /// The path with one more step.
    pub open spec fn then_step(self, step: Step<C>) -> Path<C> {
        Path { start: self.start, steps: self.steps.push(step) }
    }
}

/// A step may take a cache to where it says. Passes read something.
pub open spec fn steps_from<M: SpeculativeModel>(
    model: &M,
    before: M::Cache,
    step: Step<M::Cache>,
) -> bool {
    match step.feed {
        Feed::Last(tokens) => tokens.len() > 0 && model.advances(
            tokens,
            before,
            step.cache,
            Ok(step.block),
        ),
        Feed::Block(tokens) => tokens.len() > 0 && model.block_advances(
            tokens,
            before,
            step.cache,
            Ok(step.block),
        ),
        Feed::Fork => call_ensures(M::fork_cache, (model, &before), step.cache),
    }
}

/// A path that a cache of the model may have taken from the moment it was made.
pub open spec fn walked<M: SpeculativeModel>(model: &M, path: Path<M::Cache>) -> bool {
    &&& call_ensures(M::new_cache, (model,), path.start)
    &&& forall|i: int|
        0 <= i < path.steps.len() ==> #[trigger] steps_from(model, path.cache(i), path.steps[i])
}

/// Row `row` of logits answers for the token after `context`: the model returned it, over a cache
/// that had read exactly `context`.
pub open spec fn predicted<M: SpeculativeModel>(
    model: &M,
    vocabulary: usize,
    context: Seq<i32>,
    row: Seq<u32>,
) -> bool {
    exists|path: Path<M::Cache>, j: int| #[trigger]
        predicted_by(model, vocabulary, context, row, path, j)
}

/// The last step of a path returned `row` for the token after `context`, at position `j` of what it
/// read.
pub open spec fn predicted_by<M: SpeculativeModel>(
    model: &M,
    vocabulary: usize,
    context: Seq<i32>,
    row: Seq<u32>,
    path: Path<M::Cache>,
    j: int,
) -> bool {
    &&& walked(model, path)
    &&& path.steps.len() > 0
    &&& match path.steps.last().feed {
        Feed::Last(tokens) => {
            &&& has_dims(path.steps.last().block@, 1, vocabulary)
            &&& path.fed() == context
            &&& row == path.steps.last().block@.last_row()
        },
        Feed::Block(tokens) => {
            &&& has_dims(path.steps.last().block@, tokens.len(), vocabulary)
            &&& 0 <= j < tokens.len()
            &&& path.prefix().fed() + tokens.take(j + 1) == context
            &&& row == path.steps.last().block@.row(j)
        },
        Feed::Fork => false,
    }
}

/// A block holds logits for `sequence` positions of a single request.
pub open spec fn has_dims(block: LogitBlockModel, sequence: nat, vocabulary: usize) -> bool {
    block.batch == 1 && block.sequence == sequence && block.vocabulary == vocabulary
}

/// The shape of a block in words.
pub open spec fn dims_text(batch: nat, sequence: nat, vocabulary: nat) -> Seq<char> {
    "["@ + decimal(batch) + ", "@ + decimal(sequence) + ", "@ + decimal(vocabulary) + "]"@
}

/// The message for a pass over some tokens whose block does not have one row.
pub open spec fn last_shape_message(block: LogitBlockModel, vocabulary: usize) -> Seq<char> {
    "expected last logits [1, 1, "@ + decimal(vocabulary as nat) + "], got "@ + dims_text(
        block.batch as nat,
        block.sequence as nat,
        block.vocabulary as nat,
    )
}

/// The message for a pass over a block of `n` tokens that does not have `n` rows.
pub open spec fn block_shape_message(block: LogitBlockModel, n: nat, vocabulary: usize) -> Seq<
    char,
> {
    "expected speculative block logits "@ + dims_text(1, n, vocabulary as nat) + ", got "@
        + dims_text(block.batch as nat, block.sequence as nat, block.vocabulary as nat)
}

/// A pass over a cache that had read exactly `context` fails with `error`: the model says so, or
/// returns logits of another shape.
pub open spec fn pass_fails<M: SpeculativeModel>(
    model: &M,
    vocabulary: usize,
    context: Seq<i32>,
    feed: Feed,
    error: GenerationError,
) -> bool {
    exists|path: Path<M::Cache>, after: M::Cache, result: Result<LogitBlock, GenerationError>|
        #[trigger]
        pass_failed_at(model, vocabulary, error, path, after, feed, result) && path.fed()
            == context
}

/// The pass that comes after a path failed with `error`.
pub open spec fn pass_failed_at<M: SpeculativeModel>(
    model: &M,
    vocabulary: usize,
    error: GenerationError,
    path: Path<M::Cache>,
    after: M::Cache,
    feed: Feed,
    result: Result<LogitBlock, GenerationError>,
) -> bool {
    &&& walked(model, path)
    &&& match feed {
        Feed::Last(tokens) => model.advances(tokens, path.end(), after, result) && match result {
            Err(reported) => error == reported,
            Ok(block) => !has_dims(block@, 1, vocabulary) && error.0@ == last_shape_message(
                block@,
                vocabulary,
            ),
        },
        Feed::Block(tokens) => model.block_advances(tokens, path.end(), after, result)
            && match result {
            Err(reported) => error == reported,
            Ok(block) => !has_dims(block@, tokens.len(), vocabulary) && error.0@
                == block_shape_message(block@, tokens.len(), vocabulary),
        },
        Feed::Fork => false,
    }
}

pub(crate) proof fn lemma_then_step<M: SpeculativeModel>(
    model: &M,
    path: Path<M::Cache>,
    step: Step<M::Cache>,
)
    requires
        walked(model, path),
        steps_from(model, path.end(), step),
    ensures
        walked(model, path.then_step(step)),
        path.then_step(step).prefix() == path,
        path.then_step(step).end() == step.cache,
        path.then_step(step).fed() == path.fed() + step.feed.tokens(),
{
    let longer = path.then_step(step);
    assert(longer.steps.drop_last() =~= path.steps);
    assert forall|i: int| 0 <= i < longer.steps.len() implies #[trigger] steps_from(
        model,
        longer.cache(i),
        longer.steps[i],
    ) by {
        if i < path.steps.len() {
            assert(steps_from(model, path.cache(i), path.steps[i]));
            assert(longer.cache(i) == path.cache(i));
        } else {
            assert(longer.cache(i) == path.end());
        }
    }
}

fn push_dims(message: &mut String, batch: usize, sequence: usize, vocabulary: usize)
    ensures
        final(message)@ == old(message)@ + dims_text(
            batch as nat,
            sequence as nat,
            vocabulary as nat,
        ),
{
    let ghost before = message@;
    message.append("[");
    push_number(message, batch as u64);
    message.append(", ");
    push_number(message, sequence as u64);
    message.append(", ");
    push_number(message, vocabulary as u64);
    message.append("]");
    assert(message@ =~= before + dims_text(batch as nat, sequence as nat, vocabulary as nat));
}

/// A cache and, for reasoning, the path that it has taken.
pub struct Branch<M: SpeculativeModel> {
    pub cache: M::Cache,
    pub path: Ghost<Path<M::Cache>>,
}

impl<M: SpeculativeModel> Branch<M> {
    /// The path leads to the cache.
    pub open spec fn wf(&self, model: &M) -> bool {
        walked(model, self.path@) && self.path@.end() == self.cache
    }

    /// What the cache has read.
    pub open spec fn context(&self) -> Seq<i32> {
        self.path@.fed()
    }

    pub fn new(model: &M) -> (branch: Self)
        ensures
            branch.wf(model),
            branch.context() == Seq::<i32>::empty(),
    {
        let cache = model.new_cache();
        let path = Ghost(Path { start: cache, steps: Seq::empty() });
        Branch { cache, path }
    }

    pub fn fork(&self, model: &M) -> (branch: Self)
        requires
            self.wf(model),
        ensures
            branch.wf(model),
            branch.context() == self.context(),
    {
        let cache = model.fork_cache(&self.cache);
        let ghost step = Step::<M::Cache> {
            feed: Feed::Fork,
            block: arbitrary(),
            cache,
        };
        proof {
            lemma_then_step(model, self.path@, step);
            assert(self.path@.fed() + step.feed.tokens() =~= self.path@.fed());
        }
        Branch { cache, path: Ghost(self.path@.then_step(step)) }
    }

    /// Read tokens; the logits after the last one.
    pub fn next_row(&mut self, model: &M, tokens: &[i32], vocabulary: usize) -> (result: Result<
        Vec<u32>,
        GenerationError,
    >)
        requires
            old(self).wf(model),
            vocabulary > 0,
            tokens@.len() > 0,
        ensures
            match result {
                Ok(row) => {
                    &&& final(self).wf(model)
                    &&& final(self).context() == old(self).context() + tokens@
                    &&& row@.len() == vocabulary
                    &&& predicted(model, vocabulary, final(self).context(), row@)
                },
                Err(error) => pass_fails(
                    model,
                    vocabulary,
                    old(self).context(),
                    Feed::Last(tokens@),
                    error,
                ),
            },
    {
        let ghost before = self.path@;
        let result = model.try_forward_cached_last(tokens, &mut self.cache);
        let ghost feed = Feed::Last(tokens@);
        let logits = match result {
            Ok(logits) => logits,
            Err(error) => {
                assert(pass_failed_at(model, vocabulary, error, before, self.cache, feed, result));
                return Err(error);
            },
        };
        if !logits.has_shape(1, 1, vocabulary) {
            let mut message = with_number(
                "expected last logits [1, 1, ",
                vocabulary as u64,
                "], got ",
            );
            push_dims(&mut message, logits.batch(), logits.sequence(), logits.vocabulary());
            let error = GenerationError(message);
            assert(pass_failed_at(model, vocabulary, error, before, self.cache, feed, result));
            return Err(error);
        }
        let ghost step = Step::<M::Cache> { feed, block: logits, cache: self.cache };
        proof {
            lemma_then_step(model, before, step);
        }
        self.path = Ghost(before.then_step(step));
        let row = logits.copy_last_row();
        assert(predicted_by(model, vocabulary, self.context(), row@, self.path@, 0));
        Ok(row)
    }

    /// Read a block of tokens; the logits after each one.
    pub fn block_rows(&mut self, model: &M, tokens: &[i32], vocabulary: usize) -> (result: Result<
        Vec<u32>,
        GenerationError,
    >)
        requires
            old(self).wf(model),
            tokens@.len() > 0,
        ensures
            match result {
                Ok(rows) => {
                    &&& final(self).wf(model)
                    &&& final(self).context() == old(self).context() + tokens@
                    &&& rows@.len() == tokens@.len() * vocabulary
                    &&& forall|j: int|
                        0 <= j < tokens@.len() ==> predicted(
                            model,
                            vocabulary,
                            old(self).context() + tokens@.take(j + 1),
                            #[trigger] row_of(rows@, vocabulary, j),
                        )
                },
                Err(error) => pass_fails(
                    model,
                    vocabulary,
                    old(self).context(),
                    Feed::Block(tokens@),
                    error,
                ),
            },
    {
        let ghost before = self.path@;
        let result = model.try_forward_cached_block(tokens, &mut self.cache);
        let ghost feed = Feed::Block(tokens@);
        let logits = match result {
            Ok(logits) => logits,
            Err(error) => {
                assert(pass_failed_at(model, vocabulary, error, before, self.cache, feed, result));
                return Err(error);
            },
        };
        if !logits.has_shape(1, tokens.len(), vocabulary) {
            let mut message = text("expected speculative block logits ");
            push_dims(&mut message, 1, tokens.len(), vocabulary);
            message.append(", got ");
            push_dims(&mut message, logits.batch(), logits.sequence(), logits.vocabulary());
            let error = GenerationError(message);
            assert(error.0@ =~= block_shape_message(logits@, tokens@.len(), vocabulary));
            assert(pass_failed_at(model, vocabulary, error, before, self.cache, feed, result));
            return Err(error);
        }
        let ghost step = Step::<M::Cache> { feed, block: logits, cache: self.cache };
        proof {
            lemma_then_step(model, before, step);
        }
        self.path = Ghost(before.then_step(step));
        let ghost path = self.path@;
        let values = logits.values();
        let rows = crate::logits::copy_range(values, 0, values.len());
        proof {
            assert(rows@ =~= logits@.values);
            assert forall|j: int| 0 <= j < tokens@.len() implies predicted(
                model,
                vocabulary,
                before.fed() + tokens@.take(j + 1),
                #[trigger] row_of(rows@, vocabulary, j),
            ) by {
                assert(predicted_by(
                    model,
                    vocabulary,
                    before.fed() + tokens@.take(j + 1),
                    row_of(rows@, vocabulary, j),
                    path,
                    j,
                ));
            }
        }
        Ok(rows)
    }
}

/// Row `j` of rows that stand one after the other.
pub open spec fn row_of(rows: Seq<u32>, vocabulary: usize, j: int) -> Seq<u32> {
    rows.subrange(j * vocabulary, (j + 1) * vocabulary)
}

} // verus!
