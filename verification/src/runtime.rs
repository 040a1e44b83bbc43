//! Errors of the device runtime and the state of submitted work.

use crate::logits::{first_maximum, maximum_index, nan_32, INFINITY_32, NEG_INFINITY_32};
use crate::generation::sampling::{all_masked, unordered_logit, unusable};
use crate::logits::is_nan_32;
use crate::text::text;
use vstd::prelude::*;

verus! {

#[derive(Debug, Clone, Copy, PartialEq, Eq, Structural)]
pub enum RuntimeErrorKind {
    InvalidInput,
    OutOfMemory,
    DeviceLost,
    Synchronization,
    WorkerPanicked,
    Numerical,
    DriverIncompatible,
    Cancelled,
    Internal,
}

/// Whether generation may use kernels that a device has to be capable of.
#[derive(Debug, Clone, Copy, PartialEq, Eq, Structural)]
pub enum KernelMode {
    Portable,
    Automatic,
}

/// Whether device work may still be running.
#[derive(Debug, Clone, Copy, PartialEq, Eq, Structural)]
pub enum WorkState {
    NotSubmitted,
    Completed,
    Unknown,
}

#[derive(Debug, Clone, PartialEq, Eq)]
pub struct RuntimeError {
    pub kind: RuntimeErrorKind,
    pub message: String,
}

impl RuntimeError {
    pub fn new(kind: RuntimeErrorKind, message: String) -> (error: Self)
        ensures
            error.kind == kind,
            error.message@ == message@,
    {
        RuntimeError { kind, message }
    }

    /// An error in what the caller supplied.
    pub fn invalid(message: &str) -> (error: Self)
        ensures
            error.kind is InvalidInput,
            error.message@ == message@,
    {
        RuntimeError { kind: RuntimeErrorKind::InvalidInput, message: text(message) }
    }

    pub fn kind(&self) -> (kind: RuntimeErrorKind)
        ensures
            kind == self.kind,
    {
        self.kind
    }

    /// The message.
    pub fn to_string(&self) -> (message: String)
        ensures
            message@ == self.message@,
    {
        self.message.clone()
    }
}

/// A row of logits that a token can be chosen from: none is NaN or positive infinity, and not all
/// are masked.
pub open spec fn healthy_row(row: Seq<u32>) -> bool {
    row.len() > 0 && !unordered_logit(row) && !all_masked(row)
}

/// What is said of a row that is not healthy.
pub open spec fn row_fault(row: Seq<u32>) -> Seq<char> {
    if unordered_logit(row) {
        "logits contain NaN or positive infinity"@
    } else {
        "all logits are masked"@
    }
}

/// The index of the first greatest logit of a healthy row.
pub fn checked_argmax(row: &[u32]) -> (result: Result<usize, RuntimeError>)
    ensures
        match result {
            Ok(index) => healthy_row(row@) && first_maximum(row@, index as int),
            Err(error) => !healthy_row(row@) && error.kind is Numerical && error.message@
                == row_fault(row@),
        },
{
    let mut masked = true;
    let mut i: usize = 0;
    while i < row.len()
        invariant
            i <= row@.len(),
            forall|j: int| 0 <= j < i ==> !unusable(#[trigger] row@[j]),
            masked <==> forall|j: int| 0 <= j < i ==> #[trigger] row@[j] == NEG_INFINITY_32,
        decreases row@.len() - i,
    {
        if is_nan_32(row[i]) || row[i] == INFINITY_32 {
            assert(unusable(row@[i as int]));
            return Err(
                RuntimeError::new(
                    RuntimeErrorKind::Numerical,
                    text("logits contain NaN or positive infinity"),
                ),
            );
        }
        if row[i] != NEG_INFINITY_32 {
            masked = false;
            assert(row@[i as int] != NEG_INFINITY_32);
        }
        i += 1;
    }
    if masked {
        return Err(
            RuntimeError::new(RuntimeErrorKind::Numerical, text("all logits are masked")),
        );
    }
    match maximum_index(row) {
        Some(index) => Ok(index),
        None => {
            proof {
                let j = choose|j: int| 0 <= j < row@.len() && row@[j] != NEG_INFINITY_32;
                assert(!unusable(row@[j]));
                assert(nan_32(row@[j]));
            }
            Err(RuntimeError::new(RuntimeErrorKind::Numerical, text("all logits are masked")))
        },
    }
}

/// A row is answered with the place of its first greatest logit if and only if it has any that is
/// not masked and none that is positive infinity or no number.
pub proof fn law_healthy_rows_have_a_greatest_logit(
    row: &[u32],
    result: Result<usize, RuntimeError>,
)
    requires
        call_ensures(checked_argmax, (row,), result),
    ensures
        result is Ok <==> {
            &&& exists|i: int| 0 <= i < row@.len() && #[trigger] row@[i] != 0xFF80_0000
            &&& forall|i: int|
                0 <= i < row@.len() ==> (#[trigger] row@[i]) % 0x8000_0000 < 0x7F80_0000 || row@[i]
                    == 0xFF80_0000
        },
        result matches Ok(index) ==> index < row@.len() && forall|i: int|
            0 <= i < row@.len() ==> {
                let own = row@[index as int];
                let other = #[trigger] row@[i];
                &&& own < 0x8000_0000 && other < 0x8000_0000 ==> other < own || (other == own
                    && index <= i)
                &&& own >= 0x8000_0000 && other >= 0x8000_0000 ==> other > own || (other == own
                    && index <= i)
                &&& own >= 0x8000_0000 && other < 0x8000_0000 ==> own == 0x8000_0000 && other == 0
                    && index <= i
            },
{
    if forall|i: int|
        0 <= i < row@.len() ==> (#[trigger] row@[i]) % 0x8000_0000 < 0x7F80_0000 || row@[i]
            == 0xFF80_0000 {
        assert forall|i: int| 0 <= i < row@.len() implies !unusable(
            #[trigger] row@[i],
        ) by {}
    }
    if !unordered_logit(row@) {
        assert forall|i: int| 0 <= i < row@.len() implies (#[trigger] row@[i]) % 0x8000_0000
            < 0x7F80_0000 || row@[i] == 0xFF80_0000 by {
            assert(!unusable(row@[i]));
        }
        assert forall|i: int| 0 <= i < row@.len() implies !nan_32(
            #[trigger] row@[i],
        ) by {
            assert(!unusable(row@[i]));
        }
    }
}

} // verus!
