//! Checkpoints whose tensors are read one by one, by name.

use crate::huggingface::tensors::{
    equal_shapes, first_absent, push_shape, shape_text, worded, DType, Inventory, TensorInfo,
    Wording,
};
use crate::huggingface::HuggingFaceLoadError;
use crate::names::{NameMap, NameSet};
use crate::text::text;
use std::path::PathBuf;
use vstd::prelude::*;

verus! {

/// How faults of such a checkpoint are worded.
pub open spec fn checkpoint_words() -> Wording {
    Wording {
        unindexed: ("unindexed tensor ", ""),
        misplaced: ("wrong shard for ", ""),
        duplicate: ("duplicate tensor ", ""),
        absent: ("missing indexed tensor ", ""),
    }
}

/// How faults of such a checkpoint are worded.
pub fn checkpoint_wording() -> (words: Wording)
    ensures
        words == checkpoint_words(),
{
    Wording {
        unindexed: ("unindexed tensor ", ""),
        misplaced: ("wrong shard for ", ""),
        duplicate: ("duplicate tensor ", ""),
        absent: ("missing indexed tensor ", ""),
    }
}

/// The files of a checkpoint, what it says of its tensors, and which tensors were read.
pub struct Checkpoint {
    pub files: Vec<PathBuf>,
    pub tensors: NameMap<TensorInfo>,
    pub consumed: NameSet,
}

/// Whether elements of a type are floating-point numbers that a model can be loaded from.
pub open spec fn loadable(dtype: DType) -> bool {
    dtype is F32 || dtype is F16 || dtype is BF16
}

/// What is wrong with a tensor that should have a shape.
pub open spec fn read_fault(
    tensors: Map<Seq<char>, TensorInfo>,
    name: Seq<char>,
    shape: Seq<usize>,
) -> Option<Seq<char>> {
    if !tensors.contains_key(name) {
        Some("missing tensor "@ + name)
    } else {
        let info = tensors[name];
        if info.shape@ != shape || !loadable(info.dtype) {
            Some(
                name + ": expected floating "@ + shape_text(shape) + ", found "@
                    + info.dtype.name() + " "@ + shape_text(info.shape@),
            )
        } else {
            None
        }
    }
}

impl Checkpoint {
    /// Both collections are in order.
    pub open spec fn wf(&self) -> bool {
        self.tensors.wf() && self.consumed.wf()
    }

    /// A checkpoint of an inventory in which no indexed tensor is absent.
    pub fn open(files: Vec<PathBuf>, inventory: Inventory) -> (result: Result<
        Self,
        HuggingFaceLoadError,
    >)
        requires
            inventory.wf(),
        ensures
            match result {
                Ok(checkpoint) => {
                    &&& checkpoint.wf()
                    &&& checkpoint.files == files
                    &&& checkpoint.tensors@ == inventory.tensors@
                    &&& checkpoint.consumed@.dom() == Set::<Seq<char>>::empty()
                    &&& inventory.indexed() matches Some(index) ==> index.dom().subset_of(
                        inventory.tensors@.dom(),
                    )
                },
                Err(error) => {
                    &&& inventory.indexed() is Some
                    &&& exists|name: Seq<char>| #[trigger]
                        first_absent(inventory.indexed()->0.dom(), inventory.tensors@.dom(), name)
                            && error.0@ == worded(checkpoint_words().absent, name)
                },
            },
    {
        let words = checkpoint_wording();
        match inventory.finish(&words) {
            Ok(tensors) => {
                let consumed: NameSet = NameMap::new();
                assert(consumed@.dom() =~= Set::<Seq<char>>::empty());
                Ok(Checkpoint { files, tensors, consumed })
            },
            Err(error) => Err(error),
        }
    }

    /// The element type of a tensor that has the expected shape and floating elements.
    pub fn validate(&self, name: &str, shape: &[usize]) -> (result: Result<
        DType,
        HuggingFaceLoadError,
    >)
        requires
            self.wf(),
        ensures
            match result {
                Ok(dtype) => read_fault(self.tensors@, name@, shape@) is None && dtype
                    == self.tensors@[name@].dtype,
                Err(error) => read_fault(self.tensors@, name@, shape@) == Some(error.0@),
            },
    {
        match self.tensors.get(name) {
            None => {
                let mut message = text("missing tensor ");
                message.append(name);
                Err(HuggingFaceLoadError(message))
            },
            Some(info) => {
                let floating = match info.dtype {
                    DType::F32 => true,
                    DType::F16 => true,
                    DType::BF16 => true,
                    _ => false,
                };
                if equal_shapes(&info.shape, shape) && floating {
                    return Ok(info.dtype);
                }
                let mut message = text(name);
                message.append(": expected floating ");
                push_shape(&mut message, shape);
                message.append(", found ");
                message.append(info.dtype.as_str());
                message.append(" ");
                push_shape(&mut message, &info.shape);
                Err(HuggingFaceLoadError(message))
            },
        }
    }

    /// Take note that a tensor was read. `data` is what reading it gave: its elements, or why they
    /// could not be read.
    pub fn tensor<D>(&mut self, name: &str, shape: &[usize], data: Result<D, String>) -> (result:
        Result<(D, DType), HuggingFaceLoadError>)
        requires
            old(self).wf(),
        ensures
            final(self).wf(),
            final(self).files == old(self).files,
            final(self).tensors == old(self).tensors,
            match (read_fault(old(self).tensors@, name@, shape@), data) {
                (Some(message), _) => result matches Err(error) && error.0@ == message
                    && final(self).consumed == old(self).consumed,
                (None, Err(reason)) => result matches Err(error) && error.0@ == name@ + ": "@
                    + reason@ && final(self).consumed == old(self).consumed,
                (None, Ok(elements)) => result == Ok::<(D, DType), HuggingFaceLoadError>(
                    (elements, old(self).tensors@[name@].dtype),
                ) && final(self).consumed@.dom() == old(self).consumed@.dom().insert(name@),
            },
    {
        let dtype = match self.validate(name, shape) {
            Ok(dtype) => dtype,
            Err(error) => {
                return Err(error);
            },
        };
        match data {
            Ok(elements) => {
                let _ = self.consumed.insert(text(name), ());
                Ok((elements, dtype))
            },
            Err(reason) => {
                let mut message = text(name);
                message.append(": ");
                message.append(reason.as_str());
                Err(HuggingFaceLoadError(message))
            },
        }
    }
}

} // verus!
