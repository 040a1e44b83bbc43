//! What a checkpoint says of its tensors, and how the inventory of its files is put together.

use crate::huggingface::HuggingFaceLoadError;
use crate::names::{joined, NameMap};
use crate::text::{decimal, push_number, text};
use vstd::prelude::*;

verus! {

/// The type of a tensor's elements.
#[derive(Debug, Clone, Copy, PartialEq, Eq, Structural)]
pub enum DType {
    F64,
    F32,
    F16,
    BF16,
    I64,
    I32,
    I16,
    I8,
    U64,
    U32,
    U16,
    U8,
    Bool,
    /// Any type that no supported tensor has.
    Other,
}

impl DType {
    /// The name of the type in messages.
    pub open spec fn name(self) -> Seq<char> {
        match self {
            DType::F64 => "F64"@,
            DType::F32 => "F32"@,
            DType::F16 => "F16"@,
            DType::BF16 => "BF16"@,
            DType::I64 => "I64"@,
            DType::I32 => "I32"@,
            DType::I16 => "I16"@,
            DType::I8 => "I8"@,
            DType::U64 => "U64"@,
            DType::U32 => "U32"@,
            DType::U16 => "U16"@,
            DType::U8 => "U8"@,
            DType::Bool => "Bool"@,
            DType::Other => "Other"@,
        }
    }

    /// The name of the type in messages.
    pub fn as_str(self) -> (name: &'static str)
        ensures
            name@ == self.name(),
    {
        match self {
            DType::F64 => "F64",
            DType::F32 => "F32",
            DType::F16 => "F16",
            DType::BF16 => "BF16",
            DType::I64 => "I64",
            DType::I32 => "I32",
            DType::I16 => "I16",
            DType::I8 => "I8",
            DType::U64 => "U64",
            DType::U32 => "U32",
            DType::U16 => "U16",
            DType::U8 => "U8",
            DType::Bool => "Bool",
            DType::Other => "Other",
        }
    }
}

/// Type and shape of a stored tensor.
#[derive(Debug)]
pub struct TensorInfo {
    pub dtype: DType,
    pub shape: Vec<usize>,
}

impl View for TensorInfo {
    type V = (DType, Seq<usize>);

    open spec fn view(&self) -> (DType, Seq<usize>) {
        (self.dtype, self.shape@)
    }
}

impl Clone for TensorInfo {
    fn clone(&self) -> (copy: Self)
        ensures
            copy@ == self@,
    {
        TensorInfo { dtype: self.dtype, shape: copy_shape(&self.shape) }
    }
}

/// A copy of a shape.
pub fn copy_shape(shape: &[usize]) -> (copy: Vec<usize>)
    ensures
        copy@ == shape@,
{
    let mut copy: Vec<usize> = Vec::with_capacity(shape.len());
    let mut i: usize = 0;
    while i < shape.len()
        invariant
            i <= shape@.len(),
            copy@ == shape@.take(i as int),
        decreases shape@.len() - i,
    {
        copy.push(shape[i]);
        i += 1;
        assert(copy@ =~= shape@.take(i as int));
    }
    assert(copy@ =~= shape@);
    copy
}

/// Whether two shapes are equal.
pub fn equal_shapes(left: &[usize], right: &[usize]) -> (same: bool)
    ensures
        same == (left@ == right@),
{
    if left.len() != right.len() {
        return false;
    }
    let mut i: usize = 0;
    while i < left.len()
        invariant
            i <= left@.len() == right@.len(),
            forall|j: int| 0 <= j < i ==> left@[j] == right@[j],
        decreases left@.len() - i,
    {
        if left[i] != right[i] {
            return false;
        }
        i += 1;
    }
    assert(left@ =~= right@);
    true
}

/// Dimensions in decimal notation.
pub open spec fn decimals(shape: Seq<usize>) -> Seq<Seq<char>> {
    Seq::new(shape.len(), |i: int| decimal(shape[i] as nat))
}

/// A shape in messages.
pub open spec fn shape_text(shape: Seq<usize>) -> Seq<char> {
    "["@ + joined(decimals(shape), ", "@) + "]"@
}

/// Append a shape to a message.
pub fn push_shape(message: &mut String, shape: &[usize])
    ensures
        final(message)@ == old(message)@ + shape_text(shape@),
{
    let ghost before = message@;
    message.append("[");
    let ghost start = message@;
    let ghost all = decimals(shape@);
    let mut i: usize = 0;
    assert(all.take(0) =~= Seq::<Seq<char>>::empty());
    assert(message@ =~= start + joined(all.take(0), ", "@));
    while i < shape.len()
        invariant
            i <= shape@.len(),
            all == decimals(shape@),
            message@ == start + joined(all.take(i as int), ", "@),
        decreases shape@.len() - i,
    {
        let ghost shorter = all.take(i as int);
        let ghost longer = all.take(i + 1);
        assert(longer.drop_last() =~= shorter);
        assert(longer.last() == decimal(shape@[i as int] as nat));
        if i > 0 {
            message.append(", ");
        }
        push_number(message, shape[i] as u64);
        i += 1;
        assert(message@ =~= start + joined(longer, ", "@));
    }
    assert(all.take(i as int) =~= all);
    message.append("]");
    assert(message@ =~= before + shape_text(shape@));
}

/// How faults of an inventory are worded: what comes before the name of a tensor, and after it.
pub struct Wording {
    pub unindexed: (&'static str, &'static str),
    pub misplaced: (&'static str, &'static str),
    pub duplicate: (&'static str, &'static str),
    pub absent: (&'static str, &'static str),
}

/// A name between two pieces of text.
pub open spec fn worded(words: (&str, &str), name: Seq<char>) -> Seq<char> {
    words.0@ + name + words.1@
}

fn word(words: (&str, &str), name: &str) -> (error: HuggingFaceLoadError)
    ensures
        error.0@ == worded(words, name@),
{
    let mut message = text(words.0);
    message.append(name);
    message.append(words.1);
    HuggingFaceLoadError(message)
}

/// The tensors of a checkpoint, file by file.
///
/// Where the checkpoint has an index, it names for each tensor the file that the tensor's shard
/// resolves to.
#[derive(Debug)]
pub struct Inventory {
    pub index: Option<NameMap<Vec<u8>>>,
    pub tensors: NameMap<TensorInfo>,
}

/// What is wrong with a tensor of a file, given the tensors so far.
pub open spec fn tensor_fault(
    index: Option<Map<Seq<char>, Vec<u8>>>,
    tensors: Map<Seq<char>, TensorInfo>,
    file: Seq<u8>,
    name: Seq<char>,
    words: Wording,
) -> Option<Seq<char>> {
    if index is Some && !index->0.contains_key(name) {
        Some(worded(words.unindexed, name))
    } else if index is Some && index->0[name]@ != file {
        Some(worded(words.misplaced, name))
    } else if tensors.contains_key(name) {
        Some(worded(words.duplicate, name))
    } else {
        None
    }
}

/// The tensors after those of a file were added.
pub open spec fn with_tensors(
    tensors: Map<Seq<char>, TensorInfo>,
    stored: Seq<(String, TensorInfo)>,
) -> Map<Seq<char>, TensorInfo>
    decreases stored.len(),
{
    if stored.len() == 0 {
        tensors
    } else {
        with_tensors(tensors, stored.drop_last()).insert(stored.last().0@, stored.last().1)
    }
}

/// What is wrong with a file: the fault of its first tensor that has one.
pub open spec fn shard_fault(
    index: Option<Map<Seq<char>, Vec<u8>>>,
    tensors: Map<Seq<char>, TensorInfo>,
    file: Seq<u8>,
    stored: Seq<(String, TensorInfo)>,
    words: Wording,
) -> Option<Seq<char>>
    decreases stored.len(),
{
    if stored.len() == 0 {
        None
    } else {
        let earlier = stored.drop_last();
        match shard_fault(index, tensors, file, earlier, words) {
            Some(message) => Some(message),
            None => tensor_fault(
                index,
                with_tensors(tensors, earlier),
                file,
                stored.last().0@,
                words,
            ),
        }
    }
}

impl Inventory {
    /// Both maps are in order.
    pub open spec fn wf(&self) -> bool {
        self.tensors.wf() && (self.index matches Some(index) ==> index.wf())
    }

    /// The index as a map.
    pub open spec fn indexed(&self) -> Option<Map<Seq<char>, Vec<u8>>> {
        match self.index {
            Some(index) => Some(index@),
            None => None,
        }
    }

    pub fn new(index: Option<NameMap<Vec<u8>>>) -> (inventory: Self)
        requires
            index matches Some(index) ==> index.wf(),
        ensures
            inventory.wf(),
            inventory.index == index,
            inventory.tensors@ == Map::<Seq<char>, TensorInfo>::empty(),
    {
        Inventory { index, tensors: NameMap::new() }
    }

    /// Add the tensors of a file: each has to be indexed for that file, where there is an index,
    /// and new.
    pub fn add_shard(&mut self, file: &[u8], stored: Vec<(String, TensorInfo)>, words: &Wording) -> (result:
        Result<(), HuggingFaceLoadError>)
        requires
            old(self).wf(),
        ensures
            final(self).wf(),
            final(self).index == old(self).index,
            match (
                result,
                shard_fault(old(self).indexed(), old(self).tensors@, file@, stored@, *words),
            ) {
                (Ok(_), None) => final(self).tensors@ == with_tensors(old(self).tensors@, stored@),
                (Err(error), Some(message)) => error.0@ == message,
                _ => false,
            },
    {
        let ghost before = self.tensors@;
        let ghost index = self.indexed();
        let ghost all = stored@;
        let mut ordered = stored;
        let mut position: usize = 0;
        let count: usize = ordered.len();
        // Taken from the front, in the order of the file.
        let mut rest: Vec<(String, TensorInfo)> = Vec::with_capacity(count);
        assert(ordered@ + rest@.reverse() =~= all);
        while ordered.len() > 0
            invariant
                ordered@ + rest@.reverse() == all,
            decreases ordered@.len(),
        {
            let ghost kept = ordered@;
            let ghost moved = rest@;
            if let Some(entry) = ordered.pop() {
                rest.push(entry);
                proof {
                    assert(rest@.reverse() =~= seq![entry] + moved.reverse());
                    assert(kept =~= ordered@.push(entry));
                    assert(ordered@ + rest@.reverse() =~= all);
                }
            }
        }
        assert(rest@.reverse() =~= all);
        assert(rest@.len() == all.len()) by {
            assert(rest@.reverse().len() == rest@.len());
        }
        assert(all.take(0) =~= Seq::empty());
        while rest.len() > 0
            invariant
                self.wf(),
                self.index == old(self).index,
                index == old(self).indexed(),
                before == old(self).tensors@,
                all == stored@,
                position + rest@.len() == all.len() == count,
                rest@ == all.skip(position as int).reverse(),
                shard_fault(index, before, file@, all.take(position as int), *words) is None,
                self.tensors@ == with_tensors(before, all.take(position as int)),
            decreases rest@.len(),
        {
            proof {
                assert(all.take(position + 1).drop_last() =~= all.take(position as int));
                assert(rest@.last() == all[position as int]);
            }
            let ghost kept = rest@;
            if let Some((name, info)) = rest.pop() {
                proof {
                    assert((name, info) == all[position as int]);
                    assert(rest@ =~= all.skip(position + 1).reverse());
                    assert(shard_fault(index, before, file@, all.take(position + 1), *words)
                        == tensor_fault(index, self.tensors@, file@, name@, *words));
                    if tensor_fault(index, self.tensors@, file@, name@, *words) is Some {
                        lemma_shard_fault_prefix(
                            index,
                            before,
                            file@,
                            all,
                            *words,
                            position + 1,
                        );
                    }
                }
                if let Some(owners) = &self.index {
                    match owners.get(name.as_str()) {
                        None => {
                            return Err(word(words.unindexed, name.as_str()));
                        },
                        Some(owner) => {
                            if !equal_bytes(owner, file) {
                                return Err(word(words.misplaced, name.as_str()));
                            }
                        },
                    }
                }
                if self.tensors.contains(name.as_str()) {
                    return Err(word(words.duplicate, name.as_str()));
                }
                let _ = self.tensors.insert(name, info);
                position += 1;
            }
        }
        assert(all.take(position as int) =~= all);
        Ok(())
    }

    /// The finished inventory: every indexed tensor has to be there.
    pub fn finish(self, words: &Wording) -> (result: Result<
        NameMap<TensorInfo>,
        HuggingFaceLoadError,
    >)
        requires
            self.wf(),
        ensures
            match result {
                Ok(tensors) => {
                    &&& tensors.wf()
                    &&& tensors@ == self.tensors@
                    &&& self.indexed() matches Some(index) ==> index.dom().subset_of(
                        self.tensors@.dom(),
                    )
                },
                Err(error) => {
                    &&& self.indexed() is Some
                    &&& exists|name: Seq<char>| #[trigger]
                        first_absent(self.indexed()->0.dom(), self.tensors@.dom(), name)
                            && error.0@ == worded(words.absent, name)
                },
            },
    {
        if let Some(index) = &self.index {
            let mut i: usize = 0;
            let ghost names = index.names();
            proof {
                crate::names::lemma_names_listed(index.entries@);
            }
            while i < index.entries.len()
                invariant
                    self.wf(),
                    self.index == Some(*index),
                    index.wf(),
                    names == index.names(),
                    names.to_set() == index@.dom(),
                    i <= index.entries@.len(),
                    forall|j: int| 0 <= j < i ==> self.tensors@.contains_key(#[trigger] names[j]),
                decreases index.entries@.len() - i,
            {
                let name = index.entries[i].0.as_str();
                assert(names[i as int] == name@);
                if !self.tensors.contains(name) {
                    proof {
                        assert(names.to_set().contains(names[i as int]));
                        assert forall|other: Seq<char>|
                            index@.dom().contains(other) && #[trigger] crate::names::name_less(
                                other,
                                name@,
                            ) implies self.tensors@.dom().contains(other) by {
                            assert(names.to_set().contains(other));
                            let j = choose|j: int| 0 <= j < names.len() && names[j] == other;
                            if j > i {
                                assert(crate::names::name_less(names[i as int], names[j]));
                                crate::names::lemma_transitive(other, name@, other);
                            }
                            if j >= i {
                                crate::names::lemma_irreflexive(other);
                            }
                        }
                        assert(self.indexed() == Some(index@));
                        assert(first_absent(self.indexed()->0.dom(), self.tensors@.dom(), name@));
                    }
                    return Err(word(words.absent, name));
                }
                i += 1;
            }
            proof {
                assert forall|name: Seq<char>| index@.dom().contains(name) implies #[trigger] self.tensors@.dom().contains(
                    name,
                ) by {
                    assert(names.to_set().contains(name));
                    let j = choose|j: int| 0 <= j < names.len() && names[j] == name;
                    assert(self.tensors@.contains_key(names[j]));
                }
            }
        }
        Ok(self.tensors)
    }
}

/// `name` is the first of `wanted` that `present` lacks.
pub open spec fn first_absent(
    wanted: Set<Seq<char>>,
    present: Set<Seq<char>>,
    name: Seq<char>,
) -> bool {
    &&& wanted.contains(name)
    &&& !present.contains(name)
    &&& forall|other: Seq<char>|
        wanted.contains(other) && #[trigger] crate::names::name_less(other, name)
            ==> present.contains(other)
}

proof fn lemma_shard_fault_prefix(
    index: Option<Map<Seq<char>, Vec<u8>>>,
    tensors: Map<Seq<char>, TensorInfo>,
    file: Seq<u8>,
    stored: Seq<(String, TensorInfo)>,
    words: Wording,
    n: int,
)
    requires
        0 <= n <= stored.len(),
        shard_fault(index, tensors, file, stored.take(n), words) is Some,
    ensures
        shard_fault(index, tensors, file, stored, words) == shard_fault(
            index,
            tensors,
            file,
            stored.take(n),
            words,
        ),
    decreases stored.len() - n,
{
    if n == stored.len() {
        assert(stored.take(n) =~= stored);
    } else {
        assert(stored.take(n + 1).drop_last() =~= stored.take(n));
        lemma_shard_fault_prefix(index, tensors, file, stored, words, n + 1);
    }
}

/// Whether two paths are spelled alike.
pub fn equal_bytes(left: &[u8], right: &[u8]) -> (same: bool)
    ensures
        same == (left@ == right@),
{
    if left.len() != right.len() {
        return false;
    }
    let mut i: usize = 0;
    while i < left.len()
        invariant
            i <= left@.len() == right@.len(),
            forall|j: int| 0 <= j < i ==> left@[j] == right@[j],
        decreases left@.len() - i,
    {
        if left[i] != right[i] {
            return false;
        }
        i += 1;
    }
    assert(left@ =~= right@);
    true
}

} // verus!
