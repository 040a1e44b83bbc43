//! Key/value caches: how long they are, how much room they have, and how they grow.

use crate::llama::program::{extends, term, Op, Program, Span, Term};
use vstd::prelude::*;

verus! {

/// One layer of K/V state. Keys are stored after RoPE in `[B, H_kv, S, D_h]` order.
///
/// The tensors themselves stay with the device; a program names them by their layer.
#[derive(Clone, Copy, Debug, PartialEq, Eq, Structural)]
pub struct LlamaLayerCache {
    /// The layer whose keys and values these are.
    pub layer: usize,
    /// Batch, heads and width of what is stored, once something is.
    pub stored: Option<StoredShape>,
    pub sequence_length: usize,
    pub storage_capacity: usize,
    pub max_sequence_length: usize,
}

#[derive(Clone, Copy, Debug, PartialEq, Eq, Structural)]
pub struct StoredShape {
    pub batch: usize,
    pub heads: usize,
    pub width: usize,
}

impl StoredShape {
    /// The shape of storage for `length` positions.
    pub open spec fn dims(self, length: usize) -> Seq<usize> {
        seq![self.batch, self.heads, length, self.width]
    }
}

/// A value of a program: an operation over values.
pub open spec fn value(op: Op<Term>, dims: Seq<usize>) -> Term {
    Term::Value { op: Box::new(op), dims }
}

/// The shape of a value.
pub open spec fn dims_of(t: Term) -> Seq<usize> {
    match t {
        Term::Value { dims, .. } => dims,
        Term::Unknown => Seq::empty(),
    }
}

/// Part of a value along one axis.
pub open spec fn slice_term(t: Term, axis: usize, start: usize, end: usize) -> Term {
    value(
        Op::Slice(t, axis, Span { start, end }),
        dims_of(t).update(axis as int, (end - start) as usize),
    )
}

/// The capacity that doubling reaches from `capacity` for `end` positions.
pub open spec fn grown(capacity: int, end: int) -> int
    decreases
            if capacity < end {
                end - capacity
            } else {
                0
            },
    when 0 < capacity
{
    if capacity >= end {
        capacity
    } else {
        grown(capacity * 2, end)
    }
}

/// Doubling reaches far enough, and not below where it began.
pub proof fn law_growth_makes_room(capacity: int, end: int)
    requires
        0 < capacity,
    ensures
        grown(capacity, end) >= end,
        grown(capacity, end) >= capacity,
        grown(capacity, end) == capacity || grown(capacity, end) < 2 * end,
    decreases
            if capacity < end {
                end - capacity
            } else {
                0
            },
{
    if capacity < end {
        law_growth_makes_room(capacity * 2, end);
    }
}

/// The first capacity that storage is given.
pub const INITIAL_CAPACITY: usize = 128;

/// Storage that a reservation set out: the key and value nodes, and the positions to be written.
#[derive(Clone, Copy, Debug, PartialEq, Eq, Structural)]
pub struct Reserved {
    pub key: usize,
    pub value: usize,
    pub start: usize,
    pub end: usize,
}

impl LlamaLayerCache {
    /// What is stored fits, and nothing is stored where there is no room.
    pub open spec fn wf(&self) -> bool {
        &&& self.sequence_length <= self.storage_capacity <= self.max_sequence_length
        &&& self.stored is None ==> self.storage_capacity == 0
    }

    pub fn new(layer: usize, max_sequence_length: usize) -> (cache: Self)
        ensures
            cache.wf(),
            cache.layer == layer,
            cache.stored is None,
            cache.sequence_length == 0,
            cache.storage_capacity == 0,
            cache.max_sequence_length == max_sequence_length,
    {
        LlamaLayerCache {
            layer,
            stored: None,
            sequence_length: 0,
            storage_capacity: 0,
            max_sequence_length,
        }
    }

    pub fn sequence_length(&self) -> (length: usize)
        ensures
            length == self.sequence_length,
    {
        self.sequence_length
    }

    /// Keys of a value shape can be added to the cache.
    pub open spec fn accepts(&self, dims: Seq<usize>) -> bool {
        &&& dims.len() == 4
        &&& self.stored matches Some(stored) ==> dims == stored.dims(dims[2])
        &&& self.sequence_length + dims[2] <= self.max_sequence_length
    }

    /// The cached keys or values of the layer, as they stand.
    pub open spec fn held(&self, op: Op<Term>) -> Term {
        value(op, self.stored->0.dims(self.storage_capacity))
    }

    /// The cached tensors with a value appended.
    pub open spec fn appended(&self, op: Op<Term>, t: Term) -> Term {
        if self.stored is None {
            t
        } else {
            value(
                Op::Cat(self.held(op), t, 2),
                dims_of(t).update(2, (self.storage_capacity + dims_of(t)[2]) as usize),
            )
        }
    }

    /// The cache after keys of a shape were joined to it.
    pub open spec fn joined(&self, dims: Seq<usize>) -> Self {
        let end = (self.sequence_length + dims[2]) as usize;
        LlamaLayerCache {
            stored: Some(StoredShape { batch: dims[0], heads: dims[1], width: dims[3] }),
            sequence_length: end,
            storage_capacity: end,
            ..*self
        }
    }

    /// Append keys and values by joining them to what is stored.
    pub fn append(&mut self, program: &mut Program, key: usize, value: usize) -> (joined: (
        usize,
        usize,
    ))
        requires
            old(self).wf(),
            old(self).storage_capacity == old(self).sequence_length,
            key < old(program)@.len(),
            value < old(program)@.len(),
            old(self).accepts(old(program)@[key as int].dims),
            old(program)@[value as int].dims == old(program)@[key as int].dims,
        ensures
            final(self).wf(),
            *final(self) == old(self).joined(old(program)@[key as int].dims),
            extends(old(program)@, final(program)@),
            joined.0 < final(program)@.len(),
            joined.1 < final(program)@.len(),
            final(program)@[joined.0 as int].dims == final(self).stored->0.dims(
                final(self).sequence_length,
            ),
            final(program)@[joined.1 as int].dims == final(program)@[joined.0 as int].dims,
            term(final(program)@, joined.0 as int) == old(self).appended(
                Op::CachedKey(old(self).layer),
                term(old(program)@, key as int),
            ),
            term(final(program)@, joined.1 as int) == old(self).appended(
                Op::CachedValue(old(self).layer),
                term(old(program)@, value as int),
            ),
    {
        // A length fits a machine integer.
        let _before: usize = program.len();
        let batch: usize = program.dim(key, 0);
        let heads: usize = program.dim(key, 1);
        let added: usize = program.dim(key, 2);
        let width: usize = program.dim(key, 3);
        let end: usize = self.sequence_length + added;
        let ghost key_dims = program@[key as int].dims;
        let ghost shape = StoredShape { batch, heads, width };
        assert(key_dims =~= shape.dims(added));
        let joined = match self.stored {
            Some(stored) => {
                let held: usize = self.sequence_length;
                assert(stored == shape) by {
                    assert(key_dims[0] == stored.dims(added)[0]);
                    assert(key_dims[1] == stored.dims(added)[1]);
                    assert(key_dims[3] == stored.dims(added)[3]);
                }
                let held_dims = vec![batch, heads, held, width];
                assert(held_dims@ =~= shape.dims(held));
                let held_key: usize = program.emit(Op::CachedKey(self.layer), held_dims);
                let held_dims = vec![batch, heads, held, width];
                assert(held_dims@ =~= shape.dims(held));
                let held_value: usize = program.emit(Op::CachedValue(self.layer), held_dims);
                let joined_dims = vec![batch, heads, end, width];
                proof {
                    assert(joined_dims@ =~= shape.dims(end));
                    assert(shape.dims(held).update(2, end) =~= shape.dims(end));
                    assert(shape.dims(held).update(2, 0) =~= shape.dims(0));
                    assert(shape.dims(added).update(2, 0) =~= shape.dims(0));
                    assert(shape.dims(added).update(2, end) =~= shape.dims(end));
                }
                let joined_key: usize = program.emit(Op::Cat(held_key, key, 2), joined_dims);
                let joined_dims = vec![batch, heads, end, width];
                assert(joined_dims@ =~= shape.dims(end));
                let joined_value: usize = program.emit(Op::Cat(held_value, value, 2), joined_dims);
                (joined_key, joined_value)
            },
            None => (key, value),
        };
        self.sequence_length = end;
        self.storage_capacity = end;
        self.stored = Some(StoredShape { batch, heads, width });
        joined
    }
}

impl LlamaLayerCache {
    /// The capacity from which storage grows.
    pub open spec fn growth_base(&self) -> int {
        if self.storage_capacity >= INITIAL_CAPACITY {
            self.storage_capacity as int
        } else {
            INITIAL_CAPACITY as int
        }
    }

    /// The capacity that `end` positions need: what is there, or what doubling reaches, up to the
    /// limit.
    pub open spec fn capacity_for(&self, end: int) -> int {
        if self.storage_capacity >= end {
            self.storage_capacity as int
        } else if grown(self.growth_base(), end) <= self.max_sequence_length {
            grown(self.growth_base(), end)
        } else {
            self.max_sequence_length as int
        }
    }

    /// Room for `added` positions can be set out.
    pub open spec fn has_room(&self, shape: StoredShape, added: usize) -> bool {
        let end = self.sequence_length + added;
        &&& self.stored matches Some(stored) ==> stored == shape
        &&& self.stored is None ==> end > 0
        &&& end <= self.max_sequence_length
        &&& self.storage_capacity < end ==> grown(self.growth_base(), end) <= usize::MAX
    }

    /// Storage for `end` positions: what is there, or new storage that what is there was copied
    /// into.
    pub open spec fn storage(&self, op: Op<Term>, shape: StoredShape, end: int) -> Term {
        let capacity = self.capacity_for(end) as usize;
        if self.storage_capacity >= end {
            self.held(op)
        } else {
            let empty = value(Op::Empty, shape.dims(capacity));
            if self.stored is None {
                empty
            } else {
                value(
                    Op::SliceAssign(
                        empty,
                        2,
                        Span { start: 0, end: self.sequence_length },
                        slice_term(self.held(op), 2, 0, self.sequence_length),
                    ),
                    shape.dims(capacity),
                )
            }
        }
    }

    /// Grow a capacity by doubling until it holds `end` positions.
    fn grow(capacity: usize, end: usize) -> (larger: usize)
        requires
            0 < capacity,
            grown(capacity as int, end as int) <= usize::MAX,
        ensures
            larger == grown(capacity as int, end as int),
    {
        let mut larger: usize = capacity;
        while larger < end
            invariant
                0 < larger,
                grown(larger as int, end as int) == grown(capacity as int, end as int),
                grown(capacity as int, end as int) <= usize::MAX,
            decreases
                    if larger < end {
                        end - larger
                    } else {
                        0
                    },
        {
            proof {
                law_growth_makes_room(larger * 2, end as int);
            }
            larger = larger * 2;
        }
        larger
    }

    /// Storage of a layer that was copied into `empty`.
    fn copied(
        &self,
        program: &mut Program,
        op: Op<usize>,
        Ghost(named): Ghost<Op<Term>>,
        shape: StoredShape,
        capacity: usize,
    ) -> (id: usize)
        requires
            self.wf(),
            self.stored == Some(shape),
            self.storage_capacity < capacity,
            (op == Op::<usize>::CachedKey(self.layer) && named == Op::<Term>::CachedKey(self.layer)) || (
            op == Op::<usize>::CachedValue(self.layer) && named == Op::<Term>::CachedValue(
                self.layer,
            )),
        ensures
            extends(old(program)@, final(program)@),
            id < final(program)@.len(),
            final(program)@[id as int].dims == shape.dims(capacity),
            term(final(program)@, id as int) == value(
                Op::SliceAssign(
                    value(Op::Empty, shape.dims(capacity)),
                    2,
                    Span { start: 0, end: self.sequence_length },
                    slice_term(self.held(named), 2, 0, self.sequence_length),
                ),
                shape.dims(capacity),
            ),
    {
        let held: usize = self.sequence_length;
        let span = Span { start: 0, end: held };
        let empty_dims = vec![shape.batch, shape.heads, capacity, shape.width];
        assert(empty_dims@ =~= shape.dims(capacity));
        let empty: usize = program.emit(Op::Empty, empty_dims);
        let held_dims = vec![shape.batch, shape.heads, self.storage_capacity, shape.width];
        assert(held_dims@ =~= shape.dims(self.storage_capacity));
        let stored: usize = program.emit(op, held_dims);
        let part_dims = vec![shape.batch, shape.heads, held, shape.width];
        proof {
            assert(part_dims@ =~= shape.dims(held));
            assert(shape.dims(self.storage_capacity).update(2, held) =~= shape.dims(held));
            assert(shape.dims(capacity).update(2, held) =~= shape.dims(held));
        }
        let part: usize = program.emit(Op::Slice(stored, 2, span), part_dims);
        let full_dims = vec![shape.batch, shape.heads, capacity, shape.width];
        assert(full_dims@ =~= shape.dims(capacity));
        program.emit(Op::SliceAssign(empty, 2, span, part), full_dims)
    }

    /// Set out room for `appended` positions in a geometrically growing physical buffer.
    pub fn reserve_growable(
        &mut self,
        program: &mut Program,
        batch: usize,
        kv_heads: usize,
        appended: usize,
        head_dimension: usize,
    ) -> (reserved: Reserved)
        requires
            old(self).wf(),
            old(self).has_room(
                StoredShape { batch, heads: kv_heads, width: head_dimension },
                appended,
            ),
        ensures
            ({
                let shape = StoredShape { batch, heads: kv_heads, width: head_dimension };
                let end = old(self).sequence_length + appended;
                &&& *final(self) == (LlamaLayerCache {
                    stored: Some(shape),
                    storage_capacity: old(self).capacity_for(end) as usize,
                    ..*old(self)
                })
                &&& final(self).wf()
                &&& reserved.start == old(self).sequence_length
                &&& reserved.end == end
                &&& reserved.end <= final(self).storage_capacity
                &&& extends(old(program)@, final(program)@)
                &&& reserved.key < final(program)@.len()
                &&& reserved.value < final(program)@.len()
                &&& final(program)@[reserved.key as int].dims == shape.dims(
                    final(self).storage_capacity,
                )
                &&& final(program)@[reserved.value as int].dims == shape.dims(
                    final(self).storage_capacity,
                )
                &&& term(final(program)@, reserved.key as int) == old(self).storage(
                    Op::CachedKey(old(self).layer),
                    shape,
                    end,
                )
                &&& term(final(program)@, reserved.value as int) == old(self).storage(
                    Op::CachedValue(old(self).layer),
                    shape,
                    end,
                )
            }),
    {
        let shape = StoredShape { batch, heads: kv_heads, width: head_dimension };
        let end: usize = self.sequence_length + appended;
        let start: usize = self.sequence_length;
        if self.storage_capacity < end {
            let base: usize = if self.storage_capacity >= INITIAL_CAPACITY {
                self.storage_capacity
            } else {
                INITIAL_CAPACITY
            };
            proof {
                law_growth_makes_room(base as int, end as int);
            }
            let larger: usize = Self::grow(base, end);
            let capacity: usize = if larger <= self.max_sequence_length {
                larger
            } else {
                self.max_sequence_length
            };
            let (key, value) = match self.stored {
                Some(_) => {
                    let key: usize = self.copied(
                        program,
                        Op::CachedKey(self.layer),
                        Ghost(Op::CachedKey(self.layer)),
                        shape,
                        capacity,
                    );
                    let value: usize = self.copied(
                        program,
                        Op::CachedValue(self.layer),
                        Ghost(Op::CachedValue(self.layer)),
                        shape,
                        capacity,
                    );
                    (key, value)
                },
                None => {
                    let dims = vec![batch, kv_heads, capacity, head_dimension];
                    assert(dims@ =~= shape.dims(capacity));
                    let key: usize = program.emit(Op::Empty, dims);
                    let dims = vec![batch, kv_heads, capacity, head_dimension];
                    assert(dims@ =~= shape.dims(capacity));
                    let value: usize = program.emit(Op::Empty, dims);
                    (key, value)
                },
            };
            self.stored = Some(shape);
            self.storage_capacity = capacity;
            Reserved { key, value, start, end }
        } else {
            let dims = vec![batch, kv_heads, self.storage_capacity, head_dimension];
            assert(dims@ =~= shape.dims(self.storage_capacity));
            let key: usize = program.emit(Op::CachedKey(self.layer), dims);
            let dims = vec![batch, kv_heads, self.storage_capacity, head_dimension];
            assert(dims@ =~= shape.dims(self.storage_capacity));
            let value: usize = program.emit(Op::CachedValue(self.layer), dims);
            Reserved { key, value, start, end }
        }
    }

    /// Take note that the positions up to `end` were written.
    pub fn commit_growable(&mut self, end: usize)
        requires
            old(self).wf(),
            old(self).sequence_length <= end <= old(self).storage_capacity,
        ensures
            final(self).wf(),
            *final(self) == (LlamaLayerCache { sequence_length: end, ..*old(self) }),
    {
        self.sequence_length = end;
    }

    /// The cache after `added` positions were written into its storage.
    pub open spec fn grown_by(&self, shape: StoredShape, added: usize) -> Self {
        let end = self.sequence_length + added;
        LlamaLayerCache {
            stored: Some(shape),
            storage_capacity: self.capacity_for(end) as usize,
            sequence_length: end as usize,
            ..*self
        }
    }

    /// Storage with a value written behind what is held.
    pub open spec fn written(&self, op: Op<Term>, shape: StoredShape, t: Term) -> Term {
        let end = self.sequence_length + dims_of(t)[2];
        value(
            Op::SliceAssign(
                self.storage(op, shape, end),
                2,
                Span { start: self.sequence_length, end: end as usize },
                t,
            ),
            shape.dims(self.capacity_for(end) as usize),
        )
    }

    /// Append into a geometrically growing physical buffer. The logical prefix
    /// remains contiguous, while capacity growth only copies history at chunk
    /// boundaries instead of once for every decoded token.
    pub fn append_growable(&mut self, program: &mut Program, key: usize, value: usize) -> (stored: (
        usize,
        usize,
        usize,
    ))
        requires
            old(self).wf(),
            key < old(program)@.len(),
            value < old(program)@.len(),
            old(program)@[key as int].dims.len() == 4,
            old(program)@[value as int].dims == old(program)@[key as int].dims,
            old(self).has_room(
                StoredShape {
                    batch: old(program)@[key as int].dims[0],
                    heads: old(program)@[key as int].dims[1],
                    width: old(program)@[key as int].dims[3],
                },
                old(program)@[key as int].dims[2],
            ),
        ensures
            ({
                let dims = old(program)@[key as int].dims;
                let shape = StoredShape { batch: dims[0], heads: dims[1], width: dims[3] };
                let start = old(self).sequence_length;
                let end = (start + dims[2]) as usize;
                &&& *final(self) == old(self).grown_by(shape, dims[2])
                &&& final(self).wf()
                &&& stored.2 == end
                &&& extends(old(program)@, final(program)@)
                &&& stored.0 < final(program)@.len()
                &&& stored.1 < final(program)@.len()
                &&& final(program)@[stored.0 as int].dims == shape.dims(
                    final(self).storage_capacity,
                )
                &&& final(program)@[stored.1 as int].dims == shape.dims(
                    final(self).storage_capacity,
                )
                &&& term(final(program)@, stored.0 as int) == old(self).written(
                    Op::CachedKey(old(self).layer),
                    shape,
                    term(old(program)@, key as int),
                )
                &&& term(final(program)@, stored.1 as int) == old(self).written(
                    Op::CachedValue(old(self).layer),
                    shape,
                    term(old(program)@, value as int),
                )
            }),
    {
        let batch: usize = program.dim(key, 0);
        let heads: usize = program.dim(key, 1);
        let added: usize = program.dim(key, 2);
        let width: usize = program.dim(key, 3);
        let ghost shape = StoredShape { batch, heads, width };
        let ghost key_dims = program@[key as int].dims;
        assert(key_dims =~= shape.dims(added));
        let reserved = self.reserve_growable(program, batch, heads, added, width);
        let span = Span { start: reserved.start, end: reserved.end };
        let capacity: usize = self.storage_capacity;
        assert(shape.dims(capacity).update(2, added) =~= shape.dims(added));
        let dims = vec![batch, heads, capacity, width];
        assert(dims@ =~= shape.dims(capacity));
        let stored_key: usize = program.emit(Op::SliceAssign(reserved.key, 2, span, key), dims);
        let dims = vec![batch, heads, capacity, width];
        assert(dims@ =~= shape.dims(capacity));
        let stored_value: usize = program.emit(
            Op::SliceAssign(reserved.value, 2, span, value),
            dims,
        );
        self.commit_growable(reserved.end);
        (stored_key, stored_value, reserved.end)
    }
}

/// Per-layer KV cache and the absolute RoPE position for autoregressive decoding.
#[derive(Debug)]
pub struct LlamaKvCache {
    pub layers: Vec<LlamaLayerCache>,
    pub position: usize,
    pub max_sequence_length: usize,
}

impl Clone for LlamaKvCache {
    fn clone(&self) -> (copy: Self)
        ensures
            copy.layers@ == self.layers@,
            copy.position == self.position,
            copy.max_sequence_length == self.max_sequence_length,
            self.wf() ==> copy.wf(),
    {
        let mut layers: Vec<LlamaLayerCache> = Vec::with_capacity(self.layers.len());
        let mut i: usize = 0;
        while i < self.layers.len()
            invariant
                i <= self.layers@.len(),
                layers@ == self.layers@.take(i as int),
            decreases self.layers@.len() - i,
        {
            layers.push(self.layers[i]);
            i += 1;
            assert(layers@ =~= self.layers@.take(i as int));
        }
        assert(self.layers@.take(i as int) =~= self.layers@);
        LlamaKvCache {
            layers,
            position: self.position,
            max_sequence_length: self.max_sequence_length,
        }
    }
}

impl LlamaKvCache {
    /// Every layer is in order and has as many positions as the cache.
    pub open spec fn wf(&self) -> bool {
        &&& self.position <= self.max_sequence_length
        &&& forall|i: int| #![trigger self.layers@[i]]
            0 <= i < self.layers@.len() ==> self.layers@[i].wf() && self.layers@[i].layer == i
                && self.layers@[i].sequence_length == self.position
                && self.layers@[i].max_sequence_length == self.max_sequence_length
    }

    pub fn new(num_hidden_layers: usize, max_sequence_length: usize) -> (cache: Self)
        requires
            num_hidden_layers > 0,
            max_sequence_length > 0,
        ensures
            cache.wf(),
            cache.layers@.len() == num_hidden_layers,
            cache.position == 0,
            cache.max_sequence_length == max_sequence_length,
            forall|i: int|
                0 <= i < num_hidden_layers ==> (#[trigger] cache.layers@[i]).stored is None
                    && cache.layers@[i].storage_capacity == 0,
    {
        let mut layers: Vec<LlamaLayerCache> = Vec::with_capacity(num_hidden_layers);
        let mut layer: usize = 0;
        while layer < num_hidden_layers
            invariant
                layer <= num_hidden_layers,
                layers@.len() == layer,
                forall|i: int| #![trigger layers@[i]]
                    0 <= i < layer ==> layers@[i].wf() && layers@[i].layer == i
                        && layers@[i].sequence_length == 0 && layers@[i].stored is None
                        && layers@[i].storage_capacity == 0 && layers@[i].max_sequence_length
                        == max_sequence_length,
            decreases num_hidden_layers - layer,
        {
            layers.push(LlamaLayerCache::new(layer, max_sequence_length));
            layer += 1;
        }
        LlamaKvCache { layers, position: 0, max_sequence_length }
    }

    pub fn position(&self) -> (position: usize)
        ensures
            position == self.position,
    {
        self.position
    }

    pub fn capacity(&self) -> (capacity: usize)
        ensures
            capacity == self.max_sequence_length,
    {
        self.max_sequence_length
    }
}

} // verus!
