//! Physical-page metadata of a paged key/value cache.

use crate::ordered::{lemma_entry, lemma_entry_count, OrderedMap};
use crate::paged_kv_laws::{
    law_begin_consistent, law_cancel_consistent, law_commit_consistent, law_create_consistent,
    law_initial_consistent, law_pages_are_conserved, law_remove_consistent,
};
use crate::text::{decimal, push_number, text, with_number, with_numbers};
use vstd::prelude::*;

verus! {

#[derive(Debug, Clone, Copy, PartialEq, Eq, PartialOrd, Ord, Hash, Structural)]
pub struct RequestId(pub u64);

#[derive(Debug, Clone, Copy, PartialEq, Eq, PartialOrd, Ord, Hash, Structural)]
pub struct KvPageId(pub u32);

#[derive(Debug, Clone, Copy, PartialEq, Eq, PartialOrd, Ord, Hash, Structural)]
pub struct KvReservationId(pub u64);

#[derive(Debug, Clone, Copy, PartialEq, Eq, Structural)]
pub struct PagedKvCacheConfig {
    pub block_size: usize,
    pub num_pages: usize,
    pub max_sequence_length: usize,
}

/// What a failed cache operation reports.
#[derive(Debug, Clone, PartialEq, Eq)]
pub struct PagedKvError(pub String);

impl PagedKvError {
    /// The message.
    pub fn to_string(&self) -> (message: String)
        ensures
            message@ == self.0@,
    {
        self.0.clone()
    }
}

impl PagedKvCacheConfig {
    /// Every limit is positive and each page number fits a `u32` page table.
    pub open spec fn valid(self) -> bool {
        self.block_size > 0 && self.num_pages > 0 && self.max_sequence_length > 0 && self.num_pages
            <= u32::MAX
    }

    pub fn validate(self) -> (result: Result<(), PagedKvError>)
        ensures
            result is Ok <==> self.valid(),
            result matches Err(error) ==> error.0@ == (if self.block_size == 0 || self.num_pages
                == 0 || self.max_sequence_length == 0 {
                "paged KV block_size, num_pages, and max_sequence_length must be non-zero"@
            } else {
                "paged KV physical page count exceeds u32 page-table capacity"@
            }),
    {
        if self.block_size == 0 || self.num_pages == 0 || self.max_sequence_length == 0 {
            return Err(
                PagedKvError(
                    text(
                        "paged KV block_size, num_pages, and max_sequence_length must be non-zero",
                    ),
                ),
            );
        }
        if self.num_pages > u32::MAX as usize {
            return Err(
                PagedKvError(text("paged KV physical page count exceeds u32 page-table capacity")),
            );
        }
        Ok(())
    }
}

/// The number of pages of `block_size` tokens that hold `tokens` tokens.
pub open spec fn pages_for(tokens: int, block_size: int) -> int {
    (tokens + block_size - 1) / block_size
}

/// The quotient of two numbers, rounded up.
pub fn ceil_div(value: usize, divisor: usize) -> (quotient: usize)
    requires
        divisor > 0,
    ensures
        quotient == pages_for(value as int, divisor as int),
        quotient <= value,
{
    let whole: usize = value / divisor;
    proof {
        let v = value as int;
        let d = divisor as int;
        let q = v / d;
        let r = v % d;
        vstd::arithmetic::div_mod::lemma_fundamental_div_mod(v, d);
        vstd::arithmetic::div_mod::lemma_mod_bound(v, d);
        if r == 0 {
            assert(v + d - 1 == q * d + (d - 1)) by (nonlinear_arith)
                requires
                    v == d * q + r,
                    r == 0,
            ;
            vstd::arithmetic::div_mod::lemma_fundamental_div_mod_converse(v + d - 1, d, q, d - 1);
        } else {
            assert(v + d - 1 == (q + 1) * d + (r - 1)) by (nonlinear_arith)
                requires
                    v == d * q + r,
            ;
            vstd::arithmetic::div_mod::lemma_fundamental_div_mod_converse(
                v + d - 1,
                d,
                q + 1,
                r - 1,
            );
        }
        assert(q <= v) by (nonlinear_arith)
            requires
                v == d * q + r,
                d >= 1,
                r >= 0,
                v >= 0,
        ;
        assert(r != 0 ==> q + 1 <= v) by (nonlinear_arith)
            requires
                v == d * q + r,
                d >= 1,
                0 <= r < d,
                v >= 0,
        ;
    }
    if value % divisor == 0 {
        whole
    } else {
        whole + 1
    }
}

/// Holding more tokens never takes fewer pages.
pub proof fn lemma_pages_for_order(fewer: int, more: int, block_size: int)
    requires
        0 <= fewer <= more,
        block_size > 0,
    ensures
        0 <= pages_for(fewer, block_size) <= pages_for(more, block_size),
        pages_for(0, block_size) == 0,
{
    vstd::arithmetic::div_mod::lemma_div_is_ordered(
        fewer + block_size - 1,
        more + block_size - 1,
        block_size,
    );
    vstd::arithmetic::div_mod::lemma_div_pos_is_pos(fewer + block_size - 1, block_size);
    vstd::arithmetic::div_mod::lemma_basic_div(block_size - 1, block_size);
}

#[derive(Debug, Clone, PartialEq, Eq)]
pub struct PagedKvAppendReservation {
    pub id: KvReservationId,
    pub request_id: RequestId,
    pub start_position: usize,
    pub token_count: usize,
    pub context_length: usize,
    pub newly_allocated_pages: Vec<KvPageId>,
    pub block_table: Vec<KvPageId>,
}

/// What a reservation says, over mathematical sequences.
#[verifier::ext_equal]
pub struct AppendModel {
    pub id: KvReservationId,
    pub request_id: RequestId,
    pub start_position: usize,
    pub token_count: usize,
    pub context_length: usize,
    pub newly_allocated_pages: Seq<KvPageId>,
    pub block_table: Seq<KvPageId>,
}

impl View for PagedKvAppendReservation {
    type V = AppendModel;

    open spec fn view(&self) -> AppendModel {
        AppendModel {
            id: self.id,
            request_id: self.request_id,
            start_position: self.start_position,
            token_count: self.token_count,
            context_length: self.context_length,
            newly_allocated_pages: self.newly_allocated_pages@,
            block_table: self.block_table@,
        }
    }
}

#[derive(Debug, Clone, PartialEq, Eq)]
pub struct PagedKvSequenceSnapshot {
    pub request_id: RequestId,
    pub committed_tokens: usize,
    pub block_table: Vec<KvPageId>,
    pub pending_reservation: Option<KvReservationId>,
}

#[derive(Debug, Clone, PartialEq, Eq)]
pub struct PagedKvCacheSnapshot {
    pub block_size: usize,
    pub total_pages: usize,
    pub free_pages: usize,
    pub sequences: Vec<PagedKvSequenceSnapshot>,
}

/// One live sequence.
#[derive(Debug)]
pub struct SequenceState {
    pub committed_tokens: usize,
    pub pages: Vec<KvPageId>,
    pub pending: Option<KvReservationId>,
}

/// A live sequence, over mathematical sequences.
#[verifier::ext_equal]
pub struct SequenceModel {
    pub committed_tokens: usize,
    pub pages: Seq<KvPageId>,
    pub pending: Option<KvReservationId>,
}

impl View for SequenceState {
    type V = SequenceModel;

    open spec fn view(&self) -> SequenceModel {
        SequenceModel {
            committed_tokens: self.committed_tokens,
            pages: self.pages@,
            pending: self.pending,
        }
    }
}

/// An append that has its pages but has not been committed.
#[derive(Debug, Clone, Copy, PartialEq, Eq, Structural)]
pub struct ReservationState {
    pub request_id: RequestId,
    pub previous_page_count: usize,
    pub start_position: usize,
    pub token_count: usize,
}

/// Owns physical-page metadata for every live KV sequence. Appends use an
/// explicit reserve/commit protocol so a failed kernel launch can return all
/// newly acquired pages without exposing a partially advanced sequence.
#[derive(Debug)]
pub struct PagedKvCacheManager {
    pub config: PagedKvCacheConfig,
    /// The free pages, greatest first.
    pub free_pages: Vec<KvPageId>,
    pub sequences: OrderedMap<SequenceState>,
    pub reservations: OrderedMap<ReservationState>,
    pub next_reservation: u64,
}

/// The state of a cache: which pages are free, which sequence holds which pages in which order,
/// and which appends are outstanding.
#[verifier::ext_equal]
pub struct KvModel {
    pub config: PagedKvCacheConfig,
    pub free: Set<KvPageId>,
    pub sequences: Map<u64, SequenceModel>,
    pub reservations: Map<u64, ReservationState>,
    pub next_reservation: u64,
}

impl View for PagedKvCacheManager {
    type V = KvModel;

    open spec fn view(&self) -> KvModel {
        KvModel {
            config: self.config,
            free: self.free_pages@.to_set(),
            sequences: self.sequences@.map_values(|s: SequenceState| s@),
            reservations: self.reservations@,
            next_reservation: self.next_reservation,
        }
    }
}

/// Page numbers are strictly descending.
pub open spec fn descending(pages: Seq<KvPageId>) -> bool {
    forall|i: int, j: int| 0 <= i < j < pages.len() ==> pages[i].0 > pages[j].0
}

/// The page of least number.
pub open spec fn least(pages: Set<KvPageId>) -> KvPageId {
    choose|p: KvPageId|
        pages.contains(p) && forall|q: KvPageId| #[trigger] pages.contains(q) ==> p.0 <= q.0
}

/// The `n` pages of least number, least first.
pub open spec fn lowest(pages: Set<KvPageId>, n: nat) -> Seq<KvPageId>
    decreases n,
{
    if n == 0 {
        Seq::empty()
    } else {
        seq![least(pages)] + lowest(pages.remove(least(pages)), (n - 1) as nat)
    }
}

/// The last page of a descending list is its lowest; the others are the list without it.
proof fn lemma_last_is_least(pages: Seq<KvPageId>)
    requires
        descending(pages),
        pages.len() > 0,
    ensures
        least(pages.to_set()) == pages.last(),
        pages.drop_last().to_set() == pages.to_set().remove(pages.last()),
{
    let all = pages.to_set();
    let last = pages.last();
    let rest = pages.drop_last();
    assert(all.contains(last)) by {
        assert(pages[pages.len() - 1] == last);
    }
    assert forall|q: KvPageId| #[trigger] all.contains(q) implies last.0 <= q.0 by {
        let i = choose|i: int| 0 <= i < pages.len() && pages[i] == q;
        assert(pages[i].0 >= pages[pages.len() - 1].0);
    }
    let chosen = least(all);
    assert(all.contains(chosen) && chosen.0 <= last.0);
    assert(rest.to_set() =~= all.remove(last)) by {
        assert forall|q: KvPageId| all.remove(last).contains(q) implies rest.to_set().contains(
            q,
        ) by {
            let i = choose|i: int| 0 <= i < pages.len() && pages[i] == q;
            assert(rest[i] == q);
        }
        assert forall|q: KvPageId| rest.to_set().contains(q) implies all.remove(last).contains(
            q,
        ) by {
            let i = choose|i: int| 0 <= i < rest.len() && rest[i] == q;
            assert(pages[i] == q);
            assert(pages[i].0 > pages[pages.len() - 1].0);
        }
    }
}

/// A descending list read from its end lists the lowest pages.
#[verifier::spinoff_prover]
proof fn lemma_lowest_of_descending(pages: Seq<KvPageId>, n: nat)
    requires
        descending(pages),
        n <= pages.len(),
    ensures
        lowest(pages.to_set(), n) == Seq::new(n, |i: int| pages[pages.len() - 1 - i]),
    decreases n,
{
    if n > 0 {
        lemma_last_is_least(pages);
        lemma_lowest_of_descending(pages.drop_last(), (n - 1) as nat);
        let tail = lowest(pages.drop_last().to_set(), (n - 1) as nat);
        assert(lowest(pages.to_set(), n) == seq![pages.last()] + tail);
        assert(seq![pages.last()] + tail =~= Seq::new(n, |i: int| pages[pages.len() - 1 - i]));
    }
}

/// A descending list has no page twice, so it is as long as its set.
proof fn lemma_descending_count(pages: Seq<KvPageId>)
    requires
        descending(pages),
    ensures
        pages.no_duplicates(),
        pages.to_set().finite(),
        pages.to_set().len() == pages.len(),
{
    pages.unique_seq_to_set();
}

impl KvModel {
    /// The message for a sequence that is not there.
    pub open spec fn missing_sequence(id: RequestId) -> Seq<char> {
        "paged KV sequence "@ + decimal(id.0 as nat) + " does not exist"@
    }

    /// The cache of a configuration before any use.
    pub open spec fn initial(config: PagedKvCacheConfig) -> KvModel {
        KvModel {
            config,
            free: Set::new(|p: KvPageId| p.0 < config.num_pages),
            sequences: Map::empty(),
            reservations: Map::empty(),
            next_reservation: 1,
        }
    }

    /// Registering a sequence.
    pub open spec fn create(self, id: RequestId) -> Result<KvModel, Seq<char>> {
        if self.sequences.contains_key(id.0) {
            Err("paged KV sequence "@ + decimal(id.0 as nat) + " already exists"@)
        } else {
            Ok(
                KvModel {
                    sequences: self.sequences.insert(
                        id.0,
                        SequenceModel { committed_tokens: 0, pages: Seq::empty(), pending: None },
                    ),
                    ..self
                },
            )
        }
    }

    /// The pages that `count` more tokens of sequence `id` need beyond those it holds.
    pub open spec fn additional_pages(self, id: RequestId, count: usize) -> int {
        let s = self.sequences[id.0];
        let needed = pages_for(s.committed_tokens + count, self.config.block_size as int);
        if needed > s.pages.len() {
            needed - s.pages.len()
        } else {
            0
        }
    }

    /// Whether `begin` would find room: the sequence is idle, does not outgrow its capacity and
    /// there are enough free pages.
    pub open spec fn can_append(self, id: RequestId, count: usize) -> bool {
        let s = self.sequences[id.0];
        &&& count > 0
        &&& s.pending is None
        &&& s.committed_tokens + count <= self.config.max_sequence_length
        &&& self.additional_pages(id, count) <= self.free.len()
    }

    /// The state with an append of `count` tokens to sequence `id` reserved.
    pub open spec fn begin_state(self, id: RequestId, count: usize) -> KvModel {
        let s = self.sequences[id.0];
        let fresh = lowest(self.free, self.additional_pages(id, count) as nat);
        let rid = KvReservationId(self.next_reservation);
        KvModel {
            config: self.config,
            free: self.free.difference(fresh.to_set()),
            sequences: self.sequences.insert(
                id.0,
                SequenceModel {
                    committed_tokens: s.committed_tokens,
                    pages: s.pages + fresh,
                    pending: Some(rid),
                },
            ),
            reservations: self.reservations.insert(
                rid.0,
                ReservationState {
                    request_id: id,
                    previous_page_count: s.pages.len() as usize,
                    start_position: s.committed_tokens,
                    token_count: count,
                },
            ),
            next_reservation: (self.next_reservation + 1) as u64,
        }
    }

    /// The reservation that `begin_state` makes.
    pub open spec fn begin_value(self, id: RequestId, count: usize) -> AppendModel {
        let s = self.sequences[id.0];
        let fresh = lowest(self.free, self.additional_pages(id, count) as nat);
        AppendModel {
            id: KvReservationId(self.next_reservation),
            request_id: id,
            start_position: s.committed_tokens,
            token_count: count,
            context_length: (s.committed_tokens + count) as usize,
            newly_allocated_pages: fresh,
            block_table: s.pages + fresh,
        }
    }

    /// Why an append cannot be reserved.
    pub open spec fn begin_error(self, id: RequestId, count: usize) -> Option<Seq<char>> {
        let s = self.sequences[id.0];
        if count == 0 {
            Some("paged KV append reservation must contain at least one token"@)
        } else if !self.sequences.contains_key(id.0) {
            Some(Self::missing_sequence(id))
        } else if s.pending is Some {
            Some(
                "paged KV sequence "@ + decimal(id.0 as nat) + " already has pending reservation "@
                    + decimal((s.pending->0).0 as nat) + ""@,
            )
        } else if s.committed_tokens + count > usize::MAX {
            Some("paged KV sequence length overflow"@)
        } else if s.committed_tokens + count > self.config.max_sequence_length {
            Some(
                "paged KV sequence "@ + decimal(id.0 as nat) + " would grow to "@ + decimal(
                    (s.committed_tokens + count) as nat,
                ) + ", above capacity "@ + decimal(self.config.max_sequence_length as nat),
            )
        } else if self.additional_pages(id, count) > self.free.len() {
            Some(
                "paged KV append needs "@ + decimal(self.additional_pages(id, count) as nat)
                    + " new pages but only "@ + decimal(self.free.len()) + " are free"@,
            )
        } else if self.next_reservation == u64::MAX {
            Some("paged KV reservation id overflow"@)
        } else {
            None
        }
    }

    /// Why a reservation cannot be committed or cancelled.
    pub open spec fn reservation_error(self, rid: KvReservationId) -> Option<Seq<char>> {
        let r = self.reservations[rid.0];
        let s = self.sequences[r.request_id.0];
        if !self.reservations.contains_key(rid.0) {
            Some("paged KV reservation "@ + decimal(rid.0 as nat) + " does not exist"@)
        } else if !self.sequences.contains_key(r.request_id.0) {
            Some(Self::missing_sequence(r.request_id))
        } else if s.pending != Some(rid) || s.committed_tokens != r.start_position || s.pages.len()
            < r.previous_page_count {
            Some(
                "reservation "@ + decimal(rid.0 as nat)
                    + " does not own a consistent sequence state"@,
            )
        } else if r.start_position + r.token_count > usize::MAX {
            Some("paged KV committed length overflow"@)
        } else {
            None
        }
    }

    /// Why a group of reservations cannot be committed or cancelled: the first member that is
    /// repeated or unusable.
    pub open spec fn group_error(self, rids: Seq<KvReservationId>) -> Option<Seq<char>>
        decreases rids.len(),
    {
        if rids.len() == 0 {
            None
        } else {
            match self.group_error(rids.drop_last()) {
                Some(message) => Some(message),
                None => if rids.drop_last().contains(rids.last()) {
                    Some("duplicate reservation "@ + decimal(rids.last().0 as nat) + ""@)
                } else {
                    self.reservation_error(rids.last())
                },
            }
        }
    }

    /// The length of a sequence once its reservation is committed.
    pub open spec fn committed_length(self, rid: KvReservationId) -> usize {
        let r = self.reservations[rid.0];
        (r.start_position + r.token_count) as usize
    }

    /// The state with a reservation committed.
    pub open spec fn commit_state(self, rid: KvReservationId) -> KvModel {
        let r = self.reservations[rid.0];
        let s = self.sequences[r.request_id.0];
        KvModel {
            sequences: self.sequences.insert(
                r.request_id.0,
                SequenceModel {
                    committed_tokens: self.committed_length(rid),
                    pages: s.pages,
                    pending: None,
                },
            ),
            reservations: self.reservations.remove(rid.0),
            ..self
        }
    }

    /// The state with a reservation withdrawn and its pages returned.
    pub open spec fn cancel_state(self, rid: KvReservationId) -> KvModel {
        let r = self.reservations[rid.0];
        let s = self.sequences[r.request_id.0];
        KvModel {
            free: self.free.union(s.pages.skip(r.previous_page_count as int).to_set()),
            sequences: self.sequences.insert(
                r.request_id.0,
                SequenceModel {
                    committed_tokens: s.committed_tokens,
                    pages: s.pages.take(r.previous_page_count as int),
                    pending: None,
                },
            ),
            reservations: self.reservations.remove(rid.0),
            ..self
        }
    }

    /// The state with each reservation of a list committed in turn.
    pub open spec fn commit_all(self, rids: Seq<KvReservationId>) -> KvModel
        decreases rids.len(),
    {
        if rids.len() == 0 {
            self
        } else {
            self.commit_all(rids.drop_last()).commit_state(rids.last())
        }
    }

    /// The state with each reservation of a list withdrawn in turn.
    pub open spec fn cancel_all(self, rids: Seq<KvReservationId>) -> KvModel
        decreases rids.len(),
    {
        if rids.len() == 0 {
            self
        } else {
            self.cancel_all(rids.drop_last()).cancel_state(rids.last())
        }
    }

    /// Why a sequence cannot be removed.
    pub open spec fn remove_error(self, id: RequestId) -> Option<Seq<char>> {
        if !self.sequences.contains_key(id.0) {
            Some(Self::missing_sequence(id))
        } else if self.sequences[id.0].pending is Some {
            Some(
                "cannot remove sequence "@ + decimal(id.0 as nat) + " while reservation "@
                    + decimal((self.sequences[id.0].pending->0).0 as nat) + " is pending"@,
            )
        } else {
            None
        }
    }

    /// The state with a sequence removed and its pages returned.
    pub open spec fn remove_state(self, id: RequestId) -> KvModel {
        KvModel {
            free: self.free.union(self.sequences[id.0].pages.to_set()),
            sequences: self.sequences.remove(id.0),
            ..self
        }
    }
}

/// A reservation that passes its check still passes after another one was committed or
/// withdrawn.
proof fn lemma_other_reservation(m: KvModel, done: KvReservationId, other: KvReservationId)
    requires
        m.reservation_error(done) is None,
        done != other,
    ensures
        m.commit_state(done).reservation_error(other) is None <==> m.reservation_error(other)
            is None,
        m.cancel_state(done).reservation_error(other) is None <==> m.reservation_error(other)
            is None,
        m.commit_state(done).reservations.contains_key(other.0) ==> m.commit_state(
            done,
        ).committed_length(other) == m.committed_length(other),
{
    assert(done.0 != other.0);
}

proof fn lemma_group_member(m: KvModel, rids: Seq<KvReservationId>, i: int)
    requires
        m.group_error(rids) is None,
        0 <= i < rids.len(),
    ensures
        m.reservation_error(rids[i]) is None,
        forall|j: int| 0 <= j < i ==> #[trigger] rids[j] != rids[i],
        m.group_error(rids.take(i)) is None,
    decreases rids.len(),
{
    if i < rids.len() - 1 {
        lemma_group_member(m, rids.drop_last(), i);
        assert(rids.drop_last()[i] == rids[i]);
        assert(rids.drop_last().take(i) =~= rids.take(i));
        assert forall|j: int| 0 <= j < i implies #[trigger] rids[j] != rids[i] by {
            assert(rids.drop_last()[j] == rids[j]);
        }
    } else {
        assert(rids.take(i) =~= rids.drop_last());
        assert forall|j: int| 0 <= j < i implies #[trigger] rids[j] != rids[i] by {
            assert(rids.drop_last()[j] == rids[j]);
        }
    }
}

proof fn lemma_group_prefix_error(m: KvModel, rids: Seq<KvReservationId>, n: int)
    requires
        0 <= n <= rids.len(),
        m.group_error(rids.take(n)) is Some,
    ensures
        m.group_error(rids) == m.group_error(rids.take(n)),
    decreases rids.len(),
{
    if n < rids.len() {
        assert(rids.drop_last().take(n) =~= rids.take(n));
        lemma_group_prefix_error(m, rids.drop_last(), n);
    } else {
        assert(rids.take(n) =~= rids);
    }
}

/// After a prefix of a good group was committed, the others are still good and as long.
proof fn lemma_commit_prefix(m: KvModel, rids: Seq<KvReservationId>, done: int, other: int)
    requires
        m.group_error(rids) is None,
        0 <= done <= other < rids.len(),
    ensures
        m.commit_all(rids.take(done)).reservation_error(rids[other]) is None,
        m.commit_all(rids.take(done)).committed_length(rids[other]) == m.committed_length(
            rids[other],
        ),
    decreases done,
{
    lemma_group_member(m, rids, other);
    if done > 0 {
        lemma_commit_prefix(m, rids, done - 1, other);
        lemma_commit_prefix(m, rids, done - 1, done - 1);
        assert(rids.take(done).drop_last() =~= rids.take(done - 1));
        lemma_other_reservation(m.commit_all(rids.take(done - 1)), rids[done - 1], rids[other]);
    } else {
        assert(rids.take(0) =~= Seq::empty());
    }
}

/// After a prefix of a good group was withdrawn, the others are still good.
proof fn lemma_cancel_prefix(m: KvModel, rids: Seq<KvReservationId>, done: int, other: int)
    requires
        m.group_error(rids) is None,
        0 <= done <= other < rids.len(),
    ensures
        m.cancel_all(rids.take(done)).reservation_error(rids[other]) is None,
    decreases done,
{
    lemma_group_member(m, rids, other);
    if done > 0 {
        lemma_cancel_prefix(m, rids, done - 1, other);
        lemma_cancel_prefix(m, rids, done - 1, done - 1);
        assert(rids.take(done).drop_last() =~= rids.take(done - 1));
        lemma_other_reservation(m.cancel_all(rids.take(done - 1)), rids[done - 1], rids[other]);
    } else {
        assert(rids.take(0) =~= Seq::empty());
    }
}

/// A copy of a page list.
fn copy_pages(pages: &Vec<KvPageId>) -> (copy: Vec<KvPageId>)
    ensures
        copy@ == pages@,
{
    let mut copy: Vec<KvPageId> = Vec::with_capacity(pages.len());
    let mut i: usize = 0;
    while i < pages.len()
        invariant
            i <= pages.len(),
            copy@ == pages@.take(i as int),
        decreases pages.len() - i,
    {
        copy.push(pages[i]);
        i += 1;
        assert(copy@ =~= pages@.take(i as int));
    }
    assert(copy@ =~= pages@);
    copy
}

/// Put a page among the free ones.
fn release_page(free: &mut Vec<KvPageId>, page: KvPageId)
    requires
        descending(old(free)@),
    ensures
        descending(final(free)@),
        final(free)@.to_set() == old(free)@.to_set().insert(page),
{
    let mut low: usize = 0;
    let mut high: usize = free.len();
    while low < high
        invariant
            descending(free@),
            low <= high <= free@.len(),
            forall|i: int| 0 <= i < low ==> (#[trigger] free@[i]).0 > page.0,
            forall|i: int| high <= i < free@.len() ==> (#[trigger] free@[i]).0 <= page.0,
        decreases high - low,
    {
        let middle: usize = low + (high - low) / 2;
        if free[middle].0 > page.0 {
            low = middle + 1;
        } else {
            high = middle;
        }
    }
    let ghost before = free@;
    if low < free.len() && free[low].0 == page.0 {
        proof {
            assert(before[low as int] == page);
            assert(before.to_set() =~= before.to_set().insert(page));
        }
    } else {
        proof {
            if low < before.len() {
                assert(before[low as int].0 < page.0);
            }
        }
        free.insert(low, page);
        proof {
            let after = free@;
            let at = low as int;
            assert forall|i: int, j: int| 0 <= i < j < after.len() implies after[i].0
                > after[j].0 by {
                let a = if i < at { i } else { i - 1 };
                let b = if j < at { j } else { j - 1 };
                if i != at {
                    assert(after[i] == before[a]);
                }
                if j != at {
                    assert(after[j] == before[b]);
                }
                if i == at && j > at && low < before.len() {
                    assert(before[b].0 <= before[low as int].0);
                }
            }
            assert(after.to_set() =~= before.to_set().insert(page)) by {
                assert forall|q: KvPageId| after.to_set().contains(q) implies before.to_set().insert(
                    page,
                ).contains(q) by {
                    let i = choose|i: int| 0 <= i < after.len() && after[i] == q;
                    if i < at {
                        assert(before[i] == q);
                    } else if i > at {
                        assert(before[i - 1] == q);
                    }
                }
                assert forall|q: KvPageId| before.to_set().insert(page).contains(q) implies after.to_set().contains(
                    q,
                ) by {
                    if q == page {
                        assert(after[at] == page);
                    } else {
                        let i = choose|i: int| 0 <= i < before.len() && before[i] == q;
                        if i < at {
                            assert(after[i] == q);
                        } else {
                            assert(after[i + 1] == q);
                        }
                    }
                }
            }
        }
    }
}

/// Put pages among the free ones.
fn release_pages(free: &mut Vec<KvPageId>, pages: &Vec<KvPageId>)
    requires
        descending(old(free)@),
    ensures
        descending(final(free)@),
        final(free)@.to_set() == old(free)@.to_set().union(pages@.to_set()),
{
    let mut i: usize = 0;
    assert(free@.to_set() =~= old(free)@.to_set().union(pages@.take(0).to_set()));
    while i < pages.len()
        invariant
            i <= pages.len(),
            descending(free@),
            free@.to_set() == old(free)@.to_set().union(pages@.take(i as int).to_set()),
        decreases pages.len() - i,
    {
        release_page(free, pages[i]);
        proof {
            let shorter = pages@.take(i as int);
            let longer = pages@.take(i + 1);
            assert(longer =~= shorter.push(pages@[i as int]));
            assert(longer.to_set() =~= shorter.to_set().insert(pages@[i as int])) by {
                assert forall|q: KvPageId| longer.to_set().contains(q) implies shorter.to_set().insert(
                    pages@[i as int],
                ).contains(q) by {
                    let j = choose|j: int| 0 <= j < longer.len() && longer[j] == q;
                    if j < i {
                        assert(shorter[j] == q);
                    }
                }
                assert forall|q: KvPageId| shorter.to_set().insert(pages@[i as int]).contains(
                    q,
                ) implies longer.to_set().contains(q) by {
                    if q == pages@[i as int] {
                        assert(longer[i as int] == q);
                    } else {
                        let j = choose|j: int| 0 <= j < shorter.len() && shorter[j] == q;
                        assert(longer[j] == q);
                    }
                }
            }
        }
        i += 1;
        assert(free@.to_set() =~= old(free)@.to_set().union(pages@.take(i as int).to_set()));
    }
    assert(pages@.take(pages.len() as int) =~= pages@);
}

impl PagedKvCacheManager {
    /// The representation is in order: limits are valid and every list is sorted.
    pub open spec fn ordered(&self) -> bool {
        &&& self.config.valid()
        &&& descending(self.free_pages@)
        &&& self.sequences.wf()
        &&& self.reservations.wf()
    }

    /// The representation is in order, and every page has exactly one place.
    pub open spec fn wf(&self) -> bool {
        self.ordered() && self@.consistent()
    }

    pub fn new(config: PagedKvCacheConfig) -> (result: Result<Self, PagedKvError>)
        ensures
            result is Ok <==> config.valid(),
            result matches Ok(cache) ==> cache.wf() && cache@ == KvModel::initial(config),
            result matches Err(error) ==> error.0@ == (if config.block_size == 0
                || config.num_pages == 0 || config.max_sequence_length == 0 {
                "paged KV block_size, num_pages, and max_sequence_length must be non-zero"@
            } else {
                "paged KV physical page count exceeds u32 page-table capacity"@
            }),
    {
        match config.validate() {
            Ok(_) => {},
            Err(error) => {
                return Err(error);
            },
        }
        let mut free_pages: Vec<KvPageId> = Vec::with_capacity(config.num_pages);
        let mut left: usize = config.num_pages;
        while left > 0
            invariant
                left <= config.num_pages <= u32::MAX,
                free_pages@.len() == config.num_pages - left,
                forall|i: int|
                    0 <= i < free_pages@.len() ==> (#[trigger] free_pages@[i]).0
                        == config.num_pages - 1 - i,
            decreases left,
        {
            left -= 1;
            free_pages.push(KvPageId(left as u32));
        }
        let cache = Self {
            config,
            free_pages,
            sequences: OrderedMap::new(),
            reservations: OrderedMap::new(),
            next_reservation: 1,
        };
        proof {
            let start = KvModel::initial(config);
            assert(cache@.free =~= start.free) by {
                assert forall|p: KvPageId| start.free.contains(p) implies cache@.free.contains(
                    p,
                ) by {
                    let i = config.num_pages - 1 - p.0;
                    assert(cache.free_pages@[i] == p);
                }
            }
            assert(cache@.sequences =~= start.sequences);
            assert(cache@ =~= start);
            law_initial_consistent(config);
        }
        Ok(cache)
    }

    pub fn config(&self) -> (config: PagedKvCacheConfig)
        ensures
            config == self@.config,
    {
        self.config
    }

    /// Constant-time counters; unlike `snapshot`, these never clone page tables.
    pub fn free_page_count(&self) -> (count: usize)
        requires
            self.ordered(),
        ensures
            count == self@.free.len(),
            self@.free.finite(),
    {
        proof {
            lemma_descending_count(self.free_pages@);
        }
        self.free_pages.len()
    }

    pub fn allocated_page_count(&self) -> (count: usize)
        requires
            self.wf(),
        ensures
            count == self@.config.num_pages - self@.free.len(),
            count == self@.held_pages(),
    {
        proof {
            law_pages_are_conserved(self@);
        }
        self.config.num_pages - self.free_page_count()
    }

    pub fn sequence_count(&self) -> (count: usize)
        requires
            self.ordered(),
        ensures
            count == self@.sequences.dom().len(),
    {
        assert(self@.sequences.dom() =~= self.sequences@.dom());
        self.sequences.len()
    }

    pub fn reservation_count(&self) -> (count: usize)
        requires
            self.ordered(),
        ensures
            count == self@.reservations.dom().len(),
    {
        self.reservations.len()
    }

    pub fn create_sequence(&mut self, request_id: RequestId) -> (result: Result<(), PagedKvError>)
        requires
            old(self).wf(),
        ensures
            final(self).wf(),
            match (result, old(self)@.create(request_id)) {
                (Ok(_), Ok(after)) => final(self)@ == after,
                (Err(error), Err(message)) => error.0@ == message && final(self)@ == old(self)@,
                _ => false,
            },
    {
        if self.sequences.contains_key(request_id.0) {
            return Err(
                PagedKvError(with_number("paged KV sequence ", request_id.0, " already exists")),
            );
        }
        let fresh = SequenceState { committed_tokens: 0, pages: Vec::new(), pending: None };
        let ghost fresh_model = fresh@;
        self.sequences.insert(request_id.0, fresh);
        proof {
            assert(fresh_model =~= SequenceModel {
                committed_tokens: 0,
                pages: Seq::empty(),
                pending: None,
            });
            assert(self@.sequences =~= old(self)@.sequences.insert(request_id.0, fresh_model));
            law_create_consistent(old(self)@, request_id);
        }
        Ok(())
    }

    pub fn contains_sequence(&self, request_id: RequestId) -> (found: bool)
        requires
            self.ordered(),
        ensures
            found == self@.sequences.contains_key(request_id.0),
    {
        self.sequences.contains_key(request_id.0)
    }

    pub fn committed_tokens(&self, request_id: RequestId) -> (result: Result<usize, PagedKvError>)
        requires
            self.ordered(),
        ensures
            match result {
                Ok(tokens) => self@.sequences.contains_key(request_id.0) && tokens
                    == self@.sequences[request_id.0].committed_tokens,
                Err(error) => !self@.sequences.contains_key(request_id.0) && error.0@
                    == KvModel::missing_sequence(request_id),
            },
    {
        match self.sequence(request_id) {
            Ok(sequence) => Ok(sequence.committed_tokens),
            Err(error) => Err(error),
        }
    }

    pub fn block_table(&self, request_id: RequestId) -> (result: Result<
        Vec<KvPageId>,
        PagedKvError,
    >)
        requires
            self.ordered(),
        ensures
            match result {
                Ok(pages) => self@.sequences.contains_key(request_id.0) && pages@
                    == self@.sequences[request_id.0].pages,
                Err(error) => !self@.sequences.contains_key(request_id.0) && error.0@
                    == KvModel::missing_sequence(request_id),
            },
    {
        match self.sequence(request_id) {
            Ok(sequence) => Ok(copy_pages(&sequence.pages)),
            Err(error) => Err(error),
        }
    }

    pub fn can_append(&self, request_id: RequestId, token_count: usize) -> (result: Result<
        bool,
        PagedKvError,
    >)
        requires
            self.ordered(),
        ensures
            match result {
                Ok(possible) => (token_count == 0 || self@.sequences.contains_key(request_id.0))
                    && possible == (token_count > 0 && self@.can_append(request_id, token_count)),
                Err(error) => token_count > 0 && !self@.sequences.contains_key(request_id.0)
                    && error.0@ == KvModel::missing_sequence(request_id),
            },
    {
        if token_count == 0 {
            return Ok(false);
        }
        let sequence = match self.sequence(request_id) {
            Ok(sequence) => sequence,
            Err(error) => {
                return Err(error);
            },
        };
        if sequence.pending.is_some() {
            return Ok(false);
        }
        let end: usize = match sequence.committed_tokens.checked_add(token_count) {
            Some(end) => end,
            None => {
                return Ok(false);
            },
        };
        if end > self.config.max_sequence_length {
            return Ok(false);
        }
        let required_pages: usize = ceil_div(end, self.config.block_size);
        Ok(required_pages.saturating_sub(sequence.pages.len()) <= self.free_page_count())
    }

    pub fn begin_append(&mut self, request_id: RequestId, token_count: usize) -> (result: Result<
        PagedKvAppendReservation,
        PagedKvError,
    >)
        requires
            old(self).wf(),
        ensures
            final(self).wf(),
            match (result, old(self)@.begin_error(request_id, token_count)) {
                (Ok(reservation), None) => reservation@ == old(self)@.begin_value(
                    request_id,
                    token_count,
                ) && final(self)@ == old(self)@.begin_state(request_id, token_count),
                (Err(error), Some(message)) => error.0@ == message && final(self)@ == old(self)@,
                _ => false,
            },
    {
        if token_count == 0 {
            return Err(
                PagedKvError(text("paged KV append reservation must contain at least one token")),
            );
        }
        let sequence = match self.sequence(request_id) {
            Ok(sequence) => sequence,
            Err(error) => {
                return Err(error);
            },
        };
        if let Some(reservation) = sequence.pending {
            return Err(
                PagedKvError(
                    with_numbers(
                        "paged KV sequence ",
                        request_id.0,
                        " already has pending reservation ",
                        reservation.0,
                        "",
                    ),
                ),
            );
        }
        let start_position: usize = sequence.committed_tokens;
        let context_length: usize = match start_position.checked_add(token_count) {
            Some(length) => length,
            None => {
                return Err(PagedKvError(text("paged KV sequence length overflow")));
            },
        };
        if context_length > self.config.max_sequence_length {
            let mut message = with_numbers(
                "paged KV sequence ",
                request_id.0,
                " would grow to ",
                context_length as u64,
                ", above capacity ",
            );
            push_number(&mut message, self.config.max_sequence_length as u64);
            return Err(PagedKvError(message));
        }
        let previous_page_count: usize = sequence.pages.len();
        let required_pages: usize = ceil_div(context_length, self.config.block_size);
        let additional_pages: usize = required_pages.saturating_sub(previous_page_count);
        let free_count: usize = self.free_page_count();
        if additional_pages > free_count {
            return Err(
                PagedKvError(
                    with_numbers(
                        "paged KV append needs ",
                        additional_pages as u64,
                        " new pages but only ",
                        free_count as u64,
                        " are free",
                    ),
                ),
            );
        }
        let id = KvReservationId(self.next_reservation);
        let next_reservation: u64 = match self.next_reservation.checked_add(1) {
            Some(next) => next,
            None => {
                return Err(PagedKvError(text("paged KV reservation id overflow")));
            },
        };
        let ghost before = self@;
        let ghost free_before = self.free_pages@;
        proof {
            lemma_descending_count(free_before);
            lemma_lowest_of_descending(free_before, additional_pages as nat);
        }
        self.next_reservation = next_reservation;
        let mut newly_allocated_pages: Vec<KvPageId> = Vec::with_capacity(additional_pages);
        let mut taken: usize = 0;
        while taken < additional_pages
            invariant
                taken <= additional_pages <= free_before.len(),
                self.ordered(),
                descending(free_before),
                self.free_pages@ == free_before.take(free_before.len() - taken),
                newly_allocated_pages@ == Seq::new(
                    taken as nat,
                    |i: int| free_before[free_before.len() - 1 - i],
                ),
                self.config == before.config,
                self.sequences@ == old(self).sequences@,
                self.reservations@ == old(self).reservations@,
                self.next_reservation == next_reservation,
            decreases additional_pages - taken,
        {
            let page = self.free_pages.pop().unwrap();
            newly_allocated_pages.push(page);
            taken += 1;
            assert(self.free_pages@ =~= free_before.take(free_before.len() - taken));
            assert(newly_allocated_pages@ =~= Seq::new(
                taken as nat,
                |i: int| free_before[free_before.len() - 1 - i],
            ));
        }
        let ghost fresh = lowest(before.free, additional_pages as nat);
        proof {
            assert(newly_allocated_pages@ == fresh);
            assert(self.free_pages@.to_set() =~= before.free.difference(fresh.to_set())) by {
                lemma_split_free(free_before, additional_pages as int);
            }
        }
        let mut block_table: Vec<KvPageId> = Vec::new();
        match self.sequences.get_mut(request_id.0) {
            Some(sequence) => {
                extend_pages(&mut sequence.pages, &newly_allocated_pages);
                sequence.pending = Some(id);
                block_table = copy_pages(&sequence.pages);
            },
            None => {},
        }
        self.reservations.insert(
            id.0,
            ReservationState { request_id, previous_page_count, start_position, token_count },
        );
        proof {
            let after = before.begin_state(request_id, token_count);
            assert(self@.sequences =~= after.sequences);
            assert(self@.reservations =~= after.reservations);
            assert(self@ =~= after);
            law_begin_consistent(before, request_id, token_count);
        }
        Ok(
            PagedKvAppendReservation {
                id,
                request_id,
                start_position,
                token_count,
                context_length,
                newly_allocated_pages,
                block_table,
            },
        )
    }
}

/// Taking the last pages of a descending list leaves exactly the others.
proof fn lemma_split_free(pages: Seq<KvPageId>, taken: int)
    requires
        descending(pages),
        0 <= taken <= pages.len(),
    ensures
        pages.take(pages.len() - taken).to_set() == pages.to_set().difference(
            Seq::new(taken as nat, |i: int| pages[pages.len() - 1 - i]).to_set(),
        ),
        Seq::new(taken as nat, |i: int| pages[pages.len() - 1 - i]).to_set().subset_of(
            pages.to_set(),
        ),
{
    let kept = pages.take(pages.len() - taken);
    let gone = Seq::new(taken as nat, |i: int| pages[pages.len() - 1 - i]);
    assert forall|q: KvPageId| kept.to_set().contains(q) implies pages.to_set().contains(q)
        && !gone.to_set().contains(q) by {
        let i = choose|i: int| 0 <= i < kept.len() && kept[i] == q;
        assert(pages[i] == q);
        if gone.to_set().contains(q) {
            let j = choose|j: int| 0 <= j < gone.len() && gone[j] == q;
            assert(pages[pages.len() - 1 - j] == q);
            assert(pages[i].0 > pages[pages.len() - 1 - j].0);
        }
    }
    assert forall|q: KvPageId|
        pages.to_set().contains(q) && !gone.to_set().contains(q) implies kept.to_set().contains(
        q,
    ) by {
        let i = choose|i: int| 0 <= i < pages.len() && pages[i] == q;
        if i >= pages.len() - taken {
            assert(gone[pages.len() - 1 - i] == q);
        } else {
            assert(kept[i] == q);
        }
    }
    assert forall|q: KvPageId| gone.to_set().contains(q) implies pages.to_set().contains(q) by {
        let j = choose|j: int| 0 <= j < gone.len() && gone[j] == q;
        assert(pages[pages.len() - 1 - j] == q);
    }
    assert(kept.to_set() =~= pages.to_set().difference(gone.to_set()));
}

/// Append pages to a page list.
fn extend_pages(pages: &mut Vec<KvPageId>, fresh: &Vec<KvPageId>)
    ensures
        final(pages)@ == old(pages)@ + fresh@,
{
    let mut i: usize = 0;
    assert(pages@ =~= old(pages)@ + fresh@.take(0));
    while i < fresh.len()
        invariant
            i <= fresh.len(),
            pages@ == old(pages)@ + fresh@.take(i as int),
        decreases fresh.len() - i,
    {
        pages.push(fresh[i]);
        i += 1;
        assert(pages@ =~= old(pages)@ + fresh@.take(i as int));
    }
    assert(fresh@.take(fresh.len() as int) =~= fresh@);
}

impl PagedKvCacheManager {
    pub fn commit_append(&mut self, reservation_id: KvReservationId) -> (result: Result<
        usize,
        PagedKvError,
    >)
        requires
            old(self).ordered(),
        ensures
            final(self).ordered(),
            old(self).wf() ==> final(self).wf(),
            match (result, old(self)@.reservation_error(reservation_id)) {
                (Ok(length), None) => length == old(self)@.committed_length(reservation_id)
                    && final(self)@ == old(self)@.commit_state(reservation_id),
                (Err(error), Some(message)) => error.0@ == message && final(self)@ == old(self)@,
                _ => false,
            },
    {
        match self.validate_reservation(reservation_id) {
            Ok(_) => {},
            Err(error) => {
                return Err(error);
            },
        }
        let ghost before = self@;
        let reservation = self.reservations.remove(reservation_id.0).unwrap();
        let context_length: usize = reservation.start_position + reservation.token_count;
        match self.sequences.get_mut(reservation.request_id.0) {
            Some(sequence) => {
                sequence.committed_tokens = context_length;
                sequence.pending = None;
            },
            None => {},
        }
        proof {
            let after = before.commit_state(reservation_id);
            assert(self@.sequences =~= after.sequences);
            assert(self@ =~= after);
            if before.consistent() {
                law_commit_consistent(before, reservation_id);
            }
        }
        Ok(context_length)
    }

    pub fn cancel_append(&mut self, reservation_id: KvReservationId) -> (result: Result<
        (),
        PagedKvError,
    >)
        requires
            old(self).ordered(),
        ensures
            final(self).ordered(),
            old(self).wf() ==> final(self).wf(),
            match (result, old(self)@.reservation_error(reservation_id)) {
                (Ok(_), None) => final(self)@ == old(self)@.cancel_state(reservation_id),
                (Err(error), Some(message)) => error.0@ == message && final(self)@ == old(self)@,
                _ => false,
            },
    {
        match self.validate_reservation(reservation_id) {
            Ok(_) => {},
            Err(error) => {
                return Err(error);
            },
        }
        let ghost before = self@;
        let reservation = self.reservations.remove(reservation_id.0).unwrap();
        let mut released: Vec<KvPageId> = Vec::new();
        match self.sequences.get_mut(reservation.request_id.0) {
            Some(sequence) => {
                released = sequence.pages.split_off(reservation.previous_page_count);
                sequence.pending = None;
            },
            None => {},
        }
        release_pages(&mut self.free_pages, &released);
        proof {
            let after = before.cancel_state(reservation_id);
            assert(self@.sequences =~= after.sequences);
            assert(self@ =~= after);
            if before.consistent() {
                law_cancel_consistent(before, reservation_id);
            }
        }
        Ok(())
    }

    /// Commit a group atomically with respect to validation errors. Unknown or
    /// duplicate IDs leave every reservation, sequence and page unchanged.
    pub fn commit_appends(&mut self, reservation_ids: &[KvReservationId]) -> (result: Result<
        Vec<usize>,
        PagedKvError,
    >)
        requires
            old(self).ordered(),
        ensures
            final(self).ordered(),
            old(self).wf() ==> final(self).wf(),
            match (result, old(self)@.group_error(reservation_ids@)) {
                (Ok(lengths), None) => lengths@ == Seq::new(
                    reservation_ids@.len(),
                    |i: int| old(self)@.committed_length(reservation_ids@[i]),
                ) && final(self)@ == old(self)@.commit_all(reservation_ids@),
                (Err(error), Some(message)) => error.0@ == message && final(self)@ == old(self)@,
                _ => false,
            },
    {
        match self.validate_reservations(reservation_ids) {
            Ok(_) => {},
            Err(error) => {
                return Err(error);
            },
        }
        let ghost before = self@;
        let mut lengths: Vec<usize> = Vec::with_capacity(reservation_ids.len());
        let mut i: usize = 0;
        assert(reservation_ids@.take(0) =~= Seq::empty());
        while i < reservation_ids.len()
            invariant
                i <= reservation_ids@.len(),
                self.ordered(),
                old(self).wf() ==> self.wf(),
                before.group_error(reservation_ids@) is None,
                self@ == before.commit_all(reservation_ids@.take(i as int)),
                lengths@ == Seq::new(
                    i as nat,
                    |j: int| before.committed_length(reservation_ids@[j]),
                ),
            decreases reservation_ids@.len() - i,
        {
            proof {
                lemma_commit_prefix(before, reservation_ids@, i as int, i as int);
                assert(reservation_ids@.take(i + 1).drop_last() =~= reservation_ids@.take(
                    i as int,
                ));
            }
            match self.commit_append(reservation_ids[i]) {
                Ok(length) => {
                    lengths.push(length);
                },
                Err(_) => {},
            }
            i += 1;
            assert(lengths@ =~= Seq::new(
                i as nat,
                |j: int| before.committed_length(reservation_ids@[j]),
            ));
        }
        assert(reservation_ids@.take(i as int) =~= reservation_ids@);
        Ok(lengths)
    }

    /// Cancel a group atomically with respect to validation errors.
    pub fn cancel_appends(&mut self, reservation_ids: &[KvReservationId]) -> (result: Result<
        (),
        PagedKvError,
    >)
        requires
            old(self).ordered(),
        ensures
            final(self).ordered(),
            old(self).wf() ==> final(self).wf(),
            match (result, old(self)@.group_error(reservation_ids@)) {
                (Ok(_), None) => final(self)@ == old(self)@.cancel_all(reservation_ids@),
                (Err(error), Some(message)) => error.0@ == message && final(self)@ == old(self)@,
                _ => false,
            },
    {
        match self.validate_reservations(reservation_ids) {
            Ok(_) => {},
            Err(error) => {
                return Err(error);
            },
        }
        let ghost before = self@;
        let mut i: usize = 0;
        assert(reservation_ids@.take(0) =~= Seq::empty());
        while i < reservation_ids.len()
            invariant
                i <= reservation_ids@.len(),
                self.ordered(),
                old(self).wf() ==> self.wf(),
                before.group_error(reservation_ids@) is None,
                self@ == before.cancel_all(reservation_ids@.take(i as int)),
            decreases reservation_ids@.len() - i,
        {
            proof {
                lemma_cancel_prefix(before, reservation_ids@, i as int, i as int);
                assert(reservation_ids@.take(i + 1).drop_last() =~= reservation_ids@.take(
                    i as int,
                ));
            }
            let _ = self.cancel_append(reservation_ids[i]);
            i += 1;
        }
        assert(reservation_ids@.take(i as int) =~= reservation_ids@);
        Ok(())
    }

    fn validate_reservations(&self, ids: &[KvReservationId]) -> (result: Result<(), PagedKvError>)
        requires
            self.ordered(),
        ensures
            match (result, self@.group_error(ids@)) {
                (Ok(_), None) => true,
                (Err(error), Some(message)) => error.0@ == message,
                _ => false,
            },
    {
        let mut i: usize = 0;
        assert(ids@.take(0) =~= Seq::empty());
        while i < ids.len()
            invariant
                self.ordered(),
                i <= ids@.len(),
                self@.group_error(ids@.take(i as int)) is None,
            decreases ids@.len() - i,
        {
            let id = ids[i];
            let ghost upto = ids@.take(i + 1);
            assert(upto.drop_last() =~= ids@.take(i as int));
            let mut seen = false;
            let mut j: usize = 0;
            while j < i
                invariant
                    j <= i < ids@.len(),
                    id == ids@[i as int],
                    seen <==> exists|k: int| 0 <= k < j && #[trigger] ids@[k] == id,
                decreases i - j,
            {
                if ids[j].0 == id.0 {
                    seen = true;
                    assert(ids@[j as int] == id);
                }
                j += 1;
            }
            proof {
                let earlier = ids@.take(i as int);
                if seen {
                    let k = choose|k: int| 0 <= k < i && #[trigger] ids@[k] == id;
                    assert(earlier[k] == id);
                }
                if earlier.contains(id) {
                    let k = choose|k: int| 0 <= k < earlier.len() && earlier[k] == id;
                    assert(ids@[k] == id);
                }
                assert(seen == earlier.contains(id));
                if self@.group_error(upto) is Some {
                    lemma_group_prefix_error(self@, ids@, i + 1);
                }
            }
            if seen {
                return Err(PagedKvError(with_number("duplicate reservation ", id.0, "")));
            }
            match self.validate_reservation(id) {
                Ok(_) => {},
                Err(error) => {
                    return Err(error);
                },
            }
            i += 1;
        }
        assert(ids@.take(i as int) =~= ids@);
        Ok(())
    }

    fn validate_reservation(&self, id: KvReservationId) -> (result: Result<(), PagedKvError>)
        requires
            self.ordered(),
        ensures
            match (result, self@.reservation_error(id)) {
                (Ok(_), None) => true,
                (Err(error), Some(message)) => error.0@ == message,
                _ => false,
            },
    {
        let reservation = match self.reservations.get(id.0) {
            Some(reservation) => reservation,
            None => {
                return Err(
                    PagedKvError(with_number("paged KV reservation ", id.0, " does not exist")),
                );
            },
        };
        let sequence = match self.sequence(reservation.request_id) {
            Ok(sequence) => sequence,
            Err(error) => {
                return Err(error);
            },
        };
        let owned = match sequence.pending {
            Some(pending) => pending.0 == id.0,
            None => false,
        };
        if !owned || sequence.committed_tokens != reservation.start_position
            || sequence.pages.len() < reservation.previous_page_count {
            return Err(
                PagedKvError(
                    with_number(
                        "reservation ",
                        id.0,
                        " does not own a consistent sequence state",
                    ),
                ),
            );
        }
        if reservation.start_position.checked_add(reservation.token_count).is_none() {
            return Err(PagedKvError(text("paged KV committed length overflow")));
        }
        Ok(())
    }

    pub fn remove_sequence(&mut self, request_id: RequestId) -> (result: Result<(), PagedKvError>)
        requires
            old(self).wf(),
        ensures
            final(self).wf(),
            match (result, old(self)@.remove_error(request_id)) {
                (Ok(_), None) => final(self)@ == old(self)@.remove_state(request_id),
                (Err(error), Some(message)) => error.0@ == message && final(self)@ == old(self)@,
                _ => false,
            },
    {
        let sequence = match self.sequence(request_id) {
            Ok(sequence) => sequence,
            Err(error) => {
                return Err(error);
            },
        };
        if let Some(reservation) = sequence.pending {
            return Err(
                PagedKvError(
                    with_numbers(
                        "cannot remove sequence ",
                        request_id.0,
                        " while reservation ",
                        reservation.0,
                        " is pending",
                    ),
                ),
            );
        }
        let ghost before = self@;
        let removed = self.sequences.remove(request_id.0).unwrap();
        release_pages(&mut self.free_pages, &removed.pages);
        proof {
            let after = before.remove_state(request_id);
            assert(self@.sequences =~= after.sequences);
            assert(self@ =~= after);
            law_remove_consistent(before, request_id);
        }
        Ok(())
    }

    /// Counters and page tables; sequences come in ascending order of their requests.
    pub fn snapshot(&self) -> (snapshot: PagedKvCacheSnapshot)
        requires
            self.ordered(),
        ensures
            snapshot.block_size == self@.config.block_size,
            snapshot.total_pages == self@.config.num_pages,
            snapshot.free_pages == self@.free.len(),
            snapshot.sequences@.len() == self@.sequences.dom().len(),
            forall|i: int, j: int|
                0 <= i < j < snapshot.sequences@.len() ==> snapshot.sequences@[i].request_id.0
                    < snapshot.sequences@[j].request_id.0,
            forall|i: int|
                0 <= i < snapshot.sequences@.len() ==> {
                    let row = #[trigger] snapshot.sequences@[i];
                    &&& self@.sequences.contains_key(row.request_id.0)
                    &&& self@.sequences[row.request_id.0] == (SequenceModel {
                        committed_tokens: row.committed_tokens,
                        pages: row.block_table@,
                        pending: row.pending_reservation,
                    })
                },
    {
        let mut sequences: Vec<PagedKvSequenceSnapshot> = Vec::with_capacity(
            self.sequences.entries.len(),
        );
        let mut i: usize = 0;
        proof {
            assert(self@.sequences.dom() =~= self.sequences@.dom());
            lemma_entry_count(self.sequences.entries@);
        }
        while i < self.sequences.entries.len()
            invariant
                self.ordered(),
                i <= self.sequences.entries@.len(),
                sequences@.len() == i,
                forall|j: int|
                    0 <= j < i ==> (#[trigger] sequences@[j]).request_id.0
                        == self.sequences.entries@[j].0,
                forall|j: int|
                    0 <= j < i ==> {
                        let row = #[trigger] sequences@[j];
                        &&& self@.sequences.contains_key(row.request_id.0)
                        &&& self@.sequences[row.request_id.0] == (SequenceModel {
                            committed_tokens: row.committed_tokens,
                            pages: row.block_table@,
                            pending: row.pending_reservation,
                        })
                    },
            decreases self.sequences.entries@.len() - i,
        {
            proof {
                lemma_entry(self.sequences.entries@, i as int);
            }
            let entry = &self.sequences.entries[i];
            sequences.push(
                PagedKvSequenceSnapshot {
                    request_id: RequestId(entry.0),
                    committed_tokens: entry.1.committed_tokens,
                    block_table: copy_pages(&entry.1.pages),
                    pending_reservation: entry.1.pending,
                },
            );
            i += 1;
        }
        PagedKvCacheSnapshot {
            block_size: self.config.block_size,
            total_pages: self.config.num_pages,
            free_pages: self.free_page_count(),
            sequences,
        }
    }

    fn sequence(&self, request_id: RequestId) -> (result: Result<&SequenceState, PagedKvError>)
        requires
            self.ordered(),
        ensures
            match result {
                Ok(sequence) => self@.sequences.contains_key(request_id.0) && sequence@
                    == self@.sequences[request_id.0],
                Err(error) => !self@.sequences.contains_key(request_id.0) && error.0@
                    == KvModel::missing_sequence(request_id),
            },
    {
        match self.sequences.get(request_id.0) {
            Some(sequence) => Ok(sequence),
            None => Err(
                PagedKvError(with_number("paged KV sequence ", request_id.0, " does not exist")),
            ),
        }
    }
}

} // verus!
