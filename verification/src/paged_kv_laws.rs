//! What holds of a paged cache as a whole, whatever sequence of operations led to it.

use crate::paged_kv::{
    least, lemma_pages_for_order, lowest, pages_for, KvModel, KvPageId, KvReservationId,
    PagedKvCacheConfig, RequestId, ReservationState, SequenceModel,
};
use crate::sums::{key_bound, lemma_sum_change, lemma_sum_zero, sum_below};
use vstd::prelude::*;

verus! {

/// The number of pages that sequence `k` holds.
pub open spec fn page_weight(sequences: Map<u64, SequenceModel>) -> spec_fn(u64) -> int {
    |k: u64|
        if sequences.contains_key(k) {
            sequences[k].pages.len() as int
        } else {
            0
        }
}

impl KvModel {
    /// Sequence `id` holds page `p`.
    pub open spec fn holds(self, id: u64, p: KvPageId) -> bool {
        self.sequences.contains_key(id) && self.sequences[id].pages.contains(p)
    }

    /// The number of pages that sequences hold.
    pub open spec fn held_pages(self) -> int {
        sum_below(page_weight(self.sequences), key_bound())
    }

    /// A sequence holds exactly the pages for its committed tokens and for the append it has
    /// outstanding.
    pub open spec fn sequence_consistent(self, id: u64) -> bool {
        let s = self.sequences[id];
        let block = self.config.block_size as int;
        &&& s.pages.no_duplicates()
        &&& s.committed_tokens <= self.config.max_sequence_length
        &&& match s.pending {
            None => s.pages.len() == pages_for(s.committed_tokens as int, block),
            Some(rid) => {
                let r = self.reservations[rid.0];
                &&& self.reservations.contains_key(rid.0)
                &&& r.request_id.0 == id
                &&& r.start_position == s.committed_tokens
                &&& r.token_count > 0
                &&& r.start_position + r.token_count <= self.config.max_sequence_length
                &&& r.previous_page_count == pages_for(s.committed_tokens as int, block)
                &&& s.pages.len() == pages_for(r.start_position + r.token_count, block)
            },
        }
    }

    /// Every page has exactly one place and every reservation exactly one owner.
    pub open spec fn consistent(self) -> bool {
        &&& self.config.valid()
        &&& self.free.finite()
        &&& forall|p: KvPageId| #[trigger] self.free.contains(p) ==> p.0 < self.config.num_pages
        &&& forall|id: u64, p: KvPageId| #[trigger]
            self.holds(id, p) ==> p.0 < self.config.num_pages && !self.free.contains(p)
        &&& forall|a: u64, b: u64, p: KvPageId| #[trigger]
            self.holds(a, p) && #[trigger] self.holds(b, p) ==> a == b
        &&& self.free.len() + self.held_pages() == self.config.num_pages
        &&& forall|id: u64| #[trigger]
            self.sequences.contains_key(id) ==> self.sequence_consistent(id)
        &&& forall|rid: u64| #[trigger]
            self.reservations.contains_key(rid) ==> rid < self.next_reservation
                && self.sequences.contains_key(self.reservations[rid].request_id.0)
                && self.sequences[self.reservations[rid].request_id.0].pending == Some(
                KvReservationId(rid),
            )
    }
}

/// A non-empty finite set of pages has a least one.
proof fn lemma_least(pages: Set<KvPageId>)
    requires
        pages.finite(),
        pages.len() > 0,
    ensures
        pages.contains(least(pages)),
        forall|q: KvPageId| #[trigger] pages.contains(q) ==> least(pages).0 <= q.0,
    decreases pages.len(),
{
    let some = pages.choose();
    assert(pages.contains(some));
    let rest = pages.remove(some);
    if rest.len() == 0 {
        assert forall|q: KvPageId| #[trigger] pages.contains(q) implies some.0 <= q.0 by {
            if q != some {
                assert(rest.contains(q));
                assert(rest =~= Set::empty());
            }
        }
        assert(pages.contains(some) && forall|q: KvPageId| #[trigger]
            pages.contains(q) ==> some.0 <= q.0);
    } else {
        lemma_least(rest);
        let low = least(rest);
        let best = if some.0 <= low.0 { some } else { low };
        assert(pages.contains(best));
        assert forall|q: KvPageId| #[trigger] pages.contains(q) implies best.0 <= q.0 by {
            if q != some {
                assert(rest.contains(q));
            }
        }
    }
}

/// The lowest pages of a set are distinct members of it.
pub proof fn lemma_lowest(pages: Set<KvPageId>, n: nat)
    requires
        pages.finite(),
        n <= pages.len(),
    ensures
        lowest(pages, n).len() == n,
        lowest(pages, n).no_duplicates(),
        forall|p: KvPageId| #[trigger] lowest(pages, n).contains(p) ==> pages.contains(p),
    decreases n,
{
    if n > 0 {
        lemma_least(pages);
        let low = least(pages);
        let rest = pages.remove(low);
        lemma_lowest(rest, (n - 1) as nat);
        let tail = lowest(rest, (n - 1) as nat);
        let all = lowest(pages, n);
        assert(all =~= seq![low] + tail);
        assert forall|i: int, j: int| 0 <= i < j < all.len() implies all[i] != all[j] by {
            assert(all[j] == tail[j - 1]);
            assert(tail.contains(tail[j - 1]));
            if i > 0 {
                assert(all[i] == tail[i - 1]);
            }
        }
        assert forall|p: KvPageId| #[trigger] all.contains(p) implies pages.contains(p) by {
            let i = choose|i: int| 0 <= i < all.len() && all[i] == p;
            if i > 0 {
                assert(tail[i - 1] == p);
                assert(tail.contains(p));
            }
        }
    }
}

/// A new cache is consistent.
pub proof fn law_initial_consistent(config: PagedKvCacheConfig)
    requires
        config.valid(),
    ensures
        KvModel::initial(config).consistent(),
{
    let m = KvModel::initial(config);
    lemma_page_range(config.num_pages as nat);
    assert(m.free =~= page_range(config.num_pages as nat));
    lemma_sum_zero(page_weight(m.sequences), key_bound());
}

spec fn page_range(n: nat) -> Set<KvPageId> {
    Set::new(|p: KvPageId| p.0 < n)
}

proof fn lemma_page_range(n: nat)
    requires
        n <= u32::MAX,
    ensures
        page_range(n).finite(),
        page_range(n).len() == n,
    decreases n,
{
    if n == 0 {
        assert(page_range(0) =~= Set::empty());
    } else {
        lemma_page_range((n - 1) as nat);
        let page = KvPageId((n - 1) as u32);
        assert(page_range(n) =~= page_range((n - 1) as nat).insert(page)) by {
            assert forall|p: KvPageId| page_range(n).contains(p) implies page_range(
                (n - 1) as nat,
            ).insert(page).contains(p) by {
                if p.0 == n - 1 {
                    assert(p == page);
                }
            }
        }
    }
}

/// Registering a sequence keeps the cache consistent.
pub proof fn law_create_consistent(m: KvModel, id: RequestId)
    requires
        m.consistent(),
        m.create(id) is Ok,
    ensures
        (m.create(id)->Ok_0).consistent(),
{
    let after = m.create(id)->Ok_0;
    lemma_pages_for_order(0, 0, m.config.block_size as int);
    lemma_sum_change(page_weight(m.sequences), page_weight(after.sequences), id.0, key_bound());
    assert forall|a: u64, p: KvPageId| #[trigger] after.holds(a, p) implies m.holds(a, p) by {}
    assert forall|k: u64| #[trigger] after.sequences.contains_key(k) implies after.sequence_consistent(
        k,
    ) by {
        if k != id.0 {
            assert(m.sequences.contains_key(k));
            assert(m.sequence_consistent(k));
        }
    }
    assert forall|rid: u64| #[trigger] after.reservations.contains_key(rid) implies rid
        < after.next_reservation && after.sequences.contains_key(
        after.reservations[rid].request_id.0,
    ) && after.sequences[after.reservations[rid].request_id.0].pending == Some(
        KvReservationId(rid),
    ) by {
        assert(m.reservations.contains_key(rid));
        assert(m.reservations[rid].request_id.0 != id.0);
    }
}

/// An append can be reserved exactly where `can_append` says so and identifiers are left.
pub proof fn law_begin_iff_can_append(m: KvModel, id: RequestId, count: usize)
    requires
        m.config.valid(),
    ensures
        m.begin_error(id, count) is None <==> m.sequences.contains_key(id.0) && m.can_append(
            id,
            count,
        ) && m.next_reservation < u64::MAX,
{
}

/// Reserving an append keeps the cache consistent.
pub proof fn law_begin_consistent(m: KvModel, id: RequestId, count: usize)
    requires
        m.consistent(),
        m.begin_error(id, count) is None,
    ensures
        m.begin_state(id, count).consistent(),
        m.begin_value(id, count).newly_allocated_pages.no_duplicates(),
        m.begin_value(id, count).block_table.len() == pages_for(
            m.sequences[id.0].committed_tokens + count,
            m.config.block_size as int,
        ),
{
    let s = m.sequences[id.0];
    let after = m.begin_state(id, count);
    let block = m.config.block_size as int;
    assert(m.sequence_consistent(id.0));
    lemma_pages_for_order(s.committed_tokens as int, s.committed_tokens + count, block);
    let n = m.additional_pages(id, count) as nat;
    lemma_lowest(m.free, n);
    let fresh = lowest(m.free, n);
    assert(fresh.len() == n);
    fresh.unique_seq_to_set();
    assert(fresh.to_set().subset_of(m.free)) by {
        assert forall|p: KvPageId| fresh.to_set().contains(p) implies m.free.contains(p) by {
            assert(fresh.contains(p));
        }
    }
    vstd::set_lib::lemma_len_difference(m.free, fresh.to_set());
    lemma_difference_len(m.free, fresh.to_set());
    lemma_sum_change(page_weight(m.sequences), page_weight(after.sequences), id.0, key_bound());
    lemma_held_bound(m, id.0);
    let joined = s.pages + fresh;
    assert forall|p: KvPageId| #[trigger] joined.contains(p) implies s.pages.contains(p)
        || fresh.contains(p) by {
        let i = choose|i: int| 0 <= i < joined.len() && joined[i] == p;
        if i < s.pages.len() {
            assert(s.pages[i] == p);
        } else {
            assert(fresh[i - s.pages.len()] == p);
        }
    }
    assert(joined.no_duplicates()) by {
        assert forall|i: int, j: int| 0 <= i < j < joined.len() implies joined[i] != joined[j] by {
            if i < s.pages.len() && j >= s.pages.len() {
                assert(s.pages.contains(joined[i]));
                assert(m.holds(id.0, joined[i]));
                assert(fresh.contains(joined[j]));
            }
        }
    }
    assert forall|a: u64, p: KvPageId| #[trigger] after.holds(a, p) implies (m.holds(a, p)
        && !fresh.contains(p)) || (a == id.0 && fresh.contains(p)) by {
        if a == id.0 && !fresh.contains(p) {
            assert(joined.contains(p));
        } else if m.holds(a, p) {
            assert(!m.free.contains(p));
        }
    }
    assert forall|a: u64, p: KvPageId| #[trigger] after.holds(a, p) implies p.0
        < after.config.num_pages && !after.free.contains(p) by {
        if fresh.contains(p) {
            assert(m.free.contains(p));
            assert(fresh.to_set().contains(p));
        }
    }
    assert forall|a: u64, b: u64, p: KvPageId| #[trigger] after.holds(a, p) && #[trigger]
    after.holds(b, p) implies a == b by {}
    assert forall|k: u64| #[trigger] after.sequences.contains_key(k) implies after.sequence_consistent(
        k,
    ) by {
        if k != id.0 {
            assert(m.sequence_consistent(k));
            if m.sequences[k].pending is Some {
                let rid = m.sequences[k].pending->0;
                assert(m.reservations.contains_key(rid.0));
            }
        }
    }
    assert forall|rid: u64| #[trigger] after.reservations.contains_key(rid) implies rid
        < after.next_reservation && after.sequences.contains_key(
        after.reservations[rid].request_id.0,
    ) && after.sequences[after.reservations[rid].request_id.0].pending == Some(
        KvReservationId(rid),
    ) by {
        if rid != m.next_reservation {
            assert(m.reservations.contains_key(rid));
        }
    }
}

proof fn lemma_difference_len(all: Set<KvPageId>, part: Set<KvPageId>)
    requires
        all.finite(),
        part.finite(),
        part.subset_of(all),
    ensures
        all.difference(part).finite(),
        all.difference(part).len() == all.len() - part.len(),
    decreases part.len(),
{
    if part.len() == 0 {
        assert(part =~= Set::empty());
        assert(all.difference(part) =~= all);
    } else {
        let p = part.choose();
        assert(part.contains(p));
        lemma_difference_len(all, part.remove(p));
        assert(all.difference(part) =~= all.difference(part.remove(p)).remove(p));
    }
}

proof fn lemma_union_len(left: Set<KvPageId>, right: Set<KvPageId>)
    requires
        left.finite(),
        right.finite(),
        left.disjoint(right),
    ensures
        left.union(right).finite(),
        left.union(right).len() == left.len() + right.len(),
{
    vstd::set_lib::lemma_set_disjoint_lens(left, right);
}

/// A single sequence holds no more pages than all together.
proof fn lemma_held_bound(m: KvModel, id: u64)
    requires
        m.consistent(),
        m.sequences.contains_key(id),
    ensures
        m.sequences[id].pages.len() <= m.config.num_pages,
{
    let without = m.sequences.remove(id);
    lemma_sum_change(page_weight(m.sequences), page_weight(without), id, key_bound());
    lemma_weight_non_negative(without, key_bound());
}

proof fn lemma_weight_non_negative(sequences: Map<u64, SequenceModel>, bound: nat)
    requires
        bound <= key_bound(),
    ensures
        sum_below(page_weight(sequences), bound) >= 0,
    decreases bound,
{
    if bound > 0 {
        lemma_weight_non_negative(sequences, (bound - 1) as nat);
    }
}

/// Committing a reservation keeps the cache consistent.
pub proof fn law_commit_consistent(m: KvModel, rid: KvReservationId)
    requires
        m.consistent(),
        m.reservation_error(rid) is None,
    ensures
        m.commit_state(rid).consistent(),
{
    let r = m.reservations[rid.0];
    let id = r.request_id.0;
    let after = m.commit_state(rid);
    assert(m.sequence_consistent(id));
    lemma_sum_change(page_weight(m.sequences), page_weight(after.sequences), id, key_bound());
    assert forall|a: u64, p: KvPageId| #[trigger] after.holds(a, p) implies m.holds(a, p) by {}
    lemma_others_keep(m, after, rid);
}

/// Sequences and reservations other than the one that was resolved keep their bonds.
proof fn lemma_others_keep(m: KvModel, after: KvModel, rid: KvReservationId)
    requires
        m.consistent(),
        m.reservation_error(rid) is None,
        after.config == m.config,
        after.next_reservation == m.next_reservation,
        after.reservations == m.reservations.remove(rid.0),
        forall|k: u64|
            k != m.reservations[rid.0].request_id.0 ==> (after.sequences.contains_key(k)
                == m.sequences.contains_key(k)) && after.sequences[k] == #[trigger] m.sequences[k],
        after.sequence_consistent(m.reservations[rid.0].request_id.0),
        after.sequences.contains_key(m.reservations[rid.0].request_id.0),
    ensures
        forall|k: u64| #[trigger]
            after.sequences.contains_key(k) ==> after.sequence_consistent(k),
        forall|o: u64| #[trigger]
            after.reservations.contains_key(o) ==> o < after.next_reservation
                && after.sequences.contains_key(after.reservations[o].request_id.0)
                && after.sequences[after.reservations[o].request_id.0].pending == Some(
                KvReservationId(o),
            ),
{
    let id = m.reservations[rid.0].request_id.0;
    assert forall|k: u64| #[trigger] after.sequences.contains_key(k) implies after.sequence_consistent(
        k,
    ) by {
        if k != id {
            assert(after.sequences[k] == m.sequences[k]);
            assert(m.sequences.contains_key(k));
            assert(m.sequence_consistent(k));
            if m.sequences[k].pending is Some {
                let other = m.sequences[k].pending->0;
                assert(m.reservations[other.0].request_id.0 == k);
                assert(other.0 != rid.0);
            }
        }
    }
    assert forall|o: u64| #[trigger] after.reservations.contains_key(o) implies o
        < after.next_reservation && after.sequences.contains_key(
        after.reservations[o].request_id.0,
    ) && after.sequences[after.reservations[o].request_id.0].pending == Some(KvReservationId(o)) by {
        assert(m.reservations.contains_key(o));
        assert(o != rid.0);
        let k = m.reservations[o].request_id.0;
        assert(m.sequences[k].pending == Some(KvReservationId(o)));
        assert(k != id);
        assert(after.sequences[k] == m.sequences[k]);
    }
}

/// Withdrawing a reservation keeps the cache consistent.
pub proof fn law_cancel_consistent(m: KvModel, rid: KvReservationId)
    requires
        m.consistent(),
        m.reservation_error(rid) is None,
    ensures
        m.cancel_state(rid).consistent(),
{
    let r = m.reservations[rid.0];
    let id = r.request_id.0;
    let s = m.sequences[id];
    let after = m.cancel_state(rid);
    let kept = s.pages.take(r.previous_page_count as int);
    let gone = s.pages.skip(r.previous_page_count as int);
    assert(m.sequence_consistent(id));
    assert(gone.no_duplicates());
    assert(kept.no_duplicates());
    gone.unique_seq_to_set();
    assert(m.free.disjoint(gone.to_set())) by {
        assert forall|p: KvPageId| gone.to_set().contains(p) implies !m.free.contains(p) by {
            let i = choose|i: int| 0 <= i < gone.len() && gone[i] == p;
            assert(s.pages[i + r.previous_page_count] == p);
            assert(m.holds(id, p));
        }
    }
    lemma_union_len(m.free, gone.to_set());
    lemma_sum_change(page_weight(m.sequences), page_weight(after.sequences), id, key_bound());
    assert forall|a: u64, p: KvPageId| #[trigger] after.holds(a, p) implies m.holds(a, p) && !(
    gone.to_set().contains(p)) by {
        if a == id {
            let i = choose|i: int| 0 <= i < kept.len() && kept[i] == p;
            assert(s.pages[i] == p);
            assert(m.holds(id, p));
            if gone.to_set().contains(p) {
                let j = choose|j: int| 0 <= j < gone.len() && gone[j] == p;
                assert(s.pages[j + r.previous_page_count] == p);
            }
        } else if gone.to_set().contains(p) {
            let j = choose|j: int| 0 <= j < gone.len() && gone[j] == p;
            assert(s.pages[j + r.previous_page_count] == p);
            assert(m.holds(id, p));
            assert(m.holds(a, p));
        }
    }
    assert forall|p: KvPageId| #[trigger] after.free.contains(p) implies p.0
        < after.config.num_pages by {
        if !m.free.contains(p) {
            let j = choose|j: int| 0 <= j < gone.len() && gone[j] == p;
            assert(s.pages[j + r.previous_page_count] == p);
            assert(m.holds(id, p));
        }
    }
    assert forall|a: u64, b: u64, p: KvPageId| #[trigger] after.holds(a, p) && #[trigger]
    after.holds(b, p) implies a == b by {
        assert(m.holds(a, p) && m.holds(b, p));
    }
    lemma_others_keep(m, after, rid);
}

/// Committing a group keeps the cache consistent.
pub proof fn law_commit_all_consistent(m: KvModel, rids: Seq<KvReservationId>)
    requires
        m.consistent(),
        m.group_error(rids) is None,
    ensures
        m.commit_all(rids).consistent(),
    decreases rids.len(),
{
    if rids.len() > 0 {
        law_commit_all_consistent(m, rids.drop_last());
        lemma_group_remains(m, rids);
        law_commit_consistent(m.commit_all(rids.drop_last()), rids.last());
    }
}

/// Withdrawing a group keeps the cache consistent.
pub proof fn law_cancel_all_consistent(m: KvModel, rids: Seq<KvReservationId>)
    requires
        m.consistent(),
        m.group_error(rids) is None,
    ensures
        m.cancel_all(rids).consistent(),
    decreases rids.len(),
{
    if rids.len() > 0 {
        law_cancel_all_consistent(m, rids.drop_last());
        lemma_group_remains(m, rids);
        law_cancel_consistent(m.cancel_all(rids.drop_last()), rids.last());
    }
}

proof fn lemma_group_remains(m: KvModel, rids: Seq<KvReservationId>)
    requires
        m.group_error(rids) is None,
        rids.len() > 0,
    ensures
        m.commit_all(rids.drop_last()).reservation_error(rids.last()) is None,
        m.cancel_all(rids.drop_last()).reservation_error(rids.last()) is None,
{
    lemma_group_rest(m, rids.drop_last(), rids.last());
}

/// Resolving a group leaves a reservation outside of it untouched.
pub proof fn lemma_group_rest(m: KvModel, rids: Seq<KvReservationId>, other: KvReservationId)
    requires
        m.group_error(rids) is None,
        m.reservation_error(other) is None,
        !rids.contains(other),
    ensures
        m.commit_all(rids).reservation_error(other) is None,
        m.cancel_all(rids).reservation_error(other) is None,
        m.commit_all(rids).reservations[other.0] == m.reservations[other.0],
        m.cancel_all(rids).reservations[other.0] == m.reservations[other.0],
        m.commit_all(rids).sequences[m.reservations[other.0].request_id.0]
            == m.sequences[m.reservations[other.0].request_id.0],
        m.cancel_all(rids).sequences[m.reservations[other.0].request_id.0]
            == m.sequences[m.reservations[other.0].request_id.0],
    decreases rids.len(),
{
    if rids.len() > 0 {
        let before = rids.drop_last();
        let last = rids.last();
        assert(!before.contains(other)) by {
            if before.contains(other) {
                let i = choose|i: int| 0 <= i < before.len() && before[i] == other;
                assert(rids[i] == other);
            }
        }
        assert(rids[rids.len() - 1] == last);
        assert(last != other);
        assert(last.0 != other.0);
        lemma_group_rest(m, before, other);
        lemma_group_rest(m, before, last);
        let c = m.commit_all(before);
        let x = m.cancel_all(before);
        assert(c.sequences[c.reservations[last.0].request_id.0].pending == Some(last));
        assert(x.sequences[x.reservations[last.0].request_id.0].pending == Some(last));
        assert(c.reservations[last.0].request_id.0 != c.reservations[other.0].request_id.0);
        assert(x.reservations[last.0].request_id.0 != x.reservations[other.0].request_id.0);
    }
}

/// Removing a sequence keeps the cache consistent.
pub proof fn law_remove_consistent(m: KvModel, id: RequestId)
    requires
        m.consistent(),
        m.remove_error(id) is None,
    ensures
        m.remove_state(id).consistent(),
{
    let s = m.sequences[id.0];
    let after = m.remove_state(id);
    assert(m.sequence_consistent(id.0));
    s.pages.unique_seq_to_set();
    assert(m.free.disjoint(s.pages.to_set())) by {
        assert forall|p: KvPageId| s.pages.to_set().contains(p) implies !m.free.contains(p) by {
            assert(m.holds(id.0, p));
        }
    }
    lemma_union_len(m.free, s.pages.to_set());
    lemma_sum_change(page_weight(m.sequences), page_weight(after.sequences), id.0, key_bound());
    assert forall|p: KvPageId| #[trigger] after.free.contains(p) implies p.0
        < after.config.num_pages by {
        if !m.free.contains(p) {
            assert(m.holds(id.0, p));
        }
    }
    assert forall|a: u64, p: KvPageId| #[trigger] after.holds(a, p) implies m.holds(a, p)
        && !s.pages.to_set().contains(p) by {
        assert(m.holds(a, p));
        if s.pages.to_set().contains(p) {
            assert(m.holds(id.0, p));
        }
    }
    assert forall|a: u64, b: u64, p: KvPageId| #[trigger] after.holds(a, p) && #[trigger]
    after.holds(b, p) implies a == b by {
        assert(m.holds(a, p) && m.holds(b, p));
    }
    assert forall|k: u64| #[trigger] after.sequences.contains_key(k) implies after.sequence_consistent(
        k,
    ) by {
        assert(m.sequence_consistent(k));
    }
    assert forall|rid: u64| #[trigger] after.reservations.contains_key(rid) implies rid
        < after.next_reservation && after.sequences.contains_key(
        after.reservations[rid].request_id.0,
    ) && after.sequences[after.reservations[rid].request_id.0].pending == Some(
        KvReservationId(rid),
    ) by {
        assert(m.reservations.contains_key(rid));
        assert(m.reservations[rid].request_id.0 != id.0);
    }
}

/// Withdrawing an append that was just reserved restores the cache, but for the identifier that
/// was used up.
pub proof fn law_cancel_undoes_begin(m: KvModel, id: RequestId, count: usize)
    requires
        m.consistent(),
        m.begin_error(id, count) is None,
    ensures
        m.begin_state(id, count).reservation_error(m.begin_value(id, count).id) is None,
        m.begin_state(id, count).cancel_state(m.begin_value(id, count).id) == (KvModel {
            next_reservation: (m.next_reservation + 1) as u64,
            ..m
        }),
{
    let s = m.sequences[id.0];
    let n = m.additional_pages(id, count) as nat;
    let fresh = lowest(m.free, n);
    lemma_lowest(m.free, n);
    lemma_held_bound(m, id.0);
    let begun = m.begin_state(id, count);
    let rid = m.begin_value(id, count).id;
    let back = begun.cancel_state(rid);
    assert(!m.reservations.contains_key(rid.0));
    assert((s.pages + fresh).take(s.pages.len() as int) =~= s.pages);
    assert((s.pages + fresh).skip(s.pages.len() as int) =~= fresh);
    assert(back.free =~= m.free) by {
        assert forall|p: KvPageId| fresh.to_set().contains(p) implies m.free.contains(p) by {
            assert(fresh.contains(p));
        }
    }
    assert(back.sequences[id.0] =~= s);
    assert(back.sequences =~= m.sequences);
    assert(back.reservations =~= m.reservations);
    assert(back =~= (KvModel { next_reservation: (m.next_reservation + 1) as u64, ..m }));
}

/// Committing an append that was just reserved advances the sequence by exactly its tokens, and
/// the sequence keeps the pages that the reservation listed.
pub proof fn law_commit_completes_begin(m: KvModel, id: RequestId, count: usize)
    requires
        m.consistent(),
        m.begin_error(id, count) is None,
    ensures
        m.begin_state(id, count).reservation_error(m.begin_value(id, count).id) is None,
        m.begin_state(id, count).commit_state(m.begin_value(id, count).id) == (KvModel {
            free: m.free.difference(
                m.begin_value(id, count).newly_allocated_pages.to_set(),
            ),
            sequences: m.sequences.insert(
                id.0,
                SequenceModel {
                    committed_tokens: (m.sequences[id.0].committed_tokens + count) as usize,
                    pages: m.begin_value(id, count).block_table,
                    pending: None,
                },
            ),
            next_reservation: (m.next_reservation + 1) as u64,
            ..m
        }),
{
    lemma_held_bound(m, id.0);
    let begun = m.begin_state(id, count);
    let rid = m.begin_value(id, count).id;
    let done = begun.commit_state(rid);
    assert(!m.reservations.contains_key(rid.0));
    assert(done.reservations =~= m.reservations);
    assert(done.sequences =~= m.sequences.insert(
        id.0,
        SequenceModel {
            committed_tokens: (m.sequences[id.0].committed_tokens + count) as usize,
            pages: m.begin_value(id, count).block_table,
            pending: None,
        },
    ));
}

/// In a consistent cache without sequences every page is free.
pub proof fn law_empty_cache_is_all_free(m: KvModel)
    requires
        m.consistent(),
        m.sequences == Map::<u64, SequenceModel>::empty(),
    ensures
        m.free == KvModel::initial(m.config).free,
        m.reservations == Map::<u64, ReservationState>::empty(),
{
    lemma_sum_zero(page_weight(m.sequences), key_bound());
    lemma_page_range(m.config.num_pages as nat);
    let all = page_range(m.config.num_pages as nat);
    assert(m.free.subset_of(all));
    vstd::set_lib::lemma_subset_equality(m.free, all);
    assert(all =~= KvModel::initial(m.config).free);
    assert(m.reservations =~= Map::<u64, ReservationState>::empty());
}

/// A consistent cache never lists more free pages than it has, and every page is either free or
/// held.
pub proof fn law_pages_are_conserved(m: KvModel)
    requires
        m.consistent(),
    ensures
        m.free.len() <= m.config.num_pages,
        m.free.len() + m.held_pages() == m.config.num_pages,
        forall|id: u64| #[trigger]
            m.sequences.contains_key(id) ==> m.sequences[id].pages.len() <= m.config.num_pages,
{
    lemma_weight_non_negative(m.sequences, key_bound());
    assert forall|id: u64| #[trigger] m.sequences.contains_key(id) implies m.sequences[id].pages.len()
        <= m.config.num_pages by {
        lemma_held_bound(m, id);
    }
}

/// A reservation that its sequence does not name as pending can be neither committed nor cancelled,
/// alone or in a group; once the sequence names it again, it can.
pub proof fn law_unnamed_reservation_is_refused(
    m: KvModel,
    rid: KvReservationId,
    pending: Option<KvReservationId>,
    rids: Seq<KvReservationId>,
)
    requires
        m.consistent(),
        m.reservations.contains_key(rid.0),
        pending != Some(rid),
        rids.contains(rid),
    ensures
        ({
            let id = m.reservations[rid.0].request_id.0;
            let unnamed = KvModel {
                sequences: m.sequences.insert(id, SequenceModel { pending, ..m.sequences[id] }),
                ..m
            };
            &&& unnamed.reservation_error(rid) is Some
            &&& unnamed.group_error(rids) is Some
            &&& m.reservation_error(rid) is None
        }),
{
    let id = m.reservations[rid.0].request_id.0;
    let unnamed = KvModel {
        sequences: m.sequences.insert(id, SequenceModel { pending, ..m.sequences[id] }),
        ..m
    };
    lemma_group_holds_no_unusable(unnamed, rids, rid);
    assert(m.sequence_consistent(id));
    let r = m.reservations[rid.0];
    lemma_pages_for_order(
        r.start_position as int,
        r.start_position + r.token_count,
        m.config.block_size as int,
    );
    assert(m.reservation_error(rid) is None);
}

/// A group with a reservation that cannot be settled is refused.
proof fn lemma_group_holds_no_unusable(
    m: KvModel,
    rids: Seq<KvReservationId>,
    rid: KvReservationId,
)
    requires
        rids.contains(rid),
        m.reservation_error(rid) is Some,
    ensures
        m.group_error(rids) is Some,
    decreases rids.len(),
{
    if rids.last() != rid {
        let i = choose|i: int| 0 <= i < rids.len() && rids[i] == rid;
        assert(rids.drop_last()[i] == rid);
        lemma_group_holds_no_unusable(m, rids.drop_last(), rid);
    }
}

/// An append is accepted if and only if it has a token, its sequence is there and has no append
/// outstanding, does not outgrow its capacity, and fits the pages that it holds and those that are
/// free; as long as identifiers are left.
pub proof fn law_appends_that_fit_are_accepted(kv: KvModel, id: RequestId, count: usize)
    requires
        kv.consistent(),
    ensures
        kv.begin_error(id, count) is None <==> {
            let s = kv.sequences[id.0];
            let end = s.committed_tokens + count;
            &&& count > 0
            &&& kv.sequences.contains_key(id.0)
            &&& s.pending is None
            &&& end <= kv.config.max_sequence_length
            &&& end <= (s.pages.len() + kv.free.len()) * kv.config.block_size
            &&& kv.next_reservation < u64::MAX
        },
{
    let s = kv.sequences[id.0];
    let block = kv.config.block_size as int;
    let end = s.committed_tokens + count;
    let n = pages_for(end, block);
    let room = (s.pages.len() + kv.free.len()) as int;
    assert((n - 1) * block < end <= n * block) by (nonlinear_arith)
        requires
            n == (end + block - 1) / block,
            block > 0,
    ;
    assert(n <= room <==> end <= room * block) by (nonlinear_arith)
        requires
            (n - 1) * block < end <= n * block,
            block > 0,
    ;
}

} // verus!
