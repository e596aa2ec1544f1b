//! What holds of every ledger, stated over its mathematical state.

use crate::range::AddressRange;
use crate::state::{conflicts, LedgerState, LiveTokens, Request};
use vstd::multiset::Multiset;
use vstd::prelude::*;

verus! {

/// Overlap does not depend on which of the two ranges is asked.
pub proof fn law_overlap_is_symmetric(a: AddressRange, b: AddressRange)
    ensures
        a.overlaps(b) == b.overlaps(a),
{
}

/// Two ranges that each hold at least one address overlap exactly when they
/// hold an address in common.
pub proof fn law_overlap_is_a_common_address(a: AddressRange, b: AddressRange)
    requires
        a.start < a.end,
        b.start < b.end,
    ensures
        a.overlaps(b) <==> exists|address: int| #[trigger] a.contains(address) && b.contains(address),
{
    if a.overlaps(b) {
        let address = if a.start < b.start { b.start as int } else { a.start as int };
        assert(a.contains(address) && b.contains(address));
    }
}

/// Mutual exclusion: while `held` is held exclusively, a request for a range
/// that overlaps it is refused, whether shared or exclusive.
pub proof fn law_exclusive_holder_excludes(
    state: LedgerState,
    held: AddressRange,
    range: AddressRange,
)
    requires
        state.exclusive.contains(held),
        held.overlaps(range),
    ensures
        !state.admits_shared(range),
        !state.admits_exclusive(range),
{
}

/// Mutual exclusion, the other half: while `held` is held exclusively, a
/// request for a range disjoint from it is granted, whether shared or
/// exclusive, as long as no other holder overlaps that range.
pub proof fn law_exclusive_holder_admits_disjoint(
    state: LedgerState,
    held: AddressRange,
    range: AddressRange,
)
    requires
        state.exclusive.contains(held),
        !held.overlaps(range),
        forall|i: int|
            #![trigger state.exclusive[i]]
            0 <= i < state.exclusive.len() && state.exclusive[i] != held
                ==> !state.exclusive[i].overlaps(range),
        forall|j: int|
            #![trigger state.shared[j]]
            0 <= j < state.shared.len() ==> !state.shared[j].overlaps(range),
    ensures
        state.admits_shared(range),
        state.admits_exclusive(range),
{
}

/// Reader sharing: where every holder is a shared one, any further shared
/// request is granted, whatever it overlaps.
pub proof fn law_readers_share(state: LedgerState, range: AddressRange)
    requires
        state.exclusive.len() == 0,
    ensures
        state.admits_shared(range),
{
}

/// Reader sharing, the other half: while `held` is held shared, an
/// exclusive request for a range that overlaps it is refused.
pub proof fn law_shared_holder_excludes_writer(
    state: LedgerState,
    held: AddressRange,
    range: AddressRange,
)
    requires
        state.shared.contains(held),
        held.overlaps(range),
    ensures
        !state.admits_exclusive(range),
{
}

/// Release restores availability: once the only holder has released its
/// range, the ledger is empty again, and a request for that range is
/// granted, whether shared or exclusive.
pub proof fn law_release_restores_availability(state: LedgerState, range: AddressRange)
    requires
        state.shared.len() + state.exclusive.len() == 1,
    ensures
        state.shared.contains(range) ==> state.without_shared(range) == LedgerState::empty(),
        state.exclusive.contains(range) ==> state.without_exclusive(range) == LedgerState::empty(),
        LedgerState::empty().admits_shared(range),
        LedgerState::empty().admits_exclusive(range),
{
    state.shared.index_of_first_ensures(range);
    state.exclusive.index_of_first_ensures(range);
    if state.shared.contains(range) {
        assert(state.without_shared(range).shared =~= Seq::empty());
        assert(state.exclusive =~= Seq::empty());
    }
    if state.exclusive.contains(range) {
        assert(state.without_exclusive(range).exclusive =~= Seq::empty());
        assert(state.shared =~= Seq::empty());
    }
}

/// Release restores availability, among other holders: a borrow that was
/// granted and then released leaves every later request as it would have
/// been answered without it.
pub proof fn law_borrow_then_release_is_neutral(
    state: LedgerState,
    range: AddressRange,
    later: AddressRange,
)
    ensures
        state.with_shared(range).without_shared(range).admits_shared(later)
            == state.admits_shared(later),
        state.with_shared(range).without_shared(range).admits_exclusive(later)
            == state.admits_exclusive(later),
        state.with_exclusive(range).without_exclusive(range).admits_shared(later)
            == state.admits_shared(later),
        state.with_exclusive(range).without_exclusive(range).admits_exclusive(later)
            == state.admits_exclusive(later),
{
    lemma_push_then_remove_value(state.shared, range, later);
    lemma_push_then_remove_value(state.exclusive, range, later);
}

/// Non-interference: an exclusive request is granted exactly when no holder
/// overlaps its range, and a shared request is granted whenever an
/// exclusive one would be.
pub proof fn law_disjoint_request_admitted(state: LedgerState, range: AddressRange)
    ensures
        state.admits_exclusive(range) <==> {
            &&& forall|i: int|
                #![trigger state.exclusive[i]]
                0 <= i < state.exclusive.len() ==> !state.exclusive[i].overlaps(range)
            &&& forall|j: int|
                #![trigger state.shared[j]]
                0 <= j < state.shared.len() ==> !state.shared[j].overlaps(range)
        },
        state.admits_exclusive(range) ==> state.admits_shared(range),
{
}

/// Non-interference: a request about a range disjoint from `range`, be it
/// granted or refused, a borrow or a release, changes nothing in how a
/// request for `range` is answered.
pub proof fn law_disjoint_request_does_not_interfere(
    state: LedgerState,
    request: Request,
    range: AddressRange,
)
    requires
        !request.range().overlaps(range),
    ensures
        state.step(request).admits_shared(range) == state.admits_shared(range),
        state.step(request).admits_exclusive(range) == state.admits_exclusive(range),
{
    let other = request.range();
    lemma_conflicts_push(state.shared, other, range);
    lemma_conflicts_push(state.exclusive, other, range);
    lemma_conflicts_remove_value(state.shared, other, range);
    lemma_conflicts_remove_value(state.exclusive, other, range);
}

/// Non-interference, at any depth and in any order: after any number of
/// requests about ranges disjoint from `range`, a request for `range` is
/// answered as it would have been before them.
pub proof fn law_disjoint_requests_do_not_interfere(
    state: LedgerState,
    trace: Seq<Request>,
    range: AddressRange,
)
    requires
        forall|i: int|
            #![trigger trace[i]]
            0 <= i < trace.len() ==> !trace[i].range().overlaps(range),
    ensures
        state.run(trace).admits_shared(range) == state.admits_shared(range),
        state.run(trace).admits_exclusive(range) == state.admits_exclusive(range),
    decreases trace.len(),
{
    if trace.len() > 0 {
        let before = trace.drop_last();
        law_disjoint_requests_do_not_interfere(state, before, range);
        law_disjoint_request_does_not_interfere(state.run(before), trace.last(), range);
    }
}

/// Non-interference, from the empty ledger: where the ranges of a run of
/// requests are pairwise disjoint, each of them that is a borrow is granted,
/// whatever its class and whatever came before it.
pub proof fn law_pairwise_disjoint_requests_are_granted(trace: Seq<Request>, k: int)
    requires
        forall|i: int, j: int|
            #![trigger trace[i], trace[j]]
            0 <= i < j < trace.len() ==> !trace[i].range().overlaps(trace[j].range()),
        0 <= k < trace.len(),
    ensures
        LedgerState::empty().run(trace.take(k)).admits_shared(trace[k].range()),
        LedgerState::empty().run(trace.take(k)).admits_exclusive(trace[k].range()),
{
    law_disjoint_requests_do_not_interfere(LedgerState::empty(), trace.take(k), trace[k].range());
}

/// No request breaks the invariants: exclusive entries stay pairwise
/// disjoint, and disjoint from every shared entry.
pub proof fn law_request_keeps_invariants(state: LedgerState, request: Request)
    requires
        state.wf(),
    ensures
        state.step(request).wf(),
{
    // A release leaves every entry that stays where it was, or one place
    // before it; a granted borrow adds one entry that overlaps none.
    state.shared.index_of_first_ensures(request.range());
    state.exclusive.index_of_first_ensures(request.range());
}

/// The invariants hold in every state that a ledger can reach from the
/// empty one.
pub proof fn law_reachable_states_keep_invariants(trace: Seq<Request>)
    ensures
        LedgerState::empty().run(trace).wf(),
    decreases trace.len(),
{
    if trace.len() > 0 {
        let before = trace.drop_last();
        law_reachable_states_keep_invariants(before);
        law_request_keeps_invariants(LedgerState::empty().run(before), trace.last());
    }
}

/// A granted borrow adds exactly one entry: of its range one entry more is
/// held under its class, and nothing else changes.
pub proof fn law_borrow_adds_one_entry(state: LedgerState, range: AddressRange)
    ensures
        state.with_shared(range).shared.to_multiset()
            == state.shared.to_multiset().insert(range),
        state.with_shared(range).exclusive == state.exclusive,
        state.with_exclusive(range).exclusive.to_multiset()
            == state.exclusive.to_multiset().insert(range),
        state.with_exclusive(range).shared == state.shared,
{
    broadcast use vstd::seq_lib::to_multiset_build;

}

/// A release takes exactly one entry away: of the released range one entry
/// fewer is held under its class, and nothing else changes.
pub proof fn law_release_removes_one_entry(state: LedgerState, range: AddressRange)
    ensures
        state.shared.contains(range) ==> state.without_shared(range).shared.to_multiset()
            == state.shared.to_multiset().remove(range),
        state.without_shared(range).exclusive == state.exclusive,
        state.exclusive.contains(range) ==> state.without_exclusive(range).exclusive.to_multiset()
            == state.exclusive.to_multiset().remove(range),
        state.without_exclusive(range).shared == state.shared,
{
    broadcast use vstd::seq_lib::to_multiset_remove;

    state.shared.index_of_first_ensures(range);
    state.exclusive.index_of_first_ensures(range);
}

/// Releases are independent of their order: two tokens given back in
/// either order leave the same entries, in the same order.
pub proof fn law_releases_commute(state: LedgerState, first: AddressRange, second: AddressRange)
    ensures
        state.without_shared(first).without_shared(second)
            == state.without_shared(second).without_shared(first),
        state.without_exclusive(first).without_exclusive(second)
            == state.without_exclusive(second).without_exclusive(first),
        state.without_shared(first).without_exclusive(second)
            == state.without_exclusive(second).without_shared(first),
{
    lemma_remove_value_commutes(state.shared, first, second);
    lemma_remove_value_commutes(state.exclusive, first, second);
}

/// Under the discipline of tokens, a ledger holds the entries it began
/// with and one entry for each token that is out, no more and no fewer.
pub proof fn law_entries_match_live_tokens(state: LedgerState, trace: Seq<Request>)
    requires
        state.disciplined(trace),
    ensures
        state.run(trace).shared.to_multiset()
            == state.shared.to_multiset().add(state.tokens_after(trace).shared),
        state.run(trace).exclusive.to_multiset()
            == state.exclusive.to_multiset().add(state.tokens_after(trace).exclusive),
    decreases trace.len(),
{
    broadcast use vstd::multiset::group_multiset_axioms;

    if trace.len() == 0 {
        assert(state.shared.to_multiset().add(Multiset::empty()) =~= state.shared.to_multiset());
        assert(state.exclusive.to_multiset().add(Multiset::empty())
            =~= state.exclusive.to_multiset());
    } else {
        let before = trace.drop_last();
        lemma_disciplined_prefix(state, trace, trace.len() - 1);
        assert(trace.take(trace.len() - 1) == before);
        law_entries_match_live_tokens(state, before);
        let reached = state.run(before);
        let out = state.tokens_after(before);
        let range = trace.last().range();
        law_borrow_adds_one_entry(reached, range);
        law_release_removes_one_entry(reached, range);
        assert(trace[trace.len() - 1] == trace.last());
        match trace.last() {
            Request::Borrow(_) => {
                assert(state.shared.to_multiset().add(out.shared).insert(range)
                    =~= state.shared.to_multiset().add(out.shared.insert(range)));
            },
            Request::BorrowMut(_) => {
                assert(state.exclusive.to_multiset().add(out.exclusive).insert(range)
                    =~= state.exclusive.to_multiset().add(out.exclusive.insert(range)));
            },
            Request::Release(_) => {
                vstd::seq_lib::to_multiset_contains(reached.shared, range);
                assert(state.shared.to_multiset().add(out.shared).remove(range)
                    =~= state.shared.to_multiset().add(out.shared.remove(range)));
            },
            Request::ReleaseMut(_) => {
                vstd::seq_lib::to_multiset_contains(reached.exclusive, range);
                assert(state.exclusive.to_multiset().add(out.exclusive).remove(range)
                    =~= state.exclusive.to_multiset().add(out.exclusive.remove(range)));
            },
        }
    }
}

/// Under the discipline of tokens, a token that is out finds its entry: a
/// release never meets a ledger that lacks the range it gives back.
pub proof fn law_live_token_finds_its_entry(
    state: LedgerState,
    trace: Seq<Request>,
    range: AddressRange,
)
    requires
        state.disciplined(trace),
    ensures
        state.tokens_after(trace).shared.count(range) > 0
            ==> state.run(trace).shared.contains(range),
        state.tokens_after(trace).exclusive.count(range) > 0
            ==> state.run(trace).exclusive.contains(range),
{
    broadcast use vstd::multiset::group_multiset_axioms;

    law_entries_match_live_tokens(state, trace);
    vstd::seq_lib::to_multiset_contains(state.run(trace).shared, range);
    vstd::seq_lib::to_multiset_contains(state.run(trace).exclusive, range);
}

/// Under the discipline of tokens, no entry outlives its token: once every
/// token that a ledger handed out has been given back, in whatever order,
/// the ledger is empty again.
pub proof fn law_no_entry_outlives_its_token(trace: Seq<Request>)
    requires
        LedgerState::empty().disciplined(trace),
        LedgerState::empty().tokens_after(trace) == LiveTokens::none(),
    ensures
        LedgerState::empty().run(trace) == LedgerState::empty(),
{
    broadcast use vstd::multiset::group_multiset_axioms;

    let end = LedgerState::empty().run(trace);
    law_entries_match_live_tokens(LedgerState::empty(), trace);
    vstd::seq_lib::to_multiset_len(end.shared);
    vstd::seq_lib::to_multiset_len(end.exclusive);
    vstd::seq_lib::to_multiset_len(Seq::<AddressRange>::empty());
    assert(end.shared =~= Seq::empty());
    assert(end.exclusive =~= Seq::empty());
}

/// How a request is answered depends on which ranges are held and how
/// often, never on the order in which they were admitted.
pub proof fn law_admission_ignores_order(a: LedgerState, b: LedgerState, range: AddressRange)
    requires
        a.exclusive.to_multiset() == b.exclusive.to_multiset(),
        a.shared.to_multiset() == b.shared.to_multiset(),
    ensures
        a.admits_shared(range) == b.admits_shared(range),
        a.admits_exclusive(range) == b.admits_exclusive(range),
{
    if conflicts(a.exclusive, range) {
        lemma_conflicts_by_entries(a.exclusive, b.exclusive, range);
    }
    if conflicts(b.exclusive, range) {
        lemma_conflicts_by_entries(b.exclusive, a.exclusive, range);
    }
    if conflicts(a.shared, range) {
        lemma_conflicts_by_entries(a.shared, b.shared, range);
    }
    if conflicts(b.shared, range) {
        lemma_conflicts_by_entries(b.shared, a.shared, range);
    }
}

/// What is disciplined as a whole is disciplined up to any point.
proof fn lemma_disciplined_prefix(state: LedgerState, trace: Seq<Request>, n: int)
    requires
        state.disciplined(trace),
        0 <= n <= trace.len(),
    ensures
        state.disciplined(trace.take(n)),
{
    let prefix = trace.take(n);
    assert forall|k: int| 0 <= k < prefix.len() implies match #[trigger] prefix[k] {
        Request::Release(range) => state.tokens_after(prefix.take(k)).shared.count(range) > 0,
        Request::ReleaseMut(range) => state.tokens_after(prefix.take(k)).exclusive.count(range) > 0,
        _ => true,
    } by {
        assert(prefix[k] == trace[k]);
        assert(prefix.take(k) == trace.take(k));
    }
}

/// An entry added at the end conflicts with `range` exactly when it overlaps
/// `range`; the entries before it conflict as they did.
proof fn lemma_conflicts_push(held: Seq<AddressRange>, added: AddressRange, range: AddressRange)
    ensures
        conflicts(held.push(added), range) <==> conflicts(held, range) || added.overlaps(range),
{
    let next = held.push(added);
    if conflicts(next, range) {
        let i = choose|i: int| 0 <= i < next.len() && (#[trigger] next[i]).overlaps(range);
        if i < held.len() {
            assert(held[i].overlaps(range));
        }
    }
    if conflicts(held, range) {
        let i = choose|i: int| 0 <= i < held.len() && (#[trigger] held[i]).overlaps(range);
        assert(next[i].overlaps(range));
    }
    if added.overlaps(range) {
        assert(next[held.len() as int].overlaps(range));
    }
}

/// Taking the entry at `k` away cannot create a conflict, and it removes
/// none when that entry did not overlap `range`, or when an equal entry
/// stays behind.
proof fn lemma_conflicts_remove(held: Seq<AddressRange>, k: int, range: AddressRange)
    requires
        0 <= k < held.len(),
    ensures
        conflicts(held.remove(k), range) ==> conflicts(held, range),
        !held[k].overlaps(range) || held.remove(k).contains(held[k])
            ==> (conflicts(held.remove(k), range) <==> conflicts(held, range)),
{
    let rest = held.remove(k);
    if conflicts(rest, range) {
        let i = choose|i: int| 0 <= i < rest.len() && (#[trigger] rest[i]).overlaps(range);
        let origin = if i < k { i } else { i + 1 };
        assert(held[origin].overlaps(range));
    }
    if conflicts(held, range) {
        let i = choose|i: int| 0 <= i < held.len() && (#[trigger] held[i]).overlaps(range);
        if i < k {
            assert(rest[i].overlaps(range));
        } else if i > k {
            assert(rest[i - 1].overlaps(range));
        } else if rest.contains(held[k]) {
            let j = choose|j: int| 0 <= j < rest.len() && rest[j] == held[k];
            assert(rest[j].overlaps(range));
        }
    }
}

/// Taking away the first entry equal to `gone` cannot create a conflict,
/// and it removes none when `gone` does not overlap `range`.
proof fn lemma_conflicts_remove_value(
    held: Seq<AddressRange>,
    gone: AddressRange,
    range: AddressRange,
)
    ensures
        conflicts(held.remove_value(gone), range) ==> conflicts(held, range),
        !gone.overlaps(range)
            ==> (conflicts(held.remove_value(gone), range) <==> conflicts(held, range)),
{
    held.index_of_first_ensures(gone);
    if let Some(k) = held.index_of_first(gone) {
        lemma_conflicts_remove(held, k, range);
    }
}

/// Adding `range` at the end and then taking its first occurrence away
/// leaves the conflicts with `later` as they were.
proof fn lemma_push_then_remove_value(
    held: Seq<AddressRange>,
    range: AddressRange,
    later: AddressRange,
)
    ensures
        conflicts(held.push(range).remove_value(range), later) <==> conflicts(held, later),
{
    let grown = held.push(range);
    assert(grown[held.len() as int] == range);
    grown.index_of_first_ensures(range);
    let k = grown.index_of_first(range).unwrap();
    if k == held.len() {
        assert(grown.remove(k) =~= held);
    } else {
        assert(grown.remove(k)[held.len() - 1] == range);
        lemma_conflicts_remove(grown, k, later);
        lemma_conflicts_push(held, range, later);
        assert(held[k] == range);
    }
}

/// A conflict with one sequence is a conflict with any sequence of the
/// same entries.
proof fn lemma_conflicts_by_entries(
    held: Seq<AddressRange>,
    other: Seq<AddressRange>,
    range: AddressRange,
)
    requires
        held.to_multiset() == other.to_multiset(),
        conflicts(held, range),
    ensures
        conflicts(other, range),
{
    let i = choose|i: int| 0 <= i < held.len() && (#[trigger] held[i]).overlaps(range);
    assert(held.contains(held[i]));
    vstd::seq_lib::to_multiset_contains(held, held[i]);
    vstd::seq_lib::to_multiset_contains(other, held[i]);
    let j = choose|j: int| 0 <= j < other.len() && other[j] == held[i];
    assert(other[j].overlaps(range));
}

/// Taking away the first occurrence of each of two values gives the same
/// sequence in either order.
proof fn lemma_remove_value_commutes(held: Seq<AddressRange>, a: AddressRange, b: AddressRange)
    ensures
        held.remove_value(a).remove_value(b) == held.remove_value(b).remove_value(a),
{
    let less_a = held.remove_value(a);
    let less_b = held.remove_value(b);
    held.index_of_first_ensures(a);
    held.index_of_first_ensures(b);
    less_a.index_of_first_ensures(b);
    less_b.index_of_first_ensures(a);
    if a != b {
        match (held.index_of_first(a), held.index_of_first(b)) {
            (Some(i), Some(j)) => {
                // Where each value stands once the other one is gone.
                let j_after = if j < i { j } else { j - 1 };
                let i_after = if i < j { i } else { i - 1 };
                assert(less_a[j_after] == b);
                assert(less_b[i_after] == a);
                let j_found = less_a.index_of_first(b).unwrap();
                let i_found = less_b.index_of_first(a).unwrap();
                assert(j_found == j_after) by {
                    if j_found < j_after {
                        let origin = if j_found < i { j_found } else { j_found + 1 };
                        assert(held[origin] == b);
                    }
                }
                assert(i_found == i_after) by {
                    if i_found < i_after {
                        let origin = if i_found < j { i_found } else { i_found + 1 };
                        assert(held[origin] == a);
                    }
                }
                assert(less_a.remove(j_after) =~= less_b.remove(i_after));
            },
            (Some(i), None) => {
                if less_a.contains(b) {
                    let k = choose|k: int| 0 <= k < less_a.len() && less_a[k] == b;
                    let origin = if k < i { k } else { k + 1 };
                    assert(held[origin] == b);
                }
            },
            (None, Some(j)) => {
                if less_b.contains(a) {
                    let k = choose|k: int| 0 <= k < less_b.len() && less_b[k] == a;
                    let origin = if k < j { k } else { k + 1 };
                    assert(held[origin] == a);
                }
            },
            (None, None) => {},
        }
    }
}

} // verus!
