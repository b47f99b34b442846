//! Properties of the loader that relate several of its steps.
use crate::model::Routine;
use crate::outcome::{LoadOutcome, StoreError};
use crate::scope::{
    after_dispatch, after_request, after_requests, after_settle, can_dispatch, fresh_scope,
    lookup_result, row_for, scope_wf, Lookup, ScopeView,
};
use vstd::prelude::*;

verus! {

proof fn lemma_requests_collect(s: ScopeView, ks: Seq<i32>)
    requires
        scope_wf(s),
    ensures
        scope_wf(after_requests(s, ks)),
        after_requests(s, ks).cache == s.cache,
        after_requests(s, ks).in_flight == s.in_flight,
        forall|k: i32|
            #[trigger] after_requests(s, ks).batch.contains(k) <==> (s.batch.contains(k) || (
            ks.contains(k) && !s.cache.contains_key(k) && !s.in_flight.contains(k))),
    decreases ks.len(),
{
    if ks.len() > 0 {
        let pre = ks.drop_last();
        let last = ks.last();
        lemma_requests_collect(s, pre);
        let t0 = after_requests(s, pre);
        crate::scope::lemma_request_wf(t0, last);
        let t = after_requests(s, ks);
        assert forall|k: i32| ks.contains(k) <==> (pre.contains(k) || k == last) by {
            if ks.contains(k) {
                let j = choose|j: int| 0 <= j < ks.len() && ks[j] == k;
                if j < pre.len() {
                    assert(pre[j] == k);
                }
            }
            if pre.contains(k) {
                let j = choose|j: int| 0 <= j < pre.len() && pre[j] == k;
                assert(ks[j] == k);
            }
            if k == last {
                assert(ks[ks.len() - 1] == k);
            }
        }
        assert forall|k: i32| #[trigger] t.batch.contains(k) <==> (t0.batch.contains(k) || (k == last
            && !t0.cache.contains_key(k) && !t0.in_flight.contains(k))) by {
            if !(t0.cache.contains_key(last) || t0.batch.contains(last) || t0.in_flight.contains(
                last,
            )) {
                if t.batch.contains(k) {
                    let j = choose|j: int| 0 <= j < t.batch.len() && t.batch[j] == k;
                    if j < t0.batch.len() {
                        assert(t0.batch[j] == k);
                    }
                }
                if t0.batch.contains(k) {
                    let j = choose|j: int| 0 <= j < t0.batch.len() && t0.batch[j] == k;
                    assert(t.batch[j] == k);
                }
                if k == last {
                    assert(t.batch[t.batch.len() - 1] == k);
                }
            }
        }
    }
}

/// Requests issued together in a quiescent scope close into exactly one
/// fetch: its keys are the distinct requested keys that the scope has not
/// settled, each once, and once it is out no second fetch follows.
pub proof fn lemma_one_fetch_per_window(s: ScopeView, ks: Seq<i32>)
    requires
        scope_wf(s),
        s.batch.len() == 0,
        s.in_flight.len() == 0,
    ensures
        can_dispatch(after_requests(s, ks)) <==> exists|i: int|
            0 <= i < ks.len() && !s.cache.contains_key(#[trigger] ks[i]),
        after_requests(s, ks).batch.no_duplicates(),
        after_requests(s, ks).batch.to_set() == ks.to_set().filter(
            |k: i32| !s.cache.contains_key(k),
        ),
        after_dispatch(after_requests(s, ks)).in_flight == after_requests(s, ks).batch,
        !can_dispatch(after_dispatch(after_requests(s, ks))),
{
    lemma_requests_collect(s, ks);
    let t = after_requests(s, ks);
    assert(t.batch.to_set() =~= ks.to_set().filter(|k: i32| !s.cache.contains_key(k)));
    if exists|i: int| 0 <= i < ks.len() && !s.cache.contains_key(#[trigger] ks[i]) {
        let i = choose|i: int| 0 <= i < ks.len() && !s.cache.contains_key(#[trigger] ks[i]);
        assert(ks.contains(ks[i]));
        assert(t.batch.contains(ks[i]));
    }
    if t.batch.len() > 0 {
        let k = t.batch[0];
        assert(t.batch.contains(k));
        let i = choose|i: int| 0 <= i < ks.len() && ks[i] == k;
        assert(!s.cache.contains_key(ks[i]));
    }
}

proof fn lemma_row_for_none(rows: Seq<Routine>, k: i32)
    requires
        forall|i: int| 0 <= i < rows.len() ==> (#[trigger] rows[i]).id != k,
    ensures
        row_for(rows, k).is_none(),
    decreases rows.len(),
{
    if rows.len() > 0 {
        assert(rows.last() == rows[rows.len() - 1]);
        lemma_row_for_none(rows.drop_last(), k);
    }
}

/// A key that the store does not hold settles as absent, not as an error,
/// after exactly one fetch that carries it.
pub proof fn lemma_missing_key_is_absent(s: ScopeView, k: i32, rows: Seq<Routine>)
    requires
        scope_wf(s),
        s.batch.len() == 0,
        s.in_flight.len() == 0,
        !s.cache.contains_key(k),
        forall|i: int| 0 <= i < rows.len() ==> (#[trigger] rows[i]).id != k,
    ensures
        lookup_result(s, k) == Lookup::Queued,
        can_dispatch(after_request(s, k)),
        after_request(s, k).batch == seq![k],
        after_settle(after_dispatch(after_request(s, k)), Ok(rows)).cache[k] == LoadOutcome::Absent,
        !can_dispatch(after_settle(after_dispatch(after_request(s, k)), Ok(rows))),
{
    lemma_row_for_none(rows, k);
    let t1 = after_request(s, k);
    assert(t1.batch =~= seq![k]);
    let t2 = after_dispatch(t1);
    assert(t2.in_flight.contains(k)) by {
        assert(t2.in_flight[0] == k);
    }
}

/// Asking twice for one key in one scope is asking once: the second request
/// changes nothing, both callers get the same answer, and the key enters at
/// most one fetch.
pub proof fn lemma_repeat_request(s: ScopeView, k: i32)
    requires
        scope_wf(s),
    ensures
        after_request(after_request(s, k), k) == after_request(s, k),
        after_requests(s, seq![k, k]) == after_requests(s, seq![k]),
        lookup_result(after_request(s, k), k) == lookup_result(s, k),
{
    let t = after_request(s, k);
    if !(s.cache.contains_key(k) || s.batch.contains(k) || s.in_flight.contains(k)) {
        assert(t.batch[t.batch.len() - 1] == k);
        assert(t.batch.contains(k));
    }
    assert(seq![k, k].drop_last() =~= seq![k]);
    assert(seq![k].drop_last() =~= Seq::<i32>::empty());
    assert(after_requests(s, Seq::<i32>::empty()) == s);
    assert(after_requests(s, seq![k]) == after_request(s, k));
    assert(after_requests(s, seq![k, k]) == after_request(after_requests(s, seq![k]), k));
}

/// When the fetch in flight fails, every key of its batch settles with that
/// same error, and a later request for such a key gets the error back from
/// the cache without a new fetch.
pub proof fn lemma_failed_fetch_fans_out(s: ScopeView, e: StoreError)
    requires
        scope_wf(s),
    ensures
        forall|k: i32|
            s.in_flight.contains(k) ==> {
                &&& (#[trigger] after_settle(s, Err(e)).cache[k]) == LoadOutcome::Failed(e)
                &&& lookup_result(after_settle(s, Err(e)), k) == Lookup::Ready(LoadOutcome::Failed(e))
                &&& after_request(after_settle(s, Err(e)), k) == after_settle(s, Err(e))
            },
{
}

/// A scope made for a new request holds nothing that another scope settled:
/// the key is not cached there and waits for a fetch of its own.
pub proof fn lemma_fresh_scope_isolated(other: ScopeView, k: i32)
    requires
        other.cache.contains_key(k),
    ensures
        scope_wf(fresh_scope()),
        !fresh_scope().cache.contains_key(k),
        lookup_result(fresh_scope(), k) == Lookup::Queued,
        after_request(fresh_scope(), k).batch == seq![k],
{
    assert(fresh_scope().batch.push(k) =~= seq![k]);
}

} // verus!
