//! One request scope: the keys waiting for the next batch, the batch in
//! flight, and the cache of settled outcomes.
use crate::model::Routine;
use crate::outcome::{LoadOutcome, StoreError};
use std::collections::HashMap;
use vstd::prelude::*;

verus! {

broadcast use vstd::std_specs::hash::group_hash_axioms;

/// The abstract state of a scope.
pub struct ScopeView {
    /// Settled outcomes, written once per key.
    pub cache: Map<i32, LoadOutcome>,
    /// Distinct keys collected in the open window, none of them settled.
    pub batch: Seq<i32>,
    /// Distinct keys of the fetch in flight, none of them settled.
    pub in_flight: Seq<i32>,
}

/// What a request for one key gives at once.
pub enum Lookup {
    /// The key was settled earlier in this scope.
    Ready(LoadOutcome),
    /// The caller waits for the batch that carries the key.
    Queued,
}

pub open spec fn scope_wf(s: ScopeView) -> bool {
    &&& s.batch.no_duplicates()
    &&& s.in_flight.no_duplicates()
    &&& forall|i: int|
        0 <= i < s.batch.len() ==> !s.cache.contains_key(#[trigger] s.batch[i])
            && !s.in_flight.contains(s.batch[i])
    &&& forall|i: int| 0 <= i < s.in_flight.len() ==> !s.cache.contains_key(#[trigger] s.in_flight[i])
}

/// A scope as it is created for a new request.
pub open spec fn fresh_scope() -> ScopeView {
    ScopeView { cache: Map::empty(), batch: Seq::empty(), in_flight: Seq::empty() }
}

pub open spec fn is_waiting(s: ScopeView, k: i32) -> bool {
    s.batch.contains(k) || s.in_flight.contains(k)
}

/// The state after one caller asks for `k`: a key that is neither settled
/// nor waiting joins the open window.
pub open spec fn after_request(s: ScopeView, k: i32) -> ScopeView {
    if s.cache.contains_key(k) || is_waiting(s, k) {
        s
    } else {
        ScopeView { batch: s.batch.push(k), ..s }
    }
}

/// What the caller asking for `k` gets at once.
pub open spec fn lookup_result(s: ScopeView, k: i32) -> Lookup {
    if s.cache.contains_key(k) {
        Lookup::Ready(s.cache[k])
    } else {
        Lookup::Queued
    }
}

/// The state after callers ask for the keys `ks`, in that order.
pub open spec fn after_requests(s: ScopeView, ks: Seq<i32>) -> ScopeView
    decreases ks.len(),
{
    if ks.len() == 0 {
        s
    } else {
        after_request(after_requests(s, ks.drop_last()), ks.last())
    }
}

/// The window closes with a fetch only when keys wait and no fetch is in flight.
pub open spec fn can_dispatch(s: ScopeView) -> bool {
    s.in_flight.len() == 0 && s.batch.len() > 0
}

pub open spec fn after_dispatch(s: ScopeView) -> ScopeView {
    if can_dispatch(s) {
        ScopeView { cache: s.cache, batch: Seq::empty(), in_flight: s.batch }
    } else {
        s
    }
}

/// The row that the store returned for `k`: of several with that key, the last.
pub open spec fn row_for(rows: Seq<Routine>, k: i32) -> Option<Routine>
    decreases rows.len(),
{
    if rows.len() == 0 {
        None
    } else if rows.last().id == k {
        Some(rows.last())
    } else {
        row_for(rows.drop_last(), k)
    }
}

/// The outcome of key `k` in a batch whose fetch answered `reply`.
pub open spec fn outcome_for(reply: Result<Seq<Routine>, StoreError>, k: i32) -> LoadOutcome {
    match reply {
        Err(e) => LoadOutcome::Failed(e),
        Ok(rows) => match row_for(rows, k) {
            Some(r) => LoadOutcome::Found(r),
            None => LoadOutcome::Absent,
        },
    }
}

pub open spec fn reply_view(reply: Result<Vec<Routine>, StoreError>) -> Result<Seq<Routine>, StoreError> {
    match reply {
        Ok(rows) => Ok(rows@),
        Err(e) => Err(e),
    }
}

/// The state after the fetch in flight answered `reply`: each of its keys is
/// settled, and the window that collected meanwhile stays open.
pub open spec fn after_settle(s: ScopeView, reply: Result<Seq<Routine>, StoreError>) -> ScopeView {
    ScopeView {
        cache: s.cache.union_prefer_right(
            Map::new(|k: i32| s.in_flight.contains(k), |k: i32| outcome_for(reply, k)),
        ),
        batch: s.batch,
        in_flight: Seq::empty(),
    }
}

/// Every key of `ks` is settled in `cache`.
pub open spec fn all_settled(cache: Map<i32, LoadOutcome>, ks: Seq<i32>) -> bool {
    forall|i: int| 0 <= i < ks.len() ==> cache.contains_key(#[trigger] ks[i])
}

/// The error of the first key of `ks` whose outcome is a failure.
pub open spec fn first_failure(cache: Map<i32, LoadOutcome>, ks: Seq<i32>) -> Option<StoreError>
    decreases ks.len(),
{
    if ks.len() == 0 {
        None
    } else {
        match first_failure(cache, ks.drop_last()) {
            Some(e) => Some(e),
            None => match cache[ks.last()] {
                LoadOutcome::Failed(e) => Some(e),
                _ => None,
            },
        }
    }
}

pub open spec fn has_entry(m: Seq<(i32, Routine)>, k: i32) -> bool {
    exists|j: int| 0 <= j < m.len() && (#[trigger] m[j]).0 == k
}

/// The mapping that `load_many(ks)` answers: each found key once, in the order
/// of its first request, with its entity; absent keys are left out.
pub open spec fn found_entries(cache: Map<i32, LoadOutcome>, ks: Seq<i32>) -> Seq<(i32, Routine)>
    decreases ks.len(),
{
    if ks.len() == 0 {
        Seq::empty()
    } else {
        let m = found_entries(cache, ks.drop_last());
        match cache[ks.last()] {
            LoadOutcome::Found(e) => if has_entry(m, ks.last()) {
                m
            } else {
                m.push((ks.last(), e))
            },
            _ => m,
        }
    }
}

/// What a call of `load_many` answers once its keys were requested.
pub enum ManyOutcome {
    /// Some key still waits for its batch.
    Pending,
    /// A batch that carried one of the keys failed.
    Failed(StoreError),
    /// The found keys with their entities.
    Loaded(Vec<(i32, Routine)>),
}

pub proof fn lemma_request_wf(s: ScopeView, k: i32)
    requires
        scope_wf(s),
    ensures
        scope_wf(after_request(s, k)),
{
    let t = after_request(s, k);
    if !(s.cache.contains_key(k) || is_waiting(s, k)) {
        assert forall|i: int| 0 <= i < t.batch.len() implies !t.cache.contains_key(#[trigger] t.batch[i])
            && !t.in_flight.contains(t.batch[i]) by {
            if i < s.batch.len() {
                assert(t.batch[i] == s.batch[i]);
            }
        }
    }
}

/// The loader state of one request scope.
pub struct LoadScope {
    cache: HashMap<i32, LoadOutcome>,
    batch: Vec<i32>,
    in_flight: Vec<i32>,
}

impl View for LoadScope {
    type V = ScopeView;

    closed spec fn view(&self) -> ScopeView {
        ScopeView { cache: self.cache@, batch: self.batch@, in_flight: self.in_flight@ }
    }
}

fn copy_keys(v: &Vec<i32>) -> (r: Vec<i32>)
    ensures
        r@ == v@,
{
    let mut r: Vec<i32> = Vec::new();
    let mut i: usize = 0;
    while i < v.len()
        invariant
            i <= v.len(),
            r@ == v@.subrange(0, i as int),
        decreases v.len() - i,
    {
        r.push(v[i]);
        i = i + 1;
        assert(r@ =~= v@.subrange(0, i as int));
    }
    assert(r@ =~= v@);
    r
}

fn contains_key_in(v: &Vec<i32>, k: i32) -> (r: bool)
    ensures
        r == v@.contains(k),
{
    let mut i: usize = 0;
    while i < v.len()
        invariant
            i <= v.len(),
            forall|j: int| 0 <= j < i ==> v@[j] != k,
        decreases v.len() - i,
    {
        if v[i] == k {
            return true;
        }
        i = i + 1;
    }
    false
}

/// The row that the store returned for `key`, if any (the last of several).
pub fn find_row(rows: &Vec<Routine>, key: i32) -> (r: Option<&Routine>)
    ensures
        match r {
            Some(e) => row_for(rows@, key) == Some(*e),
            None => row_for(rows@, key).is_none(),
        },
{
    let mut found: Option<&Routine> = None;
    let mut i: usize = 0;
    while i < rows.len()
        invariant
            i <= rows.len(),
            match found {
                Some(e) => row_for(rows@.subrange(0, i as int), key) == Some(*e),
                None => row_for(rows@.subrange(0, i as int), key).is_none(),
            },
        decreases rows.len() - i,
    {
        assert(rows@.subrange(0, i + 1 as int).drop_last() =~= rows@.subrange(0, i as int));
        if rows[i].id == key {
            found = Some(&rows[i]);
        }
        i = i + 1;
    }
    assert(rows@.subrange(0, rows.len() as int) =~= rows@);
    found
}

/// The outcome of `key` in a batch whose fetch answered `reply`.
pub fn settle_key(reply: &Result<Vec<Routine>, StoreError>, key: i32) -> (r: LoadOutcome)
    ensures
        r == outcome_for(reply_view(*reply), key),
{
    match reply {
        Err(e) => LoadOutcome::Failed(e.duplicate()),
        Ok(rows) => match find_row(rows, key) {
            Some(e) => LoadOutcome::Found(e.duplicate()),
            None => LoadOutcome::Absent,
        },
    }
}

impl LoadScope {
    /// A scope for a new request: nothing settled, nothing waiting.
    pub fn new() -> (r: LoadScope)
        ensures
            r@ == fresh_scope(),
            scope_wf(r@),
    {
        let r = LoadScope { cache: HashMap::new(), batch: Vec::new(), in_flight: Vec::new() };
        assert(r@.batch =~= Seq::<i32>::empty());
        assert(r@.in_flight =~= Seq::<i32>::empty());
        r
    }

    /// One caller asks for `key`. A settled key is answered from the cache;
    /// any other key waits, and joins the open window unless it already waits.
    pub fn request(&mut self, key: i32) -> (r: Lookup)
        requires
            scope_wf(old(self)@),
        ensures
            r == lookup_result(old(self)@, key),
            final(self)@ == after_request(old(self)@, key),
            scope_wf(final(self)@),
    {
        proof {
            lemma_request_wf(self@, key);
        }
        match self.cache.get(&key) {
            Some(o) => Lookup::Ready(o.duplicate()),
            None => {
                if !contains_key_in(&self.batch, key) && !contains_key_in(&self.in_flight, key) {
                    self.batch.push(key);
                }
                Lookup::Queued
            },
        }
    }

    /// Callers ask for each of `keys`, in order, as `load_many` does before
    /// it waits.
    pub fn request_many(&mut self, keys: &Vec<i32>)
        requires
            scope_wf(old(self)@),
        ensures
            final(self)@ == after_requests(old(self)@, keys@),
            scope_wf(final(self)@),
    {
        let ghost s0 = self@;
        let mut i: usize = 0;
        while i < keys.len()
            invariant
                i <= keys.len(),
                scope_wf(self@),
                self@ == after_requests(s0, keys@.subrange(0, i as int)),
            decreases keys.len() - i,
        {
            assert(keys@.subrange(0, i + 1 as int).drop_last() =~= keys@.subrange(0, i as int));
            let _ = self.request(keys[i]);
            i = i + 1;
        }
        assert(keys@.subrange(0, keys.len() as int) =~= keys@);
    }

    /// Closes the open window: when keys wait and no fetch is in flight, the
    /// distinct waiting keys go out as one fetch and are returned.
    pub fn dispatch(&mut self) -> (r: Option<Vec<i32>>)
        requires
            scope_wf(old(self)@),
        ensures
            final(self)@ == after_dispatch(old(self)@),
            scope_wf(final(self)@),
            match r {
                Some(ks) => can_dispatch(old(self)@) && ks@ == old(self)@.batch,
                None => !can_dispatch(old(self)@),
            },
    {
        if self.in_flight.len() == 0 && self.batch.len() > 0 {
            let ks = copy_keys(&self.batch);
            self.in_flight = copy_keys(&self.batch);
            self.batch = Vec::new();
            assert(self@.batch =~= Seq::<i32>::empty());
            Some(ks)
        } else {
            None
        }
    }

    /// The fetch in flight answered `reply`: every key of that batch is
    /// settled from it, a key missing from the rows as absent, and all of
    /// them with the same error when the fetch failed.
    pub fn settle(&mut self, reply: Result<Vec<Routine>, StoreError>)
        requires
            scope_wf(old(self)@),
        ensures
            final(self)@ == after_settle(old(self)@, reply_view(reply)),
            scope_wf(final(self)@),
    {
        let ghost s0 = self@;
        let ghost rv = reply_view(reply);
        let mut i: usize = 0;
        while i < self.in_flight.len()
            invariant
                i <= self.in_flight.len(),
                self@.in_flight == s0.in_flight,
                self@.batch == s0.batch,
                rv == reply_view(reply),
                self@.cache == s0.cache.union_prefer_right(
                    Map::new(
                        |k: i32| s0.in_flight.subrange(0, i as int).contains(k),
                        |k: i32| outcome_for(rv, k),
                    ),
                ),
            decreases self.in_flight.len() - i,
        {
            let key = self.in_flight[i];
            let o = settle_key(&reply, key);
            self.cache.insert(key, o);
            proof {
                let prev = s0.in_flight.subrange(0, i as int);
                let next = s0.in_flight.subrange(0, i + 1 as int);
                assert(next =~= prev.push(key));
                assert forall|k: i32| next.contains(k) <==> (prev.contains(k) || k == key) by {
                    if next.contains(k) {
                        let j = choose|j: int| 0 <= j < next.len() && next[j] == k;
                        if j < prev.len() {
                            assert(prev[j] == k);
                        }
                    }
                    if k == key {
                        assert(next[i as int] == key);
                    }
                    if prev.contains(k) {
                        let j = choose|j: int| 0 <= j < prev.len() && prev[j] == k;
                        assert(next[j] == k);
                    }
                }
                assert(self@.cache =~= s0.cache.union_prefer_right(
                    Map::new(|k: i32| next.contains(k), |k: i32| outcome_for(rv, k)),
                ));
            }
            i = i + 1;
        }
        self.in_flight = Vec::new();
        proof {
            assert(s0.in_flight.subrange(0, s0.in_flight.len() as int) =~= s0.in_flight);
            assert(self@.in_flight =~= Seq::<i32>::empty());
            let t = after_settle(s0, rv);
            assert(self@.cache =~= t.cache);
            assert forall|j: int| 0 <= j < t.batch.len() implies !t.cache.contains_key(#[trigger] t.batch[j]) by {
                assert(!s0.in_flight.contains(s0.batch[j]));
            }
        }
    }

    /// The answer of `load_many(keys)` from the settled outcomes: pending
    /// while a key waits, else the first failure among the keys, else the
    /// found keys with their entities.
    pub fn collect_many(&self, keys: &Vec<i32>) -> (r: ManyOutcome)
        ensures
            match r {
                ManyOutcome::Pending => !all_settled(self@.cache, keys@),
                ManyOutcome::Failed(e) => all_settled(self@.cache, keys@) && first_failure(
                    self@.cache,
                    keys@,
                ) == Some(e),
                ManyOutcome::Loaded(v) => all_settled(self@.cache, keys@) && first_failure(
                    self@.cache,
                    keys@,
                ).is_none() && v@ == found_entries(self@.cache, keys@),
            },
    {
        let mut i: usize = 0;
        while i < keys.len()
            invariant
                i <= keys.len(),
                forall|j: int| 0 <= j < i ==> self@.cache.contains_key(#[trigger] keys@[j]),
            decreases keys.len() - i,
        {
            if !self.cache.contains_key(&keys[i]) {
                return ManyOutcome::Pending;
            }
            i = i + 1;
        }
        let ghost cache = self@.cache;
        let mut out: Vec<(i32, Routine)> = Vec::new();
        let mut i: usize = 0;
        while i < keys.len()
            invariant
                i <= keys.len(),
                cache == self@.cache,
                all_settled(cache, keys@),
                first_failure(cache, keys@.subrange(0, i as int)).is_none(),
                out@ == found_entries(cache, keys@.subrange(0, i as int)),
            decreases keys.len() - i,
        {
            let key = keys[i];
            let ghost pre = keys@.subrange(0, i as int);
            assert(keys@.subrange(0, i + 1 as int).drop_last() =~= pre);
            assert(cache.contains_key(keys@[i as int]));
            match self.cache.get(&key) {
                Some(LoadOutcome::Failed(e)) => {
                    let mut k: usize = i + 1;
                    while k < keys.len()
                        invariant
                            i < k <= keys.len(),
                            first_failure(cache, keys@.subrange(0, k as int)) == Some(*e),
                        decreases keys.len() - k,
                    {
                        assert(keys@.subrange(0, k + 1 as int).drop_last() =~= keys@.subrange(0, k as int));
                        k = k + 1;
                    }
                    assert(keys@.subrange(0, keys.len() as int) =~= keys@);
                    return ManyOutcome::Failed(e.duplicate());
                },
                Some(LoadOutcome::Found(e)) => {
                    let mut seen = false;
                    let mut j: usize = 0;
                    while j < out.len()
                        invariant
                            j <= out.len(),
                            seen == exists|m: int| 0 <= m < j && (#[trigger] out@[m]).0 == key,
                        decreases out.len() - j,
                    {
                        if out[j].0 == key {
                            seen = true;
                        }
                        j = j + 1;
                    }
                    if !seen {
                        out.push((key, e.duplicate()));
                    }
                },
                _ => {},
            }
            i = i + 1;
        }
        assert(keys@.subrange(0, keys.len() as int) =~= keys@);
        ManyOutcome::Loaded(out)
    }

    /// The fan-out to one waiting caller: the outcome of `key`, once it is
    /// settled in this scope.
    pub fn outcome_of(&self, key: i32) -> (r: Option<LoadOutcome>)
        ensures
            r == if self@.cache.contains_key(key) {
                Some(self@.cache[key])
            } else {
                None
            },
    {
        match self.cache.get(&key) {
            Some(o) => Some(o.duplicate()),
            None => None,
        }
    }
}

} // verus!
