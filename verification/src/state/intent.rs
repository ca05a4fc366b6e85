//! Intent table: pending-intent pool, dedup + resource exclusivity.
//!
//! `Table::wf` is the table's invariant: at most MAX_PENDING entries, every
//! entry live (PENDING or EXECUTING), no two PENDING entries share an
//! intent_id, and no two live entries hold the same resource. Every mutator
//! keeps it.

use vstd::prelude::*;
use crate::codec::bytes_eq;

verus! {

pub const T_PENDING_MS: u64 = 900_000;
pub const MAX_PENDING: usize = 256;
pub const LEN_INTENT_ID: usize = 16;
pub const MAX_RESOURCE: usize = 256;

/// One class per rule; closed set, no catch-all.
#[derive(Debug, Clone, Copy, PartialEq, Eq, Structural)]
pub enum IntentError {
    TableFull,
    DuplicateIntentId,  // intent_id already PENDING
    ResourceHeld,  // resource in PENDING or EXECUTING
    NotPending,  // transition attempted on a non-PENDING entry
}

/// Outcome of applying a Refusal.
#[derive(Debug, Clone, Copy, PartialEq, Eq, Structural)]
pub enum RefusalOutcome {
    Rejected,
    NoMatch,  // dropped silently; still recorded here
}

#[derive(Debug, Clone, Copy, PartialEq, Eq, Structural)]
pub enum State {
    Pending,
    Executing,  // grant verified, effect started
    Expired,  // T_pending fired or restart collapse
    Rejected,  // matched refusal, terminal
}

/// Fixed-size copies: the table owns its bytes, borrows nothing.
#[derive(Debug, Clone, Copy)]
pub struct Entry {
    pub intent_id: [u8; LEN_INTENT_ID],
    pub resource_id: [u8; MAX_RESOURCE],
    pub resource_len: usize,
    pub state: State,
    pub admitted_ms: u64,
}

impl Entry {
    /// The resource this entry names: the first `resource_len` bytes.
    pub open spec fn resource(self) -> Seq<u8> {
        self.resource_id@.subrange(0, self.resource_len as int)
    }

    /// PENDING or EXECUTING: the entry holds its resource lock.
    pub open spec fn is_live(self) -> bool {
        self.state == State::Pending || self.state == State::Executing
    }

    pub open spec fn is_pending_for(self, id: Seq<u8>) -> bool {
        self.state == State::Pending && self.intent_id@ == id
    }
}

pub open spec fn live_pred() -> spec_fn(Entry) -> bool {
    |e: Entry| e.is_live()
}

pub struct Table {
    pub entries: Vec<Entry>,  // hard-capped at MAX_PENDING; overflow refuses
}

/// The outcome `try_admit` owes for a request on the given entries.
pub open spec fn spec_admit(entries: Seq<Entry>, id: Seq<u8>, resource: Seq<u8>) -> Result<(), IntentError> {
    if exists|i: int| 0 <= i < entries.len() && #[trigger] entries[i].is_pending_for(id) {
        Err(IntentError::DuplicateIntentId)
    } else if exists|i: int|
        0 <= i < entries.len() && #[trigger] entries[i].is_live() && entries[i].resource()
            == resource {
        Err(IntentError::ResourceHeld)
    } else if entries.len() >= MAX_PENDING {
        Err(IntentError::TableFull)
    } else {
        Ok(())
    }
}

/// Whether an entry expires at `now_ms`.
pub open spec fn expires_at(e: Entry, now_ms: u64) -> bool {
    e.state == State::Pending && now_ms > e.admitted_ms + T_PENDING_MS
}

pub open spec fn expire_entry(e: Entry, now_ms: u64) -> Entry {
    if expires_at(e, now_ms) {
        Entry { state: State::Expired, ..e }
    } else {
        e
    }
}

/// The table invariant over its entries.
pub open spec fn entries_wf(s: Seq<Entry>) -> bool {
    &&& s.len() <= MAX_PENDING
    &&& forall|i: int| 0 <= i < s.len() ==> (#[trigger] s[i]).is_live()
    &&& forall|i: int| 0 <= i < s.len() ==> (#[trigger] s[i]).resource_len <= MAX_RESOURCE
    &&& forall|i: int, j: int|
        0 <= i < s.len() && 0 <= j < s.len() && i != j && (#[trigger] s[i]).state == State::Pending
            && (#[trigger] s[j]).state == State::Pending ==> s[i].intent_id@ != s[j].intent_id@
    &&& forall|i: int, j: int|
        0 <= i < s.len() && 0 <= j < s.len() && i != j ==> (#[trigger] s[i]).resource() != (
        #[trigger] s[j]).resource()
}

impl Table {
    /// The table's invariant.
    pub open spec fn wf(&self) -> bool {
        entries_wf(self.entries@)
    }

    /// Every stored resource length is within the resource buffer.
    pub open spec fn lengths_ok(&self) -> bool {
        forall|i: int|
            0 <= i < self.entries@.len() ==> (#[trigger] self.entries@[i]).resource_len
                <= MAX_RESOURCE
    }

    /// A fresh table holds nothing (restart collapse).
    pub fn new() -> (t: Self)
        ensures
            t.entries@ == Seq::<Entry>::empty(),
            t.wf(),
    {
        Self { entries: Vec::new() }
    }

    pub fn len(&self) -> (n: usize)
        ensures
            n == self.entries@.len(),
    {
        self.entries.len()
    }

    pub fn is_empty(&self) -> (b: bool)
        ensures
            b == (self.entries@.len() == 0),
    {
        self.entries.len() == 0
    }

    /// Refuse a duplicate PENDING intent_id, then a resource held in PENDING
    /// or EXECUTING, then a full table, before any state mutates.
    pub fn try_admit(
        &mut self,
        intent_id: &[u8; LEN_INTENT_ID],
        resource: &[u8; MAX_RESOURCE],
        resource_len: usize,
        now_ms: u64,
    ) -> (r: Result<(), IntentError>)
        requires
            resource_len <= MAX_RESOURCE,
            old(self).lengths_ok(),
        ensures
            r == spec_admit(
                old(self).entries@,
                intent_id@,
                resource@.subrange(0, resource_len as int),
            ),
            r is Ok ==> final(self).entries@ == old(self).entries@.push(
                Entry {
                    intent_id: *intent_id,
                    resource_id: *resource,
                    resource_len,
                    state: State::Pending,
                    admitted_ms: now_ms,
                },
            ),
            r is Err ==> final(self).entries@ == old(self).entries@,
            old(self).wf() ==> final(self).wf(),
    {
        let ghost res = resource@.subrange(0, resource_len as int);
        let mut i: usize = 0;
        while i < self.entries.len()
            invariant
                i <= self.entries@.len(),
                forall|k: int| 0 <= k < i ==> !(#[trigger] self.entries@[k]).is_pending_for(
                    intent_id@,
                ),
            decreases self.entries@.len() - i,
        {
            let e = &self.entries[i];
            if e.state == State::Pending && bytes_eq(e.intent_id.as_slice(), intent_id.as_slice()) {
                assert(self.entries@[i as int].is_pending_for(intent_id@));
                return Err(IntentError::DuplicateIntentId);
            }
            i = i + 1;
        }
        let mut i: usize = 0;
        while i < self.entries.len()
            invariant
                i <= self.entries@.len(),
                res == resource@.subrange(0, resource_len as int),
                resource_len <= MAX_RESOURCE,
                forall|k: int|
                    0 <= k < self.entries@.len() ==> !(#[trigger] self.entries@[k]).is_pending_for(
                        intent_id@,
                    ),
                old(self).lengths_ok(),
                self.entries@ == old(self).entries@,
                forall|k: int|
                    0 <= k < i ==> !((#[trigger] self.entries@[k]).is_live()
                        && self.entries@[k].resource() == res),
            decreases self.entries@.len() - i,
        {
            let e = &self.entries[i];
            if (e.state == State::Pending || e.state == State::Executing) && e.resource_len
                == resource_len && prefix_eq(&e.resource_id, resource, resource_len) {
                assert(self.entries@[i as int].resource() =~= res);
                assert(self.entries@[i as int].is_live());
                return Err(IntentError::ResourceHeld);
            }
            assert(self.entries@[i as int].resource().len() == e.resource_len);
            i = i + 1;
        }
        if self.entries.len() >= MAX_PENDING {
            return Err(IntentError::TableFull);
        }
        let ghost before = self.entries@;
        self.entries.push(
            Entry {
                intent_id: *intent_id,
                resource_id: *resource,
                resource_len,
                state: State::Pending,
                admitted_ms: now_ms,
            },
        );
        proof {
            if old(self).wf() {
                let n = before.len() as int;
                let s = self.entries@;
                assert forall|i: int, j: int|
                    0 <= i < s.len() && 0 <= j < s.len() && i != j && (#[trigger] s[i]).state
                        == State::Pending && (#[trigger] s[j]).state == State::Pending
                        implies s[i].intent_id@ != s[j].intent_id@ by {
                    if j == n {
                        assert(!before[i].is_pending_for(intent_id@));
                        assert(s[i].intent_id@ != s[j].intent_id@);
                    } else if i == n {
                        assert(!before[j].is_pending_for(intent_id@));
                        assert(s[i].intent_id@ != s[j].intent_id@);
                    }
                }
                assert forall|i: int, j: int|
                    0 <= i < s.len() && 0 <= j < s.len() && i != j implies (
                    #[trigger] s[i]).resource() != (#[trigger] s[j]).resource() by {
                    if j == n {
                        assert(before[i].is_live());
                    } else if i == n {
                        assert(before[j].is_live());
                    }
                }
            }
        }
        Ok(())
    }

    /// THE one PENDING entry for this id (never an Expired/Rejected one).
    pub fn match_for_grant(&self, intent_id: &[u8; LEN_INTENT_ID]) -> (r: Option<usize>)
        ensures
            match r {
                Some(i) => i < self.entries@.len() && self.entries@[i as int].is_pending_for(
                    intent_id@,
                ) && forall|k: int|
                    0 <= k < i ==> !(#[trigger] self.entries@[k]).is_pending_for(intent_id@),
                None => forall|k: int|
                    0 <= k < self.entries@.len() ==> !(#[trigger] self.entries@[k]).is_pending_for(
                        intent_id@,
                    ),
            },
    {
        let mut i: usize = 0;
        while i < self.entries.len()
            invariant
                i <= self.entries@.len(),
                forall|k: int| 0 <= k < i ==> !(#[trigger] self.entries@[k]).is_pending_for(
                    intent_id@,
                ),
            decreases self.entries@.len() - i,
        {
            let e = &self.entries[i];
            if e.state == State::Pending && bytes_eq(e.intent_id.as_slice(), intent_id.as_slice()) {
                return Some(i);
            }
            i = i + 1;
        }
        None
    }

    /// PENDING -> EXECUTING; refused on any other source state.
    pub fn begin_executing(&mut self, idx: usize) -> (r: Result<(), IntentError>)
        ensures
            r is Ok <==> (idx < old(self).entries@.len() && old(self).entries@[idx as int].state
                == State::Pending),
            r is Ok ==> final(self).entries@ == old(self).entries@.update(
                idx as int,
                Entry { state: State::Executing, ..old(self).entries@[idx as int] },
            ),
            r is Err ==> r == Err::<(), IntentError>(IntentError::NotPending) && final(self).entries@ == old(self).entries@,
            old(self).wf() ==> final(self).wf(),
    {
        if idx < self.entries.len() && self.entries[idx].state == State::Pending {
            let mut e = self.entries[idx];
            e.state = State::Executing;
            self.entries.set(idx, e);
            assert(forall|k: int|
                0 <= k < self.entries@.len() ==> (#[trigger] self.entries@[k]).resource()
                    == old(self).entries@[k].resource());
            Ok(())
        } else {
            Err(IntentError::NotPending)
        }
    }

    /// A matched PENDING entry becomes REJECTED (lock released, slot freed);
    /// an unmatched refusal is dropped. The outcome records which happened.
    pub fn apply_refusal(&mut self, intent_id: &[u8; LEN_INTENT_ID]) -> (r: RefusalOutcome)
        ensures
            (r == RefusalOutcome::Rejected) <==> exists|k: int|
                0 <= k < old(self).entries@.len() && (#[trigger] old(self).entries@[k]).is_pending_for(intent_id@),
            r == RefusalOutcome::NoMatch ==> final(self).entries@ == old(self).entries@,
            r == RefusalOutcome::Rejected ==> exists|k: int|
                0 <= k < old(self).entries@.len() && (#[trigger] old(self).entries@[k]).is_pending_for(intent_id@) && (forall|j: int|
                    0 <= j < k ==> !(#[trigger] old(self).entries@[j]).is_pending_for(intent_id@))
                    && final(self).entries@ == old(self).entries@.update(
                    k,
                    Entry { state: State::Rejected, ..old(self).entries@[k] },
                ).filter(live_pred()),
            old(self).wf() ==> final(self).wf(),
    {
        match self.match_for_grant(intent_id) {
            Some(idx) => {
                let mut e = self.entries[idx];
                e.state = State::Rejected;
                self.entries.set(idx, e);
                let kept = retain_live(&self.entries);
                self.entries = kept;
                proof {
                    if old(self).wf() {
                        lemma_filter_keeps_wf(
                            old(self).entries@,
                            old(self).entries@.update(
                                idx as int,
                                Entry { state: State::Rejected, ..old(self).entries@[idx as int] },
                            ),
                        );
                    }
                }
                RefusalOutcome::Rejected
            },
            None => RefusalOutcome::NoMatch,
        }
    }

    /// PENDING entries past T_pending expire; expiry releases the lock AND
    /// the slot. Executing entries never expire here.
    pub fn expire_timeouts(&mut self, now_ms: u64) -> (n: usize)
        requires
            forall|i: int|
                0 <= i < old(self).entries@.len() ==> (#[trigger] old(self).entries@[i]).admitted_ms
                    <= u64::MAX - T_PENDING_MS,
        ensures
            n == old(self).entries@.filter(|e: Entry| expires_at(e, now_ms)).len(),
            n > 0 ==> final(self).entries@ == old(self).entries@.map_values(
                |e: Entry| expire_entry(e, now_ms),
            ).filter(live_pred()),
            n == 0 ==> final(self).entries@ == old(self).entries@,
            old(self).wf() ==> final(self).wf(),
    {
        let ghost pred = |e: Entry| expires_at(e, now_ms);
        let ghost f = |e: Entry| expire_entry(e, now_ms);
        let mut collapsed: usize = 0;
        let mut i: usize = 0;
        while i < self.entries.len()
            invariant
                i <= self.entries@.len(),
                self.entries@.len() == old(self).entries@.len(),
                forall|k: int|
                    0 <= k < old(self).entries@.len() ==> (#[trigger] old(self).entries@[k]).admitted_ms <= u64::MAX - T_PENDING_MS,
                forall|k: int|
                    0 <= k < i ==> #[trigger] self.entries@[k] == expire_entry(
                        old(self).entries@[k],
                        now_ms,
                    ),
                forall|k: int|
                    i <= k < self.entries@.len() ==> #[trigger] self.entries@[k] == old(self).entries@[k],
                collapsed == old(self).entries@.subrange(0, i as int).filter(pred).len(),
                collapsed <= i,
                pred == (|e: Entry| expires_at(e, now_ms)),
            decreases self.entries@.len() - i,
        {
            let e = self.entries[i];
            proof {
                reveal_with_fuel(Seq::filter, 1);
                let pre = old(self).entries@.subrange(0, i + 1);
                let sub = old(self).entries@.subrange(0, i as int);
                assert(pre.drop_last() =~= sub);
                assert(pre.last() == e);
                if pred(e) {
                    assert(pre.filter(pred) == sub.filter(pred).push(e));
                } else {
                    assert(pre.filter(pred) == sub.filter(pred));
                }
            }
            if e.state == State::Pending && now_ms > e.admitted_ms + T_PENDING_MS {
                let mut x = e;
                x.state = State::Expired;
                self.entries.set(i, x);
                collapsed = collapsed + 1;
            }
            i = i + 1;
        }
        proof {
            assert(old(self).entries@.subrange(0, old(self).entries@.len() as int) =~= old(self).entries@);
            assert(self.entries@ =~= old(self).entries@.map_values(f));
        }
        if collapsed > 0 {
            let kept = retain_live(&self.entries);
            self.entries = kept;
            proof {
                if old(self).wf() {
                    lemma_filter_keeps_wf(old(self).entries@, old(self).entries@.map_values(f));
                }
            }
        } else {
            proof {
                assert forall|k: int| 0 <= k < old(self).entries@.len() implies !expires_at(
                    #[trigger] old(self).entries@[k],
                    now_ms,
                ) by {
                    lemma_filter_count_zero(old(self).entries@, pred, k);
                }
                assert(self.entries@ =~= old(self).entries@);
            }
        }
        collapsed
    }
}

/// Two resource buffers agree on their first `len` bytes.
fn prefix_eq(a: &[u8; MAX_RESOURCE], b: &[u8; MAX_RESOURCE], len: usize) -> (r: bool)
    requires
        len <= MAX_RESOURCE,
    ensures
        r == (a@.subrange(0, len as int) == b@.subrange(0, len as int)),
{
    let mut i: usize = 0;
    while i < len
        invariant
            i <= len <= MAX_RESOURCE,
            forall|k: int| 0 <= k < i ==> a@[k] == b@[k],
        decreases len - i,
    {
        if a[i] != b[i] {
            assert(a@.subrange(0, len as int)[i as int] != b@.subrange(0, len as int)[i as int]);
            return false;
        }
        i = i + 1;
    }
    assert(a@.subrange(0, len as int) =~= b@.subrange(0, len as int));
    true
}

/// The live entries, in order.
fn retain_live(entries: &Vec<Entry>) -> (kept: Vec<Entry>)
    ensures
        kept@ == entries@.filter(live_pred()),
{
    let mut kept: Vec<Entry> = Vec::new();
    let mut i: usize = 0;
    while i < entries.len()
        invariant
            i <= entries@.len(),
            kept@ == entries@.subrange(0, i as int).filter(live_pred()),
        decreases entries@.len() - i,
    {
        let e = entries[i];
        proof {
            reveal_with_fuel(Seq::filter, 1);
            let pre = entries@.subrange(0, i + 1);
            assert(pre.drop_last() =~= entries@.subrange(0, i as int));
            assert(pre.filter(live_pred()) == if e.is_live() {
                entries@.subrange(0, i as int).filter(live_pred()).push(e)
            } else {
                entries@.subrange(0, i as int).filter(live_pred())
            });
        }
        if e.state == State::Pending || e.state == State::Executing {
            kept.push(e);
        }
        i = i + 1;
    }
    assert(entries@.subrange(0, entries@.len() as int) =~= entries@);
    kept
}

/// An entry that no filter keeps is absent from an empty filter.
proof fn lemma_filter_count_zero(s: Seq<Entry>, pred: spec_fn(Entry) -> bool, k: int)
    requires
        0 <= k < s.len(),
        s.filter(pred).len() == 0,
    ensures
        !pred(s[k]),
{
    if pred(s[k]) {
        s.lemma_filter_contains(pred, k);
        assert(s.filter(pred).contains(s[k]));
    }
}

/// Filtering the live entries of a table whose entries only changed state
/// (never identity, never resource, never into PENDING) keeps the invariant.
proof fn lemma_filter_keeps_wf(before: Seq<Entry>, changed: Seq<Entry>)
    requires
        entries_wf(before),
        changed.len() == before.len(),
        forall|k: int|
            0 <= k < changed.len() ==> (#[trigger] changed[k]).intent_id == before[k].intent_id
                && changed[k].resource_id == before[k].resource_id && changed[k].resource_len
                == before[k].resource_len && (changed[k].state == State::Pending ==> before[k].state
                == State::Pending),
    ensures
        entries_wf(changed.filter(live_pred())),
    decreases changed.len(),
{
    reveal_with_fuel(Seq::filter, 1);
    changed.lemma_filter_len(live_pred());
    if changed.len() > 0 {
        let bd = before.drop_last();
        let cd = changed.drop_last();
        assert(entries_wf(bd)) by {
            assert forall|i: int, j: int|
                0 <= i < bd.len() && 0 <= j < bd.len() && i != j implies (#[trigger] bd[i]).resource()
                != (#[trigger] bd[j]).resource() by {
                assert(before[i].resource() != before[j].resource());
            }
            assert forall|i: int, j: int|
                0 <= i < bd.len() && 0 <= j < bd.len() && i != j && (#[trigger] bd[i]).state
                    == State::Pending && (#[trigger] bd[j]).state == State::Pending implies bd[i].intent_id@
                != bd[j].intent_id@ by {
                assert(before[i].state == State::Pending && before[j].state == State::Pending);
            }
        }
        lemma_filter_keeps_wf(bd, cd);
        let f = cd.filter(live_pred());
        let last = changed.last();
        let n = changed.len() - 1;
        if last.is_live() {
            let g = f.push(last);
            assert(changed.filter(live_pred()) == g);
            assert forall|i: int| 0 <= i < f.len() implies (#[trigger] f[i]).resource()
                != last.resource() && (f[i].state == State::Pending && last.state == State::Pending
                ==> f[i].intent_id@ != last.intent_id@) by {
                assert(f.contains(f[i]));
                cd.lemma_filter_contains_rev(live_pred(), f[i]);
                let p = choose|p: int| 0 <= p < cd.len() && cd[p] == f[i];
                assert(changed[p] == f[i]);
                assert(before[p].resource() != before[n].resource());
                assert(changed[p].resource() == before[p].resource());
                assert(changed[n].resource() == before[n].resource());
            }
            assert forall|i: int, j: int|
                0 <= i < g.len() && 0 <= j < g.len() && i != j implies (#[trigger] g[i]).resource()
                != (#[trigger] g[j]).resource() by {
                if j == f.len() {
                    assert(g[i] == f[i]);
                } else if i == f.len() {
                    assert(g[j] == f[j]);
                } else {
                    assert(g[i] == f[i] && g[j] == f[j]);
                }
            }
            assert forall|i: int, j: int|
                0 <= i < g.len() && 0 <= j < g.len() && i != j && (#[trigger] g[i]).state
                    == State::Pending && (#[trigger] g[j]).state == State::Pending implies g[i].intent_id@
                != g[j].intent_id@ by {
                if j == f.len() {
                    assert(g[i] == f[i]);
                } else if i == f.len() {
                    assert(g[j] == f[j]);
                } else {
                    assert(g[i] == f[i] && g[j] == f[j]);
                }
            }
            assert forall|i: int| 0 <= i < g.len() implies (#[trigger] g[i]).is_live()
                && g[i].resource_len <= MAX_RESOURCE by {
                if i < f.len() {
                    assert(g[i] == f[i]);
                    assert(f.contains(f[i]));
                    cd.lemma_filter_contains_rev(live_pred(), f[i]);
                    cd.lemma_filter_pred(live_pred(), i);
                }
            }
        } else {
            assert(changed.filter(live_pred()) == f);
        }
    }
}

} // verus!
