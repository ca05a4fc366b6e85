//! The durable two-phase grant ledger: its record format, its replay, and
//! the cached state the records build. The file itself (append, fsync,
//! exclusive lock, atomic rewrite) belongs to the program; the records on
//! disk are the state, and everything here is computed from them.
//!
//! Two phases: a grant is committed (consumed), then published
//! (tombstoned). A commit without a tombstone after a crash is an orphan,
//! and its effect is re-emitted once more after recovery. A torn trailing
//! record is ignored; an unknown tag is a bad log.

use vstd::prelude::*;
use crate::codec::{bytes_eq, copy_into, push_bytes, push_u64be, read_u64be, u64_bytes, be64};

verus! {

pub const TAG_COMMIT: u8 = 0x01;
pub const TAG_PUBLISHED: u8 = 0x02;
pub const TAG_REVOKE: u8 = 0x03;
pub const TAG_FIRST_RECEIPT: u8 = 0x04;
pub const REC_COMMIT_LEN: usize = 25;
pub const REC_PUBLISHED_LEN: usize = 17;
pub const REC_REVOKE_LEN: usize = 41;
pub const REC_FIRST_RECEIPT_LEN: usize = 25;
pub const MAX_LIVE: usize = 1024;
pub const GRANT_ID_LEN: usize = 16;
pub const SIG_PUBKEY_LEN: usize = 32;

#[derive(Debug, Clone, Copy, PartialEq, Eq, Structural)]
pub enum LedgerError {
    /// A record that failed to parse, other than a torn trailing one.
    BadLog,
    /// The live cap is reached and pruning did not free enough.
    ResourceExhausted,
    /// An I/O failure, or a mutation through a read-only handle.
    DiskError,
    /// Another descriptor holds the exclusive lock.
    Locked,
}

pub struct Recovery {
    /// Consumed but never published grant ids, in commit order.
    pub orphans: Vec<[u8; GRANT_ID_LEN]>,
    pub consumed_count: usize,
    pub revoked_count: usize,
}

// --- the model ----------------------------------------------------------------

/// Keyed entries, each key at most once, in insertion order.
pub type Entries = Seq<(Seq<u8>, u64)>;

pub open spec fn find_from(s: Entries, k: Seq<u8>, i: int) -> int
    decreases s.len() - i,
{
    if i < 0 || i >= s.len() {
        s.len() as int
    } else if s[i].0 == k {
        i
    } else {
        find_from(s, k, i + 1)
    }
}

/// The index of `k`, or the length when absent.
pub open spec fn find(s: Entries, k: Seq<u8>) -> int {
    find_from(s, k, 0)
}

pub open spec fn has_key(s: Entries, k: Seq<u8>) -> bool {
    exists|i: int| 0 <= i < s.len() && s[i].0 == k
}

pub open spec fn unique_keys(s: Entries) -> bool {
    forall|i: int, j: int| 0 <= i < j < s.len() ==> s[i].0 != s[j].0
}

/// Sets `k` to `v`: replaced in place when present, appended otherwise.
pub open spec fn put(s: Entries, k: Seq<u8>, v: u64) -> Entries {
    if find(s, k) < s.len() {
        s.update(find(s, k), (k, v))
    } else {
        s.push((k, v))
    }
}

/// Sets `k` to `v` only when absent.
pub open spec fn put_absent(s: Entries, k: Seq<u8>, v: u64) -> Entries {
    if find(s, k) < s.len() {
        s
    } else {
        s.push((k, v))
    }
}

pub open spec fn remove_key(s: Entries, k: Seq<u8>) -> Entries {
    if find(s, k) < s.len() {
        s.remove(find(s, k))
    } else {
        s
    }
}

pub open spec fn lookup(s: Entries, k: Seq<u8>) -> Option<u64> {
    if find(s, k) < s.len() {
        Some(s[find(s, k)].1)
    } else {
        None
    }
}

/// The cached state of the ledger.
pub struct LedgerModel {
    /// Live (committed, not tombstoned) grants and their expiries.
    pub consumed: Entries,
    /// Grant ids in the order they were first committed.
    pub order: Seq<Seq<u8>>,
    /// Tombstoned grant ids.
    pub published: Seq<Seq<u8>>,
    /// Revoked signing keys and their certificates' expiries.
    pub revoked: Entries,
    /// The first time each grant was received.
    pub receipts: Entries,
}

pub open spec fn empty_model() -> LedgerModel {
    LedgerModel {
        consumed: Seq::empty(),
        order: Seq::empty(),
        published: Seq::empty(),
        revoked: Seq::empty(),
        receipts: Seq::empty(),
    }
}

/// One record.
pub enum Rec {
    Commit(Seq<u8>, u64),
    Published(Seq<u8>),
    Revoke(Seq<u8>, u64),
    Receipt(Seq<u8>, u64),
}

/// A record's effect on the cached state.
pub open spec fn apply(m: LedgerModel, r: Rec) -> LedgerModel {
    match r {
        Rec::Commit(id, e) => LedgerModel {
            order: if !m.published.contains(id) && !has_key(m.consumed, id) {
                m.order.push(id)
            } else {
                m.order
            },
            consumed: put(m.consumed, id, e),
            ..m
        },
        Rec::Published(id) => LedgerModel {
            consumed: remove_key(m.consumed, id),
            published: if m.published.contains(id) {
                m.published
            } else {
                m.published.push(id)
            },
            ..m
        },
        Rec::Revoke(pk, e) => LedgerModel { revoked: put(m.revoked, pk, e), ..m },
        Rec::Receipt(id, t) => LedgerModel { receipts: put_absent(m.receipts, id, t), ..m },
    }
}

/// The length of a record by its tag.
pub open spec fn rec_len(tag: u8) -> Option<nat> {
    if tag == TAG_COMMIT {
        Some(REC_COMMIT_LEN as nat)
    } else if tag == TAG_PUBLISHED {
        Some(REC_PUBLISHED_LEN as nat)
    } else if tag == TAG_REVOKE {
        Some(REC_REVOKE_LEN as nat)
    } else if tag == TAG_FIRST_RECEIPT {
        Some(REC_FIRST_RECEIPT_LEN as nat)
    } else {
        None
    }
}

/// The record in `b`, whose first byte is a known tag and whose length is
/// that tag's.
pub open spec fn decode_rec(b: Seq<u8>) -> Rec {
    if b[0] == TAG_COMMIT {
        Rec::Commit(b.subrange(1, 17), be64(b.subrange(17, 25)))
    } else if b[0] == TAG_PUBLISHED {
        Rec::Published(b.subrange(1, 17))
    } else if b[0] == TAG_REVOKE {
        Rec::Revoke(b.subrange(1, 33), be64(b.subrange(33, 41)))
    } else {
        Rec::Receipt(b.subrange(1, 17), be64(b.subrange(17, 25)))
    }
}

/// The record's bytes.
pub open spec fn encode_rec(r: Rec) -> Seq<u8> {
    match r {
        Rec::Commit(id, e) => seq![TAG_COMMIT] + id + u64_bytes(e),
        Rec::Published(id) => seq![TAG_PUBLISHED] + id,
        Rec::Revoke(pk, e) => seq![TAG_REVOKE] + pk + u64_bytes(e),
        Rec::Receipt(id, t) => seq![TAG_FIRST_RECEIPT] + id + u64_bytes(t),
    }
}

/// The ids and keys a record carries have their wire lengths.
pub open spec fn rec_wf(r: Rec) -> bool {
    match r {
        Rec::Commit(id, _) => id.len() == GRANT_ID_LEN,
        Rec::Published(id) => id.len() == GRANT_ID_LEN,
        Rec::Revoke(pk, _) => pk.len() == SIG_PUBKEY_LEN,
        Rec::Receipt(id, _) => id.len() == GRANT_ID_LEN,
    }
}

/// Replays the records from `off` onto `m`: an unknown tag is a bad log, a
/// torn trailing record ends the replay.
pub open spec fn replay_from(buf: Seq<u8>, off: int, m: LedgerModel) -> Result<LedgerModel, LedgerError>
    decreases buf.len() - off,
{
    if off < 0 || off >= buf.len() {
        Ok(m)
    } else {
        match rec_len(buf[off]) {
            None => Err(LedgerError::BadLog),
            Some(need) => if buf.len() - off < need {
                Ok(m)
            } else {
                replay_from(buf, off + need, apply(m, decode_rec(buf.subrange(off, off + need))))
            },
        }
    }
}

/// Replays the records from `off` onto `m` up to a bad tag: the state
/// reached, and whether an unknown tag stopped the replay there.
pub open spec fn replay_stop(buf: Seq<u8>, off: int, m: LedgerModel) -> (LedgerModel, bool)
    decreases buf.len() - off,
{
    if off < 0 || off >= buf.len() {
        (m, false)
    } else {
        match rec_len(buf[off]) {
            None => (m, true),
            Some(need) => if buf.len() - off < need {
                (m, false)
            } else {
                replay_stop(buf, off + need, apply(m, decode_rec(buf.subrange(off, off + need))))
            },
        }
    }
}

/// The replay is refused exactly when a bad tag stops it, and otherwise
/// ends in the state reached; that state keeps the invariant.
pub proof fn lemma_replay_stop(buf: Seq<u8>, off: int, m: LedgerModel)
    ensures
        replay_from(buf, off, m) == if replay_stop(buf, off, m).1 {
            Err::<LedgerModel, LedgerError>(LedgerError::BadLog)
        } else {
            Ok(replay_stop(buf, off, m).0)
        },
        model_wf(m) ==> model_wf(replay_stop(buf, off, m).0),
    decreases buf.len() - off,
{
    if 0 <= off < buf.len() {
        if let Some(need) = rec_len(buf[off]) {
            if buf.len() - off >= need {
                let b = buf.subrange(off, off + need);
                let r = decode_rec(b);
                if model_wf(m) {
                    assert(rec_wf(r));
                    lemma_apply_wf(m, r);
                }
                lemma_replay_stop(buf, off + need, apply(m, r));
            }
        }
    }
}

pub open spec fn replay(buf: Seq<u8>) -> Result<LedgerModel, LedgerError> {
    replay_from(buf, 0, empty_model())
}

/// Whether the records from `off` parse to the very end: no bad tag and no
/// torn tail.
pub open spec fn complete_from(buf: Seq<u8>, off: int) -> bool
    decreases buf.len() - off,
{
    if off < 0 || off > buf.len() {
        false
    } else if off == buf.len() {
        true
    } else {
        match rec_len(buf[off]) {
            None => false,
            Some(need) => buf.len() - off >= need && complete_from(buf, off + need),
        }
    }
}

/// The orphans: committed ids still live, in commit order.
pub open spec fn orphans_of(m: LedgerModel) -> Seq<Seq<u8>> {
    m.order.filter(|id: Seq<u8>| has_key(m.consumed, id))
}

// --- laws ---------------------------------------------------------------------

proof fn lemma_decode_encode(r: Rec)
    requires
        rec_wf(r),
    ensures
        rec_len(encode_rec(r)[0]) is Some,
        encode_rec(r).len() == rec_len(encode_rec(r)[0])->Some_0,
        decode_rec(encode_rec(r)) == r,
{
    match r {
        Rec::Commit(id, e) => {
            let b = encode_rec(r);
            assert(b.subrange(1, 17) =~= id);
            assert(b.subrange(17, 25) =~= u64_bytes(e));
            crate::codec::lemma_be64_u64_bytes(e);
        },
        Rec::Published(id) => {
            let b = encode_rec(r);
            assert(b.subrange(1, 17) =~= id);
        },
        Rec::Revoke(pk, e) => {
            let b = encode_rec(r);
            assert(b.subrange(1, 33) =~= pk);
            assert(b.subrange(33, 41) =~= u64_bytes(e));
            crate::codec::lemma_be64_u64_bytes(e);
        },
        Rec::Receipt(id, t) => {
            let b = encode_rec(r);
            assert(b.subrange(1, 17) =~= id);
            assert(b.subrange(17, 25) =~= u64_bytes(t));
            crate::codec::lemma_be64_u64_bytes(t);
        },
    }
}

proof fn lemma_replay_append(buf: Seq<u8>, off: int, m: LedgerModel, r: Rec)
    requires
        rec_wf(r),
        complete_from(buf, off),
    ensures
        complete_from(buf + encode_rec(r), off),
        replay_from(buf, off, m) is Ok,
        replay_from(buf + encode_rec(r), off, m) == Ok::<LedgerModel, LedgerError>(
            apply(replay_from(buf, off, m)->Ok_0, r),
        ),
    decreases buf.len() - off,
{
    let b2 = buf + encode_rec(r);
    lemma_decode_encode(r);
    if off == buf.len() {
        let need = rec_len(encode_rec(r)[0])->Some_0;
        assert(b2[off] == encode_rec(r)[0]);
        assert(b2.subrange(off, off + need) =~= encode_rec(r));
        assert(complete_from(b2, off + need));
        assert(off + need == b2.len());
        assert(replay_from(buf, off, m) == Ok::<LedgerModel, LedgerError>(m));
        assert(replay_from(b2, off + need, apply(m, r)) == Ok::<LedgerModel, LedgerError>(apply(m, r)));
    } else {
        let need = rec_len(buf[off])->Some_0;
        assert(b2[off] == buf[off]);
        assert(b2.subrange(off, off + need) =~= buf.subrange(off, off + need));
        lemma_replay_append(buf, off + need, apply(m, decode_rec(buf.subrange(off, off + need))), r);
    }
}

/// The log is the state: appending a record to a log that parses to its end
/// and replaying gives the record applied to the replayed state.
pub proof fn lemma_log_is_state(log: Seq<u8>, r: Rec)
    requires
        rec_wf(r),
        complete_from(log, 0),
    ensures
        complete_from(log + encode_rec(r), 0),
        replay(log) is Ok,
        replay(log + encode_rec(r)) == Ok::<LedgerModel, LedgerError>(apply(replay(log)->Ok_0, r)),
{
    lemma_replay_append(log, 0, empty_model(), r);
}

/// A torn trailing record is ignored: replaying a complete log followed by
/// a proper prefix of a record gives the complete log's state.
pub proof fn lemma_torn_tail_ignored(log: Seq<u8>, r: Rec, cut: int)
    requires
        rec_wf(r),
        complete_from(log, 0),
        0 < cut < encode_rec(r).len(),
    ensures
        replay(log + encode_rec(r).subrange(0, cut)) == replay(log),
{
    lemma_torn_from(log, 0, empty_model(), r, cut);
}

proof fn lemma_torn_from(log: Seq<u8>, off: int, m: LedgerModel, r: Rec, cut: int)
    requires
        rec_wf(r),
        complete_from(log, off),
        0 < cut < encode_rec(r).len(),
    ensures
        replay_from(log + encode_rec(r).subrange(0, cut), off, m) == replay_from(log, off, m),
    decreases log.len() - off,
{
    let t = encode_rec(r).subrange(0, cut);
    let b2 = log + t;
    lemma_decode_encode(r);
    if off == log.len() {
        assert(b2[off] == encode_rec(r)[0]);
    } else {
        let need = rec_len(log[off])->Some_0;
        assert(b2[off] == log[off]);
        assert(b2.subrange(off, off + need) =~= log.subrange(off, off + need));
        lemma_torn_from(log, off + need, apply(m, decode_rec(log.subrange(off, off + need))), r, cut);
    }
}

// --- the rewrite image ---------------------------------------------------------

/// The records of a list of entries, in order.
pub open spec fn entries_image(s: Entries, tag: u8) -> Seq<u8>
    decreases s.len(),
{
    if s.len() == 0 {
        Seq::empty()
    } else {
        entries_image(s.drop_last(), tag) + seq![tag] + s.last().0 + u64_bytes(s.last().1)
    }
}

/// What a prune rewrites the log to: the live commits, the revocations and
/// the first receipts.
pub open spec fn image_of(m: LedgerModel) -> Seq<u8> {
    entries_image(m.consumed, TAG_COMMIT) + entries_image(m.revoked, TAG_REVOKE) + entries_image(
        m.receipts,
        TAG_FIRST_RECEIPT,
    )
}

/// The state after dropping the commits that expired by `now_ms`.
pub open spec fn pruned(m: LedgerModel, now_ms: u64) -> LedgerModel {
    let live = m.consumed.filter(unexpired(now_ms));
    LedgerModel { consumed: live, order: m.order.filter(keyed_in(live)), ..m }
}

/// The entries that have not expired by `now_ms`.
pub open spec fn unexpired(now_ms: u64) -> spec_fn((Seq<u8>, u64)) -> bool {
    |p: (Seq<u8>, u64)| p.1 > now_ms
}

/// The ids that are keys of `s`.
pub open spec fn keyed_in(s: Entries) -> spec_fn(Seq<u8>) -> bool {
    |id: Seq<u8>| has_key(s, id)
}

pub open spec fn any_expired(m: LedgerModel, now_ms: u64) -> bool {
    exists|i: int| 0 <= i < m.consumed.len() && m.consumed[i].1 <= now_ms
}

/// Every key has its wire length and occurs once.
pub open spec fn model_wf(m: LedgerModel) -> bool {
    &&& unique_keys(m.consumed)
    &&& unique_keys(m.revoked)
    &&& unique_keys(m.receipts)
    &&& forall|i: int| 0 <= i < m.consumed.len() ==> (#[trigger] m.consumed[i]).0.len() == GRANT_ID_LEN
    &&& forall|i: int| 0 <= i < m.revoked.len() ==> (#[trigger] m.revoked[i]).0.len() == SIG_PUBKEY_LEN
    &&& forall|i: int| 0 <= i < m.receipts.len() ==> (#[trigger] m.receipts[i]).0.len() == GRANT_ID_LEN
}

proof fn lemma_image_replays(s: Entries, tag: u8, base: Seq<u8>, klen: nat)
    requires
        tag == TAG_COMMIT || tag == TAG_REVOKE || tag == TAG_FIRST_RECEIPT,
        klen == if tag == TAG_REVOKE { SIG_PUBKEY_LEN as nat } else { GRANT_ID_LEN as nat },
        unique_keys(s),
        forall|i: int| 0 <= i < s.len() ==> (#[trigger] s[i]).0.len() == klen,
        complete_from(base, 0),
    ensures
        complete_from(base + entries_image(s, tag), 0),
        replay(base + entries_image(s, tag)) is Ok,
        ({
            let m0 = replay(base)->Ok_0;
            let m1 = replay(base + entries_image(s, tag))->Ok_0;
            &&& tag == TAG_COMMIT && m0.consumed.len() == 0 ==> m1.consumed == s
            &&& tag == TAG_COMMIT ==> m1.revoked == m0.revoked && m1.receipts == m0.receipts
            &&& tag == TAG_REVOKE && m0.revoked.len() == 0 ==> m1.revoked == s
            &&& tag == TAG_REVOKE ==> m1.consumed == m0.consumed && m1.receipts == m0.receipts
            &&& tag == TAG_FIRST_RECEIPT && m0.receipts.len() == 0 ==> m1.receipts == s
            &&& tag == TAG_FIRST_RECEIPT ==> m1.consumed == m0.consumed && m1.revoked == m0.revoked
        }),
    decreases s.len(),
{
    lemma_log_is_state(base, Rec::Commit(Seq::new(16, |i: int| 0u8), 0));
    if s.len() > 0 {
        let prev = s.drop_last();
        assert forall|i: int, j: int| 0 <= i < j < prev.len() implies prev[i].0 != prev[j].0 by {
            assert(s[i].0 != s[j].0);
        }
        assert forall|i: int| 0 <= i < prev.len() implies (#[trigger] prev[i]).0.len() == klen by {
            assert(s[i].0.len() == klen);
        }
        lemma_image_replays(prev, tag, base, klen);
        let b1 = base + entries_image(prev, tag);
        let (k, v) = s.last();
        let r = if tag == TAG_COMMIT {
            Rec::Commit(k, v)
        } else if tag == TAG_REVOKE {
            Rec::Revoke(k, v)
        } else {
            Rec::Receipt(k, v)
        };
        assert(rec_wf(r));
        lemma_log_is_state(b1, r);
        assert(base + entries_image(s, tag) =~= b1 + encode_rec(r));
        let m0 = replay(base)->Ok_0;
        let mp = replay(b1)->Ok_0;
        assert forall|i: int| 0 <= i < prev.len() implies prev[i].0 != k by {
            assert(s[i].0 != s[s.len() - 1].0);
        }
        if tag == TAG_COMMIT && m0.consumed.len() == 0 {
            lemma_find(prev, k);
            assert(put(prev, k, v) =~= s);
        }
        if tag == TAG_REVOKE && m0.revoked.len() == 0 {
            lemma_find(prev, k);
            assert(put(prev, k, v) =~= s);
        }
        if tag == TAG_FIRST_RECEIPT && m0.receipts.len() == 0 {
            lemma_find(prev, k);
            assert(put_absent(prev, k, v) =~= s);
        }
    } else {
        assert(base + entries_image(s, tag) =~= base);
    }
}

/// What a prune rewrites is the pruned state: replaying the image gives the
/// live commits, every revocation and every first receipt.
pub proof fn lemma_prune_image_replays(m: LedgerModel)
    requires
        model_wf(m),
    ensures
        replay(image_of(m)) is Ok,
        replay(image_of(m))->Ok_0.consumed == m.consumed,
        replay(image_of(m))->Ok_0.revoked == m.revoked,
        replay(image_of(m))->Ok_0.receipts == m.receipts,
{
    let e = Seq::<u8>::empty();
    assert(complete_from(e, 0));
    assert(replay(e) == Ok::<LedgerModel, LedgerError>(empty_model()));
    lemma_image_replays(m.consumed, TAG_COMMIT, e, GRANT_ID_LEN as nat);
    let b1 = e + entries_image(m.consumed, TAG_COMMIT);
    lemma_image_replays(m.revoked, TAG_REVOKE, b1, SIG_PUBKEY_LEN as nat);
    let b2 = b1 + entries_image(m.revoked, TAG_REVOKE);
    lemma_image_replays(m.receipts, TAG_FIRST_RECEIPT, b2, GRANT_ID_LEN as nat);
    assert(b2 + entries_image(m.receipts, TAG_FIRST_RECEIPT) =~= image_of(m));
}

// --- well-formedness is kept ------------------------------------------------------

proof fn lemma_put_wf(s: Entries, k: Seq<u8>, v: u64, klen: nat)
    requires
        unique_keys(s),
        forall|i: int| 0 <= i < s.len() ==> (#[trigger] s[i]).0.len() == klen,
        k.len() == klen,
    ensures
        unique_keys(put(s, k, v)),
        unique_keys(put_absent(s, k, v)),
        unique_keys(remove_key(s, k)),
        forall|i: int| 0 <= i < put(s, k, v).len() ==> (#[trigger] put(s, k, v)[i]).0.len() == klen,
        forall|i: int| 0 <= i < put_absent(s, k, v).len() ==> (#[trigger] put_absent(s, k, v)[i]).0.len() == klen,
        forall|i: int| 0 <= i < remove_key(s, k).len() ==> (#[trigger] remove_key(s, k)[i]).0.len() == klen,
{
    lemma_find(s, k);
    let f = find(s, k);
    if f < s.len() {
        let r = s.remove(f);
        assert forall|i: int, j: int| 0 <= i < j < r.len() implies r[i].0 != r[j].0 by {
            let oi = if i < f { i } else { i + 1 };
            let oj = if j < f { j } else { j + 1 };
            assert(s[oi].0 != s[oj].0);
        }
    } else {
        let p = s.push((k, v));
        assert forall|i: int, j: int| 0 <= i < j < p.len() implies p[i].0 != p[j].0 by {
            if j == s.len() {
                assert(!has_key(s, k));
                assert(s[i].0 != k);
            }
        }
    }
}

proof fn lemma_filter_wf(s: Entries, pred: spec_fn((Seq<u8>, u64)) -> bool, klen: nat)
    requires
        unique_keys(s),
        forall|i: int| 0 <= i < s.len() ==> (#[trigger] s[i]).0.len() == klen,
    ensures
        unique_keys(s.filter(pred)),
        forall|i: int| 0 <= i < s.filter(pred).len() ==> (#[trigger] s.filter(pred)[i]).0.len() == klen,
        forall|i: int| 0 <= i < s.filter(pred).len() ==> s.contains(#[trigger] s.filter(pred)[i]),
    decreases s.len(),
{
    reveal_with_fuel(Seq::filter, 1);
    if s.len() > 0 {
        let d = s.drop_last();
        assert forall|i: int, j: int| 0 <= i < j < d.len() implies d[i].0 != d[j].0 by {
            assert(s[i].0 != s[j].0);
        }
        assert forall|i: int| 0 <= i < d.len() implies (#[trigger] d[i]).0.len() == klen by {
            assert(s[i].0.len() == klen);
        }
        lemma_filter_wf(d, pred, klen);
        let fd = d.filter(pred);
        assert forall|i: int| 0 <= i < fd.len() implies s.contains(#[trigger] fd[i]) by {
            let j = choose|j: int| 0 <= j < d.len() && d[j] == fd[i];
            assert(s[j] == fd[i]);
        }
        if pred(s.last()) {
            let f = fd.push(s.last());
            assert forall|i: int, j: int| 0 <= i < j < f.len() implies f[i].0 != f[j].0 by {
                if j == fd.len() {
                    let k = choose|k: int| 0 <= k < d.len() && d[k] == fd[i];
                    assert(s[k].0 != s[s.len() - 1].0);
                }
            }
            assert forall|i: int| 0 <= i < f.len() implies s.contains(#[trigger] f[i]) by {
                if i == fd.len() {
                    assert(s[s.len() - 1] == f[i]);
                }
            }
        }
    }
}

/// Every record keeps the state well formed.
pub proof fn lemma_apply_wf(m: LedgerModel, r: Rec)
    requires
        model_wf(m),
        rec_wf(r),
    ensures
        model_wf(apply(m, r)),
{
    match r {
        Rec::Commit(id, e) => lemma_put_wf(m.consumed, id, e, GRANT_ID_LEN as nat),
        Rec::Published(id) => lemma_put_wf(m.consumed, id, 0, GRANT_ID_LEN as nat),
        Rec::Revoke(pk, e) => lemma_put_wf(m.revoked, pk, e, SIG_PUBKEY_LEN as nat),
        Rec::Receipt(id, t) => lemma_put_wf(m.receipts, id, t, GRANT_ID_LEN as nat),
    }
}

pub proof fn lemma_pruned_wf(m: LedgerModel, now_ms: u64)
    requires
        model_wf(m),
    ensures
        model_wf(pruned(m, now_ms)),
{
    lemma_filter_wf(m.consumed, unexpired(now_ms), GRANT_ID_LEN as nat);
}

/// Replaying any log gives a well-formed state.
pub proof fn lemma_replay_wf(buf: Seq<u8>, off: int, m: LedgerModel)
    requires
        model_wf(m),
    ensures
        replay_from(buf, off, m) matches Ok(m2) ==> model_wf(m2),
    decreases buf.len() - off,
{
    if 0 <= off < buf.len() {
        if let Some(need) = rec_len(buf[off]) {
            if buf.len() - off >= need {
                let b = buf.subrange(off, off + need);
                let r = decode_rec(b);
                assert(rec_wf(r));
                lemma_apply_wf(m, r);
                lemma_replay_wf(buf, off + need, apply(m, r));
            }
        }
    }
}

// --- the mutations ---------------------------------------------------------------

pub open spec fn r_ok() -> Result<(), LedgerError> {
    Ok(())
}

pub open spec fn r_err(e: LedgerError) -> Result<(), LedgerError> {
    Err(e)
}

/// A prune: refused on a read-only handle; nothing to do when no commit has
/// expired; otherwise the expired commits leave the state and the image is
/// rewritten, whose answer `rw` is the prune's.
pub open spec fn prune_outcome(m: LedgerModel, now_ms: u64, writable: bool, rw: Result<(), LedgerError>) -> (
    Result<(), LedgerError>,
    LedgerModel,
) {
    if !writable {
        (Err(LedgerError::DiskError), m)
    } else if !any_expired(m, now_ms) {
        (Ok(()), m)
    } else {
        (rw, pruned(m, now_ms))
    }
}

/// Whether a prune writes its image.
pub open spec fn prune_rewrites(m: LedgerModel, now_ms: u64, writable: bool) -> bool {
    writable && any_expired(m, now_ms)
}

/// Whether a commit is a no-op: the grant is live or tombstoned already.
pub open spec fn commit_known(m: LedgerModel, id: Seq<u8>) -> bool {
    has_key(m.consumed, id) || m.published.contains(id)
}

/// The state a commit appends from: pruned first when the live cap is
/// reached.
pub open spec fn commit_base(m: LedgerModel, now_ms: u64, writable: bool, rw: Result<(), LedgerError>) -> (
    Result<(), LedgerError>,
    LedgerModel,
) {
    if m.consumed.len() >= MAX_LIVE {
        prune_outcome(m, now_ms, writable, rw)
    } else {
        (Ok(()), m)
    }
}

/// A commit, given the rewrite's answer `rw` and the append's answer `ap`.
pub open spec fn commit_outcome(
    m: LedgerModel,
    id: Seq<u8>,
    expiry_ms: u64,
    now_ms: u64,
    writable: bool,
    rw: Result<(), LedgerError>,
    ap: Result<(), LedgerError>,
) -> (Result<(), LedgerError>, LedgerModel) {
    if commit_known(m, id) {
        (Ok(()), m)
    } else {
        let (pr, m1) = commit_base(m, now_ms, writable, rw);
        if pr is Err {
            (pr, m1)
        } else if m1.consumed.len() >= MAX_LIVE {
            (Err(LedgerError::ResourceExhausted), m1)
        } else if ap is Err {
            (ap, m1)
        } else {
            (Ok(()), apply(m1, Rec::Commit(id, expiry_ms)))
        }
    }
}

/// Whether a commit appends its record.
pub open spec fn commit_appends(m: LedgerModel, id: Seq<u8>, now_ms: u64, writable: bool, rw: Result<(), LedgerError>) -> bool {
    !commit_known(m, id) && commit_base(m, now_ms, writable, rw).0 is Ok && commit_base(
        m,
        now_ms,
        writable,
        rw,
    ).1.consumed.len() < MAX_LIVE
}

/// What an append callback answered for the given record bytes.
pub open spec fn answered<A: Fn(&[u8]) -> Result<(), LedgerError>>(
    f: A,
    bytes: Seq<u8>,
    res: Result<(), LedgerError>,
) -> bool {
    exists|b: &[u8]| b@ == bytes && #[trigger] call_ensures(f, (b,), res)
}

fn record_bytes(tag: u8, key: &[u8], v: Option<u64>) -> (r: Vec<u8>)
    ensures
        r@ == seq![tag] + key@ + match v {
            Some(x) => u64_bytes(x),
            None => Seq::empty(),
        },
{
    let mut rec: Vec<u8> = vec![tag];
    push_bytes(&mut rec, key);
    if let Some(x) = v {
        push_u64be(&mut rec, x);
    }
    rec
}

// --- the cached state ----------------------------------------------------------

fn find_entry<const N: usize>(v: &Vec<([u8; N], u64)>, k: &[u8]) -> (i: usize)
    ensures
        i == find(entries_view(v@), k@),
        i <= v@.len(),
{
    let mut i: usize = 0;
    while i < v.len()
        invariant
            i <= v@.len(),
            find(entries_view(v@), k@) == find_from(entries_view(v@), k@, i as int),
        decreases v@.len() - i,
    {
        if bytes_eq(v[i].0.as_slice(), k) {
            return i;
        }
        i = i + 1;
    }
    i
}

proof fn lemma_find_from(s: Entries, k: Seq<u8>, i: int)
    requires
        0 <= i <= s.len(),
    ensures
        i <= find_from(s, k, i) <= s.len(),
        find_from(s, k, i) < s.len() ==> s[find_from(s, k, i)].0 == k,
        forall|j: int| i <= j < find_from(s, k, i) ==> s[j].0 != k,
    decreases s.len() - i,
{
    if i < s.len() && s[i].0 != k {
        lemma_find_from(s, k, i + 1);
    }
}

pub proof fn lemma_find(s: Entries, k: Seq<u8>)
    ensures
        0 <= find(s, k) <= s.len(),
        find(s, k) < s.len() <==> has_key(s, k),
        find(s, k) < s.len() ==> s[find(s, k)].0 == k,
{
    lemma_find_from(s, k, 0);
}

pub open spec fn entries_view<const N: usize>(v: Seq<([u8; N], u64)>) -> Entries {
    Seq::new(v.len(), |i: int| (v[i].0@, v[i].1))
}

fn put_entry<const N: usize>(v: &mut Vec<([u8; N], u64)>, k: &[u8; N], val: u64)
    ensures
        entries_view(final(v)@) == put(entries_view(old(v)@), k@, val),
{
    let i = find_entry(v, k.as_slice());
    proof {
        lemma_find(entries_view(old(v)@), k@);
    }
    if i < v.len() {
        v.set(i, (*k, val));
    } else {
        v.push((*k, val));
    }
    assert(entries_view(v@) =~= put(entries_view(old(v)@), k@, val));
}

fn remove_entry<const N: usize>(v: &mut Vec<([u8; N], u64)>, k: &[u8; N])
    ensures
        entries_view(final(v)@) == remove_key(entries_view(old(v)@), k@),
{
    let i = find_entry(v, k.as_slice());
    proof {
        lemma_find(entries_view(old(v)@), k@);
    }
    if i < v.len() {
        v.remove(i);
        assert(entries_view(v@) =~= entries_view(old(v)@).remove(i as int));
    }
}

pub open spec fn ids_view<const N: usize>(v: Seq<[u8; N]>) -> Seq<Seq<u8>> {
    Seq::new(v.len(), |i: int| v[i]@)
}

fn contains_id(v: &Vec<[u8; GRANT_ID_LEN]>, k: &[u8; GRANT_ID_LEN]) -> (b: bool)
    ensures
        b == ids_view(v@).contains(k@),
{
    let mut i: usize = 0;
    while i < v.len()
        invariant
            i <= v@.len(),
            forall|j: int| 0 <= j < i ==> ids_view(v@)[j] != k@,
        decreases v@.len() - i,
    {
        if bytes_eq(v[i].as_slice(), k.as_slice()) {
            assert(ids_view(v@)[i as int] == k@);
            return true;
        }
        i = i + 1;
    }
    false
}

/// The ledger's cached state, rebuilt from the records.
pub struct GrantState {
    consumed: Vec<([u8; GRANT_ID_LEN], u64)>,
    consumed_order: Vec<[u8; GRANT_ID_LEN]>,
    published: Vec<[u8; GRANT_ID_LEN]>,
    revoked: Vec<([u8; SIG_PUBKEY_LEN], u64)>,
    first_receipts: Vec<([u8; GRANT_ID_LEN], u64)>,
}

impl View for GrantState {
    type V = LedgerModel;

    closed spec fn view(&self) -> LedgerModel {
        LedgerModel {
            consumed: entries_view(self.consumed@),
            order: ids_view(self.consumed_order@),
            published: ids_view(self.published@),
            revoked: entries_view(self.revoked@),
            receipts: entries_view(self.first_receipts@),
        }
    }
}

impl GrantState {
    pub fn new() -> (s: Self)
        ensures
            s@ == empty_model(),
            s.wf(),
    {
        let s = GrantState {
            consumed: Vec::new(),
            consumed_order: Vec::new(),
            published: Vec::new(),
            revoked: Vec::new(),
            first_receipts: Vec::new(),
        };
        assert(s@.consumed =~= Seq::<(Seq<u8>, u64)>::empty());
        assert(s@.order =~= Seq::<Seq<u8>>::empty());
        assert(s@.published =~= Seq::<Seq<u8>>::empty());
        assert(s@.revoked =~= Seq::<(Seq<u8>, u64)>::empty());
        assert(s@.receipts =~= Seq::<(Seq<u8>, u64)>::empty());
        s
    }

    /// Applies one record's effect.
    fn apply_commit(&mut self, id: &[u8; GRANT_ID_LEN], expiry: u64)
        ensures
            final(self)@ == apply(old(self)@, Rec::Commit(id@, expiry)),
    {
        let live = find_entry(&self.consumed, id.as_slice()) < self.consumed.len();
        proof {
            lemma_find(self@.consumed, id@);
        }
        if !contains_id(&self.published, id) && !live {
            self.consumed_order.push(*id);
            assert(ids_view(self.consumed_order@) =~= ids_view(old(self).consumed_order@).push(id@));
        }
        put_entry(&mut self.consumed, id, expiry);
    }

    fn apply_published(&mut self, id: &[u8; GRANT_ID_LEN])
        ensures
            final(self)@ == apply(old(self)@, Rec::Published(id@)),
    {
        remove_entry(&mut self.consumed, id);
        if !contains_id(&self.published, id) {
            self.published.push(*id);
            assert(ids_view(self.published@) =~= ids_view(old(self).published@).push(id@));
        }
    }

    fn apply_revoke(&mut self, pk: &[u8; SIG_PUBKEY_LEN], expiry: u64)
        ensures
            final(self)@ == apply(old(self)@, Rec::Revoke(pk@, expiry)),
    {
        put_entry(&mut self.revoked, pk, expiry);
    }

    fn apply_receipt(&mut self, id: &[u8; GRANT_ID_LEN], time_ms: u64)
        ensures
            final(self)@ == apply(old(self)@, Rec::Receipt(id@, time_ms)),
    {
        let i = find_entry(&self.first_receipts, id.as_slice());
        if i == self.first_receipts.len() {
            self.first_receipts.push((*id, time_ms));
            assert(entries_view(self.first_receipts@) =~= entries_view(old(self).first_receipts@).push(
                (id@, time_ms),
            ));
        }
    }

    /// Rebuilds the state from the log's bytes: the records are the state.
    /// An unknown tag is `BadLog`; a torn trailing record is ignored.
    pub fn replay(buf: &[u8]) -> (r: Result<Self, LedgerError>)
        ensures
            match replay(buf@) {
                Ok(m) => r is Ok && r->Ok_0@ == m,
                Err(e) => r is Err && r->Err_0 == e,
            },
            r is Ok ==> r->Ok_0.wf(),
    {
        let (st, bad) = Self::replay_records(buf);
        proof {
            lemma_replay_stop(buf@, 0, empty_model());
        }
        if bad {
            Err(LedgerError::BadLog)
        } else {
            Ok(st)
        }
    }

    /// The state the log's records build up to the first unknown tag, and
    /// whether such a tag stopped the replay (the log is then bad, and the
    /// state holds the records before it). A torn trailing record is
    /// ignored.
    pub fn replay_records(buf: &[u8]) -> (r: (Self, bool))
        ensures
            (r.0@, r.1) == replay_stop(buf@, 0, empty_model()),
            r.0.wf(),
    {
        let mut st = GrantState::new();
        let mut off: usize = 0;
        while off < buf.len()
            invariant
                off <= buf@.len(),
                replay_stop(buf@, 0, empty_model()) == replay_stop(buf@, off as int, st@),
                model_wf(st@),
            decreases buf@.len() - off,
        {
            let remaining = buf.len() - off;
            let tag = buf[off];
            let need: usize = if tag == TAG_COMMIT {
                REC_COMMIT_LEN
            } else if tag == TAG_PUBLISHED {
                REC_PUBLISHED_LEN
            } else if tag == TAG_REVOKE {
                REC_REVOKE_LEN
            } else if tag == TAG_FIRST_RECEIPT {
                REC_FIRST_RECEIPT_LEN
            } else {
                return (st, true);
            };
            if remaining < need {
                return (st, false);
            }
            let rec = &buf[off..off + need];
            proof {
                let r = decode_rec(rec@);
                assert(rec_wf(r));
                lemma_apply_wf(st@, r);
            }
            if tag == TAG_COMMIT {
                let id: [u8; GRANT_ID_LEN] = copy_into(&rec[1..17]);
                let expiry = read_u64be(&rec[17..25]);
                assert(rec@.subrange(17, 25).subrange(0, 8) =~= rec@.subrange(17, 25));
                st.apply_commit(&id, expiry);
            } else if tag == TAG_PUBLISHED {
                let id: [u8; GRANT_ID_LEN] = copy_into(&rec[1..17]);
                st.apply_published(&id);
            } else if tag == TAG_REVOKE {
                let pk: [u8; SIG_PUBKEY_LEN] = copy_into(&rec[1..33]);
                let expiry = read_u64be(&rec[33..41]);
                assert(rec@.subrange(33, 41).subrange(0, 8) =~= rec@.subrange(33, 41));
                st.apply_revoke(&pk, expiry);
            } else {
                let id: [u8; GRANT_ID_LEN] = copy_into(&rec[1..17]);
                let t = read_u64be(&rec[17..25]);
                assert(rec@.subrange(17, 25).subrange(0, 8) =~= rec@.subrange(17, 25));
                st.apply_receipt(&id, t);
            }
            off = off + need;
        }
        (st, false)
    }

    /// What recovery reports: the orphans in commit order and the counts.
    pub fn recovery(&self) -> (r: Recovery)
        ensures
            ids_view(r.orphans@) == orphans_of(self@),
            r.consumed_count == self@.consumed.len(),
            r.revoked_count == self@.revoked.len(),
    {
        let mut orphans: Vec<[u8; GRANT_ID_LEN]> = Vec::new();
        let mut i: usize = 0;
        while i < self.consumed_order.len()
            invariant
                i <= self@.order.len(),
                self@.order == ids_view(self.consumed_order@),
                ids_view(orphans@) == self@.order.subrange(0, i as int).filter(
                    |id: Seq<u8>| has_key(self@.consumed, id),
                ),
            decreases self@.order.len() - i,
        {
            let id = self.consumed_order[i];
            let live = find_entry(&self.consumed, id.as_slice()) < self.consumed.len();
            proof {
                lemma_find(self@.consumed, id@);
                let f = |x: Seq<u8>| has_key(self@.consumed, x);
                assert(self@.order.subrange(0, i + 1).drop_last() =~= self@.order.subrange(0, i as int));
                assert(self@.order.subrange(0, i as int).push(id@) =~= self@.order.subrange(0, i + 1));
                reveal_with_fuel(Seq::filter, 1);
                assert(self@.order.subrange(0, i as int).push(id@).drop_last() =~= self@.order.subrange(0, i as int));
            }
            let ghost before = orphans@;
            if live {
                orphans.push(id);
                assert(ids_view(orphans@) =~= ids_view(before).push(id@));
            }
            i = i + 1;
        }
        assert(self@.order.subrange(0, self@.order.len() as int) =~= self@.order);
        Recovery { orphans, consumed_count: self.consumed.len(), revoked_count: self.revoked.len() }
    }

    pub fn is_consumed(&self, grant_id: &[u8; GRANT_ID_LEN]) -> (b: bool)
        ensures
            b == has_key(self@.consumed, grant_id@),
    {
        proof {
            lemma_find(self@.consumed, grant_id@);
        }
        find_entry(&self.consumed, grant_id.as_slice()) < self.consumed.len()
    }

    pub fn is_published(&self, grant_id: &[u8; GRANT_ID_LEN]) -> (b: bool)
        ensures
            b == self@.published.contains(grant_id@),
    {
        contains_id(&self.published, grant_id)
    }

    pub fn is_revoked(&self, sig_pubkey: &[u8; SIG_PUBKEY_LEN]) -> (b: bool)
        ensures
            b == has_key(self@.revoked, sig_pubkey@),
    {
        proof {
            lemma_find(self@.revoked, sig_pubkey@);
        }
        find_entry(&self.revoked, sig_pubkey.as_slice()) < self.revoked.len()
    }

    pub fn get_first_receipt(&self, grant_id: &[u8; GRANT_ID_LEN]) -> (r: Option<u64>)
        ensures
            r == lookup(self@.receipts, grant_id@),
    {
        let i = find_entry(&self.first_receipts, grant_id.as_slice());
        if i < self.first_receipts.len() {
            Some(self.first_receipts[i].1)
        } else {
            None
        }
    }

    pub fn consumed_len(&self) -> (n: usize)
        ensures
            n == self@.consumed.len(),
    {
        self.consumed.len()
    }

    pub fn revoked_len(&self) -> (n: usize)
        ensures
            n == self@.revoked.len(),
    {
        self.revoked.len()
    }

    pub closed spec fn wf(&self) -> bool {
        model_wf(self@)
    }

    /// Drops the commits that expired by `now_ms` and rewrites the log to
    /// the image of what is left, through `rewrite`. Refused on a read-only
    /// handle; nothing happens when none expired. Revocations and first
    /// receipts are never pruned.
    pub fn prune_expired<W: Fn(&[u8]) -> Result<(), LedgerError>>(
        &mut self,
        now_ms: u64,
        writable: bool,
        rewrite: &W,
    ) -> (r: Result<(), LedgerError>)
        requires
            old(self).wf(),
            forall|b: &[u8]| call_requires(*rewrite, (b,)),
        ensures
            final(self).wf(),
            exists|rw: Result<(), LedgerError>|
                #![trigger prune_outcome(old(self)@, now_ms, writable, rw)]
                {
                    &&& (r, final(self)@) == prune_outcome(old(self)@, now_ms, writable, rw)
                    &&& prune_rewrites(old(self)@, now_ms, writable) ==> answered(
                        *rewrite,
                        image_of(pruned(old(self)@, now_ms)),
                        rw,
                    )
                },
            final(self)@.revoked == old(self)@.revoked,
            final(self)@.receipts == old(self)@.receipts,
            final(self)@.published == old(self)@.published,
    {
        if !writable {
            assert((r_err(LedgerError::DiskError), self@) == prune_outcome(old(self)@, now_ms, writable, Ok(())));
            return Err(LedgerError::DiskError);
        }
        let ghost m = self@;
        let mut kept: Vec<([u8; GRANT_ID_LEN], u64)> = Vec::new();
        let mut i: usize = 0;
        while i < self.consumed.len()
            invariant
                i <= self.consumed@.len(),
                m == self@,
                entries_view(kept@) == entries_view(self.consumed@).subrange(0, i as int).filter(unexpired(now_ms)),
                (kept@.len() < i) == (exists|j: int| 0 <= j < i && (#[trigger] entries_view(self.consumed@)[j]).1 <= now_ms),
                kept@.len() <= i,
            decreases self.consumed@.len() - i,
        {
            let e = self.consumed[i];
            let ghost sub_prev = entries_view(self.consumed@).subrange(0, i as int);
            let ghost sub_next = entries_view(self.consumed@).subrange(0, i + 1);
            proof {
                reveal_with_fuel(Seq::filter, 1);
                assert(sub_next.drop_last() =~= sub_prev);
                assert(sub_next.last() == (e.0@, e.1));
                assert(entries_view(self.consumed@)[i as int] == (e.0@, e.1));
            }
            let ghost before = kept@;
            if e.1 > now_ms {
                kept.push(e);
                assert(entries_view(kept@) =~= entries_view(before).push((e.0@, e.1)));
                proof {
                    reveal_with_fuel(Seq::filter, 1);
                    assert(unexpired(now_ms)(sub_next.last()));
                    assert(sub_next.filter(unexpired(now_ms)) == sub_prev.filter(unexpired(now_ms)).push((e.0@, e.1)));
                }
            } else {
                proof {
                    reveal_with_fuel(Seq::filter, 1);
                    assert(sub_next.filter(unexpired(now_ms)) == sub_prev.filter(unexpired(now_ms)));
                }
            }
            i = i + 1;
        }
        assert(entries_view(self.consumed@).subrange(0, self.consumed@.len() as int) =~= m.consumed);
        if kept.len() == self.consumed.len() {
            assert(!any_expired(m, now_ms));
            assert((r_ok(), self@) == prune_outcome(m, now_ms, writable, Ok(())));
            return Ok(());
        }
        assert(any_expired(m, now_ms));
        let ghost live_m = entries_view(kept@);
        self.consumed = kept;
        let mut order: Vec<[u8; GRANT_ID_LEN]> = Vec::new();
        let mut j: usize = 0;
        while j < self.consumed_order.len()
            invariant
                j <= self.consumed_order@.len(),
                entries_view(self.consumed@) == live_m,
                ids_view(self.consumed_order@) == m.order,
                ids_view(order@) == m.order.subrange(0, j as int).filter(keyed_in(live_m)),
            decreases self.consumed_order@.len() - j,
        {
            let id = self.consumed_order[j];
            let keep = find_entry(&self.consumed, id.as_slice()) < self.consumed.len();
            let ghost sub_prev = m.order.subrange(0, j as int);
            let ghost sub_next = m.order.subrange(0, j + 1);
            proof {
                lemma_find(live_m, id@);
                reveal_with_fuel(Seq::filter, 1);
                assert(sub_next.drop_last() =~= sub_prev);
                assert(sub_next.last() == id@);
            }
            let ghost before = order@;
            if keep {
                order.push(id);
                assert(ids_view(order@) =~= ids_view(before).push(id@));
                proof {
                    reveal_with_fuel(Seq::filter, 1);
                    assert(sub_next.filter(keyed_in(live_m)) == sub_prev.filter(keyed_in(live_m)).push(id@));
                }
            } else {
                proof {
                    reveal_with_fuel(Seq::filter, 1);
                    assert(sub_next.filter(keyed_in(live_m)) == sub_prev.filter(keyed_in(live_m)));
                }
            }
            j = j + 1;
        }
        assert(m.order.subrange(0, m.order.len() as int) =~= m.order);
        self.consumed_order = order;
        assert(self@ == pruned(m, now_ms));
        proof {
            lemma_pruned_wf(m, now_ms);
        }
        let image = self.image();
        let rw = rewrite(image.as_slice());
        assert(answered(*rewrite, image_of(pruned(m, now_ms)), rw));
        assert((rw, self@) == prune_outcome(m, now_ms, writable, rw));
        rw
    }

    /// Phase one: marks a grant consumed. A grant already live or
    /// tombstoned is a no-op. At the live cap, expired commits are pruned
    /// first, and the cap still reached is `ResourceExhausted`. The record
    /// is appended (durably, by `append`) before the state changes.
    pub fn commit_consumed<A: Fn(&[u8]) -> Result<(), LedgerError>, W: Fn(&[u8]) -> Result<(), LedgerError>>(
        &mut self,
        grant_id: &[u8; GRANT_ID_LEN],
        expiry_ms: u64,
        now_ms: u64,
        writable: bool,
        append: &A,
        rewrite: &W,
    ) -> (r: Result<(), LedgerError>)
        requires
            old(self).wf(),
            forall|b: &[u8]| call_requires(*append, (b,)),
            forall|b: &[u8]| call_requires(*rewrite, (b,)),
        ensures
            final(self).wf(),
            exists|rw: Result<(), LedgerError>, ap: Result<(), LedgerError>|
                #![trigger commit_outcome(old(self)@, grant_id@, expiry_ms, now_ms, writable, rw, ap)]
                {
                    &&& (r, final(self)@) == commit_outcome(old(self)@, grant_id@, expiry_ms, now_ms, writable, rw, ap)
                    &&& (!commit_known(old(self)@, grant_id@) && old(self)@.consumed.len() >= MAX_LIVE
                        && prune_rewrites(old(self)@, now_ms, writable)) ==> answered(
                        *rewrite,
                        image_of(pruned(old(self)@, now_ms)),
                        rw,
                    )
                    &&& commit_appends(old(self)@, grant_id@, now_ms, writable, rw) ==> answered(
                        *append,
                        encode_rec(Rec::Commit(grant_id@, expiry_ms)),
                        ap,
                    )
                },
    {
        let ghost m = self@;
        if self.is_consumed(grant_id) || self.is_published(grant_id) {
            assert(commit_outcome(m, grant_id@, expiry_ms, now_ms, writable, r_ok(), r_ok()) == (r_ok(), m));
            return Ok(());
        }
        let ghost mut rw: Result<(), LedgerError> = Ok(());
        if self.consumed.len() >= MAX_LIVE {
            let pr = self.prune_expired(now_ms, writable, rewrite);
            proof {
                rw = choose|x: Result<(), LedgerError>| {
                    &&& (pr, self@) == prune_outcome(m, now_ms, writable, x)
                    &&& prune_rewrites(m, now_ms, writable) ==> answered(*rewrite, image_of(pruned(m, now_ms)), x)
                };
            }
            if pr.is_err() {
                assert(commit_outcome(m, grant_id@, expiry_ms, now_ms, writable, rw, r_ok()) == (pr, self@));
                return pr;
            }
            if self.consumed.len() >= MAX_LIVE {
                assert(commit_outcome(m, grant_id@, expiry_ms, now_ms, writable, rw, r_ok()) == (
                    r_err(LedgerError::ResourceExhausted),
                    self@,
                ));
                return Err(LedgerError::ResourceExhausted);
            }
        }
        let ghost m1 = self@;
        assert(commit_base(m, now_ms, writable, rw).0 is Ok && commit_base(m, now_ms, writable, rw).1 == m1);
        let rec = record_bytes(TAG_COMMIT, grant_id.as_slice(), Some(expiry_ms));
        assert(rec@ == encode_rec(Rec::Commit(grant_id@, expiry_ms)));
        let ap = append(rec.as_slice());
        assert(answered(*append, encode_rec(Rec::Commit(grant_id@, expiry_ms)), ap));
        if ap.is_err() {
            assert(commit_outcome(m, grant_id@, expiry_ms, now_ms, writable, rw, ap) == (ap, self@));
            return ap;
        }
        self.apply_commit(grant_id, expiry_ms);
        proof {
            lemma_apply_wf(m1, Rec::Commit(grant_id@, expiry_ms));
        }
        assert(commit_outcome(m, grant_id@, expiry_ms, now_ms, writable, rw, ap) == (r_ok(), self@));
        Ok(())
    }

    /// Phase two: tombstones a grant. Already tombstoned is a no-op; a
    /// read-only handle is refused; the record is appended before the state
    /// changes.
    pub fn mark_published<A: Fn(&[u8]) -> Result<(), LedgerError>>(
        &mut self,
        grant_id: &[u8; GRANT_ID_LEN],
        writable: bool,
        append: &A,
    ) -> (r: Result<(), LedgerError>)
        requires
            old(self).wf(),
            forall|b: &[u8]| call_requires(*append, (b,)),
        ensures
            final(self).wf(),
            old(self)@.published.contains(grant_id@) ==> r is Ok && final(self)@ == old(self)@,
            !old(self)@.published.contains(grant_id@) && !writable ==> r == r_err(LedgerError::DiskError)
                && final(self)@ == old(self)@,
            !old(self)@.published.contains(grant_id@) && writable ==> exists|ap: Result<(), LedgerError>|
                {
                    &&& #[trigger] answered(*append, encode_rec(Rec::Published(grant_id@)), ap)
                    &&& ap is Err ==> r == ap && final(self)@ == old(self)@
                    &&& ap is Ok ==> r is Ok && final(self)@ == apply(old(self)@, Rec::Published(grant_id@))
                },
    {
        if self.is_published(grant_id) {
            return Ok(());
        }
        if !writable {
            return Err(LedgerError::DiskError);
        }
        let rec = record_bytes(TAG_PUBLISHED, grant_id.as_slice(), None);
        assert(rec@ =~= encode_rec(Rec::Published(grant_id@)));
        let ap = append(rec.as_slice());
        assert(answered(*append, encode_rec(Rec::Published(grant_id@)), ap));
        if ap.is_err() {
            return ap;
        }
        let ghost m = self@;
        self.apply_published(grant_id);
        proof {
            lemma_apply_wf(m, Rec::Published(grant_id@));
        }
        Ok(())
    }

    /// Records a CA-signed revocation with the subject certificate's expiry.
    /// Already revoked is a no-op; the cap reached is `ResourceExhausted`;
    /// revocations are never pruned.
    pub fn commit_revocation<A: Fn(&[u8]) -> Result<(), LedgerError>>(
        &mut self,
        sig_pubkey: &[u8; SIG_PUBKEY_LEN],
        cert_expiry_ms: u64,
        writable: bool,
        append: &A,
    ) -> (r: Result<(), LedgerError>)
        requires
            old(self).wf(),
            forall|b: &[u8]| call_requires(*append, (b,)),
        ensures
            final(self).wf(),
            has_key(old(self)@.revoked, sig_pubkey@) ==> r is Ok && final(self)@ == old(self)@,
            !has_key(old(self)@.revoked, sig_pubkey@) && old(self)@.revoked.len() >= MAX_LIVE ==> r == r_err(
                LedgerError::ResourceExhausted,
            ) && final(self)@ == old(self)@,
            !has_key(old(self)@.revoked, sig_pubkey@) && old(self)@.revoked.len() < MAX_LIVE && !writable
                ==> r == r_err(LedgerError::DiskError) && final(self)@ == old(self)@,
            !has_key(old(self)@.revoked, sig_pubkey@) && old(self)@.revoked.len() < MAX_LIVE && writable
                ==> exists|ap: Result<(), LedgerError>|
                {
                    &&& #[trigger] answered(*append, encode_rec(Rec::Revoke(sig_pubkey@, cert_expiry_ms)), ap)
                    &&& ap is Err ==> r == ap && final(self)@ == old(self)@
                    &&& ap is Ok ==> r is Ok && final(self)@ == apply(old(self)@, Rec::Revoke(sig_pubkey@, cert_expiry_ms))
                },
    {
        if self.is_revoked(sig_pubkey) {
            return Ok(());
        }
        if self.revoked.len() >= MAX_LIVE {
            return Err(LedgerError::ResourceExhausted);
        }
        if !writable {
            return Err(LedgerError::DiskError);
        }
        let rec = record_bytes(TAG_REVOKE, sig_pubkey.as_slice(), Some(cert_expiry_ms));
        assert(rec@ == encode_rec(Rec::Revoke(sig_pubkey@, cert_expiry_ms)));
        let ap = append(rec.as_slice());
        assert(answered(*append, encode_rec(Rec::Revoke(sig_pubkey@, cert_expiry_ms)), ap));
        if ap.is_err() {
            return ap;
        }
        let ghost m = self@;
        self.apply_revoke(sig_pubkey, cert_expiry_ms);
        proof {
            lemma_apply_wf(m, Rec::Revoke(sig_pubkey@, cert_expiry_ms));
        }
        Ok(())
    }

    /// Anchors the first time a grant was received; the first sighting
    /// wins and survives restarts.
    pub fn record_first_receipt<A: Fn(&[u8]) -> Result<(), LedgerError>>(
        &mut self,
        grant_id: &[u8; GRANT_ID_LEN],
        time_ms: u64,
        writable: bool,
        append: &A,
    ) -> (r: Result<(), LedgerError>)
        requires
            old(self).wf(),
            forall|b: &[u8]| call_requires(*append, (b,)),
        ensures
            final(self).wf(),
            has_key(old(self)@.receipts, grant_id@) ==> r is Ok && final(self)@ == old(self)@,
            !has_key(old(self)@.receipts, grant_id@) && !writable ==> r == r_err(LedgerError::DiskError)
                && final(self)@ == old(self)@,
            !has_key(old(self)@.receipts, grant_id@) && writable ==> exists|ap: Result<(), LedgerError>|
                {
                    &&& #[trigger] answered(*append, encode_rec(Rec::Receipt(grant_id@, time_ms)), ap)
                    &&& ap is Err ==> r == ap && final(self)@ == old(self)@
                    &&& ap is Ok ==> r is Ok && final(self)@ == apply(old(self)@, Rec::Receipt(grant_id@, time_ms))
                },
    {
        let i = find_entry(&self.first_receipts, grant_id.as_slice());
        proof {
            lemma_find(self@.receipts, grant_id@);
        }
        if i < self.first_receipts.len() {
            return Ok(());
        }
        if !writable {
            return Err(LedgerError::DiskError);
        }
        let rec = record_bytes(TAG_FIRST_RECEIPT, grant_id.as_slice(), Some(time_ms));
        assert(rec@ == encode_rec(Rec::Receipt(grant_id@, time_ms)));
        let ap = append(rec.as_slice());
        assert(answered(*append, encode_rec(Rec::Receipt(grant_id@, time_ms)), ap));
        if ap.is_err() {
            return ap;
        }
        let ghost m = self@;
        self.apply_receipt(grant_id, time_ms);
        proof {
            lemma_apply_wf(m, Rec::Receipt(grant_id@, time_ms));
        }
        Ok(())
    }

    /// The rewrite image of the current state.
    fn image(&self) -> (img: Vec<u8>)
        ensures
            img@ == image_of(self@),
    {
        let mut img: Vec<u8> = Vec::new();
        let mut i: usize = 0;
        while i < self.consumed.len()
            invariant
                i <= self.consumed@.len(),
                img@ == entries_image(entries_view(self.consumed@).subrange(0, i as int), TAG_COMMIT),
            decreases self.consumed@.len() - i,
        {
            let rec = record_bytes(TAG_COMMIT, self.consumed[i].0.as_slice(), Some(self.consumed[i].1));
            push_bytes(&mut img, rec.as_slice());
            i = i + 1;
            assert(entries_view(self.consumed@).subrange(0, i as int).drop_last() =~= entries_view(
                self.consumed@,
            ).subrange(0, i - 1));
        }
        assert(entries_view(self.consumed@).subrange(0, self.consumed@.len() as int) =~= self@.consumed);
        let ghost part1 = img@;
        let mut k: usize = 0;
        while k < self.revoked.len()
            invariant
                k <= self.revoked@.len(),
                img@ == part1 + entries_image(entries_view(self.revoked@).subrange(0, k as int), TAG_REVOKE),
            decreases self.revoked@.len() - k,
        {
            let rec = record_bytes(TAG_REVOKE, self.revoked[k].0.as_slice(), Some(self.revoked[k].1));
            push_bytes(&mut img, rec.as_slice());
            k = k + 1;
            assert(entries_view(self.revoked@).subrange(0, k as int).drop_last() =~= entries_view(
                self.revoked@,
            ).subrange(0, k - 1));
        }
        assert(entries_view(self.revoked@).subrange(0, self.revoked@.len() as int) =~= self@.revoked);
        let ghost part2 = img@;
        let mut t: usize = 0;
        while t < self.first_receipts.len()
            invariant
                t <= self.first_receipts@.len(),
                img@ == part2 + entries_image(entries_view(self.first_receipts@).subrange(0, t as int), TAG_FIRST_RECEIPT),
            decreases self.first_receipts@.len() - t,
        {
            let rec = record_bytes(
                TAG_FIRST_RECEIPT,
                self.first_receipts[t].0.as_slice(),
                Some(self.first_receipts[t].1),
            );
            push_bytes(&mut img, rec.as_slice());
            t = t + 1;
            assert(entries_view(self.first_receipts@).subrange(0, t as int).drop_last() =~= entries_view(
                self.first_receipts@,
            ).subrange(0, t - 1));
        }
        assert(entries_view(self.first_receipts@).subrange(0, self.first_receipts@.len() as int)
            =~= self@.receipts);
        img
    }
}

} // verus!
