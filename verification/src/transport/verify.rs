//! The authority decision core.
//!
//! Every authority decision lives here as a function over parsed wire
//! types: the envelope signature, the full grant chain (checks 0-11 in
//! their fixed order), refusals, control-channel genesis and membership,
//! and admission gating. The grant routine does not hand back a
//! capability: it runs the checks, consults the ledger hook last, and runs
//! the effect itself inside its own frame.

use vstd::prelude::*;
use crate::codec::{
    be64, bytes_eq, push_bytes, read_u64be, spec_verify_signed, verify_signed, Cert, CertModel, Envelope,
    EnvelopeModel, Grant, GrantModel, Refusal, RefusalModel, BODY_CONTROL, BODY_EFFECT, BODY_GRANT,
    BODY_INTENT, BODY_REFUSAL, DOMAIN_ENVELOPE, DOMAIN_GRANT, DOMAIN_REFUSAL, LEN_ACTION_DIGEST,
    LEN_INTENT_ID, LEN_PUBKEY, LEN_SCOPE_ID, LEN_SIG, ROLE_AGENT, ROLE_APPROVER, ROLE_EXECUTOR,
};
use crate::crypto;
use crate::state::intent;

verus! {

/// One distinct class per failed check, so a refusal names its reason. The
/// order is the order in which the checks run.
#[derive(Debug, Clone, Copy, PartialEq, Eq, Structural)]
pub enum VerifyError {
    BadVersion,
    BadEnvelopeBinding,
    BadSignature,
    MalformedKey,
    BadApproverCert,
    BadSubjectCert,
    ApproverRevoked,
    ApproverOutOfScope,
    SubjectRevoked,
    SubjectOutOfScope,
    WrongExecutor,
    WrongSubject,
    NoMatchingIntent,
    WrongResource,
    ActionDigestMismatch,
    Expired,
    AlreadyConsumed,
    WrongBodyType,
    SeqWindowStale,
    Equivocation,
    UnknownParents,
    BadControlBody,
}

// --- low-level signature check --------------------------------------------

/// What `verify_signed_err` answers.
pub open spec fn spec_verify_signed_err(tag: u8, tbs: Seq<u8>, sig: Seq<u8>, pubkey: Seq<u8>) -> Result<(), VerifyError> {
    if pubkey.len() != LEN_PUBKEY {
        Err(VerifyError::MalformedKey)
    } else if sig.len() != LEN_SIG {
        Err(VerifyError::BadSignature)
    } else if spec_verify_signed(tag, tbs, sig, pubkey) {
        Ok(())
    } else {
        Err(VerifyError::BadSignature)
    }
}

/// Verify `sig` over `tag || tbs` against `pubkey`.
pub fn verify_signed_err(tag: u8, tbs: &[u8], sig: &[u8], pubkey: &[u8]) -> (r: Result<(), VerifyError>)
    ensures
        r == spec_verify_signed_err(tag, tbs@, sig@, pubkey@),
{
    if pubkey.len() != LEN_PUBKEY {
        return Err(VerifyError::MalformedKey);
    }
    if sig.len() != LEN_SIG {
        return Err(VerifyError::BadSignature);
    }
    if verify_signed(tag, tbs, sig, pubkey) {
        Ok(())
    } else {
        Err(VerifyError::BadSignature)
    }
}

/// The envelope signature: the sender's key over the envelope's tbs.
pub fn verify_envelope(env: &Envelope<'_>) -> (r: Result<(), VerifyError>)
    ensures
        r == spec_verify_signed_err(DOMAIN_ENVELOPE, env.tbs@, env.sig@, env.sender@),
{
    verify_signed_err(DOMAIN_ENVELOPE, env.tbs, env.sig, env.sender)
}

/// The binding digest over an intent's action: BLAKE2s-256.
pub fn action_digest(action: &[u8]) -> (d: [u8; LEN_ACTION_DIGEST])
    ensures
        d@ == crypto::blake2s256_spec(action@),
{
    crypto::blake2s256(action)
}

// --- bounded expiry --------------------------------------------------------

/// Expired if any of: (a) `not_after` is not in the future on the executor's
/// clock, (b) `not_after` lies more than `t_max_s` beyond first receipt,
/// (c) more than `t_recv_s` has elapsed since first receipt.
pub open spec fn spec_check_expiry(not_after: u64, now_ms: u64, first_receipt_ms: u64, t_max_s: u64, t_recv_s: u64) -> Result<(), VerifyError> {
    if now_ms >= not_after {
        Err(VerifyError::Expired)
    } else if not_after > first_receipt_ms + t_max_s * 1000 {
        Err(VerifyError::Expired)
    } else if now_ms > first_receipt_ms + t_recv_s * 1000 {
        Err(VerifyError::Expired)
    } else {
        Ok(())
    }
}

/// The sums the expiry check forms fit in a u64.
pub open spec fn expiry_fits(first_receipt_ms: u64, t_max_s: u64, t_recv_s: u64) -> bool {
    first_receipt_ms + t_max_s * 1000 <= u64::MAX && first_receipt_ms + t_recv_s * 1000
        <= u64::MAX
}

/// All values are unix milliseconds; `t_max_s` and `t_recv_s` are seconds.
pub fn check_expiry(not_after: u64, now_ms: u64, first_receipt_ms: u64, t_max_s: u64, t_recv_s: u64) -> (r: Result<(), VerifyError>)
    requires
        expiry_fits(first_receipt_ms, t_max_s, t_recv_s),
    ensures
        r == spec_check_expiry(not_after, now_ms, first_receipt_ms, t_max_s, t_recv_s),
{
    let t_max_ms = t_max_s * 1000;
    let t_recv_ms = t_recv_s * 1000;
    // (a) non-strict: capability boundaries are denied at the instant of expiry.
    if now_ms >= not_after {
        return Err(VerifyError::Expired);
    }
    if not_after > first_receipt_ms + t_max_ms {
        return Err(VerifyError::Expired);
    }
    if now_ms > first_receipt_ms + t_recv_ms {
        return Err(VerifyError::Expired);
    }
    Ok(())
}

// --- sender records ----------------------------------------------------------

pub const SENDER_MAX_ACTION: usize = 512;

pub struct SenderEntry {
    pub intent_id: [u8; LEN_INTENT_ID],
    pub sender: [u8; 32],
    pub action: [u8; SENDER_MAX_ACTION],
    pub action_len: usize,
}

impl SenderEntry {
    /// The recorded action: the first `action_len` bytes.
    pub open spec fn action_bytes(self) -> Seq<u8> {
        self.action@.subrange(0, self.action_len as int)
    }
}

pub struct SenderTable {
    pub entries: Vec<SenderEntry>,
}

/// Index of the first record for `id`, if any.
pub open spec fn first_sender(s: Seq<SenderEntry>, id: Seq<u8>) -> Option<int> {
    if exists|i: int|
        0 <= i < s.len() && (#[trigger] s[i]).intent_id@ == id && forall|k: int|
            0 <= k < i ==> (#[trigger] s[k]).intent_id@ != id {
        Some(
            choose|i: int|
                0 <= i < s.len() && (#[trigger] s[i]).intent_id@ == id && forall|k: int|
                    0 <= k < i ==> (#[trigger] s[k]).intent_id@ != id,
        )
    } else {
        None
    }
}

impl SenderTable {
    pub fn new() -> (t: Self)
        ensures
            t.entries@ == Seq::<SenderEntry>::empty(),
    {
        Self { entries: Vec::new() }
    }

    /// The first record whose intent_id equals `intent_id`.
    pub fn lookup(&self, intent_id: &[u8]) -> (r: Option<&SenderEntry>)
        ensures
            match first_sender(self.entries@, intent_id@) {
                Some(i) => r == Some(&self.entries@[i]),
                None => r is None,
            },
    {
        let mut i: usize = 0;
        while i < self.entries.len()
            invariant
                i <= self.entries@.len(),
                forall|k: int| 0 <= k < i ==> (#[trigger] self.entries@[k]).intent_id@ != intent_id@,
            decreases self.entries@.len() - i,
        {
            if bytes_eq(self.entries[i].intent_id.as_slice(), intent_id) {
                proof {
                    let c = choose|j: int|
                        0 <= j < self.entries@.len() && (#[trigger] self.entries@[j]).intent_id@
                            == intent_id@ && forall|k: int|
                            0 <= k < j ==> (#[trigger] self.entries@[k]).intent_id@ != intent_id@;
                    if c < i {
                    } else if c > i {
                        assert(self.entries@[i as int].intent_id@ == intent_id@);
                    }
                }
                return Some(&self.entries[i]);
            }
            i = i + 1;
        }
        None
    }
}

// --- scope coverage ----------------------------------------------------------

/// The cert lists `scope` among its first `scope_count` 8-byte scope ids.
pub open spec fn carries_scope(cert: CertModel, scope: Seq<u8>) -> bool {
    exists|i: int|
        0 <= i < cert.scope_count && (i + 1) * 8 <= cert.scope_ids.len() && #[trigger] cert.scope_ids.subrange(
            i * 8,
            i * 8 + 8,
        ) == scope
}

/// Scans the cert's scope ids for `scope`.
fn cert_carries_scope(cert: &Cert<'_>, scope: &[u8]) -> (r: bool)
    ensures
        r == carries_scope(cert@, scope@),
{
    let n = cert.scope_count as usize;
    let mut i: usize = 0;
    while i < n
        invariant
            n == cert.scope_count,
            i <= n,
            forall|j: int|
                0 <= j < i && (j + 1) * 8 <= cert.scope_ids@.len() ==> #[trigger] cert.scope_ids@.subrange(
                    j * 8,
                    j * 8 + 8,
                ) != scope@,
        decreases n - i,
    {
        let off = i * LEN_SCOPE_ID;
        if off + LEN_SCOPE_ID <= cert.scope_ids.len() {
            let chunk = &cert.scope_ids[off..off + LEN_SCOPE_ID];
            assert(chunk@ =~= cert.scope_ids@.subrange(i * 8, i * 8 + 8));
            if bytes_eq(chunk, scope) {
                proof {
                    let w = i as int;
                    assert(0 <= w < cert@.scope_count && (w + 1) * 8 <= cert@.scope_ids.len()
                        && cert@.scope_ids.subrange(w * 8, w * 8 + 8) == scope@);
                }
                return true;
            }
        }
        i = i + 1;
    }
    false
}

/// The end of the segment before the last one in `rid[..e]`: one past the
/// last '/' there, or 0 when there is none.
pub open spec fn seg_cut(rid: Seq<u8>, e: int) -> int
    decreases e,
{
    if e <= 0 {
        0
    } else if rid[e - 1] == 47 {
        e
    } else {
        seg_cut(rid, e - 1)
    }
}

/// Walking from `rid[..end]` towards the root, some ancestor prefix hashes
/// to a scope id the cert carries.
pub open spec fn scope_covered_from(cert: CertModel, rid: Seq<u8>, end: int) -> bool
    decreases end,
{
    if end <= 0 {
        false
    } else if carries_scope(cert, crypto::blake2s256_spec(rid.subrange(0, end)).subrange(0, 8)) {
        true
    } else if seg_cut(rid, end) <= 0 || seg_cut(rid, end) > end {
        false
    } else {
        scope_covered_from(cert, rid, seg_cut(rid, end) - 1)
    }
}

/// The cert's scope covers the canonical resource id: the full id or one of
/// its ancestor prefixes hashes to a scope id the cert carries.
pub open spec fn scope_covers(cert: CertModel, rid: Seq<u8>) -> bool {
    scope_covered_from(cert, rid, rid.len() as int)
}

fn find_cut(rid: &[u8], end: usize) -> (ne: usize)
    requires
        end <= rid@.len(),
    ensures
        ne == seg_cut(rid@, end as int),
        ne <= end,
{
    let mut ne = end;
    while ne > 0 && rid[ne - 1] != 47
        invariant
            ne <= end <= rid@.len(),
            seg_cut(rid@, ne as int) == seg_cut(rid@, end as int),
        decreases ne,
    {
        ne = ne - 1;
    }
    ne
}

/// Walks the canonical resource id from the full path to the root, hashing
/// each ancestor prefix against the cert's scope ids.
fn scope_covers_resource(cert: &Cert<'_>, resource_id: &[u8]) -> (r: bool)
    ensures
        r == scope_covers(cert@, resource_id@),
{
    let mut end = resource_id.len();
    while end > 0
        invariant
            end <= resource_id@.len(),
            scope_covers(cert@, resource_id@) == scope_covered_from(cert@, resource_id@, end as int),
        decreases end,
    {
        let prefix = &resource_id[0..end];
        let hash = crypto::blake2s256(prefix);
        assert(prefix@ =~= resource_id@.subrange(0, end as int));
        if cert_carries_scope(cert, &hash[0..LEN_SCOPE_ID]) {
            return true;
        }
        let new_end = find_cut(resource_id, end);
        if new_end == 0 {
            return false;
        }
        end = new_end - 1;
    }
    false
}

// --- the grant chain ---------------------------------------------------------

/// Every input the grant routine needs. `already_consumed` is the
/// consumed-grant ledger hook (true when the grant id was already
/// consumed); `is_revoked` is the durable revocation hook.
pub struct GrantContext<'a, C, R> {
    /// Check 5: this executor's own sig_pubkey.
    pub own_pubkey: &'a [u8],
    /// Checks 3 and 4: the approver and subject certs.
    pub approver_cert: Cert<'a>,
    pub subject_cert: Cert<'a>,
    /// Trusted CA keys for cert validation.
    pub trusted_ca_keys: &'a [&'a [u8]],
    /// Checks 6-9: the intent table and the sender table.
    pub intent_table: &'a intent::Table,
    pub sender_table: &'a SenderTable,
    /// Check 10: the executor's clock and the grant's receipt time.
    pub now_ms: u64,
    pub first_receipt_ms: u64,
    pub t_max_s: u64,
    pub t_recv_s: u64,
    /// Check 11.
    pub already_consumed: C,
    /// Checks 3 and 4.
    pub is_revoked: R,
}

/// The publication boundary evidence source.
#[derive(Debug, Clone, Copy, PartialEq, Eq, Structural)]
pub enum EffectOutcome {
    Fired,
    Refused,
}

/// The first PENDING entry for `id`, if any.
pub open spec fn first_pending(s: Seq<intent::Entry>, id: Seq<u8>) -> Option<int> {
    if exists|i: int|
        0 <= i < s.len() && (#[trigger] s[i]).is_pending_for(id) && forall|k: int|
            0 <= k < i ==> !(#[trigger] s[k]).is_pending_for(id) {
        Some(
            choose|i: int|
                0 <= i < s.len() && (#[trigger] s[i]).is_pending_for(id) && forall|k: int|
                    0 <= k < i ==> !(#[trigger] s[k]).is_pending_for(id),
        )
    } else {
        None
    }
}

/// Checks 3 (or 4) on one cert: the role bit, the key match, the revocation
/// answer, and, for a version-3 cert, scope coverage of the resource.
pub open spec fn cert_check(cert: CertModel, role: u8, key: Seq<u8>, revoked: bool, rid: Seq<u8>, bad: VerifyError, rev: VerifyError, out: VerifyError) -> Result<(), VerifyError> {
    if cert.role_bits & role == 0 {
        Err(bad)
    } else if cert.sig_pubkey != key {
        Err(bad)
    } else if revoked {
        Err(rev)
    } else if cert.version >= 3 && !scope_covers(cert, rid) {
        Err(out)
    } else {
        Ok(())
    }
}

/// The approver's key reaches the revocation hook.
pub open spec fn reaches_approver_revocation(
    env: EnvelopeModel,
    g: GrantModel,
    ac: CertModel,
    entries: Seq<intent::Entry>,
    senders: Seq<SenderEntry>,
) -> bool {
    &&& g.version == 2
    &&& g.intent_id.len() == LEN_INTENT_ID
    &&& first_pending(entries, g.intent_id) is Some
    &&& first_sender(senders, g.intent_id) is Some
    &&& env.body_type == BODY_GRANT
    &&& env.sender == g.approver
    &&& spec_verify_signed_err(DOMAIN_GRANT, g.tbs, g.sig, g.approver) is Ok
    &&& ac.role_bits & ROLE_APPROVER != 0
    &&& ac.sig_pubkey == g.approver
}

/// The subject's key reaches the revocation hook, given the approver's answer.
pub open spec fn reaches_subject_revocation(
    env: EnvelopeModel,
    g: GrantModel,
    ac: CertModel,
    sc: CertModel,
    entries: Seq<intent::Entry>,
    senders: Seq<SenderEntry>,
    ra: bool,
) -> bool {
    &&& reaches_approver_revocation(env, g, ac, entries, senders)
    &&& !ra
    &&& (ac.version >= 3 ==> scope_covers(ac, g.resource_id))
    &&& sc.role_bits & ROLE_AGENT != 0
    &&& sc.sig_pubkey == g.subject
}

/// The outcome of checks 0-11 for a grant, given what the revocation hook
/// answered for the approver (`ra`) and the subject (`rs`) and what the
/// ledger hook answered (`consumed`).
pub open spec fn grant_verdict(
    env: EnvelopeModel,
    g: GrantModel,
    own_pubkey: Seq<u8>,
    ac: CertModel,
    sc: CertModel,
    entries: Seq<intent::Entry>,
    senders: Seq<SenderEntry>,
    now_ms: u64,
    first_receipt_ms: u64,
    t_max_s: u64,
    t_recv_s: u64,
    ra: bool,
    rs: bool,
    consumed: bool,
) -> Result<(), VerifyError> {
    if g.version != 2 {
        Err(VerifyError::BadVersion)
    } else if g.intent_id.len() != LEN_INTENT_ID {
        Err(VerifyError::BadEnvelopeBinding)
    } else if first_pending(entries, g.intent_id) is None {
        Err(VerifyError::NoMatchingIntent)
    } else if first_sender(senders, g.intent_id) is None {
        Err(VerifyError::NoMatchingIntent)
    } else if env.body_type != BODY_GRANT || env.sender != g.approver {
        Err(VerifyError::BadEnvelopeBinding)
    } else if spec_verify_signed_err(DOMAIN_GRANT, g.tbs, g.sig, g.approver) is Err {
        spec_verify_signed_err(DOMAIN_GRANT, g.tbs, g.sig, g.approver)
    } else if cert_check(
        ac,
        ROLE_APPROVER,
        g.approver,
        ra,
        g.resource_id,
        VerifyError::BadApproverCert,
        VerifyError::ApproverRevoked,
        VerifyError::ApproverOutOfScope,
    ) is Err {
        cert_check(
            ac,
            ROLE_APPROVER,
            g.approver,
            ra,
            g.resource_id,
            VerifyError::BadApproverCert,
            VerifyError::ApproverRevoked,
            VerifyError::ApproverOutOfScope,
        )
    } else if cert_check(
        sc,
        ROLE_AGENT,
        g.subject,
        rs,
        g.resource_id,
        VerifyError::BadSubjectCert,
        VerifyError::SubjectRevoked,
        VerifyError::SubjectOutOfScope,
    ) is Err {
        cert_check(
            sc,
            ROLE_AGENT,
            g.subject,
            rs,
            g.resource_id,
            VerifyError::BadSubjectCert,
            VerifyError::SubjectRevoked,
            VerifyError::SubjectOutOfScope,
        )
    } else if g.executor != own_pubkey {
        Err(VerifyError::WrongExecutor)
    } else {
        let ie = entries[first_pending(entries, g.intent_id)->Some_0];
        let se = senders[first_sender(senders, g.intent_id)->Some_0];
        if g.subject != se.sender@ {
            Err(VerifyError::WrongSubject)
        } else if g.intent_id != ie.intent_id@ {
            Err(VerifyError::NoMatchingIntent)
        } else if g.resource_id != ie.resource() {
            Err(VerifyError::WrongResource)
        } else if g.action_digest != crypto::blake2s256_spec(se.action_bytes()) {
            Err(VerifyError::ActionDigestMismatch)
        } else if spec_check_expiry(g.not_after, now_ms, first_receipt_ms, t_max_s, t_recv_s) is Err {
            Err(VerifyError::Expired)
        } else if consumed {
            Err(VerifyError::AlreadyConsumed)
        } else {
            Ok(())
        }
    }
}

impl<'a, C, R> GrantContext<'a, C, R> {
    /// The stored lengths the routine slices by are within their buffers,
    /// and the expiry sums fit.
    pub open spec fn well_formed(&self) -> bool {
        &&& self.intent_table.lengths_ok()
        &&& forall|i: int|
            0 <= i < self.sender_table.entries@.len()
                ==> (#[trigger] self.sender_table.entries@[i]).action_len <= SENDER_MAX_ACTION
        &&& expiry_fits(self.first_receipt_ms, self.t_max_s, self.t_recv_s)
    }

    pub open spec fn verdict(&self, env: EnvelopeModel, g: GrantModel, ra: bool, rs: bool, consumed: bool) -> Result<(), VerifyError> {
        grant_verdict(
            env,
            g,
            self.own_pubkey@,
            self.approver_cert@,
            self.subject_cert@,
            self.intent_table.entries@,
            self.sender_table.entries@,
            self.now_ms,
            self.first_receipt_ms,
            self.t_max_s,
            self.t_recv_s,
            ra,
            rs,
            consumed,
        )
    }
}

/// The single grant verification routine. Checks run in their fixed order
/// and refuse on the first failure; the ledger hook runs last, so an earlier
/// refusal never reaches the durable commit. On success the effect runs on
/// the verified grant, inside this frame, and its outcome is returned.
pub fn verify_grant_then<C, R, F>(
    env: &Envelope<'_>,
    grant: &Grant<'_>,
    ctx: &GrantContext<'_, C, R>,
    execute: F,
) -> (r: Result<EffectOutcome, VerifyError>)
    where
        C: Fn(&[u8], u64, u64) -> bool,
        R: Fn(&[u8]) -> bool,
        F: FnOnce(&Grant<'_>) -> EffectOutcome,
    requires
        ctx.well_formed(),
        forall|k: &[u8]| #[trigger] call_requires(ctx.is_revoked, (k,)),
        forall|id: &[u8], na: u64, now: u64| #[trigger] call_requires(ctx.already_consumed, (id, na, now)),
        call_requires(execute, (grant,)),
    ensures
        exists|ra: bool, rs: bool, consumed: bool|
            {
                &&& (reaches_approver_revocation(
                    env@,
                    grant@,
                    ctx.approver_cert@,
                    ctx.intent_table.entries@,
                    ctx.sender_table.entries@,
                ) ==> call_ensures(ctx.is_revoked, (ctx.approver_cert.sig_pubkey,), ra))
                &&& (reaches_subject_revocation(
                    env@,
                    grant@,
                    ctx.approver_cert@,
                    ctx.subject_cert@,
                    ctx.intent_table.entries@,
                    ctx.sender_table.entries@,
                    ra,
                ) ==> call_ensures(ctx.is_revoked, (ctx.subject_cert.sig_pubkey,), rs))
                &&& (ctx.verdict(env@, grant@, ra, rs, true) is Ok ==> call_ensures(
                    ctx.already_consumed,
                    (grant.grant_id, grant.not_after, ctx.now_ms),
                    consumed,
                ))
                &&& match r {
                    Ok(o) => #[trigger] ctx.verdict(env@, grant@, ra, rs, consumed) is Ok && call_ensures(
                        execute,
                        (grant,),
                        o,
                    ),
                    Err(e) => ctx.verdict(env@, grant@, ra, rs, consumed) == Err::<(), VerifyError>(e),
                }
            },
{
    let ghost mut ra: bool = false;
    let ghost mut rs: bool = false;
    let ghost mut consumed: bool = false;
    let ghost a = ctx.approver_cert@;
    // 0. Grant.version must be 2: the field is read, not ignored.
    if grant.version != 2 {
        assert(ctx.verdict(env@, grant@, ra, rs, consumed) is Err);
        return Err(VerifyError::BadVersion);
    }
    if grant.intent_id.len() != LEN_INTENT_ID {
        assert(ctx.verdict(env@, grant@, ra, rs, consumed) is Err);
        return Err(VerifyError::BadEnvelopeBinding);
    }
    let mut intent_id_arr: [u8; LEN_INTENT_ID] = [0u8; LEN_INTENT_ID];
    let mut k: usize = 0;
    while k < LEN_INTENT_ID
        invariant
            grant.intent_id@.len() == LEN_INTENT_ID,
            k <= LEN_INTENT_ID,
            forall|j: int| 0 <= j < k ==> intent_id_arr@[j] == grant.intent_id@[j],
        decreases LEN_INTENT_ID - k,
    {
        intent_id_arr[k] = grant.intent_id[k];
        k = k + 1;
    }
    assert(intent_id_arr@ =~= grant.intent_id@);
    let intent_idx = match ctx.intent_table.match_for_grant(&intent_id_arr) {
        Some(i) => i,
        None => {
            assert(ctx.verdict(env@, grant@, ra, rs, consumed) is Err);
            return Err(VerifyError::NoMatchingIntent);
        },
    };
    proof {
        let fp = first_pending(ctx.intent_table.entries@, grant@.intent_id);
        assert(fp is Some);
        let c = fp->Some_0;
        if c < intent_idx {
        } else if c > intent_idx {
            assert(ctx.intent_table.entries@[intent_idx as int].is_pending_for(grant@.intent_id));
        }
    }
    let intent_entry = &ctx.intent_table.entries[intent_idx];
    let sender_entry = match ctx.sender_table.lookup(grant.intent_id) {
        Some(s) => s,
        None => {
            assert(ctx.verdict(env@, grant@, ra, rs, consumed) is Err);
            return Err(VerifyError::NoMatchingIntent);
        },
    };
    // 1. The grant arrived as a Grant envelope whose sender is the approver.
    if env.body_type != BODY_GRANT || !bytes_eq(env.sender, grant.approver) {
        assert(ctx.verdict(env@, grant@, ra, rs, consumed) is Err);
        return Err(VerifyError::BadEnvelopeBinding);
    }
    // 2. Grant.sig verifies against Grant.approver.
    match verify_signed_err(DOMAIN_GRANT, grant.tbs, grant.sig, grant.approver) {
        Ok(()) => {},
        Err(e) => {
            assert(ctx.verdict(env@, grant@, ra, rs, consumed) == Err::<(), VerifyError>(e));
            return Err(e);
        },
    }
    // 3. Approver certificate carries the approver role and key.
    if (ctx.approver_cert.role_bits & ROLE_APPROVER) == 0 || !bytes_eq(
        ctx.approver_cert.sig_pubkey,
        grant.approver,
    ) {
        assert(ctx.verdict(env@, grant@, ra, rs, consumed) == Err::<(), VerifyError>(
            VerifyError::BadApproverCert,
        ));
        return Err(VerifyError::BadApproverCert);
    }
    let a_rev = (ctx.is_revoked)(ctx.approver_cert.sig_pubkey);
    proof {
        ra = a_rev;
    }
    if a_rev {
        assert(ctx.verdict(env@, grant@, ra, rs, consumed) == Err::<(), VerifyError>(
            VerifyError::ApproverRevoked,
        ));
        return Err(VerifyError::ApproverRevoked);
    }
    // 3a. A version-3 approver cert's scope covers the resource.
    if ctx.approver_cert.version >= 3 {
        if !scope_covers_resource(&ctx.approver_cert, grant.resource_id) {
            assert(ctx.verdict(env@, grant@, ra, rs, consumed) == Err::<(), VerifyError>(
                VerifyError::ApproverOutOfScope,
            ));
            return Err(VerifyError::ApproverOutOfScope);
        }
    }
    // 4. Subject certificate carries the agent role and key.
    if (ctx.subject_cert.role_bits & ROLE_AGENT) == 0 || !bytes_eq(
        ctx.subject_cert.sig_pubkey,
        grant.subject,
    ) {
        assert(ctx.verdict(env@, grant@, ra, rs, consumed) == Err::<(), VerifyError>(
            VerifyError::BadSubjectCert,
        ));
        return Err(VerifyError::BadSubjectCert);
    }
    let s_rev = (ctx.is_revoked)(ctx.subject_cert.sig_pubkey);
    proof {
        rs = s_rev;
    }
    if s_rev {
        assert(ctx.verdict(env@, grant@, ra, rs, consumed) == Err::<(), VerifyError>(
            VerifyError::SubjectRevoked,
        ));
        return Err(VerifyError::SubjectRevoked);
    }
    // 4a. A version-3 subject cert's scope covers the resource.
    if ctx.subject_cert.version >= 3 {
        if !scope_covers_resource(&ctx.subject_cert, grant.resource_id) {
            assert(ctx.verdict(env@, grant@, ra, rs, consumed) == Err::<(), VerifyError>(
                VerifyError::SubjectOutOfScope,
            ));
            return Err(VerifyError::SubjectOutOfScope);
        }
    }
    // 5. Grant.executor is this executor's own key.
    if !bytes_eq(grant.executor, ctx.own_pubkey) {
        assert(ctx.verdict(env@, grant@, ra, rs, consumed) is Err);
        return Err(VerifyError::WrongExecutor);
    }
    // 6. The grant's subject is the pending intent's sender.
    if !bytes_eq(grant.subject, sender_entry.sender.as_slice()) {
        assert(ctx.verdict(env@, grant@, ra, rs, consumed) is Err);
        return Err(VerifyError::WrongSubject);
    }
    // 7. intent_id matches the pending intent.
    if !bytes_eq(grant.intent_id, intent_entry.intent_id.as_slice()) {
        assert(ctx.verdict(env@, grant@, ra, rs, consumed) is Err);
        return Err(VerifyError::NoMatchingIntent);
    }
    // 8. resource_id matches the pending intent's canonical resource.
    assert(intent_entry.resource_len <= intent::MAX_RESOURCE);
    if !bytes_eq(grant.resource_id, &intent_entry.resource_id[0..intent_entry.resource_len]) {
        assert(ctx.verdict(env@, grant@, ra, rs, consumed) is Err);
        return Err(VerifyError::WrongResource);
    }
    // 9. Grant.action_digest equals BLAKE2s over the intent's action.
    proof {
        let si = first_sender(ctx.sender_table.entries@, grant@.intent_id)->Some_0;
        assert(ctx.sender_table.entries@[si].action_len <= SENDER_MAX_ACTION);
    }
    let digest = action_digest(&sender_entry.action[0..sender_entry.action_len]);
    if !bytes_eq(grant.action_digest, digest.as_slice()) {
        assert(ctx.verdict(env@, grant@, ra, rs, consumed) is Err);
        return Err(VerifyError::ActionDigestMismatch);
    }
    // 10. Expiry passes all three conditions.
    match check_expiry(grant.not_after, ctx.now_ms, ctx.first_receipt_ms, ctx.t_max_s, ctx.t_recv_s) {
        Ok(()) => {},
        Err(e) => {
            assert(ctx.verdict(env@, grant@, ra, rs, consumed) == Err::<(), VerifyError>(e));
            return Err(e);
        },
    }
    // 11. grant_id is not already consumed.
    let used = (ctx.already_consumed)(grant.grant_id, grant.not_after, ctx.now_ms);
    proof {
        consumed = used;
    }
    if used {
        assert(ctx.verdict(env@, grant@, ra, rs, consumed) == Err::<(), VerifyError>(
            VerifyError::AlreadyConsumed,
        ));
        return Err(VerifyError::AlreadyConsumed);
    }
    // The effect runs inside this frame on the verified grant.
    let outcome = execute(grant);
    assert(ctx.verdict(env@, grant@, ra, rs, consumed) is Ok);
    Ok(outcome)
}

// --- refusals ---------------------------------------------------------------

/// The approver's signed NO over a single intent_id. It moves a PENDING
/// intent to REJECTED and releases the resource lock in one message.
pub struct RefusalContext<'a> {
    pub trusted_ca_keys: &'a [&'a [u8]],
    pub approver_cert: Cert<'a>,
    pub now_ms: u64,
    pub intent_table: &'a mut intent::Table,
}

/// The checks on a refusal, before the state transition.
pub open spec fn refusal_verdict(env: EnvelopeModel, rf: RefusalModel, ac: CertModel) -> Result<(), VerifyError> {
    if env.body_type != BODY_REFUSAL {
        Err(VerifyError::BadEnvelopeBinding)
    } else if spec_verify_signed_err(DOMAIN_REFUSAL, rf.tbs, rf.sig, env.sender) is Err {
        spec_verify_signed_err(DOMAIN_REFUSAL, rf.tbs, rf.sig, env.sender)
    } else if ac.role_bits & ROLE_APPROVER == 0 || ac.sig_pubkey != env.sender {
        Err(VerifyError::BadApproverCert)
    } else if rf.intent_id.len() != LEN_INTENT_ID {
        Err(VerifyError::BadEnvelopeBinding)
    } else {
        Ok(())
    }
}

/// The single refusal routine. On a verified refusal whose intent_id names
/// a PENDING intent, that intent moves to REJECTED and `on_rejected` fires
/// once with the intent_id.
pub fn verify_refusal_then<F>(
    env: &Envelope<'_>,
    refusal: &Refusal<'_>,
    ctx: &mut RefusalContext<'_>,
    on_rejected: F,
) -> (r: Result<(), VerifyError>)
    where
        F: FnOnce(&[u8]),
    requires
        call_requires(on_rejected, (refusal.intent_id,)),
    ensures
        r == refusal_verdict(env@, refusal@, old(ctx).approver_cert@),
        final(ctx).approver_cert@ == old(ctx).approver_cert@,
        *final(final(ctx).intent_table) == *final(old(ctx).intent_table),
        r is Err ==> final(ctx).intent_table.entries@ == old(ctx).intent_table.entries@,
        r is Ok && !(exists|k: int|
            0 <= k < old(ctx).intent_table.entries@.len() && (#[trigger] old(
                ctx,
            ).intent_table.entries@[k]).is_pending_for(refusal@.intent_id)) ==> final(ctx).intent_table.entries@ == old(ctx).intent_table.entries@,
        r is Ok && (exists|k: int|
            0 <= k < old(ctx).intent_table.entries@.len() && (#[trigger] old(
                ctx,
            ).intent_table.entries@[k]).is_pending_for(refusal@.intent_id)) ==> exists|k: int|
            0 <= k < old(ctx).intent_table.entries@.len() && (#[trigger] old(ctx).intent_table.entries@[k]).is_pending_for(refusal@.intent_id)
                && final(ctx).intent_table.entries@ == old(ctx).intent_table.entries@.update(
                k,
                intent::Entry { state: intent::State::Rejected, ..old(ctx).intent_table.entries@[k] },
            ).filter(intent::live_pred()),
        r is Ok && (exists|k: int|
            0 <= k < old(ctx).intent_table.entries@.len() && (#[trigger] old(
                ctx,
            ).intent_table.entries@[k]).is_pending_for(refusal@.intent_id)) ==> call_ensures(
            on_rejected,
            (refusal.intent_id,),
            (),
        ),
        old(ctx).intent_table.wf() ==> final(ctx).intent_table.wf(),
{
    // 1. A refusal arrives as a Refusal envelope.
    if env.body_type != BODY_REFUSAL {
        return Err(VerifyError::BadEnvelopeBinding);
    }
    // 2. Refusal.sig verifies against the envelope's sender.
    match verify_signed_err(DOMAIN_REFUSAL, refusal.tbs, refusal.sig, env.sender) {
        Ok(()) => {},
        Err(e) => return Err(e),
    }
    // 3. The approver cert carries the approver role and the sender's key.
    if (ctx.approver_cert.role_bits & ROLE_APPROVER) == 0 || !bytes_eq(
        ctx.approver_cert.sig_pubkey,
        env.sender,
    ) {
        return Err(VerifyError::BadApproverCert);
    }
    if refusal.intent_id.len() != LEN_INTENT_ID {
        return Err(VerifyError::BadEnvelopeBinding);
    }
    let mut intent_id_arr: [u8; LEN_INTENT_ID] = [0u8; LEN_INTENT_ID];
    let mut k: usize = 0;
    while k < LEN_INTENT_ID
        invariant
            refusal.intent_id@.len() == LEN_INTENT_ID,
            k <= LEN_INTENT_ID,
            forall|j: int| 0 <= j < k ==> intent_id_arr@[j] == refusal.intent_id@[j],
        decreases LEN_INTENT_ID - k,
    {
        intent_id_arr[k] = refusal.intent_id[k];
        k = k + 1;
    }
    assert(intent_id_arr@ =~= refusal.intent_id@);
    if ctx.intent_table.apply_refusal(&intent_id_arr) == intent::RefusalOutcome::Rejected {
        on_rejected(refusal.intent_id);
    }
    Ok(())
}

// --- channel control ---------------------------------------------------------

#[derive(Debug, Clone, Copy, PartialEq, Eq, Structural)]
pub enum ChannelError {
    BadMatchRule,
    BadChannelId,
    DuplicateGenesis,
    GenesisNotAdmin,
    BadActionType,
    RevokeNotAdmin,
    SubjectRevoked,
    NotMember,
}

/// The channel hooks: whether a genesis exists for a channel id, and whether
/// a signing key is durably revoked.
pub struct ChannelContext<G, R> {
    pub genesis_exists: G,
    pub is_revoked: R,
}

/// What `verify_control_genesis` answers, given the genesis hook's answer.
pub open spec fn genesis_verdict(name: Seq<u8>, ca_key_0: Seq<u8>, admin: CertModel, admin_group: Seq<u8>, channel_id: Seq<u8>, exists_already: bool) -> Result<(), ChannelError> {
    if !carries_scope(admin, admin_group) {
        Err(ChannelError::GenesisNotAdmin)
    } else if channel_id != crypto::blake2s256_spec(name + ca_key_0) {
        Err(ChannelError::BadChannelId)
    } else if exists_already {
        Err(ChannelError::DuplicateGenesis)
    } else {
        Ok(())
    }
}

/// A genesis is signed by a cert carrying `admin_group`, names the channel
/// id BLAKE2s(name || ca_key_0), and is the only genesis for that id.
pub fn verify_control_genesis<G, R>(
    genesis_name: &[u8],
    genesis_ca_key_0: &[u8],
    admin_cert: &Cert<'_>,
    admin_group: &[u8],
    channel_id: &[u8],
    ctx: &ChannelContext<G, R>,
) -> (r: Result<(), ChannelError>)
    where
        G: Fn(&[u8]) -> bool,
    requires
        call_requires(ctx.genesis_exists, (channel_id,)),
    ensures
        exists|ex: bool|
            {
                &&& (genesis_verdict(genesis_name@, genesis_ca_key_0@, admin_cert@, admin_group@, channel_id@, true) is Ok
                    ==> call_ensures(ctx.genesis_exists, (channel_id,), ex))
                &&& r == #[trigger] genesis_verdict(
                    genesis_name@,
                    genesis_ca_key_0@,
                    admin_cert@,
                    admin_group@,
                    channel_id@,
                    ex,
                )
            },
{
    let ghost mut ex: bool = false;
    if !cert_carries_scope(admin_cert, admin_group) {
        assert(genesis_verdict(genesis_name@, genesis_ca_key_0@, admin_cert@, admin_group@, channel_id@, ex) == Err::<(), ChannelError>(ChannelError::GenesisNotAdmin));
        return Err(ChannelError::GenesisNotAdmin);
    }
    let mut input: Vec<u8> = Vec::new();
    push_bytes(&mut input, genesis_name);
    push_bytes(&mut input, genesis_ca_key_0);
    let derived = crypto::blake2s256(input.as_slice());
    if !bytes_eq(channel_id, derived.as_slice()) {
        assert(genesis_verdict(genesis_name@, genesis_ca_key_0@, admin_cert@, admin_group@, channel_id@, ex) == Err::<(), ChannelError>(ChannelError::BadChannelId));
        return Err(ChannelError::BadChannelId);
    }
    let dup = (ctx.genesis_exists)(channel_id);
    proof {
        ex = dup;
    }
    if dup {
        assert(genesis_verdict(genesis_name@, genesis_ca_key_0@, admin_cert@, admin_group@, channel_id@, ex) == Err::<(), ChannelError>(ChannelError::DuplicateGenesis));
        return Err(ChannelError::DuplicateGenesis);
    }
    assert(genesis_verdict(genesis_name@, genesis_ca_key_0@, admin_cert@, admin_group@, channel_id@, ex) is Ok);
    Ok(())
}

/// What `verify_control` answers.
pub open spec fn control_verdict(action_type: u8, sender: CertModel, admin_group: Seq<u8>) -> Result<(), ChannelError> {
    if action_type != 1 && action_type != 2 {
        Err(ChannelError::BadActionType)
    } else if action_type == 2 && !carries_scope(sender, admin_group) {
        Err(ChannelError::RevokeNotAdmin)
    } else {
        Ok(())
    }
}

/// A control body's action is 1 or 2, and a Revoke (2) is signed by a cert
/// carrying `admin_group`.
pub fn verify_control(action_type: u8, sender_cert: &Cert<'_>, admin_group: &[u8]) -> (r: Result<(), ChannelError>)
    ensures
        r == control_verdict(action_type, sender_cert@, admin_group@),
{
    if action_type != 1 && action_type != 2 {
        return Err(ChannelError::BadActionType);
    }
    if action_type == 2 && !cert_carries_scope(sender_cert, admin_group) {
        return Err(ChannelError::RevokeNotAdmin);
    }
    Ok(())
}

/// What `require_member` answers, given the revocation hook's answer.
pub open spec fn member_verdict(sender: CertModel, member_group: Seq<u8>, revoked: bool) -> Result<(), ChannelError> {
    if revoked {
        Err(ChannelError::SubjectRevoked)
    } else if !carries_scope(sender, member_group) {
        Err(ChannelError::NotMember)
    } else {
        Ok(())
    }
}

/// Gate a channel message on the sender's membership: not revoked, and the
/// cert carries `member_group`.
pub fn require_member<G, R>(sender_cert: &Cert<'_>, member_group: &[u8], ctx: &ChannelContext<G, R>) -> (r: Result<(), ChannelError>)
    where
        R: Fn(&[u8]) -> bool,
    requires
        call_requires(ctx.is_revoked, (sender_cert.sig_pubkey,)),
    ensures
        exists|rv: bool|
            call_ensures(ctx.is_revoked, (sender_cert.sig_pubkey,), rv) && r == #[trigger] member_verdict(
                sender_cert@,
                member_group@,
                rv,
            ),
{
    let revoked = (ctx.is_revoked)(sender_cert.sig_pubkey);
    if revoked {
        assert(member_verdict(sender_cert@, member_group@, revoked) == Err::<(), ChannelError>(ChannelError::SubjectRevoked));
        return Err(ChannelError::SubjectRevoked);
    }
    if !cert_carries_scope(sender_cert, member_group) {
        assert(member_verdict(sender_cert@, member_group@, revoked) == Err::<(), ChannelError>(ChannelError::NotMember));
        return Err(ChannelError::NotMember);
    }
    assert(member_verdict(sender_cert@, member_group@, revoked) is Ok);
    Ok(())
}

// --- admission gating ---------------------------------------------------------

/// The body_type -> role map.
pub open spec fn spec_body_type_allowed(body_type: u8, role_bits: u8) -> bool {
    if body_type == BODY_INTENT {
        role_bits & ROLE_AGENT != 0
    } else if body_type == BODY_GRANT || body_type == BODY_REFUSAL {
        role_bits & ROLE_APPROVER != 0
    } else if body_type == BODY_EFFECT {
        role_bits & ROLE_EXECUTOR != 0
    } else {
        body_type == BODY_CONTROL
    }
}

/// Whether a sender with `role_bits` may send `body_type`. Control bodies
/// pass here; they are role-gated at verification.
pub fn body_type_allowed(body_type: u8, role_bits: u8) -> (ok: bool)
    ensures
        ok == spec_body_type_allowed(body_type, role_bits),
{
    let is_agent = (role_bits & ROLE_AGENT) != 0;
    let is_approver = (role_bits & ROLE_APPROVER) != 0;
    let is_executor = (role_bits & ROLE_EXECUTOR) != 0;
    if body_type == BODY_INTENT {
        is_agent
    } else if body_type == BODY_GRANT || body_type == BODY_REFUSAL {
        is_approver
    } else if body_type == BODY_EFFECT {
        is_executor
    } else {
        body_type == BODY_CONTROL
    }
}

/// The subject's cert expiry that a Revoke body carries as u64be; a body
/// without the field yields u64::MAX (never pruned).
pub fn revoke_prune_expiry(body: &[u8]) -> (t: u64)
    ensures
        body@.len() >= 8 ==> t == be64(body@.subrange(0, 8)),
        body@.len() < 8 ==> t == u64::MAX,
{
    if body.len() >= 8 {
        read_u64be(&body[0..8])
    } else {
        u64::MAX
    }
}

/// The expiry check passes exactly when the grant has not yet expired, its
/// lifetime from first receipt is within `t_max_s`, and at most `t_recv_s`
/// have elapsed since first receipt; every refusal is `Expired`.
pub proof fn lemma_expiry_ok_iff(not_after: u64, now_ms: u64, first_receipt_ms: u64, t_max_s: u64, t_recv_s: u64)
    requires
        expiry_fits(first_receipt_ms, t_max_s, t_recv_s),
    ensures
        spec_check_expiry(not_after, now_ms, first_receipt_ms, t_max_s, t_recv_s) is Ok <==> {
            &&& now_ms < not_after
            &&& not_after - first_receipt_ms <= t_max_s * 1000
            &&& now_ms - first_receipt_ms <= t_recv_s * 1000
        },
        spec_check_expiry(not_after, now_ms, first_receipt_ms, t_max_s, t_recv_s) is Err
            ==> spec_check_expiry(not_after, now_ms, first_receipt_ms, t_max_s, t_recv_s)
            == Err::<(), VerifyError>(VerifyError::Expired),
{
}

/// The check depends on the times relative to first receipt only: moving
/// the receipt, the expiry and the clock by the same amount changes nothing.
pub proof fn lemma_expiry_shift(
    not_after: u64,
    now_ms: u64,
    first_receipt_ms: u64,
    t_max_s: u64,
    t_recv_s: u64,
    d: u64,
)
    requires
        expiry_fits(first_receipt_ms, t_max_s, t_recv_s),
        expiry_fits((first_receipt_ms + d) as u64, t_max_s, t_recv_s),
        not_after + d <= u64::MAX,
        now_ms + d <= u64::MAX,
        first_receipt_ms + d <= u64::MAX,
    ensures
        spec_check_expiry(
            (not_after + d) as u64,
            (now_ms + d) as u64,
            (first_receipt_ms + d) as u64,
            t_max_s,
            t_recv_s,
        ) == spec_check_expiry(not_after, now_ms, first_receipt_ms, t_max_s, t_recv_s),
{
}

} // verus!
