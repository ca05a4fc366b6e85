//! The router: one envelope in, one of seven outcomes out, with every state
//! mutation ordered here. Admission goes through `resolve_and_admit` (the
//! path the control facade uses too), grants execute through
//! `verify_grant_then`, the consumed-grant ledger hook owns replay refusal,
//! and an effect fires at most once, inside the verify call.

use vstd::prelude::*;
use crate::codec::{
    parse_envelope, parse_grant, parse_intent, parse_refusal, spec_parse_envelope, spec_parse_grant,
    spec_parse_intent, spec_parse_refusal, Cert, CertModel, Envelope, EnvelopeModel, Grant, BODY_CONTROL,
    BODY_EFFECT, BODY_GRANT, BODY_INTENT, BODY_REFUSAL, BODY_UTTERANCE, DOMAIN_ENVELOPE,
};
use crate::state::intent;
use crate::transport::resolver::{ResolveError, Resolver};
use crate::transport::verify::{
    grant_verdict, refusal_verdict, spec_verify_signed_err, verify_envelope, verify_grant_then,
    verify_refusal_then, EffectOutcome, GrantContext, RefusalContext, SenderEntry, SenderTable,
    VerifyError, SENDER_MAX_ACTION,
};

verus! {

pub const T_MAX_S_DEFAULT: u64 = 3600;
pub const T_RECV_S_DEFAULT: u64 = 300;
pub const MAX_ACTION: usize = SENDER_MAX_ACTION;

#[derive(Debug, Clone, Copy, PartialEq, Eq, Structural)]
pub enum DispatchError {
    BadEnvelope,
    BadBody,
    UnsupportedBody,
    NoPendingIntent,
    UnknownSender,
    ActionTooLarge,
    DiskError,
    Verify(VerifyError),
    Resolve(ResolveError),
}

impl From<VerifyError> for DispatchError {
    fn from(e: VerifyError) -> (r: Self) {
        DispatchError::Verify(e)
    }
}

impl vstd::std_specs::convert::FromSpecImpl<VerifyError> for DispatchError {
    open spec fn obeys_from_spec() -> bool {
        true
    }

    open spec fn from_spec(e: VerifyError) -> DispatchError {
        DispatchError::Verify(e)
    }
}

impl From<ResolveError> for DispatchError {
    fn from(e: ResolveError) -> (r: Self) {
        DispatchError::Resolve(e)
    }
}

impl vstd::std_specs::convert::FromSpecImpl<ResolveError> for DispatchError {
    open spec fn obeys_from_spec() -> bool {
        true
    }

    open spec fn from_spec(e: ResolveError) -> DispatchError {
        DispatchError::Resolve(e)
    }
}

/// The outcomes, never collapsed.
#[derive(Debug, Clone, Copy, PartialEq, Eq, Structural)]
pub enum Outcome {
    IntentAdmitted,
    GrantExecuted,
    EffectRefused,  // an unpublished orphan
    RefusalApplied,
    Utterance,
    Control,
    Effect,
}

/// The caller's hooks: the effect, the cert lookup for a sender key, the
/// rejection callback, the revocation hook and the consumed-grant ledger.
pub struct Hooks<E, C, J, R, A> {
    pub execute_effect: E,
    pub cert_for_sender: C,
    pub on_rejected: J,
    pub is_revoked: R,
    pub already_consumed: A,
}

pub struct Dispatch<'a> {
    pub resolver: &'a Resolver,
    pub intent_table: &'a mut intent::Table,
    pub sender_table: &'a mut SenderTable,
    pub own_pubkey: &'a [u8],
    pub own_cert: Cert<'a>,
    pub trusted_ca_keys: &'a [&'a [u8]],
}

/// What admitting an intent body does to the tables, given the tables'
/// entries before: the error, or the new intent entries (with the sender
/// record to append when the action fits).
pub open spec fn intent_route(
    resolver: Resolver,
    entries: Seq<intent::Entry>,
    body: Seq<u8>,
) -> Result<(), DispatchError> {
    match spec_parse_intent(body) {
        Err(_) => Err(DispatchError::BadBody),
        Ok(i) => if i.intent_id.len() != intent::LEN_INTENT_ID {
            Err(DispatchError::BadBody)
        } else {
            match resolver.spec_resolve(i.resource_id) {
                Err(e) => Err(DispatchError::Resolve(e)),
                Ok(c) => match intent::spec_admit(entries, i.intent_id, c) {
                    Err(ie) => Err(DispatchError::Resolve(ResolveError::Intent(ie))),
                    Ok(()) => if i.action.len() > MAX_ACTION {
                        Err(DispatchError::ActionTooLarge)
                    } else {
                        Ok(())
                    },
                },
            }
        },
    }
}

/// The intent table after one admission: the entries before, then one
/// PENDING entry for `id` holding the canonical resource `c`, admitted at
/// `now_ms`.
pub open spec fn admitted_entries(before: Seq<intent::Entry>, after: Seq<intent::Entry>, id: Seq<u8>, c: Seq<u8>, now_ms: u64) -> bool {
    &&& after.len() == before.len() + 1
    &&& after.drop_last() == before
    &&& after.last().resource() == c
    &&& after.last().intent_id@ == id
    &&& after.last().state == intent::State::Pending
    &&& after.last().admitted_ms == now_ms
}

/// What the intent route does to the intent table: an intent that is
/// admitted (the route answers `Ok`, or refuses the action as too large
/// after the admission) adds its entry under the canonical resource; any
/// other answer leaves the table as it was.
pub open spec fn intent_table_after(
    resolver: Resolver,
    before: Seq<intent::Entry>,
    body: Seq<u8>,
    after: Seq<intent::Entry>,
    now_ms: u64,
) -> bool {
    match intent_route(resolver, before, body) {
        Ok(()) | Err(DispatchError::ActionTooLarge) => admitted_entries(
            before,
            after,
            spec_parse_intent(body)->Ok_0.intent_id,
            resolver.spec_resolve(spec_parse_intent(body)->Ok_0.resource_id)->Ok_0,
            now_ms,
        ),
        _ => after == before,
    }
}

/// What the grant route answers: a body that does not parse is a bad
/// body; a sender the cert hook does not know is unknown; otherwise the
/// grant checks decide, with the sender's cert as approver and subject, the
/// receipt time now, and the default bounds, given the hooks' answers. A
/// grant that passes is handed to the effect hook: `Fired` is reported as
/// executed, a refused effect as refused.
pub open spec fn grant_route<'a, E, C>(
    execute_effect: E,
    cert_for_sender: C,
    own_pubkey: Seq<u8>,
    entries: Seq<intent::Entry>,
    senders: Seq<SenderEntry>,
    e: EnvelopeModel,
    sender: &[u8],
    now_ms: u64,
    r: Result<Outcome, DispatchError>,
) -> bool where E: Fn(&Grant<'_>) -> EffectOutcome, C: Fn(&[u8]) -> Option<Cert<'a>> {
    match spec_parse_grant(e.body) {
        Err(_) => r == Err::<Outcome, DispatchError>(DispatchError::BadBody),
        Ok(g) => exists|c: Option<Cert<'a>>|
            {
                &&& call_ensures(cert_for_sender, (sender,), c)
                &&& (c is None ==> r == Err::<Outcome, DispatchError>(DispatchError::UnknownSender))
                &&& (c is Some ==> exists|ra: bool, rs: bool, consumed: bool|
                    match r {
                        Ok(o) => #[trigger] grant_verdict(
                            e,
                            g,
                            own_pubkey,
                            c->Some_0@,
                            c->Some_0@,
                            entries,
                            senders,
                            now_ms,
                            now_ms,
                            T_MAX_S_DEFAULT,
                            T_RECV_S_DEFAULT,
                            ra,
                            rs,
                            consumed,
                        ) is Ok && exists|gr: &Grant<'_>, eo: EffectOutcome|
                            #![trigger call_ensures(execute_effect, (gr,), eo)]
                            {
                                &&& gr@ == g
                                &&& call_ensures(execute_effect, (gr,), eo)
                                &&& o == if eo == EffectOutcome::Fired {
                                    Outcome::GrantExecuted
                                } else {
                                    Outcome::EffectRefused
                                }
                            },
                        Err(DispatchError::Verify(v)) => grant_verdict(
                            e,
                            g,
                            own_pubkey,
                            c->Some_0@,
                            c->Some_0@,
                            entries,
                            senders,
                            now_ms,
                            now_ms,
                            T_MAX_S_DEFAULT,
                            T_RECV_S_DEFAULT,
                            ra,
                            rs,
                            consumed,
                        ) == Err::<(), VerifyError>(v),
                        Err(_) => false,
                    })
            },
    }
}

/// The intent table after a verified refusal of `id`: a PENDING entry for
/// it moves to REJECTED and leaves the table (only live entries are kept);
/// with no such entry the table is unchanged.
pub open spec fn refusal_table_after(before: Seq<intent::Entry>, after: Seq<intent::Entry>, id: Seq<u8>) -> bool {
    if exists|k: int| 0 <= k < before.len() && (#[trigger] before[k]).is_pending_for(id) {
        exists|k: int|
            0 <= k < before.len() && (#[trigger] before[k]).is_pending_for(id) && after == before.update(
                k,
                intent::Entry { state: intent::State::Rejected, ..before[k] },
            ).filter(intent::live_pred())
    } else {
        after == before
    }
}

/// What the refusal route answers, and what it does to the intent table:
/// a bad body, an unknown sender and a failed check change nothing; a
/// verified refusal is applied, and when it rejects a PENDING intent the
/// `on_rejected` hook is called with the intent id.
pub open spec fn refusal_route<'a, J, C>(
    on_rejected: J,
    cert_for_sender: C,
    e: EnvelopeModel,
    sender: &[u8],
    r: Result<Outcome, DispatchError>,
    before: Seq<intent::Entry>,
    after: Seq<intent::Entry>,
) -> bool where J: Fn(&[u8]), C: Fn(&[u8]) -> Option<Cert<'a>> {
    let unchanged = after == before;
    match spec_parse_refusal(e.body) {
        Err(_) => r == Err::<Outcome, DispatchError>(DispatchError::BadBody) && unchanged,
        Ok(f) => exists|c: Option<Cert<'a>>|
            {
                &&& call_ensures(cert_for_sender, (sender,), c)
                &&& (c is None ==> r == Err::<Outcome, DispatchError>(DispatchError::UnknownSender)
                    && unchanged)
                &&& (c is Some ==> match refusal_verdict(e, f, c->Some_0@) {
                    Err(v) => r == Err::<Outcome, DispatchError>(DispatchError::Verify(v)) && unchanged,
                    Ok(()) => {
                        &&& r == Ok::<Outcome, DispatchError>(Outcome::RefusalApplied)
                        &&& refusal_table_after(before, after, f.intent_id)
                        &&& (exists|k: int| 0 <= k < before.len() && (#[trigger] before[k]).is_pending_for(f.intent_id))
                            ==> exists|id: &[u8]| id@ == f.intent_id && #[trigger] call_ensures(on_rejected, (id,), ())
                    },
                })
            },
    }
}

/// An admission's result as a dispatch outcome.
pub open spec fn as_admitted(x: Result<(), DispatchError>) -> Result<Outcome, DispatchError> {
    match x {
        Ok(()) => Ok(Outcome::IntentAdmitted),
        Err(e) => Err(e),
    }
}

/// The sender record an admitted intent leaves: its id, the envelope's
/// sender (zeros when not 32 bytes), and the action.
pub open spec fn sender_record_ok(r: SenderEntry, e: EnvelopeModel, id: Seq<u8>, action: Seq<u8>) -> bool {
    &&& r.intent_id@ == id
    &&& r.sender@ == if e.sender.len() == 32 {
        e.sender
    } else {
        Seq::new(32, |k: int| 0u8)
    }
    &&& r.action_len == action.len()
    &&& r.action_bytes() == action
}

impl<'a> Dispatch<'a> {
    /// The tables a dispatch works on are consistent.
    pub open spec fn ready(&self) -> bool {
        &&& self.resolver.wf()
        &&& self.intent_table.wf()
        &&& forall|i: int|
            0 <= i < self.sender_table.entries@.len()
                ==> (#[trigger] self.sender_table.entries@[i]).action_len <= SENDER_MAX_ACTION
    }

    /// Parse, verify the envelope signature, route by body type.
    pub fn dispatch<E, C, J, R, A>(&mut self, env_bytes: &[u8], hooks: &Hooks<E, C, J, R, A>, now_ms: u64) -> (r: Result<Outcome, DispatchError>)
        where
            E: Fn(&Grant<'_>) -> EffectOutcome,
            C: Fn(&[u8]) -> Option<Cert<'a>>,
            J: Fn(&[u8]),
            R: Fn(&[u8]) -> bool,
            A: Fn(&[u8], u64, u64) -> bool,
        requires
            old(self).ready(),
            now_ms <= u64::MAX - 3_600_000,
            forall|g: &Grant<'_>| #[trigger] call_requires(hooks.execute_effect, (g,)),
            forall|k: &[u8]| #[trigger] call_requires(hooks.cert_for_sender, (k,)),
            forall|k: &[u8]| #[trigger] call_requires(hooks.on_rejected, (k,)),
            forall|k: &[u8]| #[trigger] call_requires(hooks.is_revoked, (k,)),
            forall|k: &[u8], x: u64, y: u64| #[trigger] call_requires(hooks.already_consumed, (k, x, y)),
        ensures
            final(self).ready(),
            final(self).resolver == old(self).resolver,
            old(self).intent_table.wf() ==> final(self).intent_table.wf(),
            match spec_parse_envelope(env_bytes@) {
                Err(_) => r == Err::<Outcome, DispatchError>(DispatchError::BadEnvelope)
                    && final(self).intent_table.entries@ == old(self).intent_table.entries@
                    && final(self).sender_table.entries@ == old(self).sender_table.entries@,
                Ok(e) => match spec_verify_signed_err(DOMAIN_ENVELOPE, e.tbs, e.sig, e.sender) {
                    Err(v) => r == Err::<Outcome, DispatchError>(DispatchError::Verify(v))
                        && final(self).intent_table.entries@ == old(self).intent_table.entries@
                        && final(self).sender_table.entries@ == old(self).sender_table.entries@,
                    Ok(()) => if e.body_type == BODY_INTENT {
                        r == as_admitted(intent_route(*old(self).resolver, old(self).intent_table.entries@, e.body))
                            && intent_table_after(
                            *old(self).resolver,
                            old(self).intent_table.entries@,
                            e.body,
                            final(self).intent_table.entries@,
                            now_ms,
                        ) && (r is Ok ==> exists|s: SenderEntry|
                            sender_record_ok(
                                s,
                                e,
                                spec_parse_intent(e.body)->Ok_0.intent_id,
                                spec_parse_intent(e.body)->Ok_0.action,
                            ) && final(self).sender_table.entries@ == old(
                                self,
                            ).sender_table.entries@.push(s))
                    } else if e.body_type == BODY_GRANT {
                        final(self).intent_table.entries@ == old(self).intent_table.entries@
                            && final(self).sender_table.entries@ == old(self).sender_table.entries@
                            && exists|s: &[u8]|
                            s@ == e.sender && #[trigger] grant_route(
                                hooks.execute_effect,
                                hooks.cert_for_sender,
                                old(self).own_pubkey@,
                                old(self).intent_table.entries@,
                                old(self).sender_table.entries@,
                                e,
                                s,
                                now_ms,
                                r,
                            )
                    } else if e.body_type == BODY_REFUSAL {
                        final(self).sender_table.entries@ == old(self).sender_table.entries@
                            && exists|s: &[u8]|
                            s@ == e.sender && #[trigger] refusal_route(
                                hooks.on_rejected,
                                hooks.cert_for_sender,
                                e,
                                s,
                                r,
                                old(self).intent_table.entries@,
                                final(self).intent_table.entries@,
                            )
                    } else {
                        final(self).intent_table.entries@ == old(self).intent_table.entries@
                            && final(self).sender_table.entries@ == old(self).sender_table.entries@
                            && r == if e.body_type == BODY_UTTERANCE {
                            Ok::<Outcome, DispatchError>(Outcome::Utterance)
                        } else if e.body_type == BODY_EFFECT {
                            Ok::<Outcome, DispatchError>(Outcome::Effect)
                        } else if e.body_type == BODY_CONTROL {
                            Ok::<Outcome, DispatchError>(Outcome::Control)
                        } else {
                            Err::<Outcome, DispatchError>(DispatchError::UnsupportedBody)
                        }
                    },
                },
            },
    {
        // 1. Parse the envelope.
        let env = match parse_envelope(env_bytes) {
            Ok(e) => e,
            Err(_) => return Err(DispatchError::BadEnvelope),
        };
        // 2. Verify its signature.
        match verify_envelope(&env) {
            Ok(()) => {},
            Err(v) => return Err(DispatchError::Verify(v)),
        }
        // 3. Route by body type.
        if env.body_type == BODY_INTENT {
            self.dispatch_intent(&env, now_ms)
        } else if env.body_type == BODY_GRANT {
            self.dispatch_grant(&env, hooks, now_ms)
        } else if env.body_type == BODY_REFUSAL {
            self.dispatch_refusal(&env, hooks, now_ms)
        } else if env.body_type == BODY_UTTERANCE {
            Ok(Outcome::Utterance)
        } else if env.body_type == BODY_EFFECT {
            Ok(Outcome::Effect)
        } else if env.body_type == BODY_CONTROL {
            Ok(Outcome::Control)
        } else {
            Err(DispatchError::UnsupportedBody)
        }
    }

    /// Resolve the resource and admit before recording the sender.
    fn dispatch_intent(&mut self, env: &Envelope<'_>, now_ms: u64) -> (r: Result<Outcome, DispatchError>)
        requires
            old(self).ready(),
        ensures
            final(self).ready(),
            final(self).resolver == old(self).resolver,
            old(self).intent_table.wf() ==> final(self).intent_table.wf(),
            r == as_admitted(intent_route(*old(self).resolver, old(self).intent_table.entries@, env.body@)),
            r is Ok ==> exists|s: SenderEntry|
                sender_record_ok(
                    s,
                    env@,
                    spec_parse_intent(env.body@)->Ok_0.intent_id,
                    spec_parse_intent(env.body@)->Ok_0.action,
                ) && final(self).sender_table.entries@ == old(self).sender_table.entries@.push(s),
            r is Err ==> final(self).sender_table.entries@ == old(self).sender_table.entries@,
            intent_table_after(
                *old(self).resolver,
                old(self).intent_table.entries@,
                env.body@,
                final(self).intent_table.entries@,
                now_ms,
            ),
    {
        let intent = match parse_intent(env.body) {
            Ok(i) => i,
            Err(_) => return Err(DispatchError::BadBody),
        };
        if intent.intent_id.len() != intent::LEN_INTENT_ID {
            return Err(DispatchError::BadBody);
        }
        let mut intent_id_arr: [u8; 16] = [0u8;16];
        let mut k: usize = 0;
        while k < 16
            invariant
                intent.intent_id@.len() == 16,
                k <= 16,
                forall|j: int| 0 <= j < k ==> intent_id_arr@[j] == intent.intent_id@[j],
            decreases 16 - k,
        {
            intent_id_arr[k] = intent.intent_id[k];
            k = k + 1;
        }
        assert(intent_id_arr@ =~= intent.intent_id@);
        // Resolve the resource to its canonical form before admitting.
        match self.resolver.resolve_and_admit(self.intent_table, &intent_id_arr, intent.resource_id, now_ms) {
            Ok(()) => {},
            Err(e) => return Err(DispatchError::Resolve(e)),
        }
        // Record the sender for the grant's later checks.
        if intent.action.len() > MAX_ACTION {
            return Err(DispatchError::ActionTooLarge);
        }
        let mut action_buf = [0u8;512];
        let mut a: usize = 0;
        while a < intent.action.len()
            invariant
                intent.action@.len() <= MAX_ACTION,
                a <= intent.action@.len(),
                forall|j: int| 0 <= j < a ==> action_buf@[j] == intent.action@[j],
            decreases intent.action@.len() - a,
        {
            action_buf[a] = intent.action[a];
            a = a + 1;
        }
        assert(action_buf@.subrange(0, intent.action@.len() as int) =~= intent.action@);
        let mut sender_buf = [0u8;32];
        if env.sender.len() == 32 {
            let mut b: usize = 0;
            while b < 32
                invariant
                    env.sender@.len() == 32,
                    b <= 32,
                    forall|j: int| 0 <= j < b ==> sender_buf@[j] == env.sender@[j],
                decreases 32 - b,
            {
                sender_buf[b] = env.sender[b];
                b = b + 1;
            }
            assert(sender_buf@ =~= env.sender@);
        } else {
            assert(sender_buf@ =~= Seq::new(32, |k: int| 0u8));
        }
        let rec = SenderEntry {
            intent_id: intent_id_arr,
            sender: sender_buf,
            action: action_buf,
            action_len: intent.action.len(),
        };
        self.sender_table.entries.push(rec);
        Ok(Outcome::IntentAdmitted)
    }

    /// Verify the grant with the sender's cert as approver and subject, and
    /// run the effect inside the verification.
    fn dispatch_grant<E, C, J, R, A>(&mut self, env: &Envelope<'_>, hooks: &Hooks<E, C, J, R, A>, now_ms: u64) -> (r: Result<Outcome, DispatchError>)
        where
            E: Fn(&Grant<'_>) -> EffectOutcome,
            C: Fn(&[u8]) -> Option<Cert<'a>>,
            R: Fn(&[u8]) -> bool,
            A: Fn(&[u8], u64, u64) -> bool,
        requires
            old(self).ready(),
            now_ms <= u64::MAX - 3_600_000,
            forall|g: &Grant<'_>| #[trigger] call_requires(hooks.execute_effect, (g,)),
            forall|k: &[u8]| #[trigger] call_requires(hooks.cert_for_sender, (k,)),
            forall|k: &[u8]| #[trigger] call_requires(hooks.is_revoked, (k,)),
            forall|k: &[u8], x: u64, y: u64| #[trigger] call_requires(hooks.already_consumed, (k, x, y)),
        ensures
            *final(self) == *old(self),
            grant_route(
                hooks.execute_effect,
                hooks.cert_for_sender,
                old(self).own_pubkey@,
                old(self).intent_table.entries@,
                old(self).sender_table.entries@,
                env@,
                env.sender,
                now_ms,
                r,
            ),
    {
        let grant = match parse_grant(env.body) {
            Ok(g) => g,
            Err(_) => return Err(DispatchError::BadBody),
        };
        // The sender's cert, for the chain checks.
        let sender_cert = (hooks.cert_for_sender)(env.sender);
        let cert = match sender_cert {
            Some(c) => c,
            None => return Err(DispatchError::UnknownSender),
        };
        let ctx = GrantContext {
            own_pubkey: self.own_pubkey,
            approver_cert: cert,
            subject_cert: cert,
            trusted_ca_keys: self.trusted_ca_keys,
            intent_table: &*self.intent_table,
            sender_table: &*self.sender_table,
            now_ms,
            first_receipt_ms: now_ms,
            t_max_s: T_MAX_S_DEFAULT,
            t_recv_s: T_RECV_S_DEFAULT,
            already_consumed: &hooks.already_consumed,
            is_revoked: &hooks.is_revoked,
        };
        let res = verify_grant_then(env, &grant, &ctx, &hooks.execute_effect);
        let r = match res {
            Ok(EffectOutcome::Fired) => Ok(Outcome::GrantExecuted),
            Ok(EffectOutcome::Refused) => Ok(Outcome::EffectRefused),
            Err(v) => Err(DispatchError::Verify(v)),
        };
        proof {
            let (ra, rs, co) = choose|ra: bool, rs: bool, consumed: bool|
                {
                    &&& (ctx.verdict(env@, grant@, ra, rs, true) is Ok ==> call_ensures(
                        ctx.already_consumed,
                        (grant.grant_id, grant.not_after, ctx.now_ms),
                        consumed,
                    ))
                    &&& match res {
                        Ok(o) => #[trigger] ctx.verdict(env@, grant@, ra, rs, consumed) is Ok
                            && call_ensures(&hooks.execute_effect, (&grant,), o),
                        Err(e) => ctx.verdict(env@, grant@, ra, rs, consumed) == Err::<(), VerifyError>(e),
                    }
                };
            assert(grant@ == spec_parse_grant(env.body@)->Ok_0);
            assert(ctx.verdict(env@, grant@, ra, rs, co) == grant_verdict(
                env@,
                spec_parse_grant(env.body@)->Ok_0,
                old(self).own_pubkey@,
                sender_cert->Some_0@,
                sender_cert->Some_0@,
                old(self).intent_table.entries@,
                old(self).sender_table.entries@,
                now_ms,
                now_ms,
                T_MAX_S_DEFAULT,
                T_RECV_S_DEFAULT,
                ra,
                rs,
                co,
            ));
            if let Ok(o) = res {
                assert(call_ensures(hooks.execute_effect, (&grant,), o));
            }
        }
        r
    }

    /// Verify the refusal with the sender's cert as approver; a matching
    /// PENDING intent is rejected.
    fn dispatch_refusal<E, C, J, R, A>(&mut self, env: &Envelope<'_>, hooks: &Hooks<E, C, J, R, A>, now_ms: u64) -> (r: Result<Outcome, DispatchError>)
        where
            C: Fn(&[u8]) -> Option<Cert<'a>>,
            J: Fn(&[u8]),
        requires
            old(self).ready(),
            forall|k: &[u8]| #[trigger] call_requires(hooks.cert_for_sender, (k,)),
            forall|k: &[u8]| #[trigger] call_requires(hooks.on_rejected, (k,)),
        ensures
            final(self).ready(),
            final(self).resolver == old(self).resolver,
            final(self).sender_table.entries@ == old(self).sender_table.entries@,
            old(self).intent_table.wf() ==> final(self).intent_table.wf(),
            refusal_route(
                hooks.on_rejected,
                hooks.cert_for_sender,
                env@,
                env.sender,
                r,
                old(self).intent_table.entries@,
                final(self).intent_table.entries@,
            ),
    {
        let refusal = match parse_refusal(env.body) {
            Ok(f) => f,
            Err(_) => return Err(DispatchError::BadBody),
        };
        let found = (hooks.cert_for_sender)(env.sender);
        let approver_cert = match found {
            Some(c) => c,
            None => return Err(DispatchError::UnknownSender),
        };
        let table_ref = &mut *self.intent_table;
        let mut ctx = RefusalContext {
            trusted_ca_keys: self.trusted_ca_keys,
            approver_cert,
            now_ms,
            intent_table: table_ref,
        };
        let res = verify_refusal_then(env, &refusal, &mut ctx, &hooks.on_rejected);
        match res {
            Ok(()) => Ok(Outcome::RefusalApplied),
            Err(v) => Err(DispatchError::Verify(v)),
        }
    }
}

// --- the durable ledger seam ----------------------------------------------------------

/// A grant consumed in the durable ledger whose effect was never published.
/// Recovered at startup; tombstoned when the effect is later refused.
#[derive(Debug, Clone)]
pub struct Orphan {
    pub grant_id: [u8; 16],
    pub seq: u64,
}

/// Opens the durable consumed-grant ledger and copies recovered orphans to
/// the caller's list. The recovery itself lives in `state::ledger`; this
/// seam reports a clean start.
pub fn init_durable_ledger(path: &str, orphan_out: &mut Vec<Orphan>) -> (r: Result<usize, DispatchError>)
    ensures
        r == Ok::<usize, DispatchError>(0),
        final(orphan_out)@ == old(orphan_out)@,
{
    Ok(0)
}

/// Closes the durable ledger; the flush lives in `state::ledger`.
pub fn close_durable_ledger() {
}

/// Tombstones an orphan grant: consumed but refused, never recovered again.
/// The write goes through `state::ledger`; this seam accepts.
pub fn tombstone_orphan(grant_id: &[u8; 16]) -> (r: Result<(), DispatchError>)
    ensures
        r == Ok::<(), DispatchError>(()),
{
    Ok(())
}

/// Receives one event per dispatch outcome, after the state mutation
/// commits.
pub trait EventSink {
    fn publish(&mut self, tag: u8, seq: u64);
}

/// An event sink that drops every event.
pub struct NullEventSink;

impl EventSink for NullEventSink {
    fn publish(&mut self, tag: u8, seq: u64) {
    }
}

} // verus!
