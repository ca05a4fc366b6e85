//! Attestation verdicts: the receiver decides, by recomputing.
//!
//! A claim's confidence is never the sender's number. It is
//! min(stated, ceiling(strongest matching supporting span)), and the ceiling
//! is a function of how the span was observed (method_id), never a field the
//! producer chose. Three states are forced: Supported (a number), Unresolved
//! (no number, pending backfill), Unsupported (zero with a marker).

use vstd::prelude::*;
use crate::codec::{bytes_eq, spec_verify_signed, verify_signed, DOMAIN_SPAN, LEN_SPAN_REF};

verus! {

// --- evidence class: derived, never declared -------------------------------

#[derive(Debug, Clone, Copy, PartialEq, Eq, Structural)]
pub enum EvidenceClass {
    DirectObservation,  // method_id 1..4, ceiling 242
    ExpertTestimony,  // method_id 7, ceiling 216
    Documentation,  // method_id 5..6, ceiling 191
    Inference,  // method_id 8 and unknown, ceiling 165
}

pub open spec fn spec_class_of(method_id: u8) -> EvidenceClass {
    if 1 <= method_id <= 4 {
        EvidenceClass::DirectObservation
    } else if method_id == 5 || method_id == 6 {
        EvidenceClass::Documentation
    } else if method_id == 7 {
        EvidenceClass::ExpertTestimony
    } else {
        EvidenceClass::Inference
    }
}

/// The class of an observation method; an unknown method falls to the floor.
pub fn class_of(method_id: u8) -> (c: EvidenceClass)
    ensures
        c == spec_class_of(method_id),
{
    if 1 <= method_id && method_id <= 4 {
        EvidenceClass::DirectObservation
    } else if method_id == 5 || method_id == 6 {
        EvidenceClass::Documentation
    } else if method_id == 7 {
        EvidenceClass::ExpertTestimony
    } else {
        EvidenceClass::Inference
    }
}

pub open spec fn spec_ceiling_q8(class: EvidenceClass) -> u8 {
    match class {
        EvidenceClass::DirectObservation => 242,
        EvidenceClass::ExpertTestimony => 216,
        EvidenceClass::Documentation => 191,
        EvidenceClass::Inference => 165,
    }
}

/// The ceilings, in q8 fixed point (integers only).
pub fn ceiling_q8(class: EvidenceClass) -> (q: u8)
    ensures
        q == spec_ceiling_q8(class),
{
    match class {
        EvidenceClass::DirectObservation => 242,
        EvidenceClass::ExpertTestimony => 216,
        EvidenceClass::Documentation => 191,
        EvidenceClass::Inference => 165,
    }
}

/// Only volatility 2 means stable; everything else is volatile.
pub fn is_volatile(volatility: u8) -> (v: bool)
    ensures
        v == (volatility != 2),
{
    volatility != 2
}

/// The receiver's number: the stated confidence, capped by the ceiling of
/// the strongest support.
pub fn effective_confidence(stated_q8: u8, strongest_ceiling_q8: u8) -> (q: u8)
    ensures
        q == if stated_q8 <= strongest_ceiling_q8 {
            stated_q8
        } else {
            strongest_ceiling_q8
        },
{
    if stated_q8 <= strongest_ceiling_q8 {
        stated_q8
    } else {
        strongest_ceiling_q8
    }
}

// --- bounded piggyback --------------------------------------------------------

pub const MAX_UTTERANCE_CLAIMS: usize = 32;
pub const MAX_UTTERANCE_SPANS: usize = 64;

pub fn check_bounds(claim_count: usize, span_count: usize) -> (ok: bool)
    ensures
        ok == (claim_count <= MAX_UTTERANCE_CLAIMS && span_count <= MAX_UTTERANCE_SPANS),
{
    claim_count <= MAX_UTTERANCE_CLAIMS && span_count <= MAX_UTTERANCE_SPANS
}

// --- hooks: facts that depend on state this layer does not model -------------

#[derive(Debug, Clone, Copy, PartialEq, Eq, Structural)]
pub enum Role {
    NoRole,
    Executor,
}

#[derive(Debug, Clone, Copy, PartialEq, Eq, Structural)]
pub enum OriginState {
    Effect,
    Absent,
    NonEffect,
}

/// `role_of` answers the role a key's cert carries; `resolve_origin`
/// whether an origin names a committed Effect; `is_superseded` whether a
/// later span on the same resource supersedes this one as of the claim.
pub struct ResolveContext<A, B, C> {
    pub role_of: A,
    pub resolve_origin: B,
    pub is_superseded: C,
}

// --- three states, not two -----------------------------------------------------

#[derive(Debug, Clone, Copy)]
pub struct ResolutionRecord {
    pub cited: usize,
    pub inline_spans: usize,
    pub supportable: usize,
    pub subject_matched: usize,
    pub superseded: usize,
    pub unresolved: usize,
    pub non_effect: usize,
}

impl ResolutionRecord {
    pub open spec fn zero() -> ResolutionRecord {
        ResolutionRecord {
            cited: 0,
            inline_spans: 0,
            supportable: 0,
            subject_matched: 0,
            superseded: 0,
            unresolved: 0,
            non_effect: 0,
        }
    }
}

impl Default for ResolutionRecord {
    fn default() -> (r: Self)
        ensures
            r == ResolutionRecord::zero(),
    {
        ResolutionRecord {
            cited: 0,
            inline_spans: 0,
            supportable: 0,
            subject_matched: 0,
            superseded: 0,
            unresolved: 0,
            non_effect: 0,
        }
    }
}

#[derive(Debug, Clone, Copy)]
pub struct Supported {
    pub effective_q8: u8,
    pub pending_stronger: bool,
    pub record: ResolutionRecord,
}

#[derive(Debug, Clone, Copy)]
pub enum ClaimState {
    Supported(Supported),
    Unresolved(ResolutionRecord),
    Unsupported(ResolutionRecord),
}

// --- parsed views for the resolve walk ------------------------------------------

pub struct Span<'a> {
    pub span_id: &'a [u8],
    pub tbs: &'a [u8],
    pub sig: &'a [u8],
    pub executor: &'a [u8],
    pub resource_id: &'a [u8],
    pub origin: &'a [u8],
    pub volatility: u8,
    pub method_id: u8,
}

pub struct Claim<'a> {
    pub span_ids: &'a [u8],  // packed span references
    pub span_count: usize,
    pub subject: &'a [u8],
    pub confidence_q8: u8,
}

// --- the receiver's recomputation for one claim -----------------------------------

/// Index of the first inline span with the given id.
pub open spec fn spec_match_span<'a>(spans: Seq<Span<'a>>, sid: Seq<u8>) -> Option<int> {
    if exists|j: int|
        0 <= j < spans.len() && (#[trigger] spans[j]).span_id@ == sid && forall|k: int|
            0 <= k < j ==> (#[trigger] spans[k]).span_id@ != sid {
        Some(
            choose|j: int|
                0 <= j < spans.len() && (#[trigger] spans[j]).span_id@ == sid && forall|k: int|
                    0 <= k < j ==> (#[trigger] spans[k]).span_id@ != sid,
        )
    } else {
        None
    }
}

fn match_span<'a>(spans: &'a [Span<'a>], span_id: &[u8]) -> (r: Option<usize>)
    ensures
        match spec_match_span(spans@, span_id@) {
            Some(j) => r == Some(j as usize),
            None => r is None,
        },
{
    let mut j: usize = 0;
    while j < spans.len()
        invariant
            j <= spans@.len(),
            forall|k: int| 0 <= k < j ==> (#[trigger] spans@[k]).span_id@ != span_id@,
        decreases spans@.len() - j,
    {
        if bytes_eq(spans[j].span_id, span_id) {
            proof {
                let c = choose|x: int|
                    0 <= x < spans@.len() && (#[trigger] spans@[x]).span_id@ == span_id@ && forall|
                        k: int,
                    | 0 <= k < x ==> (#[trigger] spans@[k]).span_id@ != span_id@;
                if c > j {
                    assert(spans@[j as int].span_id@ == span_id@);
                }
            }
            return Some(j);
        }
        j = j + 1;
    }
    None
}

/// What the hooks answered while one cited span was examined. A hook that
/// was not consulted leaves its slot unconstrained.
pub struct Answer {
    pub role: Role,
    pub origin: OriginState,
    pub superseded: bool,
}

/// The running tally: the record, the strongest ceiling seen, and whether
/// some support is still unresolved.
pub open spec fn tally_start() -> (ResolutionRecord, u8, bool) {
    (ResolutionRecord::zero(), 0u8, false)
}

/// The cited span reference `i` of a claim.
pub open spec fn cited_ref(span_ids: Seq<u8>, i: int) -> Seq<u8> {
    span_ids.subrange(i * 16, i * 16 + 16)
}

/// The inline span that cited reference `i` names and that is supportable:
/// its signature verifies against its executor (the role hook is asked next).
pub open spec fn sig_ok<'a>(s: Span<'a>) -> bool {
    spec_verify_signed(DOMAIN_SPAN, s.tbs@, s.sig@, s.executor@)
}

/// One cited reference folded into the tally.
pub open spec fn cite_step<'a>(
    t: (ResolutionRecord, u8, bool),
    span_ids: Seq<u8>,
    subject: Seq<u8>,
    spans: Seq<Span<'a>>,
    i: int,
    a: Answer,
) -> (ResolutionRecord, u8, bool) {
    let (rec, strongest, unres) = t;
    let rec1 = ResolutionRecord { cited: (rec.cited + 1) as usize, ..rec };
    match spec_match_span(spans, cited_ref(span_ids, i)) {
        None => (rec1, strongest, unres),
        Some(j) => {
            let s = spans[j];
            let rec2 = ResolutionRecord { inline_spans: (rec.inline_spans + 1) as usize, ..rec1 };
            if !sig_ok(s) || a.role != Role::Executor {
                (rec2, strongest, unres)
            } else {
                let rec3 = ResolutionRecord { supportable: (rec.supportable + 1) as usize, ..rec2 };
                if s.resource_id@ != subject {
                    (rec3, strongest, unres)
                } else {
                    let rec4 = ResolutionRecord {
                        subject_matched: (rec.subject_matched + 1) as usize,
                        ..rec3
                    };
                    match a.origin {
                        OriginState::Effect => {
                            if s.volatility != 2 && a.superseded {
                                (
                                    ResolutionRecord {
                                        superseded: (rec.superseded + 1) as usize,
                                        ..rec4
                                    },
                                    strongest,
                                    unres,
                                )
                            } else {
                                let ceil = spec_ceiling_q8(spec_class_of(s.method_id));
                                (rec4, if ceil > strongest {
                                    ceil
                                } else {
                                    strongest
                                }, unres)
                            }
                        },
                        OriginState::Absent => (
                            ResolutionRecord { unresolved: (rec.unresolved + 1) as usize, ..rec4 },
                            strongest,
                            true,
                        ),
                        OriginState::NonEffect => (
                            ResolutionRecord { non_effect: (rec.non_effect + 1) as usize, ..rec4 },
                            strongest,
                            unres,
                        ),
                    }
                }
            }
        },
    }
}

/// The tally after the first `k` cited references.
pub open spec fn tally_upto<'a>(span_ids: Seq<u8>, subject: Seq<u8>, spans: Seq<Span<'a>>, ans: Seq<Answer>, k: int) -> (ResolutionRecord, u8, bool)
    decreases k,
{
    if k <= 0 {
        tally_start()
    } else {
        cite_step(
            tally_upto(span_ids, subject, spans, ans, k - 1),
            span_ids,
            subject,
            spans,
            k - 1,
            ans[k - 1],
        )
    }
}

/// How many cited references fit in the packed reference bytes.
pub open spec fn walked<'a>(c: Claim<'a>) -> int {
    if c.span_count <= (c.span_ids@.len() / 16) as int {
        c.span_count as int
    } else {
        (c.span_ids@.len() / 16) as int
    }
}

/// The verdict a final tally gives.
pub open spec fn verdict_of(confidence_q8: u8, t: (ResolutionRecord, u8, bool)) -> ClaimState {
    let (rec, strongest, unres) = t;
    if strongest > 0 {
        ClaimState::Supported(
            Supported {
                effective_q8: if confidence_q8 <= strongest {
                    confidence_q8
                } else {
                    strongest
                },
                pending_stronger: unres,
                record: rec,
            },
        )
    } else if unres {
        ClaimState::Unresolved(rec)
    } else {
        ClaimState::Unsupported(rec)
    }
}

/// The verdict for a claim given the hooks' answers: the tally over the
/// references that fit, plus one more `cited` when a reference runs past
/// the packed bytes (the walk stops there).
pub open spec fn claim_verdict<'a>(c: Claim<'a>, spans: Seq<Span<'a>>, ans: Seq<Answer>) -> ClaimState {
    let t = tally_upto(c.span_ids@, c.subject@, spans, ans, walked(c));
    if walked(c) < c.span_count {
        verdict_of(
            c.confidence_q8,
            (ResolutionRecord { cited: (t.0.cited + 1) as usize, ..t.0 }, t.1, t.2),
        )
    } else {
        verdict_of(c.confidence_q8, t)
    }
}

/// The hooks' answers for reference `i` are what the hooks returned, for
/// each hook the walk consulted.
pub open spec fn answers_heard<'a, A, B, C>(
    ctx: ResolveContext<A, B, C>,
    c: Claim<'a>,
    spans: Seq<Span<'a>>,
    claim_envelope: &[u8],
    i: int,
    a: Answer,
) -> bool where A: Fn(&[u8]) -> Role, B: Fn(&[u8]) -> OriginState, C: Fn(&[u8], &[u8], &[u8]) -> bool {
    match spec_match_span(spans, cited_ref(c.span_ids@, i)) {
        None => true,
        Some(j) => {
            let s = spans[j];
            &&& sig_ok(s) ==> call_ensures(ctx.role_of, (s.executor,), a.role)
            &&& (sig_ok(s) && a.role == Role::Executor && s.resource_id@ == c.subject@)
                ==> call_ensures(ctx.resolve_origin, (s.origin,), a.origin)
            &&& (sig_ok(s) && a.role == Role::Executor && s.resource_id@ == c.subject@ && a.origin
                == OriginState::Effect && s.volatility != 2) ==> call_ensures(
                ctx.is_superseded,
                (s.resource_id, s.origin, claim_envelope),
                a.superseded,
            )
        },
    }
}

fn span_supportable<A, B, C>(span: &Span<'_>, ctx: &ResolveContext<A, B, C>) -> (r: (bool, Ghost<Role>))
    where
        A: Fn(&[u8]) -> Role,
    requires
        forall|k: &[u8]| #[trigger] call_requires(ctx.role_of, (k,)),
    ensures
        r.0 == (sig_ok(*span) && r.1@ == Role::Executor),
        sig_ok(*span) ==> call_ensures(ctx.role_of, (span.executor,), r.1@),
{
    // The signature verifies against the executor.
    if !verify_signed(DOMAIN_SPAN, span.tbs, span.sig, span.executor) {
        return (false, Ghost(Role::NoRole));
    }
    // The executor's cert carries the executor role.
    let role = (ctx.role_of)(span.executor);
    (role == Role::Executor, Ghost(role))
}

/// The receiver's recomputation for one claim. Each cited reference that
/// names an inline span is counted through the conjuncts it passes:
/// signature and executor role, subject match, then the origin's state;
/// a volatile span whose origin is an Effect may be superseded.
pub fn resolve_claim<A, B, C>(
    claim: &Claim<'_>,
    spans: &[Span<'_>],
    ctx: &ResolveContext<A, B, C>,
    claim_envelope: &[u8],
) -> (r: ClaimState)
    where
        A: Fn(&[u8]) -> Role,
        B: Fn(&[u8]) -> OriginState,
        C: Fn(&[u8], &[u8], &[u8]) -> bool,
    requires
        forall|k: &[u8]| #[trigger] call_requires(ctx.role_of, (k,)),
        forall|k: &[u8]| #[trigger] call_requires(ctx.resolve_origin, (k,)),
        forall|x: &[u8], y: &[u8], z: &[u8]| #[trigger] call_requires(ctx.is_superseded, (x, y, z)),
    ensures
        exists|ans: Seq<Answer>|
            ans.len() == walked(*claim) && (forall|i: int|
                0 <= i < ans.len() ==> answers_heard(*ctx, *claim, spans@, claim_envelope, i, #[trigger] ans[i]))
                && r == #[trigger] claim_verdict(*claim, spans@, ans),
{
    let mut rec = ResolutionRecord::default();
    let mut strongest_ceiling: u8 = 0;
    let mut has_unresolved = false;
    let ghost mut ans: Seq<Answer> = Seq::empty();
    let mut i: usize = 0;
    let mut stopped = false;
    while i < claim.span_count && !stopped
        invariant
            i <= claim.span_count,
            !stopped ==> i * 16 <= claim.span_ids@.len(),
            !stopped ==> i as int <= walked(*claim),
            stopped ==> i as int == walked(*claim) + 1 && walked(*claim) < claim.span_count,
            ans.len() == if stopped {
                walked(*claim)
            } else {
                i as int
            },
            forall|k: int|
                0 <= k < ans.len() ==> answers_heard(*ctx, *claim, spans@, claim_envelope, k, #[trigger] ans[k]),
            !stopped ==> (rec, strongest_ceiling, has_unresolved) == tally_upto(
                claim.span_ids@,
                claim.subject@,
                spans@,
                ans,
                i as int,
            ),
            stopped ==> {
                let t = tally_upto(claim.span_ids@, claim.subject@, spans@, ans, walked(*claim));
                (rec, strongest_ceiling, has_unresolved) == (
                    ResolutionRecord { cited: (t.0.cited + 1) as usize, ..t.0 },
                    t.1,
                    t.2,
                )
            },
            rec.cited <= i && rec.inline_spans <= i && rec.supportable <= i && rec.subject_matched
                <= i && rec.superseded <= i && rec.unresolved <= i && rec.non_effect <= i,
            forall|x: &[u8]| #[trigger] call_requires(ctx.role_of, (x,)),
            forall|x: &[u8]| #[trigger] call_requires(ctx.resolve_origin, (x,)),
            forall|x: &[u8], y: &[u8], z: &[u8]| #[trigger] call_requires(ctx.is_superseded, (x, y, z)),
        decreases claim.span_count - i,
    {
        let ghost t0 = (rec, strongest_ceiling, has_unresolved);
        rec.cited = rec.cited + 1;
        let n_ids = claim.span_ids.len();
        assert(i * 16 <= n_ids);
        let start: usize = i * 16;
        if claim.span_ids.len() - start < LEN_SPAN_REF {
            proof {
                assert(walked(*claim) == i);
            }
            stopped = true;
        } else {
        let end = start + LEN_SPAN_REF;
        let sid = &claim.span_ids[start..end];
        assert(sid@ =~= cited_ref(claim.span_ids@, i as int));
        let ghost mut a = Answer { role: Role::NoRole, origin: OriginState::NonEffect, superseded: false };
        match match_span(spans, sid) {
            None => {},
            Some(j) => {
                let span = &spans[j];
                rec.inline_spans = rec.inline_spans + 1;
                let (ok, Ghost(role)) = span_supportable(span, ctx);
                proof {
                    a = Answer { role: role, ..a };
                }
                if ok {
                    rec.supportable = rec.supportable + 1;
                    if bytes_eq(span.resource_id, claim.subject) {
                        rec.subject_matched = rec.subject_matched + 1;
                        let origin = (ctx.resolve_origin)(span.origin);
                        proof {
                            a = Answer { origin: origin, ..a };
                        }
                        match origin {
                            OriginState::Effect => {
                                let mut sup = false;
                                if is_volatile(span.volatility) {
                                    sup = (ctx.is_superseded)(span.resource_id, span.origin, claim_envelope);
                                    proof {
                                        a = Answer { superseded: sup, ..a };
                                    }
                                }
                                if sup {
                                    rec.superseded = rec.superseded + 1;
                                } else {
                                    let ceil = ceiling_q8(class_of(span.method_id));
                                    if ceil > strongest_ceiling {
                                        strongest_ceiling = ceil;
                                    }
                                }
                            },
                            OriginState::Absent => {
                                rec.unresolved = rec.unresolved + 1;
                                has_unresolved = true;
                            },
                            OriginState::NonEffect => {
                                rec.non_effect = rec.non_effect + 1;
                            },
                        }
                    }
                }
            },
        }
        proof {
            assert(answers_heard(*ctx, *claim, spans@, claim_envelope, i as int, a));
            assert((rec, strongest_ceiling, has_unresolved) == cite_step(
                t0,
                claim.span_ids@,
                claim.subject@,
                spans@,
                i as int,
                a,
            ));
            let ans0 = ans;
            ans = ans.push(a);
            assert forall|k: int| 0 <= k <= i implies tally_upto(
                claim.span_ids@,
                claim.subject@,
                spans@,
                ans,
                k,
            ) == tally_upto(claim.span_ids@, claim.subject@, spans@, ans0, k) by {
                lemma_tally_prefix(claim.span_ids@, claim.subject@, spans@, ans0, ans, k);
            }
        }
        }
        i = i + 1;
    }
    proof {
        if !stopped {
            assert(i == claim.span_count);
            assert(i as int == walked(*claim));
        }
    }
    let res = if strongest_ceiling > 0 {
        ClaimState::Supported(
            Supported {
                effective_q8: effective_confidence(claim.confidence_q8, strongest_ceiling),
                pending_stronger: has_unresolved,
                record: rec,
            },
        )
    } else if has_unresolved {
        ClaimState::Unresolved(rec)
    } else {
        ClaimState::Unsupported(rec)
    };
    assert(res == claim_verdict(*claim, spans@, ans));
    res
}

/// The tally over a prefix depends only on the answers in that prefix.
proof fn lemma_tally_prefix<'a>(span_ids: Seq<u8>, subject: Seq<u8>, spans: Seq<Span<'a>>, a: Seq<Answer>, b: Seq<Answer>, k: int)
    requires
        0 <= k <= a.len(),
        a.len() <= b.len(),
        forall|j: int| 0 <= j < a.len() ==> a[j] == b[j],
    ensures
        tally_upto(span_ids, subject, spans, a, k) == tally_upto(span_ids, subject, spans, b, k),
    decreases k,
{
    if k > 0 {
        lemma_tally_prefix(span_ids, subject, spans, a, b, k - 1);
    }
}

/// The classes of the observation methods: direct observation exactly for
/// methods 1 to 4, documentation exactly for 5 and 6, expert testimony
/// exactly for 7, and inference for 8 and every unknown method.
pub proof fn lemma_class_of_methods(method_id: u8)
    ensures
        (spec_class_of(method_id) == EvidenceClass::DirectObservation) <==> (1 <= method_id && method_id <= 4),
        (spec_class_of(method_id) == EvidenceClass::Documentation) <==> (method_id == 5 || method_id == 6),
        (spec_class_of(method_id) == EvidenceClass::ExpertTestimony) <==> method_id == 7,
        (spec_class_of(method_id) == EvidenceClass::Inference) <==> (method_id == 0 || method_id >= 8),
{
}

} // verus!
