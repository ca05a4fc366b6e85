//! The audit path, which reads no clock. A committed signature stays valid
//! after its certificate expires, but a certificate whose chain was never
//! sound was never valid. An envelope is historically valid when it
//! descends from its sender's anchor and not from the sender's revocation:
//! revocation is immediate for admission, and positioned causally for
//! audit.

use vstd::prelude::*;
use super::dag::{Dag, Node};

verus! {

#[derive(Debug, Clone, Copy, PartialEq, Eq, Structural)]
pub enum HistoricalError {
    NotDescendantOfAnchor,
    DescendantOfRevocation,
    AnchorNotFound,
    MalformedKey,
    BadCaSignature,
    UntrustedCa,
    /// Kept for a complete set: the audit path takes no time, so it never
    /// reports this.
    CertExpired,
    CertTooLongLived,
    RoleAgentApprover,
    RoleAgentExecutor,
    RoleApproverExecutor,
    ApproverNoQuorum,
}

/// What the audit needs: the sender's anchor and revocation, a no-clock
/// certificate check, and the causal graph.
pub struct AuditContext<'a, A, R, V> {
    pub get_anchor: &'a A,
    pub get_revoke_hash: &'a R,
    pub validate_cert_no_clock: &'a V,
    pub dag: &'a mut Dag,
}

/// The audit verdict, given what the certificate check, the anchor lookup
/// and the revocation lookup answered.
pub open spec fn historical_verdict(
    dag: Dag,
    env_hash: Seq<u8>,
    cert: Result<(), HistoricalError>,
    anchor: Option<Node>,
    revoke: Option<Node>,
) -> Result<(), HistoricalError> {
    match cert {
        Err(e) => Err(e),
        Ok(()) => match anchor {
            None => Err(HistoricalError::AnchorNotFound),
            Some(a) => if !dag.has_ancestor(a@, env_hash) {
                Err(HistoricalError::NotDescendantOfAnchor)
            } else {
                match revoke {
                    Some(v) => if dag.has_ancestor(v@, env_hash) {
                        Err(HistoricalError::DescendantOfRevocation)
                    } else {
                        Ok(())
                    },
                    None => Ok(()),
                }
            },
        },
    }
}

/// Whether an envelope was valid when it was committed: the certificate
/// checked structurally, then descent from the anchor, then no descent from
/// the revocation. The lookups are asked only as far as the checks go.
pub fn historical_validity<A, R, V>(
    env_hash: &Node,
    sender: &[u8; 32],
    sender_cert: &[u8],
    ctx: &mut AuditContext<'_, A, R, V>,
) -> (r: Result<(), HistoricalError>)
    where
        A: Fn(&[u8; 32]) -> Option<Node>,
        R: Fn(&[u8; 32]) -> Option<Node>,
        V: Fn(&[u8]) -> Result<(), HistoricalError>,
    requires
        old(ctx).dag.wf(),
        call_requires(*old(ctx).validate_cert_no_clock, (sender_cert,)),
        call_requires(*old(ctx).get_anchor, (sender,)),
        call_requires(*old(ctx).get_revoke_hash, (sender,)),
    ensures
        final(ctx).dag.wf(),
        final(ctx).dag.node_list() == old(ctx).dag.node_list(),
        final(ctx).dag.edges() == old(ctx).dag.edges(),
        exists|c: Result<(), HistoricalError>, a: Option<Node>, v: Option<Node>|
            #![trigger historical_verdict(*old(ctx).dag, env_hash@, c, a, v)]
            {
                &&& call_ensures(*old(ctx).validate_cert_no_clock, (sender_cert,), c)
                &&& (c is Ok ==> call_ensures(*old(ctx).get_anchor, (sender,), a))
                &&& (c is Ok && a is Some && old(ctx).dag.has_ancestor(a->Some_0@, env_hash@)
                    ==> call_ensures(*old(ctx).get_revoke_hash, (sender,), v))
                &&& r == historical_verdict(*old(ctx).dag, env_hash@, c, a, v)
            },
{
    let ghost d0 = *ctx.dag;
    let c = (ctx.validate_cert_no_clock)(sender_cert);
    if let Err(e) = c {
        assert(historical_verdict(d0, env_hash@, c, None, None) == Err::<(), HistoricalError>(e));
        return Err(e);
    }
    let a = (ctx.get_anchor)(sender);
    let anchor_hash = match a {
        Some(h) => h,
        None => {
            assert(historical_verdict(d0, env_hash@, c, a, None) is Err);
            return Err(HistoricalError::AnchorNotFound);
        },
    };
    if !ctx.dag.is_ancestor(&anchor_hash, env_hash) {
        assert(historical_verdict(d0, env_hash@, c, a, None) is Err);
        return Err(HistoricalError::NotDescendantOfAnchor);
    }
    let v = (ctx.get_revoke_hash)(sender);
    if let Some(revoke_hash) = v {
        if ctx.dag.is_ancestor(&revoke_hash, env_hash) {
            assert(historical_verdict(d0, env_hash@, c, a, v) is Err);
            return Err(HistoricalError::DescendantOfRevocation);
        }
    }
    assert(historical_verdict(d0, env_hash@, c, a, v) is Ok);
    Ok(())
}

} // verus!
