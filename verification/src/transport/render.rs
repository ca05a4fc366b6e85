//! The approval view a human is shown. Its digest is computed here from
//! exactly the action bytes the view carries, so no digest from the wire
//! can enter it, and any rationale is marked as untrusted agent text.

use vstd::prelude::*;
use crate::crypto;

verus! {

pub const LEN_ACTION_DIGEST: usize = 8;

/// The label every displayed rationale carries.
pub const RATIONALE_UNTRUSTED_LABEL: &'static str = "untrusted, agent-authored";

pub struct Rationale<'a> {
    pub text: &'a [u8],
    pub untrusted_label: &'static str,
}

pub struct ApprovalView<'a> {
    pub resource_id: &'a [u8],
    pub action: &'a [u8],
    pub action_digest: [u8; LEN_ACTION_DIGEST],
    pub rationale: Option<Rationale<'a>>,
}

/// The first eight bytes of BLAKE2s-256 of the action.
pub open spec fn view_digest(action: Seq<u8>) -> Seq<u8> {
    crypto::blake2s256_spec(action).subrange(0, LEN_ACTION_DIGEST as int)
}

fn action_digest(action: &[u8]) -> (d: [u8; LEN_ACTION_DIGEST])
    ensures
        d@ == view_digest(action@),
{
    let full = crypto::blake2s256(action);
    let mut out: [u8; LEN_ACTION_DIGEST] = [0u8; 8];
    let mut i: usize = 0;
    while i < LEN_ACTION_DIGEST
        invariant
            i <= LEN_ACTION_DIGEST,
            out@.len() == LEN_ACTION_DIGEST,
            full@.len() == 32,
            forall|k: int| 0 <= k < i ==> out@[k] == full@[k],
        decreases LEN_ACTION_DIGEST - i,
    {
        out[i] = full[i];
        i = i + 1;
    }
    assert(out@ =~= view_digest(action@));
    out
}

/// The view of an approval request: the canonical resource id and the
/// action as given, the digest of that action, and the rationale (if any)
/// under the untrusted label.
pub fn render_approval<'a>(
    canonical_resource_id: &'a [u8],
    action: &'a [u8],
    rationale: Option<&'a [u8]>,
) -> (v: ApprovalView<'a>)
    ensures
        v.resource_id@ == canonical_resource_id@,
        v.action@ == action@,
        v.action_digest@ == view_digest(action@),
        rationale is None ==> v.rationale is None,
        rationale matches Some(r) ==> v.rationale matches Some(x) && x.text@ == r@ && x.untrusted_label
            == RATIONALE_UNTRUSTED_LABEL,
{
    let r = match rationale {
        Some(t) => Some(Rationale { text: t, untrusted_label: RATIONALE_UNTRUSTED_LABEL }),
        None => None,
    };
    ApprovalView {
        resource_id: canonical_resource_id,
        action,
        action_digest: action_digest(action),
        rationale: r,
    }
}

} // verus!
