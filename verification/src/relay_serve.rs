//! The relay role's datagram classifier and its recipient address table.
//! The sender gate (an established session) is the caller's, and runs
//! before any of this.

use vstd::prelude::*;
use crate::transport::relay_store;

verus! {

pub const MAX_SA_LEN: usize = 28;
pub const MAX_ENDPOINTS: usize = 128;
pub const MAX_DRAIN_BATCH: usize = relay_store::MAX_PER_RECIPIENT;

pub const MSG_RELAY_ROUTE: u8 = 0x10;
pub const MSG_RELAY_REGISTRATION: u8 = 0x11;

pub const MSG_HANDSHAKE_INIT: u8 = 1;
pub const MSG_HANDSHAKE_RESP: u8 = 2;
pub const MSG_HANDSHAKE_DATA: u8 = 3;

/// The six outcomes of serving a datagram.
#[derive(Debug, Clone, Copy, PartialEq, Eq, Structural)]
pub enum ServeResult {
    /// A handshake message (types 1, 2, 3): to the handshake handler.
    ToHandshake,
    /// Forwarded live to a registered recipient.
    Forwarded,
    /// The recipient is not registered: stored for a later drain.
    Stored,
    /// A registration, with the stored queue drained.
    Registered,
    /// A drain batch delivered to a registered recipient.
    Drained,
    /// Unknown type, or empty: dropped without service.
    Dropped,
}

/// A recipient's socket address: the first `addr_len` bytes of `addr`.
#[derive(Clone)]
pub struct Endpoint {
    pub addr: [u8; MAX_SA_LEN],
    pub addr_len: u8,
    pub active: bool,
}

/// Recipient addresses by index.
pub struct EndpointMap {
    entries: Vec<Option<Endpoint>>,
}

impl EndpointMap {
    pub closed spec fn slots(&self) -> Seq<Option<Endpoint>> {
        self.entries@
    }

    pub open spec fn wf(&self) -> bool {
        self.slots().len() == MAX_ENDPOINTS
    }

    /// The active endpoint at `index`, if any.
    pub open spec fn endpoint_at(&self, index: int) -> Option<Endpoint> {
        if 0 <= index < MAX_ENDPOINTS && self.slots()[index] is Some && self.slots()[index]->Some_0.active {
            self.slots()[index]
        } else {
            None
        }
    }

    pub fn new() -> (m: Self)
        ensures
            m.wf(),
            forall|i: int| 0 <= i < MAX_ENDPOINTS ==> #[trigger] m.slots()[i] is None,
    {
        let mut entries: Vec<Option<Endpoint>> = Vec::new();
        while entries.len() < MAX_ENDPOINTS
            invariant
                entries@.len() <= MAX_ENDPOINTS,
                forall|i: int| 0 <= i < entries@.len() ==> #[trigger] entries@[i] is None,
            decreases MAX_ENDPOINTS - entries@.len(),
        {
            entries.push(None);
        }
        Self { entries }
    }

    /// Records the first `addr_len` bytes of `addr` as the active endpoint
    /// at `index`. Refused (false, nothing changed) for an index or a
    /// length out of range.
    pub fn put(&mut self, index: usize, addr: &[u8], addr_len: u8) -> (ok: bool)
        requires
            old(self).wf(),
            addr_len as usize <= MAX_SA_LEN ==> addr_len <= addr@.len(),
        ensures
            final(self).wf(),
            ok == (index < MAX_ENDPOINTS && addr_len as usize <= MAX_SA_LEN),
            !ok ==> final(self).slots() == old(self).slots(),
            ok ==> {
                &&& (final(self).slots()[index as int] matches Some(e) && e.active && e.addr_len == addr_len
                    && e.addr@.subrange(0, addr_len as int) == addr@.subrange(0, addr_len as int))
                &&& forall|j: int| 0 <= j < MAX_ENDPOINTS && j != index ==> final(self).slots()[j]
                    == old(self).slots()[j]
            },
    {
        if index >= MAX_ENDPOINTS || addr_len as usize > MAX_SA_LEN {
            return false;
        }
        let mut a: [u8; MAX_SA_LEN] = [0u8; 28];
        let n = addr_len as usize;
        let mut k: usize = 0;
        while k < n
            invariant
                n <= MAX_SA_LEN,
                n <= addr@.len(),
                a@.len() == MAX_SA_LEN,
                k <= n,
                forall|j: int| 0 <= j < k ==> a@[j] == addr@[j],
            decreases n - k,
        {
            a[k] = addr[k];
            k = k + 1;
        }
        assert(a@.subrange(0, n as int) =~= addr@.subrange(0, n as int));
        self.entries.set(index, Some(Endpoint { addr: a, addr_len, active: true }));
        true
    }

    /// The active endpoint at `index`.
    pub fn get(&self, index: usize) -> (r: Option<&Endpoint>)
        requires
            self.wf(),
        ensures
            match r {
                Some(e) => self.endpoint_at(index as int) == Some(*e),
                None => self.endpoint_at(index as int) is None,
            },
    {
        if index >= MAX_ENDPOINTS {
            return None;
        }
        match &self.entries[index] {
            Some(e) => if e.active {
                Some(e)
            } else {
                None
            },
            None => None,
        }
    }

    /// Forgets the endpoint at `index`; true when there was one.
    pub fn remove(&mut self, index: usize) -> (removed: bool)
        requires
            old(self).wf(),
        ensures
            final(self).wf(),
            removed == (index < MAX_ENDPOINTS && old(self).slots()[index as int] is Some),
            removed ==> final(self).slots() == old(self).slots().update(index as int, None),
            !removed ==> final(self).slots() == old(self).slots(),
    {
        if index >= MAX_ENDPOINTS {
            return false;
        }
        if self.entries[index].is_some() {
            self.entries.set(index, None);
            true
        } else {
            false
        }
    }
}

impl Default for EndpointMap {
    fn default() -> (m: Self)
        ensures
            m.wf(),
            forall|i: int| 0 <= i < MAX_ENDPOINTS ==> #[trigger] m.slots()[i] is None,
    {
        Self::new()
    }
}

/// The classification of a datagram by its first byte.
pub open spec fn classify_spec(dgram: Seq<u8>) -> ServeResult {
    if dgram.len() == 0 {
        ServeResult::Dropped
    } else if dgram[0] == MSG_HANDSHAKE_INIT || dgram[0] == MSG_HANDSHAKE_RESP || dgram[0]
        == MSG_HANDSHAKE_DATA {
        ServeResult::ToHandshake
    } else if dgram[0] == MSG_RELAY_ROUTE {
        ServeResult::Forwarded
    } else if dgram[0] == MSG_RELAY_REGISTRATION {
        ServeResult::Registered
    } else {
        ServeResult::Dropped
    }
}

/// Routes a datagram by its first byte: handshake types to the handshake
/// machinery, a route to the forward-or-store branch (reported as
/// `Forwarded`), a registration to `Registered`, anything else (or nothing)
/// is dropped.
pub fn classify_datagram(dgram: &[u8]) -> (r: ServeResult)
    ensures
        r == classify_spec(dgram@),
{
    if dgram.len() == 0 {
        return ServeResult::Dropped;
    }
    let t = dgram[0];
    if t == MSG_HANDSHAKE_INIT || t == MSG_HANDSHAKE_RESP || t == MSG_HANDSHAKE_DATA {
        ServeResult::ToHandshake
    } else if t == MSG_RELAY_ROUTE {
        ServeResult::Forwarded
    } else if t == MSG_RELAY_REGISTRATION {
        ServeResult::Registered
    } else {
        ServeResult::Dropped
    }
}

/// The forward-or-store decision for a route: `Forwarded` when the
/// recipient has an active endpoint, `Stored` otherwise.
pub fn classify_route(_dgram: &[u8], endpoints: &EndpointMap, recipient_index: usize) -> (r: ServeResult)
    requires
        endpoints.wf(),
    ensures
        r == if endpoints.endpoint_at(recipient_index as int) is Some {
            ServeResult::Forwarded
        } else {
            ServeResult::Stored
        },
{
    if endpoints.get(recipient_index).is_some() {
        ServeResult::Forwarded
    } else {
        ServeResult::Stored
    }
}

} // verus!
