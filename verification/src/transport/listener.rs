//! The pre-authentication endpoint registry: one listener per address and
//! port, at most eight. The sockets themselves are opened by the program.

use vstd::prelude::*;
use crate::codec::bytes_eq;

verus! {

pub const MAX_ENDPOINTS: usize = 8;

#[derive(Debug, Clone, Copy, PartialEq, Eq, Structural)]
pub enum ListenError {
    EndpointBusy,
    FamilyMismatch,
    BindRefused,
    SocketFailed,
    RecvFailed,
}

#[derive(Debug, Clone, Copy, PartialEq, Eq, Structural)]
pub enum Family {
    Ipv4,
    Ipv6,
}

/// An endpoint: the first `addr_len` bytes of `addr` and a port.
pub struct Endpoint {
    pub addr: [u8; 16],
    pub addr_len: usize,
    pub port: u16,
}

impl Default for Endpoint {
    fn default() -> (e: Self)
        ensures
            e.addr_len == 0,
            e.port == 0,
    {
        Self { addr: [0u8; 16], addr_len: 0, port: 0 }
    }
}

pub open spec fn endpoint_view(e: Endpoint) -> (Seq<u8>, u16) {
    (e.addr@.subrange(0, e.addr_len as int), e.port)
}

pub struct EndpointRegistry {
    entries: Vec<Endpoint>,
    count: usize,
}

impl Default for EndpointRegistry {
    fn default() -> (r: Self)
        ensures
            r.wf(),
            r.claimed() == Seq::<(Seq<u8>, u16)>::empty(),
    {
        Self::new()
    }
}

impl EndpointRegistry {
    /// The claimed endpoints, in slot order.
    pub closed spec fn claimed(&self) -> Seq<(Seq<u8>, u16)> {
        Seq::new(self.count as nat, |i: int| endpoint_view(self.entries@[i]))
    }

    /// At most eight claims, each address at most 16 bytes, no endpoint
    /// claimed twice.
    pub closed spec fn wf(&self) -> bool {
        &&& self.entries@.len() == MAX_ENDPOINTS
        &&& self.count <= MAX_ENDPOINTS
        &&& forall|i: int| 0 <= i < MAX_ENDPOINTS ==> (#[trigger] self.entries@[i]).addr_len <= 16
        &&& forall|i: int, j: int|
            0 <= i < j < self.count ==> endpoint_view(#[trigger] self.entries@[i]) != endpoint_view(
                #[trigger] self.entries@[j],
            )
    }

    pub proof fn lemma_wf(&self)
        requires
            self.wf(),
        ensures
            self.claimed().len() <= MAX_ENDPOINTS,
            forall|i: int, j: int| 0 <= i < j < self.claimed().len() ==> self.claimed()[i] != self.claimed()[j],
    {
    }

    pub fn new() -> (r: Self)
        ensures
            r.wf(),
            r.claimed() == Seq::<(Seq<u8>, u16)>::empty(),
    {
        let mut entries: Vec<Endpoint> = Vec::new();
        while entries.len() < MAX_ENDPOINTS
            invariant
                entries@.len() <= MAX_ENDPOINTS,
                forall|i: int| 0 <= i < entries@.len() ==> (#[trigger] entries@[i]).addr_len <= 16,
            decreases MAX_ENDPOINTS - entries@.len(),
        {
            entries.push(Endpoint::default());
        }
        let r = EndpointRegistry { entries, count: 0 };
        assert(r.claimed() =~= Seq::<(Seq<u8>, u16)>::empty());
        r
    }

    fn matches(e: &Endpoint, addr: &[u8], port: u16) -> (b: bool)
        requires
            e.addr_len <= 16,
        ensures
            b == (endpoint_view(*e) == (addr@, port)),
    {
        if e.port != port || e.addr_len != addr.len() {
            return false;
        }
        let s = e.addr.as_slice();
        bytes_eq(&s[0..e.addr_len], addr)
    }

    fn find(&self, addr: &[u8], port: u16) -> (r: Option<usize>)
        requires
            self.wf(),
        ensures
            match r {
                Some(i) => i < self.claimed().len() && self.claimed()[i as int] == (addr@, port),
                None => !self.claimed().contains((addr@, port)),
            },
    {
        let mut i: usize = 0;
        while i < self.count
            invariant
                self.wf(),
                i <= self.count,
                forall|j: int| 0 <= j < i ==> self.claimed()[j] != (addr@, port),
            decreases self.count - i,
        {
            if Self::matches(&self.entries[i], addr, port) {
                return Some(i);
            }
            i = i + 1;
        }
        None
    }

    /// Whether the endpoint is claimed.
    pub fn owns(&self, addr: &[u8], port: u16) -> (b: bool)
        requires
            self.wf(),
        ensures
            b == self.claimed().contains((addr@, port)),
    {
        self.find(addr, port).is_some()
    }

    /// Claims the endpoint. Refused when it is already claimed, or when
    /// eight are.
    pub fn claim(&mut self, addr: &[u8], port: u16) -> (r: Result<(), ListenError>)
        requires
            old(self).wf(),
            addr@.len() <= 16,
        ensures
            final(self).wf(),
            (old(self).claimed().contains((addr@, port)) || old(self).claimed().len() >= MAX_ENDPOINTS)
                ==> r == Err::<(), ListenError>(ListenError::EndpointBusy) && final(self).claimed()
                == old(self).claimed(),
            !(old(self).claimed().contains((addr@, port)) || old(self).claimed().len() >= MAX_ENDPOINTS)
                ==> r is Ok && final(self).claimed() == old(self).claimed().push((addr@, port)),
    {
        if self.owns(addr, port) {
            return Err(ListenError::EndpointBusy);
        }
        if self.count >= MAX_ENDPOINTS {
            return Err(ListenError::EndpointBusy);
        }
        let mut a: [u8; 16] = [0u8; 16];
        let mut k: usize = 0;
        while k < addr.len()
            invariant
                addr@.len() <= 16,
                a@.len() == 16,
                k <= addr@.len(),
                forall|j: int| 0 <= j < k ==> a@[j] == addr@[j],
            decreases addr@.len() - k,
        {
            a[k] = addr[k];
            k = k + 1;
        }
        assert(a@.subrange(0, addr@.len() as int) =~= addr@);
        let ghost before = self.claimed();
        self.entries.set(self.count, Endpoint { addr: a, addr_len: addr.len(), port });
        self.count = self.count + 1;
        assert(self.claimed() =~= before.push((addr@, port)));
        assert forall|i: int, j: int| 0 <= i < j < self.count implies endpoint_view(
            #[trigger] self.entries@[i],
        ) != endpoint_view(#[trigger] self.entries@[j]) by {
            if j == self.count - 1 {
                assert(before[i] == endpoint_view(self.entries@[i]));
            }
        }
        Ok(())
    }

    /// Releases the endpoint: the last claim moves into its slot. An
    /// endpoint not claimed changes nothing.
    pub fn release(&mut self, addr: &[u8], port: u16)
        requires
            old(self).wf(),
        ensures
            final(self).wf(),
            !old(self).claimed().contains((addr@, port)) ==> final(self).claimed() == old(self).claimed(),
            forall|i: int|
                0 <= i < old(self).claimed().len() && old(self).claimed()[i] == (addr@, port)
                    ==> final(self).claimed() == old(self).claimed().update(i, old(self).claimed().last()).drop_last(),
    {
        match self.find(addr, port) {
            None => {},
            Some(i) => {
                let ghost before = self.claimed();
                let last = self.count - 1;
                if i != last {
                    let tmp_addr = self.entries[last].addr;
                    let tmp_len = self.entries[last].addr_len;
                    let tmp_port = self.entries[last].port;
                    self.entries.set(i, Endpoint { addr: tmp_addr, addr_len: tmp_len, port: tmp_port });
                }
                self.count = self.count - 1;
                assert(self.claimed() =~= before.update(i as int, before.last()).drop_last());
                assert forall|k: int|
                    0 <= k < before.len() && before[k] == (addr@, port) implies k == i by {
                    if k != i {
                        let (lo, hi) = if k < i { (k, i as int) } else { (i as int, k) };
                        assert(endpoint_view(old(self).entries@[lo]) != endpoint_view(old(self).entries@[hi]));
                    }
                }
                assert forall|a: int, b: int| 0 <= a < b < self.count implies endpoint_view(
                    #[trigger] self.entries@[a],
                ) != endpoint_view(#[trigger] self.entries@[b]) by {
                    assert(self.claimed()[a] == endpoint_view(self.entries@[a]));
                    assert(self.claimed()[b] == endpoint_view(self.entries@[b]));
                    if a == i {
                        assert(endpoint_view(old(self).entries@[last as int]) != endpoint_view(old(self).entries@[b]));
                    } else if b == i {
                        assert(endpoint_view(old(self).entries@[a]) != endpoint_view(old(self).entries@[last as int]));
                    } else {
                        assert(endpoint_view(old(self).entries@[a]) != endpoint_view(old(self).entries@[b]));
                    }
                }
            },
        }
    }

    pub fn count(&self) -> (n: usize)
        requires
            self.wf(),
        ensures
            n == self.claimed().len(),
    {
        self.count
    }
}

} // verus!
