//! resolver: canonical resource identity.
//!
//! Consumes a proposed resource_id byte string and returns the canonical
//! form drawn from the operator-declared set. The requester proposes, the
//! executor resolves. The declared set is seen as `canonicals()` and the
//! alias pool as `alias_pool()`.

use vstd::prelude::*;
use crate::codec::{bytes_eq, hex_digit_of, hex_encode, push_bytes, push_u16be, u16_bytes};
use crate::crypto;
use crate::state::intent;

verus! {

pub const FP_BYTES: usize = 8;
pub const FP_HEX_LEN: usize = 16;
pub const NS_MAX: usize = 32;
pub const PATH_MAX: usize = 180;
pub const ID_MAX: usize = 234;
pub const DOMAIN_RESOURCE_SET: u8 = 0x08;

pub const MAX_RESOURCES: usize = 32;
pub const MAX_ALIASES: usize = 64;

#[derive(Debug, Clone, Copy, PartialEq, Eq, Structural)]
pub enum ResolveError {
    MalformedCanonical,
    SetFull,
    AliasPoolFull,
    DuplicateEntry,
    UnknownResource,
    AmbiguousResource,
    ForeignExecutor,
    BufferTooSmall,
    /// The intent table refused the admission of a resolved resource.
    Intent(intent::IntentError),
}

pub struct Entry {
    canonical: [u8; ID_MAX],
    len: usize,
}

pub struct Alias {
    bytes: [u8; ID_MAX],
    len: usize,
    entry: usize,
}

// --- executor fingerprint: hex16 of BLAKE2s-256(sig_pubkey)[0..8] ----------

pub open spec fn spec_executor_fp(sig_pubkey: Seq<u8>) -> Seq<u8> {
    hex_encode(crypto::blake2s256_spec(sig_pubkey).subrange(0, FP_BYTES as int))
}

/// BLAKE2s-256(sig_pubkey)[0..8], rendered as 16 lowercase hex characters.
pub fn executor_fp(sig_pubkey: &[u8]) -> (fp: [u8; FP_HEX_LEN])
    ensures
        fp@ == spec_executor_fp(sig_pubkey@),
{
    let digest = crypto::blake2s256(sig_pubkey);
    let mut out = [0u8; FP_HEX_LEN];
    let mut i: usize = 0;
    while i < FP_BYTES
        invariant
            i <= FP_BYTES,
            digest@ == crypto::blake2s256_spec(sig_pubkey@),
            out@.len() == FP_HEX_LEN,
            forall|k: int|
                0 <= k < 2 * i ==> out@[k] == hex_encode(digest@.subrange(0, FP_BYTES as int))[k],
        decreases FP_BYTES - i,
    {
        let b = digest[i];
        out[2 * i] = hex_digit_of(b / 16);
        out[2 * i + 1] = hex_digit_of(b % 16);
        i = i + 1;
    }
    assert(out@ =~= hex_encode(digest@.subrange(0, FP_BYTES as int)));
    out
}

// --- canonical grammar: "bol:" fp "/" namespace "/" path -------------------

pub open spec fn is_hex_lower(c: u8) -> bool {
    (48 <= c && c <= 57) || (97 <= c && c <= 102)
}

pub open spec fn is_ns_char(c: u8) -> bool {
    (97 <= c && c <= 122) || (48 <= c && c <= 57) || c == 45
}

pub open spec fn is_path_char(c: u8) -> bool {
    is_ns_char(c) || c == 46 || c == 95
}

/// `p[i..]` starts a segment of `p` (the path's start, or just after '/').
pub open spec fn seg_start(p: Seq<u8>, i: int) -> bool {
    i == 0 || p[i - 1] == 47
}

/// `p[..j]` ends a segment of `p` (the path's end, or just before '/').
pub open spec fn seg_end(p: Seq<u8>, j: int) -> bool {
    j == p.len() || p[j] == 47
}

/// A path: 1..=180 path characters and slashes, no empty segment, no
/// segment that is "." or "..".
pub open spec fn valid_path(p: Seq<u8>) -> bool {
    &&& 1 <= p.len() <= PATH_MAX
    &&& forall|i: int| 0 <= i < p.len() ==> is_path_char(#[trigger] p[i]) || p[i] == 47
    &&& forall|i: int| 0 <= i < p.len() && #[trigger] p[i] == 47 ==> i > 0 && p[i - 1] != 47
    &&& p.last() != 47
    &&& !exists|i: int|
        0 <= i < p.len() && seg_start(p, i) && #[trigger] p[i] == 46 && (seg_end(p, i + 1) || (i
            + 1 < p.len() && p[i + 1] == 46 && seg_end(p, i + 2)))
}

pub open spec fn bol_prefix() -> Seq<u8> {
    seq![98u8, 111u8, 108u8, 58u8]
}

/// The canonical grammar.
pub open spec fn spec_valid_canonical(id: Seq<u8>) -> bool {
    &&& id.len() >= 4 + FP_HEX_LEN + 3
    &&& id.subrange(0, 4) == bol_prefix()
    &&& forall|i: int| 4 <= i < 4 + FP_HEX_LEN ==> is_hex_lower(#[trigger] id[i])
    &&& id[20] == 47
    &&& exists|e: int|
        21 < e < id.len() && e - 21 <= NS_MAX && id[e] == 47 && (forall|k: int|
            21 <= k < e ==> is_ns_char(#[trigger] id[k])) && valid_path(
            id.subrange(e + 1, id.len() as int),
        )
}

fn is_hex_lower_byte(c: u8) -> (r: bool)
    ensures
        r == is_hex_lower(c),
{
    (48 <= c && c <= 57) || (97 <= c && c <= 102)
}

fn is_ns_byte(c: u8) -> (r: bool)
    ensures
        r == is_ns_char(c),
{
    (97 <= c && c <= 122) || (48 <= c && c <= 57) || c == 45
}

fn is_path_byte(c: u8) -> (r: bool)
    ensures
        r == is_path_char(c),
{
    is_ns_byte(c) || c == 46 || c == 95
}

fn seg_len_invalid(seg_len: usize, dots: usize) -> (r: bool)
    ensures
        r == (seg_len == 0 || (dots == seg_len && seg_len <= 2)),
{
    seg_len == 0 || (dots == seg_len && seg_len <= 2)
}

/// Checks the path part of a canonical id.
#[verifier::rlimit(40)]
fn validate_path(p: &[u8]) -> (ok: bool)
    ensures
        ok == valid_path(p@),
{
    let mut pos: usize = 0;
    let mut seg_len: usize = 0;
    let mut dots: usize = 0;
    let ghost mut cs: int = 0;
    while pos < p.len()
        invariant
            pos <= p@.len(),
            0 <= cs <= pos,
            seg_len == pos - cs,
            cs == 0 || p@[cs - 1] == 47,
            forall|k: int| cs <= k < pos ==> p@[k] != 47,
            dots <= seg_len,
            (dots == seg_len) <==> (forall|k: int| cs <= k < pos ==> p@[k] == 46),
            forall|i: int| 0 <= i < pos ==> is_path_char(#[trigger] p@[i]) || p@[i] == 47,
            forall|i: int| 0 <= i < pos && #[trigger] p@[i] == 47 ==> i > 0 && p@[i - 1] != 47,
            !exists|i: int|
                0 <= i && i + 1 < cs && seg_start(p@, i) && #[trigger] p@[i] == 46 && (seg_end(
                    p@,
                    i + 1,
                ) || (i + 1 < p@.len() && p@[i + 1] == 46 && seg_end(p@, i + 2))),
        decreases p@.len() - pos,
    {
        let c = p[pos];
        if !is_path_byte(c) && c != 47 {
            return false;
        }
        if c == 47 {
            if seg_len_invalid(seg_len, dots) {
                proof {
                    if seg_len != 0 {
                        // a "." or ".." segment sits at cs
                        assert(seg_start(p@, cs) && p@[cs] == 46);
                        if seg_len == 1 {
                            assert(seg_end(p@, cs + 1));
                        } else {
                            assert(p@[cs + 1] == 46 && seg_end(p@, cs + 2));
                        }
                    } else {
                        assert(p@[pos as int] == 47);
                    }
                }
                return false;
            }
            proof {
                assert forall|i: int|
                    0 <= i && i + 1 < pos + 1 && seg_start(p@, i) && #[trigger] p@[i] == 46 implies !(
                seg_end(p@, i + 1) || (i + 1 < p@.len() && p@[i + 1] == 46 && seg_end(
                    p@,
                    i + 2,
                ))) by {
                    if i >= cs {
                        if i > cs {
                            assert(p@[i - 1] != 47);
                        }
                        if seg_end(p@, i + 1) {
                            assert(i + 1 == pos);
                        }
                    }
                }
                cs = pos + 1;
            }
            seg_len = 0;
            dots = 0;
        } else {
            seg_len = seg_len + 1;
            if c == 46 {
                dots = dots + 1;
            }
        }
        pos = pos + 1;
    }
    if seg_len_invalid(seg_len, dots) {
        proof {
            if seg_len != 0 {
                assert(seg_start(p@, cs) && p@[cs] == 46);
                if seg_len == 1 {
                    assert(seg_end(p@, cs + 1));
                } else {
                    assert(p@[cs + 1] == 46 && seg_end(p@, cs + 2));
                }
            } else if p@.len() > 0 {
                assert(p@.last() == 47);
            }
        }
        return false;
    }
    proof {
        assert forall|i: int|
            0 <= i < p@.len() && seg_start(p@, i) && #[trigger] p@[i] == 46 implies !(seg_end(
            p@,
            i + 1,
        ) || (i + 1 < p@.len() && p@[i + 1] == 46 && seg_end(p@, i + 2))) by {
            if i >= cs {
                if i > cs {
                    assert(p@[i - 1] != 47);
                }
                if i + 1 < p@.len() {
                    assert(p@[i + 1] != 47);
                }
            }
        }
    }
    p.len() >= 1 && p.len() <= PATH_MAX
}

/// The canonical grammar: "bol:" fp "/" namespace "/" path.
pub fn validate_canonical(id: &[u8]) -> (ok: bool)
    ensures
        ok == spec_valid_canonical(id@),
{
    if id.len() < 4 + FP_HEX_LEN + 3 {
        return false;
    }
    if !(id[0] == 98 && id[1] == 111 && id[2] == 108 && id[3] == 58) {
        assert(id@.subrange(0, 4)[0] == id@[0]);
        assert(id@.subrange(0, 4)[1] == id@[1]);
        assert(id@.subrange(0, 4)[2] == id@[2]);
        assert(id@.subrange(0, 4)[3] == id@[3]);
        return false;
    }
    assert(id@.subrange(0, 4) =~= bol_prefix());
    let mut i: usize = 4;
    while i < 4 + FP_HEX_LEN
        invariant
            4 <= i <= 4 + FP_HEX_LEN,
            id@.len() >= 4 + FP_HEX_LEN + 3,
            forall|k: int| 4 <= k < i ==> is_hex_lower(#[trigger] id@[k]),
        decreases 4 + FP_HEX_LEN - i,
    {
        if !is_hex_lower_byte(id[i]) {
            return false;
        }
        i = i + 1;
    }
    let mut pos: usize = 4 + FP_HEX_LEN;
    if id[pos] != 47 {
        return false;
    }
    pos = pos + 1;
    let ns_start = pos;
    while pos < id.len() && id[pos] != 47
        invariant
            ns_start == 21 <= pos <= id@.len(),
            forall|k: int| 21 <= k < pos ==> is_ns_char(#[trigger] id@[k]) && id@[k] != 47,
        decreases id@.len() - pos,
    {
        if !is_ns_byte(id[pos]) {
            proof {
                assert forall|e: int|
                    21 < e < id@.len() && id@[e] == 47 implies !(forall|k: int|
                    21 <= k < e ==> is_ns_char(#[trigger] id@[k])) by {
                    assert(e > pos);
                    assert(!is_ns_char(id@[pos as int]));
                }
            }
            return false;
        }
        pos = pos + 1;
    }
    let ns_len = pos - ns_start;
    if ns_len < 1 || ns_len > NS_MAX || pos >= id.len() || id[pos] != 47 {
        proof {
            assert forall|e: int|
                21 < e < id@.len() && e - 21 <= NS_MAX && id@[e] == 47 && (forall|k: int|
                    21 <= k < e ==> is_ns_char(#[trigger] id@[k])) implies false by {
                if e < pos {
                    assert(id@[e] != 47);
                }
            }
        }
        return false;
    }
    let ok = validate_path(&id[pos + 1..id.len()]);
    proof {
        if !ok {
            assert forall|e: int|
                21 < e < id@.len() && e - 21 <= NS_MAX && id@[e] == 47 && (forall|k: int|
                    21 <= k < e ==> is_ns_char(#[trigger] id@[k])) implies !valid_path(
                id@.subrange(e + 1, id@.len() as int),
            ) by {
                if e < pos {
                    assert(id@[e] != 47);
                }
            }
        }
    }
    ok
}

// --- the resolver ---------------------------------------------------------

pub struct Resolver {
    own_fp: [u8; FP_HEX_LEN],
    entries: Vec<Entry>,
    aliases: Vec<Alias>,
}

impl Entry {
    pub closed spec fn bytes(self) -> Seq<u8> {
        self.canonical@.subrange(0, self.len as int)
    }
}

impl Alias {
    pub closed spec fn text(self) -> Seq<u8> {
        self.bytes@.subrange(0, self.len as int)
    }

    pub closed spec fn target(self) -> int {
        self.entry as int
    }
}

impl Resolver {
    /// The fingerprint of the executor this resolver serves.
    pub closed spec fn fp(&self) -> Seq<u8> {
        self.own_fp@
    }

    /// The declared canonical ids, in declaration order.
    pub closed spec fn canonicals(&self) -> Seq<Seq<u8>> {
        self.entries@.map_values(|e: Entry| e.bytes())
    }

    /// The alias pool: each alias text with the index of its canonical id.
    pub closed spec fn alias_pool(&self) -> Seq<(Seq<u8>, int)> {
        self.aliases@.map_values(|a: Alias| (a.text(), a.target()))
    }

    /// The resolver's invariant.
    pub closed spec fn wf(&self) -> bool {
        &&& self.entries@.len() <= MAX_RESOURCES
        &&& self.aliases@.len() <= MAX_ALIASES
        &&& forall|i: int|
            0 <= i < self.entries@.len() ==> (#[trigger] self.entries@[i]).len <= ID_MAX
                && spec_valid_canonical(self.entries@[i].bytes())
        &&& forall|i: int|
            0 <= i < self.aliases@.len() ==> (#[trigger] self.aliases@[i]).len <= ID_MAX
                && self.aliases@[i].entry < self.entries@.len()
    }

    pub open spec fn declared(&self, canonical: Seq<u8>) -> bool {
        exists|i: int| 0 <= i < self.canonicals().len() && self.canonicals()[i] == canonical
    }

    /// Proposal `p` names declared resource `i`, by its canonical id or by
    /// one of its aliases.
    pub open spec fn hits(&self, i: int, p: Seq<u8>) -> bool {
        self.canonicals()[i] == p || exists|k: int|
            0 <= k < self.alias_pool().len() && self.alias_pool()[k].1 == i
                && self.alias_pool()[k].0 == p
    }

    /// What `resolve` owes for a proposal.
    pub open spec fn spec_resolve(&self, p: Seq<u8>) -> Result<Seq<u8>, ResolveError> {
        let n = self.canonicals().len();
        if exists|i: int, j: int| 0 <= i < j < n && self.hits(i, p) && self.hits(j, p) {
            Err(ResolveError::AmbiguousResource)
        } else if !exists|i: int| 0 <= i < n && self.hits(i, p) {
            Err(ResolveError::UnknownResource)
        } else {
            let i = choose|i: int| 0 <= i < n && self.hits(i, p);
            let c = self.canonicals()[i];
            if c.subrange(4, 4 + FP_HEX_LEN as int) != self.fp() {
                Err(ResolveError::ForeignExecutor)
            } else {
                Ok(c)
            }
        }
    }

    pub fn new(sig_pubkey: &[u8]) -> (r: Self)
        ensures
            r.wf(),
            r.fp() == spec_executor_fp(sig_pubkey@),
            r.canonicals() == Seq::<Seq<u8>>::empty(),
            r.alias_pool() == Seq::<(Seq<u8>, int)>::empty(),
    {
        let r = Self { own_fp: executor_fp(sig_pubkey), entries: Vec::new(), aliases: Vec::new() };
        assert(r.canonicals() =~= Seq::<Seq<u8>>::empty());
        assert(r.alias_pool() =~= Seq::<(Seq<u8>, int)>::empty());
        r
    }

    fn find_entry(&self, canonical: &[u8]) -> (r: Option<usize>)
        requires
            self.wf(),
        ensures
            match r {
                Some(i) => i < self.canonicals().len() && self.canonicals()[i as int]
                    == canonical@,
                None => !self.declared(canonical@),
            },
    {
        let mut i: usize = 0;
        while i < self.entries.len()
            invariant
                self.wf(),
                i <= self.entries@.len(),
                forall|k: int| 0 <= k < i ==> self.canonicals()[k] != canonical@,
            decreases self.entries@.len() - i,
        {
            let e = &self.entries[i];
            if e.len == canonical.len() && bytes_eq(&e.canonical[0..e.len], canonical) {
                return Some(i);
            }
            i = i + 1;
        }
        None
    }

    fn alias_hits(&self, entry_idx: usize, proposed: &[u8]) -> (r: bool)
        requires
            self.wf(),
        ensures
            r == exists|k: int|
                0 <= k < self.alias_pool().len() && self.alias_pool()[k].1 == entry_idx
                    && self.alias_pool()[k].0 == proposed@,
    {
        let mut k: usize = 0;
        while k < self.aliases.len()
            invariant
                self.wf(),
                k <= self.aliases@.len(),
                forall|j: int|
                    0 <= j < k ==> !(self.alias_pool()[j].1 == entry_idx && self.alias_pool()[j].0
                        == proposed@),
            decreases self.aliases@.len() - k,
        {
            let a = &self.aliases[k];
            if a.entry == entry_idx && a.len == proposed.len() && bytes_eq(
                &a.bytes[0..a.len],
                proposed,
            ) {
                assert(self.alias_pool()[k as int].1 == entry_idx && self.alias_pool()[k as int].0
                    == proposed@);
                return true;
            }
            k = k + 1;
        }
        false
    }

    /// Declare a canonical resource id.
    pub fn add(&mut self, canonical: &[u8]) -> (r: Result<(), ResolveError>)
        requires
            old(self).wf(),
        ensures
            final(self).wf(),
            final(self).fp() == old(self).fp(),
            final(self).alias_pool() == old(self).alias_pool(),
            r == (if !spec_valid_canonical(canonical@) || canonical@.len() > ID_MAX {
                Err(ResolveError::MalformedCanonical)
            } else if old(self).canonicals().len() == MAX_RESOURCES {
                Err(ResolveError::SetFull)
            } else if old(self).declared(canonical@) {
                Err(ResolveError::DuplicateEntry)
            } else {
                Ok(())
            }),
            r is Ok ==> final(self).canonicals() == old(self).canonicals().push(canonical@),
            r is Err ==> final(self).canonicals() == old(self).canonicals(),
    {
        if !validate_canonical(canonical) {
            return Err(ResolveError::MalformedCanonical);
        }
        if canonical.len() > ID_MAX {
            return Err(ResolveError::MalformedCanonical);
        }
        if self.entries.len() == MAX_RESOURCES {
            return Err(ResolveError::SetFull);
        }
        if self.find_entry(canonical).is_some() {
            return Err(ResolveError::DuplicateEntry);
        }
        let mut buf = [0u8; ID_MAX];
        let mut k: usize = 0;
        while k < canonical.len()
            invariant
                canonical@.len() <= ID_MAX,
                k <= canonical@.len(),
                buf@.len() == ID_MAX,
                forall|j: int| 0 <= j < k ==> buf@[j] == canonical@[j],
            decreases canonical@.len() - k,
        {
            buf[k] = canonical[k];
            k = k + 1;
        }
        let e = Entry { canonical: buf, len: canonical.len() };
        assert(e.bytes() =~= canonical@);
        self.entries.push(e);
        assert(self.canonicals() =~= old(self).canonicals().push(canonical@));
        assert(self.alias_pool() =~= old(self).alias_pool());
        Ok(())
    }

    /// Declare an alias for a declared canonical id.
    pub fn add_alias(&mut self, canonical: &[u8], alias: &[u8]) -> (r: Result<(), ResolveError>)
        requires
            old(self).wf(),
        ensures
            final(self).wf(),
            final(self).fp() == old(self).fp(),
            final(self).canonicals() == old(self).canonicals(),
            r == (if alias@.len() == 0 || alias@.len() > ID_MAX {
                Err(ResolveError::MalformedCanonical)
            } else if !old(self).declared(canonical@) {
                Err(ResolveError::UnknownResource)
            } else if old(self).alias_pool().len() == MAX_ALIASES {
                Err(ResolveError::AliasPoolFull)
            } else {
                Ok(())
            }),
            r is Ok ==> exists|i: int|
                0 <= i < old(self).canonicals().len() && old(self).canonicals()[i] == canonical@
                    && final(self).alias_pool() == old(self).alias_pool().push((alias@, i)),
            r is Err ==> final(self).alias_pool() == old(self).alias_pool(),
    {
        if alias.len() == 0 || alias.len() > ID_MAX {
            return Err(ResolveError::MalformedCanonical);
        }
        let idx = match self.find_entry(canonical) {
            Some(i) => i,
            None => return Err(ResolveError::UnknownResource),
        };
        if self.aliases.len() == MAX_ALIASES {
            return Err(ResolveError::AliasPoolFull);
        }
        let mut buf = [0u8; ID_MAX];
        let mut k: usize = 0;
        while k < alias.len()
            invariant
                alias@.len() <= ID_MAX,
                k <= alias@.len(),
                buf@.len() == ID_MAX,
                forall|j: int| 0 <= j < k ==> buf@[j] == alias@[j],
            decreases alias@.len() - k,
        {
            buf[k] = alias[k];
            k = k + 1;
        }
        let a = Alias { bytes: buf, len: alias.len(), entry: idx };
        assert(a.text() =~= alias@);
        self.aliases.push(a);
        assert(self.alias_pool() =~= old(self).alias_pool().push((alias@, idx as int)));
        assert(self.canonicals() =~= old(self).canonicals());
        Ok(())
    }

    /// The canonical id a proposal names, if exactly one declared resource
    /// answers to it and it belongs to this executor.
    pub fn resolve(&self, proposed: &[u8]) -> (r: Result<&[u8], ResolveError>)
        requires
            self.wf(),
        ensures
            match r {
                Ok(c) => self.spec_resolve(proposed@) == Ok::<Seq<u8>, ResolveError>(c@),
                Err(e) => self.spec_resolve(proposed@) == Err::<Seq<u8>, ResolveError>(e),
            },
    {
        let mut found: Option<usize> = None;
        let mut i: usize = 0;
        while i < self.entries.len()
            invariant
                self.wf(),
                i <= self.entries@.len(),
                !exists|a: int, b: int| 0 <= a < b < i && self.hits(a, proposed@) && self.hits(
                    b,
                    proposed@,
                ),
                match found {
                    Some(f) => f < i && self.hits(f as int, proposed@) && forall|a: int|
                        0 <= a < i && a != f ==> !self.hits(a, proposed@),
                    None => forall|a: int| 0 <= a < i ==> !self.hits(a, proposed@),
                },
            decreases self.entries@.len() - i,
        {
            let e = &self.entries[i];
            let mut hit = e.len == proposed.len() && bytes_eq(&e.canonical[0..e.len], proposed);
            if !hit {
                hit = self.alias_hits(i, proposed);
            }
            assert(hit == self.hits(i as int, proposed@));
            if hit {
                match found {
                    Some(f) => {
                        if f != i {
                            assert(self.hits(f as int, proposed@) && self.hits(i as int, proposed@));
                            return Err(ResolveError::AmbiguousResource);
                        }
                    },
                    None => {},
                }
                if found.is_none() {
                    found = Some(i);
                }
            }
            i = i + 1;
        }
        let idx = match found {
            Some(f) => f,
            None => return Err(ResolveError::UnknownResource),
        };
        let e = &self.entries[idx];
        let c = &e.canonical[0..e.len];
        assert(c@ == self.canonicals()[idx as int]);
        proof {
            let n = self.canonicals().len();
            let ch = choose|j: int| 0 <= j < n && self.hits(j, proposed@);
            assert(ch == idx);
        }
        if !bytes_eq(&c[4..4 + FP_HEX_LEN], self.own_fp.as_slice()) {
            return Err(ResolveError::ForeignExecutor);
        }
        Ok(c)
    }

    /// Bytes the serialized set occupies.
    pub fn serialized_len(&self) -> (n: usize)
        requires
            self.wf(),
        ensures
            n == self.spec_serialized_len(),
    {
        let mut n: usize = 0;
        let mut i: usize = 0;
        while i < self.entries.len()
            invariant
                self.wf(),
                i <= self.entries@.len(),
                n == self.serialized_len_upto(i as int),
                n <= 15342 * i,
            decreases self.entries@.len() - i,
        {
            let e = &self.entries[i];
            assert(e.len <= ID_MAX);
            let mut m: usize = 2 + e.len + 2;
            let mut k: usize = 0;
            while k < self.aliases.len()
                invariant
                    self.wf(),
                    i < self.entries@.len(),
                    k <= self.aliases@.len(),
                    m == 4 + self.canonicals()[i as int].len() + self.alias_bytes_upto(i as int, k as int),
                    m <= 238 + 236 * k,
                    self.aliases@.len() <= 64,
                decreases self.aliases@.len() - k,
            {
                let a = &self.aliases[k];
                assert(a.len <= ID_MAX);
                if a.entry == i {
                    m = m + 2 + a.len;
                }
                k = k + 1;
            }
            n = n + m;
            i = i + 1;
        }
        n
    }

    /// Bytes the aliases `[0, k)` of entry `i` add to its record.
    pub open spec fn alias_bytes_upto(&self, i: int, k: int) -> nat
        decreases k,
    {
        if k <= 0 {
            0
        } else {
            self.alias_bytes_upto(i, k - 1) + if self.alias_pool()[k - 1].1 == i {
                (2 + self.alias_pool()[k - 1].0.len()) as nat
            } else {
                0nat
            }
        }
    }

    /// Bytes the records of entries `[0, i)` occupy.
    pub closed spec fn serialized_len_upto(&self, i: int) -> nat
        decreases i,
    {
        if i <= 0 {
            0
        } else {
            self.serialized_len_upto(i - 1) + 4 + self.canonicals()[i - 1].len()
                + self.alias_bytes_upto(i - 1, self.alias_pool().len() as int)
        }
    }

    pub open spec fn spec_serialized_len(&self) -> nat {
        self.serialized_len_upto(self.canonicals().len() as int)
    }

    /// How many aliases among `[0, k)` of the pool name entry `i`.
    pub open spec fn alias_count_upto(&self, i: int, k: int) -> nat
        decreases k,
    {
        if k <= 0 {
            0
        } else {
            self.alias_count_upto(i, k - 1) + if self.alias_pool()[k - 1].1 == i {
                1nat
            } else {
                0nat
            }
        }
    }

    /// The alias records of entry `i` drawn from pool slots `[0, k)`: each a
    /// big-endian u16 length and the alias text.
    pub open spec fn alias_records_upto(&self, i: int, k: int) -> Seq<u8>
        decreases k,
    {
        if k <= 0 {
            Seq::empty()
        } else {
            self.alias_records_upto(i, k - 1) + if self.alias_pool()[k - 1].1 == i {
                u16_bytes(self.alias_pool()[k - 1].0.len() as u16) + self.alias_pool()[k - 1].0
            } else {
                Seq::empty()
            }
        }
    }

    /// The record of entry `i`: u16 length, canonical id, u16 alias count,
    /// then its alias records in pool order.
    pub open spec fn entry_record(&self, i: int) -> Seq<u8> {
        let p = self.alias_pool().len() as int;
        u16_bytes(self.canonicals()[i].len() as u16) + self.canonicals()[i] + u16_bytes(
            self.alias_count_upto(i, p) as u16,
        ) + self.alias_records_upto(i, p)
    }

    /// The records of entries `[0, i)`, in declaration order.
    pub open spec fn serialized_upto(&self, i: int) -> Seq<u8>
        decreases i,
    {
        if i <= 0 {
            Seq::empty()
        } else {
            self.serialized_upto(i - 1) + self.entry_record(i - 1)
        }
    }

    /// The serialized resource set.
    pub open spec fn spec_serialize(&self) -> Seq<u8> {
        self.serialized_upto(self.canonicals().len() as int)
    }

    proof fn lemma_alias_records_len(&self, i: int, k: int)
        ensures
            self.alias_records_upto(i, k).len() == self.alias_bytes_upto(i, k),
        decreases k,
    {
        if k > 0 {
            self.lemma_alias_records_len(i, k - 1);
        }
    }

    proof fn lemma_serialized_upto_len(&self, i: int)
        requires
            0 <= i <= self.canonicals().len(),
        ensures
            self.serialized_upto(i).len() == self.serialized_len_upto(i),
        decreases i,
    {
        if i > 0 {
            self.lemma_serialized_upto_len(i - 1);
            self.lemma_alias_records_len(i - 1, self.alias_pool().len() as int);
        }
    }

    /// The serialized set is exactly `serialized_len` bytes long.
    pub proof fn lemma_serialize_len(&self)
        ensures
            self.spec_serialize().len() == self.spec_serialized_len(),
    {
        self.lemma_serialized_upto_len(self.canonicals().len() as int);
    }

    /// Writes the resource set into `out`: per entry a u16 length, the
    /// canonical id, a u16 alias count and that many (u16 length, alias)
    /// records. Refuses a buffer shorter than `serialized_len`.
    pub fn serialize(&self, out: &mut [u8]) -> (r: Result<usize, ResolveError>)
        requires
            self.wf(),
        ensures
            final(out)@.len() == old(out)@.len(),
            old(out)@.len() < self.spec_serialized_len() ==> r == Err::<usize, ResolveError>(
                ResolveError::BufferTooSmall,
            ) && final(out)@ == old(out)@,
            old(out)@.len() >= self.spec_serialized_len() ==> r == Ok::<usize, ResolveError>(
                self.spec_serialized_len() as usize,
            ) && final(out)@ == self.spec_serialize() + old(out)@.subrange(
                self.spec_serialized_len() as int,
                old(out)@.len() as int,
            ),
    {
        let total = self.serialized_len();
        if out.len() < total {
            return Err(ResolveError::BufferTooSmall);
        }
        let mut buf: Vec<u8> = Vec::new();
        let mut i: usize = 0;
        while i < self.entries.len()
            invariant
                self.wf(),
                i <= self.entries@.len(),
                buf@ == self.serialized_upto(i as int),
            decreases self.entries@.len() - i,
        {
            let e = &self.entries[i];
            assert(e.len <= ID_MAX);
            let ghost before = buf@;
            push_u16be(&mut buf, e.len as u16);
            push_bytes(&mut buf, &e.canonical[0..e.len]);
            let mut n_alias: usize = 0;
            let mut k: usize = 0;
            while k < self.aliases.len()
                invariant
                    self.wf(),
                    i < self.entries@.len(),
                    k <= self.aliases@.len(),
                    n_alias == self.alias_count_upto(i as int, k as int),
                    n_alias <= k,
                    self.aliases@.len() <= 64,
                decreases self.aliases@.len() - k,
            {
                if self.aliases[k].entry == i {
                    n_alias = n_alias + 1;
                }
                k = k + 1;
            }
            push_u16be(&mut buf, n_alias as u16);
            let ghost mid = buf@;
            k = 0;
            while k < self.aliases.len()
                invariant
                    self.wf(),
                    i < self.entries@.len(),
                    k <= self.aliases@.len(),
                    buf@ == mid + self.alias_records_upto(i as int, k as int),
                decreases self.aliases@.len() - k,
            {
                let a = &self.aliases[k];
                assert(a.len <= ID_MAX);
                if a.entry == i {
                    push_u16be(&mut buf, a.len as u16);
                    push_bytes(&mut buf, &a.bytes[0..a.len]);
                }
                proof {
                    assert(self.alias_pool()[k as int] == (a.text(), a.target()));
                }
                k = k + 1;
            }
            proof {
                assert(buf@ =~= before + self.entry_record(i as int));
            }
            i = i + 1;
        }
        proof {
            self.lemma_serialize_len();
        }
        let n = buf.len();
        let mut j: usize = 0;
        while j < n
            invariant
                n == buf@.len(),
                n <= out@.len(),
                j <= n,
                out@.len() == old(out)@.len(),
                forall|t: int| 0 <= t < j ==> out@[t] == buf@[t],
                forall|t: int| j <= t < out@.len() ==> out@[t] == old(out)@[t],
            decreases n - j,
        {
            out[j] = buf[j];
            j = j + 1;
        }
        assert(out@ =~= buf@ + old(out)@.subrange(n as int, old(out)@.len() as int));
        Ok(n)
    }

    /// Resolves, then admits into the intent table. The
    /// entry admitted carries the canonical bytes, so the lock keys on the
    /// executor's form, never the requester's.
    pub fn resolve_and_admit(
        &self,
        table: &mut intent::Table,
        intent_id: &[u8; intent::LEN_INTENT_ID],
        resource_id: &[u8],
        now_ms: u64,
    ) -> (r: Result<(), ResolveError>)
        requires
            self.wf(),
            old(table).lengths_ok(),
        ensures
            match self.spec_resolve(resource_id@) {
                Err(e) => r == Err::<(), ResolveError>(e) && final(table).entries@ == old(table).entries@,
                Ok(c) => match intent::spec_admit(old(table).entries@, intent_id@, c) {
                    Err(ie) => r == Err::<(), ResolveError>(ResolveError::Intent(ie)) && final(table).entries@ == old(table).entries@,
                    Ok(()) => r is Ok && final(table).entries@.len() == old(table).entries@.len()
                        + 1 && final(table).entries@.drop_last() == old(table).entries@ && final(table).entries@.last().resource() == c && final(table).entries@.last().intent_id@
                        == intent_id@ && final(table).entries@.last().state == intent::State::Pending
                        && final(table).entries@.last().admitted_ms == now_ms,
                },
            },
            old(table).wf() ==> final(table).wf(),
    {
        let canonical = self.resolve(resource_id)?;
        let mut canonical_buf = [0u8; intent::MAX_RESOURCE];
        if canonical.len() > canonical_buf.len() {
            proof {
                self.lemma_canonical_fits(resource_id@);
            }
            return Err(ResolveError::MalformedCanonical);
        }
        let mut k: usize = 0;
        while k < canonical.len()
            invariant
                canonical@.len() <= intent::MAX_RESOURCE,
                k <= canonical@.len(),
                canonical_buf@.len() == intent::MAX_RESOURCE,
                forall|j: int| 0 <= j < k ==> canonical_buf@[j] == canonical@[j],
            decreases canonical@.len() - k,
        {
            canonical_buf[k] = canonical[k];
            k = k + 1;
        }
        assert(canonical_buf@.subrange(0, canonical@.len() as int) =~= canonical@);
        match table.try_admit(intent_id, &canonical_buf, canonical.len(), now_ms) {
            Ok(()) => Ok(()),
            Err(e) => Err(ResolveError::Intent(e)),
        }
    }

    proof fn lemma_canonical_fits(&self, p: Seq<u8>)
        requires
            self.wf(),
            self.spec_resolve(p) is Ok,
        ensures
            self.spec_resolve(p)->Ok_0.len() <= intent::MAX_RESOURCE,
    {
        let n = self.canonicals().len();
        let i = choose|i: int| 0 <= i < n && self.hits(i, p);
        assert(self.entries@[i].len <= ID_MAX);
    }
}

} // verus!
